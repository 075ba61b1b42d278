//! Import unification: after patching and appending, every line whose
//! trimmed text begins with the import prefix is hoisted out of the body,
//! de-duplicated by trimmed equality (first seen wins), sorted
//! lexicographically, and stitched back on top of the remaining body.

use vstd::prelude::*;
use vstd::string::StringSliceAdditionalSpecFns;

use crate::bytes::{
    bytes_eq, bytes_le, copy_range, is_prefix, is_ws, lex_le, push_all, spec_trim, starts_with,
    trim,
};

verus! {

/// Views of a list of byte-string lines.
pub open spec fn lines_view(ls: Seq<Vec<u8>>) -> Seq<Seq<u8>> {
    ls.map_values(|l: Vec<u8>| l@)
}

/// A completed line drops one carriage return left before its newline.
pub open spec fn spec_strip_cr(l: Seq<u8>) -> Seq<u8> {
    if l.len() > 0 && l.last() == 0x0d {
        l.drop_last()
    } else {
        l
    }
}

/// Completed lines of `s` and the unterminated tail, reading left to right.
pub open spec fn spec_scan_lines(s: Seq<u8>) -> (Seq<Seq<u8>>, Seq<u8>)
    decreases s.len(),
{
    if s.len() == 0 {
        (Seq::empty(), Seq::empty())
    } else {
        let prior = spec_scan_lines(s.drop_last());
        if s.last() == 0x0a {
            (prior.0.push(spec_strip_cr(prior.1)), Seq::empty())
        } else {
            (prior.0, prior.1.push(s.last()))
        }
    }
}

/// The lines of `s`: newline-terminated lines plus a nonempty final tail.
pub open spec fn spec_lines(s: Seq<u8>) -> Seq<Seq<u8>> {
    let scan = spec_scan_lines(s);
    if scan.1.len() > 0 {
        scan.0.push(scan.1)
    } else {
        scan.0
    }
}

/// Does a line, once trimmed, begin with the import prefix?
pub open spec fn is_import_line(l: Seq<u8>) -> bool {
    is_prefix(spec_trim(l), "import ".spec_bytes())
}

/// The import lines of a line list, in order.
pub open spec fn spec_filter_imports(ls: Seq<Seq<u8>>) -> Seq<Seq<u8>>
    decreases ls.len(),
{
    if ls.len() == 0 {
        Seq::empty()
    } else {
        spec_filter_imports(ls.drop_last()) + (if is_import_line(ls.last()) {
            seq![ls.last()]
        } else {
            Seq::<Seq<u8>>::empty()
        })
    }
}

/// The non-import lines of a line list, in order.
pub open spec fn spec_filter_body(ls: Seq<Seq<u8>>) -> Seq<Seq<u8>>
    decreases ls.len(),
{
    if ls.len() == 0 {
        Seq::empty()
    } else {
        spec_filter_body(ls.drop_last()) + (if !is_import_line(ls.last()) {
            seq![ls.last()]
        } else {
            Seq::<Seq<u8>>::empty()
        })
    }
}

/// Import lines found inside the inserted payloads, in order.
pub open spec fn spec_payload_imports(ps: Seq<Seq<u8>>) -> Seq<Seq<u8>>
    decreases ps.len(),
{
    if ps.len() == 0 {
        Seq::empty()
    } else {
        spec_payload_imports(ps.drop_last()) + spec_filter_imports(spec_lines(ps.last()))
    }
}

/// Is some line of `ls` equal to `t` after trimming?
pub open spec fn spec_has_trim(ls: Seq<Seq<u8>>, t: Seq<u8>) -> bool {
    exists|k: int| 0 <= k < ls.len() && spec_trim(#[trigger] ls[k]) == t
}

/// De-duplicates lines by trimmed equality, keeping the first occurrence.
pub open spec fn spec_dedup_trim(ls: Seq<Seq<u8>>) -> Seq<Seq<u8>>
    decreases ls.len(),
{
    if ls.len() == 0 {
        Seq::empty()
    } else {
        let p = spec_dedup_trim(ls.drop_last());
        if spec_has_trim(p, spec_trim(ls.last())) {
            p
        } else {
            p.push(ls.last())
        }
    }
}

/// Strict byte-wise lexicographic order.
pub open spec fn lex_lt(a: Seq<u8>, b: Seq<u8>) -> bool {
    lex_le(a, b) && a != b
}

/// Inserts `l` before the first strictly greater line, after equal ones.
pub open spec fn spec_insert_asc(l: Seq<u8>, ls: Seq<Seq<u8>>) -> Seq<Seq<u8>>
    decreases ls.len(),
{
    if ls.len() == 0 {
        seq![l]
    } else if lex_lt(l, ls[0]) {
        seq![l] + ls
    } else {
        seq![ls[0]] + spec_insert_asc(l, ls.drop_first())
    }
}

/// Stable ascending insertion sort of a line list.
pub open spec fn spec_sort_lines(ls: Seq<Seq<u8>>) -> Seq<Seq<u8>>
    decreases ls.len(),
{
    if ls.len() == 0 {
        Seq::empty()
    } else {
        spec_insert_asc(ls.last(), spec_sort_lines(ls.drop_last()))
    }
}

/// Lines joined with single newlines, no terminator.
pub open spec fn spec_join_nl(ls: Seq<Seq<u8>>) -> Seq<u8>
    decreases ls.len(),
{
    if ls.len() == 0 {
        Seq::empty()
    } else if ls.len() == 1 {
        ls[0]
    } else {
        spec_join_nl(ls.drop_last()) + "\n".spec_bytes() + ls.last()
    }
}

/// Leading newline bytes removed.
pub open spec fn spec_trim_lead_nl(s: Seq<u8>) -> Seq<u8>
    decreases s.len(),
{
    if s.len() > 0 && s[0] == 0x0a {
        spec_trim_lead_nl(s.drop_first())
    } else {
        s
    }
}

/// The unified text: the sorted, de-duplicated import block (newline
/// terminated when nonempty), a blank line, then the import-free body with
/// leading blank lines trimmed.
pub open spec fn spec_unify(code: Seq<u8>, payloads: Seq<Seq<u8>>) -> Seq<u8> {
    let all = spec_filter_imports(spec_lines(code)) + spec_payload_imports(payloads);
    let uniq = spec_dedup_trim(all);
    let block = if uniq.len() == 0 {
        Seq::<u8>::empty()
    } else {
        spec_join_nl(spec_sort_lines(uniq)) + "\n".spec_bytes()
    };
    let body = spec_join_nl(spec_filter_body(spec_lines(code)));
    block + "\n".spec_bytes() + spec_trim_lead_nl(body)
}

/// Splits text into lines as the unifier reads them.
fn lines_of(s: &[u8]) -> (r: Vec<Vec<u8>>)
    ensures
        lines_view(r@) == spec_lines(s@),
{
    let mut ls: Vec<Vec<u8>> = Vec::new();
    let mut cur: Vec<u8> = Vec::new();
    let mut i: usize = 0;
    proof {
        assert(s@.subrange(0, 0) =~= Seq::<u8>::empty());
    }
    while i < s.len()
        invariant
            i <= s@.len(),
            (lines_view(ls@), cur@) == spec_scan_lines(s@.subrange(0, i as int)),
        decreases s@.len() - i,
    {
        let ghost pre = (lines_view(ls@), cur@);
        let b = s[i];
        if b == 0x0a {
            if cur.len() > 0 && cur[cur.len() - 1] == 0x0d {
                let _ = cur.pop();
            }
            ls.push(cur);
            cur = Vec::new();
        } else {
            cur.push(b);
        }
        proof {
            let t = s@.subrange(0, i + 1 as int);
            assert(t.drop_last() =~= s@.subrange(0, i as int));
            assert(t.last() == s@[i as int]);
            if b == 0x0a {
                assert(lines_view(ls@) =~= pre.0.push(spec_strip_cr(pre.1)));
            }
        }
        i += 1;
    }
    proof {
        assert(s@.subrange(0, s@.len() as int) =~= s@);
    }
    if cur.len() > 0 {
        ls.push(cur);
        proof {
            assert(lines_view(ls@) =~= spec_lines(s@));
        }
    }
    ls
}

fn line_is_import(l: &[u8]) -> (r: bool)
    ensures
        r == is_import_line(l@),
{
    let t = trim(l);
    starts_with(t.as_slice(), "import ".as_bytes())
}

/// Appends the import lines of `s` to `out`.
fn push_import_lines(out: &mut Vec<Vec<u8>>, s: &[u8])
    ensures
        lines_view(final(out)@) == lines_view(old(out)@) + spec_filter_imports(spec_lines(s@)),
{
    let ls = lines_of(s);
    let mut i: usize = 0;
    proof {
        assert(lines_view(ls@).subrange(0, 0) =~= Seq::<Seq<u8>>::empty());
    }
    while i < ls.len()
        invariant
            i <= ls@.len(),
            lines_view(ls@) == spec_lines(s@),
            lines_view(out@) == lines_view(old(out)@) + spec_filter_imports(
                lines_view(ls@).subrange(0, i as int),
            ),
        decreases ls@.len() - i,
    {
        let ghost pre = lines_view(out@);
        let l = &ls[i];
        if line_is_import(l.as_slice()) {
            out.push(copy_range(l.as_slice(), 0, l.len()));
        }
        proof {
            let lv = lines_view(ls@);
            assert(lv.subrange(0, i + 1 as int).drop_last() =~= lv.subrange(0, i as int));
            assert(lv.subrange(0, i + 1 as int).last() == lv[i as int]);
            assert(l@.subrange(0, l@.len() as int) =~= l@);
            assert(lines_view(out@) =~= pre + (if is_import_line(lv[i as int]) {
                seq![lv[i as int]]
            } else {
                Seq::<Seq<u8>>::empty()
            }));
        }
        i += 1;
    }
    proof {
        let lv = lines_view(ls@);
        assert(lv.subrange(0, lv.len() as int) =~= lv);
    }
}

fn has_trim(ls: &Vec<Vec<u8>>, t: &[u8]) -> (r: bool)
    ensures
        r == spec_has_trim(lines_view(ls@), t@),
{
    let mut i: usize = 0;
    while i < ls.len()
        invariant
            i <= ls@.len(),
            forall|k: int| 0 <= k < i ==> spec_trim(#[trigger] lines_view(ls@)[k]) != t@,
        decreases ls@.len() - i,
    {
        let tr = trim(ls[i].as_slice());
        if bytes_eq(tr.as_slice(), t) {
            assert(spec_trim(lines_view(ls@)[i as int]) == t@);
            return true;
        }
        i += 1;
    }
    false
}

/// `spec_insert_asc` splits at the first strictly greater element.
proof fn lemma_insert_asc_split(l: Seq<u8>, ls: Seq<Seq<u8>>, j: int)
    requires
        0 <= j <= ls.len(),
        forall|i: int| 0 <= i < j ==> !lex_lt(l, #[trigger] ls[i]),
        j < ls.len() ==> lex_lt(l, ls[j]),
    ensures
        spec_insert_asc(l, ls) == ls.subrange(0, j) + seq![l] + ls.subrange(j, ls.len() as int),
    decreases j,
{
    if j == 0 {
        if ls.len() == 0 {
            assert(spec_insert_asc(l, ls) =~= ls.subrange(0, 0) + seq![l] + ls.subrange(
                0,
                ls.len() as int,
            ));
        } else {
            assert(spec_insert_asc(l, ls) =~= ls.subrange(0, 0) + seq![l] + ls.subrange(
                0,
                ls.len() as int,
            ));
        }
    } else {
        let rest = ls.drop_first();
        assert(forall|i: int| 0 <= i < j - 1 ==> !lex_lt(l, #[trigger] rest[i]));
        lemma_insert_asc_split(l, rest, j - 1);
        assert(spec_insert_asc(l, ls) =~= ls.subrange(0, j) + seq![l] + ls.subrange(
            j,
            ls.len() as int,
        ));
    }
}

fn find_insert_pos(v: &Vec<Vec<u8>>, l: &[u8]) -> (j: usize)
    ensures
        j <= v@.len(),
        forall|i: int| 0 <= i < j ==> !lex_lt(l@, #[trigger] lines_view(v@)[i]),
        j < v@.len() ==> lex_lt(l@, lines_view(v@)[j as int]),
{
    let mut j: usize = 0;
    loop
        invariant
            j <= v@.len(),
            forall|i: int| 0 <= i < j ==> !lex_lt(l@, #[trigger] lines_view(v@)[i]),
        decreases v@.len() - j,
    {
        if j >= v.len() {
            return j;
        }
        let le = bytes_le(l, v[j].as_slice());
        let eq = bytes_eq(l, v[j].as_slice());
        if le && !eq {
            assert(lex_lt(l@, lines_view(v@)[j as int]));
            return j;
        }
        j += 1;
    }
}

/// Inserts a line into an ascending-sorted list, after equal lines.
fn insert_line_sorted(v: &mut Vec<Vec<u8>>, l: Vec<u8>)
    ensures
        lines_view(final(v)@) == spec_insert_asc(l@, lines_view(old(v)@)),
{
    let j = find_insert_pos(v, l.as_slice());
    proof {
        lemma_insert_asc_split(l@, lines_view(old(v)@), j as int);
    }
    v.insert(j, l);
    proof {
        let ov = lines_view(old(v)@);
        assert(lines_view(v@) =~= ov.subrange(0, j as int) + seq![l@] + ov.subrange(
            j as int,
            ov.len() as int,
        ));
    }
}

/// Joins lines with newlines.
fn join_lines(ls: &Vec<Vec<u8>>) -> (r: Vec<u8>)
    ensures
        r@ == spec_join_nl(lines_view(ls@)),
{
    let mut out: Vec<u8> = Vec::new();
    let mut i: usize = 0;
    proof {
        assert(lines_view(ls@).subrange(0, 0) =~= Seq::<Seq<u8>>::empty());
    }
    while i < ls.len()
        invariant
            i <= ls@.len(),
            out@ == spec_join_nl(lines_view(ls@).subrange(0, i as int)),
        decreases ls@.len() - i,
    {
        if i > 0 {
            push_all(&mut out, "\n".as_bytes());
        }
        let l = &ls[i];
        push_all(&mut out, l.as_slice());
        proof {
            let lv = lines_view(ls@);
            assert(lv.subrange(0, i + 1 as int).drop_last() =~= lv.subrange(0, i as int));
            assert(lv.subrange(0, i + 1 as int).last() == lv[i as int]);
        }
        i += 1;
    }
    proof {
        let lv = lines_view(ls@);
        assert(lv.subrange(0, lv.len() as int) =~= lv);
    }
    out
}

/// Removes leading newline bytes.
fn trim_lead_nl(s: &[u8]) -> (r: Vec<u8>)
    ensures
        r@ == spec_trim_lead_nl(s@),
{
    let mut i: usize = 0;
    proof {
        assert(s@.subrange(0, s@.len() as int) =~= s@);
    }
    while i < s.len() && s[i] == 0x0a
        invariant
            i <= s@.len(),
            spec_trim_lead_nl(s@) == spec_trim_lead_nl(s@.subrange(i as int, s@.len() as int)),
        decreases s@.len() - i,
    {
        proof {
            let sub = s@.subrange(i as int, s@.len() as int);
            assert(sub.drop_first() =~= s@.subrange(i + 1 as int, s@.len() as int));
        }
        i += 1;
    }
    copy_range(s, i, s.len())
}

/// Hoists, de-duplicates and sorts the import lines of `code` and of the
/// inserted payloads, and stitches the result over the import-free body.
pub fn unify_imports(code: &[u8], payloads: &Vec<Vec<u8>>) -> (r: Vec<u8>)
    ensures
        r@ == spec_unify(code@, lines_view(payloads@)),
{
    let mut all: Vec<Vec<u8>> = Vec::new();
    push_import_lines(&mut all, code);
    proof {
        assert(lines_view(all@) =~= spec_filter_imports(spec_lines(code@)));
    }
    let ghost base_imports = lines_view(all@);
    let mut pi: usize = 0;
    proof {
        assert(lines_view(payloads@).subrange(0, 0) =~= Seq::<Seq<u8>>::empty());
    }
    while pi < payloads.len()
        invariant
            pi <= payloads@.len(),
            base_imports == spec_filter_imports(spec_lines(code@)),
            lines_view(all@) == base_imports + spec_payload_imports(
                lines_view(payloads@).subrange(0, pi as int),
            ),
        decreases payloads@.len() - pi,
    {
        push_import_lines(&mut all, payloads[pi].as_slice());
        proof {
            let pv = lines_view(payloads@);
            assert(pv.subrange(0, pi + 1 as int).drop_last() =~= pv.subrange(0, pi as int));
            assert(pv.subrange(0, pi + 1 as int).last() == pv[pi as int]);
        }
        pi += 1;
    }
    proof {
        let pv = lines_view(payloads@);
        assert(pv.subrange(0, pv.len() as int) =~= pv);
    }

    let mut uniq: Vec<Vec<u8>> = Vec::new();
    let mut ui: usize = 0;
    proof {
        assert(lines_view(all@).subrange(0, 0) =~= Seq::<Seq<u8>>::empty());
    }
    while ui < all.len()
        invariant
            ui <= all@.len(),
            lines_view(all@) == spec_filter_imports(spec_lines(code@)) + spec_payload_imports(
                lines_view(payloads@),
            ),
            lines_view(uniq@) == spec_dedup_trim(lines_view(all@).subrange(0, ui as int)),
        decreases all@.len() - ui,
    {
        let l = &all[ui];
        let t = trim(l.as_slice());
        let ghost pre = lines_view(uniq@);
        if !has_trim(&uniq, t.as_slice()) {
            uniq.push(copy_range(l.as_slice(), 0, l.len()));
            proof {
                assert(l@.subrange(0, l@.len() as int) =~= l@);
                assert(lines_view(uniq@) =~= pre.push(lines_view(all@)[ui as int]));
            }
        }
        proof {
            let av = lines_view(all@);
            assert(av.subrange(0, ui + 1 as int).drop_last() =~= av.subrange(0, ui as int));
            assert(av.subrange(0, ui + 1 as int).last() == av[ui as int]);
        }
        ui += 1;
    }
    proof {
        let av = lines_view(all@);
        assert(av.subrange(0, av.len() as int) =~= av);
    }
    let uniq_empty = uniq.len() == 0;

    let mut sorted: Vec<Vec<u8>> = Vec::new();
    let mut si: usize = 0;
    proof {
        assert(lines_view(uniq@).subrange(0, 0) =~= Seq::<Seq<u8>>::empty());
    }
    while si < uniq.len()
        invariant
            si <= uniq@.len(),
            lines_view(uniq@) == spec_dedup_trim(
                spec_filter_imports(spec_lines(code@)) + spec_payload_imports(
                    lines_view(payloads@),
                ),
            ),
            lines_view(sorted@) == spec_sort_lines(lines_view(uniq@).subrange(0, si as int)),
        decreases uniq@.len() - si,
    {
        let l = &uniq[si];
        insert_line_sorted(&mut sorted, copy_range(l.as_slice(), 0, l.len()));
        proof {
            let uv = lines_view(uniq@);
            assert(l@.subrange(0, l@.len() as int) =~= l@);
            assert(uv.subrange(0, si + 1 as int).drop_last() =~= uv.subrange(0, si as int));
            assert(uv.subrange(0, si + 1 as int).last() == uv[si as int]);
        }
        si += 1;
    }
    proof {
        let uv = lines_view(uniq@);
        assert(uv.subrange(0, uv.len() as int) =~= uv);
    }

    let code_lines = lines_of(code);
    let mut body_lines: Vec<Vec<u8>> = Vec::new();
    let mut bi: usize = 0;
    proof {
        assert(lines_view(code_lines@).subrange(0, 0) =~= Seq::<Seq<u8>>::empty());
    }
    while bi < code_lines.len()
        invariant
            bi <= code_lines@.len(),
            lines_view(code_lines@) == spec_lines(code@),
            lines_view(body_lines@) == spec_filter_body(
                lines_view(code_lines@).subrange(0, bi as int),
            ),
        decreases code_lines@.len() - bi,
    {
        let ghost pre = lines_view(body_lines@);
        let l = &code_lines[bi];
        if !line_is_import(l.as_slice()) {
            body_lines.push(copy_range(l.as_slice(), 0, l.len()));
        }
        proof {
            let cv = lines_view(code_lines@);
            assert(cv.subrange(0, bi + 1 as int).drop_last() =~= cv.subrange(0, bi as int));
            assert(cv.subrange(0, bi + 1 as int).last() == cv[bi as int]);
            assert(l@.subrange(0, l@.len() as int) =~= l@);
            assert(lines_view(body_lines@) =~= pre + (if !is_import_line(cv[bi as int]) {
                seq![cv[bi as int]]
            } else {
                Seq::<Seq<u8>>::empty()
            }));
        }
        bi += 1;
    }
    proof {
        let cv = lines_view(code_lines@);
        assert(cv.subrange(0, cv.len() as int) =~= cv);
    }
    let body = join_lines(&body_lines);
    let trimmed = trim_lead_nl(body.as_slice());

    let mut out: Vec<u8> = Vec::new();
    if !uniq_empty {
        let block = join_lines(&sorted);
        push_all(&mut out, block.as_slice());
        push_all(&mut out, "\n".as_bytes());
    }
    push_all(&mut out, "\n".as_bytes());
    push_all(&mut out, trimmed.as_slice());
    proof {
        assert(out@ =~= spec_unify(code@, lines_view(payloads@)));
    }
    out
}

} // verus!
