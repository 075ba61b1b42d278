//! Rename reconciler: resolves one narrow class of apparent
//! function-update conflicts. When both sides changed the same function
//! but only the first parameter's identifier differs, the second payload
//! is rewritten to use the first payload's parameter name, keeping the
//! second side's other textual edits.

use vstd::prelude::*;
use vstd::slice::slice_subrange;
use vstd::string::StringSliceAdditionalSpecFns;

use crate::ast::opt_bytes_view;
use crate::bytes::{
    bytes_eq, is_prefix, is_word_byte, lemma_find_bounds, push_all, spec_find, spec_trim,
    starts_with, trim, find_sub,
};

verus! {

/// The payload with one leading export keyword stripped, if present.
pub open spec fn spec_strip_export(s: Seq<u8>) -> Seq<u8> {
    if is_prefix(s, "export ".spec_bytes()) {
        s.skip("export ".spec_bytes().len() as int)
    } else {
        s
    }
}

/// Position of the first parameter-ending byte (`:`, `,` or `)`) at or
/// after `i`, or the length of `s` when none occurs.
pub open spec fn spec_param_end(s: Seq<u8>, i: int) -> int
    decreases s.len() - i,
{
    if i < 0 || i >= s.len() {
        s.len() as int
    } else if s[i] == 0x3a || s[i] == 0x2c || s[i] == 0x29 {
        i
    } else {
        spec_param_end(s, i + 1)
    }
}

/// Declared name and first parameter identifier of a function payload,
/// read by a textual scan: strip a leading export keyword, locate the
/// function keyword, read up to `(` as the name, then up to `:`/`,`/`)`
/// as the parameter. None when either part is missing or empty.
pub open spec fn spec_fn_sig(code: Seq<u8>) -> Option<(Seq<u8>, Seq<u8>)> {
    let src = spec_strip_export(code);
    let kw = "function ".spec_bytes();
    match spec_find(src, kw, 0) {
        None => None,
        Some(fp) => {
            let rest = src.skip(fp + kw.len());
            match spec_find(rest, "(".spec_bytes(), 0) {
                None => None,
                Some(paren) => {
                    let name = spec_trim(rest.take(paren));
                    let after = rest.skip(paren + 1);
                    let param = spec_trim(after.take(spec_param_end(after, 0)));
                    if name.len() == 0 || param.len() == 0 {
                        None
                    } else {
                        Some((name, param))
                    }
                },
            }
        },
    }
}

/// `haystack` with every whole-word occurrence of `from` (no adjacent
/// ASCII word byte on either side) replaced by `to`, scanning from `i`.
pub open spec fn spec_replace_ww(h: Seq<u8>, from: Seq<u8>, to: Seq<u8>, i: int) -> Seq<u8>
    decreases h.len() - i,
{
    if i < 0 || i >= h.len() {
        Seq::empty()
    } else if from.len() > 0 && i + from.len() <= h.len() && h.subrange(i, i + from.len()) == from
        && (i == 0 || !is_word_byte(h[i - 1])) && (i + from.len() == h.len() || !is_word_byte(
        h[i + from.len()],
    )) {
        to + spec_replace_ww(h, from, to, i + from.len())
    } else {
        seq![h[i]] + spec_replace_ww(h, from, to, i + 1)
    }
}

/// The reconciled second payload, when both payloads parse as the same
/// function whose first parameters differ.
pub open spec fn spec_reconcile(a: Seq<u8>, b: Seq<u8>) -> Option<Seq<u8>> {
    match (spec_fn_sig(a), spec_fn_sig(b)) {
        (Some((an, ap)), Some((bn, bp))) => if an != bn {
            None
        } else if ap == bp {
            None
        } else {
            Some(spec_replace_ww(b, bp, ap, 0))
        },
        _ => None,
    }
}

fn param_end(s: &[u8]) -> (r: usize)
    ensures
        r as int == spec_param_end(s@, 0),
        r <= s@.len(),
{
    let mut i: usize = 0;
    loop
        invariant
            i <= s@.len(),
            spec_param_end(s@, 0) == spec_param_end(s@, i as int),
        decreases s@.len() - i,
    {
        if i >= s.len() {
            return i;
        }
        if s[i] == 0x3a || s[i] == 0x2c || s[i] == 0x29 {
            return i;
        }
        i += 1;
    }
}

/// Reads the declared name and first parameter of a function payload.
pub fn parse_fn_name_and_first_param(code: &[u8]) -> (r: Option<(Vec<u8>, Vec<u8>)>)
    ensures
        match r {
            Some(np) => {
                &&& spec_fn_sig(code@) == Some((np.0@, np.1@))
                &&& np.0@.len() > 0
                &&& np.1@.len() > 0
            },
            None => spec_fn_sig(code@) is None,
        },
{
    let kwe = "export ".as_bytes();
    let src: &[u8] = if starts_with(code, kwe) {
        slice_subrange(code, kwe.len(), code.len())
    } else {
        code
    };
    proof {
        if is_prefix(code@, kwe@) {
            assert(code@.subrange(kwe@.len() as int, code@.len() as int) =~= code@.skip(
                kwe@.len() as int,
            ));
        }
        assert(src@ == spec_strip_export(code@));
    }
    let kw = "function ".as_bytes();
    let fp = match find_sub(src, kw, 0) {
        Some(p) => p,
        None => {
            return None;
        },
    };
    proof {
        lemma_find_bounds(src@, kw@, 0);
        assert(spec_find(src@, kw@, 0) == Some(fp as int));
        assert(fp + kw@.len() <= src@.len());
    }
    let src_len = src.len();
    let rest = slice_subrange(src, fp + kw.len(), src_len);
    proof {
        assert(rest@ =~= src@.skip(fp + kw@.len()));
    }
    let paren = match find_sub(rest, "(".as_bytes(), 0) {
        Some(p) => p,
        None => {
            return None;
        },
    };
    proof {
        lemma_find_bounds(rest@, "(".spec_bytes(), 0);
        assert(spec_find(rest@, "(".spec_bytes(), 0) == Some(paren as int));
        assert("(".spec_bytes().len() >= 1) by {
            reveal_strlit("(");
        }
    }
    let name = trim(slice_subrange(rest, 0, paren));
    proof {
        assert(rest@.subrange(0, paren as int) =~= rest@.take(paren as int));
    }
    let rest_len = rest.len();
    let after = slice_subrange(rest, paren + 1, rest_len);
    proof {
        assert(after@ =~= rest@.skip(paren + 1));
    }
    let pend = param_end(after);
    let param = trim(slice_subrange(after, 0, pend));
    proof {
        assert(after@.subrange(0, pend as int) =~= after@.take(spec_param_end(after@, 0)));
    }
    if name.len() == 0 || param.len() == 0 {
        return None;
    }
    Some((name, param))
}

/// Replaces every whole-word occurrence of `from` in `haystack` by `to`.
pub fn replace_ident_whole_word(haystack: &[u8], from: &[u8], to: &[u8]) -> (r: Vec<u8>)
    requires
        from@.len() > 0,
    ensures
        r@ == spec_replace_ww(haystack@, from@, to@, 0),
{
    let mut out: Vec<u8> = Vec::new();
    let mut i: usize = 0;
    while i < haystack.len()
        invariant
            i <= haystack@.len(),
            from@.len() > 0,
            out@ + spec_replace_ww(haystack@, from@, to@, i as int) == spec_replace_ww(
                haystack@,
                from@,
                to@,
                0,
            ),
        decreases haystack@.len() - i,
    {
        let ghost prev = out@;
        let mut matched = false;
        if from.len() <= haystack.len() - i && bytes_eq(
            slice_subrange(haystack, i, i + from.len()),
            from,
        ) {
            let left_ok = i == 0 || !{
                let b = haystack[i - 1];
                (0x30 <= b && b <= 0x39) || (0x41 <= b && b <= 0x5a) || (0x61 <= b && b <= 0x7a)
                    || b == 0x5f
            };
            let right_ok = i + from.len() == haystack.len() || !{
                let b = haystack[i + from.len()];
                (0x30 <= b && b <= 0x39) || (0x41 <= b && b <= 0x5a) || (0x61 <= b && b <= 0x7a)
                    || b == 0x5f
            };
            if left_ok && right_ok {
                push_all(&mut out, to);
                proof {
                    assert(out@ + spec_replace_ww(haystack@, from@, to@, i + from@.len())
                        =~= prev + spec_replace_ww(haystack@, from@, to@, i as int));
                }
                i += from.len();
                matched = true;
            }
        }
        if !matched {
            out.push(haystack[i]);
            proof {
                assert(out@ + spec_replace_ww(haystack@, from@, to@, i + 1) =~= prev
                    + spec_replace_ww(haystack@, from@, to@, i as int));
            }
            i += 1;
        }
    }
    proof {
        assert(out@ + spec_replace_ww(haystack@, from@, to@, haystack@.len() as int) =~= out@);
    }
    out
}

/// Attempts the parameter-rename reconciliation of two function payloads.
pub fn try_reconcile_param_rename(a: &[u8], b: &[u8]) -> (r: Option<Vec<u8>>)
    ensures
        opt_bytes_view(r) == spec_reconcile(a@, b@),
{
    let (an, ap) = match parse_fn_name_and_first_param(a) {
        Some(x) => x,
        None => {
            return None;
        },
    };
    let (bn, bp) = match parse_fn_name_and_first_param(b) {
        Some(x) => x,
        None => {
            return None;
        },
    };
    if !bytes_eq(an.as_slice(), bn.as_slice()) {
        return None;
    }
    if bytes_eq(ap.as_slice(), bp.as_slice()) {
        return None;
    }
    Some(replace_ident_whole_word(b, bp.as_slice(), ap.as_slice()))
}

} // verus!
