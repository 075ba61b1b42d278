//! Composer: merges two edit scripts against the base text. Deletes win
//! over updates (with a recorded conflict); identical updates apply once;
//! differing function updates go through the rename reconciler; accepted
//! patches are applied right to left against the untouched base offsets;
//! distinct inserts are appended; imports are unified last.

use vstd::prelude::*;
use vstd::slice::slice_to_vec;
use vstd::string::StringSliceAdditionalSpecFns;

use crate::ast::{kind_label, spec_kind_label, AstFile, FileV, UnitKind};
use crate::bytes::{bytes_eq, copy_range, push_all};
use crate::diff::{edits_view, spec_lookup_range, Edit, EditV};
use crate::imports::{lines_view, spec_unify, unify_imports};
use crate::reconcile::{spec_reconcile, try_reconcile_param_rename};

verus! {

/// Merged text plus an ordered list of human-readable conflicts.
#[derive(Debug, Clone)]
pub struct MergeOutcome {
    pub merged_code: Vec<u8>,
    pub conflicts: Vec<Vec<u8>>,
}

/// Mathematical value of a `MergeOutcome`.
pub struct OutcomeV {
    pub merged_code: Seq<u8>,
    pub conflicts: Seq<Seq<u8>>,
}

impl View for MergeOutcome {
    type V = OutcomeV;

    open spec fn view(&self) -> OutcomeV {
        OutcomeV { merged_code: self.merged_code@, conflicts: lines_view(self.conflicts@) }
    }
}

/// A byte-range replacement against the untouched base buffer.
pub struct Patch {
    pub start: usize,
    pub end: usize,
    pub replacement: Vec<u8>,
}

/// Mathematical value of a `Patch`.
pub struct PatchV {
    pub start: usize,
    pub end: usize,
    pub replacement: Seq<u8>,
}

impl View for Patch {
    type V = PatchV;

    open spec fn view(&self) -> PatchV {
        PatchV { start: self.start, end: self.end, replacement: self.replacement@ }
    }
}

pub open spec fn patches_view(ps: Seq<Patch>) -> Seq<PatchV> {
    ps.map_values(|p: Patch| p@)
}

/// Views of a list of (kind, name) identity keys.
pub open spec fn keys_view(ks: Seq<(UnitKind, Vec<u8>)>) -> Seq<(UnitKind, Seq<u8>)> {
    ks.map_values(|k: (UnitKind, Vec<u8>)| (k.0, k.1@))
}

/// Views of a list of (kind, name, payload) insert triples.
pub open spec fn triples_view(ts: Seq<(UnitKind, Vec<u8>, Vec<u8>)>) -> Seq<
    (UnitKind, Seq<u8>, Seq<u8>),
> {
    ts.map_values(|t: (UnitKind, Vec<u8>, Vec<u8>)| (t.0, t.1@, t.2@))
}

/// Keeps the first occurrence of each element.
pub open spec fn spec_dedup<A>(s: Seq<A>) -> Seq<A>
    decreases s.len(),
{
    if s.len() == 0 {
        Seq::empty()
    } else {
        let p = spec_dedup(s.drop_last());
        if p.contains(s.last()) {
            p
        } else {
            p.push(s.last())
        }
    }
}

/// The insert triples of a script, in order.
pub open spec fn spec_insert_triples(es: Seq<EditV>) -> Seq<(UnitKind, Seq<u8>, Seq<u8>)>
    decreases es.len(),
{
    if es.len() == 0 {
        Seq::empty()
    } else {
        spec_insert_triples(es.drop_last()) + (match es.last() {
            EditV::Insert { kind, name, payload } => seq![(kind, name, payload)],
            _ => Seq::<(UnitKind, Seq<u8>, Seq<u8>)>::empty(),
        })
    }
}

/// The identity keys updated by a script, in order.
pub open spec fn spec_upd_key_list(es: Seq<EditV>) -> Seq<(UnitKind, Seq<u8>)>
    decreases es.len(),
{
    if es.len() == 0 {
        Seq::empty()
    } else {
        spec_upd_key_list(es.drop_last()) + (match es.last() {
            EditV::Update { kind, name, payload } => seq![(kind, name)],
            _ => Seq::<(UnitKind, Seq<u8>)>::empty(),
        })
    }
}

/// The identity keys deleted by a script, in order.
pub open spec fn spec_del_key_list(es: Seq<EditV>) -> Seq<(UnitKind, Seq<u8>)>
    decreases es.len(),
{
    if es.len() == 0 {
        Seq::empty()
    } else {
        spec_del_key_list(es.drop_last()) + (match es.last() {
            EditV::Delete { kind, name } => seq![(kind, name)],
            _ => Seq::<(UnitKind, Seq<u8>)>::empty(),
        })
    }
}

/// The payload of the last update a script holds for a key, if any.
pub open spec fn spec_upd_payload(es: Seq<EditV>, k: (UnitKind, Seq<u8>)) -> Option<Seq<u8>>
    decreases es.len(),
{
    if es.len() == 0 {
        None
    } else {
        match es.last() {
            EditV::Update { kind, name, payload } => if kind == k.0 && name == k.1 {
                Some(payload)
            } else {
                spec_upd_payload(es.drop_last(), k)
            },
            _ => spec_upd_payload(es.drop_last(), k),
        }
    }
}

/// The delete-versus-update conflict text for a key.
pub open spec fn spec_del_msg(k: (UnitKind, Seq<u8>)) -> Seq<u8> {
    "Deletion vs update on ".spec_bytes() + spec_kind_label(k.0) + "::".spec_bytes() + k.1
}

/// The incompatible-updates conflict text for a key.
pub open spec fn spec_upd_msg(k: (UnitKind, Seq<u8>)) -> Seq<u8> {
    "Both branches updated ".spec_bytes() + spec_kind_label(k.0) + "::".spec_bytes() + k.1
        + " differently".spec_bytes()
}

/// The out-of-bounds splice conflict text.
pub open spec fn spec_oob_msg() -> Seq<u8> {
    "Internal splice range out of bounds".spec_bytes()
}

/// Conflicts for every deleted key that either side also updates.
pub open spec fn spec_del_conflicts(
    keys: Seq<(UnitKind, Seq<u8>)>,
    ea: Seq<EditV>,
    eb: Seq<EditV>,
) -> Seq<Seq<u8>>
    decreases keys.len(),
{
    if keys.len() == 0 {
        Seq::empty()
    } else {
        spec_del_conflicts(keys.drop_last(), ea, eb) + (if spec_upd_payload(ea, keys.last())
            is Some || spec_upd_payload(eb, keys.last()) is Some {
            seq![spec_del_msg(keys.last())]
        } else {
            Seq::<Seq<u8>>::empty()
        })
    }
}

/// The patch replacing a key's base range, when the base has the key.
pub open spec fn spec_patch_for(
    base_units: Seq<crate::ast::UnitV>,
    k: (UnitKind, Seq<u8>),
    payload: Seq<u8>,
) -> Seq<PatchV> {
    match spec_lookup_range(base_units, k.0, k.1) {
        Some(se) => seq![PatchV { start: se.0, end: se.1, replacement: payload }],
        None => Seq::<PatchV>::empty(),
    }
}

/// Resolution of one updated key: the patch it yields and the conflict it
/// records, if any. Deleted keys yield nothing here.
pub open spec fn spec_resolve_key(
    k: (UnitKind, Seq<u8>),
    ea: Seq<EditV>,
    eb: Seq<EditV>,
    base_units: Seq<crate::ast::UnitV>,
    del_keys: Seq<(UnitKind, Seq<u8>)>,
) -> (Seq<PatchV>, Seq<Seq<u8>>) {
    if del_keys.contains(k) {
        (Seq::<PatchV>::empty(), Seq::<Seq<u8>>::empty())
    } else {
        match (spec_upd_payload(ea, k), spec_upd_payload(eb, k)) {
            (Some(a), Some(b)) => if a == b {
                (spec_patch_for(base_units, k, a), Seq::<Seq<u8>>::empty())
            } else if k.0 == UnitKind::Function {
                match spec_reconcile(a, b) {
                    Some(r) => (spec_patch_for(base_units, k, r), Seq::<Seq<u8>>::empty()),
                    None => (Seq::<PatchV>::empty(), seq![spec_upd_msg(k)]),
                }
            } else {
                (Seq::<PatchV>::empty(), seq![spec_upd_msg(k)])
            },
            (Some(a), None) => (spec_patch_for(base_units, k, a), Seq::<Seq<u8>>::empty()),
            (None, Some(b)) => (spec_patch_for(base_units, k, b), Seq::<Seq<u8>>::empty()),
            (None, None) => (Seq::<PatchV>::empty(), Seq::<Seq<u8>>::empty()),
        }
    }
}

/// Resolution of all updated keys, in order.
pub open spec fn spec_resolve(
    keys: Seq<(UnitKind, Seq<u8>)>,
    ea: Seq<EditV>,
    eb: Seq<EditV>,
    base_units: Seq<crate::ast::UnitV>,
    del_keys: Seq<(UnitKind, Seq<u8>)>,
) -> (Seq<PatchV>, Seq<Seq<u8>>)
    decreases keys.len(),
{
    if keys.len() == 0 {
        (Seq::<PatchV>::empty(), Seq::<Seq<u8>>::empty())
    } else {
        let prior = spec_resolve(keys.drop_last(), ea, eb, base_units, del_keys);
        let one = spec_resolve_key(keys.last(), ea, eb, base_units, del_keys);
        (prior.0 + one.0, prior.1 + one.1)
    }
}

/// Inserts a patch after all patches with an equal or greater start.
pub open spec fn spec_insert_desc(p: PatchV, ps: Seq<PatchV>) -> Seq<PatchV>
    decreases ps.len(),
{
    if ps.len() == 0 {
        seq![p]
    } else if p.start > ps[0].start {
        seq![p] + ps
    } else {
        seq![ps[0]] + spec_insert_desc(p, ps.drop_first())
    }
}

/// Stable sort by descending start offset.
pub open spec fn spec_sort_desc(ps: Seq<PatchV>) -> Seq<PatchV>
    decreases ps.len(),
{
    if ps.len() == 0 {
        Seq::empty()
    } else {
        spec_insert_desc(ps.last(), spec_sort_desc(ps.drop_last()))
    }
}

/// Is the patch applicable to a buffer of this content?
pub open spec fn spec_patch_ok(code: Seq<u8>, p: PatchV) -> bool {
    p.start <= p.end <= code.len()
}

/// The buffer with the patch's range replaced.
pub open spec fn spec_splice(code: Seq<u8>, p: PatchV) -> Seq<u8> {
    code.subrange(0, p.start as int) + p.replacement + code.subrange(
        p.end as int,
        code.len() as int,
    )
}

/// Applies patches in order; a patch with an invalid range records a
/// conflict and is skipped.
pub open spec fn spec_apply(code: Seq<u8>, ps: Seq<PatchV>) -> (Seq<u8>, Seq<Seq<u8>>)
    decreases ps.len(),
{
    if ps.len() == 0 {
        (code, Seq::empty())
    } else {
        let head = if spec_patch_ok(code, ps[0]) {
            (spec_splice(code, ps[0]), Seq::<Seq<u8>>::empty())
        } else {
            (code, seq![spec_oob_msg()])
        };
        let rest = spec_apply(head.0, ps.drop_first());
        (rest.0, head.1 + rest.1)
    }
}

/// The buffer with every distinct insert appended after a blank line.
pub open spec fn spec_append_inserts(
    code: Seq<u8>,
    ins: Seq<(UnitKind, Seq<u8>, Seq<u8>)>,
) -> Seq<u8>
    decreases ins.len(),
{
    if ins.len() == 0 {
        code
    } else {
        spec_append_inserts(code, ins.drop_last()) + "\n\n".spec_bytes() + ins.last().2
            + "\n".spec_bytes()
    }
}

/// The payloads of a triple list, in order.
pub open spec fn triple_payloads(ts: Seq<(UnitKind, Seq<u8>, Seq<u8>)>) -> Seq<Seq<u8>> {
    ts.map_values(|t: (UnitKind, Seq<u8>, Seq<u8>)| t.2)
}

/// The whole composition: classify, conflict on delete-versus-update,
/// resolve updates, splice right to left, append inserts, unify imports.
pub open spec fn spec_compose(base: FileV, ea: Seq<EditV>, eb: Seq<EditV>) -> OutcomeV {
    let inserts = spec_dedup(spec_insert_triples(ea) + spec_insert_triples(eb));
    let del_keys = spec_dedup(spec_del_key_list(ea) + spec_del_key_list(eb));
    let upd_keys = spec_dedup(spec_upd_key_list(ea) + spec_upd_key_list(eb));
    let del_msgs = spec_del_conflicts(del_keys, ea, eb);
    let rp = spec_resolve(upd_keys, ea, eb, base.units, del_keys);
    let ap = spec_apply(base.code, spec_sort_desc(rp.0));
    let appended = spec_append_inserts(ap.0, inserts);
    OutcomeV {
        merged_code: spec_unify(appended, triple_payloads(inserts)),
        conflicts: del_msgs + rp.1 + ap.1,
    }
}

} // verus!

verus! {

fn triple_in(
    acc: &Vec<(UnitKind, Vec<u8>, Vec<u8>)>,
    kind: UnitKind,
    name: &[u8],
    payload: &[u8],
) -> (r: bool)
    ensures
        r == triples_view(acc@).contains((kind, name@, payload@)),
{
    let mut i: usize = 0;
    while i < acc.len()
        invariant
            i <= acc@.len(),
            forall|j: int| 0 <= j < i ==> #[trigger] triples_view(acc@)[j] != (kind, name@, payload@),
        decreases acc@.len() - i,
    {
        let t = &acc[i];
        if t.0 == kind && bytes_eq(t.1.as_slice(), name) && bytes_eq(t.2.as_slice(), payload) {
            assert(triples_view(acc@)[i as int] == (kind, name@, payload@));
            return true;
        }
        i += 1;
    }
    assert(!triples_view(acc@).contains((kind, name@, payload@)));
    false
}

fn key_in(acc: &Vec<(UnitKind, Vec<u8>)>, kind: UnitKind, name: &[u8]) -> (r: bool)
    ensures
        r == keys_view(acc@).contains((kind, name@)),
{
    let mut i: usize = 0;
    while i < acc.len()
        invariant
            i <= acc@.len(),
            forall|j: int| 0 <= j < i ==> #[trigger] keys_view(acc@)[j] != (kind, name@),
        decreases acc@.len() - i,
    {
        let t = &acc[i];
        if t.0 == kind && bytes_eq(t.1.as_slice(), name) {
            assert(keys_view(acc@)[i as int] == (kind, name@));
            return true;
        }
        i += 1;
    }
    assert(!keys_view(acc@).contains((kind, name@)));
    false
}

fn add_insert_triples(
    acc: &mut Vec<(UnitKind, Vec<u8>, Vec<u8>)>,
    es: &[Edit],
    Ghost(prior): Ghost<Seq<(UnitKind, Seq<u8>, Seq<u8>)>>,
)
    requires
        triples_view(old(acc)@) == spec_dedup(prior),
    ensures
        triples_view(final(acc)@) == spec_dedup(prior + spec_insert_triples(edits_view(es@))),
{
    let mut i: usize = 0;
    proof {
        assert(prior + spec_insert_triples(edits_view(es@).subrange(0, 0)) =~= prior);
    }
    while i < es.len()
        invariant
            i <= es@.len(),
            triples_view(acc@) == spec_dedup(
                prior + spec_insert_triples(edits_view(es@).subrange(0, i as int)),
            ),
        decreases es@.len() - i,
    {
        let ghost ev = edits_view(es@);
        let ghost x = prior + spec_insert_triples(ev.subrange(0, i as int));
        let ghost pre = triples_view(acc@);
        match &es[i] {
            Edit::Insert { kind, name, payload } => {
                proof {
                    assert(ev[i as int] == es@[i as int]@);
                }
                if !triple_in(acc, *kind, name.as_slice(), payload.as_slice()) {
                    acc.push(
                        (
                            *kind,
                            copy_range(name.as_slice(), 0, name.len()),
                            copy_range(payload.as_slice(), 0, payload.len()),
                        ),
                    );
                    proof {
                        assert(name@.subrange(0, name@.len() as int) =~= name@);
                        assert(payload@.subrange(0, payload@.len() as int) =~= payload@);
                        assert(triples_view(acc@) =~= pre.push((*kind, name@, payload@)));
                    }
                }
            },
            _ => {},
        }
        proof {
            assert(ev.subrange(0, i + 1 as int).drop_last() =~= ev.subrange(0, i as int));
            assert(ev.subrange(0, i + 1 as int).last() == ev[i as int]);
            match ev[i as int] {
                EditV::Insert { kind, name, payload } => {
                    let t = (kind, name, payload);
                    assert(prior + spec_insert_triples(ev.subrange(0, i + 1 as int)) =~= x
                        + seq![t]);
                    assert((x + seq![t]).drop_last() =~= x);
                    assert((x + seq![t]).last() == t);
                },
                _ => {
                    assert(prior + spec_insert_triples(ev.subrange(0, i + 1 as int)) =~= x);
                },
            }
        }
        i += 1;
    }
    proof {
        assert(edits_view(es@).subrange(0, es@.len() as int) =~= edits_view(es@));
    }
}

fn add_upd_keys(
    acc: &mut Vec<(UnitKind, Vec<u8>)>,
    es: &[Edit],
    Ghost(prior): Ghost<Seq<(UnitKind, Seq<u8>)>>,
)
    requires
        keys_view(old(acc)@) == spec_dedup(prior),
    ensures
        keys_view(final(acc)@) == spec_dedup(prior + spec_upd_key_list(edits_view(es@))),
{
    let mut i: usize = 0;
    proof {
        assert(prior + spec_upd_key_list(edits_view(es@).subrange(0, 0)) =~= prior);
    }
    while i < es.len()
        invariant
            i <= es@.len(),
            keys_view(acc@) == spec_dedup(
                prior + spec_upd_key_list(edits_view(es@).subrange(0, i as int)),
            ),
        decreases es@.len() - i,
    {
        let ghost ev = edits_view(es@);
        let ghost x = prior + spec_upd_key_list(ev.subrange(0, i as int));
        let ghost pre = keys_view(acc@);
        match &es[i] {
            Edit::Update { kind, name, payload } => {
                proof {
                    assert(ev[i as int] == es@[i as int]@);
                }
                if !key_in(acc, *kind, name.as_slice()) {
                    acc.push((*kind, copy_range(name.as_slice(), 0, name.len())));
                    proof {
                        assert(name@.subrange(0, name@.len() as int) =~= name@);
                        assert(keys_view(acc@) =~= pre.push((*kind, name@)));
                    }
                }
            },
            _ => {},
        }
        proof {
            assert(ev.subrange(0, i + 1 as int).drop_last() =~= ev.subrange(0, i as int));
            assert(ev.subrange(0, i + 1 as int).last() == ev[i as int]);
            match ev[i as int] {
                EditV::Update { kind, name, payload } => {
                    let t = (kind, name);
                    assert(prior + spec_upd_key_list(ev.subrange(0, i + 1 as int)) =~= x
                        + seq![t]);
                    assert((x + seq![t]).drop_last() =~= x);
                    assert((x + seq![t]).last() == t);
                },
                _ => {
                    assert(prior + spec_upd_key_list(ev.subrange(0, i + 1 as int)) =~= x);
                },
            }
        }
        i += 1;
    }
    proof {
        assert(edits_view(es@).subrange(0, es@.len() as int) =~= edits_view(es@));
    }
}

fn add_del_keys(
    acc: &mut Vec<(UnitKind, Vec<u8>)>,
    es: &[Edit],
    Ghost(prior): Ghost<Seq<(UnitKind, Seq<u8>)>>,
)
    requires
        keys_view(old(acc)@) == spec_dedup(prior),
    ensures
        keys_view(final(acc)@) == spec_dedup(prior + spec_del_key_list(edits_view(es@))),
{
    let mut i: usize = 0;
    proof {
        assert(prior + spec_del_key_list(edits_view(es@).subrange(0, 0)) =~= prior);
    }
    while i < es.len()
        invariant
            i <= es@.len(),
            keys_view(acc@) == spec_dedup(
                prior + spec_del_key_list(edits_view(es@).subrange(0, i as int)),
            ),
        decreases es@.len() - i,
    {
        let ghost ev = edits_view(es@);
        let ghost x = prior + spec_del_key_list(ev.subrange(0, i as int));
        let ghost pre = keys_view(acc@);
        match &es[i] {
            Edit::Delete { kind, name } => {
                proof {
                    assert(ev[i as int] == es@[i as int]@);
                }
                if !key_in(acc, *kind, name.as_slice()) {
                    acc.push((*kind, copy_range(name.as_slice(), 0, name.len())));
                    proof {
                        assert(name@.subrange(0, name@.len() as int) =~= name@);
                        assert(keys_view(acc@) =~= pre.push((*kind, name@)));
                    }
                }
            },
            _ => {},
        }
        proof {
            assert(ev.subrange(0, i + 1 as int).drop_last() =~= ev.subrange(0, i as int));
            assert(ev.subrange(0, i + 1 as int).last() == ev[i as int]);
            match ev[i as int] {
                EditV::Delete { kind, name } => {
                    let t = (kind, name);
                    assert(prior + spec_del_key_list(ev.subrange(0, i + 1 as int)) =~= x
                        + seq![t]);
                    assert((x + seq![t]).drop_last() =~= x);
                    assert((x + seq![t]).last() == t);
                },
                _ => {
                    assert(prior + spec_del_key_list(ev.subrange(0, i + 1 as int)) =~= x);
                },
            }
        }
        i += 1;
    }
    proof {
        assert(edits_view(es@).subrange(0, es@.len() as int) =~= edits_view(es@));
    }
}

fn upd_payload(es: &[Edit], kind: UnitKind, name: &[u8]) -> (r: Option<Vec<u8>>)
    ensures
        crate::ast::opt_bytes_view(r) == spec_upd_payload(edits_view(es@), (kind, name@)),
{
    let mut out: Option<Vec<u8>> = None;
    let mut i: usize = 0;
    while i < es.len()
        invariant
            i <= es@.len(),
            crate::ast::opt_bytes_view(out) == spec_upd_payload(
                edits_view(es@).subrange(0, i as int),
                (kind, name@),
            ),
        decreases es@.len() - i,
    {
        let ghost ev = edits_view(es@);
        match &es[i] {
            Edit::Update { kind: k2, name: n2, payload } => {
                proof {
                    assert(ev[i as int] == es@[i as int]@);
                }
                if *k2 == kind && bytes_eq(n2.as_slice(), name) {
                    out = Some(copy_range(payload.as_slice(), 0, payload.len()));
                    proof {
                        assert(payload@.subrange(0, payload@.len() as int) =~= payload@);
                    }
                }
            },
            _ => {},
        }
        proof {
            assert(ev.subrange(0, i + 1 as int).drop_last() =~= ev.subrange(0, i as int));
            assert(ev.subrange(0, i + 1 as int).last() == ev[i as int]);
        }
        i += 1;
    }
    proof {
        assert(edits_view(es@).subrange(0, es@.len() as int) =~= edits_view(es@));
    }
    out
}

fn del_msg_of(kind: UnitKind, name: &[u8]) -> (r: Vec<u8>)
    ensures
        r@ == spec_del_msg((kind, name@)),
{
    let mut out: Vec<u8> = Vec::new();
    push_all(&mut out, "Deletion vs update on ".as_bytes());
    let lbl = kind_label(kind);
    push_all(&mut out, lbl.as_slice());
    push_all(&mut out, "::".as_bytes());
    push_all(&mut out, name);
    proof {
        assert(out@ =~= spec_del_msg((kind, name@)));
    }
    out
}

fn upd_msg_of(kind: UnitKind, name: &[u8]) -> (r: Vec<u8>)
    ensures
        r@ == spec_upd_msg((kind, name@)),
{
    let mut out: Vec<u8> = Vec::new();
    push_all(&mut out, "Both branches updated ".as_bytes());
    let lbl = kind_label(kind);
    push_all(&mut out, lbl.as_slice());
    push_all(&mut out, "::".as_bytes());
    push_all(&mut out, name);
    push_all(&mut out, " differently".as_bytes());
    proof {
        assert(out@ =~= spec_upd_msg((kind, name@)));
    }
    out
}

fn build_del_conflicts(
    del_keys: &Vec<(UnitKind, Vec<u8>)>,
    ea: &[Edit],
    eb: &[Edit],
) -> (r: Vec<Vec<u8>>)
    ensures
        lines_view(r@) == spec_del_conflicts(keys_view(del_keys@), edits_view(ea@), edits_view(eb@)),
{
    let mut out: Vec<Vec<u8>> = Vec::new();
    let mut i: usize = 0;
    proof {
        assert(keys_view(del_keys@).subrange(0, 0) =~= Seq::<(UnitKind, Seq<u8>)>::empty());
    }
    while i < del_keys.len()
        invariant
            i <= del_keys@.len(),
            lines_view(out@) == spec_del_conflicts(
                keys_view(del_keys@).subrange(0, i as int),
                edits_view(ea@),
                edits_view(eb@),
            ),
        decreases del_keys@.len() - i,
    {
        let ghost kv = keys_view(del_keys@);
        let ghost pre = lines_view(out@);
        let k = &del_keys[i];
        proof {
            assert(kv[i as int] == (k.0, k.1@));
        }
        let pa = upd_payload(ea, k.0, k.1.as_slice());
        let pb = upd_payload(eb, k.0, k.1.as_slice());
        if pa.is_some() || pb.is_some() {
            out.push(del_msg_of(k.0, k.1.as_slice()));
            proof {
                assert(lines_view(out@) =~= pre.push(spec_del_msg(kv[i as int])));
            }
        }
        proof {
            assert(kv.subrange(0, i + 1 as int).drop_last() =~= kv.subrange(0, i as int));
            assert(kv.subrange(0, i + 1 as int).last() == kv[i as int]);
        }
        i += 1;
    }
    proof {
        let kv = keys_view(del_keys@);
        assert(kv.subrange(0, kv.len() as int) =~= kv);
    }
    out
}

} // verus!

verus! {

/// `spec_insert_desc` splits at the first patch with a smaller start.
proof fn lemma_insert_desc_split(p: PatchV, ps: Seq<PatchV>, j: int)
    requires
        0 <= j <= ps.len(),
        forall|i: int| 0 <= i < j ==> !(p.start > (#[trigger] ps[i]).start),
        j < ps.len() ==> p.start > ps[j].start,
    ensures
        spec_insert_desc(p, ps) == ps.subrange(0, j) + seq![p] + ps.subrange(j, ps.len() as int),
    decreases j,
{
    if j == 0 {
        assert(spec_insert_desc(p, ps) =~= ps.subrange(0, 0) + seq![p] + ps.subrange(
            0,
            ps.len() as int,
        ));
    } else {
        let rest = ps.drop_first();
        assert(forall|i: int| 0 <= i < j - 1 ==> !(p.start > (#[trigger] rest[i]).start));
        lemma_insert_desc_split(p, rest, j - 1);
        assert(spec_insert_desc(p, ps) =~= ps.subrange(0, j) + seq![p] + ps.subrange(
            j,
            ps.len() as int,
        ));
    }
}

fn find_patch_pos(v: &Vec<Patch>, start: usize) -> (j: usize)
    ensures
        j <= v@.len(),
        forall|i: int| 0 <= i < j ==> !(start > (#[trigger] patches_view(v@)[i]).start),
        j < v@.len() ==> start > patches_view(v@)[j as int].start,
{
    let mut j: usize = 0;
    loop
        invariant
            j <= v@.len(),
            forall|i: int| 0 <= i < j ==> !(start > (#[trigger] patches_view(v@)[i]).start),
        decreases v@.len() - j,
    {
        if j >= v.len() {
            return j;
        }
        if start > v[j].start {
            assert(start > patches_view(v@)[j as int].start);
            return j;
        }
        j += 1;
    }
}

/// Inserts a patch into a list sorted by descending start, after patches
/// with an equal start.
fn insert_patch_sorted(v: &mut Vec<Patch>, p: Patch)
    ensures
        patches_view(final(v)@) == spec_insert_desc(p@, patches_view(old(v)@)),
{
    let j = find_patch_pos(v, p.start);
    proof {
        lemma_insert_desc_split(p@, patches_view(old(v)@), j as int);
    }
    v.insert(j, p);
    proof {
        let ov = patches_view(old(v)@);
        assert(patches_view(v@) =~= ov.subrange(0, j as int) + seq![p@] + ov.subrange(
            j as int,
            ov.len() as int,
        ));
    }
}

/// Resolves every updated key into patches (kept sorted by descending
/// start) and conflict messages.
fn resolve_updates(
    upd_keys: &Vec<(UnitKind, Vec<u8>)>,
    ea: &[Edit],
    eb: &[Edit],
    base: &AstFile,
    del_keys: &Vec<(UnitKind, Vec<u8>)>,
) -> (r: (Vec<Patch>, Vec<Vec<u8>>))
    ensures
        ({
            let rp = spec_resolve(
                keys_view(upd_keys@),
                edits_view(ea@),
                edits_view(eb@),
                base@.units,
                keys_view(del_keys@),
            );
            patches_view(r.0@) == spec_sort_desc(rp.0) && lines_view(r.1@) == rp.1
        }),
{
    let ghost eav = edits_view(ea@);
    let ghost ebv = edits_view(eb@);
    let ghost dkv = keys_view(del_keys@);
    let mut patches: Vec<Patch> = Vec::new();
    let mut msgs: Vec<Vec<u8>> = Vec::new();
    let ghost mut plist: Seq<PatchV> = Seq::empty();
    let mut i: usize = 0;
    proof {
        assert(keys_view(upd_keys@).subrange(0, 0) =~= Seq::<(UnitKind, Seq<u8>)>::empty());
    }
    while i < upd_keys.len()
        invariant
            i <= upd_keys@.len(),
            eav == edits_view(ea@),
            ebv == edits_view(eb@),
            dkv == keys_view(del_keys@),
            plist == spec_resolve(
                keys_view(upd_keys@).subrange(0, i as int),
                eav,
                ebv,
                base@.units,
                dkv,
            ).0,
            lines_view(msgs@) == spec_resolve(
                keys_view(upd_keys@).subrange(0, i as int),
                eav,
                ebv,
                base@.units,
                dkv,
            ).1,
            patches_view(patches@) == spec_sort_desc(plist),
        decreases upd_keys@.len() - i,
    {
        let ghost kv = keys_view(upd_keys@);
        let ghost pre_p = plist;
        let ghost pre_m = lines_view(msgs@);
        let k = &upd_keys[i];
        proof {
            assert(kv[i as int] == (k.0, k.1@));
        }
        if !key_in(del_keys, k.0, k.1.as_slice()) {
            let pa = upd_payload(ea, k.0, k.1.as_slice());
            let pb = upd_payload(eb, k.0, k.1.as_slice());
            match (pa, pb) {
                (Some(a), Some(b)) => {
                    if bytes_eq(a.as_slice(), b.as_slice()) {
                        match crate::diff::lookup_range(&base.units, k.0, k.1.as_slice()) {
                            Some((s, e)) => {
                                let p = Patch { start: s, end: e, replacement: a };
                                proof {
                                    plist = plist + seq![p@];
                                    assert(plist.drop_last() =~= pre_p);
                                }
                                insert_patch_sorted(&mut patches, p);
                            },
                            None => {},
                        }
                    } else if k.0 == UnitKind::Function {
                        match try_reconcile_param_rename(a.as_slice(), b.as_slice()) {
                            Some(rec) => {
                                match crate::diff::lookup_range(&base.units, k.0, k.1.as_slice()) {
                                    Some((s, e)) => {
                                        let p = Patch { start: s, end: e, replacement: rec };
                                        proof {
                                            plist = plist + seq![p@];
                                            assert(plist.drop_last() =~= pre_p);
                                        }
                                        insert_patch_sorted(&mut patches, p);
                                    },
                                    None => {},
                                }
                            },
                            None => {
                                msgs.push(upd_msg_of(k.0, k.1.as_slice()));
                            },
                        }
                    } else {
                        msgs.push(upd_msg_of(k.0, k.1.as_slice()));
                    }
                },
                (Some(a), None) => {
                    match crate::diff::lookup_range(&base.units, k.0, k.1.as_slice()) {
                        Some((s, e)) => {
                            let p = Patch { start: s, end: e, replacement: a };
                            proof {
                                plist = plist + seq![p@];
                                assert(plist.drop_last() =~= pre_p);
                            }
                            insert_patch_sorted(&mut patches, p);
                        },
                        None => {},
                    }
                },
                (None, Some(b)) => {
                    match crate::diff::lookup_range(&base.units, k.0, k.1.as_slice()) {
                        Some((s, e)) => {
                            let p = Patch { start: s, end: e, replacement: b };
                            proof {
                                plist = plist + seq![p@];
                                assert(plist.drop_last() =~= pre_p);
                            }
                            insert_patch_sorted(&mut patches, p);
                        },
                        None => {},
                    }
                },
                (None, None) => {},
            }
        }
        proof {
            assert(kv.subrange(0, i + 1 as int).drop_last() =~= kv.subrange(0, i as int));
            assert(kv.subrange(0, i + 1 as int).last() == kv[i as int]);
            let one = spec_resolve_key(kv[i as int], eav, ebv, base@.units, dkv);
            assert(plist =~= pre_p + one.0);
            assert(lines_view(msgs@) =~= pre_m + one.1);
            if one.0.len() > 0 {
                assert((pre_p + one.0).drop_last() =~= pre_p);
                assert((pre_p + one.0).last() == one.0[0]);
            }
        }
        i += 1;
    }
    proof {
        let kv = keys_view(upd_keys@);
        assert(kv.subrange(0, kv.len() as int) =~= kv);
    }
    (patches, msgs)
}

/// Applies sorted patches to a copy of the base text; an invalid range
/// records a conflict and leaves the buffer unchanged.
fn apply_patches(base_code: &[u8], sorted: &Vec<Patch>) -> (r: (Vec<u8>, Vec<Vec<u8>>))
    ensures
        ({
            let ap = spec_apply(base_code@, patches_view(sorted@));
            r.0@ == ap.0 && lines_view(r.1@) == ap.1
        }),
{
    let mut code: Vec<u8> = slice_to_vec(base_code);
    let mut msgs: Vec<Vec<u8>> = Vec::new();
    let mut i: usize = 0;
    proof {
        let pv = patches_view(sorted@);
        assert(pv.subrange(0, pv.len() as int) =~= pv);
        assert(lines_view(msgs@) + spec_apply(code@, pv.subrange(0, pv.len() as int)).1
            =~= spec_apply(base_code@, pv).1);
    }
    while i < sorted.len()
        invariant
            i <= sorted@.len(),
            ({
                let full = spec_apply(base_code@, patches_view(sorted@));
                let rest = spec_apply(
                    code@,
                    patches_view(sorted@).subrange(i as int, sorted@.len() as int),
                );
                full.0 == rest.0 && full.1 == lines_view(msgs@) + rest.1
            }),
        decreases sorted@.len() - i,
    {
        let ghost pv = patches_view(sorted@);
        let ghost prev_code = code@;
        let ghost pre_m = lines_view(msgs@);
        proof {
            let sub = pv.subrange(i as int, pv.len() as int);
            assert(sub[0] == pv[i as int]);
            assert(sub.drop_first() =~= pv.subrange(i + 1 as int, pv.len() as int));
        }
        let p = &sorted[i];
        if p.start <= p.end && p.end <= code.len() {
            let mut nc: Vec<u8> = Vec::new();
            push_all(&mut nc, vstd::slice::slice_subrange(code.as_slice(), 0, p.start));
            push_all(&mut nc, p.replacement.as_slice());
            let cl = code.len();
            push_all(&mut nc, vstd::slice::slice_subrange(code.as_slice(), p.end, cl));
            code = nc;
            proof {
                assert(code@ =~= spec_splice(prev_code, pv[i as int]));
                assert(lines_view(msgs@) + (Seq::<Seq<u8>>::empty() + spec_apply(
                    code@,
                    pv.subrange(i + 1 as int, pv.len() as int),
                ).1) =~= lines_view(msgs@) + spec_apply(
                    code@,
                    pv.subrange(i + 1 as int, pv.len() as int),
                ).1);
            }
        } else {
            msgs.push(slice_to_vec("Internal splice range out of bounds".as_bytes()));
            proof {
                assert(lines_view(msgs@) =~= pre_m.push(spec_oob_msg()));
                assert(pre_m + (seq![spec_oob_msg()] + spec_apply(
                    code@,
                    pv.subrange(i + 1 as int, pv.len() as int),
                ).1) =~= lines_view(msgs@) + spec_apply(
                    code@,
                    pv.subrange(i + 1 as int, pv.len() as int),
                ).1);
            }
        }
        i += 1;
    }
    proof {
        let pv = patches_view(sorted@);
        assert(pv.subrange(pv.len() as int, pv.len() as int) =~= Seq::<PatchV>::empty());
        assert(lines_view(msgs@) + Seq::<Seq<u8>>::empty() =~= lines_view(msgs@));
    }
    (code, msgs)
}

/// Appends every distinct insert payload, each preceded by a blank line.
fn append_inserts(code: &mut Vec<u8>, ins: &Vec<(UnitKind, Vec<u8>, Vec<u8>)>)
    ensures
        final(code)@ == spec_append_inserts(old(code)@, triples_view(ins@)),
{
    let mut i: usize = 0;
    proof {
        assert(triples_view(ins@).subrange(0, 0) =~= Seq::<(UnitKind, Seq<u8>, Seq<u8>)>::empty());
    }
    while i < ins.len()
        invariant
            i <= ins@.len(),
            code@ == spec_append_inserts(old(code)@, triples_view(ins@).subrange(0, i as int)),
        decreases ins@.len() - i,
    {
        push_all(code, "\n\n".as_bytes());
        push_all(code, ins[i].2.as_slice());
        push_all(code, "\n".as_bytes());
        proof {
            let tv = triples_view(ins@);
            assert(tv.subrange(0, i + 1 as int).drop_last() =~= tv.subrange(0, i as int));
            assert(tv.subrange(0, i + 1 as int).last() == tv[i as int]);
        }
        i += 1;
    }
    proof {
        let tv = triples_view(ins@);
        assert(tv.subrange(0, tv.len() as int) =~= tv);
    }
}

/// Merges the two edit scripts against the base file.
pub fn compose_top_level(base: &AstFile, ea: &[Edit], eb: &[Edit]) -> (r: MergeOutcome)
    ensures
        r@ == spec_compose(base@, edits_view(ea@), edits_view(eb@)),
{
    let ghost eav = edits_view(ea@);
    let ghost ebv = edits_view(eb@);

    let mut inserts: Vec<(UnitKind, Vec<u8>, Vec<u8>)> = Vec::new();
    proof {
        assert(triples_view(inserts@) =~= spec_dedup(Seq::<(UnitKind, Seq<u8>, Seq<u8>)>::empty()));
    }
    add_insert_triples(&mut inserts, ea, Ghost(Seq::empty()));
    proof {
        assert(Seq::<(UnitKind, Seq<u8>, Seq<u8>)>::empty() + spec_insert_triples(eav)
            =~= spec_insert_triples(eav));
    }
    add_insert_triples(&mut inserts, eb, Ghost(spec_insert_triples(eav)));

    let mut del_keys: Vec<(UnitKind, Vec<u8>)> = Vec::new();
    proof {
        assert(keys_view(del_keys@) =~= spec_dedup(Seq::<(UnitKind, Seq<u8>)>::empty()));
    }
    add_del_keys(&mut del_keys, ea, Ghost(Seq::empty()));
    proof {
        assert(Seq::<(UnitKind, Seq<u8>)>::empty() + spec_del_key_list(eav)
            =~= spec_del_key_list(eav));
    }
    add_del_keys(&mut del_keys, eb, Ghost(spec_del_key_list(eav)));

    let mut upd_keys: Vec<(UnitKind, Vec<u8>)> = Vec::new();
    proof {
        assert(keys_view(upd_keys@) =~= spec_dedup(Seq::<(UnitKind, Seq<u8>)>::empty()));
    }
    add_upd_keys(&mut upd_keys, ea, Ghost(Seq::empty()));
    proof {
        assert(Seq::<(UnitKind, Seq<u8>)>::empty() + spec_upd_key_list(eav)
            =~= spec_upd_key_list(eav));
    }
    add_upd_keys(&mut upd_keys, eb, Ghost(spec_upd_key_list(eav)));

    let mut conflicts = build_del_conflicts(&del_keys, ea, eb);
    let (patches, mut upd_msgs) = resolve_updates(&upd_keys, ea, eb, base, &del_keys);
    let ghost del_msgs_v = lines_view(conflicts@);
    let ghost upd_msgs_v = lines_view(upd_msgs@);
    conflicts.append(&mut upd_msgs);
    proof {
        assert(lines_view(conflicts@) =~= del_msgs_v + upd_msgs_v);
    }

    let (mut code, mut oob_msgs) = apply_patches(base.code.as_slice(), &patches);
    let ghost oob_msgs_v = lines_view(oob_msgs@);
    conflicts.append(&mut oob_msgs);
    proof {
        assert(lines_view(conflicts@) =~= (del_msgs_v + upd_msgs_v) + oob_msgs_v);
    }

    append_inserts(&mut code, &inserts);

    let mut payloads: Vec<Vec<u8>> = Vec::new();
    let mut pi: usize = 0;
    proof {
        assert(lines_view(payloads@) =~= triple_payloads(triples_view(inserts@).subrange(0, 0)));
    }
    while pi < inserts.len()
        invariant
            pi <= inserts@.len(),
            lines_view(payloads@) == triple_payloads(
                triples_view(inserts@).subrange(0, pi as int),
            ),
        decreases inserts@.len() - pi,
    {
        let pl = &inserts[pi].2;
        payloads.push(copy_range(pl.as_slice(), 0, pl.len()));
        proof {
            assert(pl@.subrange(0, pl@.len() as int) =~= pl@);
            let tv = triples_view(inserts@);
            assert(lines_view(payloads@) =~= triple_payloads(tv.subrange(0, pi as int)).push(
                tv[pi as int].2,
            ));
            assert(triple_payloads(tv.subrange(0, pi + 1 as int)) =~= triple_payloads(
                tv.subrange(0, pi as int),
            ).push(tv[pi as int].2));
        }
        pi += 1;
    }
    proof {
        let tv = triples_view(inserts@);
        assert(tv.subrange(0, tv.len() as int) =~= tv);
    }

    let merged = unify_imports(code.as_slice(), &payloads);
    MergeOutcome { merged_code: merged, conflicts }
}

} // verus!
