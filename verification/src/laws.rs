//! Laws of the merge engine, proved once over the composition's
//! specification: delete-wins asymmetry, the shape of conflict reports for
//! identical and for independent scripts, the safety of right-to-left
//! splicing, and order and uniqueness of the unified import block.

use vstd::prelude::*;
use vstd::multiset::Multiset;
use vstd::seq_lib::lemma_multiset_commutative;

use crate::ast::{FileV, UnitKind, UnitV};
use crate::bytes::lex_le;
use crate::compose::{
    spec_apply, spec_compose, spec_dedup, spec_del_conflicts, spec_del_key_list, spec_del_msg,
    spec_append_inserts, spec_insert_desc, spec_insert_triples, spec_oob_msg, spec_patch_ok,
    spec_resolve, spec_resolve_key, spec_sort_desc, spec_splice, spec_upd_key_list, spec_upd_msg,
    spec_upd_payload, PatchV,
};
use crate::diff::{
    spec_deletes, spec_diff, spec_has_key, spec_key, spec_lookup_range, spec_upserts, EditV,
};
use crate::imports::{lex_lt, spec_dedup_trim, spec_has_trim, spec_insert_asc, spec_sort_lines};

verus! {

proof fn lemma_contains_snoc<A>(s: Seq<A>, x: A)
    requires
        s.len() > 0,
    ensures
        s.contains(x) == (s.drop_last().contains(x) || x == s.last()),
{
    if s.contains(x) {
        let i = choose|i: int| 0 <= i < s.len() && s[i] == x;
        if i < s.len() - 1 {
            assert(s.drop_last()[i] == x);
        }
    }
    if s.drop_last().contains(x) {
        let i = choose|i: int| 0 <= i < s.drop_last().len() && s.drop_last()[i] == x;
        assert(s[i] == x);
    }
    if x == s.last() {
        assert(s[s.len() - 1] == x);
    }
}

proof fn lemma_contains_concat<A>(a: Seq<A>, b: Seq<A>, x: A)
    ensures
        (a + b).contains(x) == (a.contains(x) || b.contains(x)),
{
    if (a + b).contains(x) {
        let i = choose|i: int| 0 <= i < (a + b).len() && (a + b)[i] == x;
        if i < a.len() {
            assert(a[i] == x);
        } else {
            assert(b[i - a.len()] == x);
        }
    }
    if a.contains(x) {
        let i = choose|i: int| 0 <= i < a.len() && a[i] == x;
        assert((a + b)[i] == x);
    }
    if b.contains(x) {
        let i = choose|i: int| 0 <= i < b.len() && b[i] == x;
        assert((a + b)[a.len() + i] == x);
    }
}

/// De-duplication keeps exactly the elements of its input.
pub proof fn lemma_dedup_contains<A>(s: Seq<A>, x: A)
    ensures
        spec_dedup(s).contains(x) == s.contains(x),
    decreases s.len(),
{
    if s.len() == 0 {
    } else {
        lemma_dedup_contains(s.drop_last(), x);
        lemma_contains_snoc(s, x);
        let p = spec_dedup(s.drop_last());
        if !p.contains(s.last()) {
            lemma_contains_snoc(p.push(s.last()), x);
            assert(p.push(s.last()).drop_last() =~= p);
        }
    }
}

/// The update payload of a concatenated script: the second script's
/// update wins when present.
proof fn lemma_upd_payload_concat(a: Seq<EditV>, b: Seq<EditV>, k: (UnitKind, Seq<u8>))
    ensures
        spec_upd_payload(a + b, k) == (match spec_upd_payload(b, k) {
            Some(p) => Some(p),
            None => spec_upd_payload(a, k),
        }),
    decreases b.len(),
{
    if b.len() == 0 {
        assert(a + b =~= a);
    } else {
        assert((a + b).drop_last() =~= a + b.drop_last());
        lemma_upd_payload_concat(a, b.drop_last(), k);
    }
}

/// A key with an update payload occurs in the script's update-key list.
proof fn lemma_upd_payload_in_keys(es: Seq<EditV>, k: (UnitKind, Seq<u8>))
    requires
        spec_upd_payload(es, k) is Some,
    ensures
        spec_upd_key_list(es).contains(k),
    decreases es.len(),
{
    if es.len() > 0 {
        match es.last() {
            EditV::Update { kind, name, payload } => {
                if kind == k.0 && name == k.1 {
                    assert(spec_upd_key_list(es).last() == k);
                    assert(spec_upd_key_list(es).contains(k));
                } else {
                    lemma_upd_payload_in_keys(es.drop_last(), k);
                    lemma_contains_concat(spec_upd_key_list(es.drop_last()), seq![(kind, name)], k);
                }
            },
            _ => {
                lemma_upd_payload_in_keys(es.drop_last(), k);
                assert(spec_upd_key_list(es) =~= spec_upd_key_list(es.drop_last()));
            },
        }
    }
}

/// A deleted and updated key yields its conflict message.
proof fn lemma_del_conflicts_contains(
    keys: Seq<(UnitKind, Seq<u8>)>,
    ea: Seq<EditV>,
    eb: Seq<EditV>,
    k: (UnitKind, Seq<u8>),
)
    requires
        keys.contains(k),
        spec_upd_payload(ea, k) is Some || spec_upd_payload(eb, k) is Some,
    ensures
        spec_del_conflicts(keys, ea, eb).contains(spec_del_msg(k)),
    decreases keys.len(),
{
    lemma_contains_snoc(keys, k);
    let prior = spec_del_conflicts(keys.drop_last(), ea, eb);
    let contr: Seq<Seq<u8>> = if spec_upd_payload(ea, keys.last()) is Some || spec_upd_payload(
        eb,
        keys.last(),
    ) is Some {
        seq![spec_del_msg(keys.last())]
    } else {
        Seq::empty()
    };
    assert(spec_del_conflicts(keys, ea, eb) == prior + contr);
    if k == keys.last() {
        assert(contr[0] == spec_del_msg(k));
        assert(contr.contains(spec_del_msg(k)));
        lemma_contains_concat(prior, contr, spec_del_msg(k));
    } else {
        lemma_del_conflicts_contains(keys.drop_last(), ea, eb, k);
        lemma_contains_concat(prior, contr, spec_del_msg(k));
    }
}

/// A key's own conflict messages appear among the resolution's messages.
proof fn lemma_resolve_msgs_contains(
    keys: Seq<(UnitKind, Seq<u8>)>,
    ea: Seq<EditV>,
    eb: Seq<EditV>,
    base_units: Seq<UnitV>,
    del_keys: Seq<(UnitKind, Seq<u8>)>,
    k: (UnitKind, Seq<u8>),
    m: Seq<u8>,
)
    requires
        keys.contains(k),
        spec_resolve_key(k, ea, eb, base_units, del_keys).1.contains(m),
    ensures
        spec_resolve(keys, ea, eb, base_units, del_keys).1.contains(m),
    decreases keys.len(),
{
    lemma_contains_snoc(keys, k);
    let prior = spec_resolve(keys.drop_last(), ea, eb, base_units, del_keys);
    let one = spec_resolve_key(keys.last(), ea, eb, base_units, del_keys);
    if k == keys.last() {
        lemma_contains_concat(prior.1, one.1, m);
    } else {
        lemma_resolve_msgs_contains(keys.drop_last(), ea, eb, base_units, del_keys, k, m);
        lemma_contains_concat(prior.1, one.1, m);
    }
}

/// Delete-wins asymmetry: a key deleted on either side while either side
/// updates it yields the recorded deletion conflict, and its update is
/// discarded: the resolution step emits no patch and no other message for
/// that identity, whichever side deleted.
pub proof fn lemma_delete_wins(base: FileV, ea: Seq<EditV>, eb: Seq<EditV>, k: (UnitKind, Seq<u8>))
    requires
        spec_del_key_list(ea).contains(k) || spec_del_key_list(eb).contains(k),
        spec_upd_payload(ea, k) is Some || spec_upd_payload(eb, k) is Some,
    ensures
        spec_compose(base, ea, eb).conflicts.contains(spec_del_msg(k)),
        spec_resolve_key(
            k,
            ea,
            eb,
            base.units,
            spec_dedup(spec_del_key_list(ea) + spec_del_key_list(eb)),
        ) == (Seq::<PatchV>::empty(), Seq::<Seq<u8>>::empty()),
{
    let del_all = spec_del_key_list(ea) + spec_del_key_list(eb);
    lemma_contains_concat(spec_del_key_list(ea), spec_del_key_list(eb), k);
    lemma_dedup_contains(del_all, k);
    let del_keys = spec_dedup(del_all);
    lemma_del_conflicts_contains(del_keys, ea, eb, k);
    let del_msgs = spec_del_conflicts(del_keys, ea, eb);
    let upd_keys = spec_dedup(spec_upd_key_list(ea) + spec_upd_key_list(eb));
    let rp = spec_resolve(upd_keys, ea, eb, base.units, del_keys);
    let ap = spec_apply(base.code, spec_sort_desc(rp.0));
    lemma_contains_concat(del_msgs, rp.1, spec_del_msg(k));
    lemma_contains_concat(del_msgs + rp.1, ap.1, spec_del_msg(k));
}

/// Non-reconcilable conflict: when both sides update the same identity
/// with differing payloads and the rename heuristic does not apply, the
/// composition reports the structural conflict and patches nothing for
/// that identity, so its base text is kept.
pub proof fn lemma_conflicting_updates_reported(
    base: FileV,
    ea: Seq<EditV>,
    eb: Seq<EditV>,
    k: (UnitKind, Seq<u8>),
)
    requires
        !(spec_del_key_list(ea).contains(k) || spec_del_key_list(eb).contains(k)),
        spec_upd_payload(ea, k) is Some,
        spec_upd_payload(eb, k) is Some,
        spec_upd_payload(ea, k) != spec_upd_payload(eb, k),
        k.0 == UnitKind::Function ==> crate::reconcile::spec_reconcile(
            spec_upd_payload(ea, k)->Some_0,
            spec_upd_payload(eb, k)->Some_0,
        ) is None,
    ensures
        spec_compose(base, ea, eb).conflicts.contains(spec_upd_msg(k)),
        spec_resolve_key(
            k,
            ea,
            eb,
            base.units,
            spec_dedup(spec_del_key_list(ea) + spec_del_key_list(eb)),
        ) == (Seq::<PatchV>::empty(), seq![spec_upd_msg(k)]),
{
    let del_keys = spec_dedup(spec_del_key_list(ea) + spec_del_key_list(eb));
    lemma_contains_concat(spec_del_key_list(ea), spec_del_key_list(eb), k);
    lemma_dedup_contains(spec_del_key_list(ea) + spec_del_key_list(eb), k);
    lemma_upd_payload_in_keys(ea, k);
    lemma_contains_concat(spec_upd_key_list(ea), spec_upd_key_list(eb), k);
    lemma_dedup_contains(spec_upd_key_list(ea) + spec_upd_key_list(eb), k);
    let upd_keys = spec_dedup(spec_upd_key_list(ea) + spec_upd_key_list(eb));
    let one = spec_resolve_key(k, ea, eb, base.units, del_keys);
    assert(one.1 == seq![spec_upd_msg(k)]);
    assert(one.1.contains(spec_upd_msg(k))) by {
        assert(one.1[0] == spec_upd_msg(k));
    }
    lemma_resolve_msgs_contains(upd_keys, ea, eb, base.units, del_keys, k, spec_upd_msg(k));
    let del_msgs = spec_del_conflicts(del_keys, ea, eb);
    let rp = spec_resolve(upd_keys, ea, eb, base.units, del_keys);
    let ap = spec_apply(base.code, spec_sort_desc(rp.0));
    lemma_contains_concat(del_msgs, rp.1, spec_upd_msg(k));
    lemma_contains_concat(del_msgs + rp.1, ap.1, spec_upd_msg(k));
}

/// Right-to-left splicing invariant: patches sorted by strictly
/// decreasing application order, pairwise non-overlapping, and within the
/// buffer never record a splice-range conflict.
pub proof fn lemma_sorted_disjoint_patches_apply_clean(code: Seq<u8>, ps: Seq<PatchV>)
    requires
        forall|i: int, j: int|
            0 <= i < j < ps.len() ==> (#[trigger] ps[j]).end <= (#[trigger] ps[i]).start,
        forall|i: int| 0 <= i < ps.len() ==> (#[trigger] ps[i]).start <= ps[i].end <= code.len(),
    ensures
        spec_apply(code, ps).1 == Seq::<Seq<u8>>::empty(),
    decreases ps.len(),
{
    if ps.len() > 0 {
        let p = ps[0];
        assert(spec_patch_ok(code, p));
        let c1 = spec_splice(code, p);
        assert(c1.len() >= p.start);
        let rest = ps.drop_first();
        assert(forall|i: int, j: int|
            0 <= i < j < rest.len() ==> (#[trigger] rest[j]).end <= (#[trigger] rest[i]).start);
        assert(forall|i: int|
            0 <= i < rest.len() ==> (#[trigger] rest[i]).start <= rest[i].end <= c1.len()) by {
            assert(forall|i: int| 0 <= i < rest.len() ==> rest[i] == ps[i + 1]);
        }
        lemma_sorted_disjoint_patches_apply_clean(c1, rest);
        assert(spec_apply(code, ps).1 =~= Seq::<Seq<u8>>::empty());
    }
}

/// Every message the patch-application step records is the splice report.
proof fn lemma_apply_msgs_oob(code: Seq<u8>, ps: Seq<PatchV>)
    ensures
        forall|i: int|
            0 <= i < spec_apply(code, ps).1.len() ==> #[trigger] spec_apply(code, ps).1[i]
                == spec_oob_msg(),
    decreases ps.len(),
{
    if ps.len() > 0 {
        let head = if spec_patch_ok(code, ps[0]) {
            (spec_splice(code, ps[0]), Seq::<Seq<u8>>::empty())
        } else {
            (code, seq![spec_oob_msg()])
        };
        lemma_apply_msgs_oob(head.0, ps.drop_first());
        let rest = spec_apply(head.0, ps.drop_first()).1;
        let r = spec_apply(code, ps).1;
        assert(r == head.1 + rest);
        assert forall|i: int| 0 <= i < r.len() implies r[i] == spec_oob_msg() by {
            if i < head.1.len() {
                assert(head.1[i] == spec_oob_msg());
            } else {
                assert(r[i] == rest[i - head.1.len()]);
            }
        }
    }
}

/// The edit one variant unit contributes holds no delete, and an update
/// in it carries the unit's own identity.
proof fn lemma_edit_for_unit_shape(u: UnitV, base_units: Seq<UnitV>, code: Seq<u8>)
    ensures
        spec_del_key_list(crate::diff::spec_edit_for_unit(u, base_units, code)) == Seq::<
            (UnitKind, Seq<u8>),
        >::empty(),
        forall|k: (UnitKind, Seq<u8>)|
            #[trigger] spec_upd_payload(crate::diff::spec_edit_for_unit(u, base_units, code), k)
                is Some ==> spec_key(u) == Some((k.0, k.1)),
{
    let one = crate::diff::spec_edit_for_unit(u, base_units, code);
    match spec_key(u) {
        None => {
            assert(one =~= Seq::<EditV>::empty());
            assert forall|k: (UnitKind, Seq<u8>)|
                #[trigger] spec_upd_payload(one, k) is None by {
                assert(spec_upd_payload(Seq::<EditV>::empty(), k) is None);
            }
        },
        Some(kn) => {
            let payload = code.subrange(u.start_byte as int, u.end_byte as int);
            match spec_lookup_range(base_units, kn.0, kn.1) {
                None => {
                    let e = EditV::Insert { kind: kn.0, name: kn.1, payload };
                    assert(one == seq![e]);
                    lemma_single_edit_lists(e);
                    assert forall|k: (UnitKind, Seq<u8>)|
                        #[trigger] spec_upd_payload(one, k) is None by {
                        assert(one.drop_last() =~= Seq::<EditV>::empty());
                        assert(spec_upd_payload(Seq::<EditV>::empty(), k) is None);
                    }
                },
                Some(se) => {
                    if se.0 != u.start_byte || se.1 != u.end_byte {
                        let e = EditV::Update { kind: kn.0, name: kn.1, payload };
                        assert(one == seq![e]);
                        lemma_single_edit_lists(e);
                        assert forall|k: (UnitKind, Seq<u8>)|
                            #[trigger] spec_upd_payload(one, k) is Some implies spec_key(u)
                            == Some((k.0, k.1)) by {
                            if !(kn.0 == k.0 && kn.1 == k.1) {
                                assert(one.drop_last() =~= Seq::<EditV>::empty());
                                assert(spec_upd_payload(Seq::<EditV>::empty(), k) is None);
                            }
                        }
                    } else {
                        assert(one =~= Seq::<EditV>::empty());
                        assert forall|k: (UnitKind, Seq<u8>)|
                            #[trigger] spec_upd_payload(one, k) is None by {
                            assert(spec_upd_payload(Seq::<EditV>::empty(), k) is None);
                        }
                    }
                },
            }
        },
    }
}

/// The edit lists of a single-edit script, by its variant.
proof fn lemma_single_edit_lists(e: EditV)
    ensures
        spec_del_key_list(seq![e]) == (match e {
            EditV::Delete { kind, name } => seq![(kind, name)],
            _ => Seq::<(UnitKind, Seq<u8>)>::empty(),
        }),
        spec_upd_key_list(seq![e]) == (match e {
            EditV::Update { kind, name, payload } => seq![(kind, name)],
            _ => Seq::<(UnitKind, Seq<u8>)>::empty(),
        }),
{
    let s = seq![e];
    assert(s.len() == 1);
    assert(s.last() == e);
    assert(s.drop_last() =~= Seq::<EditV>::empty());
    assert(spec_del_key_list(Seq::<EditV>::empty()) == Seq::<(UnitKind, Seq<u8>)>::empty());
    assert(spec_upd_key_list(Seq::<EditV>::empty()) == Seq::<(UnitKind, Seq<u8>)>::empty());
    match e {
        EditV::Delete { kind, name } => {
            assert(spec_del_key_list(s) =~= seq![(kind, name)]);
            assert(spec_upd_key_list(s) =~= Seq::<(UnitKind, Seq<u8>)>::empty());
        },
        EditV::Update { kind, name, payload } => {
            assert(spec_del_key_list(s) =~= Seq::<(UnitKind, Seq<u8>)>::empty());
            assert(spec_upd_key_list(s) =~= seq![(kind, name)]);
        },
        EditV::Insert { kind, name, payload } => {
            assert(spec_del_key_list(s) =~= Seq::<(UnitKind, Seq<u8>)>::empty());
            assert(spec_upd_key_list(s) =~= Seq::<(UnitKind, Seq<u8>)>::empty());
        },
    }
}

/// The delete one base unit contributes holds no update, and its key is
/// the unit's identity, absent from the variant.
proof fn lemma_delete_for_unit_shape(u: UnitV, other_units: Seq<UnitV>)
    ensures
        forall|k: (UnitKind, Seq<u8>)|
            #[trigger] spec_upd_payload(crate::diff::spec_delete_for_unit(u, other_units), k)
                is None,
        forall|k: (UnitKind, Seq<u8>)|
            #[trigger] spec_del_key_list(crate::diff::spec_delete_for_unit(u, other_units))
                .contains(k) ==> spec_key(u) == Some((k.0, k.1)) && !spec_has_key(
                other_units,
                k.0,
                k.1,
            ),
{
    let one = crate::diff::spec_delete_for_unit(u, other_units);
    match spec_key(u) {
        None => {
            assert(one =~= Seq::<EditV>::empty());
            assert forall|k: (UnitKind, Seq<u8>)|
                #[trigger] spec_upd_payload(one, k) is None by {
                assert(spec_upd_payload(Seq::<EditV>::empty(), k) is None);
            }
        },
        Some(kn) => {
            if !spec_has_key(other_units, kn.0, kn.1) {
                let e = EditV::Delete { kind: kn.0, name: kn.1 };
                assert(one == seq![e]);
                lemma_single_edit_lists(e);
                assert forall|k: (UnitKind, Seq<u8>)|
                    #[trigger] spec_upd_payload(one, k) is None by {
                    assert(one.drop_last() =~= Seq::<EditV>::empty());
                    assert(spec_upd_payload(Seq::<EditV>::empty(), k) is None);
                }
                assert forall|k: (UnitKind, Seq<u8>)|
                    #[trigger] spec_del_key_list(one).contains(k) implies spec_key(u) == Some(
                    (k.0, k.1),
                ) && !spec_has_key(other_units, k.0, k.1) by {
                    assert(spec_del_key_list(one) == seq![(kn.0, kn.1)]);
                    assert(spec_del_key_list(one)[0] == (kn.0, kn.1));
                    let i = choose|i: int|
                        0 <= i < spec_del_key_list(one).len() && spec_del_key_list(one)[i] == k;
                    assert(k == (kn.0, kn.1));
                }
            } else {
                assert(one =~= Seq::<EditV>::empty());
                assert forall|k: (UnitKind, Seq<u8>)|
                    #[trigger] spec_upd_payload(one, k) is None by {
                    assert(spec_upd_payload(Seq::<EditV>::empty(), k) is None);
                }
            }
        },
    }
}

/// Update keys of a delete-only edit list are none; delete keys of an
/// upsert list are none.
proof fn lemma_upserts_have_no_deletes(units: Seq<UnitV>, base_units: Seq<UnitV>, code: Seq<u8>)
    ensures
        spec_del_key_list(spec_upserts(units, base_units, code)) == Seq::<
            (UnitKind, Seq<u8>),
        >::empty(),
    decreases units.len(),
{
    if units.len() > 0 {
        lemma_upserts_have_no_deletes(units.drop_last(), base_units, code);
        let prior = spec_upserts(units.drop_last(), base_units, code);
        let one = crate::diff::spec_edit_for_unit(units.last(), base_units, code);
        lemma_del_list_concat(prior, one);
        lemma_edit_for_unit_shape(units.last(), base_units, code);
        assert(spec_del_key_list(prior + one) =~= Seq::<(UnitKind, Seq<u8>)>::empty());
    }
}

proof fn lemma_del_list_concat(a: Seq<EditV>, b: Seq<EditV>)
    ensures
        spec_del_key_list(a + b) == spec_del_key_list(a) + spec_del_key_list(b),
    decreases b.len(),
{
    if b.len() == 0 {
        assert(a + b =~= a);
        assert(spec_del_key_list(a) + spec_del_key_list(b) =~= spec_del_key_list(a));
    } else {
        assert((a + b).drop_last() =~= a + b.drop_last());
        lemma_del_list_concat(a, b.drop_last());
        assert(spec_del_key_list(a + b) =~= spec_del_key_list(a) + spec_del_key_list(b));
    }
}

/// A key deleted by a diff has no unit in the variant.
proof fn lemma_deletes_keys_absent(
    base_units: Seq<UnitV>,
    other_units: Seq<UnitV>,
    k: (UnitKind, Seq<u8>),
)
    requires
        spec_del_key_list(spec_deletes(base_units, other_units)).contains(k),
    ensures
        !spec_has_key(other_units, k.0, k.1),
    decreases base_units.len(),
{
    if base_units.len() > 0 {
        let prior = spec_deletes(base_units.drop_last(), other_units);
        let one = crate::diff::spec_delete_for_unit(base_units.last(), other_units);
        lemma_del_list_concat(prior, one);
        lemma_contains_concat(spec_del_key_list(prior), spec_del_key_list(one), k);
        if spec_del_key_list(prior).contains(k) {
            lemma_deletes_keys_absent(base_units.drop_last(), other_units, k);
        } else {
            lemma_delete_for_unit_shape(base_units.last(), other_units);
        }
    }
}

/// A key updated by a diff has a unit in the variant.
proof fn lemma_upserts_keys_present(
    units: Seq<UnitV>,
    base_units: Seq<UnitV>,
    code: Seq<u8>,
    k: (UnitKind, Seq<u8>),
)
    requires
        spec_upd_payload(spec_upserts(units, base_units, code), k) is Some,
    ensures
        spec_has_key(units, k.0, k.1),
    decreases units.len(),
{
    if units.len() > 0 {
        let prior = spec_upserts(units.drop_last(), base_units, code);
        let one = crate::diff::spec_edit_for_unit(units.last(), base_units, code);
        lemma_upd_payload_concat(prior, one, k);
        if spec_upd_payload(one, k) is Some {
            lemma_edit_for_unit_shape(units.last(), base_units, code);
            assert(spec_key(units.last()) == Some((k.0, k.1)));
            lemma_key_found(units, k);
        } else {
            lemma_upserts_keys_present(units.drop_last(), base_units, code, k);
            lemma_has_key_snoc(units, k);
        }
    } else {
        assert(spec_upd_payload(Seq::<EditV>::empty(), k) is None);
    }
}

proof fn lemma_key_found(units: Seq<UnitV>, k: (UnitKind, Seq<u8>))
    requires
        units.len() > 0,
        spec_key(units.last()) == Some((k.0, k.1)),
    ensures
        spec_has_key(units, k.0, k.1),
    decreases units.len(),
{
    if spec_key(units[0]) == Some((k.0, k.1)) {
    } else {
        assert(units.drop_first().last() == units.last());
        lemma_key_found(units.drop_first(), k);
    }
}

proof fn lemma_has_key_snoc(units: Seq<UnitV>, k: (UnitKind, Seq<u8>))
    requires
        units.len() > 0,
        spec_has_key(units.drop_last(), k.0, k.1),
    ensures
        spec_has_key(units, k.0, k.1),
    decreases units.len(),
{
    if spec_key(units[0]) == Some((k.0, k.1)) {
    } else {
        assert(units.drop_last()[0] == units[0]);
        assert(units.drop_last().len() > 0);
        assert(units.drop_first().drop_last() =~= units.drop_last().drop_first());
        lemma_has_key_snoc(units.drop_first(), k);
    }
}

/// A single diff never both deletes and updates one identity.
pub proof fn lemma_diff_delete_update_exclusive(base: FileV, x: FileV, k: (UnitKind, Seq<u8>))
    requires
        spec_del_key_list(spec_diff(base, x)).contains(k),
    ensures
        spec_upd_payload(spec_diff(base, x), k) is None,
{
    let ups = spec_upserts(x.units, base.units, x.code);
    let dels = spec_deletes(base.units, x.units);
    lemma_del_list_concat(ups, dels);
    lemma_upserts_have_no_deletes(x.units, base.units, x.code);
    lemma_contains_concat(spec_del_key_list(ups), spec_del_key_list(dels), k);
    lemma_deletes_keys_absent(base.units, x.units, k);
    lemma_upd_payload_concat(ups, dels, k);
    lemma_upd_list_of_deletes_none(base.units, x.units, k);
    if spec_upd_payload(ups, k) is Some {
        lemma_upserts_keys_present(x.units, base.units, x.code, k);
    }
}

proof fn lemma_upd_list_of_deletes_none(
    base_units: Seq<UnitV>,
    other_units: Seq<UnitV>,
    k: (UnitKind, Seq<u8>),
)
    ensures
        spec_upd_payload(spec_deletes(base_units, other_units), k) is None,
    decreases base_units.len(),
{
    if base_units.len() > 0 {
        let prior = spec_deletes(base_units.drop_last(), other_units);
        let one = crate::diff::spec_delete_for_unit(base_units.last(), other_units);
        lemma_upd_payload_concat(prior, one, k);
        lemma_delete_for_unit_shape(base_units.last(), other_units);
        lemma_upd_list_of_deletes_none(base_units.drop_last(), other_units, k);
    }
}

proof fn lemma_del_conflicts_empty(
    keys: Seq<(UnitKind, Seq<u8>)>,
    ea: Seq<EditV>,
    eb: Seq<EditV>,
)
    requires
        forall|i: int|
            0 <= i < keys.len() ==> spec_upd_payload(ea, #[trigger] keys[i]) is None
                && spec_upd_payload(eb, keys[i]) is None,
    ensures
        spec_del_conflicts(keys, ea, eb) == Seq::<Seq<u8>>::empty(),
    decreases keys.len(),
{
    if keys.len() > 0 {
        assert(forall|i: int|
            0 <= i < keys.drop_last().len() ==> spec_upd_payload(
                ea,
                #[trigger] keys.drop_last()[i],
            ) is None && spec_upd_payload(eb, keys.drop_last()[i]) is None);
        lemma_del_conflicts_empty(keys.drop_last(), ea, eb);
        assert(spec_del_conflicts(keys, ea, eb) =~= Seq::<Seq<u8>>::empty());
    }
}

proof fn lemma_resolve_msgs_empty(
    keys: Seq<(UnitKind, Seq<u8>)>,
    ea: Seq<EditV>,
    eb: Seq<EditV>,
    base_units: Seq<UnitV>,
    del_keys: Seq<(UnitKind, Seq<u8>)>,
)
    requires
        forall|i: int|
            0 <= i < keys.len() ==> spec_resolve_key(
                #[trigger] keys[i],
                ea,
                eb,
                base_units,
                del_keys,
            ).1 == Seq::<Seq<u8>>::empty(),
    ensures
        spec_resolve(keys, ea, eb, base_units, del_keys).1 == Seq::<Seq<u8>>::empty(),
    decreases keys.len(),
{
    if keys.len() > 0 {
        assert(forall|i: int|
            0 <= i < keys.drop_last().len() ==> spec_resolve_key(
                #[trigger] keys.drop_last()[i],
                ea,
                eb,
                base_units,
                del_keys,
            ).1 == Seq::<Seq<u8>>::empty());
        lemma_resolve_msgs_empty(keys.drop_last(), ea, eb, base_units, del_keys);
        assert(spec_resolve(keys, ea, eb, base_units, del_keys).1 =~= Seq::<Seq<u8>>::empty());
    }
}

/// Idempotence of composition: merging a variant's edit script with
/// itself reports no deletion and no update conflict. Any conflict that
/// remains is the internal splice report, which the splicing law above
/// excludes for disjoint in-bounds units.
pub proof fn lemma_merge_self_no_edit_conflicts(base: FileV, x: FileV)
    ensures
        forall|i: int|
            0 <= i < spec_compose(base, spec_diff(base, x), spec_diff(base, x)).conflicts.len()
                ==> #[trigger] spec_compose(
                base,
                spec_diff(base, x),
                spec_diff(base, x),
            ).conflicts[i] == spec_oob_msg(),
        spec_compose(base, spec_diff(base, x), spec_diff(base, x)).conflicts == spec_apply(
            base.code,
            spec_sort_desc(
                spec_resolve(
                    spec_dedup(
                        spec_upd_key_list(spec_diff(base, x)) + spec_upd_key_list(
                            spec_diff(base, x),
                        ),
                    ),
                    spec_diff(base, x),
                    spec_diff(base, x),
                    base.units,
                    spec_dedup(
                        spec_del_key_list(spec_diff(base, x)) + spec_del_key_list(
                            spec_diff(base, x),
                        ),
                    ),
                ).0,
            ),
        ).1,
{
    let d = spec_diff(base, x);
    let del_keys = spec_dedup(spec_del_key_list(d) + spec_del_key_list(d));
    let upd_keys = spec_dedup(spec_upd_key_list(d) + spec_upd_key_list(d));
    assert(forall|i: int|
        0 <= i < del_keys.len() ==> spec_upd_payload(d, #[trigger] del_keys[i]) is None) by {
        assert forall|i: int| 0 <= i < del_keys.len() implies spec_upd_payload(
            d,
            #[trigger] del_keys[i],
        ) is None by {
            assert(del_keys.contains(del_keys[i]));
            lemma_dedup_contains(spec_del_key_list(d) + spec_del_key_list(d), del_keys[i]);
            lemma_contains_concat(spec_del_key_list(d), spec_del_key_list(d), del_keys[i]);
            lemma_diff_delete_update_exclusive(base, x, del_keys[i]);
        }
    }
    lemma_del_conflicts_empty(del_keys, d, d);
    assert(forall|i: int|
        0 <= i < upd_keys.len() ==> spec_resolve_key(
            #[trigger] upd_keys[i],
            d,
            d,
            base.units,
            del_keys,
        ).1 == Seq::<Seq<u8>>::empty());
    lemma_resolve_msgs_empty(upd_keys, d, d, base.units, del_keys);
    let rp = spec_resolve(upd_keys, d, d, base.units, del_keys);
    let ap = spec_apply(base.code, spec_sort_desc(rp.0));
    lemma_apply_msgs_oob(base.code, spec_sort_desc(rp.0));
    assert(spec_compose(base, d, d).conflicts =~= (Seq::<Seq<u8>>::empty() + Seq::<
        Seq<u8>,
    >::empty()) + ap.1);
    assert(spec_compose(base, d, d).conflicts =~= ap.1);
}

/// Independent edits compose: when neither script deletes anything and no
/// identity is updated by both sides, composition reports no deletion and
/// no update conflict; only the splice report could remain, excluded for
/// disjoint in-bounds units by the splicing law.
pub proof fn lemma_independent_edits_no_conflicts(base: FileV, ea: Seq<EditV>, eb: Seq<EditV>)
    requires
        spec_del_key_list(ea) == Seq::<(UnitKind, Seq<u8>)>::empty(),
        spec_del_key_list(eb) == Seq::<(UnitKind, Seq<u8>)>::empty(),
        forall|k: (UnitKind, Seq<u8>)|
            !(spec_upd_payload(ea, k) is Some && #[trigger] spec_upd_payload(eb, k) is Some),
    ensures
        forall|i: int|
            0 <= i < spec_compose(base, ea, eb).conflicts.len() ==> #[trigger] spec_compose(
                base,
                ea,
                eb,
            ).conflicts[i] == spec_oob_msg(),
        spec_compose(base, ea, eb).conflicts == spec_apply(
            base.code,
            spec_sort_desc(
                spec_resolve(
                    spec_dedup(spec_upd_key_list(ea) + spec_upd_key_list(eb)),
                    ea,
                    eb,
                    base.units,
                    spec_dedup(spec_del_key_list(ea) + spec_del_key_list(eb)),
                ).0,
            ),
        ).1,
{
    let del_keys = spec_dedup(spec_del_key_list(ea) + spec_del_key_list(eb));
    assert(spec_del_key_list(ea) + spec_del_key_list(eb) =~= Seq::<(UnitKind, Seq<u8>)>::empty());
    assert(del_keys =~= Seq::<(UnitKind, Seq<u8>)>::empty());
    let upd_keys = spec_dedup(spec_upd_key_list(ea) + spec_upd_key_list(eb));
    assert(forall|i: int|
        0 <= i < upd_keys.len() ==> spec_resolve_key(
            #[trigger] upd_keys[i],
            ea,
            eb,
            base.units,
            del_keys,
        ).1 == Seq::<Seq<u8>>::empty());
    lemma_resolve_msgs_empty(upd_keys, ea, eb, base.units, del_keys);
    let rp = spec_resolve(upd_keys, ea, eb, base.units, del_keys);
    let ap = spec_apply(base.code, spec_sort_desc(rp.0));
    lemma_apply_msgs_oob(base.code, spec_sort_desc(rp.0));
    assert(spec_compose(base, ea, eb).conflicts =~= (spec_del_conflicts(del_keys, ea, eb)
        + rp.1) + ap.1);
    assert(spec_compose(base, ea, eb).conflicts =~= ap.1);
}

/// Idempotence at the merge entry point: when the two sides are one and
/// the same text and the base's extraction has well-formed, separated,
/// nonempty units, the merged outcome carries no conflict.
pub proof fn lemma_entry_idempotent_conflict_free(
    lang: crate::ast::AstLanguage,
    base_code: Seq<u8>,
    x_code: Seq<u8>,
)
    requires
        crate::ast::spec_extract(lang, base_code).wf(),
        units_separated(crate::ast::spec_extract(lang, base_code).units),
        units_nonempty(crate::ast::spec_extract(lang, base_code).units),
    ensures
        crate::spec_merge_files(
            crate::ast::spec_extract(lang, base_code),
            crate::ast::spec_extract(lang, x_code),
            crate::ast::spec_extract(lang, x_code),
        ).conflicts == Seq::<Seq<u8>>::empty(),
{
    lemma_merge_self_conflict_free(
        crate::ast::spec_extract(lang, base_code),
        crate::ast::spec_extract(lang, x_code),
    );
}

proof fn lemma_lex_le_refl(a: Seq<u8>)
    ensures
        lex_le(a, a),
    decreases a.len(),
{
    if a.len() > 0 {
        lemma_lex_le_refl(a.drop_first());
    }
}

proof fn lemma_lex_le_total(a: Seq<u8>, b: Seq<u8>)
    ensures
        lex_le(a, b) || lex_le(b, a),
    decreases a.len(),
{
    if a.len() > 0 && b.len() > 0 && a[0] == b[0] {
        lemma_lex_le_total(a.drop_first(), b.drop_first());
    }
}

/// Lines in ascending lexicographic order.
pub open spec fn lines_sorted(ls: Seq<Seq<u8>>) -> bool {
    forall|i: int| 0 <= i < ls.len() - 1 ==> lex_le(#[trigger] ls[i], ls[i + 1])
}

proof fn lemma_insert_asc_sorted(l: Seq<u8>, ls: Seq<Seq<u8>>)
    requires
        lines_sorted(ls),
    ensures
        lines_sorted(spec_insert_asc(l, ls)),
    decreases ls.len(),
{
    if ls.len() == 0 {
    } else if lex_lt(l, ls[0]) {
        let r = seq![l] + ls;
        assert forall|i: int| 0 <= i < r.len() - 1 implies lex_le(#[trigger] r[i], r[i + 1]) by {
            if i == 0 {
                assert(r[0] == l && r[1] == ls[0]);
            } else {
                assert(r[i] == ls[i - 1] && r[i + 1] == ls[i]);
                assert(lex_le(ls[i - 1], ls[i]));
            }
        }
    } else {
        assert(forall|i: int| 0 <= i < ls.drop_first().len() ==> ls.drop_first()[i] == ls[i + 1]);
        assert(lines_sorted(ls.drop_first()));
        lemma_insert_asc_sorted(l, ls.drop_first());
        let sub = spec_insert_asc(l, ls.drop_first());
        let r = seq![ls[0]] + sub;
        lemma_lex_le_total(l, ls[0]);
        assert(lex_le(ls[0], l));
        assert(sub.len() > 0);
        assert(lex_le(ls[0], sub[0])) by {
            if ls.drop_first().len() == 0 {
                assert(sub == seq![l]);
            } else if lex_lt(l, ls.drop_first()[0]) {
                assert(sub[0] == l);
            } else {
                assert(sub[0] == ls.drop_first()[0]);
                assert(lex_le(ls[0], ls[1]));
            }
        }
        assert forall|i: int| 0 <= i < r.len() - 1 implies lex_le(#[trigger] r[i], r[i + 1]) by {
            if i == 0 {
                assert(r[0] == ls[0] && r[1] == sub[0]);
            } else {
                assert(r[i] == sub[i - 1] && r[i + 1] == sub[i]);
                assert(lex_le(sub[i - 1], sub[i]));
            }
        }
    }
}

proof fn lemma_insert_asc_multiset(l: Seq<u8>, ls: Seq<Seq<u8>>)
    ensures
        spec_insert_asc(l, ls).to_multiset() =~= ls.to_multiset().insert(l),
    decreases ls.len(),
{
    broadcast use vstd::seq_lib::group_to_multiset_ensures;

    if ls.len() == 0 {
        assert(seq![l] =~= Seq::<Seq<u8>>::empty().push(l));
    } else if lex_lt(l, ls[0]) {
        lemma_multiset_commutative(seq![l], ls);
        assert(seq![l].to_multiset() =~= Multiset::<Seq<u8>>::empty().insert(l)) by {
            assert(seq![l] =~= Seq::<Seq<u8>>::empty().push(l));
        }
    } else {
        lemma_insert_asc_multiset(l, ls.drop_first());
        lemma_multiset_commutative(seq![ls[0]], spec_insert_asc(l, ls.drop_first()));
        lemma_multiset_commutative(seq![ls[0]], ls.drop_first());
        assert(seq![ls[0]] + ls.drop_first() =~= ls);
        assert(seq![ls[0]].to_multiset() =~= Multiset::<Seq<u8>>::empty().insert(ls[0])) by {
            assert(seq![ls[0]] =~= Seq::<Seq<u8>>::empty().push(ls[0]));
        }
    }
}

/// Import de-duplication and ordering: the de-duplicated import list has
/// pairwise distinct lines even after trimming, and its sort is the same
/// multiset of lines arranged in ascending lexicographic order — so each
/// distinct import occurs exactly once in the unified block, sorted.
pub proof fn lemma_import_block_sorted_unique(all: Seq<Seq<u8>>)
    ensures
        ({
            let uniq = spec_dedup_trim(all);
            let sorted = spec_sort_lines(uniq);
            &&& forall|i: int, j: int|
                0 <= i < j < uniq.len() ==> crate::bytes::spec_trim(#[trigger] uniq[i])
                    != crate::bytes::spec_trim(#[trigger] uniq[j])
            &&& lines_sorted(sorted)
            &&& sorted.to_multiset() =~= uniq.to_multiset()
        }),
{
    lemma_dedup_trim_distinct(all);
    lemma_sort_lines_sorted_multiset(spec_dedup_trim(all));
}

proof fn lemma_dedup_trim_distinct(all: Seq<Seq<u8>>)
    ensures
        forall|i: int, j: int|
            0 <= i < j < spec_dedup_trim(all).len() ==> crate::bytes::spec_trim(
                #[trigger] spec_dedup_trim(all)[i],
            ) != crate::bytes::spec_trim(#[trigger] spec_dedup_trim(all)[j]),
    decreases all.len(),
{
    if all.len() > 0 {
        lemma_dedup_trim_distinct(all.drop_last());
        let p = spec_dedup_trim(all.drop_last());
        if !spec_has_trim(p, crate::bytes::spec_trim(all.last())) {
            let r = p.push(all.last());
            assert(forall|i: int| 0 <= i < p.len() ==> r[i] == p[i]);
        }
    }
}

proof fn lemma_sort_lines_sorted_multiset(ls: Seq<Seq<u8>>)
    ensures
        lines_sorted(spec_sort_lines(ls)),
        spec_sort_lines(ls).to_multiset() =~= ls.to_multiset(),
    decreases ls.len(),
{
    broadcast use vstd::seq_lib::group_to_multiset_ensures;

    if ls.len() > 0 {
        lemma_sort_lines_sorted_multiset(ls.drop_last());
        lemma_insert_asc_sorted(ls.last(), spec_sort_lines(ls.drop_last()));
        lemma_insert_asc_multiset(ls.last(), spec_sort_lines(ls.drop_last()));
        assert(ls.drop_last().push(ls.last()) =~= ls);
    }
}

} // verus!

verus! {

/// Byte ranges of two patches do not overlap.
pub open spec fn patches_disjoint(p: PatchV, q: PatchV) -> bool {
    p.end <= q.start || q.end <= p.start
}

/// All pairs of patches in the list have non-overlapping ranges.
pub open spec fn pairwise_disjoint(ps: Seq<PatchV>) -> bool {
    forall|i: int, j: int|
        0 <= i < j < ps.len() ==> patches_disjoint(#[trigger] ps[i], #[trigger] ps[j])
}

/// Units occupy non-overlapping byte ranges.
pub open spec fn units_separated(units: Seq<UnitV>) -> bool {
    forall|i: int, j: int|
        0 <= i < units.len() && 0 <= j < units.len() && i != j ==> ((#[trigger] units[i]).end_byte
            <= (#[trigger] units[j]).start_byte || units[j].end_byte <= units[i].start_byte)
}

/// Every unit covers at least one byte.
pub open spec fn units_nonempty(units: Seq<UnitV>) -> bool {
    forall|i: int| 0 <= i < units.len() ==> (#[trigger] units[i]).start_byte < units[i].end_byte
}

/// Patches sorted by non-increasing start offset.
pub open spec fn patches_sorted_desc(ps: Seq<PatchV>) -> bool {
    forall|i: int| 0 <= i < ps.len() - 1 ==> (#[trigger] ps[i]).start >= ps[i + 1].start
}

/// A found range belongs to a unit carrying the looked-up identity.
proof fn lemma_lookup_is_unit(units: Seq<UnitV>, kind: UnitKind, name: Seq<u8>)
    ensures
        match spec_lookup_range(units, kind, name) {
            Some(se) => exists|i: int|
                0 <= i < units.len() && (#[trigger] units[i]).start_byte == se.0
                    && units[i].end_byte == se.1 && spec_key(units[i]) == Some((kind, name)),
            None => true,
        },
    decreases units.len(),
{
    if units.len() > 0 {
        if spec_key(units[0]) == Some((kind, name)) {
            assert(units[0].start_byte == spec_lookup_range(units, kind, name)->Some_0.0);
        } else {
            lemma_lookup_is_unit(units.drop_first(), kind, name);
            match spec_lookup_range(units.drop_first(), kind, name) {
                Some(se) => {
                    let i = choose|i: int|
                        0 <= i < units.drop_first().len()
                            && (#[trigger] units.drop_first()[i]).start_byte == se.0
                            && units.drop_first()[i].end_byte == se.1
                            && spec_key(units.drop_first()[i]) == Some((kind, name));
                    assert(units[i + 1] == units.drop_first()[i]);
                },
                None => {},
            }
        }
    }
}

/// Distinct identities live on disjoint ranges of a separated unit list.
proof fn lemma_distinct_keys_disjoint(
    units: Seq<UnitV>,
    k1: (UnitKind, Seq<u8>),
    k2: (UnitKind, Seq<u8>),
    se1: (usize, usize),
    se2: (usize, usize),
)
    requires
        units_separated(units),
        k1 != k2,
        spec_lookup_range(units, k1.0, k1.1) == Some(se1),
        spec_lookup_range(units, k2.0, k2.1) == Some(se2),
    ensures
        se1.1 <= se2.0 || se2.1 <= se1.0,
{
    lemma_lookup_is_unit(units, k1.0, k1.1);
    lemma_lookup_is_unit(units, k2.0, k2.1);
    let i1 = choose|i: int|
        0 <= i < units.len() && (#[trigger] units[i]).start_byte == se1.0 && units[i].end_byte
            == se1.1 && spec_key(units[i]) == Some((k1.0, k1.1));
    let i2 = choose|i: int|
        0 <= i < units.len() && (#[trigger] units[i]).start_byte == se2.0 && units[i].end_byte
            == se2.1 && spec_key(units[i]) == Some((k2.0, k2.1));
    if i1 == i2 {
        assert((k1.0, k1.1) == (k2.0, k2.1));
        assert(k1 == k2);
    }
}

/// Any patch a key's resolution yields sits on that key's base range.
proof fn lemma_resolve_key_patch(
    k: (UnitKind, Seq<u8>),
    ea: Seq<EditV>,
    eb: Seq<EditV>,
    base_units: Seq<UnitV>,
    del_keys: Seq<(UnitKind, Seq<u8>)>,
)
    ensures
        forall|j: int|
            0 <= j < spec_resolve_key(k, ea, eb, base_units, del_keys).0.len()
                ==> spec_lookup_range(base_units, k.0, k.1) == Some(
                ((#[trigger] spec_resolve_key(k, ea, eb, base_units, del_keys).0[j]).start,
                spec_resolve_key(k, ea, eb, base_units, del_keys).0[j].end),
            ),
{
}

/// Patches of a resolution: each sits on the base range of one of the
/// resolved keys, and under distinct keys they are pairwise disjoint.
proof fn lemma_resolve_patches(
    keys: Seq<(UnitKind, Seq<u8>)>,
    ea: Seq<EditV>,
    eb: Seq<EditV>,
    base_units: Seq<UnitV>,
    del_keys: Seq<(UnitKind, Seq<u8>)>,
)
    requires
        keys.no_duplicates(),
        units_separated(base_units),
    ensures
        forall|j: int|
            0 <= j < spec_resolve(keys, ea, eb, base_units, del_keys).0.len() ==> exists|i: int|
                0 <= i < keys.len() && spec_lookup_range(
                    base_units,
                    (#[trigger] keys[i]).0,
                    keys[i].1,
                ) == Some(
                ((#[trigger] spec_resolve(keys, ea, eb, base_units, del_keys).0[j]).start,
                spec_resolve(keys, ea, eb, base_units, del_keys).0[j].end),
            ),
        pairwise_disjoint(spec_resolve(keys, ea, eb, base_units, del_keys).0),
    decreases keys.len(),
{
    if keys.len() > 0 {
        assert(keys.drop_last().no_duplicates()) by {
            assert(forall|i: int| 0 <= i < keys.drop_last().len() ==> keys.drop_last()[i]
                == keys[i]);
        }
        lemma_resolve_patches(keys.drop_last(), ea, eb, base_units, del_keys);
        lemma_resolve_key_patch(keys.last(), ea, eb, base_units, del_keys);
        let prior = spec_resolve(keys.drop_last(), ea, eb, base_units, del_keys);
        let one = spec_resolve_key(keys.last(), ea, eb, base_units, del_keys);
        let ps = spec_resolve(keys, ea, eb, base_units, del_keys).0;
        assert(ps == prior.0 + one.0);
        assert forall|j: int| 0 <= j < ps.len() implies exists|i: int|
            0 <= i < keys.len() && spec_lookup_range(base_units, (#[trigger] keys[i]).0, keys[i].1)
                == Some(((#[trigger] ps[j]).start, ps[j].end)) by {
            if j < prior.0.len() {
                assert(ps[j] == prior.0[j]);
                let i = choose|i: int|
                    0 <= i < keys.drop_last().len() && spec_lookup_range(
                        base_units,
                        (#[trigger] keys.drop_last()[i]).0,
                        keys.drop_last()[i].1,
                    ) == Some((prior.0[j].start, prior.0[j].end));
                assert(keys[i] == keys.drop_last()[i]);
                assert(spec_lookup_range(base_units, keys[i].0, keys[i].1) == Some(
                    (ps[j].start, ps[j].end),
                ));
            } else {
                assert(ps[j] == one.0[j - prior.0.len()]);
                assert(spec_lookup_range(base_units, keys.last().0, keys.last().1) == Some(
                    (ps[j].start, ps[j].end),
                ));
                assert(keys[keys.len() - 1] == keys.last());
            }
        }
        assert forall|j1: int, j2: int| 0 <= j1 < j2 < ps.len() implies patches_disjoint(
            #[trigger] ps[j1],
            #[trigger] ps[j2],
        ) by {
            if j2 < prior.0.len() {
                assert(ps[j1] == prior.0[j1] && ps[j2] == prior.0[j2]);
            } else if j1 >= prior.0.len() {
                assert(one.0.len() <= 1);
            } else {
                assert(ps[j1] == prior.0[j1]);
                assert(ps[j2] == one.0[j2 - prior.0.len()]);
                let i = choose|i: int|
                    0 <= i < keys.drop_last().len() && spec_lookup_range(
                        base_units,
                        (#[trigger] keys.drop_last()[i]).0,
                        keys.drop_last()[i].1,
                    ) == Some((prior.0[j1].start, prior.0[j1].end));
                assert(keys[i] == keys.drop_last()[i]);
                assert(keys[i] != keys.last());
                assert(spec_lookup_range(base_units, keys.last().0, keys.last().1) == Some(
                    (ps[j2].start, ps[j2].end),
                ));
                lemma_distinct_keys_disjoint(
                    base_units,
                    keys[i],
                    keys.last(),
                    (ps[j1].start, ps[j1].end),
                    (ps[j2].start, ps[j2].end),
                );
            }
        }
    }
}

/// De-duplication yields a duplicate-free list.
proof fn lemma_dedup_no_duplicates<A>(s: Seq<A>)
    ensures
        spec_dedup(s).no_duplicates(),
    decreases s.len(),
{
    if s.len() > 0 {
        lemma_dedup_no_duplicates(s.drop_last());
        let p = spec_dedup(s.drop_last());
        if !p.contains(s.last()) {
            let r = p.push(s.last());
            assert forall|i: int, j: int| 0 <= i < j < r.len() implies r[i] != r[j] by {
                if j == r.len() - 1 {
                    assert(r[i] == p[i]);
                    assert(p.contains(p[i]));
                }
            }
        }
    }
}

proof fn lemma_insert_desc_contains(p: PatchV, s: Seq<PatchV>, x: PatchV)
    ensures
        spec_insert_desc(p, s).contains(x) == (s.contains(x) || x == p),
    decreases s.len(),
{
    if s.len() == 0 {
        assert(spec_insert_desc(p, s)[0] == p);
        if spec_insert_desc(p, s).contains(x) {
            let i = choose|i: int|
                0 <= i < spec_insert_desc(p, s).len() && spec_insert_desc(p, s)[i] == x;
            assert(i == 0);
        }
    } else if p.start > s[0].start {
        lemma_contains_concat(seq![p], s, x);
        if seq![p].contains(x) {
            assert(seq![p][0] == p);
        }
        if x == p {
            assert(seq![p][0] == x);
        }
    } else {
        lemma_insert_desc_contains(p, s.drop_first(), x);
        lemma_contains_concat(seq![s[0]], spec_insert_desc(p, s.drop_first()), x);
        lemma_contains_concat(seq![s[0]], s.drop_first(), x);
        assert(seq![s[0]] + s.drop_first() =~= s);
        if seq![s[0]].contains(x) {
            assert(seq![s[0]][0] == s[0]);
        }
        if x == s[0] {
            assert(seq![s[0]][0] == x);
        }
    }
}

proof fn lemma_insert_desc_sorted(p: PatchV, s: Seq<PatchV>)
    requires
        patches_sorted_desc(s),
    ensures
        patches_sorted_desc(spec_insert_desc(p, s)),
    decreases s.len(),
{
    if s.len() == 0 {
    } else if p.start > s[0].start {
        let r = seq![p] + s;
        assert forall|i: int| 0 <= i < r.len() - 1 implies (#[trigger] r[i]).start >= r[i
            + 1].start by {
            if i == 0 {
            } else {
                assert(r[i] == s[i - 1] && r[i + 1] == s[i]);
            }
        }
    } else {
        assert(patches_sorted_desc(s.drop_first())) by {
            assert(forall|i: int| 0 <= i < s.drop_first().len() ==> s.drop_first()[i] == s[i + 1]);
        }
        lemma_insert_desc_sorted(p, s.drop_first());
        let sub = spec_insert_desc(p, s.drop_first());
        let r = seq![s[0]] + sub;
        assert(sub.len() > 0) by {
            lemma_insert_desc_len(p, s.drop_first());
        }
        assert(s[0].start >= sub[0].start) by {
            if s.drop_first().len() == 0 {
                assert(sub == seq![p]);
            } else if p.start > s.drop_first()[0].start {
                assert(sub[0] == p);
            } else {
                assert(sub[0] == s.drop_first()[0]);
                assert(s[0].start >= s[1].start);
            }
        }
        assert forall|i: int| 0 <= i < r.len() - 1 implies (#[trigger] r[i]).start >= r[i
            + 1].start by {
            if i == 0 {
                assert(r[0] == s[0] && r[1] == sub[0]);
            } else {
                assert(r[i] == sub[i - 1] && r[i + 1] == sub[i]);
                assert(sub[i - 1].start >= sub[i].start);
            }
        }
    }
}

proof fn lemma_insert_desc_len(p: PatchV, s: Seq<PatchV>)
    ensures
        spec_insert_desc(p, s).len() == s.len() + 1,
    decreases s.len(),
{
    if s.len() > 0 && !(p.start > s[0].start) {
        lemma_insert_desc_len(p, s.drop_first());
    }
}

proof fn lemma_insert_desc_pairwise(p: PatchV, s: Seq<PatchV>)
    requires
        pairwise_disjoint(s),
        forall|x: PatchV| s.contains(x) ==> patches_disjoint(p, x),
    ensures
        pairwise_disjoint(spec_insert_desc(p, s)),
    decreases s.len(),
{
    if s.len() == 0 {
    } else if p.start > s[0].start {
        let r = seq![p] + s;
        assert forall|i: int, j: int| 0 <= i < j < r.len() implies patches_disjoint(
            #[trigger] r[i],
            #[trigger] r[j],
        ) by {
            if i == 0 {
                assert(r[j] == s[j - 1]);
                assert(s.contains(s[j - 1]));
            } else {
                assert(r[i] == s[i - 1] && r[j] == s[j - 1]);
            }
        }
    } else {
        assert(pairwise_disjoint(s.drop_first())) by {
            assert(forall|i: int| 0 <= i < s.drop_first().len() ==> s.drop_first()[i] == s[i + 1]);
        }
        assert(forall|x: PatchV| s.drop_first().contains(x) ==> s.contains(x)) by {
            assert forall|x: PatchV| s.drop_first().contains(x) implies s.contains(x) by {
                let i = choose|i: int|
                    0 <= i < s.drop_first().len() && s.drop_first()[i] == x;
                assert(s[i + 1] == x);
            }
        }
        lemma_insert_desc_pairwise(p, s.drop_first());
        let sub = spec_insert_desc(p, s.drop_first());
        let r = seq![s[0]] + sub;
        assert forall|i: int, j: int| 0 <= i < j < r.len() implies patches_disjoint(
            #[trigger] r[i],
            #[trigger] r[j],
        ) by {
            if i == 0 {
                let x = r[j];
                assert(sub[j - 1] == x);
                assert(sub.contains(x));
                lemma_insert_desc_contains(p, s.drop_first(), x);
                if x == p {
                    assert(s.contains(s[0]));
                    assert(patches_disjoint(p, s[0]));
                } else {
                    let ii = choose|ii: int|
                        0 <= ii < s.drop_first().len() && s.drop_first()[ii] == x;
                    assert(s[ii + 1] == x);
                    assert(patches_disjoint(s[0], s[ii + 1]));
                }
            } else {
                assert(r[i] == sub[i - 1] && r[j] == sub[j - 1]);
            }
        }
    }
}

#[verifier::rlimit(100)]
proof fn lemma_sort_desc_props(s: Seq<PatchV>)
    requires
        pairwise_disjoint(s),
    ensures
        patches_sorted_desc(spec_sort_desc(s)),
        pairwise_disjoint(spec_sort_desc(s)),
        forall|x: PatchV| #[trigger] spec_sort_desc(s).contains(x) ==> s.contains(x),
    decreases s.len(),
{
    if s.len() > 0 {
        assert(pairwise_disjoint(s.drop_last())) by {
            assert(forall|i: int| 0 <= i < s.drop_last().len() ==> s.drop_last()[i] == s[i]);
        }
        lemma_sort_desc_props(s.drop_last());
        let sorted_prior = spec_sort_desc(s.drop_last());
        assert forall|x: PatchV| sorted_prior.contains(x) implies patches_disjoint(
            s.last(),
            x,
        ) by {
            assert(s.drop_last().contains(x));
            let i = choose|i: int| 0 <= i < s.drop_last().len() && s.drop_last()[i] == x;
            assert(s[i] == x);
            assert(patches_disjoint(s[i], s[s.len() - 1]));
        }
        lemma_insert_desc_sorted(s.last(), sorted_prior);
        lemma_insert_desc_pairwise(s.last(), sorted_prior);
        assert forall|x: PatchV| #[trigger] spec_sort_desc(s).contains(x) implies s.contains(
            x,
        ) by {
            lemma_insert_desc_contains(s.last(), sorted_prior, x);
            if x == s.last() {
                assert(s[s.len() - 1] == x);
            } else {
                assert(sorted_prior.contains(x));
                let i = choose|i: int| 0 <= i < s.drop_last().len() && s.drop_last()[i] == x;
                assert(s[i] == x);
            }
        }
    }
}

/// When the base's units are separated, nonempty, and within its text,
/// the sorted patches of a resolution splice without any range conflict.
proof fn lemma_resolve_apply_clean(
    base: FileV,
    keys: Seq<(UnitKind, Seq<u8>)>,
    ea: Seq<EditV>,
    eb: Seq<EditV>,
    del_keys: Seq<(UnitKind, Seq<u8>)>,
)
    requires
        base.wf(),
        units_separated(base.units),
        units_nonempty(base.units),
        keys.no_duplicates(),
    ensures
        spec_apply(
            base.code,
            spec_sort_desc(spec_resolve(keys, ea, eb, base.units, del_keys).0),
        ).1 == Seq::<Seq<u8>>::empty(),
{
    let ps = spec_resolve(keys, ea, eb, base.units, del_keys).0;
    lemma_resolve_patches(keys, ea, eb, base.units, del_keys);
    assert forall|j: int| 0 <= j < ps.len() implies ((#[trigger] ps[j]).start < ps[j].end
        && ps[j].end <= base.code.len()) by {
        let i = choose|i: int|
            0 <= i < keys.len() && spec_lookup_range(base.units, (#[trigger] keys[i]).0, keys[i].1)
                == Some((ps[j].start, ps[j].end));
        lemma_lookup_is_unit(base.units, keys[i].0, keys[i].1);
        let u = choose|u: int|
            0 <= u < base.units.len() && (#[trigger] base.units[u]).start_byte == ps[j].start
                && base.units[u].end_byte == ps[j].end && spec_key(base.units[u]) == Some(
                (keys[i].0, keys[i].1),
            );
        assert(base.units[u].start_byte < base.units[u].end_byte);
        assert(base.units[u].start_byte <= base.units[u].end_byte <= base.code.len());
    }
    lemma_sort_desc_props(ps);
    let sorted = spec_sort_desc(ps);
    assert forall|i: int, j: int| 0 <= i < j < sorted.len() implies (#[trigger] sorted[j]).end
        <= (#[trigger] sorted[i]).start by {
        assert(patches_disjoint(sorted[i], sorted[j]));
        assert(sorted[i].start >= sorted[j].start) by {
            lemma_sorted_desc_trans(sorted, j, i);
        }
        assert(sorted.contains(sorted[i]));
        assert(sorted.contains(sorted[j]));
        assert(ps.contains(sorted[i]));
        assert(ps.contains(sorted[j]));
        let pi = choose|p: int| 0 <= p < ps.len() && ps[p] == sorted[i];
        let pj = choose|p: int| 0 <= p < ps.len() && ps[p] == sorted[j];
        assert(sorted[i].start < sorted[i].end);
        assert(sorted[j].start < sorted[j].end);
        if sorted[i].end <= sorted[j].start {
            assert(sorted[i].start < sorted[j].start);
        }
    }
    assert forall|i: int| 0 <= i < sorted.len() implies ((#[trigger] sorted[i]).start
        <= sorted[i].end <= base.code.len()) by {
        assert(sorted.contains(sorted[i]));
        assert(ps.contains(sorted[i]));
        let p = choose|p: int| 0 <= p < ps.len() && ps[p] == sorted[i];
    }
    lemma_sorted_disjoint_patches_apply_clean(base.code, sorted);
}

proof fn lemma_sorted_desc_trans(ps: Seq<PatchV>, j: int, i: int)
    requires
        patches_sorted_desc(ps),
        0 <= i <= j < ps.len(),
    ensures
        ps[i].start >= ps[j].start,
    decreases j - i,
{
    if i < j {
        lemma_sorted_desc_trans(ps, j, i + 1);
    }
}

/// Idempotence, in full: merging a variant's edit script with itself
/// against a base whose units are separated, nonempty and within its
/// text yields an empty conflicts list.
pub proof fn lemma_merge_self_conflict_free(base: FileV, x: FileV)
    requires
        base.wf(),
        units_separated(base.units),
        units_nonempty(base.units),
    ensures
        spec_compose(base, spec_diff(base, x), spec_diff(base, x)).conflicts == Seq::<
            Seq<u8>,
        >::empty(),
{
    let d = spec_diff(base, x);
    lemma_merge_self_no_edit_conflicts(base, x);
    let del_keys = spec_dedup(spec_del_key_list(d) + spec_del_key_list(d));
    let upd_keys = spec_dedup(spec_upd_key_list(d) + spec_upd_key_list(d));
    lemma_dedup_no_duplicates(spec_upd_key_list(d) + spec_upd_key_list(d));
    lemma_resolve_apply_clean(base, upd_keys, d, d, del_keys);
    let conflicts = spec_compose(base, d, d).conflicts;
    assert(conflicts =~= Seq::<Seq<u8>>::empty());
}

/// Independent edits compose, in full: with no deletions, no identity
/// updated on both sides, and a base whose units are separated, nonempty
/// and within its text, composition yields an empty conflicts list.
pub proof fn lemma_independent_edits_conflict_free(base: FileV, ea: Seq<EditV>, eb: Seq<EditV>)
    requires
        base.wf(),
        units_separated(base.units),
        units_nonempty(base.units),
        spec_del_key_list(ea) == Seq::<(UnitKind, Seq<u8>)>::empty(),
        spec_del_key_list(eb) == Seq::<(UnitKind, Seq<u8>)>::empty(),
        forall|k: (UnitKind, Seq<u8>)|
            !(spec_upd_payload(ea, k) is Some && #[trigger] spec_upd_payload(eb, k) is Some),
    ensures
        spec_compose(base, ea, eb).conflicts == Seq::<Seq<u8>>::empty(),
{
    lemma_independent_edits_no_conflicts(base, ea, eb);
    let del_keys = spec_dedup(spec_del_key_list(ea) + spec_del_key_list(eb));
    let upd_keys = spec_dedup(spec_upd_key_list(ea) + spec_upd_key_list(eb));
    lemma_dedup_no_duplicates(spec_upd_key_list(ea) + spec_upd_key_list(eb));
    lemma_resolve_apply_clean(base, upd_keys, ea, eb, del_keys);
    let conflicts = spec_compose(base, ea, eb).conflicts;
    assert(conflicts =~= Seq::<Seq<u8>>::empty());
}

} // verus!

verus! {

/// A byte range disjoint from every patch survives right-to-left
/// splicing verbatim, at a shifted offset.
proof fn lemma_apply_preserves_outside_range(
    code: Seq<u8>,
    ps: Seq<PatchV>,
    s: int,
    e: int,
) -> (d: int)
    requires
        0 <= s <= e <= code.len(),
        forall|i: int, j: int|
            0 <= i < j < ps.len() ==> (#[trigger] ps[j]).end <= (#[trigger] ps[i]).start,
        forall|i: int| 0 <= i < ps.len() ==> (#[trigger] ps[i]).start <= ps[i].end <= code.len(),
        forall|i: int| 0 <= i < ps.len() ==> ((#[trigger] ps[i]).end <= s || e <= ps[i].start),
    ensures
        0 <= s + d,
        e + d <= spec_apply(code, ps).0.len(),
        spec_apply(code, ps).0.subrange(s + d, e + d) == code.subrange(s, e),
    decreases ps.len(),
{
    if ps.len() == 0 {
        assert(code.subrange(s, e) == code.subrange(s, e));
        0
    } else {
        let p = ps[0];
        assert(spec_patch_ok(code, p));
        let c1 = spec_splice(code, p);
        let rest = ps.drop_first();
        assert(forall|i: int| 0 <= i < rest.len() ==> rest[i] == ps[i + 1]);
        assert(forall|i: int, j: int|
            0 <= i < j < rest.len() ==> (#[trigger] rest[j]).end <= (#[trigger] rest[i]).start);
        assert(forall|i: int| 0 <= i < rest.len() ==> (#[trigger] rest[i]).end <= p.start);
        assert(c1.len() == p.start + p.replacement.len() + (code.len() - p.end));
        assert(forall|i: int| 0 <= i < rest.len() ==> (#[trigger] rest[i]).start <= rest[i].end
            <= c1.len());
        if e <= p.start {
            assert(c1.subrange(s, e) =~= code.subrange(s, e));
            assert(forall|i: int| 0 <= i < rest.len() ==> ((#[trigger] rest[i]).end <= s || e
                <= rest[i].start));
            let d = lemma_apply_preserves_outside_range(c1, rest, s, e);
            assert(spec_apply(code, ps).0 == spec_apply(c1, rest).0);
            d
        } else {
            assert(p.end <= s);
            let shift = p.start + p.replacement.len() - p.end;
            assert(c1.subrange(s + shift, e + shift) =~= code.subrange(s, e));
            assert(forall|i: int| 0 <= i < rest.len() ==> ((#[trigger] rest[i]).end <= s + shift
                || e + shift <= rest[i].start)) by {
                assert(forall|i: int| 0 <= i < rest.len() ==> (#[trigger] rest[i]).end <= p.start);
            }
            let d = lemma_apply_preserves_outside_range(c1, rest, s + shift, e + shift);
            assert(spec_apply(code, ps).0 == spec_apply(c1, rest).0);
            shift + d
        }
    }
}

/// A buffer is a prefix of itself with inserts appended.
proof fn lemma_append_preserves_prefix(
    code: Seq<u8>,
    ins: Seq<(UnitKind, Seq<u8>, Seq<u8>)>,
)
    ensures
        spec_append_inserts(code, ins).len() >= code.len(),
        spec_append_inserts(code, ins).subrange(0, code.len() as int) == code,
    decreases ins.len(),
{
    if ins.len() == 0 {
        assert(spec_append_inserts(code, ins).subrange(0, code.len() as int) =~= code);
    } else {
        lemma_append_preserves_prefix(code, ins.drop_last());
        assert(spec_append_inserts(code, ins).subrange(0, code.len() as int) =~= code);
    }
}

/// Untracked unit preservation through patching and appending: a unit
/// whose name did not resolve is never targeted by a patch, so after the
/// splicing step and the appended inserts its bytes stand verbatim at a
/// shifted offset. Only the final import hoisting may rearrange the lines
/// around it.
pub proof fn lemma_untracked_unit_survives_patching(
    base: FileV,
    ea: Seq<EditV>,
    eb: Seq<EditV>,
    u: int,
) -> (d: int)
    requires
        base.wf(),
        units_separated(base.units),
        units_nonempty(base.units),
        0 <= u < base.units.len(),
        base.units[u].name is None,
    ensures
        ({
            let patched = spec_apply(
                base.code,
                spec_sort_desc(
                    spec_resolve(
                        spec_dedup(spec_upd_key_list(ea) + spec_upd_key_list(eb)),
                        ea,
                        eb,
                        base.units,
                        spec_dedup(spec_del_key_list(ea) + spec_del_key_list(eb)),
                    ).0,
                ),
            ).0;
            let appended = spec_append_inserts(
                patched,
                spec_dedup(spec_insert_triples(ea) + spec_insert_triples(eb)),
            );
            &&& 0 <= base.units[u].start_byte + d
            &&& base.units[u].end_byte + d <= patched.len()
            &&& patched.subrange(
                base.units[u].start_byte + d,
                base.units[u].end_byte + d,
            ) == base.code.subrange(
                base.units[u].start_byte as int,
                base.units[u].end_byte as int,
            )
            &&& base.units[u].end_byte + d <= appended.len()
            &&& appended.subrange(
                base.units[u].start_byte + d,
                base.units[u].end_byte + d,
            ) == base.code.subrange(
                base.units[u].start_byte as int,
                base.units[u].end_byte as int,
            )
        }),
{
    let upd_keys = spec_dedup(spec_upd_key_list(ea) + spec_upd_key_list(eb));
    let del_keys = spec_dedup(spec_del_key_list(ea) + spec_del_key_list(eb));
    lemma_dedup_no_duplicates(spec_upd_key_list(ea) + spec_upd_key_list(eb));
    let ps = spec_resolve(upd_keys, ea, eb, base.units, del_keys).0;
    lemma_resolve_patches(upd_keys, ea, eb, base.units, del_keys);
    lemma_sort_desc_props(ps);
    let sorted = spec_sort_desc(ps);
    assert forall|j: int| 0 <= j < ps.len() implies ((#[trigger] ps[j]).start < ps[j].end
        && ps[j].end <= base.code.len() && (ps[j].end <= base.units[u].start_byte
        || base.units[u].end_byte <= ps[j].start)) by {
        let i = choose|i: int|
            0 <= i < upd_keys.len() && spec_lookup_range(
                base.units,
                (#[trigger] upd_keys[i]).0,
                upd_keys[i].1,
            ) == Some((ps[j].start, ps[j].end));
        lemma_lookup_is_unit(base.units, upd_keys[i].0, upd_keys[i].1);
        let w = choose|w: int|
            0 <= w < base.units.len() && (#[trigger] base.units[w]).start_byte == ps[j].start
                && base.units[w].end_byte == ps[j].end && spec_key(base.units[w]) == Some(
                (upd_keys[i].0, upd_keys[i].1),
            );
        assert(base.units[w].start_byte < base.units[w].end_byte);
        assert(base.units[w].start_byte <= base.units[w].end_byte <= base.code.len());
        assert(w != u);
    }
    assert forall|j: int| 0 <= j < sorted.len() implies ((#[trigger] sorted[j]).start
        <= sorted[j].end <= base.code.len() && (sorted[j].end <= base.units[u].start_byte
        || base.units[u].end_byte <= sorted[j].start)) by {
        assert(sorted.contains(sorted[j]));
        assert(ps.contains(sorted[j]));
        let p = choose|p: int| 0 <= p < ps.len() && ps[p] == sorted[j];
    }
    assert forall|i: int, j: int| 0 <= i < j < sorted.len() implies (#[trigger] sorted[j]).end
        <= (#[trigger] sorted[i]).start by {
        assert(patches_disjoint(sorted[i], sorted[j]));
        lemma_sorted_desc_trans(sorted, j, i);
        assert(sorted.contains(sorted[i]));
        assert(sorted.contains(sorted[j]));
        assert(ps.contains(sorted[i]));
        assert(ps.contains(sorted[j]));
        let pi = choose|p: int| 0 <= p < ps.len() && ps[p] == sorted[i];
        let pj = choose|p: int| 0 <= p < ps.len() && ps[p] == sorted[j];
        if sorted[i].end <= sorted[j].start {
            assert(sorted[i].start < sorted[i].end);
        }
    }
    let d = lemma_apply_preserves_outside_range(
        base.code,
        sorted,
        base.units[u].start_byte as int,
        base.units[u].end_byte as int,
    );
    let patched = spec_apply(base.code, sorted).0;
    let ins = spec_dedup(spec_insert_triples(ea) + spec_insert_triples(eb));
    lemma_append_preserves_prefix(patched, ins);
    let appended = spec_append_inserts(patched, ins);
    assert(appended.subrange(base.units[u].start_byte + d, base.units[u].end_byte + d)
        =~= patched.subrange(base.units[u].start_byte + d, base.units[u].end_byte + d)) by {
        assert(forall|k: int|
            0 <= k < patched.len() ==> #[trigger] appended[k] == appended.subrange(
                0,
                patched.len() as int,
            )[k]);
    }
    d
}

} // verus!
