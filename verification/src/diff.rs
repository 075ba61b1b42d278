//! Differ: compares two unit sequences that share a common ancestor and
//! produces the edit script taking the base to the other side. Identity is
//! the (kind, name) pair; byte-range equality against the base is the
//! "unchanged" signal. Units without a resolvable name are never diffed.

use vstd::prelude::*;

use crate::ast::{AstFile, FileV, TopLevel, UnitKind, UnitV};
use crate::bytes::{bytes_eq, copy_range};

verus! {

/// One edit in a script from a base file to a variant.
#[derive(Debug, Clone)]
pub enum Edit {
    /// The variant has a unit under an identity the base lacks.
    Insert { kind: UnitKind, name: Vec<u8>, payload: Vec<u8> },
    /// The same identity exists in both, at a changed byte range.
    Update { kind: UnitKind, name: Vec<u8>, payload: Vec<u8> },
    /// The base identity is gone from the variant.
    Delete { kind: UnitKind, name: Vec<u8> },
}

/// Mathematical value of an `Edit`.
pub enum EditV {
    Insert { kind: UnitKind, name: Seq<u8>, payload: Seq<u8> },
    Update { kind: UnitKind, name: Seq<u8>, payload: Seq<u8> },
    Delete { kind: UnitKind, name: Seq<u8> },
}

impl View for Edit {
    type V = EditV;

    open spec fn view(&self) -> EditV {
        match self {
            Edit::Insert { kind, name, payload } => EditV::Insert {
                kind: *kind,
                name: name@,
                payload: payload@,
            },
            Edit::Update { kind, name, payload } => EditV::Update {
                kind: *kind,
                name: name@,
                payload: payload@,
            },
            Edit::Delete { kind, name } => EditV::Delete { kind: *kind, name: name@ },
        }
    }
}

/// Views of a whole edit script.
pub open spec fn edits_view(es: Seq<Edit>) -> Seq<EditV> {
    es.map_values(|e: Edit| e@)
}

/// The identity key of a unit, when its name resolved.
pub open spec fn spec_key(u: UnitV) -> Option<(UnitKind, Seq<u8>)> {
    match u.name {
        Some(n) => Some((u.kind, n)),
        None => None,
    }
}

/// Byte range of the first unit carrying the given identity.
pub open spec fn spec_lookup_range(
    units: Seq<UnitV>,
    kind: UnitKind,
    name: Seq<u8>,
) -> Option<(usize, usize)>
    decreases units.len(),
{
    if units.len() == 0 {
        None
    } else if spec_key(units[0]) == Some((kind, name)) {
        Some((units[0].start_byte, units[0].end_byte))
    } else {
        spec_lookup_range(units.drop_first(), kind, name)
    }
}

/// Does any unit carry the given identity?
pub open spec fn spec_has_key(units: Seq<UnitV>, kind: UnitKind, name: Seq<u8>) -> bool {
    spec_lookup_range(units, kind, name) is Some
}

/// The insert or update a unit of the variant contributes, if any.
pub open spec fn spec_edit_for_unit(
    u: UnitV,
    base_units: Seq<UnitV>,
    other_code: Seq<u8>,
) -> Seq<EditV> {
    match spec_key(u) {
        None => Seq::empty(),
        Some((k, n)) => match spec_lookup_range(base_units, k, n) {
            None => seq![
                EditV::Insert {
                    kind: k,
                    name: n,
                    payload: other_code.subrange(u.start_byte as int, u.end_byte as int),
                },
            ],
            Some((s, e)) => if s != u.start_byte || e != u.end_byte {
                seq![
                    EditV::Update {
                        kind: k,
                        name: n,
                        payload: other_code.subrange(u.start_byte as int, u.end_byte as int),
                    },
                ]
            } else {
                Seq::empty()
            },
        },
    }
}

/// Inserts and updates contributed by the variant's units, in order.
pub open spec fn spec_upserts(
    units: Seq<UnitV>,
    base_units: Seq<UnitV>,
    other_code: Seq<u8>,
) -> Seq<EditV>
    decreases units.len(),
{
    if units.len() == 0 {
        Seq::empty()
    } else {
        spec_upserts(units.drop_last(), base_units, other_code) + spec_edit_for_unit(
            units.last(),
            base_units,
            other_code,
        )
    }
}

/// The delete a base unit contributes, if its identity left the variant.
pub open spec fn spec_delete_for_unit(u: UnitV, other_units: Seq<UnitV>) -> Seq<EditV> {
    match spec_key(u) {
        Some((k, n)) => if !spec_has_key(other_units, k, n) {
            seq![EditV::Delete { kind: k, name: n }]
        } else {
            Seq::empty()
        },
        None => Seq::empty(),
    }
}

/// Deletes contributed by the base's units, in order.
pub open spec fn spec_deletes(base_units: Seq<UnitV>, other_units: Seq<UnitV>) -> Seq<EditV>
    decreases base_units.len(),
{
    if base_units.len() == 0 {
        Seq::empty()
    } else {
        spec_deletes(base_units.drop_last(), other_units) + spec_delete_for_unit(
            base_units.last(),
            other_units,
        )
    }
}

/// The whole edit script from `base` to `other`: inserts and updates in
/// the variant's unit order, then deletes in the base's unit order.
pub open spec fn spec_diff(base: FileV, other: FileV) -> Seq<EditV> {
    spec_upserts(other.units, base.units, other.code) + spec_deletes(base.units, other.units)
}

pub(crate) fn lookup_range(units: &Vec<TopLevel>, kind: UnitKind, name: &[u8]) -> (r: Option<(usize, usize)>)
    ensures
        r == spec_lookup_range(units@.map_values(|u: TopLevel| u@), kind, name@),
{
    let ghost uv = units@.map_values(|u: TopLevel| u@);
    let mut i: usize = 0;
    proof {
        assert(uv.subrange(0, uv.len() as int) =~= uv);
    }
    loop
        invariant
            uv == units@.map_values(|u: TopLevel| u@),
            i <= uv.len(),
            spec_lookup_range(uv, kind, name@) == spec_lookup_range(
                uv.subrange(i as int, uv.len() as int),
                kind,
                name@,
            ),
        decreases uv.len() - i,
    {
        if i >= units.len() {
            return None;
        }
        let u = &units[i];
        let hit = u.kind == kind && match &u.name {
            Some(nm) => bytes_eq(nm.as_slice(), name),
            None => false,
        };
        proof {
            let sub = uv.subrange(i as int, uv.len() as int);
            assert(sub[0] == uv[i as int]);
            assert(sub.drop_first() =~= uv.subrange(i + 1 as int, uv.len() as int));
        }
        if hit {
            return Some((u.start_byte, u.end_byte));
        }
        i += 1;
    }
}

/// Computes the edit script from `base` to `other` at the top level.
pub fn diff_top_level(base: &AstFile, other: &AstFile) -> (r: Vec<Edit>)
    requires
        other@.wf(),
    ensures
        edits_view(r@) == spec_diff(base@, other@),
{
    let mut edits: Vec<Edit> = Vec::new();
    let ghost bv = base@.units;
    let ghost ov = other@.units;

    let mut i: usize = 0;
    while i < other.units.len()
        invariant
            other@.wf(),
            bv == base@.units,
            ov == other@.units,
            i <= other.units@.len(),
            ov.len() == other.units@.len(),
            edits_view(edits@) == spec_upserts(ov.subrange(0, i as int), bv, other@.code),
        decreases other.units@.len() - i,
    {
        let u = &other.units[i];
        let ghost prev = edits@;
        proof {
            match &u.name {
                Some(nm) => assert(nm@.subrange(0, nm@.len() as int) =~= nm@),
                None => {},
            }
        }
        assert(ov[i as int] == u@);
        assert(ov[i as int].start_byte <= ov[i as int].end_byte <= other@.code.len());
        match &u.name {
            None => {},
            Some(name) => {
                let kind = u.kind;
                match lookup_range(&base.units, kind, name.as_slice()) {
                    None => {
                        let payload = copy_range(other.code.as_slice(), u.start_byte, u.end_byte);
                        edits.push(
                            Edit::Insert {
                                kind,
                                name: crate::bytes::copy_range(
                                    name.as_slice(),
                                    0,
                                    name.len(),
                                ),
                                payload,
                            },
                        );
                    },
                    Some((s, e)) => {
                        if s != u.start_byte || e != u.end_byte {
                            let payload = copy_range(
                                other.code.as_slice(),
                                u.start_byte,
                                u.end_byte,
                            );
                            edits.push(
                                Edit::Update {
                                    kind,
                                    name: crate::bytes::copy_range(name.as_slice(), 0, name.len()),
                                    payload,
                                },
                            );
                        }
                    },
                }
            },
        }
        proof {
            assert(ov.subrange(0, i + 1 as int).drop_last() =~= ov.subrange(0, i as int));
            assert(ov.subrange(0, i + 1 as int).last() == ov[i as int]);
            if edits@.len() > prev.len() {
                assert(edits@[prev.len() as int]@ == spec_edit_for_unit(
                    ov[i as int],
                    bv,
                    other@.code,
                )[0]);
            }
            assert(edits_view(edits@) =~= edits_view(prev) + spec_edit_for_unit(
                ov[i as int],
                bv,
                other@.code,
            ));
        }
        i += 1;
    }
    proof {
        assert(ov.subrange(0, ov.len() as int) =~= ov);
    }

    let ghost upserts = edits@;
    let mut j: usize = 0;
    while j < base.units.len()
        invariant
            bv == base@.units,
            ov == other@.units,
            j <= base.units@.len(),
            bv.len() == base.units@.len(),
            edits_view(edits@) == edits_view(upserts) + spec_deletes(
                bv.subrange(0, j as int),
                ov,
            ),
            edits_view(upserts) == spec_upserts(ov, bv, other@.code),
        decreases base.units@.len() - j,
    {
        let u = &base.units[j];
        let ghost prev = edits@;
        proof {
            match &u.name {
                Some(nm) => assert(nm@.subrange(0, nm@.len() as int) =~= nm@),
                None => {},
            }
        }
        assert(bv[j as int] == u@);
        match &u.name {
            None => {},
            Some(name) => {
                if lookup_range(&other.units, u.kind, name.as_slice()).is_none() {
                    edits.push(
                        Edit::Delete {
                            kind: u.kind,
                            name: crate::bytes::copy_range(name.as_slice(), 0, name.len()),
                        },
                    );
                }
            },
        }
        proof {
            assert(bv.subrange(0, j + 1 as int).drop_last() =~= bv.subrange(0, j as int));
            assert(bv.subrange(0, j + 1 as int).last() == bv[j as int]);
            if edits@.len() > prev.len() {
                assert(edits@[prev.len() as int]@ == spec_delete_for_unit(bv[j as int], ov)[0]);
            }
            assert(edits_view(edits@) =~= edits_view(prev) + spec_delete_for_unit(
                bv[j as int],
                ov,
            ));
        }
        j += 1;
    }
    proof {
        assert(bv.subrange(0, bv.len() as int) =~= bv);
    }
    edits
}

} // verus!
