//! Three-way semantic merge of a single source file at the granularity of
//! top-level declarations (functions, classes, variable bindings, imports,
//! methods). A common ancestor and two divergent versions are parsed into
//! ordered unit lists; edit scripts from the ancestor to each side are
//! computed and composed back into merged text plus a conflict report.

use vstd::prelude::*;

mod ast;
mod bytes;
mod compose;
mod diff;
mod imports;
mod laws;
mod reconcile;

pub use ast::{
    collect_top_level, node_v, parse_typescript_to_ast, spec_collect, spec_extract, spec_parse,
    ts_parse_of, tsx_parse_of, AstFile, AstLanguage, CstNode, CstV, FileV, ParseFailure, TopLevel,
    UnitKind, UnitV,
};
pub use bytes::bytes_eq;
pub use compose::{compose_top_level, spec_compose, MergeOutcome, OutcomeV};
pub use laws::{
    lemma_conflicting_updates_reported, lemma_delete_wins, lemma_diff_delete_update_exclusive,
    lemma_entry_idempotent_conflict_free,
    lemma_import_block_sorted_unique, lemma_independent_edits_conflict_free,
    lemma_independent_edits_no_conflicts, lemma_merge_self_conflict_free,
    lemma_merge_self_no_edit_conflicts, lemma_sorted_disjoint_patches_apply_clean,
    lemma_untracked_unit_survives_patching,
};
pub use diff::{diff_top_level, edits_view, spec_diff, Edit, EditV};
pub use reconcile::{
    parse_fn_name_and_first_param, replace_ident_whole_word, try_reconcile_param_rename,
};

verus! {

/// What a three-way merge of three parsed files yields: the base's edit
/// scripts to each side, composed against the base.
pub open spec fn spec_merge_files(base: FileV, fa: FileV, fb: FileV) -> OutcomeV {
    spec_compose(base, spec_diff(base, fa), spec_diff(base, fb))
}

/// Merges two variants of a base file, all three already parsed.
pub fn merge_files(base: &AstFile, fa: &AstFile, fb: &AstFile) -> (r: MergeOutcome)
    requires
        fa@.wf(),
        fb@.wf(),
    ensures
        r@ == spec_merge_files(base@, fa@, fb@),
{
    let ea = diff_top_level(base, fa);
    let eb = diff_top_level(base, fb);
    compose_top_level(base, ea.as_slice(), eb.as_slice())
}

/// Three-way merge of one file's text: parses the ancestor and the two
/// sides under the selected dialect, then merges. The call succeeds
/// exactly when all three texts parse, and the outcome is determined by
/// the inputs: it is the composition over the unit lists extracted from
/// the three named parse trees. A parse failure of any version aborts the
/// merge.
#[verifier::rlimit(60)]
pub fn three_way_merge_top_level(
    base_code: &[u8],
    a_code: &[u8],
    b_code: &[u8],
    lang: AstLanguage,
) -> (r: Result<MergeOutcome, ParseFailure>)
    ensures
        r is Ok <==> (spec_parse(lang, base_code@) is Some && spec_parse(lang, a_code@) is Some
            && spec_parse(lang, b_code@) is Some),
        r matches Ok(out) ==> out@ == spec_merge_files(
            spec_extract(lang, base_code@),
            spec_extract(lang, a_code@),
            spec_extract(lang, b_code@),
        ),
{
    let t0 = match parse_typescript_to_ast(base_code, lang) {
        Ok(f) => f,
        Err(e) => {
            return Err(e);
        },
    };
    let ta = match parse_typescript_to_ast(a_code, lang) {
        Ok(f) => f,
        Err(e) => {
            return Err(e);
        },
    };
    let tb = match parse_typescript_to_ast(b_code, lang) {
        Ok(f) => f,
        Err(e) => {
            return Err(e);
        },
    };
    Ok(merge_files(&t0, &ta, &tb))
}

} // verus!
