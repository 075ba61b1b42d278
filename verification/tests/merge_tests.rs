use sink_core::{
    compose_top_level, parse_typescript_to_ast, three_way_merge_top_level, AstLanguage, Edit,
    UnitKind,
};

fn merge(base: &str, a: &str, b: &str) -> (String, Vec<String>) {
    let out = three_way_merge_top_level(
        base.as_bytes(),
        a.as_bytes(),
        b.as_bytes(),
        AstLanguage::TypeScript,
    )
    .expect("parse");
    let merged = String::from_utf8(out.merged_code).expect("utf8");
    let conflicts = out
        .conflicts
        .into_iter()
        .map(|c| String::from_utf8(c).expect("utf8"))
        .collect();
    (merged, conflicts)
}

fn count_occurrences(haystack: &str, needle: &str) -> usize {
    let mut n = 0;
    let mut start = 0;
    while let Some(p) = haystack[start..].find(needle) {
        n += 1;
        start += p + needle.len();
    }
    n
}

#[test]
fn merge_identical_sides_is_idempotent() {
    let base = "function f(x) { return x; }\n\nfunction g(y) { return y; }\n";
    let x = "function f(x) { return x + 1; }\n\nfunction g(y) { return y; }\n";
    let (merged, conflicts) = merge(base, x, x);
    assert!(conflicts.is_empty());
    assert!(merged.contains("function f(x) { return x + 1; }"));
    assert!(merged.contains("function g(y) { return y; }"));
    assert_eq!(count_occurrences(&merged, "function f("), 1);
}

#[test]
fn delete_wins_when_other_side_updates() {
    let base = "function f(x) { return x; }\nfunction g(y) { return y; }\n";
    let a = "function g(y) { return y; }\n";
    let b = "function f(x) { return x * 2; }\nfunction g(y) { return y; }\n";
    let (merged, conflicts) = merge(base, a, b);
    assert_eq!(conflicts.len(), 1);
    assert_eq!(conflicts[0], "Deletion vs update on function_declaration::f");
    // The delete wins silently: the base text of f is kept verbatim.
    assert!(merged.contains("function f(x) { return x; }"));
    assert!(!merged.contains("function f(x) { return x * 2; }"));
}

#[test]
fn delete_wins_from_the_other_side_too() {
    let base = "function f(x) { return x; }\nfunction g(y) { return y; }\n";
    let a = "function f(x) { return x * 2; }\nfunction g(y) { return y; }\n";
    let b = "function g(y) { return y; }\n";
    let (merged, conflicts) = merge(base, a, b);
    assert_eq!(conflicts.len(), 1);
    assert_eq!(conflicts[0], "Deletion vs update on function_declaration::f");
    assert!(merged.contains("function f(x) { return x; }"));
}

#[test]
fn independent_edits_compose_without_conflicts() {
    // One side edits only f, the other only g: the scripts touch disjoint
    // identities, so both bodies land and no conflict is recorded.
    let base_code = "function f(x) { return 1; }\n\nfunction g(y) { return 2; }\n";
    let base = parse_typescript_to_ast(base_code.as_bytes(), AstLanguage::TypeScript).unwrap();
    let ea = vec![Edit::Update {
        kind: UnitKind::Function,
        name: "f".as_bytes().to_vec(),
        payload: "function f(x) { return 10; }".as_bytes().to_vec(),
    }];
    let eb = vec![Edit::Update {
        kind: UnitKind::Function,
        name: "g".as_bytes().to_vec(),
        payload: "function g(y) { return 20; }".as_bytes().to_vec(),
    }];
    let out = compose_top_level(&base, &ea, &eb);
    assert!(out.conflicts.is_empty());
    let merged = String::from_utf8(out.merged_code).unwrap();
    assert!(merged.contains("function f(x) { return 10; }"));
    assert!(merged.contains("function g(y) { return 20; }"));
}

#[test]
fn canonical_rename_scenario() {
    let base = "function updateUser(name) { return \"Hello \" + name; }\n";
    let a = "import { log } from \"./log\";\n\nfunction updateUser(userName) { return \"Hello \" + userName; }\n";
    let b = "function updateUser(name) { return \"Hello, \" + name + \"!\"; }\n";
    let (merged, conflicts) = merge(base, a, b);
    assert!(conflicts.is_empty(), "conflicts: {:?}", conflicts);
    // B's wording survives with A's parameter rename applied.
    assert!(merged.contains("function updateUser(userName) { return \"Hello, \" + userName + \"!\"; }"));
    // A's import is hoisted to the top of the file.
    assert!(merged.starts_with("import { log } from \"./log\";\n"));
    assert_eq!(count_occurrences(&merged, "function updateUser("), 1);
}

#[test]
fn non_reconcilable_conflict_keeps_base_text() {
    let base = "function f(x) { return 1; }\n";
    let a = "function f(x) { return 22; }\n";
    let b = "function f(x) { return 333; }\n";
    let (merged, conflicts) = merge(base, a, b);
    assert_eq!(conflicts.len(), 1);
    assert_eq!(conflicts[0], "Both branches updated function_declaration::f differently");
    assert!(merged.contains("function f(x) { return 1; }"));
    assert!(!merged.contains("return 22"));
    assert!(!merged.contains("return 333"));
}

#[test]
fn identical_inserts_are_deduplicated() {
    let base = "function f(x) { return 1; }\n";
    let a = "function f(x) { return 1; }\n\nfunction h(z) { return z; }\n";
    let b = "function f(x) { return 1; }\n\nfunction h(z) { return z; }\n";
    let (merged, conflicts) = merge(base, a, b);
    assert!(conflicts.is_empty());
    assert_eq!(count_occurrences(&merged, "function h(z)"), 1);
}

#[test]
fn import_lines_are_unified_and_sorted() {
    let base = "function f(x) { return 1; }\n";
    let a = "import { b } from \"./b\";\n\nfunction f(x) { return 1; }\n\nfunction ha(z) { return z; }\n";
    let b = "import { b } from \"./b\";\nimport { a } from \"./a\";\n\nfunction f(x) { return 1; }\n\nfunction hb(z) { return z; }\n";
    let (merged, conflicts) = merge(base, a, b);
    assert!(conflicts.is_empty());
    assert_eq!(count_occurrences(&merged, "import { b } from \"./b\";"), 1);
    assert_eq!(count_occurrences(&merged, "import { a } from \"./a\";"), 1);
    // Lexicographic order puts ./a before ./b.
    let pa = merged.find("import { a }").unwrap();
    let pb = merged.find("import { b }").unwrap();
    assert!(pa < pb);
    // The import block sits before both inserted functions.
    assert!(pb < merged.find("function ha").unwrap());
}

#[test]
fn untracked_unit_is_preserved() {
    let base = "console.log(\"boot\");\n\nfunction f(x) { return 1; }\n";
    let a = "console.log(\"boot\");\n\nfunction f(x) { return 10; }\n";
    let b = "console.log(\"boot\");\n\nfunction f(x) { return 1; }\n";
    let (merged, conflicts) = merge(base, a, b);
    assert!(conflicts.is_empty());
    assert_eq!(count_occurrences(&merged, "console.log(\"boot\");"), 1);
    assert!(merged.contains("function f(x) { return 10; }"));
}

#[test]
fn tsx_dialect_parses_and_merges() {
    let base = "const view = <div>one</div>;\n";
    let a = "const view = <div>twotwo</div>;\n";
    let b = "const view = <div>one</div>;\n";
    let out = three_way_merge_top_level(
        base.as_bytes(),
        a.as_bytes(),
        b.as_bytes(),
        AstLanguage::Tsx,
    )
    .expect("parse");
    let merged = String::from_utf8(out.merged_code).expect("utf8");
    assert!(out.conflicts.is_empty());
    assert!(merged.contains("const view = <div>twotwo</div>;"));
}
