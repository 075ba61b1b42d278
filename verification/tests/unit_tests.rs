use sink_core::{
    compose_top_level, diff_top_level, parse_fn_name_and_first_param, parse_typescript_to_ast,
    replace_ident_whole_word, try_reconcile_param_rename, AstFile, AstLanguage, Edit, TopLevel,
    UnitKind,
};

fn unit(kind: UnitKind, name: &str, start: usize, end: usize) -> TopLevel {
    TopLevel { kind, name: Some(name.as_bytes().to_vec()), start_byte: start, end_byte: end }
}

#[test]
fn extractor_collects_kinds_names_and_spans() {
    let code = "import { x } from \"./x\";\nfunction f(a) { return a; }\nconst c = 1;\n";
    let f = parse_typescript_to_ast(code.as_bytes(), AstLanguage::TypeScript).expect("parse");
    assert_eq!(f.code, code.as_bytes().to_vec());
    assert_eq!(f.units.len(), 3);
    assert_eq!(f.units[0].kind, UnitKind::Import);
    assert_eq!(f.units[0].name.as_deref(), Some("./x".as_bytes()));
    assert_eq!(f.units[1].kind, UnitKind::Function);
    assert_eq!(f.units[1].name.as_deref(), Some("f".as_bytes()));
    assert_eq!(f.units[2].kind, UnitKind::Lexical);
    assert_eq!(f.units[2].name.as_deref(), Some("c".as_bytes()));
    let u = &f.units[1];
    assert_eq!(&code.as_bytes()[u.start_byte..u.end_byte], "function f(a) { return a; }".as_bytes());
}

#[test]
fn extractor_unwraps_export_with_wrapper_span() {
    let code = "export function f(a) { return a; }\n";
    let f = parse_typescript_to_ast(code.as_bytes(), AstLanguage::TypeScript).expect("parse");
    assert_eq!(f.units.len(), 1);
    assert_eq!(f.units[0].kind, UnitKind::Function);
    assert_eq!(f.units[0].name.as_deref(), Some("f".as_bytes()));
    // The unit's range is the export wrapper's full span.
    assert_eq!(f.units[0].start_byte, 0);
    assert_eq!(
        &code.as_bytes()[f.units[0].start_byte..f.units[0].end_byte],
        "export function f(a) { return a; }".as_bytes()
    );
}

#[test]
fn extractor_skips_bare_reexports() {
    let code = "export { f } from \"./other\";\nfunction g(a) { return a; }\n";
    let f = parse_typescript_to_ast(code.as_bytes(), AstLanguage::TypeScript).expect("parse");
    assert_eq!(f.units.len(), 1);
    assert_eq!(f.units[0].name.as_deref(), Some("g".as_bytes()));
}

#[test]
fn differ_classifies_insert_update_delete() {
    let base_code = "function f(a) { return 1; }\nfunction g(b) { return 2; }\n";
    let other_code = "function f(a) { return 999; }\nfunction h(c) { return 3; }\n";
    let base = parse_typescript_to_ast(base_code.as_bytes(), AstLanguage::TypeScript).unwrap();
    let other = parse_typescript_to_ast(other_code.as_bytes(), AstLanguage::TypeScript).unwrap();
    let edits = diff_top_level(&base, &other);
    let mut updates = 0;
    let mut inserts = 0;
    let mut deletes = 0;
    for e in &edits {
        match e {
            Edit::Update { name, payload, .. } => {
                updates += 1;
                assert_eq!(name, &"f".as_bytes().to_vec());
                assert_eq!(payload, &"function f(a) { return 999; }".as_bytes().to_vec());
            },
            Edit::Insert { name, .. } => {
                inserts += 1;
                assert_eq!(name, &"h".as_bytes().to_vec());
            },
            Edit::Delete { name, .. } => {
                deletes += 1;
                assert_eq!(name, &"g".as_bytes().to_vec());
            },
        }
    }
    assert_eq!((updates, inserts, deletes), (1, 1, 1));
}

#[test]
fn differ_treats_equal_ranges_as_unchanged() {
    let code = "function f(a) { return 1; }\n";
    let base = parse_typescript_to_ast(code.as_bytes(), AstLanguage::TypeScript).unwrap();
    let other = parse_typescript_to_ast(code.as_bytes(), AstLanguage::TypeScript).unwrap();
    let edits = diff_top_level(&base, &other);
    assert!(edits.is_empty());
}

#[test]
fn parse_fn_signature_reads_name_and_first_param() {
    let r = parse_fn_name_and_first_param("export function save(user: User, db) {}".as_bytes());
    let (name, param) = r.expect("signature");
    assert_eq!(name, "save".as_bytes().to_vec());
    assert_eq!(param, "user".as_bytes().to_vec());
    assert!(parse_fn_name_and_first_param("const x = 1;".as_bytes()).is_none());
    assert!(parse_fn_name_and_first_param("function noparams() {}".as_bytes()).is_none());
}

#[test]
fn whole_word_replacement_leaves_substrings_alone() {
    let out = replace_ident_whole_word(
        "user + username + user_id + (user)".as_bytes(),
        "user".as_bytes(),
        "account".as_bytes(),
    );
    assert_eq!(
        String::from_utf8(out).unwrap(),
        "account + username + user_id + (account)"
    );
}

#[test]
fn reconcile_applies_param_rename() {
    let a = "function f(userName) { return userName; }";
    let b = "function f(name) { return name + \"!\"; }";
    let r = try_reconcile_param_rename(a.as_bytes(), b.as_bytes()).expect("reconciled");
    assert_eq!(
        String::from_utf8(r).unwrap(),
        "function f(userName) { return userName + \"!\"; }"
    );
}

#[test]
fn reconcile_rejects_different_names_and_equal_params() {
    let a = "function f(x) { return 1; }";
    let b = "function g(y) { return 2; }";
    assert!(try_reconcile_param_rename(a.as_bytes(), b.as_bytes()).is_none());
    let c = "function f(x) { return 1; }";
    let d = "function f(x) { return 2; }";
    assert!(try_reconcile_param_rename(c.as_bytes(), d.as_bytes()).is_none());
}

#[test]
fn out_of_bounds_patch_is_reported_and_skipped() {
    // A base whose recorded unit range lies beyond its text: the patch is
    // refused at application time and reported, not applied.
    let base = AstFile {
        code: "function f() {}".as_bytes().to_vec(),
        units: vec![unit(UnitKind::Function, "f", 0, 9999)],
    };
    let ea = vec![Edit::Update {
        kind: UnitKind::Function,
        name: "f".as_bytes().to_vec(),
        payload: "function f() { return 1; }".as_bytes().to_vec(),
    }];
    let eb: Vec<Edit> = Vec::new();
    let out = compose_top_level(&base, &ea, &eb);
    let conflicts: Vec<String> = out
        .conflicts
        .into_iter()
        .map(|c| String::from_utf8(c).unwrap())
        .collect();
    assert_eq!(conflicts, vec!["Internal splice range out of bounds".to_string()]);
    assert!(String::from_utf8(out.merged_code).unwrap().contains("function f() {}"));
}

#[test]
fn composer_applies_patches_right_to_left() {
    let code = "function f(a) { return 1; }\nfunction g(b) { return 2; }\n";
    let base = parse_typescript_to_ast(code.as_bytes(), AstLanguage::TypeScript).unwrap();
    let ea = vec![Edit::Update {
        kind: UnitKind::Function,
        name: "f".as_bytes().to_vec(),
        payload: "function f(a) { return 111; }".as_bytes().to_vec(),
    }];
    let eb = vec![Edit::Update {
        kind: UnitKind::Function,
        name: "g".as_bytes().to_vec(),
        payload: "function g(b) { return 222; }".as_bytes().to_vec(),
    }];
    let out = compose_top_level(&base, &ea, &eb);
    assert!(out.conflicts.is_empty());
    let merged = String::from_utf8(out.merged_code).unwrap();
    assert!(merged.contains("function f(a) { return 111; }"));
    assert!(merged.contains("function g(b) { return 222; }"));
}
