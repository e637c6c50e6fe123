use migration_check::fingerprint::{record_fingerprint, should_skip_field, sum_fingerprint};
use migration_check::model::{calc_dep_types, Attribute, Field, Item, TypeExpr, TypeToken, Variant};
use migration_check::report::Report;
use migration_check::rpc::{check_rpc_field, expected_marker};
use migration_check::text::{second_piece, string_contains, string_lt};
use migration_check::visitor::{is_source_file_name, join_chain, SynVisitor};
use sha2::Digest;

fn tokens_of(parts: &[&str]) -> Vec<TypeToken> {
    parts
        .iter()
        .map(|p| {
            if p.chars().all(|c| c.is_alphanumeric() || c == '_') && !p.chars().all(|c| c.is_ascii_digit()) {
                TypeToken::Ident(p.to_string())
            } else {
                TypeToken::Other(p.to_string())
            }
        })
        .collect()
}

fn path_ty(parts: &[&str]) -> TypeExpr {
    let tokens = parts
        .iter()
        .map(|p| {
            if p.chars().all(|c| c.is_alphanumeric() || c == '_') {
                TypeToken::Ident(p.to_string())
            } else {
                TypeToken::Other(p.to_string())
            }
        })
        .collect();
    TypeExpr { text: parts.join(" "), tokens }
}

fn attr(path: &[&str], tokens: &str) -> Attribute {
    Attribute { path: path.iter().map(|s| s.to_string()).collect(), tokens: tokens.to_string() }
}

fn field(name: &str, ty: &[&str]) -> Field {
    Field { name: name.to_string(), ty: path_ty(ty), attrs: vec![] }
}

fn field_with(name: &str, ty: &[&str], attrs: Vec<Attribute>) -> Field {
    Field { name: name.to_string(), ty: path_ty(ty), attrs }
}

fn record(name: &str, fields: Vec<Field>) -> Item {
    Item::Record { name: name.to_string(), fields }
}

fn sum(name: &str, variants: Vec<(&str, Vec<Field>)>) -> Item {
    Item::Sum {
        name: name.to_string(),
        variants: variants
            .into_iter()
            .map(|(n, fields)| Variant { name: n.to_string(), fields })
            .collect(),
    }
}

fn marker(payload: &str) -> Item {
    sum("KeyValue", vec![("Entry", vec![field("", &[payload])])])
}

fn scan(files: Vec<(&str, Vec<Item>)>) -> SynVisitor {
    let mut v = SynVisitor::new("/src");
    for (path, items) in files {
        v.visit_source_file(&path.to_string(), &items);
    }
    v
}

fn lookup(b: &[(String, String)], k: &str) -> Option<String> {
    b.iter().rev().find(|(n, _)| n == k).map(|(_, d)| d.clone())
}

fn passed(r: Report) -> Vec<(String, String)> {
    match r {
        Report::Passed(b) => b,
        _ => panic!("expected a pass"),
    }
}

fn account(balance_ty: &str) -> Item {
    record("Account", vec![field("balance", &[balance_ty])])
}

#[test]
fn dep_types_flatten_generic_path() {
    let d = calc_dep_types(&path_ty(&["Option", "<", "u64", ">"]));
    assert_eq!(d, vec!["Option".to_string(), "u64".to_string()]);
    let t = TypeExpr { text: "(Account , u64)".to_string(), tokens: tokens_of(&["Account", ",", "u64"]) };
    assert_eq!(calc_dep_types(&t), vec!["Account".to_string(), "u64".to_string()]);
    let b = TypeExpr { text: "Box < (A , B) >".to_string(), tokens: tokens_of(&["Box", "<", "A", ",", "B", ">"]) };
    assert_eq!(calc_dep_types(&b), vec!["Box".to_string(), "A".to_string(), "B".to_string()]);
    let a = TypeExpr { text: "[u8 ; 32]".to_string(), tokens: tokens_of(&["u8", ";", "32"]) };
    assert_eq!(calc_dep_types(&a), vec!["u8".to_string()]);
}

#[test]
fn record_digest_is_sha256_of_shape_text() {
    let fs = vec![field("balance", &["u32"])];
    let got = record_fingerprint(&"Account".to_string(), &fs);
    let want = format!("{:x}", sha2::Sha256::digest(b"struct_name:Account\nfield:balance:u32\n"));
    assert_eq!(got, want);
    assert_eq!(got.len(), 64);
}

#[test]
fn sum_digest_is_sha256_of_shape_text() {
    let vs = vec![Variant { name: "A".to_string(), fields: vec![field("", &["u8"])] }];
    let got = sum_fingerprint(&"E".to_string(), &vs);
    let want = format!("{:x}", sha2::Sha256::digest(b"enum_name:E\nvariant:A\nfield::u8\n"));
    assert_eq!(got, want);
}

#[test]
fn fingerprint_is_deterministic() {
    let a = passed(scan(vec![("/src/a.rs", vec![marker("Account"), account("u32")])]).check_baseline(&vec![], false));
    let b = passed(scan(vec![("/src/a.rs", vec![marker("Account"), account("u32")])]).check_baseline(&vec![], false));
    assert_eq!(lookup(&a, "Account"), lookup(&b, "Account"));
    assert!(lookup(&a, "Account").is_some());
}

#[test]
fn skip_field_does_not_change_digest() {
    let n = "R".to_string();
    let base = vec![field("a", &["u8"])];
    let skipped = vec![field("a", &["u8"]), field_with("b", &["u16"], vec![attr(&["serde"], "(skip)")])];
    assert!(should_skip_field(&skipped[1]));
    assert_eq!(record_fingerprint(&n, &base), record_fingerprint(&n, &skipped));
}

#[test]
fn adding_removing_renaming_field_changes_digest() {
    let n = "R".to_string();
    let base = record_fingerprint(&n, &vec![field("a", &["u8"])]);
    assert_ne!(base, record_fingerprint(&n, &vec![field("a", &["u8"]), field("b", &["u8"])]));
    assert_ne!(base, record_fingerprint(&n, &vec![]));
    assert_ne!(base, record_fingerprint(&n, &vec![field("c", &["u8"])]));
    assert_ne!(base, record_fingerprint(&n, &vec![field("a", &["u16"])]));
}

#[test]
fn permuting_fields_changes_digest() {
    let n = "R".to_string();
    let ab = record_fingerprint(&n, &vec![field("a", &["u8"]), field("b", &["u8"])]);
    let ba = record_fingerprint(&n, &vec![field("b", &["u8"]), field("a", &["u8"])]);
    assert_ne!(ab, ba);
}

#[test]
fn closure_holds_reachable_types_only() {
    let v = scan(vec![(
        "/src/model.rs",
        vec![
            marker("Outer"),
            record("Outer", vec![field("inner", &["Option", "<", "Inner", ">"])]),
            record("Inner", vec![field("x", &["u64"])]),
            record("Lonely", vec![field("y", &["u8"])]),
        ],
    )]);
    assert_eq!(v.store_types(), &vec!["Outer".to_string()]);
    let c = v.construct_finger_print();
    assert!(lookup(&c, "Outer").is_some());
    assert!(lookup(&c, "Inner").is_some());
    assert!(lookup(&c, "Lonely").is_none());
    assert!(lookup(&c, "KeyValue").is_none());
    assert!(lookup(&c, "Option").is_none());
}

#[test]
fn baseline_round_trip_passes() {
    let v = scan(vec![("/src/a.rs", vec![marker("Account"), account("u32")])]);
    let first = passed(v.check_baseline(&vec![], false));
    let again = scan(vec![("/src/a.rs", vec![marker("Account"), account("u32")])]);
    let r = again.check_baseline(&first, false);
    assert_eq!(r.exit_code(), 0);
    assert_eq!(passed(r), first);
}

#[test]
fn wire_field_without_annotation_is_flagged() {
    let v = scan(vec![("/src/rpc/price.rs", vec![record("Price", vec![field("amount", &["u64"])])])]);
    assert!(v.has_error());
    let errs = v.rpc_errors();
    assert_eq!(errs.len(), 1);
    assert_eq!(errs[0].field_name, "amount");
    assert_eq!(errs[0].ty_name, "Price");
    assert_eq!(errs[0].expected, "U64Hex");
    assert_eq!(errs[0].file, "/src/rpc/price.rs");
    let r = v.check_baseline(&vec![], false);
    assert!(matches!(r, Report::RpcFailed));
    assert_eq!(r.exit_code(), 1);
}

#[test]
fn wire_field_with_annotation_passes() {
    let f = field_with("amount", &["u64"], vec![attr(&["serde_as"], "(as = \"U64Hex\")")]);
    assert_eq!(check_rpc_field(&f), None);
    let g = field_with("amount", &["Option", "<", "u32", ">"], vec![attr(&["serde_as"], "(as = \"Option<U32Hex>\")")]);
    assert_eq!(check_rpc_field(&g), None);
    let h = field_with("amount", &["Option", "<", "u32", ">"], vec![attr(&["serde_as"], "(as = \"U32Hex\")")]);
    assert_eq!(check_rpc_field(&h), Some("Option<U32Hex>".to_string()));
    let v = scan(vec![("/src/rpc/price.rs", vec![record("Price", vec![f])])]);
    assert!(!v.has_error());
}

#[test]
fn wire_field_shapes_out_of_scope() {
    assert_eq!(expected_marker(&field("a", &["Vec", "<", "u64", ">"])), None);
    assert_eq!(expected_marker(&field("a", &["String"])), None);
    assert_eq!(expected_marker(&field("a", &["u128"])), Some("U128Hex".to_string()));
    let skipped = field_with("a", &["u64"], vec![attr(&["serde"], "(skip)")]);
    let v = scan(vec![("/src/rpc/x.rs", vec![record("P", vec![skipped])])]);
    assert!(!v.has_error());
}

#[test]
fn wire_sum_payload_is_checked() {
    let v = scan(vec![("/src/rpc/e.rs", vec![sum("Msg", vec![("A", vec![field("", &["u16"])])])])]);
    assert_eq!(v.rpc_errors().len(), 1);
    assert_eq!(v.rpc_errors()[0].expected, "U16Hex");
    assert_eq!(v.rpc_errors()[0].ty_name, "Msg");
}

#[test]
fn first_run_persists_root_digest() {
    let v = scan(vec![("/src/a.rs", vec![marker("Account"), account("u32")])]);
    assert_eq!(v.store_types(), &vec!["Account".to_string()]);
    let b = passed(v.check_baseline(&vec![], false));
    assert_eq!(b.len(), 1);
    let want = record_fingerprint(&"Account".to_string(), &vec![field("balance", &["u32"])]);
    assert_eq!(lookup(&b, "Account"), Some(want));
}

#[test]
fn changed_field_type_is_drift() {
    let old = passed(scan(vec![("/src/a.rs", vec![marker("Account"), account("u32")])]).check_baseline(&vec![], false));
    let v = scan(vec![("/src/a.rs", vec![marker("Account"), account("u64")])]);
    let r = v.check_baseline(&old, false);
    assert_eq!(r.exit_code(), 1);
    match r {
        Report::Drifted(ds) => {
            assert_eq!(ds.len(), 1);
            assert_eq!(ds[0].name, "Account");
            assert_eq!(Some(ds[0].old.clone()), lookup(&old, "Account"));
            assert_ne!(ds[0].old, ds[0].new);
            assert!(ds[0].chains.contains(&"KeyValue -> Account".to_string()));
        }
        _ => panic!("expected drift"),
    }
}

#[test]
fn update_overwrites_changed_entry() {
    let old = passed(scan(vec![("/src/a.rs", vec![marker("Account"), account("u32")])]).check_baseline(&vec![], false));
    let v = scan(vec![("/src/a.rs", vec![marker("Account"), account("u64")])]);
    let r = v.check_baseline(&old, true);
    assert_eq!(r.exit_code(), 0);
    let b = passed(r);
    let want = record_fingerprint(&"Account".to_string(), &vec![field("balance", &["u64"])]);
    assert_eq!(lookup(&b, "Account"), Some(want));
    assert_ne!(lookup(&b, "Account"), lookup(&old, "Account"));
}

#[test]
fn removed_type_is_not_drift() {
    let old = vec![("Gone".to_string(), "00".to_string())];
    let v = scan(vec![("/src/a.rs", vec![marker("Account"), account("u32")])]);
    assert_eq!(v.check_baseline(&old, false).exit_code(), 0);
}

#[test]
fn nested_drift_reports_full_chain() {
    let files = |t: &str| {
        vec![(
            "/src/a.rs",
            vec![
                marker("Outer"),
                record("Outer", vec![field("inner", &["Inner"])]),
                record("Inner", vec![field("x", &[t])]),
            ],
        )]
    };
    let old = passed(scan(files("u8")).check_baseline(&vec![], false));
    match scan(files("u16")).check_baseline(&old, false) {
        Report::Drifted(ds) => {
            let inner = ds.iter().find(|d| d.name == "Inner").unwrap();
            assert_eq!(inner.chains, vec!["KeyValue -> Outer -> Inner".to_string()]);
        }
        _ => panic!("expected drift"),
    }
}

#[test]
fn cyclic_graph_chain_search_ends() {
    let v = scan(vec![(
        "/src/a.rs",
        vec![marker("A"), record("A", vec![field("b", &["B"])]), record("B", vec![field("a", &["A"])])],
    )]);
    assert_eq!(v.try_find_type_chain(&"B".to_string()), vec!["KeyValue -> A -> B".to_string()]);
    assert_eq!(v.construct_finger_print().len(), 2);
}

#[test]
fn generated_and_migration_paths_are_skipped() {
    let v = scan(vec![
        ("/src/gen/a.rs", vec![marker("Account"), account("u32")]),
        ("/src/migrations/b.rs", vec![record("Price", vec![field("amount", &["u64"])])]),
    ]);
    assert!(v.store_types().is_empty());
    assert!(v.construct_finger_print().is_empty());
    let w = scan(vec![("/src/migrations/rpc/b.rs", vec![record("Price", vec![field("amount", &["u64"])])])]);
    assert!(!w.has_error());
}

#[test]
fn dependencies_union_across_files() {
    let v = scan(vec![
        ("/src/a.rs", vec![marker("Account"), record("Account", vec![field("a", &["X"])])]),
        ("/src/b.rs", vec![record("Account", vec![field("b", &["Y"])]), record("X", vec![]), record("Y", vec![])]),
    ]);
    let c = v.construct_finger_print();
    assert!(lookup(&c, "X").is_some());
    assert!(lookup(&c, "Y").is_some());
}

#[test]
fn alias_edges_are_followed() {
    let v = scan(vec![(
        "/src/a.rs",
        vec![
            marker("Id"),
            Item::Alias { name: "Id".to_string(), ty: path_ty(&["Target"]) },
            record("Target", vec![]),
        ],
    )]);
    let c = v.construct_finger_print();
    assert!(lookup(&c, "Target").is_some());
    assert!(lookup(&c, "Id").is_none());
}

#[test]
fn string_helpers() {
    assert!(string_contains(&"(skip_serializing)".to_string(), &"skip".to_string()));
    assert!(!string_contains(&"ski".to_string(), &"skip".to_string()));
    assert_eq!(second_piece(&"a=b=c".chars().collect()), Some("b".chars().collect()));
    assert_eq!(second_piece(&"abc".chars().collect()), None);
    assert_eq!(join_chain(&vec!["A".to_string(), "B".to_string()]), "A -> B");
    assert_eq!(join_chain(&vec![]), "");
}

#[test]
fn chains_follow_sorted_dependency_order() {
    let v = scan(vec![(
        "/src/a.rs",
        vec![
            marker("Root"),
            record("Root", vec![field("b", &["B"]), field("a", &["A"])]),
            record("A", vec![field("t", &["T"])]),
            record("B", vec![field("t", &["T"])]),
            record("T", vec![]),
        ],
    )]);
    assert_eq!(
        v.try_find_type_chain(&"T".to_string()),
        vec!["KeyValue -> Root -> A -> T".to_string(), "KeyValue -> Root -> B -> T".to_string()]
    );
    assert!(v.try_find_type_chain(&"Nowhere".to_string()).is_empty());
}

#[test]
fn tuple_field_types_reach_the_closure() {
    let tuple = TypeExpr { text: "(Account , u64)".to_string(), tokens: tokens_of(&["Account", ",", "u64"]) };
    let v = scan(vec![(
        "/src/a.rs",
        vec![
            marker("Holder"),
            record("Holder", vec![Field { name: "pair".to_string(), ty: tuple, attrs: vec![] }]),
            account("u32"),
        ],
    )]);
    let c = v.construct_finger_print();
    assert!(lookup(&c, "Account").is_some());
    assert_eq!(v.try_find_type_chain(&"Account".to_string()), vec!["KeyValue -> Holder -> Account".to_string()]);
}

#[test]
fn wire_tuple_field_is_out_of_scope() {
    let tuple = TypeExpr { text: "(u8 , u16)".to_string(), tokens: tokens_of(&["u8", ",", "u16"]) };
    let f = Field { name: "0".to_string(), ty: tuple, attrs: vec![] };
    assert_eq!(expected_marker(&f), None);
    let v = scan(vec![("/src/rpc/t.rs", vec![record("Pair", vec![f, field("1", &["u32"])])])]);
    assert_eq!(v.rpc_errors().len(), 1);
    assert_eq!(v.rpc_errors()[0].field_name, "1");
    assert_eq!(v.rpc_errors()[0].expected, "U32Hex");
}

#[test]
fn digests_are_lowercase_hex() {
    let d = record_fingerprint(&"R".to_string(), &vec![field("a", &["u8"])]);
    assert_eq!(d.len(), 64);
    assert!(d.chars().all(|c| c.is_ascii_digit() || ('a'..='f').contains(&c)));
}

#[test]
fn string_order_is_lexicographic() {
    assert!(string_lt(&"A".to_string(), &"B".to_string()));
    assert!(string_lt(&"Ab".to_string(), &"Abc".to_string()));
    assert!(!string_lt(&"b".to_string(), &"B".to_string()));
    assert!(!string_lt(&"same".to_string(), &"same".to_string()));
}

#[test]
fn walk_reads_only_visible_rust_files() {
    assert!(is_source_file_name(&"lib.rs".to_string()));
    assert!(!is_source_file_name(&".hidden.rs".to_string()));
    assert!(!is_source_file_name(&"notes.md".to_string()));
    assert!(!is_source_file_name(&"rs".to_string()));
}
