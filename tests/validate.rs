use docata::validate::validate_entries;
use docata::{check_catalog_structure, Entry, Error};

fn entry(id: &str, deps: &[&str], path: &str) -> Entry {
    Entry {
        id: id.to_owned(),
        deps: deps.iter().map(|d| d.to_string()).collect(),
        path: path.to_owned(),
        node_type: None,
        domain: None,
        status: None,
        source_of_truth: None,
    }
}

fn cycles_of(entries: &[Entry]) -> Vec<Vec<String>> {
    match validate_entries(&entries.to_vec()) {
        Ok(()) => Vec::new(),
        Err(e) => e.report().dependency_cycles.iter().map(|c| c.ids.clone()).collect(),
    }
}

#[test]
fn detects_duplicate_unresolved_and_cycle() {
    let entries = vec![
        entry("a", &["b", "missing"], "docs/a.md"),
        entry("b", &["a"], "docs/b.md"),
        entry("a", &[], "docs/a-duplicate.md"),
    ];

    let error = validate_entries(&entries).expect_err("validation must fail");
    let report = error.report();

    assert_eq!(report.duplicate_ids.len(), 1);
    assert_eq!(report.duplicate_ids[0].id, "a");

    assert_eq!(report.unresolved_dependencies.len(), 1);
    assert_eq!(report.unresolved_dependencies[0].from_id, "a");
    assert_eq!(report.unresolved_dependencies[0].to_id, "missing");

    assert_eq!(report.dependency_cycles.len(), 1);
    assert_eq!(report.dependency_cycles[0].ids, vec!["a".to_owned(), "b".to_owned()]);
}

#[test]
fn passes_for_valid_graph() {
    let entries = vec![
        entry("a", &[], "docs/a.md"),
        entry("b", &["a"], "docs/b.md"),
        entry("c", &["b"], "docs/c.md"),
    ];

    validate_entries(&entries).expect("validation must pass");
}

#[test]
fn two_node_cycle_is_one_cycle() {
    let entries = vec![entry("a", &["b"], "a.md"), entry("b", &["a"], "b.md")];
    assert_eq!(cycles_of(&entries), vec![vec!["a".to_owned(), "b".to_owned()]]);
}

#[test]
fn self_dependency_is_one_cycle() {
    let entries = vec![entry("a", &["a"], "a.md")];
    assert_eq!(cycles_of(&entries), vec![vec!["a".to_owned()]]);
}

#[test]
fn acyclic_records_have_no_cycle() {
    let entries = vec![
        entry("a", &["b", "c"], "a.md"),
        entry("b", &["c"], "b.md"),
        entry("c", &[], "c.md"),
    ];
    assert!(cycles_of(&entries).is_empty());
    assert!(validate_entries(&entries).is_ok());
}

#[test]
fn cycles_are_sorted_and_separate() {
    let entries = vec![
        entry("z", &["y"], "z.md"),
        entry("y", &["x", "z"], "y.md"),
        entry("x", &["y"], "x.md"),
        entry("d", &["c"], "d.md"),
        entry("c", &["d", "x"], "c.md"),
        entry("m", &["m", "z"], "m.md"),
        entry("q", &["ghost"], "q.md"),
    ];
    assert_eq!(
        cycles_of(&entries),
        vec![
            vec!["c".to_owned(), "d".to_owned()],
            vec!["m".to_owned()],
            vec!["x".to_owned(), "y".to_owned(), "z".to_owned()],
        ]
    );
}

#[test]
fn long_chain_cycle_closes() {
    let n = 200;
    let entries: Vec<Entry> = (0..n)
        .map(|i| {
            let id = format!("n{:03}", i);
            let next = format!("n{:03}", (i + 1) % n);
            entry(&id, &[next.as_str()], &format!("{id}.md"))
        })
        .collect();
    let cycles = cycles_of(&entries);
    assert_eq!(cycles.len(), 1);
    assert_eq!(cycles[0].len(), n);
    assert_eq!(cycles[0][0], "n000");
}

#[test]
fn duplicate_group_lists_sorted_paths() {
    let entries = vec![entry("x", &[], "docs/b.md"), entry("x", &[], "docs/a.md")];
    let error = validate_entries(&entries).expect_err("duplicates must fail");
    let dups = &error.report().duplicate_ids;
    assert_eq!(dups.len(), 1);
    assert_eq!(dups[0].id, "x");
    assert_eq!(dups[0].paths, vec!["docs/a.md".to_owned(), "docs/b.md".to_owned()]);
}

#[test]
fn third_duplicate_extends_the_group() {
    let entries = vec![
        entry("x", &[], "docs/b.md"),
        entry("x", &[], "docs/a.md"),
        entry("x", &[], "docs/c.md"),
        entry("y", &[], "docs/y.md"),
    ];
    let error = validate_entries(&entries).expect_err("duplicates must fail");
    let dups = &error.report().duplicate_ids;
    assert_eq!(dups.len(), 1);
    assert_eq!(dups[0].id, "x");
    assert_eq!(
        dups[0].paths,
        vec!["docs/a.md".to_owned(), "docs/b.md".to_owned(), "docs/c.md".to_owned()]
    );
}

#[test]
fn duplicate_paths_are_deduplicated() {
    let entries = vec![entry("x", &[], "docs/a.md"), entry("x", &[], "docs/a.md")];
    let error = validate_entries(&entries).expect_err("duplicates must fail");
    assert_eq!(error.report().duplicate_ids[0].paths, vec!["docs/a.md".to_owned()]);
}

#[test]
fn missing_dependency_is_one_finding() {
    let entries = vec![entry("a", &["ghost", "ghost"], "docs/a.md")];
    let error = validate_entries(&entries).expect_err("unresolved must fail");
    let report = error.report();
    assert_eq!(report.unresolved_dependencies.len(), 1);
    assert_eq!(report.unresolved_dependencies[0].from_id, "a");
    assert_eq!(report.unresolved_dependencies[0].to_id, "ghost");
    assert_eq!(report.unresolved_dependencies[0].path, "docs/a.md");
    assert!(report.duplicate_ids.is_empty());
    assert!(report.dependency_cycles.is_empty());
    assert!(!report.is_empty());
}

#[test]
fn unresolved_findings_follow_id_then_path_order() {
    let entries = vec![
        entry("b", &["zz", "yy"], "b.md"),
        entry("a", &["q"], "a2.md"),
        entry("a", &["p"], "a1.md"),
    ];
    let error = validate_entries(&entries).expect_err("unresolved must fail");
    let found: Vec<(String, String, String)> = error
        .report()
        .unresolved_dependencies
        .iter()
        .map(|u| (u.from_id.clone(), u.path.clone(), u.to_id.clone()))
        .collect();
    let want = [("a", "a1.md", "p"), ("a", "a2.md", "q"), ("b", "b.md", "yy"), ("b", "b.md", "zz")];
    let want: Vec<(String, String, String)> =
        want.iter().map(|(a, b, c)| (a.to_string(), b.to_string(), c.to_string())).collect();
    assert_eq!(found, want);
}

#[test]
fn empty_record_set_passes() {
    assert!(validate_entries(&Vec::new()).is_ok());
    assert!(check_catalog_structure(&Vec::new()).is_ok());
}

#[test]
fn structure_check_reports_validation_failure() {
    let entries = vec![entry("a", &["a"], "a.md")];
    match check_catalog_structure(&entries) {
        Err(Error::Validation(e)) => assert_eq!(e.report().dependency_cycles.len(), 1),
        _ => panic!("expected a validation failure"),
    }
}

#[test]
fn end_to_end_validation_report() {
    let entries = vec![entry("a", &["b"], "a.md"), entry("b", &["a"], "b.md"), entry("c", &[], "c.md")];
    let error = validate_entries(&entries).expect_err("cycle must fail");
    let report = error.report();
    assert_eq!(report.dependency_cycles.len(), 1);
    assert_eq!(report.dependency_cycles[0].ids, vec!["a".to_owned(), "b".to_owned()]);
    assert!(report.unresolved_dependencies.is_empty());
    assert!(report.duplicate_ids.is_empty());
}

#[test]
fn describes_every_finding() {
    let entries = vec![
        entry("a", &["b", "missing"], "docs/a.md"),
        entry("b", &["a"], "docs/b.md"),
        entry("a", &[], "docs/a-duplicate.md"),
    ];
    let error = validate_entries(&entries).expect_err("validation must fail");
    let expected = "validation failed:\n\
- duplicate ids: 1\n  - `a` appears in: docs/a-duplicate.md, docs/a.md\n\
- unresolved dependencies: 1\n  - `a` -> `missing` (from docs/a.md)\n\
- dependency cycles: 1\n  - a -> b -> a\n";
    assert_eq!(error.report().describe(), expected);
}

#[test]
fn large_graph_is_checked_quickly() {
    let n = 1000;
    let mut entries: Vec<Entry> = (0..n)
        .map(|i| {
            let id = format!("d{:04}", i);
            let next = format!("d{:04}", (i + 1) % n);
            let side = format!("s{:04}", i % 50);
            entry(&id, &[next.as_str(), side.as_str()], &format!("docs/{id}.md"))
        })
        .collect();
    for k in 0..50 {
        let id = format!("s{:04}", k);
        entries.push(entry(&id, &[], &format!("docs/{id}.md")));
    }
    let cycles = cycles_of(&entries);
    assert_eq!(cycles.len(), 1);
    assert_eq!(cycles[0].len(), n);
    assert_eq!(cycles[0][0], "d0000");
    assert_eq!(cycles[0][n - 1], "d0999");
}

#[test]
fn cycles_follow_nul_joined_member_order() {
    let entries = vec![
        entry("a\0z", &["q"], "1.md"),
        entry("q", &["a\0z"], "2.md"),
        entry("a", &["zz"], "3.md"),
        entry("zz", &["a"], "4.md"),
    ];
    assert_eq!(
        cycles_of(&entries),
        vec![
            vec!["a\0z".to_owned(), "q".to_owned()],
            vec!["a".to_owned(), "zz".to_owned()],
        ]
    );
}

#[test]
fn each_record_reports_its_own_missing_dependencies() {
    let entries = vec![
        entry("a", &["ghost", "zz", "ghost"], "docs/a.md"),
        entry("a", &["ghost"], "docs/a.md"),
        entry("b", &["ghost"], "docs/b.md"),
    ];
    let error = validate_entries(&entries).expect_err("unresolved must fail");
    let found: Vec<(String, String, String)> = error
        .report()
        .unresolved_dependencies
        .iter()
        .map(|u| (u.from_id.clone(), u.path.clone(), u.to_id.clone()))
        .collect();
    let want = [
        ("a", "docs/a.md", "ghost"),
        ("a", "docs/a.md", "ghost"),
        ("a", "docs/a.md", "zz"),
        ("b", "docs/b.md", "ghost"),
    ];
    let want: Vec<(String, String, String)> =
        want.iter().map(|(a, b, c)| (a.to_string(), b.to_string(), c.to_string())).collect();
    assert_eq!(found, want);
}
