use dephell::graph::{Graph, PackageNode};
use dephell::warnings::{count_unsafe_code, nesting_of, tally_unsafe_code};

fn package(id: &str) -> PackageNode {
    PackageNode {
        id: id.to_string(),
        name: id.to_string(),
        version: "1.0.0".to_string(),
        description: None,
        repository: None,
        manifest_path: String::new(),
        is_root: false,
    }
}

fn message(package: &str, code: &str) -> String {
    format!(
        "{{\"reason\":\"compiler-message\",\"package_id\":\"{}\",\
         \"target\":{{\"name\":\"x\",\"kind\":[\"lib\"],\"src_path\":\"/x/src/lib.rs\"}},\
         \"message\":{{\"message\":\"usage of an `unsafe` block\",\
         \"code\":{{\"code\":\"{}\",\"explanation\":null}},\"level\":\"warning\",\
         \"spans\":[],\"children\":[],\"rendered\":\"warning: {{ [ \\\" ] }}\"}}}}\n",
        package, code
    )
}

#[test]
fn warnings_against_unsafe_code_are_counted_by_package() {
    let graph = Graph::new(vec![package("a 1.0"), package("b 1.0"), package("c 1.0")], vec![])
        .unwrap();
    let mut output = String::new();
    output.push_str(&message("b 1.0", "unsafe_code"));
    output.push_str("   Compiling b v1.0.0\n");
    output.push_str(&message("b 1.0", "unused_variables"));
    output.push_str(&message("c 1.0", "unsafe_code"));
    output.push_str(&message("b 1.0", "unsafe_code"));
    output.push_str(&message("elsewhere 1.0", "unsafe_code"));
    output.push_str("{\"reason\":\"build-finished\",\"success\":true}\n");
    let counts = count_unsafe_code(&graph, &output.into_bytes());
    assert_eq!(counts, Some(vec![0, 2, 1]));
}

#[test]
fn deeply_nested_output_is_not_read() {
    let graph = Graph::new(vec![package("a 1.0")], vec![]).unwrap();
    let mut output = message("a 1.0", "unsafe_code").into_bytes();
    output.extend(std::iter::repeat(b'[').take(129));
    assert_eq!(count_unsafe_code(&graph, &output), None);
    let mut output = message("a 1.0", "unsafe_code").into_bytes();
    output.extend(std::iter::repeat(b'[').take(128));
    assert_eq!(count_unsafe_code(&graph, &output), Some(vec![1]));
}

#[test]
fn nesting_counts_open_brackets_outside_texts() {
    assert_eq!(nesting_of(&b"".to_vec()), 0);
    assert_eq!(nesting_of(&b"{\"a\":[1,[2]]}".to_vec()), 3);
    assert_eq!(nesting_of(&b"{\"a\":\"[[[[\"}".to_vec()), 1);
    assert_eq!(nesting_of(&b"{\"a\":\"\\\"[[[[\"}".to_vec()), 1);
    assert_eq!(nesting_of(&b"[[\n[[[\n[".to_vec()), 3);
    assert_eq!(nesting_of(&b"]]]][".to_vec()), 1);
    assert_eq!(nesting_of(&b"\"[\n[".to_vec()), 1);
}

#[test]
fn notes_about_other_lints_are_not_counted() {
    let graph = Graph::new(vec![package("a"), package("b")], vec![]).unwrap();
    let notes = vec![
        Some(("a".to_string(), Some("unsafe_code".to_string()))),
        Some(("a".to_string(), None)),
        None,
        Some(("b".to_string(), Some("dead_code".to_string()))),
        Some(("a".to_string(), Some("unsafe_code".to_string()))),
        Some(("z".to_string(), Some("unsafe_code".to_string()))),
    ];
    assert_eq!(tally_unsafe_code(&graph, &notes), vec![2, 0]);
}
