use dephell::depinfo::{
    chars_of, dep_info_pattern, get_dependency_files, is_whitespace, parse_rustc_dep_info,
};

fn texts(list: &[&str]) -> Vec<String> {
    list.iter().map(|s| s.to_string()).collect()
}

#[test]
fn files_are_read_after_the_colon() {
    let text = "/t/debug/deps/libfoo-1234.rmeta: src/lib.rs src/a.rs\n\
                \n\
                /t/debug/deps/foo-1234.d: src/lib.rs src/a.rs\tsrc/b.rs\n\
                \n\
                src/lib.rs:\n\
                src/a.rs:\n";
    assert_eq!(
        parse_rustc_dep_info(text).unwrap(),
        texts(&["src/lib.rs", "src/a.rs", "src/b.rs"])
    );
}

#[test]
fn a_backslash_joins_a_name_over_a_blank() {
    let text = "out: /my\\ dir/with\\ two\\ blanks.rs plain.rs last\\ one";
    assert_eq!(
        parse_rustc_dep_info(text).unwrap(),
        texts(&["/my dir/with two blanks.rs", "plain.rs", "last one"])
    );
}

#[test]
fn a_name_that_breaks_off_is_refused() {
    assert!(parse_rustc_dep_info("out: a.rs b\\").is_err());
    assert!(parse_rustc_dep_info("out: a.rs b\\\nnext: c.rs\n").is_err());
    assert!(parse_rustc_dep_info("out: \\").is_err());
    assert!(parse_rustc_dep_info("first\\\nout: a.rs\n").is_ok());
}

#[test]
fn only_the_first_colon_of_a_line_counts() {
    assert_eq!(parse_rustc_dep_info("a: b: c").unwrap(), texts(&["b:", "c"]));
    assert_eq!(parse_rustc_dep_info("a:b c").unwrap(), Vec::<String>::new());
    assert_eq!(parse_rustc_dep_info("a:").unwrap(), Vec::<String>::new());
    assert_eq!(parse_rustc_dep_info(": ").unwrap(), Vec::<String>::new());
    assert_eq!(parse_rustc_dep_info("").unwrap(), Vec::<String>::new());
    assert_eq!(parse_rustc_dep_info("x: y\r\nz: w\r\n").unwrap(), texts(&["y", "w"]));
    assert_eq!(parse_rustc_dep_info("x: y\u{a0}z\u{3000}").unwrap(), texts(&["y", "z"]));
}

#[test]
fn white_space_is_what_the_standard_library_calls_so() {
    let mut c = 0u32;
    while c <= 0x10ffff {
        if let Some(ch) = char::from_u32(c) {
            assert_eq!(is_whitespace(ch), ch.is_whitespace(), "{:x}", c);
        }
        c += 1;
    }
    assert_eq!(chars_of("a\u{e9}z"), vec!['a', '\u{e9}', 'z']);
}

#[test]
fn pattern_has_low_lines_for_hyphens() {
    assert_eq!(dep_info_pattern("my-crate-x"), "my_crate_x-*.d");
    assert_eq!(dep_info_pattern("serde"), "serde-*.d");
    assert_eq!(dep_info_pattern(""), "-*.d");
}

#[test]
fn without_dep_info_every_file_counts() {
    let every = texts(&["a.rs", "b.c", "a.rs"]);
    assert_eq!(get_dependency_files(None, &every).unwrap(), (false, texts(&["a.rs", "b.c"])));
    assert_eq!(
        get_dependency_files(Some("t: x.rs y.rs x.rs"), &every).unwrap(),
        (true, texts(&["x.rs", "y.rs"]))
    );
    assert!(get_dependency_files(Some("t: x\\"), &every).is_err());
}
