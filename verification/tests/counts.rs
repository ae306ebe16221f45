use dephell::metrics::{
    get_loc, get_unsafe, is_rust_source, FileCount, FileKind, UnsafeCounters,
};
use dephell::record::PackageRisk;

#[test]
fn lines_of_known_languages_are_added_up() {
    let mut record = PackageRisk::default();
    record.loc = 5;
    let counts = vec![
        FileCount { kind: FileKind::Rust, code: 100 },
        FileCount { kind: FileKind::Other, code: 30 },
        FileCount { kind: FileKind::Unrecognized, code: 7000 },
        FileCount { kind: FileKind::Rust, code: 1 },
    ];
    get_loc(&mut record, &counts);
    assert_eq!(record.loc, 136);
    assert_eq!(record.rust_loc, 101);
    assert_eq!(record.unsafe_loc, 0);
}

#[test]
fn counts_stop_at_the_largest_count() {
    let mut record = PackageRisk::default();
    record.loc = u64::MAX - 10;
    record.rust_loc = u64::MAX - 11;
    let counts = vec![FileCount { kind: FileKind::Rust, code: 11 }];
    get_loc(&mut record, &counts);
    assert_eq!(record.loc, u64::MAX);
    assert_eq!(record.rust_loc, u64::MAX);
    get_loc(&mut record, &counts);
    assert_eq!(record.loc, u64::MAX);
}

#[test]
fn unsafe_items_of_every_kind_count() {
    let mut record = PackageRisk::default();
    record.unsafe_loc = 1;
    let scans = vec![
        Some(UnsafeCounters { functions: 1, exprs: 20, item_impls: 300, item_traits: 4000, methods: 50000 }),
        None,
        Some(UnsafeCounters { functions: 0, exprs: 2, item_impls: 0, item_traits: 0, methods: 0 }),
    ];
    get_unsafe(&mut record, &scans);
    assert_eq!(record.unsafe_loc, 54324);
    let scans = vec![Some(UnsafeCounters {
        functions: u64::MAX,
        exprs: u64::MAX,
        item_impls: 0,
        item_traits: 0,
        methods: 1,
    })];
    get_unsafe(&mut record, &scans);
    assert_eq!(record.unsafe_loc, u64::MAX);
}

#[test]
fn a_path_that_nowhere_holds_the_extension_names_no_rust_file() {
    for path in ["", "rs", "a/rs", "a.r.s", "ars", "a.rsx/b", "a.r/s", ".", "..", "a."] {
        assert!(!is_rust_source(path), "{}", path);
    }
    for path in ["a.rs", "..rs", "a.b.rs", "/x.y/z.rs"] {
        assert!(is_rust_source(path), "{}", path);
    }
}
