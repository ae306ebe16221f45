//! Own line counts of a package, added up from what the scanners report of
//! its files.

use crate::record::{add_capped, text_of, PackageRisk};
use vstd::prelude::*;
use vstd::string::StringExecFns;

verus! {

/// What language a file is written in, as far as the counts care.
#[derive(Clone, Copy, Debug, PartialEq, Eq, Structural)]
pub enum FileKind {
    /// No known language: the file is not counted.
    Unrecognized,
    Rust,
    /// A known language other than Rust.
    Other,
}

/// The lines of code counted in one file.
#[derive(Clone, Copy, Debug)]
pub struct FileCount {
    pub kind: FileKind,
    pub code: u32,
}

/// The unsafe items found in one file.
#[derive(Clone, Copy, Debug)]
pub struct UnsafeCounters {
    pub functions: u64,
    pub exprs: u64,
    pub item_impls: u64,
    pub item_traits: u64,
    pub methods: u64,
}

/// `x` as a count: the largest count where `x` is larger.
pub open spec fn capped(x: int) -> u64 {
    if x <= 0 {
        0
    } else if x >= u64::MAX {
        u64::MAX
    } else {
        x as u64
    }
}

/// The lines of code in the files of a known language, or in the Rust files alone.
pub open spec fn code_lines(counts: Seq<FileCount>, rust_only: bool) -> int
    decreases counts.len(),
{
    if counts.len() == 0 {
        0
    } else {
        let last = counts.last();
        let counted = if rust_only {
            last.kind == FileKind::Rust
        } else {
            last.kind != FileKind::Unrecognized
        };
        code_lines(counts.drop_last(), rust_only) + if counted {
            last.code as int
        } else {
            0
        }
    }
}

/// The unsafe items in one file.
pub open spec fn unsafe_items(c: UnsafeCounters) -> int {
    c.functions + c.exprs + c.item_impls + c.item_traits + c.methods
}

/// The unsafe items in the files that were scanned with success.
pub open spec fn unsafe_lines(scans: Seq<Option<UnsafeCounters>>) -> int
    decreases scans.len(),
{
    if scans.len() == 0 {
        0
    } else {
        unsafe_lines(scans.drop_last()) + match scans.last() {
            Some(c) => unsafe_items(c),
            None => 0,
        }
    }
}

proof fn lemma_code_lines_grow(counts: Seq<FileCount>, rust_only: bool)
    ensures
        0 <= code_lines(counts, rust_only),
    decreases counts.len(),
{
    if counts.len() > 0 {
        lemma_code_lines_grow(counts.drop_last(), rust_only);
    }
}

proof fn lemma_unsafe_lines_grow(scans: Seq<Option<UnsafeCounters>>)
    ensures
        0 <= unsafe_lines(scans),
    decreases scans.len(),
{
    if scans.len() > 0 {
        lemma_unsafe_lines_grow(scans.drop_last());
    }
}

/// Adds to the own counts of a package the lines of code of its files:
/// every file of a known language to `loc`, every Rust file to `rust_loc`
/// as well. A count stops at the largest count.
pub fn get_loc(package_risk: &mut PackageRisk, counts: &Vec<FileCount>)
    ensures
        *final(package_risk) == (PackageRisk {
            loc: capped(old(package_risk).loc + code_lines(counts@, false)),
            rust_loc: capped(old(package_risk).rust_loc + code_lines(counts@, true)),
            ..*old(package_risk)
        }),
{
    let mut loc = package_risk.loc;
    let mut rust_loc = package_risk.rust_loc;
    let mut i: usize = 0;
    while i < counts.len()
        invariant
            i <= counts.len(),
            loc == capped(old(package_risk).loc + code_lines(counts@.take(i as int), false)),
            rust_loc == capped(
                old(package_risk).rust_loc + code_lines(counts@.take(i as int), true),
            ),
        decreases counts.len() - i,
    {
        proof {
            assert(counts@.take(i as int + 1).drop_last() == counts@.take(i as int));
            lemma_code_lines_grow(counts@.take(i as int), false);
            lemma_code_lines_grow(counts@.take(i as int), true);
        }
        let count = counts[i];
        if count.kind != FileKind::Unrecognized {
            loc = add_capped(loc, count.code as u64);
            if count.kind == FileKind::Rust {
                rust_loc = add_capped(rust_loc, count.code as u64);
            }
        }
        i += 1;
    }
    assert(counts@.take(i as int) == counts@);
    package_risk.loc = loc;
    package_risk.rust_loc = rust_loc;
}

/// Adds to the own count of unsafe lines of a package the unsafe items
/// that the scans of its Rust files found: functions, expressions, impls,
/// traits and methods. A scan that failed adds nothing. The count stops at
/// the largest count.
pub fn get_unsafe(package_risk: &mut PackageRisk, scans: &Vec<Option<UnsafeCounters>>)
    ensures
        *final(package_risk) == (PackageRisk {
            unsafe_loc: capped(old(package_risk).unsafe_loc + unsafe_lines(scans@)),
            ..*old(package_risk)
        }),
{
    let mut unsafe_loc = package_risk.unsafe_loc;
    let mut i: usize = 0;
    while i < scans.len()
        invariant
            i <= scans.len(),
            unsafe_loc == capped(
                old(package_risk).unsafe_loc + unsafe_lines(scans@.take(i as int)),
            ),
        decreases scans.len() - i,
    {
        proof {
            assert(scans@.take(i as int + 1).drop_last() == scans@.take(i as int));
            lemma_unsafe_lines_grow(scans@.take(i as int));
        }
        match scans[i] {
            Some(c) => {
                unsafe_loc = add_capped(unsafe_loc, c.functions);
                unsafe_loc = add_capped(unsafe_loc, c.exprs);
                unsafe_loc = add_capped(unsafe_loc, c.item_impls);
                unsafe_loc = add_capped(unsafe_loc, c.item_traits);
                unsafe_loc = add_capped(unsafe_loc, c.methods);
            },
            None => {},
        }
        i += 1;
    }
    assert(scans@.take(i as int) == scans@);
    package_risk.unsafe_loc = unsafe_loc;
}

/// At the position `at` of `text` stands a dot, and right after it `extension`.
pub open spec fn dot_at(text: Seq<char>, extension: Seq<char>, at: int) -> bool {
    &&& 0 <= at
    &&& at + 1 + extension.len() <= text.len()
    &&& text[at] == '.'
    &&& text.subrange(at + 1, at + 1 + extension.len()) == extension
}

/// Somewhere in `text` stands a dot with `extension` right after it.
pub open spec fn follows_a_dot(text: Seq<char>, extension: Seq<char>) -> bool {
    exists|at: int| #[trigger] dot_at(text, extension, at)
}

/// `Path::extension` of std, on the path that the text names: the portion
/// of the file name after its final dot, where the path has a file name and
/// that has a dot after its first character. The file name is the final
/// component of the path. How a path falls into its components differs
/// from one platform to another, so of an extension only this is said: it
/// holds no dot, and in the path it stands right after one.
#[verifier::external_body]
fn extension_of(path: &str) -> (extension: Option<String>)
    ensures
        extension matches Some(e) ==> !e@.contains('.') && follows_a_dot(path@, e@),
{
    std::path::Path::new(path).extension().and_then(|e| e.to_str()).map(|e| e.to_string())
}

/// Whether the extension of a file name is that of a Rust file.
pub fn has_rust_extension(extension: &Option<String>) -> (r: bool)
    ensures
        r == (text_of(*extension) == Some("rs"@)),
{
    match extension {
        Some(e) => *e == String::from_str("rs"),
        None => false,
    }
}

/// Whether the file at `path` is to be scanned for unsafe code: whether
/// its name has the extension of a Rust file. Which part of a path is the
/// name of the file is for the platform to say; a path that nowhere holds
/// `.rs` names no Rust file on any.
pub fn is_rust_source(path: &str) -> (r: bool)
    ensures
        r ==> follows_a_dot(path@, "rs"@),
{
    let extension = extension_of(path);
    has_rust_extension(&extension)
}

} // verus!
