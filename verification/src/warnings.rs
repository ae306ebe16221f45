//! What the output of a build says about unsafe code: the warnings of the
//! compiler against it, counted for each package.

use crate::graph::{Graph, GraphModel};
use crate::record::text_of;
use vstd::prelude::*;
use vstd::string::StringExecFns;

verus! {

/// A message of the compiler in the output of a build: the identity of the
/// package it is about, and the name of the lint that gave rise to it, if
/// one did. `None` stands for a line of the output that is something else.
pub type Note = Option<(String, Option<String>)>;

/// A note as a mathematical value.
pub open spec fn note_view(note: Note) -> Option<(Seq<char>, Option<Seq<char>>)> {
    match note {
        Some((package, code)) => Some((package@, text_of(code))),
        None => None,
    }
}

pub open spec fn note_views(notes: Seq<Note>) -> Seq<Option<(Seq<char>, Option<Seq<char>>)>> {
    notes.map_values(|note: Note| note_view(note))
}

/// Where a reader of JSON stands in a line.
pub ghost struct Reading {
    /// How many arrays and objects are open.
    pub depth: nat,
    /// The most that were open at once, in this line or an earlier one.
    pub deepest: nat,
    /// The reader is inside a text.
    pub in_text: bool,
    /// The last byte was a backslash that makes the next byte part of the text.
    pub escaped: bool,
}

/// Where the reader stands after one byte more.
pub open spec fn read_byte(at: Reading, byte: u8) -> Reading {
    if byte == 0x0a {
        Reading { depth: 0, in_text: false, escaped: false, ..at }
    } else if at.in_text {
        if at.escaped {
            Reading { escaped: false, ..at }
        } else if byte == 0x5c {
            Reading { escaped: true, ..at }
        } else if byte == 0x22 {
            Reading { in_text: false, ..at }
        } else {
            at
        }
    } else if byte == 0x22 {
        Reading { in_text: true, ..at }
    } else if byte == 0x5b || byte == 0x7b {
        Reading {
            depth: at.depth + 1,
            deepest: if at.depth + 1 > at.deepest {
                at.depth + 1
            } else {
                at.deepest
            },
            ..at
        }
    } else if byte == 0x5d || byte == 0x7d {
        Reading {
            depth: if at.depth > 0 {
                (at.depth - 1) as nat
            } else {
                0
            },
            ..at
        }
    } else {
        at
    }
}

/// Where the reader stands after the first `k` bytes.
pub open spec fn read_bytes(bytes: Seq<u8>, k: nat) -> Reading
    decreases k,
{
    if k == 0 || k > bytes.len() {
        Reading { depth: 0, deepest: 0, in_text: false, escaped: false }
    } else {
        read_byte(read_bytes(bytes, (k - 1) as nat), bytes[k - 1])
    }
}

/// How deeply arrays and objects are nested in the lines of `bytes` at
/// most: the largest number of brackets and braces that are open at once
/// within a line, not counting those inside texts.
pub open spec fn nesting(bytes: Seq<u8>) -> nat {
    read_bytes(bytes, bytes.len()).deepest
}

/// How deeply arrays and objects are nested in the lines of `bytes` at most.
pub fn nesting_of(bytes: &Vec<u8>) -> (deepest: usize)
    ensures
        deepest == nesting(bytes@),
{
    let mut depth: usize = 0;
    let mut deepest: usize = 0;
    let mut in_text = false;
    let mut escaped = false;
    let mut k: usize = 0;
    while k < bytes.len()
        invariant
            k <= bytes.len(),
            depth <= deepest <= k,
            read_bytes(bytes@, k as nat) == (Reading {
                depth: depth as nat,
                deepest: deepest as nat,
                in_text,
                escaped,
            }),
        decreases bytes.len() - k,
    {
        let byte = bytes[k];
        if byte == 0x0a {
            depth = 0;
            in_text = false;
            escaped = false;
        } else if in_text {
            if escaped {
                escaped = false;
            } else if byte == 0x5c {
                escaped = true;
            } else if byte == 0x22 {
                in_text = false;
            }
        } else if byte == 0x22 {
            in_text = true;
        } else if byte == 0x5b || byte == 0x7b {
            depth += 1;
            if depth > deepest {
                deepest = depth;
            }
        } else if byte == 0x5d || byte == 0x7d {
            if depth > 0 {
                depth -= 1;
            }
        }
        k += 1;
    }
    deepest
}

/// The deepest nesting of the output of a build that is read.
pub const NESTING_LIMIT: usize = 128;

/// The lines of the output of a build, read as messages of a build: for
/// each line, in order, what the line says if it is a message of the
/// compiler, and `None` if it is anything else.
pub uninterp spec fn compiler_notes_in(output: Seq<u8>) -> Seq<
    Option<(Seq<char>, Option<Seq<char>>)>,
>;

/// `Message::parse_stream` of the crate cargo_metadata over the output of
/// a build: for each item that it gives, whether it is a message of the
/// compiler, and if so the package it is about and the code of its
/// diagnostic. The reader of cargo_metadata goes as deep as its input is
/// nested, so the nesting is bounded here.
#[verifier::external_body]
fn read_compiler_notes(output: &Vec<u8>) -> (notes: Vec<Note>)
    requires
        nesting(output@) <= NESTING_LIMIT,
    ensures
        note_views(notes@) == compiler_notes_in(output@),
{
    cargo_metadata::Message::parse_stream(std::io::Cursor::new(output)).map(
        |item| match item {
            Ok(cargo_metadata::Message::CompilerMessage(m)) => Some(
                (m.package_id.repr, m.message.code.map(|c| c.code)),
            ),
            _ => None,
        },
    ).collect()
}

/// The note is a warning against unsafe code in the package `v`.
pub open spec fn warns_of_unsafe(
    m: GraphModel,
    note: Option<(Seq<char>, Option<Seq<char>>)>,
    v: int,
) -> bool {
    match note {
        Some((package, Some(code))) => code == "unsafe_code"@ && m.is_position_of(package, v),
        _ => false,
    }
}

/// How many of the first `k` notes warn of unsafe code in the package `v`.
pub open spec fn unsafe_warnings(
    m: GraphModel,
    notes: Seq<Option<(Seq<char>, Option<Seq<char>>)>>,
    v: int,
    k: nat,
) -> nat
    decreases k,
{
    if k == 0 || k > notes.len() {
        0
    } else {
        unsafe_warnings(m, notes, v, (k - 1) as nat) + if warns_of_unsafe(m, notes[k - 1], v) {
            1nat
        } else {
            0nat
        }
    }
}

/// For each package, the number of notes that warn of unsafe code in it.
pub fn tally_unsafe_code(graph: &Graph, notes: &Vec<Note>) -> (counts: Vec<u64>)
    ensures
        counts.len() == graph.spec_len(),
        forall|v: int|
            0 <= v < counts.len() ==> #[trigger] counts[v] == unsafe_warnings(
                graph@,
                note_views(notes@),
                v,
                notes.len() as nat,
            ),
{
    let n = graph.len();
    let ghost m = graph@;
    let ghost views = note_views(notes@);
    let wanted = String::from_str("unsafe_code");
    let mut counts: Vec<u64> = Vec::new();
    let mut v: usize = 0;
    while v < n
        invariant
            v <= n,
            counts.len() == v,
            forall|x: int| 0 <= x < v ==> #[trigger] counts[x] == 0,
        decreases n - v,
    {
        counts.push(0);
        v += 1;
    }
    let mut k: usize = 0;
    while k < notes.len()
        invariant
            k <= notes.len(),
            m == graph@,
            n == m.packages.len(),
            views == note_views(notes@),
            wanted@ == "unsafe_code"@,
            counts.len() == n,
            forall|x: int|
                0 <= x < n ==> #[trigger] counts[x] == unsafe_warnings(m, views, x, k as nat)
                    && counts[x] <= k,
        decreases notes.len() - k,
    {
        let ghost before = counts@;
        let mut hit: Option<usize> = None;
        match &notes[k] {
            Some((package, Some(code))) => {
                if *code == wanted {
                    hit = graph.index_of(package.as_str());
                }
            },
            _ => {},
        }
        proof {
            assert(views[k as int] == note_view(notes@[k as int]));
            assert forall|x: int| 0 <= x < n implies (warns_of_unsafe(m, views[k as int], x)
                <==> hit
                == Some(x as usize)) by {
                if let Some((package, _)) = views[k as int] {
                    if warns_of_unsafe(m, views[k as int], x) {
                        assert(m.is_position_of(package, x));
                        assert(m.knows(package));
                    }
                }
            }
        }
        match hit {
            Some(p) => {
                let grown = counts[p] + 1;
                counts[p] = grown;
            },
            None => {},
        }
        k += 1;
    }
    counts
}

/// For each package, the number of warnings against unsafe code in it
/// that the output of a build holds. `None` where the output is nested
/// more deeply than is read.
pub fn count_unsafe_code(graph: &Graph, output: &Vec<u8>) -> (r: Option<Vec<u64>>)
    ensures
        match r {
            Some(counts) => {
                &&& nesting(output@) <= NESTING_LIMIT
                &&& counts.len() == graph.spec_len()
                &&& forall|v: int|
                    0 <= v < counts.len() ==> #[trigger] counts[v] == unsafe_warnings(
                        graph@,
                        compiler_notes_in(output@),
                        v,
                        compiler_notes_in(output@).len(),
                    )
            },
            None => nesting(output@) > NESTING_LIMIT,
        },
{
    if nesting_of(output) <= NESTING_LIMIT {
        let notes = read_compiler_notes(output);
        assert(note_views(notes@).len() == notes.len());
        Some(tally_unsafe_code(graph, &notes))
    } else {
        None
    }
}

} // verus!
