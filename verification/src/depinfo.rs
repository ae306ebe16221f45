//! The files that went into the build of a package, as the compiler lists
//! them in its dep-info files.
//!
//! A dep-info file reads like a makefile. Each line that holds a colon
//! followed by a blank names a target before the colon and, after it, the
//! files that the target was made from, separated by white space. A blank
//! within the name of a file is written with a backslash before it.

use crate::names::{distinct_names, distinct_texts, has_text};
use crate::record::text_of;
use vstd::prelude::*;
use vstd::string::StringExecFns;

verus! {

/// The text of a dep-info file ends in the middle of a file name: after a
/// backslash, where the rest of the name should follow.
#[derive(Debug)]
pub struct MalformedDepInfo;

/// The character is white space, as Unicode has it.
pub open spec fn is_space(c: char) -> bool {
    let x = c as u32;
    (0x09 <= x <= 0x0d) || x == 0x20 || x == 0x85 || x == 0xa0 || x == 0x1680 || (0x2000 <= x
        <= 0x200a) || x == 0x2028 || x == 0x2029 || x == 0x202f || x == 0x205f || x == 0x3000
}

/// The position of the first line feed at or after `i`, or the length of
/// `s` where none follows.
pub open spec fn line_end(s: Seq<char>, i: int) -> int
    decreases s.len() - i,
{
    if 0 <= i < s.len() && s[i] != '\n' {
        line_end(s, i + 1)
    } else {
        i
    }
}

/// The first position in `s` from `i` on, and before `hi`, at which a
/// colon stands with a blank after it that stands before `hi` too.
pub open spec fn colon_in(s: Seq<char>, i: int, hi: int) -> Option<int>
    decreases hi - i,
{
    if i < 0 || i + 1 >= hi || hi > s.len() {
        None
    } else if s[i] == ':' && s[i + 1] == ' ' {
        Some(i)
    } else {
        colon_in(s, i + 1, hi)
    }
}

/// Where the word ends that holds the position `i`: the first position at
/// or after `i` that holds white space, or `hi` where none does before it.
pub open spec fn word_end(s: Seq<char>, i: int, hi: int) -> int
    decreases hi - i,
{
    if 0 <= i < hi <= s.len() && !is_space(s[i]) {
        word_end(s, i + 1, hi)
    } else {
        i
    }
}

pub proof fn lemma_word_end(s: Seq<char>, i: int, hi: int)
    requires
        0 <= i <= hi <= s.len(),
    ensures
        i <= word_end(s, i, hi) <= hi,
        i < hi && !is_space(s[i]) ==> i < word_end(s, i, hi),
        forall|j: int| i <= j < word_end(s, i, hi) ==> !is_space(#[trigger] s[j]),
        word_end(s, i, hi) < hi ==> is_space(s[word_end(s, i, hi)]),
    decreases hi - i,
{
    if i < hi && !is_space(s[i]) {
        lemma_word_end(s, i + 1, hi);
    }
}

pub proof fn lemma_line_end(s: Seq<char>, i: int)
    requires
        0 <= i <= s.len(),
    ensures
        i <= line_end(s, i) <= s.len(),
        forall|j: int| i <= j < line_end(s, i) ==> #[trigger] s[j] != '\n',
        line_end(s, i) < s.len() ==> s[line_end(s, i)] == '\n',
    decreases s.len() - i,
{
    if i < s.len() && s[i] != '\n' {
        lemma_line_end(s, i + 1);
    }
}

/// The words of `s` between `i` and `hi`: the longest stretches without
/// white space, in their order.
pub open spec fn words_in(s: Seq<char>, i: int, hi: int) -> Seq<Seq<char>>
    decreases hi - i,
{
    if i < 0 || i >= hi || hi > s.len() {
        Seq::empty()
    } else if is_space(s[i]) {
        words_in(s, i + 1, hi)
    } else {
        proof {
            lemma_word_end(s, i, hi);
        }
        seq![s.subrange(i, word_end(s, i, hi))] + words_in(s, word_end(s, i, hi), hi)
    }
}

/// The file names that the words spell. A word that ends in a backslash
/// goes on in the next word, with a blank in place of the backslash.
/// `pending` is the part of a name that earlier words have spelt already.
/// `None` where the words end after a backslash.
pub open spec fn joined(words: Seq<Seq<char>>, pending: Option<Seq<char>>) -> Option<
    Seq<Seq<char>>,
>
    decreases words.len(),
{
    if words.len() == 0 {
        if pending is Some {
            None
        } else {
            Some(Seq::empty())
        }
    } else {
        let name = match pending {
            Some(begun) => begun + seq![' '] + words[0],
            None => words[0],
        };
        if name.len() > 0 && name.last() == '\\' {
            joined(words.skip(1), Some(name.drop_last()))
        } else {
            match joined(words.skip(1), None) {
                Some(rest) => Some(seq![name] + rest),
                None => None,
            }
        }
    }
}

/// The files that the line between `lo` and `hi` names.
pub open spec fn files_in_line(s: Seq<char>, lo: int, hi: int) -> Option<Seq<Seq<char>>> {
    match colon_in(s, lo, hi) {
        Some(colon) => joined(words_in(s, colon + 2, hi), None),
        None => Some(Seq::empty()),
    }
}

/// The files that the lines from position `i` on name, in their order.
pub open spec fn files_from(s: Seq<char>, i: int) -> Option<Seq<Seq<char>>>
    decreases s.len() - i,
{
    if i < 0 || i >= s.len() {
        Some(Seq::empty())
    } else {
        proof {
            lemma_line_end(s, i);
        }
        let end = line_end(s, i);
        let after = if end < s.len() {
            files_from(s, end + 1)
        } else {
            Some(Seq::empty())
        };
        match (files_in_line(s, i, end), after) {
            (Some(here), Some(after)) => Some(here + after),
            _ => None,
        }
    }
}

/// The files that a dep-info file with the text `contents` names, in their
/// order, or `None` where the text is malformed.
pub open spec fn dep_info_files(contents: Seq<char>) -> Option<Seq<Seq<char>>> {
    files_from(contents, 0)
}

/// Whether the character is white space.
pub fn is_whitespace(c: char) -> (r: bool)
    ensures
        r == is_space(c),
{
    let x = c as u32;
    (0x09 <= x && x <= 0x0d) || x == 0x20 || x == 0x85 || x == 0xa0 || x == 0x1680 || (0x2000 <= x
        && x <= 0x200a) || x == 0x2028 || x == 0x2029 || x == 0x202f || x == 0x205f || x == 0x3000
}

/// The characters of a text.
pub fn chars_of(s: &str) -> (v: Vec<char>)
    ensures
        v@ == s@,
{
    broadcast use vstd::string::group_string_axioms;

    let mut v: Vec<char> = Vec::new();
    for c in it: s.chars()
        invariant
            it.seq() == s@,
            v@ == it.seq().take(it.index() as int),
    {
        v.push(c);
    }
    v
}

/// `String::push` of std: the text with the character at its end.
#[verifier::external_body]
fn push_char(s: &mut String, c: char)
    ensures
        final(s)@ == old(s)@.push(c),
{
    s.push(c)
}

/// The texts as sequences of characters.
pub open spec fn views_of(list: Seq<String>) -> Seq<Seq<char>> {
    list.map_values(|t: String| t@)
}

fn find_line_end(s: &Vec<char>, from: usize) -> (end: usize)
    requires
        from <= s.len(),
    ensures
        end == line_end(s@, from as int),
        from <= end <= s.len(),
{
    let mut i = from;
    while i < s.len() && s[i] != '\n'
        invariant
            from <= i <= s.len(),
            line_end(s@, from as int) == line_end(s@, i as int),
        decreases s.len() - i,
    {
        i += 1;
    }
    i
}

fn find_colon(s: &Vec<char>, from: usize, hi: usize) -> (r: Option<usize>)
    requires
        from <= hi <= s.len(),
    ensures
        match r {
            Some(p) => colon_in(s@, from as int, hi as int) == Some(p as int) && from <= p && p + 2
                <= hi,
            None => colon_in(s@, from as int, hi as int) is None,
        },
{
    let mut i = from;
    while hi - i >= 2
        invariant
            from <= i <= hi <= s.len(),
            colon_in(s@, from as int, hi as int) == colon_in(s@, i as int, hi as int),
        decreases hi - i,
    {
        if s[i] == ':' && s[i + 1] == ' ' {
            return Some(i);
        }
        i += 1;
    }
    None
}

/// What `joined` gives for a first word and the words after it.
proof fn lemma_joined_step(first: Seq<char>, rest: Seq<Seq<char>>, pending: Option<Seq<char>>)
    ensures
        joined(seq![first] + rest, pending) == ({
            let name = match pending {
                Some(begun) => begun + seq![' '] + first,
                None => first,
            };
            if name.len() > 0 && name.last() == '\\' {
                joined(rest, Some(name.drop_last()))
            } else {
                match joined(rest, None) {
                    Some(after) => Some(seq![name] + after),
                    None => None,
                }
            }
        }),
{
    let words = seq![first] + rest;
    assert(words[0] == first);
    assert(words.skip(1) =~= rest);
}

/// The files that the words of `s` between `from` and `hi` name.
fn read_files(s: &Vec<char>, from: usize, hi: usize) -> (r: Option<Vec<String>>)
    requires
        from <= hi <= s.len(),
    ensures
        match r {
            Some(files) => joined(words_in(s@, from as int, hi as int), None) == Some(
                views_of(files@),
            ),
            None => joined(words_in(s@, from as int, hi as int), None) is None,
        },
{
    let ghost whole = joined(words_in(s@, from as int, hi as int), None);
    let mut files: Vec<String> = Vec::new();
    let mut pending: Option<String> = None;
    let mut i = from;
    assert(views_of(files@) =~= Seq::<Seq<char>>::empty());
    while i < hi
        invariant
            from <= i <= hi <= s.len(),
            whole == match joined(words_in(s@, i as int, hi as int), text_of(pending)) {
                Some(rest) => Some(views_of(files@) + rest),
                None => None,
            },
        decreases hi - i,
    {
        if is_whitespace(s[i]) {
            i += 1;
        } else {
            let ghost begun = text_of(pending);
            let ghost end = word_end(s@, i as int, hi as int);
            let ghost word = s@.subrange(i as int, end);
            let ghost before = views_of(files@);
            let mut name = match pending {
                Some(text) => {
                    let mut text = text;
                    push_char(&mut text, ' ');
                    text
                },
                None => String::new(),
            };
            let ghost head = name@;
            let mut last = s[i];
            let start = i;
            while i < hi && !is_whitespace(s[i])
                invariant
                    start <= i <= hi <= s.len(),
                    start < hi,
                    !is_space(s@[start as int]),
                    word_end(s@, start as int, hi as int) == word_end(s@, i as int, hi as int),
                    i > start ==> last == s@[i - 1] && name@ == head + s@.subrange(
                        start as int,
                        i - 1,
                    ),
                    i == start ==> name@ == head,
                decreases hi - i,
            {
                if i > start {
                    proof {
                        assert(s@.subrange(start as int, i as int) == s@.subrange(
                            start as int,
                            i - 1,
                        ).push(s@[i - 1]));
                    }
                    push_char(&mut name, last);
                }
                last = s[i];
                proof {
                    assert(s@.subrange(start as int, (i + 1) - 1) == s@.subrange(
                        start as int,
                        i as int,
                    ));
                }
                i += 1;
            }
            proof {
                lemma_word_end(s@, start as int, hi as int);
                lemma_word_end(s@, i as int, hi as int);
                assert(i as int == end);
                assert(word.len() > 0);
                assert(word.last() == last);
                assert(word.drop_last() == s@.subrange(start as int, i - 1));
                lemma_joined_step(word, words_in(s@, end, hi as int), begun);
                let full = match begun {
                    Some(b) => b + seq![' '] + word,
                    None => word,
                };
                assert(head == match begun {
                    Some(b) => b + seq![' '],
                    None => Seq::<char>::empty(),
                }) by {
                    if begun is Some {
                        assert(begun->0 + seq![' '] =~= begun->0.push(' '));
                    }
                }
                assert(full =~= head + word);
                assert(full.last() == last);
                assert(full.drop_last() =~= head + word.drop_last());
            }
            if last == '\\' {
                pending = Some(name);
            } else {
                push_char(&mut name, last);
                proof {
                    assert(name@ =~= head + word);
                    let rest = joined(words_in(s@, end, hi as int), None);
                    if rest is Some {
                        assert(views_of(files@.push(name)) =~= before + seq![name@]);
                        assert((before + seq![name@]) + rest->0 =~= before + (seq![name@]
                            + rest->0));
                    }
                }
                files.push(name);
                pending = None;
            }
        }
    }
    match pending {
        Some(_) => None,
        None => {
            proof {
                assert(views_of(files@) + Seq::<Seq<char>>::empty() =~= views_of(files@));
            }
            Some(files)
        },
    }
}

/// The files that a dep-info file with the text `contents` names, each
/// once. Fails where the text ends after a backslash that should be
/// followed by the rest of a name.
pub fn parse_rustc_dep_info(contents: &str) -> (r: Result<Vec<String>, MalformedDepInfo>)
    ensures
        match r {
            Ok(files) => {
                &&& dep_info_files(contents@) matches Some(named)
                &&& distinct_texts(files@)
                &&& forall|t: Seq<char>| has_text(files@, t) <==> named.contains(t)
            },
            Err(_) => dep_info_files(contents@) is None,
        },
{
    let s = chars_of(contents);
    let ghost whole = dep_info_files(contents@);
    let mut all: Vec<String> = Vec::new();
    let mut i: usize = 0;
    assert(views_of(all@) =~= Seq::<Seq<char>>::empty());
    while i < s.len()
        invariant
            i <= s.len(),
            s@ == contents@,
            whole == files_from(s@, 0),
            whole == match files_from(s@, i as int) {
                Some(rest) => Some(views_of(all@) + rest),
                None => None,
            },
        decreases s.len() - i,
    {
        let end = find_line_end(&s, i);
        let ghost before = views_of(all@);
        let ghost after = if end < s.len() {
            files_from(s@, end + 1)
        } else {
            Some(Seq::<Seq<char>>::empty())
        };
        match find_colon(&s, i, end) {
            Some(colon) => {
                match read_files(&s, colon + 2, end) {
                    Some(files) => {
                        let ghost here = views_of(files@);
                        let mut files = files;
                        all.append(&mut files);
                        proof {
                            assert(views_of(all@) =~= before + here);
                            if after is Some {
                                assert((before + here) + after->0 =~= before + (here + after->0));
                            }
                        }
                    },
                    None => {
                        return Err(MalformedDepInfo);
                    },
                }
            },
            None => {
                proof {
                    if after is Some {
                        assert(Seq::<Seq<char>>::empty() + after->0 =~= after->0);
                    }
                }
            },
        }
        if end < s.len() {
            i = end + 1;
        } else {
            i = end;
        }
    }
    let files = distinct_names(&all);
    proof {
        assert(views_of(all@) + Seq::<Seq<char>>::empty() =~= views_of(all@));
        let named = whole->0;
        assert forall|t: Seq<char>| has_text(files@, t) <==> named.contains(t) by {
            if has_text(all@, t) {
                let j = choose|j: int| 0 <= j < all@.len() && (#[trigger] all@[j])@ == t;
                assert(named[j] == t);
            }
            if named.contains(t) {
                let j = choose|j: int| 0 <= j < named.len() && named[j] == t;
                assert(all@[j]@ == t);
            }
        }
    }
    Ok(files)
}

/// The name of a package as it stands in the names of the files that the
/// compiler writes for it: with a low line for each hyphen.
pub open spec fn with_low_lines(name: Seq<char>) -> Seq<char> {
    name.map_values(
        |c: char|
            if c == '-' {
                '_'
            } else {
                c
            },
    )
}

/// The pattern that the names of the dep-info files of a package match
/// within the folder of a build that holds them.
pub fn dep_info_pattern(package_name: &str) -> (pattern: String)
    ensures
        pattern@ == with_low_lines(package_name@) + "-*.d"@,
{
    let name = chars_of(package_name);
    let mut pattern = String::new();
    let mut i: usize = 0;
    while i < name.len()
        invariant
            i <= name.len(),
            name@ == package_name@,
            pattern@ == with_low_lines(name@.take(i as int)),
        decreases name.len() - i,
    {
        let c = if name[i] == '-' {
            '_'
        } else {
            name[i]
        };
        push_char(&mut pattern, c);
        proof {
            assert(with_low_lines(name@.take(i as int + 1)) =~= with_low_lines(
                name@.take(i as int),
            ).push(c));
        }
        i += 1;
    }
    assert(name@.take(i as int) == name@);
    pattern.concat("-*.d")
}

/// The files of a package, and whether they are known to be the files
/// that its build used. With the text of the dep-info file of the package,
/// they are the files that it names, and they are the files used. Without,
/// they are the files in the folder of the package, `every_file`, each
/// once, and which of them are used is not known.
pub fn get_dependency_files(dep_info: Option<&str>, every_file: &Vec<String>) -> (r: Result<
    (bool, Vec<String>),
    MalformedDepInfo,
>)
    ensures
        match (dep_info, r) {
            (Some(text), Ok((used, files))) => {
                &&& used
                &&& dep_info_files(text@) matches Some(named)
                &&& distinct_texts(files@)
                &&& forall|t: Seq<char>| has_text(files@, t) <==> named.contains(t)
            },
            (Some(text), Err(_)) => dep_info_files(text@) is None,
            (None, Ok((used, files))) => {
                &&& !used
                &&& distinct_texts(files@)
                &&& forall|t: Seq<char>| has_text(files@, t) <==> has_text(every_file@, t)
            },
            (None, Err(_)) => false,
        },
{
    match dep_info {
        Some(text) => match parse_rustc_dep_info(text) {
            Ok(files) => Ok((true, files)),
            Err(e) => Err(e),
        },
        None => Ok((false, distinct_names(every_file))),
    }
}

} // verus!
