//! Lists of texts that are read as sets: package names, versions and
//! identities.

use vstd::prelude::*;

verus! {

/// `list` holds the text `t`.
pub open spec fn has_text(list: Seq<String>, t: Seq<char>) -> bool {
    exists|i: int| 0 <= i < list.len() && (#[trigger] list[i])@ == t
}

/// No text occurs twice in `list`.
pub open spec fn distinct_texts(list: Seq<String>) -> bool {
    forall|i: int, j: int|
        0 <= i < list.len() && 0 <= j < list.len() && i != j ==> (#[trigger] list[i])@ != (
        #[trigger] list[j])@
}

/// The texts that `list` holds.
pub open spec fn text_set(list: Seq<String>) -> Set<Seq<char>> {
    Set::new(|t: Seq<char>| has_text(list, t))
}

/// What `list` holds after `name` was added to it.
pub proof fn lemma_text_added(list: Seq<String>, name: String, t: Seq<char>)
    ensures
        has_text(list.push(name), t) <==> has_text(list, t) || t == name@,
{
    let grown = list.push(name);
    if has_text(list, t) {
        let i = choose|i: int| 0 <= i < list.len() && (#[trigger] list[i])@ == t;
        assert(grown[i]@ == t);
    }
    if t == name@ {
        assert(grown[list.len() as int]@ == t);
    }
}

/// Whether `list` holds a text equal to `name`.
pub fn holds_name(list: &Vec<String>, name: &String) -> (found: bool)
    ensures
        found == has_text(list@, name@),
{
    let mut i: usize = 0;
    while i < list.len()
        invariant
            i <= list.len(),
            forall|j: int| 0 <= j < i ==> (#[trigger] list[j])@ != name@,
        decreases list.len() - i,
    {
        if list[i] == *name {
            return true;
        }
        i += 1;
    }
    false
}

/// Adds `name` to `list` unless `list` holds it already.
pub fn add_name(list: &mut Vec<String>, name: &String)
    ensures
        distinct_texts(old(list)@) ==> distinct_texts(final(list)@),
        forall|t: Seq<char>| has_text(final(list)@, t) <==> has_text(old(list)@, t) || t == name@,
        text_set(final(list)@) == text_set(old(list)@).insert(name@),
        final(list)@ == old(list)@ || final(list)@ == old(list)@.push(*name),
{
    if !holds_name(list, name) {
        let ghost before = list@;
        let copy = name.clone();
        list.push(copy);
        proof {
            assert forall|t: Seq<char>| has_text(list@, t) <==> has_text(before, t) || t
                == name@ by {
                lemma_text_added(before, *name, t);
            }
        }
    } else {
        assert forall|t: Seq<char>| has_text(list@, t) <==> has_text(list@, t) || t == name@ by {}
    }
}

/// Adds to `list` every text of `more` that it does not hold already.
pub fn add_names(list: &mut Vec<String>, more: &Vec<String>)
    ensures
        distinct_texts(old(list)@) ==> distinct_texts(final(list)@),
        forall|t: Seq<char>|
            has_text(final(list)@, t) <==> has_text(old(list)@, t) || has_text(more@, t),
        text_set(final(list)@) == text_set(old(list)@) + text_set(more@),
{
    let mut i: usize = 0;
    while i < more.len()
        invariant
            i <= more.len(),
            distinct_texts(old(list)@) ==> distinct_texts(list@),
            forall|t: Seq<char>|
                has_text(list@, t) <==> has_text(old(list)@, t) || has_text(
                    more@.take(i as int),
                    t,
                ),
        decreases more.len() - i,
    {
        let ghost before = list@;
        add_name(list, &more[i]);
        proof {
            assert(more@.take(i as int + 1) == more@.take(i as int).push(more@[i as int]));
            assert forall|t: Seq<char>|
                has_text(list@, t) <==> has_text(old(list)@, t) || has_text(
                    more@.take(i as int + 1),
                    t,
                ) by {
                lemma_text_added(more@.take(i as int), more@[i as int], t);
            }
        }
        i += 1;
    }
    assert(more@.take(i as int) == more@);
}

/// The texts of `more`, each once.
pub fn distinct_names(more: &Vec<String>) -> (list: Vec<String>)
    ensures
        distinct_texts(list@),
        forall|t: Seq<char>| has_text(list@, t) <==> has_text(more@, t),
        text_set(list@) == text_set(more@),
{
    let mut list: Vec<String> = Vec::new();
    add_names(&mut list, more);
    list
}

} // verus!
