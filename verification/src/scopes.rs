//! Finding the theme scope for the name of a capture.

use crate::chars::{chars_of_str, parts_view, same_chars, split, split_chars};
use vstd::prelude::*;

verus! {

/// Whether the parts of the recognized name `name` are the first parts of the capture name
/// `capture`, both split at dots.
pub open spec fn covers_scope(name: Seq<char>, capture: Seq<char>) -> bool {
    let parts = split(name, '.');
    parts.len() <= split(capture, '.').len() && parts == split(capture, '.').take(
        parts.len() as int,
    )
}

/// The first of the recognized names with the most parts that cover the capture name.
pub open spec fn best_scope_of(names: Seq<String>, capture: Seq<char>) -> Option<usize>
    decreases names.len(),
{
    if names.len() == 0 {
        None
    } else {
        let best = best_scope_of(names.drop_last(), capture);
        let name = names.last()@;
        if covers_scope(name, capture) && (best matches Some(best) ==> split(name, '.').len()
            > split(names[best as int]@, '.').len()) {
            Some((names.len() - 1) as usize)
        } else {
            best
        }
    }
}

/// No recognized name that covers the capture has more parts than the one that is chosen, and one
/// is chosen if any covers it.
pub proof fn law_best_scope_is_longest(names: Seq<String>, capture: Seq<char>)
    requires
        names.len() <= usize::MAX,
    ensures
        match best_scope_of(names, capture) {
            Some(best) => {
                &&& best < names.len()
                &&& covers_scope(names[best as int]@, capture)
                &&& forall|i: int|
                    0 <= i < names.len() && covers_scope((#[trigger] names[i])@, capture) ==> split(
                        names[i]@,
                        '.',
                    ).len() <= split(names[best as int]@, '.').len()
                &&& forall|i: int|
                    0 <= i < best && covers_scope((#[trigger] names[i])@, capture) ==> split(
                        names[i]@,
                        '.',
                    ).len() < split(names[best as int]@, '.').len()
            },
            None => forall|i: int|
                0 <= i < names.len() ==> !covers_scope((#[trigger] names[i])@, capture),
        },
    decreases names.len(),
{
    if names.len() > 0 {
        let t = names.drop_last();
        law_best_scope_is_longest(t, capture);
        assert forall|i: int| 0 <= i < t.len() implies #[trigger] names[i] == t[i] by {}
    }
}

/// The index of the recognized name that a capture named `capture_name` is highlighted as: the one
/// with the most dotted parts that are the first parts of the capture's name.
pub fn best_scope(capture_name: &str, recognized_names: &Vec<String>) -> (best: Option<usize>)
    ensures
        best == best_scope_of(recognized_names@, capture_name@),
{
    let ghost names = recognized_names@;
    let ghost capture = capture_name@;
    let capture_chars: Vec<char> = chars_of_str(capture_name);
    let capture_parts: Vec<Vec<char>> = split_chars(&capture_chars, '.');
    let mut best_index: Option<usize> = None;
    let mut best_match_len: usize = 0;
    let mut i: usize = 0;
    while i < recognized_names.len()
        invariant
            names == recognized_names@,
            capture == capture_name@,
            parts_view(capture_parts@) == split(capture, '.'),
            i <= names.len(),
            best_index == best_scope_of(names.take(i as int), capture),
            match best_index {
                Some(best) => best < i && best_match_len == split(names[best as int]@, '.').len(),
                None => best_match_len == 0,
            },
        decreases names.len() - i,
    {
        let name_chars: Vec<char> = chars_of_str(recognized_names[i].as_str());
        let parts: Vec<Vec<char>> = split_chars(&name_chars, '.');
        let ghost name = names[i as int]@;
        let ghost name_parts = split(name, '.');
        let ghost all = split(capture, '.');
        proof {
            assert(names.take(i + 1).drop_last() =~= names.take(i as int));
            assert(parts_view(parts@) == name_parts);
        }
        let mut covers: bool = parts.len() <= capture_parts.len();
        let mut k: usize = 0;
        while covers && k < parts.len()
            invariant
                parts_view(capture_parts@) == all,
                parts_view(parts@) == name_parts,
                parts@.len() == name_parts.len(),
                capture_parts@.len() == all.len(),
                k <= parts@.len(),
                covers ==> parts@.len() <= capture_parts@.len() && forall|m: int|
                    0 <= m < k ==> #[trigger] name_parts[m] == all[m],
                !covers ==> name_parts.len() > all.len() || exists|m: int|
                    0 <= m < name_parts.len() && m < all.len() && #[trigger] name_parts[m]
                        != all[m],
            decreases parts.len() - k, (if covers { 1int } else { 0 }),
        {
            assert(name_parts[k as int] == parts@[k as int]@);
            assert(all[k as int] == capture_parts@[k as int]@);
            if same_chars(&parts[k], &capture_parts[k]) {
                k += 1;
            } else {
                covers = false;
            }
        }
        proof {
            if covers {
                assert(name_parts =~= all.take(name_parts.len() as int));
            } else if name_parts.len() <= all.len() {
                let m = choose|m: int|
                    0 <= m < name_parts.len() && m < all.len() && #[trigger] name_parts[m]
                        != all[m];
                assert(all.take(name_parts.len() as int)[m] == all[m]);
            }
            assert(covers == covers_scope(name, capture));
            if let Some(best) = best_index {
                assert(names.take(i as int)[best as int] == names[best as int]);
            }
        }
        if covers && parts.len() > best_match_len {
            best_index = Some(i);
            best_match_len = parts.len();
        }
        i += 1;
    }
    assert(names.take(i as int) =~= names);
    best_index
}

/// A name covers a capture of the same name, and those with more parts after a dot.
pub proof fn law_names_cover_what_is_below_them(name: Seq<char>, below: Seq<char>)
    ensures
        covers_scope(name, name),
        covers_scope(name, name + seq!['.'] + below),
{
    let parts = split(name, '.');
    assert(parts.take(parts.len() as int) =~= parts);
    crate::chars::lemma_split_joined(name, below, '.', 0);
    let all = split(name + seq!['.'] + below, '.');
    assert(all.take(parts.len() as int) =~= parts);
}

/// Names of one part cover the captures that start with this part, and no others.
pub proof fn law_single_names_cover_their_part(
    name: Seq<char>,
    first: Seq<char>,
    below: Seq<char>,
)
    requires
        !name.contains('.'),
        !first.contains('.'),
    ensures
        covers_scope(name, first) <==> name == first,
        covers_scope(name, first + seq!['.'] + below) <==> name == first,
{
    crate::chars::law_texts_are_split_at_separators(name, below, '.');
    crate::chars::law_texts_are_split_at_separators(first, below, '.');
    let parts = split(first + seq!['.'] + below, '.');
    assert(parts.take(1) =~= seq![first]);
    assert(seq![first].take(1) =~= seq![first]);
    if seq![name] == seq![first] {
        assert(seq![name][0] == seq![first][0]);
    }
}

} // verus!
