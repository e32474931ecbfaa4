//! Encoded lists: an ordered sequence of strings written as one string, its
//! elements set apart by a separator.
//!
//! `joined` says what the encoding of a sequence is, `pieces` what a string
//! decodes to. Decoding an encoding gives the sequence back only where no
//! separator can be found earlier than the one that was written; the laws in
//! this file say exactly when.

use vstd::prelude::*;
use vstd::string::StringExecFns;
use vstd::string::StrSliceExecFns;
use crate::text::{
    characters, contains, leftmost, lemma_leftmost, lemma_leftmost_unique,
    lemma_occurs_in_prefix, lemma_occurs_in_suffix, matches_at, occurs_at,
};

verus! {

/// The separator that `set_list` and `get_list` of an environment use.
pub const DEFAULT_SEPARATOR: &'static str = ";";

/// The elements of `pieces` written one after the other, with `separator`
/// between each two neighbours. No element gives the empty string.
pub open spec fn joined(pieces: Seq<Seq<char>>, separator: Seq<char>) -> Seq<char>
    decreases pieces.len(),
{
    if pieces.len() == 0 {
        Seq::empty()
    } else if pieces.len() == 1 {
        pieces[0]
    } else {
        pieces[0] + separator + joined(pieces.skip(1), separator)
    }
}

/// Each character of `text` as a string of its own.
pub open spec fn singles(text: Seq<char>) -> Seq<Seq<char>> {
    Seq::new(text.len(), |i: int| seq![text[i]])
}

/// What `text` decodes to. With a separator that is not empty: the text
/// before the leftmost separator, then what the text behind that separator
/// decodes to; a text without separator is its own single element. With the
/// empty separator: an empty string, each character on its own, and an empty
/// string.
pub open spec fn pieces(text: Seq<char>, separator: Seq<char>) -> Seq<Seq<char>>
    decreases text.len(),
{
    if separator.len() == 0 {
        seq![Seq::empty()] + singles(text) + seq![Seq::empty()]
    } else if !contains(text, separator) {
        seq![text]
    } else {
        proof {
            lemma_leftmost(text, separator);
        }
        let at = leftmost(text, separator);
        seq![text.take(at)] + pieces(text.skip(at + separator.len()), separator)
    }
}

/// `separator`, written behind `piece`, would be found too early: it lies in
/// `piece + separator` at an index inside `piece`. This holds where `piece`
/// contains the separator, and also where an end of `piece` and a beginning of
/// the separator make up a separator between them, as `"a"` and `"aa"` do.
pub open spec fn found_early(piece: Seq<char>, separator: Seq<char>) -> bool {
    exists|at: int| 0 <= at < piece.len() && occurs_at(piece + separator, separator, at)
}

/// No element of `values` contains `separator`.
pub open spec fn contains_none(values: Seq<Seq<char>>, separator: Seq<char>) -> bool {
    forall|i: int| 0 <= i < values.len() ==> !contains(#[trigger] values[i], separator)
}

/// Decoding the encoding of `values` gives `values` back: no element but the
/// last lets the separator be found early, and the last does not contain it.
pub open spec fn decodable(values: Seq<Seq<char>>, separator: Seq<char>) -> bool {
    &&& values.len() > 0
    &&& separator.len() > 0
    &&& forall|i: int| 0 <= i < values.len() - 1 ==> !found_early(#[trigger] values[i], separator)
    &&& !contains(values.last(), separator)
}

/// Encoding one element more: the element alone where there was none before,
/// else the separator and the element behind what was there.
pub proof fn lemma_joined_push(values: Seq<Seq<char>>, last: Seq<char>, separator: Seq<char>)
    ensures
        joined(values.push(last), separator) == if values.len() == 0 {
            last
        } else {
            joined(values, separator) + separator + last
        },
    decreases values.len(),
{
    let longer = values.push(last);
    if values.len() == 0 {
    } else if values.len() == 1 {
        assert(longer.skip(1) =~= seq![last]);
        assert(joined(seq![last], separator) == last);
    } else {
        assert(longer.skip(1) =~= values.skip(1).push(last));
        lemma_joined_push(values.skip(1), last, separator);
        assert(joined(longer, separator) =~= joined(values, separator) + separator + last);
    }
}

/// A text decodes to at least one element.
pub proof fn lemma_pieces_not_empty(text: Seq<char>, separator: Seq<char>)
    ensures
        pieces(text, separator).len() >= 1,
{
}

/// The empty text decodes to one empty element, whatever the separator,
/// unless that is empty too.
pub proof fn lemma_pieces_of_empty(separator: Seq<char>)
    requires
        separator.len() > 0,
    ensures
        pieces(Seq::empty(), separator) == seq![Seq::<char>::empty()],
{
    assert(!contains(Seq::empty(), separator));
}

proof fn lemma_joined_singles(text: Seq<char>, upto: int)
    requires
        0 <= upto <= text.len(),
    ensures
        joined(seq![Seq::empty()] + singles(text.take(upto)), Seq::empty()) == text.take(upto),
    decreases upto,
{
    let none = Seq::<char>::empty();
    if upto == 0 {
        assert(seq![none] + singles(text.take(0)) =~= seq![none]);
        assert(text.take(0) =~= none);
    } else {
        lemma_joined_singles(text, upto - 1);
        let shorter = seq![none] + singles(text.take(upto - 1));
        assert(seq![none] + singles(text.take(upto)) =~= shorter.push(seq![text[upto - 1]]));
        lemma_joined_push(shorter, seq![text[upto - 1]], none);
        assert(text.take(upto - 1) + none + seq![text[upto - 1]] =~= text.take(upto));
    }
}

/// Encoding what a text decodes to gives the text back, for every text and
/// every separator.
pub proof fn lemma_joined_pieces(text: Seq<char>, separator: Seq<char>)
    ensures
        joined(pieces(text, separator), separator) == text,
    decreases text.len(),
{
    if separator.len() == 0 {
        let none = Seq::<char>::empty();
        lemma_joined_singles(text, text.len() as int);
        assert(text.take(text.len() as int) =~= text);
        let front = seq![none] + singles(text);
        assert(pieces(text, separator) =~= front.push(none));
        assert(separator =~= none);
        lemma_joined_push(front, none, none);
        assert(text + none + none =~= text);
    } else if !contains(text, separator) {
    } else {
        lemma_leftmost(text, separator);
        let at = leftmost(text, separator);
        let behind = text.skip(at + separator.len());
        lemma_joined_pieces(behind, separator);
        lemma_pieces_not_empty(behind, separator);
        let all = seq![text.take(at)] + pieces(behind, separator);
        assert(all.skip(1) =~= pieces(behind, separator));
        assert(text.take(at) + separator + behind =~= text);
    }
}

/// The encoding of two or more elements has its leftmost separator right
/// behind the first element exactly where the first element does not let the
/// separator be found early.
proof fn lemma_first_separator(values: Seq<Seq<char>>, separator: Seq<char>)
    requires
        values.len() >= 2,
        separator.len() > 0,
    ensures
        contains(joined(values, separator), separator),
        leftmost(joined(values, separator), separator) <= values[0].len(),
        leftmost(joined(values, separator), separator) == values[0].len() <==> !found_early(
            values[0],
            separator,
        ),
{
    let first = values[0];
    let text = joined(values, separator);
    let written = first + separator;
    assert(text.subrange(first.len() as int, (first.len() + separator.len()) as int) =~= separator);
    assert(occurs_at(text, separator, first.len() as int));
    lemma_leftmost(text, separator);
    assert(text.take(written.len() as int) =~= written);
    assert forall|at: int| 0 <= at < first.len() implies (occurs_at(text, separator, at)
        <==> occurs_at(written, separator, at)) by {
        lemma_occurs_in_prefix(text, separator, written.len() as int, at);
    }
    if found_early(first, separator) {
        let at = choose|at: int| 0 <= at < first.len() && occurs_at(written, separator, at);
        assert(occurs_at(text, separator, at));
    }
}

proof fn lemma_decodable_round_trip(values: Seq<Seq<char>>, separator: Seq<char>)
    requires
        decodable(values, separator),
    ensures
        pieces(joined(values, separator), separator) == values,
    decreases values.len(),
{
    if values.len() == 1 {
        assert(values =~= seq![values[0]]);
    } else {
        let first = values[0];
        let others = values.skip(1);
        let text = joined(values, separator);
        lemma_first_separator(values, separator);
        assert(others.last() == values.last());
        assert forall|i: int| 0 <= i < others.len() - 1 implies !found_early(
            #[trigger] others[i],
            separator,
        ) by {
            assert(others[i] == values[i + 1]);
        }
        lemma_decodable_round_trip(others, separator);
        assert(text.take(first.len() as int) =~= first);
        assert(text.skip((first.len() + separator.len()) as int) =~= joined(others, separator));
        assert(seq![first] + others =~= values);
    }
}

proof fn lemma_round_trip_decodable(values: Seq<Seq<char>>, separator: Seq<char>)
    requires
        values.len() > 0,
        separator.len() > 0,
        pieces(joined(values, separator), separator) == values,
    ensures
        decodable(values, separator),
    decreases values.len(),
{
    let text = joined(values, separator);
    if values.len() == 1 {
        if contains(text, separator) {
            lemma_leftmost(text, separator);
            lemma_pieces_not_empty(
                text.skip(leftmost(text, separator) + separator.len()),
                separator,
            );
        }
    } else {
        let first = values[0];
        let others = values.skip(1);
        lemma_first_separator(values, separator);
        let at = leftmost(text, separator);
        let behind = pieces(text.skip(at + separator.len()), separator);
        assert(pieces(text, separator) == seq![text.take(at)] + behind);
        assert((seq![text.take(at)] + behind)[0] == text.take(at));
        assert(text.take(at) == first);
        lemma_leftmost(text, separator);
        assert(text.take(at).len() == at);
        assert((seq![text.take(at)] + behind).skip(1) =~= behind);
        assert(behind == others);
        assert(text.skip(at + separator.len()) =~= joined(others, separator));
        lemma_round_trip_decodable(others, separator);
        assert(others.last() == values.last());
        assert forall|i: int| 0 <= i < values.len() - 1 implies !found_early(
            #[trigger] values[i],
            separator,
        ) by {
            if i > 0 {
                assert(values[i] == others[i - 1]);
            }
        }
    }
}

/// When decoding undoes encoding: for one element or more and a separator
/// that is not empty, decoding the encoding of `values` gives `values` back
/// exactly where `values` is `decodable`.
pub proof fn lemma_round_trip_exact(values: Seq<Seq<char>>, separator: Seq<char>)
    requires
        values.len() > 0,
        separator.len() > 0,
    ensures
        pieces(joined(values, separator), separator) == values <==> decodable(values, separator),
{
    if decodable(values, separator) {
        lemma_decodable_round_trip(values, separator);
    }
    if pieces(joined(values, separator), separator) == values {
        lemma_round_trip_decodable(values, separator);
    }
}

/// Every text contains the empty pattern.
pub proof fn lemma_contains_empty(text: Seq<char>)
    ensures
        contains(text, Seq::empty()),
{
    assert(text.subrange(0, 0) =~= Seq::<char>::empty());
    assert(occurs_at(text, Seq::empty(), 0));
}

/// With a separator of one character, a piece that does not contain the
/// separator does not let it be found early.
pub proof fn lemma_single_character_separator(piece: Seq<char>, separator: Seq<char>)
    requires
        separator.len() == 1,
        !contains(piece, separator),
    ensures
        !found_early(piece, separator),
{
    assert forall|at: int| 0 <= at < piece.len() implies !occurs_at(
        piece + separator,
        separator,
        at,
    ) by {
        lemma_occurs_in_prefix(piece + separator, separator, piece.len() as int, at);
        assert((piece + separator).take(piece.len() as int) =~= piece);
    }
}

/// Round trip: the encoding of one element or more, none of which contains
/// the separator and none of which but the last lets it be found early,
/// decodes to the same elements in the same order.
pub proof fn lemma_round_trip(values: Seq<Seq<char>>, separator: Seq<char>)
    requires
        values.len() > 0,
        contains_none(values, separator),
        forall|i: int| 0 <= i < values.len() - 1 ==> !found_early(#[trigger] values[i], separator),
    ensures
        pieces(joined(values, separator), separator) == values,
{
    if separator.len() == 0 {
        lemma_contains_empty(values[0]);
        assert(separator =~= Seq::<char>::empty());
    }
    lemma_decodable_round_trip(values, separator);
}

/// Round trip with a separator of one character: the encoding of one element
/// or more, none of which contains the separator, decodes to the same elements
/// in the same order.
pub proof fn lemma_round_trip_single_character(values: Seq<Seq<char>>, separator: Seq<char>)
    requires
        values.len() > 0,
        separator.len() == 1,
        contains_none(values, separator),
    ensures
        pieces(joined(values, separator), separator) == values,
{
    assert forall|i: int| 0 <= i < values.len() - 1 implies !found_early(
        #[trigger] values[i],
        separator,
    ) by {
        lemma_single_character_separator(values[i], separator);
    }
    lemma_round_trip(values, separator);
}

/// Encodes `values`: writes them one after the other with `separator`
/// between each two neighbours.
pub fn join(values: &Vec<String>, separator: &str) -> (text: String)
    ensures
        text@ == joined(values.deep_view(), separator@),
{
    let ghost all = values.deep_view();
    let mut text = String::new();
    let mut i: usize = 0;
    while i < values.len()
        invariant
            i <= values.len(),
            all == values.deep_view(),
            text@ == joined(all.take(i as int), separator@),
        decreases values.len() - i,
    {
        if i > 0 {
            text.append(separator);
        }
        text.append(values[i].as_str());
        proof {
            lemma_joined_push(all.take(i as int), all[i as int], separator@);
            assert(all.take(i + 1) =~= all.take(i as int).push(all[i as int]));
        }
        i += 1;
    }
    assert(all.take(values.len() as int) =~= all);
    text
}

/// Decodes `text` with the empty separator: an empty string, each character
/// on its own, and an empty string.
fn split_characters(text: &str) -> (list: Vec<String>)
    ensures
        list.deep_view() == seq![Seq::empty()] + singles(text@) + seq![Seq::empty()],
{
    let count = text.unicode_len();
    let mut list: Vec<String> = Vec::new();
    list.push(String::new());
    let mut i: usize = 0;
    while i < count
        invariant
            i <= count,
            count == text@.len(),
            list@.len() == i + 1,
            list@[0]@ == Seq::<char>::empty(),
            forall|k: int| 0 <= k < i ==> (#[trigger] list@[k + 1])@ == seq![text@[k]],
        decreases count - i,
    {
        let one = text.substring_char(i, i + 1);
        assert(one@ =~= seq![text@[i as int]]);
        list.push(one.to_owned());
        i += 1;
    }
    list.push(String::new());
    assert(list.deep_view() =~= seq![Seq::empty()] + singles(text@) + seq![Seq::empty()]) by {
        assert forall|k: int| 0 <= k < list@.len() implies list.deep_view()[k] == (seq![
            Seq::empty(),
        ] + singles(text@) + seq![Seq::empty()])[k] by {
            if 0 < k <= count {
                assert(list@[(k - 1) + 1]@ == seq![text@[k - 1]]);
            }
        }
    }
    list
}

/// Decodes `text`: cuts it at each separator, leftmost first, and returns
/// what lies between them, in order. Each element is copied out of `text` by
/// its character indices, which takes time in proportion to the length of
/// `text` for each element.
pub fn split(text: &str, separator: &str) -> (list: Vec<String>)
    ensures
        list.deep_view() == pieces(text@, separator@),
{
    let pattern = characters(separator);
    if pattern.len() == 0 {
        return split_characters(text);
    }
    let chars = characters(text);
    let mut list: Vec<String> = Vec::new();
    let mut start: usize = 0;
    let mut at: usize = 0;
    proof {
        assert(text@.skip(0) =~= text@);
        assert(list.deep_view() + pieces(text@, separator@) =~= pieces(text@, separator@));
    }
    while pattern.len() <= chars.len() - at
        invariant
            chars@ == text@,
            pattern@ == separator@,
            pattern@.len() > 0,
            start <= at <= chars@.len(),
            forall|j: int| start <= j < at ==> !occurs_at(text@, separator@, j),
            pieces(text@, separator@) == list.deep_view() + pieces(
                text@.skip(start as int),
                separator@,
            ),
        decreases chars@.len() - at,
    {
        if matches_at(&chars, &pattern, at) {
            let piece = text.substring_char(start, at);
            let ghost before = list.deep_view();
            let ghost rest = text@.skip(start as int);
            let next = at + pattern.len();
            proof {
                assert forall|j: int| 0 <= j < at - start implies !occurs_at(
                    rest,
                    separator@,
                    j,
                ) by {
                    lemma_occurs_in_suffix(text@, separator@, start as int, j);
                }
                lemma_occurs_in_suffix(text@, separator@, start as int, at - start);
                lemma_leftmost_unique(rest, separator@, at - start);
                assert(rest.take(at - start) =~= piece@);
                assert(rest.skip(at - start + separator@.len()) =~= text@.skip(next as int));
            }
            list.push(piece.to_owned());
            assert(list.deep_view() =~= before.push(piece@));
            assert(before.push(piece@) + pieces(text@.skip(next as int), separator@) =~= before + (
            seq![piece@] + pieces(text@.skip(next as int), separator@)));
            at = next;
            start = next;
        } else {
            at += 1;
        }
    }
    let last = text.substring_char(start, chars.len());
    let ghost before = list.deep_view();
    proof {
        let rest = text@.skip(start as int);
        assert forall|j: int| !occurs_at(rest, separator@, j) by {
            lemma_occurs_in_suffix(text@, separator@, start as int, j);
        }
        assert(rest =~= last@);
    }
    list.push(last.to_owned());
    assert(list.deep_view() =~= before.push(last@));
    assert(before.push(last@) =~= before + seq![last@]);
    list
}

} // verus!
