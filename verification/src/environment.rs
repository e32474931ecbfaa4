//! The environment block: a mapping from keys to values, both strings, with
//! the accessors built on it.
//!
//! An `Environment` is viewed as a `Map<Seq<char>, Seq<char>>`. A key is bound
//! to at most one value, and a key bound to the empty string is bound.

use vstd::prelude::*;
use crate::boolean::{bool_to_string, decoded, encoded, lemma_decoded_encoded, string_to_bool};
use crate::list::{join, joined, pieces, split, DEFAULT_SEPARATOR};
use crate::text::same_text;

verus! {

/// The value that `key` is bound to in `bindings`, if it is bound.
pub open spec fn value_of(bindings: Map<Seq<char>, Seq<char>>, key: Seq<char>) -> Option<
    Seq<char>,
> {
    if bindings.contains_key(key) {
        Some(bindings[key])
    } else {
        None
    }
}

/// The value that `key` is bound to in `bindings`, or `default_value` where it
/// is not bound.
pub open spec fn value_or(
    bindings: Map<Seq<char>, Seq<char>>,
    key: Seq<char>,
    default_value: Seq<char>,
) -> Seq<char> {
    match value_of(bindings, key) {
        Some(value) => value,
        None => default_value,
    }
}

/// The flag that the value of `key` stands for in `bindings`, or
/// `default_value` where the key is not bound.
pub open spec fn flag_or(
    bindings: Map<Seq<char>, Seq<char>>,
    key: Seq<char>,
    default_value: bool,
) -> bool {
    match value_of(bindings, key) {
        Some(value) => decoded(value),
        None => default_value,
    }
}

/// What the value of `key` decodes to in `bindings`, if the key is bound.
pub open spec fn list_of(
    bindings: Map<Seq<char>, Seq<char>>,
    key: Seq<char>,
    separator: Seq<char>,
) -> Option<Seq<Seq<char>>> {
    match value_of(bindings, key) {
        Some(value) => Some(pieces(value, separator)),
        None => None,
    }
}

/// `bindings` after `key` was given an optional value: bound to the value
/// where there is one, unchanged where there is none.
pub open spec fn with_optional(
    bindings: Map<Seq<char>, Seq<char>>,
    key: Seq<char>,
    value: Option<Seq<char>>,
) -> Map<Seq<char>, Seq<char>> {
    match value {
        Some(text) => bindings.insert(key, text),
        None => bindings,
    }
}

/// `bindings` after `key` was given a list: bound to the encoding of `values`
/// where there is an element, unchanged where there is none.
pub open spec fn with_list(
    bindings: Map<Seq<char>, Seq<char>>,
    key: Seq<char>,
    values: Seq<Seq<char>>,
    separator: Seq<char>,
) -> Map<Seq<char>, Seq<char>> {
    if values.len() == 0 {
        bindings
    } else {
        bindings.insert(key, joined(values, separator))
    }
}

/// Whether `list` names every binding of `bindings` once, and nothing else.
pub open spec fn enumerates(
    list: Seq<(Seq<char>, Seq<char>)>,
    bindings: Map<Seq<char>, Seq<char>>,
) -> bool {
    &&& forall|i: int|
        0 <= i < list.len() ==> bindings.contains_pair((#[trigger] list[i]).0, list[i].1)
    &&& forall|i: int, j: int| 0 <= i < j < list.len() ==> list[i].0 != list[j].0
    &&& forall|key: Seq<char>| #[trigger]
        bindings.contains_key(key) ==> exists|i: int| 0 <= i < list.len() && list[i].0 == key
}

/// No key stands twice in `pairs`.
spec fn distinct(pairs: Seq<(Seq<char>, Seq<char>)>) -> bool {
    forall|i: int, j: int| 0 <= i < j < pairs.len() ==> pairs[i].0 != pairs[j].0
}

/// `key` stands in `pairs` at index `at`.
spec fn stands_at(pairs: Seq<(Seq<char>, Seq<char>)>, key: Seq<char>, at: int) -> bool {
    0 <= at < pairs.len() && pairs[at].0 == key
}

/// The mapping that `pairs` spells out.
spec fn bindings_of(pairs: Seq<(Seq<char>, Seq<char>)>) -> Map<Seq<char>, Seq<char>> {
    Map::new(
        |key: Seq<char>| exists|at: int| stands_at(pairs, key, at),
        |key: Seq<char>| pairs[choose|at: int| stands_at(pairs, key, at)].1,
    )
}

proof fn lemma_binding(pairs: Seq<(Seq<char>, Seq<char>)>, at: int)
    requires
        distinct(pairs),
        0 <= at < pairs.len(),
    ensures
        bindings_of(pairs).contains_pair(pairs[at].0, pairs[at].1),
{
    assert(stands_at(pairs, pairs[at].0, at));
}

proof fn lemma_unbound(pairs: Seq<(Seq<char>, Seq<char>)>, key: Seq<char>)
    requires
        forall|at: int| 0 <= at < pairs.len() ==> (#[trigger] pairs[at]).0 != key,
    ensures
        !bindings_of(pairs).contains_key(key),
{
}

proof fn lemma_replace(pairs: Seq<(Seq<char>, Seq<char>)>, at: int, value: Seq<char>)
    requires
        distinct(pairs),
        0 <= at < pairs.len(),
    ensures
        distinct(pairs.update(at, (pairs[at].0, value))),
        bindings_of(pairs.update(at, (pairs[at].0, value))) == bindings_of(pairs).insert(
            pairs[at].0,
            value,
        ),
{
    let key = pairs[at].0;
    let after = pairs.update(at, (key, value));
    assert forall|other: Seq<char>| #[trigger]
        bindings_of(after).contains_key(other) <==> bindings_of(pairs).insert(
            key,
            value,
        ).contains_key(other) by {
        if bindings_of(after).contains_key(other) {
            let i = choose|i: int| stands_at(after, other, i);
            assert(stands_at(pairs, other, i));
        }
        if bindings_of(pairs).contains_key(other) {
            let i = choose|i: int| stands_at(pairs, other, i);
            assert(stands_at(after, other, i));
        }
        assert(stands_at(after, key, at));
    }
    assert forall|other: Seq<char>| #[trigger]
        bindings_of(after).contains_key(other) implies bindings_of(after)[other] == bindings_of(
        pairs,
    ).insert(key, value)[other] by {
        let i = choose|i: int| stands_at(after, other, i);
        if other == key {
            assert(i == at);
        } else {
            assert(stands_at(pairs, other, i));
            lemma_binding(pairs, i);
        }
    }
    assert(bindings_of(after) =~= bindings_of(pairs).insert(key, value));
}

proof fn lemma_append(pairs: Seq<(Seq<char>, Seq<char>)>, key: Seq<char>, value: Seq<char>)
    requires
        distinct(pairs),
        !bindings_of(pairs).contains_key(key),
    ensures
        distinct(pairs.push((key, value))),
        bindings_of(pairs.push((key, value))) == bindings_of(pairs).insert(key, value),
{
    let after = pairs.push((key, value));
    assert forall|at: int| 0 <= at < pairs.len() implies (#[trigger] pairs[at]).0 != key by {
        if pairs[at].0 == key {
            assert(stands_at(pairs, key, at));
        }
    }
    assert forall|other: Seq<char>| #[trigger]
        bindings_of(after).contains_key(other) <==> bindings_of(pairs).insert(
            key,
            value,
        ).contains_key(other) by {
        if bindings_of(after).contains_key(other) {
            let i = choose|i: int| stands_at(after, other, i);
            if i < pairs.len() {
                assert(stands_at(pairs, other, i));
            }
        }
        if bindings_of(pairs).contains_key(other) {
            let i = choose|i: int| stands_at(pairs, other, i);
            assert(stands_at(after, other, i));
        }
        assert(stands_at(after, key, pairs.len() as int));
    }
    assert forall|other: Seq<char>| #[trigger]
        bindings_of(after).contains_key(other) implies bindings_of(after)[other] == bindings_of(
        pairs,
    ).insert(key, value)[other] by {
        let i = choose|i: int| stands_at(after, other, i);
        if other != key {
            assert(stands_at(pairs, other, i));
            lemma_binding(pairs, i);
        }
    }
    assert(bindings_of(after) =~= bindings_of(pairs).insert(key, value));
}

proof fn lemma_take_out(pairs: Seq<(Seq<char>, Seq<char>)>, at: int)
    requires
        distinct(pairs),
        0 <= at < pairs.len(),
    ensures
        distinct(pairs.remove(at)),
        bindings_of(pairs.remove(at)) == bindings_of(pairs).remove(pairs[at].0),
{
    let key = pairs[at].0;
    let after = pairs.remove(at);
    assert forall|other: Seq<char>| #[trigger]
        bindings_of(after).contains_key(other) <==> bindings_of(pairs).remove(key).contains_key(
            other,
        ) by {
        if bindings_of(after).contains_key(other) {
            let i = choose|i: int| stands_at(after, other, i);
            if i < at {
                assert(stands_at(pairs, other, i));
            } else {
                assert(stands_at(pairs, other, i + 1));
            }
        }
        if bindings_of(pairs).contains_key(other) && other != key {
            let i = choose|i: int| stands_at(pairs, other, i);
            if i < at {
                assert(stands_at(after, other, i));
            } else {
                assert(stands_at(after, other, i - 1));
            }
        }
    }
    assert forall|other: Seq<char>| #[trigger]
        bindings_of(after).contains_key(other) implies bindings_of(after)[other] == bindings_of(
        pairs,
    ).remove(key)[other] by {
        let i = choose|i: int| stands_at(after, other, i);
        if i < at {
            lemma_binding(pairs, i);
        } else {
            lemma_binding(pairs, i + 1);
        }
    }
    assert(bindings_of(after) =~= bindings_of(pairs).remove(key));
}

proof fn lemma_enumerates(pairs: Seq<(Seq<char>, Seq<char>)>)
    requires
        distinct(pairs),
    ensures
        enumerates(pairs, bindings_of(pairs)),
{
    assert forall|i: int| 0 <= i < pairs.len() implies bindings_of(pairs).contains_pair(
        (#[trigger] pairs[i]).0,
        pairs[i].1,
    ) by {
        lemma_binding(pairs, i);
    }
    assert forall|key: Seq<char>| #[trigger] bindings_of(pairs).contains_key(key) implies exists|
        i: int,
    |
        0 <= i < pairs.len() && pairs[i].0 == key by {
        let i = choose|i: int| stands_at(pairs, key, i);
        assert(0 <= i < pairs.len() && pairs[i].0 == key);
    }
}

/// An environment block held in memory.
pub struct Environment {
    entries: Vec<(String, String)>,
}

impl View for Environment {
    type V = Map<Seq<char>, Seq<char>>;

    closed spec fn view(&self) -> Map<Seq<char>, Seq<char>> {
        bindings_of(self.entries.deep_view())
    }
}

impl Environment {
    #[verifier::type_invariant]
    spec fn well_formed(&self) -> bool {
        distinct(self.entries.deep_view())
    }

    /// An environment in which no key is bound.
    pub fn new() -> (environment: Environment)
        ensures
            environment@ == Map::<Seq<char>, Seq<char>>::empty(),
    {
        let environment = Environment { entries: Vec::new() };
        assert(environment@ =~= Map::<Seq<char>, Seq<char>>::empty());
        environment
    }

    /// Where `key` stands among the entries.
    fn position(&self, key: &str) -> (found: Option<usize>)
        ensures
            match found {
                Some(at) => stands_at(self.entries.deep_view(), key@, at as int),
                None => !self@.contains_key(key@),
            },
    {
        let mut at: usize = 0;
        while at < self.entries.len()
            invariant
                at <= self.entries.len(),
                forall|i: int| 0 <= i < at ==> (#[trigger] self.entries.deep_view()[i]).0 != key@,
            decreases self.entries.len() - at,
        {
            if same_text(self.entries[at].0.as_str(), key) {
                return Some(at);
            }
            at += 1;
        }
        proof {
            lemma_unbound(self.entries.deep_view(), key@);
        }
        None
    }

    /// Whether `key` is bound.
    pub fn is_bound(&self, key: &str) -> (bound: bool)
        ensures
            bound == self@.contains_key(key@),
    {
        proof {
            use_type_invariant(self);
        }
        match self.position(key) {
            Some(at) => {
                proof {
                    lemma_binding(self.entries.deep_view(), at as int);
                }
                true
            },
            None => false,
        }
    }

    /// The value that `key` is bound to, if it is bound.
    pub fn get(&self, key: &str) -> (value: Option<String>)
        ensures
            value.deep_view() == value_of(self@, key@),
    {
        proof {
            use_type_invariant(self);
        }
        match self.position(key) {
            Some(at) => {
                proof {
                    lemma_binding(self.entries.deep_view(), at as int);
                }
                Some(self.entries[at].1.clone())
            },
            None => None,
        }
    }

    /// Binds `key` to `value`, in place of what it was bound to, if anything.
    pub fn set(&mut self, key: &str, value: &str)
        ensures
            final(self)@ == old(self)@.insert(key@, value@),
    {
        proof {
            use_type_invariant(&*self);
        }
        let found = self.position(key);
        let ghost before = self.entries.deep_view();
        let mut entries: Vec<(String, String)> = Vec::new();
        std::mem::swap(&mut entries, &mut self.entries);
        match found {
            Some(at) => {
                entries.set(at, (key.to_owned(), value.to_owned()));
                proof {
                    lemma_replace(before, at as int, value@);
                    assert(entries.deep_view() =~= before.update(at as int, (key@, value@)));
                }
            },
            None => {
                entries.push((key.to_owned(), value.to_owned()));
                proof {
                    lemma_append(before, key@, value@);
                    assert(entries.deep_view() =~= before.push((key@, value@)));
                }
            },
        }
        self.entries = entries;
    }

    /// Unbinds `key`. Nothing changes where it was not bound.
    pub fn remove(&mut self, key: &str)
        ensures
            final(self)@ == old(self)@.remove(key@),
    {
        let _ = self.get_remove(key);
    }

    /// Unbinds `key` and returns the value that it was bound to, if it was.
    pub fn get_remove(&mut self, key: &str) -> (value: Option<String>)
        ensures
            value.deep_view() == value_of(old(self)@, key@),
            final(self)@ == old(self)@.remove(key@),
    {
        proof {
            use_type_invariant(&*self);
        }
        match self.position(key) {
            Some(at) => {
                let ghost before = self.entries.deep_view();
                let mut entries: Vec<(String, String)> = Vec::new();
                std::mem::swap(&mut entries, &mut self.entries);
                let entry = entries.remove(at);
                proof {
                    lemma_binding(before, at as int);
                    lemma_take_out(before, at as int);
                    assert(entries.deep_view() =~= before.remove(at as int));
                }
                self.entries = entries;
                Some(entry.1)
            },
            None => {
                assert(self@ =~= self@.remove(key@));
                None
            },
        }
    }

    /// The value that `key` is bound to, or `default_value` where it is not
    /// bound.
    pub fn get_or(&self, key: &str, default_value: &str) -> (value: String)
        ensures
            value@ == value_or(self@, key@, default_value@),
    {
        match self.get(key) {
            Some(value) => value,
            None => default_value.to_owned(),
        }
    }

    /// The value that `key` is bound to. The key must be bound: ask
    /// `is_bound`, or call `get`, where that is not known.
    pub fn get_or_panic(&self, key: &str) -> (value: String)
        requires
            self@.contains_key(key@),
        ensures
            value@ == self@[key@],
    {
        self.get_or(key, "")
    }

    /// The flag that the value of `key` stands for, or `default_value` where
    /// the key is not bound.
    pub fn is_or(&self, key: &str, default_value: bool) -> (flag: bool)
        ensures
            flag == flag_or(self@, key@, default_value),
    {
        let default_text = bool_to_string(default_value);
        let value = self.get_or(key, default_text.as_str());
        proof {
            lemma_decoded_encoded(default_value);
        }
        string_to_bool(value.as_str())
    }

    /// The flag that the value of `key` stands for, or `false` where the key
    /// is not bound.
    pub fn is(&self, key: &str) -> (flag: bool)
        ensures
            flag == flag_or(self@, key@, false),
    {
        self.is_or(key, false)
    }

    /// Binds `key` to the string that stands for `value`.
    pub fn set_bool(&mut self, key: &str, value: bool)
        ensures
            final(self)@ == old(self)@.insert(key@, encoded(value)),
    {
        let text = bool_to_string(value);
        self.set(key, text.as_str());
    }

    /// Binds `key` to the value where there is one, and says whether it did.
    /// Without a value nothing changes.
    pub fn set_optional(&mut self, key: &str, value: &Option<&str>) -> (bound: bool)
        ensures
            bound == value.is_some(),
            final(self)@ == with_optional(old(self)@, key@, value.deep_view()),
    {
        match value {
            Some(text) => {
                self.set(key, text);
                true
            },
            None => false,
        }
    }

    /// Binds `key` to `value` and returns the value that it was bound to
    /// before, if it was bound.
    pub fn get_set(&mut self, key: &str, value: &str) -> (previous: Option<String>)
        ensures
            previous.deep_view() == value_of(old(self)@, key@),
            final(self)@ == old(self)@.insert(key@, value@),
    {
        let previous = self.get(key);
        self.set(key, value);
        previous
    }

    /// Every binding, as a pair of key and value.
    pub fn vars(&self) -> (list: Vec<(String, String)>)
        ensures
            enumerates(list.deep_view(), self@),
    {
        proof {
            use_type_invariant(self);
        }
        let ghost pairs = self.entries.deep_view();
        let mut list: Vec<(String, String)> = Vec::new();
        let mut i: usize = 0;
        while i < self.entries.len()
            invariant
                i <= self.entries.len(),
                pairs == self.entries.deep_view(),
                list.deep_view() == pairs.take(i as int),
            decreases self.entries.len() - i,
        {
            let ghost before = list.deep_view();
            list.push((self.entries[i].0.clone(), self.entries[i].1.clone()));
            assert(list.deep_view() =~= before.push(pairs[i as int]));
            assert(pairs.take(i + 1) =~= pairs.take(i as int).push(pairs[i as int]));
            i += 1;
        }
        proof {
            assert(pairs.take(self.entries.len() as int) =~= pairs);
            lemma_enumerates(pairs);
        }
        list
    }

    /// Whether `key` is bound to exactly `value`.
    pub fn is_equal(&self, key: &str, value: &str) -> (equal: bool)
        ensures
            equal == self@.contains_pair(key@, value@),
    {
        match self.get(key) {
            Some(current) => same_text(current.as_str(), value),
            None => false,
        }
    }

    /// Binds `key` to the encoding of `values` with the default separator.
    /// Without elements nothing changes.
    pub fn set_list(&mut self, key: &str, values: &Vec<String>)
        ensures
            final(self)@ == with_list(old(self)@, key@, values.deep_view(), DEFAULT_SEPARATOR@),
    {
        self.set_list_with_separator(key, values, DEFAULT_SEPARATOR)
    }

    /// What the value of `key` decodes to with the default separator, if the
    /// key is bound.
    pub fn get_list(&self, key: &str) -> (list: Option<Vec<String>>)
        ensures
            list.deep_view() == list_of(self@, key@, DEFAULT_SEPARATOR@),
    {
        self.get_list_with_separator(key, DEFAULT_SEPARATOR)
    }

    /// Binds `key` to the encoding of `values` with `separator`. Without
    /// elements nothing changes.
    pub fn set_list_with_separator(&mut self, key: &str, values: &Vec<String>, separator: &str)
        ensures
            final(self)@ == with_list(old(self)@, key@, values.deep_view(), separator@),
    {
        if values.len() > 0 {
            let value = join(values, separator);
            self.set(key, value.as_str());
        }
    }

    /// What the value of `key` decodes to with `separator`, if the key is
    /// bound.
    pub fn get_list_with_separator(&self, key: &str, separator: &str) -> (list: Option<
        Vec<String>,
    >)
        ensures
            list.deep_view() == list_of(self@, key@, separator@),
    {
        match self.get(key) {
            Some(value) => Some(split(value.as_str(), separator)),
            None => None,
        }
    }
}

} // verus!
