//! What holds of an environment across its operations, stated over its view
//! and proved from the definitions that the operations' contracts use.
//!
//! In each law `bindings` is the view of an environment before the
//! operations that the law speaks of.

use vstd::prelude::*;
use crate::boolean::{encoded, lemma_decoded_encoded};
use crate::environment::{flag_or, list_of, value_of, value_or, with_list, with_optional};
use crate::list::{
    contains_none, found_early, lemma_round_trip, lemma_round_trip_single_character,
    DEFAULT_SEPARATOR,
};

verus! {

/// In a new environment no key is bound, and every key reads as the default.
pub proof fn lemma_new_environment(key: Seq<char>, default_value: Seq<char>)
    ensures
        !Map::<Seq<char>, Seq<char>>::empty().contains_key(key),
        value_of(Map::empty(), key) is None,
        value_or(Map::empty(), key, default_value) == default_value,
{
}

/// A key that is not bound reads as absent, and as the default where one is
/// given.
pub proof fn lemma_unbound_key(
    bindings: Map<Seq<char>, Seq<char>>,
    key: Seq<char>,
    default_value: Seq<char>,
)
    requires
        !bindings.contains_key(key),
    ensures
        value_of(bindings, key) is None,
        value_or(bindings, key, default_value) == default_value,
{
}

/// After `set`, the key is bound, reads as the value that was set whatever
/// the default, and is equal to that value.
pub proof fn lemma_set_then_read(
    bindings: Map<Seq<char>, Seq<char>>,
    key: Seq<char>,
    value: Seq<char>,
    default_value: Seq<char>,
)
    ensures
        bindings.insert(key, value).contains_key(key),
        value_or(bindings.insert(key, value), key, default_value) == value,
        bindings.insert(key, value).contains_pair(key, value),
{
}

/// `get_remove` on a bound key returns the value that the key had before, and
/// leaves the key unbound.
pub proof fn lemma_get_remove_bound(bindings: Map<Seq<char>, Seq<char>>, key: Seq<char>)
    requires
        bindings.contains_key(key),
    ensures
        value_of(bindings, key) == Some(bindings[key]),
        !bindings.remove(key).contains_key(key),
{
}

/// `get_remove` on an unbound key returns nothing and changes nothing: the
/// key is unbound afterwards as it was before.
pub proof fn lemma_get_remove_unbound(bindings: Map<Seq<char>, Seq<char>>, key: Seq<char>)
    requires
        !bindings.contains_key(key),
    ensures
        value_of(bindings, key) is None,
        !bindings.remove(key).contains_key(key),
        bindings.remove(key) == bindings,
{
    assert(bindings.remove(key) =~= bindings);
}

/// `get_set` on a key bound to `first` returns `first` and leaves the key
/// bound to the new value.
pub proof fn lemma_get_set(
    bindings: Map<Seq<char>, Seq<char>>,
    key: Seq<char>,
    first: Seq<char>,
    second: Seq<char>,
)
    requires
        bindings.contains_pair(key, first),
    ensures
        value_of(bindings, key) == Some(first),
        bindings.insert(key, second).contains_pair(key, second),
{
}

/// `set_optional` without a value changes nothing; with a value it binds the
/// key to it.
pub proof fn lemma_set_optional(
    bindings: Map<Seq<char>, Seq<char>>,
    key: Seq<char>,
    value: Seq<char>,
)
    ensures
        with_optional(bindings, key, None) == bindings,
        with_optional(bindings, key, Some(value)).contains_pair(key, value),
{
}

/// Setting a list without elements changes nothing: what the key was bound to
/// before, it is bound to afterwards.
pub proof fn lemma_set_empty_list(
    bindings: Map<Seq<char>, Seq<char>>,
    key: Seq<char>,
    separator: Seq<char>,
)
    ensures
        with_list(bindings, key, Seq::empty(), separator) == bindings,
{
}

/// Round trip of a list through a key: after a list of one element or more
/// was set, none of whose elements contains the separator and none of whose
/// elements but the last lets it be found early, the list that is read with
/// the same separator is the list that was set.
pub proof fn lemma_list_round_trip(
    bindings: Map<Seq<char>, Seq<char>>,
    key: Seq<char>,
    values: Seq<Seq<char>>,
    separator: Seq<char>,
)
    requires
        values.len() > 0,
        contains_none(values, separator),
        forall|i: int| 0 <= i < values.len() - 1 ==> !found_early(#[trigger] values[i], separator),
    ensures
        list_of(with_list(bindings, key, values, separator), key, separator) == Some(values),
{
    lemma_round_trip(values, separator);
}

/// Round trip of a list through a key with the default separator, which is
/// one character: after a list of one element or more was set, none of whose
/// elements contains the separator, the list that is read is the list that
/// was set.
pub proof fn lemma_default_list_round_trip(
    bindings: Map<Seq<char>, Seq<char>>,
    key: Seq<char>,
    values: Seq<Seq<char>>,
)
    requires
        values.len() > 0,
        contains_none(values, DEFAULT_SEPARATOR@),
    ensures
        list_of(with_list(bindings, key, values, DEFAULT_SEPARATOR@), key, DEFAULT_SEPARATOR@)
            == Some(values),
{
    reveal_strlit(";");
    lemma_round_trip_single_character(values, DEFAULT_SEPARATOR@);
}

/// Reading a flag: an unbound key gives the default; a key bound to the
/// string that stands for `true` gives `true`; a key bound to any other
/// string, the one that stands for `false` among them, gives `false`.
pub proof fn lemma_flag_or(
    bindings: Map<Seq<char>, Seq<char>>,
    key: Seq<char>,
    default_value: bool,
)
    ensures
        !bindings.contains_key(key) ==> flag_or(bindings, key, default_value) == default_value,
        bindings.contains_pair(key, encoded(true)) ==> flag_or(bindings, key, default_value),
        bindings.contains_key(key) && bindings[key] != encoded(true) ==> !flag_or(
            bindings,
            key,
            default_value,
        ),
        bindings.contains_pair(key, encoded(false)) ==> !flag_or(bindings, key, default_value),
{
    lemma_decoded_encoded(true);
    lemma_decoded_encoded(false);
}

/// A flag that was set reads as it was set, whatever the default.
pub proof fn lemma_set_bool_then_read(
    bindings: Map<Seq<char>, Seq<char>>,
    key: Seq<char>,
    value: bool,
    default_value: bool,
)
    ensures
        flag_or(bindings.insert(key, encoded(value)), key, default_value) == value,
{
    lemma_decoded_encoded(value);
}

} // verus!
