//! Equality of values is an equivalence: every well-formed value equals
//! itself, two values are equal in either direction, and equality carries
//! over a value in the middle.

use crate::value::{
    has_key, is_first_with_key, key_index, lemma_first_with_key, lookup, same_members,
    unique_keys, JsonModel, Members,
};
use vstd::prelude::*;
use vstd::seq_lib::seq_to_set_is_finite;
use vstd::set_lib::lemma_subset_equality;

verus! {

/// The keys of `members`, in order.
pub open spec fn keys_of(members: Members) -> Seq<Seq<char>> {
    Seq::new(members.len(), |i: int| members[i].0)
}

/// With unique keys, the member at `i` is the first with its key, and its
/// key maps to its value.
pub proof fn lemma_unique_key_lookup(members: Members, i: int)
    requires
        unique_keys(members),
        0 <= i < members.len(),
    ensures
        has_key(members, members[i].0),
        key_index(members, members[i].0) == i,
        lookup(members, members[i].0) == Some(members[i].1),
{
    let key = members[i].0;
    assert(has_key(members, key));
    lemma_first_with_key(members, key);
    let first = key_index(members, key);
    if first != i {
        assert(members[first].0 == members[i].0);
    }
}

/// Two objects with unique keys, of one size, of which the second has every
/// key of the first: then the first has every key of the second.
pub proof fn lemma_same_keys(first: Members, second: Members)
    requires
        unique_keys(first),
        unique_keys(second),
        first.len() == second.len(),
        forall|i: int| 0 <= i < first.len() ==> has_key(second, (#[trigger] first[i]).0),
    ensures
        forall|j: int| 0 <= j < second.len() ==> has_key(first, (#[trigger] second[j]).0),
{
    let a = keys_of(first);
    let b = keys_of(second);
    assert(a.no_duplicates());
    assert(b.no_duplicates());
    a.unique_seq_to_set();
    b.unique_seq_to_set();
    seq_to_set_is_finite(a);
    seq_to_set_is_finite(b);
    assert(a.to_set().subset_of(b.to_set())) by {
        assert forall|key: Seq<char>| a.to_set().contains(key) implies b.to_set().contains(
            key,
        ) by {
            let i = choose|i: int| 0 <= i < a.len() && a[i] == key;
            assert(has_key(second, first[i].0));
            let j = choose|j: int| 0 <= j < second.len() && (#[trigger] second[j]).0 == key;
            assert(b[j] == key);
        }
    }
    lemma_subset_equality(a.to_set(), b.to_set());
    assert forall|j: int| 0 <= j < second.len() implies has_key(
        first,
        (#[trigger] second[j]).0,
    ) by {
        assert(b[j] == second[j].0);
        assert(b.to_set().contains(b[j]));
        assert(a.to_set().contains(second[j].0));
        let i = choose|i: int| 0 <= i < a.len() && a[i] == second[j].0;
        assert(first[i].0 == second[j].0);
    }
}

/// A well-formed value equals itself.
pub proof fn lemma_same_as_reflexive(value: JsonModel)
    requires
        value.well_formed(),
    ensures
        value.same_as(value),
    decreases value,
{
    match value {
        JsonModel::Array(items) => {
            assert forall|i: int| 0 <= i < items.len() implies (#[trigger] items[i]).same_as(
                items[i],
            ) by {
                lemma_same_as_reflexive(items[i]);
            }
        },
        JsonModel::Object(members) => {
            assert forall|i: int| 0 <= i < members.len() implies match lookup(
                members,
                (#[trigger] members[i]).0,
            ) {
                Some(other) => members[i].1.same_as(other),
                None => false,
            } by {
                lemma_unique_key_lookup(members, i);
                lemma_same_as_reflexive(members[i].1);
            }
        },
        _ => {},
    }
}

/// Equality of well-formed values holds in both directions.
pub proof fn lemma_same_as_symmetric(first: JsonModel, second: JsonModel)
    requires
        first.well_formed(),
        second.well_formed(),
        first.same_as(second),
    ensures
        second.same_as(first),
    decreases first,
{
    match (first, second) {
        (JsonModel::Array(a), JsonModel::Array(b)) => {
            assert forall|i: int| 0 <= i < b.len() implies (#[trigger] b[i]).same_as(a[i]) by {
                assert(a[i].same_as(b[i]));
                lemma_same_as_symmetric(a[i], b[i]);
            }
        },
        (JsonModel::Object(a), JsonModel::Object(b)) => {
            assert forall|i: int| 0 <= i < a.len() implies has_key(b, (#[trigger] a[i]).0) by {
                assert(lookup(b, a[i].0).is_some());
            }
            lemma_same_keys(a, b);
            assert forall|j: int| 0 <= j < b.len() implies match lookup(a, (#[trigger] b[j]).0) {
                Some(other) => b[j].1.same_as(other),
                None => false,
            } by {
                let key = b[j].0;
                assert(has_key(a, key));
                lemma_first_with_key(a, key);
                let i = key_index(a, key);
                assert(a[i].0 == key);
                lemma_unique_key_lookup(b, j);
                assert(lookup(b, a[i].0) == Some(b[j].1));
                assert(a[i].1.same_as(b[j].1));
                lemma_same_as_symmetric(a[i].1, b[j].1);
            }
        },
        _ => {},
    }
}

/// Equality carries over a value in the middle.
pub proof fn lemma_same_as_transitive(first: JsonModel, second: JsonModel, third: JsonModel)
    requires
        first.same_as(second),
        second.same_as(third),
    ensures
        first.same_as(third),
    decreases first,
{
    match (first, second, third) {
        (JsonModel::Array(a), JsonModel::Array(b), JsonModel::Array(c)) => {
            assert forall|i: int| 0 <= i < a.len() implies (#[trigger] a[i]).same_as(c[i]) by {
                assert(a[i].same_as(b[i]));
                assert(b[i].same_as(c[i]));
                lemma_same_as_transitive(a[i], b[i], c[i]);
            }
        },
        (JsonModel::Object(a), JsonModel::Object(b), JsonModel::Object(c)) => {
            assert forall|i: int| 0 <= i < a.len() implies match lookup(c, (#[trigger] a[i]).0) {
                Some(other) => a[i].1.same_as(other),
                None => false,
            } by {
                let key = a[i].0;
                assert(lookup(b, key).is_some());
                lemma_first_with_key(b, key);
                let p = key_index(b, key);
                assert(is_first_with_key(b, key, p));
                assert(a[i].1.same_as(b[p].1));
                assert(lookup(c, b[p].0).is_some());
                let other = lookup(c, key).unwrap();
                assert(b[p].1.same_as(other));
                lemma_same_as_transitive(a[i].1, b[p].1, other);
            }
        },
        _ => {},
    }
}

/// What holds of values holds of the members of objects: `same_members` is
/// reflexive, symmetric and transitive on well-formed members.
pub proof fn lemma_same_members_is_equivalence(first: Members, second: Members, third: Members)
    requires
        JsonModel::Object(first).well_formed(),
        JsonModel::Object(second).well_formed(),
    ensures
        same_members(first, first),
        same_members(first, second) ==> same_members(second, first),
        same_members(first, second) && same_members(second, third) ==> same_members(first, third),
{
    lemma_same_as_reflexive(JsonModel::Object(first));
    if same_members(first, second) {
        lemma_same_as_symmetric(JsonModel::Object(first), JsonModel::Object(second));
        if same_members(second, third) {
            lemma_same_as_transitive(
                JsonModel::Object(first),
                JsonModel::Object(second),
                JsonModel::Object(third),
            );
        }
    }
}

} // verus!
