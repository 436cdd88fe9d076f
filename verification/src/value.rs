//! The tree of values that a document denotes, and its mathematical model.

use crate::number::{integer_of, to_u64};
use vstd::prelude::*;
use vstd::std_specs::cmp::PartialEqSpecImpl;

verus! {

/// A parsed value. A number keeps the text it was written with, so that no
/// precision is lost; turning it into a machine number is left to the caller.
/// Two values are equal where they are of one kind and hold the same: two
/// arrays the same elements in the same order, two objects the same keys
/// with the same values, in whatever order.
#[derive(Debug)]
pub enum JsonValue {
    String(String),
    Number(String),
    Boolean(bool),
    Null,
    Array(Vec<JsonValue>),
    Object(JsonObject),
}

/// The members of an object, in the order in which their keys first
/// appeared. No key occurs twice. Two objects are equal where they have the
/// same keys with the same values, in whatever order.
#[derive(Debug)]
pub struct JsonObject {
    entries: Vec<(String, JsonValue)>,
}

/// The mathematical value of a [`JsonValue`].
pub enum JsonModel {
    String(Seq<char>),
    Number(Seq<char>),
    Boolean(bool),
    Null,
    Array(Seq<JsonModel>),
    Object(Seq<(Seq<char>, JsonModel)>),
}

/// The members of an object as a sequence of key and value.
pub type Members = Seq<(Seq<char>, JsonModel)>;

/// Some member of `members` has the key `key`.
pub open spec fn has_key(members: Members, key: Seq<char>) -> bool {
    exists|i: int| 0 <= i < members.len() && (#[trigger] members[i]).0 == key
}

/// `i` is the index of the first member of `members` whose key is `key`.
pub open spec fn is_first_with_key(members: Members, key: Seq<char>, i: int) -> bool {
    &&& 0 <= i < members.len()
    &&& members[i].0 == key
    &&& forall|j: int| 0 <= j < i ==> (#[trigger] members[j]).0 != key
}

/// The index of the first member with the key `key`, where there is one.
pub open spec fn key_index(members: Members, key: Seq<char>) -> int {
    choose|i: int| is_first_with_key(members, key, i)
}

/// The value that `key` maps to.
pub open spec fn lookup(members: Members, key: Seq<char>) -> Option<JsonModel> {
    if has_key(members, key) {
        Some(members[key_index(members, key)].1)
    } else {
        None
    }
}

/// `members` after `key` has been set to `value`: a key that is present
/// keeps its place and gets the new value, a new key goes to the end.
pub open spec fn upsert(members: Members, key: Seq<char>, value: JsonModel) -> Members {
    if has_key(members, key) {
        members.update(key_index(members, key), (key, value))
    } else {
        members.push((key, value))
    }
}

/// No key occurs twice in `members`.
pub open spec fn unique_keys(members: Members) -> bool {
    forall|i: int, j: int|
        0 <= i < j < members.len() ==> (#[trigger] members[i]).0 != (#[trigger] members[j]).0
}

/// Among the members that have the key `key`, one comes first.
pub proof fn lemma_first_with_key(members: Members, key: Seq<char>)
    requires
        has_key(members, key),
    ensures
        is_first_with_key(members, key, key_index(members, key)),
{
    let some = choose|i: int| 0 <= i < members.len() && (#[trigger] members[i]).0 == key;
    lemma_first_up_to(members, key, some);
}

/// Where the member at `last` has the key `key`, some member at or before
/// `last` is the first with that key.
proof fn lemma_first_up_to(members: Members, key: Seq<char>, last: int)
    requires
        0 <= last < members.len(),
        members[last].0 == key,
    ensures
        exists|i: int| is_first_with_key(members, key, i),
    decreases last,
{
    if exists|j: int| 0 <= j < last && (#[trigger] members[j]).0 == key {
        let earlier = choose|j: int| 0 <= j < last && (#[trigger] members[j]).0 == key;
        lemma_first_up_to(members, key, earlier);
    } else {
        assert(is_first_with_key(members, key, last));
    }
}

/// The last write wins: after `key` has been set to `value`, `key` maps to
/// `value`, and every other key maps to what it mapped to before.
pub proof fn lemma_upsert_lookup(members: Members, key: Seq<char>, value: JsonModel, other: Seq<char>)
    ensures
        lookup(upsert(members, key, value), key) == Some(value),
        other != key ==> lookup(upsert(members, key, value), other) == lookup(members, other),
        has_key(upsert(members, key, value), other) == (other == key || has_key(members, other)),
{
    let after = upsert(members, key, value);
    let place = if has_key(members, key) {
        key_index(members, key)
    } else {
        members.len() as int
    };
    if has_key(members, key) {
        lemma_first_with_key(members, key);
    }
    assert(after.len() > place >= 0 && after[place] == (key, value));
    assert forall|i: int| 0 <= i < after.len() && i != place implies 0 <= i < members.len()
        && #[trigger] after[i] == members[i] by {}
    assert(is_first_with_key(after, key, place)) by {
        assert forall|j: int| 0 <= j < place implies (#[trigger] after[j]).0 != key by {
            assert(after[j] == members[j]);
        }
    }
    assert(has_key(after, key));
    lemma_first_with_key(after, key);
    if other != key {
        if has_key(members, other) {
            lemma_first_with_key(members, other);
            let at = key_index(members, other);
            assert(at != place);
            assert(after[at] == members[at]);
            assert(is_first_with_key(after, other, at)) by {
                assert forall|j: int| 0 <= j < at implies (#[trigger] after[j]).0 != other by {
                    if j != place {
                        assert(after[j] == members[j]);
                    }
                }
            }
            assert(has_key(after, other));
            lemma_first_with_key(after, other);
        } else {
            if has_key(after, other) {
                let at = choose|i: int| 0 <= i < after.len() && (#[trigger] after[i]).0 == other;
                assert(at != place);
                assert(after[at] == members[at]);
                assert(members[at].0 == other);
            }
        }
    }
}

/// Setting a key keeps the keys unique.
pub proof fn lemma_upsert_unique(members: Members, key: Seq<char>, value: JsonModel)
    requires
        unique_keys(members),
    ensures
        unique_keys(upsert(members, key, value)),
{
    let after = upsert(members, key, value);
    if has_key(members, key) {
        lemma_first_with_key(members, key);
        assert forall|i: int, j: int| 0 <= i < j < after.len() implies (#[trigger] after[i]).0 != (
        #[trigger] after[j]).0 by {
            assert(after[i].0 == members[i].0);
            assert(after[j].0 == members[j].0);
        }
    } else {
        assert forall|i: int, j: int| 0 <= i < j < after.len() implies (#[trigger] after[i]).0 != (
        #[trigger] after[j]).0 by {
            assert(after[i] == members[i]);
            if j < members.len() {
                assert(after[j] == members[j]);
            }
        }
    }
}

impl JsonModel {
    /// Every object in this value, at any depth, has unique keys.
    pub open spec fn well_formed(self) -> bool
        decreases self,
    {
        match self {
            JsonModel::Array(items) => forall|i: int|
                0 <= i < items.len() ==> (#[trigger] items[i]).well_formed(),
            JsonModel::Object(members) => {
                &&& unique_keys(members)
                &&& forall|i: int|
                    0 <= i < members.len() ==> (#[trigger] members[i]).1.well_formed()
            },
            _ => true,
        }
    }
}

/// Setting a key to a well-formed value keeps an object well-formed.
pub proof fn lemma_upsert_well_formed(members: Members, key: Seq<char>, value: JsonModel)
    requires
        JsonModel::Object(members).well_formed(),
        value.well_formed(),
    ensures
        JsonModel::Object(upsert(members, key, value)).well_formed(),
{
    let after = upsert(members, key, value);
    lemma_upsert_unique(members, key, value);
    if has_key(members, key) {
        lemma_first_with_key(members, key);
    }
    assert forall|i: int| 0 <= i < after.len() implies (#[trigger] after[i]).1.well_formed() by {
        if after[i] != (key, value) {
            assert(after[i] == members[i]);
        }
    }
}

impl JsonValue {
    /// The mathematical value of this tree.
    pub open spec fn model(&self) -> JsonModel
        decreases self,
    {
        match self {
            JsonValue::String(text) => JsonModel::String(text@),
            JsonValue::Number(text) => JsonModel::Number(text@),
            JsonValue::Boolean(b) => JsonModel::Boolean(*b),
            JsonValue::Null => JsonModel::Null,
            JsonValue::Array(items) => JsonModel::Array(
                Seq::new(
                    items@.len(),
                    |i: int|
                        if 0 <= i < items@.len() {
                            items@[i].model()
                        } else {
                            JsonModel::Null
                        },
                ),
            ),
            JsonValue::Object(object) => JsonModel::Object(object.members()),
        }
    }
}

/// The mathematical values of a sequence of trees, in the same order.
pub open spec fn models(values: Seq<JsonValue>) -> Seq<JsonModel> {
    Seq::new(values.len(), |i: int| values[i].model())
}

/// An array's value is the sequence of its elements' values.
pub proof fn lemma_array_model(items: Vec<JsonValue>)
    ensures
        JsonValue::Array(items).model() == JsonModel::Array(models(items@)),
{
    assert(JsonValue::Array(items).model()->Array_0 =~= models(items@));
}

impl JsonModel {
    /// The two values are of one kind and hold the same: two arrays the
    /// same elements in the same order, two objects as many members, with
    /// every key of the first mapping in the second to the same value.
    pub open spec fn same_as(self, other: JsonModel) -> bool
        decreases self,
    {
        match (self, other) {
            (JsonModel::String(a), JsonModel::String(b)) => a == b,
            (JsonModel::Number(a), JsonModel::Number(b)) => a == b,
            (JsonModel::Boolean(a), JsonModel::Boolean(b)) => a == b,
            (JsonModel::Null, JsonModel::Null) => true,
            (JsonModel::Array(a), JsonModel::Array(b)) => {
                &&& a.len() == b.len()
                &&& forall|i: int| 0 <= i < a.len() ==> (#[trigger] a[i]).same_as(b[i])
            },
            (JsonModel::Object(a), JsonModel::Object(b)) => {
                &&& a.len() == b.len()
                &&& forall|i: int|
                    0 <= i < a.len() ==> match lookup(b, (#[trigger] a[i]).0) {
                        Some(value) => a[i].1.same_as(value),
                        None => false,
                    }
            },
            _ => false,
        }
    }
}

/// `first` and `second` have as many members, and every key of `first`
/// maps in `second` to the same value.
pub open spec fn same_members(first: Members, second: Members) -> bool {
    JsonModel::Object(first).same_as(JsonModel::Object(second))
}

impl JsonModel {
    /// The integer that this value denotes, where it is a number written
    /// as a non-empty run of decimal digits.
    pub open spec fn integer(self) -> Option<nat> {
        match self {
            JsonModel::Number(text) => integer_of(text),
            _ => None,
        }
    }
}

impl JsonValue {
    /// Reads this value as an unsigned integer: `Some` where it is a number
    /// written as a non-empty run of decimal digits whose value fits in 64
    /// bits, `None` for every other value.
    pub fn as_u64(&self) -> (number: Option<u64>)
        ensures
            match number {
                Some(value) => self@.integer() == Some(value as nat),
                None => match self@.integer() {
                    Some(value) => value > u64::MAX,
                    None => true,
                },
            },
    {
        match self {
            JsonValue::Number(text) => to_u64(text.as_str()),
            _ => None,
        }
    }
}

impl JsonValue {
    /// Whether the two values are equal.
    pub fn same_as(&self, other: &JsonValue) -> (same: bool)
        ensures
            same == self@.same_as(other@),
        decreases self,
    {
        match (self, other) {
            (JsonValue::String(a), JsonValue::String(b)) => *a == *b,
            (JsonValue::Number(a), JsonValue::Number(b)) => *a == *b,
            (JsonValue::Boolean(a), JsonValue::Boolean(b)) => *a == *b,
            (JsonValue::Null, JsonValue::Null) => true,
            (JsonValue::Array(a), JsonValue::Array(b)) => {
                proof {
                    lemma_array_model(*a);
                    lemma_array_model(*b);
                }
                if a.len() != b.len() {
                    return false;
                }
                let mut i: usize = 0;
                while i < a.len()
                    invariant
                        i <= a@.len(),
                        a@.len() == b@.len(),
                        self@ == JsonModel::Array(models(a@)),
                        other@ == JsonModel::Array(models(b@)),
                        *self == JsonValue::Array(*a),
                        forall|j: int| 0 <= j < i ==> (#[trigger] models(a@)[j]).same_as(models(b@)[j]),
                    decreases a@.len() - i,
                {
                    if !a[i].same_as(&b[i]) {
                        assert(!models(a@)[i as int].same_as(models(b@)[i as int]));
                        return false;
                    }
                    i += 1;
                }
                true
            },
            (JsonValue::Object(a), JsonValue::Object(b)) => a.same_as(b),
            _ => false,
        }
    }
}

impl PartialEq for JsonValue {
    fn eq(&self, other: &JsonValue) -> (same: bool) {
        self.same_as(other)
    }
}

impl PartialEqSpecImpl for JsonValue {
    open spec fn obeys_eq_spec() -> bool {
        true
    }

    open spec fn eq_spec(&self, other: &JsonValue) -> bool {
        self@.same_as(other@)
    }
}

impl View for JsonValue {
    type V = JsonModel;

    open spec fn view(&self) -> JsonModel {
        self.model()
    }
}

impl JsonObject {
    #[verifier::type_invariant]
    spec fn keys_are_unique(self) -> bool {
        forall|i: int, j: int|
            0 <= i < j < self.entries@.len() ==> (#[trigger] self.entries@[i]).0@
                != (#[trigger] self.entries@[j]).0@
    }

    /// The members of this object, in order.
    pub closed spec fn members(&self) -> Members
        decreases self,
    {
        Seq::new(
            self.entries@.len(),
            |i: int|
                if 0 <= i < self.entries@.len() {
                    (self.entries@[i].0@, self.entries@[i].1.model())
                } else {
                    (Seq::empty(), JsonModel::Null)
                },
        )
    }
}

impl PartialEq for JsonObject {
    fn eq(&self, other: &JsonObject) -> (same: bool) {
        self.same_as(other)
    }
}

impl PartialEqSpecImpl for JsonObject {
    open spec fn obeys_eq_spec() -> bool {
        true
    }

    open spec fn eq_spec(&self, other: &JsonObject) -> bool {
        same_members(self@, other@)
    }
}

impl View for JsonObject {
    type V = Members;

    open spec fn view(&self) -> Members {
        self.members()
    }
}

impl JsonObject {
    /// An object without members.
    pub fn new() -> (object: JsonObject)
        ensures
            object@ == Seq::<(Seq<char>, JsonModel)>::empty(),
    {
        let object = JsonObject { entries: Vec::new() };
        assert(object.members() =~= Seq::empty());
        object
    }

    /// The number of members.
    pub fn len(&self) -> (n: usize)
        ensures
            n == self@.len(),
            unique_keys(self@),
    {
        proof {
            use_type_invariant(self);
        }
        self.entries.len()
    }

    /// Whether the object has no member.
    pub fn is_empty(&self) -> (empty: bool)
        ensures
            empty == (self@.len() == 0),
    {
        self.entries.len() == 0
    }

    /// The place of the member with the key `key`.
    fn find(&self, key: &String) -> (found: Option<usize>)
        ensures
            match found {
                Some(i) => is_first_with_key(self@, key@, i as int),
                None => !has_key(self@, key@),
            },
    {
        let mut i: usize = 0;
        while i < self.entries.len()
            invariant
                i <= self.entries@.len(),
                forall|j: int| 0 <= j < i ==> (#[trigger] self@[j]).0 != key@,
            decreases self.entries@.len() - i,
        {
            if self.entries[i].0 == *key {
                return Some(i);
            }
            i += 1;
        }
        None
    }

    /// Sets `key` to `value`. Where the key is present already, the new
    /// value takes the place of the old one: the last write wins.
    pub fn insert(&mut self, key: String, value: JsonValue)
        ensures
            final(self)@ == upsert(old(self)@, key@, value@),
            unique_keys(final(self)@),
    {
        proof {
            use_type_invariant(&*self);
        }
        let ghost before = self@;
        let ghost stored = self.entries@;
        assert forall|j: int| 0 <= j < stored.len() implies (#[trigger] stored[j]).0@
            == before[j].0 by {}
        let place = self.find(&key);
        let mut entries: Vec<(String, JsonValue)> = Vec::new();
        core::mem::swap(&mut self.entries, &mut entries);
        match place {
            Some(i) => {
                entries.set(i, (key, value));
                assert(key_index(before, key@) == i as int);
                assert forall|j: int| 0 <= j < stored.len() implies (#[trigger] entries@[j]).0@
                    == stored[j].0@ by {}
            },
            None => {
                entries.push((key, value));
                assert forall|j: int| 0 <= j < stored.len() implies (#[trigger] entries@[j]).0@
                    != key@ by {
                    assert(before[j].0 != key@);
                }
            },
        }
        self.entries = entries;
        assert(self@ =~= upsert(before, key@, value@));
    }

    /// The value of the member with the key `key`.
    pub fn get(&self, key: &str) -> (found: Option<&JsonValue>)
        ensures
            match found {
                Some(value) => lookup(self@, key@) == Some(value@),
                None => lookup(self@, key@).is_none(),
            },
    {
        let owned = key.to_owned();
        match self.find(&owned) {
            Some(i) => {
                assert(key_index(self@, key@) == i as int);
                Some(&self.entries[i].1)
            },
            None => None,
        }
    }

    /// The key and the value of the member at `index`, counted from 0 in
    /// the order of the members; `None` where `index` is past the last.
    pub fn entry(&self, index: usize) -> (found: Option<(&String, &JsonValue)>)
        ensures
            match found {
                Some((key, value)) => index < self@.len() && self@[index as int] == (
                    key@,
                    value@,
                ),
                None => index >= self@.len(),
            },
    {
        if index < self.entries.len() {
            Some((&self.entries[index].0, &self.entries[index].1))
        } else {
            None
        }
    }

    /// Whether the two objects are equal.
    pub fn same_as(&self, other: &JsonObject) -> (same: bool)
        ensures
            same == same_members(self@, other@),
        decreases self,
    {
        if self.entries.len() != other.entries.len() {
            return false;
        }
        let mut i: usize = 0;
        while i < self.entries.len()
            invariant
                i <= self.entries@.len(),
                self@.len() == other@.len(),
                forall|j: int|
                    0 <= j < i ==> match lookup(other@, (#[trigger] self@[j]).0) {
                        Some(value) => self@[j].1.same_as(value),
                        None => false,
                    },
            decreases self.entries@.len() - i,
        {
            let ghost key = self@[i as int].0;
            let same = match other.find(&self.entries[i].0) {
                Some(at) => {
                    assert(key_index(other@, key) == at as int);
                    assert(lookup(other@, key) == Some(other@[at as int].1));
                    self.entries[i].1.same_as(&other.entries[at].1)
                },
                None => {
                    assert(lookup(other@, key).is_none());
                    false
                },
            };
            if !same {
                assert(!(match lookup(other@, self@[i as int].0) {
                    Some(value) => self@[i as int].1.same_as(value),
                    None => false,
                }));
                return false;
            }
            i += 1;
        }
        true
    }

    /// Whether some member has the key `key`.
    pub fn contains_key(&self, key: &str) -> (present: bool)
        ensures
            present == has_key(self@, key@),
    {
        let owned = key.to_owned();
        self.find(&owned).is_some()
    }
}

} // verus!
