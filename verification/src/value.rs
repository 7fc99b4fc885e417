//! The tree that parsing builds, and the mathematical value it stands for.

use crate::error::ParseError;
use crate::number::Number;
use vstd::prelude::*;
use vstd::set_lib::lemma_subset_equality;
use vstd::std_specs::cmp::PartialEqSpecImpl;

verus! {

/// A JSON value as a mathematical object: what a [`Json`] tree stands for.
pub enum Value {
    /// Members by key. A key occurs once; the order of members means nothing.
    Object(Map<Seq<char>, Value>),
    /// Elements in order.
    Array(Seq<Value>),
    /// The scalar values of a string, escapes already decoded.
    String(Seq<char>),
    /// A number by its decimal spelling.
    Number(Seq<char>),
    /// `true` or `false`.
    Bool(bool),
    /// `null`.
    Null,
}

/// The members of an object. No key occurs twice. Two objects are equal
/// where they have the same members, in whatever order.
///
/// The members are kept in a list, so finding one takes time in proportion
/// to their number.
#[derive(Debug)]
pub struct Object {
    entries: Vec<(String, Json)>,
}

/// A parsed JSON value. Two trees are equal where they stand for the same
/// value.
#[derive(Debug)]
pub enum Json {
    /// Members by key.
    Object(Object),
    /// Elements in order.
    Array(Vec<Json>),
    /// The scalar values of a string, escapes already decoded.
    String(String),
    /// A number by its decimal spelling.
    Number(Number),
    /// `true` or `false`.
    Bool(bool),
    /// `null`.
    Null,
}

/// The value that a tree stands for.
pub open spec fn value_of(json: Json) -> Value
    decreases json,
{
    match json {
        Json::Object(object) => Value::Object(object.members()),
        Json::Array(items) => Value::Array(values_of(items@)),
        Json::String(text) => Value::String(text@),
        Json::Number(number) => Value::Number(number@),
        Json::Bool(b) => Value::Bool(b),
        Json::Null => Value::Null,
    }
}

/// The values that a sequence of trees stands for, in the same order.
pub open spec fn values_of(items: Seq<Json>) -> Seq<Value>
    decreases items,
{
    if items.len() == 0 {
        Seq::empty()
    } else {
        values_of(items.drop_last()).push(value_of(items.last()))
    }
}

/// The map that a list of members stands for: a later member replaces an
/// earlier one with the same key.
pub open spec fn members_of(entries: Seq<(String, Json)>) -> Map<Seq<char>, Value>
    decreases entries,
{
    if entries.len() == 0 {
        Map::empty()
    } else {
        members_of(entries.drop_last()).insert(entries.last().0@, value_of(entries.last().1))
    }
}

/// The values of a sequence of trees are the values of its elements.
pub proof fn lemma_values_of(items: Seq<Json>)
    ensures
        values_of(items).len() == items.len(),
        forall|i: int| 0 <= i < items.len() ==> values_of(items)[i] == value_of(#[trigger] items[i]),
    decreases items.len(),
{
    if items.len() > 0 {
        let init = items.drop_last();
        lemma_values_of(init);
        assert forall|i: int| 0 <= i < items.len() implies values_of(items)[i] == value_of(
            #[trigger] items[i],
        ) by {
            if i < init.len() {
                assert(init[i] == items[i]);
            }
        }
    }
}

/// The key of the member at position `i`.
pub open spec fn key_at(entries: Seq<(String, Json)>, i: int) -> Seq<char> {
    entries[i].0@
}

/// Some member has the key `key`.
pub open spec fn has_key(entries: Seq<(String, Json)>, key: Seq<char>) -> bool {
    exists|i: int| 0 <= i < entries.len() && #[trigger] key_at(entries, i) == key
}

/// No two members have the same key.
pub open spec fn distinct_keys(entries: Seq<(String, Json)>) -> bool {
    forall|i: int, j: int|
        0 <= i < j < entries.len() ==> #[trigger] key_at(entries, i) != #[trigger] key_at(
            entries,
            j,
        )
}

/// The keys of the map are the keys of the members.
pub proof fn lemma_members_keys(entries: Seq<(String, Json)>)
    ensures
        forall|key: Seq<char>| #[trigger]
            members_of(entries).contains_key(key) <==> has_key(entries, key),
        members_of(entries).dom().finite(),
    decreases entries.len(),
{
    if entries.len() > 0 {
        let init = entries.drop_last();
        let last = entries.len() - 1;
        lemma_members_keys(init);
        assert forall|key: Seq<char>| #[trigger]
            members_of(entries).contains_key(key) <==> has_key(entries, key) by {
            if has_key(entries, key) {
                let i = choose|i: int| 0 <= i < entries.len() && #[trigger] key_at(entries, i) == key;
                if i < last {
                    assert(key_at(init, i) == key);
                }
            }
            if members_of(entries).contains_key(key) {
                if key == key_at(entries, last) {
                } else {
                    assert(has_key(init, key));
                    let i = choose|i: int| 0 <= i < init.len() && #[trigger] key_at(init, i) == key;
                    assert(key_at(entries, i) == key);
                }
            }
        }
    }
}

/// Where no key occurs twice, each member is found under its key, and the
/// map has as many keys as there are members.
pub proof fn lemma_members_distinct(entries: Seq<(String, Json)>)
    requires
        distinct_keys(entries),
    ensures
        forall|i: int|
            0 <= i < entries.len() ==> members_of(entries)[#[trigger] key_at(entries, i)]
                == value_of(entries[i].1),
        members_of(entries).dom().len() == entries.len(),
    decreases entries.len(),
{
    if entries.len() > 0 {
        let init = entries.drop_last();
        let last = entries.len() - 1;
        assert forall|i: int, j: int| 0 <= i < j < init.len() implies #[trigger] key_at(init, i)
            != #[trigger] key_at(init, j) by {
            assert(key_at(entries, i) != key_at(entries, j));
        }
        lemma_members_distinct(init);
        lemma_members_keys(init);
        assert forall|i: int| 0 <= i < entries.len() implies members_of(entries)[#[trigger] key_at(
            entries,
            i,
        )] == value_of(entries[i].1) by {
            if i < last {
                assert(key_at(entries, i) != key_at(entries, last));
                assert(key_at(init, i) == key_at(entries, i));
            }
        }
        if has_key(init, key_at(entries, last)) {
            let i = choose|i: int|
                0 <= i < init.len() && #[trigger] key_at(init, i) == key_at(entries, last);
            assert(key_at(entries, i) == key_at(entries, last));
        }
    } else {
        assert(members_of(entries).dom() =~= Set::empty());
    }
}

impl Object {
    #[verifier::type_invariant]
    spec fn well_formed(self) -> bool {
        distinct_keys(self.entries@)
    }

    /// The members as a map from key to value.
    pub closed spec fn members(self) -> Map<Seq<char>, Value>
        decreases self,
    {
        members_of(self.entries@)
    }

    /// An object without members.
    pub fn new() -> (object: Object)
        ensures
            object@ == Map::<Seq<char>, Value>::empty(),
    {
        Object { entries: Vec::new() }
    }

    /// The number of members.
    pub fn len(&self) -> (n: usize)
        ensures
            self@.dom().finite(),
            n == self@.dom().len(),
    {
        proof {
            use_type_invariant(self);
            lemma_members_keys(self.entries@);
            lemma_members_distinct(self.entries@);
        }
        self.entries.len()
    }

    /// The position of the member with the key `key`, or the number of
    /// members where there is none.
    fn position(&self, key: &String) -> (i: usize)
        ensures
            i <= self.entries@.len(),
            i < self.entries@.len() ==> key_at(self.entries@, i as int) == key@,
            i == self.entries@.len() ==> !has_key(self.entries@, key@),
    {
        let mut i: usize = 0;
        while i < self.entries.len()
            invariant
                i <= self.entries@.len(),
                forall|j: int| 0 <= j < i ==> key_at(self.entries@, j) != key@,
            decreases self.entries@.len() - i,
        {
            if self.entries[i].0 == *key {
                return i;
            }
            i = i + 1;
        }
        i
    }

    /// The value of the member with the key `key`, if there is one.
    pub fn get(&self, key: &String) -> (value: Option<&Json>)
        ensures
            value is Some <==> self@.contains_key(key@),
            value matches Some(json) ==> json@ == self@[key@],
    {
        proof {
            use_type_invariant(self);
            lemma_members_keys(self.entries@);
            lemma_members_distinct(self.entries@);
        }
        let i = self.position(key);
        if i < self.entries.len() {
            Some(&self.entries[i].1)
        } else {
            None
        }
    }

    /// Puts `value` under `key`. A member that had this key is replaced.
    pub fn insert(&mut self, key: String, value: Json)
        ensures
            final(self)@ == old(self)@.insert(key@, value@),
    {
        proof {
            use_type_invariant(&*self);
            lemma_members_keys(self.entries@);
            lemma_members_distinct(self.entries@);
        }
        let ghost before = self.entries@;
        let ghost k = key@;
        let ghost v = value@;
        let i = self.position(&key);
        let mut taken = Object { entries: Vec::new() };
        std::mem::swap(self, &mut taken);
        let Object { entries } = taken;
        let mut entries = entries;
        if i < entries.len() {
            entries.set(i, (key, value));
            proof {
                let after = entries@;
                assert forall|a: int, b: int| 0 <= a < b < after.len() implies #[trigger] key_at(
                    after,
                    a,
                ) != #[trigger] key_at(after, b) by {
                    assert(key_at(after, a) == key_at(before, a));
                    assert(key_at(after, b) == key_at(before, b));
                }
                lemma_members_keys(after);
                lemma_members_distinct(after);
                assert forall|key: Seq<char>| #[trigger]
                    members_of(after).contains_key(key) <==> members_of(before).insert(
                        k,
                        v,
                    ).contains_key(key) by {
                    if has_key(after, key) {
                        let j = choose|j: int| 0 <= j < after.len() && #[trigger] key_at(after, j) == key;
                        assert(key_at(before, j) == key);
                    }
                    if has_key(before, key) {
                        let j = choose|j: int| 0 <= j < before.len() && #[trigger] key_at(before, j) == key;
                        assert(key_at(after, j) == key);
                    }
                    if key == k {
                        assert(key_at(after, i as int) == key);
                    }
                }
                assert forall|key: Seq<char>| #[trigger]
                    members_of(after).contains_key(key) implies members_of(after)[key]
                    == members_of(before).insert(k, v)[key] by {
                    let j = choose|j: int| 0 <= j < after.len() && #[trigger] key_at(after, j) == key;
                    assert(key_at(before, j) == key);
                    if j != i {
                        assert(key_at(before, j) != key_at(before, i as int));
                    }
                }
                assert(members_of(after) =~= members_of(before).insert(k, v));
            }
        } else {
            entries.push((key, value));
            proof {
                let after = entries@;
                assert(after.drop_last() =~= before);
                assert forall|a: int, b: int| 0 <= a < b < after.len() implies #[trigger] key_at(
                    after,
                    a,
                ) != #[trigger] key_at(after, b) by {
                    assert(key_at(after, a) == key_at(before, a));
                    if b < before.len() {
                        assert(key_at(after, b) == key_at(before, b));
                    }
                }
            }
        }
        *self = Object { entries };
    }

    /// The members as a list of keys with their values, each key once, in no
    /// particular order.
    pub fn into_members(self) -> (entries: Vec<(String, Json)>)
        ensures
            distinct_keys(entries@),
            members_of(entries@) == self@,
    {
        proof {
            use_type_invariant(&self);
        }
        self.entries
    }

    /// Whether two objects have the same members.
    pub fn same_members(&self, other: &Object) -> (same: bool)
        ensures
            same == (self@ == other@),
        decreases self,
    {
        proof {
            use_type_invariant(self);
            use_type_invariant(other);
            lemma_members_keys(self.entries@);
            lemma_members_distinct(self.entries@);
            lemma_members_keys(other.entries@);
            lemma_members_distinct(other.entries@);
        }
        if self.entries.len() != other.entries.len() {
            return false;
        }
        let mut i: usize = 0;
        while i < self.entries.len()
            invariant
                i <= self.entries@.len(),
                self.entries@.len() == other.entries@.len(),
                distinct_keys(self.entries@),
                distinct_keys(other.entries@),
                forall|t: int|
                    0 <= t < i ==> other.members().contains_key(
                        #[trigger] key_at(self.entries@, t),
                    ) && other.members()[key_at(self.entries@, t)] == value_of(
                        self.entries@[t].1,
                    ),
            decreases self.entries@.len() - i,
        {
            proof {
                lemma_members_keys(self.entries@);
                lemma_members_distinct(self.entries@);
                lemma_members_keys(other.entries@);
                lemma_members_distinct(other.entries@);
            }
            let ghost key = key_at(self.entries@, i as int);
            assert(has_key(self.entries@, key));
            let j = other.position(&self.entries[i].0);
            if j == other.entries.len() {
                assert(self.members().contains_key(key) && !other.members().contains_key(key));
                return false;
            }
            assert(key_at(other.entries@, j as int) == key);
            if !self.entries[i].1.same_value(&other.entries[j].1) {
                assert(self.members()[key] != other.members()[key]);
                return false;
            }
            i = i + 1;
        }
        proof {
            lemma_members_keys(self.entries@);
            lemma_members_distinct(self.entries@);
            lemma_members_keys(other.entries@);
            lemma_members_distinct(other.entries@);
            assert forall|key: Seq<char>| self.members().contains_key(key) implies other.members().contains_key(
                key,
            ) && self.members()[key] == other.members()[key] by {
                let t = choose|t: int|
                    0 <= t < self.entries@.len() && #[trigger] key_at(self.entries@, t) == key;
                assert(self.members()[key_at(self.entries@, t)] == value_of(self.entries@[t].1));
            }
            assert(self.members().dom().subset_of(other.members().dom()));
            lemma_subset_equality(self.members().dom(), other.members().dom());
            assert(self.members() =~= other.members());
        }
        true
    }
}

impl PartialEq for Object {
    fn eq(&self, other: &Object) -> (same: bool) {
        self.same_members(other)
    }
}

impl PartialEqSpecImpl for Object {
    open spec fn obeys_eq_spec() -> bool {
        true
    }

    open spec fn eq_spec(&self, other: &Object) -> bool {
        self@ == other@
    }
}

impl Json {
    /// The text of a string value. Any other value is no object key.
    pub fn destructure(self) -> (text: Result<String, ParseError>)
        ensures
            match self {
                Json::String(s) => text == Ok::<String, ParseError>(s),
                _ => text == Err::<String, ParseError>(ParseError::InvalidObjectKey),
            },
    {
        match self {
            Json::String(s) => Ok(s),
            _ => Err(ParseError::InvalidObjectKey),
        }
    }

    /// Whether two trees stand for the same value: objects by their members
    /// in whatever order, numbers by their spelling.
    #[verifier::loop_isolation(false)]
    pub fn same_value(&self, other: &Json) -> (same: bool)
        ensures
            same == (self@ == other@),
        decreases self,
    {
        match self {
            Json::Object(a) => match other {
                Json::Object(b) => a.same_members(b),
                _ => false,
            },
            Json::Array(a) => match other {
                Json::Array(b) => {
                    proof {
                        lemma_values_of(a@);
                        lemma_values_of(b@);
                    }
                    if a.len() != b.len() {
                        return false;
                    }
                    let mut i: usize = 0;
                    while i < a.len()
                        invariant
                            i <= a@.len(),
                            a@.len() == b@.len(),
                            forall|t: int| 0 <= t < i ==> value_of(a@[t]) == value_of(b@[t]),
                        decreases a@.len() - i,
                    {
                        if !a[i].same_value(&b[i]) {
                            proof {
                                lemma_values_of(a@);
                                lemma_values_of(b@);
                                assert(values_of(a@)[i as int] != values_of(b@)[i as int]);
                            }
                            return false;
                        }
                        i = i + 1;
                    }
                    proof {
                        lemma_values_of(a@);
                        lemma_values_of(b@);
                        assert forall|t: int| 0 <= t < a@.len() implies values_of(a@)[t]
                            == values_of(b@)[t] by {
                            assert(value_of(a@[t]) == value_of(b@[t]));
                        }
                        assert(values_of(a@) =~= values_of(b@));
                    }
                    true
                },
                _ => false,
            },
            Json::String(a) => match other {
                Json::String(b) => *a == *b,
                _ => false,
            },
            Json::Number(a) => match other {
                Json::Number(b) => a.same_spelling(b),
                _ => false,
            },
            Json::Bool(a) => match other {
                Json::Bool(b) => *a == *b,
                _ => false,
            },
            Json::Null => match other {
                Json::Null => true,
                _ => false,
            },
        }
    }
}

impl PartialEq for Json {
    fn eq(&self, other: &Json) -> (same: bool) {
        self.same_value(other)
    }
}

impl PartialEqSpecImpl for Json {
    open spec fn obeys_eq_spec() -> bool {
        true
    }

    open spec fn eq_spec(&self, other: &Json) -> bool {
        self@ == other@
    }
}

impl View for Json {
    type V = Value;

    open spec fn view(&self) -> Value {
        value_of(*self)
    }
}

impl View for Object {
    type V = Map<Seq<char>, Value>;

    open spec fn view(&self) -> Map<Seq<char>, Value> {
        self.members()
    }
}

} // verus!
