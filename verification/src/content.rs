use crate::error::ParseError;
use vstd::prelude::*;

verus! {

/// The mathematical value that a tree of `Content` stands for. An object is
/// a map from names to values: the order in which its members were written
/// is not part of it.
pub enum Value {
    Null,
    Number(int),
    Text(Seq<char>),
    Object(Map<Seq<char>, Value>),
    Array(Seq<Value>),
}

impl Value {
    /// The member called `key` of an object; `Null` for a name it does not
    /// hold, and for anything that is no object.
    pub open spec fn get(self, key: Seq<char>) -> Value {
        match self {
            Value::Object(members) if members.contains_key(key) => members[key],
            _ => Value::Null,
        }
    }

    /// The element at `index` of an array; `Null` past its end, and for
    /// anything that is no array.
    pub open spec fn at(self, index: int) -> Value {
        match self {
            Value::Array(items) if 0 <= index < items.len() => items[index],
            _ => Value::Null,
        }
    }
}

/// A parsed document, or a part of one. Objects and arrays own their
/// children.
///
/// An object keeps its members in the order in which they were first
/// inserted. Where a name occurs more than once in that list, the last
/// occurrence is the member.
#[derive(Debug)]
pub enum Content {
    Null,
    Number(i32),
    StringLiteral(String),
    Object(Vec<(String, Content)>),
    Array(Vec<Content>),
}

/// The map that results from inserting `members` into `base` one after the
/// other: a later member replaces an earlier one of the same name.
pub open spec fn inserted(base: Map<Seq<char>, Value>, members: Seq<(Seq<char>, Value)>) -> Map<
    Seq<char>,
    Value,
>
    decreases members.len(),
{
    if members.len() == 0 {
        base
    } else {
        inserted(base, members.drop_last()).insert(members.last().0, members.last().1)
    }
}

/// The names and values of a list of members, in the order of the list.
pub open spec fn members_view(members: Seq<(String, Content)>) -> Seq<(Seq<char>, Value)>
    decreases members, 0nat,
{
    Seq::new(
        members.len(),
        |i: int|
            if 0 <= i < members.len() {
                (members[i].0@, content_value(members[i].1))
            } else {
                (Seq::empty(), Value::Null)
            },
    )
}

/// The values of a list of elements, in the order of the list.
pub open spec fn items_view(items: Seq<Content>) -> Seq<Value>
    decreases items, 0nat,
{
    Seq::new(
        items.len(),
        |i: int|
            if 0 <= i < items.len() {
                content_value(items[i])
            } else {
                Value::Null
            },
    )
}

pub open spec fn content_value(content: Content) -> Value
    decreases content, 1nat,
{
    match content {
        Content::Null => Value::Null,
        Content::Number(n) => Value::Number(n as int),
        Content::StringLiteral(text) => Value::Text(text@),
        Content::Object(members) => Value::Object(
            inserted(Map::empty(), members_view(members@)),
        ),
        Content::Array(items) => Value::Array(items_view(items@)),
    }
}

impl View for Content {
    type V = Value;

    open spec fn view(&self) -> Value {
        content_value(*self)
    }
}

/// No name occurs twice among `members`.
pub open spec fn distinct_names(members: Seq<(String, Content)>) -> bool {
    forall|i: int, j: int|
        0 <= i < j < members.len() ==> (#[trigger] members[i]).0@ != (#[trigger] members[j]).0@
}

/// Every object in the tree holds each name once.
pub open spec fn well_formed(content: Content) -> bool
    decreases content,
{
    match content {
        Content::Object(members) => distinct_names(members@) && forall|i: int|
            0 <= i < members@.len() ==> well_formed((#[trigger] members@[i]).1),
        Content::Array(items) => forall|i: int|
            0 <= i < items@.len() ==> well_formed(#[trigger] items@[i]),
        _ => true,
    }
}

/// Inserting a list with one more member at its end inserts that member
/// last.
pub proof fn lemma_inserted_push(
    base: Map<Seq<char>, Value>,
    members: Seq<(Seq<char>, Value)>,
    member: (Seq<char>, Value),
)
    ensures
        inserted(base, members.push(member)) == inserted(base, members).insert(
            member.0,
            member.1,
        ),
{
    assert(members.push(member).drop_last() =~= members);
}

/// A name that no member carries is in the map only if it was in `base`.
pub proof fn lemma_inserted_absent(
    base: Map<Seq<char>, Value>,
    members: Seq<(Seq<char>, Value)>,
    key: Seq<char>,
)
    requires
        forall|i: int| 0 <= i < members.len() ==> (#[trigger] members[i]).0 != key,
    ensures
        inserted(base, members).contains_key(key) == base.contains_key(key),
        base.contains_key(key) ==> inserted(base, members)[key] == base[key],
    decreases members.len(),
{
    if members.len() > 0 {
        lemma_inserted_absent(base, members.drop_last(), key);
    }
}

/// The map gives a name the value of the last member that carries it.
pub proof fn lemma_inserted_last(
    base: Map<Seq<char>, Value>,
    members: Seq<(Seq<char>, Value)>,
    key: Seq<char>,
    at: int,
)
    requires
        0 <= at < members.len(),
        members[at].0 == key,
        forall|j: int| at < j < members.len() ==> (#[trigger] members[j]).0 != key,
    ensures
        inserted(base, members).contains_key(key),
        inserted(base, members)[key] == members[at].1,
    decreases members.len(),
{
    if at < members.len() - 1 {
        lemma_inserted_last(base, members.drop_last(), key, at);
    }
}

/// Replacing the last member of a name by another of that name inserts the
/// new one into the map.
pub proof fn lemma_inserted_update(
    base: Map<Seq<char>, Value>,
    members: Seq<(Seq<char>, Value)>,
    at: int,
    member: (Seq<char>, Value),
)
    requires
        0 <= at < members.len(),
        members[at].0 == member.0,
        forall|j: int| at < j < members.len() ==> (#[trigger] members[j]).0 != member.0,
    ensures
        inserted(base, members.update(at, member)) == inserted(base, members).insert(
            member.0,
            member.1,
        ),
    decreases members.len(),
{
    let updated = members.update(at, member);
    if at == members.len() - 1 {
        assert(updated.drop_last() =~= members.drop_last());
    } else {
        lemma_inserted_update(base, members.drop_last(), at, member);
        assert(updated.drop_last() =~= members.drop_last().update(at, member));
    }
}

/// The index of the last member called `key`, if there is one.
pub(crate) fn find_member(members: &Vec<(String, Content)>, key: &String) -> (r: Option<usize>)
    ensures
        match r {
            Some(at) => at < members@.len() && members@[at as int].0@ == key@ && forall|j: int|
                at < j < members@.len() ==> (#[trigger] members@[j]).0@ != key@,
            None => forall|j: int|
                0 <= j < members@.len() ==> (#[trigger] members@[j]).0@ != key@,
        },
{
    let mut i = members.len();
    while i > 0
        invariant
            i <= members@.len(),
            forall|j: int| i <= j < members@.len() ==> (#[trigger] members@[j]).0@ != key@,
        decreases i,
    {
        i = i - 1;
        if members[i].0 == *key {
            return Some(i);
        }
    }
    None
}

impl Content {
    /// An object without members.
    pub fn object() -> (r: Content)
        ensures
            r@ == Value::Object(Map::empty()),
            well_formed(r),
    {
        Content::Object(Vec::new())
    }

    /// An array without elements.
    pub fn array() -> (r: Content)
        ensures
            r@ == Value::Array(Seq::empty()),
            well_formed(r),
    {
        let r = Content::Array(Vec::new());
        assert(r@->Array_0 =~= Seq::<Value>::empty());
        r
    }

    /// Makes `value` the member called `key` of an object, in place of the
    /// member of that name if there is one. Anything but an object is left
    /// as it is, and `TokenError` says so.
    pub fn insert(&mut self, key: String, value: Content) -> (r: Result<(), ParseError>)
        ensures
            match old(self)@ {
                Value::Object(members) => r is Ok && final(self)@ == Value::Object(
                    members.insert(key@, value@),
                ),
                _ => r == Err::<(), ParseError>(ParseError::TokenError) && *final(self) == *old(
                    self,
                ),
            },
            well_formed(*old(self)) && well_formed(value) ==> well_formed(*final(self)),
    {
        match self {
            Content::Object(members) => {
                let ghost before = members_view(members@);
                let ghost member = (key@, value@);
                match find_member(members, &key) {
                    Some(at) => {
                        proof {
                            lemma_inserted_update(Map::empty(), before, at as int, member);
                        }
                        members.set(at, (key, value));
                        assert(members_view(members@) =~= before.update(at as int, member));
                    },
                    None => {
                        proof {
                            lemma_inserted_push(Map::empty(), before, member);
                        }
                        members.push((key, value));
                        assert(members_view(members@) =~= before.push(member));
                    },
                }
                Ok(())
            },
            _ => Err(ParseError::TokenError),
        }
    }

    /// Appends `value` to an array. Anything but an array is left as it is,
    /// and `TokenError` says so.
    pub fn push(&mut self, value: Content) -> (r: Result<(), ParseError>)
        ensures
            match old(self)@ {
                Value::Array(items) => r is Ok && final(self)@ == Value::Array(items.push(value@)),
                _ => r == Err::<(), ParseError>(ParseError::TokenError) && *final(self) == *old(
                    self,
                ),
            },
            well_formed(*old(self)) && well_formed(value) ==> well_formed(*final(self)),
    {
        match self {
            Content::Array(items) => {
                let ghost before = items_view(items@);
                items.push(value);
                assert(items_view(items@) =~= before.push(value@));
                Ok(())
            },
            _ => Err(ParseError::TokenError),
        }
    }

    /// The member called `key`, where `self` is an object that holds one;
    /// `Null` otherwise.
    pub fn get(&self, key: &str) -> (r: &Content)
        ensures
            r@ == self@.get(key@),
            well_formed(*self) ==> well_formed(*r),
    {
        match self {
            Content::Object(members) => {
                let name = key.to_owned();
                match find_member(members, &name) {
                    Some(at) => {
                        proof {
                            lemma_inserted_last(
                                Map::empty(),
                                members_view(members@),
                                key@,
                                at as int,
                            );
                        }
                        &members[at].1
                    },
                    None => {
                        proof {
                            lemma_inserted_absent(Map::empty(), members_view(members@), key@);
                        }
                        &Content::Null
                    },
                }
            },
            _ => &Content::Null,
        }
    }

    /// The element at `index`, where `self` is an array that long; `Null`
    /// otherwise.
    pub fn at(&self, index: usize) -> (r: &Content)
        ensures
            r@ == self@.at(index as int),
            well_formed(*self) ==> well_formed(*r),
    {
        match self {
            Content::Array(items) => {
                if index < items.len() {
                    &items[index]
                } else {
                    &Content::Null
                }
            },
            _ => &Content::Null,
        }
    }
}

} // verus!
