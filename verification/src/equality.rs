use crate::content::{
    find_member, inserted, items_view, lemma_inserted_absent, lemma_inserted_last, members_view,
    Content, Value,
};
use vstd::prelude::*;
use vstd::std_specs::cmp::PartialEqSpecImpl;

verus! {

/// A name that the map holds and `base` does not is the name of a member.
pub proof fn lemma_inserted_present(
    base: Map<Seq<char>, Value>,
    members: Seq<(Seq<char>, Value)>,
    key: Seq<char>,
)
    requires
        inserted(base, members).contains_key(key),
        !base.contains_key(key),
    ensures
        exists|i: int| 0 <= i < members.len() && (#[trigger] members[i]).0 == key,
{
    if !(exists|i: int| 0 <= i < members.len() && (#[trigger] members[i]).0 == key) {
        lemma_inserted_absent(base, members, key);
    }
}

/// The name of every member is in the map.
pub proof fn lemma_inserted_member(
    base: Map<Seq<char>, Value>,
    members: Seq<(Seq<char>, Value)>,
    at: int,
)
    requires
        0 <= at < members.len(),
    ensures
        inserted(base, members).contains_key(members[at].0),
    decreases members.len(),
{
    if at < members.len() - 1 {
        lemma_inserted_member(base, members.drop_last(), at);
    }
}

/// The map of the members of an object.
pub open spec fn object_map(members: Seq<(String, Content)>) -> Map<Seq<char>, Value> {
    inserted(Map::empty(), members_view(members))
}

/// Whether `right` gives every name of `left` the value that `left` gives
/// it.
fn agrees(tree: &Content, left: &Vec<(String, Content)>, right: &Vec<(String, Content)>) -> (r:
    bool)
    requires
        *tree == Content::Object(*left),
    ensures
        r == (forall|key: Seq<char>| #[trigger]
            object_map(left@).contains_key(key) ==> object_map(right@).contains_key(key)
                && object_map(left@)[key] == object_map(right@)[key]),
    decreases tree, 0nat,
{
    let mut i: usize = 0;
    while i < left.len()
        invariant
            *tree == Content::Object(*left),
            i <= left@.len(),
            forall|k: int|
                0 <= k < i ==> object_map(left@).contains_key((#[trigger] left@[k]).0@)
                    && object_map(right@).contains_key(left@[k].0@) && object_map(
                    left@,
                )[left@[k].0@] == object_map(right@)[left@[k].0@],
        decreases left@.len() - i,
    {
        let key = &left[i].0;
        proof {
            lemma_inserted_member(Map::empty(), members_view(left@), i as int);
            assert(object_map(left@).contains_key(key@));
        }
        match (find_member(left, key), find_member(right, key)) {
            (Some(a), Some(b)) => {
                proof {
                    lemma_inserted_last(Map::empty(), members_view(left@), key@, a as int);
                    lemma_inserted_last(Map::empty(), members_view(right@), key@, b as int);
                    assert(decreases_to!(*tree => tree->Object_0));
                }
                if !same(&left[a].1, &right[b].1) {
                    return false;
                }
            },
            (Some(a), None) => {
                proof {
                    lemma_inserted_absent(Map::empty(), members_view(right@), key@);
                }
                return false;
            },
            (None, _) => {
                return false;
            },
        }
        i = i + 1;
    }
    proof {
        assert forall|key: Seq<char>| #[trigger]
            object_map(left@).contains_key(key) implies object_map(right@).contains_key(key)
            && object_map(left@)[key] == object_map(right@)[key] by {
            lemma_inserted_present(Map::empty(), members_view(left@), key);
            let k = choose|k: int|
                0 <= k < members_view(left@).len() && (#[trigger] members_view(left@)[k]).0 == key;
            assert(left@[k].0@ == key);
        }
    }
    true
}

/// Whether every name of `left` is a name of `right`.
fn names_within(left: &Vec<(String, Content)>, right: &Vec<(String, Content)>) -> (r: bool)
    ensures
        r == (forall|key: Seq<char>| #[trigger]
            object_map(left@).contains_key(key) ==> object_map(right@).contains_key(key)),
{
    let mut i: usize = 0;
    while i < left.len()
        invariant
            i <= left@.len(),
            forall|k: int|
                0 <= k < i ==> object_map(right@).contains_key((#[trigger] left@[k]).0@),
        decreases left@.len() - i,
    {
        let key = &left[i].0;
        proof {
            lemma_inserted_member(Map::empty(), members_view(left@), i as int);
            assert(object_map(left@).contains_key(key@));
        }
        match find_member(right, key) {
            Some(b) => {
                proof {
                    lemma_inserted_last(Map::empty(), members_view(right@), key@, b as int);
                }
            },
            None => {
                proof {
                    lemma_inserted_absent(Map::empty(), members_view(right@), key@);
                }
                return false;
            },
        }
        i = i + 1;
    }
    proof {
        assert forall|key: Seq<char>| #[trigger]
            object_map(left@).contains_key(key) implies object_map(right@).contains_key(key) by {
            lemma_inserted_present(Map::empty(), members_view(left@), key);
            let k = choose|k: int|
                0 <= k < members_view(left@).len() && (#[trigger] members_view(left@)[k]).0 == key;
            assert(left@[k].0@ == key);
        }
    }
    true
}

/// Whether two trees stand for the same value. The order in which the
/// members of an object are listed makes no difference.
pub fn same(left: &Content, right: &Content) -> (r: bool)
    ensures
        r == (left@ == right@),
    decreases left, 1nat,
{
    match (left, right) {
        (Content::Null, Content::Null) => true,
        (Content::Number(a), Content::Number(b)) => *a == *b,
        (Content::StringLiteral(a), Content::StringLiteral(b)) => *a == *b,
        (Content::Object(a), Content::Object(b)) => {
            let r = agrees(left, a, b) && names_within(b, a);
            proof {
                if r {
                    assert(object_map(a@) =~= object_map(b@));
                }
            }
            r
        },
        (Content::Array(a), Content::Array(b)) => {
            if a.len() != b.len() {
                assert(items_view(a@).len() != items_view(b@).len());
                return false;
            }
            let mut i: usize = 0;
            while i < a.len()
                invariant
                    *left == Content::Array(*a),
                    left@ == Value::Array(items_view(a@)),
                    right@ == Value::Array(items_view(b@)),
                    a@.len() == b@.len(),
                    i <= a@.len(),
                    forall|k: int| 0 <= k < i ==> (#[trigger] a@[k])@ == b@[k]@,
                decreases a@.len() - i,
            {
                if !same(&a[i], &b[i]) {
                    assert(items_view(a@)[i as int] != items_view(b@)[i as int]);
                    return false;
                }
                i = i + 1;
            }
            assert(items_view(a@) =~= items_view(b@));
            true
        },
        _ => false,
    }
}

impl PartialEq for Content {
    fn eq(&self, other: &Content) -> (r: bool) {
        same(self, other)
    }
}

impl PartialEqSpecImpl for Content {
    open spec fn obeys_eq_spec() -> bool {
        true
    }

    open spec fn eq_spec(&self, other: &Content) -> bool {
        self@ == other@
    }
}

} // verus!
