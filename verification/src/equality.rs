//! Structural equality of JSON values.

use vstd::prelude::*;
use crate::number::{is_nan, number_eq};
use crate::value::{distinct_keys, has_key, is_last, map_of, Json, JsonView, Object};

verus! {

/// Two trees are equal when they have the same variant and equal contents:
/// numbers are compared as numbers, arrays element by element in order, and
/// objects member by member, wherever the members stand.
pub open spec fn json_eq(a: JsonView, b: JsonView) -> bool
    decreases a,
{
    match (a, b) {
        (JsonView::Null, JsonView::Null) => true,
        (JsonView::Boolean(x), JsonView::Boolean(y)) => x == y,
        (JsonView::Number(x), JsonView::Number(y)) => number_eq(x, y),
        (JsonView::String(x), JsonView::String(y)) => x == y,
        (JsonView::Array(x), JsonView::Array(y)) => items_eq(x, y),
        (JsonView::Object(x), JsonView::Object(y)) => members_eq(x, y),
        _ => false,
    }
}

/// Two sequences of elements are equal when they have the same length and
/// equal elements at each position.
pub open spec fn items_eq(x: Seq<JsonView>, y: Seq<JsonView>) -> bool
    decreases x,
{
    &&& x.len() == y.len()
    &&& forall|i: int| 0 <= i < x.len() ==> json_eq(x[i], y[i])
}

/// Two sequences of members are equal when they have the same keys and, for
/// each key, equal values.
pub open spec fn members_eq(
    x: Seq<(Seq<char>, JsonView)>,
    y: Seq<(Seq<char>, JsonView)>,
) -> bool
    decreases x,
{
    &&& forall|k: Seq<char>| has_key(x, k) <==> has_key(y, k)
    &&& forall|i: int| is_last(x, i) ==> json_eq(x[i].1, map_of(y)[x[i].0])
}

/// No number in the tree is a NaN. In an object only the members count that
/// give the value of their key.
pub open spec fn nan_free(v: JsonView) -> bool
    decreases v,
{
    match v {
        JsonView::Number(x) => !is_nan(x),
        JsonView::Array(x) => forall|i: int| 0 <= i < x.len() ==> nan_free(x[i]),
        JsonView::Object(x) => forall|i: int| is_last(x, i) ==> nan_free(x[i].1),
        _ => true,
    }
}

/// A tree equals itself exactly when it holds no NaN: a NaN equals nothing, itself
/// included, and nothing else stands in the way.
pub proof fn lemma_eq_reflexive(a: JsonView)
    ensures
        json_eq(a, a) <==> nan_free(a),
    decreases a,
{
    match a {
        JsonView::Array(x) => {
            assert forall|i: int| 0 <= i < x.len() implies (json_eq(x[i], x[i]) <==> nan_free(
                x[i],
            )) by {
                lemma_eq_reflexive(x[i]);
            }
        },
        JsonView::Object(x) => {
            assert forall|i: int| is_last(x, i) implies (json_eq(x[i].1, map_of(x)[x[i].0])
                <==> nan_free(x[i].1)) by {
                crate::value::lemma_map_of_value(x, i);
                lemma_eq_reflexive(x[i].1);
            }
        },
        _ => {},
    }
}

proof fn lemma_eq_swap(a: JsonView, b: JsonView)
    requires
        json_eq(a, b),
    ensures
        json_eq(b, a),
    decreases a,
{
    match (a, b) {
        (JsonView::Array(x), JsonView::Array(y)) => {
            assert forall|i: int| 0 <= i < y.len() implies json_eq(y[i], x[i]) by {
                lemma_eq_swap(x[i], y[i]);
            }
        },
        (JsonView::Object(x), JsonView::Object(y)) => {
            assert forall|j: int| is_last(y, j) implies json_eq(y[j].1, map_of(x)[y[j].0]) by {
                let k = y[j].0;
                assert(has_key(y, k));
                let i = crate::value::lemma_last_of_key(x, k);
                crate::value::lemma_map_of_value(y, j);
                lemma_eq_swap(x[i].1, y[j].1);
            }
        },
        _ => {},
    }
}

/// Equality is symmetric.
pub proof fn lemma_eq_symmetric(a: JsonView, b: JsonView)
    ensures
        json_eq(a, b) == json_eq(b, a),
{
    if json_eq(a, b) {
        lemma_eq_swap(a, b);
    }
    if json_eq(b, a) {
        lemma_eq_swap(b, a);
    }
}

/// Equality is transitive.
pub proof fn lemma_eq_transitive(a: JsonView, b: JsonView, c: JsonView)
    requires
        json_eq(a, b),
        json_eq(b, c),
    ensures
        json_eq(a, c),
    decreases a,
{
    match (a, b, c) {
        (JsonView::Array(x), JsonView::Array(y), JsonView::Array(z)) => {
            assert forall|i: int| 0 <= i < x.len() implies json_eq(x[i], z[i]) by {
                lemma_eq_transitive(x[i], y[i], z[i]);
            }
        },
        (JsonView::Object(x), JsonView::Object(y), JsonView::Object(z)) => {
            assert forall|i: int| is_last(x, i) implies json_eq(x[i].1, map_of(z)[x[i].0]) by {
                let k = x[i].0;
                assert(has_key(x, k));
                let j = crate::value::lemma_last_of_key(y, k);
                lemma_eq_transitive(x[i].1, y[j].1, map_of(z)[k]);
            }
        },
        _ => {},
    }
}

/// The order of the elements of an array counts: exchanging two elements that are
/// not equal gives an array that is not equal to the first.
pub proof fn lemma_array_order_counts(items: Seq<JsonView>, i: int, j: int)
    requires
        0 <= i < items.len(),
        0 <= j < items.len(),
        !json_eq(items[i], items[j]),
    ensures
        !json_eq(
            JsonView::Array(items),
            JsonView::Array(items.update(i, items[j]).update(j, items[i])),
        ),
{
    let exchanged = items.update(i, items[j]).update(j, items[i]);
    lemma_eq_symmetric(items[i], items[j]);
    assert(exchanged[j] == items[i]);
}

/// Only the map of its members counts where an object is compared: two objects
/// with the same map compare alike with every tree.
pub proof fn lemma_eq_by_members(
    first: Seq<(Seq<char>, JsonView)>,
    second: Seq<(Seq<char>, JsonView)>,
    other: JsonView,
)
    requires
        map_of(first) == map_of(second),
    ensures
        json_eq(JsonView::Object(first), other) == json_eq(JsonView::Object(second), other),
        json_eq(other, JsonView::Object(first)) == json_eq(other, JsonView::Object(second)),
{
    if json_eq(JsonView::Object(first), other) {
        lemma_eq_by_members_one_way(first, second, other);
    }
    if json_eq(JsonView::Object(second), other) {
        lemma_eq_by_members_one_way(second, first, other);
    }
    lemma_eq_symmetric(JsonView::Object(first), other);
    lemma_eq_symmetric(JsonView::Object(second), other);
}

proof fn lemma_eq_by_members_one_way(
    first: Seq<(Seq<char>, JsonView)>,
    second: Seq<(Seq<char>, JsonView)>,
    other: JsonView,
)
    requires
        map_of(first) == map_of(second),
        json_eq(JsonView::Object(first), other),
    ensures
        json_eq(JsonView::Object(second), other),
{
    crate::value::lemma_map_of_keys(first);
    crate::value::lemma_map_of_keys(second);
    let z = other->Object_0;
    assert forall|k: Seq<char>| has_key(second, k) <==> has_key(z, k) by {
        assert(map_of(first).dom().contains(k) == map_of(second).dom().contains(k));
    }
    assert forall|j: int| is_last(second, j) implies json_eq(
        second[j].1,
        map_of(z)[second[j].0],
    ) by {
        let k = second[j].0;
        assert(has_key(second, k));
        assert(map_of(second).dom().contains(k));
        assert(has_key(first, k));
        let i = crate::value::lemma_last_of_key(first, k);
        crate::value::lemma_map_of_value(second, j);
    }
}

/// The order in which the members of an object are kept does not count: two
/// objects with the same members in another order compare alike with every
/// tree, and are equal to each other where they hold no NaN.
pub proof fn lemma_member_order_is_irrelevant(
    first: Seq<(Seq<char>, JsonView)>,
    second: Seq<(Seq<char>, JsonView)>,
    other: JsonView,
)
    requires
        distinct_keys(first),
        distinct_keys(second),
        forall|i: int| 0 <= i < first.len() ==> second.contains(#[trigger] first[i]),
        forall|i: int| 0 <= i < second.len() ==> first.contains(#[trigger] second[i]),
    ensures
        json_eq(JsonView::Object(first), other) == json_eq(JsonView::Object(second), other),
        json_eq(other, JsonView::Object(first)) == json_eq(other, JsonView::Object(second)),
        nan_free(JsonView::Object(first)) ==> json_eq(
            JsonView::Object(first),
            JsonView::Object(second),
        ),
{
    crate::value::lemma_map_of_order(first, second);
    lemma_eq_by_members(first, second, other);
    lemma_eq_by_members(first, second, JsonView::Object(first));
    lemma_eq_reflexive(JsonView::Object(first));
}

impl Json {
    /// Structural equality of two trees.
    pub fn equals(&self, other: &Json) -> (r: bool)
        ensures
            r == json_eq(self@, other@),
        decreases self,
    {
        match (self, other) {
            (Json::Null, Json::Null) => true,
            (Json::Boolean(x), Json::Boolean(y)) => *x == *y,
            (Json::Number(x), Json::Number(y)) => x.equals(y),
            (Json::String(x), Json::String(y)) => *x == *y,
            (Json::Array(x), Json::Array(y)) => {
                if x.len() != y.len() {
                    return false;
                }
                let mut i: usize = 0;
                while i < x.len()
                    invariant
                        *self == Json::Array(*x),
                        *other == Json::Array(*y),
                        x.len() == y.len(),
                        i <= x.len(),
                        forall|j: int| 0 <= j < i ==> json_eq(x[j]@, y[j]@),
                    decreases x.len() - i,
                {
                    proof {
                        assert(decreases_to!(*self => self->Array_0[i as int]));
                    }
                    if !x[i].equals(&y[i]) {
                        assert(self@->Array_0[i as int] == x[i as int]@);
                        assert(other@->Array_0[i as int] == y[i as int]@);
                        return false;
                    }
                    i += 1;
                }
                true
            },
            (Json::Object(x), Json::Object(y)) => x.equals(y),
            _ => false,
        }
    }
}

impl Object {
    /// Equality of two objects: the same keys, and an equal value for each key.
    pub fn equals(&self, other: &Object) -> (r: bool)
        ensures
            r == members_eq(self@, other@),
        decreases self,
    {
        proof {
            use_type_invariant(self);
            use_type_invariant(other);
            self.lemma_pairs();
            other.lemma_pairs();
            crate::value::lemma_map_of_len(self@);
            crate::value::lemma_map_of_len(other@);
            crate::value::lemma_map_of_keys(self@);
            crate::value::lemma_map_of_keys(other@);
            crate::value::lemma_distinct_are_last(self@);
            crate::value::lemma_distinct_are_last(other@);
        }
        if self.entries.len() != other.entries.len() {
            proof {
                if members_eq(self@, other@) {
                    assert forall|k: Seq<char>|
                        map_of(self@).dom().contains(k) == map_of(other@).dom().contains(k) by {
                        assert(has_key(self@, k) == has_key(other@, k));
                    }
                    assert(map_of(self@).dom() =~= map_of(other@).dom());
                }
            }
            return false;
        }
        let mut i: usize = 0;
        while i < self.entries.len()
            invariant
                i <= self.entries.len(),
                self@ == crate::value::pairs_of(self.entries@),
                other@ == crate::value::pairs_of(other.entries@),
                distinct_keys(self@),
                distinct_keys(other@),
                forall|j: int|
                    0 <= j < i ==> has_key(other@, (#[trigger] self@[j]).0) && json_eq(
                        self@[j].1,
                        map_of(other@)[self@[j].0],
                    ),
            decreases self.entries.len() - i,
        {
            proof {
                crate::value::lemma_distinct_are_last(self@);
                crate::value::lemma_distinct_are_last(other@);
                assert(self@[i as int] == (self.entries[i as int].0@, self.entries[i as int].1@));
                assert(has_key(self@, self@[i as int].0));
                assert(is_last(self@, i as int));
            }
            match other.find(&self.entries[i].0) {
                None => {
                    return false;
                },
                Some(at) => {
                    proof {
                        crate::value::lemma_map_of_value(other@, at as int);
                        assert(has_key(other@, other@[at as int].0));
                        assert(other@[at as int].1 == other.entries[at as int].1@);
                    }
                    if !self.entries[i].1.equals(&other.entries[at].1) {
                        return false;
                    }
                },
            }
            i += 1;
        }
        proof {
            crate::value::lemma_distinct_are_last(self@);
            assert(map_of(self@).dom().subset_of(map_of(other@).dom())) by {
                assert forall|k: Seq<char>| map_of(self@).dom().contains(k) implies map_of(
                    other@,
                ).dom().contains(k) by {
                    assert(has_key(self@, k));
                    let j = choose|j: int| 0 <= j < self@.len() && (#[trigger] self@[j]).0 == k;
                }
            }
            vstd::set_lib::lemma_subset_equality(map_of(self@).dom(), map_of(other@).dom());
            assert forall|k: Seq<char>| has_key(self@, k) <==> has_key(other@, k) by {
                assert(map_of(self@).dom().contains(k) == map_of(other@).dom().contains(k));
            }
        }
        true
    }
}

impl PartialEq for Json {
    fn eq(&self, other: &Json) -> (r: bool) {
        self.equals(other)
    }
}

impl vstd::std_specs::cmp::PartialEqSpecImpl for Json {
    open spec fn obeys_eq_spec() -> bool {
        true
    }

    open spec fn eq_spec(&self, other: &Json) -> bool {
        json_eq(self@, other@)
    }
}

impl PartialEq for Object {
    fn eq(&self, other: &Object) -> (r: bool) {
        self.equals(other)
    }
}

impl vstd::std_specs::cmp::PartialEqSpecImpl for Object {
    open spec fn obeys_eq_spec() -> bool {
        true
    }

    open spec fn eq_spec(&self, other: &Object) -> bool {
        members_eq(self@, other@)
    }
}

} // verus!

