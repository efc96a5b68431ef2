//! The JSON value model and its mathematical view.

use vstd::prelude::*;
use crate::number::Double;

verus! {

/// The mathematical value of a JSON tree.
///
/// A number is held as its binary64 bit pattern, a string as its characters, an
/// array as the sequence of its elements, and an object as the sequence of its
/// members, each a key and a value, in the order in which they are kept. What
/// an object means is the map of its members, [`map_of`]; the order shows only
/// where the tree is written out.
pub ghost enum JsonView {
    Null,
    Boolean(bool),
    Number(u64),
    String(Seq<char>),
    Array(Seq<JsonView>),
    Object(Seq<(Seq<char>, JsonView)>),
}

/// The map that a sequence of key/value pairs denotes: a later pair replaces an
/// earlier one with the same key.
pub open spec fn map_of(pairs: Seq<(Seq<char>, JsonView)>) -> Map<Seq<char>, JsonView>
    decreases pairs.len(),
{
    if pairs.len() == 0 {
        Map::empty()
    } else {
        map_of(pairs.drop_last()).insert(pairs.last().0, pairs.last().1)
    }
}

/// The key `k` occurs in `pairs`.
pub open spec fn has_key(pairs: Seq<(Seq<char>, JsonView)>, k: Seq<char>) -> bool {
    exists|i: int| 0 <= i < pairs.len() && (#[trigger] pairs[i]).0 == k
}

/// No key occurs twice in `pairs`.
pub open spec fn distinct_keys(pairs: Seq<(Seq<char>, JsonView)>) -> bool {
    forall|i: int, j: int|
        0 <= i < j < pairs.len() ==> (#[trigger] pairs[i]).0 != (#[trigger] pairs[j]).0
}

/// No later pair has the key of the pair at position `i`: the pair gives the
/// value of its key.
pub open spec fn is_last(pairs: Seq<(Seq<char>, JsonView)>, i: int) -> bool {
    &&& 0 <= i < pairs.len()
    &&& forall|j: int| i < j < pairs.len() ==> (#[trigger] pairs[j]).0 != pairs[i].0
}

/// The pairs with the key `k` set to the value `v`: a pair that has the key is
/// replaced where it stands, and a new pair is added at the end.
pub open spec fn put(pairs: Seq<(Seq<char>, JsonView)>, k: Seq<char>, v: JsonView) -> Seq<
    (Seq<char>, JsonView),
> {
    if has_key(pairs, k) {
        let i = choose|i: int| 0 <= i < pairs.len() && (#[trigger] pairs[i]).0 == k;
        pairs.update(i, (k, v))
    } else {
        pairs.push((k, v))
    }
}

/// The members that a sequence of key/value pairs is collected into: the pairs
/// are put one after the other, so that no key is left twice and a later pair
/// replaces the value of an earlier one with the same key.
pub open spec fn collected(pairs: Seq<(Seq<char>, JsonView)>) -> Seq<(Seq<char>, JsonView)>
    decreases pairs.len(),
{
    if pairs.len() == 0 {
        Seq::empty()
    } else {
        put(collected(pairs.drop_last()), pairs.last().0, pairs.last().1)
    }
}

/// The keys of `map_of(pairs)` are the keys that occur in `pairs`, and there are
/// finitely many of them.
pub proof fn lemma_map_of_keys(pairs: Seq<(Seq<char>, JsonView)>)
    ensures
        map_of(pairs).dom().finite(),
        forall|k: Seq<char>| map_of(pairs).dom().contains(k) <==> has_key(pairs, k),
    decreases pairs.len(),
{
    if pairs.len() > 0 {
        let front = pairs.drop_last();
        lemma_map_of_keys(front);
        assert forall|k: Seq<char>| map_of(pairs).dom().contains(k) <==> has_key(pairs, k) by {
            if has_key(pairs, k) {
                let i = choose|i: int| 0 <= i < pairs.len() && (#[trigger] pairs[i]).0 == k;
                if i < pairs.len() - 1 {
                    assert(front[i].0 == k);
                    assert(has_key(front, k));
                    assert(map_of(front).dom().contains(k));
                }
            }
            if map_of(pairs).dom().contains(k) {
                if k == pairs.last().0 {
                    assert(pairs[pairs.len() - 1].0 == k);
                } else {
                    assert(map_of(front).dom().contains(k));
                    assert(has_key(front, k));
                    let i = choose|i: int| 0 <= i < front.len() && (#[trigger] front[i]).0 == k;
                    assert(pairs[i].0 == k);
                }
            }
        }
    }
}

/// The last pair with a key gives the value of the key.
pub proof fn lemma_map_of_value(pairs: Seq<(Seq<char>, JsonView)>, i: int)
    requires
        is_last(pairs, i),
    ensures
        map_of(pairs).dom().contains(pairs[i].0),
        map_of(pairs)[pairs[i].0] == pairs[i].1,
    decreases pairs.len(),
{
    if i < pairs.len() - 1 {
        let front = pairs.drop_last();
        assert(front[i] == pairs[i]);
        assert(is_last(front, i)) by {
            assert forall|j: int| i < j < front.len() implies (#[trigger] front[j]).0
                != front[i].0 by {
                assert(front[j] == pairs[j]);
            }
        }
        lemma_map_of_value(front, i);
        assert(pairs[pairs.len() - 1].0 != pairs[i].0);
    }
}

/// With distinct keys there are as many keys in the map as there are pairs.
pub proof fn lemma_map_of_len(pairs: Seq<(Seq<char>, JsonView)>)
    requires
        distinct_keys(pairs),
    ensures
        map_of(pairs).dom().finite(),
        map_of(pairs).dom().len() == pairs.len(),
    decreases pairs.len(),
{
    lemma_map_of_keys(pairs);
    if pairs.len() > 0 {
        let front = pairs.drop_last();
        assert(distinct_keys(front)) by {
            assert forall|i: int, j: int| 0 <= i < j < front.len() implies (#[trigger] front[i]).0
                != (#[trigger] front[j]).0 by {
                assert(front[i] == pairs[i] && front[j] == pairs[j]);
            }
        }
        lemma_map_of_len(front);
        lemma_map_of_keys(front);
        if has_key(front, pairs.last().0) {
            let i = choose|i: int|
                0 <= i < front.len() && (#[trigger] front[i]).0 == pairs.last().0;
            assert(front[i] == pairs[i]);
            assert(pairs[pairs.len() - 1].0 == pairs[i].0);
        }
    }
}

/// Appending a pair inserts it into the map.
pub proof fn lemma_map_of_push(pairs: Seq<(Seq<char>, JsonView)>, k: Seq<char>, v: JsonView)
    ensures
        map_of(pairs.push((k, v))) == map_of(pairs).insert(k, v),
{
    assert(pairs.push((k, v)).drop_last() =~= pairs);
}

/// With distinct keys, replacing the value of the pair that holds `k` is the same
/// as inserting `k` into the map.
pub proof fn lemma_map_of_update(
    pairs: Seq<(Seq<char>, JsonView)>,
    i: int,
    v: JsonView,
)
    requires
        distinct_keys(pairs),
        0 <= i < pairs.len(),
    ensures
        map_of(pairs.update(i, (pairs[i].0, v))) == map_of(pairs).insert(pairs[i].0, v),
    decreases pairs.len(),
{
    let k = pairs[i].0;
    let updated = pairs.update(i, (k, v));
    let front = pairs.drop_last();
    if i == pairs.len() - 1 {
        assert(updated.drop_last() =~= front);
        assert(map_of(updated) =~= map_of(pairs).insert(k, v));
    } else {
        assert(distinct_keys(front)) by {
            assert forall|a: int, b: int| 0 <= a < b < front.len() implies (#[trigger] front[a]).0
                != (#[trigger] front[b]).0 by {
                assert(front[a] == pairs[a] && front[b] == pairs[b]);
            }
        }
        assert(front[i] == pairs[i]);
        lemma_map_of_update(front, i, v);
        assert(updated.drop_last() =~= front.update(i, (k, v)));
        assert(pairs[pairs.len() - 1].0 != pairs[i].0);
        assert(updated.last() == pairs.last());
        assert(map_of(updated) =~= map_of(pairs).insert(k, v));
    }
}

/// The order of the pairs does not count: two sequences with distinct keys that
/// hold the same pairs denote the same map.
pub proof fn lemma_map_of_order(
    first: Seq<(Seq<char>, JsonView)>,
    second: Seq<(Seq<char>, JsonView)>,
)
    requires
        distinct_keys(first),
        distinct_keys(second),
        forall|i: int| 0 <= i < first.len() ==> second.contains(#[trigger] first[i]),
        forall|i: int| 0 <= i < second.len() ==> first.contains(#[trigger] second[i]),
    ensures
        map_of(first) == map_of(second),
{
    let a = map_of(first);
    let b = map_of(second);
    lemma_map_of_keys(first);
    lemma_map_of_keys(second);
    assert forall|k: Seq<char>| #[trigger] a.dom().contains(k) implies b.dom().contains(k) && a[k]
        == b[k] by {
        assert(has_key(first, k));
        let i = choose|i: int| 0 <= i < first.len() && (#[trigger] first[i]).0 == k;
        lemma_map_of_value(first, i);
        assert(second.contains(first[i]));
        let j = choose|j: int| 0 <= j < second.len() && second[j] == first[i];
        lemma_map_of_value(second, j);
    }
    assert forall|k: Seq<char>| #[trigger] b.dom().contains(k) implies a.dom().contains(k) by {
        assert(has_key(second, k));
        let j = choose|j: int| 0 <= j < second.len() && (#[trigger] second[j]).0 == k;
        assert(first.contains(second[j]));
        let i = choose|i: int| 0 <= i < first.len() && first[i] == second[j];
        assert(first[i].0 == k);
        assert(has_key(first, k));
    }
    assert(a.dom() =~= b.dom());
    assert(a =~= b);
}

/// A key that occurs has a last pair.
pub proof fn lemma_last_of_key(pairs: Seq<(Seq<char>, JsonView)>, k: Seq<char>) -> (i: int)
    requires
        has_key(pairs, k),
    ensures
        is_last(pairs, i),
        pairs[i].0 == k,
        map_of(pairs)[k] == pairs[i].1,
    decreases pairs.len(),
{
    let at = pairs.len() - 1;
    if pairs[at].0 == k {
        lemma_map_of_value(pairs, at);
        at
    } else {
        let front = pairs.drop_last();
        let found = choose|j: int| 0 <= j < pairs.len() && (#[trigger] pairs[j]).0 == k;
        assert(front[found].0 == k);
        let i = lemma_last_of_key(front, k);
        assert(is_last(pairs, i)) by {
            assert forall|j: int| i < j < pairs.len() implies (#[trigger] pairs[j]).0
                != pairs[i].0 by {
                if j < at {
                    assert(front[j] == pairs[j]);
                }
            }
        }
        lemma_map_of_value(pairs, i);
        i
    }
}

/// With distinct keys every pair is the last one with its key.
pub proof fn lemma_distinct_are_last(pairs: Seq<(Seq<char>, JsonView)>)
    requires
        distinct_keys(pairs),
    ensures
        forall|i: int| 0 <= i < pairs.len() ==> is_last(pairs, i),
{
}

/// Putting a pair keeps the keys distinct and inserts the pair into the map.
pub proof fn lemma_put(pairs: Seq<(Seq<char>, JsonView)>, k: Seq<char>, v: JsonView)
    requires
        distinct_keys(pairs),
    ensures
        distinct_keys(put(pairs, k, v)),
        map_of(put(pairs, k, v)) == map_of(pairs).insert(k, v),
{
    let next = put(pairs, k, v);
    if has_key(pairs, k) {
        let i = choose|i: int| 0 <= i < pairs.len() && (#[trigger] pairs[i]).0 == k;
        lemma_map_of_update(pairs, i, v);
        assert forall|a: int, b: int| 0 <= a < b < next.len() implies (#[trigger] next[a]).0 != (
        #[trigger] next[b]).0 by {
            assert(next[a].0 == pairs[a].0 && next[b].0 == pairs[b].0);
        }
    } else {
        lemma_map_of_push(pairs, k, v);
        assert forall|a: int, b: int| 0 <= a < b < next.len() implies (#[trigger] next[a]).0 != (
        #[trigger] next[b]).0 by {
            if b == pairs.len() {
                assert(pairs[a].0 == next[a].0);
            } else {
                assert(pairs[a] == next[a] && pairs[b] == next[b]);
            }
        }
    }
}

/// Collected pairs have distinct keys and denote the same map as the pairs they
/// were collected from.
pub proof fn lemma_collected(pairs: Seq<(Seq<char>, JsonView)>)
    ensures
        distinct_keys(collected(pairs)),
        map_of(collected(pairs)) == map_of(pairs),
    decreases pairs.len(),
{
    if pairs.len() > 0 {
        lemma_collected(pairs.drop_last());
        lemma_put(collected(pairs.drop_last()), pairs.last().0, pairs.last().1);
    }
}

/// Pairs with distinct keys are collected as they stand.
pub proof fn lemma_collected_distinct(pairs: Seq<(Seq<char>, JsonView)>)
    requires
        distinct_keys(pairs),
    ensures
        collected(pairs) == pairs,
    decreases pairs.len(),
{
    if pairs.len() > 0 {
        let front = pairs.drop_last();
        assert(distinct_keys(front)) by {
            assert forall|i: int, j: int| 0 <= i < j < front.len() implies (#[trigger] front[i]).0
                != (#[trigger] front[j]).0 by {
                assert(front[i] == pairs[i] && front[j] == pairs[j]);
            }
        }
        lemma_collected_distinct(front);
        if has_key(front, pairs.last().0) {
            let i = choose|i: int|
                0 <= i < front.len() && (#[trigger] front[i]).0 == pairs.last().0;
            assert(front[i] == pairs[i]);
            assert(pairs[pairs.len() - 1].0 == pairs[i].0);
        }
        assert(front.push(pairs.last()) =~= pairs);
    }
}

/// A JSON value.
#[derive(Debug)]
pub enum Json {
    Null,
    Boolean(bool),
    Number(Double),
    String(String),
    Array(Vec<Json>),
    Object(Box<Object>),
}

/// The members of a JSON object: text keys with their values, no key twice. The
/// members are kept in the order in which their keys were first put.
#[derive(Debug)]
pub struct Object {
    pub(crate) entries: Vec<(String, Json)>,
}

/// The keys and mathematical values of a sequence of entries.
pub open spec fn pairs_of(entries: Seq<(String, Json)>) -> Seq<(Seq<char>, JsonView)> {
    Seq::new(entries.len(), |i: int| (entries[i].0@, entries[i].1@))
}

impl Json {
    /// The mathematical value of the tree.
    pub open spec fn tree(self) -> JsonView
        decreases self,
    {
        match self {
            Json::Null => JsonView::Null,
            Json::Boolean(b) => JsonView::Boolean(b),
            Json::Number(n) => JsonView::Number(n@),
            Json::String(s) => JsonView::String(s@),
            Json::Array(items) => JsonView::Array(
                Seq::new(
                    items.len() as nat,
                    |i: int|
                        if 0 <= i < items.len() {
                            items[i].tree()
                        } else {
                            JsonView::Null
                        },
                ),
            ),
            Json::Object(object) => JsonView::Object(object.pairs()),
        }
    }

    fn duplicate(&self) -> (r: Json)
        ensures
            r@ == self@,
        decreases self,
    {
        match self {
            Json::Null => Json::Null,
            Json::Boolean(b) => Json::Boolean(*b),
            Json::Number(n) => Json::Number(*n),
            Json::String(s) => Json::String(s.clone()),
            Json::Array(items) => {
                let mut copy: Vec<Json> = Vec::new();
                let mut i: usize = 0;
                while i < items.len()
                    invariant
                        *self == Json::Array(*items),
                        i <= items.len(),
                        copy.len() == i,
                        forall|j: int| 0 <= j < i ==> copy[j]@ == items[j]@,
                    decreases items.len() - i,
                {
                    proof {
                        assert(decreases_to!(*self => self->Array_0[i as int]));
                    }
                    copy.push(items[i].duplicate());
                    i += 1;
                }
                assert(Json::Array(copy)@->Array_0 =~= self@->Array_0);
                Json::Array(copy)
            },
            Json::Object(object) => Json::Object(Box::new(object.duplicate())),
        }
    }
}

impl Object {
    /// The keys and the mathematical values of the members, in the order in
    /// which they are kept.
    pub closed spec fn pairs(self) -> Seq<(Seq<char>, JsonView)>
        decreases self,
    {
        Seq::new(
            self.entries.len() as nat,
            |i: int|
                if 0 <= i < self.entries.len() {
                    (self.entries[i].0@, self.entries[i].1.tree())
                } else {
                    (Seq::empty(), JsonView::Null)
                },
        )
    }

    /// The map from the keys to the mathematical values of the members.
    pub open spec fn members(self) -> Map<Seq<char>, JsonView> {
        map_of(self.pairs())
    }

    #[verifier::type_invariant]
    pub(crate) closed spec fn well_formed(self) -> bool {
        distinct_keys(pairs_of(self.entries@))
    }

    /// The view is made of the keys and the views of the entries.
    pub(crate) proof fn lemma_pairs(self)
        ensures
            self@ == pairs_of(self.entries@),
            self.well_formed() == distinct_keys(self@),
    {
        assert(self.pairs() =~= pairs_of(self.entries@));
    }

    /// An object without members.
    pub fn new() -> (r: Object)
        ensures
            r@ == Seq::<(Seq<char>, JsonView)>::empty(),
    {
        let r = Object { entries: Vec::new() };
        proof {
            r.lemma_pairs();
            assert(r@ =~= Seq::<(Seq<char>, JsonView)>::empty());
        }
        r
    }

    /// The number of members. No two of them have the same key.
    pub fn len(&self) -> (n: usize)
        ensures
            n == self@.len(),
            distinct_keys(self@),
    {
        proof {
            use_type_invariant(self);
            self.lemma_pairs();
        }
        self.entries.len()
    }

    /// Whether the object has no members.
    pub fn is_empty(&self) -> (r: bool)
        ensures
            r == (self@.len() == 0),
    {
        proof {
            self.lemma_pairs();
        }
        self.entries.len() == 0
    }

    /// The member at position `i`: its key and its value.
    pub fn entry(&self, i: usize) -> (r: Option<(&String, &Json)>)
        ensures
            match r {
                Some((key, value)) => i < self@.len() && (key@, value@) == self@[i as int],
                None => i >= self@.len(),
            },
    {
        proof {
            self.lemma_pairs();
        }
        if i < self.entries.len() {
            Some((&self.entries[i].0, &self.entries[i].1))
        } else {
            None
        }
    }

    /// The position of the member with the given key.
    pub(crate) fn find(&self, key: &String) -> (r: Option<usize>)
        ensures
            match r {
                Some(i) => i < self.entries.len() && self@[i as int].0 == key@,
                None => !has_key(self@, key@),
            },
    {
        proof {
            self.lemma_pairs();
        }
        let mut i: usize = 0;
        while i < self.entries.len()
            invariant
                i <= self.entries.len(),
                self@ == pairs_of(self.entries@),
                forall|j: int| 0 <= j < i ==> (#[trigger] self@[j]).0 != key@,
            decreases self.entries.len() - i,
        {
            if self.entries[i].0 == *key {
                return Some(i);
            }
            i += 1;
        }
        None
    }

    /// The value of the member with the given key, if there is one.
    pub fn get(&self, key: &str) -> (r: Option<&Json>)
        ensures
            match r {
                Some(value) => self.members().dom().contains(key@) && value@
                    == self.members()[key@],
                None => !self.members().dom().contains(key@),
            },
    {
        let owned: String = key.to_owned();
        proof {
            use_type_invariant(self);
            self.lemma_pairs();
            lemma_map_of_keys(self@);
            lemma_distinct_are_last(self@);
        }
        match self.find(&owned) {
            Some(i) => {
                proof {
                    lemma_map_of_value(self@, i as int);
                }
                Some(&self.entries[i].1)
            },
            None => None,
        }
    }

    /// Whether there is a member with the given key.
    pub fn contains_key(&self, key: &str) -> (r: bool)
        ensures
            r == self.members().dom().contains(key@),
    {
        let owned: String = key.to_owned();
        proof {
            lemma_map_of_keys(self@);
        }
        match self.find(&owned) {
            Some(i) => {
                assert(has_key(self@, self@[i as int].0));
                true
            },
            None => false,
        }
    }

    /// The object with the given key set to the given value. A member that had
    /// the key is replaced where it stands; a new member is added at the end.
    pub fn with(self, key: String, value: Json) -> (r: Object)
        ensures
            r@ == put(self@, key@, value@),
            r.members() == self.members().insert(key@, value@),
            distinct_keys(r@),
    {
        proof {
            use_type_invariant(&self);
            self.lemma_pairs();
            lemma_put(self@, key@, value@);
        }
        let found = self.find(&key);
        let mut entries = self.entries;
        match found {
            Some(i) => {
                entries.set(i, (key, value));
                proof {
                    let at = choose|at: int|
                        0 <= at < self@.len() && (#[trigger] self@[at]).0 == key@;
                    assert(pairs_of(entries@) =~= self@.update(at, (key@, value@)));
                }
            },
            None => {
                entries.push((key, value));
                proof {
                    assert(pairs_of(entries@) =~= self@.push((key@, value@)));
                }
            },
        }
        let r = Object { entries };
        proof {
            r.lemma_pairs();
        }
        r
    }

    /// The object that the given pairs are collected into: of two pairs with the
    /// same key the later one gives the value, at the place of the earlier one.
    pub fn from_pairs(pairs: Vec<(String, Json)>) -> (r: Object)
        ensures
            r@ == collected(pairs_of(pairs@)),
            r.members() == map_of(pairs_of(pairs@)),
            distinct_keys(r@),
    {
        let mut object = Object::new();
        let ghost all = pairs@;
        for pair in it: pairs
            invariant
                it.seq() == all,
                object@ == collected(pairs_of(all.take(it.index()))),
        {
            proof {
                let done = it.index();
                assert(pairs_of(all.take(done + 1)).drop_last() =~= pairs_of(all.take(done)));
            }
            object = object.with(pair.0, pair.1);
        }
        proof {
            assert(all.take(all.len() as int) =~= all);
            lemma_collected(pairs_of(all));
        }
        object
    }

    fn duplicate(&self) -> (r: Object)
        ensures
            r@ == self@,
        decreases self,
    {
        let mut copy: Vec<(String, Json)> = Vec::new();
        let mut i: usize = 0;
        while i < self.entries.len()
            invariant
                i <= self.entries.len(),
                copy.len() == i,
                forall|j: int|
                    0 <= j < i ==> copy[j].0@ == self.entries[j].0@ && copy[j].1@
                        == self.entries[j].1@,
            decreases self.entries.len() - i,
        {
            copy.push((self.entries[i].0.clone(), self.entries[i].1.duplicate()));
            i += 1;
        }
        proof {
            use_type_invariant(self);
            assert(pairs_of(copy@) =~= pairs_of(self.entries@));
        }
        let r = Object { entries: copy };
        proof {
            r.lemma_pairs();
            self.lemma_pairs();
        }
        r
    }
}

impl View for Json {
    type V = JsonView;

    open spec fn view(&self) -> JsonView {
        self.tree()
    }
}

impl View for Object {
    type V = Seq<(Seq<char>, JsonView)>;

    open spec fn view(&self) -> Seq<(Seq<char>, JsonView)> {
        self.pairs()
    }
}

impl Clone for Json {
    fn clone(&self) -> (r: Json)
        ensures
            r@ == self@,
    {
        self.duplicate()
    }
}

impl Clone for Object {
    fn clone(&self) -> (r: Object)
        ensures
            r@ == self@,
    {
        self.duplicate()
    }
}

} // verus!
