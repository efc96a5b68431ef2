//! Literal descriptions of JSON values, and the builder that turns one into a
//! tree.
//!
//! A literal is what a front end hands over: nested lists and mappings with
//! native scalars at the leaves. A mapping pairs key nodes with value nodes; a
//! key has to be a text.

use vstd::prelude::*;
use crate::equality::{json_eq, nan_free};
use crate::number::Double;
use crate::rounding::double_of_int;
use crate::single::{double_of_single, Single};
use crate::value::{collected, is_last, map_of, Json, JsonView, Object};

verus! {

/// A native scalar, as it stands at a leaf of a literal.
#[derive(Debug)]
pub enum Scalar {
    Boolean(bool),
    Text(String),
    I8(i8),
    I16(i16),
    I32(i32),
    I64(i64),
    I128(i128),
    Isize(isize),
    U8(u8),
    U16(u16),
    U32(u32),
    U64(u64),
    U128(u128),
    Usize(usize),
    Single(Single),
    Double(Double),
}

/// What a scalar stands for: a truth value, a text, an integer, or the bit
/// pattern of a binary32 or binary64 number. The width of an integer is not part
/// of it.
pub ghost enum ScalarView {
    Boolean(bool),
    Text(Seq<char>),
    Integer(int),
    Single(u32),
    Double(u64),
}

impl View for Scalar {
    type V = ScalarView;

    open spec fn view(&self) -> ScalarView {
        match self {
            Scalar::Boolean(b) => ScalarView::Boolean(*b),
            Scalar::Text(s) => ScalarView::Text(s@),
            Scalar::I8(i) => ScalarView::Integer(*i as int),
            Scalar::I16(i) => ScalarView::Integer(*i as int),
            Scalar::I32(i) => ScalarView::Integer(*i as int),
            Scalar::I64(i) => ScalarView::Integer(*i as int),
            Scalar::I128(i) => ScalarView::Integer(*i as int),
            Scalar::Isize(i) => ScalarView::Integer(*i as int),
            Scalar::U8(n) => ScalarView::Integer(*n as int),
            Scalar::U16(n) => ScalarView::Integer(*n as int),
            Scalar::U32(n) => ScalarView::Integer(*n as int),
            Scalar::U64(n) => ScalarView::Integer(*n as int),
            Scalar::U128(n) => ScalarView::Integer(*n as int),
            Scalar::Usize(n) => ScalarView::Integer(*n as int),
            Scalar::Single(s) => ScalarView::Single(s@),
            Scalar::Double(d) => ScalarView::Double(d@),
        }
    }
}

/// A node of a literal description.
#[derive(Debug)]
pub enum Literal {
    Null,
    Scalar(Scalar),
    List(Vec<Literal>),
    Mapping(Vec<(Literal, Literal)>),
}

/// The mathematical value of a literal description.
pub ghost enum LiteralView {
    Null,
    Scalar(ScalarView),
    List(Seq<LiteralView>),
    Mapping(Seq<(LiteralView, LiteralView)>),
}

impl Literal {
    /// The mathematical value of the description.
    pub open spec fn shape(self) -> LiteralView
        decreases self,
    {
        match self {
            Literal::Null => LiteralView::Null,
            Literal::Scalar(s) => LiteralView::Scalar(s@),
            Literal::List(items) => LiteralView::List(
                Seq::new(
                    items.len() as nat,
                    |i: int|
                        if 0 <= i < items.len() {
                            items[i].shape()
                        } else {
                            LiteralView::Null
                        },
                ),
            ),
            Literal::Mapping(entries) => LiteralView::Mapping(
                Seq::new(
                    entries.len() as nat,
                    |i: int|
                        if 0 <= i < entries.len() {
                            (entries[i].0.shape(), entries[i].1.shape())
                        } else {
                            (LiteralView::Null, LiteralView::Null)
                        },
                ),
            ),
        }
    }
}

impl View for Literal {
    type V = LiteralView;

    open spec fn view(&self) -> LiteralView {
        self.shape()
    }
}

impl Clone for Scalar {
    fn clone(&self) -> (r: Scalar)
        ensures
            r@ == self@,
    {
        match self {
            Scalar::Boolean(b) => Scalar::Boolean(*b),
            Scalar::Text(s) => Scalar::Text(s.clone()),
            Scalar::I8(i) => Scalar::I8(*i),
            Scalar::I16(i) => Scalar::I16(*i),
            Scalar::I32(i) => Scalar::I32(*i),
            Scalar::I64(i) => Scalar::I64(*i),
            Scalar::I128(i) => Scalar::I128(*i),
            Scalar::Isize(i) => Scalar::Isize(*i),
            Scalar::U8(n) => Scalar::U8(*n),
            Scalar::U16(n) => Scalar::U16(*n),
            Scalar::U32(n) => Scalar::U32(*n),
            Scalar::U64(n) => Scalar::U64(*n),
            Scalar::U128(n) => Scalar::U128(*n),
            Scalar::Usize(n) => Scalar::Usize(*n),
            Scalar::Single(s) => Scalar::Single(*s),
            Scalar::Double(d) => Scalar::Double(*d),
        }
    }
}

impl Literal {
    fn duplicate(&self) -> (r: Literal)
        ensures
            r@ == self@,
        decreases self,
    {
        match self {
            Literal::Null => Literal::Null,
            Literal::Scalar(s) => Literal::Scalar(s.clone()),
            Literal::List(items) => {
                let mut copy: Vec<Literal> = Vec::new();
                let mut i: usize = 0;
                while i < items.len()
                    invariant
                        *self == Literal::List(*items),
                        i <= items.len(),
                        copy.len() == i,
                        forall|j: int| 0 <= j < i ==> copy[j]@ == items[j]@,
                    decreases items.len() - i,
                {
                    proof {
                        assert(decreases_to!(*self => self->List_0[i as int]));
                    }
                    copy.push(items[i].duplicate());
                    i += 1;
                }
                assert(Literal::List(copy)@->List_0 =~= self@->List_0);
                Literal::List(copy)
            },
            Literal::Mapping(entries) => {
                let mut copy: Vec<(Literal, Literal)> = Vec::new();
                let mut i: usize = 0;
                while i < entries.len()
                    invariant
                        *self == Literal::Mapping(*entries),
                        i <= entries.len(),
                        copy.len() == i,
                        forall|j: int|
                            0 <= j < i ==> copy[j].0@ == entries[j].0@ && copy[j].1@
                                == entries[j].1@,
                    decreases entries.len() - i,
                {
                    proof {
                        assert(decreases_to!(*self => self->Mapping_0[i as int].0));
                        assert(decreases_to!(*self => self->Mapping_0[i as int].1));
                    }
                    copy.push((entries[i].0.duplicate(), entries[i].1.duplicate()));
                    i += 1;
                }
                assert(Literal::Mapping(copy)@->Mapping_0 =~= self@->Mapping_0);
                Literal::Mapping(copy)
            },
        }
    }
}

impl Clone for Literal {
    fn clone(&self) -> (r: Literal)
        ensures
            r@ == self@,
    {
        self.duplicate()
    }
}

/// The leaf that a scalar becomes: a boolean a `Boolean`, a text a `String`, an
/// integer the `Number` that it is rounded to, a binary32 number the `Number`
/// that it is widened to, and a binary64 number the `Number` that holds it.
pub open spec fn leaf(s: ScalarView) -> JsonView {
    match s {
        ScalarView::Boolean(b) => JsonView::Boolean(b),
        ScalarView::Text(t) => JsonView::String(t),
        ScalarView::Integer(i) => JsonView::Number(double_of_int(i)),
        ScalarView::Single(bits) => JsonView::Number(double_of_single(bits)),
        ScalarView::Double(bits) => JsonView::Number(bits),
    }
}

/// The node is a text, as the key of a mapping has to be.
pub open spec fn is_text(node: LiteralView) -> bool {
    node matches LiteralView::Scalar(ScalarView::Text(_))
}

/// The text of a key.
pub open spec fn text_of(node: LiteralView) -> Seq<char>
    recommends
        is_text(node),
{
    match node {
        LiteralView::Scalar(ScalarView::Text(t)) => t,
        _ => Seq::empty(),
    }
}

/// The place of the first key, in reading order, that is not a text: the
/// positions to follow from the root, the last one being that of the mapping's
/// entry with the key. `None` when every key is a text.
pub open spec fn first_fault(node: LiteralView) -> Option<Seq<int>>
    decreases node, 0nat,
{
    match node {
        LiteralView::List(items) => first_fault_in_items(items, 0),
        LiteralView::Mapping(entries) => first_fault_in_entries(entries, 0),
        _ => None,
    }
}

/// The first fault in the items of a list from position `from` on.
pub open spec fn first_fault_in_items(items: Seq<LiteralView>, from: int) -> Option<Seq<int>>
    decreases items, items.len() - from,
{
    if 0 <= from < items.len() {
        match first_fault(items[from]) {
            Some(path) => Some(seq![from] + path),
            None => first_fault_in_items(items, from + 1),
        }
    } else {
        None
    }
}

/// The first fault in the entries of a mapping from position `from` on.
pub open spec fn first_fault_in_entries(
    entries: Seq<(LiteralView, LiteralView)>,
    from: int,
) -> Option<Seq<int>>
    decreases entries, entries.len() - from,
{
    if 0 <= from < entries.len() {
        if !is_text(entries[from].0) {
            Some(seq![from])
        } else {
            match first_fault(entries[from].1) {
                Some(path) => Some(seq![from] + path),
                None => first_fault_in_entries(entries, from + 1),
            }
        }
    } else {
        None
    }
}

/// The keys and built values of the entries of a mapping.
pub open spec fn built_pairs(entries: Seq<(LiteralView, LiteralView)>) -> Seq<
    (Seq<char>, JsonView),
>
    decreases entries, 1nat,
{
    Seq::new(
        entries.len(),
        |i: int|
            if 0 <= i < entries.len() {
                (text_of(entries[i].0), built(entries[i].1))
            } else {
                (Seq::empty(), JsonView::Null)
            },
    )
}

/// The tree that a literal describes: a list becomes the array of what its items
/// describe, in order, and a mapping the object that what its entries describe
/// is collected into: its members stand in the order of the entries, and a later
/// entry replaces the value of an earlier one with the same key.
pub open spec fn built(node: LiteralView) -> JsonView
    decreases node, 0nat,
{
    match node {
        LiteralView::Null => JsonView::Null,
        LiteralView::Scalar(s) => leaf(s),
        LiteralView::List(items) => JsonView::Array(
            Seq::new(
                items.len(),
                |i: int|
                    if 0 <= i < items.len() {
                        built(items[i])
                    } else {
                        JsonView::Null
                    },
            ),
        ),
        LiteralView::Mapping(entries) => JsonView::Object(collected(built_pairs(entries))),
    }
}

/// Every key of every mapping in the literal is a text.
pub open spec fn keys_are_texts(node: LiteralView) -> bool
    decreases node,
{
    match node {
        LiteralView::List(items) => forall|i: int|
            0 <= i < items.len() ==> keys_are_texts(items[i]),
        LiteralView::Mapping(entries) => forall|i: int|
            0 <= i < entries.len() ==> is_text(entries[i].0) && keys_are_texts(entries[i].1),
        _ => true,
    }
}

/// No two entries of the mapping have the same key.
pub open spec fn keys_are_distinct(entries: Seq<(LiteralView, LiteralView)>) -> bool {
    forall|i: int, j: int|
        0 <= i < j < entries.len() ==> text_of((#[trigger] entries[i]).0) != text_of(
            (#[trigger] entries[j]).0,
        )
}

/// There is no fault exactly when every key is a text.
pub proof fn lemma_fault_free(node: LiteralView)
    ensures
        first_fault(node) is None <==> keys_are_texts(node),
    decreases node, 0nat,
{
    match node {
        LiteralView::List(items) => {
            lemma_fault_free_items(items, 0);
        },
        LiteralView::Mapping(entries) => {
            lemma_fault_free_entries(entries, 0);
        },
        _ => {},
    }
}

proof fn lemma_fault_free_items(items: Seq<LiteralView>, from: int)
    requires
        0 <= from,
    ensures
        first_fault_in_items(items, from) is None <==> forall|i: int|
            from <= i < items.len() ==> keys_are_texts(items[i]),
    decreases items, items.len() - from,
{
    if from < items.len() {
        lemma_fault_free(items[from]);
        lemma_fault_free_items(items, from + 1);
    }
}

proof fn lemma_fault_free_entries(entries: Seq<(LiteralView, LiteralView)>, from: int)
    requires
        0 <= from,
    ensures
        first_fault_in_entries(entries, from) is None <==> forall|i: int|
            from <= i < entries.len() ==> is_text(entries[i].0) && keys_are_texts(entries[i].1),
    decreases entries, entries.len() - from,
{
    if from < entries.len() {
        lemma_fault_free(entries[from].1);
        lemma_fault_free_entries(entries, from + 1);
    }
}

/// A list is built item by item, and the items keep their order.
pub proof fn lemma_list_keeps_order(items: Seq<LiteralView>)
    ensures
        built(LiteralView::List(items)) == JsonView::Array(
            Seq::new(items.len(), |i: int| built(items[i])),
        ),
{
    assert(built(LiteralView::List(items))->Array_0 =~= Seq::new(
        items.len(),
        |i: int| built(items[i]),
    ));
}

/// Of the entries of a mapping that share a key the last one gives the value:
/// an entry that no later entry repeats the key of is a member of the object.
pub proof fn lemma_last_entry_wins(entries: Seq<(LiteralView, LiteralView)>, i: int)
    requires
        0 <= i < entries.len(),
        forall|j: int|
            i < j < entries.len() ==> text_of((#[trigger] entries[j]).0) != text_of(entries[i].0),
    ensures
        built(LiteralView::Mapping(entries)) matches JsonView::Object(members) && map_of(
            members,
        ).dom().contains(text_of(entries[i].0)) && map_of(members)[text_of(entries[i].0)] == built(
            entries[i].1,
        ),
{
    let pairs = built_pairs(entries);
    assert(is_last(pairs, i)) by {
        assert forall|j: int| i < j < pairs.len() implies (#[trigger] pairs[j]).0 != pairs[i].0 by {
            assert(entries[j].0 == entries[j].0);
        }
    }
    crate::value::lemma_map_of_value(pairs, i);
    crate::value::lemma_collected(pairs);
}

/// A mapping with distinct keys is built into the object that has its entries
/// as members, in their order: exactly its keys, each with the value that its
/// entry describes.
pub proof fn lemma_mapping_builds_members(entries: Seq<(LiteralView, LiteralView)>)
    requires
        keys_are_distinct(entries),
    ensures
        built(LiteralView::Mapping(entries)) == JsonView::Object(built_pairs(entries)),
        forall|i: int|
            0 <= i < entries.len() ==> (#[trigger] built_pairs(entries)[i]) == (
                text_of(entries[i].0),
                built(entries[i].1),
            ),
        forall|k: Seq<char>|
            map_of(built_pairs(entries)).dom().contains(k) <==> exists|i: int|
                0 <= i < entries.len() && text_of((#[trigger] entries[i]).0) == k,
        forall|i: int|
            0 <= i < entries.len() ==> map_of(built_pairs(entries))[text_of(
                (#[trigger] entries[i]).0,
            )] == built(entries[i].1),
{
    let pairs = built_pairs(entries);
    let members = map_of(pairs);
    assert(crate::value::distinct_keys(pairs)) by {
        assert forall|i: int, j: int| 0 <= i < j < pairs.len() implies (#[trigger] pairs[i]).0 != (
        #[trigger] pairs[j]).0 by {
            assert(text_of(entries[i].0) != text_of(entries[j].0));
        }
    }
    crate::value::lemma_collected_distinct(pairs);
    crate::value::lemma_map_of_keys(pairs);
    crate::value::lemma_distinct_are_last(pairs);
    assert forall|k: Seq<char>|
        members.dom().contains(k) <==> exists|i: int|
            0 <= i < entries.len() && text_of((#[trigger] entries[i]).0) == k by {
        if members.dom().contains(k) {
            assert(crate::value::has_key(pairs, k));
            let i = choose|i: int| 0 <= i < pairs.len() && (#[trigger] pairs[i]).0 == k;
            assert(text_of(entries[i].0) == k);
        }
        if exists|i: int| 0 <= i < entries.len() && text_of((#[trigger] entries[i]).0) == k {
            let i = choose|i: int|
                0 <= i < entries.len() && text_of((#[trigger] entries[i]).0) == k;
            assert(pairs[i].0 == k);
            assert(crate::value::has_key(pairs, k));
        }
    }
    assert forall|i: int| 0 <= i < entries.len() implies members[text_of(
        (#[trigger] entries[i]).0,
    )] == built(entries[i].1) by {
        crate::value::lemma_map_of_value(pairs, i);
    }
}

/// The order of the entries of a mapping does not count: two mappings with
/// distinct keys that hold the same entries are built into objects that
/// compare alike with every tree, and that are equal to each other where they
/// hold no NaN.
pub proof fn lemma_entry_order_is_irrelevant(
    first: Seq<(LiteralView, LiteralView)>,
    second: Seq<(LiteralView, LiteralView)>,
    other: JsonView,
)
    requires
        keys_are_distinct(first),
        keys_are_distinct(second),
        forall|i: int| 0 <= i < first.len() ==> second.contains(#[trigger] first[i]),
        forall|i: int| 0 <= i < second.len() ==> first.contains(#[trigger] second[i]),
    ensures
        json_eq(built(LiteralView::Mapping(first)), other) == json_eq(
            built(LiteralView::Mapping(second)),
            other,
        ),
        json_eq(other, built(LiteralView::Mapping(first))) == json_eq(
            other,
            built(LiteralView::Mapping(second)),
        ),
        nan_free(built(LiteralView::Mapping(first))) ==> json_eq(
            built(LiteralView::Mapping(first)),
            built(LiteralView::Mapping(second)),
        ),
{
    lemma_mapping_builds_members(first);
    lemma_mapping_builds_members(second);
    let a = built_pairs(first);
    let b = built_pairs(second);
    lemma_same_pairs(first, second);
    lemma_same_pairs(second, first);
    lemma_distinct_pairs(first);
    lemma_distinct_pairs(second);
    crate::equality::lemma_member_order_is_irrelevant(a, b, other);
}

proof fn lemma_distinct_pairs(entries: Seq<(LiteralView, LiteralView)>)
    requires
        keys_are_distinct(entries),
    ensures
        crate::value::distinct_keys(built_pairs(entries)),
{
    let pairs = built_pairs(entries);
    assert forall|i: int, j: int| 0 <= i < j < pairs.len() implies (#[trigger] pairs[i]).0 != (
    #[trigger] pairs[j]).0 by {
        assert(text_of(entries[i].0) != text_of(entries[j].0));
    }
}

proof fn lemma_same_pairs(
    first: Seq<(LiteralView, LiteralView)>,
    second: Seq<(LiteralView, LiteralView)>,
)
    requires
        forall|i: int| 0 <= i < first.len() ==> second.contains(#[trigger] first[i]),
    ensures
        forall|i: int|
            0 <= i < built_pairs(first).len() ==> built_pairs(second).contains(
                #[trigger] built_pairs(first)[i],
            ),
{
    let a = built_pairs(first);
    let b = built_pairs(second);
    assert forall|i: int| 0 <= i < a.len() implies b.contains(#[trigger] a[i]) by {
        assert(second.contains(first[i]));
        let j = choose|j: int| 0 <= j < second.len() && second[j] == first[i];
        assert(b[j] == a[i]);
    }
}

/// Why a literal could not be built: it holds a mapping with a key that is not a
/// text.
#[derive(Debug, PartialEq, Eq)]
pub struct ShapeError {
    /// The place of the offending key: the positions to follow from the root,
    /// through list items and the values of mapping entries, the last one being
    /// that of the entry with the key.
    pub path: Vec<usize>,
}

impl View for ShapeError {
    type V = Seq<int>;

    open spec fn view(&self) -> Seq<int> {
        Seq::new(self.path@.len(), |i: int| self.path@[i] as int)
    }
}

impl Clone for ShapeError {
    fn clone(&self) -> (r: ShapeError)
        ensures
            r@ == self@,
    {
        ShapeError { path: self.path.clone() }
    }
}

impl From<Scalar> for Json {
    /// A scalar becomes the leaf that the conversion from its native type gives.
    fn from(s: Scalar) -> (r: Json)
        ensures
            r@ == leaf(s@),
    {
        match s {
            Scalar::Boolean(b) => Json::from(b),
            Scalar::Text(t) => Json::from(t),
            Scalar::I8(i) => Json::from(i),
            Scalar::I16(i) => Json::from(i),
            Scalar::I32(i) => Json::from(i),
            Scalar::I64(i) => Json::from(i),
            Scalar::I128(i) => Json::from(i),
            Scalar::Isize(i) => Json::from(i),
            Scalar::U8(n) => Json::from(n),
            Scalar::U16(n) => Json::from(n),
            Scalar::U32(n) => Json::from(n),
            Scalar::U64(n) => Json::from(n),
            Scalar::U128(n) => Json::from(n),
            Scalar::Usize(n) => Json::from(n),
            Scalar::Single(s) => Json::from(s),
            Scalar::Double(d) => Json::from(d),
        }
    }
}

impl vstd::std_specs::convert::FromSpecImpl<Scalar> for Json {
    open spec fn obeys_from_spec() -> bool {
        false
    }

    open spec fn from_spec(s: Scalar) -> Json {
        choose|json: Json| json@ == leaf(s@)
    }
}

/// The error that names the entry at position `i` of a mapping.
fn fault_at(i: usize) -> (e: ShapeError)
    ensures
        e@ == seq![i as int],
{
    let mut path: Vec<usize> = Vec::new();
    path.push(i);
    let e = ShapeError { path };
    assert(e@ =~= seq![i as int]);
    e
}

/// The error of a child at position `i`, seen from its parent.
fn fault_below(i: usize, inner: ShapeError) -> (e: ShapeError)
    ensures
        e@ == seq![i as int] + inner@,
{
    let mut path = inner.path;
    path.insert(0, i);
    let e = ShapeError { path };
    assert(e@ =~= seq![i as int] + inner@);
    e
}

/// Builds the tree that a literal describes. The first key, in reading order,
/// that is not a text stops the work and is reported.
///
/// The work descends by one call for each level of nesting, so the depth of a
/// literal is bounded by the stack of the machine alone.
pub fn build_from_literal(node: Literal) -> (r: Result<Json, ShapeError>)
    ensures
        match r {
            Ok(json) => first_fault(node@) is None && json@ == built(node@),
            Err(e) => first_fault(node@) == Some(e@),
        },
    decreases node,
{
    match node {
        Literal::Null => Ok(Json::Null),
        Literal::Scalar(s) => Ok(Json::from(s)),
        Literal::List(items) => {
            let ghost shapes = node@->List_0;
            let mut array: Vec<Json> = Vec::new();
            let mut i: usize = 0;
            for item in it: items
                invariant
                    node is List,
                    it.seq() == node->List_0@,
                    shapes == node@->List_0,
                    i == it.index(),
                    array.len() == i,
                    forall|j: int| 0 <= j < i ==> array[j]@ == built(shapes[j]),
                    first_fault(node@) == first_fault_in_items(shapes, i as int),
            {
                proof {
                    assert(item == node->List_0[i as int]);
                    assert(decreases_to!(node => node->List_0[i as int]));
                    assert(item@ == shapes[i as int]);
                }
                match build_from_literal(item) {
                    Ok(json) => {
                        array.push(json);
                    },
                    Err(e) => {
                        return Err(fault_below(i, e));
                    },
                }
                i = i + 1;
            }
            proof {
                assert(Json::Array(array)@->Array_0 =~= built(node@)->Array_0);
            }
            Ok(Json::Array(array))
        },
        Literal::Mapping(entries) => {
            let ghost shapes = node@->Mapping_0;
            let mut object = Object::new();
            let mut i: usize = 0;
            for entry in it: entries
                invariant
                    node is Mapping,
                    it.seq() == node->Mapping_0@,
                    shapes == node@->Mapping_0,
                    i == it.index(),
                    object@ == collected(built_pairs(shapes).take(i as int)),
                    first_fault(node@) == first_fault_in_entries(shapes, i as int),
            {
                proof {
                    assert(entry == node->Mapping_0[i as int]);
                    assert(decreases_to!(node => node->Mapping_0[i as int].1));
                    assert(entry.0@ == shapes[i as int].0);
                    assert(entry.1@ == shapes[i as int].1);
                }
                let (key, value) = entry;
                let text = match key {
                    Literal::Scalar(Scalar::Text(text)) => text,
                    _ => {
                        return Err(fault_at(i));
                    },
                };
                match build_from_literal(value) {
                    Ok(json) => {
                        proof {
                            let pairs = built_pairs(shapes);
                            assert(pairs.take(i + 1).drop_last() =~= pairs.take(i as int));
                            assert(pairs.take(i + 1).last() == (text@, json@));
                        }
                        object = object.with(text, json);
                    },
                    Err(e) => {
                        return Err(fault_below(i, e));
                    },
                }
                i = i + 1;
            }
            proof {
                let pairs = built_pairs(shapes);
                assert(pairs.take(pairs.len() as int) =~= pairs);
            }
            Ok(Json::Object(Box::new(object)))
        },
    }
}

} // verus!
