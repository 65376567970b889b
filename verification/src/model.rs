//! The value tree produced by a parse, and its mathematical model.

use vstd::prelude::*;

verus! {

broadcast use vstd::std_specs::vec::group_vec_axioms, vstd::seq::group_seq_axioms;

/// The mathematical model of a parsed number: the signed 32-bit integer part
/// (accumulated with wrap-around, the documented overflow behaviour), the
/// fraction digits as written, and the signed 32-bit exponent. The numeric
/// quantity it denotes is `(int_part + 0.frac_digits) * 10^exp`.
pub struct NumberModel {
    pub int_part: i32,
    pub frac_digits: Seq<u8>,
    pub exp: i32,
}

/// The mathematical model of a parsed value: a tagged union over the JSON
/// datatypes. An object is a sequence of key/value pairs with pairwise
/// distinct keys, kept in first-insertion order.
pub enum JsonModel {
    Object(Seq<(Seq<char>, JsonModel)>),
    Array(Seq<JsonModel>),
    Str(Seq<char>),
    Number(NumberModel),
    True,
    False,
    Null,
}

/// A parsed number: signed 32-bit integer part, fraction digits (each 0..=9,
/// empty when the text had no fraction), and signed 32-bit exponent.
#[derive(Debug, PartialEq)]
pub struct Number {
    pub int_part: i32,
    pub frac_digits: Vec<u8>,
    pub exp: i32,
}

/// A parsed JSON value. Every value reachable from a parse result was
/// produced by matching one grammar production; a failed parse exposes no
/// partial tree.
#[derive(Debug, PartialEq)]
pub enum Value {
    /// Key/value pairs with pairwise distinct keys; a duplicate key in the
    /// input overwrites the earlier entry in place (last write wins).
    Object(Vec<(Vec<char>, Value)>),
    Array(Vec<Value>),
    Str(Vec<char>),
    Number(Number),
    True,
    False,
    Null,
}

impl Number {
    /// The model of this number.
    pub open spec fn model(self) -> NumberModel {
        NumberModel { int_part: self.int_part, frac_digits: self.frac_digits@, exp: self.exp }
    }
}

impl Value {
    /// The model of this value: the same tree over `Seq` and `NumberModel`.
    pub open spec fn model(self) -> JsonModel
        decreases self, 1int,
    {
        match self {
            Value::Object(entries) => JsonModel::Object(entry_models(entries@)),
            Value::Array(elems) => JsonModel::Array(elem_models(elems@)),
            Value::Str(text) => JsonModel::Str(text@),
            Value::Number(n) => JsonModel::Number(n.model()),
            Value::True => JsonModel::True,
            Value::False => JsonModel::False,
            Value::Null => JsonModel::Null,
        }
    }
}

/// The models of an object's entries, pairwise.
pub open spec fn entry_models(entries: Seq<(Vec<char>, Value)>) -> Seq<(Seq<char>, JsonModel)>
    decreases entries, 0int,
{
    if entries.len() == 0 {
        Seq::empty()
    } else {
        seq![(entries[0].0@, entries[0].1.model())] + entry_models(entries.drop_first())
    }
}

/// The models of an array's elements, pointwise.
pub open spec fn elem_models(elems: Seq<Value>) -> Seq<JsonModel>
    decreases elems, 0int,
{
    if elems.len() == 0 {
        Seq::empty()
    } else {
        seq![elems[0].model()] + elem_models(elems.drop_first())
    }
}

/// `entry_models` acts pointwise: it keeps the length and models each pair.
pub proof fn lemma_entry_models(entries: Seq<(Vec<char>, Value)>)
    ensures
        entry_models(entries).len() == entries.len(),
        forall|q: int|
            0 <= q < entries.len() ==> entry_models(entries)[q] == (
            entries[q].0@,
            entries[q].1.model(),
            ),
    decreases entries.len(),
{
    if entries.len() > 0 {
        lemma_entry_models(entries.drop_first());
        assert forall|q: int| 0 <= q < entries.len() implies entry_models(entries)[q] == (
            entries[q].0@,
            entries[q].1.model(),
        ) by {
            if q > 0 {
                assert(entries.drop_first()[q - 1] == entries[q]);
            }
        }
    }
}

/// `elem_models` acts pointwise: it keeps the length and models each element.
pub proof fn lemma_elem_models(elems: Seq<Value>)
    ensures
        elem_models(elems).len() == elems.len(),
        forall|q: int| 0 <= q < elems.len() ==> elem_models(elems)[q] == elems[q].model(),
    decreases elems.len(),
{
    if elems.len() > 0 {
        lemma_elem_models(elems.drop_first());
        assert forall|q: int| 0 <= q < elems.len() implies elem_models(elems)[q]
            == elems[q].model() by {
            if q > 0 {
                assert(elems.drop_first()[q - 1] == elems[q]);
            }
        }
    }
}

/// Appending an element commutes with taking models.
pub proof fn lemma_elem_models_push(elems: Seq<Value>, v: Value)
    ensures
        elem_models(elems.push(v)) == elem_models(elems).push(v.model()),
{
    lemma_elem_models(elems);
    lemma_elem_models(elems.push(v));
    assert(elem_models(elems.push(v)) =~= elem_models(elems).push(v.model()));
}

/// The index of the first entry with key `k`, or `entries.len()` when no
/// entry has that key.
pub open spec fn obj_key_idx(entries: Seq<(Seq<char>, JsonModel)>, k: Seq<char>) -> int
    decreases entries.len(),
{
    if entries.len() == 0 {
        0
    } else if entries[0].0 == k {
        0
    } else {
        1 + obj_key_idx(entries.drop_first(), k)
    }
}

/// Insertion with last-write-wins semantics: an existing entry with the same
/// key is overwritten in place, otherwise the pair is appended.
pub open spec fn obj_insert(
    entries: Seq<(Seq<char>, JsonModel)>,
    k: Seq<char>,
    v: JsonModel,
) -> Seq<(Seq<char>, JsonModel)> {
    if obj_key_idx(entries, k) < entries.len() {
        entries.update(obj_key_idx(entries, k), (k, v))
    } else {
        entries.push((k, v))
    }
}

/// The value mapped to key `k`, or `None` when no entry has that key.
pub open spec fn obj_lookup(entries: Seq<(Seq<char>, JsonModel)>, k: Seq<char>) -> Option<
    JsonModel,
> {
    if obj_key_idx(entries, k) < entries.len() {
        Some(entries[obj_key_idx(entries, k)].1)
    } else {
        None
    }
}

/// The keys of the entries are pairwise distinct.
pub open spec fn obj_keys_unique(entries: Seq<(Seq<char>, JsonModel)>) -> bool {
    forall|a: int, b: int|
        0 <= a < b < entries.len() ==> entries[a].0 != entries[b].0
}

/// A well-formed tree: every object in it has pairwise-distinct keys.
pub open spec fn wf_model(m: JsonModel) -> bool
    decreases m,
{
    match m {
        JsonModel::Object(entries) => obj_keys_unique(entries) && forall|q: int|
            0 <= q < entries.len() ==> wf_model(#[trigger] entries[q].1),
        JsonModel::Array(elems) => forall|q: int|
            0 <= q < elems.len() ==> wf_model(#[trigger] elems[q]),
        _ => true,
    }
}

/// `obj_key_idx` names the first entry with key `k`: every earlier entry has
/// a different key, and the named entry (when in range) has key `k`.
pub proof fn lemma_obj_key_idx(entries: Seq<(Seq<char>, JsonModel)>, k: Seq<char>)
    ensures
        0 <= obj_key_idx(entries, k) <= entries.len(),
        obj_key_idx(entries, k) < entries.len() ==> entries[obj_key_idx(entries, k)].0 == k,
        forall|j: int| 0 <= j < obj_key_idx(entries, k) ==> entries[j].0 != k,
    decreases entries.len(),
{
    if entries.len() == 0 {
    } else if entries[0].0 == k {
    } else {
        lemma_obj_key_idx(entries.drop_first(), k);
        assert forall|j: int| 0 <= j < obj_key_idx(entries, k) implies entries[j].0 != k by {
            if j > 0 {
                assert(entries.drop_first()[j - 1] == entries[j]);
            }
        }
    }
}

} // verus!
