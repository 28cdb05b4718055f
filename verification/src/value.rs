//! The JSON value tree and its mathematical model.
//!
//! A parsed document is a `Value`. String content is held as `Text`, a
//! copy-on-write pair of variants: a zero-copy view into the input for
//! strings without escape sequences, an owned buffer once an escape has
//! forced decoding. The model of a value is `ValueModel`, a ghost tree over
//! `Seq<u8>`; an object is modelled as its sequence of key/value pairs in
//! insertion order, with unique keys maintained by last-write-wins insertion.

use vstd::prelude::*;

verus! {

/// Decoded string content: either a zero-copy view into the input text, or
/// an owned buffer built while resolving escape sequences.
#[derive(Debug)]
pub enum Text<'a> {
    Borrowed(&'a [u8]),
    Owned(Vec<u8>),
}

impl<'a> View for Text<'a> {
    type V = Seq<u8>;

    open spec fn view(&self) -> Seq<u8> {
        match self {
            Text::Borrowed(s) => s@,
            Text::Owned(v) => v@,
        }
    }
}

impl<'a> Text<'a> {
    /// The decoded bytes, whichever variant holds them.
    pub fn as_slice(&self) -> (r: &[u8])
        ensures
            r@ == self@,
    {
        match self {
            Text::Borrowed(s) => s,
            Text::Owned(v) => v.as_slice(),
        }
    }

    /// True while no content has been gathered yet.
    pub fn is_empty(&self) -> (r: bool)
        ensures
            r == (self@.len() == 0),
    {
        match self {
            Text::Borrowed(s) => s.len() == 0,
            Text::Owned(v) => v.len() == 0,
        }
    }
}

/// A parsed JSON value. `Number` keeps the recognized literal text; turning
/// it into a machine float is left to the caller, so that the parser itself
/// stays exact. `Array` and `Object` own their children; an object's keys
/// are unique, the later of two equal keys having replaced the earlier.
#[derive(Debug)]
pub enum Value<'a> {
    Null,
    Bool(bool),
    Number(&'a [u8]),
    Str(Text<'a>),
    Array(Vec<Value<'a>>),
    Object(Vec<(Text<'a>, Value<'a>)>),
}

/// The ghost model of a value: the same tree over mathematical sequences.
pub enum ValueModel {
    Null,
    Bool(bool),
    Number(Seq<u8>),
    Str(Seq<u8>),
    Array(Seq<ValueModel>),
    Object(Seq<(Seq<u8>, ValueModel)>),
}

pub open spec fn value_model<'a>(v: Value<'a>) -> ValueModel
    decreases v,
{
    match v {
        Value::Null => ValueModel::Null,
        Value::Bool(b) => ValueModel::Bool(b),
        Value::Number(lit) => ValueModel::Number(lit@),
        Value::Str(t) => ValueModel::Str(t@),
        Value::Array(vs) => ValueModel::Array(models_of_seq(vs@)),
        Value::Object(ps) => ValueModel::Object(models_of_pairs(ps@)),
    }
}

pub open spec fn models_of_seq<'a>(vs: Seq<Value<'a>>) -> Seq<ValueModel>
    decreases vs,
{
    if vs.len() == 0 {
        Seq::empty()
    } else {
        seq![value_model(vs[0])] + models_of_seq(vs.drop_first())
    }
}

pub open spec fn models_of_pairs<'a>(ps: Seq<(Text<'a>, Value<'a>)>) -> Seq<(Seq<u8>, ValueModel)>
    decreases ps,
{
    if ps.len() == 0 {
        Seq::empty()
    } else {
        seq![(ps[0].0@, value_model(ps[0].1))] + models_of_pairs(ps.drop_first())
    }
}

impl<'a> View for Value<'a> {
    type V = ValueModel;

    open spec fn view(&self) -> ValueModel {
        value_model(*self)
    }
}

pub proof fn lemma_models_of_seq_index<'a>(vs: Seq<Value<'a>>)
    ensures
        models_of_seq(vs).len() == vs.len(),
        forall|i: int| 0 <= i < vs.len() ==> models_of_seq(vs)[i] == value_model(vs[i]),
    decreases vs.len(),
{
    if vs.len() > 0 {
        lemma_models_of_seq_index(vs.drop_first());
    }
}

pub proof fn lemma_models_of_seq_push<'a>(vs: Seq<Value<'a>>, v: Value<'a>)
    ensures
        models_of_seq(vs.push(v)) == models_of_seq(vs).push(value_model(v)),
{
    lemma_models_of_seq_index(vs);
    lemma_models_of_seq_index(vs.push(v));
    assert(models_of_seq(vs.push(v)) =~= models_of_seq(vs).push(value_model(v)));
}

pub proof fn lemma_models_of_pairs_index<'a>(ps: Seq<(Text<'a>, Value<'a>)>)
    ensures
        models_of_pairs(ps).len() == ps.len(),
        forall|i: int|
            0 <= i < ps.len() ==> models_of_pairs(ps)[i] == (ps[i].0@, value_model(ps[i].1)),
    decreases ps.len(),
{
    if ps.len() > 0 {
        lemma_models_of_pairs_index(ps.drop_first());
    }
}

pub proof fn lemma_models_of_pairs_push<'a>(ps: Seq<(Text<'a>, Value<'a>)>, k: Text<'a>, v: Value<'a>)
    ensures
        models_of_pairs(ps.push((k, v))) == models_of_pairs(ps).push((k@, value_model(v))),
{
    lemma_models_of_pairs_index(ps);
    lemma_models_of_pairs_index(ps.push((k, v)));
    assert(models_of_pairs(ps.push((k, v))) =~= models_of_pairs(ps).push((k@, value_model(v))));
}

pub proof fn lemma_models_of_pairs_update<'a>(
    ps: Seq<(Text<'a>, Value<'a>)>,
    i: int,
    k: Text<'a>,
    v: Value<'a>,
)
    requires
        0 <= i < ps.len(),
    ensures
        models_of_pairs(ps.update(i, (k, v))) == models_of_pairs(ps).update(
            i,
            (k@, value_model(v)),
        ),
{
    lemma_models_of_pairs_index(ps);
    lemma_models_of_pairs_index(ps.update(i, (k, v)));
    assert(models_of_pairs(ps.update(i, (k, v))) =~= models_of_pairs(ps).update(
        i,
        (k@, value_model(v)),
    ));
}

/// Last-write-wins insertion into the model of an object: a pair whose key
/// is already present replaces that pair in place, a fresh key is appended.
pub open spec fn obj_insert(
    ps: Seq<(Seq<u8>, ValueModel)>,
    k: Seq<u8>,
    v: ValueModel,
) -> Seq<(Seq<u8>, ValueModel)>
    decreases ps.len(),
{
    if ps.len() == 0 {
        seq![(k, v)]
    } else if ps[0].0 == k {
        seq![(k, v)] + ps.drop_first()
    } else {
        seq![ps[0]] + obj_insert(ps.drop_first(), k, v)
    }
}

/// The keys of an object model, pairwise distinct in every parsed object.
pub open spec fn keys_distinct(ps: Seq<(Seq<u8>, ValueModel)>) -> bool {
    forall|i: int, j: int| 0 <= i < j < ps.len() ==> ps[i].0 != ps[j].0
}

/// The mapping an object model denotes: each key to the value last written.
pub open spec fn obj_as_map(ps: Seq<(Seq<u8>, ValueModel)>) -> Map<Seq<u8>, ValueModel>
    decreases ps.len(),
{
    if ps.len() == 0 {
        Map::empty()
    } else {
        obj_as_map(ps.drop_last()).insert(ps.last().0, ps.last().1)
    }
}

proof fn lemma_obj_as_map_update(ps: Seq<(Seq<u8>, ValueModel)>, i: int, k: Seq<u8>, v: ValueModel)
    requires
        0 <= i < ps.len(),
        ps[i].0 == k,
        forall|j: int| 0 <= j < ps.len() && j != i ==> ps[j].0 != k,
    ensures
        obj_as_map(ps.update(i, (k, v))) == obj_as_map(ps).insert(k, v),
    decreases ps.len(),
{
    let u = ps.update(i, (k, v));
    if i == ps.len() - 1 {
        assert(u.drop_last() =~= ps.drop_last());
        assert(obj_as_map(u) == obj_as_map(ps.drop_last()).insert(k, v));
        assert(obj_as_map(ps.drop_last()).insert(ps.last().0, ps.last().1).insert(k, v)
            =~= obj_as_map(ps.drop_last()).insert(k, v));
    } else {
        assert(u.drop_last() =~= ps.drop_last().update(i, (k, v)));
        assert(ps.drop_last()[i] == ps[i]);
        assert(forall|j: int|
            0 <= j < ps.drop_last().len() && j != i ==> ps.drop_last()[j].0 != k);
        lemma_obj_as_map_update(ps.drop_last(), i, k, v);
        assert(u.last() == ps.last());
        assert(ps.last().0 != k);
        assert(obj_as_map(ps.drop_last()).insert(k, v).insert(ps.last().0, ps.last().1)
            =~= obj_as_map(ps.drop_last()).insert(ps.last().0, ps.last().1).insert(k, v));
    }
}

/// Last write wins, as a law of the mapping an object denotes: inserting a
/// pair into an object with unique keys denotes exactly the mapping of the
/// old object with that key now bound to the new value — whether the key
/// was present, its earlier value overwritten in place, or fresh.
pub proof fn lemma_obj_insert_as_map(ps: Seq<(Seq<u8>, ValueModel)>, k: Seq<u8>, v: ValueModel)
    requires
        keys_distinct(ps),
    ensures
        obj_as_map(obj_insert(ps, k, v)) == obj_as_map(ps).insert(k, v),
{
    if exists|j: int| 0 <= j < ps.len() && ps[j].0 == k {
        let i = choose|j: int| 0 <= j < ps.len() && ps[j].0 == k;
        assert(forall|j: int| 0 <= j < ps.len() && j != i ==> ps[j].0 != k);
        lemma_obj_insert_found(ps, k, v, i);
        lemma_obj_as_map_update(ps, i, k, v);
    } else {
        assert(forall|j: int| 0 <= j < ps.len() ==> ps[j].0 != k);
        lemma_obj_insert_absent(ps, k, v);
        assert(ps.push((k, v)).drop_last() =~= ps);
        assert(ps.push((k, v)).last() == (k, v));
    }
}

pub proof fn lemma_obj_insert_found(ps: Seq<(Seq<u8>, ValueModel)>, k: Seq<u8>, v: ValueModel, i: int)
    requires
        0 <= i < ps.len(),
        ps[i].0 == k,
        forall|j: int| 0 <= j < i ==> ps[j].0 != k,
    ensures
        obj_insert(ps, k, v) == ps.update(i, (k, v)),
    decreases i,
{
    if i == 0 {
        assert(obj_insert(ps, k, v) =~= ps.update(0, (k, v)));
    } else {
        assert(ps.drop_first()[i - 1].0 == k);
        assert(forall|j: int| 0 <= j < i - 1 ==> ps.drop_first()[j].0 != k);
        lemma_obj_insert_found(ps.drop_first(), k, v, i - 1);
        assert(obj_insert(ps, k, v) =~= ps.update(i, (k, v)));
    }
}

pub proof fn lemma_obj_insert_absent(ps: Seq<(Seq<u8>, ValueModel)>, k: Seq<u8>, v: ValueModel)
    requires
        forall|j: int| 0 <= j < ps.len() ==> ps[j].0 != k,
    ensures
        obj_insert(ps, k, v) == ps.push((k, v)),
    decreases ps.len(),
{
    if ps.len() == 0 {
        assert(obj_insert(ps, k, v) =~= ps.push((k, v)));
    } else {
        lemma_obj_insert_absent(ps.drop_first(), k, v);
        assert(obj_insert(ps, k, v) =~= ps.push((k, v)));
    }
}

/// Every pair of an insertion's result is either the inserted pair or one
/// of the pairs that were already there.
pub proof fn lemma_obj_insert_elems(ps: Seq<(Seq<u8>, ValueModel)>, k: Seq<u8>, v: ValueModel)
    ensures
        forall|i: int|
            0 <= i < obj_insert(ps, k, v).len() ==> (#[trigger] obj_insert(ps, k, v)[i] == (k, v)
                || exists|j: int| 0 <= j < ps.len() && ps[j] == obj_insert(ps, k, v)[i]),
    decreases ps.len(),
{
    if ps.len() == 0 {
    } else if ps[0].0 == k {
        let r = obj_insert(ps, k, v);
        assert forall|i: int| 0 <= i < r.len() implies (r[i] == (k, v) || exists|j: int|
            0 <= j < ps.len() && ps[j] == r[i]) by {
            if i > 0 {
                assert(ps[i] == r[i]);
            }
        }
    } else {
        lemma_obj_insert_elems(ps.drop_first(), k, v);
        let r = obj_insert(ps, k, v);
        let rr = obj_insert(ps.drop_first(), k, v);
        assert forall|i: int| 0 <= i < r.len() implies (r[i] == (k, v) || exists|j: int|
            0 <= j < ps.len() && ps[j] == r[i]) by {
            if i == 0 {
                assert(ps[0] == r[0]);
            } else {
                assert(r[i] == rr[i - 1]);
                if rr[i - 1] != (k, v) {
                    let j = choose|j: int|
                        0 <= j < ps.drop_first().len() && ps.drop_first()[j] == rr[i - 1];
                    assert(ps[j + 1] == r[i]);
                }
            }
        }
    }
}

/// Insertion never breaks key uniqueness, and it writes exactly the given
/// pair: the inserted key is bound to the new value, every other key keeps
/// its binding.
pub proof fn lemma_obj_insert_distinct(ps: Seq<(Seq<u8>, ValueModel)>, k: Seq<u8>, v: ValueModel)
    requires
        keys_distinct(ps),
    ensures
        keys_distinct(obj_insert(ps, k, v)),
    decreases ps.len(),
{
    if ps.len() == 0 {
    } else if ps[0].0 == k {
        let r = obj_insert(ps, k, v);
        assert(forall|i: int| 0 <= i < r.len() ==> r[i] == (seq![(k, v)] + ps.drop_first())[i]);
    } else {
        lemma_obj_insert_distinct(ps.drop_first(), k, v);
        lemma_obj_insert_keys(ps.drop_first(), k, v);
    }
}

/// The keys after insertion are the old keys together with the new one.
pub proof fn lemma_obj_insert_keys(ps: Seq<(Seq<u8>, ValueModel)>, k: Seq<u8>, v: ValueModel)
    ensures
        forall|i: int|
            0 <= i < obj_insert(ps, k, v).len() ==> (obj_insert(ps, k, v)[i].0 == k || exists|j: int|
                0 <= j < ps.len() && ps[j].0 == #[trigger] obj_insert(ps, k, v)[i].0),
    decreases ps.len(),
{
    if ps.len() == 0 {
    } else if ps[0].0 == k {
    } else {
        lemma_obj_insert_keys(ps.drop_first(), k, v);
        let r = obj_insert(ps, k, v);
        assert forall|i: int| 0 <= i < r.len() implies (r[i].0 == k || exists|j: int|
            0 <= j < ps.len() && ps[j].0 == r[i].0) by {
            if i == 0 {
                assert(ps[0].0 == r[0].0);
            } else {
                let rr = obj_insert(ps.drop_first(), k, v);
                assert(r[i] == rr[i - 1]);
                if rr[i - 1].0 != k {
                    let j = choose|j: int|
                        0 <= j < ps.drop_first().len() && ps.drop_first()[j].0 == rr[i - 1].0;
                    assert(ps[j + 1].0 == r[i].0);
                }
            }
        }
    }
}

} // verus!
