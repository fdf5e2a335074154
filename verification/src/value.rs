//! The generic structured value a manifest is parsed into, and its
//! mathematical model.
//!
//! An object is an ordered mapping: a sequence of key/value pairs whose key
//! order is significant for serialization. Numbers are carried as their
//! literal text, which the transform never inspects.

use vstd::prelude::*;

verus! {

/// Mathematical model of a [`Value`]: strings become sequences of characters,
/// vectors become sequences.
pub enum SpecValue {
    Null,
    Bool(bool),
    Number(Seq<char>),
    Text(Seq<char>),
    Array(Seq<SpecValue>),
    Object(Seq<(Seq<char>, SpecValue)>),
}

/// A generic structured document value: the only data type the transform
/// operates on.
#[derive(Debug, PartialEq, Eq)]
pub enum Value {
    /// The null scalar.
    Null,
    /// A boolean scalar.
    Bool(bool),
    /// A numeric scalar, carried as its literal text.
    Number(String),
    /// A string scalar.
    Text(String),
    /// A sequence of values.
    Array(Vec<Value>),
    /// An ordered mapping from string keys to values; key order is the
    /// serialization order.
    Object(Vec<(String, Value)>),
}

impl View for Value {
    type V = SpecValue;

    open spec fn view(&self) -> SpecValue
        decreases self,
    {
        match self {
            Value::Null => SpecValue::Null,
            Value::Bool(b) => SpecValue::Bool(*b),
            Value::Number(s) => SpecValue::Number(s@),
            Value::Text(s) => SpecValue::Text(s@),
            Value::Array(elems) => {
                proof {
                    assert(decreases_to!(self => self->Array_0));
                    assert(decreases_to!(self->Array_0 => self->Array_0@));
                }
                SpecValue::Array(elems_view(elems@))
            },
            Value::Object(fields) => {
                proof {
                    assert(decreases_to!(self => self->Object_0));
                    assert(decreases_to!(self->Object_0 => self->Object_0@));
                }
                SpecValue::Object(fields_view(fields@))
            },
        }
    }
}

/// Model of an array's elements.
pub open spec fn elems_view(s: Seq<Value>) -> Seq<SpecValue>
    decreases s,
{
    if s.len() == 0 {
        Seq::empty()
    } else {
        elems_view(s.subrange(0, s.len() - 1)).push(s[s.len() - 1]@)
    }
}

/// Model of an object's fields.
pub open spec fn fields_view(s: Seq<(String, Value)>) -> Seq<(Seq<char>, SpecValue)>
    decreases s,
{
    if s.len() == 0 {
        Seq::empty()
    } else {
        fields_view(s.subrange(0, s.len() - 1)).push(
            (s[s.len() - 1].0@, s[s.len() - 1].1@),
        )
    }
}

/// An array's model has one element per element of the array, in order.
pub broadcast proof fn lemma_elems_view(s: Seq<Value>)
    ensures
        (#[trigger] elems_view(s)).len() == s.len(),
        forall|i: int| 0 <= i < s.len() ==> elems_view(s)[i] == s[i]@,
    decreases s.len(),
{
    if s.len() > 0 {
        let pre = s.subrange(0, s.len() - 1);
        lemma_elems_view(pre);
        assert(elems_view(s) == elems_view(pre).push(s[s.len() - 1]@));
        assert forall|i: int| 0 <= i < s.len() implies elems_view(s)[i] == s[i]@ by {
            if i < s.len() - 1 {
                assert(elems_view(s)[i] == elems_view(pre)[i]);
                assert(pre[i] == s[i]);
            }
        }
    }
}

/// An object's model has one pair per field of the object, in order.
pub broadcast proof fn lemma_fields_view(s: Seq<(String, Value)>)
    ensures
        (#[trigger] fields_view(s)).len() == s.len(),
        forall|i: int| 0 <= i < s.len() ==> fields_view(s)[i] == (s[i].0@, s[i].1@),
    decreases s.len(),
{
    if s.len() > 0 {
        let pre = s.subrange(0, s.len() - 1);
        lemma_fields_view(pre);
        assert(fields_view(s) == fields_view(pre).push((s[s.len() - 1].0@, s[s.len() - 1].1@)));
        assert forall|i: int| 0 <= i < s.len() implies fields_view(s)[i] == (
            s[i].0@,
            s[i].1@,
        ) by {
            if i < s.len() - 1 {
                assert(fields_view(s)[i] == fields_view(pre)[i]);
                assert(pre[i] == s[i]);
            }
        }
    }
}

/// Index of the first field with key `k`, or `m.len()` if no field has it.
pub open spec fn obj_key_at(m: Seq<(Seq<char>, SpecValue)>, k: Seq<char>) -> int
    decreases m.len(),
{
    if m.len() == 0 {
        0
    } else if m[0].0 == k {
        0
    } else {
        1 + obj_key_at(m.subrange(1, m.len() as int), k)
    }
}

/// Whether some field of the object has key `k`.
pub open spec fn obj_has_key(m: Seq<(Seq<char>, SpecValue)>, k: Seq<char>) -> bool {
    obj_key_at(m, k) < m.len()
}

/// The value of the first field with key `k`, if any field has it.
pub open spec fn obj_get(m: Seq<(Seq<char>, SpecValue)>, k: Seq<char>) -> Option<SpecValue> {
    if obj_has_key(m, k) {
        Some(m[obj_key_at(m, k)].1)
    } else {
        None
    }
}

/// The object with every field keyed `k` removed; the order of the other
/// fields is kept.
pub open spec fn obj_remove(m: Seq<(Seq<char>, SpecValue)>, k: Seq<char>) -> Seq<
    (Seq<char>, SpecValue),
>
    decreases m.len(),
{
    if m.len() == 0 {
        Seq::empty()
    } else if m[0].0 == k {
        obj_remove(m.subrange(1, m.len() as int), k)
    } else {
        seq![m[0]] + obj_remove(m.subrange(1, m.len() as int), k)
    }
}

/// The object with the value under `k` overwritten in place, or with the pair
/// appended if no field has key `k`.
pub open spec fn obj_set(
    m: Seq<(Seq<char>, SpecValue)>,
    k: Seq<char>,
    v: SpecValue,
) -> Seq<(Seq<char>, SpecValue)> {
    if obj_has_key(m, k) {
        m.update(obj_key_at(m, k), (k, v))
    } else {
        m.push((k, v))
    }
}

/// `obj_key_at` finds the first field with key `k`: the index is in range
/// exactly when such a field exists, holds `k` there, and no earlier field
/// has key `k`.
pub broadcast proof fn lemma_obj_key_at(m: Seq<(Seq<char>, SpecValue)>, k: Seq<char>)
    ensures
        0 <= #[trigger] obj_key_at(m, k) <= m.len(),
        obj_key_at(m, k) < m.len() ==> m[obj_key_at(m, k)].0 == k,
        forall|j: int| 0 <= j < obj_key_at(m, k) ==> m[j].0 != k,
    decreases m.len(),
{
    if m.len() > 0 && m[0].0 != k {
        let rest = m.subrange(1, m.len() as int);
        lemma_obj_key_at(rest, k);
        if obj_key_at(m, k) < m.len() {
            assert(m[obj_key_at(m, k)] == rest[obj_key_at(rest, k)]);
        }
        assert forall|j: int| 0 <= j < obj_key_at(m, k) implies m[j].0 != k by {
            if j > 0 {
                assert(m[j] == rest[j - 1]);
            }
        }
    }
}

/// `obj_get` read off the first field: a matching head yields its value, any
/// other head is skipped.
pub proof fn lemma_obj_get_head(m: Seq<(Seq<char>, SpecValue)>, k: Seq<char>)
    requires
        m.len() > 0,
    ensures
        m[0].0 == k ==> obj_get(m, k) == Some(m[0].1),
        m[0].0 != k ==> obj_get(m, k) == obj_get(m.subrange(1, m.len() as int), k),
{
    let rest = m.subrange(1, m.len() as int);
    lemma_obj_key_at(m, k);
    lemma_obj_key_at(rest, k);
    if m[0].0 != k && obj_has_key(m, k) {
        assert(m[obj_key_at(m, k)] == rest[obj_key_at(rest, k)]);
    }
}

/// Removing a key that no field has leaves the object as it was.
pub proof fn lemma_obj_remove_absent(m: Seq<(Seq<char>, SpecValue)>, k: Seq<char>)
    requires
        !obj_has_key(m, k),
    ensures
        obj_remove(m, k) == m,
    decreases m.len(),
{
    if m.len() > 0 {
        let rest = m.subrange(1, m.len() as int);
        lemma_obj_key_at(m, k);
        lemma_obj_key_at(rest, k);
        lemma_obj_remove_absent(rest, k);
        assert(seq![m[0]] + rest =~= m);
    }
}

/// Removing one key does not change what any other key maps to.
pub proof fn lemma_obj_remove_get(m: Seq<(Seq<char>, SpecValue)>, k1: Seq<char>, k2: Seq<char>)
    requires
        k1 != k2,
    ensures
        obj_get(obj_remove(m, k1), k2) == obj_get(m, k2),
    decreases m.len(),
{
    if m.len() > 0 {
        let rest = m.subrange(1, m.len() as int);
        lemma_obj_remove_get(rest, k1, k2);
        lemma_obj_get_head(m, k2);
        if m[0].0 == k1 {
            // head removed; k2 is read past it on both sides
        } else {
            let tail = obj_remove(rest, k1);
            assert((seq![m[0]] + tail).len() > 0);
            assert((seq![m[0]] + tail)[0] == m[0]);
            assert((seq![m[0]] + tail).subrange(1, (seq![m[0]] + tail).len() as int) =~= tail);
            lemma_obj_get_head(seq![m[0]] + tail, k2);
        }
    }
}

/// After removing a key, no field has it.
pub proof fn lemma_obj_remove_gone(m: Seq<(Seq<char>, SpecValue)>, k: Seq<char>)
    ensures
        !obj_has_key(obj_remove(m, k), k),
    decreases m.len(),
{
    if m.len() > 0 {
        let rest = m.subrange(1, m.len() as int);
        lemma_obj_remove_gone(rest, k);
        if m[0].0 != k {
            let tail = obj_remove(rest, k);
            let whole = seq![m[0]] + tail;
            assert(whole[0] == m[0]);
            assert(whole.subrange(1, whole.len() as int) =~= tail);
            lemma_obj_key_at(whole, k);
            lemma_obj_key_at(tail, k);
        }
    }
}

/// `obj_get` over a pair appended at the end: a key the object already has
/// keeps its value; otherwise the new pair decides.
pub proof fn lemma_obj_get_push(
    m: Seq<(Seq<char>, SpecValue)>,
    p: (Seq<char>, SpecValue),
    k: Seq<char>,
)
    ensures
        obj_get(m.push(p), k) == if obj_has_key(m, k) {
            obj_get(m, k)
        } else if p.0 == k {
            Some(p.1)
        } else {
            None::<SpecValue>
        },
    decreases m.len(),
{
    let whole = m.push(p);
    if m.len() == 0 {
        lemma_obj_key_at(whole, k);
        lemma_obj_key_at(m, k);
        assert(whole[0] == p);
    } else {
        let rest = m.subrange(1, m.len() as int);
        lemma_obj_get_push(rest, p, k);
        assert(whole[0] == m[0]);
        assert(whole.subrange(1, whole.len() as int) =~= rest.push(p));
        lemma_obj_get_head(whole, k);
        lemma_obj_get_head(m, k);
        lemma_obj_key_at(m, k);
        lemma_obj_key_at(rest, k);
    }
}

/// The first index of a key depends only on the sequence of keys.
pub proof fn lemma_obj_key_at_congruence(
    m1: Seq<(Seq<char>, SpecValue)>,
    m2: Seq<(Seq<char>, SpecValue)>,
    k: Seq<char>,
)
    requires
        m1.len() == m2.len(),
        forall|i: int| 0 <= i < m1.len() ==> m1[i].0 == m2[i].0,
    ensures
        obj_key_at(m1, k) == obj_key_at(m2, k),
    decreases m1.len(),
{
    if m1.len() > 0 && m1[0].0 != k {
        let r1 = m1.subrange(1, m1.len() as int);
        let r2 = m2.subrange(1, m2.len() as int);
        assert(forall|i: int| 0 <= i < r1.len() ==> r1[i].0 == r2[i].0);
        lemma_obj_key_at_congruence(r1, r2, k);
    }
}

/// `obj_get` after `obj_set`: the written key reads back the new value, every
/// other key is untouched.
pub proof fn lemma_obj_set_get(
    m: Seq<(Seq<char>, SpecValue)>,
    k: Seq<char>,
    v: SpecValue,
    k2: Seq<char>,
)
    ensures
        obj_get(obj_set(m, k, v), k2) == if k2 == k {
            Some(v)
        } else {
            obj_get(m, k2)
        },
{
    lemma_obj_key_at(m, k);
    if obj_has_key(m, k) {
        let idx = obj_key_at(m, k);
        let upd = m.update(idx, (k, v));
        assert(forall|i: int| 0 <= i < m.len() ==> upd[i].0 == m[i].0);
        lemma_obj_key_at_congruence(upd, m, k2);
        lemma_obj_key_at(m, k2);
        lemma_obj_key_at(upd, k2);
        if k2 == k {
            lemma_obj_key_at_congruence(upd, m, k);
        }
    } else {
        lemma_obj_get_push(m, (k, v), k2);
        lemma_obj_key_at(m, k2);
    }
}

/// Whether two pieces of text hold the same characters.
pub fn str_eq(a: &str, b: &str) -> (r: bool)
    ensures
        r == (a@ == b@),
{
    let owned_a: String = a.to_owned();
    let owned_b: String = b.to_owned();
    owned_a == owned_b
}

/// Index of the first field of `fields` whose key is `key`, or the number of
/// fields if none has it.
pub fn obj_find(fields: &Vec<(String, Value)>, key: &str) -> (r: usize)
    ensures
        r == obj_key_at(fields_view(fields@), key@),
{
    let ghost m = fields_view(fields@);
    proof {
        lemma_fields_view(fields@);
        lemma_obj_key_at(m, key@);
    }
    let mut i: usize = 0;
    while i < fields.len()
        invariant
            0 <= i <= fields.len(),
            m == fields_view(fields@),
            m.len() == fields@.len(),
            forall|j: int| 0 <= j < i ==> m[j].0 != key@,
        decreases fields.len() - i,
    {
        proof {
            lemma_fields_view(fields@);
        }
        if str_eq(fields[i].0.as_str(), key) {
            proof {
                lemma_obj_key_at(m, key@);
                assert(m[i as int].0 == key@);
            }
            return i;
        }
        i += 1;
    }
    proof {
        lemma_obj_key_at(m, key@);
    }
    i
}

/// Removes every field keyed `key` from `fields`, keeping the order of the
/// others, and hands back the remaining fields together with the value of the
/// first removed field, if there was one.
pub fn obj_take(fields: Vec<(String, Value)>, key: &str) -> (r: (
    Vec<(String, Value)>,
    Option<Value>,
))
    ensures
        fields_view(r.0@) == obj_remove(fields_view(fields@), key@),
        match r.1 {
            Some(v) => obj_get(fields_view(fields@), key@) == Some(v@),
            None => obj_get(fields_view(fields@), key@) is None,
        },
{
    let ghost orig = fields@;
    let ghost m = fields_view(orig);
    proof {
        lemma_fields_view(orig);
        lemma_obj_key_at(m, key@);
    }
    let mut it = fields;
    let mut rest: Vec<(String, Value)> = Vec::new();
    let mut found: Option<Value> = None;
    let ghost mut i: int = 0;
    while it.len() > 0
        invariant
            0 <= i <= orig.len(),
            it@ == orig.subrange(i, orig.len() as int),
            m == fields_view(orig),
            m.len() == orig.len(),
            obj_remove(m, key@) == fields_view(rest@) + obj_remove(
                fields_view(it@),
                key@,
            ),
            match found {
                Some(v) => obj_get(m, key@) == Some(v@),
                None => forall|j: int| 0 <= j < i ==> m[j].0 != key@,
            },
        decreases it.len(),
    {
        proof {
            lemma_fields_view(orig);
            lemma_fields_view(it@);
            lemma_fields_view(rest@);
        }
        let ghost it_pre = it@;
        let pair = it.remove(0);
        proof {
            assert(pair == orig[i]);
            assert(it@ =~= orig.subrange(i + 1, orig.len() as int));
            assert(fields_view(it_pre)[0] == (orig[i].0@, orig[i].1@));
            assert(
                fields_view(it_pre).subrange(1, it_pre.len() as int) =~= fields_view(it@)
            ) by {
                lemma_fields_view(it_pre);
                lemma_fields_view(it@);
            }
        }
        if str_eq(pair.0.as_str(), key) {
            proof {
                assert(m[i].0 == key@);
            }
            if found.is_none() {
                proof {
                    lemma_obj_key_at(m, key@);
                    assert(obj_key_at(m, key@) == i);
                    assert(m[i].1 == orig[i].1@);
                }
                found = Some(pair.1);
            }
        } else {
            let ghost rest_pre = rest@;
            let ghost head = (orig[i].0@, orig[i].1@);
            rest.push(pair);
            proof {
                assert(fields_view(rest@) =~= fields_view(rest_pre).push(head)) by {
                    lemma_fields_view(rest@);
                    lemma_fields_view(rest_pre);
                }
                assert(fields_view(rest_pre) + (seq![head] + obj_remove(
                    fields_view(it@),
                    key@,
                )) =~= fields_view(rest_pre).push(head) + obj_remove(fields_view(it@), key@));
            }
        }
        proof {
            i = i + 1;
        }
    }
    proof {
        assert(i == orig.len());
        assert(fields_view(it@).len() == 0) by {
            lemma_fields_view(it@);
        }
        assert(fields_view(rest@) + obj_remove(fields_view(it@), key@) =~= fields_view(
            rest@,
        ));
        match found {
            Some(_) => {},
            None => {
                lemma_obj_key_at(m, key@);
            },
        }
    }
    (rest, found)
}

/// Overwrites the value of the first field keyed `key` in place, or appends
/// the pair as the last field if no field has the key.
pub fn obj_set_field(fields: &mut Vec<(String, Value)>, key: String, val: Value)
    ensures
        fields_view(final (fields)@) == obj_set(fields_view(old(fields)@), key@, val@),
{
    let ghost m = fields_view(old(fields)@);
    let ghost kv = (key@, val@);
    let idx = obj_find(fields, key.as_str());
    proof {
        lemma_obj_key_at(m, key@);
        lemma_fields_view(old(fields)@);
    }
    if idx < fields.len() {
        let ghost pre = fields@;
        let _replaced = fields.remove(idx);
        fields.insert(idx, (key, val));
        proof {
            assert(fields@ =~= pre.update(idx as int, fields@[idx as int]));
            assert(fields_view(fields@) =~= m.update(idx as int, kv)) by {
                lemma_fields_view(fields@);
                lemma_fields_view(pre);
            }
        }
    } else {
        let ghost pre = fields@;
        fields.push((key, val));
        proof {
            assert(fields_view(fields@) =~= m.push(kv)) by {
                lemma_fields_view(fields@);
                lemma_fields_view(pre);
            }
        }
    }
}

} // verus!
