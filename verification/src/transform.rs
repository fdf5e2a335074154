//! The document transform: rewriting `Secret` resources and recursing into
//! `List` resources.

use vstd::prelude::*;

use crate::codec::base64_decode;
use crate::codec::base64_decoded;
use crate::codec::bytes_to_text;
use crate::value::SpecValue;
use crate::value::Value;
use crate::value::elems_view;
use crate::value::fields_view;
use crate::value::lemma_elems_view;
use crate::value::lemma_fields_view;
use crate::value::obj_find;
use crate::value::str_eq;
use crate::value::lemma_obj_key_at;
use crate::value::lemma_obj_remove_absent;
use crate::value::lemma_obj_remove_get;
use crate::value::obj_get;
use crate::value::obj_key_at;
use crate::value::obj_remove;
use crate::value::obj_set;
use crate::value::obj_set_field;
use crate::value::obj_take;
use vstd::utf8::decode_utf8;
use vstd::utf8::valid_utf8;

verus! {

/// The ways the transform can fail; the first failure aborts the whole
/// operation.
#[derive(Debug, Clone, Copy, PartialEq, Eq, Structural)]
pub enum TransformError {
    /// A `data` or `stringData` field, or one of its entries, is not of the
    /// expected container type.
    TypeError,
    /// A `data` entry is not valid base64.
    DecodeError,
    /// Decoded bytes are not valid UTF-8 text.
    EncodingError,
}

/// Decodes the entries of a removed `data` object in order and merges each
/// into `acc`, overwriting an entry that already carries the same key.
/// The first entry that is not a string, not valid base64, or not valid
/// UTF-8 aborts the merge with the corresponding error.
pub open spec fn spec_decode_entries(
    acc: Seq<(Seq<char>, SpecValue)>,
    data: Seq<(Seq<char>, SpecValue)>,
) -> Result<Seq<(Seq<char>, SpecValue)>, TransformError>
    decreases data.len(),
{
    if data.len() == 0 {
        Ok(acc)
    } else {
        match data[0].1 {
            SpecValue::Text(enc) => match base64_decoded(enc) {
                Some(bytes) => if valid_utf8(bytes) {
                    spec_decode_entries(
                        obj_set(acc, data[0].0, SpecValue::Text(decode_utf8(bytes))),
                        data.subrange(1, data.len() as int),
                    )
                } else {
                    Err(TransformError::EncodingError)
                },
                None => Err(TransformError::DecodeError),
            },
            _ => Err(TransformError::TypeError),
        }
    }
}

/// The transform of a `Secret` resource's fields: with no `data` field the
/// object is unchanged; otherwise `data` and `stringData` are removed, the
/// decoded `data` entries are merged over the old `stringData` entries, and
/// the merge is appended under `stringData` as the last key.
pub open spec fn spec_transform_secret(fields: Seq<(Seq<char>, SpecValue)>) -> Result<
    SpecValue,
    TransformError,
> {
    match obj_get(fields, "data"@) {
        None => Ok(SpecValue::Object(fields)),
        Some(data_val) => match data_val {
            SpecValue::Object(data) => {
                let base = match obj_get(fields, "stringData"@) {
                    None => Some(Seq::<(Seq<char>, SpecValue)>::empty()),
                    Some(SpecValue::Object(sd)) => Some(sd),
                    Some(_) => None,
                };
                match base {
                    None => Err(TransformError::TypeError),
                    Some(base_entries) => match spec_decode_entries(base_entries, data) {
                        Ok(merged) => Ok(
                            SpecValue::Object(
                                obj_remove(obj_remove(fields, "data"@), "stringData"@).push(
                                    ("stringData"@, SpecValue::Object(merged)),
                                ),
                            ),
                        ),
                        Err(e) => Err(e),
                    },
                }
            },
            _ => Err(TransformError::TypeError),
        },
    }
}

/// The document transform: an object of kind `Secret` has its `data` entries
/// decoded into `stringData`, an object of kind `List` has each element of
/// its `items` array transformed in order, and every other value is returned
/// unchanged.
pub open spec fn spec_transform(v: SpecValue) -> Result<SpecValue, TransformError>
    decreases v,
{
    match v {
        SpecValue::Object(fields) => match obj_get(fields, "kind"@) {
            Some(SpecValue::Text(k)) => if k == "Secret"@ {
                spec_transform_secret(fields)
            } else if k == "List"@ {
                match obj_get(fields, "items"@) {
                    Some(SpecValue::Array(items)) => {
                        proof {
                            lemma_obj_key_at(fields, "items"@);
                            let idx = obj_key_at(fields, "items"@);
                            assert(decreases_to!(v => v->Object_0));
                            assert(decreases_to!(fields => fields[idx]));
                            assert(decreases_to!(fields[idx] => fields[idx].1));
                            assert(decreases_to!(fields[idx].1 => fields[idx].1->Array_0));
                            assert(fields[idx].1->Array_0 == items);
                        }
                        match spec_transform_items(items) {
                            Ok(new_items) => Ok(
                                SpecValue::Object(
                                    obj_set(fields, "items"@, SpecValue::Array(new_items)),
                                ),
                            ),
                            Err(e) => Err(e),
                        }
                    },
                    _ => Ok(v),
                }
            } else {
                Ok(v)
            },
            _ => Ok(v),
        },
        _ => Ok(v),
    }
}

/// The element-wise transform of a `List` resource's `items`: each element in
/// order, failing fast on the first element that fails.
pub open spec fn spec_transform_items(items: Seq<SpecValue>) -> Result<
    Seq<SpecValue>,
    TransformError,
>
    decreases items,
{
    if items.len() == 0 {
        Ok(Seq::empty())
    } else {
        match spec_transform(items[0]) {
            Ok(h) => match spec_transform_items(items.subrange(1, items.len() as int)) {
                Ok(t) => Ok(seq![h] + t),
                Err(e) => Err(e),
            },
            Err(e) => Err(e),
        }
    }
}

/// Rewrites the fields of a `Secret` resource: decodes the entries of its
/// `data` field, if any, and merges them over its `stringData` entries.
pub fn transform_secret(fields: Vec<(String, Value)>) -> (r: Result<Value, TransformError>)
    ensures
        match r {
            Ok(v) => spec_transform_secret(fields_view(fields@)) == Ok::<
                SpecValue,
                TransformError,
            >(v@),
            Err(e) => spec_transform_secret(fields_view(fields@)) == Err::<
                SpecValue,
                TransformError,
            >(e),
        },
{
    let ghost m = fields_view(fields@);
    let (rest, data_opt) = obj_take(fields, "data");
    match data_opt {
        None => {
            proof {
                lemma_obj_key_at(m, "data"@);
                lemma_obj_remove_absent(m, "data"@);
            }
            Ok(Value::Object(rest))
        },
        Some(data_val) => match data_val {
            Value::Object(data_fields) => {
                let ghost dm = fields_view(data_fields@);
                let (rest2, sd_opt) = obj_take(rest, "stringData");
                proof {
                    reveal_strlit("data");
                    reveal_strlit("stringData");
                    assert("data"@.len() != "stringData"@.len());
                    lemma_obj_remove_get(m, "data"@, "stringData"@);
                }
                let mut merged: Vec<(String, Value)>;
                match sd_opt {
                    None => {
                        merged = Vec::new();
                    },
                    Some(sd_val) => match sd_val {
                        Value::Object(sd_fields) => {
                            merged = sd_fields;
                        },
                        _ => {
                            return Err(TransformError::TypeError);
                        },
                    },
                }
                let ghost base0 = fields_view(merged@);
                let mut d = data_fields;
                let ghost dorig = d@;
                let ghost mut i: int = 0;
                proof {
                    lemma_fields_view(dorig);
                    assert(dm.subrange(0, dm.len() as int) =~= dm);
                }
                #[verifier::loop_isolation(false)]
                while d.len() > 0
                    invariant
                        0 <= i <= dorig.len(),
                        d@ == dorig.subrange(i, dorig.len() as int),
                        dm == fields_view(dorig),
                        dm.len() == dorig.len(),
                        spec_decode_entries(base0, dm) == spec_decode_entries(
                            fields_view(merged@),
                            dm.subrange(i, dm.len() as int),
                        ),
                    decreases d.len(),
                {
                    proof {
                        lemma_fields_view(dorig);
                    }
                    let pair = d.remove(0);
                    let ghost pk = pair.0@;
                    let ghost pv = pair.1@;
                    proof {
                        assert(pair == dorig[i]);
                        assert(d@ =~= dorig.subrange(i + 1, dorig.len() as int));
                        assert(dm[i] == (pk, pv));
                        assert(dm.subrange(i, dm.len() as int)[0] == dm[i]);
                        assert(dm.subrange(i, dm.len() as int).subrange(
                            1,
                            dm.len() - i,
                        ) =~= dm.subrange(i + 1, dm.len() as int));
                    }
                    match pair.1 {
                        Value::Text(enc) => {
                            match base64_decode(enc.as_str()) {
                                Some(bytes) => {
                                    let ghost bs = bytes@;
                                    match bytes_to_text(bytes) {
                                        Some(text) => {
                                            let ghost cur = fields_view(merged@);
                                            let ghost tv = text@;
                                            obj_set_field(&mut merged, pair.0, Value::Text(text));
                                            proof {
                                                assert(fields_view(merged@) == obj_set(
                                                    cur,
                                                    pk,
                                                    SpecValue::Text(decode_utf8(bs)),
                                                ));
                                                i = i + 1;
                                            }
                                        },
                                        None => {
                                            return Err(TransformError::EncodingError);
                                        },
                                    }
                                },
                                None => {
                                    return Err(TransformError::DecodeError);
                                },
                            }
                        },
                        _ => {
                            return Err(TransformError::TypeError);
                        },
                    }
                }
                proof {
                    assert(i == dorig.len());
                    assert(dm.subrange(i, dm.len() as int).len() == 0);
                    assert(spec_decode_entries(base0, dm) == Ok::<
                        Seq<(Seq<char>, SpecValue)>,
                        TransformError,
                    >(fields_view(merged@)));
                }
                let mut out = rest2;
                let ghost out_pre = out@;
                let ghost merged_final = fields_view(merged@);
                out.push(("stringData".to_owned(), Value::Object(merged)));
                proof {
                    assert(fields_view(out@) =~= fields_view(out_pre).push(
                        ("stringData"@, SpecValue::Object(merged_final)),
                    )) by {
                        lemma_fields_view(out@);
                        lemma_fields_view(out_pre);
                    }
                }
                Ok(Value::Object(out))
            },
            _ => Err(TransformError::TypeError),
        },
    }
}

/// Applies the document transform to a manifest value: a `Secret` object has
/// its `data` entries decoded into `stringData`, a `List` object has each
/// element of its `items` array transformed in order, and any other value is
/// returned unchanged.
pub fn parse_input(input: Value) -> (r: Result<Value, TransformError>)
    ensures
        match r {
            Ok(v) => spec_transform(input@) == Ok::<SpecValue, TransformError>(v@),
            Err(e) => spec_transform(input@) == Err::<SpecValue, TransformError>(e),
        },
    decreases input,
{
    let ghost input0 = input;
    match input {
        Value::Object(fields) => {
            let ghost fields_g = fields;
            let ghost m = fields_view(fields@);
            proof {
                lemma_fields_view(fields@);
                lemma_obj_key_at(m, "kind"@);
            }
            let kind_idx = obj_find(&fields, "kind");
            let mut is_secret = false;
            let mut is_list = false;
            if kind_idx < fields.len() {
                match &fields[kind_idx].1 {
                    Value::Text(k) => {
                        is_secret = str_eq(k.as_str(), "Secret");
                        is_list = str_eq(k.as_str(), "List");
                    },
                    _ => {},
                }
            }
            if is_secret {
                transform_secret(fields)
            } else if is_list {
                proof {
                    lemma_obj_key_at(m, "items"@);
                }
                let items_idx = obj_find(&fields, "items");
                if items_idx == fields.len() {
                    return Ok(Value::Object(fields));
                }
                let mut fields2 = fields;
                let pair = fields2.remove(items_idx);
                match pair.1 {
                    Value::Array(elems) => {
                        let ghost elems0 = elems;
                        let ghost em = elems_view(elems0@);
                        proof {
                            lemma_elems_view(elems0@);
                            assert(input0 == Value::Object(fields_g));
                            assert(decreases_to!(input0 => input0->Object_0));
                            assert(decreases_to!(fields_g => fields_g@));
                            assert(decreases_to!(fields_g@ => fields_g@[items_idx as int]));
                            assert(decreases_to!(fields_g@[items_idx as int] => fields_g@[
                                items_idx as int
                            ].1));
                            assert(fields_g@[items_idx as int].1 == Value::Array(elems0));
                            assert(decreases_to!(fields_g@[items_idx as int].1 => fields_g@[
                                items_idx as int
                            ].1->Array_0));
                            assert(decreases_to!(elems0 => elems0@));
                            assert(em.subrange(0, em.len() as int) =~= em);
                        }
                        let mut elems_it = elems;
                        let mut out_elems: Vec<Value> = Vec::new();
                        let ghost mut j: int = 0;
                        #[verifier::loop_isolation(false)]
                        while elems_it.len() > 0
                            invariant
                                0 <= j <= elems0@.len(),
                                elems_it@ == elems0@.subrange(j, elems0@.len() as int),
                                spec_transform_items(em) == match spec_transform_items(
                                    em.subrange(j, em.len() as int),
                                ) {
                                    Ok(t) => Ok::<Seq<SpecValue>, TransformError>(
                                        elems_view(out_elems@) + t,
                                    ),
                                    Err(e) => Err::<Seq<SpecValue>, TransformError>(e),
                                },
                            decreases elems_it.len(),
                        {
                            let item = elems_it.remove(0);
                            proof {
                                assert(item == elems0@[j]);
                                assert(elems_it@ =~= elems0@.subrange(
                                    j + 1,
                                    elems0@.len() as int,
                                ));
                                assert(em[j] == item@);
                                assert(em.subrange(j, em.len() as int)[0] == em[j]);
                                assert(em.subrange(j, em.len() as int).subrange(
                                    1,
                                    em.len() - j,
                                ) =~= em.subrange(j + 1, em.len() as int));
                                assert(decreases_to!(elems0@ => elems0@[j]));
                            }
                            match parse_input(item) {
                                Ok(t) => {
                                    let ghost out_pre = out_elems@;
                                    let ghost tv = t@;
                                    out_elems.push(t);
                                    proof {
                                        assert(elems_view(out_elems@) =~= elems_view(
                                            out_pre,
                                        ).push(tv)) by {
                                            lemma_elems_view(out_elems@);
                                            lemma_elems_view(out_pre);
                                        }
                                        assert(forall|tl: Seq<SpecValue>|
                                            elems_view(out_pre) + (seq![tv] + tl) =~= elems_view(
                                                out_elems@,
                                            ) + tl);
                                        j = j + 1;
                                    }
                                },
                                Err(e) => {
                                    return Err(e);
                                },
                            }
                        }
                        proof {
                            assert(j == elems0@.len());
                            assert(em.subrange(j, em.len() as int).len() == 0);
                            assert(elems_view(out_elems@) + Seq::<SpecValue>::empty()
                                =~= elems_view(out_elems@));
                        }
                        fields2.insert(items_idx, (pair.0, Value::Array(out_elems)));
                        proof {
                            assert(m[items_idx as int].0 == "items"@);
                            assert(fields_view(fields2@) =~= obj_set(
                                m,
                                "items"@,
                                SpecValue::Array(elems_view(out_elems@)),
                            )) by {
                                lemma_fields_view(fields2@);
                                lemma_fields_view(fields_g@);
                            }
                        }
                        Ok(Value::Object(fields2))
                    },
                    other => {
                        fields2.insert(items_idx, (pair.0, other));
                        proof {
                            assert(fields2@ =~= fields_g@);
                        }
                        Ok(Value::Object(fields2))
                    },
                }
            } else {
                Ok(Value::Object(fields))
            }
        },
        not_object => Ok(not_object),
    }
}

} // verus!
