//! The general properties of the transform, each proved once and for all.

use vstd::prelude::*;

use crate::codec::base64_decoded;
use crate::transform::TransformError;
use crate::transform::spec_decode_entries;
use crate::transform::spec_transform;
use crate::transform::spec_transform_items;
use crate::value::SpecValue;
use crate::value::lemma_obj_get_head;
use crate::value::lemma_obj_get_push;
use crate::value::lemma_obj_key_at;
use crate::value::lemma_obj_remove_get;
use crate::value::lemma_obj_remove_gone;
use crate::value::lemma_obj_set_get;
use crate::value::obj_get;
use crate::value::obj_has_key;
use crate::value::obj_remove;
use crate::value::obj_set;
use vstd::utf8::decode_utf8;
use vstd::utf8::valid_utf8;

verus! {

/// Identity on non-resources: a value that is not an object, or an object
/// whose `kind` field is missing, not a string, or neither `"Secret"` nor
/// `"List"`, transforms to itself.
pub proof fn lemma_identity_on_non_resources(v: SpecValue)
    requires
        v matches SpecValue::Object(fields) ==> match obj_get(fields, "kind"@) {
            Some(k) => !(k matches SpecValue::Text(t) && (t == "Secret"@ || t == "List"@)),
            None => true,
        },
    ensures
        spec_transform(v) == Ok::<SpecValue, TransformError>(v),
{
}

/// Idempotence on Secrets: a second pass over a transformed `Secret` finds no
/// `data` field and alters nothing, so transforming twice equals transforming
/// once.
pub proof fn lemma_idempotent_on_secret(fields: Seq<(Seq<char>, SpecValue)>, w: SpecValue)
    requires
        obj_get(fields, "kind"@) == Some(SpecValue::Text("Secret"@)),
        spec_transform(SpecValue::Object(fields)) == Ok::<SpecValue, TransformError>(w),
    ensures
        spec_transform(w) == Ok::<SpecValue, TransformError>(w),
{
    reveal_strlit("kind");
    reveal_strlit("data");
    reveal_strlit("stringData");
    assert("kind"@[0] == 'k' && "data"@[0] == 'd' && "stringData"@[0] == 's');
    assert("kind"@ != "data"@ && "kind"@ != "stringData"@ && "data"@ != "stringData"@);
    match obj_get(fields, "data"@) {
        None => {
        },
        Some(data_val) => {
            let data = data_val->Object_0;
            let stripped = obj_remove(obj_remove(fields, "data"@), "stringData"@);
            let merged = spec_decode_entries(
                match obj_get(fields, "stringData"@) {
                    None => Seq::empty(),
                    Some(sd) => sd->Object_0,
                },
                data,
            )->Ok_0;
            let p = ("stringData"@, SpecValue::Object(merged));
            lemma_obj_remove_get(fields, "data"@, "kind"@);
            lemma_obj_remove_get(obj_remove(fields, "data"@), "stringData"@, "kind"@);
            lemma_obj_get_push(stripped, p, "kind"@);
            lemma_obj_remove_gone(fields, "data"@);
            lemma_obj_remove_get(obj_remove(fields, "data"@), "stringData"@, "data"@);
            lemma_obj_get_push(stripped, p, "data"@);
            assert(obj_get(stripped.push(p), "kind"@) == Some(SpecValue::Text("Secret"@)));
            assert(obj_get(stripped.push(p), "data"@) is None);
        },
    }
}

/// Key removal: the output of a transformed `Secret` never has a `data`
/// field.
pub proof fn lemma_no_data_key_left(fields: Seq<(Seq<char>, SpecValue)>, w: SpecValue)
    requires
        obj_get(fields, "kind"@) == Some(SpecValue::Text("Secret"@)),
        spec_transform(SpecValue::Object(fields)) == Ok::<SpecValue, TransformError>(w),
    ensures
        w matches SpecValue::Object(wf) && !obj_has_key(wf, "data"@),
{
    reveal_strlit("data");
    reveal_strlit("stringData");
    assert("data"@.len() != "stringData"@.len());
    match obj_get(fields, "data"@) {
        None => {
            lemma_obj_key_at(fields, "data"@);
        },
        Some(data_val) => {
            let stripped = obj_remove(obj_remove(fields, "data"@), "stringData"@);
            let merged = spec_decode_entries(
                match obj_get(fields, "stringData"@) {
                    None => Seq::empty(),
                    Some(sd) => sd->Object_0,
                },
                data_val->Object_0,
            )->Ok_0;
            let p = ("stringData"@, SpecValue::Object(merged));
            lemma_obj_remove_gone(fields, "data"@);
            lemma_obj_remove_get(obj_remove(fields, "data"@), "stringData"@, "data"@);
            lemma_obj_get_push(stripped, p, "data"@);
        },
    }
}

/// Every successfully transformed item list keeps its length, and each output
/// element is the transform of the input element at the same position.
pub proof fn lemma_transform_items_shape(items: Seq<SpecValue>, out: Seq<SpecValue>)
    requires
        spec_transform_items(items) == Ok::<Seq<SpecValue>, TransformError>(out),
    ensures
        out.len() == items.len(),
        forall|i: int|
            0 <= i < items.len() ==> spec_transform(items[i]) == Ok::<
                SpecValue,
                TransformError,
            >(out[i]),
    decreases items.len(),
{
    if items.len() > 0 {
        let rest = items.subrange(1, items.len() as int);
        let h = spec_transform(items[0])->Ok_0;
        let t = spec_transform_items(rest)->Ok_0;
        lemma_transform_items_shape(rest, t);
        assert(out =~= seq![h] + t);
        assert forall|i: int|
            0 <= i < items.len() implies spec_transform(items[i]) == Ok::<
            SpecValue,
            TransformError,
        >(out[i]) by {
            if i > 0 {
                assert(items[i] == rest[i - 1]);
                assert(out[i] == t[i - 1]);
            }
        }
    }
}

/// List recursion preserves shape: a transformed `List` has an `items` array
/// of the same length, in the same order, each element transformed
/// independently.
pub proof fn lemma_list_shape(
    fields: Seq<(Seq<char>, SpecValue)>,
    items: Seq<SpecValue>,
    w: SpecValue,
)
    requires
        obj_get(fields, "kind"@) == Some(SpecValue::Text("List"@)),
        obj_get(fields, "items"@) == Some(SpecValue::Array(items)),
        spec_transform(SpecValue::Object(fields)) == Ok::<SpecValue, TransformError>(w),
    ensures
        w matches SpecValue::Object(wf) && obj_get(wf, "items"@) matches Some(arr)
            && arr matches SpecValue::Array(out) && out.len() == items.len() && forall|i: int|
            0 <= i < items.len() ==> spec_transform(items[i]) == Ok::<
                SpecValue,
                TransformError,
            >(out[i]),
{
    reveal_strlit("Secret");
    reveal_strlit("List");
    assert("Secret"@.len() != "List"@.len());
    let out = spec_transform_items(items)->Ok_0;
    lemma_transform_items_shape(items, out);
    lemma_obj_set_get(fields, "items"@, SpecValue::Array(out), "items"@);
    assert(w == SpecValue::Object(obj_set(fields, "items"@, SpecValue::Array(out))));
}

/// Merge precedence: after a successful merge of a `data` object with unique
/// keys over existing `stringData` entries, a key that `data` carries maps to
/// its decoded `data` value — even where `stringData` carried the same key —
/// while a key that `data` does not carry keeps its `stringData` value.
pub proof fn lemma_merge_precedence(
    acc: Seq<(Seq<char>, SpecValue)>,
    data: Seq<(Seq<char>, SpecValue)>,
    out: Seq<(Seq<char>, SpecValue)>,
    k: Seq<char>,
)
    requires
        spec_decode_entries(acc, data) == Ok::<Seq<(Seq<char>, SpecValue)>, TransformError>(out),
        forall|i: int, j: int| 0 <= i < j < data.len() ==> data[i].0 != data[j].0,
    ensures
        obj_has_key(data, k) ==> (obj_get(data, k) matches Some(dv)
            && dv matches SpecValue::Text(enc) && obj_get(out, k) == Some(
            SpecValue::Text(decode_utf8(base64_decoded(enc)->0)),
        )),
        !obj_has_key(data, k) ==> obj_get(out, k) == obj_get(acc, k),
    decreases data.len(),
{
    lemma_obj_key_at(data, k);
    if data.len() == 0 {
    } else {
        let rest = data.subrange(1, data.len() as int);
        let enc0 = data[0].1->Text_0;
        let dec0 = SpecValue::Text(decode_utf8(base64_decoded(enc0)->0));
        let acc2 = obj_set(acc, data[0].0, dec0);
        assert(forall|i: int, j: int|
            0 <= i < j < rest.len() ==> rest[i].0 != rest[j].0) by {
            assert(forall|i: int| 0 <= i < rest.len() ==> rest[i] == data[i + 1]);
        }
        lemma_merge_precedence(acc2, rest, out, k);
        lemma_obj_get_head(data, k);
        lemma_obj_key_at(rest, k);
        lemma_obj_set_get(acc, data[0].0, dec0, k);
        if data[0].0 == k {
            assert(forall|j: int| 0 <= j < rest.len() ==> rest[j] == data[j + 1]);
            assert(!obj_has_key(rest, k));
        }
    }
}

/// A `data` object whose entry at `bad` is not valid base64, while every
/// earlier entry decodes cleanly, fails the merge with `DecodeError`,
/// whatever was merged so far.
pub proof fn lemma_decode_entries_bad_base64(
    acc: Seq<(Seq<char>, SpecValue)>,
    data: Seq<(Seq<char>, SpecValue)>,
    bad: int,
)
    requires
        0 <= bad < data.len(),
        data[bad].1 matches SpecValue::Text(enc) && base64_decoded(enc) is None,
        forall|j: int|
            0 <= j < bad ==> (#[trigger] data[j].1 matches SpecValue::Text(e2)
                && base64_decoded(e2) matches Some(b2) && valid_utf8(b2)),
    ensures
        spec_decode_entries(acc, data) == Err::<
            Seq<(Seq<char>, SpecValue)>,
            TransformError,
        >(TransformError::DecodeError),
    decreases bad,
{
    if bad > 0 {
        let rest = data.subrange(1, data.len() as int);
        let enc0 = data[0].1->Text_0;
        let bytes0 = base64_decoded(enc0)->0;
        assert(data[bad] == rest[bad - 1]);
        assert forall|j: int|
            0 <= j < bad - 1 implies (#[trigger] rest[j].1 matches SpecValue::Text(e2)
            && base64_decoded(e2) matches Some(b2) && valid_utf8(b2)) by {
            assert(rest[j] == data[j + 1]);
        }
        lemma_decode_entries_bad_base64(
            obj_set(acc, data[0].0, SpecValue::Text(decode_utf8(bytes0))),
            rest,
            bad - 1,
        );
    }
}

/// Invalid base64 in a `data` entry fails the whole transform of a `Secret`
/// with `DecodeError`, provided every earlier entry decodes cleanly and
/// `stringData`, if present, is an object.
pub proof fn lemma_invalid_base64_fails(
    fields: Seq<(Seq<char>, SpecValue)>,
    data: Seq<(Seq<char>, SpecValue)>,
    bad: int,
)
    requires
        obj_get(fields, "kind"@) == Some(SpecValue::Text("Secret"@)),
        obj_get(fields, "data"@) == Some(SpecValue::Object(data)),
        obj_get(fields, "stringData"@) matches Some(sd) ==> sd matches SpecValue::Object(_),
        0 <= bad < data.len(),
        data[bad].1 matches SpecValue::Text(enc) && base64_decoded(enc) is None,
        forall|j: int|
            0 <= j < bad ==> (#[trigger] data[j].1 matches SpecValue::Text(e2)
                && base64_decoded(e2) matches Some(b2) && valid_utf8(b2)),
    ensures
        spec_transform(SpecValue::Object(fields)) == Err::<
            SpecValue,
            TransformError,
        >(TransformError::DecodeError),
{
    let base = match obj_get(fields, "stringData"@) {
        None => Seq::<(Seq<char>, SpecValue)>::empty(),
        Some(sd) => sd->Object_0,
    };
    lemma_decode_entries_bad_base64(base, data, bad);
}

} // verus!
