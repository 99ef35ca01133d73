//! What holds of every schema that is inferred, and so of every schema that
//! a document is produced from after inference.

use crate::double::lemma_of_int_is_number;
use crate::infer::{
    finish_model, infer_items, infer_members, infer_model, promote_model, promotes, EnumInference,
    InferenceOptions,
};
use crate::infer_string::{classify_model, evidence_of};
use crate::infer::number_model;
use crate::json::{JsonNumber, JsonValue};
use crate::laws::{
    all_objects, as_schemas, held_by_some, law_merge_keeps_ordered, law_merge_keeps_valid,
    law_number_bounds, law_partition, ordered, parted, required_by_all, tight_float,
    tight_integer, valid, valid_number,
};
use crate::schema::NumberType;
use crate::merge::{
    field_of, join_optional, join_required, lemma_merge_objects, merge_all, merge_model,
};
use crate::produce::producible;
use crate::schema::{SchemaModel, StringModel};
use vstd::prelude::*;

verus! {

/// Whether no float of the document is NaN.
pub open spec fn numbers_only(value: JsonValue) -> bool
    decreases value,
{
    match value {
        JsonValue::Number(JsonNumber::Float(d)) => !d.is_nan(),
        JsonValue::Array(items) => forall|i: int|
            0 <= i < items@.len() ==> numbers_only(#[trigger] items@[i]),
        JsonValue::Object(members) => forall|i: int|
            0 <= i < members@.len() ==> numbers_only((#[trigger] members@[i]).1),
        _ => true,
    }
}

/// Whether every enumeration of the model has a variant, and finitely many.
pub open spec fn populated(m: SchemaModel) -> bool
    decreases m,
{
    match m {
        SchemaModel::String(StringModel::Enum { variants }) => variants.finite() && variants.len()
            > 0,
        SchemaModel::Nullable(inner) => populated(*inner),
        SchemaModel::Array { schema, .. } => populated(*schema),
        SchemaModel::Object { required, optional } => {
            &&& forall|k: Seq<char>|
                required.dom().contains(k) ==> populated(#[trigger] required[k])
            &&& forall|k: Seq<char>|
                optional.dom().contains(k) ==> populated(#[trigger] optional[k])
        },
        _ => true,
    }
}

/// Whether the model is one that a document can be produced from wherever
/// it stands: it is valid, its bounds are ordered and its enumerations have
/// variants.
pub open spec fn sound(m: SchemaModel) -> bool {
    valid(m) && ordered(m) && populated(m)
}

/// The merge of two models whose enumerations have variants has none
/// without.
pub proof fn law_merge_keeps_populated(a: SchemaModel, b: SchemaModel)
    requires
        populated(a),
        populated(b),
    ensures
        populated(merge_model(a, b)),
    decreases a, b,
{
    match (a, b) {
        (SchemaModel::Initial, _) => {},
        (_, SchemaModel::Initial) => {},
        (SchemaModel::Indefinite, _) => {},
        (_, SchemaModel::Indefinite) => {},
        (SchemaModel::String(x), SchemaModel::String(y)) => {},
        (SchemaModel::Number(x), SchemaModel::Number(y)) => {},
        (SchemaModel::Array { schema, .. }, SchemaModel::Array { schema: schema2, .. }) => {
            law_merge_keeps_populated(*schema, *schema2);
        },
        (
            SchemaModel::Object { required, optional },
            SchemaModel::Object { required: required2, optional: optional2 },
        ) => {
            lemma_merge_objects(required, optional, required2, optional2);
            let r = join_required(required, required2);
            let o = join_optional(required, optional, required2, optional2);
            assert forall|k: Seq<char>| r.dom().contains(k) implies populated(#[trigger] r[k]) by {
                law_merge_keeps_populated(required[k], required2[k]);
            }
            assert forall|k: Seq<char>| o.dom().contains(k) implies populated(#[trigger] o[k]) by {
                let in1 = required.dom().contains(k) || optional.dom().contains(k);
                let in2 = required2.dom().contains(k) || optional2.dom().contains(k);
                if in1 && in2 {
                    law_merge_keeps_populated(
                        field_of(required, optional, k),
                        field_of(required2, optional2, k),
                    );
                }
            }
        },
        (SchemaModel::Null, SchemaModel::Null) => {},
        (SchemaModel::Null, SchemaModel::Nullable(_)) => {},
        (SchemaModel::Nullable(_), SchemaModel::Null) => {},
        (_, SchemaModel::Null) => {},
        (SchemaModel::Null, _) => {},
        (SchemaModel::Nullable(x), SchemaModel::Nullable(y)) => law_merge_keeps_populated(*x, *y),
        (SchemaModel::Nullable(x), _) => law_merge_keeps_populated(*x, b),
        (_, SchemaModel::Nullable(y)) => law_merge_keeps_populated(a, *y),
        _ => {},
    }
}

/// The merge of any number of sound models is sound.
pub proof fn law_merge_all_keeps_sound(models: Seq<SchemaModel>)
    requires
        forall|i: int| 0 <= i < models.len() ==> sound(#[trigger] models[i]),
    ensures
        sound(merge_all(models)),
    decreases models.len(),
{
    if models.len() > 0 {
        let rest = models.drop_last();
        assert forall|i: int| 0 <= i < rest.len() implies sound(#[trigger] rest[i]) by {
            assert(rest[i] == models[i]);
        }
        law_merge_all_keeps_sound(rest);
        assert(sound(models[models.len() - 1]));
        law_merge_keeps_valid(merge_all(rest), models.last());
        law_merge_keeps_ordered(merge_all(rest), models.last());
        law_merge_keeps_populated(merge_all(rest), models.last());
    }
}

/// The schemas of the first `n` members of an object are sound.
proof fn lemma_members_sound(members: Seq<(String, JsonValue)>, n: nat)
    requires
        n <= members.len(),
        forall|i: int| 0 <= i < members.len() ==> numbers_only((#[trigger] members[i]).1),
    ensures
        forall|k: Seq<char>|
            infer_members(members, n).dom().contains(k) ==> sound(
                #[trigger] infer_members(members, n)[k],
            ),
    decreases members, n,
{
    if n > 0 {
        lemma_members_sound(members, (n - 1) as nat);
        law_inferred_is_sound(members[n - 1].1);
        let earlier = infer_members(members, (n - 1) as nat);
        let name = members[n - 1].0@;
        let schema = infer_model(members[n - 1].1);
        assert(infer_members(members, n) == earlier.insert(name, schema));
        assert forall|k: Seq<char>| infer_members(members, n).dom().contains(k) implies sound(
            #[trigger] infer_members(members, n)[k],
        ) by {
            if k != name {
                assert(earlier.dom().contains(k));
                assert(sound(earlier[k]));
            }
        }
    }
}

/// The schema inferred from a document without a NaN is sound: a nullable
/// schema in it wraps neither `Null` nor a nullable schema, no object holds a
/// name both as required and as optional, and no lower bound is above its
/// upper bound.
pub proof fn law_inferred_is_sound(value: JsonValue)
    requires
        numbers_only(value),
    ensures
        sound(infer_model(value)),
    decreases value, 1nat,
{
    match value {
        JsonValue::Number(n) => {
            match n {
                JsonNumber::PosInt(v) => lemma_of_int_is_number(v as int),
                JsonNumber::NegInt(v) => lemma_of_int_is_number(v as int),
                _ => {},
            }
        },
        JsonValue::Array(items) => {
            let models = infer_items(items@);
            assert forall|i: int| 0 <= i < models.len() implies sound(#[trigger] models[i]) by {
                assert(numbers_only(items@[i]));
                law_inferred_is_sound(items@[i]);
            }
            law_merge_all_keeps_sound(models);
        },
        JsonValue::Object(members) => {
            lemma_members_sound(members@, members@.len());
            let required = infer_members(members@, members@.len());
            assert(infer_model(value) == SchemaModel::Object {
                required,
                optional: Map::<Seq<char>, SchemaModel>::empty(),
            });
            assert forall|k: Seq<char>| required.dom().contains(k) implies valid(
                #[trigger] required[k],
            ) && ordered(required[k]) && populated(required[k]) by {
                assert(sound(required[k]));
            }
        },
        JsonValue::String(s) => {
            let model = classify_model(s@, evidence_of(s@));
            assert(!(model is Enum));
            assert(infer_model(value) == SchemaModel::String(model));
        },
        JsonValue::Null => {},
        JsonValue::Bool(_) => {},
    }
}

/// The enumeration pass keeps a sound schema sound: an enumeration that it
/// makes has the distinct samples of a string that has samples.
pub proof fn law_promotion_keeps_sound(m: SchemaModel, opts: EnumInference)
    requires
        sound(m),
    ensures
        sound(promote_model(m, opts)),
        m is Null == promote_model(m, opts) is Null,
        m is Nullable == promote_model(m, opts) is Nullable,
    decreases m,
{
    match m {
        SchemaModel::String(StringModel::Unknown { strings_seen, .. }) => {
            if promotes(strings_seen, opts) {
                vstd::seq_lib::seq_to_set_is_finite(strings_seen);
                strings_seen.lemma_cardinality_of_empty_set_is_0();
            }
        },
        SchemaModel::Array { schema, .. } => {
            law_promotion_keeps_sound(*schema, opts);
        },
        SchemaModel::Nullable(inner) => {
            law_promotion_keeps_sound(*inner, opts);
        },
        SchemaModel::Object { required, optional } => {
            let promoted = promote_model(m, opts);
            assert forall|k: Seq<char>| required.dom().contains(k) implies sound(
                #[trigger] promoted->Object_required[k],
            ) by {
                law_promotion_keeps_sound(required[k], opts);
            }
            assert forall|k: Seq<char>| optional.dom().contains(k) implies sound(
                #[trigger] promoted->Object_optional[k],
            ) by {
                law_promotion_keeps_sound(optional[k], opts);
            }
        },
        _ => {},
    }
}

/// A document can be produced from a sound schema, wherever the schema
/// stands and however many repetitions are asked.
pub proof fn law_sound_is_producible(m: SchemaModel, repeat_n: nat, at_root: bool)
    requires
        sound(m),
    ensures
        producible(m, repeat_n, at_root),
    decreases m,
{
    match m {
        SchemaModel::Nullable(inner) => law_sound_is_producible(*inner, repeat_n, false),
        SchemaModel::Array { schema, .. } => law_sound_is_producible(*schema, repeat_n, false),
        SchemaModel::Object { required, optional } => {
            assert forall|k: Seq<char>| required.dom().contains(k) implies producible(
                #[trigger] required[k],
                repeat_n,
                false,
            ) by {
                law_sound_is_producible(required[k], repeat_n, false);
            }
            assert forall|k: Seq<char>| optional.dom().contains(k) implies producible(
                #[trigger] optional[k],
                repeat_n,
                false,
            ) by {
                law_sound_is_producible(optional[k], repeat_n, false);
            }
        },
        _ => {},
    }
}

/// A document can be produced from the schema inferred from any document
/// without a NaN, with or without the enumeration pass.
pub proof fn law_inferred_is_producible(
    value: JsonValue,
    options: InferenceOptions,
    repeat_n: nat,
)
    requires
        numbers_only(value),
    ensures
        sound(finish_model(infer_model(value), options)),
        producible(finish_model(infer_model(value), options), repeat_n, true),
{
    law_inferred_is_sound(value);
    match options.enum_inference {
        Some(opts) => law_promotion_keeps_sound(infer_model(value), opts),
        None => {},
    }
    law_sound_is_producible(finish_model(infer_model(value), options), repeat_n, true);
}

/// A document can be produced from the schema inferred from any collection
/// of documents without a NaN, with or without the enumeration pass.
pub proof fn law_inferred_from_all_is_producible(
    values: Seq<JsonValue>,
    options: InferenceOptions,
    repeat_n: nat,
)
    requires
        forall|i: int| 0 <= i < values.len() ==> numbers_only(#[trigger] values[i]),
    ensures
        sound(finish_model(merge_all(infer_items(values)), options)),
        producible(finish_model(merge_all(infer_items(values)), options), repeat_n, true),
{
    let models = infer_items(values);
    assert forall|i: int| 0 <= i < models.len() implies sound(#[trigger] models[i]) by {
        assert(numbers_only(values[i]));
        law_inferred_is_sound(values[i]);
    }
    law_merge_all_keeps_sound(models);
    match options.enum_inference {
        Some(opts) => law_promotion_keeps_sound(merge_all(models), opts),
        None => {},
    }
    law_sound_is_producible(finish_model(merge_all(models), options), repeat_n, true);
}

/// Whether `Initial` stands nowhere inside the model but as the schema of
/// the items of an array that has no items.
pub open spec fn settled(m: SchemaModel) -> bool
    decreases m,
{
    match m {
        SchemaModel::Nullable(inner) => !(*inner is Initial) && settled(*inner),
        SchemaModel::Array { max_length, schema, .. } => (*schema is Initial ==> max_length == 0)
            && settled(*schema),
        SchemaModel::Object { required, optional } => {
            &&& forall|k: Seq<char>|
                required.dom().contains(k) ==> !((#[trigger] required[k]) is Initial) && settled(
                    required[k],
                )
            &&& forall|k: Seq<char>|
                optional.dom().contains(k) ==> !((#[trigger] optional[k]) is Initial) && settled(
                    optional[k],
                )
        },
        _ => true,
    }
}

/// The merge of two settled models is settled, and is `Initial` only where
/// both are.
pub proof fn law_merge_keeps_settled(a: SchemaModel, b: SchemaModel)
    requires
        settled(a),
        settled(b),
    ensures
        settled(merge_model(a, b)),
        merge_model(a, b) is Initial <==> a is Initial && b is Initial,
    decreases a, b,
{
    match (a, b) {
        (SchemaModel::Initial, _) => {},
        (_, SchemaModel::Initial) => {},
        (SchemaModel::Indefinite, _) => {},
        (_, SchemaModel::Indefinite) => {},
        (SchemaModel::String(x), SchemaModel::String(y)) => {},
        (SchemaModel::Number(x), SchemaModel::Number(y)) => {},
        (SchemaModel::Array { schema, .. }, SchemaModel::Array { schema: schema2, .. }) => {
            law_merge_keeps_settled(*schema, *schema2);
        },
        (
            SchemaModel::Object { required, optional },
            SchemaModel::Object { required: required2, optional: optional2 },
        ) => {
            lemma_merge_objects(required, optional, required2, optional2);
            let r = join_required(required, required2);
            let o = join_optional(required, optional, required2, optional2);
            assert forall|k: Seq<char>| r.dom().contains(k) implies !((#[trigger] r[k]) is Initial)
                && settled(r[k]) by {
                law_merge_keeps_settled(required[k], required2[k]);
            }
            assert forall|k: Seq<char>| o.dom().contains(k) implies !((#[trigger] o[k]) is Initial)
                && settled(o[k]) by {
                let in1 = required.dom().contains(k) || optional.dom().contains(k);
                let in2 = required2.dom().contains(k) || optional2.dom().contains(k);
                if in1 && in2 {
                    law_merge_keeps_settled(
                        field_of(required, optional, k),
                        field_of(required2, optional2, k),
                    );
                }
            }
        },
        (SchemaModel::Null, SchemaModel::Null) => {},
        (SchemaModel::Null, SchemaModel::Nullable(_)) => {},
        (SchemaModel::Nullable(_), SchemaModel::Null) => {},
        (_, SchemaModel::Null) => {},
        (SchemaModel::Null, _) => {},
        (SchemaModel::Nullable(x), SchemaModel::Nullable(y)) => law_merge_keeps_settled(*x, *y),
        (SchemaModel::Nullable(x), _) => law_merge_keeps_settled(*x, b),
        (_, SchemaModel::Nullable(y)) => law_merge_keeps_settled(a, *y),
        _ => {},
    }
}

/// The merge of any number of settled models, none of them `Initial`, is
/// settled, and is `Initial` only where there is none.
pub proof fn law_merge_all_keeps_settled(models: Seq<SchemaModel>)
    requires
        forall|i: int|
            0 <= i < models.len() ==> settled(#[trigger] models[i]) && !(models[i] is Initial),
    ensures
        settled(merge_all(models)),
        merge_all(models) is Initial <==> models.len() == 0,
    decreases models.len(),
{
    if models.len() > 0 {
        let rest = models.drop_last();
        assert forall|i: int| 0 <= i < rest.len() implies settled(#[trigger] rest[i]) && !(
        rest[i] is Initial) by {
            assert(rest[i] == models[i]);
        }
        law_merge_all_keeps_settled(rest);
        assert(settled(models[models.len() - 1]));
        law_merge_keeps_settled(merge_all(rest), models.last());
    }
}

/// The schemas of the first `n` members of an object are settled, and none
/// of them is `Initial`.
proof fn lemma_members_settled(members: Seq<(String, JsonValue)>, n: nat)
    requires
        n <= members.len(),
    ensures
        forall|k: Seq<char>|
            infer_members(members, n).dom().contains(k) ==> settled(
                #[trigger] infer_members(members, n)[k],
            ) && !(infer_members(members, n)[k] is Initial),
    decreases members, n,
{
    if n > 0 {
        lemma_members_settled(members, (n - 1) as nat);
        law_inferred_is_settled(members[n - 1].1);
        let earlier = infer_members(members, (n - 1) as nat);
        let name = members[n - 1].0@;
        let schema = infer_model(members[n - 1].1);
        assert(infer_members(members, n) == earlier.insert(name, schema));
        assert forall|k: Seq<char>| infer_members(members, n).dom().contains(k) implies settled(
            #[trigger] infer_members(members, n)[k],
        ) && !(infer_members(members, n)[k] is Initial) by {
            if k != name {
                assert(earlier.dom().contains(k));
                assert(settled(earlier[k]));
            }
        }
    }
}

/// The schema inferred from a document is settled and is not `Initial`:
/// `Initial` stands in it only for the items of arrays without items.
pub proof fn law_inferred_is_settled(value: JsonValue)
    ensures
        settled(infer_model(value)),
        !(infer_model(value) is Initial),
    decreases value, 1nat,
{
    match value {
        JsonValue::Array(items) => {
            let models = infer_items(items@);
            assert forall|i: int| 0 <= i < models.len() implies settled(#[trigger] models[i]) && !(
            models[i] is Initial) by {
                law_inferred_is_settled(items@[i]);
            }
            law_merge_all_keeps_settled(models);
        },
        JsonValue::Object(members) => {
            lemma_members_settled(members@, members@.len());
            let required = infer_members(members@, members@.len());
            assert(infer_model(value) == SchemaModel::Object {
                required,
                optional: Map::<Seq<char>, SchemaModel>::empty(),
            });
        },
        _ => {},
    }
}

/// The enumeration pass keeps a settled schema settled.
pub proof fn law_promotion_keeps_settled(m: SchemaModel, opts: EnumInference)
    requires
        settled(m),
    ensures
        settled(promote_model(m, opts)),
        m is Initial == promote_model(m, opts) is Initial,
    decreases m,
{
    match m {
        SchemaModel::Array { schema, .. } => {
            law_promotion_keeps_settled(*schema, opts);
        },
        SchemaModel::Nullable(inner) => {
            law_promotion_keeps_settled(*inner, opts);
        },
        SchemaModel::Object { required, optional } => {
            let promoted = promote_model(m, opts);
            assert forall|k: Seq<char>| required.dom().contains(k) implies !((
            #[trigger] promoted->Object_required[k]) is Initial) && settled(
                promoted->Object_required[k],
            ) by {
                law_promotion_keeps_settled(required[k], opts);
            }
            assert forall|k: Seq<char>| optional.dom().contains(k) implies !((
            #[trigger] promoted->Object_optional[k]) is Initial) && settled(
                promoted->Object_optional[k],
            ) by {
                law_promotion_keeps_settled(optional[k], opts);
            }
        },
        _ => {},
    }
}

/// Whether some member has that name.
pub open spec fn names(members: Seq<(String, JsonValue)>, name: Seq<char>) -> bool {
    exists|i: int| 0 <= i < members.len() && (#[trigger] members[i]).0@ == name
}

/// The schemas of the first `n` members are listed under the names of
/// those members.
proof fn lemma_member_names(members: Seq<(String, JsonValue)>, n: nat, name: Seq<char>)
    requires
        n <= members.len(),
    ensures
        infer_members(members, n).dom().contains(name) <==> names(members.take(n as int), name),
    decreases n,
{
    let head = members.take(n as int);
    if n > 0 {
        lemma_member_names(members, (n - 1) as nat, name);
        let earlier = members.take(n - 1);
        if names(head, name) {
            let i = choose|i: int| 0 <= i < head.len() && (#[trigger] head[i]).0@ == name;
            if i < n - 1 {
                assert(earlier[i] == head[i]);
            }
        }
        if names(earlier, name) {
            let i = choose|i: int| 0 <= i < earlier.len() && (#[trigger] earlier[i]).0@ == name;
            assert(head[i] == earlier[i]);
        }
        if members[n - 1].0@ == name {
            assert(head[n - 1] == members[n - 1]);
        }
    } else {
        if names(head, name) {
            let i = choose|i: int| 0 <= i < head.len() && (#[trigger] head[i]).0@ == name;
        }
    }
}

/// Whether every document of the sequence is an object with a member of
/// that name.
pub open spec fn in_every_document(values: Seq<JsonValue>, name: Seq<char>) -> bool {
    forall|i: int| 0 <= i < values.len() ==> names((#[trigger] values[i])->Object_0@, name)
}

/// Whether some document of the sequence has a member of that name.
pub open spec fn in_some_document(values: Seq<JsonValue>, name: Seq<char>) -> bool {
    exists|i: int| 0 <= i < values.len() && names((#[trigger] values[i])->Object_0@, name)
}

/// Of the schema inferred from any number of objects, a field is required
/// exactly when every object has a member of its name, and optional exactly
/// when some objects have one and others not. A name that no object has is
/// no field.
pub proof fn law_documents_part_their_members(values: Seq<JsonValue>)
    requires
        values.len() > 0,
        forall|i: int| 0 <= i < values.len() ==> (#[trigger] values[i]) is Object,
    ensures
        merge_all(infer_items(values)) is Object,
        forall|k: Seq<char>|
            merge_all(infer_items(values))->Object_required.dom().contains(k)
                <==> in_every_document(values, k),
        forall|k: Seq<char>|
            merge_all(infer_items(values))->Object_optional.dom().contains(k) <==> (
            in_some_document(values, k) && !in_every_document(values, k)),
{
    let samples = infer_items(values);
    assert(all_objects(samples));
    assert forall|i: int| 0 <= i < samples.len() implies parted(#[trigger] samples[i]) by {}
    law_partition(samples);
    assert forall|k: Seq<char>|
        (required_by_all(samples, k) <==> in_every_document(values, k)) && (held_by_some(
            samples,
            k,
        ) <==> in_some_document(values, k)) by {
        assert forall|i: int| 0 <= i < values.len() implies (
        #[trigger] samples[i])->Object_required.dom().contains(k) == names(
            values[i]->Object_0@,
            k,
        ) && !samples[i]->Object_optional.dom().contains(k) by {
            let members = values[i]->Object_0@;
            lemma_member_names(members, members.len(), k);
            assert(members.take(members.len() as int) =~= members);
        }
        if required_by_all(samples, k) {
            assert forall|i: int| 0 <= i < values.len() implies names(
                (#[trigger] values[i])->Object_0@,
                k,
            ) by {
                assert(samples[i]->Object_required.dom().contains(k));
            }
        }
        if in_every_document(values, k) {
            assert forall|i: int| 0 <= i < samples.len() implies (
            #[trigger] samples[i])->Object_required.dom().contains(k) by {
                assert(names(values[i]->Object_0@, k));
            }
        }
        if held_by_some(samples, k) {
            let i = choose|i: int|
                0 <= i < samples.len() && crate::laws::present(
                    (#[trigger] samples[i])->Object_required,
                    samples[i]->Object_optional,
                    k,
                );
            assert(names(values[i]->Object_0@, k));
        }
        if in_some_document(values, k) {
            let i = choose|i: int|
                0 <= i < values.len() && names((#[trigger] values[i])->Object_0@, k);
            assert(samples[i]->Object_required.dom().contains(k));
        }
    }
}

/// The numbers of the documents, each as the schema inferred from it.
pub open spec fn numbers_of(values: Seq<JsonValue>) -> Seq<NumberType> {
    Seq::new(values.len(), |i: int| number_model(values[i]->Number_0))
}

/// The schema inferred from any number of numbers has the tightest bounds
/// that hold them all: the least and the greatest of them as integers while
/// all are integers of 64 signed bits, and as floats as soon as one is not.
pub proof fn law_numbers_infer_their_bounds(values: Seq<JsonValue>)
    requires
        values.len() > 0,
        forall|i: int|
            0 <= i < values.len() ==> (#[trigger] values[i]) is Number && numbers_only(values[i]),
    ensures
        merge_all(infer_items(values)) is Number,
        match merge_all(infer_items(values))->Number_0 {
            NumberType::Integer { min, max } => tight_integer(numbers_of(values), min, max),
            NumberType::Float { min, max } => tight_float(numbers_of(values), min, max),
        },
{
    let samples = numbers_of(values);
    assert(infer_items(values) =~= as_schemas(samples));
    assert forall|i: int| 0 <= i < samples.len() implies valid_number(#[trigger] samples[i]) by {
        assert(numbers_only(values[i]));
        match values[i]->Number_0 {
            JsonNumber::PosInt(v) => lemma_of_int_is_number(v as int),
            JsonNumber::NegInt(v) => lemma_of_int_is_number(v as int),
            JsonNumber::Float(_) => {},
        }
    }
    law_number_bounds(samples);
}

} // verus!
