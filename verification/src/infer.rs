//! Inference: from JSON documents to the schema that describes them.

use crate::double::Double;
use crate::fields::{lemma_fields_dom, lemma_fields_push, lemma_fields_take_step, put_field};
use crate::infer_string::{classify_model, evidence_of, infer_string_type, Recognisers};
use crate::invariants::{
    law_inferred_from_all_is_producible, law_inferred_is_producible, numbers_only, sound,
};
use crate::json::{JsonNumber, JsonValue};
use crate::merge::{merge, merge_all};
use crate::schema::{
    distinct_keys, fields_model, fields_well_formed, texts, NumberType, SchemaModel, SchemaState,
    StringModel, StringType,
};
use crate::strings::distinct_of;
use vstd::prelude::*;

verus! {

/// When a string of no recognised format is taken for an enumeration.
pub struct EnumInference {
    /// The greatest ratio of distinct samples to samples at which it is.
    pub max_unique_ratio: Double,
    /// The least number of samples at which it is.
    pub min_sample_size: usize,
}

/// How a schema is inferred.
pub struct InferenceOptions {
    /// Whether and when strings are taken for enumerations.
    pub enum_inference: Option<EnumInference>,
}

/// Whether the samples of a string make it an enumeration: there are
/// samples, at least as many as asked for, and the ratio of distinct samples
/// to samples, computed in binary64, is at most the one allowed.
pub open spec fn promotes(strings_seen: Seq<Seq<char>>, opts: EnumInference) -> bool {
    &&& strings_seen.len() > 0
    &&& strings_seen.len() >= opts.min_sample_size
    &&& opts.max_unique_ratio.bounds_quotient(strings_seen.to_set().len(), strings_seen.len())
}

/// A string of no recognised format whose samples make it an enumeration
/// becomes the enumeration of its distinct samples. Any other string stays.
pub open spec fn promote_string(s: StringModel, opts: EnumInference) -> StringModel {
    match s {
        StringModel::Unknown { strings_seen, .. } => if promotes(strings_seen, opts) {
            StringModel::Enum { variants: strings_seen.to_set() }
        } else {
            s
        },
        _ => s,
    }
}

/// The schema with every string in it, at whatever depth, put through
/// [`promote_string`].
pub open spec fn promote_model(m: SchemaModel, opts: EnumInference) -> SchemaModel
    decreases m,
{
    match m {
        SchemaModel::String(s) => SchemaModel::String(promote_string(s, opts)),
        SchemaModel::Array { min_length, max_length, schema } => SchemaModel::Array {
            min_length,
            max_length,
            schema: Box::new(promote_model(*schema, opts)),
        },
        SchemaModel::Object { required, optional } => SchemaModel::Object {
            required: Map::new(
                |k: Seq<char>| required.dom().contains(k),
                |k: Seq<char>|
                    if required.dom().contains(k) {
                        promote_model(required[k], opts)
                    } else {
                        SchemaModel::Initial
                    },
            ),
            optional: Map::new(
                |k: Seq<char>| optional.dom().contains(k),
                |k: Seq<char>|
                    if optional.dom().contains(k) {
                        promote_model(optional[k], opts)
                    } else {
                        SchemaModel::Initial
                    },
            ),
        },
        SchemaModel::Nullable(inner) => SchemaModel::Nullable(
            Box::new(promote_model(*inner, opts)),
        ),
        _ => m,
    }
}

/// The fields of a map, each put through [`promote_model`].
pub open spec fn promote_fields(
    fields: Map<Seq<char>, SchemaModel>,
    opts: EnumInference,
) -> Map<Seq<char>, SchemaModel> {
    Map::new(
        |k: Seq<char>| fields.dom().contains(k),
        |k: Seq<char>| promote_model(fields[k], opts),
    )
}

/// Takes a string of no recognised format for an enumeration where its
/// samples make it one.
pub fn apply_enum_inner(s: StringType, opts: &EnumInference) -> (promoted: StringType)
    requires
        s.well_formed(),
    ensures
        promoted.well_formed(),
        promoted@ == promote_string(s@, *opts),
{
    match s {
        StringType::Unknown { strings_seen, chars_seen, min_length, max_length } => {
            let total = strings_seen.len();
            if total == 0 || total < opts.min_sample_size {
                return StringType::Unknown { strings_seen, chars_seen, min_length, max_length };
            }
            let variants = distinct_of(&strings_seen);
            proof {
                texts(strings_seen@).lemma_cardinality_of_set();
                texts(strings_seen@).lemma_cardinality_of_empty_set_is_0();
            }
            if opts.max_unique_ratio.at_least_ratio(variants.len(), total) {
                StringType::Enum { variants }
            } else {
                StringType::Unknown { strings_seen, chars_seen, min_length, max_length }
            }
        },
        _ => s,
    }
}

/// Puts every field of a list through the enumeration pass.
fn apply_enum_fields(
    fields: Vec<(String, SchemaState)>,
    opts: &EnumInference,
    Ghost(parent): Ghost<SchemaState>,
) -> (promoted: Vec<(String, SchemaState)>)
    requires
        distinct_keys(fields@),
        fields_well_formed(fields@),
        parent matches SchemaState::Object { required, optional } && (required == fields
            || optional == fields),
    ensures
        distinct_keys(promoted@),
        fields_well_formed(promoted@),
        fields_model(promoted@) == promote_fields(fields_model(fields@), *opts),
    decreases parent, 0nat,
{
    let ghost all = fields@;
    let mut promoted: Vec<(String, SchemaState)> = Vec::new();
    assert(fields_model(all.take(0)) =~= Map::empty());
    assert(fields_model(promoted@) =~= promote_fields(fields_model(all.take(0)), *opts));
    for field in it: fields
        invariant
            it.seq() == all,
            distinct_keys(all),
            fields_well_formed(all),
            parent matches SchemaState::Object { required, optional } && (required@ == all
                || optional@ == all),
            distinct_keys(promoted@),
            fields_well_formed(promoted@),
            fields_model(promoted@) == promote_fields(
                fields_model(all.take(it.index() as int)),
                *opts,
            ),
    {
        let ghost done = it.index() as int;
        proof {
            lemma_fields_take_step(all, done);
            lemma_fields_dom(all.take(done), field.0@);
            lemma_fields_dom(promoted@, field.0@);
        }
        let key = field.0;
        let schema = apply_enum_recursive(field.1, opts);
        proof {
            lemma_fields_push(promoted@, (key, schema));
        }
        promoted.push((key, schema));
        assert(fields_model(promoted@) =~= promote_fields(
            fields_model(all.take(done + 1)),
            *opts,
        ));
    }
    assert(all.take(all.len() as int) =~= all);
    promoted
}

/// Takes every string in the schema, at whatever depth, for an enumeration
/// where its samples make it one.
pub fn apply_enum_recursive(s: SchemaState, opts: &EnumInference) -> (promoted: SchemaState)
    requires
        s.well_formed(),
    ensures
        promoted.well_formed(),
        promoted@ == promote_model(s@, *opts),
    decreases s, 1nat,
{
    let ghost whole = s;
    match s {
        SchemaState::String(string_type) => SchemaState::String(
            apply_enum_inner(string_type, opts),
        ),
        SchemaState::Array { min_length, max_length, schema } => SchemaState::Array {
            min_length,
            max_length,
            schema: Box::new(apply_enum_recursive(*schema, opts)),
        },
        SchemaState::Object { required, optional } => {
            let ghost required_before = fields_model(required@);
            let ghost optional_before = fields_model(optional@);
            let new_required = apply_enum_fields(required, opts, Ghost(whole));
            let new_optional = apply_enum_fields(optional, opts, Ghost(whole));
            proof {
                let model = promote_model(whole@, *opts);
                assert(model->Object_required =~= promote_fields(required_before, *opts));
                assert(model->Object_optional =~= promote_fields(optional_before, *opts));
                assert forall|k: Seq<char>|
                    !(fields_model(new_required@).dom().contains(k) && fields_model(
                        new_optional@,
                    ).dom().contains(k)) by {
                    crate::fields::lemma_domains_by_disjoint(
                        whole->Object_required@,
                        whole->Object_optional@,
                    );
                }
                crate::fields::lemma_disjoint_by_domains(new_required@, new_optional@);
            }
            SchemaState::Object { required: new_required, optional: new_optional }
        },
        SchemaState::Nullable(inner) => SchemaState::Nullable(
            Box::new(apply_enum_recursive(*inner, opts)),
        ),
        _ => s,
    }
}

/// The schema of one number, which has the number as both bounds: an
/// integer where the number is an integer of 64 signed bits, and else a
/// float, as which an integer beyond 64 signed bits counts too.
pub open spec fn number_model(n: JsonNumber) -> NumberType {
    match n.spec_as_i64() {
        Some(v) => NumberType::Integer { min: v, max: v },
        None => NumberType::Float { min: n.spec_as_double(), max: n.spec_as_double() },
    }
}

/// The schemas of the first `n` members of an object, by name; of two
/// members of one name the later counts.
pub open spec fn infer_members(members: Seq<(String, JsonValue)>, n: nat) -> Map<
    Seq<char>,
    SchemaModel,
>
    decreases members, n,
{
    if n == 0 || n > members.len() {
        Map::empty()
    } else {
        infer_members(members, (n - 1) as nat).insert(
            members[n - 1].0@,
            infer_model(members[n - 1].1),
        )
    }
}

/// The schemas of the items of an array, in order.
pub open spec fn infer_items(items: Seq<JsonValue>) -> Seq<SchemaModel>
    decreases items, 0nat,
{
    Seq::new(
        items.len(),
        |i: int|
            if 0 <= i < items.len() {
                infer_model(items[i])
            } else {
                SchemaModel::Initial
            },
    )
}

/// The schema of one JSON document.
///
/// `null` and the booleans have schemas of their own. A number has itself
/// as both bounds, a string is classified. An array has its length as both
/// bounds and the merge of its items' schemas as the schema of its items. An
/// object requires each of its members.
pub open spec fn infer_model(value: JsonValue) -> SchemaModel
    decreases value, 1nat,
{
    match value {
        JsonValue::Null => SchemaModel::Null,
        JsonValue::Bool(_) => SchemaModel::Boolean,
        JsonValue::Number(n) => SchemaModel::Number(number_model(n)),
        JsonValue::String(s) => SchemaModel::String(classify_model(s@, evidence_of(s@))),
        JsonValue::Array(items) => SchemaModel::Array {
            min_length: items@.len(),
            max_length: items@.len(),
            schema: Box::new(merge_all(infer_items(items@))),
        },
        JsonValue::Object(members) => SchemaModel::Object {
            required: infer_members(members@, members@.len()),
            optional: Map::empty(),
        },
    }
}

/// The schema of a document once the options are applied: the enumeration
/// pass is run on it, once, where the options ask for it.
pub open spec fn finish_model(m: SchemaModel, options: InferenceOptions) -> SchemaModel {
    match options.enum_inference {
        Some(opts) => promote_model(m, opts),
        None => m,
    }
}

/// Infers the schema of one document, without the enumeration pass.
pub fn infer_value(json: JsonValue, recognisers: &Recognisers) -> (schema: SchemaState)
    ensures
        schema.well_formed(),
        schema@ == infer_model(json),
    decreases json,
{
    let ghost whole = json;
    match json {
        JsonValue::Null => SchemaState::Null,
        JsonValue::Bool(_) => SchemaState::Boolean,
        JsonValue::Number(n) => SchemaState::Number(
            match n.as_i64() {
                Some(v) => NumberType::Integer { min: v, max: v },
                None => NumberType::Float { min: n.as_double(), max: n.as_double() },
            },
        ),
        JsonValue::String(s) => SchemaState::String(infer_string_type(s.as_str(), recognisers)),
        JsonValue::Array(items) => {
            let ghost all = items@;
            let length = items.len();
            let mut schema = SchemaState::Initial;
            assert(infer_items(all).take(0) =~= Seq::<SchemaModel>::empty());
            for item in it: items
                invariant
                    it.seq() == all,
                    json == whole,
                    whole matches JsonValue::Array(v) && v@ == all,
                    schema.well_formed(),
                    schema@ == merge_all(infer_items(all).take(it.index() as int)),
            {
                let ghost done = it.index() as int;
                let next = infer_value(item, recognisers);
                schema = merge(schema, next);
                proof {
                    let models = infer_items(all);
                    assert(models.take(done + 1).drop_last() =~= models.take(done));
                    assert(models.take(done + 1).last() == models[done]);
                }
            }
            assert(infer_items(all).take(all.len() as int) =~= infer_items(all));
            SchemaState::Array { min_length: length, max_length: length, schema: Box::new(schema) }
        },
        JsonValue::Object(members) => {
            let ghost all = members@;
            let mut required: Vec<(String, SchemaState)> = Vec::new();
            let optional: Vec<(String, SchemaState)> = Vec::new();
            assert(fields_model(required@) =~= infer_members(all, 0));
            for member in it: members
                invariant
                    it.seq() == all,
                    json == whole,
                    whole matches JsonValue::Object(v) && v@ == all,
                    distinct_keys(required@),
                    fields_well_formed(required@),
                    fields_model(required@) == infer_members(all, it.index() as nat),
            {
                let schema = infer_value(member.1, recognisers);
                put_field(&mut required, member.0, schema);
            }
            assert(fields_model(optional@) =~= Map::empty());
            SchemaState::Object { required, optional }
        },
    }
}

/// Runs the enumeration pass on a schema where the options ask for it.
pub fn finish(schema: SchemaState, options: &InferenceOptions) -> (finished: SchemaState)
    requires
        schema.well_formed(),
    ensures
        finished.well_formed(),
        finished@ == finish_model(schema@, *options),
{
    match &options.enum_inference {
        Some(opts) => apply_enum_recursive(schema, opts),
        None => schema,
    }
}

/// Infers the schema of one JSON document.
///
/// Where the document holds no NaN, a document can be produced from the
/// schema.
pub fn infer_schema(json: JsonValue, options: &InferenceOptions) -> (schema: SchemaState)
    ensures
        schema.well_formed(),
        schema@ == finish_model(infer_model(json), *options),
        numbers_only(json) ==> sound(schema@),
{
    proof {
        if numbers_only(json) {
            law_inferred_is_producible(json, *options, 1);
        }
    }
    let recognisers = Recognisers::new();
    finish(infer_value(json, &recognisers), options)
}

/// Infers the one schema that describes every document of a collection: the
/// merge of their schemas, with the enumeration pass run once at the end
/// where the options ask for it.
///
/// Where the documents hold no NaN, a document can be produced from the
/// schema.
pub fn infer_schema_from_iter(values: Vec<JsonValue>, options: &InferenceOptions) -> (schema:
    SchemaState)
    ensures
        schema.well_formed(),
        schema@ == finish_model(merge_all(infer_items(values@)), *options),
        (forall|i: int| 0 <= i < values@.len() ==> numbers_only(#[trigger] values@[i])) ==> sound(
            schema@,
        ),
{
    let ghost all = values@;
    proof {
        if forall|i: int| 0 <= i < all.len() ==> numbers_only(#[trigger] all[i]) {
            law_inferred_from_all_is_producible(all, *options, 1);
        }
    }
    let recognisers = Recognisers::new();
    let mut schema = SchemaState::Initial;
    assert(infer_items(all).take(0) =~= Seq::<SchemaModel>::empty());
    for value in it: values
        invariant
            it.seq() == all,
            schema.well_formed(),
            schema@ == merge_all(infer_items(all).take(it.index() as int)),
    {
        let ghost done = it.index() as int;
        let next = infer_value(value, &recognisers);
        schema = merge(schema, next);
        proof {
            let models = infer_items(all);
            assert(models.take(done + 1).drop_last() =~= models.take(done));
            assert(models.take(done + 1).last() == models[done]);
        }
    }
    assert(infer_items(all).take(all.len() as int) =~= infer_items(all));
    finish(schema, options)
}

} // verus!
