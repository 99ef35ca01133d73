//! The merge of two schemas: the fold operator that unifies what was seen at
//! one position.

use crate::double::Double;
use crate::fields::{
    lemma_disjoint_by_domains, lemma_domains_by_disjoint, lemma_fields_concat, lemma_fields_dom,
    lemma_fields_push, lemma_fields_take_step, take_field,
};
use crate::schema::{
    bound_model, disjoint_keys, distinct_keys, fields_model, fields_well_formed,
    lemma_fields_model_at, texts, NumberType, SchemaModel, SchemaState, StringModel, StringType,
};
use crate::strings::same_variants;
use vstd::prelude::*;

verus! {

/// The lesser of two optional lengths; an absent one gives way.
pub open spec fn min_bound(a: Option<nat>, b: Option<nat>) -> Option<nat> {
    match (a, b) {
        (Some(x), Some(y)) => Some(if x <= y { x } else { y }),
        (Some(x), None) => Some(x),
        (None, Some(y)) => Some(y),
        (None, None) => None,
    }
}

/// The greater of two optional lengths; an absent one gives way.
pub open spec fn max_bound(a: Option<nat>, b: Option<nat>) -> Option<nat> {
    match (a, b) {
        (Some(x), Some(y)) => Some(if x >= y { x } else { y }),
        (Some(x), None) => Some(x),
        (None, Some(y)) => Some(y),
        (None, None) => None,
    }
}

/// A string of no recognised format of which nothing was seen.
pub open spec fn blank_unknown() -> StringModel {
    StringModel::Unknown {
        strings_seen: Seq::empty(),
        chars_seen: Seq::empty(),
        min_length: None,
        max_length: None,
    }
}

/// The merge of what is known of two strings.
///
/// Two unrecognised strings pool their samples, the first's before the
/// second's, and widen their lengths. An unrecognised one beside a recognised
/// format stays as it is. Two equal formats stay; two different formats leave
/// an unrecognised string of which nothing is known.
pub open spec fn merge_string_model(a: StringModel, b: StringModel) -> StringModel {
    match (a, b) {
        (
            StringModel::Unknown { strings_seen, chars_seen, min_length, max_length },
            StringModel::Unknown {
                strings_seen: strings_seen2,
                chars_seen: chars_seen2,
                min_length: min_length2,
                max_length: max_length2,
            },
        ) => StringModel::Unknown {
            strings_seen: strings_seen + strings_seen2,
            chars_seen: chars_seen + chars_seen2,
            min_length: min_bound(min_length, min_length2),
            max_length: max_bound(max_length, max_length2),
        },
        (StringModel::Unknown { .. }, _) => a,
        (_, StringModel::Unknown { .. }) => b,
        _ => if a == b {
            a
        } else {
            blank_unknown()
        },
    }
}

/// The merge of what is known of two numbers: integers keep integer bounds,
/// and a float on either side turns the bounds of the other into floats.
pub open spec fn merge_number_model(a: NumberType, b: NumberType) -> NumberType {
    match (a, b) {
        (NumberType::Integer { min, max }, NumberType::Integer { min: min2, max: max2 }) => {
            NumberType::Integer {
                min: if min <= min2 { min } else { min2 },
                max: if max >= max2 { max } else { max2 },
            }
        },
        (NumberType::Integer { min, max }, NumberType::Float { min: min2, max: max2 }) => {
            NumberType::Float {
                min: Double::of_int(min as int).spec_min(min2),
                max: Double::of_int(max as int).spec_max(max2),
            }
        },
        (NumberType::Float { min, max }, NumberType::Integer { min: min2, max: max2 }) => {
            NumberType::Float {
                min: min.spec_min(Double::of_int(min2 as int)),
                max: max.spec_max(Double::of_int(max2 as int)),
            }
        },
        (NumberType::Float { min, max }, NumberType::Float { min: min2, max: max2 }) => {
            NumberType::Float { min: min.spec_min(min2), max: max.spec_max(max2) }
        },
    }
}

/// The fields that the merge of two objects requires: those that both
/// require, each with the merge of its two schemas.
pub open spec fn join_required(
    first: Map<Seq<char>, SchemaModel>,
    second: Map<Seq<char>, SchemaModel>,
) -> Map<Seq<char>, SchemaModel> {
    Map::new(
        |k: Seq<char>| first.dom().contains(k) && second.dom().contains(k),
        |k: Seq<char>| merge_model(first[k], second[k]),
    )
}

/// The schema that a pair of field maps holds under a name: the required
/// one, else the optional one.
pub open spec fn field_of(
    required: Map<Seq<char>, SchemaModel>,
    optional: Map<Seq<char>, SchemaModel>,
    k: Seq<char>,
) -> SchemaModel {
    if required.dom().contains(k) {
        required[k]
    } else {
        optional[k]
    }
}

/// The fields that the merge of two objects leaves optional: every field of
/// either that not both require. One that both objects hold has the merge of
/// its two schemas; one that a single object holds keeps its schema.
pub open spec fn join_optional(
    required: Map<Seq<char>, SchemaModel>,
    optional: Map<Seq<char>, SchemaModel>,
    required2: Map<Seq<char>, SchemaModel>,
    optional2: Map<Seq<char>, SchemaModel>,
) -> Map<Seq<char>, SchemaModel> {
    Map::new(
        |k: Seq<char>|
            (required.dom().contains(k) || optional.dom().contains(k) || required2.dom().contains(
                k,
            ) || optional2.dom().contains(k)) && !(required.dom().contains(k)
                && required2.dom().contains(k)),
        |k: Seq<char>|
            if required.dom().contains(k) || optional.dom().contains(k) {
                if required2.dom().contains(k) || optional2.dom().contains(k) {
                    merge_model(field_of(required, optional, k), field_of(required2, optional2, k))
                } else {
                    field_of(required, optional, k)
                }
            } else {
                field_of(required2, optional2, k)
            },
    )
}

/// The merge of two schemas.
///
/// `Initial` and `Indefinite` give way to the other side. Strings, numbers
/// and booleans merge with their own kind; arrays widen their lengths and
/// merge their element schemas; objects merge field by field. `null` beside
/// another schema makes it nullable, and a nullable schema stays nullable.
/// Two schemas of different kinds leave `Indefinite`.
pub open spec fn merge_model(a: SchemaModel, b: SchemaModel) -> SchemaModel
    decreases a, b,
{
    match (a, b) {
        (SchemaModel::Initial, _) => b,
        (_, SchemaModel::Initial) => a,
        (SchemaModel::Indefinite, _) => b,
        (_, SchemaModel::Indefinite) => a,
        (SchemaModel::String(x), SchemaModel::String(y)) => SchemaModel::String(
            merge_string_model(x, y),
        ),
        (SchemaModel::Number(x), SchemaModel::Number(y)) => SchemaModel::Number(
            merge_number_model(x, y),
        ),
        (SchemaModel::Boolean, SchemaModel::Boolean) => SchemaModel::Boolean,
        (
            SchemaModel::Array { min_length, max_length, schema },
            SchemaModel::Array { min_length: min_length2, max_length: max_length2, schema: schema2 },
        ) => SchemaModel::Array {
            min_length: if min_length <= min_length2 { min_length } else { min_length2 },
            max_length: if max_length >= max_length2 { max_length } else { max_length2 },
            schema: Box::new(merge_model(*schema, *schema2)),
        },
        (
            SchemaModel::Object { required, optional },
            SchemaModel::Object { required: required2, optional: optional2 },
        ) => SchemaModel::Object {
            required: Map::new(
                |k: Seq<char>| required.dom().contains(k) && required2.dom().contains(k),
                |k: Seq<char>|
                    if required.dom().contains(k) {
                        merge_model(required[k], required2[k])
                    } else {
                        SchemaModel::Initial
                    },
            ),
            optional: Map::new(
                |k: Seq<char>|
                    (required.dom().contains(k) || optional.dom().contains(k)
                        || required2.dom().contains(k) || optional2.dom().contains(k)) && !(
                    required.dom().contains(k) && required2.dom().contains(k)),
                |k: Seq<char>|
                    if required.dom().contains(k) {
                        if required2.dom().contains(k) || optional2.dom().contains(k) {
                            merge_model(required[k], field_of(required2, optional2, k))
                        } else {
                            required[k]
                        }
                    } else if optional.dom().contains(k) {
                        if required2.dom().contains(k) || optional2.dom().contains(k) {
                            merge_model(optional[k], field_of(required2, optional2, k))
                        } else {
                            optional[k]
                        }
                    } else {
                        field_of(required2, optional2, k)
                    },
            ),
        },
        (SchemaModel::Null, SchemaModel::Null) => SchemaModel::Null,
        (SchemaModel::Null, SchemaModel::Nullable(_)) => b,
        (SchemaModel::Nullable(_), SchemaModel::Null) => a,
        (_, SchemaModel::Null) => SchemaModel::Nullable(Box::new(a)),
        (SchemaModel::Null, _) => SchemaModel::Nullable(Box::new(b)),
        (SchemaModel::Nullable(x), SchemaModel::Nullable(y)) => SchemaModel::Nullable(
            Box::new(merge_model(*x, *y)),
        ),
        (SchemaModel::Nullable(x), _) => SchemaModel::Nullable(Box::new(merge_model(*x, b))),
        (_, SchemaModel::Nullable(y)) => SchemaModel::Nullable(Box::new(merge_model(a, *y))),
        _ => SchemaModel::Indefinite,
    }
}

/// The merge of a sequence of schemas, from the first to the last, starting
/// from `Initial`.
pub open spec fn merge_all(models: Seq<SchemaModel>) -> SchemaModel
    decreases models.len(),
{
    if models.len() == 0 {
        SchemaModel::Initial
    } else {
        merge_model(merge_all(models.drop_last()), models.last())
    }
}

/// The merge of two objects, stated over their field maps.
pub proof fn lemma_merge_objects(
    required: Map<Seq<char>, SchemaModel>,
    optional: Map<Seq<char>, SchemaModel>,
    required2: Map<Seq<char>, SchemaModel>,
    optional2: Map<Seq<char>, SchemaModel>,
)
    ensures
        merge_model(
            SchemaModel::Object { required, optional },
            SchemaModel::Object { required: required2, optional: optional2 },
        ) == (SchemaModel::Object {
            required: join_required(required, required2),
            optional: join_optional(required, optional, required2, optional2),
        }),
{
    let merged = merge_model(
        SchemaModel::Object { required, optional },
        SchemaModel::Object { required: required2, optional: optional2 },
    );
    assert(merged->Object_required =~= join_required(required, required2));
    assert(merged->Object_optional =~= join_optional(required, optional, required2, optional2));
}

/// The optional fields that come of the first object's required fields
/// `first`: those that the second does not require.
pub open spec fn optional_of_required(
    first: Map<Seq<char>, SchemaModel>,
    required2: Map<Seq<char>, SchemaModel>,
    optional2: Map<Seq<char>, SchemaModel>,
) -> Map<Seq<char>, SchemaModel> {
    Map::new(
        |k: Seq<char>| first.dom().contains(k) && !required2.dom().contains(k),
        |k: Seq<char>|
            if optional2.dom().contains(k) {
                merge_model(first[k], optional2[k])
            } else {
                first[k]
            },
    )
}

/// The optional fields that come of the first object's optional fields
/// `first`.
pub open spec fn optional_of_optional(
    first: Map<Seq<char>, SchemaModel>,
    required2: Map<Seq<char>, SchemaModel>,
    optional2: Map<Seq<char>, SchemaModel>,
) -> Map<Seq<char>, SchemaModel> {
    Map::new(
        |k: Seq<char>| first.dom().contains(k),
        |k: Seq<char>|
            if required2.dom().contains(k) || optional2.dom().contains(k) {
                merge_model(first[k], field_of(required2, optional2, k))
            } else {
                first[k]
            },
    )
}

/// The lesser of two optional lengths.
pub fn merge_lower(a: Option<usize>, b: Option<usize>) -> (r: Option<usize>)
    ensures
        bound_model(r) == min_bound(bound_model(a), bound_model(b)),
{
    match (a, b) {
        (Some(x), Some(y)) => Some(if x <= y { x } else { y }),
        (Some(x), None) => Some(x),
        (None, Some(y)) => Some(y),
        (None, None) => None,
    }
}

/// The greater of two optional lengths.
pub fn merge_upper(a: Option<usize>, b: Option<usize>) -> (r: Option<usize>)
    ensures
        bound_model(r) == max_bound(bound_model(a), bound_model(b)),
{
    match (a, b) {
        (Some(x), Some(y)) => Some(if x >= y { x } else { y }),
        (Some(x), None) => Some(x),
        (None, Some(y)) => Some(y),
        (None, None) => None,
    }
}

/// Whether two recognised formats are the same.
pub fn same_format(a: &StringType, b: &StringType) -> (r: bool)
    requires
        a.well_formed(),
        b.well_formed(),
        !(a is Unknown),
        !(b is Unknown),
    ensures
        r == (a@ == b@),
{
    match (a, b) {
        (StringType::IsoDate, StringType::IsoDate) => true,
        (StringType::DateTimeRFC2822, StringType::DateTimeRFC2822) => true,
        (StringType::DateTimeISO8601, StringType::DateTimeISO8601) => true,
        (StringType::UUID, StringType::UUID) => true,
        (StringType::Email, StringType::Email) => true,
        (StringType::Url, StringType::Url) => true,
        (StringType::Hostname, StringType::Hostname) => true,
        (StringType::Enum { variants }, StringType::Enum { variants: variants2 }) => same_variants(
            variants,
            variants2,
        ),
        _ => false,
    }
}

/// Merges what is known of two strings.
pub fn merge_strings(a: StringType, b: StringType) -> (merged: StringType)
    requires
        a.well_formed(),
        b.well_formed(),
    ensures
        merged.well_formed(),
        merged@ == merge_string_model(a@, b@),
{
    match a {
        StringType::Unknown { strings_seen, chars_seen, min_length, max_length } => match b {
            StringType::Unknown {
                strings_seen: strings_seen2,
                chars_seen: chars_seen2,
                min_length: min_length2,
                max_length: max_length2,
            } => {
                let mut strings = strings_seen;
                let mut chars = chars_seen;
                let mut strings2 = strings_seen2;
                let mut chars2 = chars_seen2;
                let ghost before = strings@;
                let ghost before2 = strings2@;
                strings.append(&mut strings2);
                chars.append(&mut chars2);
                assert(texts(before + before2) =~= texts(before) + texts(before2));
                StringType::Unknown {
                    strings_seen: strings,
                    chars_seen: chars,
                    min_length: merge_lower(min_length, min_length2),
                    max_length: merge_upper(max_length, max_length2),
                }
            },
            _ => StringType::Unknown { strings_seen, chars_seen, min_length, max_length },
        },
        _ => match b {
            StringType::Unknown { .. } => b,
            _ => if same_format(&a, &b) {
                a
            } else {
                let blank = StringType::Unknown {
                    strings_seen: Vec::new(),
                    chars_seen: Vec::new(),
                    min_length: None,
                    max_length: None,
                };
                assert(texts(Seq::<String>::empty()) =~= Seq::<Seq<char>>::empty());
                blank
            },
        },
    }
}

/// Merges what is known of two numbers.
pub fn merge_numbers(a: NumberType, b: NumberType) -> (merged: NumberType)
    ensures
        merged == merge_number_model(a, b),
{
    match (a, b) {
        (NumberType::Integer { min, max }, NumberType::Integer { min: min2, max: max2 }) => {
            NumberType::Integer {
                min: if min <= min2 { min } else { min2 },
                max: if max >= max2 { max } else { max2 },
            }
        },
        (NumberType::Integer { min, max }, NumberType::Float { min: min2, max: max2 }) => {
            NumberType::Float {
                min: Double::from_i64(min).min(min2),
                max: Double::from_i64(max).max(max2),
            }
        },
        (NumberType::Float { min, max }, NumberType::Integer { min: min2, max: max2 }) => {
            NumberType::Float {
                min: min.min(Double::from_i64(min2)),
                max: max.max(Double::from_i64(max2)),
            }
        },
        (NumberType::Float { min, max }, NumberType::Float { min: min2, max: max2 }) => {
            NumberType::Float { min: min.min(min2), max: max.max(max2) }
        },
    }
}

/// Merges the fields of two objects, `first` and `second`, into the
/// required and the optional fields of their merge.
#[verifier::rlimit(50)]
fn merge_fields(
    required: Vec<(String, SchemaState)>,
    optional: Vec<(String, SchemaState)>,
    required2: Vec<(String, SchemaState)>,
    optional2: Vec<(String, SchemaState)>,
    Ghost(first): Ghost<SchemaState>,
    Ghost(second): Ghost<SchemaState>,
) -> (merged: (Vec<(String, SchemaState)>, Vec<(String, SchemaState)>))
    requires
        first == (SchemaState::Object { required, optional }),
        second == (SchemaState::Object { required: required2, optional: optional2 }),
        first.well_formed(),
        second.well_formed(),
    ensures
        distinct_keys(merged.0@),
        distinct_keys(merged.1@),
        disjoint_keys(merged.0@, merged.1@),
        fields_well_formed(merged.0@),
        fields_well_formed(merged.1@),
        fields_model(merged.0@) == join_required(
            fields_model(required@),
            fields_model(required2@),
        ),
        fields_model(merged.1@) == join_optional(
            fields_model(required@),
            fields_model(optional@),
            fields_model(required2@),
            fields_model(optional2@),
        ),
    decreases first, second, 0nat,
{
    let ghost ar = required@;
    let ghost ao = optional@;
    let ghost arm = fields_model(required@);
    let ghost aom = fields_model(optional@);
    let ghost brm = fields_model(required2@);
    let ghost bom = fields_model(optional2@);
    proof {
        lemma_domains_by_disjoint(required@, optional@);
        lemma_domains_by_disjoint(required2@, optional2@);
    }
    let mut rest2_required = required2;
    let mut rest2_optional = optional2;
    let mut out_required: Vec<(String, SchemaState)> = Vec::new();
    let mut out_optional: Vec<(String, SchemaState)> = Vec::new();
    assert(fields_model(ar.take(0)) =~= Map::empty());
    assert(fields_model(out_required@) =~= join_required(fields_model(ar.take(0)), brm));
    assert(fields_model(out_optional@) =~= optional_of_required(
        fields_model(ar.take(0)),
        brm,
        bom,
    ));
    assert(fields_model(rest2_required@) =~= brm.remove_keys(fields_model(ar.take(0)).dom()));
    assert(fields_model(rest2_optional@) =~= bom.remove_keys(fields_model(ar.take(0)).dom()));
    for field in it: required
        invariant
            it.seq() == ar,
            first matches SchemaState::Object { required: r0, optional: o0 } && r0@ == ar,
            distinct_keys(ar),
            fields_well_formed(ar),
            forall|k: Seq<char>| !(brm.dom().contains(k) && bom.dom().contains(k)),
            distinct_keys(rest2_required@),
            distinct_keys(rest2_optional@),
            fields_well_formed(rest2_required@),
            fields_well_formed(rest2_optional@),
            fields_model(rest2_required@) == brm.remove_keys(
                fields_model(ar.take(it.index() as int)).dom(),
            ),
            fields_model(rest2_optional@) == bom.remove_keys(
                fields_model(ar.take(it.index() as int)).dom(),
            ),
            distinct_keys(out_required@),
            distinct_keys(out_optional@),
            fields_well_formed(out_required@),
            fields_well_formed(out_optional@),
            fields_model(out_required@) == join_required(
                fields_model(ar.take(it.index() as int)),
                brm,
            ),
            fields_model(out_optional@) == optional_of_required(
                fields_model(ar.take(it.index() as int)),
                brm,
                bom,
            ),
    {
        let ghost done = it.index() as int;
        let ghost seen = fields_model(ar.take(done));
        proof {
            lemma_fields_take_step(ar, done);
            lemma_fields_model_at(ar, done);
        }
        let key = field.0;
        let schema = field.1;
        proof {
            lemma_fields_dom(ar.take(done), key@);
            lemma_fields_dom(out_required@, key@);
            lemma_fields_dom(out_optional@, key@);
        }
        assert(!seen.dom().contains(key@));
        let ghost seen_next = fields_model(ar.take(done + 1));
        assert(seen_next == seen.insert(key@, schema.model()));
        match take_field(&mut rest2_required, &key) {
            Some(other) => {
                assert(brm.dom().contains(key@));
                assert(other.model() == brm[key@]);
                let merged = merge(schema, other);
                proof {
                    lemma_fields_push(out_required@, (key, merged));
                }
                out_required.push((key, merged));
                assert(fields_model(out_required@) =~= join_required(seen_next, brm));
                assert(fields_model(out_optional@) =~= optional_of_required(seen_next, brm, bom));
                assert(fields_model(rest2_required@) =~= brm.remove_keys(seen_next.dom()));
                assert(fields_model(rest2_optional@) =~= bom.remove_keys(seen_next.dom()));
            },
            None => {
                assert(!brm.dom().contains(key@));
                match take_field(&mut rest2_optional, &key) {
                    Some(other) => {
                        assert(bom.dom().contains(key@));
                        assert(other.model() == bom[key@]);
                        let merged = merge(schema, other);
                        proof {
                            lemma_fields_push(out_optional@, (key, merged));
                        }
                        out_optional.push((key, merged));
                    },
                    None => {
                        assert(!bom.dom().contains(key@));
                        proof {
                            lemma_fields_push(out_optional@, (key, schema));
                        }
                        out_optional.push((key, schema));
                    },
                }
                assert(fields_model(out_required@) =~= join_required(seen_next, brm));
                assert(fields_model(out_optional@) =~= optional_of_required(seen_next, brm, bom));
                assert(fields_model(rest2_required@) =~= brm.remove_keys(seen_next.dom()));
                assert(fields_model(rest2_optional@) =~= bom.remove_keys(seen_next.dom()));
            },
        }
    }
    assert(ar.take(ar.len() as int) =~= ar);
    let ghost from_required = optional_of_required(arm, brm, bom);
    assert(fields_model(ao.take(0)) =~= Map::empty());
    assert(fields_model(out_optional@) =~= from_required.union_prefer_right(
        optional_of_optional(fields_model(ao.take(0)), brm, bom),
    ));
    assert(fields_model(rest2_required@) =~= brm.remove_keys(arm.dom()).remove_keys(
        fields_model(ao.take(0)).dom(),
    ));
    assert(fields_model(rest2_optional@) =~= bom.remove_keys(arm.dom()).remove_keys(
        fields_model(ao.take(0)).dom(),
    ));
    for field in it: optional
        invariant
            it.seq() == ao,
            first matches SchemaState::Object { required: r0, optional: o0 } && o0@ == ao,
            distinct_keys(ao),
            fields_well_formed(ao),
            aom == fields_model(ao),
            from_required == optional_of_required(arm, brm, bom),
            forall|k: Seq<char>| !(brm.dom().contains(k) && bom.dom().contains(k)),
            forall|k: Seq<char>| !(arm.dom().contains(k) && aom.dom().contains(k)),
            distinct_keys(rest2_required@),
            distinct_keys(rest2_optional@),
            fields_well_formed(rest2_required@),
            fields_well_formed(rest2_optional@),
            fields_model(rest2_required@) == brm.remove_keys(arm.dom()).remove_keys(
                fields_model(ao.take(it.index() as int)).dom(),
            ),
            fields_model(rest2_optional@) == bom.remove_keys(arm.dom()).remove_keys(
                fields_model(ao.take(it.index() as int)).dom(),
            ),
            distinct_keys(out_optional@),
            fields_well_formed(out_optional@),
            fields_model(out_optional@) == from_required.union_prefer_right(
                optional_of_optional(fields_model(ao.take(it.index() as int)), brm, bom),
            ),
    {
        let ghost done = it.index() as int;
        let ghost seen = fields_model(ao.take(done));
        proof {
            lemma_fields_take_step(ao, done);
            lemma_fields_model_at(ao, done);
        }
        let key = field.0;
        let schema = field.1;
        proof {
            lemma_fields_dom(ao.take(done), key@);
            lemma_fields_dom(ao, key@);
            lemma_fields_dom(out_optional@, key@);
        }
        assert(!seen.dom().contains(key@));
        assert(aom.dom().contains(key@));
        assert(!arm.dom().contains(key@));
        let ghost seen_next = fields_model(ao.take(done + 1));
        assert(seen_next == seen.insert(key@, schema.model()));
        let taken = match take_field(&mut rest2_required, &key) {
            Some(other) => Some(other),
            None => take_field(&mut rest2_optional, &key),
        };
        match taken {
            Some(other) => {
                assert(brm.dom().contains(key@) || bom.dom().contains(key@));
                assert(other.model() == field_of(brm, bom, key@));
                let merged = merge(schema, other);
                proof {
                    lemma_fields_push(out_optional@, (key, merged));
                }
                out_optional.push((key, merged));
            },
            None => {
                assert(!brm.dom().contains(key@) && !bom.dom().contains(key@));
                proof {
                    lemma_fields_push(out_optional@, (key, schema));
                }
                out_optional.push((key, schema));
            },
        }
        assert(fields_model(out_optional@) =~= from_required.union_prefer_right(
            optional_of_optional(seen_next, brm, bom),
        ));
        assert(fields_model(rest2_required@) =~= brm.remove_keys(arm.dom()).remove_keys(
            seen_next.dom(),
        ));
        assert(fields_model(rest2_optional@) =~= bom.remove_keys(arm.dom()).remove_keys(
            seen_next.dom(),
        ));
    }
    assert(ao.take(ao.len() as int) =~= ao);
    proof {
        lemma_disjoint_by_domains(rest2_required@, rest2_optional@);
        lemma_fields_concat(rest2_required@, rest2_optional@);
        lemma_disjoint_by_domains(out_optional@, rest2_required@ + rest2_optional@);
        lemma_fields_concat(out_optional@, rest2_required@ + rest2_optional@);
    }
    let ghost kept = out_optional@;
    let ghost left = rest2_required@;
    let ghost left2 = rest2_optional@;
    out_optional.append(&mut rest2_required);
    out_optional.append(&mut rest2_optional);
    assert(out_optional@ =~= kept + (left + left2));
    assert(fields_model(out_optional@) =~= join_optional(arm, aom, brm, bom));
    proof {
        lemma_disjoint_by_domains(out_required@, out_optional@);
    }
    (out_required, out_optional)
}

/// Merges two schemas into the schema of everything that either describes.
pub fn merge(initial: SchemaState, new: SchemaState) -> (merged: SchemaState)
    requires
        initial.well_formed(),
        new.well_formed(),
    ensures
        merged.well_formed(),
        merged@ == merge_model(initial@, new@),
        initial is Initial ==> merged == new,
        new is Initial ==> merged == initial,
    decreases initial, new, 1nat,
{
    let ghost first = initial;
    let ghost second = new;
    match (initial, new) {
        (SchemaState::Initial, s) => s,
        (s, SchemaState::Initial) => s,
        (SchemaState::Indefinite, s) => s,
        (s, SchemaState::Indefinite) => s,
        (SchemaState::String(x), SchemaState::String(y)) => SchemaState::String(
            merge_strings(x, y),
        ),
        (SchemaState::Number(x), SchemaState::Number(y)) => SchemaState::Number(
            merge_numbers(x, y),
        ),
        (SchemaState::Boolean, SchemaState::Boolean) => SchemaState::Boolean,
        (
            SchemaState::Array { min_length, max_length, schema },
            SchemaState::Array { min_length: min_length2, max_length: max_length2, schema: schema2 },
        ) => SchemaState::Array {
            min_length: if min_length <= min_length2 { min_length } else { min_length2 },
            max_length: if max_length >= max_length2 { max_length } else { max_length2 },
            schema: Box::new(merge(*schema, *schema2)),
        },
        (
            SchemaState::Object { required, optional },
            SchemaState::Object { required: required2, optional: optional2 },
        ) => {
            proof {
                lemma_merge_objects(
                    fields_model(required@),
                    fields_model(optional@),
                    fields_model(required2@),
                    fields_model(optional2@),
                );
            }
            let fields = merge_fields(
                required,
                optional,
                required2,
                optional2,
                Ghost(first),
                Ghost(second),
            );
            SchemaState::Object { required: fields.0, optional: fields.1 }
        },
        (SchemaState::Null, SchemaState::Null) => SchemaState::Null,
        (SchemaState::Null, SchemaState::Nullable(inner)) => SchemaState::Nullable(inner),
        (SchemaState::Nullable(inner), SchemaState::Null) => SchemaState::Nullable(inner),
        (s, SchemaState::Null) => SchemaState::Nullable(Box::new(s)),
        (SchemaState::Null, s) => SchemaState::Nullable(Box::new(s)),
        (SchemaState::Nullable(x), SchemaState::Nullable(y)) => SchemaState::Nullable(
            Box::new(merge(*x, *y)),
        ),
        (SchemaState::Nullable(x), y) => SchemaState::Nullable(Box::new(merge(*x, y))),
        (x, SchemaState::Nullable(y)) => SchemaState::Nullable(Box::new(merge(x, *y))),
        _ => SchemaState::Indefinite,
    }
}

} // verus!
