//! What holds of the merge whatever schemas it is given.

use crate::double::{
    lemma_min_max_associative, lemma_of_int_is_number, lemma_of_int_monotone, Double,
};
use crate::infer::{promotes, EnumInference};
use crate::merge::{
    field_of, join_optional, join_required, lemma_merge_objects, merge_all, merge_model,
    merge_number_model, merge_string_model,
};
use crate::schema::{NumberType, SchemaModel, StringModel};
use vstd::arithmetic::power2::{
    lemma2_to64, lemma2_to64_rest, lemma_pow2_strictly_increases, pow2,
};
use vstd::prelude::*;

verus! {

/// Whether a number's bounds are numbers: a float bound is no NaN.
pub open spec fn valid_number(n: NumberType) -> bool {
    match n {
        NumberType::Integer { .. } => true,
        NumberType::Float { min, max } => !min.is_nan() && !max.is_nan(),
    }
}

/// Whether a model is one of a schema as the library builds it: a nullable
/// schema wraps neither `Null` nor another nullable one, no float bound is
/// NaN, and no object holds a name both as required and as optional.
pub open spec fn valid(m: SchemaModel) -> bool
    decreases m,
{
    match m {
        SchemaModel::Nullable(inner) => !(*inner is Null) && !(*inner is Nullable) && valid(
            *inner,
        ),
        SchemaModel::Number(n) => valid_number(n),
        SchemaModel::Array { schema, .. } => valid(*schema),
        SchemaModel::Object { required, optional } => {
            &&& forall|k: Seq<char>| !(required.dom().contains(k) && optional.dom().contains(k))
            &&& forall|k: Seq<char>| required.dom().contains(k) ==> valid(#[trigger] required[k])
            &&& forall|k: Seq<char>| optional.dom().contains(k) ==> valid(#[trigger] optional[k])
        },
        _ => true,
    }
}

/// Whether two sample lists hold the same samples: each as often in the one
/// as in the other where `counted`, else each at least once in both.
pub open spec fn same_samples<A>(a: Seq<A>, b: Seq<A>, counted: bool) -> bool {
    if counted {
        a.to_multiset() == b.to_multiset()
    } else {
        a.to_set() == b.to_set()
    }
}

/// Whether two models are equal but for the samples of their unrecognised
/// strings, which are only held to [`same_samples`].
pub open spec fn alike(a: SchemaModel, b: SchemaModel, counted: bool) -> bool
    decreases a,
{
    match (a, b) {
        (
            SchemaModel::String(
                StringModel::Unknown { strings_seen, chars_seen, min_length, max_length },
            ),
            SchemaModel::String(
                StringModel::Unknown {
                    strings_seen: strings_seen2,
                    chars_seen: chars_seen2,
                    min_length: min_length2,
                    max_length: max_length2,
                },
            ),
        ) => {
            &&& same_samples(strings_seen, strings_seen2, counted)
            &&& same_samples(chars_seen, chars_seen2, counted)
            &&& min_length == min_length2
            &&& max_length == max_length2
        },
        (SchemaModel::Nullable(x), SchemaModel::Nullable(y)) => alike(*x, *y, counted),
        (
            SchemaModel::Array { min_length, max_length, schema },
            SchemaModel::Array { min_length: min_length2, max_length: max_length2, schema: schema2 },
        ) => min_length == min_length2 && max_length == max_length2 && alike(
            *schema,
            *schema2,
            counted,
        ),
        (
            SchemaModel::Object { required, optional },
            SchemaModel::Object { required: required2, optional: optional2 },
        ) => {
            &&& required.dom() == required2.dom()
            &&& optional.dom() == optional2.dom()
            &&& forall|k: Seq<char>|
                required.dom().contains(k) ==> alike(
                    #[trigger] required[k],
                    required2[k],
                    counted,
                )
            &&& forall|k: Seq<char>|
                optional.dom().contains(k) ==> alike(
                    #[trigger] optional[k],
                    optional2[k],
                    counted,
                )
        },
        _ => a == b,
    }
}

/// Every model is like itself.
pub proof fn lemma_alike_reflexive(a: SchemaModel, counted: bool)
    ensures
        alike(a, a, counted),
    decreases a,
{
    match a {
        SchemaModel::Nullable(x) => lemma_alike_reflexive(*x, counted),
        SchemaModel::Array { schema, .. } => lemma_alike_reflexive(*schema, counted),
        SchemaModel::Object { required, optional } => {
            assert forall|k: Seq<char>| required.dom().contains(k) implies alike(
                #[trigger] required[k],
                required[k],
                counted,
            ) by {
                lemma_alike_reflexive(required[k], counted);
            }
            assert forall|k: Seq<char>| optional.dom().contains(k) implies alike(
                #[trigger] optional[k],
                optional[k],
                counted,
            ) by {
                lemma_alike_reflexive(optional[k], counted);
            }
        },
        _ => {},
    }
}

/// A list written twice holds what it held.
pub proof fn lemma_doubled_set<A>(s: Seq<A>)
    ensures
        (s + s).to_set() == s.to_set(),
{
    let twice = s + s;
    assert forall|x: A| twice.contains(x) <==> s.contains(x) by {
        if twice.contains(x) {
            let i = choose|i: int| 0 <= i < twice.len() && twice[i] == x;
            if i < s.len() {
                assert(s[i] == x);
            } else {
                assert(s[i - s.len()] == x);
            }
        }
        if s.contains(x) {
            let i = choose|i: int| 0 <= i < s.len() && s[i] == x;
            assert(twice[i] == x);
        }
    }
    assert(twice.to_set() =~= s.to_set());
}

/// `Initial` is the identity of the merge, on either side.
pub proof fn law_identity(s: SchemaModel)
    ensures
        merge_model(SchemaModel::Initial, s) == s,
        merge_model(s, SchemaModel::Initial) == s,
{
}

/// Merging a schema with itself changes nothing but the samples of its
/// unrecognised strings, each of which is then there twice.
pub proof fn law_idempotent(s: SchemaModel)
    requires
        valid(s),
    ensures
        alike(merge_model(s, s), s, false),
    decreases s,
{
    match s {
        SchemaModel::String(StringModel::Unknown { strings_seen, chars_seen, .. }) => {
            lemma_doubled_set(strings_seen);
            lemma_doubled_set(chars_seen);
        },
        SchemaModel::Nullable(x) => {
            law_idempotent(*x);
        },
        SchemaModel::Array { schema, .. } => {
            law_idempotent(*schema);
        },
        SchemaModel::Object { required, optional } => {
            lemma_merge_objects(required, optional, required, optional);
            let merged_required = join_required(required, required);
            let merged_optional = join_optional(required, optional, required, optional);
            assert(merged_required.dom() =~= required.dom());
            assert(merged_optional.dom() =~= optional.dom());
            assert forall|k: Seq<char>| merged_required.dom().contains(k) implies alike(
                #[trigger] merged_required[k],
                required[k],
                false,
            ) by {
                law_idempotent(required[k]);
            }
            assert forall|k: Seq<char>| merged_optional.dom().contains(k) implies alike(
                #[trigger] merged_optional[k],
                optional[k],
                false,
            ) by {
                law_idempotent(optional[k]);
            }
        },
        _ => {},
    }
}

/// The merge of two numbers does not depend on their order.
pub proof fn lemma_numbers_commute(a: NumberType, b: NumberType)
    requires
        valid_number(a),
        valid_number(b),
    ensures
        merge_number_model(a, b) == merge_number_model(b, a),
{
    match (a, b) {
        (NumberType::Integer { min, max }, NumberType::Float { min: min2, max: max2 }) => {
            lemma_of_int_is_number(min as int);
            lemma_of_int_is_number(max as int);
        },
        (NumberType::Float { min, max }, NumberType::Integer { min: min2, max: max2 }) => {
            lemma_of_int_is_number(min2 as int);
            lemma_of_int_is_number(max2 as int);
        },
        _ => {},
    }
}

/// The merge of two schemas does not depend on their order, but for the
/// order in which the samples of unrecognised strings are listed.
pub proof fn law_commutative(a: SchemaModel, b: SchemaModel)
    requires
        valid(a),
        valid(b),
    ensures
        alike(merge_model(a, b), merge_model(b, a), true),
    decreases a, b,
{
    match (a, b) {
        (SchemaModel::Initial, _) => lemma_alike_reflexive(b, true),
        (_, SchemaModel::Initial) => lemma_alike_reflexive(a, true),
        (SchemaModel::Indefinite, _) => lemma_alike_reflexive(b, true),
        (_, SchemaModel::Indefinite) => lemma_alike_reflexive(a, true),
        (SchemaModel::String(x), SchemaModel::String(y)) => {
            match (x, y) {
                (
                    StringModel::Unknown { strings_seen, chars_seen, .. },
                    StringModel::Unknown { strings_seen: strings_seen2, chars_seen: chars_seen2, .. },
                ) => {
                    vstd::seq_lib::lemma_seq_union_to_multiset_commutative(
                        strings_seen,
                        strings_seen2,
                    );
                    vstd::seq_lib::lemma_seq_union_to_multiset_commutative(chars_seen, chars_seen2);
                },
                _ => {
                    lemma_alike_reflexive(merge_model(a, b), true);
                },
            }
        },
        (SchemaModel::Number(x), SchemaModel::Number(y)) => {
            lemma_numbers_commute(x, y);
        },
        (SchemaModel::Array { schema, .. }, SchemaModel::Array { schema: schema2, .. }) => {
            law_commutative(*schema, *schema2);
        },
        (
            SchemaModel::Object { required, optional },
            SchemaModel::Object { required: required2, optional: optional2 },
        ) => {
            lemma_merge_objects(required, optional, required2, optional2);
            lemma_merge_objects(required2, optional2, required, optional);
            let r1 = join_required(required, required2);
            let r2 = join_required(required2, required);
            let o1 = join_optional(required, optional, required2, optional2);
            let o2 = join_optional(required2, optional2, required, optional);
            assert(r1.dom() =~= r2.dom());
            assert(o1.dom() =~= o2.dom());
            assert forall|k: Seq<char>| r1.dom().contains(k) implies alike(
                #[trigger] r1[k],
                r2[k],
                true,
            ) by {
                law_commutative(required[k], required2[k]);
            }
            assert forall|k: Seq<char>| o1.dom().contains(k) implies alike(
                #[trigger] o1[k],
                o2[k],
                true,
            ) by {
                let in1 = required.dom().contains(k) || optional.dom().contains(k);
                let in2 = required2.dom().contains(k) || optional2.dom().contains(k);
                if in1 && in2 {
                    law_commutative(
                        field_of(required, optional, k),
                        field_of(required2, optional2, k),
                    );
                } else if in1 {
                    lemma_alike_reflexive(field_of(required, optional, k), true);
                } else {
                    lemma_alike_reflexive(field_of(required2, optional2, k), true);
                }
            }
        },
        (SchemaModel::Null, SchemaModel::Null) => {},
        (SchemaModel::Null, SchemaModel::Nullable(_)) => lemma_alike_reflexive(b, true),
        (SchemaModel::Nullable(_), SchemaModel::Null) => lemma_alike_reflexive(a, true),
        (_, SchemaModel::Null) => lemma_alike_reflexive(a, true),
        (SchemaModel::Null, _) => lemma_alike_reflexive(b, true),
        (SchemaModel::Nullable(x), SchemaModel::Nullable(y)) => law_commutative(*x, *y),
        (SchemaModel::Nullable(x), _) => law_commutative(*x, b),
        (_, SchemaModel::Nullable(y)) => law_commutative(a, *y),
        _ => {},
    }
}

/// Whether the lower bound of a number is not above its upper bound.
pub open spec fn ordered_number(n: NumberType) -> bool {
    match n {
        NumberType::Integer { min, max } => min <= max,
        NumberType::Float { min, max } => min.rank() <= max.rank(),
    }
}

/// Whether no lower bound in the model is above its upper bound: the lengths
/// of strings and arrays, and the bounds of numbers. An unrecognised string
/// has both of its lengths or neither.
pub open spec fn ordered(m: SchemaModel) -> bool
    decreases m,
{
    match m {
        SchemaModel::String(StringModel::Unknown { min_length, max_length, .. }) => {
            match (min_length, max_length) {
                (Some(min), Some(max)) => min <= max,
                (None, None) => true,
                _ => false,
            }
        },
        SchemaModel::Number(n) => ordered_number(n),
        SchemaModel::Nullable(inner) => ordered(*inner),
        SchemaModel::Array { min_length, max_length, schema } => min_length <= max_length
            && ordered(*schema),
        SchemaModel::Object { required, optional } => {
            &&& forall|k: Seq<char>| required.dom().contains(k) ==> ordered(#[trigger] required[k])
            &&& forall|k: Seq<char>| optional.dom().contains(k) ==> ordered(#[trigger] optional[k])
        },
        _ => true,
    }
}

/// The merge of two valid models is valid.
pub proof fn law_merge_keeps_valid(a: SchemaModel, b: SchemaModel)
    requires
        valid(a),
        valid(b),
    ensures
        valid(merge_model(a, b)),
        !(a is Null) && !(a is Nullable) && !(b is Null) && !(b is Nullable) ==> !(merge_model(
            a,
            b,
        ) is Null) && !(merge_model(a, b) is Nullable),
    decreases a, b,
{
    match (a, b) {
        (SchemaModel::Initial, _) => {},
        (_, SchemaModel::Initial) => {},
        (SchemaModel::Indefinite, _) => {},
        (_, SchemaModel::Indefinite) => {},
        (SchemaModel::String(x), SchemaModel::String(y)) => {},
        (SchemaModel::Number(x), SchemaModel::Number(y)) => {
            match (x, y) {
                (NumberType::Integer { min, max }, NumberType::Float { .. }) => {
                    lemma_of_int_is_number(min as int);
                    lemma_of_int_is_number(max as int);
                },
                (NumberType::Float { .. }, NumberType::Integer { min, max }) => {
                    lemma_of_int_is_number(min as int);
                    lemma_of_int_is_number(max as int);
                },
                _ => {},
            }
        },
        (SchemaModel::Array { schema, .. }, SchemaModel::Array { schema: schema2, .. }) => {
            law_merge_keeps_valid(*schema, *schema2);
        },
        (
            SchemaModel::Object { required, optional },
            SchemaModel::Object { required: required2, optional: optional2 },
        ) => {
            lemma_merge_objects(required, optional, required2, optional2);
            let r = join_required(required, required2);
            let o = join_optional(required, optional, required2, optional2);
            assert forall|k: Seq<char>| r.dom().contains(k) implies valid(#[trigger] r[k]) by {
                law_merge_keeps_valid(required[k], required2[k]);
            }
            assert forall|k: Seq<char>| o.dom().contains(k) implies valid(#[trigger] o[k]) by {
                let in1 = required.dom().contains(k) || optional.dom().contains(k);
                let in2 = required2.dom().contains(k) || optional2.dom().contains(k);
                if in1 && in2 {
                    law_merge_keeps_valid(
                        field_of(required, optional, k),
                        field_of(required2, optional2, k),
                    );
                }
            }
        },
        (SchemaModel::Null, SchemaModel::Null) => {},
        (SchemaModel::Null, SchemaModel::Nullable(_)) => {},
        (SchemaModel::Nullable(_), SchemaModel::Null) => {},
        (_, SchemaModel::Null) => {},
        (SchemaModel::Null, _) => {},
        (SchemaModel::Nullable(x), SchemaModel::Nullable(y)) => law_merge_keeps_valid(*x, *y),
        (SchemaModel::Nullable(x), _) => law_merge_keeps_valid(*x, b),
        (_, SchemaModel::Nullable(y)) => law_merge_keeps_valid(a, *y),
        _ => {},
    }
}

/// Where no lower bound is above its upper bound in two models, none is in
/// their merge: the merge takes the lesser of the lower and the greater of
/// the upper bounds.
pub proof fn law_merge_keeps_ordered(a: SchemaModel, b: SchemaModel)
    requires
        valid(a),
        valid(b),
        ordered(a),
        ordered(b),
    ensures
        ordered(merge_model(a, b)),
    decreases a, b,
{
    match (a, b) {
        (SchemaModel::Initial, _) => {},
        (_, SchemaModel::Initial) => {},
        (SchemaModel::Indefinite, _) => {},
        (_, SchemaModel::Indefinite) => {},
        (SchemaModel::String(x), SchemaModel::String(y)) => {},
        (SchemaModel::Number(x), SchemaModel::Number(y)) => {
            match (x, y) {
                (NumberType::Integer { min, max }, NumberType::Float { .. }) => {
                    lemma_of_int_is_number(min as int);
                    lemma_of_int_is_number(max as int);
                },
                (NumberType::Float { .. }, NumberType::Integer { min, max }) => {
                    lemma_of_int_is_number(min as int);
                    lemma_of_int_is_number(max as int);
                },
                _ => {},
            }
        },
        (SchemaModel::Array { schema, .. }, SchemaModel::Array { schema: schema2, .. }) => {
            law_merge_keeps_ordered(*schema, *schema2);
        },
        (
            SchemaModel::Object { required, optional },
            SchemaModel::Object { required: required2, optional: optional2 },
        ) => {
            lemma_merge_objects(required, optional, required2, optional2);
            let r = join_required(required, required2);
            let o = join_optional(required, optional, required2, optional2);
            assert forall|k: Seq<char>| r.dom().contains(k) implies ordered(#[trigger] r[k]) by {
                law_merge_keeps_ordered(required[k], required2[k]);
            }
            assert forall|k: Seq<char>| o.dom().contains(k) implies ordered(#[trigger] o[k]) by {
                let in1 = required.dom().contains(k) || optional.dom().contains(k);
                let in2 = required2.dom().contains(k) || optional2.dom().contains(k);
                if in1 && in2 {
                    law_merge_keeps_ordered(
                        field_of(required, optional, k),
                        field_of(required2, optional2, k),
                    );
                }
            }
        },
        (SchemaModel::Null, SchemaModel::Null) => {},
        (SchemaModel::Null, SchemaModel::Nullable(_)) => {},
        (SchemaModel::Nullable(_), SchemaModel::Null) => {},
        (_, SchemaModel::Null) => {},
        (SchemaModel::Null, _) => {},
        (SchemaModel::Nullable(x), SchemaModel::Nullable(y)) => law_merge_keeps_ordered(*x, *y),
        (SchemaModel::Nullable(x), _) => law_merge_keeps_ordered(*x, b),
        (_, SchemaModel::Nullable(y)) => law_merge_keeps_ordered(a, *y),
        _ => {},
    }
}

/// Whether the object of these two field maps holds a field of that name.
pub open spec fn present(
    required: Map<Seq<char>, SchemaModel>,
    optional: Map<Seq<char>, SchemaModel>,
    k: Seq<char>,
) -> bool {
    required.dom().contains(k) || optional.dom().contains(k)
}

/// Whether two models can be merged without loss: wherever both say
/// something of a position, they say it of one kind of value. `Initial`,
/// `Indefinite` and `Null` go with everything, and a nullable schema goes
/// with what its inner schema goes with.
pub open spec fn compatible(a: SchemaModel, b: SchemaModel) -> bool
    decreases a, b,
{
    match (a, b) {
        (SchemaModel::Initial, _) => true,
        (_, SchemaModel::Initial) => true,
        (SchemaModel::Indefinite, _) => true,
        (_, SchemaModel::Indefinite) => true,
        (SchemaModel::Null, _) => true,
        (_, SchemaModel::Null) => true,
        (SchemaModel::Nullable(x), SchemaModel::Nullable(y)) => compatible(*x, *y),
        (SchemaModel::Nullable(x), _) => compatible(*x, b),
        (_, SchemaModel::Nullable(y)) => compatible(a, *y),
        (SchemaModel::String(_), SchemaModel::String(_)) => true,
        (SchemaModel::Number(_), SchemaModel::Number(_)) => true,
        (SchemaModel::Boolean, SchemaModel::Boolean) => true,
        (SchemaModel::Array { schema, .. }, SchemaModel::Array { schema: schema2, .. }) => {
            compatible(*schema, *schema2)
        },
        (
            SchemaModel::Object { required, optional },
            SchemaModel::Object { required: required2, optional: optional2 },
        ) => {
            &&& forall|k: Seq<char>|
                required.dom().contains(k) && present(required2, optional2, k) ==> compatible(
                    #[trigger] required[k],
                    field_of(required2, optional2, k),
                )
            &&& forall|k: Seq<char>|
                optional.dom().contains(k) && present(required2, optional2, k) ==> compatible(
                    #[trigger] optional[k],
                    field_of(required2, optional2, k),
                )
        },
        _ => false,
    }
}

/// Whether a model is of one of the five kinds of JSON value that are not
/// `null`.
pub open spec fn plain(m: SchemaModel) -> bool {
    m is String || m is Number || m is Boolean || m is Array || m is Object
}

/// The merge of three strings does not depend on how they are grouped.
pub proof fn lemma_strings_associative(a: StringModel, b: StringModel, c: StringModel)
    ensures
        merge_string_model(merge_string_model(a, b), c) == merge_string_model(
            a,
            merge_string_model(b, c),
        ),
{
    match (a, b, c) {
        (
            StringModel::Unknown { strings_seen: s1, chars_seen: c1, .. },
            StringModel::Unknown { strings_seen: s2, chars_seen: c2, .. },
            StringModel::Unknown { strings_seen: s3, chars_seen: c3, .. },
        ) => {
            assert((s1 + s2) + s3 =~= s1 + (s2 + s3));
            assert((c1 + c2) + c3 =~= c1 + (c2 + c3));
        },
        (StringModel::Unknown { strings_seen: s1, chars_seen: c1, .. }, _, _) => {
            assert(s1 + Seq::<Seq<char>>::empty() =~= s1);
            assert(c1 + Seq::<char>::empty() =~= c1);
        },
        (_, StringModel::Unknown { strings_seen: s2, chars_seen: c2, .. }, _) => {
            assert(s2 + Seq::<Seq<char>>::empty() =~= s2);
            assert(c2 + Seq::<char>::empty() =~= c2);
        },
        (_, _, StringModel::Unknown { strings_seen: s3, chars_seen: c3, .. }) => {
            assert(Seq::<Seq<char>>::empty() + s3 =~= s3);
            assert(Seq::<char>::empty() + c3 =~= c3);
        },
        _ => {},
    }
}

/// The field that the merge of two objects holds under a name is the merge
/// of the fields that the two hold under it.
pub proof fn lemma_join_field(
    required: Map<Seq<char>, SchemaModel>,
    optional: Map<Seq<char>, SchemaModel>,
    required2: Map<Seq<char>, SchemaModel>,
    optional2: Map<Seq<char>, SchemaModel>,
    k: Seq<char>,
)
    ensures
        present(
            join_required(required, required2),
            join_optional(required, optional, required2, optional2),
            k,
        ) == (present(required, optional, k) || present(required2, optional2, k)),
        join_required(required, required2).dom().contains(k) == (required.dom().contains(k)
            && required2.dom().contains(k)),
        present(required, optional, k) && present(required2, optional2, k) ==> field_of(
            join_required(required, required2),
            join_optional(required, optional, required2, optional2),
            k,
        ) == merge_model(field_of(required, optional, k), field_of(required2, optional2, k)),
        present(required, optional, k) && !present(required2, optional2, k) ==> field_of(
            join_required(required, required2),
            join_optional(required, optional, required2, optional2),
            k,
        ) == field_of(required, optional, k),
        !present(required, optional, k) && present(required2, optional2, k) ==> field_of(
            join_required(required, required2),
            join_optional(required, optional, required2, optional2),
            k,
        ) == field_of(required2, optional2, k),
{
}

/// The merge of three numbers does not depend on how they are grouped.
pub proof fn lemma_numbers_associative(a: NumberType, b: NumberType, c: NumberType)
    ensures
        merge_number_model(merge_number_model(a, b), c) == merge_number_model(
            a,
            merge_number_model(b, c),
        ),
{
    match (a, b, c) {
        (
            NumberType::Integer { min: min1, max: max1 },
            NumberType::Integer { min: min2, max: max2 },
            NumberType::Float { min: min3, max: max3 },
        ) => {
            if min1 <= min2 {
                lemma_of_int_monotone(min1 as int, min2 as int);
            } else {
                lemma_of_int_monotone(min2 as int, min1 as int);
            }
            if max1 <= max2 {
                lemma_of_int_monotone(max1 as int, max2 as int);
            } else {
                lemma_of_int_monotone(max2 as int, max1 as int);
            }
            lemma_min_max_associative(
                Double::of_int(min1 as int),
                Double::of_int(min2 as int),
                min3,
            );
            lemma_min_max_associative(
                Double::of_int(max1 as int),
                Double::of_int(max2 as int),
                max3,
            );
        },
        (
            NumberType::Integer { min: min1, max: max1 },
            NumberType::Float { min: min2, max: max2 },
            NumberType::Integer { min: min3, max: max3 },
        ) => {
            lemma_min_max_associative(
                Double::of_int(min1 as int),
                min2,
                Double::of_int(min3 as int),
            );
            lemma_min_max_associative(
                Double::of_int(max1 as int),
                max2,
                Double::of_int(max3 as int),
            );
        },
        (
            NumberType::Float { min: min1, max: max1 },
            NumberType::Integer { min: min2, max: max2 },
            NumberType::Integer { min: min3, max: max3 },
        ) => {
            if min2 <= min3 {
                lemma_of_int_monotone(min2 as int, min3 as int);
            } else {
                lemma_of_int_monotone(min3 as int, min2 as int);
            }
            if max2 <= max3 {
                lemma_of_int_monotone(max2 as int, max3 as int);
            } else {
                lemma_of_int_monotone(max3 as int, max2 as int);
            }
            lemma_min_max_associative(
                min1,
                Double::of_int(min2 as int),
                Double::of_int(min3 as int),
            );
            lemma_min_max_associative(
                max1,
                Double::of_int(max2 as int),
                Double::of_int(max3 as int),
            );
        },
        (
            NumberType::Integer { min: min1, max: max1 },
            NumberType::Float { min: min2, max: max2 },
            NumberType::Float { min: min3, max: max3 },
        ) => {
            lemma_min_max_associative(Double::of_int(min1 as int), min2, min3);
            lemma_min_max_associative(Double::of_int(max1 as int), max2, max3);
        },
        (
            NumberType::Float { min: min1, max: max1 },
            NumberType::Integer { min: min2, max: max2 },
            NumberType::Float { min: min3, max: max3 },
        ) => {
            lemma_min_max_associative(min1, Double::of_int(min2 as int), min3);
            lemma_min_max_associative(max1, Double::of_int(max2 as int), max3);
        },
        (
            NumberType::Float { min: min1, max: max1 },
            NumberType::Float { min: min2, max: max2 },
            NumberType::Integer { min: min3, max: max3 },
        ) => {
            lemma_min_max_associative(min1, min2, Double::of_int(min3 as int));
            lemma_min_max_associative(max1, max2, Double::of_int(max3 as int));
        },
        (
            NumberType::Float { min: min1, max: max1 },
            NumberType::Float { min: min2, max: max2 },
            NumberType::Float { min: min3, max: max3 },
        ) => {
            lemma_min_max_associative(min1, min2, min3);
            lemma_min_max_associative(max1, max2, max3);
        },
        _ => {},
    }
}

/// The schema inside a nullable one, and any other schema itself.
pub open spec fn inner_of(m: SchemaModel) -> SchemaModel {
    match m {
        SchemaModel::Nullable(inner) => *inner,
        _ => m,
    }
}

/// The merge of three schemas does not depend on how they are grouped,
/// where each two of them are compatible.
///
/// Without that it may: a string merged with a number leaves `Indefinite`,
/// which then gives way to a boolean, while the number merged with the
/// boolean leaves `Indefinite`, which gives way to the string.
pub proof fn law_associative(a: SchemaModel, b: SchemaModel, c: SchemaModel)
    requires
        valid(a),
        valid(b),
        valid(c),
        compatible(a, b),
        compatible(b, c),
        compatible(a, c),
    ensures
        merge_model(merge_model(a, b), c) == merge_model(a, merge_model(b, c)),
    decreases a, b, c,
{
    let ab = merge_model(a, b);
    let bc = merge_model(b, c);
    if a is Initial || a is Indefinite || b is Initial || b is Indefinite || c is Initial
        || c is Indefinite {
    } else if a is Nullable || b is Nullable || c is Nullable {
        law_associative(inner_of(a), inner_of(b), inner_of(c));
    } else if a is Null || b is Null || c is Null {
    } else {
        match (a, b, c) {
            (SchemaModel::String(x), SchemaModel::String(y), SchemaModel::String(z)) => {
                lemma_strings_associative(x, y, z);
            },
            (SchemaModel::Number(x), SchemaModel::Number(y), SchemaModel::Number(z)) => {
                lemma_numbers_associative(x, y, z);
            },
            (
                SchemaModel::Array { schema: s1, .. },
                SchemaModel::Array { schema: s2, .. },
                SchemaModel::Array { schema: s3, .. },
            ) => {
                law_associative(*s1, *s2, *s3);
            },
            (
                SchemaModel::Object { required: r1, optional: o1 },
                SchemaModel::Object { required: r2, optional: o2 },
                SchemaModel::Object { required: r3, optional: o3 },
            ) => {
                lemma_merge_objects(r1, o1, r2, o2);
                lemma_merge_objects(r2, o2, r3, o3);
                let r12 = join_required(r1, r2);
                let o12 = join_optional(r1, o1, r2, o2);
                let r23 = join_required(r2, r3);
                let o23 = join_optional(r2, o2, r3, o3);
                lemma_merge_objects(r12, o12, r3, o3);
                lemma_merge_objects(r1, o1, r23, o23);
                let left_required = join_required(r12, r3);
                let right_required = join_required(r1, r23);
                let left_optional = join_optional(r12, o12, r3, o3);
                let right_optional = join_optional(r1, o1, r23, o23);
                assert forall|k: Seq<char>|
                    left_required.dom().contains(k) == right_required.dom().contains(k) && (
                    left_required.dom().contains(k) ==> left_required[k] == right_required[k])
                    && left_optional.dom().contains(k) == right_optional.dom().contains(k) && (
                    left_optional.dom().contains(k) ==> left_optional[k] == right_optional[k]) by {
                    lemma_join_field(r1, o1, r2, o2, k);
                    lemma_join_field(r2, o2, r3, o3, k);
                    lemma_join_field(r12, o12, r3, o3, k);
                    lemma_join_field(r1, o1, r23, o23, k);
                    if present(r1, o1, k) && present(r2, o2, k) && present(r3, o3, k) {
                        law_associative(
                            field_of(r1, o1, k),
                            field_of(r2, o2, k),
                            field_of(r3, o3, k),
                        );
                    }
                }
                assert(left_required =~= right_required);
                assert(left_optional =~= right_optional);
            },
            _ => {},
        }
    }
}

/// Whether every schema of the sequence is an object.
pub open spec fn all_objects(samples: Seq<SchemaModel>) -> bool {
    forall|i: int| 0 <= i < samples.len() ==> (#[trigger] samples[i]) is Object
}

/// Whether every object of the sequence requires a field of that name.
pub open spec fn required_by_all(samples: Seq<SchemaModel>, k: Seq<char>) -> bool {
    forall|i: int|
        0 <= i < samples.len() ==> (#[trigger] samples[i])->Object_required.dom().contains(k)
}

/// Whether some object of the sequence holds a field of that name.
pub open spec fn held_by_some(samples: Seq<SchemaModel>, k: Seq<char>) -> bool {
    exists|i: int|
        0 <= i < samples.len() && present(
            (#[trigger] samples[i])->Object_required,
            samples[i]->Object_optional,
            k,
        )
}

/// Whether no name is both required and optional in the object.
pub open spec fn parted(m: SchemaModel) -> bool {
    forall|k: Seq<char>|
        !(m->Object_required.dom().contains(k) && m->Object_optional.dom().contains(k))
}

/// The merge of any number of objects, in none of which a name is both
/// required and optional, requires exactly the fields that all of them
/// require, and leaves optional exactly the other fields that any of them
/// holds. A field that none holds is in neither.
pub proof fn law_partition(samples: Seq<SchemaModel>)
    requires
        samples.len() > 0,
        all_objects(samples),
        forall|i: int| 0 <= i < samples.len() ==> parted(#[trigger] samples[i]),
    ensures
        merge_all(samples) is Object,
        forall|k: Seq<char>|
            merge_all(samples)->Object_required.dom().contains(k) <==> required_by_all(samples, k),
        forall|k: Seq<char>|
            merge_all(samples)->Object_optional.dom().contains(k) <==> (held_by_some(samples, k)
                && !required_by_all(samples, k)),
    decreases samples.len(),
{
    let last = samples.last();
    let rest = samples.drop_last();
    if samples.len() == 1 {
        assert(merge_all(rest) == SchemaModel::Initial);
        assert(merge_all(samples) == samples[0]);
        assert(parted(samples[0]));
        assert forall|k: Seq<char>|
            merge_all(samples)->Object_required.dom().contains(k) <==> required_by_all(
                samples,
                k,
            ) by {
            if samples[0]->Object_required.dom().contains(k) {
                assert(required_by_all(samples, k));
            }
            if required_by_all(samples, k) {
                assert(samples[0]->Object_required.dom().contains(k));
            }
        }
        assert forall|k: Seq<char>|
            merge_all(samples)->Object_optional.dom().contains(k) <==> (held_by_some(samples, k)
                && !required_by_all(samples, k)) by {
            lemma_single_sample(samples, k);
        }
    } else {
        assert(all_objects(rest)) by {
            assert forall|i: int| 0 <= i < rest.len() implies (#[trigger] rest[i]) is Object by {
                assert(rest[i] == samples[i]);
            }
        }
        assert forall|i: int| 0 <= i < rest.len() implies parted(#[trigger] rest[i]) by {
            assert(rest[i] == samples[i]);
        }
        law_partition(rest);
        let before = merge_all(rest);
        lemma_merge_objects(
            before->Object_required,
            before->Object_optional,
            last->Object_required,
            last->Object_optional,
        );
        assert forall|k: Seq<char>|
            (required_by_all(samples, k) <==> (required_by_all(rest, k)
                && last->Object_required.dom().contains(k))) && (held_by_some(samples, k) <==> (
            held_by_some(rest, k) || present(last->Object_required, last->Object_optional, k))) by {
            lemma_extend_samples(samples, k);
        }
    }
}

/// What the last object adds to what all require and to what some hold.
proof fn lemma_extend_samples(samples: Seq<SchemaModel>, k: Seq<char>)
    requires
        samples.len() > 0,
    ensures
        required_by_all(samples, k) <==> (required_by_all(samples.drop_last(), k)
            && samples.last()->Object_required.dom().contains(k)),
        held_by_some(samples, k) <==> (held_by_some(samples.drop_last(), k) || present(
            samples.last()->Object_required,
            samples.last()->Object_optional,
            k,
        )),
{
    let rest = samples.drop_last();
    let last = samples.last();
    if required_by_all(samples, k) {
        assert(samples[samples.len() - 1]->Object_required.dom().contains(k));
        assert forall|i: int| 0 <= i < rest.len() implies (
        #[trigger] rest[i])->Object_required.dom().contains(k) by {
            assert(rest[i] == samples[i]);
        }
    }
    if required_by_all(rest, k) && last->Object_required.dom().contains(k) {
        assert forall|i: int| 0 <= i < samples.len() implies (
        #[trigger] samples[i])->Object_required.dom().contains(k) by {
            if i < rest.len() {
                assert(rest[i] == samples[i]);
            }
        }
    }
    if held_by_some(samples, k) {
        let i = choose|i: int|
            0 <= i < samples.len() && present(
                (#[trigger] samples[i])->Object_required,
                samples[i]->Object_optional,
                k,
            );
        if i < rest.len() {
            assert(rest[i] == samples[i]);
        }
    }
    if held_by_some(rest, k) {
        let i = choose|i: int|
            0 <= i < rest.len() && present(
                (#[trigger] rest[i])->Object_required,
                rest[i]->Object_optional,
                k,
            );
        assert(rest[i] == samples[i]);
    }
    if present(last->Object_required, last->Object_optional, k) {
        assert(samples[samples.len() - 1] == last);
    }
}

/// Of a single object: it holds a field without requiring it exactly when
/// the field is optional in it, where no name is both.
proof fn lemma_single_sample(samples: Seq<SchemaModel>, k: Seq<char>)
    requires
        samples.len() == 1,
    ensures
        held_by_some(samples, k) <==> present(
            samples[0]->Object_required,
            samples[0]->Object_optional,
            k,
        ),
        required_by_all(samples, k) <==> samples[0]->Object_required.dom().contains(k),
{
    if held_by_some(samples, k) {
        let i = choose|i: int|
            0 <= i < samples.len() && present(
                (#[trigger] samples[i])->Object_required,
                samples[i]->Object_optional,
                k,
            );
        assert(i == 0);
    }
    if present(samples[0]->Object_required, samples[0]->Object_optional, k) {
        assert(held_by_some(samples, k));
    }
    if samples[0]->Object_required.dom().contains(k) {
        assert(required_by_all(samples, k));
    }
    if required_by_all(samples, k) {
        assert(samples[0]->Object_required.dom().contains(k));
    }
}

/// The lower bound of a number as a binary64 number.
pub open spec fn low(n: NumberType) -> Double {
    match n {
        NumberType::Integer { min, .. } => Double::of_int(min as int),
        NumberType::Float { min, .. } => min,
    }
}

/// The upper bound of a number as a binary64 number.
pub open spec fn high(n: NumberType) -> Double {
    match n {
        NumberType::Integer { max, .. } => Double::of_int(max as int),
        NumberType::Float { max, .. } => max,
    }
}

/// The numbers as schemas.
pub open spec fn as_schemas(samples: Seq<NumberType>) -> Seq<SchemaModel> {
    Seq::new(samples.len(), |i: int| SchemaModel::Number(samples[i]))
}

/// Whether all the samples are integers and `min` and `max` are the least
/// of their lower and the greatest of their upper bounds.
pub open spec fn tight_integer(samples: Seq<NumberType>, min: i64, max: i64) -> bool {
    &&& forall|i: int|
        0 <= i < samples.len() ==> (#[trigger] samples[i]) is Integer && min <= low_int(
            samples[i],
        ) && high_int(samples[i]) <= max
    &&& exists|i: int| 0 <= i < samples.len() && low_int(#[trigger] samples[i]) == min
    &&& exists|i: int| 0 <= i < samples.len() && high_int(#[trigger] samples[i]) == max
}

/// Whether some sample is a float and `min` and `max` are the least of the
/// samples' lower and the greatest of their upper bounds, an integer bound
/// counting as the binary64 number nearest to it.
pub open spec fn tight_float(samples: Seq<NumberType>, min: Double, max: Double) -> bool {
    &&& exists|i: int| 0 <= i < samples.len() && (#[trigger] samples[i]) is Float
    &&& forall|i: int|
        0 <= i < samples.len() ==> min.rank() <= low(#[trigger] samples[i]).rank() && high(
            samples[i],
        ).rank() <= max.rank()
    &&& exists|i: int| 0 <= i < samples.len() && low(#[trigger] samples[i]) == min
    &&& exists|i: int| 0 <= i < samples.len() && high(#[trigger] samples[i]) == max
}

/// The merge of any number of numbers has the tightest bounds that hold
/// them all: integer bounds while all are integers, and float bounds as soon
/// as one is a float.
pub proof fn law_number_bounds(samples: Seq<NumberType>)
    requires
        samples.len() > 0,
        forall|i: int| 0 <= i < samples.len() ==> valid_number(#[trigger] samples[i]),
    ensures
        merge_all(as_schemas(samples)) is Number,
        match merge_all(as_schemas(samples))->Number_0 {
            NumberType::Integer { min, max } => tight_integer(samples, min, max),
            NumberType::Float { min, max } => tight_float(samples, min, max),
        },
    decreases samples.len(),
{
    let models = as_schemas(samples);
    let last = samples.last();
    let rest = samples.drop_last();
    let n = samples.len() - 1;
    assert(models.drop_last() =~= as_schemas(rest));
    assert(models.last() == SchemaModel::Number(last));
    assert(samples[n] == last);
    lemma_of_int_is_number(low_int(last));
    lemma_of_int_is_number(high_int(last));
    if samples.len() == 1 {
        assert(merge_all(as_schemas(rest)) == SchemaModel::Initial);
        assert(merge_all(models) == SchemaModel::Number(last));
    } else {
        assert forall|i: int| 0 <= i < rest.len() implies valid_number(#[trigger] rest[i]) by {
            assert(rest[i] == samples[i]);
        }
        law_number_bounds(rest);
        let before = merge_all(as_schemas(rest))->Number_0;
        let merged = merge_number_model(before, last);
        assert(merge_all(models) == SchemaModel::Number(merged));
        assert forall|i: int| 0 <= i < rest.len() implies #[trigger] samples[i] == rest[i] by {}
        match before {
            NumberType::Integer { min, max } => {
                let at_min = choose|i: int|
                    0 <= i < rest.len() && low_int(#[trigger] rest[i]) == min;
                let at_max = choose|i: int|
                    0 <= i < rest.len() && high_int(#[trigger] rest[i]) == max;
                assert(samples[at_min] == rest[at_min]);
                assert(samples[at_max] == rest[at_max]);
                lemma_of_int_is_number(min as int);
                lemma_of_int_is_number(max as int);
                match last {
                    NumberType::Integer { min: min2, max: max2 } => {
                        let new_min = if min <= min2 { min } else { min2 };
                        let new_max = if max >= max2 { max } else { max2 };
                        assert forall|i: int| 0 <= i < samples.len() implies (
                        #[trigger] samples[i]) is Integer && new_min <= low_int(samples[i])
                            && high_int(samples[i]) <= new_max by {
                            if i < rest.len() {
                                assert(samples[i] == rest[i]);
                            }
                        }
                        assert(tight_integer(samples, new_min, new_max));
                    },
                    NumberType::Float { min: min2, max: max2 } => {
                        let new_min = Double::of_int(min as int).spec_min(min2);
                        let new_max = Double::of_int(max as int).spec_max(max2);
                        assert forall|i: int| 0 <= i < samples.len() implies new_min.rank()
                            <= low(#[trigger] samples[i]).rank() && high(samples[i]).rank()
                            <= new_max.rank() by {
                            if i < rest.len() {
                                assert(samples[i] == rest[i]);
                                lemma_of_int_monotone(min as int, low_int(rest[i]));
                                lemma_of_int_monotone(high_int(rest[i]), max as int);
                            }
                        }
                        assert(low(samples[at_min]) == Double::of_int(min as int));
                        assert(high(samples[at_max]) == Double::of_int(max as int));
                        assert(low(samples[n]) == min2);
                        assert(high(samples[n]) == max2);
                        assert(samples[n] is Float);
                        assert(tight_float(samples, new_min, new_max));
                    },
                }
            },
            NumberType::Float { min, max } => {
                let at_float = choose|i: int| 0 <= i < rest.len() && (#[trigger] rest[i]) is Float;
                let at_min = choose|i: int| 0 <= i < rest.len() && low(#[trigger] rest[i]) == min;
                let at_max = choose|i: int| 0 <= i < rest.len() && high(#[trigger] rest[i]) == max;
                assert(samples[at_float] == rest[at_float]);
                assert(samples[at_min] == rest[at_min]);
                assert(samples[at_max] == rest[at_max]);
                assert(!min.is_nan() && !max.is_nan()) by {
                    lemma_of_int_is_number(low_int(rest[at_min]));
                    lemma_of_int_is_number(high_int(rest[at_max]));
                }
                let new_min = min.spec_min(low(last));
                let new_max = max.spec_max(high(last));
                assert(merged == NumberType::Float { min: new_min, max: new_max });
                assert forall|i: int| 0 <= i < samples.len() implies new_min.rank() <= low(
                    #[trigger] samples[i],
                ).rank() && high(samples[i]).rank() <= new_max.rank() by {
                    if i < rest.len() {
                        assert(samples[i] == rest[i]);
                    }
                }
                assert(low(samples[n]) == low(last));
                assert(tight_float(samples, new_min, new_max));
            },
        }
    }
}

/// The lower bound of an integer sample, and 0 for a float.
pub open spec fn low_int(n: NumberType) -> int {
    match n {
        NumberType::Integer { min, .. } => min as int,
        NumberType::Float { .. } => 0,
    }
}

/// The upper bound of an integer sample, and 0 for a float.
pub open spec fn high_int(n: NumberType) -> int {
    match n {
        NumberType::Integer { max, .. } => max as int,
        NumberType::Float { .. } => 0,
    }
}

/// One half, as a binary64 number.
pub open spec fn one_half() -> Double {
    Double { bits: 0x3fe0_0000_0000_0000 }
}

/// One half bounds the quotient of a number by its double, and no lesser
/// number does.
pub proof fn lemma_half_bounds(limit: Double, part: nat)
    requires
        part > 0,
    ensures
        limit.bounds_quotient(part, 2 * part) <==> (!limit.is_nan() && limit.rank()
            >= one_half().rank()),
{
    lemma2_to64();
    lemma2_to64_rest();
    if !limit.is_nan() && !limit.negative() && limit.is_finite() {
        let field = limit.exponent_field();
        let e = if field == 0 { 1 } else { field };
        let m = limit.significand();
        let twice = 2 * m + 1;
        assert(0 <= field < 2047);
        assert(0 <= m < 0x20_0000_0000_0000);
        assert(limit.rank() >= one_half().rank() <==> field >= 1022);
        if field >= 1022 {
            assert(m >= 0x10_0000_0000_0000);
            if e <= 1076 {
                let s = (1076 - e) as nat;
                if s < 54 {
                    lemma_pow2_strictly_increases(s, 54);
                }
                assert(part * pow2(s) < (2 * part) * twice) by (nonlinear_arith)
                    requires
                        part > 0,
                        pow2(s) <= 0x40_0000_0000_0000,
                        twice > 0x20_0000_0000_0000,
                ;
            } else {
                let s = (e - 1076) as nat;
                vstd::arithmetic::power2::lemma_pow2_pos(s);
                assert(part < (2 * part) * twice * pow2(s)) by (nonlinear_arith)
                    requires
                        part > 0,
                        twice > 1,
                        pow2(s) >= 1,
                ;
            }
        } else {
            let s = (1076 - e) as nat;
            if s > 55 {
                lemma_pow2_strictly_increases(55, s);
            }
            assert(part * pow2(s) > (2 * part) * twice) by (nonlinear_arith)
                requires
                    part > 0,
                    pow2(s) >= 0x80_0000_0000_0000,
                    0 < twice < 0x40_0000_0000_0000,
            ;
        }
    }
}

/// Where exactly half of the samples of a string are distinct, as with two
/// distinct values among four samples, the string is taken for an
/// enumeration exactly when the ratio allowed is at least one half and no
/// more samples are asked for than there are.
pub proof fn law_half_distinct(strings_seen: Seq<Seq<char>>, opts: EnumInference)
    requires
        strings_seen.len() > 0,
        2 * strings_seen.to_set().len() == strings_seen.len(),
    ensures
        promotes(strings_seen, opts) <==> (opts.min_sample_size <= strings_seen.len()
            && !opts.max_unique_ratio.is_nan() && opts.max_unique_ratio.rank()
            >= one_half().rank()),
{
    lemma_half_bounds(opts.max_unique_ratio, strings_seen.to_set().len());
}

} // verus!
