//! The merge of any number of schemas does not depend on the order in which
//! they are merged nor on how they are grouped.

use crate::laws::{
    alike, compatible, inner_of, law_associative, law_commutative, law_merge_keeps_valid,
    lemma_alike_reflexive, lemma_join_field, present, valid,
};
use crate::merge::{
    field_of, join_optional, join_required, lemma_merge_objects, merge_all, merge_model,
};
use crate::schema::{SchemaModel, StringModel};
use vstd::prelude::*;
use vstd::seq_lib::{lemma_multiset_commutative, to_multiset_contains, to_multiset_remove};

verus! {

/// Likeness goes both ways.
pub proof fn lemma_alike_symmetric(a: SchemaModel, b: SchemaModel)
    requires
        alike(a, b, true),
    ensures
        alike(b, a, true),
    decreases a,
{
    match (a, b) {
        (SchemaModel::Nullable(x), SchemaModel::Nullable(y)) => lemma_alike_symmetric(*x, *y),
        (SchemaModel::Array { schema, .. }, SchemaModel::Array { schema: schema2, .. }) => {
            lemma_alike_symmetric(*schema, *schema2);
        },
        (
            SchemaModel::Object { required, optional },
            SchemaModel::Object { required: required2, optional: optional2 },
        ) => {
            assert forall|k: Seq<char>| required2.dom().contains(k) implies alike(
                #[trigger] required2[k],
                required[k],
                true,
            ) by {
                lemma_alike_symmetric(required[k], required2[k]);
            }
            assert forall|k: Seq<char>| optional2.dom().contains(k) implies alike(
                #[trigger] optional2[k],
                optional[k],
                true,
            ) by {
                lemma_alike_symmetric(optional[k], optional2[k]);
            }
        },
        _ => {},
    }
}

/// What is like a second, which is like a third, is like the third.
pub proof fn lemma_alike_transitive(a: SchemaModel, b: SchemaModel, c: SchemaModel)
    requires
        alike(a, b, true),
        alike(b, c, true),
    ensures
        alike(a, c, true),
    decreases a,
{
    match (a, b, c) {
        (SchemaModel::Nullable(x), SchemaModel::Nullable(y), SchemaModel::Nullable(z)) => {
            lemma_alike_transitive(*x, *y, *z);
        },
        (
            SchemaModel::Array { schema: s1, .. },
            SchemaModel::Array { schema: s2, .. },
            SchemaModel::Array { schema: s3, .. },
        ) => {
            lemma_alike_transitive(*s1, *s2, *s3);
        },
        (
            SchemaModel::Object { required: r1, optional: o1 },
            SchemaModel::Object { required: r2, optional: o2 },
            SchemaModel::Object { required: r3, optional: o3 },
        ) => {
            assert forall|k: Seq<char>| r1.dom().contains(k) implies alike(
                #[trigger] r1[k],
                r3[k],
                true,
            ) by {
                lemma_alike_transitive(r1[k], r2[k], r3[k]);
            }
            assert forall|k: Seq<char>| o1.dom().contains(k) implies alike(
                #[trigger] o1[k],
                o3[k],
                true,
            ) by {
                lemma_alike_transitive(o1[k], o2[k], o3[k]);
            }
        },
        _ => {},
    }
}

/// The merges of like schemas are alike.
pub proof fn lemma_merge_respects_alike(
    a: SchemaModel,
    a2: SchemaModel,
    b: SchemaModel,
    b2: SchemaModel,
)
    requires
        alike(a, a2, true),
        alike(b, b2, true),
    ensures
        alike(merge_model(a, b), merge_model(a2, b2), true),
    decreases a, b,
{
    match (a, b) {
        (SchemaModel::Initial, _) => {},
        (_, SchemaModel::Initial) => {},
        (SchemaModel::Indefinite, _) => {},
        (_, SchemaModel::Indefinite) => {},
        (SchemaModel::String(x), SchemaModel::String(y)) => {
            match (x, y, a2, b2) {
                (
                    StringModel::Unknown { strings_seen: s1, chars_seen: c1, .. },
                    StringModel::Unknown { strings_seen: s2, chars_seen: c2, .. },
                    SchemaModel::String(StringModel::Unknown { strings_seen: s3, chars_seen: c3, .. }),
                    SchemaModel::String(StringModel::Unknown { strings_seen: s4, chars_seen: c4, .. }),
                ) => {
                    lemma_multiset_commutative(s1, s2);
                    lemma_multiset_commutative(s3, s4);
                    lemma_multiset_commutative(c1, c2);
                    lemma_multiset_commutative(c3, c4);
                },
                _ => {},
            }
        },
        (SchemaModel::Number(x), SchemaModel::Number(y)) => {},
        (SchemaModel::Boolean, SchemaModel::Boolean) => {},
        (SchemaModel::Array { schema, .. }, SchemaModel::Array { schema: schema2, .. }) => {
            lemma_merge_respects_alike(
                *schema,
                *a2->Array_schema,
                *schema2,
                *b2->Array_schema,
            );
        },
        (
            SchemaModel::Object { required, optional },
            SchemaModel::Object { required: required2, optional: optional2 },
        ) => {
            let ar = a2->Object_required;
            let ao = a2->Object_optional;
            let br = b2->Object_required;
            let bo = b2->Object_optional;
            lemma_merge_objects(required, optional, required2, optional2);
            lemma_merge_objects(ar, ao, br, bo);
            let r1 = join_required(required, required2);
            let r2 = join_required(ar, br);
            let o1 = join_optional(required, optional, required2, optional2);
            let o2 = join_optional(ar, ao, br, bo);
            assert(r1.dom() =~= r2.dom());
            assert(o1.dom() =~= o2.dom());
            assert forall|k: Seq<char>| r1.dom().contains(k) implies alike(
                #[trigger] r1[k],
                r2[k],
                true,
            ) by {
                lemma_merge_respects_alike(required[k], ar[k], required2[k], br[k]);
            }
            assert forall|k: Seq<char>| o1.dom().contains(k) implies alike(
                #[trigger] o1[k],
                o2[k],
                true,
            ) by {
                let in1 = present(required, optional, k);
                let in2 = present(required2, optional2, k);
                if in1 && in2 {
                    lemma_merge_respects_alike(
                        field_of(required, optional, k),
                        field_of(ar, ao, k),
                        field_of(required2, optional2, k),
                        field_of(br, bo, k),
                    );
                }
            }
        },
        (SchemaModel::Null, SchemaModel::Null) => {},
        (SchemaModel::Null, SchemaModel::Nullable(_)) => {},
        (SchemaModel::Nullable(_), SchemaModel::Null) => {},
        (_, SchemaModel::Null) => {},
        (SchemaModel::Null, _) => {},
        (SchemaModel::Nullable(x), SchemaModel::Nullable(y)) => {
            lemma_merge_respects_alike(*x, *a2->Nullable_0, *y, *b2->Nullable_0);
        },
        (SchemaModel::Nullable(x), _) => {
            lemma_merge_respects_alike(*x, *a2->Nullable_0, b, b2);
        },
        (_, SchemaModel::Nullable(y)) => {
            lemma_merge_respects_alike(a, a2, *y, *b2->Nullable_0);
        },
        _ => {},
    }
}

/// Compatibility goes both ways.
pub proof fn lemma_compatible_symmetric(a: SchemaModel, b: SchemaModel)
    requires
        valid(a),
        valid(b),
    ensures
        compatible(a, b) == compatible(b, a),
    decreases a, b,
{
    match (a, b) {
        (SchemaModel::Initial, _) => {},
        (_, SchemaModel::Initial) => {},
        (SchemaModel::Indefinite, _) => {},
        (_, SchemaModel::Indefinite) => {},
        (SchemaModel::Null, _) => {},
        (_, SchemaModel::Null) => {},
        (SchemaModel::Nullable(x), SchemaModel::Nullable(y)) => {
            lemma_compatible_symmetric(*x, *y);
        },
        (SchemaModel::Nullable(x), _) => {
            lemma_compatible_symmetric(*x, b);
        },
        (_, SchemaModel::Nullable(y)) => {
            lemma_compatible_symmetric(a, *y);
        },
        (SchemaModel::Array { schema, .. }, SchemaModel::Array { schema: schema2, .. }) => {
            lemma_compatible_symmetric(*schema, *schema2);
        },
        (
            SchemaModel::Object { required, optional },
            SchemaModel::Object { required: required2, optional: optional2 },
        ) => {
            assert forall|k: Seq<char>|
                present(required, optional, k) && present(
                    required2,
                    optional2,
                    k,
                ) implies compatible(
                field_of(required, optional, k),
                field_of(required2, optional2, k),
            ) == compatible(field_of(required2, optional2, k), field_of(required, optional, k)) by {
                lemma_compatible_symmetric(
                    field_of(required, optional, k),
                    field_of(required2, optional2, k),
                );
            }
            if compatible(a, b) {
                assert forall|k: Seq<char>|
                    required2.dom().contains(k) && present(
                        required,
                        optional,
                        k,
                    ) implies compatible(#[trigger] required2[k], field_of(required, optional, k)) by {
                    if required.dom().contains(k) {
                        assert(compatible(required[k], field_of(required2, optional2, k)));
                    } else {
                        assert(compatible(optional[k], field_of(required2, optional2, k)));
                    }
                }
                assert forall|k: Seq<char>|
                    optional2.dom().contains(k) && present(
                        required,
                        optional,
                        k,
                    ) implies compatible(#[trigger] optional2[k], field_of(required, optional, k)) by {
                    if required.dom().contains(k) {
                        assert(compatible(required[k], field_of(required2, optional2, k)));
                    } else {
                        assert(compatible(optional[k], field_of(required2, optional2, k)));
                    }
                }
            }
            if compatible(b, a) {
                assert forall|k: Seq<char>|
                    required.dom().contains(k) && present(
                        required2,
                        optional2,
                        k,
                    ) implies compatible(#[trigger] required[k], field_of(required2, optional2, k)) by {
                    if required2.dom().contains(k) {
                        assert(compatible(required2[k], field_of(required, optional, k)));
                    } else {
                        assert(compatible(optional2[k], field_of(required, optional, k)));
                    }
                }
                assert forall|k: Seq<char>|
                    optional.dom().contains(k) && present(
                        required2,
                        optional2,
                        k,
                    ) implies compatible(#[trigger] optional[k], field_of(required2, optional2, k)) by {
                    if required2.dom().contains(k) {
                        assert(compatible(required2[k], field_of(required, optional, k)));
                    } else {
                        assert(compatible(optional2[k], field_of(required, optional, k)));
                    }
                }
            }
        },
        _ => {},
    }
}

/// The merge of two schemas is compatible with what both are compatible
/// with.
pub proof fn lemma_merge_compatible(a: SchemaModel, b: SchemaModel, c: SchemaModel)
    requires
        valid(a),
        valid(b),
        valid(c),
        compatible(a, b),
        compatible(a, c),
        compatible(b, c),
    ensures
        compatible(merge_model(a, b), c),
    decreases a, b, c,
{
    if a is Initial || a is Indefinite || b is Initial || b is Indefinite || c is Initial
        || c is Indefinite || c is Null {
    } else if a is Nullable || b is Nullable || c is Nullable {
        lemma_merge_compatible(inner_of(a), inner_of(b), inner_of(c));
    } else if a is Null || b is Null {
    } else {
        match (a, b, c) {
            (
                SchemaModel::Array { schema: s1, .. },
                SchemaModel::Array { schema: s2, .. },
                SchemaModel::Array { schema: s3, .. },
            ) => {
                lemma_merge_compatible(*s1, *s2, *s3);
            },
            (
                SchemaModel::Object { required: r1, optional: o1 },
                SchemaModel::Object { required: r2, optional: o2 },
                SchemaModel::Object { required: r3, optional: o3 },
            ) => {
                lemma_merge_objects(r1, o1, r2, o2);
                let r = join_required(r1, r2);
                let o = join_optional(r1, o1, r2, o2);
                assert forall|k: Seq<char>|
                    present(r, o, k) && present(r3, o3, k) implies compatible(
                    field_of(r, o, k),
                    field_of(r3, o3, k),
                ) by {
                    lemma_join_field(r1, o1, r2, o2, k);
                    if present(r1, o1, k) && present(r2, o2, k) {
                        lemma_merge_compatible(
                            field_of(r1, o1, k),
                            field_of(r2, o2, k),
                            field_of(r3, o3, k),
                        );
                    }
                }
                assert forall|k: Seq<char>|
                    r.dom().contains(k) && present(r3, o3, k) implies compatible(
                    #[trigger] r[k],
                    field_of(r3, o3, k),
                ) by {
                    assert(field_of(r, o, k) == r[k]);
                }
                assert forall|k: Seq<char>|
                    o.dom().contains(k) && present(r3, o3, k) implies compatible(
                    #[trigger] o[k],
                    field_of(r3, o3, k),
                ) by {
                    assert(field_of(r, o, k) == o[k]);
                }
            },
            _ => {},
        }
    }
}

/// Every valid schema is compatible with itself.
pub proof fn lemma_compatible_reflexive(a: SchemaModel)
    requires
        valid(a),
    ensures
        compatible(a, a),
    decreases a,
{
    match a {
        SchemaModel::Nullable(x) => lemma_compatible_reflexive(*x),
        SchemaModel::Array { schema, .. } => lemma_compatible_reflexive(*schema),
        SchemaModel::Object { required, optional } => {
            assert forall|k: Seq<char>| required.dom().contains(k) implies compatible(
                #[trigger] required[k],
                field_of(required, optional, k),
            ) by {
                lemma_compatible_reflexive(required[k]);
            }
            assert forall|k: Seq<char>| optional.dom().contains(k) implies compatible(
                #[trigger] optional[k],
                field_of(required, optional, k),
            ) by {
                lemma_compatible_reflexive(optional[k]);
            }
        },
        _ => {},
    }
}

/// Whether the schemas can be merged in any order: each is valid, and each
/// two of them are compatible.
pub open spec fn fit_together(schemas: Seq<SchemaModel>) -> bool {
    &&& forall|i: int| 0 <= i < schemas.len() ==> valid(#[trigger] schemas[i])
    &&& forall|i: int, j: int|
        0 <= i < schemas.len() && 0 <= j < schemas.len() && i != j ==> compatible(
            #[trigger] schemas[i],
            #[trigger] schemas[j],
        )
}

/// Of schemas that fit together each is compatible with each, and with
/// itself.
pub proof fn lemma_fit_pair(schemas: Seq<SchemaModel>, i: int, j: int)
    requires
        fit_together(schemas),
        0 <= i < schemas.len(),
        0 <= j < schemas.len(),
    ensures
        valid(schemas[i]),
        valid(schemas[j]),
        compatible(schemas[i], schemas[j]),
{
    if i == j {
        lemma_compatible_reflexive(schemas[i]);
    }
}

/// Schemas that are all among schemas that fit together fit together.
pub proof fn lemma_fit_within(part: Seq<SchemaModel>, whole: Seq<SchemaModel>)
    requires
        fit_together(whole),
        forall|i: int| 0 <= i < part.len() ==> whole.contains(#[trigger] part[i]),
    ensures
        fit_together(part),
{
    assert forall|i: int| 0 <= i < part.len() implies valid(#[trigger] part[i]) by {
        assert(whole.contains(part[i]));
        let k = choose|k: int| 0 <= k < whole.len() && whole[k] == part[i];
        assert(valid(whole[k]));
    }
    assert forall|i: int, j: int|
        0 <= i < part.len() && 0 <= j < part.len() && i != j implies compatible(
        #[trigger] part[i],
        #[trigger] part[j],
    ) by {
        assert(whole.contains(part[i]));
        assert(whole.contains(part[j]));
        let k = choose|k: int| 0 <= k < whole.len() && whole[k] == part[i];
        let l = choose|l: int| 0 <= l < whole.len() && whole[l] == part[j];
        lemma_fit_pair(whole, k, l);
    }
}

/// The merge of schemas that fit together is valid, and compatible with
/// what fits together with them.
pub proof fn lemma_fold_compatible(schemas: Seq<SchemaModel>, other: SchemaModel)
    requires
        fit_together(schemas.push(other)),
    ensures
        valid(merge_all(schemas)),
        compatible(merge_all(schemas), other),
    decreases schemas.len(),
{
    let all = schemas.push(other);
    assert(all[schemas.len() as int] == other);
    if schemas.len() > 0 {
        let rest = schemas.drop_last();
        let last = schemas.last();
        assert forall|i: int| 0 <= i < schemas.len() implies #[trigger] all[i] == schemas[i] by {}
        assert(fit_together(rest.push(other))) by {
            assert forall|i: int| 0 <= i < rest.push(other).len() implies all.contains(
                #[trigger] rest.push(other)[i],
            ) by {
                if i < rest.len() {
                    assert(all[i] == rest.push(other)[i]);
                } else {
                    assert(all[schemas.len() as int] == rest.push(other)[i]);
                }
            }
            lemma_fit_within(rest.push(other), all);
        }
        assert(fit_together(rest.push(last))) by {
            assert(rest.push(last) =~= schemas);
            assert forall|i: int| 0 <= i < schemas.len() implies all.contains(
                #[trigger] schemas[i],
            ) by {
                assert(all[i] == schemas[i]);
            }
            lemma_fit_within(schemas, all);
        }
        lemma_fold_compatible(rest, other);
        lemma_fold_compatible(rest, last);
        assert(valid(last) && valid(other) && compatible(last, other)) by {
            assert(all[schemas.len() - 1] == last);
            lemma_fit_pair(all, schemas.len() - 1, schemas.len() as int);
        }
        law_merge_keeps_valid(merge_all(rest), last);
        lemma_merge_compatible(merge_all(rest), last, other);
    }
}

/// The merges of two parts of schemas that fit together are compatible.
pub proof fn lemma_folds_compatible(first: Seq<SchemaModel>, second: Seq<SchemaModel>)
    requires
        fit_together(first + second),
    ensures
        valid(merge_all(first)),
        valid(merge_all(second)),
        compatible(merge_all(first), merge_all(second)),
    decreases second.len(),
{
    let all = first + second;
    assert forall|i: int| 0 <= i < first.len() implies all.contains(#[trigger] first[i]) by {
        assert(all[i] == first[i]);
    }
    assert forall|i: int| 0 <= i < second.len() implies all.contains(#[trigger] second[i]) by {
        assert(all[first.len() + i] == second[i]);
    }
    lemma_fit_within(first, all);
    lemma_fit_within(second, all);
    if first.len() > 0 {
        assert(fit_together(first.drop_last().push(first.last()))) by {
            assert(first.drop_last().push(first.last()) =~= first);
        }
        lemma_fold_compatible(first.drop_last(), first.last());
        law_merge_keeps_valid(merge_all(first.drop_last()), first.last());
    }
    if second.len() > 0 {
        let rest = second.drop_last();
        let last = second.last();
        assert(fit_together(first + rest)) by {
            assert forall|i: int| 0 <= i < (first + rest).len() implies all.contains(
                #[trigger] (first + rest)[i],
            ) by {
                assert(all[i] == (first + rest)[i]);
            }
            lemma_fit_within(first + rest, all);
        }
        lemma_folds_compatible(first, rest);
        assert(fit_together(rest.push(last))) by {
            assert(rest.push(last) =~= second);
        }
        lemma_fold_compatible(rest, last);
        assert(fit_together(first.push(last))) by {
            assert forall|i: int| 0 <= i < first.push(last).len() implies all.contains(
                #[trigger] first.push(last)[i],
            ) by {
                if i < first.len() {
                    assert(all[i] == first.push(last)[i]);
                } else {
                    assert(all[all.len() - 1] == last);
                }
            }
            lemma_fit_within(first.push(last), all);
        }
        lemma_fold_compatible(first, last);
        let a = merge_all(rest);
        let m = merge_all(first);
        assert(valid(last)) by {
            assert(second[second.len() - 1] == last);
        }
        lemma_compatible_symmetric(m, a);
        lemma_compatible_symmetric(m, last);
        lemma_merge_compatible(a, last, m);
        law_merge_keeps_valid(a, last);
        lemma_compatible_symmetric(merge_model(a, last), m);
    }
}

/// The merge of schemas that fit together does not depend on how they are
/// grouped: the merge of all is the merge of the merges of a first and a
/// second part.
pub proof fn law_grouping(first: Seq<SchemaModel>, second: Seq<SchemaModel>)
    requires
        fit_together(first + second),
    ensures
        merge_all(first + second) == merge_model(merge_all(first), merge_all(second)),
    decreases second.len(),
{
    let all = first + second;
    if second.len() == 0 {
        assert(all =~= first);
    } else {
        let rest = second.drop_last();
        let last = second.last();
        assert(all.drop_last() =~= first + rest);
        assert(all.last() == last);
        assert(fit_together(first + rest)) by {
            assert forall|i: int| 0 <= i < (first + rest).len() implies all.contains(
                #[trigger] (first + rest)[i],
            ) by {
                assert(all[i] == (first + rest)[i]);
            }
            lemma_fit_within(first + rest, all);
        }
        law_grouping(first, rest);
        lemma_folds_compatible(first, rest);
        assert(fit_together(rest.push(last))) by {
            assert(rest.push(last) =~= second);
            assert forall|i: int| 0 <= i < second.len() implies all.contains(
                #[trigger] second[i],
            ) by {
                assert(all[first.len() + i] == second[i]);
            }
            lemma_fit_within(second, all);
        }
        lemma_fold_compatible(rest, last);
        assert(fit_together(first.push(last))) by {
            assert forall|i: int| 0 <= i < first.push(last).len() implies all.contains(
                #[trigger] first.push(last)[i],
            ) by {
                if i < first.len() {
                    assert(all[i] == first.push(last)[i]);
                } else {
                    assert(all[all.len() - 1] == last);
                }
            }
            lemma_fit_within(first.push(last), all);
        }
        lemma_fold_compatible(first, last);
        assert(valid(last)) by {
            assert(all[all.len() - 1] == last);
        }
        law_associative(merge_all(first), merge_all(rest), last);
    }
}

/// Merging one of the schemas last instead of in its place changes
/// nothing but the order of samples.
pub proof fn lemma_moved_last(schemas: Seq<SchemaModel>, at: int)
    requires
        fit_together(schemas),
        0 <= at < schemas.len(),
    ensures
        alike(
            merge_all(schemas),
            merge_model(merge_all(schemas.remove(at)), schemas[at]),
            true,
        ),
{
    let before = schemas.take(at);
    let moved = schemas[at];
    let after = schemas.skip(at + 1);
    assert(schemas =~= before.push(moved) + after);
    assert(schemas.remove(at) =~= before + after);
    let one = seq![moved];
    assert(before.push(moved) =~= before + one);
    assert(merge_all(one) == moved) by {
        assert(one.drop_last() =~= Seq::<SchemaModel>::empty());
        assert(merge_all(one.drop_last()) == SchemaModel::Initial);
    }
    // the schemas as three parts, and with the middle part last
    let tail = one + after;
    let swapped = after + one;
    assert(schemas =~= before + tail);
    assert(schemas.remove(at).push(moved) =~= before + swapped);
    assert forall|i: int| 0 <= i < tail.len() implies schemas.contains(#[trigger] tail[i]) by {
        assert(schemas[at + i] == tail[i]);
    }
    assert forall|i: int| 0 <= i < swapped.len() implies schemas.contains(
        #[trigger] swapped[i],
    ) by {
        if i < after.len() {
            assert(schemas[at + 1 + i] == swapped[i]);
        } else {
            assert(schemas[at] == swapped[i]);
        }
    }
    assert forall|i: int| 0 <= i < (before + swapped).len() implies schemas.contains(
        #[trigger] (before + swapped)[i],
    ) by {
        if i < before.len() {
            assert(schemas[i] == (before + swapped)[i]);
        } else {
            assert(swapped.contains(swapped[i - before.len()]));
        }
    }
    lemma_fit_within(tail, schemas);
    lemma_fit_within(swapped, schemas);
    lemma_fit_within(before + swapped, schemas);
    law_grouping(before, tail);
    law_grouping(before, swapped);
    law_grouping(one, after);
    law_grouping(after, one);
    lemma_folds_compatible(one, after);
    law_commutative(moved, merge_all(after));
    lemma_alike_reflexive(merge_all(before), true);
    lemma_merge_respects_alike(
        merge_all(before),
        merge_all(before),
        merge_all(tail),
        merge_all(swapped),
    );
    assert(merge_all(before + swapped) == merge_model(
        merge_all(schemas.remove(at)),
        moved,
    )) by {
        let longer = schemas.remove(at).push(moved);
        assert(longer.drop_last() =~= schemas.remove(at));
        assert(longer.last() == moved);
    }
}

/// The merge of schemas that fit together does not depend on the order in
/// which they are merged, but for the order in which the samples of
/// unrecognised strings are listed.
pub proof fn law_any_order(schemas: Seq<SchemaModel>, reordered: Seq<SchemaModel>)
    requires
        fit_together(schemas),
        schemas.to_multiset() == reordered.to_multiset(),
    ensures
        alike(merge_all(schemas), merge_all(reordered), true),
    decreases schemas.len(),
{
    schemas.to_multiset_ensures();
    reordered.to_multiset_ensures();
    if schemas.len() == 0 {
        assert(reordered.len() == 0);
        lemma_alike_reflexive(SchemaModel::Initial, true);
    } else {
        let last = schemas.last();
        let rest = schemas.drop_last();
        assert(schemas[schemas.len() - 1] == last);
        assert(schemas.contains(last));
        to_multiset_contains(schemas, last);
        to_multiset_contains(reordered, last);
        assert(reordered.contains(last));
        let at = choose|at: int| 0 <= at < reordered.len() && reordered[at] == last;
        let others = reordered.remove(at);
        to_multiset_remove(reordered, at);
        to_multiset_remove(schemas, schemas.len() - 1);
        assert(schemas.remove(schemas.len() - 1) =~= rest);
        assert forall|i: int| 0 <= i < reordered.len() implies schemas.contains(
            #[trigger] reordered[i],
        ) by {
            assert(reordered.contains(reordered[i]));
            to_multiset_contains(schemas, reordered[i]);
            to_multiset_contains(reordered, reordered[i]);
        }
        lemma_fit_within(reordered, schemas);
        assert forall|i: int| 0 <= i < rest.len() implies schemas.contains(#[trigger] rest[i]) by {
            assert(schemas[i] == rest[i]);
        }
        lemma_fit_within(rest, schemas);
        law_any_order(rest, others);
        lemma_alike_reflexive(last, true);
        lemma_merge_respects_alike(merge_all(rest), merge_all(others), last, last);
        lemma_moved_last(reordered, at);
        lemma_alike_symmetric(
            merge_all(reordered),
            merge_model(merge_all(others), last),
        );
        lemma_alike_transitive(
            merge_all(schemas),
            merge_model(merge_all(others), last),
            merge_all(reordered),
        );
    }
}

} // verus!
