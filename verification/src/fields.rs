//! Lists of named schemas: the fields of an object.

use crate::schema::{
    disjoint_keys, distinct_keys, fields_model, fields_well_formed, has_key, key_index,
    lemma_fields_model_at, SchemaState,
};
use vstd::prelude::*;

verus! {

/// The map holds a name exactly when the list holds a field of that name.
pub proof fn lemma_fields_dom(fields: Seq<(String, SchemaState)>, key: Seq<char>)
    ensures
        fields_model(fields).dom().contains(key) == has_key(fields, key),
{
}

/// A field added under a new name is added to the map.
pub proof fn lemma_fields_push(fields: Seq<(String, SchemaState)>, field: (String, SchemaState))
    requires
        distinct_keys(fields),
        !has_key(fields, field.0@),
    ensures
        distinct_keys(fields.push(field)),
        fields_model(fields.push(field)) == fields_model(fields).insert(
            field.0@,
            field.1.model(),
        ),
        fields_well_formed(fields) && field.1.well_formed() ==> fields_well_formed(
            fields.push(field),
        ),
{
    let longer = fields.push(field);
    assert(distinct_keys(longer)) by {
        assert forall|i: int, j: int| 0 <= i < j < longer.len() implies (#[trigger] longer[i]).0@
            != (#[trigger] longer[j]).0@ by {
            if j == fields.len() {
                assert(longer[i] == fields[i]);
                if fields[i].0@ == field.0@ {
                    assert(has_key(fields, field.0@));
                }
            } else {
                assert(longer[i] == fields[i]);
                assert(longer[j] == fields[j]);
            }
        }
    }
    assert forall|k: Seq<char>| has_key(longer, k) <==> (has_key(fields, k) || k == field.0@) by {
        if has_key(longer, k) {
            let i = key_index(longer, k);
            if i < fields.len() {
                assert(fields[i] == longer[i]);
            }
        }
        if has_key(fields, k) {
            let i = key_index(fields, k);
            assert(longer[i] == fields[i]);
        }
        if k == field.0@ {
            assert(longer[fields.len() as int] == field);
        }
    }
    assert forall|k: Seq<char>| has_key(longer, k) implies #[trigger] fields_model(longer)[k]
        == fields_model(fields).insert(field.0@, field.1.model())[k] by {
        let i = key_index(longer, k);
        lemma_fields_model_at(longer, i);
        if i < fields.len() {
            assert(longer[i] == fields[i]);
            lemma_fields_model_at(fields, i);
        }
    }
    assert(fields_model(longer) =~= fields_model(fields).insert(field.0@, field.1.model()));
    if fields_well_formed(fields) && field.1.well_formed() {
        assert forall|i: int| 0 <= i < longer.len() implies (#[trigger] longer[i]).1.well_formed() by {
            if i < fields.len() {
                assert(longer[i] == fields[i]);
            }
        }
    }
}

/// A field taken out of the list is taken out of the map.
pub proof fn lemma_fields_remove(fields: Seq<(String, SchemaState)>, at: int)
    requires
        distinct_keys(fields),
        0 <= at < fields.len(),
    ensures
        distinct_keys(fields.remove(at)),
        !has_key(fields.remove(at), fields[at].0@),
        fields_model(fields.remove(at)) == fields_model(fields).remove(fields[at].0@),
        fields_well_formed(fields) ==> fields_well_formed(fields.remove(at)),
{
    let shorter = fields.remove(at);
    let key = fields[at].0@;
    assert forall|i: int| 0 <= i < shorter.len() implies #[trigger] shorter[i] == fields[if i
        < at {
        i
    } else {
        i + 1
    }] by {}
    assert(distinct_keys(shorter)) by {
        assert forall|i: int, j: int| 0 <= i < j < shorter.len() implies (#[trigger] shorter[i]).0@
            != (#[trigger] shorter[j]).0@ by {
            let i2 = if i < at { i } else { i + 1 };
            let j2 = if j < at { j } else { j + 1 };
            assert(shorter[i] == fields[i2]);
            assert(shorter[j] == fields[j2]);
        }
    }
    assert(!has_key(shorter, key)) by {
        if has_key(shorter, key) {
            let i = key_index(shorter, key);
            let i2 = if i < at { i } else { i + 1 };
            assert(shorter[i] == fields[i2]);
            if i2 < at {
                assert(fields[i2].0@ != fields[at].0@);
            } else {
                assert(fields[at].0@ != fields[i2].0@);
            }
        }
    }
    assert forall|k: Seq<char>| has_key(shorter, k) <==> (has_key(fields, k) && k != key) by {
        if has_key(shorter, k) {
            let i = key_index(shorter, k);
            let i2 = if i < at { i } else { i + 1 };
            assert(shorter[i] == fields[i2]);
        }
        if has_key(fields, k) && k != key {
            let i = key_index(fields, k);
            let i2 = if i < at { i } else { i - 1 };
            assert(shorter[i2] == fields[i]);
        }
    }
    assert forall|k: Seq<char>| has_key(shorter, k) implies #[trigger] fields_model(shorter)[k]
        == fields_model(fields)[k] by {
        let i = key_index(shorter, k);
        let i2 = if i < at { i } else { i + 1 };
        assert(shorter[i] == fields[i2]);
        lemma_fields_model_at(shorter, i);
        lemma_fields_model_at(fields, i2);
    }
    assert(fields_model(shorter) =~= fields_model(fields).remove(key));
    if fields_well_formed(fields) {
        assert forall|i: int| 0 <= i < shorter.len() implies (#[trigger] shorter[i]).1.well_formed() by {
            let i2 = if i < at { i } else { i + 1 };
            assert(shorter[i] == fields[i2]);
        }
    }
}

/// Two lists that share no name, put one after the other, hold the fields
/// of both.
pub proof fn lemma_fields_concat(
    first: Seq<(String, SchemaState)>,
    second: Seq<(String, SchemaState)>,
)
    requires
        distinct_keys(first),
        distinct_keys(second),
        disjoint_keys(first, second),
    ensures
        distinct_keys(first + second),
        fields_model(first + second) == fields_model(first).union_prefer_right(
            fields_model(second),
        ),
        fields_well_formed(first) && fields_well_formed(second) ==> fields_well_formed(
            first + second,
        ),
{
    let both = first + second;
    assert forall|i: int| 0 <= i < both.len() implies #[trigger] both[i] == (if i < first.len() {
        first[i]
    } else {
        second[i - first.len()]
    }) by {}
    assert(distinct_keys(both)) by {
        assert forall|i: int, j: int| 0 <= i < j < both.len() implies (#[trigger] both[i]).0@ != (
        #[trigger] both[j]).0@ by {
            if j < first.len() {
                assert(both[i] == first[i] && both[j] == first[j]);
            } else if i < first.len() {
                assert(both[i] == first[i] && both[j] == second[j - first.len()]);
            } else {
                assert(both[i] == second[i - first.len()] && both[j] == second[j - first.len()]);
            }
        }
    }
    assert forall|k: Seq<char>| has_key(both, k) <==> (has_key(first, k) || has_key(second, k)) by {
        if has_key(both, k) {
            let i = key_index(both, k);
            if i < first.len() {
                assert(both[i] == first[i]);
            } else {
                assert(both[i] == second[i - first.len()]);
            }
        }
        if has_key(first, k) {
            let i = key_index(first, k);
            assert(both[i] == first[i]);
        }
        if has_key(second, k) {
            let i = key_index(second, k);
            assert(both[i + first.len()] == second[i]);
        }
    }
    assert forall|k: Seq<char>| has_key(both, k) implies #[trigger] fields_model(both)[k]
        == fields_model(first).union_prefer_right(fields_model(second))[k] by {
        let i = key_index(both, k);
        lemma_fields_model_at(both, i);
        if i < first.len() {
            assert(both[i] == first[i]);
            lemma_fields_model_at(first, i);
            if has_key(second, k) {
                let j = key_index(second, k);
                assert(first[i].0@ != second[j].0@);
            }
        } else {
            assert(both[i] == second[i - first.len()]);
            lemma_fields_model_at(second, i - first.len());
        }
    }
    assert(fields_model(both) =~= fields_model(first).union_prefer_right(fields_model(second)));
    if fields_well_formed(first) && fields_well_formed(second) {
        assert forall|i: int| 0 <= i < both.len() implies (#[trigger] both[i]).1.well_formed() by {
            if i < first.len() {
                assert(both[i] == first[i]);
            } else {
                assert(both[i] == second[i - first.len()]);
            }
        }
    }
}

/// The first `n + 1` fields of a list without a repeated name are its first
/// `n` with the next one added, whose name is new among them.
pub proof fn lemma_fields_take_step(fields: Seq<(String, SchemaState)>, n: int)
    requires
        distinct_keys(fields),
        0 <= n < fields.len(),
    ensures
        distinct_keys(fields.take(n)),
        !has_key(fields.take(n), fields[n].0@),
        fields.take(n + 1) == fields.take(n).push(fields[n]),
        fields_model(fields.take(n + 1)) == fields_model(fields.take(n)).insert(
            fields[n].0@,
            fields[n].1.model(),
        ),
{
    let head = fields.take(n);
    assert(distinct_keys(head)) by {
        assert forall|i: int, j: int| 0 <= i < j < head.len() implies (#[trigger] head[i]).0@ != (
        #[trigger] head[j]).0@ by {
            assert(head[i] == fields[i] && head[j] == fields[j]);
        }
    }
    assert(!has_key(head, fields[n].0@)) by {
        if has_key(head, fields[n].0@) {
            let i = key_index(head, fields[n].0@);
            assert(head[i] == fields[i]);
            assert(fields[i].0@ != fields[n].0@);
        }
    }
    assert(fields.take(n + 1) =~= head.push(fields[n]));
    lemma_fields_push(head, fields[n]);
}

/// Two lists whose maps share no name share no name.
pub proof fn lemma_disjoint_by_domains(
    first: Seq<(String, SchemaState)>,
    second: Seq<(String, SchemaState)>,
)
    requires
        forall|k: Seq<char>|
            !(fields_model(first).dom().contains(k) && fields_model(second).dom().contains(k)),
    ensures
        disjoint_keys(first, second),
{
    assert forall|i: int, j: int| 0 <= i < first.len() && 0 <= j < second.len() implies (
    #[trigger] first[i]).0@ != (#[trigger] second[j]).0@ by {
        let k = first[i].0@;
        assert(has_key(first, k));
        if second[j].0@ == k {
            assert(has_key(second, k));
            assert(fields_model(first).dom().contains(k));
            assert(fields_model(second).dom().contains(k));
        }
    }
}

/// Two lists that share no name have maps that share no name.
pub proof fn lemma_domains_by_disjoint(
    first: Seq<(String, SchemaState)>,
    second: Seq<(String, SchemaState)>,
)
    requires
        disjoint_keys(first, second),
    ensures
        forall|k: Seq<char>|
            !(fields_model(first).dom().contains(k) && fields_model(second).dom().contains(k)),
{
    assert forall|k: Seq<char>|
        !(fields_model(first).dom().contains(k) && fields_model(second).dom().contains(k)) by {
        if has_key(first, k) && has_key(second, k) {
            let i = key_index(first, k);
            let j = key_index(second, k);
            assert(first[i].0@ != second[j].0@);
        }
    }
}

/// The place of the field of that name in the list, if there is one.
pub fn find_field(fields: &Vec<(String, SchemaState)>, key: &String) -> (found: Option<usize>)
    ensures
        match found {
            Some(i) => i < fields.len() && fields[i as int].0@ == key@,
            None => !has_key(fields@, key@),
        },
{
    let mut i: usize = 0;
    while i < fields.len()
        invariant
            i <= fields.len(),
            forall|j: int| 0 <= j < i ==> (#[trigger] fields[j]).0@ != key@,
        decreases fields.len() - i,
    {
        if fields[i].0 == *key {
            return Some(i);
        }
        i = i + 1;
    }
    None
}

/// Takes the field of that name out of the list, if there is one, and
/// returns its schema.
pub fn take_field(fields: &mut Vec<(String, SchemaState)>, key: &String) -> (taken: Option<
    SchemaState,
>)
    requires
        distinct_keys(old(fields)@),
    ensures
        distinct_keys(final(fields)@),
        fields_well_formed(old(fields)@) ==> fields_well_formed(final(fields)@),
        taken is Some == fields_model(old(fields)@).dom().contains(key@),
        match taken {
            Some(schema) => {
                &&& has_key(old(fields)@, key@)
                &&& schema == old(fields)@[key_index(old(fields)@, key@)].1
                &&& schema.model() == fields_model(old(fields)@)[key@]
                &&& final(fields)@ == old(fields)@.remove(key_index(old(fields)@, key@))
                &&& fields_model(final(fields)@) == fields_model(old(fields)@).remove(key@)
                &&& fields_well_formed(old(fields)@) ==> schema.well_formed()
            },
            None => !has_key(old(fields)@, key@) && final(fields)@ == old(fields)@,
        },
{
    match find_field(fields, key) {
        Some(i) => {
            proof {
                lemma_fields_model_at(fields@, i as int);
                lemma_fields_remove(fields@, i as int);
            }
            let field = fields.remove(i);
            Some(field.1)
        },
        None => None,
    }
}

/// Whether no name occurs twice in the list.
pub fn has_distinct_keys(fields: &Vec<(String, SchemaState)>) -> (r: bool)
    ensures
        r == distinct_keys(fields@),
{
    let mut j: usize = 0;
    while j < fields.len()
        invariant
            j <= fields.len(),
            forall|a: int, b: int|
                0 <= a < b < j ==> (#[trigger] fields@[a]).0@ != (#[trigger] fields@[b]).0@,
        decreases fields.len() - j,
    {
        let mut i: usize = 0;
        while i < j
            invariant
                i <= j < fields.len(),
                forall|a: int| 0 <= a < i ==> (#[trigger] fields@[a]).0@ != fields@[j as int].0@,
            decreases j - i,
        {
            if fields[i].0 == fields[j].0 {
                return false;
            }
            i = i + 1;
        }
        j = j + 1;
    }
    true
}

/// Whether the two lists share no name.
pub fn has_disjoint_keys(
    first: &Vec<(String, SchemaState)>,
    second: &Vec<(String, SchemaState)>,
) -> (r: bool)
    ensures
        r == disjoint_keys(first@, second@),
{
    let mut i: usize = 0;
    while i < first.len()
        invariant
            i <= first.len(),
            forall|a: int, b: int|
                0 <= a < i && 0 <= b < second@.len() ==> (#[trigger] first@[a]).0@ != (
                #[trigger] second@[b]).0@,
        decreases first.len() - i,
    {
        if find_field(second, &first[i].0).is_some() {
            return false;
        }
        assert forall|b: int| 0 <= b < second@.len() implies first@[i as int].0@ != (
        #[trigger] second@[b]).0@ by {
            if first@[i as int].0@ == second@[b].0@ {
                assert(has_key(second@, first@[i as int].0@));
            }
        }
        i = i + 1;
    }
    true
}

/// Puts a field into the list: in place of the field of that name, if
/// there is one, and else as a new field.
pub fn put_field(fields: &mut Vec<(String, SchemaState)>, key: String, schema: SchemaState)
    requires
        distinct_keys(old(fields)@),
    ensures
        distinct_keys(final(fields)@),
        fields_model(final(fields)@) == fields_model(old(fields)@).insert(key@, schema.model()),
        fields_well_formed(old(fields)@) && schema.well_formed() ==> fields_well_formed(
            final(fields)@,
        ),
{
    let ghost before = fields_model(fields@);
    let _ = take_field(fields, &key);
    proof {
        lemma_fields_dom(fields@, key@);
        lemma_fields_push(fields@, (key, schema));
        assert(before.remove(key@).insert(key@, schema.model()) =~= before.insert(
            key@,
            schema.model(),
        ));
    }
    fields.push((key, schema));
}

} // verus!
