//! Lists of strings: the samples of a string and the variants of an
//! enumeration.

use crate::schema::{distinct_strings, texts};
use vstd::prelude::*;
use vstd::seq_lib::seq_to_set_is_finite;
use vstd::set_lib::lemma_subset_equality;
use vstd::utf8::encode_utf8;

verus! {

/// Whether the list holds the string.
pub fn contains_string(list: &Vec<String>, s: &String) -> (r: bool)
    ensures
        r == texts(list@).contains(s@),
{
    let mut i: usize = 0;
    while i < list.len()
        invariant
            i <= list.len(),
            forall|j: int| 0 <= j < i ==> (#[trigger] list[j])@ != s@,
        decreases list.len() - i,
    {
        if list[i] == *s {
            assert(texts(list@)[i as int] == s@);
            return true;
        }
        i = i + 1;
    }
    assert(!texts(list@).contains(s@)) by {
        if texts(list@).contains(s@) {
            let j = choose|j: int| 0 <= j < texts(list@).len() && texts(list@)[j] == s@;
            assert(list[j]@ == s@);
        }
    }
    false
}

/// In a list without a repeated string the texts do not repeat either.
pub proof fn lemma_distinct_texts(list: Seq<String>)
    requires
        distinct_strings(list),
    ensures
        texts(list).no_duplicates(),
        texts(list).to_set().finite(),
        texts(list).to_set().len() == list.len(),
{
    assert forall|i: int, j: int|
        0 <= i < texts(list).len() && 0 <= j < texts(list).len() && i != j implies texts(list)[i]
        != texts(list)[j] by {
        if i < j {
            assert(list[i]@ != list[j]@);
        } else {
            assert(list[j]@ != list[i]@);
        }
    }
    texts(list).unique_seq_to_set();
    seq_to_set_is_finite(texts(list));
}

/// Whether no string occurs twice in the list.
pub fn has_distinct_strings(list: &Vec<String>) -> (r: bool)
    ensures
        r == distinct_strings(list@),
{
    let mut j: usize = 0;
    while j < list.len()
        invariant
            j <= list.len(),
            forall|a: int, b: int|
                0 <= a < b < j ==> (#[trigger] list@[a])@ != (#[trigger] list@[b])@,
        decreases list.len() - j,
    {
        let mut i: usize = 0;
        while i < j
            invariant
                i <= j < list.len(),
                forall|a: int| 0 <= a < i ==> (#[trigger] list@[a])@ != list@[j as int]@,
            decreases j - i,
        {
            if list[i] == list[j] {
                return false;
            }
            i = i + 1;
        }
        j = j + 1;
    }
    true
}

/// Whether two lists without repeated strings hold the same strings.
pub fn same_variants(a: &Vec<String>, b: &Vec<String>) -> (r: bool)
    requires
        distinct_strings(a@),
        distinct_strings(b@),
    ensures
        r == (texts(a@).to_set() == texts(b@).to_set()),
{
    proof {
        lemma_distinct_texts(a@);
        lemma_distinct_texts(b@);
    }
    if a.len() != b.len() {
        return false;
    }
    let mut i: usize = 0;
    while i < a.len()
        invariant
            i <= a.len(),
            forall|j: int| 0 <= j < i ==> texts(b@).contains(#[trigger] texts(a@)[j]),
        decreases a.len() - i,
    {
        if !contains_string(b, &a[i]) {
            assert(texts(a@).to_set().contains(texts(a@)[i as int]));
            assert(!texts(b@).to_set().contains(texts(a@)[i as int]));
            return false;
        }
        i = i + 1;
    }
    proof {
        assert(texts(a@).to_set().subset_of(texts(b@).to_set())) by {
            assert forall|x: Seq<char>| texts(a@).to_set().contains(x) implies texts(
                b@,
            ).to_set().contains(x) by {
                let j = choose|j: int| 0 <= j < texts(a@).len() && texts(a@)[j] == x;
                assert(texts(b@).contains(texts(a@)[j]));
            }
        }
        lemma_subset_equality(texts(a@).to_set(), texts(b@).to_set());
    }
    true
}

/// The hash of a text, by its bytes: texts that are equal have equal hashes.
pub open spec fn hash_of(bytes: Seq<u8>) -> nat
    decreases bytes.len(),
{
    if bytes.len() == 0 {
        7
    } else {
        (hash_of(bytes.drop_last()) * 31 + bytes.last() as nat) % 0xffff_fffb
    }
}

/// The hash of a string.
pub fn hash_text(s: &str) -> (hash: u64)
    ensures
        hash == hash_of(encode_utf8(s@)),
{
    let bytes = s.as_bytes();
    let mut hash: u64 = 7;
    let mut i: usize = 0;
    while i < bytes.len()
        invariant
            i <= bytes.len(),
            bytes@ == encode_utf8(s@),
            hash == hash_of(bytes@.take(i as int)),
            hash <= 0xffff_fffb,
        decreases bytes.len() - i,
    {
        assert(bytes@.take(i + 1).drop_last() =~= bytes@.take(i as int));
        hash = (hash * 31 + bytes[i] as u64) % 0xffff_fffb;
        i = i + 1;
    }
    assert(bytes@.take(bytes@.len() as int) =~= bytes@);
    hash
}

/// The bucket of a text among `size` buckets.
pub open spec fn bucket_of(text: Seq<char>, size: nat) -> int {
    (hash_of(encode_utf8(text)) % size) as int
}

/// Whether the bucket lists the place.
pub open spec fn listed(bucket: Seq<usize>, place: int) -> bool {
    exists|t: int| 0 <= t < bucket.len() && #[trigger] bucket[t] == place
}

/// The place in `variants` of a string equal to `wanted`, looked for among
/// the places that the bucket lists.
fn find_in_bucket(bucket: &Vec<usize>, variants: &Vec<String>, wanted: &String) -> (found: bool)
    requires
        forall|t: int| 0 <= t < bucket@.len() ==> (#[trigger] bucket@[t]) < variants@.len(),
    ensures
        found == exists|t: int|
            0 <= t < bucket@.len() && variants@[(#[trigger] bucket@[t]) as int]@ == wanted@,
{
    let mut t: usize = 0;
    while t < bucket.len()
        invariant
            t <= bucket.len(),
            forall|u: int| 0 <= u < bucket@.len() ==> (#[trigger] bucket@[u]) < variants@.len(),
            forall|u: int| 0 <= u < t ==> variants@[(#[trigger] bucket@[u]) as int]@ != wanted@,
        decreases bucket.len() - t,
    {
        if variants[bucket[t]] == *wanted {
            return true;
        }
        t = t + 1;
    }
    false
}

/// The distinct strings of a list, each once, in the order in which they
/// first occur.
///
/// The strings found so far are listed in buckets by their hash, so that a
/// string is compared only with those of its bucket.
#[verifier::rlimit(50)]
pub fn distinct_of(strings: &Vec<String>) -> (variants: Vec<String>)
    ensures
        distinct_strings(variants@),
        texts(variants@).to_set() == texts(strings@).to_set(),
        variants.len() == texts(strings@).to_set().len(),
{
    let mut variants: Vec<String> = Vec::new();
    let size: usize = if strings.len() == 0 { 1 } else { strings.len() };
    let mut buckets: Vec<Vec<usize>> = Vec::new();
    let mut b: usize = 0;
    while b < size
        invariant
            b <= size,
            buckets@.len() == b,
            forall|k: int| 0 <= k < b ==> (#[trigger] buckets@[k])@.len() == 0,
        decreases size - b,
    {
        buckets.push(Vec::new());
        b = b + 1;
    }
    let mut i: usize = 0;
    assert(texts(variants@).to_set() =~= texts(strings@.take(0)).to_set());
    while i < strings.len()
        invariant
            i <= strings.len(),
            size >= 1,
            buckets@.len() == size,
            variants@.len() <= i,
            forall|k: int, t: int|
                0 <= k < size && 0 <= t < buckets@[k]@.len() ==> (#[trigger] buckets@[k]@[t])
                    < variants@.len(),
            forall|j: int|
                0 <= j < variants@.len() ==> listed(
                    buckets@[bucket_of((#[trigger] variants@[j])@, size as nat)]@,
                    j,
                ),
            distinct_strings(variants@),
            texts(variants@).to_set() == texts(strings@.take(i as int)).to_set(),
        decreases strings.len() - i,
    {
        let ghost before = variants@;
        let ghost buckets_before = buckets@;
        let ghost head = strings@.take(i as int);
        let ghost next = strings@.take(i + 1);
        let ghost item = strings@[i as int]@;
        assert(next =~= head.push(strings@[i as int]));
        assert(texts(next) =~= texts(head).push(item));
        assert(texts(next).to_set() =~= texts(head).to_set().insert(item)) by {
            lemma_pushed_set(texts(head), item);
        }
        let hash = hash_text(strings[i].as_str());
        let at: usize = (hash % (size as u64)) as usize;
        assert(at == bucket_of(item, size as nat));
        let found = find_in_bucket(&buckets[at], &variants, &strings[i]);
        proof {
            if !found && texts(before).contains(item) {
                let j = choose|j: int| 0 <= j < texts(before).len() && texts(before)[j] == item;
                assert(before[j]@ == item);
                assert(bucket_of(before[j]@, size as nat) == at);
                assert(listed(buckets@[at as int]@, j));
                let t = choose|t: int|
                    0 <= t < buckets@[at as int]@.len() && #[trigger] buckets@[at as int]@[t] == j;
                assert(variants@[buckets@[at as int]@[t] as int]@ == item);
                assert(false);
            }
            if found {
                let t = choose|t: int|
                    0 <= t < buckets@[at as int]@.len() && variants@[(
                    #[trigger] buckets@[at as int]@[t]) as int]@ == item;
                let j = buckets@[at as int]@[t] as int;
                assert(texts(before)[j] == item);
            }
        }
        if !found {
            buckets[at].push(variants.len());
            variants.push(strings[i].clone());
            assert(texts(variants@) =~= texts(before).push(item));
            assert(distinct_strings(variants@)) by {
                assert forall|a: int, b: int| 0 <= a < b < variants@.len() implies (
                #[trigger] variants@[a])@ != (#[trigger] variants@[b])@ by {
                    assert(variants@[a] == before[a]);
                    if b == before.len() {
                        assert(texts(before)[a] == before[a]@);
                    } else {
                        assert(variants@[b] == before[b]);
                    }
                }
            }
            assert(texts(variants@).to_set() =~= texts(before).to_set().insert(item)) by {
                lemma_pushed_set(texts(before), item);
            }
            assert forall|k: int, t: int|
                0 <= k < size && 0 <= t < buckets@[k]@.len() implies (#[trigger] buckets@[k]@[t])
                < variants@.len() by {
                if k == at {
                    if t < buckets_before[k]@.len() {
                        assert(buckets@[k]@[t] == buckets_before[k]@[t]);
                    }
                } else {
                    assert(buckets@[k] == buckets_before[k]);
                }
            }
            assert forall|j: int| 0 <= j < variants@.len() implies listed(
                buckets@[bucket_of((#[trigger] variants@[j])@, size as nat)]@,
                j,
            ) by {
                let slot = bucket_of(variants@[j]@, size as nat);
                if j < before.len() {
                    assert(variants@[j] == before[j]);
                    assert(listed(buckets_before[slot]@, j));
                    let t = choose|t: int|
                        0 <= t < buckets_before[slot]@.len() && #[trigger] buckets_before[slot]@[t]
                            == j;
                    if slot == at {
                        assert(buckets@[slot]@[t] == j);
                    } else {
                        assert(buckets@[slot] == buckets_before[slot]);
                        assert(buckets@[slot]@[t] == j);
                    }
                } else {
                    assert(slot == at);
                    assert(buckets@[at as int]@[buckets_before[at as int]@.len() as int] == j);
                }
            }
        } else {
            assert(texts(before).to_set().contains(item));
            assert(texts(before).to_set().insert(item) =~= texts(before).to_set());
        }
        i = i + 1;
    }
    assert(strings@.take(strings@.len() as int) =~= strings@);
    proof {
        lemma_distinct_texts(variants@);
    }
    variants
}

/// A list with one more item holds what it held and the item.
pub proof fn lemma_pushed_set<A>(list: Seq<A>, item: A)
    ensures
        list.push(item).to_set() == list.to_set().insert(item),
{
    let longer = list.push(item);
    assert forall|x: A| longer.contains(x) <==> (list.contains(x) || x == item) by {
        if longer.contains(x) {
            let j = choose|j: int| 0 <= j < longer.len() && longer[j] == x;
            if j < list.len() {
                assert(list[j] == x);
            }
        }
        if list.contains(x) {
            let j = choose|j: int| 0 <= j < list.len() && list[j] == x;
            assert(longer[j] == x);
        }
        if x == item {
            assert(longer[list.len() as int] == x);
        }
    }
    assert(longer.to_set() =~= list.to_set().insert(item));
}

} // verus!
