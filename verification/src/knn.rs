//! k-nearest-neighbour classification by squared Euclidean distance.

use vstd::prelude::*;
use hash_hasher::HashedMap;
use crate::idx::LabeledFeatures;

verus! {

broadcast use vstd::seq_lib::group_to_multiset_ensures;

/// The hasher that `hash_hasher` feeds its maps with.
#[verifier::external_type_specification]
#[verifier::external_body]
pub struct ExHashHasher(hash_hasher::HashHasher);

/// std's builder of default-constructed hashers.
#[verifier::external_type_specification]
#[verifier::external_body]
#[verifier::reject_recursive_types(H)]
pub struct ExBuildHasherDefault<H>(std::hash::BuildHasherDefault<H>);

/// A label together with the position of the training image that carries it.
#[derive(Clone, Copy, PartialEq, Eq, Debug)]
pub struct LabelIndex(pub u8, pub usize);

/// Sum of `(a[i] - b[i])^2` over the first `n` positions.
pub open spec fn sq_dist_prefix(a: Seq<u8>, b: Seq<u8>, n: nat) -> int
    decreases n,
{
    if n == 0 {
        0
    } else {
        let d = a[n - 1] - b[n - 1];
        sq_dist_prefix(a, b, (n - 1) as nat) + d * d
    }
}

/// Square of the Euclidean distance between two feature vectors.
pub open spec fn squared_distance(a: Seq<u8>, b: Seq<u8>) -> int {
    sq_dist_prefix(a, b, a.len())
}

proof fn lemma_sq_dist_mono(a: Seq<u8>, b: Seq<u8>, m: nat, n: nat)
    requires
        m <= n,
    ensures
        0 <= sq_dist_prefix(a, b, m) <= sq_dist_prefix(a, b, n),
    decreases n,
{
    if n > 0 {
        let d = a[n - 1] - b[n - 1];
        assert(d * d >= 0) by (nonlinear_arith);
        if m < n {
            lemma_sq_dist_mono(a, b, m, (n - 1) as nat);
        } else {
            lemma_sq_dist_mono(a, b, 0, (n - 1) as nat);
        }
    }
}

/// Returns the square of the Euclidean distance between `coords1` and `coords2`.
pub fn distance2(coords1: &[u8], coords2: &[u8]) -> (r: i32)
    requires
        coords1.len() == coords2.len(),
        squared_distance(coords1@, coords2@) <= i32::MAX,
    ensures
        r == squared_distance(coords1@, coords2@),
{
    let mut dist2: i32 = 0;
    let n = coords1.len();
    for i in 0..n
        invariant
            n == coords1.len(),
            n == coords2.len(),
            squared_distance(coords1@, coords2@) <= i32::MAX,
            dist2 == sq_dist_prefix(coords1@, coords2@, i as nat),
    {
        let x1 = coords1[i] as i32;
        let x2 = coords2[i] as i32;
        proof {
            lemma_sq_dist_mono(coords1@, coords2@, (i + 1) as nat, n as nat);
            assert((x1 - x2) * (x1 - x2) <= 65025) by (nonlinear_arith)
                requires
                    0 <= x1 <= 255,
                    0 <= x2 <= 255,
            ;
        }
        dist2 += (x1 - x2) * (x1 - x2);
    }
    dist2
}


/// Number of entries of `v` that carry label `l`.
pub open spec fn label_count(v: Seq<LabelIndex>, l: u8) -> nat
    decreases v.len(),
{
    if v.len() == 0 {
        0
    } else {
        label_count(v.drop_last(), l) + if v.last().0 == l {
            1nat
        } else {
            0nat
        }
    }
}

/// `v[q]` carries a most frequent label of `v` and is the first entry with that label.
pub open spec fn is_mode_position(v: Seq<LabelIndex>, q: int) -> bool {
    &&& 0 <= q < v.len()
    &&& forall|p: int| 0 <= p < q ==> v[p].0 != v[q].0
    &&& forall|l: u8| #[trigger] label_count(v, l) <= label_count(v, v[q].0)
}

proof fn lemma_label_count_push(v: Seq<LabelIndex>, x: LabelIndex, l: u8)
    ensures
        label_count(v.push(x), l) == label_count(v, l) + if x.0 == l {
            1nat
        } else {
            0nat
        },
{
    assert(v.push(x).drop_last() =~= v);
}

proof fn lemma_label_count_absent(v: Seq<LabelIndex>, l: u8)
    requires
        forall|p: int| 0 <= p < v.len() ==> v[p].0 != l,
    ensures
        label_count(v, l) == 0,
    decreases v.len(),
{
    if v.len() > 0 {
        lemma_label_count_absent(v.drop_last(), l);
    }
}

proof fn lemma_label_count_present(v: Seq<LabelIndex>, p: int)
    requires
        0 <= p < v.len(),
    ensures
        label_count(v, v[p].0) > 0,
    decreases v.len(),
{
    if p < v.len() - 1 {
        lemma_label_count_present(v.drop_last(), p);
    }
}

proof fn lemma_label_count_bound(v: Seq<LabelIndex>, l: u8)
    ensures
        label_count(v, l) <= v.len(),
    decreases v.len(),
{
    if v.len() > 0 {
        lemma_label_count_bound(v.drop_last(), l);
    }
}

/// Looks up how many times `label` was counted (`HashMap::get` on a `hash_hasher::HashedMap`).
/// Claims the map semantics of `get`: the stored count when the label is a key, else `None`.
#[verifier::external_body]
fn counted(counts: &HashedMap<u8, u64>, label: u8) -> (r: Option<u64>)
    ensures
        r == (if counts@.contains_key(label) {
            Some(counts@[label])
        } else {
            None::<u64>
        }),
{
    counts.get(&label).copied()
}

/// Stores a count for `label` (`HashMap::insert` on a `hash_hasher::HashedMap`).
/// Claims the map semantics of `insert`: the label now maps to `n`, every other key is kept.
#[verifier::external_body]
fn set_count(counts: &mut HashedMap<u8, u64>, label: u8, n: u64)
    ensures
        final(counts)@ == old(counts)@.insert(label, n),
{
    counts.insert(label, n);
}

/// Hands out the entries of the map (`HashMap::into_iter` on a `hash_hasher::HashedMap`, collected).
/// Claims that each key comes out exactly once with its value; the order in which the
/// map is walked depends on its hashing and bucket layout and is not stated.
#[verifier::external_body]
fn count_entries(counts: HashedMap<u8, u64>) -> (r: Vec<(u8, u64)>)
    ensures
        forall|i: int, j: int| 0 <= i < j < r.len() ==> r@[i].0 != r@[j].0,
        forall|i: int|
            0 <= i < r.len() ==> counts@.contains_key(#[trigger] r@[i].0) && counts@[r@[i].0]
                == r@[i].1,
        forall|l: u8| counts@.contains_key(l) ==> exists|i: int| 0 <= i < r.len() && #[trigger] r@[i].0 == l,
{
    counts.into_iter().collect()
}

/// Returns the position of the entry with the largest count, the last such entry where
/// several share the largest count (the one `Iterator::max_by_key` picks), or `None` for
/// no entries.
pub fn last_max_entry(entries: &[(u8, u64)]) -> (r: Option<usize>)
    ensures
        match r {
            None => entries.len() == 0,
            Some(b) => {
                &&& b < entries.len()
                &&& forall|i: int| 0 <= i < entries.len() ==> entries@[i].1 <= entries@[b as int].1
                &&& forall|i: int| b < i < entries.len() ==> entries@[i].1 < entries@[b as int].1
            },
        },
{
    let m = entries.len();
    if m == 0 {
        return None;
    }
    let mut best: usize = 0;
    for j in 1..m
        invariant
            m == entries.len(),
            best < j,
            forall|i: int| 0 <= i < j ==> entries@[i].1 <= entries@[best as int].1,
            forall|i: int| best < i < j ==> entries@[i].1 < entries@[best as int].1,
    {
        if entries[j].1 >= entries[best].1 {
            best = j;
        }
    }
    Some(best)
}

/// Returns the first entry of `labels_with_index` whose label is a most frequent label.
/// Where several labels are equally frequent, which of them wins depends on the order
/// in which the count map is walked.
pub fn mode(labels_with_index: &[LabelIndex]) -> (r: &LabelIndex)
    requires
        labels_with_index.len() > 0,
    ensures
        exists|q: int| #[trigger] is_mode_position(labels_with_index@, q) && *r == labels_with_index@[q],
{
    let v = labels_with_index;
    let mut counts: HashedMap<u8, u64> = HashedMap::default();
    let n = v.len();
    for i in 0..n
        invariant
            n == v.len(),
            forall|l: u8| #[trigger]
                counts@.contains_key(l) == (label_count(v@.take(i as int), l) > 0),
            forall|l: u8|
                counts@.contains_key(l) ==> #[trigger] counts@[l] == label_count(
                    v@.take(i as int),
                    l,
                ),
    {
        let label = v[i].0;
        proof {
            assert(v@.take(i + 1) =~= v@.take(i as int).push(v@[i as int]));
            assert forall|l: u8| true implies label_count(v@.take(i + 1), l) == label_count(
                v@.take(i as int),
                l,
            ) + if v@[i as int].0 == l {
                1nat
            } else {
                0nat
            } by {
                lemma_label_count_push(v@.take(i as int), v@[i as int], l);
            }
            lemma_label_count_bound(v@.take(i as int), label);
        }
        let c = match counted(&counts, label) {
            Some(c) => c,
            None => 0,
        };
        set_count(&mut counts, label, c + 1);
    }
    assert(v@.take(n as int) =~= v@);
    let ghost count_map = counts@;
    let entries = count_entries(counts);
    proof {
        lemma_label_count_present(v@, 0);
        assert(count_map.contains_key(v@[0].0));
    }
    let m = entries.len();
    let best = match last_max_entry(entries.as_slice()) {
        Some(b) => b,
        None => {
            return &v[0];
        },
    };
    let winner = entries[best].0;
    proof {
        assert forall|l: u8| #[trigger] label_count(v@, l) <= label_count(v@, winner) by {
            if count_map.contains_key(l) {
                let i = choose|i: int| 0 <= i < m && #[trigger] entries@[i].0 == l;
                assert(entries@[i].1 <= entries@[best as int].1);
            }
        }
    }
    let mut p: usize = 0;
    while p < n
        invariant
            v@ == labels_with_index@,
            n == v.len(),
            p <= n,
            forall|q: int| 0 <= q < p ==> v@[q].0 != winner,
            label_count(v@, winner) > 0,
            forall|l: u8| #[trigger] label_count(v@, l) <= label_count(v@, winner),
        decreases n - p,
    {
        if v[p].0 == winner {
            let r = &v[p];
            assert(is_mode_position(v@, p as int) && *r == v@[p as int]);
            return r;
        }
        p += 1;
    }
    proof {
        lemma_label_count_absent(v@, winner);
    }
    &v[0]
}


/// The ordering key of training image `i` with respect to `test`: its squared
/// distance, then its label, then its position (the order `knn` ranks neighbours by).
pub open spec fn neighbour_key(training: Seq<LabeledFeatures>, test: Seq<u8>, i: int) -> (int, int, int) {
    (squared_distance(training[i].features@, test), training[i].label as int, i)
}

/// Strict lexicographic order on keys.
pub open spec fn key_lt(a: (int, int, int), b: (int, int, int)) -> bool {
    ||| a.0 < b.0
    ||| a.0 == b.0 && a.1 < b.1
    ||| a.0 == b.0 && a.1 == b.1 && a.2 < b.2
}

/// A key as computed at run time, read as integers.
pub open spec fn key_of(t: (i32, u8, usize)) -> (int, int, int) {
    (t.0 as int, t.1 as int, t.2 as int)
}

/// Every training image has as many features as `test`, and its squared distance to
/// `test` fits in an `i32`.
pub open spec fn distances_fit(training: Seq<LabeledFeatures>, test: Seq<u8>) -> bool {
    forall|i: int|
        0 <= i < training.len() ==> #[trigger] training[i].features@.len() == test.len()
            && squared_distance(training[i].features@, test) <= i32::MAX
}

/// `s` lists the `k` training images nearest to `test`, nearest first: their keys strictly
/// increase, and every image not listed has a key above the last listed one.
pub open spec fn is_k_nearest(
    training: Seq<LabeledFeatures>,
    test: Seq<u8>,
    k: int,
    s: Seq<LabelIndex>,
) -> bool {
    &&& s.len() == k
    &&& forall|p: int|
        0 <= p < k ==> #[trigger] s[p].1 < training.len() && s[p].0 == training[s[p].1 as int].label
    &&& forall|p: int, q: int|
        0 <= p < q < k ==> key_lt(
            neighbour_key(training, test, #[trigger] s[p].1 as int),
            neighbour_key(training, test, #[trigger] s[q].1 as int),
        )
    &&& forall|j: int|
        0 <= j < training.len() && (forall|p: int| 0 <= p < k ==> #[trigger] s[p].1 != j) ==> key_lt(
            neighbour_key(training, test, s[k - 1].1 as int),
            #[trigger] neighbour_key(training, test, j),
        )
}

/// Sorts the keys in place (`slice::sort` on `(i32, u8, usize)` tuples).
/// Claims what std documents: the result is a permutation of the input, in ascending
/// lexicographic tuple order.
#[verifier::external_body]
fn sort_keys(keys: &mut Vec<(i32, u8, usize)>)
    ensures
        final(keys)@.to_multiset() == old(keys)@.to_multiset(),
        forall|i: int, j: int|
            0 <= i < j < final(keys)@.len() ==> !key_lt(
                key_of(#[trigger] final(keys)@[j]),
                key_of(#[trigger] final(keys)@[i]),
            ),
{
    keys.sort();
}

/// Returns the `k` training images nearest to `test` (by squared distance, ties broken by
/// label and then by position), nearest first, as label and position pairs.
pub fn k_nearest(training_set: &Vec<LabeledFeatures>, test: &Vec<u8>, k: usize) -> (r: Vec<
    LabelIndex,
>)
    requires
        0 < k <= training_set.len(),
        distances_fit(training_set@, test@),
    ensures
        is_k_nearest(training_set@, test@, k as int, r@),
{
    let n = training_set.len();
    let mut dists: Vec<(i32, u8, usize)> = Vec::new();
    for index in 0..n
        invariant
            n == training_set.len(),
            distances_fit(training_set@, test@),
            dists.len() == index,
            forall|j: int|
                0 <= j < index ==> key_of(#[trigger] dists@[j]) == neighbour_key(
                    training_set@,
                    test@,
                    j,
                ),
    {
        assert(training_set@[index as int].features@.len() == test@.len());
        let dist_sq = distance2(training_set[index].features.as_slice(), test.as_slice());
        let label = training_set[index].label;
        dists.push((dist_sq, label, index));
    }
    let ghost before = dists@;
    proof {
        assert forall|i: int, j: int| 0 <= i < j < before.len() implies before[i] != before[j] by {
            assert(key_of(before[i]).2 == i);
            assert(key_of(before[j]).2 == j);
        }
        before.lemma_multiset_has_no_duplicates();
    }
    sort_keys(&mut dists);
    let ghost after = dists@;
    proof {
        assert forall|x: (i32, u8, usize)| after.to_multiset().contains(x) implies after.to_multiset().count(x) == 1 by {
        }
        after.lemma_multiset_has_no_duplicates_conv();
        assert(after.len() == after.to_multiset().len());
        assert(before.len() == before.to_multiset().len());
        assert forall|p: int| 0 <= p < after.len() implies key_of(#[trigger] after[p]) == neighbour_key(
            training_set@,
            test@,
            after[p].2 as int,
        ) && after[p].2 < training_set@.len() by {
            assert(after.contains(after[p]));
            assert(after.to_multiset().count(after[p]) > 0);
            assert(before.to_multiset().count(after[p]) > 0);
            assert(before.contains(after[p]));
            let j = choose|j: int| 0 <= j < before.len() && before[j] == after[p];
            assert(key_of(before[j]) == neighbour_key(training_set@, test@, j));
        }
    }
    let mut r: Vec<LabelIndex> = Vec::new();
    for p in 0..k
        invariant
            k <= n,
            n == training_set.len(),
            after == dists@,
            after.len() == n,
            r.len() == p,
            forall|i: int|
                0 <= i < p ==> #[trigger] r@[i] == LabelIndex(after[i].1, after[i].2),
    {
        r.push(LabelIndex(dists[p].1, dists[p].2));
    }
    proof {
        let s = r@;
        let ki = k as int;
        assert forall|p: int| 0 <= p < ki implies #[trigger] s[p].1 < training_set@.len()
            && s[p].0 == training_set@[s[p].1 as int].label by {
            assert(key_of(after[p]) == neighbour_key(training_set@, test@, after[p].2 as int));
            assert(after[p].2 < training_set@.len());
        }
        assert forall|p: int, q: int| 0 <= p < q < ki implies key_lt(
            neighbour_key(training_set@, test@, #[trigger] s[p].1 as int),
            neighbour_key(training_set@, test@, #[trigger] s[q].1 as int),
        ) by {
            assert(key_of(after[p]) == neighbour_key(training_set@, test@, after[p].2 as int));
            assert(key_of(after[q]) == neighbour_key(training_set@, test@, after[q].2 as int));
            assert(after[p] != after[q]);
            assert(!key_lt(key_of(after[q]), key_of(after[p])));
        }
        assert forall|j: int|
            0 <= j < training_set@.len() && (forall|p: int| 0 <= p < ki ==> #[trigger] s[p].1 != j)
            implies key_lt(
            neighbour_key(training_set@, test@, s[ki - 1].1 as int),
            #[trigger] neighbour_key(training_set@, test@, j),
        ) by {
            assert(before.contains(before[j]));
            assert(before.to_multiset().count(before[j]) > 0);
            assert(after.to_multiset().count(before[j]) > 0);
            assert(after.contains(before[j]));
            let q = choose|q: int| 0 <= q < after.len() && after[q] == before[j];
            assert(key_of(before[j]) == neighbour_key(training_set@, test@, j));
            if q < ki {
                assert(s[q].1 == j);
            }
            assert(key_of(after[ki - 1]) == neighbour_key(training_set@, test@, after[ki - 1].2 as int));
            assert(after[ki - 1] != after[q]);
            assert(!key_lt(key_of(after[q]), key_of(after[ki - 1])));
        }
    }
    r
}

/// Returns the index of an image in `training_set` which is among the `k` nearest
/// neighbours of `test` and has the same label as the most common label among the `k`
/// nearest neighbours of `test`: the nearest neighbour that carries that label.
pub fn knn(training_set: &Vec<LabeledFeatures>, test: &Vec<u8>, k: usize) -> (r: usize)
    requires
        0 < k <= training_set.len(),
        distances_fit(training_set@, test@),
    ensures
        exists|s: Seq<LabelIndex>, q: int|
            #[trigger] is_k_nearest(training_set@, test@, k as int, s) && #[trigger] is_mode_position(
                s,
                q,
            ) && r == s[q].1,
{
    let label_indexes = k_nearest(training_set, test, k);
    let winner = mode(label_indexes.as_slice());
    let r = winner.1;
    proof {
        let q = choose|q: int| is_mode_position(label_indexes@, q) && *winner == label_indexes@[q];
        assert(is_k_nearest(training_set@, test@, k as int, label_indexes@) && is_mode_position(
            label_indexes@,
            q,
        ) && r == label_indexes@[q].1);
    }
    r
}


/// Returns the digit recognised in `test`: the label of the image that `knn` picks, which
/// is the most frequent label among the `k` nearest neighbours.
pub fn classify(training_set: &Vec<LabeledFeatures>, test: &Vec<u8>, k: usize) -> (r: u8)
    requires
        0 < k <= training_set.len(),
        distances_fit(training_set@, test@),
    ensures
        exists|s: Seq<LabelIndex>, q: int|
            #[trigger] is_k_nearest(training_set@, test@, k as int, s) && #[trigger] is_mode_position(
                s,
                q,
            ) && r == s[q].0,
{
    let nearest_index = knn(training_set, test, k);
    proof {
        let (s, q) = choose|s: Seq<LabelIndex>, q: int|
            #[trigger] is_k_nearest(training_set@, test@, k as int, s) && #[trigger] is_mode_position(
                s,
                q,
            ) && nearest_index == s[q].1;
        assert(s[q].1 < training_set@.len() && s[q].0 == training_set@[s[q].1 as int].label);
    }
    training_set[nearest_index].label
}

/// Tells whether the squared distance between `a` and `b` fits in an `i32`.
fn distance_fits(a: &[u8], b: &[u8]) -> (r: bool)
    requires
        a.len() == b.len(),
    ensures
        r == (squared_distance(a@, b@) <= i32::MAX),
{
    let n = a.len();
    let mut sum: u64 = 0;
    for i in 0..n
        invariant
            n == a.len(),
            n == b.len(),
            sum == sq_dist_prefix(a@, b@, i as nat),
            sum <= i32::MAX,
    {
        let x = a[i] as i64;
        let y = b[i] as i64;
        assert((x - y) * (x - y) <= 65025 && (x - y) * (x - y) >= 0) by (nonlinear_arith)
            requires
                0 <= x <= 255,
                0 <= y <= 255,
        ;
        sum = sum + ((x - y) * (x - y)) as u64;
        if sum > 0x7fff_ffff {
            proof {
                lemma_sq_dist_mono(a@, b@, (i + 1) as nat, n as nat);
            }
            return false;
        }
    }
    true
}

/// Tells whether `knn` can be called on `training_set` and `test`: every training image
/// has as many features as `test`, and its squared distance to `test` fits in an `i32`.
pub fn features_comparable(training_set: &Vec<LabeledFeatures>, test: &Vec<u8>) -> (r: bool)
    ensures
        r == distances_fit(training_set@, test@),
{
    let n = training_set.len();
    for i in 0..n
        invariant
            n == training_set.len(),
            forall|j: int|
                0 <= j < i ==> #[trigger] training_set@[j].features@.len() == test@.len()
                    && squared_distance(training_set@[j].features@, test@) <= i32::MAX,
    {
        if training_set[i].features.len() != test.len() {
            return false;
        }
        if !distance_fits(training_set[i].features.as_slice(), test.as_slice()) {
            return false;
        }
    }
    true
}

/// The distance of a feature vector to itself is zero.
pub proof fn lemma_squared_distance_to_self(a: Seq<u8>)
    ensures
        squared_distance(a, a) == 0,
{
    lemma_sq_dist_self(a, a.len());
}

proof fn lemma_sq_dist_self(a: Seq<u8>, n: nat)
    ensures
        sq_dist_prefix(a, a, n) == 0,
    decreases n,
{
    if n > 0 {
        lemma_sq_dist_self(a, (n - 1) as nat);
    }
}

/// The distance does not depend on the order of its two arguments.
pub proof fn lemma_squared_distance_symmetric(a: Seq<u8>, b: Seq<u8>)
    requires
        a.len() == b.len(),
    ensures
        squared_distance(a, b) == squared_distance(b, a),
{
    lemma_sq_dist_sym(a, b, a.len());
}

proof fn lemma_sq_dist_sym(a: Seq<u8>, b: Seq<u8>, n: nat)
    ensures
        sq_dist_prefix(a, b, n) == sq_dist_prefix(b, a, n),
    decreases n,
{
    if n > 0 {
        lemma_sq_dist_sym(a, b, (n - 1) as nat);
        let d = a[n - 1] - b[n - 1];
        assert(d * d == (-d) * (-d)) by (nonlinear_arith);
    }
}

/// The `k` nearest neighbours are determined by the training set, the test image and `k`:
/// two lists that both meet `is_k_nearest` are the same list.
pub proof fn lemma_k_nearest_unique(
    training: Seq<LabeledFeatures>,
    test: Seq<u8>,
    k: int,
    s1: Seq<LabelIndex>,
    s2: Seq<LabelIndex>,
)
    requires
        0 < k,
        is_k_nearest(training, test, k, s1),
        is_k_nearest(training, test, k, s2),
    ensures
        s1 == s2,
{
    assert forall|p: int| 0 <= p < k implies s1[p] == s2[p] by {
        lemma_k_nearest_agree_upto(training, test, k, s1, s2, p);
    }
    assert(s1 =~= s2);
}

proof fn lemma_k_nearest_agree_upto(
    training: Seq<LabeledFeatures>,
    test: Seq<u8>,
    k: int,
    s1: Seq<LabelIndex>,
    s2: Seq<LabelIndex>,
    p: int,
)
    requires
        0 <= p < k,
        is_k_nearest(training, test, k, s1),
        is_k_nearest(training, test, k, s2),
    ensures
        forall|q: int| 0 <= q <= p ==> s1[q] == s2[q],
    decreases p,
{
    if p > 0 {
        lemma_k_nearest_agree_upto(training, test, k, s1, s2, p - 1);
    }
    let a = s1[p].1;
    let b = s2[p].1;
    if a != b {
        lemma_not_listed_beyond(training, test, k, s1, s2, p);
        lemma_not_listed_beyond(training, test, k, s2, s1, p);
        let ka = neighbour_key(training, test, a as int);
        let kb = neighbour_key(training, test, b as int);
        assert(key_lt(ka, kb) || key_lt(kb, ka));
    }
    assert(s1[p] == s2[p]);
}

/// Where two nearest-neighbour lists agree before position `p` and differ in their
/// image at `p`, the image `s1` lists at `p` is missing from `s2`, so its key lies above
/// every key `s2` lists.
proof fn lemma_not_listed_beyond(
    training: Seq<LabeledFeatures>,
    test: Seq<u8>,
    k: int,
    s1: Seq<LabelIndex>,
    s2: Seq<LabelIndex>,
    p: int,
)
    requires
        0 <= p < k,
        is_k_nearest(training, test, k, s1),
        is_k_nearest(training, test, k, s2),
        forall|q: int| 0 <= q < p ==> s1[q] == s2[q],
        s1[p].1 != s2[p].1,
    ensures
        !key_lt(
            neighbour_key(training, test, s1[p].1 as int),
            neighbour_key(training, test, s2[p].1 as int),
        ),
{
    let a = s1[p].1;
    let b = s2[p].1;
    let ka = neighbour_key(training, test, a as int);
    let kb = neighbour_key(training, test, b as int);
    if key_lt(ka, kb) {
        assert forall|q: int| 0 <= q < k implies #[trigger] s2[q].1 != a by {
            if q < p {
                assert(s2[q] == s1[q]);
                assert(key_lt(
                    neighbour_key(training, test, s1[q].1 as int),
                    neighbour_key(training, test, s1[p].1 as int),
                ));
            } else if q > p {
                assert(key_lt(
                    neighbour_key(training, test, s2[p].1 as int),
                    neighbour_key(training, test, s2[q].1 as int),
                ));
            }
        }
        assert(a < training.len());
        assert(key_lt(neighbour_key(training, test, s2[k - 1].1 as int), ka));
        if p < k - 1 {
            assert(key_lt(
                neighbour_key(training, test, s2[p].1 as int),
                neighbour_key(training, test, s2[k - 1].1 as int),
            ));
        }
    }
}

/// With a single neighbour voting, `knn` picks the training image nearest to the test
/// image: every other image has a larger key.
pub proof fn lemma_single_neighbour_is_nearest(
    training: Seq<LabeledFeatures>,
    test: Seq<u8>,
    s: Seq<LabelIndex>,
    q: int,
)
    requires
        is_k_nearest(training, test, 1, s),
        is_mode_position(s, q),
    ensures
        q == 0,
        forall|j: int|
            0 <= j < training.len() && j != s[q].1 ==> key_lt(
                neighbour_key(training, test, s[q].1 as int),
                #[trigger] neighbour_key(training, test, j),
            ),
{
    assert forall|j: int| 0 <= j < training.len() && j != s[q].1 implies key_lt(
        neighbour_key(training, test, s[q].1 as int),
        #[trigger] neighbour_key(training, test, j),
    ) by {
        assert forall|p: int| 0 <= p < 1 implies #[trigger] s[p].1 != j by {}
    }
}


/// Adding to the training set an image farther from `test` than the `k`-th nearest one
/// leaves the `k` nearest neighbours as they are; by `lemma_k_nearest_unique` they are
/// then the only `k` nearest neighbours of the larger set.
pub proof fn lemma_farther_image_keeps_neighbours(
    training: Seq<LabeledFeatures>,
    test: Seq<u8>,
    k: int,
    s: Seq<LabelIndex>,
    extra: LabeledFeatures,
)
    requires
        0 < k,
        is_k_nearest(training, test, k, s),
        squared_distance(extra.features@, test) > squared_distance(
            training[s[k - 1].1 as int].features@,
            test,
        ),
    ensures
        is_k_nearest(training.push(extra), test, k, s),
{
    let t2 = training.push(extra);
    let n = training.len() as int;
    assert forall|i: int| 0 <= i < n implies #[trigger] neighbour_key(t2, test, i) == neighbour_key(
        training,
        test,
        i,
    ) by {
        assert(t2[i] == training[i]);
    }
    assert forall|p: int| 0 <= p < k implies #[trigger] s[p].1 < t2.len() && s[p].0 == t2[s[p].1 as int].label by {
        assert(t2[s[p].1 as int] == training[s[p].1 as int]);
    }
    assert forall|p: int, q: int| 0 <= p < q < k implies key_lt(
        neighbour_key(t2, test, #[trigger] s[p].1 as int),
        neighbour_key(t2, test, #[trigger] s[q].1 as int),
    ) by {
        assert(s[p].1 < n && s[q].1 < n);
        assert(neighbour_key(t2, test, s[p].1 as int) == neighbour_key(training, test, s[p].1 as int));
        assert(neighbour_key(t2, test, s[q].1 as int) == neighbour_key(training, test, s[q].1 as int));
    }
    assert forall|j: int|
        0 <= j < t2.len() && (forall|p: int| 0 <= p < k ==> #[trigger] s[p].1 != j) implies key_lt(
        neighbour_key(t2, test, s[k - 1].1 as int),
        #[trigger] neighbour_key(t2, test, j),
    ) by {
        assert(s[k - 1].1 < n);
        assert(neighbour_key(t2, test, s[k - 1].1 as int) == neighbour_key(training, test, s[k - 1].1 as int));
        if j < n {
            assert(neighbour_key(t2, test, j) == neighbour_key(training, test, j));
        } else {
            assert(t2[j] == extra);
        }
    }
}


proof fn lemma_sq_dist_prefix_agree(a: Seq<u8>, b: Seq<u8>, a2: Seq<u8>, b2: Seq<u8>, n: nat)
    requires
        n <= a.len(),
        n <= b.len(),
        n <= a2.len(),
        n <= b2.len(),
        forall|i: int| 0 <= i < n ==> a[i] == a2[i] && b[i] == b2[i],
    ensures
        sq_dist_prefix(a, b, n) == sq_dist_prefix(a2, b2, n),
    decreases n,
{
    if n > 0 {
        lemma_sq_dist_prefix_agree(a, b, a2, b2, (n - 1) as nat);
    }
}

/// The distance between two empty vectors is 0, and between two one-pixel vectors it is
/// the square of the difference of their pixels.
pub proof fn lemma_squared_distance_small(x: u8, y: u8)
    ensures
        squared_distance(Seq::<u8>::empty(), Seq::<u8>::empty()) == 0,
        squared_distance(seq![x], seq![y]) == (x - y) * (x - y),
{
    let a = seq![x];
    let b = seq![y];
    assert(a.len() == 1 && a[0] == x && b[0] == y);
    assert(sq_dist_prefix(a, b, 0) == 0);
    assert(sq_dist_prefix(a, b, 1) == sq_dist_prefix(a, b, 0) + (a[0] - b[0]) * (a[0] - b[0]));
}

/// Appending a pixel to each of two vectors of equal length adds the square of the
/// difference of the two pixels to their distance.
pub proof fn lemma_squared_distance_push(a: Seq<u8>, b: Seq<u8>, x: u8, y: u8)
    requires
        a.len() == b.len(),
    ensures
        squared_distance(a.push(x), b.push(y)) == squared_distance(a, b) + (x - y) * (x - y),
{
    let n = a.len();
    lemma_sq_dist_prefix_agree(a.push(x), b.push(y), a, b, n);
    assert(a.push(x)[n as int] == x && b.push(y)[n as int] == y);
}

/// The distance is additive over vectors cut in two at the same place: the distance of
/// `a1 + a2` to `b1 + b2` is that of `a1` to `b1` plus that of `a2` to `b2`.
pub proof fn lemma_squared_distance_concat(a1: Seq<u8>, a2: Seq<u8>, b1: Seq<u8>, b2: Seq<u8>)
    requires
        a1.len() == b1.len(),
        a2.len() == b2.len(),
    ensures
        squared_distance(a1 + a2, b1 + b2) == squared_distance(a1, b1) + squared_distance(a2, b2),
    decreases a2.len(),
{
    if a2.len() == 0 {
        assert(a1 + a2 =~= a1);
        assert(b1 + b2 =~= b1);
        lemma_squared_distance_small(0, 0);
    } else {
        let a3 = a2.drop_last();
        let b3 = b2.drop_last();
        lemma_squared_distance_concat(a1, a3, b1, b3);
        assert(a1 + a2 =~= (a1 + a3).push(a2.last()));
        assert(b1 + b2 =~= (b1 + b3).push(b2.last()));
        assert(a2 =~= a3.push(a2.last()));
        assert(b2 =~= b3.push(b2.last()));
        lemma_squared_distance_push(a1 + a3, b1 + b3, a2.last(), b2.last());
        lemma_squared_distance_push(a3, b3, a2.last(), b2.last());
    }
}

} // verus!
