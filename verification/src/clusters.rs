//! The update step, as far as it is decided on labels: which samples make up
//! a cluster, and which centroid a cluster gets.
//!
//! A cluster that no sample was assigned to has no mean. Its centroid is left
//! where it was.

use vstd::prelude::*;

verus! {

/// The indices of the samples labelled `cluster`, in ascending order.
pub open spec fn members_of(labels: Seq<usize>, cluster: usize) -> Seq<usize>
    decreases labels.len(),
{
    if labels.len() == 0 {
        Seq::empty()
    } else {
        let before = members_of(labels.drop_last(), cluster);
        if labels.last() == cluster {
            before.push((labels.len() - 1) as usize)
        } else {
            before
        }
    }
}

/// The contents of a list of vectors.
pub open spec fn vectors<T>(list: Seq<Vec<T>>) -> Seq<Seq<T>> {
    Seq::new(list.len(), |i: int| list[i]@)
}

/// Some sample is labelled `cluster`.
pub open spec fn is_occupied(labels: Seq<usize>, cluster: usize) -> bool {
    exists|i: int| 0 <= i < labels.len() && #[trigger] labels[i] == cluster
}

/// The centroids after an update: an occupied cluster moves to the mean that
/// was computed for it, an empty one keeps its previous centroid.
pub open spec fn updated_centroids<T>(
    previous: Seq<Seq<T>>,
    means: Seq<Seq<T>>,
    labels: Seq<usize>,
) -> Seq<Seq<T>> {
    Seq::new(
        previous.len(),
        |c: int|
            if is_occupied(labels, c as usize) {
                means[c]
            } else {
                previous[c]
            },
    )
}

/// What [`members_of`] lists: exactly the samples with that label, each once,
/// in dataset order.
pub proof fn lemma_members_of(labels: Seq<usize>, cluster: usize)
    requires
        labels.len() <= usize::MAX,
    ensures
        forall|j: int|
            0 <= j < members_of(labels, cluster).len() ==> {
                &&& (#[trigger] members_of(labels, cluster)[j]) < labels.len()
                &&& labels[members_of(labels, cluster)[j] as int] == cluster
            },
        forall|j: int, k: int|
            0 <= j < k < members_of(labels, cluster).len() ==> members_of(labels, cluster)[j]
                < members_of(labels, cluster)[k],
        forall|i: int|
            0 <= i < labels.len() && labels[i] == cluster ==> members_of(labels, cluster).contains(
                i as usize,
            ),
        members_of(labels, cluster).len() <= labels.len(),
        members_of(labels, cluster).len() > 0 <==> is_occupied(labels, cluster),
    decreases labels.len(),
{
    let all = members_of(labels, cluster);
    if labels.len() > 0 {
        let front = labels.drop_last();
        let before = members_of(front, cluster);
        let last = (labels.len() - 1) as usize;
        lemma_members_of(front, cluster);
        assert(forall|i: int| 0 <= i < front.len() ==> front[i] == labels[i]);
        assert forall|i: int| 0 <= i < labels.len() && labels[i] == cluster implies all.contains(
            i as usize,
        ) by {
            if i < front.len() {
                assert(before.contains(i as usize));
                let j = choose|j: int| 0 <= j < before.len() && before[j] == i as usize;
                assert(all[j] == i as usize);
            } else {
                assert(all[before.len() as int] == last);
            }
        }
        if is_occupied(labels, cluster) {
            let i = choose|i: int| 0 <= i < labels.len() && #[trigger] labels[i] == cluster;
            assert(all.contains(i as usize));
        }
        if all.len() > 0 {
            assert(labels[all[0] as int] == cluster);
        }
    }
}

/// The clusters share out the samples: every sample is a member of the
/// cluster that its label names and of no other.
pub proof fn lemma_members_partition(labels: Seq<usize>, i: int, cluster: usize)
    requires
        labels.len() <= usize::MAX,
        0 <= i < labels.len(),
    ensures
        members_of(labels, cluster).contains(i as usize) <==> labels[i] == cluster,
{
    lemma_members_of(labels, cluster);
    if members_of(labels, cluster).contains(i as usize) {
        let j = choose|j: int|
            0 <= j < members_of(labels, cluster).len() && members_of(labels, cluster)[j]
                == i as usize;
        assert(labels[members_of(labels, cluster)[j] as int] == cluster);
    }
}

/// Lists the samples labelled `cluster`, in dataset order.
pub fn members(labels: &[usize], cluster: usize) -> (indices: Vec<usize>)
    ensures
        indices@ == members_of(labels@, cluster),
{
    let n = labels.len();
    let mut indices: Vec<usize> = Vec::new();
    let mut i: usize = 0;
    while i < n
        invariant
            n == labels@.len(),
            i <= n,
            indices@ == members_of(labels@.take(i as int), cluster),
        decreases n - i,
    {
        assert(labels@.take(i + 1).drop_last() == labels@.take(i as int));
        if labels[i] == cluster {
            indices.push(i);
        }
        i += 1;
    }
    assert(labels@.take(n as int) == labels@);
    indices
}

/// Tells for each of `n_clusters` clusters whether any sample carries its
/// label.
pub fn occupied(labels: &[usize], n_clusters: usize) -> (flags: Vec<bool>)
    ensures
        flags@.len() == n_clusters,
        forall|c: int|
            0 <= c < n_clusters ==> (#[trigger] flags@[c] <==> is_occupied(labels@, c as usize)),
{
    let n = labels.len();
    let mut flags: Vec<bool> = Vec::with_capacity(n_clusters);
    let mut c: usize = 0;
    while c < n_clusters
        invariant
            c <= n_clusters,
            flags@.len() == c,
            forall|b: int| 0 <= b < c ==> !(#[trigger] flags@[b]),
        decreases n_clusters - c,
    {
        flags.push(false);
        c += 1;
    }
    let mut i: usize = 0;
    while i < n
        invariant
            n == labels@.len(),
            i <= n,
            flags@.len() == n_clusters,
            forall|b: int|
                0 <= b < n_clusters ==> (#[trigger] flags@[b] <==> is_occupied(
                    labels@.take(i as int),
                    b as usize,
                )),
        decreases n - i,
    {
        let label = labels[i];
        let ghost seen = labels@.take(i as int);
        let ghost next = labels@.take(i + 1);
        assert(forall|r: int| 0 <= r < i ==> seen[r] == next[r]);
        assert(next[i as int] == label);
        if label < n_clusters {
            flags[label] = true;
        }
        assert forall|b: int| 0 <= b < n_clusters implies (#[trigger] flags@[b] <==> is_occupied(
            next,
            b as usize,
        )) by {
            if is_occupied(seen, b as usize) {
                let r = choose|r: int| 0 <= r < seen.len() && #[trigger] seen[r] == b as usize;
                assert(next[r] == b as usize);
            }
            if is_occupied(next, b as usize) && b != label {
                let r = choose|r: int| 0 <= r < next.len() && #[trigger] next[r] == b as usize;
                assert(seen[r] == b as usize);
            }
        }
        i += 1;
    }
    assert(labels@.take(n as int) == labels@);
    flags
}

/// Replaces the centroid of every occupied cluster by the mean computed for
/// it. A cluster without samples keeps its previous centroid; what `means`
/// holds at its place is not looked at.
pub fn update<T>(previous: Vec<Vec<T>>, means: Vec<Vec<T>>, labels: &[usize]) -> (centroids: Vec<
    Vec<T>,
>)
    requires
        previous@.len() == means@.len(),
    ensures
        vectors(centroids@) == updated_centroids(vectors(previous@), vectors(means@), labels@),
{
    let flags = occupied(labels, previous.len());
    let centroids = merge(previous, means, &flags);
    assert(vectors(centroids@) =~= updated_centroids(
        vectors(previous@),
        vectors(means@),
        labels@,
    ));
    centroids
}

/// Takes the entry of `means` where the flag is set and the entry of
/// `previous` where it is not.
pub(crate) fn merge<T>(previous: Vec<Vec<T>>, means: Vec<Vec<T>>, flags: &Vec<bool>) -> (centroids:
    Vec<Vec<T>>)
    requires
        previous@.len() == means@.len(),
        previous@.len() == flags@.len(),
    ensures
        centroids@.len() == previous@.len(),
        forall|c: int|
            0 <= c < centroids@.len() ==> #[trigger] centroids@[c] == if flags@[c] {
                means@[c]
            } else {
                previous@[c]
            },
{
    let k = previous.len();
    let mut centroids = previous;
    let mut means = means;
    let ghost given = means@;
    let mut c: usize = k;
    while c > 0
        invariant
            c <= k,
            k == previous@.len(),
            k == given.len(),
            k == flags@.len(),
            centroids@.len() == k,
            means@ == given.take(c as int),
            forall|b: int| 0 <= b < c ==> #[trigger] centroids@[b] == previous@[b],
            forall|b: int|
                c <= b < k ==> #[trigger] centroids@[b] == if flags@[b] {
                    given[b]
                } else {
                    previous@[b]
                },
        decreases c,
    {
        c -= 1;
        let mean = means.pop().unwrap();
        if flags[c] {
            centroids[c] = mean;
        }
        assert(means@ == given.take(c as int));
    }
    centroids
}

} // verus!
