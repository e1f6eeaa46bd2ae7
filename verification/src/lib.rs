//! K-means clustering over flat buffers of fixed-width samples.
//!
//! The crate holds everything about the algorithm that is decided on
//! integers: how a flat buffer is cut into samples, which centroid is nearest
//! to a sample once the distances are known, which samples belong to a
//! cluster, and when the refinement loop stops. Distances and means are
//! computed by the caller on its own number type and handed in.

use vstd::prelude::*;

pub mod assignment;
pub mod clusters;
pub mod dataset;
pub mod fit;
pub mod lanes;
pub mod sampling;

verus! {

/// The settings of a run: how many clusters to form, and after how many
/// assignment passes to stop at the latest.
#[derive(Debug)]
pub struct Kmeans {
    n_clusters: usize,
    max_iterations: usize,
}

impl Kmeans {
    /// The number of clusters.
    pub closed spec fn clusters(&self) -> nat {
        self.n_clusters as nat
    }

    /// The largest number of assignment passes.
    pub closed spec fn budget(&self) -> nat {
        self.max_iterations as nat
    }

    /// Settings for `n_clusters` clusters and at most `max_iterations`
    /// assignment passes. Whether the cluster count suits a dataset is
    /// decided when a run starts.
    pub fn new(n_clusters: usize, max_iterations: usize) -> (kmeans: Kmeans)
        ensures
            kmeans.clusters() == n_clusters,
            kmeans.budget() == max_iterations,
    {
        Kmeans { n_clusters, max_iterations: max_iterations }
    }

    /// The number of clusters.
    pub fn n_clusters(&self) -> (k: usize)
        ensures
            k == self.clusters(),
    {
        self.n_clusters
    }

    /// The largest number of assignment passes.
    pub fn max_iterations(&self) -> (limit: usize)
        ensures
            limit == self.budget(),
    {
        self.max_iterations
    }
}

/// How many predicted labels agree with the true ones, out of how many.
#[derive(Debug, Clone, Copy, PartialEq, Eq, Structural)]
pub struct Accuracy {
    /// The number of positions at which prediction and truth agree.
    pub matching: usize,
    /// The number of true labels.
    pub total: usize,
}

/// The number of positions below `upto` at which the two sequences agree.
pub open spec fn agreements_below(predicted: Seq<usize>, truth: Seq<usize>, upto: nat) -> nat
    decreases upto,
{
    if upto == 0 {
        0
    } else {
        let before = agreements_below(predicted, truth, (upto - 1) as nat);
        if predicted[upto - 1] == truth[upto - 1] {
            before + 1
        } else {
            before
        }
    }
}

/// The number of positions at which the two sequences agree. Positions that
/// only the longer one has do not count.
pub open spec fn agreements(predicted: Seq<usize>, truth: Seq<usize>) -> nat {
    if predicted.len() <= truth.len() {
        agreements_below(predicted, truth, predicted.len())
    } else {
        agreements_below(predicted, truth, truth.len())
    }
}

/// Counts the positions at which `predicted` agrees with `truth`.
///
/// The labels are compared as numbers. A clustering that is right up to the
/// numbering of its clusters scores as whatever its numbering happens to
/// give; nothing here matches cluster numbers to class numbers.
pub fn evaluate(predicted: &Vec<usize>, truth: &Vec<usize>) -> (accuracy: Accuracy)
    ensures
        accuracy.matching == agreements(predicted@, truth@),
        accuracy.total == truth@.len(),
        accuracy.matching <= accuracy.total,
{
    let total = truth.len();
    let shared = if predicted.len() <= total {
        predicted.len()
    } else {
        total
    };
    let mut matching: usize = 0;
    let mut i: usize = 0;
    while i < shared
        invariant
            shared <= predicted@.len(),
            shared <= truth@.len(),
            i <= shared,
            matching == agreements_below(predicted@, truth@, i as nat),
            matching <= i,
        decreases shared - i,
    {
        if predicted[i] == truth[i] {
            matching += 1;
        }
        i += 1;
    }
    Accuracy { matching, total }
}

/// Every agreement is a position of both sequences, a sequence agrees with
/// itself everywhere, and it makes no difference which of the two is called
/// the prediction.
pub proof fn lemma_agreements(predicted: Seq<usize>, truth: Seq<usize>)
    ensures
        agreements(predicted, truth) <= predicted.len(),
        agreements(predicted, truth) <= truth.len(),
        agreements(predicted, predicted) == predicted.len(),
        agreements(predicted, truth) == agreements(truth, predicted),
{
    let shared = if predicted.len() <= truth.len() {
        predicted.len()
    } else {
        truth.len()
    };
    lemma_agreements_below(predicted, truth, shared);
    lemma_agreements_below(predicted, predicted, predicted.len());
}

/// [`lemma_agreements`] for a part of the positions.
pub proof fn lemma_agreements_below(predicted: Seq<usize>, truth: Seq<usize>, upto: nat)
    ensures
        agreements_below(predicted, truth, upto) <= upto,
        agreements_below(predicted, predicted, upto) == upto,
        agreements_below(predicted, truth, upto) == agreements_below(truth, predicted, upto),
    decreases upto,
{
    if upto > 0 {
        lemma_agreements_below(predicted, truth, (upto - 1) as nat);
    }
}

/// The eight bytes of a 64-bit number, least significant byte first.
pub open spec fn le_bytes(value: u64) -> Seq<u8> {
    seq![
        (value % 0x100) as u8,
        (value / 0x100 % 0x100) as u8,
        (value / 0x1_0000 % 0x100) as u8,
        (value / 0x100_0000 % 0x100) as u8,
        (value / 0x1_0000_0000 % 0x100) as u8,
        (value / 0x100_0000_0000 % 0x100) as u8,
        (value / 0x1_0000_0000_0000 % 0x100) as u8,
        (value / 0x100_0000_0000_0000 % 0x100) as u8,
    ]
}

/// The number that eight bytes spell, least significant byte first.
pub open spec fn le_value(bytes: Seq<u8>) -> int {
    bytes[0] + 0x100 * bytes[1] + 0x1_0000 * bytes[2] + 0x100_0000 * bytes[3] + 0x1_0000_0000
        * bytes[4] + 0x100_0000_0000 * bytes[5] + 0x1_0000_0000_0000 * bytes[6]
        + 0x100_0000_0000_0000 * bytes[7]
}

/// The bytes of a number spell that number: nothing is lost in a label file.
pub proof fn lemma_le_bytes_round_trip(value: u64)
    ensures
        le_bytes(value).len() == 8,
        le_value(le_bytes(value)) == value,
{
    let v = value as int;
    assert(v == 0x100 * (v / 0x100) + v % 0x100);
    assert(v / 0x100 == 0x100 * (v / 0x1_0000) + v / 0x100 % 0x100);
    assert(v / 0x1_0000 == 0x100 * (v / 0x100_0000) + v / 0x1_0000 % 0x100);
    assert(v / 0x100_0000 == 0x100 * (v / 0x1_0000_0000) + v / 0x100_0000 % 0x100);
    assert(v / 0x1_0000_0000 == 0x100 * (v / 0x100_0000_0000) + v / 0x1_0000_0000 % 0x100);
    assert(v / 0x100_0000_0000 == 0x100 * (v / 0x1_0000_0000_0000) + v / 0x100_0000_0000 % 0x100);
    assert(v / 0x1_0000_0000_0000 == 0x100 * (v / 0x100_0000_0000_0000) + v / 0x1_0000_0000_0000
        % 0x100);
    assert(v / 0x100_0000_0000_0000 < 0x100);
}

/// The bytes of a label file: the labels as 64-bit numbers, one after the
/// other, each least significant byte first.
pub open spec fn encoded_labels(labels: Seq<usize>) -> Seq<u8> {
    Seq::new(8 * labels.len(), |p: int| le_bytes(labels[p / 8] as u64)[p % 8])
}

/// Lays out `classes` as the bytes of a label file.
pub fn encode_labels(classes: &Vec<usize>) -> (bytes: Vec<u8>)
    ensures
        bytes@ == encoded_labels(classes@),
{
    let n = classes.len();
    let mut bytes: Vec<u8> = Vec::new();
    let mut i: usize = 0;
    while i < n
        invariant
            n == classes@.len(),
            i <= n,
            bytes@.len() == 8 * i,
            forall|p: int|
                0 <= p < 8 * i ==> #[trigger] bytes@[p] == le_bytes(classes@[p / 8] as u64)[p % 8],
        decreases n - i,
    {
        let value: u64 = classes[i] as u64;
        let ghost done = bytes@;
        bytes.push((value % 0x100) as u8);
        bytes.push((value / 0x100 % 0x100) as u8);
        bytes.push((value / 0x1_0000 % 0x100) as u8);
        bytes.push((value / 0x100_0000 % 0x100) as u8);
        bytes.push((value / 0x1_0000_0000 % 0x100) as u8);
        bytes.push((value / 0x100_0000_0000 % 0x100) as u8);
        bytes.push((value / 0x1_0000_0000_0000 % 0x100) as u8);
        bytes.push((value / 0x100_0000_0000_0000 % 0x100) as u8);
        assert(bytes@ =~= done + le_bytes(value));
        assert forall|p: int| 0 <= p < 8 * (i + 1) implies #[trigger] bytes@[p] == le_bytes(
            classes@[p / 8] as u64,
        )[p % 8] by {
            if p >= 8 * i {
                assert(p / 8 == i && p % 8 == p - 8 * i);
            } else {
                assert(bytes@[p] == done[p]);
            }
        }
        i += 1;
    }
    assert(bytes@ =~= encoded_labels(classes@));
    bytes
}

} // verus!
