//! The fit loop as a state machine.
//!
//! A run alternates two kinds of numeric work, measuring the distance from
//! every sample to every centroid and averaging the samples of every
//! cluster, with decisions on their results. The numeric work is the
//! driver's; the decisions are made here. The driver starts a run, performs
//! the [`Action`] it is given, reports the outcome as an [`Event`] to
//! [`FitState::step`], and goes on until the action is [`Action::Finish`].

use crate::assignment::{assign, assignment};
use crate::clusters::{is_occupied, members, members_of, merge, occupied, updated_centroids, vectors};
use crate::dataset::Dataset;
use crate::sampling::{check_selection, choose_indices, is_selection};
use crate::Kmeans;
use rand::rngs::StdRng;
use vstd::prelude::*;

verus! {

/// Where a run stands.
#[derive(Debug, Clone, Copy, PartialEq, Eq, Structural)]
pub enum Phase {
    /// The labels for the current centroids are due.
    Assigning,
    /// The labels changed in the last pass; the means of the new clusters
    /// are due.
    Updating,
    /// A pass gave the labels of the pass before it. The run is over.
    Converged,
    /// The allowed number of passes was made and the labels changed in each.
    /// The run is over.
    IterationLimitReached,
}

/// What the driver has to do next.
#[derive(Debug, Clone, Copy, PartialEq, Eq, Structural)]
pub enum Action {
    /// Measure the distance from every sample to every current centroid and
    /// report them as [`Event::Distances`].
    MeasureDistances,
    /// Average the samples of every cluster and report the means as
    /// [`Event::Means`].
    AverageClusters,
    /// Nothing: take the result.
    Finish,
}

/// The outcome of the driver's work.
#[derive(Debug)]
pub enum Event<T> {
    /// One row per sample, one column per centroid: the distance between the
    /// two as a single-precision bit pattern.
    Distances(Dataset<u32>),
    /// One entry per cluster: the mean of its samples. The entry of a
    /// cluster without samples is ignored and may be anything.
    Means(Vec<Vec<T>>),
}

/// What an [`Event`] holds.
pub enum EventModel<T> {
    Distances(Seq<Seq<u32>>),
    Means(Seq<Seq<T>>),
}

impl<T> View for Event<T> {
    type V = EventModel<T>;

    open spec fn view(&self) -> EventModel<T> {
        match self {
            Event::Distances(table) => EventModel::Distances(table@),
            Event::Means(means) => EventModel::Means(vectors(means@)),
        }
    }
}

/// Why a run could not start or go on.
#[derive(Debug, Clone, Copy, PartialEq, Eq, Structural)]
pub enum FitError {
    /// No cluster was asked for, or more clusters than there are samples.
    InvalidClusterCount,
    /// The initial centroids are not as many different samples as there are
    /// clusters.
    InvalidSelection,
    /// The event is of the kind that was asked for, but not of the run's
    /// shape.
    ShapeMismatch,
    /// The event is not of the kind that was asked for.
    UnexpectedEvent,
}

/// What a [`FitState`] holds.
pub struct FitModel<T> {
    /// The largest number of assignment passes.
    pub max_iterations: nat,
    /// The width of every sample and centroid.
    pub nfeatures: nat,
    /// The current centroid of every cluster.
    pub centroids: Seq<Seq<T>>,
    /// The current label of every sample.
    pub labels: Seq<usize>,
    /// The number of assignment passes made.
    pub iterations: nat,
    /// Where the run stands.
    pub phase: Phase,
}

/// The action that a phase asks for.
pub open spec fn action_for(phase: Phase) -> Action {
    match phase {
        Phase::Assigning => Action::MeasureDistances,
        Phase::Updating => Action::AverageClusters,
        Phase::Converged => Action::Finish,
        Phase::IterationLimitReached => Action::Finish,
    }
}

impl<T> FitModel<T> {
    /// What holds of every state of a run: there is at least one cluster and
    /// at most one per sample, every centroid has the samples' width, every
    /// label names a cluster, and the pass count agrees with the phase.
    pub open spec fn well_formed(self) -> bool {
        &&& 0 < self.nfeatures
        &&& 1 <= self.centroids.len() <= self.labels.len()
        &&& forall|c: int|
            0 <= c < self.centroids.len() ==> (#[trigger] self.centroids[c]).len()
                == self.nfeatures
        &&& forall|i: int|
            0 <= i < self.labels.len() ==> #[trigger] self.labels[i] < self.centroids.len()
        &&& self.iterations <= self.max_iterations
        &&& match self.phase {
            Phase::Assigning => self.iterations < self.max_iterations,
            Phase::Updating => 1 <= self.iterations,
            Phase::Converged => 1 <= self.iterations,
            Phase::IterationLimitReached => self.iterations == self.max_iterations,
        }
    }

    /// The state in which a run starts: the chosen samples are the
    /// centroids, every label is zero, and no pass has been made. With no
    /// pass allowed the run is over at once.
    pub open spec fn initial(
        samples: Seq<Seq<T>>,
        nfeatures: nat,
        picks: Seq<usize>,
        max_iterations: nat,
    ) -> FitModel<T> {
        FitModel {
            max_iterations,
            nfeatures,
            centroids: Seq::new(picks.len(), |j: int| samples[picks[j] as int]),
            labels: Seq::new(samples.len(), |i: int| 0usize),
            iterations: 0,
            phase: if max_iterations == 0 {
                Phase::IterationLimitReached
            } else {
                Phase::Assigning
            },
        }
    }

    /// The event is of the kind that the current phase asks for.
    pub open spec fn expects(self, event: EventModel<T>) -> bool {
        match event {
            EventModel::Distances(_) => self.phase == Phase::Assigning,
            EventModel::Means(_) => self.phase == Phase::Updating,
        }
    }

    /// The event has the shape of the run: a distance for every sample and
    /// centroid, or a mean of the samples' width for every occupied cluster.
    pub open spec fn fits(self, event: EventModel<T>) -> bool {
        match event {
            EventModel::Distances(table) => {
                &&& table.len() == self.labels.len()
                &&& forall|i: int|
                    0 <= i < table.len() ==> (#[trigger] table[i]).len() == self.centroids.len()
            },
            EventModel::Means(means) => {
                &&& means.len() == self.centroids.len()
                &&& forall|c: int|
                    0 <= c < means.len() && is_occupied(self.labels, c as usize) ==> (
                    #[trigger] means[c]).len() == self.nfeatures
            },
        }
    }

    /// The state after an event that is expected and fits.
    ///
    /// Distances end a pass. Where they give the labels that the samples
    /// already have, the run has converged, and the centroids stay as they
    /// are. Otherwise the samples take the new labels and the means are
    /// asked for. Means move the centroids of the occupied clusters; after
    /// that the next pass begins, unless the last allowed pass was made.
    pub open spec fn after(self, event: EventModel<T>) -> FitModel<T> {
        match event {
            EventModel::Distances(table) => {
                let labels = assignment(table);
                if labels == self.labels {
                    FitModel { iterations: self.iterations + 1, phase: Phase::Converged, ..self }
                } else {
                    FitModel {
                        labels,
                        iterations: self.iterations + 1,
                        phase: Phase::Updating,
                        ..self
                    }
                }
            },
            EventModel::Means(means) => FitModel {
                centroids: updated_centroids(self.centroids, means, self.labels),
                phase: if self.iterations == self.max_iterations {
                    Phase::IterationLimitReached
                } else {
                    Phase::Assigning
                },
                ..self
            },
        }
    }
}

/// An upper bound on the events that a run can still take in: two for
/// every pass that may still begin, one where only the means of the current
/// pass are due, none once the run is over.
pub open spec fn work_left<T>(state: FitModel<T>) -> nat {
    match state.phase {
        Phase::Assigning => (2 * (state.max_iterations - state.iterations)) as nat,
        Phase::Updating => (2 * (state.max_iterations - state.iterations) + 1) as nat,
        Phase::Converged => 0,
        Phase::IterationLimitReached => 0,
    }
}

/// Every state of a run has the shape of the state before it: the same
/// settings, as many centroids and labels, all of them valid.
pub proof fn lemma_step_keeps_shape<T>(state: FitModel<T>, event: EventModel<T>)
    requires
        state.well_formed(),
        state.expects(event),
        state.fits(event),
    ensures
        state.after(event).well_formed(),
        state.after(event).max_iterations == state.max_iterations,
        state.after(event).nfeatures == state.nfeatures,
        state.after(event).centroids.len() == state.centroids.len(),
        state.after(event).labels.len() == state.labels.len(),
{
    match event {
        EventModel::Distances(table) => {
            let labels = assignment(table);
            assert forall|i: int| 0 <= i < labels.len() implies #[trigger] labels[i]
                < state.centroids.len() by {
                assert(table[i].len() == state.centroids.len());
                let c = crate::assignment::lemma_nearest_exists(table[i]);
            }
        },
        EventModel::Means(means) => {
            let centroids = updated_centroids(state.centroids, means, state.labels);
            assert forall|c: int| 0 <= c < centroids.len() implies (#[trigger] centroids[c]).len()
                == state.nfeatures by {
                if is_occupied(state.labels, c as usize) {
                    assert(means[c].len() == state.nfeatures);
                } else {
                    assert(state.centroids[c].len() == state.nfeatures);
                }
            }
        },
    }
}

/// Every event that a run takes in uses up work: a run is over after at
/// most two events for each allowed pass, whatever the events hold.
pub proof fn lemma_step_uses_up_work<T>(state: FitModel<T>, event: EventModel<T>)
    requires
        state.well_formed(),
        state.expects(event),
        state.fits(event),
    ensures
        work_left(state.after(event)) < work_left(state),
        work_left(state) <= 2 * state.max_iterations,
        work_left(state) == 0 <==> action_for(state.phase) == Action::Finish,
{
}

/// A run that is allowed no pass is over when it starts: it asks for
/// nothing, takes in no event, and holds the chosen samples as centroids
/// and the label zero for every sample.
pub proof fn lemma_no_pass_allowed<T>(
    samples: Seq<Seq<T>>,
    nfeatures: nat,
    picks: Seq<usize>,
    event: EventModel<T>,
)
    ensures
        ({
            let state = FitModel::initial(samples, nfeatures, picks, 0);
            &&& action_for(state.phase) == Action::Finish
            &&& state.phase == Phase::IterationLimitReached
            &&& !state.expects(event)
            &&& state.iterations == 0
            &&& state.centroids.len() == picks.len()
            &&& forall|j: int|
                0 <= j < picks.len() ==> #[trigger] state.centroids[j] == samples[picks[j] as int]
            &&& state.labels.len() == samples.len()
            &&& forall|i: int| 0 <= i < samples.len() ==> #[trigger] state.labels[i] == 0
        }),
{
}

/// A run in progress: the centroids, the labels, and where the loop stands.
#[derive(Debug)]
pub struct FitState<T> {
    max_iterations: usize,
    nfeatures: usize,
    centroids: Vec<Vec<T>>,
    labels: Vec<usize>,
    iterations: usize,
    phase: Phase,
}

/// What a finished run returns.
#[derive(Debug)]
pub struct FitResult<T> {
    /// The final centroid of every cluster.
    pub centroids: Vec<Vec<T>>,
    /// The final label of every sample.
    pub labels: Vec<usize>,
    /// The number of assignment passes made.
    pub iterations: usize,
    /// Whether the run ended because the labels stopped changing, rather than
    /// because the allowed number of passes was made.
    pub converged: bool,
}

impl<T> View for FitState<T> {
    type V = FitModel<T>;

    closed spec fn view(&self) -> FitModel<T> {
        FitModel {
            max_iterations: self.max_iterations as nat,
            nfeatures: self.nfeatures as nat,
            centroids: vectors(self.centroids@),
            labels: self.labels@,
            iterations: self.iterations as nat,
            phase: self.phase,
        }
    }
}

impl<T> FitState<T> {
    #[verifier::type_invariant]
    spec fn holds_together(&self) -> bool {
        self@.well_formed()
    }

    /// Where the run stands.
    pub fn phase(&self) -> (phase: Phase)
        ensures
            phase == self@.phase,
            self@.well_formed(),
    {
        proof {
            use_type_invariant(self);
        }
        self.phase
    }

    /// What the driver has to do next.
    pub fn pending(&self) -> (action: Action)
        ensures
            action == action_for(self@.phase),
    {
        action_of(self.phase)
    }

    /// The number of assignment passes made so far.
    pub fn iterations(&self) -> (passes: usize)
        ensures
            passes == self@.iterations,
            passes <= self@.max_iterations,
    {
        proof {
            use_type_invariant(self);
        }
        self.iterations
    }

    /// The current centroid of every cluster.
    pub fn centroids(&self) -> (centroids: &Vec<Vec<T>>)
        ensures
            vectors(centroids@) == self@.centroids,
    {
        &self.centroids
    }

    /// The current label of every sample.
    pub fn labels(&self) -> (labels: &Vec<usize>)
        ensures
            labels@ == self@.labels,
    {
        &self.labels
    }

    /// The samples that currently carry the label `cluster`, in dataset
    /// order: the samples to average for that cluster.
    pub fn members(&self, cluster: usize) -> (indices: Vec<usize>)
        ensures
            indices@ == members_of(self@.labels, cluster),
    {
        members(self.labels.as_slice(), cluster)
    }

    /// Takes in the outcome of the action that was asked for and says what
    /// to do next.
    ///
    /// An event of the wrong kind, or any event once the run is over, is
    /// refused as [`FitError::UnexpectedEvent`]; one of the right kind and
    /// the wrong shape as [`FitError::ShapeMismatch`].
    pub fn step(self, event: Event<T>) -> (result: Result<(FitState<T>, Action), FitError>)
        ensures
            self@.well_formed(),
            match result {
                Ok((state, action)) => {
                    &&& self@.expects(event@)
                    &&& self@.fits(event@)
                    &&& state@ == self@.after(event@)
                    &&& state@.well_formed()
                    &&& action == action_for(state@.phase)
                },
                Err(FitError::UnexpectedEvent) => !self@.expects(event@),
                Err(FitError::ShapeMismatch) => self@.expects(event@) && !self@.fits(event@),
                Err(_) => false,
            },
    {
        proof {
            use_type_invariant(&self);
        }
        let FitState { max_iterations, nfeatures, centroids, labels, iterations, phase } = self;
        match event {
            Event::Distances(table) => {
                match phase {
                    Phase::Assigning => {},
                    _ => {
                        return Err(FitError::UnexpectedEvent);
                    },
                }
                proof {
                    use_type_invariant(&table);
                    table.lemma_shape();
                }
                if table.nsamples() != labels.len() {
                    return Err(FitError::ShapeMismatch);
                }
                if table.nfeatures() != centroids.len() {
                    assert(table@[0].len() == table.dim());
                    return Err(FitError::ShapeMismatch);
                }
                let fresh = assign(&table);
                let iterations = iterations + 1;
                if same_labels(fresh.as_slice(), labels.as_slice()) {
                    let state = FitState {
                        max_iterations,
                        nfeatures,
                        centroids,
                        labels,
                        iterations,
                        phase: Phase::Converged,
                    };
                    Ok((state, Action::Finish))
                } else {
                    let state = FitState {
                        max_iterations,
                        nfeatures,
                        centroids,
                        labels: fresh,
                        iterations,
                        phase: Phase::Updating,
                    };
                    Ok((state, Action::AverageClusters))
                }
            },
            Event::Means(means) => {
                match phase {
                    Phase::Updating => {},
                    _ => {
                        return Err(FitError::UnexpectedEvent);
                    },
                }
                let k = centroids.len();
                if means.len() != k {
                    return Err(FitError::ShapeMismatch);
                }
                let flags = occupied(labels.as_slice(), k);
                if !means_fit(&means, &flags, nfeatures) {
                    let ghost c = choose|c: int|
                        0 <= c < k && flags@[c] && (#[trigger] means@[c])@.len() != nfeatures;
                    assert(vectors(means@)[c].len() != nfeatures);
                    return Err(FitError::ShapeMismatch);
                }
                assert forall|b: int|
                    0 <= b < k && is_occupied(labels@, b as usize) implies (#[trigger] vectors(
                    means@,
                )[b]).len() == nfeatures by {
                    assert(means@[b]@.len() == nfeatures);
                }
                let ghost previous = centroids@;
                let centroids = merge(centroids, means, &flags);
                assert(vectors(centroids@) =~= updated_centroids(
                    vectors(previous),
                    vectors(means@),
                    labels@,
                ));
                let phase = if iterations == max_iterations {
                    Phase::IterationLimitReached
                } else {
                    Phase::Assigning
                };
                let state = FitState {
                    max_iterations,
                    nfeatures,
                    centroids,
                    labels,
                    iterations,
                    phase,
                };
                Ok((state, action_of(phase)))
            },
        }
    }

    /// The result of a run that is over; `None` while work is still due.
    pub fn into_result(self) -> (result: Option<FitResult<T>>)
        ensures
            self@.well_formed(),
            result is Some <==> action_for(self@.phase) == Action::Finish,
            result matches Some(outcome) ==> {
                &&& vectors(outcome.centroids@) == self@.centroids
                &&& outcome.labels@ == self@.labels
                &&& outcome.iterations == self@.iterations
                &&& outcome.converged == (self@.phase == Phase::Converged)
            },
    {
        proof {
            use_type_invariant(&self);
        }
        let FitState { max_iterations: _, nfeatures: _, centroids, labels, iterations, phase } =
            self;
        match phase {
            Phase::Converged => Some(FitResult { centroids, labels, iterations, converged: true }),
            Phase::IterationLimitReached => Some(
                FitResult { centroids, labels, iterations, converged: false },
            ),
            _ => None,
        }
    }
}

impl Kmeans {
    /// Starts a run on `dataset` with centroids drawn by `rng`: as many
    /// different samples, chosen at random, as there are clusters.
    ///
    /// Fails before anything is drawn when no cluster is asked for or more
    /// clusters than the dataset has samples. Which samples are drawn is up
    /// to the generator; whichever they are, the run starts as
    /// [`Kmeans::start_with`] starts it from them.
    pub fn start<T: Copy>(&self, dataset: &Dataset<T>, rng: &mut StdRng) -> (result: Result<
        (FitState<T>, Action),
        FitError,
    >)
        ensures
            result is Err <==> self.clusters() == 0 || self.clusters() > dataset@.len(),
            result matches Err(error) ==> error == FitError::InvalidClusterCount,
            result matches Ok((state, action)) ==> {
                &&& exists|picks: Seq<usize>|
                    is_selection(picks, self.clusters(), dataset@.len()) && state@
                        == FitModel::initial(dataset@, dataset.dim(), picks, self.budget())
                &&& state@.well_formed()
                &&& action == action_for(state@.phase)
            },
    {
        let k = self.n_clusters();
        let n = dataset.nsamples();
        if k == 0 || k > n {
            return Err(FitError::InvalidClusterCount);
        }
        let picks = choose_indices(rng, n, k);
        let state = begin(dataset, picks.as_slice(), self.max_iterations());
        let action = action_of(state.phase());
        Ok((state, action))
    }

    /// Starts a run on `dataset` from the samples at the positions `picks`
    /// as centroids, in that order.
    ///
    /// Fails when no cluster is asked for or more clusters than the dataset
    /// has samples, and otherwise when `picks` does not name as many
    /// different samples as there are clusters.
    pub fn start_with<T: Copy>(&self, dataset: &Dataset<T>, picks: &[usize]) -> (result: Result<
        (FitState<T>, Action),
        FitError,
    >)
        ensures
            match result {
                Ok((state, action)) => {
                    &&& 1 <= self.clusters() <= dataset@.len()
                    &&& is_selection(picks@, self.clusters(), dataset@.len())
                    &&& state@ == FitModel::initial(
                        dataset@,
                        dataset.dim(),
                        picks@,
                        self.budget(),
                    )
                    &&& state@.well_formed()
                    &&& action == action_for(state@.phase)
                },
                Err(FitError::InvalidClusterCount) => self.clusters() == 0 || self.clusters()
                    > dataset@.len(),
                Err(FitError::InvalidSelection) => {
                    &&& 1 <= self.clusters() <= dataset@.len()
                    &&& !is_selection(picks@, self.clusters(), dataset@.len())
                },
                Err(_) => false,
            },
    {
        let k = self.n_clusters();
        let n = dataset.nsamples();
        if k == 0 || k > n {
            return Err(FitError::InvalidClusterCount);
        }
        if !check_selection(picks, k, n) {
            return Err(FitError::InvalidSelection);
        }
        let state = begin(dataset, picks, self.max_iterations());
        let action = action_of(state.phase());
        Ok((state, action))
    }
}

/// Builds the state in which a run starts.
fn begin<T: Copy>(dataset: &Dataset<T>, picks: &[usize], max_iterations: usize) -> (state: FitState<
    T,
>)
    requires
        1 <= picks@.len() <= dataset@.len(),
        is_selection(picks@, picks@.len(), dataset@.len()),
    ensures
        state@ == FitModel::initial(dataset@, dataset.dim(), picks@, max_iterations as nat),
        state@.well_formed(),
{
    proof {
        use_type_invariant(dataset);
        dataset.lemma_shape();
    }
    let n = dataset.nsamples();
    let k = picks.len();
    let mut centroids: Vec<Vec<T>> = Vec::with_capacity(k);
    let mut j: usize = 0;
    while j < k
        invariant
            dataset.well_formed(),
            k == picks@.len(),
            j <= k,
            centroids@.len() == j,
            forall|r: int| 0 <= r < k ==> #[trigger] picks@[r] < dataset@.len(),
            forall|r: int| 0 <= r < j ==> (#[trigger] centroids@[r])@ == dataset@[picks@[r] as int],
        decreases k - j,
    {
        let sample = dataset.get(picks[j]).unwrap();
        centroids.push(vstd::slice::slice_to_vec(sample));
        j += 1;
    }
    let mut labels: Vec<usize> = Vec::with_capacity(n);
    let mut i: usize = 0;
    while i < n
        invariant
            i <= n,
            labels@.len() == i,
            forall|r: int| 0 <= r < i ==> #[trigger] labels@[r] == 0,
        decreases n - i,
    {
        labels.push(0);
        i += 1;
    }
    let phase = if max_iterations == 0 {
        Phase::IterationLimitReached
    } else {
        Phase::Assigning
    };
    let ghost model = FitModel::initial(dataset@, dataset.dim(), picks@, max_iterations as nat);
    assert(vectors(centroids@) =~= model.centroids);
    assert(labels@ =~= model.labels);
    assert forall|c: int| 0 <= c < model.centroids.len() implies (#[trigger] model.centroids[c]).len()
        == dataset.dim() by {
        assert(picks@[c] < dataset@.len());
    }
    FitState {
        max_iterations,
        nfeatures: dataset.nfeatures(),
        centroids,
        labels,
        iterations: 0,
        phase,
    }
}

/// Tells whether every flagged entry of `means` has `nfeatures` values.
fn means_fit<T>(means: &Vec<Vec<T>>, flags: &Vec<bool>, nfeatures: usize) -> (fit: bool)
    requires
        means@.len() == flags@.len(),
    ensures
        fit <==> forall|c: int|
            0 <= c < means@.len() && flags@[c] ==> (#[trigger] means@[c])@.len() == nfeatures,
{
    let k = means.len();
    let mut c: usize = 0;
    while c < k
        invariant
            c <= k,
            k == means@.len(),
            k == flags@.len(),
            forall|b: int| 0 <= b < c && flags@[b] ==> (#[trigger] means@[b])@.len() == nfeatures,
        decreases k - c,
    {
        if flags[c] && means[c].len() != nfeatures {
            return false;
        }
        c += 1;
    }
    true
}

/// Computes [`action_for`].
pub fn action_of(phase: Phase) -> (action: Action)
    ensures
        action == action_for(phase),
{
    match phase {
        Phase::Assigning => Action::MeasureDistances,
        Phase::Updating => Action::AverageClusters,
        Phase::Converged => Action::Finish,
        Phase::IterationLimitReached => Action::Finish,
    }
}

/// Tells whether two label vectors are the same.
pub fn same_labels(left: &[usize], right: &[usize]) -> (same: bool)
    ensures
        same == (left@ == right@),
{
    let n = left.len();
    if right.len() != n {
        return false;
    }
    let mut i: usize = 0;
    while i < n
        invariant
            n == left@.len(),
            n == right@.len(),
            i <= n,
            forall|r: int| 0 <= r < i ==> left@[r] == right@[r],
        decreases n - i,
    {
        if left[i] != right[i] {
            return false;
        }
        i += 1;
    }
    assert(left@ =~= right@);
    true
}

} // verus!
