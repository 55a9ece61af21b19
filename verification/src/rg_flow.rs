//! Renormalization-group flows over any parameter space: repeated
//! application of a step, and the search for a fixed point of it.
//!
//! A flow is described by four operations that its implementation supplies
//! (`RGFlow`). Everything built on them (`RGFlowEngine`) is stated over the
//! trajectory of a point, the sequence of parameters that repeated steps
//! produce, and is the same for every flow.
use crate::category::{Category, CategoryError};
use crate::functor::{is_pure_mapping, Functor};
use std::fmt::Debug;
use std::marker::PhantomData;
use vstd::prelude::*;

verus! {

/// Failures of operations on a flow.
#[derive(Debug)]
pub enum RGFlowError {
    /// A step of the flow could not be carried out.
    IterationError(String),
    /// The search used up its rounds without two successive points coming
    /// within tolerance of each other. This is the expected outcome for a
    /// flow without an attracting fixed point near the start.
    FixedPointNotFound,
    /// A parameter lies outside the range in which the flow is defined.
    ParameterOutOfRange(String),
    /// An operation on a category or a functor failed underneath.
    CategoryError(CategoryError),
    /// The parameters belong to another spatial dimension than the flow.
    DimensionMismatch { expected: usize, actual: usize },
}

impl From<CategoryError> for RGFlowError {
    fn from(error: CategoryError) -> (wrapped: RGFlowError) {
        RGFlowError::CategoryError(error)
    }
}

impl vstd::std_specs::convert::FromSpecImpl<CategoryError> for RGFlowError {
    open spec fn obeys_from_spec() -> bool {
        true
    }

    open spec fn from_spec(error: CategoryError) -> RGFlowError {
        RGFlowError::CategoryError(error)
    }
}

/// A point of a finite-dimensional parameter space.
///
/// Points are plain values. Two points are compared by their distance only,
/// and the scalars in which distances are measured are ordered by
/// `is_below`. The library never looks inside a scalar or a vector. Every
/// operation is a function of its arguments alone: an implementation states
/// in the `spec_*` functions what its operations return, and without a
/// statement nothing is known of a result.
pub trait ParameterSpace: Clone + Debug {
    /// The numbers in which coordinates and distances are measured.
    type Scalar: Clone + Debug;

    /// A point written out as a vector of coordinates.
    type Vector: Clone + Debug;

    /// The number of coordinates of this point.
    open spec fn spec_dimension(&self) -> usize {
        arbitrary()
    }

    /// The spatial dimension of the system this point describes.
    open spec fn spec_spatial_dimension(&self) -> usize {
        arbitrary()
    }

    /// The coordinates of this point.
    open spec fn spec_as_vector(&self) -> Self::Vector {
        arbitrary()
    }

    /// The point with the given coordinates in a system of spatial dimension
    /// `dim`, or the reason why there is none.
    open spec fn spec_from_vector(vec: Self::Vector, dim: usize) -> Result<Self, RGFlowError> {
        arbitrary()
    }

    /// The distance from this point to `other`.
    open spec fn spec_distance(&self, other: &Self) -> Self::Scalar {
        arbitrary()
    }

    /// `distance` is strictly less than `bound`.
    open spec fn spec_is_below(distance: Self::Scalar, bound: Self::Scalar) -> bool {
        arbitrary()
    }

    /// Returns the number of coordinates of this point.
    fn dimension(&self) -> (n: usize)
        ensures
            n == self.spec_dimension(),
    ;

    /// Returns the spatial dimension of the system this point describes.
    fn spatial_dimension(&self) -> (n: usize)
        ensures
            n == self.spec_spatial_dimension(),
    ;

    /// Returns the coordinates of this point.
    fn as_vector(&self) -> (coordinates: Self::Vector)
        ensures
            coordinates == self.spec_as_vector(),
    ;

    /// Builds the point with the given coordinates in a system of spatial
    /// dimension `dim`, or says why there is no such point.
    fn from_vector(vec: Self::Vector, dim: usize) -> (point: Result<Self, RGFlowError>)
        ensures
            point == Self::spec_from_vector(vec, dim),
    ;

    /// Returns the distance from this point to `other`.
    fn distance(&self, other: &Self) -> (d: Self::Scalar)
        ensures
            d == self.spec_distance(other),
    ;

    /// Tells whether `distance` is strictly less than `bound`.
    fn is_below(distance: &Self::Scalar, bound: &Self::Scalar) -> (below: bool)
        ensures
            below == Self::spec_is_below(*distance, *bound),
    ;

    /// Tells whether this point describes a system of spatial dimension `dim`.
    fn is_compatible_with_dimension(&self, dim: usize) -> (compatible: bool)
        ensures
            compatible == (self.spec_spatial_dimension() == dim),
    {
        self.spatial_dimension() == dim
    }
}

/// A fixed point of a flow, with what an analysis found out about it.
#[derive(Clone, Debug)]
pub struct RGFixedPoint<P: ParameterSpace> {
    /// The parameters at the fixed point.
    pub parameters: P,
    /// The critical exponents at the fixed point.
    pub critical_exponents: Vec<P::Scalar>,
    /// One of "stable", "unstable" and "saddle".
    pub classification: String,
    /// The universality class, where one was recognised.
    pub universality_class: Option<String>,
    /// The spatial dimension of the flow.
    pub dimension: usize,
}

/// What a renormalization-group flow has to supply.
///
/// Every operation is a function of its arguments alone: the `spec_*`
/// functions say what the operations return, and an implementation states
/// it there. The search for a fixed point is only meaningful under this
/// condition.
pub trait RGFlow<P: ParameterSpace> {
    /// The spatial dimension this flow operates in.
    open spec fn spec_spatial_dimension(&self) -> usize {
        arbitrary()
    }

    /// The result of one transformation of `params`.
    open spec fn spec_do_step(&self, params: P) -> Result<P, RGFlowError> {
        arbitrary()
    }

    /// `outcome` is an analysis of `fixed_point`.
    open spec fn spec_analysis(
        &self,
        fixed_point: P,
        outcome: Result<RGFixedPoint<P>, RGFlowError>,
    ) -> bool {
        arbitrary()
    }

    /// The local rate of change of the flow at `params`.
    open spec fn spec_beta_function(&self, params: P) -> Result<P::Vector, RGFlowError> {
        arbitrary()
    }

    /// Returns the spatial dimension this flow operates in.
    fn spatial_dimension(&self) -> (dim: usize)
        ensures
            dim == self.spec_spatial_dimension(),
    ;

    /// Carries out one transformation, without looking at the dimension.
    fn do_step(&self, params: &P) -> (next: Result<P, RGFlowError>)
        ensures
            next == self.spec_do_step(*params),
    ;

    /// Determines the properties of a fixed point.
    fn analyze_fixed_point(&self, fixed_point: &P) -> (outcome: Result<
        RGFixedPoint<P>,
        RGFlowError,
    >)
        ensures
            self.spec_analysis(*fixed_point, outcome),
    ;

    /// Returns the local rate of change of the flow at `params`.
    fn beta_function(&self, params: &P) -> (beta: Result<P::Vector, RGFlowError>)
        ensures
            beta == self.spec_beta_function(*params),
    ;
}

/// `params` describes a system of the spatial dimension of `flow`.
pub open spec fn fits<P: ParameterSpace, F: RGFlow<P>>(flow: &F, params: P) -> bool {
    params.spec_spatial_dimension() == flow.spec_spatial_dimension()
}

/// The error for parameters that do not fit the flow.
pub open spec fn dimension_mismatch<P: ParameterSpace, F: RGFlow<P>>(
    flow: &F,
    params: P,
) -> RGFlowError {
    RGFlowError::DimensionMismatch {
        expected: flow.spec_spatial_dimension(),
        actual: params.spec_spatial_dimension(),
    }
}

/// The point reached from `start` after `n` transformations, or the error
/// of the first transformation that failed.
pub open spec fn trajectory<P: ParameterSpace, F: RGFlow<P>>(flow: &F, start: P, n: nat) -> Result<
    P,
    RGFlowError,
>
    decreases n,
{
    if n == 0 {
        Ok(start)
    } else {
        match trajectory(flow, start, (n - 1) as nat) {
            Ok(reached) => flow.spec_do_step(reached),
            Err(error) => Err(error),
        }
    }
}

/// The transformation of `from` succeeds and lands within `tolerance` of `from`.
pub open spec fn settles<P: ParameterSpace, F: RGFlow<P>>(
    flow: &F,
    from: P,
    tolerance: P::Scalar,
) -> bool {
    match flow.spec_do_step(from) {
        Ok(next) => P::spec_is_below(next.spec_distance(&from), tolerance),
        Err(_) => false,
    }
}

/// How a search ends.
pub enum SearchOutcome<P> {
    /// A transformation moved the point by less than the tolerance. The
    /// point after that transformation is kept.
    Converged(P),
    /// No transformation within the allowed rounds did so.
    NotFound,
    /// A transformation failed.
    Failed(RGFlowError),
}

/// The end of a search of at most `rounds` transformations from `current`:
/// each round transforms the current point, stops if the result lies within
/// `tolerance` of the point before, and goes on from the result otherwise.
pub open spec fn search<P: ParameterSpace, F: RGFlow<P>>(
    flow: &F,
    current: P,
    rounds: nat,
    tolerance: P::Scalar,
) -> SearchOutcome<P>
    decreases rounds,
{
    if rounds == 0 {
        SearchOutcome::NotFound
    } else {
        match flow.spec_do_step(current) {
            Err(error) => SearchOutcome::Failed(error),
            Ok(next) => if P::spec_is_below(next.spec_distance(&current), tolerance) {
                SearchOutcome::Converged(next)
            } else {
                search(flow, next, (rounds - 1) as nat, tolerance)
            },
        }
    }
}

/// Round `k` (counted from zero) is the first in which the transformation
/// moves the point by less than `tolerance`, all rounds before it having
/// succeeded.
pub open spec fn first_settling_round<P: ParameterSpace, F: RGFlow<P>>(
    flow: &F,
    start: P,
    tolerance: P::Scalar,
    k: nat,
) -> bool {
    &&& match trajectory(flow, start, k) {
        Ok(reached) => settles(flow, reached, tolerance),
        Err(_) => false,
    }
    &&& forall|j: nat|
        j < k ==> match #[trigger] trajectory(flow, start, j) {
            Ok(reached) => flow.spec_do_step(reached) is Ok && !settles(flow, reached, tolerance),
            Err(_) => false,
        }
}

/// Zero transformations leave every point where it is.
pub proof fn lemma_zero_steps<P: ParameterSpace, F: RGFlow<P>>(flow: &F, start: P)
    ensures
        trajectory(flow, start, 0) == Ok::<P, RGFlowError>(start),
{
}

/// One transformation is what `do_step` does.
pub proof fn lemma_one_step<P: ParameterSpace, F: RGFlow<P>>(flow: &F, start: P)
    ensures
        trajectory(flow, start, 1) == flow.spec_do_step(start),
{
    reveal_with_fuel(trajectory, 2);
}

/// Once a transformation has failed, the trajectory stays at its error.
pub proof fn lemma_error_persists<P: ParameterSpace, F: RGFlow<P>>(
    flow: &F,
    start: P,
    failed_at: nat,
    later: nat,
)
    requires
        failed_at <= later,
        trajectory(flow, start, failed_at) is Err,
    ensures
        trajectory(flow, start, later) == trajectory(flow, start, failed_at),
    decreases later,
{
    if failed_at < later {
        lemma_error_persists(flow, start, failed_at, (later - 1) as nat);
    }
}

/// Transforming `m + n` times is transforming `m` times and then `n` times.
pub proof fn lemma_steps_add<P: ParameterSpace, F: RGFlow<P>>(flow: &F, start: P, m: nat, n: nat)
    ensures
        trajectory(flow, start, m + n) == match trajectory(flow, start, m) {
            Ok(reached) => trajectory(flow, reached, n),
            Err(error) => Err(error),
        },
    decreases n,
{
    if n == 0 {
        assert(m + n == m);
    } else {
        lemma_steps_add(flow, start, m, (n - 1) as nat);
        assert((m + n - 1) as nat == m + (n - 1) as nat);
    }
}

/// A search reports `NotFound` exactly when every one of its rounds
/// transforms the point successfully and moves it by no less than the
/// tolerance. A round that moves the point by less never goes unnoticed,
/// and a search that reports `NotFound` has seen no such round.
pub proof fn lemma_search_not_found<P: ParameterSpace, F: RGFlow<P>>(
    flow: &F,
    start: P,
    rounds: nat,
    tolerance: P::Scalar,
)
    ensures
        search(flow, start, rounds, tolerance) is NotFound <==> forall|k: nat|
            k < rounds ==> match #[trigger] trajectory(flow, start, k) {
                Ok(reached) => flow.spec_do_step(reached) is Ok && !settles(
                    flow,
                    reached,
                    tolerance,
                ),
                Err(_) => false,
            },
    decreases rounds,
{
    let all_move = |from: P, n: nat|
        forall|k: nat|
            k < n ==> match #[trigger] trajectory(flow, from, k) {
                Ok(reached) => flow.spec_do_step(reached) is Ok && !settles(
                    flow,
                    reached,
                    tolerance,
                ),
                Err(_) => false,
            };
    if rounds > 0 {
        assert(trajectory(flow, start, 0) == Ok::<P, RGFlowError>(start));
        match flow.spec_do_step(start) {
            Err(_) => {
                assert(!all_move(start, rounds));
            },
            Ok(next) => {
                if P::spec_is_below(next.spec_distance(&start), tolerance) {
                    assert(settles(flow, start, tolerance));
                    assert(!all_move(start, rounds));
                } else {
                    lemma_search_not_found(flow, next, (rounds - 1) as nat, tolerance);
                    assert forall|k: nat| k < rounds implies trajectory(flow, start, k) == (if k
                        == 0 {
                        Ok::<P, RGFlowError>(start)
                    } else {
                        trajectory(flow, next, (k - 1) as nat)
                    }) by {
                        if k > 0 {
                            lemma_steps_add(flow, start, 1, (k - 1) as nat);
                            lemma_one_step(flow, start);
                            assert(1 + (k - 1) as nat == k);
                        }
                    }
                    if all_move(next, (rounds - 1) as nat) {
                        assert forall|k: nat| k < rounds implies match #[trigger] trajectory(
                            flow,
                            start,
                            k,
                        ) {
                            Ok(reached) => flow.spec_do_step(reached) is Ok && !settles(
                                flow,
                                reached,
                                tolerance,
                            ),
                            Err(_) => false,
                        } by {
                            if k > 0 {
                                assert(trajectory(flow, start, k) == trajectory(
                                    flow,
                                    next,
                                    (k - 1) as nat,
                                ));
                            }
                        }
                    }
                    if all_move(start, rounds) {
                        assert forall|k: nat| k < rounds - 1 implies match #[trigger] trajectory(
                            flow,
                            next,
                            k,
                        ) {
                            Ok(reached) => flow.spec_do_step(reached) is Ok && !settles(
                                flow,
                                reached,
                                tolerance,
                            ),
                            Err(_) => false,
                        } by {
                            assert(trajectory(flow, start, k + 1) == trajectory(flow, next, k));
                        }
                    }
                }
            },
        }
    }
}

/// A search that converges returns the point after the first round that
/// moved the point by less than the tolerance: that round is within the
/// allowed number, every earlier round succeeded and moved the point by no
/// less than the tolerance, and the kept point is the trajectory's next.
pub proof fn lemma_search_converged<P: ParameterSpace, F: RGFlow<P>>(
    flow: &F,
    start: P,
    rounds: nat,
    tolerance: P::Scalar,
)
    requires
        search(flow, start, rounds, tolerance) is Converged,
    ensures
        exists|k: nat|
            k < rounds && first_settling_round(flow, start, tolerance, k) && trajectory(
                flow,
                start,
                k + 1,
            ) == Ok::<P, RGFlowError>(search(flow, start, rounds, tolerance)->Converged_0),
    decreases rounds,
{
    let found = search(flow, start, rounds, tolerance)->Converged_0;
    assert(trajectory(flow, start, 0) == Ok::<P, RGFlowError>(start));
    let next = flow.spec_do_step(start)->Ok_0;
    lemma_one_step(flow, start);
    if P::spec_is_below(next.spec_distance(&start), tolerance) {
        assert(first_settling_round(flow, start, tolerance, 0));
        assert(trajectory(flow, start, 1) == Ok::<P, RGFlowError>(found));
    } else {
        lemma_search_converged(flow, next, (rounds - 1) as nat, tolerance);
        let k = choose|k: nat|
            k < rounds - 1 && first_settling_round(flow, next, tolerance, k) && trajectory(
                flow,
                next,
                k + 1,
            ) == Ok::<P, RGFlowError>(found);
        assert forall|j: nat| j <= k + 2 implies trajectory(flow, start, j) == (if j == 0 {
            Ok::<P, RGFlowError>(start)
        } else {
            trajectory(flow, next, (j - 1) as nat)
        }) by {
            if j > 0 {
                lemma_steps_add(flow, start, 1, (j - 1) as nat);
                assert(1 + (j - 1) as nat == j);
            }
        }
        assert(trajectory(flow, start, k + 1) == trajectory(flow, next, k));
        assert(trajectory(flow, start, k + 2) == trajectory(flow, next, k + 1));
        assert forall|j: nat| j < k + 1 implies match #[trigger] trajectory(flow, start, j) {
            Ok(reached) => flow.spec_do_step(reached) is Ok && !settles(flow, reached, tolerance),
            Err(_) => false,
        } by {
            if j > 0 {
                assert(trajectory(flow, start, j) == trajectory(flow, next, (j - 1) as nat));
            }
        }
        assert(first_settling_round(flow, start, tolerance, k + 1));
    }
}

/// What every flow can do, given the four operations of [`RGFlow`].
pub trait RGFlowEngine<P: ParameterSpace>: RGFlow<P> + Sized {
    /// Carries out one transformation of `params`.
    ///
    /// Fails with `DimensionMismatch` if `params` does not fit the spatial
    /// dimension of the flow, and returns what `do_step` returns otherwise.
    fn step(&self, params: &P) -> (next: Result<P, RGFlowError>)
        ensures
            next == (if fits(self, *params) {
                self.spec_do_step(*params)
            } else {
                Err(dimension_mismatch(self, *params))
            }),
    {
        let expected = self.spatial_dimension();
        if !params.is_compatible_with_dimension(expected) {
            return Err(
                RGFlowError::DimensionMismatch { expected, actual: params.spatial_dimension() },
            );
        }
        self.do_step(params)
    }

    /// Carries out `steps` transformations in a row, starting from `initial`.
    ///
    /// Fails with `DimensionMismatch` if `initial` does not fit the spatial
    /// dimension of the flow; only `initial` is looked at. Otherwise the
    /// result is the point of the trajectory after `steps` transformations,
    /// or the error of the first transformation that failed. With zero
    /// steps the result is a copy of `initial`, made by `clone`.
    fn iterate(&self, initial: &P, steps: usize) -> (reached: Result<P, RGFlowError>)
        ensures
            !fits(self, *initial) ==> reached == Err::<P, RGFlowError>(
                dimension_mismatch(self, *initial),
            ),
            fits(self, *initial) && steps > 0 ==> reached == trajectory(
                self,
                *initial,
                steps as nat,
            ),
            fits(self, *initial) && steps == 0 ==> reached is Ok && cloned(
                *initial,
                reached->Ok_0,
            ),
    {
        let expected = self.spatial_dimension();
        if !initial.is_compatible_with_dimension(expected) {
            return Err(
                RGFlowError::DimensionMismatch { expected, actual: initial.spatial_dimension() },
            );
        }
        if steps == 0 {
            return Ok(initial.clone());
        }
        proof {
            lemma_one_step(self, *initial);
        }
        let mut current = match self.do_step(initial) {
            Ok(next) => next,
            Err(error) => {
                proof {
                    lemma_error_persists(self, *initial, 1, steps as nat);
                }
                return Err(error);
            },
        };
        let mut done: usize = 1;
        while done < steps
            invariant
                fits(self, *initial),
                1 <= done <= steps,
                trajectory(self, *initial, done as nat) == Ok::<P, RGFlowError>(current),
            decreases steps - done,
        {
            current = match self.do_step(&current) {
                Ok(next) => next,
                Err(error) => {
                    proof {
                        lemma_error_persists(self, *initial, (done + 1) as nat, steps as nat);
                    }
                    return Err(error);
                },
            };
            done += 1;
        }
        Ok(current)
    }

    /// Searches for a fixed point of the flow, starting from `initial`.
    ///
    /// Fails with `DimensionMismatch` if `initial` does not fit the spatial
    /// dimension of the flow. Otherwise up to `max_iterations` rounds are
    /// run. Each round transforms the current point. If the result lies
    /// within `tolerance` of the point before, the search stops and returns
    /// the analysis of the result; otherwise it goes on from the result. A
    /// transformation that fails ends the search with its error. When the
    /// rounds are used up the search fails with `FixedPointNotFound`.
    fn find_fixed_point(&self, initial: &P, max_iterations: usize, tolerance: P::Scalar) -> (found:
        Result<RGFixedPoint<P>, RGFlowError>)
        ensures
            !fits(self, *initial) ==> found == Err::<RGFixedPoint<P>, RGFlowError>(
                dimension_mismatch(self, *initial),
            ),
            fits(self, *initial) ==> match search(
                self,
                *initial,
                max_iterations as nat,
                tolerance,
            ) {
                SearchOutcome::Converged(point) => self.spec_analysis(point, found),
                SearchOutcome::NotFound => found matches Err(RGFlowError::FixedPointNotFound),
                SearchOutcome::Failed(error) => found == Err::<RGFixedPoint<P>, RGFlowError>(error),
            },
    {
        let expected = self.spatial_dimension();
        if !initial.is_compatible_with_dimension(expected) {
            return Err(
                RGFlowError::DimensionMismatch { expected, actual: initial.spatial_dimension() },
            );
        }
        if max_iterations == 0 {
            return Err(RGFlowError::FixedPointNotFound);
        }
        let mut current = match self.do_step(initial) {
            Ok(next) => next,
            Err(error) => {
                return Err(error);
            },
        };
        let moved = current.distance(initial);
        if P::is_below(&moved, &tolerance) {
            return self.analyze_fixed_point(&current);
        }
        let mut round: usize = 1;
        while round < max_iterations
            invariant
                fits(self, *initial),
                1 <= round <= max_iterations,
                search(self, *initial, max_iterations as nat, tolerance) == search(
                    self,
                    current,
                    (max_iterations - round) as nat,
                    tolerance,
                ),
            decreases max_iterations - round,
        {
            let next = match self.do_step(&current) {
                Ok(next) => next,
                Err(error) => {
                    return Err(error);
                },
            };
            let moved = next.distance(&current);
            if P::is_below(&moved, &tolerance) {
                return self.analyze_fixed_point(&next);
            }
            current = next;
            round += 1;
        }
        Err(RGFlowError::FixedPointNotFound)
    }
}

impl<P: ParameterSpace, F: RGFlow<P>> RGFlowEngine<P> for F {

}

/// A flow given by two functions: the transformation and the beta function.
///
/// Both functions must accept every argument and must return the same value
/// whenever they are given the same argument. `new` asks for this, and the
/// flow relies on it from then on.
#[verifier::reject_recursive_types(P)]
#[verifier::reject_recursive_types(C)]
#[verifier::reject_recursive_types(F)]
pub struct ConcreteRGFlow<P, C, F, StepFn, BetaFn> where
    P: ParameterSpace,
    C: Category,
    F: Functor,
    StepFn: Fn(&P) -> Result<P, RGFlowError>,
    BetaFn: Fn(&P) -> Result<P::Vector, RGFlowError>,
 {
    name: String,
    category: C,
    functor: F,
    step_fn: StepFn,
    beta_fn: BetaFn,
    dimension: usize,
    _phantom: PhantomData<P>,
}

impl<P, C, F, StepFn, BetaFn> ConcreteRGFlow<P, C, F, StepFn, BetaFn> where
    P: ParameterSpace,
    C: Category,
    F: Functor,
    StepFn: Fn(&P) -> Result<P, RGFlowError>,
    BetaFn: Fn(&P) -> Result<P::Vector, RGFlowError>,
 {
    #[verifier::type_invariant]
    spec fn functions_are_pure(self) -> bool {
        &&& is_pure_mapping::<P, Result<P, RGFlowError>, StepFn>(self.step_fn)
        &&& is_pure_mapping::<P, Result<P::Vector, RGFlowError>, BetaFn>(self.beta_fn)
    }

    /// The category in which the flow operates.
    pub closed spec fn spec_category(&self) -> C {
        self.category
    }

    /// The functor that stands for the transformation.
    pub closed spec fn spec_functor(&self) -> F {
        self.functor
    }

    /// The function that carries out a transformation.
    pub closed spec fn spec_step_fn(&self) -> StepFn {
        self.step_fn
    }

    /// The beta function.
    pub closed spec fn spec_beta_fn(&self) -> BetaFn {
        self.beta_fn
    }

    /// The spatial dimension the flow was built for.
    pub closed spec fn spec_dimension(&self) -> usize {
        self.dimension
    }

    /// Builds the flow that transforms with `step_fn`, in spatial dimension
    /// `dimension`.
    pub fn new(
        name: String,
        category: C,
        functor: F,
        step_fn: StepFn,
        beta_fn: BetaFn,
        dimension: usize,
    ) -> (flow: Self)
        requires
            is_pure_mapping::<P, Result<P, RGFlowError>, StepFn>(step_fn),
            is_pure_mapping::<P, Result<P::Vector, RGFlowError>, BetaFn>(beta_fn),
        ensures
            flow.spec_category() == category,
            flow.spec_functor() == functor,
            flow.spec_step_fn() == step_fn,
            flow.spec_beta_fn() == beta_fn,
            flow.spec_dimension() == dimension,
    {
        ConcreteRGFlow { name, category, functor, step_fn, beta_fn, dimension, _phantom: PhantomData }
    }

    /// Returns the category in which the flow operates.
    pub fn category(&self) -> (category: &C)
        ensures
            *category == self.spec_category(),
    {
        &self.category
    }

    /// Returns the functor that stands for the transformation.
    pub fn functor(&self) -> (functor: &F)
        ensures
            *functor == self.spec_functor(),
    {
        &self.functor
    }
}

impl<P, C, F, StepFn, BetaFn> RGFlow<P> for ConcreteRGFlow<P, C, F, StepFn, BetaFn> where
    P: ParameterSpace,
    C: Category,
    F: Functor,
    StepFn: Fn(&P) -> Result<P, RGFlowError>,
    BetaFn: Fn(&P) -> Result<P::Vector, RGFlowError>,
 {
    open spec fn spec_spatial_dimension(&self) -> usize {
        self.spec_dimension()
    }

    /// What the step function returns for `params`.
    open spec fn spec_do_step(&self, params: P) -> Result<P, RGFlowError> {
        choose|next: Result<P, RGFlowError>| call_ensures(self.spec_step_fn(), (&params,), next)
    }

    /// A failed beta function fails the analysis with the same error.
    /// Otherwise the analysis holds a copy of the fixed point, no critical
    /// exponents, and the placeholder labels "stable" and "Ising".
    open spec fn spec_analysis(
        &self,
        fixed_point: P,
        outcome: Result<RGFixedPoint<P>, RGFlowError>,
    ) -> bool {
        match self.spec_beta_function(fixed_point) {
            Err(error) => outcome == Err::<RGFixedPoint<P>, RGFlowError>(error),
            Ok(_) => {
                &&& outcome is Ok
                &&& cloned(fixed_point, outcome->Ok_0.parameters)
                &&& outcome->Ok_0.critical_exponents@.len() == 0
                &&& outcome->Ok_0.classification@ == "stable"@
                &&& outcome->Ok_0.universality_class is Some
                &&& outcome->Ok_0.universality_class->Some_0@ == "Ising"@
                &&& outcome->Ok_0.dimension == self.spec_dimension()
            },
        }
    }

    /// `DimensionMismatch` for parameters of another spatial dimension,
    /// and what the beta function returns otherwise.
    open spec fn spec_beta_function(&self, params: P) -> Result<P::Vector, RGFlowError> {
        if params.spec_spatial_dimension() == self.spec_dimension() {
            choose|beta: Result<P::Vector, RGFlowError>|
                call_ensures(self.spec_beta_fn(), (&params,), beta)
        } else {
            Err(
                RGFlowError::DimensionMismatch {
                    expected: self.spec_dimension(),
                    actual: params.spec_spatial_dimension(),
                },
            )
        }
    }

    fn spatial_dimension(&self) -> (dim: usize) {
        self.dimension
    }

    fn do_step(&self, params: &P) -> (next: Result<P, RGFlowError>) {
        proof {
            use_type_invariant(self);
        }
        let next = (self.step_fn)(params);
        proof {
            let chosen = self.spec_do_step(*params);
            assert(call_ensures(self.step_fn, (params,), next));
            assert(call_ensures(self.step_fn, (params,), chosen));
        }
        next
    }

    /// Placeholder analysis. The beta function is evaluated at the fixed
    /// point, and its failure is passed on. No Jacobian is computed: the
    /// result always carries no critical exponents, the classification
    /// "stable" and the universality class "Ising", whatever the flow does
    /// near the point.
    fn analyze_fixed_point(&self, fixed_point: &P) -> (outcome: Result<
        RGFixedPoint<P>,
        RGFlowError,
    >) {
        match self.beta_function(fixed_point) {
            Err(error) => Err(error),
            Ok(_) => Ok(
                RGFixedPoint {
                    parameters: fixed_point.clone(),
                    critical_exponents: Vec::new(),
                    classification: "stable".to_owned(),
                    universality_class: Some("Ising".to_owned()),
                    dimension: self.dimension,
                },
            ),
        }
    }

    fn beta_function(&self, params: &P) -> (beta: Result<P::Vector, RGFlowError>) {
        proof {
            use_type_invariant(self);
        }
        if !params.is_compatible_with_dimension(self.dimension) {
            return Err(
                RGFlowError::DimensionMismatch {
                    expected: self.dimension,
                    actual: params.spatial_dimension(),
                },
            );
        }
        let beta = (self.beta_fn)(params);
        proof {
            let chosen = self.spec_beta_function(*params);
            assert(call_ensures(self.beta_fn, (params,), beta));
            assert(call_ensures(self.beta_fn, (params,), chosen));
        }
        beta
    }
}

} // verus!
