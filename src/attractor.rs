use vstd::prelude::*;

use crate::circular_buffer::{filled, pushed, CircularBuffer};

verus! {

/// One trajectory as seen from outside: its current point and its trail in
/// recency order (rank 0 is the newest position).
pub type TrajectoryView<T> = (T, Seq<T>);

/// `after` is what one update with `step` makes of `before`: each
/// trajectory's new point is what `step` returned for its own old point, and
/// that new point is pushed onto its own trail.
pub open spec fn updated_by<T, F: Fn(T) -> T>(
    step: F,
    before: Seq<TrajectoryView<T>>,
    after: Seq<TrajectoryView<T>>,
) -> bool {
    &&& after.len() == before.len()
    &&& forall|i: int|
        0 <= i < before.len() ==> {
            &&& step.ensures((before[i].0,), (#[trigger] after[i]).0)
            &&& after[i].1 == pushed(before[i].1, after[i].0)
        }
}

/// Trajectories that start from `points`, each trail of length `len` filled
/// with its own starting point.
pub open spec fn started_at<T>(points: Seq<T>, len: nat) -> Seq<TrajectoryView<T>> {
    Seq::new(points.len(), |i: int| (points[i], filled(len, points[i])))
}

/// `step` gives one result for each point.
pub open spec fn deterministic<T, F: Fn(T) -> T>(step: F) -> bool {
    forall|p: T, q1: T, q2: T| step.ensures((p,), q1) && step.ensures((p,), q2) ==> q1 == q2
}

/// `N` independent trajectories, each a current point with a trail of its
/// last `L` positions.
pub struct Attractor<T, const N: usize, const L: usize> {
    buffers: Vec<CircularBuffer<T, L>>,
    points: Vec<T>,
}

impl<T: Copy, const N: usize, const L: usize> Attractor<T, N, L> {
    pub closed spec fn wf(&self) -> bool {
        &&& N >= 1
        &&& L >= 1
        &&& self.points@.len() == N
        &&& self.buffers@.len() == N
        &&& forall|i: int| 0 <= i < N ==> (#[trigger] self.buffers@[i]).wf()
    }

    pub closed spec fn view(&self) -> Seq<TrajectoryView<T>> {
        Seq::new(N as nat, |i: int| (self.points@[i], self.buffers@[i]@))
    }

    /// A well-formed attractor has `N` trajectories, each with a trail of `L`
    /// points.
    pub proof fn lemma_view_shape(&self)
        requires
            self.wf(),
        ensures
            self@.len() == N,
            forall|i: int| 0 <= i < N ==> (#[trigger] self@[i]).1.len() == L,
    {
        assert forall|i: int| 0 <= i < N implies (#[trigger] self@[i]).1.len() == L by {
            self.buffers@[i].lemma_view_len();
        }
    }

    /// One trail buffer per point, each filled with its own point.
    fn buffers_for(points: &Vec<T>) -> (r: Vec<CircularBuffer<T, L>>)
        requires
            L >= 1,
        ensures
            r@.len() == points@.len(),
            forall|i: int|
                0 <= i < points@.len() ==> (#[trigger] r@[i]).wf() && r@[i]@ == filled(
                    L as nat,
                    points@[i],
                ),
    {
        let mut r: Vec<CircularBuffer<T, L>> = Vec::with_capacity(points.len());
        let mut i: usize = 0;
        while i < points.len()
            invariant
                L >= 1,
                i <= points@.len(),
                r@.len() == i,
                forall|k: int|
                    0 <= k < i ==> (#[trigger] r@[k]).wf() && r@[k]@ == filled(
                        L as nat,
                        points@[k],
                    ),
            decreases points@.len() - i,
        {
            r.push(CircularBuffer::new(points[i]));
            i = i + 1;
        }
        r
    }

    /// An attractor whose trajectories start at `initial`, one per point, each
    /// trail filled with its own starting point.
    pub fn new(initial: Vec<T>) -> (a: Self)
        requires
            N >= 1,
            L >= 1,
            initial@.len() == N,
        ensures
            a.wf(),
            a@ == started_at(initial@, L as nat),
    {
        let buffers = Self::buffers_for(&initial);
        let a = Attractor { buffers, points: initial };
        assert(a@ =~= started_at(a.points@, L as nat));
        a
    }

    /// Moves every trajectory to its point of `fresh` and fills its trail
    /// with that point, discarding all earlier history.
    pub fn reset_points(&mut self, fresh: Vec<T>)
        requires
            old(self).wf(),
            fresh@.len() == N,
        ensures
            final(self).wf(),
            final(self)@ == started_at(fresh@, L as nat),
    {
        self.buffers = Self::buffers_for(&fresh);
        self.points = fresh;
        assert(self@ =~= started_at(self.points@, L as nat));
    }

    /// Advances every trajectory by one step: its point becomes `step` of its
    /// point, and the new point is pushed onto its trail.
    pub fn update<F: Fn(T) -> T>(&mut self, step: F)
        requires
            old(self).wf(),
            forall|p: T| step.requires((p,)),
        ensures
            final(self).wf(),
            updated_by(step, old(self)@, final(self)@),
    {
        let mut i: usize = 0;
        while i < N
            invariant
                self.wf(),
                forall|p: T| step.requires((p,)),
                0 <= i <= N,
                forall|k: int|
                    0 <= k < i ==> {
                        &&& step.ensures((old(self)@[k].0,), #[trigger] self@[k].0)
                        &&& self@[k].1 == pushed(old(self)@[k].1, self@[k].0)
                    },
                forall|k: int| i <= k < N ==> #[trigger] self@[k] == old(self)@[k],
            decreases N - i,
        {
            let ghost before = *self;
            let p = step(self.points[i]);
            self.points.set(i, p);
            self.buffers[i].push(p);
            assert forall|k: int| 0 <= k < N && k != i implies #[trigger] self@[k] == before@[k] by {
                assert(self.points@[k] == before.points@[k]);
                assert(self.buffers@[k] == before.buffers@[k]);
            }
            assert(self@[i as int] == (p, pushed(before@[i as int].1, p)));
            i = i + 1;
        }
    }

    /// The current point of trajectory `i`.
    pub fn point(&self, i: usize) -> (p: T)
        requires
            self.wf(),
            i < N,
        ensures
            p == self@[i as int].0,
    {
        self.points[i]
    }

    /// The point of rank `rank` on trajectory `i`'s trail.
    pub fn trail_point(&self, i: usize, rank: usize) -> (p: T)
        requires
            self.wf(),
            i < N,
            rank < L,
        ensures
            p == self@[i as int].1[rank as int],
    {
        *self.buffers[i].get(rank)
    }

    /// `r` lists every trail in recency order, one per trajectory.
    pub open spec fn lists_trails(&self, r: Vec<Vec<T>>) -> bool {
        &&& r@.len() == self@.len()
        &&& forall|i: int| 0 <= i < r@.len() ==> (#[trigger] r@[i])@ == self@[i].1
    }

    /// Every trail, newest point first, one per trajectory.
    pub fn trails(&self) -> (r: Vec<Vec<T>>)
        requires
            self.wf(),
        ensures
            self.lists_trails(r),
    {
        let mut r: Vec<Vec<T>> = Vec::with_capacity(N);
        let mut i: usize = 0;
        while i < N
            invariant
                self.wf(),
                i <= N,
                r@.len() == i,
                forall|k: int| 0 <= k < i ==> (#[trigger] r@[k])@ == self@[k].1,
            decreases N - i,
        {
            let mut trail: Vec<T> = Vec::with_capacity(L);
            let mut rank: usize = 0;
            while rank < L
                invariant
                    self.wf(),
                    i < N,
                    rank <= L,
                    trail@.len() == rank,
                    forall|j: int| 0 <= j < rank ==> trail@[j] == self@[i as int].1[j],
                decreases L - rank,
            {
                trail.push(self.trail_point(i, rank));
                rank = rank + 1;
            }
            proof {
                self.lemma_view_shape();
            }
            assert(trail@ =~= self@[i as int].1);
            r.push(trail);
            i = i + 1;
        }
        r
    }
}

/// Trajectories do not interact: with a deterministic step, trajectory `i`
/// after an update depends only on trajectory `i` before it, whatever the
/// other trajectories hold.
pub proof fn lemma_trajectories_independent<T, F: Fn(T) -> T>(
    step: F,
    before1: Seq<TrajectoryView<T>>,
    after1: Seq<TrajectoryView<T>>,
    before2: Seq<TrajectoryView<T>>,
    after2: Seq<TrajectoryView<T>>,
    i: int,
)
    requires
        deterministic(step),
        updated_by(step, before1, after1),
        updated_by(step, before2, after2),
        0 <= i < before1.len(),
        0 <= i < before2.len(),
        before1[i] == before2[i],
    ensures
        after1[i] == after2[i],
{
    assert(step.ensures((before1[i].0,), after1[i].0));
    assert(step.ensures((before2[i].0,), after2[i].0));
}

/// With a deterministic step, equal states give equal states after an
/// update: nothing but the state and the step decides the outcome.
pub proof fn lemma_update_deterministic<T, F: Fn(T) -> T>(
    step: F,
    before1: Seq<TrajectoryView<T>>,
    after1: Seq<TrajectoryView<T>>,
    before2: Seq<TrajectoryView<T>>,
    after2: Seq<TrajectoryView<T>>,
)
    requires
        deterministic(step),
        updated_by(step, before1, after1),
        updated_by(step, before2, after2),
        before1 == before2,
    ensures
        after1 == after2,
{
    assert forall|i: int| 0 <= i < after1.len() implies after1[i] == after2[i] by {
        lemma_trajectories_independent(step, before1, after1, before2, after2, i);
    }
    assert(after1 =~= after2);
}

/// `states` is a run of updates: each state after the first is what the
/// step of the same position in `steps` makes of the state before it.
pub open spec fn run_of<T, F: Fn(T) -> T>(steps: Seq<F>, states: Seq<Seq<TrajectoryView<T>>>) -> bool {
    &&& states.len() == steps.len() + 1
    &&& forall|k: int| 0 <= k < steps.len() ==> updated_by(#[trigger] steps[k], states[k], states[k + 1])
}

/// Repeated runs agree: from equal starting states, a fixed sequence of
/// deterministic steps gives the same state after every update.
pub proof fn lemma_runs_deterministic<T, F: Fn(T) -> T>(
    steps: Seq<F>,
    run1: Seq<Seq<TrajectoryView<T>>>,
    run2: Seq<Seq<TrajectoryView<T>>>,
)
    requires
        forall|k: int| 0 <= k < steps.len() ==> deterministic(#[trigger] steps[k]),
        run_of(steps, run1),
        run_of(steps, run2),
        run1[0] == run2[0],
    ensures
        run1 == run2,
    decreases steps.len(),
{
    if steps.len() > 0 {
        let n = steps.len() - 1;
        let prefix1 = run1.take(n + 1);
        let prefix2 = run2.take(n + 1);
        assert(run_of(steps.take(n), prefix1)) by {
            assert forall|k: int| 0 <= k < n implies updated_by(
                #[trigger] steps.take(n)[k],
                prefix1[k],
                prefix1[k + 1],
            ) by {
                assert(updated_by(steps[k], run1[k], run1[k + 1]));
            }
        }
        assert(run_of(steps.take(n), prefix2)) by {
            assert forall|k: int| 0 <= k < n implies updated_by(
                #[trigger] steps.take(n)[k],
                prefix2[k],
                prefix2[k + 1],
            ) by {
                assert(updated_by(steps[k], run2[k], run2[k + 1]));
            }
        }
        assert forall|k: int| 0 <= k < steps.take(n).len() implies deterministic(
            #[trigger] steps.take(n)[k],
        ) by {
            assert(deterministic(steps[k]));
        }
        lemma_runs_deterministic(steps.take(n), prefix1, prefix2);
        assert(run1[n] == prefix1[n]);
        assert(run2[n] == prefix2[n]);
        assert(updated_by(steps[n], run1[n], run1[n + 1]));
        assert(updated_by(steps[n], run2[n], run2[n + 1]));
        lemma_update_deterministic(steps[n], run1[n], run1[n + 1], run2[n], run2[n + 1]);
        assert forall|k: int| 0 <= k < run1.len() implies run1[k] == run2[k] by {
            if k <= n {
                assert(run1[k] == prefix1[k]);
                assert(run2[k] == prefix2[k]);
            }
        }
        assert(run1 =~= run2);
    }
}

/// After a reset to `points`, each trajectory stands at its new point and
/// every rank of its trail holds that point: no earlier history survives.
pub proof fn lemma_reset_clears_history<T>(points: Seq<T>, len: nat, state: Seq<TrajectoryView<T>>)
    requires
        state == started_at(points, len),
    ensures
        state.len() == points.len(),
        forall|i: int, r: int|
            0 <= i < points.len() && 0 <= r < len ==> state[i].0 == points[i] && #[trigger] state[i].1[r]
                == points[i],
{
}

/// Two listings of the trails of one attractor are equal: the query
/// changes nothing and depends on nothing else.
pub proof fn lemma_trails_idempotent<T: Copy, const N: usize, const L: usize>(
    a: Attractor<T, N, L>,
    r1: Vec<Vec<T>>,
    r2: Vec<Vec<T>>,
)
    requires
        a.lists_trails(r1),
        a.lists_trails(r2),
    ensures
        r1@.len() == r2@.len(),
        forall|i: int| 0 <= i < r1@.len() ==> (#[trigger] r1@[i])@ == r2@[i]@,
{
}

} // verus!
