//! The figures of a track: how far, how much up and down, and how long.
use vstd::prelude::*;

use crate::number::{Real, Single};
use crate::track;
use crate::track::{relief, Relief, Sample, SpeedModel, TrackStats};

verus! {

/// The sums that figures are made of.
pub struct Pace<M, D, U, A, R, H, L> {
    /// How far two distances along the track are apart.
    pub span: M,
    /// How much higher one elevation is than another.
    pub diff: D,
    /// A sum of climbs with the size of one more on top.
    pub climb: U,
    /// A sum of times with one more on top.
    pub plus: A,
    /// Hours for a distance with a total ascent.
    pub rates: R,
    /// Hours for a stretch, with the elevations of its ends where both are known.
    pub stretch: H,
    /// Hours with the load, from those without.
    pub loaded: L,
}

/// The elevations of a profile.
pub open spec fn elevations(profile: Seq<Sample>) -> Seq<Option<Single>> {
    Seq::new(profile.len(), |i: int| profile[i].elev_m)
}

/// The climbs among some steps, or the descents.
pub open spec fn steps_up(steps: Seq<Single>, up: bool) -> Seq<Single>
    decreases steps.len(),
{
    if steps.len() == 0 {
        seq![]
    } else {
        let rest = steps_up(steps.drop_last(), up);
        if (Single { bits: 0 }).below(steps.last()) == up {
            rest.push(steps.last())
        } else {
            rest
        }
    }
}

/// Both elevations, where both are there.
pub open spec fn both(a: Option<Single>, b: Option<Single>) -> Option<(Single, Single)> {
    match (a, b) {
        (Some(x), Some(y)) => Some((x, y)),
        _ => None,
    }
}

impl<
    M: Fn(Real, Real) -> Real,
    D: Fn(Single, Single) -> Single,
    U: Fn(Real, Single) -> Real,
    A: Fn(Real, Real) -> Real,
    R: Fn(Real, Real) -> Real,
    H: Fn(Real, Option<(Single, Single)>) -> Real,
    L: Fn(Real) -> Real,
> Pace<M, D, U, A, R, H, L> {
    /// The sums can be made of any numbers.
    pub open spec fn wf(&self) -> bool {
        &&& forall|x: Real, y: Real| call_requires(self.span, (x, y))
        &&& forall|x: Single, y: Single| call_requires(self.diff, (x, y))
        &&& forall|x: Real, y: Single| call_requires(self.climb, (x, y))
        &&& forall|x: Real, y: Real| call_requires(self.plus, (x, y))
        &&& forall|x: Real, y: Real| call_requires(self.rates, (x, y))
        &&& forall|x: Real, y: Option<(Single, Single)>| call_requires(self.stretch, (x, y))
        &&& forall|x: Real| call_requires(self.loaded, (x,))
    }

    /// Each sum has one result: the same numbers give the same again. The load is
    /// left out.
    pub open spec fn settled(&self) -> bool {
        &&& forall|x: Real, y: Real, a: Real, b: Real| #[trigger]
            call_ensures(self.span, (x, y), a) && #[trigger] call_ensures(self.span, (x, y), b)
                ==> a == b
        &&& forall|x: Single, y: Single, a: Single, b: Single| #[trigger]
            call_ensures(self.diff, (x, y), a) && #[trigger] call_ensures(self.diff, (x, y), b)
                ==> a == b
        &&& forall|x: Real, y: Single, a: Real, b: Real| #[trigger]
            call_ensures(self.climb, (x, y), a) && #[trigger] call_ensures(self.climb, (x, y), b)
                ==> a == b
        &&& forall|x: Real, y: Real, a: Real, b: Real| #[trigger]
            call_ensures(self.plus, (x, y), a) && #[trigger] call_ensures(self.plus, (x, y), b)
                ==> a == b
        &&& forall|x: Real, y: Real, a: Real, b: Real| #[trigger]
            call_ensures(self.rates, (x, y), a) && #[trigger] call_ensures(self.rates, (x, y), b)
                ==> a == b
        &&& forall|x: Real, y: Option<(Single, Single)>, a: Real, b: Real| #[trigger]
            call_ensures(self.stretch, (x, y), a) && #[trigger] call_ensures(
                self.stretch,
                (x, y),
                b,
            ) ==> a == b
    }

    /// Sums of climbs, one after the other, from nought.
    pub open spec fn climb_sums(&self, steps: Seq<Single>, sums: Seq<Real>) -> bool {
        &&& sums.len() == steps.len() + 1
        &&& sums[0] == (Real { bits: 0 })
        &&& forall|i: int|
            0 <= i < steps.len() ==> call_ensures(
                self.climb,
                (sums[i], #[trigger] steps[i]),
                sums[i + 1],
            )
    }

    /// A sum of climbs.
    pub open spec fn climbed(&self, steps: Seq<Single>, total: Real) -> bool {
        exists|sums: Seq<Real>| #[trigger] self.climb_sums(steps, sums) && total == sums.last()
    }

    /// The time for a stretch between two samples, none where it has no length.
    pub open spec fn stretch_time(&self, a: Sample, b: Sample, time: Real) -> bool {
        exists|dx: Real| #[trigger]
            call_ensures(self.span, (b.dist_m, a.dist_m), dx) && if dx.at_most(Real { bits: 0 }) {
                time == (Real { bits: 0 })
            } else {
                call_ensures(self.stretch, (dx, both(a.elev_m, b.elev_m)), time)
            }
    }

    /// Sums of the times for the stretches between the first `n` samples, one
    /// after the other, from nought.
    pub open spec fn time_sums(
        &self,
        profile: Seq<Sample>,
        n: int,
        times: Seq<Real>,
        sums: Seq<Real>,
    ) -> bool {
        &&& times.len() == n
        &&& sums.len() == n
        &&& sums[0] == (Real { bits: 0 })
        &&& forall|i: int|
            1 <= i < n ==> self.stretch_time(profile[i - 1], profile[i], #[trigger] times[i])
                && call_ensures(self.plus, (sums[i - 1], times[i]), sums[i])
    }

    /// The time for all stretches of a profile.
    pub open spec fn stretches_time(&self, profile: Seq<Sample>, total: Real) -> bool {
        if profile.len() == 0 {
            total == (Real { bits: 0 })
        } else {
            exists|times: Seq<Real>, sums: Seq<Real>| #[trigger]
                self.time_sums(profile, profile.len() as int, times, sums) && total == sums.last()
        }
    }

    /// The climbs and descents of a profile, with hysteresis.
    pub open spec fn climbs(&self, elevs: Seq<Single>, ascent: Real, descent: Real) -> bool {
        exists|diffs: Seq<Single>| #[trigger]
            track::diffs_by(elevs, diffs, self.diff) && self.climbed(
                steps_up(track::steps_of(diffs, diffs.len() as int), true),
                ascent,
            ) && self.climbed(
                steps_up(track::steps_of(diffs, diffs.len() as int), false),
                descent,
            )
    }

    /// What the figures of a profile are.
    pub open spec fn figures(
        &self,
        profile: Seq<Sample>,
        model: SpeedModel,
        complete: bool,
        s: TrackStats,
    ) -> bool {
        let elevs = track::present(elevations(profile));
        &&& if profile.len() == 0 {
            s.distance_m == (Real { bits: 0 })
        } else {
            call_ensures(self.span, (profile.last().dist_m, profile[0].dist_m), s.distance_m)
        }
        &&& s.elevation_complete == (complete && profile.len() > 0)
        &&& s.min_elev_m == track::lowest(elevs)
        &&& s.max_elev_m == track::highest(elevs)
        &&& self.climbs(elevs, s.ascent_m, s.descent_m)
        &&& match model {
            SpeedModel::Naismith => call_ensures(
                self.rates,
                (s.distance_m, s.ascent_m),
                s.base_time_h,
            ),
            SpeedModel::Tobler => self.stretches_time(profile, s.base_time_h),
        }
        &&& call_ensures(self.loaded, (s.base_time_h,), s.time_h)
    }

    /// Adds up the climbs of some steps, or the descents.
    fn add_up(&self, steps: &Vec<Single>, up: bool) -> (total: Real)
        requires
            self.wf(),
        ensures
            self.climbed(steps_up(steps@, up), total),
    {
        let nought = Single { bits: 0 };
        let mut total = Real { bits: 0 };
        let ghost mut sums: Seq<Real> = seq![total];
        let mut i: usize = 0;
        while i < steps.len()
            invariant
                self.wf(),
                nought == (Single { bits: 0 }),
                i <= steps@.len(),
                self.climb_sums(steps_up(steps@.take(i as int), up), sums),
                total == sums.last(),
            decreases steps@.len() - i,
        {
            assert(steps@.take(i + 1).drop_last() =~= steps@.take(i as int));
            let step: Single = steps[i];
            if nought.lt(step) == up {
                let ghost had = steps_up(steps@.take(i as int), up);
                let ghost before = sums;
                total = (self.climb)(total, step);
                proof {
                    sums = sums.push(total);
                    assert forall|k: int| 0 <= k < had.len() + 1 implies call_ensures(
                        self.climb,
                        (sums[k], #[trigger] had.push(step)[k]),
                        sums[k + 1],
                    ) by {
                        if k < had.len() {
                            assert(had.push(step)[k] == had[k]);
                            assert(sums[k] == before[k] && sums[k + 1] == before[k + 1]);
                        }
                    }
                }
            }
            i = i + 1;
        }
        assert(steps@.take(i as int) =~= steps@);
        total
    }

    /// Adds up the times of the stretches of a profile.
    fn add_stretches(&self, profile: &Vec<Sample>) -> (total: Real)
        requires
            self.wf(),
        ensures
            self.stretches_time(profile@, total),
    {
        let nought = Real { bits: 0 };
        let mut total = nought;
        let mut n: usize = 1;
        if profile.len() == 0 {
            return total;
        }
        let ghost mut times: Seq<Real> = seq![total];
        let ghost mut sums: Seq<Real> = seq![total];
        while n < profile.len()
            invariant
                self.wf(),
                nought == (Real { bits: 0 }),
                1 <= n <= profile@.len(),
                self.time_sums(profile@, n as int, times, sums),
                total == sums.last(),
            decreases profile@.len() - n,
        {
            let a: Sample = profile[n - 1];
            let b: Sample = profile[n];
            let dx: Real = (self.span)(b.dist_m, a.dist_m);
            let time: Real = if dx.le(nought) {
                nought
            } else {
                let ends: Option<(Single, Single)> = match (a.elev_m, b.elev_m) {
                    (Some(x), Some(y)) => Some((x, y)),
                    _ => None,
                };
                (self.stretch)(dx, ends)
            };
            assert(self.stretch_time(a, b, time));
            total = (self.plus)(total, time);
            proof {
                let had = times;
                let before = sums;
                times = times.push(time);
                sums = sums.push(total);
                assert forall|i: int| 1 <= i < n + 1 implies self.stretch_time(
                    profile@[i - 1],
                    profile@[i],
                    #[trigger] times[i],
                ) && call_ensures(self.plus, (sums[i - 1], times[i]), sums[i]) by {
                    if i < n {
                        assert(times[i] == had[i]);
                        assert(sums[i] == before[i] && sums[i - 1] == before[i - 1]);
                    }
                }
            }
            n = n + 1;
        }
        total
    }
}

/// Computes the figures of a profile, or of the part of one that is a leg.
/// Distances are counted along the whole track, so that of a leg is a difference.
pub fn compute_stats<
    M: Fn(Real, Real) -> Real,
    D: Fn(Single, Single) -> Single,
    U: Fn(Real, Single) -> Real,
    A: Fn(Real, Real) -> Real,
    R: Fn(Real, Real) -> Real,
    H: Fn(Real, Option<(Single, Single)>) -> Real,
    L: Fn(Real) -> Real,
>(
    profile: &Vec<Sample>,
    model: SpeedModel,
    complete: bool,
    pace: &Pace<M, D, U, A, R, H, L>,
) -> (s: TrackStats)
    requires
        pace.wf(),
    ensures
        pace.figures(profile@, model, complete, s),
{
    let mut elevs: Vec<Option<Single>> = Vec::new();
    let mut i: usize = 0;
    while i < profile.len()
        invariant
            i <= profile@.len(),
            elevs@ == elevations(profile@.take(i as int)),
        decreases profile@.len() - i,
    {
        elevs.push(profile[i].elev_m);
        assert(elevs@ =~= elevations(profile@.take(i + 1)));
        i = i + 1;
    }
    assert(profile@.take(i as int) =~= profile@);
    let distance_m: Real = if profile.len() == 0 {
        Real { bits: 0 }
    } else {
        (pace.span)(profile[profile.len() - 1].dist_m, profile[0].dist_m)
    };
    let found: Relief = relief(&elevs, &pace.diff);
    let ascent_m: Real = pace.add_up(&found.steps, true);
    let descent_m: Real = pace.add_up(&found.steps, false);
    assert(pace.climbs(track::present(elevations(profile@)), ascent_m, descent_m));
    let base_time_h: Real = match model {
        SpeedModel::Naismith => (pace.rates)(distance_m, ascent_m),
        SpeedModel::Tobler => pace.add_stretches(profile),
    };
    let time_h: Real = (pace.loaded)(base_time_h);
    TrackStats {
        distance_m,
        ascent_m,
        descent_m,
        min_elev_m: found.min_elev_m,
        max_elev_m: found.max_elev_m,
        base_time_h,
        time_h,
        elevation_complete: complete && profile.len() > 0,
    }
}

// ---------------------------------------------------------------------------
// The load
// ---------------------------------------------------------------------------

/// Two paces that differ in nothing but the load.
pub open spec fn same_but_load<M, D, U, A, R, H, L, L2>(
    p: Pace<M, D, U, A, R, H, L>,
    q: Pace<M, D, U, A, R, H, L2>,
) -> bool {
    &&& p.span == q.span
    &&& p.diff == q.diff
    &&& p.climb == q.climb
    &&& p.plus == q.plus
    &&& p.rates == q.rates
    &&& p.stretch == q.stretch
}

/// The load changes the time and nothing else: with another load every other
/// figure is the same, and the time is that without a load, slowed down by the
/// load. Each sum has to have one result.
pub proof fn law_the_load_changes_the_time_alone<
    M: Fn(Real, Real) -> Real,
    D: Fn(Single, Single) -> Single,
    U: Fn(Real, Single) -> Real,
    A: Fn(Real, Real) -> Real,
    R: Fn(Real, Real) -> Real,
    H: Fn(Real, Option<(Single, Single)>) -> Real,
    L: Fn(Real) -> Real,
    L2: Fn(Real) -> Real,
>(
    p: Pace<M, D, U, A, R, H, L>,
    q: Pace<M, D, U, A, R, H, L2>,
    profile: Seq<Sample>,
    model: SpeedModel,
    complete: bool,
    s: TrackStats,
    t: TrackStats,
)
    requires
        same_but_load(p, q),
        p.settled(),
        p.figures(profile, model, complete, s),
        q.figures(profile, model, complete, t),
    ensures
        t == (TrackStats { time_h: t.time_h, ..s }),
        call_ensures(p.loaded, (s.base_time_h,), s.time_h),
        call_ensures(q.loaded, (s.base_time_h,), t.time_h),
{
    let elevs = track::present(elevations(profile));
    lemma_climbs(p, q, elevs, (s.ascent_m, s.descent_m), (t.ascent_m, t.descent_m));
    assert(s.distance_m == t.distance_m);
    match model {
        SpeedModel::Naismith => {},
        SpeedModel::Tobler => {
            lemma_stretches(p, q, profile, s.base_time_h, t.base_time_h);
        },
    }
}

proof fn lemma_climbs<
    M: Fn(Real, Real) -> Real,
    D: Fn(Single, Single) -> Single,
    U: Fn(Real, Single) -> Real,
    A: Fn(Real, Real) -> Real,
    R: Fn(Real, Real) -> Real,
    H: Fn(Real, Option<(Single, Single)>) -> Real,
    L: Fn(Real) -> Real,
    L2: Fn(Real) -> Real,
>(
    p: Pace<M, D, U, A, R, H, L>,
    q: Pace<M, D, U, A, R, H, L2>,
    elevs: Seq<Single>,
    x: (Real, Real),
    y: (Real, Real),
)
    requires
        same_but_load(p, q),
        p.settled(),
        p.climbs(elevs, x.0, x.1),
        q.climbs(elevs, y.0, y.1),
    ensures
        x == y,
{
    let a = choose|a: Seq<Single>| #[trigger]
        track::diffs_by(elevs, a, p.diff) && p.climbed(
            steps_up(track::steps_of(a, a.len() as int), true),
            x.0,
        ) && p.climbed(steps_up(track::steps_of(a, a.len() as int), false), x.1);
    let b = choose|b: Seq<Single>| #[trigger]
        track::diffs_by(elevs, b, q.diff) && q.climbed(
            steps_up(track::steps_of(b, b.len() as int), true),
            y.0,
        ) && q.climbed(steps_up(track::steps_of(b, b.len() as int), false), y.1);
    lemma_diffs(p, elevs, a, b, elevs.len() as int);
    let steps = track::steps_of(a, a.len() as int);
    lemma_climb_sums(p, q, steps_up(steps, true), x.0, y.0);
    lemma_climb_sums(p, q, steps_up(steps, false), x.1, y.1);
}

proof fn lemma_diffs<
    M: Fn(Real, Real) -> Real,
    D: Fn(Single, Single) -> Single,
    U: Fn(Real, Single) -> Real,
    A: Fn(Real, Real) -> Real,
    R: Fn(Real, Real) -> Real,
    H: Fn(Real, Option<(Single, Single)>) -> Real,
    L: Fn(Real) -> Real,
>(p: Pace<M, D, U, A, R, H, L>, elevs: Seq<Single>, a: Seq<Single>, b: Seq<Single>, k: int)
    requires
        p.settled(),
        track::diffs_by(elevs, a, p.diff),
        track::diffs_by(elevs, b, p.diff),
        k <= elevs.len(),
    ensures
        track::steps_of(a, k) == track::steps_of(b, k),
        track::anchor_at(a, k) == track::anchor_at(b, k),
    decreases k,
{
    if k > 1 {
        lemma_diffs(p, elevs, a, b, k - 1);
        let from = elevs[track::anchor_at(a, k - 1)];
        assert(call_ensures(p.diff, (elevs[k - 1], from), a[k - 1]));
        assert(call_ensures(p.diff, (elevs[k - 1], from), b[k - 1]));
        assert(a[k - 1] == b[k - 1]);
    }
}

proof fn lemma_climb_sums<
    M: Fn(Real, Real) -> Real,
    D: Fn(Single, Single) -> Single,
    U: Fn(Real, Single) -> Real,
    A: Fn(Real, Real) -> Real,
    R: Fn(Real, Real) -> Real,
    H: Fn(Real, Option<(Single, Single)>) -> Real,
    L: Fn(Real) -> Real,
    L2: Fn(Real) -> Real,
>(
    p: Pace<M, D, U, A, R, H, L>,
    q: Pace<M, D, U, A, R, H, L2>,
    steps: Seq<Single>,
    x: Real,
    y: Real,
)
    requires
        same_but_load(p, q),
        p.settled(),
        p.climbed(steps, x),
        q.climbed(steps, y),
    ensures
        x == y,
{
    let a = choose|a: Seq<Real>| #[trigger] p.climb_sums(steps, a) && x == a.last();
    let b = choose|b: Seq<Real>| #[trigger] q.climb_sums(steps, b) && y == b.last();
    lemma_climb_sum_at(p, q, steps, a, b, steps.len() as int);
}

proof fn lemma_climb_sum_at<
    M: Fn(Real, Real) -> Real,
    D: Fn(Single, Single) -> Single,
    U: Fn(Real, Single) -> Real,
    A: Fn(Real, Real) -> Real,
    R: Fn(Real, Real) -> Real,
    H: Fn(Real, Option<(Single, Single)>) -> Real,
    L: Fn(Real) -> Real,
    L2: Fn(Real) -> Real,
>(
    p: Pace<M, D, U, A, R, H, L>,
    q: Pace<M, D, U, A, R, H, L2>,
    steps: Seq<Single>,
    a: Seq<Real>,
    b: Seq<Real>,
    k: int,
)
    requires
        same_but_load(p, q),
        p.settled(),
        p.climb_sums(steps, a),
        q.climb_sums(steps, b),
        0 <= k <= steps.len(),
    ensures
        a[k] == b[k],
    decreases k,
{
    if k > 0 {
        lemma_climb_sum_at(p, q, steps, a, b, k - 1);
        let step = steps[k - 1];
        assert(call_ensures(p.climb, (a[k - 1], step), a[k]));
        assert(call_ensures(p.climb, (a[k - 1], step), b[k]));
    }
}

proof fn lemma_stretches<
    M: Fn(Real, Real) -> Real,
    D: Fn(Single, Single) -> Single,
    U: Fn(Real, Single) -> Real,
    A: Fn(Real, Real) -> Real,
    R: Fn(Real, Real) -> Real,
    H: Fn(Real, Option<(Single, Single)>) -> Real,
    L: Fn(Real) -> Real,
    L2: Fn(Real) -> Real,
>(
    p: Pace<M, D, U, A, R, H, L>,
    q: Pace<M, D, U, A, R, H, L2>,
    profile: Seq<Sample>,
    x: Real,
    y: Real,
)
    requires
        same_but_load(p, q),
        p.settled(),
        p.stretches_time(profile, x),
        q.stretches_time(profile, y),
    ensures
        x == y,
{
    if profile.len() > 0 {
        let n = profile.len() as int;
        let (ta, a) = choose|ta: Seq<Real>, a: Seq<Real>| #[trigger]
            p.time_sums(profile, n, ta, a) && x == a.last();
        let (tb, b) = choose|tb: Seq<Real>, b: Seq<Real>| #[trigger]
            q.time_sums(profile, n, tb, b) && y == b.last();
        lemma_time_sum_at(p, q, profile, (ta, a), (tb, b), n - 1);
    }
}

proof fn lemma_time_sum_at<
    M: Fn(Real, Real) -> Real,
    D: Fn(Single, Single) -> Single,
    U: Fn(Real, Single) -> Real,
    A: Fn(Real, Real) -> Real,
    R: Fn(Real, Real) -> Real,
    H: Fn(Real, Option<(Single, Single)>) -> Real,
    L: Fn(Real) -> Real,
    L2: Fn(Real) -> Real,
>(
    p: Pace<M, D, U, A, R, H, L>,
    q: Pace<M, D, U, A, R, H, L2>,
    profile: Seq<Sample>,
    a: (Seq<Real>, Seq<Real>),
    b: (Seq<Real>, Seq<Real>),
    k: int,
)
    requires
        same_but_load(p, q),
        p.settled(),
        p.time_sums(profile, profile.len() as int, a.0, a.1),
        q.time_sums(profile, profile.len() as int, b.0, b.1),
        0 <= k < profile.len(),
    ensures
        a.1[k] == b.1[k],
    decreases k,
{
    if k > 0 {
        lemma_time_sum_at(p, q, profile, a, b, k - 1);
        assert(p.stretch_time(profile[k - 1], profile[k], a.0[k]));
        assert(q.stretch_time(profile[k - 1], profile[k], b.0[k]));
        assert(a.0[k] == b.0[k]);
        assert(call_ensures(p.plus, (a.1[k - 1], a.0[k]), a.1[k]));
        assert(call_ensures(p.plus, (a.1[k - 1], a.0[k]), b.1[k]));
    }
}

// ---------------------------------------------------------------------------
// What the figures are
// ---------------------------------------------------------------------------

/// The distance is how far the last sample is along the track beyond the first.
/// The elevations are complete only where there are samples. The time without a
/// load follows by Naismith from distance and ascent, so that the way down is free,
/// and the time with the load from that.
pub proof fn law_distance_and_time<
    M: Fn(Real, Real) -> Real,
    D: Fn(Single, Single) -> Single,
    U: Fn(Real, Single) -> Real,
    A: Fn(Real, Real) -> Real,
    R: Fn(Real, Real) -> Real,
    H: Fn(Real, Option<(Single, Single)>) -> Real,
    L: Fn(Real) -> Real,
>(
    p: Pace<M, D, U, A, R, H, L>,
    profile: Seq<Sample>,
    model: SpeedModel,
    complete: bool,
    s: TrackStats,
)
    requires
        p.figures(profile, model, complete, s),
    ensures
        profile.len() > 0 ==> call_ensures(
            p.span,
            (profile[profile.len() - 1].dist_m, profile[0].dist_m),
            s.distance_m,
        ),
        profile.len() == 0 ==> s.distance_m == (Real { bits: 0 }),
        s.elevation_complete <==> complete && profile.len() > 0,
        model == SpeedModel::Naismith ==> call_ensures(
            p.rates,
            (s.distance_m, s.ascent_m),
            s.base_time_h,
        ),
        call_ensures(p.loaded, (s.base_time_h,), s.time_h),
{
}

/// By Tobler each stretch is timed from the elevation of its earlier sample to that
/// of its later one, over how far the later one is beyond the earlier, without a
/// slope where an elevation is missing, and takes no time where it has no length.
/// The times are added up from the first stretch to the last.
pub proof fn law_stretches_are_timed_forwards<
    M: Fn(Real, Real) -> Real,
    D: Fn(Single, Single) -> Single,
    U: Fn(Real, Single) -> Real,
    A: Fn(Real, Real) -> Real,
    R: Fn(Real, Real) -> Real,
    H: Fn(Real, Option<(Single, Single)>) -> Real,
    L: Fn(Real) -> Real,
>(
    p: Pace<M, D, U, A, R, H, L>,
    profile: Seq<Sample>,
    complete: bool,
    s: TrackStats,
)
    requires
        p.figures(profile, SpeedModel::Tobler, complete, s),
    ensures
        profile.len() <= 1 ==> s.base_time_h == (Real { bits: 0 }),
        profile.len() > 0 ==> exists|spans: Seq<Real>, times: Seq<Real>, sums: Seq<Real>| #[trigger]
            timed(p, profile, spans, times, sums) && s.base_time_h == sums[profile.len() - 1],
{
    if profile.len() > 0 {
        let n = profile.len() as int;
        let (times, sums) = choose|times: Seq<Real>, sums: Seq<Real>| #[trigger]
            p.time_sums(profile, n, times, sums) && s.base_time_h == sums.last();
        let nought = Real { bits: 0 };
        let spans = Seq::new(
            profile.len(),
            |i: int|
                choose|dx: Real| #[trigger]
                    call_ensures(p.span, (profile[i].dist_m, profile[i - 1].dist_m), dx)
                        && if dx.at_most(nought) {
                        times[i] == nought
                    } else {
                        call_ensures(
                            p.stretch,
                            (dx, both(profile[i - 1].elev_m, profile[i].elev_m)),
                            times[i],
                        )
                    },
        );
        assert forall|i: int| 1 <= i < n implies {
            &&& call_ensures(
                p.span,
                (profile[i].dist_m, profile[i - 1].dist_m),
                #[trigger] spans[i],
            )
            &&& if spans[i].at_most(nought) {
                times[i] == nought
            } else {
                call_ensures(
                    p.stretch,
                    (spans[i], both(profile[i - 1].elev_m, profile[i].elev_m)),
                    times[i],
                )
            }
        } by {
            assert(p.stretch_time(profile[i - 1], profile[i], times[i]));
        }
        assert(timed(p, profile, spans, times, sums));
    }
}

/// The lengths and times of the stretches before each sample, and the times added
/// up to it.
pub open spec fn timed<
    M: Fn(Real, Real) -> Real,
    D: Fn(Single, Single) -> Single,
    U: Fn(Real, Single) -> Real,
    A: Fn(Real, Real) -> Real,
    R: Fn(Real, Real) -> Real,
    H: Fn(Real, Option<(Single, Single)>) -> Real,
    L: Fn(Real) -> Real,
>(
    p: Pace<M, D, U, A, R, H, L>,
    profile: Seq<Sample>,
    spans: Seq<Real>,
    times: Seq<Real>,
    sums: Seq<Real>,
) -> bool {
    let nought = Real { bits: 0 };
    &&& sums[0] == nought
    &&& forall|i: int|
        1 <= i < profile.len() ==> {
            &&& call_ensures(
                p.span,
                (profile[i].dist_m, profile[i - 1].dist_m),
                #[trigger] spans[i],
            )
            &&& call_ensures(p.plus, (sums[i - 1], times[i]), sums[i])
            &&& spans[i].at_most(nought) ==> times[i] == nought
            &&& !spans[i].at_most(nought) ==> match (profile[i - 1].elev_m, profile[i].elev_m) {
                (Some(before), Some(after)) => call_ensures(
                    p.stretch,
                    (spans[i], Some((before, after))),
                    times[i],
                ),
                _ => call_ensures(p.stretch, (spans[i], None::<(Single, Single)>), times[i]),
            }
        }
}

/// Of two samples a length apart the time by Tobler is that of one stretch, from the
/// earlier elevation to the later one.
pub proof fn law_one_stretch_is_timed_forwards<
    M: Fn(Real, Real) -> Real,
    D: Fn(Single, Single) -> Single,
    U: Fn(Real, Single) -> Real,
    A: Fn(Real, Real) -> Real,
    R: Fn(Real, Real) -> Real,
    H: Fn(Real, Option<(Single, Single)>) -> Real,
    L: Fn(Real) -> Real,
>(
    p: Pace<M, D, U, A, R, H, L>,
    a: Sample,
    b: Sample,
    complete: bool,
    s: TrackStats,
)
    requires
        p.figures(seq![a, b], SpeedModel::Tobler, complete, s),
        a.elev_m is Some,
        b.elev_m is Some,
        forall|dx: Real| #[trigger]
            call_ensures(p.span, (b.dist_m, a.dist_m), dx) ==> (Real { bits: 0 }).below(dx),
    ensures
        exists|dx: Real, time: Real| #[trigger]
            call_ensures(p.stretch, (dx, Some((a.elev_m->0, b.elev_m->0))), time) && call_ensures(
                p.span,
                (b.dist_m, a.dist_m),
                dx,
            ) && call_ensures(p.plus, (Real { bits: 0 }, time), s.base_time_h),
{
    let profile = seq![a, b];
    law_stretches_are_timed_forwards(p, profile, complete, s);
    let (spans, times, sums) = choose|spans: Seq<Real>, times: Seq<Real>, sums: Seq<Real>|
        #[trigger]
        timed(p, profile, spans, times, sums) && s.base_time_h == sums[profile.len() - 1];
    assert(call_ensures(p.span, (profile[1].dist_m, profile[0].dist_m), spans[1]));
    assert(call_ensures(p.stretch, (spans[1], Some((a.elev_m->0, b.elev_m->0))), times[1]));
}

/// Climb and descent of some elevations, one after the other: each is held against
/// the last one that counted, at first the first one. A rise of more than three
/// metres is added to the climb and counts, a fall of more than three metres is
/// added to the descent and counts, and anything else does neither.
pub open spec fn climbing<
    M: Fn(Real, Real) -> Real,
    D: Fn(Single, Single) -> Single,
    U: Fn(Real, Single) -> Real,
    A: Fn(Real, Real) -> Real,
    R: Fn(Real, Real) -> Real,
    H: Fn(Real, Option<(Single, Single)>) -> Real,
    L: Fn(Real) -> Real,
>(
    p: Pace<M, D, U, A, R, H, L>,
    elevs: Seq<Single>,
    held: Seq<int>,
    diffs: Seq<Single>,
    ups: Seq<Real>,
    downs: Seq<Real>,
) -> bool {
    &&& held[0] == 0
    &&& ups[0] == (Real { bits: 0 })
    &&& downs[0] == (Real { bits: 0 })
    &&& forall|k: int|
        1 <= k < elevs.len() ==> {
            &&& 0 <= held[k - 1] < k
            &&& call_ensures(p.diff, (elevs[k], elevs[held[k - 1]]), #[trigger] diffs[k])
            &&& if (Single { bits: 0x4040_0000 }).below(diffs[k]) {
                &&& held[k] == k
                &&& call_ensures(p.climb, (ups[k - 1], diffs[k]), ups[k])
                &&& downs[k] == downs[k - 1]
            } else if diffs[k].below(Single { bits: 0xc040_0000 }) {
                &&& held[k] == k
                &&& ups[k] == ups[k - 1]
                &&& call_ensures(p.climb, (downs[k - 1], diffs[k]), downs[k])
            } else {
                &&& held[k] == held[k - 1]
                &&& ups[k] == ups[k - 1]
                &&& downs[k] == downs[k - 1]
            }
        }
}

/// Ascent and descent are the climb and the descent of the elevations that are
/// known, and the lowest and the highest are the least and the greatest of them.
pub proof fn law_climbs_and_descents<
    M: Fn(Real, Real) -> Real,
    D: Fn(Single, Single) -> Single,
    U: Fn(Real, Single) -> Real,
    A: Fn(Real, Real) -> Real,
    R: Fn(Real, Real) -> Real,
    H: Fn(Real, Option<(Single, Single)>) -> Real,
    L: Fn(Real) -> Real,
>(
    p: Pace<M, D, U, A, R, H, L>,
    profile: Seq<Sample>,
    model: SpeedModel,
    complete: bool,
    s: TrackStats,
)
    requires
        p.figures(profile, model, complete, s),
    ensures
        ({
            let elevs = track::present(elevations(profile));
            &&& elevs.len() == 0 ==> s.ascent_m == (Real { bits: 0 }) && s.descent_m == (Real {
                bits: 0,
            }) && s.min_elev_m is None && s.max_elev_m is None
            &&& elevs.len() > 0 ==> exists|
                held: Seq<int>,
                diffs: Seq<Single>,
                ups: Seq<Real>,
                downs: Seq<Real>,
            | #[trigger]
                climbing(p, elevs, held, diffs, ups, downs) && s.ascent_m == ups[elevs.len() - 1]
                    && s.descent_m == downs[elevs.len() - 1]
            &&& elevs.len() > 0 && (forall|k: int|
                0 <= k < elevs.len() ==> !(#[trigger] elevs[k]).nan()) ==> {
                &&& s.min_elev_m matches Some(low) && elevs.contains(low) && forall|k: int|
                    0 <= k < elevs.len() ==> low.at_most(#[trigger] elevs[k])
                &&& s.max_elev_m matches Some(high) && elevs.contains(high) && forall|k: int|
                    0 <= k < elevs.len() ==> (#[trigger] elevs[k]).at_most(high)
            }
        }),
{
    let elevs = track::present(elevations(profile));
    let diffs = choose|diffs: Seq<Single>| #[trigger]
        track::diffs_by(elevs, diffs, p.diff) && p.climbed(
            steps_up(track::steps_of(diffs, diffs.len() as int), true),
            s.ascent_m,
        ) && p.climbed(
            steps_up(track::steps_of(diffs, diffs.len() as int), false),
            s.descent_m,
        );
    let n = elevs.len() as int;
    let rises = steps_up(track::steps_of(diffs, n), true);
    let falls = steps_up(track::steps_of(diffs, n), false);
    let a = choose|a: Seq<Real>| #[trigger] p.climb_sums(rises, a) && s.ascent_m == a.last();
    let b = choose|b: Seq<Real>| #[trigger] p.climb_sums(falls, b) && s.descent_m == b.last();
    if n > 0 {
        track::law_lowest_and_highest(elevs);
        let held = Seq::new(elevs.len(), |k: int| track::anchor_at(diffs, k + 1));
        let ups = Seq::new(
            elevs.len(),
            |k: int| a[steps_up(track::steps_of(diffs, k + 1), true).len() as int],
        );
        let downs = Seq::new(
            elevs.len(),
            |k: int| b[steps_up(track::steps_of(diffs, k + 1), false).len() as int],
        );
        assert forall|k: int| 1 <= k < n implies {
            &&& 0 <= held[k - 1] < k
            &&& call_ensures(p.diff, (elevs[k], elevs[held[k - 1]]), #[trigger] diffs[k])
            &&& if (Single { bits: 0x4040_0000 }).below(diffs[k]) {
                &&& held[k] == k
                &&& call_ensures(p.climb, (ups[k - 1], diffs[k]), ups[k])
                &&& downs[k] == downs[k - 1]
            } else if diffs[k].below(Single { bits: 0xc040_0000 }) {
                &&& held[k] == k
                &&& ups[k] == ups[k - 1]
                &&& call_ensures(p.climb, (downs[k - 1], diffs[k]), downs[k])
            } else {
                &&& held[k] == held[k - 1]
                &&& ups[k] == ups[k - 1]
                &&& downs[k] == downs[k - 1]
            }
        } by {
            track::lemma_anchor(diffs, k);
            let steps = track::steps_of(diffs, k);
            let more = track::steps_of(diffs, k + 1);
            lemma_steps_grow(diffs, k, n, true);
            lemma_steps_grow(diffs, k, n, false);
            lemma_steps_grow(diffs, k + 1, n, true);
            lemma_steps_grow(diffs, k + 1, n, false);
            if track::counts_as_climb(diffs[k]) {
                assert(more == steps.push(diffs[k]));
                assert(more.drop_last() =~= steps);
                assert(more.last() == diffs[k]);
                if (Single { bits: 0 }).below(diffs[k]) {
                    let m = steps_up(steps, true).len() as int;
                    assert(steps_up(more, true)[m] == diffs[k]);
                    assert(rises[m] == diffs[k]);
                    assert(call_ensures(p.climb, (a[m], rises[m]), a[m + 1]));
                } else {
                    let m = steps_up(steps, false).len() as int;
                    assert(steps_up(more, false)[m] == diffs[k]);
                    assert(falls[m] == diffs[k]);
                    assert(call_ensures(p.climb, (b[m], falls[m]), b[m + 1]));
                }
            }
        }
        assert(track::steps_of(diffs, 1) =~= seq![]);
        assert(climbing(p, elevs, held, diffs, ups, downs));
        assert(s.ascent_m == ups[n - 1]);
        assert(s.descent_m == downs[n - 1]);
    } else {
        assert(track::steps_of(diffs, 0) =~= seq![]);
    }
}

/// The steps up to one elevation are the first of all steps.
proof fn lemma_steps_grow(diffs: Seq<Single>, k: int, n: int, up: bool)
    requires
        k <= n,
    ensures
        ({
            let few = steps_up(track::steps_of(diffs, k), up);
            let all = steps_up(track::steps_of(diffs, n), up);
            few.len() <= all.len() && all.take(few.len() as int) == few && forall|i: int|
                0 <= i < few.len() ==> #[trigger] few[i] == all[i]
        }),
    decreases n - k,
{
    let few = steps_up(track::steps_of(diffs, k), up);
    if k < n {
        lemma_steps_grow(diffs, k, n - 1, up);
        let most = track::steps_of(diffs, n - 1);
        let all = track::steps_of(diffs, n);
        if n > 1 && track::counts_as_climb(diffs[n - 1]) {
            assert(all.drop_last() =~= most);
        }
        let x = steps_up(most, up);
        let y = steps_up(all, up);
        assert(x.len() <= y.len() && y.take(x.len() as int) =~= x);
        assert(y.take(few.len() as int) =~= x.take(few.len() as int));
    }
    let all = steps_up(track::steps_of(diffs, n), up);
    assert(all.take(few.len() as int) =~= few);
    assert forall|i: int| 0 <= i < few.len() implies #[trigger] few[i] == all[i] by {
        assert(all.take(few.len() as int)[i] == all[i]);
    }
}

/// The elevations of a profile are those of its samples, in their order.
pub proof fn law_elevations_are_those_of_the_samples(profile: Seq<Sample>, i: int)
    requires
        0 <= i < profile.len(),
    ensures
        elevations(profile).len() == profile.len(),
        elevations(profile)[i] == profile[i].elev_m,
{
}

} // verus!
