//! Food and water carried, leg by leg.
use vstd::prelude::*;

use crate::number::Real;

verus! {

/// What is taken on at a waypoint, before setting off again.
#[derive(Clone, Copy, Debug, PartialEq, Eq, Structural)]
pub struct Resupply {
    pub food_kg: Real,
    /// The containers are filled to capacity here.
    pub water_fill: bool,
}

impl Default for Resupply {
    /// Nothing taken on.
    fn default() -> (r: Self)
        ensures
            r == nothing(),
    {
        Resupply { food_kg: Real { bits: 0 }, water_fill: false }
    }
}

/// Nothing taken on.
pub open spec fn nothing() -> Resupply {
    Resupply { food_kg: Real { bits: 0 }, water_fill: false }
}

impl Resupply {
    /// The start of the trip: bottles full, food counted already.
    pub fn at_start() -> (r: Self)
        ensures
            r == (Resupply { food_kg: Real { bits: 0 }, water_fill: true }),
    {
        Resupply { food_kg: Real { bits: 0 }, water_fill: true }
    }
}

/// The state of the pack over one leg.
#[derive(Clone, Copy, Debug, PartialEq, Eq, Structural)]
pub struct LegSupply {
    pub food_start_kg: Real,
    pub food_end_kg: Real,
    pub water_start_l: Real,
    pub water_end_l: Real,
    /// What the leg asks for, which can exceed what is carried.
    pub water_need_l: Real,
    pub pack_start_kg: Real,
    /// Time for this leg at its own load.
    pub time_h: Real,
    /// Pack above the threshold when setting off.
    pub overloaded: bool,
    pub food_short: bool,
    pub water_short: bool,
}

/// What is left when a leg starts or the trip is over.
#[derive(Clone, Copy, Debug, PartialEq, Eq, Structural)]
pub struct Stock {
    pub food_kg: Real,
    pub water_l: Real,
}

/// What does not change on the way.
#[derive(Clone, Copy, Debug, PartialEq, Eq, Structural)]
pub struct Rules {
    /// Food in the pack on the first day.
    pub food_start_kg: Real,
    /// Food eaten in a day.
    pub ration_kg: Real,
    /// What the containers hold, all together.
    pub water_capacity_l: Real,
    /// The heaviest pack that is not too heavy.
    pub load_limit_kg: Real,
}

/// The pack over all legs.
#[derive(Clone, Debug)]
pub struct Plan {
    pub legs: Vec<LegSupply>,
    /// The load at the last waypoint, resupply there included: what the next leg
    /// would start with.
    pub next_pack_kg: Real,
    pub next_food_kg: Real,
    pub next_water_l: Real,
}

/// A number, and nought in place of anything less.
pub open spec fn not_below_nought(x: Real) -> Real {
    x.greater(Real { bits: 0 })
}

fn at_least_nought(x: Real) -> (r: Real)
    ensures
        r == not_below_nought(x),
{
    x.max(Real { bits: 0 })
}

/// What is taken on at a waypoint. Missing entries are nothing taken on.
pub open spec fn taken_on(resupply: Seq<Resupply>, i: int) -> Resupply {
    if 0 <= i < resupply.len() {
        resupply[i]
    } else {
        nothing()
    }
}

/// What is left after the first `i` legs.
pub open spec fn left_after(rules: Rules, legs: Seq<LegSupply>, i: int) -> Stock {
    if i <= 0 {
        Stock {
            food_kg: not_below_nought(rules.food_start_kg),
            water_l: not_below_nought(rules.water_capacity_l),
        }
    } else {
        Stock { food_kg: legs[i - 1].food_end_kg, water_l: legs[i - 1].water_end_l }
    }
}

fn taken_on_at(resupply: &Vec<Resupply>, i: usize) -> (r: Resupply)
    ensures
        r == taken_on(resupply@, i as int),
{
    if i < resupply.len() {
        resupply[i]
    } else {
        Resupply::default()
    }
}

/// The sums that the simulation is made of: `plus` and `minus` of two numbers, a
/// number with a hair on top, the weight of a pack with some food and water, the
/// time for a leg at a load, and the water drunk in a time.
pub struct Sums<A, S, K, P, T, N> {
    pub plus: A,
    pub minus: S,
    pub slack: K,
    pub pack: P,
    pub price: T,
    pub need: N,
}

impl<
    A: Fn(Real, Real) -> Real,
    S: Fn(Real, Real) -> Real,
    K: Fn(Real) -> Real,
    P: Fn(Real, Real) -> Real,
    T: Fn(Real, Real) -> Real,
    N: Fn(Real) -> Real,
> Sums<A, S, K, P, T, N> {
    /// The sums can be made of any numbers.
    pub open spec fn wf(&self) -> bool {
        &&& forall|x: Real, y: Real| call_requires(self.plus, (x, y))
        &&& forall|x: Real, y: Real| call_requires(self.minus, (x, y))
        &&& forall|x: Real| call_requires(self.slack, (x,))
        &&& forall|x: Real, y: Real| call_requires(self.pack, (x, y))
        &&& forall|x: Real, y: Real| call_requires(self.price, (x, y))
        &&& forall|x: Real| call_requires(self.need, (x,))
    }

    /// Each sum has one result: the same numbers give the same again.
    pub open spec fn settled(&self) -> bool {
        &&& forall|x: Real, y: Real, a: Real, b: Real| #[trigger]
            call_ensures(self.plus, (x, y), a) && #[trigger] call_ensures(self.plus, (x, y), b)
                ==> a == b
        &&& forall|x: Real, y: Real, a: Real, b: Real| #[trigger]
            call_ensures(self.minus, (x, y), a) && #[trigger] call_ensures(self.minus, (x, y), b)
                ==> a == b
        &&& forall|x: Real, a: Real, b: Real| #[trigger]
            call_ensures(self.slack, (x,), a) && #[trigger] call_ensures(self.slack, (x,), b) ==> a
                == b
        &&& forall|x: Real, y: Real, a: Real, b: Real| #[trigger]
            call_ensures(self.pack, (x, y), a) && #[trigger] call_ensures(self.pack, (x, y), b)
                ==> a == b
        &&& forall|x: Real, y: Real, a: Real, b: Real| #[trigger]
            call_ensures(self.price, (x, y), a) && #[trigger] call_ensures(self.price, (x, y), b)
                ==> a == b
        &&& forall|x: Real, a: Real, b: Real| #[trigger]
            call_ensures(self.need, (x,), a) && #[trigger] call_ensures(self.need, (x,), b) ==> a
                == b
    }

    /// What there is after a resupply.
    pub open spec fn stocked(&self, rules: Rules, left: Stock, r: Resupply, now: Stock) -> bool {
        &&& call_ensures(self.plus, (left.food_kg, not_below_nought(r.food_kg)), now.food_kg)
        &&& now.water_l == if r.water_fill {
            not_below_nought(rules.water_capacity_l)
        } else {
            left.water_l
        }
    }

    /// Something is needed beyond what there is, by more than a hair.
    pub open spec fn short(&self, need: Real, have: Real, is: bool) -> bool {
        exists|limit: Real| #[trigger]
            call_ensures(self.slack, (have,), limit) && is == limit.below(need)
    }

    /// What is left of something that is used, never less than nought.
    pub open spec fn used(&self, have: Real, need: Real, left: Real) -> bool {
        exists|rest: Real| #[trigger]
            call_ensures(self.minus, (have, need), rest) && left == not_below_nought(rest)
    }

    /// One leg, from what is left before it. The load is that of its start, held
    /// for its whole length.
    pub open spec fn walked(
        &self,
        rules: Rules,
        left: Stock,
        r: Resupply,
        base_time: Real,
        leg: LegSupply,
    ) -> bool {
        let ration = not_below_nought(rules.ration_kg);
        &&& self.stocked(
            rules,
            left,
            r,
            Stock { food_kg: leg.food_start_kg, water_l: leg.water_start_l },
        )
        &&& call_ensures(self.pack, (leg.food_start_kg, leg.water_start_l), leg.pack_start_kg)
        &&& call_ensures(self.price, (base_time, leg.pack_start_kg), leg.time_h)
        &&& call_ensures(self.need, (leg.time_h,), leg.water_need_l)
        &&& self.short(leg.water_need_l, leg.water_start_l, leg.water_short)
        &&& self.used(leg.water_start_l, leg.water_need_l, leg.water_end_l)
        &&& self.short(ration, leg.food_start_kg, leg.food_short)
        &&& self.used(leg.food_start_kg, ration, leg.food_end_kg)
        &&& leg.overloaded == rules.load_limit_kg.below(leg.pack_start_kg)
    }

    /// The pack over all legs: each starts with what the one before it left, and so
    /// does what comes next.
    pub open spec fn planned(
        &self,
        base_times: Seq<Real>,
        resupply: Seq<Resupply>,
        rules: Rules,
        plan: Plan,
    ) -> bool {
        &&& plan.legs@.len() == base_times.len()
        &&& forall|i: int|
            0 <= i < base_times.len() ==> self.walked(
                rules,
                left_after(rules, plan.legs@, i),
                taken_on(resupply, i),
                #[trigger] base_times[i],
                plan.legs@[i],
            )
        &&& self.stocked(
            rules,
            left_after(rules, plan.legs@, base_times.len() as int),
            taken_on(resupply, base_times.len() as int),
            Stock { food_kg: plan.next_food_kg, water_l: plan.next_water_l },
        )
        &&& call_ensures(self.pack, (plan.next_food_kg, plan.next_water_l), plan.next_pack_kg)
    }

    fn stock_up(&self, rules: &Rules, left: Stock, r: Resupply) -> (now: Stock)
        requires
            self.wf(),
        ensures
            self.stocked(*rules, left, r, now),
    {
        Stock {
            food_kg: (self.plus)(left.food_kg, at_least_nought(r.food_kg)),
            water_l: if r.water_fill {
                at_least_nought(rules.water_capacity_l)
            } else {
                left.water_l
            },
        }
    }

    fn walk(&self, rules: &Rules, left: Stock, r: Resupply, base_time: Real) -> (leg: LegSupply)
        requires
            self.wf(),
        ensures
            self.walked(*rules, left, r, base_time, leg),
    {
        let ration: Real = at_least_nought(rules.ration_kg);
        let now: Stock = self.stock_up(rules, left, r);
        let pack: Real = (self.pack)(now.food_kg, now.water_l);
        let time: Real = (self.price)(base_time, pack);
        let need: Real = (self.need)(time);
        let water_limit: Real = (self.slack)(now.water_l);
        let water_rest: Real = (self.minus)(now.water_l, need);
        let food_limit: Real = (self.slack)(now.food_kg);
        let food_rest: Real = (self.minus)(now.food_kg, ration);
        let leg = LegSupply {
            food_start_kg: now.food_kg,
            food_end_kg: at_least_nought(food_rest),
            water_start_l: now.water_l,
            water_end_l: at_least_nought(water_rest),
            water_need_l: need,
            pack_start_kg: pack,
            time_h: time,
            overloaded: rules.load_limit_kg.lt(pack),
            food_short: food_limit.lt(ration),
            water_short: water_limit.lt(need),
        };
        assert(self.short(need, now.water_l, leg.water_short));
        assert(self.used(now.water_l, need, leg.water_end_l));
        assert(self.short(ration, now.food_kg, leg.food_short));
        assert(self.used(now.food_kg, ration, leg.food_end_kg));
        leg
    }
}

/// Walks the legs in order, spending and topping up.
///
/// `resupply` is indexed by waypoint: each entry is taken on at the start of its
/// leg, and that of the last waypoint makes up what comes next. A leg depends on
/// the legs before it and never on itself, so one pass does.
pub fn simulate<
    A: Fn(Real, Real) -> Real,
    S: Fn(Real, Real) -> Real,
    K: Fn(Real) -> Real,
    P: Fn(Real, Real) -> Real,
    T: Fn(Real, Real) -> Real,
    N: Fn(Real) -> Real,
>(
    base_times: &Vec<Real>,
    resupply: &Vec<Resupply>,
    rules: &Rules,
    sums: &Sums<A, S, K, P, T, N>,
) -> (plan: Plan)
    requires
        sums.wf(),
    ensures
        sums.planned(base_times@, resupply@, *rules, plan),
{
    let mut legs: Vec<LegSupply> = Vec::new();
    let mut left = Stock {
        food_kg: at_least_nought(rules.food_start_kg),
        water_l: at_least_nought(rules.water_capacity_l),
    };
    let mut i: usize = 0;
    while i < base_times.len()
        invariant
            sums.wf(),
            i <= base_times@.len(),
            legs@.len() == i,
            left == left_after(*rules, legs@, i as int),
            forall|k: int|
                0 <= k < i ==> sums.walked(
                    *rules,
                    left_after(*rules, legs@, k),
                    taken_on(resupply@, k),
                    #[trigger] base_times@[k],
                    legs@[k],
                ),
        decreases base_times@.len() - i,
    {
        let ghost had = legs@;
        let leg: LegSupply = sums.walk(rules, left, taken_on_at(resupply, i), base_times[i]);
        legs.push(leg);
        left = Stock { food_kg: leg.food_end_kg, water_l: leg.water_end_l };
        assert forall|k: int| 0 <= k < i + 1 implies sums.walked(
            *rules,
            left_after(*rules, legs@, k),
            taken_on(resupply@, k),
            #[trigger] base_times@[k],
            legs@[k],
        ) by {
            assert(left_after(*rules, legs@, k) == left_after(*rules, had, k));
        }
        i = i + 1;
    }
    let next: Stock = sums.stock_up(rules, left, taken_on_at(resupply, i));
    Plan {
        legs,
        next_pack_kg: (sums.pack)(next.food_kg, next.water_l),
        next_food_kg: next.food_kg,
        next_water_l: next.water_l,
    }
}

/// Nothing that is carried ever falls below nought.
pub proof fn law_stock_is_never_below_nought<
    A: Fn(Real, Real) -> Real,
    S: Fn(Real, Real) -> Real,
    K: Fn(Real) -> Real,
    P: Fn(Real, Real) -> Real,
    T: Fn(Real, Real) -> Real,
    N: Fn(Real) -> Real,
>(
    sums: &Sums<A, S, K, P, T, N>,
    rules: Rules,
    left: Stock,
    r: Resupply,
    base_time: Real,
    leg: LegSupply,
)
    requires
        sums.walked(rules, left, r, base_time, leg),
    ensures
        !leg.food_end_kg.below(Real { bits: 0 }),
        !leg.water_end_l.below(Real { bits: 0 }),
{
}

/// A leg depends only on itself and the legs before it: two trips that start with
/// the same legs and resupplies have the same pack over them, as long as each sum
/// has one result.
pub proof fn law_a_leg_depends_on_those_before<
    A: Fn(Real, Real) -> Real,
    S: Fn(Real, Real) -> Real,
    K: Fn(Real) -> Real,
    P: Fn(Real, Real) -> Real,
    T: Fn(Real, Real) -> Real,
    N: Fn(Real) -> Real,
>(
    sums: &Sums<A, S, K, P, T, N>,
    rules: Rules,
    times: (Seq<Real>, Seq<Real>),
    resupply: (Seq<Resupply>, Seq<Resupply>),
    plans: (Plan, Plan),
    k: int,
)
    requires
        sums.settled(),
        sums.planned(times.0, resupply.0, rules, plans.0),
        sums.planned(times.1, resupply.1, rules, plans.1),
        0 <= k <= times.0.len(),
        k <= times.1.len(),
        times.0.take(k) == times.1.take(k),
        forall|i: int|
            0 <= i < k ==> #[trigger] taken_on(resupply.0, i) == taken_on(resupply.1, i),
    ensures
        plans.0.legs@.take(k) == plans.1.legs@.take(k),
    decreases k,
{
    if k > 0 {
        let i = k - 1;
        assert(times.0.take(i) =~= times.0.take(k).take(i));
        assert(times.1.take(i) =~= times.1.take(k).take(i));
        law_a_leg_depends_on_those_before(sums, rules, times, resupply, plans, i);
        assert(times.0[i] == times.0.take(k)[i]);
        assert(times.1[i] == times.1.take(k)[i]);
        let a = plans.0.legs@;
        let b = plans.1.legs@;
        if i > 0 {
            assert(a[i - 1] == a.take(i)[i - 1]);
            assert(b[i - 1] == b.take(i)[i - 1]);
        }
        let left = left_after(rules, a, i);
        assert(left == left_after(rules, b, i));
        assert(taken_on(resupply.0, i) == taken_on(resupply.1, i));
        lemma_one_outcome(sums, rules, left, taken_on(resupply.0, i), times.0[i], a[i], b[i]);
        assert forall|j: int| 0 <= j < k implies a.take(k)[j] == b.take(k)[j] by {
            if j < i {
                assert(a.take(i)[j] == b.take(i)[j]);
            }
        }
    }
    assert(plans.0.legs@.take(k) =~= plans.1.legs@.take(k));
}

/// A leg more changes nothing of the legs before it, and starts with the pack, the
/// food and the water that the plan without it names for what comes next, as long
/// as each sum has one result.
pub proof fn law_the_next_leg_starts_where_the_plan_ends<
    A: Fn(Real, Real) -> Real,
    S: Fn(Real, Real) -> Real,
    K: Fn(Real) -> Real,
    P: Fn(Real, Real) -> Real,
    T: Fn(Real, Real) -> Real,
    N: Fn(Real) -> Real,
>(
    sums: &Sums<A, S, K, P, T, N>,
    rules: Rules,
    times: Seq<Real>,
    resupply: Seq<Resupply>,
    plan: Plan,
    further: Real,
    longer: Plan,
)
    requires
        sums.settled(),
        sums.planned(times, resupply, rules, plan),
        sums.planned(times.push(further), resupply, rules, longer),
    ensures
        longer.legs@.take(times.len() as int) == plan.legs@,
        longer.legs@.last().pack_start_kg == plan.next_pack_kg,
        longer.legs@.last().food_start_kg == plan.next_food_kg,
        longer.legs@.last().water_start_l == plan.next_water_l,
{
    let n = times.len() as int;
    assert(times.take(n) =~= times.push(further).take(n));
    law_a_leg_depends_on_those_before(
        sums,
        rules,
        (times, times.push(further)),
        (resupply, resupply),
        (plan, longer),
        n,
    );
    assert(plan.legs@.take(n) =~= plan.legs@);
    if n > 0 {
        assert(longer.legs@.take(n)[n - 1] == longer.legs@[n - 1]);
    }
    assert(left_after(rules, plan.legs@, n) == left_after(rules, longer.legs@, n));
    assert(times.push(further)[n] == further);
}

proof fn lemma_one_outcome<
    A: Fn(Real, Real) -> Real,
    S: Fn(Real, Real) -> Real,
    K: Fn(Real) -> Real,
    P: Fn(Real, Real) -> Real,
    T: Fn(Real, Real) -> Real,
    N: Fn(Real) -> Real,
>(
    sums: &Sums<A, S, K, P, T, N>,
    rules: Rules,
    left: Stock,
    r: Resupply,
    base_time: Real,
    a: LegSupply,
    b: LegSupply,
)
    requires
        sums.settled(),
        sums.walked(rules, left, r, base_time, a),
        sums.walked(rules, left, r, base_time, b),
    ensures
        a == b,
{
}

impl Plan {
    /// Whether the pack is too heavy at the start of any leg.
    pub fn any_overloaded(&self) -> (b: bool)
        ensures
            b == (exists|i: int| 0 <= i < self.legs@.len() && (#[trigger] self.legs@[i]).overloaded),
    {
        let mut i: usize = 0;
        while i < self.legs.len()
            invariant
                i <= self.legs@.len(),
                forall|k: int| 0 <= k < i ==> !(#[trigger] self.legs@[k]).overloaded,
            decreases self.legs@.len() - i,
        {
            if self.legs[i].overloaded {
                assert(self.legs@[i as int].overloaded);
                return true;
            }
            i = i + 1;
        }
        false
    }

    /// The first leg that the food does not last for.
    pub fn first_food_short(&self) -> (r: Option<usize>)
        ensures
            match r {
                Some(i) => i < self.legs@.len() && self.legs@[i as int].food_short && forall|k: int|
                    0 <= k < i ==> !(#[trigger] self.legs@[k]).food_short,
                None => forall|k: int|
                    0 <= k < self.legs@.len() ==> !(#[trigger] self.legs@[k]).food_short,
            },
    {
        let mut i: usize = 0;
        while i < self.legs.len()
            invariant
                i <= self.legs@.len(),
                forall|k: int| 0 <= k < i ==> !(#[trigger] self.legs@[k]).food_short,
            decreases self.legs@.len() - i,
        {
            if self.legs[i].food_short {
                return Some(i);
            }
            i = i + 1;
        }
        None
    }

    /// The first leg that the water does not last for.
    pub fn first_water_short(&self) -> (r: Option<usize>)
        ensures
            match r {
                Some(i) => i < self.legs@.len() && self.legs@[i as int].water_short && forall|
                    k: int,
                |
                    0 <= k < i ==> !(#[trigger] self.legs@[k]).water_short,
                None => forall|k: int|
                    0 <= k < self.legs@.len() ==> !(#[trigger] self.legs@[k]).water_short,
            },
    {
        let mut i: usize = 0;
        while i < self.legs.len()
            invariant
                i <= self.legs@.len(),
                forall|k: int| 0 <= k < i ==> !(#[trigger] self.legs@[k]).water_short,
            decreases self.legs@.len() - i,
        {
            if self.legs[i].water_short {
                return Some(i);
            }
            i = i + 1;
        }
        None
    }
}

// ---------------------------------------------------------------------------
// What is carried
// ---------------------------------------------------------------------------

/// Taking on food adds to what is carried. A leg starts with the sum of the food
/// that the leg before it left, or of the food of the first day, and of the food
/// taken on there, if any. The containers are full where they are filled, and hold
/// what was left otherwise.
pub proof fn law_a_resupply_adds_to_what_is_left<
    A: Fn(Real, Real) -> Real,
    S: Fn(Real, Real) -> Real,
    K: Fn(Real) -> Real,
    P: Fn(Real, Real) -> Real,
    T: Fn(Real, Real) -> Real,
    N: Fn(Real) -> Real,
>(
    sums: &Sums<A, S, K, P, T, N>,
    times: Seq<Real>,
    resupply: Seq<Resupply>,
    rules: Rules,
    plan: Plan,
    i: int,
)
    requires
        sums.planned(times, resupply, rules, plan),
        0 <= i < times.len(),
    ensures
        plan.legs@.len() == times.len(),
        ({
            let nought = Real { bits: 0 };
            let leg = plan.legs@[i];
            let food_left = if i == 0 {
                rules.food_start_kg.greater(nought)
            } else {
                plan.legs@[i - 1].food_end_kg
            };
            let water_left = if i == 0 {
                rules.water_capacity_l.greater(nought)
            } else {
                plan.legs@[i - 1].water_end_l
            };
            let food_taken = if i < resupply.len() {
                resupply[i].food_kg.greater(nought)
            } else {
                nought
            };
            &&& call_ensures(sums.plus, (food_left, food_taken), leg.food_start_kg)
            &&& leg.water_start_l == if i < resupply.len() && resupply[i].water_fill {
                rules.water_capacity_l.greater(nought)
            } else {
                water_left
            }
        }),
{
    assert(sums.walked(
        rules,
        left_after(rules, plan.legs@, i),
        taken_on(resupply, i),
        times[i],
        plan.legs@[i],
    ));
}

/// Where adding what is not below nought never gives less, the food after a
/// resupply is never less than before it, and never less than what was taken on.
pub proof fn law_a_resupply_never_takes_food_away<
    A: Fn(Real, Real) -> Real,
    S: Fn(Real, Real) -> Real,
    K: Fn(Real) -> Real,
    P: Fn(Real, Real) -> Real,
    T: Fn(Real, Real) -> Real,
    N: Fn(Real) -> Real,
>(
    sums: &Sums<A, S, K, P, T, N>,
    times: Seq<Real>,
    resupply: Seq<Resupply>,
    rules: Rules,
    plan: Plan,
    i: int,
)
    requires
        sums.planned(times, resupply, rules, plan),
        1 <= i < times.len(),
        i < resupply.len(),
        forall|x: Real, y: Real, z: Real|
            (Real { bits: 0 }).at_most(x) && (Real { bits: 0 }).at_most(y) && #[trigger]
                call_ensures(sums.plus, (x, y), z) ==> x.at_most(z) && y.at_most(z),
    ensures
        plan.legs@[i - 1].food_end_kg.at_most(plan.legs@[i].food_start_kg),
        !resupply[i].food_kg.nan() ==> resupply[i].food_kg.at_most(plan.legs@[i].food_start_kg),
{
    law_a_resupply_adds_to_what_is_left(sums, times, resupply, rules, plan, i);
    assert(sums.walked(
        rules,
        left_after(rules, plan.legs@, i - 1),
        taken_on(resupply, i - 1),
        times[i - 1],
        plan.legs@[i - 1],
    ));
    assert(sums.used(
        plan.legs@[i - 1].food_start_kg,
        not_below_nought(rules.ration_kg),
        plan.legs@[i - 1].food_end_kg,
    ));
}

/// What a leg does to the pack: its weight is that of the food and the water at the
/// start, its time the one for its own weight, and its thirst the one of that time.
/// What is left is what there was without the thirst and without the ration, and
/// never below nought. It is told where the pack is above the limit, and where food
/// or water fall short by more than a hair.
pub proof fn law_a_leg_uses_up_what_it_needs<
    A: Fn(Real, Real) -> Real,
    S: Fn(Real, Real) -> Real,
    K: Fn(Real) -> Real,
    P: Fn(Real, Real) -> Real,
    T: Fn(Real, Real) -> Real,
    N: Fn(Real) -> Real,
>(
    sums: &Sums<A, S, K, P, T, N>,
    times: Seq<Real>,
    resupply: Seq<Resupply>,
    rules: Rules,
    plan: Plan,
    i: int,
)
    requires
        sums.planned(times, resupply, rules, plan),
        0 <= i < times.len(),
    ensures
        ({
            let nought = Real { bits: 0 };
            let ration = rules.ration_kg.greater(nought);
            let leg = plan.legs@[i];
            &&& call_ensures(sums.pack, (leg.food_start_kg, leg.water_start_l), leg.pack_start_kg)
            &&& call_ensures(sums.price, (times[i], leg.pack_start_kg), leg.time_h)
            &&& call_ensures(sums.need, (leg.time_h,), leg.water_need_l)
            &&& exists|rest: Real| #[trigger]
                call_ensures(sums.minus, (leg.food_start_kg, ration), rest) && leg.food_end_kg
                    == rest.greater(nought)
            &&& exists|rest: Real| #[trigger]
                call_ensures(sums.minus, (leg.water_start_l, leg.water_need_l), rest)
                    && leg.water_end_l == rest.greater(nought)
            &&& exists|limit: Real| #[trigger]
                call_ensures(sums.slack, (leg.food_start_kg,), limit) && (leg.food_short
                    <==> limit.below(ration))
            &&& exists|limit: Real| #[trigger]
                call_ensures(sums.slack, (leg.water_start_l,), limit) && (leg.water_short
                    <==> limit.below(leg.water_need_l))
            &&& leg.overloaded <==> rules.load_limit_kg.below(leg.pack_start_kg)
        }),
{
    assert(sums.walked(
        rules,
        left_after(rules, plan.legs@, i),
        taken_on(resupply, i),
        times[i],
        plan.legs@[i],
    ));
}

/// What comes next starts from what the last leg left, with what is taken on at the
/// last waypoint: that of a trip without legs from what there is on the first day.
pub proof fn law_what_comes_next_starts_from_what_is_left<
    A: Fn(Real, Real) -> Real,
    S: Fn(Real, Real) -> Real,
    K: Fn(Real) -> Real,
    P: Fn(Real, Real) -> Real,
    T: Fn(Real, Real) -> Real,
    N: Fn(Real) -> Real,
>(
    sums: &Sums<A, S, K, P, T, N>,
    times: Seq<Real>,
    resupply: Seq<Resupply>,
    rules: Rules,
    plan: Plan,
)
    requires
        sums.planned(times, resupply, rules, plan),
    ensures
        ({
            let nought = Real { bits: 0 };
            let n = times.len() as int;
            let food_left = if n == 0 {
                rules.food_start_kg.greater(nought)
            } else {
                plan.legs@[n - 1].food_end_kg
            };
            let water_left = if n == 0 {
                rules.water_capacity_l.greater(nought)
            } else {
                plan.legs@[n - 1].water_end_l
            };
            let food_taken = if n < resupply.len() {
                resupply[n].food_kg.greater(nought)
            } else {
                nought
            };
            &&& call_ensures(sums.plus, (food_left, food_taken), plan.next_food_kg)
            &&& plan.next_water_l == if n < resupply.len() && resupply[n].water_fill {
                rules.water_capacity_l.greater(nought)
            } else {
                water_left
            }
            &&& call_ensures(sums.pack, (plan.next_food_kg, plan.next_water_l), plan.next_pack_kg)
        }),
{
}

} // verus!
