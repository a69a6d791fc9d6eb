//! Why the integer program says what the fight does: boosts that meet the
//! two constraints of a selected stage make the chosen hero land the
//! killing blow in the round of that stage.

use vstd::prelude::*;
use crate::model::{Assignment, ConstraintView, SolverVerdict, Term, Valuation, Var, sum_of};
use crate::problem::{Hero, Problem, fall, lemma_fall_monotone};
use crate::solution::{
    Formulation, SolveError, budget_constraint, expand, indices_of, is_reading, lemma_expand,
    stage_selected, times, total_boosts,
};
use crate::simulation::{
    acts, boosted, count, damage_before, dealt, earlier, killing_blow, lands, lemma_count_bounds,
    lemma_dealt_nonnegative, lemma_fallen_deal_nothing, lemma_killing_blow_is,
    lemma_round_damage_nonnegative, round_damage, strike,
};

verus! {

/// Damage that the additions `extra` to the heroes' damage bring in round
/// `t`, over the heroes `0..k`.
spec fn round_extra(heroes: Seq<Hero>, extra: Seq<int>, t: int, k: int) -> int
    decreases k,
{
    if 0 < k <= heroes.len() {
        round_extra(heroes, extra, t, k - 1) + if acts(heroes, t, k - 1) {
            extra[k - 1]
        } else {
            0
        }
    } else {
        0
    }
}

/// Damage that the additions `extra` to the heroes' damage bring in the
/// rounds `0..t`, over the heroes `0..k`: each addition as often as its hero
/// acts in these rounds.
spec fn banked(heroes: Seq<Hero>, extra: Seq<int>, t: int, k: int) -> int
    decreases k,
{
    if 0 < k <= heroes.len() {
        banked(heroes, extra, t, k - 1) + extra[k - 1] * (if fall(heroes, k - 1) <= t {
            fall(heroes, k - 1)
        } else {
            t
        })
    } else {
        0
    }
}

/// `strong` is the line `weak` with `extra[i]` added to the damage of hero
/// `i`.
spec fn adds(weak: Seq<Hero>, strong: Seq<Hero>, extra: Seq<int>) -> bool {
    &&& strong.len() == weak.len()
    &&& extra.len() == weak.len()
    &&& forall|i: int|
        0 <= i < weak.len() ==> (#[trigger] strong[i]).health == weak[i].health && strong[i].damage
            == weak[i].damage + extra[i]
}

/// Heroes of equal health leave the line in the same rounds.
proof fn lemma_fall_same(weak: Seq<Hero>, strong: Seq<Hero>, i: int)
    requires
        strong.len() == weak.len(),
        forall|j: int| 0 <= j < weak.len() ==> (#[trigger] strong[j]).health == weak[j].health,
    ensures
        fall(strong, i) == fall(weak, i),
        forall|t: int| acts(strong, t, i) == acts(weak, t, i),
    decreases i + 1,
{
    if 0 <= i < weak.len() {
        lemma_fall_same(weak, strong, i - 1);
    }
}

/// What the stronger line deals more in one round.
proof fn lemma_round_extra(weak: Seq<Hero>, strong: Seq<Hero>, extra: Seq<int>, t: int, k: int)
    requires
        adds(weak, strong, extra),
        0 <= k <= weak.len(),
    ensures
        round_damage(strong, t, k) == round_damage(weak, t, k) + round_extra(weak, extra, t, k),
    decreases k,
{
    if k > 0 {
        lemma_round_extra(weak, strong, extra, t, k - 1);
        lemma_fall_same(weak, strong, k - 1);
        assert(acts(strong, t, k - 1) == acts(weak, t, k - 1));
    }
}

/// One more round banks what the additions bring in that round.
proof fn lemma_banked_step(heroes: Seq<Hero>, extra: Seq<int>, t: int, k: int)
    requires
        0 <= t,
        0 <= k <= heroes.len(),
        extra.len() == heroes.len(),
    ensures
        banked(heroes, extra, t + 1, k) == banked(heroes, extra, t, k) + round_extra(
            heroes,
            extra,
            t,
            k,
        ),
    decreases k,
{
    if k > 0 {
        lemma_banked_step(heroes, extra, t, k - 1);
        let f = fall(heroes, k - 1);
        let e = extra[k - 1];
        if f <= t {
            assert(!acts(heroes, t, k - 1));
        } else {
            assert(acts(heroes, t, k - 1));
            assert(e * (t + 1) == e * t + e) by (nonlinear_arith);
        }
    }
}

/// What the stronger line has dealt more before round `t`.
proof fn lemma_banked(weak: Seq<Hero>, strong: Seq<Hero>, extra: Seq<int>, t: int)
    requires
        adds(weak, strong, extra),
        0 <= t,
    ensures
        damage_before(strong, t) == damage_before(weak, t) + banked(
            weak,
            extra,
            t,
            weak.len() as int,
        ),
    decreases t,
{
    let n = weak.len() as int;
    if t > 0 {
        lemma_banked(weak, strong, extra, t - 1);
        lemma_round_extra(weak, strong, extra, t - 1, n);
        lemma_banked_step(weak, extra, t - 1, n);
    } else {
        lemma_banked_zero(weak, extra, n);
    }
}

/// Before the first round nothing is banked.
proof fn lemma_banked_zero(heroes: Seq<Hero>, extra: Seq<int>, k: int)
    requires
        0 <= k <= heroes.len(),
    ensures
        banked(heroes, extra, 0, k) == 0,
    decreases k,
{
    if k > 0 {
        lemma_banked_zero(heroes, extra, k - 1);
        lemma_fall_nonnegative(heroes, k - 1);
        let f = fall(heroes, k - 1);
        assert(extra[k - 1] * 0 == 0) by (nonlinear_arith);
    }
}

/// No hero leaves the line before the first round.
proof fn lemma_fall_nonnegative(heroes: Seq<Hero>, i: int)
    ensures
        fall(heroes, i) >= 0,
    decreases i + 1,
{
    if 0 <= i < heroes.len() {
        lemma_fall_nonnegative(heroes, i - 1);
    }
}

/// Heroes without an addition bank nothing.
proof fn lemma_banked_rest(heroes: Seq<Hero>, extra: Seq<int>, t: int, from: int, k: int)
    requires
        0 <= from <= k <= heroes.len(),
        forall|i: int| from <= i < heroes.len() ==> #[trigger] extra[i] == 0,
    ensures
        banked(heroes, extra, t, k) == banked(heroes, extra, t, from),
    decreases k,
{
    if k > from {
        lemma_banked_rest(heroes, extra, t, from, k - 1);
        let m = if fall(heroes, k - 1) <= t {
            fall(heroes, k - 1)
        } else {
            t
        };
        assert(0 * m == 0) by (nonlinear_arith);
    }
}

/// In one round the first heroes deal no more than more heroes do, where
/// no hero deals negative damage.
proof fn lemma_round_damage_monotone(heroes: Seq<Hero>, t: int, j: int, k: int)
    requires
        forall|i: int| 0 <= i < heroes.len() ==> (#[trigger] heroes[i]).damage >= 0,
        0 <= j <= k <= heroes.len(),
    ensures
        round_damage(heroes, t, j) <= round_damage(heroes, t, k),
    decreases k - j,
{
    if j < k {
        lemma_round_damage_monotone(heroes, t, j, k - 1);
    }
}

/// Over the rounds the damage dealt does not fall, where no hero deals
/// negative damage.
proof fn lemma_damage_before_monotone(heroes: Seq<Hero>, s: int, t: int)
    requires
        forall|i: int| 0 <= i < heroes.len() ==> (#[trigger] heroes[i]).damage >= 0,
        s <= t,
    ensures
        damage_before(heroes, s) <= damage_before(heroes, t),
    decreases t - s,
{
    if s < t {
        lemma_damage_before_monotone(heroes, s, t - 1);
        lemma_dealt_nonnegative(heroes, t - 1, heroes.len() as int);
        lemma_dealt_nonnegative(heroes, s, 0);
    }
}

/// An action that comes before hero `i`'s action in round `t` has dealt no
/// more than was dealt just before that action.
proof fn lemma_earlier_deals_less(heroes: Seq<Hero>, s: int, j: int, t: int, i: int)
    requires
        forall|k: int| 0 <= k < heroes.len() ==> (#[trigger] heroes[k]).damage >= 0,
        acts(heroes, s, j),
        0 <= i < heroes.len(),
        earlier(s, j, t, i),
    ensures
        dealt(heroes, s, j) <= damage_before(heroes, t) + round_damage(heroes, t, i),
{
    let n = heroes.len() as int;
    if s == t {
        lemma_round_damage_monotone(heroes, t, j + 1, i);
    } else {
        lemma_round_damage_monotone(heroes, s, j + 1, n);
        assert(damage_before(heroes, s + 1) == damage_before(heroes, s) + round_damage(
            heroes,
            s,
            n,
        ));
        lemma_damage_before_monotone(heroes, s + 1, t);
        lemma_dealt_nonnegative(heroes, t, i);
    }
}

/// A hero that no boost names is not boosted.
proof fn lemma_count_absent(boosts: Seq<usize>, i: int)
    requires
        forall|k: int| 0 <= k < boosts.len() ==> #[trigger] boosts[k] != i,
    ensures
        count(boosts, i) == 0,
    decreases boosts.len(),
{
    if boosts.len() > 0 {
        assert(boosts.last() == boosts[boosts.len() - 1]);
        assert forall|k: int| 0 <= k < boosts.drop_last().len() implies #[trigger] boosts.drop_last()[k]
            != i by {
            assert(boosts.drop_last()[k] == boosts[k]);
        }
        lemma_count_absent(boosts.drop_last(), i);
    }
}

impl Problem {
    /// Boost damage dealt by the end of round `turn` through the heroes
    /// `0..k`, where hero `i` has `counts[i]` boosts.
    pub open spec fn weighted(&self, counts: Seq<int>, turn: int, k: int) -> int
        decreases k,
    {
        if 0 < k <= counts.len() {
            self.weighted(counts, turn, k - 1) + self.contribution(k - 1, turn) * counts[k - 1]
        } else {
            0
        }
    }

    /// The numbers of boosts `counts` meet the two constraints of the stage
    /// of round `turn` with the stage selected: just before the chosen hero
    /// acts in that round the monster is alive, and it is dead just after.
    pub open spec fn stage_met(&self, counts: Seq<int>, turn: int) -> bool {
        let chosen = self.chosen_hero as int;
        &&& 0 <= turn < self.rounds()
        &&& counts.len() == chosen + 1
        &&& self.weighted(counts, turn, chosen) + turn * self.boost_damage * counts[chosen]
            <= self.health_at(turn) - 1
        &&& self.weighted(counts, turn, chosen + 1) >= self.health_at(turn)
            - self.heroes@[chosen].damage
    }

    /// What the additions have banked by the end of a round is what the
    /// stage's constraints count.
    proof fn lemma_weighted(&self, counts: Seq<int>, extra: Seq<int>, turn: int, k: int)
        requires
            0 <= turn,
            extra.len() == self.heroes.len(),
            0 <= k <= counts.len() <= self.heroes.len(),
            forall|i: int| 0 <= i < counts.len() ==> #[trigger] extra[i] == self.boost_damage * counts[i],
        ensures
            banked(self.heroes@, extra, turn + 1, k) == self.weighted(counts, turn, k),
        decreases k,
    {
        if k > 0 {
            self.lemma_weighted(counts, extra, turn, k - 1);
            let f = fall(self.heroes@, k - 1);
            let m = if f <= turn {
                f
            } else {
                turn + 1
            };
            let b = self.boost_damage as int;
            let c = counts[k - 1];
            assert(extra[k - 1] == b * c);
            assert((b * c) * m == (m * b) * c) by (nonlinear_arith);
        }
    }
}

/// Boosts that meet the constraints of a selected stage are a solution: the
/// chosen hero lands the killing blow in the round of the stage.
pub proof fn lemma_stage_sound(problem: Problem, boosts: Seq<usize>, counts: Seq<int>, turn: int)
    requires
        problem.wf(),
        problem.allocation_ok(boosts),
        counts.len() == problem.chosen_hero + 1,
        forall|i: int| 0 <= i <= problem.chosen_hero ==> #[trigger] counts[i] == count(boosts, i),
        problem.stage_met(counts, turn),
    ensures
        lands(
            boosted(problem.heroes@, problem.boost_damage as int, boosts),
            problem.monster_health as int,
            turn,
            problem.chosen_hero as int,
        ),
        problem.is_solution(boosts),
{
    let weak = problem.heroes@;
    let n = weak.len() as int;
    let chosen = problem.chosen_hero as int;
    let boost = problem.boost_damage as int;
    let health = problem.monster_health as int;
    let strong = boosted(weak, boost, boosts);
    let extra = Seq::new(weak.len(), |i: int| boost * count(boosts, i));
    problem.lemma_boosts_apply(boosts);
    assert forall|i: int| 0 <= i < n implies (#[trigger] strong[i]).health == weak[i].health
        && strong[i].damage == weak[i].damage + extra[i] && strong[i].damage >= 0 && (i > chosen
        ==> extra[i] == 0) by {
        lemma_count_bounds(boosts, i);
        assert(weak[i].damage >= 0);
        assert(boost * count(boosts, i) >= 0) by (nonlinear_arith)
            requires
                boost >= 0,
                count(boosts, i) >= 0,
        ;
        if i > chosen {
            lemma_count_absent(boosts, i);
        }
    }
    assert(adds(weak, strong, extra));
    assert forall|i: int| chosen + 1 <= i < n implies #[trigger] extra[i] == 0 by {
        assert(strong[i].health == weak[i].health);
    }
    lemma_fall_same(weak, strong, chosen);
    lemma_banked(weak, strong, extra, turn);
    lemma_banked_rest(weak, extra, turn, chosen + 1, n);
    lemma_round_extra(weak, strong, extra, turn, chosen);
    lemma_round_extra(weak, strong, extra, turn, chosen + 1);
    lemma_banked_step(weak, extra, turn, chosen);
    lemma_banked_step(weak, extra, turn, chosen + 1);
    problem.lemma_weighted(counts, extra, turn, chosen);
    problem.lemma_weighted(counts, extra, turn, chosen + 1);
    assert(acts(weak, turn, chosen));
    assert(acts(strong, turn, chosen));
    assert(round_damage(weak, turn, chosen + 1) == round_damage(weak, turn, chosen) + strike(
        weak,
        turn,
        chosen,
    ));
    // What is dealt up to and including the chosen hero's blow.
    assert(dealt(strong, turn, chosen) == dealt(weak, turn, chosen) + problem.weighted(
        counts,
        turn,
        chosen + 1,
    ));
    assert(dealt(weak, turn, chosen) == health - problem.health_at(turn) + weak[chosen].damage);
    assert(dealt(strong, turn, chosen) >= health);
    // What is dealt just before it.
    let before = damage_before(strong, turn) + round_damage(strong, turn, chosen);
    assert(banked(weak, extra, turn, chosen + 1) == banked(weak, extra, turn, chosen)
        + extra[chosen] * turn);
    assert(extra[chosen] * turn == turn * boost * counts[chosen]) by (nonlinear_arith)
        requires
            extra[chosen] == boost * counts[chosen],
    ;
    assert(before == health - problem.health_at(turn) + problem.weighted(counts, turn, chosen)
        + turn * boost * counts[chosen]);
    assert(before < health);
    assert forall|s: int, j: int|
        #![trigger acts(strong, s, j)]
        acts(strong, s, j) && earlier(s, j, turn, chosen) implies dealt(strong, s, j) < health by {
        lemma_earlier_deals_less(strong, s, j, turn, chosen);
    }
    assert(lands(strong, health, turn, chosen));
    lemma_killing_blow_is(strong, health, turn, chosen);
}

/// The sum of terms with one more term.
proof fn lemma_sum_push(terms: Seq<Term>, term: Term, values: Valuation)
    ensures
        sum_of(terms.push(term), values) == sum_of(terms, values) + term.coeff * values.value(
            term.var,
        ),
{
    assert(terms.push(term).drop_last() =~= terms);
}

/// Hero `i` occurs in the allocation of the first `k` values as often as
/// its value says, if it is among them.
proof fn lemma_count_expand(values: Seq<i64>, k: int, i: int)
    requires
        0 <= k <= values.len(),
        k <= usize::MAX,
        0 <= i,
    ensures
        count(expand(values, k), i) == if i < k {
            times(values[i]) as int
        } else {
            0
        },
    decreases k,
{
    if k > 0 {
        lemma_count_expand(values, k - 1, i);
        let hero = (k - 1) as usize;
        let run = Seq::new(times(values[k - 1]), |j: int| (k - 1) as usize);
        assert(run =~= Seq::new(times(values[k - 1]), |j: int| hero));
        lemma_count_concat(expand(values, k - 1), run, i);
        lemma_count_run(hero, times(values[k - 1]), i);
    }
}

/// In one list behind another a hero occurs as often as in both together.
proof fn lemma_count_concat(front: Seq<usize>, back: Seq<usize>, i: int)
    ensures
        count(front + back, i) == count(front, i) + count(back, i),
    decreases back.len(),
{
    if back.len() == 0 {
        assert(front + back =~= front);
    } else {
        assert((front + back).drop_last() =~= front + back.drop_last());
        lemma_count_concat(front, back.drop_last(), i);
    }
}

/// In a run of one hero that hero occurs as often as the run is long, and
/// no other hero occurs.
proof fn lemma_count_run(hero: usize, len: nat, i: int)
    ensures
        count(Seq::new(len, |j: int| hero), i) == if hero == i {
            len as int
        } else {
            0
        },
    decreases len,
{
    if len > 0 {
        assert(Seq::new(len, |j: int| hero).drop_last() =~= Seq::new(
            (len - 1) as nat,
            |j: int| hero,
        ));
        lemma_count_run(hero, (len - 1) as nat, i);
    }
}

impl Problem {
    /// The stage of an open round has its two constraints in the program.
    proof fn lemma_stage_in_program(&self, upto: int, turn: int) -> (at: int)
        requires
            self.stage_open(turn),
            0 <= turn < upto,
        ensures
            0 <= at,
            at + 1 < self.stage_constraints(upto).len(),
            self.stage_constraints(upto)[at] == self.upper_constraint(turn),
            self.stage_constraints(upto)[at + 1] == self.lower_constraint(turn),
            self.stage_turns(upto).contains(turn as usize),
        decreases upto,
    {
        if turn == upto - 1 {
            let at = self.stage_constraints(upto - 1).len() as int;
            assert(self.stage_turns(upto).last() == turn as usize);
            at
        } else {
            let at = self.lemma_stage_in_program(upto - 1, turn);
            let turns = self.stage_turns(upto - 1);
            let k = choose|k: int| 0 <= k < turns.len() && #[trigger] turns[k] == turn as usize;
            if self.stage_open(upto - 1) {
                assert(self.stage_turns(upto)[k] == turn as usize);
            }
            at
        }
    }

    /// The sum of the first `k` contributions is the boost damage that the
    /// stage's constraints count.
    proof fn lemma_sum_contributions(&self, values: Valuation, turn: int, k: int)
        requires
            self.wf(),
            0 <= turn < self.rounds(),
            values.boosts.len() == self.chosen_hero + 1,
            0 <= k <= self.chosen_hero + 1,
        ensures
            sum_of(self.contributions(turn).take(k), values) == self.weighted(
                values.boosts.map_values(|b: i64| b as int),
                turn,
                k,
            ),
        decreases k,
    {
        let counts = values.boosts.map_values(|b: i64| b as int);
        if k > 0 {
            self.lemma_sum_contributions(values, turn, k - 1);
            self.lemma_stage_numbers(turn);
            self.lemma_scale();
            let terms = self.contributions(turn);
            assert(terms.take(k).drop_last() =~= terms.take(k - 1));
            assert(terms.take(k).last() == terms[k - 1]);
            assert(0 <= self.contribution(k - 1, turn) <= self.spec_big_m());
            assert(counts[k - 1] == values.boosts[k - 1] as int);
        }
    }

    /// The sum of the budget constraint is the number of boosts that the
    /// values stand for.
    proof fn lemma_sum_budget(&self, values: Valuation, k: int)
        requires
            values.in_domain(),
            values.boosts.len() == self.chosen_hero + 1,
            0 <= k <= self.chosen_hero + 1,
        ensures
            sum_of(
                budget_constraint(
                    Seq::new((self.chosen_hero + 1) as nat, |i: int| i as usize),
                    self.max_boosts,
                ).terms.take(k),
                values,
            ) == total_boosts(values.boosts, k),
        decreases k,
    {
        let terms = budget_constraint(
            Seq::new((self.chosen_hero + 1) as nat, |i: int| i as usize),
            self.max_boosts,
        ).terms;
        if k > 0 {
            self.lemma_sum_budget(values, k - 1);
            assert(terms.take(k).drop_last() =~= terms.take(k - 1));
            assert(terms.take(k).last() == terms[k - 1]);
            assert(values.boosts[k - 1] >= 0);
        }
    }
}

impl Problem {
    /// What the two constraints of the stage of round `turn` compare.
    proof fn lemma_stage_sums(&self, values: Valuation, turn: int)
        requires
            self.wf(),
            0 <= turn < self.rounds(),
            values.boosts.len() == self.chosen_hero + 1,
        ensures
            sum_of(self.upper_constraint(turn).terms, values) == self.weighted(
                values.boosts.map_values(|b: i64| b as int),
                turn,
                self.chosen_hero as int,
            ) + turn * self.boost_damage * values.boosts[self.chosen_hero as int]
                + self.spec_big_m() * values.value(Var::Stage(turn as usize)),
            sum_of(self.lower_constraint(turn).terms, values) == self.weighted(
                values.boosts.map_values(|b: i64| b as int),
                turn,
                self.chosen_hero + 1,
            ) - self.spec_big_m() * values.value(Var::Stage(turn as usize)),
            self.upper_constraint(turn).bound == self.health_at(turn) + self.spec_big_m() - 1,
            self.lower_constraint(turn).bound == self.health_at(turn)
                - self.heroes@[self.chosen_hero as int].damage - self.spec_big_m(),
    {
        let chosen = self.chosen_hero as int;
        let m = self.spec_big_m();
        let stage = Var::Stage(turn as usize);
        self.lemma_scale();
        self.lemma_stage_numbers(turn);
        self.lemma_health_range(turn);
        let terms = self.contributions(turn);
        self.lemma_sum_contributions(values, turn, chosen);
        self.lemma_sum_contributions(values, turn, chosen + 1);
        assert(terms.take(chosen + 1) =~= terms);
        assert(terms.drop_last() =~= terms.take(chosen));
        let own = Term {
            coeff: (turn * self.boost_damage) as i64,
            var: Var::Boost(self.chosen_hero),
        };
        let on = Term { coeff: m as i64, var: stage };
        let off = Term { coeff: (-m) as i64, var: stage };
        lemma_sum_push(terms.drop_last(), own, values);
        lemma_sum_push(terms.drop_last().push(own), on, values);
        lemma_sum_push(terms, off, values);
        assert(values.value(own.var) == values.boosts[chosen]);
        assert((-m) * values.value(stage) == -(m * values.value(stage))) by (nonlinear_arith);
    }
}

/// The program is sound: values that meet all its constraints and select a
/// stage stand for an allocation that solves the problem.
pub proof fn lemma_program_sound(problem: Problem, values: Valuation, turn: usize)
    requires
        problem.wf(),
        values.boosts.len() == problem.chosen_hero + 1,
        problem.program().feasible(values),
        problem.stage_open(turn as int),
        values.value(Var::Stage(turn)) == 1,
    ensures
        problem.is_solution(expand(values.boosts, values.boosts.len() as int)),
{
    let chosen = problem.chosen_hero as int;
    let rounds = problem.rounds();
    let program = problem.program();
    let t = turn as int;
    let m = problem.spec_big_m();
    let counts = values.boosts.map_values(|b: i64| b as int);
    let boosts = expand(values.boosts, chosen + 1);
    problem.lemma_scale();
    problem.lemma_stage_numbers(t);
    // The budget.
    let budget = program.constraints[0];
    assert(budget.holds(values));
    problem.lemma_sum_budget(values, chosen + 1);
    assert(budget.terms.take(chosen + 1) =~= budget.terms);
    lemma_expand(values.boosts, chosen + 1);
    assert(problem.allocation_ok(boosts));
    assert forall|i: int| 0 <= i <= chosen implies #[trigger] counts[i] == count(boosts, i) by {
        lemma_count_expand(values.boosts, chosen + 1, i);
        assert(values.boosts[i] >= 0);
    }
    // The two constraints of the stage.
    let at = problem.lemma_stage_in_program(rounds, t);
    let upper = problem.upper_constraint(t);
    let lower = problem.lower_constraint(t);
    assert(program.constraints[at + 1] == upper);
    assert(program.constraints[at + 2] == lower);
    assert(upper.holds(values) && lower.holds(values));
    problem.lemma_stage_sums(values, t);
    assert(problem.stage_met(counts, t));
    lemma_stage_sound(problem, boosts, counts, t);
}

/// Additions that are not negative bank nothing negative.
proof fn lemma_banked_nonnegative(heroes: Seq<Hero>, extra: Seq<int>, t: int, k: int)
    requires
        0 <= t,
        0 <= k <= heroes.len(),
        extra.len() == heroes.len(),
        forall|i: int| 0 <= i < extra.len() ==> #[trigger] extra[i] >= 0,
    ensures
        banked(heroes, extra, t, k) >= 0,
    decreases k,
{
    if k > 0 {
        lemma_banked_nonnegative(heroes, extra, t, k - 1);
        lemma_fall_nonnegative(heroes, k - 1);
        let m = if fall(heroes, k - 1) <= t {
            fall(heroes, k - 1)
        } else {
            t
        };
        assert(extra[k - 1] * m >= 0) by (nonlinear_arith)
            requires
                extra[k - 1] >= 0,
                m >= 0,
        ;
    }
}

/// Number of boosts on the heroes `0..k`.
spec fn boosts_on(boosts: Seq<usize>, k: int) -> int
    decreases k,
{
    if k <= 0 {
        0
    } else {
        boosts_on(boosts, k - 1) + count(boosts, k - 1)
    }
}

/// One more boost is one more boost on the first heroes, if it is on one of
/// them.
proof fn lemma_boosts_on_push(boosts: Seq<usize>, hero: usize, k: int)
    requires
        0 <= k,
    ensures
        boosts_on(boosts.push(hero), k) == boosts_on(boosts, k) + if hero < k {
            1int
        } else {
            0int
        },
    decreases k,
{
    if k > 0 {
        lemma_boosts_on_push(boosts, hero, k - 1);
        assert(boosts.push(hero).drop_last() =~= boosts);
    }
}

/// There are no more boosts on the first heroes than boosts.
proof fn lemma_boosts_on_bound(boosts: Seq<usize>, k: int)
    requires
        0 <= k,
    ensures
        0 <= boosts_on(boosts, k) <= boosts.len(),
    decreases boosts.len(),
{
    if boosts.len() == 0 {
        lemma_boosts_on_none(boosts, k);
    } else {
        lemma_boosts_on_bound(boosts.drop_last(), k);
        lemma_boosts_on_push(boosts.drop_last(), boosts.last(), k);
        assert(boosts.drop_last().push(boosts.last()) =~= boosts);
    }
}

/// Without boosts there are none on the first heroes.
proof fn lemma_boosts_on_none(boosts: Seq<usize>, k: int)
    requires
        boosts.len() == 0,
    ensures
        boosts_on(boosts, k) == 0,
    decreases k,
{
    if k > 0 {
        lemma_boosts_on_none(boosts, k - 1);
    }
}

impl Problem {
    /// The boost damage that the stage's constraints count is at most what
    /// all counted boosts would bring on a hero that acts in every round.
    proof fn lemma_weighted_bound(&self, boosts: Seq<usize>, counts: Seq<int>, turn: int, k: int)
        requires
            self.wf(),
            0 <= turn < self.rounds(),
            0 <= k <= counts.len() == self.chosen_hero + 1,
            forall|i: int| 0 <= i < counts.len() ==> #[trigger] counts[i] == count(boosts, i),
        ensures
            0 <= self.weighted(counts, turn, k) <= (turn + 1) * self.boost_damage * boosts_on(
                boosts,
                k,
            ),
        decreases k,
    {
        if k > 0 {
            self.lemma_weighted_bound(boosts, counts, turn, k - 1);
            self.lemma_stage_numbers(turn);
            lemma_count_bounds(boosts, k - 1);
            let w = self.contribution(k - 1, turn);
            let top = (turn + 1) * self.boost_damage;
            let c = counts[k - 1];
            assert(0 <= w <= top);
            assert(0 <= w * c <= top * c) by (nonlinear_arith)
                requires
                    0 <= w <= top,
                    0 <= c,
            ;
            assert(top * boosts_on(boosts, k) == top * boosts_on(boosts, k - 1) + top * c)
                by (nonlinear_arith)
                requires
                    boosts_on(boosts, k) == boosts_on(boosts, k - 1) + c,
            ;
        } else {
            assert((turn + 1) * self.boost_damage * 0 == 0) by (nonlinear_arith);
        }
    }
}

/// The stages are complete: where the monster has health to lose, every
/// solution meets the constraints of the stage of some round, and that round
/// is one of those that get a stage.
pub proof fn lemma_stage_complete(problem: Problem, boosts: Seq<usize>) -> (turn: int)
    requires
        problem.wf(),
        problem.monster_health >= 1,
        problem.is_solution(boosts),
    ensures
        problem.stage_open(turn),
        problem.stage_met(
            Seq::new((problem.chosen_hero + 1) as nat, |i: int| count(boosts, i)),
            turn,
        ),
        lands(
            boosted(problem.heroes@, problem.boost_damage as int, boosts),
            problem.monster_health as int,
            turn,
            problem.chosen_hero as int,
        ),
{
    let weak = problem.heroes@;
    let n = weak.len() as int;
    let chosen = problem.chosen_hero as int;
    let boost = problem.boost_damage as int;
    let health = problem.monster_health as int;
    let strong = boosted(weak, boost, boosts);
    let extra = Seq::new(weak.len(), |i: int| boost * count(boosts, i));
    let counts = Seq::new((chosen + 1) as nat, |i: int| count(boosts, i));
    let (turn, hero) = choose|t: int, i: int| lands(strong, health, t, i);
    assert(hero == chosen);
    problem.lemma_boosts_apply(boosts);
    assert forall|i: int| 0 <= i < n implies (#[trigger] strong[i]).health == weak[i].health
        && strong[i].damage == weak[i].damage + extra[i] && strong[i].damage >= 0 && extra[i] >= 0
        && weak[i].damage >= 0 && (i > chosen ==> extra[i] == 0) by {
        lemma_count_bounds(boosts, i);
        assert(weak[i].damage >= 0);
        assert(boost * count(boosts, i) >= 0) by (nonlinear_arith)
            requires
                boost >= 0,
                count(boosts, i) >= 0,
        ;
        if i > chosen {
            lemma_count_absent(boosts, i);
        }
    }
    assert(adds(weak, strong, extra));
    assert forall|i: int| 0 <= i < n implies #[trigger] extra[i] >= 0 && (i > chosen ==> extra[i]
        == 0) by {
        assert(strong[i].health == weak[i].health);
    }
    lemma_fall_same(weak, strong, chosen);
    lemma_fall_same(weak, strong, chosen - 1);
    lemma_fall_same(weak, strong, n - 1);
    assert(acts(weak, turn, chosen));
    lemma_banked(weak, strong, extra, turn);
    lemma_banked_rest(weak, extra, turn, chosen + 1, n);
    lemma_round_extra(weak, strong, extra, turn, chosen);
    lemma_round_extra(weak, strong, extra, turn, chosen + 1);
    lemma_banked_step(weak, extra, turn, chosen);
    lemma_banked_step(weak, extra, turn, chosen + 1);
    problem.lemma_weighted(counts, extra, turn, chosen);
    problem.lemma_weighted(counts, extra, turn, chosen + 1);
    assert(round_damage(weak, turn, chosen + 1) == round_damage(weak, turn, chosen) + strike(
        weak,
        turn,
        chosen,
    ));
    assert(dealt(strong, turn, chosen) == dealt(weak, turn, chosen) + problem.weighted(
        counts,
        turn,
        chosen + 1,
    ));
    assert(dealt(weak, turn, chosen) == health - problem.health_at(turn) + weak[chosen].damage);
    // Just before the blow the monster is alive.
    let before = damage_before(strong, turn) + round_damage(strong, turn, chosen);
    if chosen > 0 && acts(strong, turn, chosen - 1) {
        assert(earlier(turn, chosen - 1, turn, chosen));
        assert(dealt(strong, turn, chosen - 1) < health);
    } else {
        lemma_fall_nonnegative(strong, chosen - 1);
        lemma_fallen_deal_nothing(strong, turn, chosen);
        if turn > 0 {
            lemma_fall_monotone(strong, chosen, n - 1);
            assert(acts(strong, turn - 1, n - 1));
            assert(earlier(turn - 1, n - 1, turn, chosen));
            assert(dealt(strong, turn - 1, n - 1) < health);
            assert(damage_before(strong, turn) == damage_before(strong, turn - 1) + round_damage(
                strong,
                turn - 1,
                n,
            ));
        }
    }
    assert(before < health);
    assert(banked(weak, extra, turn, chosen + 1) == banked(weak, extra, turn, chosen)
        + extra[chosen] * turn);
    assert(extra[chosen] * turn == turn * boost * counts[chosen]) by (nonlinear_arith)
        requires
            extra[chosen] == boost * counts[chosen],
    ;
    assert(before == health - problem.health_at(turn) + problem.weighted(counts, turn, chosen)
        + turn * boost * counts[chosen]);
    assert(problem.stage_met(counts, turn));
    // The round is reached without boosts.
    lemma_dealt_nonnegative(strong, turn, chosen);
    lemma_banked_nonnegative(weak, extra, turn, n);
    assert forall|s: int| 0 < s <= turn implies health - #[trigger] damage_before(weak, s) > 0 by {
        lemma_damage_before_monotone(weak, s, turn);
    }
    // The whole budget on the chosen hero would do.
    problem.lemma_weighted_bound(boosts, counts, turn, chosen + 1);
    lemma_boosts_on_bound(boosts, chosen + 1);
    let top = (turn + 1) * boost;
    assert(top * boosts_on(boosts, chosen + 1) <= (turn + 1) * (problem.max_boosts * boost))
        by (nonlinear_arith)
        requires
            top == (turn + 1) * boost,
            0 <= boosts_on(boosts, chosen + 1) <= problem.max_boosts,
            top >= 0,
    ;
    assert(top >= 0) by (nonlinear_arith)
        requires
            top == (turn + 1) * boost,
            turn >= 0,
            boost >= 0,
    ;
    assert(problem.stage_open(turn));
    turn
}

/// A monster without health to lose falls to the first blow of the fight,
/// which is the first hero's, whatever the boosts: such a problem has a
/// solution exactly when the first hero is the chosen one, and then every
/// allocation within the rules is one.
pub proof fn lemma_first_blow(problem: Problem, boosts: Seq<usize>)
    requires
        problem.wf(),
        problem.monster_health <= 0,
        problem.allocation_ok(boosts),
    ensures
        problem.killer(boosts) == Some(0usize),
        problem.is_solution(boosts) <==> problem.chosen_hero == 0,
        problem.stage_open(0),
{
    let weak = problem.heroes@;
    let boost = problem.boost_damage as int;
    let health = problem.monster_health as int;
    let strong = boosted(weak, boost, boosts);
    problem.lemma_boosts_apply(boosts);
    problem.lemma_scale();
    lemma_count_bounds(boosts, 0);
    assert(weak[0].health >= 1 && weak[0].damage >= 0);
    assert(boost * count(boosts, 0) >= 0) by (nonlinear_arith)
        requires
            boost >= 0,
            count(boosts, 0) >= 0,
    ;
    assert(strong[0].health == weak[0].health && strong[0].damage >= 0);
    assert(fall(strong, 0) == fall(strong, -1) + strong[0].health);
    assert(acts(strong, 0, 0));
    assert(round_damage(strong, 0, 1) == round_damage(strong, 0, 0) + strike(strong, 0, 0));
    assert(dealt(strong, 0, 0) >= health);
    assert(lands(strong, health, 0, 0));
    lemma_killing_blow_is(strong, health, 0, 0);
    // The stage of the first round.
    assert forall|j: int| 0 <= j < weak.len() implies (#[trigger] weak[j]).damage >= 0 by {
        assert(weak[j].health >= 1 && weak[j].damage >= 0);
    }
    lemma_round_damage_nonnegative(weak, 0, problem.chosen_hero as int);
    assert(problem.max_boosts * boost >= 0) by (nonlinear_arith)
        requires
            problem.max_boosts >= 0,
            boost >= 0,
    ;
    assert(weak[problem.chosen_hero as int].damage >= 0);
    assert(problem.stage_open(0));
}

/// Where no round gets a stage, the problem has no solution.
pub proof fn lemma_no_stage_no_solution(problem: Problem)
    requires
        problem.wf(),
        problem.stage_turns(problem.rounds()).len() == 0,
    ensures
        !problem.solvable(),
{
    if problem.solvable() {
        let boosts = choose|boosts: Seq<usize>| problem.is_solution(boosts);
        problem.lemma_scale();
        if problem.monster_health >= 1 {
            let turn = lemma_stage_complete(problem, boosts);
            let at = problem.lemma_stage_in_program(problem.rounds(), turn);
        } else {
            lemma_first_blow(problem, boosts);
            let at = problem.lemma_stage_in_program(problem.rounds(), 0);
        }
    }
}

/// The values that stand for the allocation `boosts` and select the stage of
/// round `turn` and no other.
pub open spec fn valuation_of(problem: Problem, boosts: Seq<usize>, turn: int) -> Valuation {
    Valuation {
        boosts: Seq::new((problem.chosen_hero + 1) as nat, |i: int| count(boosts, i) as i64),
        stages: Map::new(
            |t: usize| problem.stage_open(t as int),
            |t: usize|
                if t == turn {
                    1i64
                } else {
                    0i64
                },
        ),
    }
}

/// The values of an allocation stand for as many boosts as the allocation
/// has on the heroes that they speak of.
proof fn lemma_total_boosts(boosts: Seq<usize>, values: Seq<i64>, k: int)
    requires
        0 <= k <= values.len(),
        boosts.len() <= i64::MAX,
        forall|i: int| 0 <= i < values.len() ==> #[trigger] values[i] == count(boosts, i) as i64,
    ensures
        total_boosts(values, k) == boosts_on(boosts, k),
    decreases k,
{
    if k > 0 {
        lemma_total_boosts(boosts, values, k - 1);
        lemma_count_bounds(boosts, k - 1);
    }
}

impl Problem {
    /// Every constraint of the stages is the upper or the lower constraint
    /// of a round that gets a stage.
    proof fn lemma_stage_constraint_kind(&self, upto: int, at: int) -> (found: (int, bool))
        requires
            0 <= at < self.stage_constraints(upto).len(),
        ensures
            0 <= found.0 < upto,
            self.stage_open(found.0),
            found.1 ==> self.stage_constraints(upto)[at] == self.upper_constraint(found.0),
            !found.1 ==> self.stage_constraints(upto)[at] == self.lower_constraint(found.0),
        decreases upto,
    {
        let before = self.stage_constraints(upto - 1).len();
        if at < before {
            self.lemma_stage_constraint_kind(upto - 1, at)
        } else {
            (upto - 1, at == before)
        }
    }
}

/// The program is complete: where the monster has health to lose, the
/// values that stand for a solution and select the stage of the round of its
/// killing blow meet every constraint.
pub proof fn lemma_program_complete(problem: Problem, boosts: Seq<usize>) -> (turn: int)
    requires
        problem.wf(),
        problem.monster_health >= 1,
        problem.is_solution(boosts),
    ensures
        problem.stage_open(turn),
        problem.program().feasible(valuation_of(problem, boosts, turn)),
        valuation_of(problem, boosts, turn).value(Var::Stage(turn as usize)) == 1,
{
    let chosen = problem.chosen_hero as int;
    let rounds = problem.rounds();
    let program = problem.program();
    let m = problem.spec_big_m();
    let boost = problem.boost_damage as int;
    let turn = lemma_stage_complete(problem, boosts);
    let values = valuation_of(problem, boosts, turn);
    let counts = Seq::new((chosen + 1) as nat, |i: int| count(boosts, i));
    problem.lemma_scale();
    assert forall|i: int| 0 <= i <= chosen implies 0 <= count(boosts, i) <= i64::MAX
        && #[trigger] values.boosts[i] == count(boosts, i) by {
        lemma_count_bounds(boosts, i);
    }
    assert(values.boosts.map_values(|b: i64| b as int) =~= counts);
    assert(values.in_domain());
    lemma_boosts_on_bound(boosts, chosen + 1);
    assert forall|k: int| 0 <= k < program.constraints.len() implies (
    #[trigger] program.constraints[k]).holds(values) by {
        if k == 0 {
            let budget = program.constraints[0];
            problem.lemma_sum_budget(values, chosen + 1);
            assert(budget.terms.take(chosen + 1) =~= budget.terms);
            lemma_total_boosts(boosts, values.boosts, chosen + 1);
        } else {
            let (t, is_upper) = problem.lemma_stage_constraint_kind(rounds, k - 1);
            assert(program.constraints[k] == problem.stage_constraints(rounds)[k - 1]);
            let selected = values.value(Var::Stage(t as usize));
            assert(selected == if t == turn { 1int } else { 0int });
            problem.lemma_stage_sums(values, t);
            problem.lemma_stage_numbers(t);
            problem.lemma_health_range(t);
            problem.lemma_relaxed(t);
            problem.lemma_weighted_bound(boosts, counts, t, chosen);
            problem.lemma_weighted_bound(boosts, counts, t, chosen + 1);
            let top = (t + 1) * boost;
            let own = counts[chosen];
            let others = boosts_on(boosts, chosen);
            assert(m * 1 == m && m * 0 == 0) by (nonlinear_arith);
            assert(t * boost * own <= top * own) by (nonlinear_arith)
                requires
                    top == (t + 1) * boost,
                    t >= 0,
                    boost >= 0,
                    own >= 0,
            ;
            assert(top * others + top * own <= (t + 1) * (problem.max_boosts * boost))
                by (nonlinear_arith)
                requires
                    top == (t + 1) * boost,
                    t >= 0,
                    boost >= 0,
                    0 <= others + own <= problem.max_boosts,
            ;
        }
    }
    turn
}

/// The program decides the problem: where the monster has health to lose,
/// the problem has a solution exactly when some values meet all constraints
/// of its program and select a stage.
pub proof fn lemma_program_decides(problem: Problem)
    requires
        problem.wf(),
        problem.monster_health >= 1,
    ensures
        problem.solvable() <==> exists|values: Valuation, turn: usize|
            values.boosts.len() == problem.chosen_hero + 1 && #[trigger] problem.program().feasible(
                values,
            ) && problem.stage_open(turn as int) && #[trigger] values.value(Var::Stage(turn)) == 1,
{
    if problem.solvable() {
        let boosts = choose|boosts: Seq<usize>| problem.is_solution(boosts);
        let turn = lemma_program_complete(problem, boosts);
        let values = valuation_of(problem, boosts, turn);
        problem.lemma_scale();
        assert(problem.program().feasible(values) && problem.stage_open(turn as usize as int)
            && values.value(Var::Stage(turn as usize)) == 1);
    }
    if exists|values: Valuation, turn: usize|
        values.boosts.len() == problem.chosen_hero + 1 && #[trigger] problem.program().feasible(
            values,
        ) && problem.stage_open(turn as int) && #[trigger] values.value(Var::Stage(turn)) == 1 {
        let (values, turn) = choose|values: Valuation, turn: usize|
            values.boosts.len() == problem.chosen_hero + 1 && #[trigger] problem.program().feasible(
                values,
            ) && problem.stage_open(turn as int) && #[trigger] values.value(Var::Stage(turn)) == 1;
        lemma_program_sound(problem, values, turn);
    }
}

/// The values that an assignment gives to the variables, where the stage
/// indicators stand for the rounds `turns`, in their order.
pub open spec fn assignment_values(turns: Seq<usize>, found: Assignment) -> Valuation {
    Valuation {
        boosts: found.boosts@,
        stages: Map::new(
            |turn: usize| turns.contains(turn),
            |turn: usize| found.stages@[turns.index_of(turn)],
        ),
    }
}

impl Formulation {
    /// The values that an assignment gives to the variables of this
    /// formulation.
    pub open spec fn valuation(&self, found: Assignment) -> Valuation {
        assignment_values(indices_of(self.stages@), found)
    }

    /// The assignment has a value for each variable, and its values are of
    /// the right kind and meet every constraint of the program.
    pub open spec fn met_by(&self, found: Assignment) -> bool {
        &&& found.boosts.len() == self.boosts.len()
        &&& found.stages.len() == self.stages.len()
        &&& self.program@.feasible(self.valuation(found))
    }

    /// The verdict is true of the program: an optimal assignment meets the
    /// program and no values that meet it reach a greater objective; and
    /// where the program is called infeasible, no values meet it.
    pub open spec fn judged_truly(&self, verdict: SolverVerdict) -> bool {
        match verdict {
            SolverVerdict::Optimal(found) => self.met_by(found) && forall|other: Valuation|
                other.boosts.len() == self.boosts.len() && #[trigger] self.program@.feasible(other)
                    ==> sum_of(self.program@.objective, other) <= sum_of(
                    self.program@.objective,
                    self.valuation(found),
                ),
            SolverVerdict::Infeasible => forall|other: Valuation|
                other.boosts.len() == self.boosts.len() ==> !#[trigger] self.program@.feasible(other),
            SolverVerdict::Error(_) => true,
        }
    }
}

impl Problem {
    /// The rounds that get a stage are listed in rising order, and each of
    /// them is open.
    proof fn lemma_stage_turns(&self, upto: int)
        requires
            self.wf(),
        ensures
            forall|k: int|
                0 <= k < self.stage_turns(upto).len() ==> self.stage_open(
                    (#[trigger] self.stage_turns(upto)[k]) as int,
                ) && self.stage_turns(upto)[k] < upto,
            forall|j: int, k: int|
                0 <= j < k < self.stage_turns(upto).len() ==> self.stage_turns(upto)[j]
                    < self.stage_turns(upto)[k],
        decreases upto,
    {
        if upto > 0 {
            self.lemma_stage_turns(upto - 1);
            self.lemma_scale();
            let before = self.stage_turns(upto - 1);
            let turns = self.stage_turns(upto);
            if self.stage_open(upto - 1) {
                assert(turns == before.push((upto - 1) as usize));
                assert((upto - 1) as usize == upto - 1);
            } else {
                assert(turns == before);
            }
            assert forall|k: int| 0 <= k < turns.len() implies self.stage_open(
                (#[trigger] turns[k]) as int,
            ) && turns[k] < upto by {
                if k < before.len() {
                    assert(turns[k] == before[k]);
                }
            }
            assert forall|j: int, k: int| 0 <= j < k < turns.len() implies turns[j] < turns[k] by {
                assert(turns[j] == before[j]);
                if k < before.len() {
                    assert(turns[k] == before[k]);
                }
            }
        }
    }
}

/// The objective counts the selected stages: it is at least the value of
/// each indicator, and zero where every indicator is zero.
proof fn lemma_objective(turns: Seq<usize>, values: Valuation, k: int)
    requires
        0 <= k <= turns.len(),
        values.in_domain(),
    ensures
        sum_of(Problem::objective_of(turns).take(k), values) >= 0,
        forall|j: int|
            0 <= j < k ==> sum_of(Problem::objective_of(turns).take(k), values) >= values.value(
                Var::Stage(#[trigger] turns[j]),
            ),
        (forall|j: int| 0 <= j < k ==> values.value(Var::Stage(#[trigger] turns[j])) == 0) ==> sum_of(
            Problem::objective_of(turns).take(k),
            values,
        ) == 0,
    decreases k,
{
    let terms = Problem::objective_of(turns);
    if k > 0 {
        lemma_objective(turns, values, k - 1);
        assert(terms.take(k).drop_last() =~= terms.take(k - 1));
        assert(terms.take(k).last() == terms[k - 1]);
        let last = values.value(Var::Stage(turns[k - 1]));
        assert(last >= 0);
        assert(1 * last == last);
    }
}

/// A verdict that meets the program and selects a stage is read as an
/// allocation, and that allocation solves the problem.
pub proof fn lemma_meeting_verdict(
    problem: Problem,
    formulation: Formulation,
    found: Assignment,
    answer: Result<Option<Vec<usize>>, SolveError>,
)
    requires
        problem.wf(),
        formulation.describes(&problem),
        formulation.met_by(found),
        stage_selected(found.stages@),
        is_reading(&problem, SolverVerdict::Optimal(found), answer),
    ensures
        answer matches Ok(Some(boosts)) && problem.is_solution(boosts@),
{
    let turns = problem.stage_turns(problem.rounds());
    let values = formulation.valuation(found);
    assert(indices_of(formulation.stages@) =~= turns);
    problem.lemma_stage_turns(problem.rounds());
    let k = choose|k: int| 0 <= k < found.stages@.len() && #[trigger] found.stages@[k] != 0;
    let turn = turns[k];
    assert(turns.contains(turn));
    let at = turns.index_of(turn);
    assert(at == k) by {
        if at < k {
            assert(turns[at] < turns[k]);
        } else if k < at {
            assert(turns[k] < turns[at]);
        }
    }
    assert(values.stages.contains_key(turn));
    assert(values.value(Var::Stage(turn)) == found.stages@[k]);
    assert(values.stages[turn] == 0 || values.stages[turn] == 1);
    lemma_program_sound(problem, values, turn);
}

/// Where the verdict is true of the program, the reading of it is an
/// allocation exactly when the problem has a solution, if the monster has
/// health to lose; the formulation is never found at fault.
pub proof fn lemma_true_verdict(
    problem: Problem,
    formulation: Formulation,
    verdict: SolverVerdict,
    answer: Result<Option<Vec<usize>>, SolveError>,
)
    requires
        problem.wf(),
        problem.monster_health >= 1,
        formulation.describes(&problem),
        formulation.judged_truly(verdict),
        is_reading(&problem, verdict, answer),
    ensures
        !(answer matches Err(SolveError::Formulation)),
        verdict is Error <==> answer matches Err(SolveError::Solver(_)),
        !(verdict is Error) ==> (answer matches Ok(Some(_)) <==> problem.solvable()),
{
    let turns = problem.stage_turns(problem.rounds());
    assert(indices_of(formulation.stages@) =~= turns);
    match verdict {
        SolverVerdict::Error(_) => {},
        SolverVerdict::Infeasible => {
            if problem.solvable() {
                let boosts = choose|boosts: Seq<usize>| problem.is_solution(boosts);
                let turn = lemma_program_complete(problem, boosts);
                let other = valuation_of(problem, boosts, turn);
                assert(formulation.program@.feasible(other));
            }
        },
        SolverVerdict::Optimal(found) => {
            let values = formulation.valuation(found);
            if stage_selected(found.stages@) {
                lemma_meeting_verdict(problem, formulation, found, answer);
            } else if problem.solvable() {
                let boosts = choose|boosts: Seq<usize>| problem.is_solution(boosts);
                let turn = lemma_program_complete(problem, boosts);
                let other = valuation_of(problem, boosts, turn);
                assert(formulation.program@.feasible(other));
                problem.lemma_scale();
                let at = problem.lemma_stage_in_program(problem.rounds(), turn);
                let j = choose|j: int| 0 <= j < turns.len() && #[trigger] turns[j] == turn as usize;
                lemma_objective(turns, other, turns.len() as int);
                lemma_objective(turns, values, turns.len() as int);
                assert(Problem::objective_of(turns).take(turns.len() as int)
                    =~= Problem::objective_of(turns));
                assert(other.value(Var::Stage(turns[j])) == 1);
                assert forall|i: int| 0 <= i < turns.len() implies values.value(
                    Var::Stage(#[trigger] turns[i]),
                ) == 0 by {
                    problem.lemma_stage_turns(problem.rounds());
                    assert(turns.contains(turns[i]));
                    let at = turns.index_of(turns[i]);
                    assert(found.stages@[at] == 0);
                }
            }
        },
    }
}

} // verus!
