use vstd::prelude::*;
use vstd::slice::slice_subrange;
use crate::model::{
    Assignment, Constraint, ConstraintView, DynVariable, LinearProgram, ProgramView, Relation,
    SolverVerdict, Term, Var, label_text,
};
use crate::problem::{
    Hero, Problem, SCALE_LIMIT, fall, joint_damage, lemma_fall_increases, lemma_fall_monotone,
    lemma_joint_damage_monotone, lemma_joint_damage_prefix,
};
use crate::simulation::{
    acts, damage_before, lemma_fallen_deal_nothing, round_damage, solution_is_valid,
};
use crate::simulation::lemma_zero_boost;
use crate::soundness::{lemma_first_blow, lemma_no_stage_no_solution, lemma_true_verdict};

verus! {

/// The stretch of the fight up to the round in which one hero leaves the
/// line: `end_stage` is the first round that the hero no longer acts in,
/// `early_damage` is what the heroes before the chosen one deal per round
/// during the stretch.
#[derive(Debug, PartialEq, Eq, Clone, Copy)]
pub struct CombatPhase {
    pub end_stage: usize,
    pub early_damage: i64,
}

/// The fight as the chosen hero sees it: one phase for each hero up to and
/// including the chosen one, the damage per round of the heroes after it, and
/// its own.
#[derive(Debug, PartialEq, Eq)]
pub struct Combat {
    pub phases: Vec<CombatPhase>,
    pub late_damage: i64,
    pub chosen_damage: i64,
}

/// The first `k` numbers of `xs` added up.
pub open spec fn prefix_sum(xs: Seq<i64>, k: int) -> int
    decreases k,
{
    if 0 < k <= xs.len() {
        prefix_sum(xs, k - 1) + xs[k - 1]
    } else {
        0
    }
}

/// Damage per round of the heroes from `i` to the end of `heroes`.
pub open spec fn tail_damage(heroes: Seq<Hero>, i: int) -> int {
    joint_damage(heroes, heroes.len() as int) - joint_damage(heroes, i)
}

impl Combat {
    /// This is the combat that belongs to `problem`.
    pub open spec fn describes(&self, problem: &Problem) -> bool {
        let heroes = problem.heroes@;
        let chosen = problem.chosen_hero as int;
        &&& self.phases.len() == chosen + 1
        &&& forall|i: int|
            0 <= i <= chosen ==> (#[trigger] self.phases[i]).end_stage == fall(heroes, i)
                && self.phases[i].early_damage == joint_damage(heroes, chosen) - joint_damage(
                heroes,
                i,
            )
        &&& self.late_damage == joint_damage(heroes, heroes.len() as int) - joint_damage(
            heroes,
            chosen + 1,
        )
        &&& self.chosen_damage == heroes[chosen].damage
    }
}

/// The running totals of `xs`: entry `i` is the sum of `xs[0..=i]`.
pub fn cumulative_sum(xs: &[i64]) -> (sums: Vec<i64>)
    requires
        forall|k: int| 0 < k <= xs.len() ==> i64::MIN <= #[trigger] prefix_sum(xs@, k) <= i64::MAX,
    ensures
        sums.len() == xs.len(),
        forall|i: int| 0 <= i < sums.len() ==> #[trigger] sums[i] == prefix_sum(xs@, i + 1),
{
    let mut total: i64 = 0;
    let mut sums: Vec<i64> = Vec::new();
    let mut i: usize = 0;
    while i < xs.len()
        invariant
            i <= xs.len(),
            sums.len() == i,
            total == prefix_sum(xs@, i as int),
            forall|k: int| 0 < k <= xs.len() ==> i64::MIN <= #[trigger] prefix_sum(xs@, k) <= i64::MAX,
            forall|j: int| 0 <= j < i ==> #[trigger] sums[j] == prefix_sum(xs@, j + 1),
        decreases xs.len() - i,
    {
        assert(prefix_sum(xs@, i + 1) == prefix_sum(xs@, i as int) + xs[i as int]);
        total = total + xs[i];
        sums.push(total);
        i += 1;
    }
    sums
}

/// The first `k` damages of `heroes`, last hero first, add up to the damage
/// of the last `k` heroes.
proof fn lemma_reversed_prefix(heroes: Seq<Hero>, reversed: Seq<i64>, k: int)
    requires
        reversed.len() == heroes.len(),
        forall|j: int|
            0 <= j < heroes.len() ==> #[trigger] reversed[j] == heroes[heroes.len() - 1 - j].damage,
        0 <= k <= heroes.len(),
    ensures
        prefix_sum(reversed, k) == tail_damage(heroes, heroes.len() - k),
    decreases k,
{
    if k > 0 {
        lemma_reversed_prefix(heroes, reversed, k - 1);
        assert(reversed[k - 1] == heroes[heroes.len() - k].damage);
    }
}

/// For each hero the damage per round of that hero and all heroes behind it.
pub fn build_cumulative_damage(heroes: &[Hero]) -> (damage: Vec<i64>)
    requires
        forall|i: int|
            0 <= i <= heroes.len() ==> i64::MIN <= #[trigger] tail_damage(heroes@, i) <= i64::MAX,
    ensures
        damage.len() == heroes.len(),
        forall|i: int| 0 <= i < damage.len() ==> #[trigger] damage[i] == tail_damage(heroes@, i),
{
    let n = heroes.len();
    let mut reversed: Vec<i64> = Vec::new();
    let mut k: usize = 0;
    while k < n
        invariant
            n == heroes.len(),
            k <= n,
            reversed.len() == k,
            forall|j: int| 0 <= j < k ==> #[trigger] reversed[j] == heroes[n - 1 - j].damage,
        decreases n - k,
    {
        reversed.push(heroes[n - 1 - k].damage as i64);
        k += 1;
    }
    proof {
        assert forall|j: int| 0 < j <= reversed.len() implies i64::MIN <= #[trigger] prefix_sum(
            reversed@,
            j,
        ) <= i64::MAX by {
            lemma_reversed_prefix(heroes@, reversed@, j);
            assert(i64::MIN <= tail_damage(heroes@, n - j) <= i64::MAX);
        }
    }
    let sums = cumulative_sum(reversed.as_slice());
    let mut damage: Vec<i64> = Vec::new();
    let mut i: usize = 0;
    while i < n
        invariant
            n == heroes.len(),
            i <= n,
            sums.len() == n,
            reversed.len() == n,
            damage.len() == i,
            forall|j: int| 0 <= j < n ==> #[trigger] reversed[j] == heroes[n - 1 - j].damage,
            forall|j: int| 0 <= j < n ==> #[trigger] sums[j] == prefix_sum(reversed@, j + 1),
            forall|j: int| 0 <= j < i ==> #[trigger] damage[j] == tail_damage(heroes@, j),
        decreases n - i,
    {
        proof {
            lemma_reversed_prefix(heroes@, reversed@, n - i);
            assert(sums[n - 1 - i] == prefix_sum(reversed@, n - i));
        }
        damage.push(sums[n - 1 - i]);
        i += 1;
    }
    damage
}

/// Derives the phases of the fight and the damage per round around the
/// chosen hero.
pub fn build_combat(problem: &Problem) -> (combat: Combat)
    requires
        problem.buildable(),
    ensures
        combat.describes(problem),
        forall|i: int, j: int|
            0 <= i < j < combat.phases.len() ==> combat.phases[i].end_stage
                < combat.phases[j].end_stage,
{
    let chosen = problem.chosen_hero;
    let n = problem.heroes.len();
    let ghost heroes = problem.heroes@;
    let early_heroes = slice_subrange(problem.heroes.as_slice(), 0, chosen);
    let chosen_hero = problem.heroes[chosen];
    let late_heroes = slice_subrange(problem.heroes.as_slice(), chosen + 1, n);
    proof {
        assert forall|i: int| 0 <= i <= early_heroes.len() implies i64::MIN <= #[trigger] tail_damage(
            early_heroes@,
            i,
        ) <= i64::MAX && tail_damage(early_heroes@, i) == joint_damage(heroes, chosen as int)
            - joint_damage(heroes, i) by {
            lemma_joint_damage_prefix(heroes, early_heroes@, i);
            lemma_joint_damage_prefix(heroes, early_heroes@, chosen as int);
            assert(i64::MIN <= joint_damage(heroes, chosen as int) - joint_damage(heroes, i)
                <= i64::MAX);
        }
    }
    let cumulative_damage = build_cumulative_damage(early_heroes);
    let mut healths: Vec<i64> = Vec::new();
    let mut i: usize = 0;
    while i < chosen
        invariant
            problem.buildable(),
            heroes == problem.heroes@,
            chosen == problem.chosen_hero,
            early_heroes@ == heroes.subrange(0, chosen as int),
            i <= chosen < heroes.len(),
            healths.len() == i,
            forall|j: int| 0 <= j < i ==> #[trigger] healths[j] == heroes[j].health,
            forall|j: int| 0 < j <= i ==> #[trigger] prefix_sum(healths@, j) == fall(heroes, j - 1),
        decreases chosen - i,
    {
        proof {
            lemma_fall_increases(heroes, i as int, chosen as int);
            lemma_fall_increases(heroes, i as int - 1, i as int);
        }
        let ghost before = healths@;
        healths.push(early_heroes[i].health as i64);
        proof {
            assert forall|j: int| 0 < j <= i + 1 implies #[trigger] prefix_sum(healths@, j) == fall(
                heroes,
                j - 1,
            ) by {
                lemma_prefix_sum_extends(before, healths@, j);
                if j <= i {
                    assert(prefix_sum(before, j) == fall(heroes, j - 1));
                } else if j > 1 {
                    lemma_prefix_sum_extends(before, healths@, j - 1);
                    assert(prefix_sum(before, j - 1) == fall(heroes, j - 2));
                }
            }
        }
        i += 1;
    }
    proof {
        assert forall|k: int| 0 < k <= healths.len() implies i64::MIN <= #[trigger] prefix_sum(
            healths@,
            k,
        ) <= i64::MAX by {
            lemma_fall_increases(heroes, k - 1, chosen as int);
            lemma_fall_increases(heroes, -1, k - 1);
        }
    }
    let cumulative_health = cumulative_sum(healths.as_slice());
    proof {
        assert forall|k: int| 0 <= k < chosen implies 0 <= #[trigger] cumulative_health[k] == fall(
            heroes,
            k,
        ) <= usize::MAX by {
            assert(prefix_sum(healths@, k + 1) == fall(heroes, k));
            lemma_fall_increases(heroes, -1, k);
            lemma_fall_increases(heroes, k, chosen as int);
        }
    }
    let mut phases: Vec<CombatPhase> = Vec::new();
    let mut i: usize = 0;
    while i < chosen
        invariant
            problem.buildable(),
            heroes == problem.heroes@,
            chosen == problem.chosen_hero,
            i <= chosen < heroes.len(),
            phases.len() == i,
            cumulative_health.len() == chosen,
            cumulative_damage.len() == chosen,
            healths.len() == chosen,
            forall|k: int|
                0 <= k < chosen ==> 0 <= #[trigger] cumulative_health[k] == fall(heroes, k)
                    <= usize::MAX,
            forall|k: int|
                0 <= k < chosen ==> #[trigger] cumulative_damage[k] == joint_damage(
                    heroes,
                    chosen as int,
                ) - joint_damage(heroes, k),
            forall|k: int|
                0 <= k < i ==> (#[trigger] phases[k]).end_stage == fall(heroes, k)
                    && phases[k].early_damage == joint_damage(heroes, chosen as int) - joint_damage(
                    heroes,
                    k,
                ),
        decreases chosen - i,
    {
        proof {
            lemma_fall_increases(heroes, i as int, chosen as int);
            assert(cumulative_health[i as int] == fall(heroes, i as int));
        }
        phases.push(
            CombatPhase {
                end_stage: cumulative_health[i] as usize,
                early_damage: cumulative_damage[i],
            },
        );
        i += 1;
    }
    let before: usize = if chosen > 0 {
        cumulative_health[chosen - 1] as usize
    } else {
        0
    };
    proof {
        lemma_fall_increases(heroes, chosen as int - 1, chosen as int);
    }
    phases.push(CombatPhase { end_stage: before + chosen_hero.health, early_damage: 0 });
    let mut late_damage: i64 = 0;
    let mut j: usize = 0;
    while j < late_heroes.len()
        invariant
            problem.buildable(),
            heroes == problem.heroes@,
            chosen == problem.chosen_hero,
            n == heroes.len(),
            chosen < n,
            late_heroes@ == heroes.subrange(chosen + 1, n as int),
            j <= late_heroes.len(),
            late_damage == joint_damage(heroes, chosen + 1 + j) - joint_damage(heroes, chosen + 1),
        decreases late_heroes.len() - j,
    {
        proof {
            assert(i64::MIN <= joint_damage(heroes, chosen + 2 + j) - joint_damage(
                heroes,
                chosen + 1,
            ) <= i64::MAX);
            assert(late_heroes[j as int] == heroes[chosen + 1 + j]);
        }
        late_damage = late_damage + late_heroes[j].damage as i64;
        j += 1;
    }
    let combat = Combat { phases, late_damage, chosen_damage: chosen_hero.damage as i64 };
    proof {
        assert forall|i: int, j: int| 0 <= i < j < combat.phases.len() implies combat.phases[i].end_stage
            < combat.phases[j].end_stage by {
            lemma_fall_increases(heroes, i, j);
        }
    }
    combat
}

/// Appending to a list of numbers leaves the sums of its prefixes as they were.
proof fn lemma_prefix_sum_extends(short: Seq<i64>, long: Seq<i64>, k: int)
    requires
        short.len() <= long.len(),
        forall|j: int| 0 <= j < short.len() ==> short[j] == long[j],
        0 <= k <= long.len(),
    ensures
        k <= short.len() ==> prefix_sum(short, k) == prefix_sum(long, k),
        0 < k ==> prefix_sum(long, k) == prefix_sum(long, k - 1) + long[k - 1],
    decreases k,
{
    if k > 0 {
        lemma_prefix_sum_extends(short, long, k - 1);
    }
}

impl Combat {
    /// Boost damage that one boost on the hero of phase `i` has added by the
    /// end of that hero's action in round `turn`: the boost's damage times
    /// the number of rounds, up to and including `turn`, in which the hero
    /// acts.
    pub open spec fn contribution(&self, boost_damage: int, turn: int, i: int) -> int {
        (if self.phases[i].end_stage <= turn {
            self.phases[i].end_stage as int
        } else {
            turn + 1
        }) * boost_damage
    }
}

/// For each phase and its boost variable, the term that the variable
/// contributes to the damage dealt by the end of round `turn`.
pub fn get_boost_contributions(
    combat: &Combat,
    boosts: &[DynVariable],
    boost_damage: i32,
    turn: usize,
) -> (terms: Vec<Term>)
    requires
        forall|i: int|
            0 <= i < combat.phases.len() && i < boosts.len() ==> i64::MIN
                <= #[trigger] combat.contribution(boost_damage as int, turn as int, i) <= i64::MAX,
    ensures
        terms.len() == if combat.phases.len() <= boosts.len() {
            combat.phases.len()
        } else {
            boosts.len()
        },
        forall|i: int|
            0 <= i < terms.len() ==> #[trigger] terms[i] == (Term {
                coeff: combat.contribution(boost_damage as int, turn as int, i) as i64,
                var: Var::Boost(boosts[i].index),
            }),
{
    let n = if combat.phases.len() <= boosts.len() {
        combat.phases.len()
    } else {
        boosts.len()
    };
    let mut terms: Vec<Term> = Vec::new();
    let mut i: usize = 0;
    while i < n
        invariant
            i <= n,
            n <= combat.phases.len(),
            n <= boosts.len(),
            terms.len() == i,
            forall|j: int|
                0 <= j < combat.phases.len() && j < boosts.len() ==> i64::MIN
                    <= #[trigger] combat.contribution(boost_damage as int, turn as int, j)
                    <= i64::MAX,
            forall|j: int|
                0 <= j < i ==> #[trigger] terms[j] == (Term {
                    coeff: combat.contribution(boost_damage as int, turn as int, j) as i64,
                    var: Var::Boost(boosts[j].index),
                }),
        decreases n - i,
    {
        let phase = combat.phases[i];
        let times: i128 = if phase.end_stage <= turn {
            phase.end_stage as i128
        } else {
            turn as i128 + 1
        };
        assert(times * boost_damage == combat.contribution(boost_damage as int, turn as int, i as int));
        assert(-0x1_0000_0000_0000_0000_0000_0000 <= times * boost_damage
            <= 0x1_0000_0000_0000_0000_0000_0000) by (nonlinear_arith)
            requires
                0 <= times <= 0x1_0000_0000_0000_0000,
                -0x1_0000_0000 <= boost_damage <= 0x1_0000_0000,
        ;
        let damage: i128 = times * (boost_damage as i128);
        terms.push(Term { coeff: damage as i64, var: Var::Boost(boosts[i].index) });
        i += 1;
    }
    terms
}

/// The constraint that the boosts handed out stay within the budget.
pub open spec fn budget_constraint(indices: Seq<usize>, max_boosts: usize) -> ConstraintView {
    ConstraintView {
        terms: Seq::new(indices.len(), |i: int| Term { coeff: 1, var: Var::Boost(indices[i]) }),
        relation: Relation::AtMost,
        bound: max_boosts as i64,
    }
}

/// The numbers of the given variables, in their order.
pub open spec fn indices_of(variables: Seq<DynVariable>) -> Seq<usize> {
    Seq::new(variables.len(), |i: int| variables[i].index)
}

/// Adds to `lp` the constraint that the boost variables sum to at most
/// `max_boosts`.
pub fn set_max_boosts(lp: &mut LinearProgram, boosts: &[DynVariable], max_boosts: usize)
    requires
        max_boosts <= i64::MAX,
    ensures
        final(lp)@.constraints == old(lp)@.constraints.push(
            budget_constraint(indices_of(boosts@), max_boosts),
        ),
        final(lp)@.objective == old(lp)@.objective,
{
    let mut terms: Vec<Term> = Vec::new();
    let mut i: usize = 0;
    while i < boosts.len()
        invariant
            i <= boosts.len(),
            terms.len() == i,
            forall|j: int|
                0 <= j < i ==> #[trigger] terms[j] == (Term {
                    coeff: 1,
                    var: Var::Boost(boosts[j].index),
                }),
        decreases boosts.len() - i,
    {
        terms.push(Term { coeff: 1, var: Var::Boost(boosts[i].index) });
        i += 1;
    }
    let constraint = Constraint { terms, relation: Relation::AtMost, bound: max_boosts as i64 };
    assert(constraint@.terms =~= budget_constraint(indices_of(boosts@), max_boosts).terms);
    lp.add_constraint(constraint);
}

impl Problem {
    /// Health that the monster has left just before the chosen hero acts in
    /// round `turn`, where no boost is handed out.
    pub open spec fn health_at(&self, turn: int) -> int {
        self.monster_health - damage_before(self.heroes@, turn) - round_damage(
            self.heroes@,
            turn,
            self.chosen_hero as int,
        )
    }

    /// Without boosts the monster is alive at the end of every round before
    /// `turn`.
    pub open spec fn reached(&self, turn: int) -> bool {
        forall|s: int|
            0 < s <= turn ==> self.monster_health - #[trigger] damage_before(self.heroes@, s) > 0
    }

    /// Round `turn` gets a stage: the chosen hero acts in it, the monster
    /// lives up to it without boosts, and with the whole budget on the
    /// chosen hero from the start its blow in that round would kill.
    pub open spec fn stage_open(&self, turn: int) -> bool {
        &&& 0 <= turn < self.rounds()
        &&& self.reached(turn)
        &&& (turn + 1) * (self.max_boosts * self.boost_damage)
            + self.heroes@[self.chosen_hero as int].damage >= self.health_at(turn)
    }

    /// Boost damage that one boost on hero `i` has added by the end of that
    /// hero's action in round `turn`.
    pub open spec fn contribution(&self, i: int, turn: int) -> int {
        (if fall(self.heroes@, i) <= turn {
            fall(self.heroes@, i)
        } else {
            turn + 1
        }) * self.boost_damage
    }

    /// The boost damage dealt by the end of the chosen hero's action in
    /// round `turn`, as a sum over the boost variables.
    pub open spec fn contributions(&self, turn: int) -> Seq<Term> {
        Seq::new(
            (self.chosen_hero + 1) as nat,
            |i: int| Term { coeff: self.contribution(i, turn) as i64, var: Var::Boost(i as usize) },
        )
    }

    /// Holds for a selected stage when the monster is alive just before the
    /// chosen hero acts in round `turn`: the boost damage dealt until then
    /// is less than the health left without boosts. The term of the stage
    /// makes the constraint void for a stage that is not selected.
    pub open spec fn upper_constraint(&self, turn: int) -> ConstraintView {
        ConstraintView {
            terms: self.contributions(turn).drop_last().push(
                Term {
                    coeff: (turn * self.boost_damage) as i64,
                    var: Var::Boost(self.chosen_hero),
                },
            ).push(Term { coeff: self.spec_big_m() as i64, var: Var::Stage(turn as usize) }),
            relation: Relation::AtMost,
            bound: (self.health_at(turn) + self.spec_big_m() - 1) as i64,
        }
    }

    /// Holds for a selected stage when the chosen hero's action in round
    /// `turn` kills: the boost damage dealt by then makes up for the health
    /// that the monster would have left after that action without boosts.
    pub open spec fn lower_constraint(&self, turn: int) -> ConstraintView {
        ConstraintView {
            terms: self.contributions(turn).push(
                Term { coeff: (-self.spec_big_m()) as i64, var: Var::Stage(turn as usize) },
            ),
            relation: Relation::AtLeast,
            bound: (self.health_at(turn) - self.heroes@[self.chosen_hero as int].damage
                - self.spec_big_m()) as i64,
        }
    }

    /// The rounds below `turn` that get a stage, in their order.
    pub open spec fn stage_turns(&self, turn: int) -> Seq<usize>
        decreases turn,
    {
        if turn <= 0 {
            Seq::empty()
        } else if self.stage_open(turn - 1) {
            self.stage_turns(turn - 1).push((turn - 1) as usize)
        } else {
            self.stage_turns(turn - 1)
        }
    }

    /// The two constraints of each stage of a round below `turn`, in the
    /// order of the rounds.
    pub open spec fn stage_constraints(&self, turn: int) -> Seq<ConstraintView>
        decreases turn,
    {
        if turn <= 0 {
            Seq::empty()
        } else if self.stage_open(turn - 1) {
            self.stage_constraints(turn - 1).push(self.upper_constraint(turn - 1)).push(
                self.lower_constraint(turn - 1),
            )
        } else {
            self.stage_constraints(turn - 1)
        }
    }

    /// The sum of the indicators of the given stages.
    pub open spec fn objective_of(turns: Seq<usize>) -> Seq<Term> {
        Seq::new(turns.len(), |k: int| Term { coeff: 1, var: Var::Stage(turns[k]) })
    }

    /// The integer program of the problem: the budget, then the constraints
    /// of the stages; to be maximised is the number of selected stages.
    pub open spec fn program(&self) -> ProgramView {
        ProgramView {
            constraints: seq![
                budget_constraint(
                    Seq::new((self.chosen_hero + 1) as nat, |i: int| i as usize),
                    self.max_boosts,
                ),
            ] + self.stage_constraints(self.rounds()),
            objective: Self::objective_of(self.stage_turns(self.rounds())),
        }
    }

    /// Once the monster is dead without boosts, no later round gets a stage.
    pub proof fn lemma_stages_stop(&self, from: int, to: int)
        requires
            !self.reached(from),
            from <= to,
        ensures
            self.stage_turns(to) == self.stage_turns(from),
            self.stage_constraints(to) == self.stage_constraints(from),
        decreases to - from,
    {
        if from < to {
            self.lemma_stages_stop(from, to - 1);
            if self.reached(to - 1) {
                assert(self.reached(from));
            }
        }
    }

    /// Computes the constant that relaxes the constraints of the stages that
    /// are not selected.
    pub fn big_m(&self) -> (m: i64)
        requires
            self.wf(),
        ensures
            m == self.spec_big_m(),
    {
        let ghost heroes = self.heroes@;
        let n = self.heroes.len();
        proof {
            self.lemma_scale();
        }
        let mut rounds: usize = 0;
        let mut i: usize = 0;
        while i <= self.chosen_hero
            invariant
                self.wf(),
                heroes == self.heroes@,
                i <= self.chosen_hero + 1,
                rounds == fall(heroes, i - 1),
            decreases self.chosen_hero + 1 - i,
        {
            proof {
                lemma_fall_increases(heroes, i as int, self.chosen_hero as int);
            }
            rounds = rounds + self.heroes[i].health;
            i += 1;
        }
        let mut damage: i64 = 0;
        let mut j: usize = 0;
        while j < n
            invariant
                self.wf(),
                heroes == self.heroes@,
                n == heroes.len(),
                j <= n,
                damage == joint_damage(heroes, j as int),
                joint_damage(heroes, n as int) <= SCALE_LIMIT,
            decreases n - j,
        {
            proof {
                lemma_joint_damage_monotone(heroes, j + 1, n as int);
                lemma_joint_damage_monotone(heroes, 0, j as int);
            }
            damage = damage + self.heroes[j].damage as i64;
            j += 1;
        }
        let boosting: i64 = if self.boost_damage == 0 {
            0
        } else {
            (self.max_boosts as i64 + 1) * (self.boost_damage as i64)
        };
        assert(boosting == (self.max_boosts + 1) * self.boost_damage) by (nonlinear_arith)
            requires
                boosting == if self.boost_damage == 0 {
                    0
                } else {
                    (self.max_boosts + 1) * self.boost_damage
                },
        ;
        assert(rounds == self.rounds());
        assert(rounds * (damage + boosting + 1) == self.rounds() * (joint_damage(
            self.heroes@,
            self.heroes.len() as int,
        ) + (self.max_boosts + 1) * self.boost_damage + 1));
        let magnitude: i64 = if self.monster_health < 0 {
            -(self.monster_health as i64)
        } else {
            self.monster_health as i64
        };
        (rounds as i64) * (damage + boosting + 1) + magnitude + 1
    }
}

/// What `formulate` hands to the solver: the boost variables, one for each
/// hero up to the chosen one; the stage indicators, one for each round that
/// gets a stage; and the program over them.
#[derive(Debug, PartialEq, Eq)]
pub struct Formulation {
    pub boosts: Vec<DynVariable>,
    pub stages: Vec<DynVariable>,
    pub program: LinearProgram,
}

impl Formulation {
    /// This is the formulation of `problem`.
    pub open spec fn describes(&self, problem: &Problem) -> bool {
        let turns = problem.stage_turns(problem.rounds());
        &&& self.program@ == problem.program()
        &&& self.boosts.len() == problem.chosen_hero + 1
        &&& forall|i: int|
            0 <= i < self.boosts.len() ==> (#[trigger] self.boosts[i]).index == i
                && self.boosts[i].label@ == label_text("boost"@, i as usize)
        &&& self.stages.len() == turns.len()
        &&& forall|k: int|
            0 <= k < self.stages.len() ==> (#[trigger] self.stages[k]).index == turns[k]
                && self.stages[k].label@ == label_text("stage"@, turns[k])
    }
}

/// In one round the first heroes deal no more than when all of them act.
pub proof fn lemma_round_damage_bounds(heroes: Seq<Hero>, t: int, k: int)
    requires
        forall|j: int| 0 <= j < heroes.len() ==> (#[trigger] heroes[j]).damage >= 0,
        0 <= k <= heroes.len(),
    ensures
        0 <= round_damage(heroes, t, k) <= joint_damage(heroes, k),
    decreases k,
{
    if k > 0 {
        lemma_round_damage_bounds(heroes, t, k - 1);
    }
}

/// In `t` rounds the heroes deal no more than `t` times what they deal when
/// all of them act.
pub proof fn lemma_damage_before_bound(heroes: Seq<Hero>, t: int)
    requires
        forall|j: int| 0 <= j < heroes.len() ==> (#[trigger] heroes[j]).damage >= 0,
        0 <= t,
    ensures
        0 <= damage_before(heroes, t) <= t * joint_damage(heroes, heroes.len() as int),
    decreases t,
{
    let d = joint_damage(heroes, heroes.len() as int);
    if t > 0 {
        lemma_damage_before_bound(heroes, t - 1);
        lemma_round_damage_bounds(heroes, t - 1, heroes.len() as int);
        assert((t - 1) * d + d == t * d) by (nonlinear_arith);
    } else {
        assert(0 * d == 0);
    }
}

/// In a round in which hero `a` is the first of the line, the heroes `0..k`
/// deal what the heroes `a..k` deal when all of them act.
pub proof fn lemma_round_damage_front(heroes: Seq<Hero>, t: int, a: int, k: int)
    requires
        0 <= t,
        0 <= a <= k <= heroes.len(),
        fall(heroes, a - 1) <= t,
        a < heroes.len() ==> t < fall(heroes, a),
    ensures
        round_damage(heroes, t, k) == joint_damage(heroes, k) - joint_damage(heroes, a),
    decreases k,
{
    if k == a {
        lemma_fallen_deal_nothing(heroes, t, a);
    } else {
        lemma_round_damage_front(heroes, t, a, k - 1);
        lemma_fall_monotone(heroes, a, k - 1);
        assert(acts(heroes, t, k - 1));
    }
}

impl Problem {
    /// The health that the monster has left in a round of the chosen hero,
    /// without boosts, lies between the relaxing constant and its negative.
    pub proof fn lemma_health_range(&self, turn: int)
        requires
            self.wf(),
            0 <= turn < self.rounds(),
        ensures
            1 - self.spec_big_m() <= self.health_at(turn) - self.heroes@[self.chosen_hero as int].damage,
            self.health_at(turn) <= self.monster_health <= self.spec_big_m() - 1,
    {
        let heroes = self.heroes@;
        let n = heroes.len() as int;
        let chosen = self.chosen_hero as int;
        self.lemma_stage_numbers(turn);
        lemma_round_damage_bounds(heroes, turn, chosen);
        lemma_round_damage_bounds(heroes, turn, chosen + 1);
        lemma_joint_damage_monotone(heroes, chosen + 1, n);
        assert(heroes[chosen].damage >= 0);
        assert((turn + 1) * joint_damage(heroes, n) == turn * joint_damage(heroes, n)
            + joint_damage(heroes, n)) by (nonlinear_arith);
    }

    /// The relaxing constant is large enough: it lifts the bound of a stage
    /// that is not selected above all boost damage that the budget can bring
    /// by the round of the stage.
    pub proof fn lemma_relaxed(&self, turn: int)
        requires
            self.wf(),
            0 <= turn < self.rounds(),
        ensures
            (turn + 1) * (self.max_boosts * self.boost_damage) <= self.health_at(turn)
                + self.spec_big_m() - 1,
    {
        let heroes = self.heroes@;
        let n = heroes.len() as int;
        let chosen = self.chosen_hero as int;
        let t = self.rounds();
        let d = joint_damage(heroes, n);
        let k = self.max_boosts as int;
        let b = self.boost_damage as int;
        self.lemma_scale();
        self.lemma_stage_numbers(turn);
        lemma_round_damage_bounds(heroes, turn, chosen);
        lemma_joint_damage_monotone(heroes, chosen, n);
        assert(t * (d + (k + 1) * b + 1) == t * d + t * (k * b) + t * b + t) by (nonlinear_arith);
        assert((turn + 1) * d <= t * d && (turn + 1) * d == turn * d + d) by (nonlinear_arith)
            requires
                0 <= turn + 1 <= t,
                d >= 0,
        ;
        assert(0 <= k * b) by (nonlinear_arith)
            requires
                k >= 0,
                b >= 0,
        ;
        assert((turn + 1) * (k * b) <= t * (k * b)) by (nonlinear_arith)
            requires
                0 <= turn + 1 <= t,
                k * b >= 0,
        ;
        assert(0 <= t * b) by (nonlinear_arith)
            requires
                t >= 0,
                b >= 0,
        ;
    }

    /// The numbers of the stage of round `turn` do not exceed the relaxing
    /// constant.
    pub proof fn lemma_stage_numbers(&self, turn: int)
        requires
            self.wf(),
            0 <= turn < self.rounds(),
        ensures
            0 <= damage_before(self.heroes@, turn) <= turn * joint_damage(
                self.heroes@,
                self.heroes.len() as int,
            ),
            (turn + 1) * joint_damage(self.heroes@, self.heroes.len() as int) + (
            if self.monster_health < 0 {
                -self.monster_health
            } else {
                self.monster_health as int
            }) + 1 <= self.spec_big_m(),
            0 <= (turn + 1) * (self.max_boosts * self.boost_damage) <= self.spec_big_m(),
            0 <= turn * self.boost_damage <= (turn + 1) * self.boost_damage <= self.spec_big_m(),
            forall|i: int|
                0 <= i <= self.chosen_hero ==> 0 <= #[trigger] self.contribution(i, turn) <= (turn
                    + 1) * self.boost_damage,
    {
        let heroes = self.heroes@;
        let t = self.rounds();
        let d = joint_damage(heroes, heroes.len() as int);
        let k = self.max_boosts as int;
        let b = self.boost_damage as int;
        self.lemma_scale();
        lemma_damage_before_bound(heroes, turn);
        assert(t * (d + (k + 1) * b + 1) == t * d + t * (k * b) + t * b + t) by (nonlinear_arith);
        assert((turn + 1) * d <= t * d) by (nonlinear_arith)
            requires
                0 <= turn + 1 <= t,
                d >= 0,
        ;
        assert(0 <= k * b) by (nonlinear_arith)
            requires
                k >= 0,
                b >= 0,
        ;
        assert(0 <= (turn + 1) * (k * b) <= t * (k * b)) by (nonlinear_arith)
            requires
                0 <= turn + 1 <= t,
                k * b >= 0,
        ;
        assert(0 <= turn * b <= (turn + 1) * b <= t * b) by (nonlinear_arith)
            requires
                0 <= turn,
                turn + 1 <= t,
                b >= 0,
        ;
        assert forall|i: int| 0 <= i <= self.chosen_hero implies 0 <= #[trigger] self.contribution(
            i,
            turn,
        ) <= (turn + 1) * b by {
            lemma_fall_increases(heroes, -1, i);
            let times = if fall(heroes, i) <= turn {
                fall(heroes, i)
            } else {
                turn + 1
            };
            assert(0 <= times * b <= (turn + 1) * b) by (nonlinear_arith)
                requires
                    0 <= times <= turn + 1,
                    b >= 0,
            ;
        }
    }
}

/// Writes the integer program that selects a round and hands out boosts so
/// that the chosen hero's blow in that round kills the monster. `None` when
/// no round gets a stage; a monster with health to lose then cannot be
/// killed by the chosen hero, whatever the boosts.
pub fn formulate(problem: &Problem) -> (formulation: Option<Formulation>)
    requires
        problem.wf(),
    ensures
        match formulation {
            Some(f) => f.describes(problem) && f.stages.len() > 0,
            None => problem.stage_turns(problem.rounds()).len() == 0,
        },
        formulation is None ==> !problem.solvable(),
{
    proof {
        problem.lemma_scale();
    }
    let combat = build_combat(problem);
    let chosen = problem.chosen_hero;
    let ghost heroes = problem.heroes@;
    let ghost n = heroes.len() as int;
    let mut boosts: Vec<DynVariable> = Vec::new();
    let mut b: usize = 0;
    while b <= chosen
        invariant
            chosen < problem.heroes.len(),
            b <= chosen + 1,
            boosts.len() == b,
            forall|j: int|
                0 <= j < b ==> (#[trigger] boosts[j]).index == j && boosts[j].label@ == label_text(
                    "boost"@,
                    j as usize,
                ),
        decreases chosen + 1 - b,
    {
        boosts.push(DynVariable::new("boost", b));
        b += 1;
    }
    let big_m = problem.big_m();
    let max_boost_damage: i64 = if problem.boost_damage == 0 {
        0
    } else {
        (problem.max_boosts as i64) * (problem.boost_damage as i64)
    };
    assert(max_boost_damage == problem.max_boosts * problem.boost_damage) by (nonlinear_arith)
        requires
            max_boost_damage == if problem.boost_damage == 0 {
                0
            } else {
                problem.max_boosts * problem.boost_damage
            },
    ;
    let mut program = LinearProgram::new();
    set_max_boosts(&mut program, boosts.as_slice(), problem.max_boosts);
    let ghost budget = budget_constraint(
        Seq::new((chosen + 1) as nat, |i: int| i as usize),
        problem.max_boosts,
    );
    proof {
        assert(indices_of(boosts@) =~= Seq::new((chosen + 1) as nat, |i: int| i as usize));
        assert(program@.constraints =~= seq![budget] + problem.stage_constraints(0));
    }
    let mut stages: Vec<DynVariable> = Vec::new();
    let mut objective: Vec<Term> = Vec::new();
    let last_turn = combat.phases[chosen].end_stage;
    let mut remaining: i64 = problem.monster_health as i64;
    let mut active_phase: usize = 0;
    let mut turn: usize = 0;
    let mut stopped = false;
    proof {
        assert(objective@ =~= Problem::objective_of(problem.stage_turns(0)));
        lemma_fall_increases(heroes, -1, 0);
    }
    while !stopped && turn < last_turn
        invariant
            problem.wf(),
            combat.describes(problem),
            heroes == problem.heroes@,
            n == heroes.len(),
            chosen == problem.chosen_hero,
            last_turn == problem.rounds(),
            big_m == problem.spec_big_m(),
            1 <= big_m <= SCALE_LIMIT,
            max_boost_damage == problem.max_boosts * problem.boost_damage,
            boosts.len() == chosen + 1,
            forall|j: int| 0 <= j <= chosen ==> (#[trigger] boosts[j]).index == j,
            turn <= last_turn,
            active_phase <= chosen,
            fall(heroes, active_phase - 1) <= turn <= fall(heroes, active_phase as int),
            !stopped ==> problem.reached(turn as int) && remaining == problem.monster_health
                - damage_before(heroes, turn as int),
            stopped ==> !problem.reached(turn as int),
            program@.constraints == seq![budget] + problem.stage_constraints(turn as int),
            program@.objective == Seq::<Term>::empty(),
            objective@ == Problem::objective_of(problem.stage_turns(turn as int)),
            stages.len() == problem.stage_turns(turn as int).len(),
            forall|k: int|
                0 <= k < stages.len() ==> (#[trigger] stages[k]).index == problem.stage_turns(
                    turn as int,
                )[k] && stages[k].label@ == label_text(
                    "stage"@,
                    problem.stage_turns(turn as int)[k],
                ),
        decreases last_turn - turn,
    {
        if turn == combat.phases[active_phase].end_stage {
            proof {
                if active_phase >= chosen {
                    lemma_fall_monotone(heroes, chosen as int, active_phase as int);
                }
                lemma_fall_increases(heroes, active_phase as int, active_phase + 1);
            }
            active_phase += 1;
        }
        let ghost front = active_phase as int;
        proof {
            problem.lemma_scale();
            problem.lemma_stage_numbers(turn as int);
            lemma_round_damage_front(heroes, turn as int, front, chosen as int);
            lemma_round_damage_front(heroes, turn as int, front, chosen + 1);
            lemma_round_damage_front(heroes, turn as int, front, n);
            lemma_joint_damage_monotone(heroes, 0, front);
            lemma_joint_damage_monotone(heroes, front, chosen as int);
            lemma_joint_damage_monotone(heroes, chosen as int, chosen + 1);
            lemma_joint_damage_monotone(heroes, chosen + 1, n);
            assert(combat.phases[front].early_damage == round_damage(
                heroes,
                turn as int,
                chosen as int,
            ));
            assert(combat.chosen_damage + combat.late_damage == round_damage(heroes, turn as int, n)
                - round_damage(heroes, turn as int, chosen as int));
            assert(turn * joint_damage(heroes, n) + joint_damage(heroes, n) == (turn + 1)
                * joint_damage(heroes, n)) by (nonlinear_arith);
        }
        remaining = remaining - combat.phases[active_phase].early_damage;
        assert(remaining == problem.health_at(turn as int));
        let ghost turns_before = problem.stage_turns(turn as int);
        if (turn as i64 + 1) * max_boost_damage + combat.chosen_damage >= remaining {
            assert(problem.stage_open(turn as int));
            stages.push(DynVariable::new("stage", turn));
            proof {
                assert forall|i: int|
                    0 <= i < combat.phases.len() && i < boosts.len() implies i64::MIN
                    <= #[trigger] combat.contribution(
                    problem.boost_damage as int,
                    turn as int,
                    i,
                ) <= i64::MAX && combat.contribution(problem.boost_damage as int, turn as int, i)
                    == problem.contribution(i, turn as int) by {
                    assert(combat.phases[i].end_stage == fall(heroes, i));
                    assert(0 <= problem.contribution(i, turn as int));
                }
            }
            let mut post_chosen = get_boost_contributions(
                &combat,
                boosts.as_slice(),
                problem.boost_damage,
                turn,
            );
            let mut pre_chosen = get_boost_contributions(
                &combat,
                boosts.as_slice(),
                problem.boost_damage,
                turn,
            );
            proof {
                assert(post_chosen@ =~= problem.contributions(turn as int));
                assert(pre_chosen@ =~= problem.contributions(turn as int));
            }
            pre_chosen.pop();
            pre_chosen.push(
                Term { coeff: (turn as i64) * (problem.boost_damage as i64), var: Var::Boost(chosen) },
            );
            pre_chosen.push(Term { coeff: big_m, var: Var::Stage(turn) });
            post_chosen.push(Term { coeff: -big_m, var: Var::Stage(turn) });
            let upper = Constraint {
                terms: pre_chosen,
                relation: Relation::AtMost,
                bound: remaining + big_m - 1,
            };
            let lower = Constraint {
                terms: post_chosen,
                relation: Relation::AtLeast,
                bound: remaining - combat.chosen_damage - big_m,
            };
            proof {
                assert(upper@.terms =~= problem.upper_constraint(turn as int).terms);
                assert(lower@.terms =~= problem.lower_constraint(turn as int).terms);
                assert(upper@ == problem.upper_constraint(turn as int));
                assert(lower@ == problem.lower_constraint(turn as int));
            }
            program.add_constraint(upper);
            program.add_constraint(lower);
            objective.push(Term { coeff: 1, var: Var::Stage(turn) });
            proof {
                assert(problem.stage_turns(turn + 1) == turns_before.push(turn));
                assert(objective@ =~= Problem::objective_of(problem.stage_turns(turn + 1)));
                assert(program@.constraints =~= seq![budget] + problem.stage_constraints(turn + 1));
            }
        } else {
            assert(!problem.stage_open(turn as int));
            assert(problem.stage_turns(turn + 1) == turns_before);
            assert(problem.stage_constraints(turn + 1) == problem.stage_constraints(turn as int));
        }
        remaining = remaining - (combat.chosen_damage + combat.late_damage);
        proof {
            assert(damage_before(heroes, turn + 1) == damage_before(heroes, turn as int)
                + round_damage(heroes, turn as int, n));
            assert(remaining == problem.monster_health - damage_before(heroes, turn + 1));
        }
        if remaining <= 0 {
            stopped = true;
        }
        turn += 1;
    }
    proof {
        if stopped {
            problem.lemma_stages_stop(turn as int, problem.rounds());
        }
    }
    if stages.len() == 0 {
        proof {
            lemma_no_stage_no_solution(*problem);
        }
        return None;
    }
    program.set_objective(objective);
    Some(Formulation { boosts, stages, program })
}

/// Why no answer could be given.
#[derive(Debug, PartialEq, Eq)]
pub enum SolveError {
    /// The solver called an assignment optimal that selects a stage, but
    /// whose boosts break the rules or do not make the chosen hero land the
    /// killing blow: the program does not say what the fight does.
    Formulation,
    /// The solver itself failed; this is its message.
    Solver(String),
}

/// Some stage indicator is not zero.
pub open spec fn stage_selected(stages: Seq<i64>) -> bool {
    exists|k: int| 0 <= k < stages.len() && #[trigger] stages[k] != 0
}

/// How often a boost variable of value `value` boosts its hero.
pub open spec fn times(value: i64) -> nat {
    if value > 0 {
        value as nat
    } else {
        0
    }
}

/// The allocation that the values of the first `k` boost variables stand
/// for: hero 0 as often as the first value says, then hero 1, and so on.
pub open spec fn expand(counts: Seq<i64>, k: int) -> Seq<usize>
    decreases k,
{
    if 0 < k <= counts.len() {
        expand(counts, k - 1) + Seq::new(times(counts[k - 1]), |j: int| (k - 1) as usize)
    } else {
        Seq::empty()
    }
}

/// Number of boosts that the values of the first `k` boost variables stand
/// for.
pub open spec fn total_boosts(counts: Seq<i64>, k: int) -> nat
    decreases k,
{
    if 0 < k <= counts.len() {
        total_boosts(counts, k - 1) + times(counts[k - 1])
    } else {
        0
    }
}

/// An expanded allocation has as many entries as the values add up to, and
/// each entry names one of the first `k` heroes.
pub proof fn lemma_expand(counts: Seq<i64>, k: int)
    requires
        0 <= k <= counts.len(),
    ensures
        expand(counts, k).len() == total_boosts(counts, k),
        forall|j: int| 0 <= j < expand(counts, k).len() ==> #[trigger] expand(counts, k)[j] < k,
    decreases k,
{
    if k > 0 {
        lemma_expand(counts, k - 1);
    }
}

/// The boosts of more variables are no fewer.
pub proof fn lemma_total_boosts_monotone(counts: Seq<i64>, i: int, k: int)
    requires
        0 <= i <= k <= counts.len(),
    ensures
        total_boosts(counts, i) <= total_boosts(counts, k),
    decreases k,
{
    if i < k {
        lemma_total_boosts_monotone(counts, i, k - 1);
    }
}

/// Tells whether some stage indicator of the assignment is not zero.
pub fn any_stage_selected(stages: &Vec<i64>) -> (selected: bool)
    ensures
        selected == stage_selected(stages@),
{
    let mut k: usize = 0;
    while k < stages.len()
        invariant
            k <= stages.len(),
            forall|j: int| 0 <= j < k ==> #[trigger] stages[j] == 0,
        decreases stages.len() - k,
    {
        if stages[k] != 0 {
            return true;
        }
        k += 1;
    }
    false
}

/// Turns the values of the boost variables into an allocation, if it stays
/// within `max_boosts`; `None` if the values stand for more boosts.
pub fn expand_boosts(counts: &Vec<i64>, max_boosts: usize) -> (boosts: Option<Vec<usize>>)
    ensures
        match boosts {
            Some(v) => v@ == expand(counts@, counts.len() as int) && v.len() <= max_boosts,
            None => total_boosts(counts@, counts.len() as int) > max_boosts,
        },
{
    let mut result: Vec<usize> = Vec::new();
    let mut i: usize = 0;
    while i < counts.len()
        invariant
            i <= counts.len(),
            result@ == expand(counts@, i as int),
            result.len() <= max_boosts,
        decreases counts.len() - i,
    {
        let value = counts[i];
        let ghost before = result@;
        let mut j: i64 = 0;
        proof {
            lemma_expand(counts@, i as int);
            lemma_expand(counts@, i + 1);
            lemma_total_boosts_monotone(counts@, i + 1, counts.len() as int);
        }
        while j < value
            invariant
                i < counts.len(),
                value == counts[i as int],
                before == expand(counts@, i as int),
                before.len() == total_boosts(counts@, i as int),
                total_boosts(counts@, i + 1) <= total_boosts(counts@, counts.len() as int),
                0 <= j <= times(value),
                result@ == before + Seq::new(j as nat, |k: int| i),
                result.len() <= max_boosts,
            decreases times(value) - j,
        {
            if result.len() >= max_boosts {
                return None;
            }
            result.push(i);
            j += 1;
            assert(result@ =~= before + Seq::new(j as nat, |k: int| i));
        }
        assert(result@ =~= expand(counts@, i + 1));
        i += 1;
    }
    Some(result)
}

/// `answer` is what the verdict of a solver on the program of `problem` comes
/// to. No allocation, if the solver found the program infeasible or found
/// no stage to select. The error of the solver, if it failed. Else the
/// allocation that the values of the boost variables stand for, if it makes
/// the chosen hero land the killing blow within the rules, and the error of
/// the formulation, if it does not.
pub open spec fn is_reading(
    problem: &Problem,
    verdict: SolverVerdict,
    answer: Result<Option<Vec<usize>>, SolveError>,
) -> bool {
    match verdict {
        SolverVerdict::Infeasible => answer matches Ok(None),
        SolverVerdict::Error(reason) => answer matches Err(SolveError::Solver(message)) && message
            == reason,
        SolverVerdict::Optimal(found) => {
            let boosts = expand(found.boosts@, found.boosts.len() as int);
            if !stage_selected(found.stages@) {
                answer matches Ok(None)
            } else if found.boosts.len() == problem.chosen_hero + 1 && problem.is_solution(boosts) {
                answer matches Ok(Some(allocation)) && allocation@ == boosts
            } else {
                answer matches Err(SolveError::Formulation)
            }
        },
    }
}

/// Reads the solver's verdict. An optimal assignment that selects a stage
/// is turned into an allocation and replayed; it is the answer only if the
/// replay names the chosen hero.
pub fn interpret(problem: &Problem, verdict: SolverVerdict) -> (answer: Result<
    Option<Vec<usize>>,
    SolveError,
>)
    requires
        problem.wf(),
    ensures
        is_reading(problem, verdict, answer),
        answer matches Ok(Some(boosts)) ==> problem.is_solution(boosts@),
{
    match verdict {
        SolverVerdict::Infeasible => Ok(None),
        SolverVerdict::Error(reason) => Err(SolveError::Solver(reason)),
        SolverVerdict::Optimal(found) => {
            if !any_stage_selected(&found.stages) {
                return Ok(None);
            }
            if found.boosts.len() != problem.chosen_hero + 1 {
                return Err(SolveError::Formulation);
            }
            proof {
                lemma_expand(found.boosts@, found.boosts.len() as int);
            }
            match expand_boosts(&found.boosts, problem.max_boosts) {
                None => Err(SolveError::Formulation),
                Some(boosts) => {
                    proof {
                        problem.lemma_boosts_apply(boosts@);
                    }
                    if solution_is_valid(problem, &boosts) {
                        Ok(Some(boosts))
                    } else {
                        Err(SolveError::Formulation)
                    }
                },
            }
        },
    }
}

/// The answer is an allocation.
pub open spec fn is_allocation(answer: Result<Option<Vec<usize>>, SolveError>) -> bool {
    answer matches Ok(Some(_))
}

/// The answer is that there is no allocation.
pub open spec fn is_none(answer: Result<Option<Vec<usize>>, SolveError>) -> bool {
    answer matches Ok(None)
}

/// The answer is the empty allocation.
pub open spec fn is_empty_allocation(answer: Result<Option<Vec<usize>>, SolveError>) -> bool {
    answer matches Ok(Some(boosts)) && boosts@ == Seq::<usize>::empty()
}

/// The answer is that the formulation is at fault.
pub open spec fn is_fault(answer: Result<Option<Vec<usize>>, SolveError>) -> bool {
    answer matches Err(SolveError::Formulation)
}

/// The answer is that the solver failed.
pub open spec fn is_failure(answer: Result<Option<Vec<usize>>, SolveError>) -> bool {
    answer matches Err(SolveError::Solver(_))
}

/// Solves the problem with the help of `solver`.
///
/// A monster without health to lose falls to the first blow, and a boost
/// without damage changes nothing: in both cases the replay of the fight
/// without boosts decides, and the allocation, if there is one, is the
/// empty one. Where no round gets a stage there is no allocation. In these
/// cases the solver is not called. Else the solver is called once, on the
/// formulation of the problem, and its verdict is read as `interpret` reads
/// it: an allocation is returned only if it makes the chosen hero land the
/// killing blow. Where the solver's verdicts are true of the program, an
/// allocation is returned exactly when the problem has a solution.
pub fn solve<S: FnOnce(&Formulation) -> SolverVerdict>(problem: &Problem, solver: S) -> (answer:
    Result<Option<Vec<usize>>, SolveError>)
    requires
        problem.wf(),
        forall|formulation: &Formulation|
            formulation.describes(problem) ==> #[trigger] solver.requires((formulation,)),
    ensures
        answer matches Ok(Some(boosts)) ==> problem.is_solution(boosts@),
        problem.monster_health <= 0 ==> (problem.is_solution(Seq::empty()) <==> problem.chosen_hero
            == 0),
        problem.monster_health <= 0 || problem.boost_damage == 0 ==> (problem.solvable()
            <==> problem.is_solution(Seq::empty())) && if problem.is_solution(Seq::empty()) {
            is_empty_allocation(answer)
        } else {
            is_none(answer)
        },
        problem.stage_turns(problem.rounds()).len() == 0 ==> is_none(answer)
            && !problem.solvable(),
        problem.monster_health >= 1 && problem.boost_damage > 0 && problem.stage_turns(
            problem.rounds(),
        ).len() > 0 ==> exists|formulation: &Formulation, verdict: SolverVerdict|
            formulation.describes(problem) && #[trigger] solver.ensures((formulation,), verdict)
                && is_reading(problem, verdict, answer),
        (forall|formulation: &Formulation, verdict: SolverVerdict|
            formulation.describes(problem) && #[trigger] solver.ensures((formulation,), verdict)
                ==> formulation.judged_truly(verdict)) ==> !is_fault(answer) && (is_failure(answer)
            || (is_allocation(answer) <==> problem.solvable())),
{
    if problem.monster_health <= 0 || problem.boost_damage == 0 {
        let nothing: Vec<usize> = Vec::new();
        proof {
            problem.lemma_boosts_apply(nothing@);
            if problem.monster_health <= 0 {
                lemma_first_blow(*problem, nothing@);
                if problem.solvable() {
                    let boosts = choose|boosts: Seq<usize>| problem.is_solution(boosts);
                    lemma_first_blow(*problem, boosts);
                }
            } else {
                lemma_zero_boost(*problem);
            }
            if problem.stage_turns(problem.rounds()).len() == 0 {
                lemma_no_stage_no_solution(*problem);
            }
        }
        return if solution_is_valid(problem, &nothing) {
            Ok(Some(nothing))
        } else {
            Ok(None)
        };
    }
    match formulate(problem) {
        None => Ok(None),
        Some(formulation) => {
            let verdict = solver(&formulation);
            let answer = interpret(problem, verdict);
            proof {
                assert(formulation.describes(problem) && solver.ensures((&formulation,), verdict)
                    && is_reading(problem, verdict, answer));
                if formulation.judged_truly(verdict) {
                    lemma_true_verdict(*problem, formulation, verdict, answer);
                }
            }
            answer
        },
    }
}

} // verus!
