use vstd::prelude::*;
use crate::problem::{Hero, Problem, fall, lemma_fall_monotone};

verus! {

/// A line of heroes, boosts already applied, facing a monster.
#[derive(Debug, PartialEq, Eq)]
pub struct Combat {
    pub monster_health: i32,
    pub heroes: Vec<Hero>,
}

/// Hero `i` is still in the line in round `t` and so acts in it. Rounds are
/// counted from zero; hero `i` leaves after round `fall(heroes, i) - 1`.
pub open spec fn acts(heroes: Seq<Hero>, t: int, i: int) -> bool {
    0 <= t && 0 <= i < heroes.len() && t < fall(heroes, i)
}

/// Damage that hero `i` deals in round `t`.
pub open spec fn strike(heroes: Seq<Hero>, t: int, i: int) -> int {
    if acts(heroes, t, i) {
        heroes[i].damage as int
    } else {
        0
    }
}

/// Damage dealt in round `t` by the heroes `0..i`.
pub open spec fn round_damage(heroes: Seq<Hero>, t: int, i: int) -> int
    decreases i,
{
    if 0 < i <= heroes.len() {
        round_damage(heroes, t, i - 1) + strike(heroes, t, i - 1)
    } else {
        0
    }
}

/// Damage dealt in the rounds `0..t`.
pub open spec fn damage_before(heroes: Seq<Hero>, t: int) -> int
    decreases t,
{
    if t > 0 {
        damage_before(heroes, t - 1) + round_damage(heroes, t - 1, heroes.len() as int)
    } else {
        0
    }
}

/// Damage dealt from the start up to and including hero `i`'s action in
/// round `t`.
pub open spec fn dealt(heroes: Seq<Hero>, t: int, i: int) -> int {
    damage_before(heroes, t) + round_damage(heroes, t, i + 1)
}

/// Action `(s, j)` comes before action `(t, i)` in the attack order.
pub open spec fn earlier(s: int, j: int, t: int, i: int) -> bool {
    s < t || (s == t && j < i)
}

/// Hero `i` lands the killing blow in round `t`: its action brings the
/// monster's health to zero or below, and no action before it did.
pub open spec fn lands(heroes: Seq<Hero>, health: int, t: int, i: int) -> bool {
    &&& acts(heroes, t, i)
    &&& dealt(heroes, t, i) >= health
    &&& forall|s: int, j: int|
        #![trigger acts(heroes, s, j)]
        acts(heroes, s, j) && earlier(s, j, t, i) ==> dealt(heroes, s, j) < health
}

/// The hero that lands the killing blow, if any hero does before the line is
/// empty.
pub open spec fn killing_blow(heroes: Seq<Hero>, health: int) -> Option<usize> {
    if exists|t: int, i: int| lands(heroes, health, t, i) {
        let (t, i) = choose|t: int, i: int| lands(heroes, health, t, i);
        Some(i as usize)
    } else {
        None
    }
}

/// Number of times that `i` occurs in `boosts`.
pub open spec fn count(boosts: Seq<usize>, i: int) -> int
    decreases boosts.len(),
{
    if boosts.len() == 0 {
        0
    } else {
        count(boosts.drop_last(), i) + if boosts.last() == i { 1int } else { 0int }
    }
}

/// The hero `hero` with `times` boosts of `boost` on it. The damage is cut to
/// its type; the functions below work where nothing is lost by that.
pub open spec fn boost_hero(hero: Hero, boost: int, times: int) -> Hero {
    Hero { health: hero.health, damage: (hero.damage + boost * times) as i32 }
}

/// The line `heroes` with each boost of `boosts` applied to the hero it names.
pub open spec fn boosted(heroes: Seq<Hero>, boost: int, boosts: Seq<usize>) -> Seq<Hero> {
    Seq::new(heroes.len(), |i: int| boost_hero(heroes[i], boost, count(boosts, i)))
}

/// Every boost names a hero of the line, and no boosted damage leaves the
/// range of its type.
pub open spec fn boosts_apply(heroes: Seq<Hero>, boost: int, boosts: Seq<usize>) -> bool {
    &&& forall|k: int| 0 <= k < boosts.len() ==> #[trigger] boosts[k] < heroes.len()
    &&& forall|i: int|
        0 <= i < heroes.len() ==> i32::MIN <= (#[trigger] heroes[i]).damage + boost * count(
            boosts,
            i,
        ) <= i32::MAX
}

impl Combat {
    /// The monster's health never rises beyond the range of the running total.
    pub open spec fn steady(&self) -> bool {
        forall|t: int, i: int|
            #![trigger acts(self.heroes@, t, i)]
            acts(self.heroes@, t, i) ==> self.monster_health - dealt(self.heroes@, t, i)
                <= i64::MAX
    }

    /// Every hero survives at least one round, and the fight stays in range.
    pub open spec fn wf(&self) -> bool {
        &&& forall|i: int| 0 <= i < self.heroes.len() ==> (#[trigger] self.heroes[i]).health >= 1
        &&& self.steady()
    }
}

/// In a round that the heroes `0..i` have all left before, they deal nothing.
pub proof fn lemma_fallen_deal_nothing(heroes: Seq<Hero>, t: int, i: int)
    requires
        0 <= i <= heroes.len(),
        fall(heroes, i - 1) <= t,
    ensures
        round_damage(heroes, t, i) == 0,
    decreases i,
{
    if i > 0 {
        lemma_fall_monotone(heroes, i - 2, i - 1);
        lemma_fallen_deal_nothing(heroes, t, i - 1);
    }
}

/// At most one action lands the killing blow.
pub proof fn lemma_lands_unique(heroes: Seq<Hero>, health: int, t: int, i: int, s: int, j: int)
    requires
        lands(heroes, health, t, i),
        lands(heroes, health, s, j),
    ensures
        t == s && i == j,
{
    if earlier(s, j, t, i) {
        assert(acts(heroes, s, j));
    } else if earlier(t, i, s, j) {
        assert(acts(heroes, t, i));
    }
}

/// The hero of any action that lands the killing blow is the one that
/// `killing_blow` names.
pub proof fn lemma_killing_blow_is(heroes: Seq<Hero>, health: int, t: int, i: int)
    requires
        lands(heroes, health, t, i),
    ensures
        killing_blow(heroes, health) == Some(i as usize),
{
    let (s, j) = choose|s: int, j: int| lands(heroes, health, s, j);
    lemma_lands_unique(heroes, health, t, i, s, j);
}

/// Replays the fight and names the hero whose action first brings the
/// monster's health to zero or below; `None` when the line empties first.
pub fn find_hero_with_killing_blow(combat: &Combat) -> (killer: Option<usize>)
    requires
        combat.wf(),
    ensures
        killer == killing_blow(combat.heroes@, combat.monster_health as int),
        combat.heroes.len() == 0 ==> killer.is_none(),
{
    let n = combat.heroes.len();
    let ghost heroes = combat.heroes@;
    let ghost health = combat.monster_health as int;
    if n == 0 {
        return None;
    }
    let mut remaining: i64 = combat.monster_health as i64;
    let mut first: usize = 0;
    let mut acted: usize = 0;
    let ghost mut t: int = 0;
    while first < n
        invariant
            combat.wf(),
            n == combat.heroes.len(),
            heroes == combat.heroes@,
            health == combat.monster_health as int,
            first <= n,
            first < n ==> acted < heroes[first as int].health,
            first == n ==> acted == 0,
            0 <= t == fall(heroes, first - 1) + acted,
            remaining == health - damage_before(heroes, t),
            remaining > 0 || remaining == health,
            forall|s: int, j: int|
                #![trigger acts(heroes, s, j)]
                acts(heroes, s, j) && s < t ==> dealt(heroes, s, j) < health,
        decreases n - first, (if first < n { heroes[first as int].health - acted } else { 0 }),
    {
        let mut i: usize = first;
        proof {
            lemma_fallen_deal_nothing(heroes, t, first as int);
            assert forall|j: int| acts(heroes, t, j) && j < first implies dealt(heroes, t, j)
                < health by {
                lemma_fall_monotone(heroes, j, first - 1);
            }
        }
        while i < n
            invariant
                combat.wf(),
                n == combat.heroes.len(),
                heroes == combat.heroes@,
                health == combat.monster_health as int,
                first <= i <= n,
                first < n,
                acted < heroes[first as int].health,
                0 <= t == fall(heroes, first - 1) + acted,
                remaining == health - (damage_before(heroes, t) + round_damage(heroes, t, i as int)),
                remaining > 0 || remaining == health,
                forall|s: int, j: int|
                    #![trigger acts(heroes, s, j)]
                    acts(heroes, s, j) && s < t ==> dealt(heroes, s, j) < health,
                forall|j: int|
                    #![trigger acts(heroes, t, j)]
                    acts(heroes, t, j) && j < i ==> dealt(heroes, t, j) < health,
            decreases n - i,
        {
            proof {
                lemma_fall_monotone(heroes, first as int, i as int);
                assert(acts(heroes, t, i as int));
                assert(round_damage(heroes, t, i + 1) == round_damage(heroes, t, i as int)
                    + strike(heroes, t, i as int));
            }
            remaining = remaining - combat.heroes[i].damage as i64;
            if remaining <= 0 {
                proof {
                    assert(lands(heroes, health, t, i as int));
                    lemma_killing_blow_is(heroes, health, t, i as int);
                }
                return Some(i);
            }
            i += 1;
        }
        acted += 1;
        proof {
            assert(damage_before(heroes, t + 1) == damage_before(heroes, t) + round_damage(
                heroes,
                t,
                n as int,
            ));
            t = t + 1;
        }
        if acted == combat.heroes[first].health {
            first += 1;
            acted = 0;
        }
    }
    proof {
        assert forall|s: int, j: int| !lands(heroes, health, s, j) by {
            if lands(heroes, health, s, j) {
                lemma_fall_monotone(heroes, j, n - 1);
                assert(acts(heroes, s, j));
            }
        }
    }
    None
}

/// A prefix of the boosts names a hero no more often than all of them do.
pub proof fn lemma_count_prefix(boosts: Seq<usize>, k: int, i: int)
    requires
        0 <= k <= boosts.len(),
    ensures
        0 <= count(boosts.take(k), i) <= count(boosts, i) <= boosts.len(),
        k < boosts.len() ==> count(boosts.take(k + 1), i) == count(boosts.take(k), i) + if boosts[k]
            == i {
            1int
        } else {
            0int
        },
    decreases boosts.len() - k,
{
    if k < boosts.len() {
        assert(boosts.take(k + 1).drop_last() =~= boosts.take(k));
        lemma_count_prefix(boosts, k + 1, i);
    } else {
        assert(boosts.take(k) =~= boosts);
    }
    lemma_count_bounds(boosts.take(k), i);
}

/// A hero is named between zero and `boosts.len()` times.
pub proof fn lemma_count_bounds(boosts: Seq<usize>, i: int)
    ensures
        0 <= count(boosts, i) <= boosts.len(),
    decreases boosts.len(),
{
    if boosts.len() > 0 {
        lemma_count_bounds(boosts.drop_last(), i);
    }
}

/// Where no hero deals negative damage, the heroes `0..k` deal none in a
/// round.
pub proof fn lemma_round_damage_nonnegative(heroes: Seq<Hero>, t: int, k: int)
    requires
        forall|j: int| 0 <= j < heroes.len() ==> (#[trigger] heroes[j]).damage >= 0,
    ensures
        round_damage(heroes, t, k) >= 0,
    decreases k,
{
    if 0 < k <= heroes.len() {
        lemma_round_damage_nonnegative(heroes, t, k - 1);
    }
}

/// Where no hero deals negative damage, no total of damage is negative.
pub proof fn lemma_dealt_nonnegative(heroes: Seq<Hero>, t: int, i: int)
    requires
        forall|j: int| 0 <= j < heroes.len() ==> (#[trigger] heroes[j]).damage >= 0,
    ensures
        round_damage(heroes, t, i) >= 0,
        damage_before(heroes, t) >= 0,
        dealt(heroes, t, i) >= 0,
    decreases t,
{
    lemma_round_damage_nonnegative(heroes, t, i);
    lemma_round_damage_nonnegative(heroes, t, i + 1);
    if t > 0 {
        lemma_dealt_nonnegative(heroes, t - 1, heroes.len() as int - 1);
    }
}

/// A fight of heroes that deal no negative damage stays in range.
pub proof fn lemma_harmless_is_steady(combat: Combat)
    requires
        forall|j: int| 0 <= j < combat.heroes.len() ==> (#[trigger] combat.heroes@[j]).damage >= 0,
    ensures
        combat.steady(),
{
    assert forall|t: int, i: int| acts(combat.heroes@, t, i) implies combat.monster_health - dealt(
        combat.heroes@,
        t,
        i,
    ) <= i64::MAX by {
        lemma_dealt_nonnegative(combat.heroes@, t, i);
    }
}

/// Hands out the boosts: each entry of `boosts` adds the problem's boost
/// damage once to the hero it names.
pub fn apply_boosts(problem: &Problem, boosts: &Vec<usize>) -> (combat: Combat)
    requires
        problem.allocation_ok(boosts@),
        boosts_apply(problem.heroes@, problem.boost_damage as int, boosts@),
    ensures
        combat.monster_health == problem.monster_health,
        combat.heroes@ == boosted(problem.heroes@, problem.boost_damage as int, boosts@),
{
    let n = problem.heroes.len();
    let ghost origin = problem.heroes@;
    let ghost boost = problem.boost_damage as int;
    let mut heroes: Vec<Hero> = Vec::new();
    let mut i: usize = 0;
    while i < n
        invariant
            n == problem.heroes.len(),
            i <= n,
            heroes@ == problem.heroes@.take(i as int),
        decreases n - i,
    {
        heroes.push(problem.heroes[i]);
        assert(heroes@ =~= problem.heroes@.take(i + 1));
        i += 1;
    }
    assert(heroes@ =~= boosted(origin, boost, boosts@.take(0))) by {
        assert(problem.heroes@.take(n as int) =~= origin);
        assert forall|j: int| 0 <= j < n implies count(boosts@.take(0), j) == 0 by {}
    }
    let mut k: usize = 0;
    while k < boosts.len()
        invariant
            n == problem.heroes.len(),
            origin == problem.heroes@,
            boost == problem.boost_damage as int,
            k <= boosts.len(),
            boosts_apply(origin, boost, boosts@),
            heroes@ == boosted(origin, boost, boosts@.take(k as int)),
        decreases boosts.len() - k,
    {
        let target = boosts[k];
        let hero = heroes[target];
        proof {
            assert forall|j: int| 0 <= j < n implies {
                &&& count(boosts@.take(k + 1), j) == count(boosts@.take(k as int), j) + if target
                    == j {
                    1int
                } else {
                    0int
                }
                &&& i32::MIN <= (#[trigger] origin[j]).damage + boost * count(
                    boosts@.take(k as int),
                    j,
                ) <= i32::MAX
                &&& i32::MIN <= origin[j].damage + boost * count(boosts@.take(k + 1), j)
                    <= i32::MAX
            } by {
                lemma_count_prefix(boosts@, k as int, j);
                lemma_count_prefix(boosts@, k + 1, j);
                lemma_between(boost, count(boosts@.take(k as int), j), count(boosts@, j));
                lemma_between(boost, count(boosts@.take(k + 1), j), count(boosts@, j));
            }
            assert(origin[target as int].damage + boost * (count(boosts@.take(k as int), target as int) + 1)
                == origin[target as int].damage + boost * count(boosts@.take(k as int), target as int) + boost) by (nonlinear_arith);
        }
        heroes.set(target, Hero { health: hero.health, damage: hero.damage + problem.boost_damage });
        assert(heroes@ =~= boosted(origin, boost, boosts@.take(k + 1)));
        k += 1;
    }
    assert(boosts@.take(k as int) =~= boosts@);
    Combat { monster_health: problem.monster_health, heroes }
}

/// A multiple of `b` by a count between zero and `c` lies between zero and
/// `b * c`.
proof fn lemma_between(b: int, a: int, c: int)
    requires
        0 <= a <= c,
    ensures
        b >= 0 ==> 0 <= b * a <= b * c,
        b <= 0 ==> b * c <= b * a <= 0,
{
    assert(b >= 0 ==> 0 <= b * a <= b * c) by (nonlinear_arith)
        requires
            0 <= a <= c,
    ;
    assert(b <= 0 ==> b * c <= b * a <= 0) by (nonlinear_arith)
        requires
            0 <= a <= c,
    ;
}

impl Problem {
    /// An allocation within the rules: no more boosts than the budget, each
    /// on the chosen hero or on a hero before it.
    pub open spec fn allocation_ok(&self, boosts: Seq<usize>) -> bool {
        &&& boosts.len() <= self.max_boosts
        &&& forall|k: int| 0 <= k < boosts.len() ==> #[trigger] boosts[k] <= self.chosen_hero
    }

    /// The hero that lands the killing blow once `boosts` are handed out.
    pub open spec fn killer(&self, boosts: Seq<usize>) -> Option<usize> {
        killing_blow(
            boosted(self.heroes@, self.boost_damage as int, boosts),
            self.monster_health as int,
        )
    }

    /// `boosts` is within the rules and makes the chosen hero land the blow.
    pub open spec fn is_solution(&self, boosts: Seq<usize>) -> bool {
        self.allocation_ok(boosts) && self.killer(boosts) == Some(self.chosen_hero)
    }

    /// Some allocation within the rules makes the chosen hero land the blow.
    pub open spec fn solvable(&self) -> bool {
        exists|boosts: Seq<usize>| self.is_solution(boosts)
    }

    /// The fight with `boosts` handed out can be replayed: the chosen hero
    /// exists, every hero survives at least one round, the allocation is
    /// within the rules, no boosted damage leaves the range of its type, and
    /// the monster's health never rises beyond the range of the running
    /// total.
    pub open spec fn admits(&self, boosts: Seq<usize>) -> bool {
        let line = boosted(self.heroes@, self.boost_damage as int, boosts);
        &&& self.chosen_hero < self.heroes.len()
        &&& forall|i: int|
            0 <= i < self.heroes.len() ==> (#[trigger] self.heroes@[i]).health >= 1
        &&& self.allocation_ok(boosts)
        &&& boosts_apply(self.heroes@, self.boost_damage as int, boosts)
        &&& forall|t: int, i: int|
            #![trigger acts(line, t, i)]
            acts(line, t, i) ==> self.monster_health - dealt(line, t, i) <= i64::MAX
    }

    /// On a well-formed problem any boosts within the budget that name
    /// heroes of the line can be applied, and the fight that results can be
    /// replayed.
    pub proof fn lemma_boosts_apply(&self, boosts: Seq<usize>)
        requires
            self.wf(),
            boosts.len() <= self.max_boosts,
            forall|k: int| 0 <= k < boosts.len() ==> #[trigger] boosts[k] < self.heroes.len(),
        ensures
            boosts_apply(self.heroes@, self.boost_damage as int, boosts),
            self.allocation_ok(boosts) ==> self.admits(boosts),
            forall|c: Combat|
                c.monster_health == self.monster_health && c.heroes@ == boosted(
                    self.heroes@,
                    self.boost_damage as int,
                    boosts,
                ) ==> #[trigger] c.wf(),
    {
        let heroes = self.heroes@;
        let boost = self.boost_damage as int;
        let line = boosted(heroes, boost, boosts);
        assert forall|i: int| 0 <= i < heroes.len() implies 0 <= (#[trigger] heroes[i]).damage
            + boost * count(boosts, i) <= i32::MAX by {
            lemma_count_bounds(boosts, i);
            lemma_between(boost, count(boosts, i), self.max_boosts as int);
            assert(self.heroes[i].health >= 1 && self.heroes[i].damage >= 0);
            assert(self.heroes[i].damage + self.boost_damage * self.max_boosts <= i32::MAX);
        }
        assert forall|c: Combat|
            c.monster_health == self.monster_health && c.heroes@ == line implies #[trigger] c.wf() by {
            assert forall|i: int| 0 <= i < line.len() implies (#[trigger] line[i]).health >= 1
                && line[i].damage >= 0 by {
                assert(self.heroes[i].health >= 1 && self.heroes[i].damage >= 0);
            }
            lemma_harmless_is_steady(c);
        }
        assert forall|t: int, i: int| acts(line, t, i) implies self.monster_health - dealt(
            line,
            t,
            i,
        ) <= i64::MAX by {
            assert forall|j: int| 0 <= j < line.len() implies (#[trigger] line[j]).damage >= 0 by {
                assert(self.heroes[j].health >= 1 && self.heroes[j].damage >= 0);
            }
            lemma_dealt_nonnegative(line, t, i);
        }
        assert forall|i: int| 0 <= i < self.heroes.len() implies (#[trigger] self.heroes@[i]).health
            >= 1 by {
            assert(self.heroes@[i].health >= 1 && self.heroes@[i].damage >= 0);
        }
    }
}

/// Tells whether the allocation `boosts` makes the chosen hero land the
/// killing blow.
pub fn solution_is_valid(problem: &Problem, boosts: &Vec<usize>) -> (valid: bool)
    requires
        problem.admits(boosts@),
    ensures
        valid == (problem.killer(boosts@) == Some(problem.chosen_hero)),
        valid == problem.is_solution(boosts@),
{
    let combat = apply_boosts(problem, boosts);
    proof {
        assert forall|i: int| 0 <= i < combat.heroes.len() implies (#[trigger] combat.heroes[i]).health
            >= 1 by {
            assert(problem.heroes@[i].health >= 1);
        }
    }
    match find_hero_with_killing_blow(&combat) {
        Some(i) => problem.chosen_hero == i,
        None => false,
    }
}

/// A problem that can be solved stays solvable when the budget grows and
/// nothing else changes.
pub proof fn lemma_budget_monotone(small: Problem, large: Problem)
    requires
        small.monster_health == large.monster_health,
        small.heroes@ == large.heroes@,
        small.chosen_hero == large.chosen_hero,
        small.boost_damage == large.boost_damage,
        small.max_boosts <= large.max_boosts,
        small.solvable(),
    ensures
        large.solvable(),
{
    let boosts = choose|boosts: Seq<usize>| small.is_solution(boosts);
    assert(large.is_solution(boosts));
}

/// With no hero in the line no allocation is a solution.
pub proof fn lemma_empty_line_unsolvable(problem: Problem)
    requires
        problem.heroes.len() == 0,
    ensures
        !problem.solvable(),
        forall|boosts: Seq<usize>| (#[trigger] problem.killer(boosts)).is_none(),
{
    assert forall|boosts: Seq<usize>| (#[trigger] problem.killer(boosts)).is_none() by {
        let line = boosted(problem.heroes@, problem.boost_damage as int, boosts);
        assert forall|t: int, i: int| !lands(line, problem.monster_health as int, t, i) by {
            assert(!acts(line, t, i));
        }
    }
}

/// With a boost of zero damage the problem can be solved exactly when the
/// chosen hero lands the killing blow without any boost.
pub proof fn lemma_zero_boost(problem: Problem)
    requires
        problem.boost_damage == 0,
    ensures
        problem.solvable() <==> problem.is_solution(Seq::empty()),
        forall|boosts: Seq<usize>| #[trigger] problem.killer(boosts) == problem.killer(Seq::empty()),
{
    assert forall|boosts: Seq<usize>| #[trigger] problem.killer(boosts) == problem.killer(
        Seq::empty(),
    ) by {
        assert(boosted(problem.heroes@, 0, boosts) =~= boosted(problem.heroes@, 0, Seq::empty()));
    }
    if problem.solvable() {
        let boosts = choose|boosts: Seq<usize>| problem.is_solution(boosts);
        assert(problem.killer(boosts) == problem.killer(Seq::empty()));
    }
}

} // verus!
