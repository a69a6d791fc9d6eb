use vstd::prelude::*;

verus! {

/// One attacker: `health` is the number of rounds it survives once it stands
/// at the front of the line, `damage` is what it deals each round it acts.
#[derive(Debug, PartialEq, Eq, Clone, Copy)]
pub struct Hero {
    pub health: usize,
    pub damage: i32,
}

/// A puzzle instance. The heroes attack in the order of `heroes`; every boost
/// adds `boost_damage` to one hero's damage, and at most `max_boosts` boosts
/// may be handed out. The goal is that `heroes[chosen_hero]` lands the blow
/// that brings the monster's health to zero or below.
#[derive(Debug, PartialEq, Eq)]
pub struct Problem {
    pub monster_health: i32,
    pub heroes: Vec<Hero>,
    pub chosen_hero: usize,
    pub boost_damage: i32,
    pub max_boosts: usize,
}

/// Largest magnitude that the numbers of a formulation may reach: two to the
/// power of sixty, so that sums of a few of them stay within 64 bits.
pub const SCALE_LIMIT: i64 = 0x1000_0000_0000_0000;

/// Number of rounds after which hero `i` has left the line: the healths of
/// the heroes `0..=i` added up. Zero for an index outside the line.
pub open spec fn fall(heroes: Seq<Hero>, i: int) -> int
    decreases i + 1,
{
    if 0 <= i < heroes.len() {
        fall(heroes, i - 1) + heroes[i].health
    } else {
        0
    }
}

/// Damage that the heroes `0..i` deal together in one round in which all of
/// them act.
pub open spec fn joint_damage(heroes: Seq<Hero>, i: int) -> int
    decreases i,
{
    if 0 < i <= heroes.len() {
        joint_damage(heroes, i - 1) + heroes[i - 1].damage
    } else {
        0
    }
}

/// The constant that relaxes the constraints of a stage that is not selected.
/// It exceeds every amount of damage, boosted or not, that can be dealt while
/// the chosen hero is still in the line, by more than the magnitude of the
/// monster's health, and it exceeds the number of rounds of that time.
pub open spec fn big_m(heroes: Seq<Hero>, chosen: int, health: int, boost: int, budget: int) -> int {
    fall(heroes, chosen) * (joint_damage(heroes, heroes.len() as int) + (budget + 1) * boost + 1)
        + (if health < 0 { -health } else { health }) + 1
}

impl Problem {
    /// Every hero survives at least one round and deals no negative damage.
    pub open spec fn heroes_ok(&self) -> bool {
        forall|i: int|
            0 <= i < self.heroes.len() ==> (#[trigger] self.heroes@[i]).health >= 1
                && self.heroes@[i].damage >= 0
    }

    /// A boosted hero's damage still fits its type, however the boosts fall.
    pub open spec fn boosts_fit(&self) -> bool {
        forall|i: int|
            0 <= i < self.heroes.len() ==> (#[trigger] self.heroes@[i]).damage
                + self.boost_damage * self.max_boosts <= i32::MAX
    }

    /// The phases of the fight can be built: the chosen hero exists, every
    /// hero survives at least one round, the rounds in which the chosen
    /// hero acts can be counted, and the damage per round of any stretch of
    /// the line stays within 64 bits.
    pub open spec fn buildable(&self) -> bool {
        &&& self.chosen_hero < self.heroes.len()
        &&& forall|i: int|
            0 <= i < self.heroes.len() ==> (#[trigger] self.heroes@[i]).health >= 1
        &&& fall(self.heroes@, self.chosen_hero as int) <= usize::MAX
        &&& fall(self.heroes@, self.chosen_hero as int) <= i64::MAX
        &&& forall|i: int, j: int|
            #![trigger joint_damage(self.heroes@, i), joint_damage(self.heroes@, j)]
            0 <= i <= j <= self.heroes.len() ==> i64::MIN <= joint_damage(self.heroes@, j)
                - joint_damage(self.heroes@, i) <= i64::MAX
    }

    /// The relaxing constant of this problem.
    pub open spec fn spec_big_m(&self) -> int {
        big_m(
            self.heroes@,
            self.chosen_hero as int,
            self.monster_health as int,
            self.boost_damage as int,
            self.max_boosts as int,
        )
    }

    /// The instances that the library works on: the chosen hero exists, the
    /// heroes are sound, boosts do not weaken, and the numbers stay in range.
    pub open spec fn wf(&self) -> bool {
        &&& self.chosen_hero < self.heroes.len()
        &&& self.heroes_ok()
        &&& self.boost_damage >= 0
        &&& self.boosts_fit()
        &&& fall(self.heroes@, self.chosen_hero as int) <= usize::MAX
        &&& self.max_boosts <= SCALE_LIMIT
        &&& self.spec_big_m() <= SCALE_LIMIT
    }
}

/// A later hero leaves the line no earlier than a hero before it.
pub proof fn lemma_fall_monotone(heroes: Seq<Hero>, i: int, j: int)
    requires
        -1 <= i <= j < heroes.len(),
    ensures
        fall(heroes, i) <= fall(heroes, j),
    decreases j - i,
{
    if i < j {
        lemma_fall_monotone(heroes, i, j - 1);
    }
}

/// The damage per round of the first heroes is not negative and does not
/// exceed that of more heroes, where no hero deals negative damage.
pub proof fn lemma_joint_damage_monotone(heroes: Seq<Hero>, i: int, j: int)
    requires
        forall|k: int| 0 <= k < heroes.len() ==> (#[trigger] heroes[k]).damage >= 0,
        0 <= i <= j <= heroes.len(),
    ensures
        0 <= joint_damage(heroes, i) <= joint_damage(heroes, j),
    decreases j,
{
    if i < j {
        lemma_joint_damage_monotone(heroes, i, j - 1);
    } else if i > 0 {
        lemma_joint_damage_monotone(heroes, i - 1, j - 1);
    }
}

/// Each hero leaves the line at least one round after the hero before it.
pub proof fn lemma_fall_increases(heroes: Seq<Hero>, i: int, j: int)
    requires
        forall|k: int| 0 <= k < heroes.len() ==> (#[trigger] heroes[k]).health >= 1,
        -1 <= i <= j < heroes.len(),
    ensures
        fall(heroes, i) + (j - i) <= fall(heroes, j),
        fall(heroes, i) >= 0,
    decreases j + 1,
{
    if i < j {
        lemma_fall_increases(heroes, i, j - 1);
    } else if i >= 0 {
        lemma_fall_increases(heroes, i - 1, j - 1);
    }
}

/// The first `k` heroes of a line deal the same damage per round as the
/// first `k` heroes of a longer line that starts with them.
pub proof fn lemma_joint_damage_prefix(heroes: Seq<Hero>, part: Seq<Hero>, k: int)
    requires
        part.len() <= heroes.len(),
        forall|j: int| 0 <= j < part.len() ==> part[j] == heroes[j],
        0 <= k <= part.len(),
    ensures
        joint_damage(part, k) == joint_damage(heroes, k),
    decreases k,
{
    if k > 0 {
        lemma_joint_damage_prefix(heroes, part, k - 1);
    }
}

impl Problem {
    /// Number of rounds in which the chosen hero acts.
    pub open spec fn rounds(&self) -> int {
        fall(self.heroes@, self.chosen_hero as int)
    }

    /// What a well-formed problem says of the size of its numbers.
    pub proof fn lemma_scale(&self)
        requires
            self.wf(),
        ensures
            1 <= self.rounds() <= SCALE_LIMIT,
            self.rounds() <= usize::MAX,
            0 <= joint_damage(self.heroes@, self.heroes.len() as int) <= SCALE_LIMIT,
            0 <= (self.max_boosts + 1) * self.boost_damage <= SCALE_LIMIT,
            0 <= self.max_boosts * self.boost_damage <= SCALE_LIMIT,
            self.boost_damage > 0 ==> self.max_boosts < SCALE_LIMIT,
            self.rounds() * (joint_damage(self.heroes@, self.heroes.len() as int) + (
            self.max_boosts + 1) * self.boost_damage + 1) <= SCALE_LIMIT,
            1 <= self.spec_big_m() <= SCALE_LIMIT,
            self.buildable(),
    {
        let heroes = self.heroes@;
        let t = self.rounds();
        let d = joint_damage(heroes, heroes.len() as int);
        let k = self.max_boosts as int;
        let b = self.boost_damage as int;
        lemma_fall_increases(heroes, -1, self.chosen_hero as int);
        lemma_joint_damage_monotone(heroes, 0, heroes.len() as int);
        assert(0 <= (k + 1) * b && 0 <= k * b <= (k + 1) * b) by (nonlinear_arith)
            requires
                k >= 0,
                b >= 0,
        ;
        let x = d + (k + 1) * b + 1;
        assert(x <= t * x && t <= t * x) by (nonlinear_arith)
            requires
                t >= 1,
                x >= 1,
        ;
        if b > 0 {
            assert(k + 1 <= (k + 1) * b) by (nonlinear_arith)
                requires
                    k >= 0,
                    b >= 1,
            ;
        }
        assert forall|i: int, j: int|
            #![trigger joint_damage(heroes, i), joint_damage(heroes, j)]
            0 <= i <= j <= heroes.len() implies i64::MIN <= joint_damage(heroes, j) - joint_damage(
            heroes,
            i,
        ) <= i64::MAX by {
            lemma_joint_damage_monotone(heroes, i, j);
            lemma_joint_damage_monotone(heroes, j, heroes.len() as int);
            lemma_joint_damage_monotone(heroes, 0, heroes.len() as int);
        }
        assert forall|i: int| 0 <= i < heroes.len() implies (#[trigger] heroes[i]).health >= 1 by {
            assert(heroes[i].health >= 1 && heroes[i].damage >= 0);
        }
    }
}

impl Problem {
    /// Tells whether the problem is one that the library works on.
    pub fn is_valid(&self) -> (valid: bool)
        ensures
            valid == self.wf(),
    {
        let n = self.heroes.len();
        let chosen = self.chosen_hero;
        let ghost heroes = self.heroes@;
        if chosen >= n || self.boost_damage < 0 || self.max_boosts as u64 > SCALE_LIMIT as u64 {
            return false;
        }
        assert(0 <= self.boost_damage * self.max_boosts <= 0x8000_0000 * 0x1000_0000_0000_0000
            && 0 <= (self.max_boosts + 1) * self.boost_damage <= 0x8000_0000
            * 0x1000_0000_0000_0001) by (nonlinear_arith)
            requires
                0 <= self.boost_damage <= 0x8000_0000,
                0 <= self.max_boosts <= 0x1000_0000_0000_0000,
        ;
        let budget_damage: i128 = (self.boost_damage as i128) * (self.max_boosts as i128);
        let mut i: usize = 0;
        while i < n
            invariant
                n == self.heroes.len(),
                heroes == self.heroes@,
                i <= n,
                budget_damage == self.boost_damage * self.max_boosts,
                0 <= budget_damage <= 0x8000_0000 * 0x1000_0000_0000_0000,
                forall|j: int|
                    0 <= j < i ==> (#[trigger] heroes[j]).health >= 1 && heroes[j].damage >= 0
                        && heroes[j].damage + budget_damage <= i32::MAX,
            decreases n - i,
        {
            let hero = self.heroes[i];
            if hero.health < 1 || hero.damage < 0 || hero.damage as i128 + budget_damage
                > i32::MAX as i128 {
                assert(!(heroes[i as int].health >= 1 && heroes[i as int].damage >= 0)
                    || !(heroes[i as int].damage + self.boost_damage * self.max_boosts
                    <= i32::MAX));
                return false;
            }
            i += 1;
        }
        assert(self.heroes_ok() && self.boosts_fit());
        let ghost total_damage = joint_damage(heroes, n as int);
        let ghost boosting = (self.max_boosts + 1) * self.boost_damage;
        let ghost per_round = total_damage + boosting + 1;
        let ghost magnitude: int = if self.monster_health < 0 {
            -self.monster_health
        } else {
            self.monster_health as int
        };
        proof {
            lemma_joint_damage_monotone(heroes, 0, n as int);
            lemma_fall_increases(heroes, -1, chosen as int);
            assert(boosting >= 0) by (nonlinear_arith)
                requires
                    boosting == (self.max_boosts + 1) * self.boost_damage,
                    self.boost_damage >= 0,
            ;
            assert(self.rounds() <= self.rounds() * per_round && per_round <= self.rounds()
                * per_round) by (nonlinear_arith)
                requires
                    self.rounds() >= 1,
                    per_round >= 1,
            ;
            assert(self.spec_big_m() == self.rounds() * per_round + magnitude + 1);
        }
        let mut rounds: u64 = 0;
        let mut k: usize = 0;
        while k <= chosen
            invariant
                self.heroes_ok(),
                heroes == self.heroes@,
                chosen == self.chosen_hero,
                chosen < self.heroes.len(),
                self.rounds() <= self.spec_big_m(),
                k <= chosen + 1,
                rounds == fall(heroes, k - 1),
                rounds <= SCALE_LIMIT,
                rounds <= usize::MAX,
            decreases chosen + 1 - k,
        {
            proof {
                lemma_fall_increases(heroes, k as int, chosen as int);
            }
            let health = self.heroes[k].health as u64;
            if health > SCALE_LIMIT as u64 - rounds || health > usize::MAX as u64 - rounds {
                return false;
            }
            rounds = rounds + health;
            k += 1;
        }
        let mut damage: i64 = 0;
        let mut j: usize = 0;
        while j < n
            invariant
                self.heroes_ok(),
                heroes == self.heroes@,
                n == heroes.len(),
                j <= n,
                total_damage == joint_damage(heroes, n as int),
                total_damage <= self.spec_big_m(),
                damage == joint_damage(heroes, j as int),
                0 <= damage <= SCALE_LIMIT,
            decreases n - j,
        {
            proof {
                lemma_joint_damage_monotone(heroes, j + 1, n as int);
            }
            let hit = self.heroes[j].damage as i64;
            if hit > SCALE_LIMIT - damage {
                return false;
            }
            damage = damage + hit;
            j += 1;
        }
        let factor: i128 = damage as i128 + (self.max_boosts as i128 + 1) * (
        self.boost_damage as i128) + 1;
        assert(factor == per_round);
        if factor > SCALE_LIMIT as i128 {
            return false;
        }
        assert(rounds * factor <= 0x1000_0000_0000_0000 * 0x1000_0000_0000_0000) by (nonlinear_arith)
            requires
                0 <= rounds <= 0x1000_0000_0000_0000,
                0 <= factor <= 0x1000_0000_0000_0000,
        ;
        let health: i128 = if self.monster_health < 0 {
            -(self.monster_health as i128)
        } else {
            self.monster_health as i128
        };
        let m: i128 = (rounds as i128) * factor + health + 1;
        m <= SCALE_LIMIT as i128
    }
}

} // verus!
