use rust_monster::model::{Assignment, Constraint, Relation, SolverVerdict, Term, Var};
use rust_monster::problem::{Hero, Problem};
use rust_monster::simulation::solution_is_valid;
use rust_monster::solution::{solve, Formulation};

fn value(term: &Term, formulation: &Formulation, found: &Assignment) -> i64 {
    match term.var {
        Var::Boost(i) => found.boosts[i],
        Var::Stage(turn) => {
            let at = formulation
                .stages
                .iter()
                .position(|stage| stage.index == turn)
                .unwrap();
            found.stages[at]
        }
    }
}

fn holds(constraint: &Constraint, formulation: &Formulation, found: &Assignment) -> bool {
    let sum: i64 = constraint
        .terms
        .iter()
        .map(|term| term.coeff * value(term, formulation, found))
        .sum();
    match constraint.relation {
        Relation::AtMost => sum <= constraint.bound,
        Relation::AtLeast => sum >= constraint.bound,
    }
}

fn feasible(formulation: &Formulation, found: &Assignment) -> bool {
    found.boosts.iter().all(|&b| b >= 0)
        && found.stages.iter().all(|&s| s == 0 || s == 1)
        && formulation
            .program
            .constraints
            .iter()
            .all(|constraint| holds(constraint, formulation, found))
}

// One stage with its indicator at one: the coefficients of the boosts in its
// two constraints, and what is left of the bounds for the boosts.
struct Stage {
    upper: Vec<i64>,
    at_most: i64,
    lower: Vec<i64>,
    at_least: i64,
}

fn stage(formulation: &Formulation, turn: usize) -> Stage {
    let n = formulation.boosts.len();
    let mut stage = Stage {
        upper: vec![0; n],
        at_most: 0,
        lower: vec![0; n],
        at_least: 0,
    };
    for constraint in &formulation.program.constraints {
        let indicator: i64 = constraint
            .terms
            .iter()
            .filter(|term| term.var == Var::Stage(turn))
            .map(|term| term.coeff)
            .sum();
        if !constraint.terms.iter().any(|term| term.var == Var::Stage(turn)) {
            continue;
        }
        let (coeffs, bound) = match constraint.relation {
            Relation::AtMost => (&mut stage.upper, &mut stage.at_most),
            Relation::AtLeast => (&mut stage.lower, &mut stage.at_least),
        };
        *bound = constraint.bound - indicator;
        for term in &constraint.terms {
            if let Var::Boost(i) = term.var {
                coeffs[i] += term.coeff;
            }
        }
    }
    stage
}

// Hands out up to `left` boosts to the heroes from `hero` on so that the
// stage's two constraints hold; all coefficients are non-negative.
fn hand_out(
    stage: &Stage,
    hero: usize,
    left: i64,
    upper: i64,
    lower: i64,
    boosts: &mut Vec<i64>,
) -> bool {
    if upper > stage.at_most {
        return false;
    }
    if hero == boosts.len() {
        return lower >= stage.at_least;
    }
    let best = stage.lower[hero..].iter().copied().max().unwrap_or(0);
    if lower + left * best < stage.at_least {
        return false;
    }
    for b in (0..=left).rev() {
        boosts[hero] = b;
        if hand_out(
            stage,
            hero + 1,
            left - b,
            upper + b * stage.upper[hero],
            lower + b * stage.lower[hero],
            boosts,
        ) {
            return true;
        }
    }
    boosts[hero] = 0;
    false
}

// A small solver for the programs of this library: looks for a stage whose
// two constraints some boosts within the budget meet, and makes sure that
// the values then meet every constraint of the program.
fn search(formulation: &Formulation, budget: i64) -> SolverVerdict {
    let n = formulation.boosts.len();
    for (k, variable) in formulation.stages.iter().enumerate() {
        let stage = stage(formulation, variable.index);
        let mut boosts = vec![0i64; n];
        if hand_out(&stage, 0, budget, 0, 0, &mut boosts) {
            let mut stages = vec![0i64; formulation.stages.len()];
            stages[k] = 1;
            let found = Assignment { boosts, stages };
            assert!(
                feasible(formulation, &found),
                "the constraints of the other stages are not relaxed"
            );
            return SolverVerdict::Optimal(found);
        }
    }
    let nothing = Assignment {
        boosts: vec![0; n],
        stages: vec![0; formulation.stages.len()],
    };
    if feasible(formulation, &nothing) {
        SolverVerdict::Optimal(nothing)
    } else {
        SolverVerdict::Infeasible
    }
}

fn solve_by_search(problem: &Problem) -> Option<Vec<usize>> {
    assert!(problem.is_valid());
    let budget = problem.max_boosts as i64;
    solve(problem, |formulation| search(formulation, budget)).unwrap()
}

fn assert_solveable(problem: &Problem) {
    match solve_by_search(problem) {
        Some(solution) => {
            if !solution_is_valid(problem, &solution) {
                panic!("Invalid solution: {:?}", solution);
            }
        }
        None => panic!("Expected to find a solution."),
    }
}

fn assert_not_solveable(problem: &Problem) {
    match solve_by_search(problem) {
        Some(solution) => {
            panic!("Expected unsolvable problem, got solution {:?}", solution);
        }
        None => {}
    }
}

#[test]
fn war_of_attrition() {
    assert_solveable(&Problem {
        monster_health: 100,
        heroes: vec![Hero {
            health: 20,
            damage: 1,
        }],
        chosen_hero: 0,
        boost_damage: 6,
        max_boosts: 1,
    });
}

#[test]
fn barely_enough() {
    assert_solveable(&Problem {
        monster_health: 10,
        heroes: vec![Hero {
            health: 2,
            damage: 4,
        }],
        chosen_hero: 0,
        boost_damage: 1,
        max_boosts: 1,
    });
}

#[test]
fn looser_bounds() {
    assert_solveable(&Problem {
        monster_health: 10,
        heroes: vec![Hero {
            health: 3,
            damage: 4,
        }],
        chosen_hero: 0,
        boost_damage: 1,
        max_boosts: 1,
    });
}

#[test]
fn the_dynamic_duo() {
    assert_solveable(&Problem {
        monster_health: 200,
        heroes: vec![
            Hero {
                health: 2,
                damage: 5,
            },
            Hero {
                health: 1,
                damage: 20,
            },
        ],
        chosen_hero: 1,
        boost_damage: 10,
        max_boosts: 5,
    });
}

#[test]
fn woefully_underleveled() {
    assert_not_solveable(&Problem {
        monster_health: 100,
        heroes: vec![
            Hero {
                health: 1,
                damage: 1,
            },
            Hero {
                health: 1,
                damage: 2,
            },
            Hero {
                health: 1,
                damage: 3,
            },
        ],
        chosen_hero: 0,
        boost_damage: 5,
        max_boosts: 5,
    });
}

#[test]
fn unfortunate_overkill() {
    assert_not_solveable(&Problem {
        monster_health: 200,
        heroes: vec![
            Hero {
                health: 2,
                damage: 1,
            },
            Hero {
                health: 1,
                damage: 5,
            },
            Hero {
                health: 2,
                damage: 100,
            },
            Hero {
                health: 1,
                damage: 1,
            },
        ],
        chosen_hero: 3,
        boost_damage: 5,
        max_boosts: 3,
    });
}

#[test]
fn strength_in_numbers() {
    assert_solveable(&Problem {
        monster_health: 25,
        heroes: vec![
            Hero {
                health: 1,
                damage: 1,
            },
            Hero {
                health: 1,
                damage: 1,
            },
            Hero {
                health: 1,
                damage: 1,
            },
            Hero {
                health: 1,
                damage: 1,
            },
            Hero {
                health: 1,
                damage: 1,
            },
            Hero {
                health: 1,
                damage: 1,
            },
            Hero {
                health: 1,
                damage: 1,
            },
            Hero {
                health: 1,
                damage: 1,
            },
        ],
        chosen_hero: 7,
        boost_damage: 1,
        max_boosts: 2,
    });
}

#[test]
fn healthy_heroes() {
    assert_solveable(&Problem {
        monster_health: 465,
        heroes: vec![
            Hero {
                health: 11,
                damage: 15,
            },
            Hero {
                health: 13,
                damage: 10,
            },
            Hero {
                health: 3,
                damage: 19,
            },
            Hero {
                health: 4,
                damage: 24,
            },
            Hero {
                health: 10,
                damage: 14,
            },
            Hero {
                health: 11,
                damage: 30,
            },
            Hero {
                health: 11,
                damage: 23,
            },
            Hero {
                health: 3,
                damage: 23,
            },
            Hero {
                health: 10,
                damage: 4,
            },
            Hero {
                health: 12,
                damage: 32,
            },
            Hero {
                health: 10,
                damage: 12,
            },
            Hero {
                health: 11,
                damage: 20,
            },
            Hero {
                health: 10,
                damage: 9,
            },
            Hero {
                health: 14,
                damage: 8,
            },
            Hero {
                health: 1,
                damage: 12,
            },
            Hero {
                health: 9,
                damage: 25,
            },
            Hero {
                health: 2,
                damage: 30,
            },
            Hero {
                health: 133,
                damage: 1,
            },
        ],
        chosen_hero: 5,
        boost_damage: 3,
        max_boosts: 9,
    });
}

#[test]
fn large_battle() {
    assert_solveable(&Problem {
        monster_health: 1210,
        heroes: vec![
            Hero {
                health: 5,
                damage: 19,
            },
            Hero {
                health: 5,
                damage: 28,
            },
            Hero {
                health: 5,
                damage: 24,
            },
            Hero {
                health: 1,
                damage: 29,
            },
            Hero {
                health: 5,
                damage: 17,
            },
            Hero {
                health: 5,
                damage: 28,
            },
            Hero {
                health: 7,
                damage: 30,
            },
            Hero {
                health: 5,
                damage: 10,
            },
            Hero {
                health: 6,
                damage: 15,
            },
            Hero {
                health: 8,
                damage: 29,
            },
            Hero {
                health: 8,
                damage: 13,
            },
            Hero {
                health: 2,
                damage: 25,
            },
            Hero {
                health: 2,
                damage: 5,
            },
            Hero {
                health: 6,
                damage: 5,
            },
            Hero {
                health: 4,
                damage: 8,
            },
            Hero {
                health: 5,
                damage: 6,
            },
            Hero {
                health: 7,
                damage: 7,
            },
            Hero {
                health: 8,
                damage: 25,
            },
            Hero {
                health: 2,
                damage: 12,
            },
        ],
        chosen_hero: 11,
        boost_damage: 17,
        max_boosts: 8,
    });
}

#[test]
fn current_year() {
    assert_solveable(&Problem {
        monster_health: 2020,
        heroes: vec![
            Hero {
                health: 1,
                damage: 5,
            },
            Hero {
                health: 2,
                damage: 25,
            },
            Hero {
                health: 2,
                damage: 18,
            },
            Hero {
                health: 1,
                damage: 8,
            },
            Hero {
                health: 2,
                damage: 15,
            },
            Hero {
                health: 1,
                damage: 18,
            },
            Hero {
                health: 1,
                damage: 30,
            },
            Hero {
                health: 1,
                damage: 5,
            },
            Hero {
                health: 2,
                damage: 21,
            },
            Hero {
                health: 1,
                damage: 13,
            },
            Hero {
                health: 2,
                damage: 7,
            },
            Hero {
                health: 1,
                damage: 26,
            },
            Hero {
                health: 1,
                damage: 11,
            },
            Hero {
                health: 2,
                damage: 26,
            },
            Hero {
                health: 1,
                damage: 18,
            },
            Hero {
                health: 2,
                damage: 17,
            },
            Hero {
                health: 1,
                damage: 22,
            },
            Hero {
                health: 2,
                damage: 21,
            },
        ],
        chosen_hero: 10,
        boost_damage: 12,
        max_boosts: 3,
    });
}

#[test]
fn the_penultimate() {
    assert_solveable(&Problem {
        monster_health: 9089,
        heroes: vec![
            Hero {
                health: 2,
                damage: 27,
            },
            Hero {
                health: 2,
                damage: 28,
            },
            Hero {
                health: 1,
                damage: 14,
            },
            Hero {
                health: 1,
                damage: 20,
            },
            Hero {
                health: 1,
                damage: 15,
            },
            Hero {
                health: 2,
                damage: 29,
            },
            Hero {
                health: 2,
                damage: 23,
            },
            Hero {
                health: 1,
                damage: 15,
            },
            Hero {
                health: 1,
                damage: 8,
            },
            Hero {
                health: 1,
                damage: 21,
            },
            Hero {
                health: 1,
                damage: 9,
            },
            Hero {
                health: 2,
                damage: 17,
            },
            Hero {
                health: 1,
                damage: 24,
            },
            Hero {
                health: 1,
                damage: 22,
            },
            Hero {
                health: 2,
                damage: 23,
            },
            Hero {
                health: 1,
                damage: 8,
            },
            Hero {
                health: 1,
                damage: 15,
            },
            Hero {
                health: 1,
                damage: 20,
            },
            Hero {
                health: 2,
                damage: 16,
            },
            Hero {
                health: 1,
                damage: 12,
            },
            Hero {
                health: 2,
                damage: 15,
            },
            Hero {
                health: 1,
                damage: 16,
            },
            Hero {
                health: 2,
                damage: 7,
            },
            Hero {
                health: 1,
                damage: 22,
            },
            Hero {
                health: 1,
                damage: 27,
            },
            Hero {
                health: 1,
                damage: 18,
            },
            Hero {
                health: 1,
                damage: 18,
            },
            Hero {
                health: 1,
                damage: 12,
            },
            Hero {
                health: 2,
                damage: 16,
            },
            Hero {
                health: 2,
                damage: 26,
            },
            Hero {
                health: 1,
                damage: 15,
            },
        ],
        chosen_hero: 17,
        boost_damage: 20,
        max_boosts: 5,
    });
}

#[test]
fn high_damage() {
    assert_not_solveable(&Problem {
        monster_health: 5630,
        heroes: vec![
            Hero {
                health: 1,
                damage: 10,
            },
            Hero {
                health: 2,
                damage: 23,
            },
            Hero {
                health: 2,
                damage: 21,
            },
            Hero {
                health: 2,
                damage: 29,
            },
            Hero {
                health: 2,
                damage: 27,
            },
            Hero {
                health: 1,
                damage: 26,
            },
            Hero {
                health: 1,
                damage: 13,
            },
            Hero {
                health: 2,
                damage: 13,
            },
            Hero {
                health: 1,
                damage: 26,
            },
            Hero {
                health: 2,
                damage: 28,
            },
            Hero {
                health: 1,
                damage: 21,
            },
            Hero {
                health: 1,
                damage: 17,
            },
            Hero {
                health: 1,
                damage: 15,
            },
            Hero {
                health: 1,
                damage: 23,
            },
            Hero {
                health: 1,
                damage: 24,
            },
            Hero {
                health: 2,
                damage: 20,
            },
        ],
        chosen_hero: 2,
        boost_damage: 9,
        max_boosts: 7,
    });
}

#[test]
fn poor_positioning() {
    assert_not_solveable(&Problem {
        monster_health: 1000000,
        heroes: vec![
            Hero {
                health: 1,
                damage: 1,
            },
            Hero {
                health: 1,
                damage: 1,
            },
            Hero {
                health: 1,
                damage: 1,
            },
            Hero {
                health: 1,
                damage: 1,
            },
            Hero {
                health: 1,
                damage: 1,
            },
            Hero {
                health: 1,
                damage: 1,
            },
            Hero {
                health: 1,
                damage: 1,
            },
            Hero {
                health: 1,
                damage: 1,
            },
            Hero {
                health: 1,
                damage: 1,
            },
            Hero {
                health: 1,
                damage: 1,
            },
            Hero {
                health: 1,
                damage: 1,
            },
            Hero {
                health: 1,
                damage: 1,
            },
            Hero {
                health: 1,
                damage: 1,
            },
            Hero {
                health: 1,
                damage: 1,
            },
            Hero {
                health: 1,
                damage: 1,
            },
        ],
        chosen_hero: 0,
        boost_damage: 1,
        max_boosts: 10,
    });
}

#[test]
fn the_ultimate() {
    assert_solveable(&Problem {
        monster_health: 9115,
        heroes: vec![
            Hero {
                health: 2,
                damage: 27,
            },
            Hero {
                health: 1,
                damage: 28,
            },
            Hero {
                health: 1,
                damage: 14,
            },
            Hero {
                health: 1,
                damage: 20,
            },
            Hero {
                health: 1,
                damage: 15,
            },
            Hero {
                health: 2,
                damage: 29,
            },
            Hero {
                health: 1,
                damage: 23,
            },
            Hero {
                health: 1,
                damage: 15,
            },
            Hero {
                health: 1,
                damage: 8,
            },
            Hero {
                health: 1,
                damage: 21,
            },
            Hero {
                health: 1,
                damage: 9,
            },
            Hero {
                health: 1,
                damage: 17,
            },
            Hero {
                health: 1,
                damage: 24,
            },
            Hero {
                health: 1,
                damage: 22,
            },
            Hero {
                health: 1,
                damage: 23,
            },
            Hero {
                health: 1,
                damage: 8,
            },
            Hero {
                health: 1,
                damage: 15,
            },
            Hero {
                health: 1,
                damage: 20,
            },
            Hero {
                health: 2,
                damage: 16,
            },
            Hero {
                health: 1,
                damage: 12,
            },
            Hero {
                health: 2,
                damage: 15,
            },
            Hero {
                health: 1,
                damage: 16,
            },
            Hero {
                health: 2,
                damage: 7,
            },
            Hero {
                health: 1,
                damage: 22,
            },
            Hero {
                health: 1,
                damage: 27,
            },
            Hero {
                health: 1,
                damage: 18,
            },
            Hero {
                health: 1,
                damage: 18,
            },
            Hero {
                health: 1,
                damage: 12,
            },
            Hero {
                health: 1,
                damage: 16,
            },
            Hero {
                health: 2,
                damage: 26,
            },
            Hero {
                health: 1,
                damage: 15,
            },
        ],
        chosen_hero: 17,
        boost_damage: 10,
        max_boosts: 10,
    });
}
