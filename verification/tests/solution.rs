use rust_monster::model::{
    Assignment, Constraint, DynVariable, LinearProgram, Relation, SolverVerdict, Term, Var,
};
use rust_monster::problem::{Hero, Problem};
use rust_monster::simulation::solution_is_valid;
use rust_monster::solution::{
    any_stage_selected, build_combat, build_cumulative_damage, cumulative_sum, expand_boosts,
    formulate, get_boost_contributions, interpret, set_max_boosts, solve, Combat, CombatPhase,
    Formulation, SolveError,
};

#[test]
fn build_simple_combat() {
    assert_eq!(
        Combat {
            phases: vec![
                CombatPhase {
                    end_stage: 10,
                    early_damage: 30
                },
                CombatPhase {
                    end_stage: 25,
                    early_damage: 20
                },
                CombatPhase {
                    end_stage: 45,
                    early_damage: 0
                }
            ],
            chosen_damage: 50,
            late_damage: 30,
        },
        build_combat(&Problem {
            monster_health: 100,
            heroes: vec![
                Hero {
                    health: 10,
                    damage: 10,
                },
                Hero {
                    health: 15,
                    damage: 20,
                },
                Hero {
                    health: 20,
                    damage: 50,
                },
                Hero {
                    health: 10,
                    damage: 30,
                },
            ],
            chosen_hero: 2,
            boost_damage: 0,
            max_boosts: 0,
        })
    );
}

#[test]
fn various_build_cumulative_damage() {
    assert!(build_cumulative_damage(&[]).is_empty());
    assert_eq!(
        vec![10],
        build_cumulative_damage(&[Hero {
            health: 10,
            damage: 10
        }])
    );
    assert_eq!(
        vec![10, 3],
        build_cumulative_damage(&[
            Hero {
                health: 10,
                damage: 7
            },
            Hero {
                health: 10,
                damage: 3
            }
        ])
    );
    assert_eq!(
        vec![15, 8, 5],
        build_cumulative_damage(&[
            Hero {
                health: 10,
                damage: 7
            },
            Hero {
                health: 10,
                damage: 3
            },
            Hero {
                health: 10,
                damage: 5
            }
        ])
    );
}

#[test]
fn various_cumulative_sum() {
    assert_eq!(vec![10], cumulative_sum(&[10]));
    assert_eq!(vec![5, 8], cumulative_sum(&[5, 3]));
    assert_eq!(vec![5, 12, 15], cumulative_sum(&[5, 7, 3]));
}

#[test]
fn cumulative_sum_of_nothing() {
    assert!(cumulative_sum(&[]).is_empty());
    assert_eq!(vec![-2, 0, -7], cumulative_sum(&[-2, 2, -7]));
}

fn problem(
    monster_health: i32,
    heroes: &[(usize, i32)],
    chosen_hero: usize,
    boost_damage: i32,
    max_boosts: usize,
) -> Problem {
    Problem {
        monster_health,
        heroes: heroes
            .iter()
            .map(|&(health, damage)| Hero { health, damage })
            .collect(),
        chosen_hero,
        boost_damage,
        max_boosts,
    }
}

fn value(term: &Term, formulation: &Formulation, found: &Assignment) -> i64 {
    match term.var {
        Var::Boost(i) => found.boosts[i],
        Var::Stage(turn) => {
            let at = formulation
                .stages
                .iter()
                .position(|stage| stage.index == turn)
                .unwrap();
            found.stages[at]
        }
    }
}

fn holds(constraint: &Constraint, formulation: &Formulation, found: &Assignment) -> bool {
    let sum: i64 = constraint
        .terms
        .iter()
        .map(|term| term.coeff * value(term, formulation, found))
        .sum();
    match constraint.relation {
        Relation::AtMost => sum <= constraint.bound,
        Relation::AtLeast => sum >= constraint.bound,
    }
}

fn feasible(formulation: &Formulation, found: &Assignment) -> bool {
    found.boosts.iter().all(|&b| b >= 0)
        && found.stages.iter().all(|&s| s == 0 || s == 1)
        && formulation
            .program
            .constraints
            .iter()
            .all(|constraint| holds(constraint, formulation, found))
}

fn objective(formulation: &Formulation, found: &Assignment) -> i64 {
    formulation
        .program
        .objective
        .iter()
        .map(|term| term.coeff * value(term, formulation, found))
        .sum()
}

// Tries every way to hand out at most `budget` boosts, with one stage or
// none selected, and keeps the best feasible assignment.
fn search(formulation: &Formulation, budget: i64) -> SolverVerdict {
    let n = formulation.boosts.len();
    let mut best: Option<(i64, Assignment)> = None;
    let mut boosts = vec![0i64; n];
    loop {
        if boosts.iter().sum::<i64>() <= budget {
            for selected in 0..=formulation.stages.len() {
                let mut stages = vec![0i64; formulation.stages.len()];
                if selected < stages.len() {
                    stages[selected] = 1;
                }
                let found = Assignment {
                    boosts: boosts.clone(),
                    stages,
                };
                if feasible(formulation, &found) {
                    let gain = objective(formulation, &found);
                    if best.as_ref().map_or(true, |(g, _)| gain > *g) {
                        best = Some((gain, found));
                    }
                }
            }
        }
        let mut at = 0;
        while at < n && boosts[at] == budget {
            boosts[at] = 0;
            at += 1;
        }
        if at == n {
            break;
        }
        boosts[at] += 1;
    }
    match best {
        Some((_, found)) => SolverVerdict::Optimal(found),
        None => SolverVerdict::Infeasible,
    }
}

fn solve_by_search(problem: &Problem) -> Option<Vec<usize>> {
    assert!(problem.is_valid());
    let budget = problem.max_boosts as i64;
    solve(problem, |formulation| search(formulation, budget)).unwrap()
}

fn assert_solveable(problem: &Problem) {
    match solve_by_search(problem) {
        Some(solution) => {
            assert!(solution.len() <= problem.max_boosts);
            assert!(solution.iter().all(|&i| i <= problem.chosen_hero));
            if !solution_is_valid(problem, &solution) {
                panic!("Invalid solution: {:?}", solution);
            }
        }
        None => panic!("Expected to find a solution."),
    }
}

fn assert_not_solveable(problem: &Problem) {
    match solve_by_search(problem) {
        Some(solution) => {
            panic!("Expected unsolvable problem, got solution {:?}", solution);
        }
        None => {}
    }
}

#[test]
fn one_hero_one_boost() {
    let problem = problem(10, &[(3, 4)], 0, 1, 1);
    assert_solveable(&problem);
    assert!(solution_is_valid(&problem, &vec![0]));
    // Solving again gives an allocation that passes again.
    assert_solveable(&problem);
}

#[test]
fn underleveled_trio_has_no_stage() {
    let problem = problem(100, &[(1, 1), (1, 2), (1, 3)], 0, 5, 5);
    assert!(problem.is_valid());
    assert_eq!(formulate(&problem), None);
    assert_not_solveable(&problem);
}

#[test]
fn empty_budget_empty_allocation() {
    let problem = problem(1, &[(1, 1)], 0, 1, 0);
    assert_eq!(solve_by_search(&problem), Some(vec![]));
    assert!(solution_is_valid(&problem, &vec![]));
}

#[test]
fn small_battles_from_the_book() {
    assert_solveable(&problem(100, &[(20, 1)], 0, 6, 1));
    assert_solveable(&problem(10, &[(2, 4)], 0, 1, 1));
    assert_solveable(&problem(10, &[(3, 4)], 0, 1, 1));
    assert_solveable(&problem(200, &[(2, 5), (1, 20)], 1, 10, 5));
    assert_not_solveable(&problem(200, &[(2, 1), (1, 5), (2, 100), (1, 1)], 3, 5, 3));
}

#[test]
fn larger_budget_keeps_a_solution() {
    for budget in 1..6 {
        assert_solveable(&problem(200, &[(2, 5), (1, 20)], 1, 10, 5 + budget));
        assert_solveable(&problem(10, &[(3, 4)], 0, 1, budget));
    }
}

#[test]
fn zero_boost_solvable_iff_unboosted_hero_kills() {
    let kills = problem(10, &[(2, 4), (2, 1)], 1, 0, 3);
    assert!(solution_is_valid(&kills, &vec![]));
    assert_eq!(solve_by_search(&kills), Some(vec![]));
    let misses = problem(9, &[(2, 4), (2, 1)], 1, 0, 3);
    assert!(!solution_is_valid(&misses, &vec![]));
    assert_eq!(solve_by_search(&misses), None);
}

#[test]
fn formulation_of_one_hero() {
    let problem = problem(10, &[(3, 4)], 0, 1, 1);
    assert_eq!(problem.big_m(), 32);
    let formulation = formulate(&problem).unwrap();
    assert_eq!(
        formulation.boosts,
        vec![DynVariable {
            index: 0,
            label: "boost_0".to_string()
        }]
    );
    assert_eq!(
        formulation.stages,
        vec![
            DynVariable {
                index: 1,
                label: "stage_1".to_string()
            },
            DynVariable {
                index: 2,
                label: "stage_2".to_string()
            }
        ]
    );
    let boost = |coeff| Term {
        coeff,
        var: Var::Boost(0),
    };
    let stage = |coeff, turn| Term {
        coeff,
        var: Var::Stage(turn),
    };
    assert_eq!(
        formulation.program,
        LinearProgram {
            constraints: vec![
                Constraint {
                    terms: vec![boost(1)],
                    relation: Relation::AtMost,
                    bound: 1
                },
                Constraint {
                    terms: vec![boost(1), stage(32, 1)],
                    relation: Relation::AtMost,
                    bound: 37
                },
                Constraint {
                    terms: vec![boost(2), stage(-32, 1)],
                    relation: Relation::AtLeast,
                    bound: -30
                },
                Constraint {
                    terms: vec![boost(2), stage(32, 2)],
                    relation: Relation::AtMost,
                    bound: 33
                },
                Constraint {
                    terms: vec![boost(3), stage(-32, 2)],
                    relation: Relation::AtLeast,
                    bound: -34
                },
            ],
            objective: vec![stage(1, 1), stage(1, 2)],
        }
    );
}

#[test]
fn contributions_stop_when_a_hero_has_left() {
    let combat = build_combat(&problem(100, &[(2, 1), (3, 1), (4, 1)], 2, 5, 1));
    let boosts = vec![
        DynVariable::new("boost", 0),
        DynVariable::new("boost", 1),
        DynVariable::new("boost", 2),
    ];
    let coeffs = |turn| -> Vec<i64> {
        get_boost_contributions(&combat, &boosts, 5, turn)
            .iter()
            .map(|term| term.coeff)
            .collect()
    };
    assert_eq!(coeffs(0), vec![5, 5, 5]);
    assert_eq!(coeffs(1), vec![10, 10, 10]);
    assert_eq!(coeffs(2), vec![10, 15, 15]);
    assert_eq!(coeffs(5), vec![10, 25, 30]);
    assert_eq!(coeffs(8), vec![10, 25, 45]);
    let terms = get_boost_contributions(&combat, &boosts[..2], 5, 0);
    assert_eq!(
        terms,
        vec![
            Term {
                coeff: 5,
                var: Var::Boost(0)
            },
            Term {
                coeff: 5,
                var: Var::Boost(1)
            }
        ]
    );
}

#[test]
fn budget_constraint_sums_the_boosts() {
    let mut lp = LinearProgram::new();
    let boosts = vec![DynVariable::new("boost", 0), DynVariable::new("boost", 1)];
    set_max_boosts(&mut lp, &boosts, 7);
    assert_eq!(
        lp.constraints,
        vec![Constraint {
            terms: vec![
                Term {
                    coeff: 1,
                    var: Var::Boost(0)
                },
                Term {
                    coeff: 1,
                    var: Var::Boost(1)
                }
            ],
            relation: Relation::AtMost,
            bound: 7
        }]
    );
    assert!(lp.objective.is_empty());
    lp.set_objective(vec![Term {
        coeff: 1,
        var: Var::Stage(4),
    }]);
    assert_eq!(lp.objective.len(), 1);
    assert_eq!(lp.constraints.len(), 1);
}

#[test]
fn labels_join_name_and_number() {
    assert_eq!(DynVariable::new("boost", 3).label, "boost_3");
    assert_eq!(DynVariable::new("stage", 0).label, "stage_0");
    assert_eq!(DynVariable::new("stage", 120).label, "stage_120");
    assert_eq!(DynVariable::new("boost", 3).index, 3);
}

fn optimal(boosts: Vec<i64>, stages: Vec<i64>) -> SolverVerdict {
    SolverVerdict::Optimal(Assignment { boosts, stages })
}

#[test]
fn verdicts_are_told_apart() {
    let problem = problem(10, &[(3, 4)], 0, 1, 1);
    assert_eq!(interpret(&problem, SolverVerdict::Infeasible), Ok(None));
    assert_eq!(
        interpret(&problem, SolverVerdict::Error("no licence".to_string())),
        Err(SolveError::Solver("no licence".to_string()))
    );
    // No stage selected: no allocation, whatever the boosts say.
    assert_eq!(interpret(&problem, optimal(vec![1], vec![0, 0])), Ok(None));
    // A stage and the boost that makes it work.
    assert_eq!(
        interpret(&problem, optimal(vec![1], vec![1, 0])),
        Ok(Some(vec![0]))
    );
    // A hero that kills on its own needs no boost.
    assert_eq!(
        interpret(&problem, optimal(vec![0], vec![1, 0])),
        Ok(Some(vec![]))
    );
    // A stage, but the boosts do not make the chosen hero kill.
    let duel = self::problem(14, &[(10, 4), (10, 4)], 0, 4, 2);
    assert_eq!(
        interpret(&duel, optimal(vec![0], vec![1])),
        Err(SolveError::Formulation)
    );
    assert_eq!(
        interpret(&duel, optimal(vec![1], vec![1])),
        Ok(Some(vec![0]))
    );
    // Too strong: the second hero is left with the blow.
    assert_eq!(
        interpret(&duel, optimal(vec![2], vec![1])),
        Err(SolveError::Formulation)
    );
    // More boosts than the budget.
    assert_eq!(
        interpret(&problem, optimal(vec![2], vec![0, 1])),
        Err(SolveError::Formulation)
    );
    // Not one value for each boost variable.
    assert_eq!(
        interpret(&problem, optimal(vec![1, 0], vec![1, 0])),
        Err(SolveError::Formulation)
    );
    assert_eq!(
        interpret(&problem, optimal(vec![], vec![1, 0])),
        Err(SolveError::Formulation)
    );
}

#[test]
fn boost_values_expand_in_hero_order() {
    assert_eq!(expand_boosts(&vec![2, 0, 1], 3), Some(vec![0, 0, 2]));
    assert_eq!(expand_boosts(&vec![2, 0, 1], 2), None);
    assert_eq!(expand_boosts(&vec![-4, 1], 1), Some(vec![1]));
    assert_eq!(expand_boosts(&vec![], 0), Some(vec![]));
    assert_eq!(expand_boosts(&vec![i64::MAX], 5), None);
    assert!(any_stage_selected(&vec![0, 0, 1]));
    assert!(!any_stage_selected(&vec![0, 0]));
    assert!(!any_stage_selected(&vec![]));
}

#[test]
fn malformed_problems_are_told() {
    assert!(problem(10, &[(3, 4)], 0, 1, 1).is_valid());
    // No such hero.
    assert!(!problem(10, &[(3, 4)], 1, 1, 1).is_valid());
    assert!(!problem(10, &[], 0, 1, 1).is_valid());
    // A hero that survives no round, or heals the monster.
    assert!(!problem(10, &[(0, 4)], 0, 1, 1).is_valid());
    assert!(!problem(10, &[(3, -4)], 0, 1, 1).is_valid());
    // A boost that weakens.
    assert!(!problem(10, &[(3, 4)], 0, -1, 1).is_valid());
    // Boosted damage beyond its type.
    assert!(!problem(10, &[(3, i32::MAX)], 0, 1, 1).is_valid());
    assert!(problem(10, &[(3, i32::MAX - 1)], 0, 1, 1).is_valid());
    // Numbers beyond the scale.
    assert!(!problem(10, &[(usize::MAX, 4)], 0, 1, 1).is_valid());
    assert!(!problem(10, &[(1 << 40, 1 << 30)], 0, 1, 1).is_valid());
    assert!(!problem(i32::MIN, &[(1 << 20, 1 << 30)], 0, 1 << 30, 1 << 8).is_valid());
    assert!(problem(i32::MIN, &[(1 << 20, 1 << 20)], 0, 1 << 20, 1 << 8).is_valid());
}

#[test]
fn big_m_bounds_the_whole_fight() {
    // rounds * (damage of all + (budget + 1) * boost + 1) + |health| + 1
    assert_eq!(problem(1, &[(1, 1)], 0, 1, 0).big_m(), 1 * (1 + 1 + 1) + 1 + 1);
    assert_eq!(
        problem(-7, &[(2, 3), (5, 4), (9, 9)], 1, 2, 3).big_m(),
        7 * (16 + 4 * 2 + 1) + 7 + 1
    );
}

#[test]
fn solver_is_not_asked_without_a_stage() {
    let problem = problem(100, &[(1, 1), (1, 2), (1, 3)], 0, 5, 5);
    let answer = solve(&problem, |_| -> SolverVerdict {
        panic!("there is nothing to ask");
    });
    assert_eq!(answer, Ok(None));
}

#[test]
fn solver_failures_pass_through() {
    let problem = problem(10, &[(3, 4)], 0, 1, 1);
    assert_eq!(
        solve(&problem, |_| SolverVerdict::Error("out of memory".to_string())),
        Err(SolveError::Solver("out of memory".to_string()))
    );
    assert_eq!(solve(&problem, |_| SolverVerdict::Infeasible), Ok(None));
    let duel = self::problem(14, &[(10, 4), (10, 4)], 0, 4, 2);
    assert_eq!(
        solve(&duel, |formulation| {
            SolverVerdict::Optimal(Assignment {
                boosts: vec![2],
                stages: vec![1; formulation.stages.len()],
            })
        }),
        Err(SolveError::Formulation)
    );
}

// All ways to hand out at most `budget` boosts to the heroes `0..=chosen`.
fn allocations(chosen: usize, budget: usize) -> Vec<Vec<usize>> {
    let mut all = vec![vec![]];
    let mut last = vec![vec![]];
    for _ in 0..budget {
        let mut longer = Vec::new();
        for boosts in &last {
            let from = boosts.last().copied().unwrap_or(0);
            for hero in from..=chosen {
                let mut more: Vec<usize> = boosts.clone();
                more.push(hero);
                longer.push(more);
            }
        }
        all.extend(longer.iter().cloned());
        last = longer;
    }
    all
}

#[test]
fn program_decides_many_small_problems() {
    let mut seed: u64 = 0x9e37_79b9_7f4a_7c15;
    let mut next = |bound: u64| {
        seed ^= seed << 13;
        seed ^= seed >> 7;
        seed ^= seed << 17;
        seed % bound
    };
    let mut solvable = 0;
    for _ in 0..300 {
        let n = 1 + next(3) as usize;
        let heroes: Vec<(usize, i32)> = (0..n)
            .map(|_| (1 + next(3) as usize, next(5) as i32))
            .collect();
        let chosen = next(n as u64) as usize;
        let problem = problem(
            next(34) as i32 - 4,
            &heroes,
            chosen,
            next(4) as i32,
            next(3) as usize,
        );
        let by_hand = allocations(chosen, problem.max_boosts)
            .iter()
            .any(|boosts| solution_is_valid(&problem, boosts));
        let found = solve_by_search(&problem);
        assert_eq!(found.is_some(), by_hand, "{:?}", problem);
        if let Some(boosts) = found {
            assert!(boosts.len() <= problem.max_boosts);
            assert!(boosts.iter().all(|&hero| hero <= chosen));
            assert!(solution_is_valid(&problem, &boosts));
            solvable += 1;
        }
    }
    assert!(solvable > 20);
}

#[test]
fn dead_monster_falls_to_the_first_hero() {
    let first = problem(0, &[(1, 1)], 0, 0, 0);
    assert!(first.is_valid());
    assert!(solution_is_valid(&first, &vec![]));
    let unused = |_: &Formulation| -> SolverVerdict { panic!("there is nothing to ask") };
    assert_eq!(solve(&first, unused), Ok(Some(vec![])));
    // Boosts are of no use: the answer is the empty allocation.
    let boosted = problem(-5, &[(2, 0), (1, 7)], 0, 3, 4);
    assert_eq!(solve(&boosted, unused), Ok(Some(vec![])));
    // A later hero never gets to strike.
    let late = problem(0, &[(2, 0), (1, 7)], 1, 3, 4);
    assert_eq!(solve(&late, unused), Ok(None));
    assert_eq!(find_by_hand(&late), false);
}

#[test]
fn boost_without_damage_is_decided_by_the_replay() {
    let unused = |_: &Formulation| -> SolverVerdict { panic!("there is nothing to ask") };
    let kills = problem(10, &[(2, 4), (2, 1)], 1, 0, 3);
    assert_eq!(solve(&kills, unused), Ok(Some(vec![])));
    let misses = problem(9, &[(2, 4), (2, 1)], 1, 0, 3);
    assert_eq!(solve(&misses, unused), Ok(None));
    assert_eq!(find_by_hand(&misses), false);
}

fn find_by_hand(problem: &Problem) -> bool {
    allocations(problem.chosen_hero, problem.max_boosts)
        .iter()
        .any(|boosts| solution_is_valid(problem, boosts))
}
