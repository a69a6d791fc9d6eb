use rust_monster::problem::{Hero, Problem};
use rust_monster::simulation::{
    apply_boosts, find_hero_with_killing_blow, solution_is_valid, Combat,
};

#[test]
fn valid_solution() {
    assert!(solution_is_valid(
        &Problem {
            monster_health: 14,
            heroes: vec![
                Hero {
                    health: 10,
                    damage: 4
                },
                Hero {
                    health: 10,
                    damage: 4
                }
            ],
            chosen_hero: 0,
            boost_damage: 4,
            max_boosts: 1,
        },
        &vec![0]
    ))
}

#[test]
fn invalid_solution() {
    assert!(!solution_is_valid(
        &Problem {
            monster_health: 14,
            heroes: vec![
                Hero {
                    health: 10,
                    damage: 4
                },
                Hero {
                    health: 10,
                    damage: 4
                }
            ],
            chosen_hero: 0,
            boost_damage: 4,
            max_boosts: 2,
        },
        &vec![0, 0]
    ))
}

#[test]
fn no_heroes_no_boosts() {
    assert_eq!(
        Combat {
            monster_health: 10,
            heroes: vec![]
        },
        apply_boosts(
            &Problem {
                monster_health: 10,
                heroes: vec![],
                chosen_hero: 0,
                max_boosts: 0,
                boost_damage: 0
            },
            &vec![]
        )
    )
}

#[test]
fn two_heroes_no_boosts() {
    assert_eq!(
        Combat {
            monster_health: 10,
            heroes: vec![
                Hero {
                    health: 10,
                    damage: 5
                },
                Hero {
                    health: 10,
                    damage: 10
                }
            ]
        },
        apply_boosts(
            &Problem {
                monster_health: 10,
                heroes: vec![
                    Hero {
                        health: 10,
                        damage: 5
                    },
                    Hero {
                        health: 10,
                        damage: 10
                    }
                ],
                chosen_hero: 0,
                max_boosts: 0,
                boost_damage: 0
            },
            &vec![]
        )
    )
}

#[test]
fn three_heroes_three_boosts() {
    assert_eq!(
        Combat {
            monster_health: 10,
            heroes: vec![
                Hero {
                    health: 10,
                    damage: 5
                },
                Hero {
                    health: 10,
                    damage: 20
                },
                Hero {
                    health: 10,
                    damage: 10
                },
            ]
        },
        apply_boosts(
            &Problem {
                monster_health: 10,
                heroes: vec![
                    Hero {
                        health: 10,
                        damage: 3
                    },
                    Hero {
                        health: 10,
                        damage: 20
                    },
                    Hero {
                        health: 10,
                        damage: 6
                    },
                ],
                chosen_hero: 2,
                max_boosts: 3,
                boost_damage: 2
            },
            &vec![2, 0, 2]
        )
    )
}

#[test]
fn empty_combat() {
    assert_eq!(
        None,
        find_hero_with_killing_blow(&Combat {
            monster_health: 10,
            heroes: vec![]
        })
    );
}

#[test]
fn last_hero_dies() {
    assert_eq!(
        None,
        find_hero_with_killing_blow(&Combat {
            monster_health: 10,
            heroes: vec![Hero {
                health: 2,
                damage: 1
            }]
        })
    );
}

#[test]
fn single_hero() {
    assert_eq!(
        Some(0),
        find_hero_with_killing_blow(&Combat {
            monster_health: 10,
            heroes: vec![Hero {
                health: 100,
                damage: 1
            }]
        })
    );
}

#[test]
fn two_heroes() {
    assert_eq!(
        Some(1),
        find_hero_with_killing_blow(&Combat {
            monster_health: 10,
            heroes: vec![
                Hero {
                    health: 100,
                    damage: 1
                },
                Hero {
                    health: 100,
                    damage: 5
                }
            ]
        })
    );
}

#[test]
fn two_heroes_one_dies() {
    assert_eq!(
        Some(1),
        find_hero_with_killing_blow(&Combat {
            monster_health: 15,
            heroes: vec![
                Hero {
                    health: 2,
                    damage: 1
                },
                Hero {
                    health: 100,
                    damage: 2
                }
            ]
        })
    );
}

#[test]
fn three_heroes_one_dies() {
    assert_eq!(
        Some(1),
        find_hero_with_killing_blow(&Combat {
            monster_health: 50,
            heroes: vec![
                Hero {
                    health: 2,
                    damage: 1,
                },
                Hero {
                    health: 100,
                    damage: 10,
                },
                Hero {
                    health: 100,
                    damage: 4,
                }
            ]
        })
    );
}

fn line(heroes: &[(usize, i32)]) -> Vec<Hero> {
    heroes
        .iter()
        .map(|&(health, damage)| Hero { health, damage })
        .collect()
}

#[test]
fn blow_lands_on_the_exact_round() {
    // 3 + 3 + 3 = 9 < 10 after the hero's last round.
    assert_eq!(
        None,
        find_hero_with_killing_blow(&Combat {
            monster_health: 10,
            heroes: line(&[(3, 3)])
        })
    );
    // 4 + 4 + 4 >= 10 in the third round.
    assert_eq!(
        Some(0),
        find_hero_with_killing_blow(&Combat {
            monster_health: 12,
            heroes: line(&[(3, 4)])
        })
    );
}

#[test]
fn dead_heroes_drop_out_in_order() {
    // Round 0: 5 + 1, round 1: 1 (hero 0 is gone), round 2: nobody.
    let heroes = line(&[(1, 5), (1, 1)]);
    assert_eq!(
        Some(1),
        find_hero_with_killing_blow(&Combat {
            monster_health: 7,
            heroes: heroes.clone()
        })
    );
    assert_eq!(
        None,
        find_hero_with_killing_blow(&Combat {
            monster_health: 8,
            heroes
        })
    );
}

#[test]
fn monster_without_health_falls_to_the_first_blow() {
    assert_eq!(
        Some(0),
        find_hero_with_killing_blow(&Combat {
            monster_health: 0,
            heroes: line(&[(1, 0), (1, 5)])
        })
    );
    assert_eq!(
        Some(0),
        find_hero_with_killing_blow(&Combat {
            monster_health: -3,
            heroes: line(&[(2, 1)])
        })
    );
}

#[test]
fn harmless_heroes_never_kill() {
    assert_eq!(
        None,
        find_hero_with_killing_blow(&Combat {
            monster_health: 1,
            heroes: line(&[(3, 0), (2, 0)])
        })
    );
}

#[test]
fn boosts_add_up_on_one_hero() {
    let problem = Problem {
        monster_health: 10,
        heroes: line(&[(1, 1), (1, 2)]),
        chosen_hero: 1,
        boost_damage: 3,
        max_boosts: 4,
    };
    let combat = apply_boosts(&problem, &vec![1, 1, 0, 1]);
    assert_eq!(combat.heroes, line(&[(1, 4), (1, 11)]));
    assert_eq!(combat.monster_health, 10);
    // The problem itself is left as it was.
    assert_eq!(problem.heroes, line(&[(1, 1), (1, 2)]));
}

#[test]
fn no_hero_no_solution() {
    let combat = Combat {
        monster_health: -1,
        heroes: vec![],
    };
    assert_eq!(None, find_hero_with_killing_blow(&combat));
}

#[test]
fn zero_boost_changes_nothing() {
    let problem = Problem {
        monster_health: 9,
        heroes: line(&[(2, 4), (2, 1)]),
        chosen_hero: 1,
        boost_damage: 0,
        max_boosts: 3,
    };
    // 4 + 1 + 4: hero 0 lands the blow, with or without boosts.
    assert!(!solution_is_valid(&problem, &vec![]));
    assert!(!solution_is_valid(&problem, &vec![1, 1, 1]));
    let problem = Problem {
        monster_health: 10,
        ..problem
    };
    assert!(solution_is_valid(&problem, &vec![]));
    assert!(solution_is_valid(&problem, &vec![0, 1]));
}

// The fight round by round, with the heroes that are left kept in a list.
fn replay(monster_health: i32, heroes: &[(usize, i32)]) -> Option<usize> {
    let mut left: Vec<(usize, usize, i32)> = heroes
        .iter()
        .enumerate()
        .map(|(i, &(health, damage))| (i, health, damage))
        .collect();
    let mut health = monster_health as i64;
    while !left.is_empty() {
        for &(i, _, damage) in &left {
            health -= damage as i64;
            if health <= 0 {
                return Some(i);
            }
        }
        left[0].1 -= 1;
        if left[0].1 == 0 {
            left.remove(0);
        }
    }
    None
}

#[test]
fn replay_agrees_on_many_small_fights() {
    let mut seed: u64 = 0x2545_f491_4f6c_dd1d;
    let mut next = |bound: u64| {
        seed ^= seed << 13;
        seed ^= seed >> 7;
        seed ^= seed << 17;
        seed % bound
    };
    for _ in 0..2000 {
        let n = next(5) as usize;
        let heroes: Vec<(usize, i32)> = (0..n)
            .map(|_| (1 + next(4) as usize, next(6) as i32))
            .collect();
        let monster_health = next(40) as i32 - 2;
        assert_eq!(
            find_hero_with_killing_blow(&Combat {
                monster_health,
                heroes: line(&heroes)
            }),
            replay(monster_health, &heroes),
            "{} against {:?}",
            monster_health,
            heroes
        );
    }
}

#[test]
fn late_hero_misses_however_it_is_boosted() {
    let problem = Problem {
        monster_health: 14,
        heroes: line(&[(10, 4), (10, 4)]),
        chosen_hero: 1,
        boost_damage: 4,
        max_boosts: 2,
    };
    // 4 + 8 = 12, then the first hero strikes again.
    assert!(!solution_is_valid(&problem, &vec![1]));
    // 4 + 12 = 16: the second hero is in time.
    assert!(solution_is_valid(&problem, &vec![1, 1]));
    // 8 + 8 = 16 as well.
    assert!(solution_is_valid(&problem, &vec![0, 1]));
}
