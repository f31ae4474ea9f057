use dicegame::args::parse_dice_list;
use dicegame::dice::Die;
use dicegame::game::{
    eliminate, group_by_value, meets_target, roll_all, smallest_in, survivors, Game, Roll,
};
use rayon::iter::{IntoParallelIterator, ParallelIterator};

fn rolls(shown: &[(u8, u8)]) -> Vec<Roll> {
    shown.iter().map(|&(sides, value)| Roll { die: Die { sides }, value }).collect()
}

fn sides_of(dice: &[Die]) -> Vec<u8> {
    dice.iter().map(|d| d.sides).collect()
}

#[test]
fn roll_new_keeps_the_die() {
    for s in [4u8, 6, 8, 10, 12, 20] {
        for _ in 0..200 {
            let roll = Roll::new(Die { sides: s });
            assert_eq!(roll.die, Die { sides: s });
            assert!(1 <= roll.value && roll.value <= s);
        }
    }
}

#[test]
fn roll_all_rolls_each_die_once() {
    let dice = parse_dice_list("d4,d6,d8,2d10,d12,d20").unwrap();
    for _ in 0..200 {
        let rolled = roll_all(&dice);
        assert_eq!(rolled.len(), dice.len());
        for (roll, die) in rolled.iter().zip(dice.iter()) {
            assert_eq!(roll.die, *die);
            assert!(1 <= roll.value && roll.value <= die.sides);
        }
    }
}

#[test]
fn no_rolls_nothing_leaves() {
    let e = eliminate(&Vec::new());
    assert!(e.eliminated.is_empty());
    assert!(e.survivors.is_empty());
    assert!(survivors(&Vec::new()).is_empty());
}

#[test]
fn distinct_values_all_leave() {
    let r = rolls(&[(4, 1), (6, 2), (8, 3), (10, 4), (10, 5), (12, 6), (20, 7)]);
    let e = eliminate(&r);
    assert_eq!(e.eliminated, vec![0, 1, 2, 3, 4, 5, 6]);
    assert!(e.survivors.is_empty());
    let staying = survivors(&r);
    assert!(staying.is_empty());
    assert!(meets_target(&roll_all(&staying), 0));
    assert!(!meets_target(&roll_all(&staying), 1));
}

#[test]
fn equal_values_the_smallest_leaves() {
    let r = rolls(&[(20, 3), (6, 3), (4, 3), (12, 3), (10, 3)]);
    let e = eliminate(&r);
    assert_eq!(e.eliminated, vec![2]);
    assert_eq!(e.survivors, vec![0, 1, 3, 4]);
    assert_eq!(sides_of(&survivors(&r)), vec![20, 6, 12, 10]);
}

#[test]
fn equal_values_equal_faces_one_leaves() {
    let r = rolls(&[(10, 7), (10, 7), (10, 7)]);
    let e = eliminate(&r);
    assert_eq!(e.eliminated.len(), 1);
    assert_eq!(e.survivors.len(), 2);
    assert_eq!(sides_of(&survivors(&r)), vec![10, 10]);
}

#[test]
fn mixed_groups() {
    // values: 2 shown by d4 and d8; 5 shown by d10, d6 and d20; 1 shown by d12 alone
    let r = rolls(&[(8, 2), (10, 5), (4, 2), (12, 1), (6, 5), (20, 5)]);
    let e = eliminate(&r);
    assert_eq!(e.eliminated, vec![2, 3, 4]);
    assert_eq!(e.survivors, vec![0, 1, 5]);
    assert_eq!(sides_of(&survivors(&r)), vec![8, 10, 20]);
}

#[test]
fn a_pair_keeps_its_larger_die() {
    let r = rolls(&[(4, 4), (20, 4)]);
    assert_eq!(sides_of(&survivors(&r)), vec![20]);
    let r = rolls(&[(20, 4), (4, 4)]);
    assert_eq!(sides_of(&survivors(&r)), vec![20]);
}

#[test]
fn every_index_leaves_or_stays() {
    let dice = parse_dice_list("3d4,2d6,d8,2d10,d12,d20").unwrap();
    for _ in 0..500 {
        let r = roll_all(&dice);
        let e = eliminate(&r);
        let mut all: Vec<usize> = e.eliminated.iter().chain(e.survivors.iter()).copied().collect();
        all.sort();
        assert_eq!(all, (0..dice.len()).collect::<Vec<usize>>());
        let mut values: Vec<u8> = r.iter().map(|x| x.value).collect();
        values.sort();
        values.dedup();
        assert_eq!(e.eliminated.len(), values.len());
        for &i in &e.eliminated {
            for (j, other) in r.iter().enumerate() {
                if other.value == r[i].value {
                    assert!(r[i].die.sides <= other.die.sides);
                    if r[i].die.sides == other.die.sides {
                        assert!(i <= j);
                    }
                }
            }
        }
    }
}

#[test]
fn meets_target_sums_the_values() {
    let r = rolls(&[(20, 7), (10, 5), (8, 7)]);
    assert!(meets_target(&r, 0));
    assert!(meets_target(&r, 18));
    assert!(meets_target(&r, 19));
    assert!(!meets_target(&r, 20));
    assert!(!meets_target(&r, u32::MAX));
    assert!(meets_target(&Vec::new(), 0));
    assert!(!meets_target(&Vec::new(), 1));
}

#[test]
fn game_new_keeps_dice_and_target() {
    let game = Game::new(vec![Die { sides: 6 }, Die { sides: 20 }], 19);
    assert_eq!(game.dice, vec![Die { sides: 6 }, Die { sides: 20 }]);
    assert_eq!(game.target, 19);
    assert!(game.is_valid());
    assert!(!Game::new(vec![Die { sides: 6 }, Die { sides: 7 }], 19).is_valid());
    assert!(Game::new(vec![], 19).is_valid());
}

#[test]
fn play_without_dice() {
    for _ in 0..100 {
        assert!(Game::new(vec![], 0).play());
        assert!(!Game::new(vec![], 1).play());
        assert!(!Game::new(vec![], 19).play());
    }
}

#[test]
fn play_with_one_die_wins_only_target_zero() {
    for _ in 0..500 {
        assert!(Game::new(vec![Die { sides: 20 }], 0).play());
        assert!(!Game::new(vec![Die { sides: 20 }], 1).play());
    }
}

#[test]
fn play_with_two_dice_never_exceeds_the_larger() {
    let game = Game::new(vec![Die { sides: 4 }, Die { sides: 6 }], 7);
    for _ in 0..2000 {
        assert!(!game.play());
    }
}

#[test]
fn play_win_rate_is_between_the_extremes() {
    let dice = parse_dice_list("d4,d6,d8,2d10,d12,d20").unwrap();
    let game = Game::new(dice, 19);
    assert!(game.is_valid());
    let iterations: u32 = 100_000;
    let mut wins: u32 = 0;
    for _ in 0..iterations {
        if game.play() {
            wins += 1;
        }
    }
    assert!(wins > 0);
    assert!(wins < iterations);
}

#[test]
fn play_win_rate_is_stable() {
    let dice = parse_dice_list("d4,d6,d8,2d10,d12,d20").unwrap();
    let game = Game::new(dice, 19);
    let iterations: u32 = 50_000;
    let mut wins = [0u32; 2];
    for run in 0..2 {
        for _ in 0..iterations {
            if game.play() {
                wins[run] += 1;
            }
        }
    }
    let a = wins[0] as f64 / iterations as f64;
    let b = wins[1] as f64 / iterations as f64;
    assert!((a - b).abs() < 0.02);
}

#[test]
fn sequential_and_parallel_runs_agree() {
    let dice = parse_dice_list("d4,d6,d8,2d10,d12,d20").unwrap();
    let game = Game::new(dice, 19);
    let iterations: u32 = 50_000;
    let mut sequential: u32 = 0;
    for _ in 0..iterations {
        if game.play() {
            sequential += 1;
        }
    }
    let parallel: u32 = (0..iterations)
        .into_par_iter()
        .map(|_| if game.play() { 1 } else { 0 })
        .sum();
    let a = sequential as f64 / iterations as f64;
    let b = parallel as f64 / iterations as f64;
    assert!((a - b).abs() < 0.02);
}

#[test]
fn groups_hold_the_indices_by_value() {
    let r = rolls(&[(8, 2), (10, 5), (4, 2), (12, 1), (6, 5), (20, 5)]);
    let groups = group_by_value(&r);
    assert_eq!(groups.len(), 256);
    assert_eq!(groups[1], vec![3]);
    assert_eq!(groups[2], vec![0, 2]);
    assert_eq!(groups[5], vec![1, 4, 5]);
    for v in 0..256 {
        if v != 1 && v != 2 && v != 5 {
            assert!(groups[v].is_empty());
        }
    }
    assert!(group_by_value(&Vec::new()).iter().all(|g| g.is_empty()));
}

#[test]
fn smallest_in_finds_the_first_with_fewest_faces() {
    let r = rolls(&[(8, 2), (10, 5), (4, 2), (12, 1), (6, 5), (20, 5), (6, 5)]);
    assert_eq!(smallest_in(&r, &vec![1, 4, 5, 6]), 1);
    assert_eq!(smallest_in(&r, &vec![0, 2]), 1);
    assert_eq!(smallest_in(&r, &vec![3]), 0);
    assert_eq!(smallest_in(&r, &vec![6, 4]), 0);
    assert_eq!(smallest_in(&r, &vec![5, 1, 3]), 1);
}
