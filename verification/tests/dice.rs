use dicegame::dice::{decimal_string, Dice, Die};

#[test]
fn new_takes_the_valid_face_counts_only() {
    for s in 0u8..=255 {
        let die = Die::new(s);
        if matches!(s, 4 | 6 | 8 | 10 | 12 | 20) {
            assert_eq!(die, Some(Die { sides: s }));
            assert!(Die { sides: s }.is_valid());
        } else {
            assert_eq!(die, None);
            assert!(!Die { sides: s }.is_valid());
        }
    }
}

#[test]
fn roll_stays_within_the_faces() {
    for s in [4u8, 6, 8, 10, 12, 20] {
        let die = Die { sides: s };
        for _ in 0..2000 {
            let v = die.roll();
            assert!(1 <= v && v <= s);
        }
    }
}

#[test]
fn roll_shows_every_face() {
    for s in [4u8, 6, 8, 10, 12, 20] {
        let die = Die { sides: s };
        let mut seen = vec![0u32; s as usize + 1];
        let trials: u32 = 20_000;
        for _ in 0..trials {
            seen[die.roll() as usize] += 1;
        }
        assert_eq!(seen[0], 0);
        let expected = trials / s as u32;
        for face in 1..=s as usize {
            assert!(seen[face] > expected / 2);
            assert!(seen[face] < expected * 2);
        }
    }
}

#[test]
fn die_to_string() {
    assert_eq!(Die { sides: 4 }.to_string(), "d4");
    assert_eq!(Die { sides: 6 }.to_string(), "d6");
    assert_eq!(Die { sides: 10 }.to_string(), "d10");
    assert_eq!(Die { sides: 20 }.to_string(), "d20");
}

#[test]
fn decimal_string_of_every_byte() {
    for n in 0u8..=255 {
        assert_eq!(decimal_string(n), format!("{}", n));
    }
}

#[test]
fn dice_to_string() {
    assert_eq!(Dice::new(vec![]).to_string(), "");
    assert_eq!(Dice::new(vec![Die { sides: 12 }]).to_string(), "d12");
    let dice = Dice::new(vec![Die { sides: 4 }, Die { sides: 10 }, Die { sides: 10 }]);
    assert_eq!(dice.to_string(), "d4, d10, d10");
    assert_eq!(dice.dice.len(), 3);
}
