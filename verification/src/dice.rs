//! Dice: a single die with a fixed number of faces, and an ordered collection
//! of them.

use rand::Rng;
use vstd::prelude::*;
use vstd::string::*;

verus! {

/// The face counts a die may have.
pub open spec fn valid_sides(sides: u8) -> bool {
    sides == 4 || sides == 6 || sides == 8 || sides == 10 || sides == 12 || sides == 20
}

/// The character that stands for the decimal digit `d`.
pub open spec fn digit_char(d: nat) -> char {
    if d == 0 {
        '0'
    } else if d == 1 {
        '1'
    } else if d == 2 {
        '2'
    } else if d == 3 {
        '3'
    } else if d == 4 {
        '4'
    } else if d == 5 {
        '5'
    } else if d == 6 {
        '6'
    } else if d == 7 {
        '7'
    } else if d == 8 {
        '8'
    } else {
        '9'
    }
}

/// The decimal rendering of `n`, without leading zeros.
pub open spec fn decimal_text(n: nat) -> Seq<char>
    decreases n,
{
    if n < 10 {
        seq![digit_char(n)]
    } else {
        decimal_text(n / 10).push(digit_char(n % 10))
    }
}

/// The display form of a die with `sides` faces: `d` and the face count.
pub open spec fn die_text(sides: u8) -> Seq<char> {
    seq!['d'] + decimal_text(sides as nat)
}

/// The display form of the first `n` dice of `dice`, joined by `", "`.
pub open spec fn dice_text(dice: Seq<Die>, n: nat) -> Seq<char>
    decreases n,
{
    if n == 0 {
        Seq::empty()
    } else if n == 1 {
        die_text(dice[0].sides)
    } else {
        dice_text(dice, (n - 1) as nat) + seq![',', ' '] + die_text(dice[n - 1].sides)
    }
}

/// Whether every die of `dice` has a valid face count.
pub open spec fn all_valid(dice: Seq<Die>) -> bool {
    forall|i: int| 0 <= i < dice.len() ==> (#[trigger] dice[i]).wf()
}

fn digit_str(d: u8) -> (s: &'static str)
    requires
        d < 10,
    ensures
        s@ == seq![digit_char(d as nat)],
{
    proof {
        reveal_strlit("0");
        reveal_strlit("1");
        reveal_strlit("2");
        reveal_strlit("3");
        reveal_strlit("4");
        reveal_strlit("5");
        reveal_strlit("6");
        reveal_strlit("7");
        reveal_strlit("8");
        reveal_strlit("9");
    }
    let s: &'static str = match d {
        0 => "0",
        1 => "1",
        2 => "2",
        3 => "3",
        4 => "4",
        5 => "5",
        6 => "6",
        7 => "7",
        8 => "8",
        _ => "9",
    };
    assert(s@ =~= seq![digit_char(d as nat)]);
    s
}

/// Writes `n` in decimal.
pub fn decimal_string(n: u8) -> (s: String)
    ensures
        s@ == decimal_text(n as nat),
{
    let mut s = String::new();
    if n >= 100 {
        s.append(digit_str(n / 100));
    }
    if n >= 10 {
        s.append(digit_str((n / 10) % 10));
    }
    s.append(digit_str(n % 10));
    proof {
        let m = n as nat;
        if m >= 100 {
            assert(decimal_text(m / 100) == seq![digit_char(m / 100)]);
            assert(decimal_text(m / 10) == decimal_text(m / 100).push(
                digit_char((m / 10) % 10),
            ));
        } else if m >= 10 {
            assert(decimal_text(m / 10) == seq![digit_char(m / 10)]);
        }
        assert(s@ =~= decimal_text(m));
    }
    s
}

/// Draws a face from 1 to `sides` with `rand::rng().random_range(1..=sides)`.
/// The range is not empty, so the call returns, and what it returns lies in
/// the range; nothing else is claimed of the value drawn.
#[verifier::external_body]
fn random_face(sides: u8) -> (value: u8)
    requires
        1 <= sides,
    ensures
        1 <= value <= sides,
{
    rand::rng().random_range(1..=sides)
}

/// A die, known by its number of faces.
#[derive(Clone, Copy, Debug, PartialEq, Eq, Structural)]
pub struct Die {
    pub sides: u8,
}

impl Die {
    /// A die is well formed when its face count is one of the valid ones.
    pub open spec fn wf(&self) -> bool {
        valid_sides(self.sides)
    }

    /// Makes a die with `sides` faces, or nothing where no such die exists.
    pub fn new(sides: u8) -> (die: Option<Die>)
        ensures
            valid_sides(sides) ==> die == Some(Die { sides }),
            !valid_sides(sides) ==> die.is_none(),
    {
        match sides {
            4 | 6 | 8 | 10 | 12 | 20 => Some(Die { sides }),
            _ => None,
        }
    }

    /// Whether the face count is one of the valid ones.
    pub fn is_valid(&self) -> (ok: bool)
        ensures
            ok == self.wf(),
    {
        match self.sides {
            4 | 6 | 8 | 10 | 12 | 20 => true,
            _ => false,
        }
    }

    /// Rolls the die: a face from 1 to the face count.
    pub fn roll(&self) -> (value: u8)
        requires
            self.wf(),
        ensures
            1 <= value <= self.sides,
    {
        random_face(self.sides)
    }

    /// The display form: `d` and the face count, as in `d6`.
    pub fn to_string(&self) -> (s: String)
        ensures
            s@ == die_text(self.sides),
    {
        let mut s = String::new();
        s.append("d");
        let digits = decimal_string(self.sides);
        s.append(digits.as_str());
        proof {
            reveal_strlit("d");
            assert("d"@ =~= seq!['d']);
        }
        s
    }
}

/// An ordered collection of dice.
#[derive(Clone, Debug)]
pub struct Dice {
    pub dice: Vec<Die>,
}

impl Dice {
    /// The collection that holds `dice`, in that order.
    pub fn new(dice: Vec<Die>) -> (collection: Dice)
        ensures
            collection.dice == dice,
    {
        Dice { dice }
    }

    /// The display forms of the dice, joined by `", "`.
    pub fn to_string(&self) -> (s: String)
        ensures
            s@ == dice_text(self.dice@, self.dice@.len()),
    {
        let mut s = String::new();
        let mut i: usize = 0;
        while i < self.dice.len()
            invariant
                i <= self.dice@.len(),
                s@ == dice_text(self.dice@, i as nat),
            decreases self.dice@.len() - i,
        {
            if i > 0 {
                s.append(", ");
            }
            let part = self.dice[i].to_string();
            s.append(part.as_str());
            proof {
                reveal_strlit(", ");
                assert(", "@ =~= seq![',', ' ']);
                assert(s@ =~= dice_text(self.dice@, (i + 1) as nat));
            }
            i += 1;
        }
        s
    }
}

} // verus!
