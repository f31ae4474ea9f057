//! Dice notation: `d6`, `2d10`, and lists such as `d4,d6,2d10`.

use crate::dice::{all_valid, decimal_string, decimal_text, valid_sides, Die};
use vstd::prelude::*;
use vstd::std_specs::iter::IteratorSpec;
use vstd::string::*;

verus! {

/// The characters of `s`, one by one.
pub fn chars_of(s: &str) -> (chars: Vec<char>)
    ensures
        chars@ == s@,
{
    broadcast use {axiom_spec_iter, next_postcondition};

    let mut chars: Vec<char> = Vec::new();
    let mut it = s.chars();
    loop
        invariant
            it.obeys_prophetic_iter_laws(),
            chars@ + it.remaining() == s@,
        decreases s@.len() - chars@.len(),
    {
        let ghost before = it.remaining();
        match it.next() {
            Some(c) => {
                chars.push(c);
                proof {
                    assert(chars@ + it.remaining() =~= s@);
                }
            },
            None => {
                proof {
                    assert(chars@ =~= s@);
                }
                return chars;
            },
        }
    }
}

/// Whether `c` is white space: the characters that `trim` removes.
pub open spec fn is_space(c: char) -> bool {
    let u = c as u32;
    (0x09 <= u <= 0x0D) || u == 0x20 || u == 0x85 || u == 0xA0 || u == 0x1680 || (0x2000 <= u
        <= 0x200A) || u == 0x2028 || u == 0x2029 || u == 0x202F || u == 0x205F || u == 0x3000
}

/// The first index at or after `i` that holds no white space, or the length.
pub open spec fn skip_spaces(s: Seq<char>, i: int) -> int
    decreases s.len() - i,
{
    if 0 <= i < s.len() && is_space(s[i]) {
        skip_spaces(s, i + 1)
    } else {
        i
    }
}

/// The end of `s` without the white space before index `j`, not going below
/// `lo`.
pub open spec fn skip_spaces_back(s: Seq<char>, lo: int, j: int) -> int
    decreases j - lo,
{
    if lo < j <= s.len() && is_space(s[j - 1]) {
        skip_spaces_back(s, lo, j - 1)
    } else {
        j
    }
}

/// `s` without the white space at its two ends.
pub open spec fn trimmed(s: Seq<char>) -> Seq<char> {
    let lo = skip_spaces(s, 0);
    s.subrange(lo, skip_spaces_back(s, lo, s.len() as int))
}

/// The first index at or after `i` at which `s` holds `c`, or -1.
pub open spec fn find_from(s: Seq<char>, c: char, i: int) -> int
    decreases s.len() - i,
{
    if i < 0 || i >= s.len() {
        -1
    } else if s[i] == c {
        i
    } else {
        find_from(s, c, i + 1)
    }
}

/// Whether `c` is a decimal digit, `0` to `9` (the codes 48 to 57).
pub open spec fn is_digit(c: char) -> bool {
    48 <= c as u32 <= 57
}

/// The number that the digits of `t` write in decimal.
pub open spec fn digits_value(t: Seq<char>) -> nat
    decreases t.len(),
{
    if t.len() == 0 {
        0
    } else {
        digits_value(t.drop_last()) * 10 + (t.last() as u32 - 48) as nat
    }
}

/// Whether `t` is made of decimal digits, and of one at least.
pub open spec fn all_digits(t: Seq<char>) -> bool {
    t.len() > 0 && forall|i: int| 0 <= i < t.len() ==> is_digit(#[trigger] t[i])
}

/// The unsigned number that `t` writes: decimal digits, a `+` before them
/// allowed, and a value of `max` at most. Anything else is no number.
pub open spec fn unsigned_value(t: Seq<char>, max: nat) -> Option<nat> {
    let digits = if t.len() > 0 && t[0] == '+' {
        t.drop_first()
    } else {
        t
    };
    if all_digits(digits) && digits_value(digits) <= max {
        Some(digits_value(digits))
    } else {
        None
    }
}

/// What one term of dice notation means: how many dice, and with how many
/// faces; or the message that says what is wrong with it. The term is read
/// without the white space round it. What stands before the first `d` is the
/// count, 1 where nothing stands there; what follows it is the face count.
pub open spec fn parse_term(s: Seq<char>) -> Result<(nat, u8), Seq<char>> {
    let t = trimmed(s);
    let d = find_from(t, 'd', 0);
    if d < 0 {
        Err("Invalid dice format: "@ + t + ". Expected format like 'd6' or '2d10'"@)
    } else {
        let count_text = t.subrange(0, d);
        let sides_text = t.subrange(d + 1, t.len() as int);
        let count = if count_text.len() == 0 {
            Some(1nat)
        } else {
            unsigned_value(count_text, u32::MAX as nat)
        };
        match count {
            None => Err("Invalid dice count: "@ + count_text),
            Some(n) => match unsigned_value(sides_text, u8::MAX as nat) {
                None => Err("Invalid dice sides: "@ + sides_text),
                Some(f) => if valid_sides(f as u8) {
                    Ok((n, f as u8))
                } else {
                    Err(
                        "Invalid die type: d"@ + decimal_text(f)
                            + ". Valid types are d4, d6, d8, d10, d12, d20"@,
                    )
                },
            },
        }
    }
}

/// `n` dice with `sides` faces each.
pub open spec fn repeated(n: nat, sides: u8) -> Seq<Die> {
    Seq::new(n, |i: int| Die { sides })
}

/// The dice that one term names, or the message that says what is wrong
/// with it.
pub open spec fn term_dice(s: Seq<char>) -> Result<Seq<Die>, Seq<char>> {
    match parse_term(s) {
        Ok((n, sides)) => Ok(repeated(n, sides)),
        Err(m) => Err(m),
    }
}

/// The parts of `s` between its commas; one more than it has commas.
pub open spec fn comma_parts(s: Seq<char>) -> Seq<Seq<char>>
    decreases s.len(),
{
    if s.len() == 0 {
        seq![Seq::<char>::empty()]
    } else {
        let before = comma_parts(s.drop_last());
        if s.last() == ',' {
            before.push(Seq::<char>::empty())
        } else {
            before.drop_last().push(before.last().push(s.last()))
        }
    }
}

/// The dice of all the terms in `parts`, in order; or the message of the
/// first term that is wrong.
pub open spec fn parse_parts(parts: Seq<Seq<char>>) -> Result<Seq<Die>, Seq<char>>
    decreases parts.len(),
{
    if parts.len() == 0 {
        Ok(Seq::<Die>::empty())
    } else {
        match parse_parts(parts.drop_last()) {
            Err(m) => Err(m),
            Ok(dice) => match term_dice(parts.last()) {
                Err(m) => Err(m),
                Ok(more) => Ok(dice + more),
            },
        }
    }
}

/// What a list of terms separated by commas means.
pub open spec fn parse_list(s: Seq<char>) -> Result<Seq<Die>, Seq<char>> {
    parse_parts(comma_parts(s))
}

/// Whether `r` is the result that `expected` describes.
pub open spec fn agrees(r: Result<Vec<Die>, String>, expected: Result<Seq<Die>, Seq<char>>) -> bool {
    match (r, expected) {
        (Ok(found), Ok(dice)) => found@ == dice,
        (Err(said), Err(message)) => said@ == message,
        _ => false,
    }
}

/// A term names valid dice only: one whose face count is not among the valid
/// ones is refused.
pub proof fn law_term_dice_are_valid(s: Seq<char>)
    ensures
        match parse_term(s) {
            Ok((n, sides)) => valid_sides(sides),
            Err(_) => true,
        },
        match term_dice(s) {
            Ok(dice) => all_valid(dice),
            Err(_) => true,
        },
{
}

/// The dice of terms that were all read are valid.
pub proof fn lemma_parts_dice_are_valid(parts: Seq<Seq<char>>)
    ensures
        match parse_parts(parts) {
            Ok(dice) => all_valid(dice),
            Err(_) => true,
        },
    decreases parts.len(),
{
    if parts.len() > 0 {
        lemma_parts_dice_are_valid(parts.drop_last());
        law_term_dice_are_valid(parts.last());
    }
}

/// A list names valid dice only: where one of its terms has a face count that
/// is not among the valid ones, the list is refused.
pub proof fn law_list_dice_are_valid(s: Seq<char>)
    ensures
        match parse_list(s) {
            Ok(dice) => all_valid(dice),
            Err(_) => true,
        },
{
    lemma_parts_dice_are_valid(comma_parts(s));
}

/// Whether `c` is white space.
fn is_white_space(c: char) -> (b: bool)
    ensures
        b == is_space(c),
{
    let u: u32 = c as u32;
    (0x09 <= u && u <= 0x0D) || u == 0x20 || u == 0x85 || u == 0xA0 || u == 0x1680 || (0x2000 <= u
        && u <= 0x200A) || u == 0x2028 || u == 0x2029 || u == 0x202F || u == 0x205F || u
        == 0x3000
}

/// Reads `chars[from..to]` as an unsigned number of `max` at most.
fn parse_unsigned(chars: &Vec<char>, from: usize, to: usize, max: u32) -> (r: Option<u32>)
    requires
        from <= to <= chars@.len(),
    ensures
        match unsigned_value(chars@.subrange(from as int, to as int), max as nat) {
            Some(v) => r == Some(v as u32),
            None => r.is_none(),
        },
{
    let ghost t = chars@.subrange(from as int, to as int);
    let start: usize = if from < to && chars[from] == '+' {
        from + 1
    } else {
        from
    };
    let ghost digits = chars@.subrange(start as int, to as int);
    proof {
        if from < to {
            assert(t[0] == chars@[from as int]);
        }
        assert(digits =~= if t.len() > 0 && t[0] == '+' {
            t.drop_first()
        } else {
            t
        });
    }
    if start == to {
        return None;
    }
    let mut value: u64 = 0;
    let mut over: bool = false;
    let mut i: usize = start;
    while i < to
        invariant
            start <= i <= to <= chars@.len(),
            digits == chars@.subrange(start as int, to as int),
            unsigned_value(chars@.subrange(from as int, to as int), max as nat) == if all_digits(
                digits,
            ) && digits_value(digits) <= max {
                Some(digits_value(digits))
            } else {
                None
            },
            forall|k: int| 0 <= k < i - start ==> is_digit(#[trigger] digits[k]),
            !over ==> value == digits_value(digits.take(i - start)) && value <= max,
            over ==> digits_value(digits.take(i - start)) > max,
        decreases to - i,
    {
        let u: u32 = chars[i] as u32;
        proof {
            assert(digits[i - start] == chars@[i as int]);
            assert(digits.take(i - start + 1).drop_last() =~= digits.take(i - start));
        }
        if u < 48 || u > 57 {
            proof {
                assert(!is_digit(digits[i - start]));
            }
            return None;
        }
        if !over {
            value = value * 10 + (u - 48) as u64;
            if value > max as u64 {
                over = true;
            }
        }
        i += 1;
    }
    proof {
        assert(digits.take(to - start) =~= digits);
    }
    if over {
        None
    } else {
        Some(value as u32)
    }
}

/// Reads one term of dice notation, such as `d6` or `2d10`: the dice that it
/// names, or the message that says what is wrong with it.
pub fn parse_dice(s: &str) -> (r: Result<Vec<Die>, String>)
    ensures
        agrees(r, term_dice(s@)),
        r matches Ok(dice) ==> all_valid(dice@),
{
    let chars = chars_of(s);
    let n: usize = chars.len();
    let mut lo: usize = 0;
    while lo < n && is_white_space(chars[lo])
        invariant
            lo <= n,
            n == chars@.len(),
            skip_spaces(chars@, 0) == skip_spaces(chars@, lo as int),
        decreases n - lo,
    {
        lo += 1;
    }
    let mut hi: usize = n;
    while lo < hi && is_white_space(chars[hi - 1])
        invariant
            lo <= hi <= n,
            n == chars@.len(),
            skip_spaces_back(chars@, lo as int, n as int) == skip_spaces_back(
                chars@,
                lo as int,
                hi as int,
            ),
        decreases hi - lo,
    {
        hi -= 1;
    }
    let ghost t = chars@.subrange(lo as int, hi as int);
    assert(t == trimmed(s@));
    let mut d: usize = lo;
    while d < hi && chars[d] != 'd'
        invariant
            lo <= d <= hi <= n,
            n == chars@.len(),
            t == chars@.subrange(lo as int, hi as int),
            find_from(t, 'd', 0) == find_from(t, 'd', d - lo),
        decreases hi - d,
    {
        proof {
            assert(t[d - lo] == chars@[d as int]);
        }
        d += 1;
    }
    if d == hi {
        let mut message = String::from_str("Invalid dice format: ");
        message.append(s.substring_char(lo, hi));
        message.append(". Expected format like 'd6' or '2d10'");
        return Err(message);
    }
    proof {
        assert(t[d - lo] == chars@[d as int]);
        assert(find_from(t, 'd', 0) == d - lo);
        assert(t.subrange(0, d - lo) =~= chars@.subrange(lo as int, d as int));
        assert(t.subrange(d - lo + 1, t.len() as int) =~= chars@.subrange(d + 1, hi as int));
    }
    let count: u32 = if d == lo {
        1
    } else {
        match parse_unsigned(&chars, lo, d, u32::MAX) {
            Some(c) => c,
            None => {
                let mut message = String::from_str("Invalid dice count: ");
                message.append(s.substring_char(lo, d));
                return Err(message);
            },
        }
    };
    let sides: u8 = match parse_unsigned(&chars, d + 1, hi, 255) {
        Some(f) => f as u8,
        None => {
            let mut message = String::from_str("Invalid dice sides: ");
            message.append(s.substring_char(d + 1, hi));
            return Err(message);
        },
    };
    match Die::new(sides) {
        Some(die) => {
            let mut dice: Vec<Die> = Vec::new();
            let mut k: u32 = 0;
            while k < count
                invariant
                    k <= count,
                    dice@ == repeated(k as nat, sides),
                    die == (Die { sides }),
                decreases count - k,
            {
                dice.push(die);
                proof {
                    assert(dice@ =~= repeated((k + 1) as nat, sides));
                }
                k += 1;
            }
            Ok(dice)
        },
        None => {
            let mut message = String::from_str("Invalid die type: d");
            let digits = decimal_string(sides);
            message.append(digits.as_str());
            message.append(". Valid types are d4, d6, d8, d10, d12, d20");
            Err(message)
        },
    }
}

/// Reads a list of terms separated by commas, such as `d4,d6,2d10`: the dice
/// of all the terms in order, or the message of the first term that is wrong.
pub fn parse_dice_list(s: &str) -> (r: Result<Vec<Die>, String>)
    ensures
        agrees(r, parse_list(s@)),
        r matches Ok(dice) ==> all_valid(dice@),
{
    proof {
        law_list_dice_are_valid(s@);
    }
    let chars = chars_of(s);
    let n: usize = chars.len();
    let mut dice: Vec<Die> = Vec::new();
    let mut failure: Option<String> = None;
    let mut start: usize = 0;
    let mut i: usize = 0;
    while i < n
        invariant
            start <= i <= n,
            n == chars@.len(),
            chars@ == s@,
            comma_parts(s@.take(i as int)).last() == s@.subrange(start as int, i as int),
            comma_parts(s@.take(i as int)).len() > 0,
            match failure {
                Some(m) => parse_parts(comma_parts(s@.take(i as int)).drop_last()) == Err::<
                    Seq<Die>,
                    Seq<char>,
                >(m@),
                None => parse_parts(comma_parts(s@.take(i as int)).drop_last()) == Ok::<
                    Seq<Die>,
                    Seq<char>,
                >(dice@),
            },
        decreases n - i,
    {
        let ghost before = comma_parts(s@.take(i as int));
        proof {
            assert(s@.take(i + 1).drop_last() =~= s@.take(i as int));
            assert(s@.take(i + 1).last() == chars@[i as int]);
        }
        if chars[i] == ',' {
            proof {
                assert(before.push(Seq::<char>::empty()).drop_last() =~= before);
                assert(before =~= before.drop_last().push(before.last()));
                assert(before.drop_last().push(before.last()).drop_last() =~= before.drop_last());
            }
            if failure.is_none() {
                match parse_dice(s.substring_char(start, i)) {
                    Ok(mut more) => {
                        dice.append(&mut more);
                    },
                    Err(m) => {
                        failure = Some(m);
                    },
                }
            }
            start = i + 1;
            proof {
                assert(s@.subrange(start as int, i + 1) =~= Seq::<char>::empty());
            }
        } else {
            proof {
                assert(before.drop_last().push(before.last().push(chars@[i as int])).drop_last()
                    =~= before.drop_last());
                assert(s@.subrange(start as int, i + 1) =~= s@.subrange(
                    start as int,
                    i as int,
                ).push(chars@[i as int]));
            }
        }
        i += 1;
    }
    proof {
        assert(s@.take(n as int) =~= s@);
        let parts = comma_parts(s@);
        assert(parts =~= parts.drop_last().push(parts.last()));
    }
    match failure {
        Some(m) => Err(m),
        None => match parse_dice(s.substring_char(start, n)) {
            Ok(mut more) => {
                dice.append(&mut more);
                Ok(dice)
            },
            Err(m) => Err(m),
        },
    }
}

/// What the program is asked to do: the dice in dice notation, the sum to
/// reach, and the number of rounds to play.
#[derive(Debug)]
pub struct Args {
    pub dice: String,
    pub target: u32,
    pub iterations: u32,
}

impl Args {
    /// The dice that the notation in `dice` names.
    pub fn get_dice(&self) -> (r: Result<Vec<Die>, String>)
        ensures
            agrees(r, parse_list(self.dice@)),
            r matches Ok(dice) ==> all_valid(dice@),
    {
        parse_dice_list(self.dice.as_str())
    }
}

} // verus!
