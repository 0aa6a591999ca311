//! Dice roll descriptions.

use vstd::prelude::*;

use vstd::string::StringSliceAdditionalSpecFns;

verus! {

/// Describes a dice roll: roll `n_dice` dice of `die_type` sides each and
/// add `bonus`.
#[derive(Copy, Clone, PartialEq, Eq, Structural, Debug, Hash)]
pub struct DiceType {
    /// Number of dice.
    pub n_dice: i32,
    /// How many sides each die has.
    pub die_type: i32,
    /// A flat bonus added to the roll.
    pub bonus: i32,
}

impl DiceType {
    /// Constructs a dice roll description.
    pub fn new(n_dice: i32, die_type: i32, bonus: i32) -> (d: DiceType)
        ensures
            d == (DiceType { n_dice, die_type, bonus }),
    {
        DiceType { n_dice, die_type, bonus }
    }
}

impl Default for DiceType {
    /// A single four-sided die.
    fn default() -> (d: DiceType)
        ensures
            d == (DiceType { n_dice: 1, die_type: 4, bonus: 0 }),
    {
        DiceType { n_dice: 1, die_type: 4, bonus: 0 }
    }
}

/// Returned when a dice string cannot be parsed.
#[derive(Debug, Clone, Copy, PartialEq, Eq, Structural, Hash)]
pub struct DiceParseError;

impl DiceParseError {
    /// A human-readable description of the error.
    pub fn message(&self) -> (s: String)
        ensures
            s@ == "Invalid dice string"@,
    {
        "Invalid dice string".to_string()
    }
}

/// Whether a byte is an ASCII decimal digit.
pub open spec fn is_digit_byte(b: u8) -> bool {
    48 <= b <= 57
}

/// The end of the maximal run of digit bytes starting at `i`.
pub open spec fn digits_end(s: Seq<u8>, i: int) -> int
    decreases s.len() - i,
{
    if i < s.len() && is_digit_byte(s[i]) {
        digits_end(s, i + 1)
    } else {
        i
    }
}

/// The decimal value of the digit bytes `s[i..j]`.
pub open spec fn digits_val(s: Seq<u8>, i: int, j: int) -> int
    decreases j - i,
{
    if j <= i {
        0
    } else {
        digits_val(s, i, j - 1) * 10 + (s[j - 1] - 48)
    }
}

/// Whether a dice expression starts exactly at byte `i`: a run of digits,
/// the letter `d`, and another run of digits.
pub open spec fn dice_match_at(s: Seq<u8>, i: int) -> bool {
    let d1e = digits_end(s, i);
    &&& d1e > i
    &&& d1e < s.len()
    &&& s[d1e] == 100
    &&& digits_end(s, d1e + 1) > d1e + 1
}

/// Whether a signed bonus (`+` or `-` followed by digits) starts at `i`.
pub open spec fn bonus_at(s: Seq<u8>, i: int) -> bool {
    &&& i < s.len()
    &&& (s[i] == 43 || s[i] == 45)
    &&& digits_end(s, i + 1) > i + 1
}

/// The scan over a dice string: at each position either a dice expression
/// starts (each one found overrides the dice count and sides, and the bonus
/// when it has one; a number too large for an `i32` is an error) or the scan
/// moves one byte on. A string without any expression is an error.
pub open spec fn dice_scan(s: Seq<u8>, pos: int, cur: DiceType, any: bool) -> Result<
    DiceType,
    DiceParseError,
>
    decreases s.len() - pos,
{
    if pos >= s.len() {
        if any {
            Ok(cur)
        } else {
            Err(DiceParseError)
        }
    } else if dice_match_at(s, pos) {
        let d1e = digits_end(s, pos);
        let d2e = digits_end(s, d1e + 1);
        let g1 = digits_val(s, pos, d1e);
        let g2 = digits_val(s, d1e + 1, d2e);
        if g1 > i32::MAX || g2 > i32::MAX {
            Err(DiceParseError)
        } else if bonus_at(s, d2e) {
            let be = digits_end(s, d2e + 1);
            let mag = digits_val(s, d2e + 1, be);
            let bval = if s[d2e] == 45 {
                -mag
            } else {
                mag
            };
            if bval < i32::MIN || bval > i32::MAX {
                Err(DiceParseError)
            } else {
                dice_scan(
                    s,
                    if pos < be <= s.len() {
                        be
                    } else {
                        pos + 1
                    },
                    DiceType { n_dice: g1 as i32, die_type: g2 as i32, bonus: bval as i32 },
                    true,
                )
            }
        } else {
            dice_scan(
                s,
                if pos < d2e <= s.len() {
                    d2e
                } else {
                    pos + 1
                },
                DiceType { n_dice: g1 as i32, die_type: g2 as i32, bonus: cur.bonus },
                true,
            )
        }
    } else {
        dice_scan(s, pos + 1, cur, any)
    }
}

/// What parsing a whole dice string yields, starting from the default dice
/// description.
pub open spec fn spec_parse_dice(s: Seq<u8>) -> Result<DiceType, DiceParseError> {
    dice_scan(s, 0, DiceType { n_dice: 1, die_type: 4, bonus: 0 }, false)
}

/// The digit run starting at `i` covers exactly the digits: every byte up
/// to its end is a digit and the byte at its end (if any) is not.
proof fn lemma_digits_end(s: Seq<u8>, i: int)
    requires
        0 <= i <= s.len(),
    ensures
        i <= digits_end(s, i) <= s.len(),
        forall|k: int| i <= k < digits_end(s, i) ==> is_digit_byte(#[trigger] s[k]),
        digits_end(s, i) < s.len() ==> !is_digit_byte(s[digits_end(s, i)]),
    decreases s.len() - i,
{
    if i < s.len() && is_digit_byte(s[i]) {
        lemma_digits_end(s, i + 1);
    }
}

/// Parses a dice string, of the type `1d6+3`, `3d8-4` or `1d20`; the last
/// dice expression found anywhere in the string wins, field by field.
pub fn parse_dice_string(dice: &str) -> (r: Result<DiceType, DiceParseError>)
    ensures
        r == spec_parse_dice(dice.spec_bytes()),
{
    let s: &[u8] = dice.as_bytes();
    let n = s.len();
    let mut pos: usize = 0;
    let mut cur = DiceType { n_dice: 1, die_type: 4, bonus: 0 };
    let mut any = false;
    loop
        invariant
            s@ == dice.spec_bytes(),
            n == s@.len(),
            0 <= pos <= n,
            dice_scan(s@, pos as int, cur, any) == spec_parse_dice(dice.spec_bytes()),
        decreases n - pos,
    {
        if pos >= n {
            if any {
                return Ok(cur);
            } else {
                return Err(DiceParseError);
            }
        }
        let d1e = digits_end_exec(s, pos);
        let mut is_match = false;
        let mut d2e: usize = 0;
        if d1e > pos && d1e < n {
            if s[d1e] == 100 {
                let t = digits_end_exec(s, d1e + 1);
                if t > d1e + 1 {
                    is_match = true;
                    d2e = t;
                }
            }
        }
        if !is_match {
            proof {
                assert(!dice_match_at(s@, pos as int));
            }
            pos += 1;
            continue ;
        }
        proof {
            assert(dice_match_at(s@, pos as int));
            lemma_digits_end(s@, pos as int);
            lemma_digits_end(s@, d1e as int + 1);
        }
        let g1 = match digits_value(s, pos, d1e, 0x7fff_ffff) {
            Some(v) => v,
            None => {
                return Err(DiceParseError);
            },
        };
        let g2 = match digits_value(s, d1e + 1, d2e, 0x7fff_ffff) {
            Some(v) => v,
            None => {
                return Err(DiceParseError);
            },
        };
        let mut has_bonus = false;
        let mut neg = false;
        let mut be: usize = d2e;
        let mut mag: u64 = 0;
        let mut bad_bonus = false;
        if d2e < n {
            let c = s[d2e];
            if c == 43 || c == 45 {
                let t2 = digits_end_exec(s, d2e + 1);
                if t2 > d2e + 1 {
                    proof {
                        lemma_digits_end(s@, d2e as int + 1);
                    }
                    let cap: u64 = if c == 45 {
                        0x8000_0000
                    } else {
                        0x7fff_ffff
                    };
                    match digits_value(s, d2e + 1, t2, cap) {
                        Some(m) => {
                            has_bonus = true;
                            neg = c == 45;
                            be = t2;
                            mag = m;
                        },
                        None => {
                            bad_bonus = true;
                        },
                    }
                }
            }
        }
        if bad_bonus {
            return Err(DiceParseError);
        }
        let bonus_val: i32 = if has_bonus {
            if neg {
                (-(mag as i64)) as i32
            } else {
                mag as i32
            }
        } else {
            cur.bonus
        };
        cur = DiceType { n_dice: g1 as i32, die_type: g2 as i32, bonus: bonus_val };
        any = true;
        let nxt = if has_bonus {
            be
        } else {
            d2e
        };
        proof {
            assert(nxt > pos);
        }
        pos = nxt;
    }
}

/// The end of the maximal run of digit bytes starting at `i`, computed.
fn digits_end_exec(s: &[u8], i: usize) -> (r: usize)
    requires
        i <= s@.len(),
    ensures
        r == digits_end(s@, i as int),
        i <= r <= s@.len(),
{
    let n = s.len();
    let mut j = i;
    loop
        invariant
            i <= j <= n,
            n == s@.len(),
            digits_end(s@, i as int) == digits_end(s@, j as int),
        decreases n - j,
    {
        if j >= n {
            return j;
        }
        let b = s[j];
        if b < 48 || b > 57 {
            return j;
        }
        j += 1;
    }
}

/// The decimal value of the digit bytes `s[i..j]`, or `None` if it exceeds
/// `cap`.
fn digits_value(s: &[u8], i: usize, j: usize, cap: u64) -> (r: Option<u64>)
    requires
        i <= j <= s@.len(),
        cap <= 0x1_0000_0000,
        forall|k: int| i <= k < j ==> is_digit_byte(#[trigger] s@[k]),
    ensures
        match r {
            Some(v) => v == digits_val(s@, i as int, j as int) && v <= cap,
            None => digits_val(s@, i as int, j as int) > cap,
        },
{
    let mut acc: u64 = 0;
    let mut over = false;
    let mut k = i;
    while k < j
        invariant
            i <= k <= j <= s@.len(),
            cap <= 0x1_0000_0000,
            forall|kk: int| i <= kk < j ==> is_digit_byte(#[trigger] s@[kk]),
            !over ==> acc == digits_val(s@, i as int, k as int) && acc <= cap,
            over ==> digits_val(s@, i as int, k as int) > cap,
            digits_val(s@, i as int, k as int) >= 0,
        decreases j - k,
    {
        let d = s[k] - 48;
        proof {
            assert(digits_val(s@, i as int, k as int + 1) == digits_val(s@, i as int, k as int)
                * 10 + (s@[k as int] - 48));
        }
        if over {
            proof {
                assert(digits_val(s@, i as int, k as int + 1) > cap) by (nonlinear_arith)
                    requires
                        digits_val(s@, i as int, k as int + 1) == digits_val(
                            s@,
                            i as int,
                            k as int,
                        ) * 10 + (s@[k as int] - 48),
                        digits_val(s@, i as int, k as int) > cap,
                        cap >= 0,
                        s@[k as int] >= 48,
                ;
            }
        } else {
            let next = acc * 10 + (d as u64);
            if next > cap {
                over = true;
            } else {
                acc = next;
            }
            proof {
                assert(digits_val(s@, i as int, k as int + 1) >= 0);
            }
        }
        k += 1;
    }
    if over {
        None
    } else {
        Some(acc)
    }
}

} // verus!
