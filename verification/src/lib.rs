//! Helper for a four-character idiom guessing game: it encodes the game's
//! per-feature feedback, narrows the idioms that are still possible, and
//! selects the guesses with the best scores.

pub mod bot;
pub mod feedback;
pub mod handle_pinyin;
pub mod matrix;
pub mod pattern;
pub mod ranking;
pub mod reading;
pub mod tally;
pub mod text;

use vstd::prelude::*;

verus! {

/// The digits of every radix up to 36, in order of their value.
pub const DIGITS: &'static str = "0123456789abcdefghijklmnopqrstuvwxyz";

/// The number `x` written in a radix of at least 2, most significant digit
/// first, without leading zeros; zero is written as one digit.
pub open spec fn radix_text(x: nat, radix: nat) -> Seq<char>
    decreases x,
{
    if x < radix || radix < 2 {
        seq![DIGITS@[x as int]]
    } else {
        proof {
            assert(x / radix < x) by (nonlinear_arith)
                requires
                    x >= radix,
                    radix >= 2,
            ;
        }
        radix_text(x / radix, radix).push(DIGITS@[(x % radix) as int])
    }
}

/// Writes `x` in the given radix, with the letters `a` to `z` for the digits
/// from ten on.
pub fn format_radix(x: u32, radix: u32) -> (text: String)
    requires
        2 <= radix <= 36,
    ensures
        text@ == radix_text(x as nat, radix as nat),
{
    proof {
        reveal_strlit("0123456789abcdefghijklmnopqrstuvwxyz");
    }
    let mut rest = x;
    let mut lows: Vec<u32> = Vec::new();
    let ghost mut tail: Seq<char> = Seq::empty();
    loop
        invariant_except_break
            radix_text(x as nat, radix as nat) == radix_text(rest as nat, radix as nat) + tail,
        invariant
            2 <= radix <= 36,
            DIGITS@.len() == 36,
            tail.len() == lows.len(),
            forall|k: int|
                0 <= k < lows.len() ==> (#[trigger] lows[k]) < radix && tail[lows.len() - 1 - k]
                    == DIGITS@[lows[k] as int],
        ensures
            radix_text(x as nat, radix as nat) == tail,
            lows.len() > 0,
        decreases rest,
    {
        let m = rest % radix;
        let ghost before = rest;
        let ghost old_tail = tail;
        rest = rest / radix;
        lows.push(m);
        proof {
            tail = seq![DIGITS@[m as int]] + old_tail;
            if before < radix {
                assert(rest == 0 && m == before) by (nonlinear_arith)
                    requires
                        before < radix,
                        rest == before / radix,
                        m == before % radix,
                ;
            } else {
                assert(radix_text(before as nat, radix as nat) == radix_text(
                    rest as nat,
                    radix as nat,
                ).push(DIGITS@[m as int]));
                assert(radix_text(x as nat, radix as nat) =~= radix_text(
                    rest as nat,
                    radix as nat,
                ) + tail);
                assert(rest > 0) by (nonlinear_arith)
                    requires
                        before >= radix,
                        radix >= 2,
                        rest == before / radix,
                ;
                assert(rest < before) by (nonlinear_arith)
                    requires
                        before >= radix,
                        radix >= 2,
                        rest == before / radix,
                ;
            }
        }
        if rest == 0 {
            break ;
        }
    }
    let count = lows.len();
    let mut text = String::new();
    let mut k: usize = 0;
    while k < count
        invariant
            k <= count,
            count == lows.len(),
            tail.len() == count,
            DIGITS@.len() == 36,
            2 <= radix <= 36,
            forall|k: int|
                0 <= k < lows.len() ==> (#[trigger] lows[k]) < radix && tail[lows.len() - 1 - k]
                    == DIGITS@[lows[k] as int],
            text@ == tail.take(k as int),
        decreases count - k,
    {
        let digit = lows[count - 1 - k] as usize;
        text.append(DIGITS.substring_char(digit, digit + 1));
        k += 1;
    }
    text
}

} // verus!
