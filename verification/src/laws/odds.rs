//! The odds of a word count the places where it is looked for.

use crate::words;
use crate::words::{Odds, Positions};
use vstd::arithmetic::power;
use vstd::prelude::*;

verus! {

/// The offsets in the window at which a word of length `len` is looked for: the
/// front, the end, or every offset that leaves room for the word.
pub open spec fn looked_at(len: nat, positions: Positions, inner_min: int) -> Set<int> {
    Set::new(
        |k: int|
            {
                ||| k == 0 && positions != Positions::Suffix
                ||| k == 18 - len && positions != Positions::Prefix
                ||| 0 <= k && k + len <= 18 && positions == Positions::Any && len >= inner_min
            },
    )
}

/// How many offsets there are.
proof fn offsets_counted(len: nat, positions: Positions, inner_min: int)
    requires
        len <= 18,
    ensures
        looked_at(len, positions, inner_min).finite(),
        looked_at(len, positions, inner_min).len() == (if positions == Positions::Any && len
            >= inner_min {
            19 - len
        } else if len < 18 && (positions == Positions::Any || positions == Positions::Ends) {
            2
        } else {
            1
        }),
{
    let s = looked_at(len, positions, inner_min);
    if positions == Positions::Any && len >= inner_min {
        vstd::set_lib::lemma_int_range(0, 19 - len);
        assert(s =~= vstd::set_lib::set_int_range(0, 19 - len));
    } else if positions == Positions::Prefix {
        assert(s =~= set![0int]);
    } else if positions == Positions::Suffix {
        assert(s =~= set![18 - len]);
    } else if len < 18 {
        assert(s =~= set![0int].insert(18 - len));
    } else {
        assert(s =~= set![0int]);
    }
}

/// The powers of sixteen.
proof fn pow16_is_pow(n: nat)
    ensures
        words::pow16(n) == power::pow(16, n),
        power::pow(16, n) > 0,
    decreases n,
{
    reveal(power::pow);
    if n > 0 {
        pow16_is_pow((n - 1) as nat);
    }
}

/// The probability of a word that fits the window is one in `16` to the power of its
/// length for each offset at which it is looked for. Where it is looked for at both
/// ends and fits in twice, side by side, the case that both match is taken off once.
pub proof fn odds_count_the_offsets(
    len: usize,
    positions: Positions,
    inner_min: usize,
    odds: Odds,
)
    requires
        len <= 18,
        call_ensures(words::hit_odds, (len, positions, inner_min), odds),
    ensures
        ({
            let n = looked_at(len as nat, positions, inner_min as int).len();
            let twice = n > 1 && 2 * len <= 18;
            &&& twice ==> odds.numerator * power::pow(16, 2 * len as nat) == (n * power::pow(16, len as nat) - 1)
                * power::pow(16, odds.exponent as nat)
            &&& !twice ==> odds.numerator * power::pow(16, len as nat) == n * power::pow(
                16,
                odds.exponent as nat,
            )
        }),
{
    offsets_counted(len as nat, positions, inner_min as int);
    pow16_is_pow(len as nat);
    pow16_is_pow(2 * len as nat);
}

/// Inside the window a word has `19 - len` offsets, for each length below the full
/// window that the inner minimum lets in.
pub proof fn odds_inside_the_window(
    len: usize,
    positions: Positions,
    inner_min: usize,
    odds: Odds,
)
    requires
        positions == Positions::Any,
        inner_min <= len < 18,
        call_ensures(words::hit_odds, (len, positions, inner_min), odds),
    ensures
        2 * len <= 18 ==> odds.numerator * power::pow(16, 2 * len as nat) == ((19 - len) * power::pow(
            16,
            len as nat,
        ) - 1) * power::pow(16, odds.exponent as nat),
        2 * len > 18 ==> odds.numerator * power::pow(16, len as nat) == (19 - len) * power::pow(
            16,
            odds.exponent as nat,
        ),
{
    offsets_counted(len as nat, positions, inner_min as int);
    odds_count_the_offsets(len, positions, inner_min, odds);
}

/// A word longer than the window has the odds of its ends, one or both.
pub proof fn odds_beyond_the_window(
    len: usize,
    positions: Positions,
    inner_min: usize,
    odds: Odds,
)
    requires
        len > 18,
        positions == Positions::Any ==> len < inner_min,
        call_ensures(words::hit_odds, (len, positions, inner_min), odds),
    ensures
        odds.exponent == len,
        odds.numerator == (if positions == Positions::Prefix || positions == Positions::Suffix {
            1int
        } else {
            2int
        }),
{
}

/// More offsets never make a word rarer: looking at both ends beats one end, and
/// looking everywhere beats both ends.
pub proof fn more_offsets_are_better(
    len: usize,
    inner_min: usize,
    one: Odds,
    ends: Odds,
    any: Odds,
)
    requires
        len <= 18,
        call_ensures(words::hit_odds, (len, Positions::Prefix, inner_min), one),
        call_ensures(words::hit_odds, (len, Positions::Ends, inner_min), ends),
        call_ensures(words::hit_odds, (len, Positions::Any, inner_min), any),
    ensures
        one.numerator * power::pow(16, ends.exponent as nat) <= ends.numerator * power::pow(
            16,
            one.exponent as nat,
        ),
        ends.numerator * power::pow(16, any.exponent as nat) <= any.numerator * power::pow(
            16,
            ends.exponent as nat,
        ),
{
    let l = len as nat;
    pow16_is_pow(l);
    pow16_is_pow(2 * l);
    let p = power::pow(16, l);
    power::lemma_pow_adds(16, l, l);
    assert(power::pow(16, 2 * l) == p * p);
    assert(p * p <= (2 * p - 1) * p) by (nonlinear_arith)
        requires
            p >= 1,
    ;
    let (x, y) = (power::pow(16, ends.exponent as nat), power::pow(16, one.exponent as nat));
    let (e, o) = (ends.numerator as int, one.numerator as int);
    assert(o == 1);
    assert(o * x == x) by (nonlinear_arith)
        requires
            o == 1,
    ;
    if len == 18 {
        assert(e == 1 && x == y);
        assert(e * y == y) by (nonlinear_arith)
            requires
                e == 1,
        ;
    } else if 2 * len <= 18 {
        assert(e == 2 * p - 1 && y == p && x == p * p);
        assert(e * y == (2 * p - 1) * p) by (nonlinear_arith)
            requires
                e == 2 * p - 1,
                y == p,
        ;
    } else {
        assert(e == 2 && x == p && y == p);
    }
    let m = if len >= inner_min {
        19 - len
    } else {
        2int
    };
    if len < 18 {
        assert(2 * p - 1 <= m * p - 1) by (nonlinear_arith)
            requires
                m >= 2,
                p >= 1,
        ;
        assert((2 * p - 1) * power::pow(16, 2 * l) <= (m * p - 1) * power::pow(16, 2 * l)) by (nonlinear_arith)
            requires
                2 * p - 1 <= m * p - 1,
                power::pow(16, 2 * l) > 0,
        ;
        assert(2 * p <= m * p) by (nonlinear_arith)
            requires
                m >= 2,
                p >= 1,
        ;
    }
}

} // verus!
