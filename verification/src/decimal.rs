//! Decimal notation of unsigned integers: rendering, used for ports and IPv4
//! octets, and reading digit runs back, used to parse IPv4 literals.

use vstd::prelude::*;
use vstd::arithmetic::div_mod::lemma_fundamental_div_mod_converse_div;
use vstd::arithmetic::div_mod::lemma_fundamental_div_mod_converse_mod;
use vstd::string::StringExecFns;

verus! {

/// The character for one decimal digit.
pub open spec fn digit_char(d: nat) -> char
    recommends
        d < 10,
{
    if d == 0 {
        '0'
    } else if d == 1 {
        '1'
    } else if d == 2 {
        '2'
    } else if d == 3 {
        '3'
    } else if d == 4 {
        '4'
    } else if d == 5 {
        '5'
    } else if d == 6 {
        '6'
    } else if d == 7 {
        '7'
    } else if d == 8 {
        '8'
    } else {
        '9'
    }
}

/// The decimal representation of `n`: most significant digit first, no leading
/// zeros (`0` is written as the single digit `0`).
pub open spec fn dec_digits(n: nat) -> Seq<char>
    decreases n,
{
    if n < 10 {
        seq![digit_char(n)]
    } else {
        dec_digits(n / 10) + seq![digit_char(n % 10)]
    }
}

fn digit_str(d: u64) -> (r: &'static str)
    requires
        d < 10,
    ensures
        r@ == seq![digit_char(d as nat)],
{
    proof {
        reveal_strlit("0");
        reveal_strlit("1");
        reveal_strlit("2");
        reveal_strlit("3");
        reveal_strlit("4");
        reveal_strlit("5");
        reveal_strlit("6");
        reveal_strlit("7");
        reveal_strlit("8");
        reveal_strlit("9");
    }
    let r = match d {
        0 => "0",
        1 => "1",
        2 => "2",
        3 => "3",
        4 => "4",
        5 => "5",
        6 => "6",
        7 => "7",
        8 => "8",
        _ => "9",
    };
    proof {
        assert(r@ =~= seq![digit_char(d as nat)]);
    }
    r
}

/// Whether `c` is a decimal digit.
pub open spec fn is_digit_char(c: char) -> bool {
    '0' <= c && c <= '9'
}

/// The numeric value of one digit character.
pub open spec fn digit_value(c: char) -> nat
    recommends
        is_digit_char(c),
{
    ((c as u32) - 48) as nat
}

/// The numeric value of a run of digit characters, most significant first.
pub open spec fn digits_value(t: Seq<char>) -> nat
    decreases t.len(),
{
    if t.len() == 0 {
        0
    } else {
        digits_value(t.drop_last()) * 10 + digit_value(t.last())
    }
}

/// Writing a digit and reading it back are inverse.
pub proof fn lemma_digit_roundtrip(d: nat)
    requires
        d < 10,
    ensures
        is_digit_char(digit_char(d)),
        digit_value(digit_char(d)) == d,
{
}

/// Reading a digit character and writing it again are inverse.
pub proof fn lemma_char_roundtrip(c: char)
    requires
        is_digit_char(c),
    ensures
        digit_value(c) < 10,
        digit_char(digit_value(c)) == c,
{
}

/// What `dec_digits` writes: at least one character, all digits, the value it
/// was given, and no leading zero.
pub proof fn lemma_dec_digits_value(n: nat)
    ensures
        dec_digits(n).len() >= 1,
        forall|i: int| 0 <= i < dec_digits(n).len() ==> is_digit_char(#[trigger] dec_digits(n)[i]),
        digits_value(dec_digits(n)) == n,
        n >= 1 ==> dec_digits(n)[0] != '0',
    decreases n,
{
    if n < 10 {
        lemma_digit_roundtrip(n);
        assert(dec_digits(n) == seq![digit_char(n)]);
        assert(dec_digits(n).drop_last() =~= Seq::<char>::empty());
        assert(digits_value(Seq::<char>::empty()) == 0);
    } else {
        lemma_dec_digits_value(n / 10);
        lemma_digit_roundtrip(n % 10);
        let prefix = dec_digits(n / 10);
        let whole = dec_digits(n);
        assert(whole == prefix + seq![digit_char(n % 10)]);
        assert(whole.drop_last() =~= prefix);
        assert(whole.last() == digit_char(n % 10));
        assert(digits_value(whole) == (n / 10) * 10 + (n % 10));
        assert((n / 10) * 10 + (n % 10) == n) by {
            vstd::arithmetic::div_mod::lemma_fundamental_div_mod(n as int, 10);
        }
        assert(whole[0] == prefix[0]);
    }
}

/// How many digits `dec_digits` writes for small values.
pub proof fn lemma_dec_digits_len(n: nat)
    ensures
        dec_digits(n).len() >= 1,
        n < 10 ==> dec_digits(n).len() == 1,
        10 <= n < 100 ==> dec_digits(n).len() == 2,
        100 <= n < 1000 ==> dec_digits(n).len() == 3,
    decreases n,
{
    if n >= 10 {
        lemma_dec_digits_len(n / 10);
    }
}

/// A digit run without a leading zero reads back as a positive value.
pub proof fn lemma_digits_value_pos(t: Seq<char>)
    requires
        t.len() >= 1,
        forall|i: int| 0 <= i < t.len() ==> is_digit_char(#[trigger] t[i]),
        t[0] != '0',
    ensures
        digits_value(t) >= 1,
    decreases t.len(),
{
    if t.len() == 1 {
        assert(digit_value(t[0]) >= 1);
    } else {
        lemma_digits_value_pos(t.drop_last());
    }
}

/// Decimal notation is unique: a digit run without a leading zero is exactly
/// what `dec_digits` writes for its value.
pub proof fn lemma_digits_value_unique(t: Seq<char>)
    requires
        t.len() >= 1,
        forall|i: int| 0 <= i < t.len() ==> is_digit_char(#[trigger] t[i]),
        t.len() > 1 ==> t[0] != '0',
    ensures
        dec_digits(digits_value(t)) == t,
    decreases t.len(),
{
    if t.len() == 1 {
        lemma_char_roundtrip(t[0]);
        assert(t.drop_last() =~= Seq::<char>::empty());
        assert(digits_value(Seq::<char>::empty()) == 0);
        assert(digits_value(t) == digit_value(t[0]));
        assert(dec_digits(digits_value(t)) =~= t);
    } else {
        let u = t.drop_last();
        let d = digit_value(t.last());
        lemma_digits_value_unique(u);
        lemma_digits_value_pos(u);
        let v = digits_value(t);
        assert(v == digits_value(u) * 10 + d);
        assert(d < 10);
        lemma_fundamental_div_mod_converse_div(v as int, 10, digits_value(u) as int, d as int);
        lemma_fundamental_div_mod_converse_mod(v as int, 10, digits_value(u) as int, d as int);
        assert(v >= 10);
        assert(dec_digits(v) == dec_digits(v / 10) + seq![digit_char(v % 10)]);
        assert(digit_char(d) == t.last());
        assert(dec_digits(v) =~= t);
    }
}

/// Short digit runs read back as small values.
pub proof fn lemma_digits_value_small(t: Seq<char>)
    requires
        forall|i: int| 0 <= i < t.len() ==> is_digit_char(#[trigger] t[i]),
    ensures
        t.len() == 0 ==> digits_value(t) == 0,
        t.len() <= 1 ==> digits_value(t) <= 9,
        t.len() <= 2 ==> digits_value(t) <= 99,
        t.len() <= 3 ==> digits_value(t) <= 999,
    decreases t.len(),
{
    if t.len() > 0 {
        lemma_digits_value_small(t.drop_last());
        assert(digit_value(t.last()) <= 9);
    }
}

/// The end of the run of digit characters that starts at `i`.
pub open spec fn digit_run(t: Seq<char>, i: int) -> int
    recommends
        0 <= i <= t.len(),
    decreases t.len() - i,
{
    if i < t.len() && is_digit_char(t[i]) {
        digit_run(t, i + 1)
    } else {
        i
    }
}

/// `digit_run` finds exactly the boundary where the digits stop.
pub proof fn lemma_digit_run_is(t: Seq<char>, i: int, j: int)
    requires
        0 <= i <= j <= t.len(),
        forall|k: int| i <= k < j ==> is_digit_char(#[trigger] t[k]),
        j == t.len() || !is_digit_char(t[j]),
    ensures
        digit_run(t, i) == j,
    decreases j - i,
{
    if i < j {
        lemma_digit_run_is(t, i + 1, j);
    }
}

/// Everything before `digit_run`'s answer is a digit, and what follows is not.
pub proof fn lemma_digit_run_bounds(t: Seq<char>, i: int)
    requires
        0 <= i <= t.len(),
    ensures
        i <= digit_run(t, i) <= t.len(),
        forall|k: int| i <= k < digit_run(t, i) ==> is_digit_char(#[trigger] t[k]),
        digit_run(t, i) == t.len() || !is_digit_char(t[digit_run(t, i)]),
    decreases t.len() - i,
{
    if i < t.len() && is_digit_char(t[i]) {
        lemma_digit_run_bounds(t, i + 1);
    }
}

/// Writes `n` in decimal.
pub fn u64_to_decimal(n: u64) -> (r: String)
    ensures
        r@ == dec_digits(n as nat),
    decreases n,
{
    if n < 10 {
        digit_str(n).to_owned()
    } else {
        let prefix = u64_to_decimal(n / 10);
        let r = prefix.concat(digit_str(n % 10));
        proof {
            assert(r@ =~= dec_digits(n as nat));
        }
        r
    }
}

} // verus!
