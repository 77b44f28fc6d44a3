//! Decimal numerals: encoding an unsigned integer as ASCII digits and parsing
//! it back, with a proof that parsing inverts encoding.

use vstd::prelude::*;
use vstd::arithmetic::div_mod::lemma_fundamental_div_mod;

verus! {

/// The ASCII digit for a value below ten.
pub open spec fn digit_byte(d: nat) -> u8
    recommends
        d < 10,
{
    (0x30 + d) as u8
}

/// Whether a byte is an ASCII decimal digit.
pub open spec fn is_digit(b: u8) -> bool {
    0x30 <= b <= 0x39
}

/// The value of an ASCII decimal digit.
pub open spec fn digit_val(b: u8) -> nat
    recommends
        is_digit(b),
{
    (b - 0x30) as nat
}

/// The decimal numeral of `n`, most significant digit first, no leading
/// zeros (`0` is the single digit `0`).
pub open spec fn spec_digits(n: nat) -> Seq<u8>
    decreases n,
{
    if n < 10 {
        seq![digit_byte(n)]
    } else {
        spec_digits(n / 10).push(digit_byte(n % 10))
    }
}

/// Greedy digit parse with an accumulator; fails on a value above
/// `u64::MAX`. Stops at the first non-digit byte.
pub open spec fn spec_parse_digits(s: Seq<u8>, i: int, acc: nat) -> Option<(u64, int)>
    recommends
        0 <= i <= s.len(),
        acc <= u64::MAX,
    decreases s.len() - i,
{
    if 0 <= i < s.len() && is_digit(s[i]) {
        let v = acc * 10 + digit_val(s[i]);
        if v <= u64::MAX {
            spec_parse_digits(s, i + 1, v)
        } else {
            None
        }
    } else {
        Some((acc as u64, i))
    }
}

/// A decimal numeral at position `i`: at least one digit, value at most
/// `u64::MAX`, ending before the first non-digit byte.
pub open spec fn spec_parse_u64(s: Seq<u8>, i: int) -> Option<(u64, int)> {
    if 0 <= i < s.len() && is_digit(s[i]) {
        spec_parse_digits(s, i, 0)
    } else {
        None
    }
}

/// Ten to the `k`.
pub open spec fn pow10(k: nat) -> nat
    decreases k,
{
    if k == 0 {
        1
    } else {
        10 * pow10((k - 1) as nat)
    }
}

/// The value of the digit bytes `s[i..j)`, most significant first.
pub open spec fn val_digits(s: Seq<u8>, i: int, j: int) -> nat
    decreases j - i,
{
    if j <= i {
        0
    } else {
        val_digits(s, i, j - 1) * 10 + digit_val(s[j - 1])
    }
}

pub proof fn lemma_pow10_pos(k: nat)
    ensures
        pow10(k) >= 1,
    decreases k,
{
    if k > 0 {
        lemma_pow10_pos((k - 1) as nat);
    }
}

/// Every byte of a numeral is a digit, and a numeral is never empty.
pub proof fn lemma_spec_digits_are_digits(n: nat)
    ensures
        spec_digits(n).len() >= 1,
        forall|k: int| 0 <= k < spec_digits(n).len() ==> is_digit(#[trigger] spec_digits(n)[k]),
    decreases n,
{
    if n >= 10 {
        lemma_spec_digits_are_digits(n / 10);
    }
}

/// Peeling the first digit off a digit string.
proof fn lemma_val_digits_front(s: Seq<u8>, i: int, j: int)
    requires
        0 <= i < j <= s.len(),
    ensures
        val_digits(s, i, j) == digit_val(s[i]) * pow10((j - i - 1) as nat) + val_digits(
            s,
            i + 1,
            j,
        ),
    decreases j - i,
{
    let d = digit_val(s[i]);
    if j == i + 1 {
        assert(val_digits(s, i, j) == val_digits(s, i, i) * 10 + digit_val(s[j - 1]));
        assert(val_digits(s, i, i) == 0);
        assert(val_digits(s, i + 1, j) == 0);
        assert(pow10(0) == 1);
        assert(d * 1 == d) by (nonlinear_arith);
    } else {
        lemma_val_digits_front(s, i, j - 1);
        let p = pow10((j - i - 2) as nat);
        let dj = digit_val(s[j - 1]);
        let tail = val_digits(s, i + 1, j - 1);
        assert(val_digits(s, i, j) == val_digits(s, i, j - 1) * 10 + dj);
        assert(val_digits(s, i + 1, j) == tail * 10 + dj);
        assert(val_digits(s, i, j - 1) == d * p + tail);
        assert(pow10((j - i - 1) as nat) == 10 * p);
        assert((d * p + tail) * 10 + dj == d * (10 * p) + (tail * 10 + dj)) by (nonlinear_arith);
    }
}

/// The digit bytes of `n` evaluate back to `n`.
proof fn lemma_val_of_spec_digits(n: nat, s: Seq<u8>, i: int)
    requires
        0 <= i,
        i + spec_digits(n).len() <= s.len(),
        s.subrange(i, i + spec_digits(n).len()) == spec_digits(n),
    ensures
        val_digits(s, i, i + spec_digits(n).len()) == n,
    decreases n,
{
    let len = spec_digits(n).len() as int;
    if n < 10 {
        assert(s[i] == s.subrange(i, i + len)[0]);
        assert(val_digits(s, i, i + 1) == val_digits(s, i, i) * 10 + digit_val(s[i]));
    } else {
        let head = spec_digits(n / 10);
        assert(forall|k: int| 0 <= k < len ==> s[i + k] == #[trigger] spec_digits(n)[k]) by {
            assert(forall|k: int|
                0 <= k < len ==> s.subrange(i, i + len)[k] == #[trigger] spec_digits(n)[k]);
        }
        assert(s.subrange(i, i + head.len()) =~= head);
        lemma_val_of_spec_digits(n / 10, s, i);
        assert(s[i + len - 1] == spec_digits(n)[len - 1]);
        assert(digit_val(s[i + len - 1]) == n % 10);
        assert(val_digits(s, i, i + len) == val_digits(s, i, i + len - 1) * 10 + digit_val(
            s[i + len - 1],
        ));
        lemma_fundamental_div_mod(n as int, 10);
    }
}

/// A run of digits over `[i, j)`, with the run's value small enough, parses
/// to that value combined with the accumulator.
proof fn lemma_parse_digit_run(s: Seq<u8>, i: int, j: int, acc: nat)
    requires
        0 <= i <= j <= s.len(),
        forall|k: int| i <= k < j ==> is_digit(#[trigger] s[k]),
        j == s.len() || !is_digit(s[j]),
        acc * pow10((j - i) as nat) + val_digits(s, i, j) <= u64::MAX,
    ensures
        spec_parse_digits(s, i, acc) == Some(
            ((acc * pow10((j - i) as nat) + val_digits(s, i, j)) as u64, j),
        ),
    decreases j - i,
{
    if i == j {
        assert(pow10(0) == 1);
        assert(acc * 1 == acc) by (nonlinear_arith);
        assert(val_digits(s, i, j) == 0);
    } else {
        let d = digit_val(s[i]);
        let v = acc * 10 + d;
        let p = pow10((j - i - 1) as nat);
        lemma_val_digits_front(s, i, j);
        lemma_pow10_pos((j - i - 1) as nat);
        assert(pow10((j - i) as nat) == 10 * p);
        assert(val_digits(s, i, j) == d * p + val_digits(s, i + 1, j));
        assert((acc * 10 + d) * p == acc * (10 * p) + d * p) by (nonlinear_arith);
        assert(v * p + val_digits(s, i + 1, j) == acc * pow10((j - i) as nat) + val_digits(
            s,
            i,
            j,
        ));
        assert(v <= v * p) by (nonlinear_arith)
            requires
                p >= 1,
                v >= 0,
        ;
        assert(v <= u64::MAX);
        assert(is_digit(s[i]));
        lemma_parse_digit_run(s, i + 1, j, v);
        assert(spec_parse_digits(s, i, acc) == spec_parse_digits(s, i + 1, v));
    }
}

/// Parsing inverts encoding: the numeral of `n` at position `i`, followed by
/// a non-digit byte (or the end), parses to exactly `n`.
pub proof fn lemma_parse_spec_digits(n: u64, s: Seq<u8>, i: int)
    requires
        0 <= i,
        i + spec_digits(n as nat).len() <= s.len(),
        s.subrange(i, i + spec_digits(n as nat).len()) == spec_digits(n as nat),
        i + spec_digits(n as nat).len() == s.len() || !is_digit(
            s[i + spec_digits(n as nat).len()],
        ),
    ensures
        spec_parse_u64(s, i) == Some((n, i + spec_digits(n as nat).len())),
{
    let len = spec_digits(n as nat).len() as int;
    let j = i + len;
    lemma_spec_digits_are_digits(n as nat);
    assert(forall|k: int| 0 <= k < len ==> s[i + k] == #[trigger] spec_digits(n as nat)[k]) by {
        assert(forall|k: int|
            0 <= k < len ==> s.subrange(i, i + len)[k] == #[trigger] spec_digits(n as nat)[k]);
    }
    assert(forall|k: int| i <= k < j ==> is_digit(#[trigger] s[k])) by {
        assert(forall|k: int| i <= k < j ==> s[k] == spec_digits(n as nat)[k - i]);
    }
    lemma_val_of_spec_digits(n as nat, s, i);
    assert(pow10(0) == 1);
    lemma_parse_digit_run(s, i, j, 0);
    assert(s[i] == spec_digits(n as nat)[0]);
}

/// Encode `n` as its decimal numeral.
pub fn encode_u64(n: u64) -> (r: Vec<u8>)
    ensures
        r@ == spec_digits(n as nat),
{
    let mut out: Vec<u8> = Vec::new();
    let mut m: u64 = n;
    while m >= 10
        invariant
            spec_digits(n as nat) == spec_digits(m as nat) + out@,
        decreases m,
    {
        let ghost pre = out@;
        let d: u8 = 0x30 + (m % 10) as u8;
        out.insert(0, d);
        proof {
            assert(out@ =~= seq![digit_byte((m % 10) as nat)] + pre);
            assert(spec_digits(m as nat) == spec_digits((m / 10) as nat).push(
                digit_byte((m % 10) as nat),
            ));
            assert(spec_digits((m / 10) as nat) + out@ =~= spec_digits(m as nat) + pre);
        }
        m = m / 10;
    }
    let ghost before = out@;
    let d: u8 = 0x30 + m as u8;
    out.insert(0, d);
    proof {
        assert(spec_digits(m as nat) =~= seq![digit_byte(m as nat)]);
        assert(out@ =~= spec_digits(m as nat) + before);
        assert(out@ =~= spec_digits(n as nat));
    }
    out
}

/// Parse a decimal numeral at position `i`; `None` when no digit starts
/// there or the value exceeds `u64::MAX`.
pub fn parse_u64(s: &Vec<u8>, i: usize) -> (r: Option<(u64, usize)>)
    ensures
        match r {
            Some((v, j)) => spec_parse_u64(s@, i as int) == Some((v, j as int)) && i < j
                <= s.len(),
            None => spec_parse_u64(s@, i as int) is None,
        },
{
    if i >= s.len() || s[i] < 0x30 || s[i] > 0x39 {
        return None;
    }
    let mut j: usize = i;
    let mut acc: u64 = 0;
    while j < s.len() && 0x30 <= s[j] && s[j] <= 0x39
        invariant
            i <= j <= s.len(),
            i < s.len() && is_digit(s@[i as int]),
            spec_parse_digits(s@, i as int, 0) == spec_parse_digits(s@, j as int, acc as nat),
        decreases s.len() - j,
    {
        let d: u64 = (s[j] - 0x30) as u64;
        if acc > (u64::MAX - d) / 10 {
            proof {
                assert(acc * 10 + d > u64::MAX) by (nonlinear_arith)
                    requires
                        acc > (u64::MAX - d) / 10,
                        0 <= d <= 9,
                ;
            }
            return None;
        }
        proof {
            assert(acc * 10 + d <= u64::MAX) by (nonlinear_arith)
                requires
                    acc <= (u64::MAX - d) / 10,
                    0 <= d <= 9,
            ;
        }
        acc = acc * 10 + d;
        j = j + 1;
    }
    proof {
        assert(j > i);
    }
    Some((acc, j))
}

} // verus!
