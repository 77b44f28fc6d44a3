//! Quoted strings in the snapshot documents: escaping of text bytes and the
//! matching parser, with a proof that parsing inverts escaping.
//!
//! A quote or a backslash is escaped with a backslash, a byte below 0x20 as
//! `\u00` and two lowercase hex digits; every other byte stands for itself.

use vstd::prelude::*;
use vstd::arithmetic::div_mod::lemma_fundamental_div_mod;

verus! {

/// The lowercase hex digit for a value below sixteen.
pub open spec fn hex_byte(d: nat) -> u8
    recommends
        d < 16,
{
    if d < 10 {
        (0x30 + d) as u8
    } else {
        (0x57 + d) as u8
    }
}

/// Whether a byte is a lowercase hex digit.
pub open spec fn is_hex(b: u8) -> bool {
    (0x30 <= b <= 0x39) || (0x61 <= b <= 0x66)
}

/// The value of a lowercase hex digit.
pub open spec fn hex_val(b: u8) -> nat
    recommends
        is_hex(b),
{
    if b < 0x40 {
        (b - 0x30) as nat
    } else {
        (b - 0x57) as nat
    }
}

/// The escape sequence of one text byte.
pub open spec fn esc_byte(b: u8) -> Seq<u8> {
    if b == 0x22 {
        seq![0x5c, 0x22]
    } else if b == 0x5c {
        seq![0x5c, 0x5c]
    } else if b < 0x20 {
        seq![0x5c, 0x75, 0x30, 0x30, hex_byte((b / 16) as nat), hex_byte((b % 16) as nat)]
    } else {
        seq![b]
    }
}

/// The escaped form of a text.
pub open spec fn esc(s: Seq<u8>) -> Seq<u8>
    decreases s.len(),
{
    if s.len() == 0 {
        Seq::empty()
    } else {
        esc_byte(s[0]) + esc(s.skip(1))
    }
}

/// Parse the body of a quoted string starting at `i` (the opening quote
/// already consumed): the unescaped text and the position after the closing
/// quote.
pub open spec fn spec_parse_string(s: Seq<u8>, i: int) -> Option<(Seq<u8>, int)>
    decreases s.len() - i,
{
    if i < 0 || i >= s.len() {
        None
    } else if s[i] == 0x22 {
        Some((Seq::empty(), i + 1))
    } else if s[i] == 0x5c {
        if s.len() - i > 1 && (s[i + 1] == 0x22 || s[i + 1] == 0x5c) {
            match spec_parse_string(s, i + 2) {
                Some((t, j)) => Some((seq![s[i + 1]] + t, j)),
                None => None,
            }
        } else if i + 5 < s.len() && s[i + 1] == 0x75 && s[i + 2] == 0x30 && s[i + 3] == 0x30
            && is_hex(s[i + 4]) && is_hex(s[i + 5]) {
            match spec_parse_string(s, i + 6) {
                Some((t, j)) => Some(
                    (seq![(hex_val(s[i + 4]) * 16 + hex_val(s[i + 5])) as u8] + t, j),
                ),
                None => None,
            }
        } else {
            None
        }
    } else if s[i] < 0x20 {
        None
    } else {
        match spec_parse_string(s, i + 1) {
            Some((t, j)) => Some((seq![s[i]] + t, j)),
            None => None,
        }
    }
}

/// Escaping distributes over concatenation.
pub proof fn lemma_esc_add(a: Seq<u8>, b: Seq<u8>)
    ensures
        esc(a + b) == esc(a) + esc(b),
    decreases a.len(),
{
    if a.len() == 0 {
        assert(a + b =~= b);
        assert(esc(a) + esc(b) =~= esc(b));
    } else {
        lemma_esc_add(a.skip(1), b);
        assert((a + b).skip(1) =~= a.skip(1) + b);
        assert((a + b)[0] == a[0]);
        assert(esc(a + b) =~= esc_byte(a[0]) + (esc(a.skip(1)) + esc(b)));
        assert(esc_byte(a[0]) + (esc(a.skip(1)) + esc(b)) =~= (esc_byte(a[0]) + esc(a.skip(1)))
            + esc(b));
    }
}

/// Escaping one more byte appends its escape sequence.
pub proof fn lemma_esc_push(a: Seq<u8>, b: u8)
    ensures
        esc(a.push(b)) == esc(a) + esc_byte(b),
{
    lemma_esc_add(a, seq![b]);
    assert(a.push(b) =~= a + seq![b]);
    assert(seq![b].skip(1) =~= Seq::<u8>::empty());
    assert(esc(seq![b].skip(1)) =~= Seq::<u8>::empty());
    assert(seq![b][0] == b);
    assert(esc(seq![b]) =~= esc_byte(b) + esc(seq![b].skip(1)));
    assert(esc(seq![b]) =~= esc_byte(b));
}

/// Parsing inverts escaping: the escaped text at `i`, followed by the
/// closing quote, parses back to the text.
pub proof fn lemma_parse_esc(t: Seq<u8>, s: Seq<u8>, i: int)
    requires
        0 <= i,
        i + esc(t).len() + 1 <= s.len(),
        s.subrange(i, i + esc(t).len()) == esc(t),
        s[i + esc(t).len()] == 0x22,
    ensures
        spec_parse_string(s, i) == Some((t, i + esc(t).len() + 1)),
    decreases t.len(),
{
    let e = esc(t);
    let j = i + e.len();
    assert(forall|k: int| 0 <= k < e.len() ==> s[i + k] == #[trigger] e[k]) by {
        assert(forall|k: int| 0 <= k < e.len() ==> s.subrange(i, j)[k] == #[trigger] e[k]);
    }
    if t.len() == 0 {
        assert(s[i] == 0x22);
    } else {
        let b = t[0];
        let eb = esc_byte(b);
        let tail = t.skip(1);
        assert(e == eb + esc(tail));
        assert(forall|k: int| 0 <= k < eb.len() ==> s[i + k] == #[trigger] eb[k]) by {
            assert(forall|k: int| 0 <= k < eb.len() ==> #[trigger] eb[k] == e[k]);
        }
        let i2 = i + eb.len();
        assert(forall|k: int|
            0 <= k < esc(tail).len() ==> s[i2 + k] == #[trigger] esc(tail)[k]) by {
            assert(forall|k: int|
                0 <= k < esc(tail).len() ==> #[trigger] esc(tail)[k] == e[eb.len() + k]);
            assert(forall|k: int|
                0 <= k < esc(tail).len() ==> s[i + (eb.len() + k)] == #[trigger] e[eb.len() + k]);
        }
        assert(s.subrange(i2, j) =~= esc(tail));
        lemma_parse_esc(tail, s, i2);
        assert(seq![b] + tail =~= t);
        if b == 0x22 || b == 0x5c {
            assert(s[i] == 0x5c && s[i + 1] == b);
        } else if b < 0x20 {
            assert(s[i] == 0x5c && s[i + 1] == 0x75 && s[i + 2] == 0x30 && s[i + 3] == 0x30);
            assert(s[i + 4] == hex_byte((b / 16) as nat));
            assert(s[i + 5] == hex_byte((b % 16) as nat));
            assert(b / 16 < 2);
            assert(is_hex(s[i + 4]) && hex_val(s[i + 4]) == b / 16);
            assert(is_hex(s[i + 5]) && hex_val(s[i + 5]) == b % 16);
            lemma_fundamental_div_mod(b as int, 16);
            assert(hex_val(s[i + 4]) * 16 + hex_val(s[i + 5]) == b);
        } else {
            assert(s[i] == b);
        }
    }
}

/// Append the escape sequence of one byte.
fn push_esc_byte(out: &mut Vec<u8>, b: u8)
    ensures
        final(out)@ == old(out)@ + esc_byte(b),
{
    if b == 0x22 {
        out.push(0x5c);
        out.push(0x22);
        proof {
            assert(out@ =~= old(out)@ + esc_byte(b));
        }
    } else if b == 0x5c {
        out.push(0x5c);
        out.push(0x5c);
        proof {
            assert(out@ =~= old(out)@ + esc_byte(b));
        }
    } else if b < 0x20 {
        out.push(0x5c);
        out.push(0x75);
        out.push(0x30);
        out.push(0x30);
        let hi = b / 16;
        let lo = b % 16;
        out.push(if hi < 10 { 0x30 + hi } else { 0x57 + hi });
        out.push(if lo < 10 { 0x30 + lo } else { 0x57 + lo });
        proof {
            assert(out@ =~= old(out)@ + esc_byte(b));
        }
    } else {
        out.push(b);
        proof {
            assert(out@ =~= old(out)@ + esc_byte(b));
        }
    }
}

/// Append the escaped form of a text.
pub fn append_escaped(out: &mut Vec<u8>, text: &Vec<u8>)
    ensures
        final(out)@ == old(out)@ + esc(text@),
{
    let n = text.len();
    for i in 0..n
        invariant
            n == text.len(),
            out@ == old(out)@ + esc(text@.take(i as int)),
    {
        let ghost pre = out@;
        push_esc_byte(out, text[i]);
        proof {
            assert(text@.take(i as int).push(text@[i as int]) =~= text@.take(i as int + 1));
            lemma_esc_push(text@.take(i as int), text@[i as int]);
            assert(out@ =~= old(out)@ + (esc(text@.take(i as int)) + esc_byte(text@[i as int])));
        }
    }
    proof {
        assert(text@.take(n as int) =~= text@);
    }
}

/// Parse a quoted string body at `i`; on success the unescaped text and the
/// position after the closing quote.
pub fn parse_string(s: &Vec<u8>, i: usize) -> (r: Option<(Vec<u8>, usize)>)
    ensures
        match r {
            Some((t, j)) => spec_parse_string(s@, i as int) == Some((t@, j as int)) && i < j
                <= s.len(),
            None => spec_parse_string(s@, i as int) is None,
        },
    decreases s@.len() - i,
{
    if i >= s.len() {
        return None;
    }
    let b = s[i];
    if b == 0x22 {
        let t: Vec<u8> = Vec::new();
        proof {
            assert(t@ =~= Seq::<u8>::empty());
        }
        return Some((t, i + 1));
    }
    if b == 0x5c {
        if s.len() - i > 1 && (s[i + 1] == 0x22 || s[i + 1] == 0x5c) {
            match parse_string(s, i + 2) {
                Some((mut t, j)) => {
                    let ghost tv = t@;
                    t.insert(0, s[i + 1]);
                    proof {
                        assert(t@ =~= seq![s@[i as int + 1]] + tv);
                    }
                    return Some((t, j));
                },
                None => {
                    return None;
                },
            }
        }
        if s.len() - i > 5 && s[i + 1] == 0x75 && s[i + 2] == 0x30 && s[i + 3] == 0x30 {
            let h1 = s[i + 4];
            let h2 = s[i + 5];
            let hex1 = (0x30 <= h1 && h1 <= 0x39) || (0x61 <= h1 && h1 <= 0x66);
            let hex2 = (0x30 <= h2 && h2 <= 0x39) || (0x61 <= h2 && h2 <= 0x66);
            if hex1 && hex2 {
                let v1: u8 = if h1 < 0x40 { h1 - 0x30 } else { h1 - 0x57 };
                let v2: u8 = if h2 < 0x40 { h2 - 0x30 } else { h2 - 0x57 };
                let decoded: u8 = v1 * 16 + v2;
                match parse_string(s, i + 6) {
                    Some((mut t, j)) => {
                        let ghost tv = t@;
                        t.insert(0, decoded);
                        proof {
                            assert(t@ =~= seq![decoded] + tv);
                        }
                        return Some((t, j));
                    },
                    None => {
                        return None;
                    },
                }
            }
            return None;
        }
        return None;
    }
    if b < 0x20 {
        return None;
    }
    match parse_string(s, i + 1) {
        Some((mut t, j)) => {
            let ghost tv = t@;
            t.insert(0, b);
            proof {
                assert(t@ =~= seq![b] + tv);
            }
            Some((t, j))
        },
        None => None,
    }
}

} // verus!
