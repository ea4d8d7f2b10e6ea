//! A byte-level model of UTF-8 encoding.
//!
//! Names come from the operating system as raw bytes, so the engine decides
//! for itself whether a name is validly encoded and where the character
//! boundaries lie.  `valid_up_to` captures greedy left-to-right decoding:
//! the index of the first byte at which decoding fails, or the length of the
//! sequence when every byte is consumed.

use vstd::prelude::*;

verus! {

/// Is `b` a continuation byte (`10xxxxxx`)?
pub open spec fn is_cont(b: u8) -> bool {
    0x80 <= b && b <= 0xBF
}

/// Byte length of the validly encoded character starting at index `i` of `s`,
/// or 0 when no valid character starts there (malformed bytes, an overlong
/// form, a surrogate, a value past the last code point, or a character that
/// would run past the end of `s`).
pub open spec fn char_len_at(s: Seq<u8>, i: int) -> int {
    if i < 0 || i >= s.len() {
        0
    } else {
        let b0 = s[i];
        if b0 < 0x80 {
            1
        } else if 0xC2 <= b0 && b0 <= 0xDF {
            if i + 2 <= s.len() && is_cont(s[i + 1]) {
                2
            } else {
                0
            }
        } else if b0 == 0xE0 {
            if i + 3 <= s.len() && 0xA0 <= s[i + 1] && s[i + 1] <= 0xBF && is_cont(s[i + 2]) {
                3
            } else {
                0
            }
        } else if b0 == 0xED {
            if i + 3 <= s.len() && 0x80 <= s[i + 1] && s[i + 1] <= 0x9F && is_cont(s[i + 2]) {
                3
            } else {
                0
            }
        } else if 0xE1 <= b0 && b0 <= 0xEF {
            if i + 3 <= s.len() && is_cont(s[i + 1]) && is_cont(s[i + 2]) {
                3
            } else {
                0
            }
        } else if b0 == 0xF0 {
            if i + 4 <= s.len() && 0x90 <= s[i + 1] && s[i + 1] <= 0xBF && is_cont(s[i + 2])
                && is_cont(s[i + 3]) {
                4
            } else {
                0
            }
        } else if 0xF1 <= b0 && b0 <= 0xF3 {
            if i + 4 <= s.len() && is_cont(s[i + 1]) && is_cont(s[i + 2]) && is_cont(s[i + 3]) {
                4
            } else {
                0
            }
        } else if b0 == 0xF4 {
            if i + 4 <= s.len() && 0x80 <= s[i + 1] && s[i + 1] <= 0x8F && is_cont(s[i + 2])
                && is_cont(s[i + 3]) {
                4
            } else {
                0
            }
        } else {
            0
        }
    }
}

/// Greedy decoding of `s` starting at index `i`: the index of the first byte
/// at or after `i` where decoding fails, or `s.len()` when it reaches the end.
pub open spec fn valid_up_to_from(s: Seq<u8>, i: int) -> int
    decreases s.len() - i when 0 <= i <= s.len()
{
    if i < 0 || i >= s.len() {
        i
    } else {
        let n = char_len_at(s, i);
        if n > 0 {
            valid_up_to_from(s, i + n)
        } else {
            i
        }
    }
}

/// The length of the longest prefix of `s` that greedy decoding accepts.
pub open spec fn valid_up_to(s: Seq<u8>) -> int {
    valid_up_to_from(s, 0)
}

/// Is `s` valid UTF-8 from end to end?
pub open spec fn is_utf8(s: Seq<u8>) -> bool {
    valid_up_to(s) == s.len()
}

/// Greedy decoding never moves backwards: the failure point is at or after
/// the starting index.
pub proof fn lemma_valid_up_to_ge(s: Seq<u8>, i: int)
    requires
        0 <= i <= s.len(),
    ensures
        valid_up_to_from(s, i) >= i,
    decreases s.len() - i,
{
    if i < s.len() {
        let n = char_len_at(s, i);
        if n > 0 {
            lemma_valid_up_to_ge(s, i + n);
        }
    }
}

/// Greedy decoding never runs past the end of the sequence.
pub proof fn lemma_valid_up_to_le(s: Seq<u8>, i: int)
    requires
        0 <= i <= s.len(),
    ensures
        valid_up_to_from(s, i) <= s.len(),
    decreases s.len() - i,
{
    if i < s.len() {
        let n = char_len_at(s, i);
        if n > 0 {
            lemma_valid_up_to_le(s, i + n);
        }
    }
}

/// Cutting `s` at its own failure point does not disturb the decoding of the
/// bytes before it: the prefix decodes to its full length.
pub proof fn lemma_valid_up_to_take(s: Seq<u8>, i: int, v: int)
    requires
        0 <= i <= v <= s.len(),
        valid_up_to_from(s, i) == v,
    ensures
        valid_up_to_from(s.take(v), i) == v,
    decreases v - i,
{
    if i == v {
        assert(s.take(v).len() == v);
    } else {
        let n = char_len_at(s, i);
        assert(n > 0);
        lemma_valid_up_to_ge(s, i + n);
        assert(char_len_at(s.take(v), i) == n);
        lemma_valid_up_to_take(s, i + n, v);
    }
}

/// The longest cleanly decoding prefix of `s` is itself valid UTF-8.
pub proof fn lemma_prefix_valid(s: Seq<u8>)
    ensures
        is_utf8(s.take(valid_up_to(s))),
{
    lemma_valid_up_to_ge(s, 0);
    lemma_valid_up_to_le(s, 0);
    lemma_valid_up_to_take(s, 0, valid_up_to(s));
}

/// Where greedy decoding of `s` fails, computed by one left-to-right pass.
pub fn valid_up_to_exec(s: &Vec<u8>) -> (r: usize)
    ensures
        r as int == valid_up_to(s@),
        r <= s.len(),
{
    let n = s.len();
    let mut i: usize = 0;
    while i < n
        invariant
            i <= n,
            n == s@.len(),
            valid_up_to(s@) == valid_up_to_from(s@, i as int),
        decreases n - i,
    {
        let b0 = s[i];
        let step: usize = if b0 < 0x80 {
            1
        } else if 0xC2 <= b0 && b0 <= 0xDF {
            if n - i >= 2 && 0x80 <= s[i + 1] && s[i + 1] <= 0xBF {
                2
            } else {
                0
            }
        } else if b0 == 0xE0 {
            if n - i >= 3 && 0xA0 <= s[i + 1] && s[i + 1] <= 0xBF && 0x80 <= s[i + 2]
                && s[i + 2] <= 0xBF {
                3
            } else {
                0
            }
        } else if b0 == 0xED {
            if n - i >= 3 && 0x80 <= s[i + 1] && s[i + 1] <= 0x9F && 0x80 <= s[i + 2]
                && s[i + 2] <= 0xBF {
                3
            } else {
                0
            }
        } else if 0xE1 <= b0 && b0 <= 0xEF {
            if n - i >= 3 && 0x80 <= s[i + 1] && s[i + 1] <= 0xBF && 0x80 <= s[i + 2]
                && s[i + 2] <= 0xBF {
                3
            } else {
                0
            }
        } else if b0 == 0xF0 {
            if n - i >= 4 && 0x90 <= s[i + 1] && s[i + 1] <= 0xBF && 0x80 <= s[i + 2]
                && s[i + 2] <= 0xBF && 0x80 <= s[i + 3] && s[i + 3] <= 0xBF {
                4
            } else {
                0
            }
        } else if 0xF1 <= b0 && b0 <= 0xF3 {
            if n - i >= 4 && 0x80 <= s[i + 1] && s[i + 1] <= 0xBF && 0x80 <= s[i + 2]
                && s[i + 2] <= 0xBF && 0x80 <= s[i + 3] && s[i + 3] <= 0xBF {
                4
            } else {
                0
            }
        } else if b0 == 0xF4 {
            if n - i >= 4 && 0x80 <= s[i + 1] && s[i + 1] <= 0x8F && 0x80 <= s[i + 2]
                && s[i + 2] <= 0xBF && 0x80 <= s[i + 3] && s[i + 3] <= 0xBF {
                4
            } else {
                0
            }
        } else {
            0
        };
        if step == 0 {
            assert(char_len_at(s@, i as int) == 0);
            return i;
        }
        assert(char_len_at(s@, i as int) == step as int);
        i = i + step;
    }
    i
}

} // verus!
