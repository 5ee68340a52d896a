//! The JSON number grammar over character sequences, and `Number`, a
//! floating-point literal held as its validated wire text.
//!
//! The data model stores each floating-point quantity as the exact JSON
//! number token that represents it on the wire. Equality of two such
//! quantities is equality of their tokens, and encoding writes the token
//! verbatim, so a value always round-trips through the wire format.

use vstd::prelude::*;
use crate::chars::{is_digit, digit_val, digit_char, ex_is_digit};

verus! {

/// End of a maximal run of decimal digits starting at the front of `s`.
pub open spec fn digits_end(s: Seq<char>, i: int) -> int
    decreases s.len() - i,
{
    if 0 <= i < s.len() && is_digit(s[i]) {
        digits_end(s, i + 1)
    } else {
        i
    }
}

/// Position just after the integer part of a number starting at `i`:
/// either a single `0`, or a nonzero digit followed by more digits.
pub open spec fn int_part_end(s: Seq<char>, i: int) -> Option<int> {
    if 0 <= i < s.len() && is_digit(s[i]) {
        if s[i] == '0' {
            Some(i + 1)
        } else {
            Some(digits_end(s, i))
        }
    } else {
        None
    }
}

/// Position just after the optional fraction part at `i` (`.` digits).
pub open spec fn frac_part_end(s: Seq<char>, i: int) -> Option<int> {
    if 0 <= i < s.len() && s[i] == '.' {
        if i + 1 < s.len() && is_digit(s[i + 1]) {
            Some(digits_end(s, i + 1))
        } else {
            None
        }
    } else {
        Some(i)
    }
}

/// Position just after the optional exponent part at `i`
/// (`e`/`E`, optional sign, digits).
pub open spec fn exp_part_end(s: Seq<char>, i: int) -> Option<int> {
    if 0 <= i < s.len() && (s[i] == 'e' || s[i] == 'E') {
        let j = if i + 1 < s.len() && (s[i + 1] == '+' || s[i + 1] == '-') {
            i + 2
        } else {
            i + 1
        };
        if j < s.len() && is_digit(s[j]) {
            Some(digits_end(s, j))
        } else {
            None
        }
    } else {
        Some(i)
    }
}

/// Position just after a complete JSON number starting at `i`:
/// optional minus sign, integer part, optional fraction, optional exponent.
pub open spec fn num_end(s: Seq<char>, i: int) -> Option<int> {
    let j = if 0 <= i < s.len() && s[i] == '-' { i + 1 } else { i };
    match int_part_end(s, j) {
        Some(k) => match frac_part_end(s, k) {
            Some(m) => exp_part_end(s, m),
            None => None,
        },
        None => None,
    }
}

/// A sequence is exactly one JSON number token.
pub open spec fn is_num_token(t: Seq<char>) -> bool {
    num_end(t, 0) == Some(t.len() as int)
}

/// Characters that can occur in a number token.
pub open spec fn is_num_char(c: char) -> bool {
    is_digit(c) || c == '-' || c == '+' || c == '.' || c == 'e' || c == 'E'
}

pub proof fn lemma_digits_end_bounds(s: Seq<char>, i: int)
    requires
        0 <= i <= s.len(),
    ensures
        i <= digits_end(s, i) <= s.len(),
        forall|k: int| i <= k < digits_end(s, i) ==> is_digit(s[k]),
        digits_end(s, i) < s.len() ==> !is_digit(s[digits_end(s, i)]),
    decreases s.len() - i,
{
    if i < s.len() && is_digit(s[i]) {
        lemma_digits_end_bounds(s, i + 1);
    }
}

pub proof fn lemma_num_end_bounds(s: Seq<char>, i: int)
    requires
        0 <= i <= s.len(),
        num_end(s, i) is Some,
    ensures
        i < num_end(s, i)->Some_0 <= s.len(),
        forall|k: int| i <= k < num_end(s, i)->Some_0 ==> is_num_char(s[k]),
{
    let j = if i < s.len() && s[i] == '-' { i + 1 } else { i };
    let k = int_part_end(s, j)->Some_0;
    lemma_digits_end_bounds(s, j);
    let m = frac_part_end(s, k)->Some_0;
    if k < s.len() && s[k] == '.' {
        lemma_digits_end_bounds(s, k + 1);
    }
    let e = exp_part_end(s, m)->Some_0;
    if m < s.len() && (s[m] == 'e' || s[m] == 'E') {
        let j2 = if m + 1 < s.len() && (s[m + 1] == '+' || s[m + 1] == '-') {
            m + 2
        } else {
            m + 1
        };
        lemma_digits_end_bounds(s, j2);
    }
}

pub proof fn lemma_digits_end_restrict(s: Seq<char>, i: int, e: int)
    requires
        0 <= i <= e <= s.len(),
        digits_end(s, i) <= e,
    ensures
        digits_end(s.subrange(0, e), i) == digits_end(s, i),
    decreases s.len() - i,
{
    let u = s.subrange(0, e);
    if i < s.len() && is_digit(s[i]) {
        lemma_digits_end_bounds(s, i);
        assert(u[i] == s[i]);
        lemma_digits_end_restrict(s, i + 1, e);
    } else {
        if i < e {
            assert(u[i] == s[i]);
        }
    }
}

/// A number token scanned out of a longer text is itself one whole
/// well-formed number token.
pub proof fn lemma_num_end_restrict(s: Seq<char>, e: int)
    requires
        num_end(s, 0) == Some(e),
    ensures
        is_num_token(s.subrange(0, e)),
{
    lemma_num_end_bounds(s, 0);
    let u = s.subrange(0, e);
    assert(forall|k: int| 0 <= k < e ==> u[k] == s[k]);
    let j: int = if 0 < s.len() && s[0] == '-' { 1 } else { 0 };
    assert(int_part_end(s, j) is Some);
    let k = int_part_end(s, j)->Some_0;
    let m = frac_part_end(s, k)->Some_0;
    lemma_frac_exp_bounds(s, k, m, e);
    assert(j < e) by {
        if s[j] == '0' {
        } else {
            lemma_digits_end_bounds(s, j);
        }
    }
    assert(int_part_end(u, j) == Some(k)) by {
        assert(u[j] == s[j]);
        if s[j] == '0' {
        } else {
            lemma_digits_end_bounds(s, j);
            lemma_digits_end_restrict(s, j, e);
        }
    }
    assert(frac_part_end(u, k) == Some(m)) by {
        if k < s.len() && s[k] == '.' {
            lemma_digits_end_bounds(s, k + 1);
            lemma_digits_end_restrict(s, k + 1, e);
        } else {
            if k < e {
                assert(u[k] == s[k]);
            }
        }
    }
    assert(exp_part_end(u, m) == Some(e)) by {
        if m < s.len() && (s[m] == 'e' || s[m] == 'E') {
            let j2 = if m + 1 < s.len() && (s[m + 1] == '+' || s[m + 1] == '-') {
                m + 2
            } else {
                m + 1
            };
            lemma_digits_end_bounds(s, j2);
            lemma_digits_end_restrict(s, j2, e);
        } else {
            if m < e {
                assert(u[m] == s[m]);
            }
        }
    }
}

/// Bounds of the fraction and exponent positions inside a number.
proof fn lemma_frac_exp_bounds(s: Seq<char>, k: int, m: int, e: int)
    requires
        0 <= k <= s.len(),
        frac_part_end(s, k) == Some(m),
        exp_part_end(s, m) == Some(e),
    ensures
        k <= m <= e <= s.len(),
{
    if k < s.len() && s[k] == '.' {
        lemma_digits_end_bounds(s, k + 1);
    }
    if m < s.len() && (s[m] == 'e' || s[m] == 'E') {
        let j2 = if m + 1 < s.len() && (s[m + 1] == '+' || s[m + 1] == '-') {
            m + 2
        } else {
            m + 1
        };
        lemma_digits_end_bounds(s, j2);
    }
}


/// A token of sign and digits alone: the integer shape, which the wire
/// format never writes bare for a floating-point quantity.
pub open spec fn int_shaped(t: Seq<char>) -> bool {
    forall|i: int| 0 <= i < t.len() ==> (is_digit(t[i]) || t[i] == '-')
}

/// The canonical form of a number token: integer-valued floats render
/// with a decimal digit (`0.0`, never `0`); all other tokens stand as
/// they are.
pub open spec fn canon_num(t: Seq<char>) -> Seq<char> {
    if int_shaped(t) {
        t + seq!['.', '0']
    } else {
        t
    }
}

/// A well-formed number token in canonical form.
pub open spec fn is_canon_token(t: Seq<char>) -> bool {
    is_num_token(t) && canon_num(t) == t
}

/// Canonicalizing a well-formed token yields a well-formed canonical
/// token with the same first character.
pub proof fn lemma_canon_token(t: Seq<char>)
    requires
        is_num_token(t),
    ensures
        is_canon_token(canon_num(t)),
        t.len() > 0 && canon_num(t)[0] == t[0],
{
    lemma_num_end_bounds(t, 0);
    if int_shaped(t) {
        let u = t + seq!['.', '0'];
        let n = t.len() as int;
        let j: int = if t[0] == '-' { 1 } else { 0 };
        assert(int_part_end(t, j) is Some);
        let k = int_part_end(t, j)->Some_0;
        let m = frac_part_end(t, k)->Some_0;
        assert(exp_part_end(t, m) == Some(n));
        assert(j <= k <= n) by {
            if t[j] != '0' {
                lemma_digits_end_bounds(t, j);
            }
        }
        assert(k == n) by {
            if k < n {
                if t[j] == '0' {
                    assert(frac_part_end(t, k) == Some(k));
                    assert(exp_part_end(t, k) == Some(k));
                } else {
                    lemma_digits_end_bounds(t, j);
                    assert(!is_digit(t[k]));
                    assert(frac_part_end(t, k) == Some(k));
                    assert(exp_part_end(t, k) == Some(k));
                }
            }
        }
        assert(forall|i: int| 0 <= i < n ==> u[i] == t[i]);
        assert(u[n] == '.');
        assert(u[n + 1] == '0');
        assert(int_part_end(u, j) == Some(n)) by {
            assert(u[j] == t[j]);
            if t[j] == '0' {
            } else {
                lemma_digits_end_bounds(t, j);
                crate::rt::lemma_digits_end_extend(t, seq!['.', '0'], j);
            }
        }
        assert(frac_part_end(u, n) == Some(n + 2)) by {
            assert(is_digit(u[n + 1]));
            assert(digits_end(u, n + 1) == n + 2) by {
                lemma_digits_end_bounds(u, n + 1);
                assert(digits_end(u, n + 2) == n + 2);
            }
        }
        assert(exp_part_end(u, n + 2) == Some(n + 2));
        assert(num_end(u, 0) == Some(u.len() as int));
        assert(!int_shaped(u)) by {
            assert(u[n] == '.');
        }
    }
}

/// Exec test for the integer shape of `s[lo..hi]`.
pub fn scan_int_shaped(s: &Vec<char>, lo: usize, hi: usize) -> (r: bool)
    requires
        lo <= hi <= s@.len(),
    ensures
        r == int_shaped(s@.subrange(lo as int, hi as int)),
{
    let ghost t = s@.subrange(lo as int, hi as int);
    let mut k: usize = lo;
    while k < hi
        invariant
            lo <= k <= hi <= s@.len(),
            t == s@.subrange(lo as int, hi as int),
            forall|m: int| 0 <= m < k - lo ==> (is_digit(t[m]) || t[m] == '-'),
        decreases hi - k,
    {
        proof {
            assert(t[k - lo] == s@[k as int]);
        }
        let c = s[k];
        if !(ex_is_digit(c) || c == '-') {
            return false;
        }
        k += 1;
    }
    true
}

/// Exec mirror of `digits_end` for a character vector.
pub fn scan_digits(s: &Vec<char>, i: usize) -> (j: usize)
    requires
        i <= s@.len(),
    ensures
        j == digits_end(s@, i as int),
        i <= j <= s@.len(),
    decreases s@.len() - i,
{
    if i < s.len() && ex_is_digit(s[i]) {
        scan_digits(s, i + 1)
    } else {
        i
    }
}

/// Exec mirror of `num_end`: the end of a JSON number starting at `i`,
/// or `None` where no well-formed number starts there.
pub fn scan_number(s: &Vec<char>, i: usize) -> (r: Option<usize>)
    requires
        i <= s@.len(),
    ensures
        match r {
            Some(e) => num_end(s@, i as int) == Some(e as int) && i < e <= s@.len(),
            None => num_end(s@, i as int) is None,
        },
{
    let ghost gs = s@;
    let j: usize = if i < s.len() && s[i] == '-' { i + 1 } else { i };
    if !(j < s.len() && ex_is_digit(s[j])) {
        return None;
    }
    let k: usize = if s[j] == '0' { j + 1 } else { scan_digits(s, j) };
    proof { lemma_digits_end_bounds(gs, j as int); }
    let m: usize;
    if k < s.len() && s[k] == '.' {
        if k + 1 < s.len() && ex_is_digit(s[k + 1]) {
            m = scan_digits(s, k + 1);
        } else {
            return None;
        }
    } else {
        m = k;
    }
    proof {
        if (k as int) < gs.len() && gs[k as int] == '.' {
            lemma_digits_end_bounds(gs, k as int + 1);
        }
    }
    if m < s.len() && (s[m] == 'e' || s[m] == 'E') {
        let j2: usize = if m + 1 < s.len() && (s[m + 1] == '+' || s[m + 1] == '-') {
            m + 2
        } else {
            m + 1
        };
        if j2 < s.len() && ex_is_digit(s[j2]) {
            let e = scan_digits(s, j2);
            proof { lemma_digits_end_bounds(gs, j2 as int); }
            Some(e)
        } else {
            None
        }
    } else {
        Some(m)
    }
}

} // verus!
