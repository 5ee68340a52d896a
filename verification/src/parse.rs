//! The wire-format reader: specification-level parsers over character
//! sequences, and executable mirrors over character vectors.
//!
//! A specification parser takes the remaining input as a `Seq<char>` and
//! returns the parsed value together with the rest of the input, or a
//! `DecodeErr`. The executable parsers walk a `Vec<char>` by index and are
//! proved to agree with the specification parsers on the corresponding
//! suffix.

use vstd::prelude::*;
use crate::chars::{is_ws, is_digit, is_hex, hex_val, ex_is_ws, ex_is_digit, ex_hex_val};
use crate::err::DecodeErr;
use crate::intdec::{digits_val, all_digits, lemma_digits_val_prefix, lemma_digits_val_nonneg};
use crate::numtok::{
    num_end, is_num_token, is_num_char, digits_end, int_part_end, frac_part_end, exp_part_end,
    scan_number, scan_int_shaped, lemma_digits_end_bounds, lemma_num_end_bounds,
    int_shaped, canon_num, is_canon_token, lemma_canon_token,
};
use crate::number::Number;
use crate::strutil::chars_to_string;

verus! {

/// The rest of the input after leading whitespace.
pub open spec fn sp_ws(s: Seq<char>) -> Seq<char>
    decreases s.len(),
{
    if s.len() > 0 && is_ws(s[0]) {
        sp_ws(s.drop_first())
    } else {
        s
    }
}

/// Expects exactly the character `c` in front.
pub open spec fn sp_char(s: Seq<char>, c: char) -> Result<Seq<char>, DecodeErr> {
    if s.len() > 0 && s[0] == c {
        Ok(s.drop_first())
    } else {
        Err(DecodeErr::Syntax)
    }
}

/// The character for a simple backslash escape, if the letter names one.
pub open spec fn unesc_simple(c: char) -> Option<char> {
    if c == '"' {
        Some('"')
    } else if c == '\\' {
        Some('\\')
    } else if c == '/' {
        Some('/')
    } else if c == 'b' {
        Some('\u{8}')
    } else if c == 'f' {
        Some('\u{c}')
    } else if c == 'n' {
        Some('\n')
    } else if c == 'r' {
        Some('\r')
    } else if c == 't' {
        Some('\t')
    } else {
        None
    }
}

/// Value of four hexadecimal digits, most significant first.
pub open spec fn hex4(s: Seq<char>) -> int {
    hex_val(s[0]) * 4096 + hex_val(s[1]) * 256 + hex_val(s[2]) * 16 + hex_val(s[3])
}

/// A Unicode scalar value: a code point that is not a surrogate.
pub open spec fn is_scalar(v: int) -> bool {
    0 <= v < 0xD800 || 0xE000 <= v < 0x110000
}

/// A high (leading) surrogate code unit.
pub open spec fn is_high_surrogate(v: int) -> bool {
    0xD800 <= v < 0xDC00
}

/// A low (trailing) surrogate code unit.
pub open spec fn is_low_surrogate(v: int) -> bool {
    0xDC00 <= v < 0xE000
}

/// The scalar value of a surrogate pair.
pub open spec fn combine_surrogates(hi: int, lo: int) -> int {
    0x10000 + (hi - 0xD800) * 0x400 + (lo - 0xDC00)
}

/// The body of a JSON string after the opening quote: the decoded content
/// and the rest after the closing quote. Accepts the simple escapes and
/// `\uXXXX` for a scalar value; rejects unescaped control characters.
pub open spec fn sp_str_body(s: Seq<char>) -> Result<(Seq<char>, Seq<char>), DecodeErr>
    decreases s.len(),
{
    if s.len() == 0 {
        Err(DecodeErr::Syntax)
    } else if s[0] == '"' {
        Ok((Seq::empty(), s.drop_first()))
    } else if s[0] == '\\' {
        if s.len() < 2 {
            Err(DecodeErr::Syntax)
        } else if s[1] == 'u' {
            if s.len() < 6 {
                Err(DecodeErr::Syntax)
            } else if is_hex(s[2]) && is_hex(s[3]) && is_hex(s[4]) && is_hex(s[5]) {
                let v = hex4(s.subrange(2, 6));
                if is_scalar(v) {
                    match sp_str_body(s.skip(6)) {
                        Ok((c, r)) => Ok((seq![(v as u32) as char] + c, r)),
                        Err(e) => Err(e),
                    }
                } else if is_high_surrogate(v) {
                    if s.len() >= 12 && s[6] == '\\' && s[7] == 'u'
                        && is_hex(s[8]) && is_hex(s[9]) && is_hex(s[10]) && is_hex(s[11])
                        && is_low_surrogate(hex4(s.subrange(8, 12))) {
                        let w = combine_surrogates(v, hex4(s.subrange(8, 12)));
                        match sp_str_body(s.skip(12)) {
                            Ok((c, r)) => Ok((seq![(w as u32) as char] + c, r)),
                            Err(e) => Err(e),
                        }
                    } else {
                        Err(DecodeErr::Syntax)
                    }
                } else {
                    Err(DecodeErr::Syntax)
                }
            } else {
                Err(DecodeErr::Syntax)
            }
        } else {
            match unesc_simple(s[1]) {
                Some(c0) => match sp_str_body(s.skip(2)) {
                    Ok((c, r)) => Ok((seq![c0] + c, r)),
                    Err(e) => Err(e),
                },
                None => Err(DecodeErr::Syntax),
            }
        }
    } else if (s[0] as u32) < 0x20 {
        Err(DecodeErr::Syntax)
    } else {
        match sp_str_body(s.drop_first()) {
            Ok((c, r)) => Ok((seq![s[0]] + c, r)),
            Err(e) => Err(e),
        }
    }
}

/// A quoted JSON string: content and rest.
pub open spec fn sp_string(s: Seq<char>) -> Result<(Seq<char>, Seq<char>), DecodeErr> {
    match sp_char(s, '"') {
        Ok(r) => sp_str_body(r),
        Err(e) => Err(e),
    }
}

/// A JSON number token: the token text and the rest.
pub open spec fn sp_num_token(s: Seq<char>) -> Result<(Seq<char>, Seq<char>), DecodeErr> {
    match num_end(s, 0) {
        Some(e) => Ok((s.subrange(0, e), s.skip(e))),
        None => Err(DecodeErr::Syntax),
    }
}

/// A number token in canonical form: the token as scanned, except that
/// an integer-shaped token gains `.0`, as the wire format writes
/// floating-point values.
pub open spec fn sp_number(s: Seq<char>) -> Result<(Seq<char>, Seq<char>), DecodeErr> {
    match sp_num_token(s) {
        Ok((t, r)) => Ok((canon_num(t), r)),
        Err(e) => Err(e),
    }
}

/// A number token that denotes an integer (no fraction, no exponent),
/// as its mathematical value.
pub open spec fn sp_int(s: Seq<char>) -> Result<(int, Seq<char>), DecodeErr> {
    match sp_num_token(s) {
        Ok((t, r)) => if t.len() > 0 && t[0] == '-' {
            if all_digits(t.skip(1)) {
                Ok((-digits_val(t.skip(1)), r))
            } else {
                Err(DecodeErr::Syntax)
            }
        } else {
            if all_digits(t) {
                Ok((digits_val(t), r))
            } else {
                Err(DecodeErr::Syntax)
            }
        },
        Err(e) => Err(e),
    }
}

pub open spec fn in_i32(v: int) -> bool {
    -0x8000_0000 <= v <= 0x7FFF_FFFF
}

/// An integer member bounded to the range of `i32`.
pub open spec fn sp_int_i32(s: Seq<char>) -> Result<(int, Seq<char>), DecodeErr> {
    match sp_int(s) {
        Ok((v, r)) => if in_i32(v) {
            Ok((v, r))
        } else {
            Err(DecodeErr::IntOutOfRange)
        },
        Err(e) => Err(e),
    }
}

/// An integer member bounded to the range of `u8`.
pub open spec fn sp_int_u8(s: Seq<char>) -> Result<(int, Seq<char>), DecodeErr> {
    match sp_int(s) {
        Ok((v, r)) => if 0 <= v <= 255 {
            Ok((v, r))
        } else {
            Err(DecodeErr::IntOutOfRange)
        },
        Err(e) => Err(e),
    }
}

// ---------------------------------------------------------------------
// consumption facts
// ---------------------------------------------------------------------

pub proof fn lemma_sp_ws_len(s: Seq<char>)
    ensures
        sp_ws(s).len() <= s.len(),
    decreases s.len(),
{
    if s.len() > 0 && is_ws(s[0]) {
        lemma_sp_ws_len(s.drop_first());
    }
}

pub proof fn lemma_sp_str_body_len(s: Seq<char>)
    ensures
        match sp_str_body(s) {
            Ok((c, r)) => r.len() < s.len(),
            Err(e) => true,
        },
    decreases s.len(),
{
    if s.len() == 0 {
    } else if s[0] == '"' {
    } else if s[0] == '\\' {
        if s.len() >= 12 {
            lemma_sp_str_body_len(s.skip(12));
        }
        if s.len() >= 6 {
            lemma_sp_str_body_len(s.skip(6));
        }
        if s.len() >= 2 {
            lemma_sp_str_body_len(s.skip(2));
        }
    } else {
        lemma_sp_str_body_len(s.drop_first());
    }
}

pub proof fn lemma_sp_string_len(s: Seq<char>)
    ensures
        match sp_string(s) {
            Ok((c, r)) => r.len() < s.len(),
            Err(e) => true,
        },
{
    if s.len() > 0 && s[0] == '"' {
        lemma_sp_str_body_len(s.drop_first());
    }
}

pub proof fn lemma_sp_num_token_len(s: Seq<char>)
    ensures
        match sp_num_token(s) {
            Ok((t, r)) => r.len() < s.len() && t.len() >= 1,
            Err(e) => true,
        },
{
    if num_end(s, 0) is Some {
        lemma_num_end_bounds(s, 0);
    }
}

pub proof fn lemma_sp_int_len(s: Seq<char>)
    ensures
        match sp_int(s) {
            Ok((v, r)) => r.len() < s.len(),
            Err(e) => true,
        },
{
    lemma_sp_num_token_len(s);
}

// ---------------------------------------------------------------------
// executable mirrors
// ---------------------------------------------------------------------

/// Skips whitespace from `i`.
pub fn p_ws(s: &Vec<char>, i: usize) -> (j: usize)
    requires
        i <= s@.len(),
    ensures
        i <= j <= s@.len(),
        s@.skip(j as int) == sp_ws(s@.skip(i as int)),
    decreases s@.len() - i,
{
    let ghost t = s@.skip(i as int);
    if i < s.len() && ex_is_ws(s[i]) {
        proof {
            assert(t[0] == s@[i as int]);
            assert(t.drop_first() =~= s@.skip(i + 1 as int));
        }
        p_ws(s, i + 1)
    } else {
        proof {
            if i < s.len() {
                assert(t[0] == s@[i as int]);
            }
        }
        i
    }
}

/// Reads the body of a string after the opening quote.
#[verifier::rlimit(100)]
fn p_str_body(s: &Vec<char>, i: usize) -> (r: Result<(Vec<char>, usize), DecodeErr>)
    requires
        i <= s@.len(),
    ensures
        match r {
            Ok((c, j)) => i <= j <= s@.len()
                && sp_str_body(s@.skip(i as int)) == Ok::<_, DecodeErr>((c@, s@.skip(j as int))),
            Err(e) => sp_str_body(s@.skip(i as int)) == Err::<(Seq<char>, Seq<char>), _>(e),
        },
    decreases s@.len() - i,
{
    let ghost t = s@.skip(i as int);
    proof {
        assert(t.len() == s@.len() - i);
    }
    if i == s.len() {
        return Err(DecodeErr::Syntax);
    }
    let c = s[i];
    proof {
        assert(t[0] == s@[i as int]);
    }
    if c == '"' {
        let out: Vec<char> = Vec::new();
        proof {
            assert(t.drop_first() =~= s@.skip(i + 1 as int));
            assert(out@ =~= Seq::<char>::empty());
        }
        Ok((out, i + 1))
    } else if c == '\\' {
        if i + 1 == s.len() {
            return Err(DecodeErr::Syntax);
        }
        let e = s[i + 1];
        proof {
            assert(t[1] == s@[i + 1 as int]);
        }
        if e == 'u' {
            if s.len() - i < 6 {
                return Err(DecodeErr::Syntax);
            }
            let ghost w = t.subrange(2, 6);
            proof {
                assert(w[0] == s@[i + 2 as int]);
                assert(w[1] == s@[i + 3 as int]);
                assert(w[2] == s@[i + 4 as int]);
                assert(w[3] == s@[i + 5 as int]);
            }
            let h0 = match ex_hex_val(s[i + 2]) {
                Some(v) => v,
                None => { return Err(DecodeErr::Syntax); },
            };
            let h1 = match ex_hex_val(s[i + 3]) {
                Some(v) => v,
                None => { return Err(DecodeErr::Syntax); },
            };
            let h2 = match ex_hex_val(s[i + 4]) {
                Some(v) => v,
                None => { return Err(DecodeErr::Syntax); },
            };
            let h3 = match ex_hex_val(s[i + 5]) {
                Some(v) => v,
                None => { return Err(DecodeErr::Syntax); },
            };
            let v: u32 = h0 * 4096 + h1 * 256 + h2 * 16 + h3;
            proof {
                assert(v == hex4(w));
            }
            proof {
                assert(t.skip(6) =~= s@.skip(i + 6 as int));
            }
            if v < 0xD800 || (0xE000 <= v && v < 0x110000) {
                match p_str_body(s, i + 6) {
                    Ok((cs, j)) => {
                        let mut out: Vec<char> = Vec::new();
                        out.push(crate::strutil::ex_char_of(v));
                        let mut cs = cs;
                        let ghost cs0 = cs@;
                        out.append(&mut cs);
                        proof {
                            assert(t.skip(6) =~= s@.skip(i + 6 as int));
                            assert(0 <= hex4(w) <= 0xFFFF);
                            assert((hex4(w) as u32) == v);
                            assert(out@ =~= seq![(hex4(w) as u32) as char] + cs0);
                        }
                        Ok((out, j))
                    },
                    Err(e2) => Err(e2),
                }
            } else if 0xD800 <= v && v < 0xDC00 {
                if s.len() - i < 12 {
                    return Err(DecodeErr::Syntax);
                }
                let ghost w2 = t.subrange(8, 12);
                proof {
                    assert(t[6] == s@[i + 6 as int]);
                    assert(t[7] == s@[i + 7 as int]);
                    assert(w2[0] == s@[i + 8 as int]);
                    assert(w2[1] == s@[i + 9 as int]);
                    assert(w2[2] == s@[i + 10 as int]);
                    assert(w2[3] == s@[i + 11 as int]);
                }
                if !(s[i + 6] == '\\' && s[i + 7] == 'u') {
                    return Err(DecodeErr::Syntax);
                }
                let g0 = match ex_hex_val(s[i + 8]) {
                    Some(x) => x,
                    None => { return Err(DecodeErr::Syntax); },
                };
                let g1 = match ex_hex_val(s[i + 9]) {
                    Some(x) => x,
                    None => { return Err(DecodeErr::Syntax); },
                };
                let g2 = match ex_hex_val(s[i + 10]) {
                    Some(x) => x,
                    None => { return Err(DecodeErr::Syntax); },
                };
                let g3 = match ex_hex_val(s[i + 11]) {
                    Some(x) => x,
                    None => { return Err(DecodeErr::Syntax); },
                };
                let v2: u32 = g0 * 4096 + g1 * 256 + g2 * 16 + g3;
                proof {
                    assert(v2 == hex4(w2));
                }
                if !(0xDC00 <= v2 && v2 < 0xE000) {
                    return Err(DecodeErr::Syntax);
                }
                let cw: u32 = 0x10000 + (v - 0xD800) * 0x400 + (v2 - 0xDC00);
                proof {
                    assert(cw == combine_surrogates(hex4(w), hex4(w2)));
                    assert(t.skip(12) =~= s@.skip(i + 12 as int));
                }
                match p_str_body(s, i + 12) {
                    Ok((cs, j)) => {
                        let mut out: Vec<char> = Vec::new();
                        out.push(crate::strutil::ex_char_of(cw));
                        let mut cs = cs;
                        let ghost cs0 = cs@;
                        out.append(&mut cs);
                        proof {
                            assert(out@ =~= seq![(combine_surrogates(hex4(w), hex4(w2)) as u32)
                                as char] + cs0);
                        }
                        Ok((out, j))
                    },
                    Err(e2) => Err(e2),
                }
            } else {
                Err(DecodeErr::Syntax)
            }
        } else {
            let c0: char = if e == '"' {
                '"'
            } else if e == '\\' {
                '\\'
            } else if e == '/' {
                '/'
            } else if e == 'b' {
                '\u{8}'
            } else if e == 'f' {
                '\u{c}'
            } else if e == 'n' {
                '\n'
            } else if e == 'r' {
                '\r'
            } else if e == 't' {
                '\t'
            } else {
                return Err(DecodeErr::Syntax);
            };
            proof {
                assert(unesc_simple(t[1]) == Some(c0));
                assert(t.skip(2) =~= s@.skip(i + 2 as int));
            }
            match p_str_body(s, i + 2) {
                Ok((cs, j)) => {
                    let mut out: Vec<char> = Vec::new();
                    out.push(c0);
                    let mut cs = cs;
                    let ghost cs0 = cs@;
                    out.append(&mut cs);
                    proof {
                        assert(t.skip(2) =~= s@.skip(i + 2 as int));
                        assert(out@ =~= seq![c0] + cs0);
                    }
                    Ok((out, j))
                },
                Err(e2) => Err(e2),
            }
        }
    } else if (c as u32) < 0x20 {
        Err(DecodeErr::Syntax)
    } else {
        proof {
            assert(t.drop_first() =~= s@.skip(i + 1 as int));
        }
        match p_str_body(s, i + 1) {
            Ok((cs, j)) => {
                let mut out: Vec<char> = Vec::new();
                out.push(c);
                let mut cs = cs;
                let ghost cs0 = cs@;
                out.append(&mut cs);
                proof {
                    assert(t.drop_first() =~= s@.skip(i + 1 as int));
                    assert(out@ =~= seq![t[0]] + cs0);
                }
                Ok((out, j))
            },
            Err(e2) => Err(e2),
        }
    }
}

/// Reads a quoted string at `i`.
pub fn p_string(s: &Vec<char>, i: usize) -> (r: Result<(String, usize), DecodeErr>)
    requires
        i <= s@.len(),
    ensures
        match r {
            Ok((c, j)) => i <= j <= s@.len()
                && sp_string(s@.skip(i as int)) == Ok::<_, DecodeErr>((c@, s@.skip(j as int))),
            Err(e) => sp_string(s@.skip(i as int)) == Err::<(Seq<char>, Seq<char>), _>(e),
        },
{
    let ghost t = s@.skip(i as int);
    if i < s.len() && s[i] == '"' {
        proof {
            assert(t[0] == s@[i as int]);
            assert(t.drop_first() =~= s@.skip(i + 1 as int));
        }
        match p_str_body(s, i + 1) {
            Ok((c, j)) => Ok((chars_to_string(&c), j)),
            Err(e) => Err(e),
        }
    } else {
        proof {
            if i < s.len() {
                assert(t[0] == s@[i as int]);
            }
        }
        Err(DecodeErr::Syntax)
    }
}

// shift facts connecting index-based scanning to the suffix parsers

proof fn lemma_digits_end_shift(s: Seq<char>, i: int, j: int)
    requires
        0 <= i <= j <= s.len(),
    ensures
        digits_end(s, j) == digits_end(s.skip(i), j - i) + i,
    decreases s.len() - j,
{
    let u = s.skip(i);
    if j < s.len() && is_digit(s[j]) {
        assert(u[j - i] == s[j]);
        lemma_digits_end_shift(s, i, j + 1);
    } else {
        if j < s.len() {
            assert(u[j - i] == s[j]);
        }
    }
}

#[verifier::rlimit(100)]
proof fn lemma_num_end_shift(s: Seq<char>, i: int)
    requires
        0 <= i <= s.len(),
    ensures
        num_end(s, i) == match num_end(s.skip(i), 0) {
            Some(e) => Some(e + i),
            None => None::<int>,
        },
{
    let u = s.skip(i);
    assert(forall|k: int| i <= k < s.len() ==> u[k - i] == s[k]);
    let j = if i < s.len() && s[i] == '-' { i + 1 } else { i };
    let ju = j - i;
    assert(int_part_end(s, j) == match int_part_end(u, ju) {
        Some(k) => Some(k + i),
        None => None::<int>,
    }) by {
        if j < s.len() && is_digit(s[j]) {
            if s[j] != '0' {
                lemma_digits_end_shift(s, i, j);
            }
        }
    }
    if int_part_end(s, j) is Some {
        let k = int_part_end(s, j)->Some_0;
        lemma_digits_end_bounds(u, ju);
        if s[j] == '0' {
        } else {
            lemma_digits_end_shift(s, i, j);
        }
        assert(i <= k <= s.len()) by {
            if j < s.len() && is_digit(s[j]) && s[j] != '0' {
                lemma_digits_end_bounds(s, j);
            }
        }
        assert(frac_part_end(s, k) == match frac_part_end(u, k - i) {
            Some(m) => Some(m + i),
            None => None::<int>,
        }) by {
            if k < s.len() && s[k] == '.' {
                if k + 1 < s.len() && is_digit(s[k + 1]) {
                    lemma_digits_end_shift(s, i, k + 1);
                }
            }
        }
        if frac_part_end(s, k) is Some {
            let m = frac_part_end(s, k)->Some_0;
            assert(i <= m <= s.len()) by {
                if k < s.len() && s[k] == '.' {
                    lemma_digits_end_bounds(s, k + 1);
                }
            }
            assert(exp_part_end(s, m) == match exp_part_end(u, m - i) {
                Some(e) => Some(e + i),
                None => None::<int>,
            }) by {
                if m < s.len() && (s[m] == 'e' || s[m] == 'E') {
                    let j2 = if m + 1 < s.len() && (s[m + 1] == '+' || s[m + 1] == '-') {
                        m + 2
                    } else {
                        m + 1
                    };
                    if j2 < s.len() && is_digit(s[j2]) {
                        lemma_digits_end_shift(s, i, j2);
                    }
                }
            }
        }
    }
}

/// The scan of a number from `i` matches the scan of the suffix.
pub proof fn lemma_num_end_shift_pub(s: Seq<char>, i: int)
    requires
        0 <= i <= s.len(),
    ensures
        num_end(s, i) == match num_end(s.skip(i), 0) {
            Some(e) => Some(e + i),
            None => None::<int>,
        },
{
    lemma_num_end_shift(s, i);
}

/// Reads a number token at `i` as a `Number`.
pub fn p_number(s: &Vec<char>, i: usize) -> (r: Result<(Number, usize), DecodeErr>)
    requires
        i <= s@.len(),
    ensures
        match r {
            Ok((n, j)) => i <= j <= s@.len()
                && sp_number(s@.skip(i as int)) == Ok::<_, DecodeErr>((n@, s@.skip(j as int))),
            Err(e) => sp_number(s@.skip(i as int)) == Err::<(Seq<char>, Seq<char>), _>(e),
        },
{
    proof {
        lemma_num_end_shift(s@, i as int);
    }
    match scan_number(s, i) {
        Some(e) => {
            let ghost t = s@.skip(i as int);
            let ghost tok = t.subrange(0, e - i);
            proof {
                assert(tok =~= s@.subrange(i as int, e as int));
                assert(t.skip(e - i) =~= s@.skip(e as int));
                lemma_num_end_bounds(t, 0);
                crate::numtok::lemma_num_end_restrict(t, e - i);
                lemma_canon_token(tok);
            }
            let mut v: Vec<char> = Vec::new();
            let mut k: usize = i;
            while k < e
                invariant
                    i <= k <= e <= s@.len(),
                    v@ == s@.subrange(i as int, k as int),
                decreases e - k,
            {
                v.push(s[k]);
                proof {
                    assert(v@ =~= s@.subrange(i as int, k + 1 as int));
                }
                k += 1;
            }
            if scan_int_shaped(s, i, e) {
                v.push('.');
                v.push('0');
                proof {
                    assert(v@ =~= canon_num(tok));
                }
            } else {
                proof {
                    assert(v@ =~= canon_num(tok));
                }
            }
            let n = Number::of_canon(&v);
            Ok((n, e))
        },
        None => Err(DecodeErr::Syntax),
    }
}

/// Value of the digit run `s[lo..hi]`, or `None` where it exceeds
/// `0xFFFF_FFFF`.
fn p_digits_val(s: &Vec<char>, lo: usize, hi: usize) -> (r: Option<u64>)
    requires
        lo <= hi <= s@.len(),
        all_digits(s@.subrange(lo as int, hi as int)),
    ensures
        match r {
            Some(v) => v == digits_val(s@.subrange(lo as int, hi as int)),
            None => digits_val(s@.subrange(lo as int, hi as int)) > 0xFFFF_FFFF,
        },
{
    let ghost t = s@.subrange(lo as int, hi as int);
    let mut acc: u64 = 0;
    let mut k: usize = lo;
    while k < hi
        invariant
            lo <= k <= hi <= s@.len(),
            t == s@.subrange(lo as int, hi as int),
            all_digits(t),
            acc == digits_val(t.subrange(0, k - lo)),
            acc <= 0xFFFF_FFFF,
        decreases hi - k,
    {
        proof {
            assert(t[k - lo] == s@[k as int]);
        }
        let d = crate::chars::ex_digit_val(s[k]);
        let acc2: u64 = acc * 10 + (d as u64);
        proof {
            let p = t.subrange(0, k - lo);
            let q = t.subrange(0, k + 1 - lo);
            assert(q.drop_last() =~= p);
            assert(q.last() == t[k - lo]);
            assert(acc2 == digits_val(q));
        }
        if acc2 > 0xFFFF_FFFF {
            proof {
                lemma_digits_val_prefix(t, k + 1 - lo);
            }
            return None;
        }
        acc = acc2;
        k += 1;
    }
    proof {
        assert(t.subrange(0, (hi - lo) as int) =~= t);
    }
    Some(acc)
}

/// Checks that every character of `s[lo..hi]` is a digit.
fn p_all_digits(s: &Vec<char>, lo: usize, hi: usize) -> (r: bool)
    requires
        lo <= hi <= s@.len(),
    ensures
        r == all_digits(s@.subrange(lo as int, hi as int)),
{
    let ghost t = s@.subrange(lo as int, hi as int);
    let mut k: usize = lo;
    while k < hi
        invariant
            lo <= k <= hi <= s@.len(),
            t == s@.subrange(lo as int, hi as int),
            forall|m: int| 0 <= m < k - lo ==> is_digit(t[m]),
        decreases hi - k,
    {
        proof {
            assert(t[k - lo] == s@[k as int]);
        }
        if !ex_is_digit(s[k]) {
            return false;
        }
        k += 1;
    }
    true
}

/// Reads an integer member at `i`, bounded to `i32`.
pub fn p_int_i32(s: &Vec<char>, i: usize) -> (r: Result<(i32, usize), DecodeErr>)
    requires
        i <= s@.len(),
    ensures
        match r {
            Ok((v, j)) => i <= j <= s@.len()
                && sp_int_i32(s@.skip(i as int)) == Ok::<_, DecodeErr>((v as int, s@.skip(j as int))),
            Err(e) => sp_int_i32(s@.skip(i as int)) == Err::<(int, Seq<char>), _>(e),
        },
{
    proof {
        lemma_num_end_shift(s@, i as int);
    }
    let ghost t0 = s@.skip(i as int);
    match scan_number(s, i) {
        Some(e) => {
            let ghost tok = t0.subrange(0, e - i);
            proof {
                assert(tok =~= s@.subrange(i as int, e as int));
                assert(t0.skip(e - i) =~= s@.skip(e as int));
                lemma_num_end_bounds(t0, 0);
            }
            let neg = s[i] == '-';
            let lo: usize = if neg { i + 1 } else { i };
            proof {
                assert(tok[0] == s@[i as int]);
                if neg {
                    assert(tok.skip(1) =~= s@.subrange(i + 1 as int, e as int));
                }
            }
            if !p_all_digits(s, lo, e) {
                proof {
                    assert(s@.subrange(lo as int, e as int) =~= if neg { tok.skip(1) } else { tok });
                }
                return Err(DecodeErr::Syntax);
            }
            proof {
                assert(s@.subrange(lo as int, e as int) =~= if neg { tok.skip(1) } else { tok });
            }
            let ghost digits = s@.subrange(lo as int, e as int);
            match p_digits_val(s, lo, e) {
                Some(acc) => {
                    if neg {
                        if acc > 0x8000_0000u64 {
                            return Err(DecodeErr::IntOutOfRange);
                        }
                        let v: i64 = -(acc as i64);
                        Ok((v as i32, e))
                    } else {
                        if acc > 0x7FFF_FFFFu64 {
                            return Err(DecodeErr::IntOutOfRange);
                        }
                        Ok((acc as i32, e))
                    }
                },
                None => {
                    proof {
                        lemma_digits_val_nonneg(digits);
                    }
                    Err(DecodeErr::IntOutOfRange)
                },
            }
        },
        None => Err(DecodeErr::Syntax),
    }
}

/// Reads an integer member at `i`, bounded to `u8`.
pub fn p_int_u8(s: &Vec<char>, i: usize) -> (r: Result<(u8, usize), DecodeErr>)
    requires
        i <= s@.len(),
    ensures
        match r {
            Ok((v, j)) => i <= j <= s@.len()
                && sp_int_u8(s@.skip(i as int)) == Ok::<_, DecodeErr>((v as int, s@.skip(j as int))),
            Err(e) => sp_int_u8(s@.skip(i as int)) == Err::<(int, Seq<char>), _>(e),
        },
{
    proof {
        lemma_num_end_shift(s@, i as int);
    }
    let ghost t0 = s@.skip(i as int);
    match scan_number(s, i) {
        Some(e) => {
            let ghost tok = t0.subrange(0, e - i);
            proof {
                assert(tok =~= s@.subrange(i as int, e as int));
                assert(t0.skip(e - i) =~= s@.skip(e as int));
                lemma_num_end_bounds(t0, 0);
            }
            let neg = s[i] == '-';
            let lo: usize = if neg { i + 1 } else { i };
            proof {
                assert(tok[0] == s@[i as int]);
                if neg {
                    assert(tok.skip(1) =~= s@.subrange(i + 1 as int, e as int));
                }
            }
            if !p_all_digits(s, lo, e) {
                proof {
                    assert(s@.subrange(lo as int, e as int) =~= if neg { tok.skip(1) } else { tok });
                }
                return Err(DecodeErr::Syntax);
            }
            proof {
                assert(s@.subrange(lo as int, e as int) =~= if neg { tok.skip(1) } else { tok });
            }
            let ghost digits = s@.subrange(lo as int, e as int);
            match p_digits_val(s, lo, e) {
                Some(acc) => {
                    if neg {
                        if acc > 0 {
                            return Err(DecodeErr::IntOutOfRange);
                        }
                        Ok((0u8, e))
                    } else {
                        if acc > 255 {
                            return Err(DecodeErr::IntOutOfRange);
                        }
                        Ok((acc as u8, e))
                    }
                },
                None => {
                    proof {
                        lemma_digits_val_nonneg(digits);
                    }
                    Err(DecodeErr::IntOutOfRange)
                },
            }
        },
        None => Err(DecodeErr::Syntax),
    }
}

} // verus!
