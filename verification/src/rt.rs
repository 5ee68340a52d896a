//! Inversion facts: reading back what the writer produced.
//!
//! Each lemma shows that a specification parser, applied to an encoded
//! fragment followed by arbitrary further text, returns exactly the value
//! that was encoded and leaves exactly that further text.

use vstd::prelude::*;
use crate::chars::{is_digit, lemma_hex_char_val, hex_char};
use crate::err::DecodeErr;
use crate::escape::{esc_char, escape, enc_string};
use crate::intdec::{
    digits_val, all_digits, dec_digits, dec_int, lemma_dec_digits,
};
use crate::numtok::{
    num_end, is_num_token, is_num_char, digits_end, int_part_end, frac_part_end, exp_part_end,
    lemma_digits_end_bounds, lemma_num_end_bounds,
};
use crate::parse::{
    sp_ws, sp_char, sp_str_body, sp_string, sp_num_token, sp_number, sp_int, sp_int_i32,
    sp_int_u8, unesc_simple, hex4, is_scalar, in_i32,
};

verus! {

/// Reading a string body: unescaping undoes escaping.
pub proof fn lemma_str_body_rt(content: Seq<char>, rest: Seq<char>)
    ensures
        sp_str_body(escape(content) + seq!['"'] + rest)
            == Ok::<_, DecodeErr>((content, rest)),
    decreases content.len(),
{
    let u = escape(content) + seq!['"'] + rest;
    if content.len() == 0 {
        assert(escape(content) =~= Seq::<char>::empty());
        assert(u =~= seq!['"'] + rest);
        assert(u[0] == '"');
        assert(u.drop_first() =~= rest);
        assert(content =~= Seq::<char>::empty());
    } else {
        let c = content[0];
        let cs = content.drop_first();
        lemma_str_body_rt(cs, rest);
        let tail = escape(cs) + seq!['"'] + rest;
        assert(escape(content) == esc_char(c) + escape(cs));
        assert(u =~= esc_char(c) + tail);
        if c == '"' || c == '\\' {
            assert(u[0] == '\\');
            assert(u[1] == c);
            assert(unesc_simple(c) == Some(c));
            assert(u.skip(2) =~= tail);
            assert(seq![c] + cs =~= content);
        } else if c == '\u{8}' || c == '\t' || c == '\n' || c == '\u{c}' || c == '\r' {
            let e: char = if c == '\u{8}' { 'b' }
                else if c == '\t' { 't' }
                else if c == '\n' { 'n' }
                else if c == '\u{c}' { 'f' }
                else { 'r' };
            assert(esc_char(c) =~= seq!['\\', e]);
            assert(u[0] == '\\');
            assert(u[1] == e);
            assert(unesc_simple(e) == Some(c));
            assert(u.skip(2) =~= tail);
            assert(seq![c] + cs =~= content);
        } else if (c as u32) < 0x20 {
            let v = c as u32 as int;
            assert(esc_char(c) =~= seq!['\\', 'u', '0', '0', hex_char(v / 16), hex_char(v % 16)]);
            assert(u[0] == '\\');
            assert(u[1] == 'u');
            assert(u.len() >= 6);
            let w = u.subrange(2, 6);
            assert(w[0] == '0');
            assert(w[1] == '0');
            assert(w[2] == hex_char(v / 16));
            assert(w[3] == hex_char(v % 16));
            lemma_hex_char_val(0);
            lemma_hex_char_val(v / 16);
            lemma_hex_char_val(v % 16);
            assert(hex4(w) == (v / 16) * 16 + v % 16);
            assert(hex4(w) == v);
            assert(is_scalar(v));
            assert(u.skip(6) =~= tail);
            vstd::utf8::char_u32_cast(c, c as u32);
            assert((v as u32) as char == c);
            assert(seq![c] + cs =~= content);
        } else {
            assert(esc_char(c) =~= seq![c]);
            assert(u[0] == c);
            assert(u.drop_first() =~= tail);
            assert(seq![c] + cs =~= content);
        }
    }
}

/// Characters that escaping leaves unchanged.
pub open spec fn plain_chars(s: Seq<char>) -> bool {
    forall|i: int| 0 <= i < s.len() ==> s[i] != '"' && s[i] != '\\' && (s[i] as u32) >= 0x20
}

/// Escaping is the identity on plain text.
pub proof fn lemma_escape_plain(s: Seq<char>)
    requires
        plain_chars(s),
    ensures
        escape(s) == s,
    decreases s.len(),
{
    if s.len() == 0 {
        assert(escape(s) =~= s);
    } else {
        assert(plain_chars(s.drop_first()));
        lemma_escape_plain(s.drop_first());
        assert(esc_char(s[0]) =~= seq![s[0]]);
        assert(escape(s) =~= s);
    }
}

/// Reading a whole encoded string.
pub proof fn lemma_string_rt(content: Seq<char>, rest: Seq<char>)
    ensures
        sp_string(enc_string(content) + rest) == Ok::<_, DecodeErr>((content, rest)),
{
    let u = enc_string(content) + rest;
    assert(u[0] == '"');
    assert(u.drop_first() =~= escape(content) + seq!['"'] + rest);
    lemma_str_body_rt(content, rest);
}

/// A digit run keeps its end when text starting with a non-digit follows.
pub proof fn lemma_digits_end_extend(t: Seq<char>, rest: Seq<char>, i: int)
    requires
        0 <= i <= t.len(),
        digits_end(t, i) == t.len() ==> (rest.len() == 0 || !is_digit(rest[0])),
    ensures
        digits_end(t + rest, i) == digits_end(t, i),
    decreases t.len() - i,
{
    let u = t + rest;
    lemma_digits_end_bounds(t, i);
    if i < t.len() && is_digit(t[i]) {
        assert(u[i] == t[i]);
        lemma_digits_end_extend(t, rest, i + 1);
    } else if i < t.len() {
        assert(u[i] == t[i]);
    } else {
        if rest.len() > 0 {
            assert(u[i] == rest[0]);
        }
    }
}

/// A whole number token keeps its end when a delimiter follows.
pub proof fn lemma_num_end_extend(t: Seq<char>, rest: Seq<char>)
    requires
        is_num_token(t),
        rest.len() > 0,
        !is_num_char(rest[0]),
    ensures
        num_end(t + rest, 0) == Some(t.len() as int),
{
    let u = t + rest;
    lemma_num_end_bounds(t, 0);
    assert(forall|k: int| 0 <= k < t.len() ==> u[k] == t[k]);
    let j: int = if t[0] == '-' { 1 } else { 0 };
    assert(int_part_end(t, j) is Some);
    let k = int_part_end(t, j)->Some_0;
    let m = frac_part_end(t, k)->Some_0;
    assert(exp_part_end(t, m) == Some(t.len() as int));
    assert(int_part_end(u, j) == Some(k)) by {
        assert(u[j] == t[j]);
        if t[j] == '0' {
        } else {
            lemma_digits_end_bounds(t, j);
            lemma_digits_end_extend(t, rest, j);
        }
    }
    assert(k <= t.len()) by {
        if t[j] != '0' {
            lemma_digits_end_bounds(t, j);
        }
    }
    assert(frac_part_end(u, k) == Some(m)) by {
        if k < t.len() && t[k] == '.' {
            lemma_digits_end_bounds(t, k + 1);
            lemma_digits_end_extend(t, rest, k + 1);
        } else if k < t.len() {
            assert(u[k] == t[k]);
        } else {
            assert(u[k] == rest[0]);
        }
    }
    assert(m <= t.len()) by {
        if k < t.len() && t[k] == '.' {
            lemma_digits_end_bounds(t, k + 1);
        }
    }
    assert(exp_part_end(u, m) == Some(t.len() as int)) by {
        if m < t.len() && (t[m] == 'e' || t[m] == 'E') {
            let j2 = if m + 1 < t.len() && (t[m + 1] == '+' || t[m + 1] == '-') {
                m + 2
            } else {
                m + 1
            };
            assert(u[m] == t[m]);
            if m + 1 < t.len() {
                assert(u[m + 1] == t[m + 1]);
            } else {
                assert(u[m + 1] == rest[0]);
            }
            lemma_digits_end_bounds(t, j2);
            lemma_digits_end_extend(t, rest, j2);
        } else if m < t.len() {
            assert(u[m] == t[m]);
        } else {
            assert(u[m] == rest[0]);
        }
    }
}

/// Reading back an encoded number token.
pub proof fn lemma_num_token_rt(t: Seq<char>, rest: Seq<char>)
    requires
        is_num_token(t),
        rest.len() > 0,
        !is_num_char(rest[0]),
    ensures
        sp_num_token(t + rest) == Ok::<_, DecodeErr>((t, rest)),
{
    lemma_num_end_extend(t, rest);
    let u = t + rest;
    assert(u.subrange(0, t.len() as int) =~= t);
    assert(u.skip(t.len() as int) =~= rest);
}

/// Reading back a canonical number token.
pub proof fn lemma_number_rt(t: Seq<char>, rest: Seq<char>)
    requires
        crate::numtok::is_canon_token(t),
        rest.len() > 0,
        !is_num_char(rest[0]),
    ensures
        sp_number(t + rest) == Ok::<_, DecodeErr>((t, rest)),
{
    lemma_num_token_rt(t, rest);
}

/// A run of digits scans to its end.
pub proof fn lemma_digits_end_all(t: Seq<char>, i: int)
    requires
        0 <= i <= t.len(),
        forall|k: int| i <= k < t.len() ==> is_digit(t[k]),
    ensures
        digits_end(t, i) == t.len(),
    decreases t.len() - i,
{
    if i < t.len() {
        lemma_digits_end_all(t, i + 1);
    }
}

/// Canonical decimal notation is a well-formed number token.
pub proof fn lemma_dec_int_token(n: int)
    ensures
        is_num_token(dec_int(n)),
        forall|k: int| 0 <= k < dec_int(n).len() ==> is_num_char(dec_int(n)[k]),
    decreases if n < 0 { 1int } else { 0int },
{
    if n < 0 {
        let d = dec_digits((-n) as nat);
        let t = dec_int(n);
        lemma_dec_digits((-n) as nat);
        assert(t[0] == '-');
        assert(forall|k: int| 1 <= k < t.len() ==> t[k] == d[k - 1]);
        assert(int_part_end(t, 1) == Some(t.len() as int)) by {
            assert(is_digit(t[1]));
            if t[1] == '0' {
                assert(d[0] == '0');
                assert(-n == 0);
                assert(false);
            }
            lemma_digits_end_all(t, 1);
        }
        assert(frac_part_end(t, t.len() as int) == Some(t.len() as int));
        assert(exp_part_end(t, t.len() as int) == Some(t.len() as int));
    } else {
        let t = dec_int(n);
        lemma_dec_digits(n as nat);
        assert(t == dec_digits(n as nat));
        assert(t[0] != '-');
        assert(int_part_end(t, 0) == Some(t.len() as int)) by {
            if t[0] == '0' {
                assert(n == 0);
                assert(t.len() == 1);
            } else {
                lemma_digits_end_all(t, 0);
            }
        }
        assert(frac_part_end(t, t.len() as int) == Some(t.len() as int));
        assert(exp_part_end(t, t.len() as int) == Some(t.len() as int));
    }
}

/// Reading back an encoded integer.
pub proof fn lemma_int_rt(n: int, rest: Seq<char>)
    requires
        rest.len() > 0,
        !is_num_char(rest[0]),
    ensures
        sp_int(dec_int(n) + rest) == Ok::<_, DecodeErr>((n, rest)),
{
    let t = dec_int(n);
    lemma_dec_int_token(n);
    lemma_num_token_rt(t, rest);
    if n < 0 {
        let d = dec_digits((-n) as nat);
        lemma_dec_digits((-n) as nat);
        assert(t[0] == '-');
        assert(t.skip(1) =~= d);
        assert(all_digits(t.skip(1)));
        assert(digits_val(t.skip(1)) == -n);
    } else {
        lemma_dec_digits(n as nat);
        assert(t =~= dec_digits(n as nat));
        assert(t[0] != '-');
        assert(all_digits(t));
        assert(digits_val(t) == n);
    }
}

/// Reading back an encoded `i32`.
pub proof fn lemma_int_i32_rt(n: int, rest: Seq<char>)
    requires
        in_i32(n),
        rest.len() > 0,
        !is_num_char(rest[0]),
    ensures
        sp_int_i32(dec_int(n) + rest) == Ok::<_, DecodeErr>((n, rest)),
{
    lemma_int_rt(n, rest);
}

/// Reading back an encoded `u8`.
pub proof fn lemma_int_u8_rt(n: int, rest: Seq<char>)
    requires
        0 <= n <= 255,
        rest.len() > 0,
        !is_num_char(rest[0]),
    ensures
        sp_int_u8(dec_int(n) + rest) == Ok::<_, DecodeErr>((n, rest)),
{
    lemma_int_rt(n, rest);
}

/// Whitespace skipping does nothing in front of a non-whitespace head.
pub proof fn lemma_ws_id(s: Seq<char>)
    requires
        s.len() == 0 || !crate::chars::is_ws(s[0]),
    ensures
        sp_ws(s) == s,
{
}

} // verus!
