//! `Color`: an RGBA value with 8-bit channels, its equality and its wire
//! format `{"r":..,"g":..,"b":..,"a":..}`.

use vstd::prelude::*;
use crate::chars::is_ws;
use crate::err::DecodeErr;
use crate::intdec::dec_int;
use crate::parse::{
    sp_ws, sp_char, sp_string, sp_int_u8, p_ws, p_string, p_int_u8,
    lemma_sp_ws_len, lemma_sp_string_len, lemma_sp_int_len,
};
use crate::rt::{lemma_string_rt, lemma_int_u8_rt};
use crate::escape::{enc_string, escape, esc_char};
use crate::strutil::{push_lit, str_to_chars, chars_to_string};

verus! {

/// An RGBA color; each channel is bounded by its 8-bit storage alone.
#[derive(Clone, Copy, PartialEq, Eq, Structural, Debug)]
pub struct Color {
    pub r: u8,
    pub g: u8,
    pub b: u8,
    pub a: u8,
}

impl Color {
    /// A color from its four channels, taken verbatim.
    pub fn new(r: u8, g: u8, b: u8, a: u8) -> (c: Color)
        ensures
            c == (Color { r, g, b, a }),
    {
        Color { r, g, b, a }
    }
}

/// The wire text of a color.
pub open spec fn enc_color(c: Color) -> Seq<char> {
    seq!['{', '"', 'r', '"', ':'] + dec_int(c.r as int)
        + seq![',', '"', 'g', '"', ':'] + dec_int(c.g as int)
        + seq![',', '"', 'b', '"', ':'] + dec_int(c.b as int)
        + seq![',', '"', 'a', '"', ':'] + dec_int(c.a as int)
        + seq!['}']
}

/// Yields a color when all four channels have been seen.
pub open spec fn sp_color_fin(
    r: Option<int>, g: Option<int>, b: Option<int>, a: Option<int>, rest: Seq<char>,
) -> Result<(Color, Seq<char>), DecodeErr> {
    if r is Some && g is Some && b is Some && a is Some {
        Ok((
            Color {
                r: r->Some_0 as u8,
                g: g->Some_0 as u8,
                b: b->Some_0 as u8,
                a: a->Some_0 as u8,
            },
            rest,
        ))
    } else {
        Err(DecodeErr::MissingField)
    }
}

/// One member of a color object, then the rest of the object.
pub open spec fn sp_color_members(
    s: Seq<char>, r: Option<int>, g: Option<int>, b: Option<int>, a: Option<int>, first: bool,
) -> Result<(Color, Seq<char>), DecodeErr>
    decreases s.len(), 1int,
{
    let s0 = sp_ws(s);
    if s0.len() == 0 {
        Err(DecodeErr::Syntax)
    } else if first && s0[0] == '}' {
        sp_color_fin(r, g, b, a, s0.drop_first())
    } else {
        match sp_string(s0) {
            Ok((key, r1)) => {
                let s1 = sp_ws(r1);
                match sp_char(s1, ':') {
                    Ok(r2) => {
                        let s2 = sp_ws(r2);
                        proof {
                            lemma_sp_ws_len(s);
                            lemma_sp_string_len(s0);
                            lemma_sp_ws_len(r1);
                            lemma_sp_ws_len(r2);
                            lemma_sp_int_len(s2);
                            crate::skip::lemma_sp_skip_value_len(s2);
                        }
                        if key == seq!['r'] {
                            if r is Some {
                                Err(DecodeErr::DuplicateField)
                            } else {
                                match sp_int_u8(s2) {
                                    Ok((v, r3)) => sp_color_after(r3, Some(v), g, b, a),
                                    Err(e) => Err(e),
                                }
                            }
                        } else if key == seq!['g'] {
                            if g is Some {
                                Err(DecodeErr::DuplicateField)
                            } else {
                                match sp_int_u8(s2) {
                                    Ok((v, r3)) => sp_color_after(r3, r, Some(v), b, a),
                                    Err(e) => Err(e),
                                }
                            }
                        } else if key == seq!['b'] {
                            if b is Some {
                                Err(DecodeErr::DuplicateField)
                            } else {
                                match sp_int_u8(s2) {
                                    Ok((v, r3)) => sp_color_after(r3, r, g, Some(v), a),
                                    Err(e) => Err(e),
                                }
                            }
                        } else if key == seq!['a'] {
                            if a is Some {
                                Err(DecodeErr::DuplicateField)
                            } else {
                                match sp_int_u8(s2) {
                                    Ok((v, r3)) => sp_color_after(r3, r, g, b, Some(v)),
                                    Err(e) => Err(e),
                                }
                            }
                        } else {
                            match crate::skip::sp_skip_value(s2) {
                                Ok(r3) => sp_color_after(r3, r, g, b, a),
                                Err(e) => Err(e),
                            }
                        }
                    },
                    Err(e) => Err(e),
                }
            },
            Err(e) => Err(e),
        }
    }
}

/// After a member: a comma and another member, or the closing brace.
pub open spec fn sp_color_after(
    s: Seq<char>, r: Option<int>, g: Option<int>, b: Option<int>, a: Option<int>,
) -> Result<(Color, Seq<char>), DecodeErr>
    decreases s.len(), 0int,
{
    let s0 = sp_ws(s);
    if s0.len() == 0 {
        Err(DecodeErr::Syntax)
    } else if s0[0] == '}' {
        sp_color_fin(r, g, b, a, s0.drop_first())
    } else if s0[0] == ',' {
        proof {
            lemma_sp_ws_len(s);
        }
        sp_color_members(s0.drop_first(), r, g, b, a, false)
    } else {
        Err(DecodeErr::Syntax)
    }
}

/// A whole color object.
pub open spec fn sp_color(s: Seq<char>) -> Result<(Color, Seq<char>), DecodeErr> {
    match sp_char(sp_ws(s), '{') {
        Ok(r) => sp_color_members(r, None, None, None, None, true),
        Err(e) => Err(e),
    }
}

/// The accumulator view of an exec channel slot.
pub open spec fn u8o(o: Option<u8>) -> Option<int> {
    match o {
        Some(v) => Some(v as int),
        None => None,
    }
}

fn p_color_fin(
    r: Option<u8>, g: Option<u8>, b: Option<u8>, a: Option<u8>, j: usize,
) -> (res: Result<(Color, usize), DecodeErr>)
    ensures
        match res {
            Ok((c, j2)) => j2 == j && sp_color_fin(u8o(r), u8o(g), u8o(b), u8o(a), Seq::empty())
                == Ok::<_, DecodeErr>((c, Seq::<char>::empty())),
            Err(e) => sp_color_fin(u8o(r), u8o(g), u8o(b), u8o(a), Seq::empty())
                == Err::<(Color, Seq<char>), _>(e),
        },
{
    match (r, g, b, a) {
        (Some(r), Some(g), Some(b), Some(a)) => Ok((Color { r, g, b, a }, j)),
        _ => Err(DecodeErr::MissingField),
    }
}

/// Reads the members of a color object.
#[verifier::rlimit(100)]
fn p_color_members(
    s: &Vec<char>, i: usize,
    r: Option<u8>, g: Option<u8>, b: Option<u8>, a: Option<u8>, first: bool,
) -> (res: Result<(Color, usize), DecodeErr>)
    requires
        i <= s@.len(),
    ensures
        match res {
            Ok((c, j)) => i <= j <= s@.len()
                && sp_color_members(s@.skip(i as int), u8o(r), u8o(g), u8o(b), u8o(a), first)
                    == Ok::<_, DecodeErr>((c, s@.skip(j as int))),
            Err(e) => sp_color_members(s@.skip(i as int), u8o(r), u8o(g), u8o(b), u8o(a), first)
                == Err::<(Color, Seq<char>), _>(e),
        },
    decreases s@.len() - i, 1int,
{
    let ghost t = s@.skip(i as int);
    let ghost s0 = sp_ws(t);
    let j0 = p_ws(s, i);
    if j0 == s.len() {
        return Err(DecodeErr::Syntax);
    }
    proof {
        assert(s0[0] == s@[j0 as int]);
    }
    if first && s[j0] == '}' {
        proof {
            assert(s0.drop_first() =~= s@.skip(j0 + 1 as int));
        }
        match p_color_fin(r, g, b, a, j0 + 1) {
            Ok((c, j)) => Ok((c, j)),
            Err(e) => Err(e),
        }
    } else {
        match p_string(s, j0) {
            Ok((key, j1)) => {
                let j2 = p_ws(s, j1);
                let ghost s1 = sp_ws(s@.skip(j1 as int));
                if j2 == s.len() || s[j2] != ':' {
                    proof {
                        if j2 < s.len() {
                            assert(s1[0] == s@[j2 as int]);
                        }
                    }
                    return Err(DecodeErr::Syntax);
                }
                proof {
                    assert(s1[0] == s@[j2 as int]);
                    assert(s1.drop_first() =~= s@.skip(j2 + 1 as int));
                }
                let j3 = p_ws(s, j2 + 1);
                proof {
                    reveal_strlit("r");
                    reveal_strlit("g");
                    reveal_strlit("b");
                    reveal_strlit("a");
                    assert("r"@ =~= seq!['r']);
                    assert("g"@ =~= seq!['g']);
                    assert("b"@ =~= seq!['b']);
                    assert("a"@ =~= seq!['a']);
                }
                if key.eq(&String::from_str("r")) {
                    if r.is_some() {
                        return Err(DecodeErr::DuplicateField);
                    }
                    match p_int_u8(s, j3) {
                        Ok((v, j4)) => p_color_after(s, j4, Some(v), g, b, a),
                        Err(e) => Err(e),
                    }
                } else if key.eq(&String::from_str("g")) {
                    if g.is_some() {
                        return Err(DecodeErr::DuplicateField);
                    }
                    match p_int_u8(s, j3) {
                        Ok((v, j4)) => p_color_after(s, j4, r, Some(v), b, a),
                        Err(e) => Err(e),
                    }
                } else if key.eq(&String::from_str("b")) {
                    if b.is_some() {
                        return Err(DecodeErr::DuplicateField);
                    }
                    match p_int_u8(s, j3) {
                        Ok((v, j4)) => p_color_after(s, j4, r, g, Some(v), a),
                        Err(e) => Err(e),
                    }
                } else if key.eq(&String::from_str("a")) {
                    if a.is_some() {
                        return Err(DecodeErr::DuplicateField);
                    }
                    match p_int_u8(s, j3) {
                        Ok((v, j4)) => p_color_after(s, j4, r, g, b, Some(v)),
                        Err(e) => Err(e),
                    }
                } else {
                    match crate::skip::p_skip_value(s, j3) {
                        Ok(j4) => p_color_after(s, j4, r, g, b, a),
                        Err(e) => Err(e),
                    }
                }
            },
            Err(e) => Err(e),
        }
    }
}

/// Reads what follows a member of a color object.
fn p_color_after(
    s: &Vec<char>, i: usize,
    r: Option<u8>, g: Option<u8>, b: Option<u8>, a: Option<u8>,
) -> (res: Result<(Color, usize), DecodeErr>)
    requires
        i <= s@.len(),
    ensures
        match res {
            Ok((c, j)) => i <= j <= s@.len()
                && sp_color_after(s@.skip(i as int), u8o(r), u8o(g), u8o(b), u8o(a))
                    == Ok::<_, DecodeErr>((c, s@.skip(j as int))),
            Err(e) => sp_color_after(s@.skip(i as int), u8o(r), u8o(g), u8o(b), u8o(a))
                == Err::<(Color, Seq<char>), _>(e),
        },
    decreases s@.len() - i, 0int,
{
    let ghost s0 = sp_ws(s@.skip(i as int));
    let j0 = p_ws(s, i);
    if j0 == s.len() {
        return Err(DecodeErr::Syntax);
    }
    proof {
        assert(s0[0] == s@[j0 as int]);
        assert(s0.drop_first() =~= s@.skip(j0 + 1 as int));
    }
    if s[j0] == '}' {
        match p_color_fin(r, g, b, a, j0 + 1) {
            Ok((c, j)) => Ok((c, j)),
            Err(e) => Err(e),
        }
    } else if s[j0] == ',' {
        p_color_members(s, j0 + 1, r, g, b, a, false)
    } else {
        Err(DecodeErr::Syntax)
    }
}

/// Reads a whole color object at `i`.
pub fn p_color(s: &Vec<char>, i: usize) -> (res: Result<(Color, usize), DecodeErr>)
    requires
        i <= s@.len(),
    ensures
        match res {
            Ok((c, j)) => i <= j <= s@.len()
                && sp_color(s@.skip(i as int)) == Ok::<_, DecodeErr>((c, s@.skip(j as int))),
            Err(e) => sp_color(s@.skip(i as int)) == Err::<(Color, Seq<char>), _>(e),
        },
{
    let ghost s0 = sp_ws(s@.skip(i as int));
    let j0 = p_ws(s, i);
    if j0 < s.len() && s[j0] == '{' {
        proof {
            assert(s0[0] == s@[j0 as int]);
            assert(s0.drop_first() =~= s@.skip(j0 + 1 as int));
        }
        p_color_members(s, j0 + 1, None, None, None, None, true)
    } else {
        proof {
            if j0 < s.len() {
                assert(s0[0] == s@[j0 as int]);
            }
        }
        Err(DecodeErr::Syntax)
    }
}

/// Appends the wire text of a color to `out`.
pub fn push_color(c: &Color, out: &mut Vec<char>)
    ensures
        final(out)@ == old(out)@ + enc_color(*c),
{
    proof {
        reveal_strlit("{\"r\":");
        reveal_strlit(",\"g\":");
        reveal_strlit(",\"b\":");
        reveal_strlit(",\"a\":");
        reveal_strlit("}");
        assert("{\"r\":"@ =~= seq!['{', '"', 'r', '"', ':']);
        assert(",\"g\":"@ =~= seq![',', '"', 'g', '"', ':']);
        assert(",\"b\":"@ =~= seq![',', '"', 'b', '"', ':']);
        assert(",\"a\":"@ =~= seq![',', '"', 'a', '"', ':']);
        assert("}"@ =~= seq!['}']);
    }
    push_lit(out, "{\"r\":");
    crate::intdec::push_i32_dec(c.r as i32, out);
    push_lit(out, ",\"g\":");
    crate::intdec::push_i32_dec(c.g as i32, out);
    push_lit(out, ",\"b\":");
    crate::intdec::push_i32_dec(c.b as i32, out);
    push_lit(out, ",\"a\":");
    crate::intdec::push_i32_dec(c.a as i32, out);
    push_lit(out, "}");
    proof {
        assert(final(out)@ =~= old(out)@ + enc_color(*c));
    }
}

/// The wire tail from the `a` member on: `"a":N}` then `rest`.
pub open spec fn mem_a(c: Color, rest: Seq<char>) -> Seq<char> {
    enc_string(seq!['a']) + seq![':'] + dec_int(c.a as int) + (seq!['}'] + rest)
}

/// The wire tail from the `b` member on.
pub open spec fn mem_b(c: Color, rest: Seq<char>) -> Seq<char> {
    enc_string(seq!['b']) + seq![':'] + dec_int(c.b as int) + (seq![','] + mem_a(c, rest))
}

/// The wire tail from the `g` member on.
pub open spec fn mem_g(c: Color, rest: Seq<char>) -> Seq<char> {
    enc_string(seq!['g']) + seq![':'] + dec_int(c.g as int) + (seq![','] + mem_b(c, rest))
}

/// The wire tail from the `r` member on.
pub open spec fn mem_r(c: Color, rest: Seq<char>) -> Seq<char> {
    enc_string(seq!['r']) + seq![':'] + dec_int(c.r as int) + (seq![','] + mem_g(c, rest))
}

proof fn lemma_color_step_a(c: Color, rest: Seq<char>)
    ensures
        sp_color_members(mem_a(c, rest), Some(c.r as int), Some(c.g as int), Some(c.b as int), None, false)
            == Ok::<_, DecodeErr>((c, rest)),
{
    let u = mem_a(c, rest);
    let close = seq!['}'] + rest;
    crate::rt::lemma_escape_plain(seq!['a']);
    assert(u[0] == '"');
    assert(sp_ws(u) == u);
    lemma_string_rt(seq!['a'], seq![':'] + dec_int(c.a as int) + close);
    assert(u =~= enc_string(seq!['a']) + (seq![':'] + dec_int(c.a as int) + close));
    let t1 = seq![':'] + dec_int(c.a as int) + close;
    assert(t1[0] == ':');
    assert(sp_ws(t1) == t1);
    assert(t1.drop_first() =~= dec_int(c.a as int) + close);
    lemma_int_u8_rt(c.a as int, close);
    assert(sp_ws(dec_int(c.a as int) + close) == dec_int(c.a as int) + close) by {
        crate::rt::lemma_dec_int_token(c.a as int);
        crate::numtok::lemma_num_end_bounds(dec_int(c.a as int), 0);
        assert((dec_int(c.a as int) + close)[0] == dec_int(c.a as int)[0]);
    }
    assert(sp_ws(close) == close);
    assert(close[0] == '}');
    assert(close.drop_first() =~= rest);
}

proof fn lemma_color_step_b(c: Color, rest: Seq<char>)
    ensures
        sp_color_members(mem_b(c, rest), Some(c.r as int), Some(c.g as int), None, None, false)
            == Ok::<_, DecodeErr>((c, rest)),
{
    let u = mem_b(c, rest);
    let after = seq![','] + mem_a(c, rest);
    crate::rt::lemma_escape_plain(seq!['b']);
    assert(u[0] == '"');
    assert(sp_ws(u) == u);
    lemma_string_rt(seq!['b'], seq![':'] + dec_int(c.b as int) + after);
    assert(u =~= enc_string(seq!['b']) + (seq![':'] + dec_int(c.b as int) + after));
    let t1 = seq![':'] + dec_int(c.b as int) + after;
    assert(t1[0] == ':');
    assert(sp_ws(t1) == t1);
    assert(t1.drop_first() =~= dec_int(c.b as int) + after);
    lemma_int_u8_rt(c.b as int, after);
    assert(sp_ws(dec_int(c.b as int) + after) == dec_int(c.b as int) + after) by {
        crate::rt::lemma_dec_int_token(c.b as int);
        crate::numtok::lemma_num_end_bounds(dec_int(c.b as int), 0);
        assert((dec_int(c.b as int) + after)[0] == dec_int(c.b as int)[0]);
    }
    assert(sp_ws(after) == after);
    assert(after[0] == ',');
    assert(after.drop_first() =~= mem_a(c, rest));
    lemma_color_step_a(c, rest);
    assert(seq!['b'] != seq!['r'] && seq!['b'] != seq!['g']) by {
        assert(seq!['b'][0] == 'b' && seq!['r'][0] == 'r' && seq!['g'][0] == 'g');
    }
}

proof fn lemma_color_step_g(c: Color, rest: Seq<char>)
    ensures
        sp_color_members(mem_g(c, rest), Some(c.r as int), None, None, None, false)
            == Ok::<_, DecodeErr>((c, rest)),
{
    let u = mem_g(c, rest);
    let after = seq![','] + mem_b(c, rest);
    crate::rt::lemma_escape_plain(seq!['g']);
    assert(u[0] == '"');
    assert(sp_ws(u) == u);
    lemma_string_rt(seq!['g'], seq![':'] + dec_int(c.g as int) + after);
    assert(u =~= enc_string(seq!['g']) + (seq![':'] + dec_int(c.g as int) + after));
    let t1 = seq![':'] + dec_int(c.g as int) + after;
    assert(t1[0] == ':');
    assert(sp_ws(t1) == t1);
    assert(t1.drop_first() =~= dec_int(c.g as int) + after);
    lemma_int_u8_rt(c.g as int, after);
    assert(sp_ws(dec_int(c.g as int) + after) == dec_int(c.g as int) + after) by {
        crate::rt::lemma_dec_int_token(c.g as int);
        crate::numtok::lemma_num_end_bounds(dec_int(c.g as int), 0);
        assert((dec_int(c.g as int) + after)[0] == dec_int(c.g as int)[0]);
    }
    assert(sp_ws(after) == after);
    assert(after[0] == ',');
    assert(after.drop_first() =~= mem_b(c, rest));
    lemma_color_step_b(c, rest);
    assert(seq!['g'] != seq!['r']) by {
        assert(seq!['g'][0] == 'g' && seq!['r'][0] == 'r');
    }
}

proof fn lemma_color_step_r(c: Color, rest: Seq<char>)
    ensures
        sp_color_members(mem_r(c, rest), None, None, None, None, true)
            == Ok::<_, DecodeErr>((c, rest)),
{
    let u = mem_r(c, rest);
    let after = seq![','] + mem_g(c, rest);
    crate::rt::lemma_escape_plain(seq!['r']);
    assert(u[0] == '"');
    assert(sp_ws(u) == u);
    lemma_string_rt(seq!['r'], seq![':'] + dec_int(c.r as int) + after);
    assert(u =~= enc_string(seq!['r']) + (seq![':'] + dec_int(c.r as int) + after));
    let t1 = seq![':'] + dec_int(c.r as int) + after;
    assert(t1[0] == ':');
    assert(sp_ws(t1) == t1);
    assert(t1.drop_first() =~= dec_int(c.r as int) + after);
    lemma_int_u8_rt(c.r as int, after);
    assert(sp_ws(dec_int(c.r as int) + after) == dec_int(c.r as int) + after) by {
        crate::rt::lemma_dec_int_token(c.r as int);
        crate::numtok::lemma_num_end_bounds(dec_int(c.r as int), 0);
        assert((dec_int(c.r as int) + after)[0] == dec_int(c.r as int)[0]);
    }
    assert(sp_ws(after) == after);
    assert(after[0] == ',');
    assert(after.drop_first() =~= mem_g(c, rest));
    lemma_color_step_g(c, rest);
}

/// Reading back an encoded color.
#[verifier::rlimit(100)]
pub proof fn lemma_color_rt(c: Color, rest: Seq<char>)
    ensures
        sp_color(enc_color(c) + rest) == Ok::<_, DecodeErr>((c, rest)),
{
    let u = enc_color(c) + rest;
    crate::rt::lemma_escape_plain(seq!['r']);
    crate::rt::lemma_escape_plain(seq!['g']);
    crate::rt::lemma_escape_plain(seq!['b']);
    crate::rt::lemma_escape_plain(seq!['a']);
    assert(u[0] == '{');
    assert(sp_ws(u) == u);
    assert(u.drop_first() =~= mem_r(c, rest));
    lemma_color_step_r(c, rest);
}

/// A color parse consumes at least one character.
pub proof fn lemma_sp_color_len(s: Seq<char>)
    ensures
        match sp_color(s) {
            Ok((v, r)) => r.len() < s.len(),
            Err(e) => true,
        },
{
    lemma_sp_ws_len(s);
    let s0 = sp_ws(s);
    if s0.len() > 0 && s0[0] == '{' {
        if sp_color(s) is Ok {
            lemma_sp_color_members_len(s0.drop_first(), None, None, None, None, true);
        }
    }
}

proof fn lemma_sp_color_members_len(s: Seq<char>, r: Option<int>, g: Option<int>, b: Option<int>, a: Option<int>, first: bool)
    ensures
        match sp_color_members(s, r, g, b, a, first) {
            Ok((v, r)) => r.len() <= s.len(),
            Err(e) => true,
        },
    decreases s.len(), 1int,
{
    lemma_sp_ws_len(s);
    let s0 = sp_ws(s);
    if s0.len() > 0 && !(first && s0[0] == '}') {
        lemma_sp_string_len(s0);
        match sp_string(s0) {
            Ok((key, r1)) => {
                lemma_sp_ws_len(r1);
                match sp_char(sp_ws(r1), ':') {
                    Ok(r2) => {
                        lemma_sp_ws_len(r2);
                        let s2 = sp_ws(r2);
                        lemma_sp_int_len(s2);
                        match sp_int_u8(s2) {
                            Ok((v, r3)) => {
                                lemma_sp_color_after_len(r3, Some(v), g, b, a);
                                lemma_sp_color_after_len(r3, r, Some(v), b, a);
                                lemma_sp_color_after_len(r3, r, g, Some(v), a);
                                lemma_sp_color_after_len(r3, r, g, b, Some(v));
                            },
                            Err(e) => {},
                        }
                        crate::skip::lemma_sp_skip_value_len(s2);
                        match crate::skip::sp_skip_value(s2) {
                            Ok(r3) => {
                                lemma_sp_color_after_len(r3, r, g, b, a);
                            },
                            Err(e) => {},
                        }
                    },
                    Err(e) => {},
                }
            },
            Err(e) => {},
        }
    }
}

proof fn lemma_sp_color_after_len(s: Seq<char>, r: Option<int>, g: Option<int>, b: Option<int>, a: Option<int>)
    ensures
        match sp_color_after(s, r, g, b, a) {
            Ok((v, r)) => r.len() <= s.len(),
            Err(e) => true,
        },
    decreases s.len(), 0int,
{
    lemma_sp_ws_len(s);
    let s0 = sp_ws(s);
    if s0.len() > 0 && s0[0] == ',' {
        lemma_sp_color_members_len(s0.drop_first(), r, g, b, a, false);
    }
}

/// The whole decode of one color: the value, with nothing but whitespace
/// after it.
pub open spec fn dec_color(s: Seq<char>) -> Result<Color, DecodeErr> {
    match sp_color(s) {
        Ok((v, rest)) => if sp_ws(rest).len() == 0 {
            Ok(v)
        } else {
            Err(DecodeErr::TrailingText)
        },
        Err(e) => Err(e),
    }
}

impl Color {
    /// The wire text of this color.
    pub fn to_json(&self) -> (r: String)
        ensures
            r@ == enc_color(*self),
    {
        let mut out: Vec<char> = Vec::new();
        push_color(self, &mut out);
        crate::strutil::chars_to_string(&out)
    }

    /// Reads a color from wire text: exactly one color object, surrounded
    /// by nothing but whitespace. Fails on a missing or repeated key, a value of the wrong shape, malformed text, or trailing text; an object member with an unknown key is read and ignored. A channel value outside 0..=255 is rejected.
    pub fn from_json(s: &str) -> (r: Result<Color, DecodeErr>)
        ensures
            match r {
                Ok(v) => dec_color(s@) == Ok::<Color, DecodeErr>(v),
                Err(e) => dec_color(s@) == Err::<Color, DecodeErr>(e),
            },
    {
        let chars = crate::strutil::str_to_chars(s);
        proof {
            assert(chars@.skip(0) =~= s@);
        }
        match p_color(&chars, 0) {
            Ok((v, j)) => {
                let j2 = p_ws(&chars, j);
                if j2 == chars.len() {
                    proof {
                        assert(sp_ws(chars@.skip(j as int)).len() == 0);
                    }
                    Ok(v)
                } else {
                    proof {
                        assert(sp_ws(chars@.skip(j as int)).len() > 0);
                    }
                    Err(DecodeErr::TrailingText)
                }
            },
            Err(e) => Err(e),
        }
    }
}

/// Round trip: decoding an encoded color yields the color back.
pub proof fn lemma_color_round_trip(v: Color)
    ensures
        dec_color(enc_color(v)) == Ok::<Color, DecodeErr>(v),
{
    lemma_color_rt(v, Seq::empty());
    assert(enc_color(v) + Seq::<char>::empty() =~= enc_color(v));
}

} // verus!
