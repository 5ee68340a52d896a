//! String escaping for the JSON wire format.
//!
//! The quotation mark and the backslash are escaped with a backslash;
//! control characters below 0x20 use the short escapes `\b`, `\t`, `\n`,
//! `\f`, `\r` where one exists and `\u00XX` with lowercase hexadecimal
//! digits otherwise. All other characters pass through unchanged.

use vstd::prelude::*;
use crate::chars::{hex_char, ex_hex_char};
use crate::strutil::str_to_chars;

verus! {

/// The wire form of one character inside a JSON string.
pub open spec fn esc_char(c: char) -> Seq<char> {
    if c == '"' {
        seq!['\\', '"']
    } else if c == '\\' {
        seq!['\\', '\\']
    } else if c == '\u{8}' {
        seq!['\\', 'b']
    } else if c == '\t' {
        seq!['\\', 't']
    } else if c == '\n' {
        seq!['\\', 'n']
    } else if c == '\u{c}' {
        seq!['\\', 'f']
    } else if c == '\r' {
        seq!['\\', 'r']
    } else if (c as u32) < 0x20 {
        seq!['\\', 'u', '0', '0', hex_char(c as u32 as int / 16), hex_char(c as u32 as int % 16)]
    } else {
        seq![c]
    }
}

/// The wire form of a whole string body.
pub open spec fn escape(s: Seq<char>) -> Seq<char>
    decreases s.len(),
{
    if s.len() == 0 {
        Seq::empty()
    } else {
        esc_char(s[0]) + escape(s.drop_first())
    }
}

/// A quoted, escaped JSON string.
pub open spec fn enc_string(s: Seq<char>) -> Seq<char> {
    seq!['"'] + escape(s) + seq!['"']
}

pub proof fn lemma_escape_append(a: Seq<char>, b: Seq<char>)
    ensures
        escape(a + b) == escape(a) + escape(b),
    decreases a.len(),
{
    if a.len() == 0 {
        assert(a + b =~= b);
        assert(escape(a) + escape(b) =~= escape(b));
    } else {
        assert((a + b).drop_first() =~= a.drop_first() + b);
        lemma_escape_append(a.drop_first(), b);
        assert(escape(a + b) =~= escape(a) + escape(b));
    }
}

/// Appends the escaped body of `s` to `out`.
pub fn push_escaped(s: &str, out: &mut Vec<char>)
    ensures
        final(out)@ == old(out)@ + escape(s@),
{
    let chars = str_to_chars(s);
    let ghost gs = s@;
    let mut i: usize = 0;
    while i < chars.len()
        invariant
            chars@ == gs,
            i <= gs.len(),
            out@ == old(out)@ + escape(gs.subrange(0, i as int)),
        decreases gs.len() - i,
    {
        let c = chars[i];
        if c == '"' {
            out.push('\\');
            out.push('"');
        } else if c == '\\' {
            out.push('\\');
            out.push('\\');
        } else if c == '\u{8}' {
            out.push('\\');
            out.push('b');
        } else if c == '\t' {
            out.push('\\');
            out.push('t');
        } else if c == '\n' {
            out.push('\\');
            out.push('n');
        } else if c == '\u{c}' {
            out.push('\\');
            out.push('f');
        } else if c == '\r' {
            out.push('\\');
            out.push('r');
        } else if (c as u32) < 0x20 {
            let v = c as u32;
            out.push('\\');
            out.push('u');
            out.push('0');
            out.push('0');
            out.push(ex_hex_char(v / 16));
            out.push(ex_hex_char(v % 16));
        } else {
            out.push(c);
        }
        proof {
            let p = gs.subrange(0, i as int);
            let q = gs.subrange(0, i + 1 as int);
            assert(q =~= p + seq![c]);
            lemma_escape_append(p, seq![c]);
            assert(seq![c].drop_first() =~= Seq::<char>::empty());
            assert(escape(seq![c]) == esc_char(c) + escape(Seq::<char>::empty()));
            assert(esc_char(c) + Seq::<char>::empty() =~= esc_char(c));
            assert(out@ =~= old(out)@ + escape(q));
        }
        i += 1;
    }
    proof {
        assert(gs.subrange(0, gs.len() as int) =~= gs);
    }
}

/// Appends the quoted, escaped form of `s` to `out`.
pub fn push_json_string(s: &str, out: &mut Vec<char>)
    ensures
        final(out)@ == old(out)@ + enc_string(s@),
{
    out.push('"');
    push_escaped(s, out);
    out.push('"');
    proof {
        assert(final(out)@ =~= old(out)@ + enc_string(s@));
    }
}

} // verus!
