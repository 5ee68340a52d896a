//! `Number`: a floating-point quantity held as its JSON number token.
//!
//! The model keeps no binary floating-point value, only the wire text that
//! denotes it, validated against the JSON number grammar and held in
//! canonical form: an integer-valued quantity carries a decimal digit
//! (`0.0`, never `0`), as the wire format writes floats. Two numbers are
//! equal exactly when their tokens are equal, so equality coincides with
//! equality of the canonical renderings that produced the tokens.

use vstd::prelude::*;
use crate::numtok::{is_num_token, is_canon_token, canon_num, scan_number, scan_int_shaped, lemma_canon_token};
use crate::strutil::str_to_chars;

verus! {

pub struct Number {
    text: String,
}

impl View for Number {
    type V = Seq<char>;

    closed spec fn view(&self) -> Seq<char> {
        self.text@
    }
}

impl Number {
    #[verifier::type_invariant]
    pub closed spec fn wf(self) -> bool {
        is_canon_token(self.text@)
    }

    /// Accepts exactly the texts that are one whole JSON number token,
    /// and holds the token in canonical form: an integer-shaped text
    /// gains `.0`.
    pub fn new(text: String) -> (r: Option<Number>)
        ensures
            match r {
                Some(n) => is_num_token(text@) && n@ == canon_num(text@),
                None => !is_num_token(text@),
            },
    {
        let mut chars = str_to_chars(text.as_str());
        let n = chars.len();
        match scan_number(&chars, 0) {
            Some(e) if e == n => {
                proof {
                    assert(chars@.subrange(0, chars@.len() as int) =~= text@);
                    lemma_canon_token(text@);
                }
                if scan_int_shaped(&chars, 0, n) {
                    chars.push('.');
                    chars.push('0');
                    proof {
                        assert(chars@ =~= canon_num(text@));
                    }
                } else {
                    proof {
                        assert(chars@ =~= canon_num(text@));
                    }
                }
                Some(Number { text: crate::strutil::chars_to_string(&chars) })
            },
            _ => None,
        }
    }

    /// A `Number` from characters already in canonical token form.
    pub(crate) fn of_canon(chars: &Vec<char>) -> (r: Number)
        requires
            is_canon_token(chars@),
        ensures
            r@ == chars@,
    {
        Number { text: crate::strutil::chars_to_string(chars) }
    }

    /// The token text.
    pub fn as_str(&self) -> (r: &str)
        ensures
            r@ == self@,
    {
        self.text.as_str()
    }
}

impl Clone for Number {
    fn clone(&self) -> (r: Self)
        ensures
            r@ == self@,
    {
        proof {
            use_type_invariant(self);
        }
        Number { text: self.text.clone() }
    }
}

impl PartialEq for Number {
    fn eq(&self, other: &Self) -> (r: bool) {
        self.text.eq(&other.text)
    }
}

impl vstd::std_specs::cmp::PartialEqSpecImpl for Number {
    open spec fn obeys_eq_spec() -> bool {
        true
    }

    open spec fn eq_spec(&self, other: &Self) -> bool {
        self@ == other@
    }
}

} // verus!
