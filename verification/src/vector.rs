//! `Vector`: a 3D position with floating-point components held as wire tokens.

use vstd::prelude::*;
use crate::err::DecodeErr;
use crate::parse::{
    sp_ws, sp_char, sp_string, sp_num_token, sp_number, p_ws, p_string, p_number,
    lemma_sp_ws_len, lemma_sp_string_len, lemma_sp_num_token_len,
};
use crate::rt::{lemma_string_rt, lemma_number_rt};
use crate::escape::enc_string;
use crate::number::Number;
use crate::numtok::{is_num_token, is_canon_token};
use crate::strutil::push_lit;

verus! {

/// a 3D position with floating-point components held as wire tokens.
pub struct Vector {
    pub x: Number,
    pub y: Number,
    pub z: Number,
}

/// The mathematical value of a `Vector`: its component tokens.
#[verifier::ext_equal]
pub ghost struct VectorV {
    pub x: Seq<char>,
    pub y: Seq<char>,
    pub z: Seq<char>,
}

impl View for Vector {
    type V = VectorV;

    open spec fn view(&self) -> VectorV {
        VectorV { x: self.x@, y: self.y@, z: self.z@ }
    }
}

/// Every component holds a well-formed number token.
pub open spec fn wf_vector(v: VectorV) -> bool {
    is_canon_token(v.x) && is_canon_token(v.y) && is_canon_token(v.z)
}

impl Vector {
    /// A vector from its components, taken verbatim.
    pub fn new(x: Number, y: Number, z: Number) -> (v: Vector)
        ensures
            v@ == (VectorV { x: x@, y: y@, z: z@ }),
    {
        Vector { x, y, z }
    }
}

impl Clone for Vector {
    fn clone(&self) -> (r: Self)
        ensures
            r@ == self@,
    {
        Vector { x: self.x.clone(), y: self.y.clone(), z: self.z.clone() }
    }
}

impl PartialEq for Vector {
    /// Structural equality: every component token equal.
    fn eq(&self, other: &Self) -> (r: bool) {
        self.x.eq(&other.x) && self.y.eq(&other.y) && self.z.eq(&other.z)
    }
}

impl vstd::std_specs::cmp::PartialEqSpecImpl for Vector {
    open spec fn obeys_eq_spec() -> bool {
        true
    }

    open spec fn eq_spec(&self, other: &Self) -> bool {
        self@ == other@
    }
}

/// The wire text of a vector.
pub open spec fn enc_vector(v: VectorV) -> Seq<char> {
    seq!['{', '"', 'x', '"', ':'] + v.x
        + seq![',', '"', 'y', '"', ':'] + v.y
        + seq![',', '"', 'z', '"', ':'] + v.z + seq!['}']
}

/// Yields a vector when all components have been seen.
pub open spec fn sp_vector_fin(
    x: Option<Seq<char>>, y: Option<Seq<char>>, z: Option<Seq<char>>, rest: Seq<char>,
) -> Result<(VectorV, Seq<char>), DecodeErr> {
    if x is Some && y is Some && z is Some {
        Ok((VectorV { x: x->Some_0, y: y->Some_0, z: z->Some_0 }, rest))
    } else {
        Err(DecodeErr::MissingField)
    }
}

/// One member of a vector object, then the rest of the object.
pub open spec fn sp_vector_members(
    s: Seq<char>, x: Option<Seq<char>>, y: Option<Seq<char>>, z: Option<Seq<char>>, first: bool,
) -> Result<(VectorV, Seq<char>), DecodeErr>
    decreases s.len(), 1int,
{
    let s0 = sp_ws(s);
    if s0.len() == 0 {
        Err(DecodeErr::Syntax)
    } else if first && s0[0] == '}' {
        sp_vector_fin(x, y, z, s0.drop_first())
    } else {
        match sp_string(s0) {
            Ok((key, r1)) => {
                let s1 = sp_ws(r1);
                match sp_char(s1, ':') {
                    Ok(r2) => {
                        let s2 = sp_ws(r2);
                        proof {
                            lemma_sp_ws_len(s);
                            lemma_sp_string_len(s0);
                            lemma_sp_ws_len(r1);
                            lemma_sp_ws_len(r2);
                            lemma_sp_num_token_len(s2);
                            crate::skip::lemma_sp_skip_value_len(s2);
                        }
                        if key == seq!['x'] {
                            if x is Some {
                                Err(DecodeErr::DuplicateField)
                            } else {
                                match sp_number(s2) {
                                    Ok((v, r3)) => sp_vector_after(r3, Some(v), y, z),
                                    Err(e) => Err(e),
                                }
                            }
                        } else if key == seq!['y'] {
                            if y is Some {
                                Err(DecodeErr::DuplicateField)
                            } else {
                                match sp_number(s2) {
                                    Ok((v, r3)) => sp_vector_after(r3, x, Some(v), z),
                                    Err(e) => Err(e),
                                }
                            }
                        } else if key == seq!['z'] {
                            if z is Some {
                                Err(DecodeErr::DuplicateField)
                            } else {
                                match sp_number(s2) {
                                    Ok((v, r3)) => sp_vector_after(r3, x, y, Some(v)),
                                    Err(e) => Err(e),
                                }
                            }
                        } else {
                            match crate::skip::sp_skip_value(s2) {
                                Ok(r3) => sp_vector_after(r3, x, y, z),
                                Err(e) => Err(e),
                            }
                        }
                    },
                    Err(e) => Err(e),
                }
            },
            Err(e) => Err(e),
        }
    }
}

/// After a member: a comma and another member, or the closing brace.
pub open spec fn sp_vector_after(
    s: Seq<char>, x: Option<Seq<char>>, y: Option<Seq<char>>, z: Option<Seq<char>>,
) -> Result<(VectorV, Seq<char>), DecodeErr>
    decreases s.len(), 0int,
{
    let s0 = sp_ws(s);
    if s0.len() == 0 {
        Err(DecodeErr::Syntax)
    } else if s0[0] == '}' {
        sp_vector_fin(x, y, z, s0.drop_first())
    } else if s0[0] == ',' {
        proof {
            lemma_sp_ws_len(s);
        }
        sp_vector_members(s0.drop_first(), x, y, z, false)
    } else {
        Err(DecodeErr::Syntax)
    }
}

/// A whole vector object.
pub open spec fn sp_vector(s: Seq<char>) -> Result<(VectorV, Seq<char>), DecodeErr> {
    match sp_char(sp_ws(s), '{') {
        Ok(r) => sp_vector_members(r, None, None, None, true),
        Err(e) => Err(e),
    }
}

/// The accumulator view of an exec component slot.
pub open spec fn vector_numo(o: Option<Number>) -> Option<Seq<char>> {
    match o {
        Some(n) => Some(n@),
        None => None,
    }
}

fn p_vector_fin(
    x: Option<Number>, y: Option<Number>, z: Option<Number>, j: usize,
) -> (res: Result<(Vector, usize), DecodeErr>)
    ensures
        match res {
            Ok((v, j2)) => j2 == j && sp_vector_fin(vector_numo(x), vector_numo(y), vector_numo(z), Seq::empty())
                == Ok::<_, DecodeErr>((v@, Seq::<char>::empty())),
            Err(e) => sp_vector_fin(vector_numo(x), vector_numo(y), vector_numo(z), Seq::empty())
                == Err::<(VectorV, Seq<char>), _>(e),
        },
{
    match (x, y, z) {
        (Some(x), Some(y), Some(z)) => Ok((Vector { x, y, z }, j)),
        _ => Err(DecodeErr::MissingField),
    }
}

/// Reads the members of a vector object.
#[verifier::rlimit(100)]
fn p_vector_members(
    s: &Vec<char>, i: usize, x: Option<Number>, y: Option<Number>, z: Option<Number>, first: bool,
) -> (res: Result<(Vector, usize), DecodeErr>)
    requires
        i <= s@.len(),
    ensures
        match res {
            Ok((v, j)) => i <= j <= s@.len()
                && sp_vector_members(s@.skip(i as int), vector_numo(x), vector_numo(y), vector_numo(z), first)
                    == Ok::<_, DecodeErr>((v@, s@.skip(j as int))),
            Err(e) => sp_vector_members(s@.skip(i as int), vector_numo(x), vector_numo(y), vector_numo(z), first)
                == Err::<(VectorV, Seq<char>), _>(e),
        },
    decreases s@.len() - i, 1int,
{
    let ghost t = s@.skip(i as int);
    let ghost s0 = sp_ws(t);
    let j0 = p_ws(s, i);
    if j0 == s.len() {
        return Err(DecodeErr::Syntax);
    }
    proof {
        assert(s0[0] == s@[j0 as int]);
    }
    if first && s[j0] == '}' {
        proof {
            assert(s0.drop_first() =~= s@.skip(j0 + 1 as int));
        }
        match p_vector_fin(x, y, z, j0 + 1) {
            Ok((v, j)) => Ok((v, j)),
            Err(e) => Err(e),
        }
    } else {
        match p_string(s, j0) {
            Ok((key, j1)) => {
                let j2 = p_ws(s, j1);
                let ghost s1 = sp_ws(s@.skip(j1 as int));
                if j2 == s.len() || s[j2] != ':' {
                    proof {
                        if j2 < s.len() {
                            assert(s1[0] == s@[j2 as int]);
                        }
                    }
                    return Err(DecodeErr::Syntax);
                }
                proof {
                    assert(s1[0] == s@[j2 as int]);
                    assert(s1.drop_first() =~= s@.skip(j2 + 1 as int));
                }
                let j3 = p_ws(s, j2 + 1);
                proof {
                    reveal_strlit("x");
                    reveal_strlit("y");
                    reveal_strlit("z");
                    assert("x"@ =~= seq!['x']);
                    assert("y"@ =~= seq!['y']);
                    assert("z"@ =~= seq!['z']);
                }
                if key.eq(&String::from_str("x")) {
                    if x.is_some() {
                        return Err(DecodeErr::DuplicateField);
                    }
                    match p_number(s, j3) {
                        Ok((v, j4)) => p_vector_after(s, j4, Some(v), y, z),
                        Err(e) => Err(e),
                    }
                } else if key.eq(&String::from_str("y")) {
                    if y.is_some() {
                        return Err(DecodeErr::DuplicateField);
                    }
                    match p_number(s, j3) {
                        Ok((v, j4)) => p_vector_after(s, j4, x, Some(v), z),
                        Err(e) => Err(e),
                    }
                } else if key.eq(&String::from_str("z")) {
                    if z.is_some() {
                        return Err(DecodeErr::DuplicateField);
                    }
                    match p_number(s, j3) {
                        Ok((v, j4)) => p_vector_after(s, j4, x, y, Some(v)),
                        Err(e) => Err(e),
                    }
                } else {
                    match crate::skip::p_skip_value(s, j3) {
                        Ok(j4) => p_vector_after(s, j4, x, y, z),
                        Err(e) => Err(e),
                    }
                }
            },
            Err(e) => Err(e),
        }
    }
}

/// Reads what follows a member of a vector object.
fn p_vector_after(
    s: &Vec<char>, i: usize, x: Option<Number>, y: Option<Number>, z: Option<Number>,
) -> (res: Result<(Vector, usize), DecodeErr>)
    requires
        i <= s@.len(),
    ensures
        match res {
            Ok((v, j)) => i <= j <= s@.len()
                && sp_vector_after(s@.skip(i as int), vector_numo(x), vector_numo(y), vector_numo(z))
                    == Ok::<_, DecodeErr>((v@, s@.skip(j as int))),
            Err(e) => sp_vector_after(s@.skip(i as int), vector_numo(x), vector_numo(y), vector_numo(z))
                == Err::<(VectorV, Seq<char>), _>(e),
        },
    decreases s@.len() - i, 0int,
{
    let ghost s0 = sp_ws(s@.skip(i as int));
    let j0 = p_ws(s, i);
    if j0 == s.len() {
        return Err(DecodeErr::Syntax);
    }
    proof {
        assert(s0[0] == s@[j0 as int]);
        assert(s0.drop_first() =~= s@.skip(j0 + 1 as int));
    }
    if s[j0] == '}' {
        match p_vector_fin(x, y, z, j0 + 1) {
            Ok((v, j)) => Ok((v, j)),
            Err(e) => Err(e),
        }
    } else if s[j0] == ',' {
        p_vector_members(s, j0 + 1, x, y, z, false)
    } else {
        Err(DecodeErr::Syntax)
    }
}

/// Reads a whole vector object at `i`.
pub fn p_vector(s: &Vec<char>, i: usize) -> (res: Result<(Vector, usize), DecodeErr>)
    requires
        i <= s@.len(),
    ensures
        match res {
            Ok((v, j)) => i <= j <= s@.len()
                && sp_vector(s@.skip(i as int)) == Ok::<_, DecodeErr>((v@, s@.skip(j as int))),
            Err(e) => sp_vector(s@.skip(i as int)) == Err::<(VectorV, Seq<char>), _>(e),
        },
{
    let ghost s0 = sp_ws(s@.skip(i as int));
    let j0 = p_ws(s, i);
    if j0 < s.len() && s[j0] == '{' {
        proof {
            assert(s0[0] == s@[j0 as int]);
            assert(s0.drop_first() =~= s@.skip(j0 + 1 as int));
        }
        p_vector_members(s, j0 + 1, None, None, None, true)
    } else {
        proof {
            if j0 < s.len() {
                assert(s0[0] == s@[j0 as int]);
            }
        }
        Err(DecodeErr::Syntax)
    }
}

/// Appends the wire text of a vector to `out`.
pub fn push_vector(v: &Vector, out: &mut Vec<char>)
    ensures
        final(out)@ == old(out)@ + enc_vector(v@),
{
    proof {
        reveal_strlit("{\"x\":");
        reveal_strlit(",\"y\":");
        reveal_strlit(",\"z\":");
        reveal_strlit("}");
        assert("{\"x\":"@ =~= seq!['{', '"', 'x', '"', ':']);
        assert(",\"y\":"@ =~= seq![',', '"', 'y', '"', ':']);
        assert(",\"z\":"@ =~= seq![',', '"', 'z', '"', ':']);
        assert("}"@ =~= seq!['}']);
    }
    push_lit(out, "{\"x\":");
    push_lit(out, v.x.as_str());
    push_lit(out, ",\"y\":");
    push_lit(out, v.y.as_str());
    push_lit(out, ",\"z\":");
    push_lit(out, v.z.as_str());
    push_lit(out, "}");
    proof {
        assert(final(out)@ =~= old(out)@ + enc_vector(v@));
    }
}

/// The wire tail from the `z` member on.
pub open spec fn vector_mem_z(v: VectorV, rest: Seq<char>) -> Seq<char> {
    enc_string(seq!['z']) + seq![':'] + v.z + (seq!['}'] + rest)
}

/// The wire tail from the `y` member on.
pub open spec fn vector_mem_y(v: VectorV, rest: Seq<char>) -> Seq<char> {
    enc_string(seq!['y']) + seq![':'] + v.y + (seq![','] + vector_mem_z(v, rest))
}

/// The wire tail from the `x` member on.
pub open spec fn vector_mem_x(v: VectorV, rest: Seq<char>) -> Seq<char> {
    enc_string(seq!['x']) + seq![':'] + v.x + (seq![','] + vector_mem_y(v, rest))
}

#[verifier::rlimit(100)]
proof fn lemma_vector_step_z(v: VectorV, rest: Seq<char>)
    requires
        wf_vector(v),
    ensures
        sp_vector_members(vector_mem_z(v, rest), Some(v.x), Some(v.y), None, false)
            == Ok::<_, DecodeErr>((v, rest)),
{
    let u = vector_mem_z(v, rest);
    let after = seq!['}'] + rest;
    crate::rt::lemma_escape_plain(seq!['z']);
    assert(u[0] == '"');
    assert(sp_ws(u) == u);
    lemma_string_rt(seq!['z'], seq![':'] + v.z + after);
    assert(u =~= enc_string(seq!['z']) + (seq![':'] + v.z + after));
    let t1 = seq![':'] + v.z + after;
    assert(t1[0] == ':');
    assert(sp_ws(t1) == t1);
    assert(t1.drop_first() =~= v.z + after);
    assert(after[0] == '}');
    lemma_number_rt(v.z, after);
    assert(sp_ws(v.z + after) == v.z + after) by {
        crate::numtok::lemma_num_end_bounds(v.z, 0);
        assert((v.z + after)[0] == v.z[0]);
    }
    assert(sp_ws(after) == after);
    assert(after.drop_first() =~= rest);
    assert(sp_vector_fin(Some(v.x), Some(v.y), Some(v.z), rest) == Ok::<_, DecodeErr>((v, rest))) by {
        assert(VectorV { x: v.x, y: v.y, z: v.z } =~= v);
    }
}

#[verifier::rlimit(100)]
proof fn lemma_vector_step_y(v: VectorV, rest: Seq<char>)
    requires
        wf_vector(v),
    ensures
        sp_vector_members(vector_mem_y(v, rest), Some(v.x), None, None, false)
            == Ok::<_, DecodeErr>((v, rest)),
{
    let u = vector_mem_y(v, rest);
    let after = seq![','] + vector_mem_z(v, rest);
    crate::rt::lemma_escape_plain(seq!['y']);
    assert(u[0] == '"');
    assert(sp_ws(u) == u);
    lemma_string_rt(seq!['y'], seq![':'] + v.y + after);
    assert(u =~= enc_string(seq!['y']) + (seq![':'] + v.y + after));
    let t1 = seq![':'] + v.y + after;
    assert(t1[0] == ':');
    assert(sp_ws(t1) == t1);
    assert(t1.drop_first() =~= v.y + after);
    assert(after[0] == ',');
    lemma_number_rt(v.y, after);
    assert(sp_ws(v.y + after) == v.y + after) by {
        crate::numtok::lemma_num_end_bounds(v.y, 0);
        assert((v.y + after)[0] == v.y[0]);
    }
    assert(sp_ws(after) == after);
    assert(after.drop_first() =~= vector_mem_z(v, rest));
    lemma_vector_step_z(v, rest);
}

#[verifier::rlimit(100)]
proof fn lemma_vector_step_x(v: VectorV, rest: Seq<char>)
    requires
        wf_vector(v),
    ensures
        sp_vector_members(vector_mem_x(v, rest), None, None, None, true)
            == Ok::<_, DecodeErr>((v, rest)),
{
    let u = vector_mem_x(v, rest);
    let after = seq![','] + vector_mem_y(v, rest);
    crate::rt::lemma_escape_plain(seq!['x']);
    assert(u[0] == '"');
    assert(sp_ws(u) == u);
    lemma_string_rt(seq!['x'], seq![':'] + v.x + after);
    assert(u =~= enc_string(seq!['x']) + (seq![':'] + v.x + after));
    let t1 = seq![':'] + v.x + after;
    assert(t1[0] == ':');
    assert(sp_ws(t1) == t1);
    assert(t1.drop_first() =~= v.x + after);
    assert(after[0] == ',');
    lemma_number_rt(v.x, after);
    assert(sp_ws(v.x + after) == v.x + after) by {
        crate::numtok::lemma_num_end_bounds(v.x, 0);
        assert((v.x + after)[0] == v.x[0]);
    }
    assert(sp_ws(after) == after);
    assert(after.drop_first() =~= vector_mem_y(v, rest));
    lemma_vector_step_y(v, rest);
}

/// Reading back an encoded vector.
#[verifier::rlimit(100)]
pub proof fn lemma_vector_rt(v: VectorV, rest: Seq<char>)
    requires
        wf_vector(v),
    ensures
        sp_vector(enc_vector(v) + rest) == Ok::<_, DecodeErr>((v, rest)),
{
    let u = enc_vector(v) + rest;
    crate::rt::lemma_escape_plain(seq!['x']);
    crate::rt::lemma_escape_plain(seq!['y']);
    crate::rt::lemma_escape_plain(seq!['z']);
    assert(u[0] == '{');
    assert(sp_ws(u) == u);
    assert(u.drop_first() =~= vector_mem_x(v, rest));
    lemma_vector_step_x(v, rest);
}

/// A vector parse consumes at least one character.
pub proof fn lemma_sp_vector_len(s: Seq<char>)
    ensures
        match sp_vector(s) {
            Ok((v, r)) => r.len() < s.len(),
            Err(e) => true,
        },
{
    lemma_sp_ws_len(s);
    let s0 = sp_ws(s);
    if s0.len() > 0 && s0[0] == '{' {
        if sp_vector(s) is Ok {
            lemma_sp_vector_members_len(s0.drop_first(), None, None, None, true);
        }
    }
}

proof fn lemma_sp_vector_members_len(s: Seq<char>, x: Option<Seq<char>>, y: Option<Seq<char>>, z: Option<Seq<char>>, first: bool)
    ensures
        match sp_vector_members(s, x, y, z, first) {
            Ok((v, r)) => r.len() <= s.len(),
            Err(e) => true,
        },
    decreases s.len(), 1int,
{
    lemma_sp_ws_len(s);
    let s0 = sp_ws(s);
    if s0.len() > 0 && !(first && s0[0] == '}') {
        lemma_sp_string_len(s0);
        match sp_string(s0) {
            Ok((key, r1)) => {
                lemma_sp_ws_len(r1);
                match sp_char(sp_ws(r1), ':') {
                    Ok(r2) => {
                        lemma_sp_ws_len(r2);
                        let s2 = sp_ws(r2);
                        lemma_sp_num_token_len(s2);
                        crate::skip::lemma_sp_skip_value_len(s2);
                        match crate::skip::sp_skip_value(s2) {
                            Ok(r3) => {
                                lemma_sp_vector_after_len(r3, x, y, z);
                            },
                            Err(e) => {},
                        }
                        match sp_number(s2) {
                            Ok((v, r3)) => {
                                lemma_sp_vector_after_len(r3, Some(v), y, z);
                                lemma_sp_vector_after_len(r3, x, Some(v), z);
                                lemma_sp_vector_after_len(r3, x, y, Some(v));
                            },
                            Err(e) => {},
                        }
                    },
                    Err(e) => {},
                }
            },
            Err(e) => {},
        }
    }
}

proof fn lemma_sp_vector_after_len(s: Seq<char>, x: Option<Seq<char>>, y: Option<Seq<char>>, z: Option<Seq<char>>)
    ensures
        match sp_vector_after(s, x, y, z) {
            Ok((v, r)) => r.len() <= s.len(),
            Err(e) => true,
        },
    decreases s.len(), 0int,
{
    lemma_sp_ws_len(s);
    let s0 = sp_ws(s);
    if s0.len() > 0 && s0[0] == ',' {
        lemma_sp_vector_members_len(s0.drop_first(), x, y, z, false);
    }
}

/// The whole decode of one vector: the value, with nothing but whitespace
/// after it.
pub open spec fn dec_vector(s: Seq<char>) -> Result<VectorV, DecodeErr> {
    match sp_vector(s) {
        Ok((v, rest)) => if sp_ws(rest).len() == 0 {
            Ok(v)
        } else {
            Err(DecodeErr::TrailingText)
        },
        Err(e) => Err(e),
    }
}

impl Vector {
    /// The wire text of this vector.
    pub fn to_json(&self) -> (r: String)
        ensures
            r@ == enc_vector(self@),
    {
        let mut out: Vec<char> = Vec::new();
        push_vector(self, &mut out);
        crate::strutil::chars_to_string(&out)
    }

    /// Reads a vector from wire text: exactly one vector object, surrounded
    /// by nothing but whitespace. Fails on a missing or repeated key, a value of the wrong shape, malformed text, or trailing text; an object member with an unknown key is read and ignored.
    pub fn from_json(s: &str) -> (r: Result<Vector, DecodeErr>)
        ensures
            match r {
                Ok(v) => dec_vector(s@) == Ok::<VectorV, DecodeErr>(v@),
                Err(e) => dec_vector(s@) == Err::<VectorV, DecodeErr>(e),
            },
    {
        let chars = crate::strutil::str_to_chars(s);
        proof {
            assert(chars@.skip(0) =~= s@);
        }
        match p_vector(&chars, 0) {
            Ok((v, j)) => {
                let j2 = p_ws(&chars, j);
                if j2 == chars.len() {
                    proof {
                        assert(sp_ws(chars@.skip(j as int)).len() == 0);
                    }
                    Ok(v)
                } else {
                    proof {
                        assert(sp_ws(chars@.skip(j as int)).len() > 0);
                    }
                    Err(DecodeErr::TrailingText)
                }
            },
            Err(e) => Err(e),
        }
    }
}

/// Round trip: decoding an encoded vector yields the vector back.
pub proof fn lemma_vector_round_trip(v: VectorV)
    requires
        wf_vector(v),
    ensures
        dec_vector(enc_vector(v)) == Ok::<VectorV, DecodeErr>(v),
{
    lemma_vector_rt(v, Seq::empty());
    assert(enc_vector(v) + Seq::<char>::empty() =~= enc_vector(v));
}

} // verus!
