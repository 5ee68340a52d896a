//! `Rotation`: a quaternion with floating-point components held as wire tokens.

use vstd::prelude::*;
use crate::err::DecodeErr;
use crate::parse::{
    sp_ws, sp_char, sp_string, sp_num_token, sp_number, p_ws, p_string, p_number,
    lemma_sp_ws_len, lemma_sp_string_len, lemma_sp_num_token_len,
};
use crate::rt::{lemma_string_rt, lemma_number_rt};
use crate::escape::enc_string;
use crate::number::Number;
use crate::numtok::{is_num_token, is_canon_token};
use crate::strutil::push_lit;

verus! {

/// a quaternion with floating-point components held as wire tokens.
pub struct Rotation {
    pub qx: Number,
    pub qy: Number,
    pub qz: Number,
    pub qw: Number,
}

/// The mathematical value of a `Rotation`: its component tokens.
#[verifier::ext_equal]
pub ghost struct RotationV {
    pub qx: Seq<char>,
    pub qy: Seq<char>,
    pub qz: Seq<char>,
    pub qw: Seq<char>,
}

impl View for Rotation {
    type V = RotationV;

    open spec fn view(&self) -> RotationV {
        RotationV { qx: self.qx@, qy: self.qy@, qz: self.qz@, qw: self.qw@ }
    }
}

/// Every component holds a well-formed number token.
pub open spec fn wf_rotation(v: RotationV) -> bool {
    is_canon_token(v.qx) && is_canon_token(v.qy) && is_canon_token(v.qz) && is_canon_token(v.qw)
}

impl Rotation {
    /// A rotation from its components, taken verbatim.
    pub fn new(qx: Number, qy: Number, qz: Number, qw: Number) -> (v: Rotation)
        ensures
            v@ == (RotationV { qx: qx@, qy: qy@, qz: qz@, qw: qw@ }),
    {
        Rotation { qx, qy, qz, qw }
    }
}

impl Clone for Rotation {
    fn clone(&self) -> (r: Self)
        ensures
            r@ == self@,
    {
        Rotation { qx: self.qx.clone(), qy: self.qy.clone(), qz: self.qz.clone(), qw: self.qw.clone() }
    }
}

impl PartialEq for Rotation {
    /// Structural equality: every component token equal.
    fn eq(&self, other: &Self) -> (r: bool) {
        self.qx.eq(&other.qx) && self.qy.eq(&other.qy) && self.qz.eq(&other.qz) && self.qw.eq(&other.qw)
    }
}

impl vstd::std_specs::cmp::PartialEqSpecImpl for Rotation {
    open spec fn obeys_eq_spec() -> bool {
        true
    }

    open spec fn eq_spec(&self, other: &Self) -> bool {
        self@ == other@
    }
}

/// The wire text of a rotation.
pub open spec fn enc_rotation(v: RotationV) -> Seq<char> {
    seq!['{', '"', 'q', 'x', '"', ':'] + v.qx
        + seq![',', '"', 'q', 'y', '"', ':'] + v.qy
        + seq![',', '"', 'q', 'z', '"', ':'] + v.qz
        + seq![',', '"', 'q', 'w', '"', ':'] + v.qw + seq!['}']
}

/// Yields a rotation when all components have been seen.
pub open spec fn sp_rotation_fin(
    qx: Option<Seq<char>>, qy: Option<Seq<char>>, qz: Option<Seq<char>>, qw: Option<Seq<char>>, rest: Seq<char>,
) -> Result<(RotationV, Seq<char>), DecodeErr> {
    if qx is Some && qy is Some && qz is Some && qw is Some {
        Ok((RotationV { qx: qx->Some_0, qy: qy->Some_0, qz: qz->Some_0, qw: qw->Some_0 }, rest))
    } else {
        Err(DecodeErr::MissingField)
    }
}

/// One member of a rotation object, then the rest of the object.
pub open spec fn sp_rotation_members(
    s: Seq<char>, qx: Option<Seq<char>>, qy: Option<Seq<char>>, qz: Option<Seq<char>>, qw: Option<Seq<char>>, first: bool,
) -> Result<(RotationV, Seq<char>), DecodeErr>
    decreases s.len(), 1int,
{
    let s0 = sp_ws(s);
    if s0.len() == 0 {
        Err(DecodeErr::Syntax)
    } else if first && s0[0] == '}' {
        sp_rotation_fin(qx, qy, qz, qw, s0.drop_first())
    } else {
        match sp_string(s0) {
            Ok((key, r1)) => {
                let s1 = sp_ws(r1);
                match sp_char(s1, ':') {
                    Ok(r2) => {
                        let s2 = sp_ws(r2);
                        proof {
                            lemma_sp_ws_len(s);
                            lemma_sp_string_len(s0);
                            lemma_sp_ws_len(r1);
                            lemma_sp_ws_len(r2);
                            lemma_sp_num_token_len(s2);
                            crate::skip::lemma_sp_skip_value_len(s2);
                        }
                        if key == seq!['q', 'x'] {
                            if qx is Some {
                                Err(DecodeErr::DuplicateField)
                            } else {
                                match sp_number(s2) {
                                    Ok((v, r3)) => sp_rotation_after(r3, Some(v), qy, qz, qw),
                                    Err(e) => Err(e),
                                }
                            }
                        } else if key == seq!['q', 'y'] {
                            if qy is Some {
                                Err(DecodeErr::DuplicateField)
                            } else {
                                match sp_number(s2) {
                                    Ok((v, r3)) => sp_rotation_after(r3, qx, Some(v), qz, qw),
                                    Err(e) => Err(e),
                                }
                            }
                        } else if key == seq!['q', 'z'] {
                            if qz is Some {
                                Err(DecodeErr::DuplicateField)
                            } else {
                                match sp_number(s2) {
                                    Ok((v, r3)) => sp_rotation_after(r3, qx, qy, Some(v), qw),
                                    Err(e) => Err(e),
                                }
                            }
                        } else if key == seq!['q', 'w'] {
                            if qw is Some {
                                Err(DecodeErr::DuplicateField)
                            } else {
                                match sp_number(s2) {
                                    Ok((v, r3)) => sp_rotation_after(r3, qx, qy, qz, Some(v)),
                                    Err(e) => Err(e),
                                }
                            }
                        } else {
                            match crate::skip::sp_skip_value(s2) {
                                Ok(r3) => sp_rotation_after(r3, qx, qy, qz, qw),
                                Err(e) => Err(e),
                            }
                        }
                    },
                    Err(e) => Err(e),
                }
            },
            Err(e) => Err(e),
        }
    }
}

/// After a member: a comma and another member, or the closing brace.
pub open spec fn sp_rotation_after(
    s: Seq<char>, qx: Option<Seq<char>>, qy: Option<Seq<char>>, qz: Option<Seq<char>>, qw: Option<Seq<char>>,
) -> Result<(RotationV, Seq<char>), DecodeErr>
    decreases s.len(), 0int,
{
    let s0 = sp_ws(s);
    if s0.len() == 0 {
        Err(DecodeErr::Syntax)
    } else if s0[0] == '}' {
        sp_rotation_fin(qx, qy, qz, qw, s0.drop_first())
    } else if s0[0] == ',' {
        proof {
            lemma_sp_ws_len(s);
        }
        sp_rotation_members(s0.drop_first(), qx, qy, qz, qw, false)
    } else {
        Err(DecodeErr::Syntax)
    }
}

/// A whole rotation object.
pub open spec fn sp_rotation(s: Seq<char>) -> Result<(RotationV, Seq<char>), DecodeErr> {
    match sp_char(sp_ws(s), '{') {
        Ok(r) => sp_rotation_members(r, None, None, None, None, true),
        Err(e) => Err(e),
    }
}

/// The accumulator view of an exec component slot.
pub open spec fn rotation_numo(o: Option<Number>) -> Option<Seq<char>> {
    match o {
        Some(n) => Some(n@),
        None => None,
    }
}

fn p_rotation_fin(
    qx: Option<Number>, qy: Option<Number>, qz: Option<Number>, qw: Option<Number>, j: usize,
) -> (res: Result<(Rotation, usize), DecodeErr>)
    ensures
        match res {
            Ok((v, j2)) => j2 == j && sp_rotation_fin(rotation_numo(qx), rotation_numo(qy), rotation_numo(qz), rotation_numo(qw), Seq::empty())
                == Ok::<_, DecodeErr>((v@, Seq::<char>::empty())),
            Err(e) => sp_rotation_fin(rotation_numo(qx), rotation_numo(qy), rotation_numo(qz), rotation_numo(qw), Seq::empty())
                == Err::<(RotationV, Seq<char>), _>(e),
        },
{
    match (qx, qy, qz, qw) {
        (Some(qx), Some(qy), Some(qz), Some(qw)) => Ok((Rotation { qx, qy, qz, qw }, j)),
        _ => Err(DecodeErr::MissingField),
    }
}

/// Reads the members of a rotation object.
#[verifier::rlimit(100)]
fn p_rotation_members(
    s: &Vec<char>, i: usize, qx: Option<Number>, qy: Option<Number>, qz: Option<Number>, qw: Option<Number>, first: bool,
) -> (res: Result<(Rotation, usize), DecodeErr>)
    requires
        i <= s@.len(),
    ensures
        match res {
            Ok((v, j)) => i <= j <= s@.len()
                && sp_rotation_members(s@.skip(i as int), rotation_numo(qx), rotation_numo(qy), rotation_numo(qz), rotation_numo(qw), first)
                    == Ok::<_, DecodeErr>((v@, s@.skip(j as int))),
            Err(e) => sp_rotation_members(s@.skip(i as int), rotation_numo(qx), rotation_numo(qy), rotation_numo(qz), rotation_numo(qw), first)
                == Err::<(RotationV, Seq<char>), _>(e),
        },
    decreases s@.len() - i, 1int,
{
    let ghost t = s@.skip(i as int);
    let ghost s0 = sp_ws(t);
    let j0 = p_ws(s, i);
    if j0 == s.len() {
        return Err(DecodeErr::Syntax);
    }
    proof {
        assert(s0[0] == s@[j0 as int]);
    }
    if first && s[j0] == '}' {
        proof {
            assert(s0.drop_first() =~= s@.skip(j0 + 1 as int));
        }
        match p_rotation_fin(qx, qy, qz, qw, j0 + 1) {
            Ok((v, j)) => Ok((v, j)),
            Err(e) => Err(e),
        }
    } else {
        match p_string(s, j0) {
            Ok((key, j1)) => {
                let j2 = p_ws(s, j1);
                let ghost s1 = sp_ws(s@.skip(j1 as int));
                if j2 == s.len() || s[j2] != ':' {
                    proof {
                        if j2 < s.len() {
                            assert(s1[0] == s@[j2 as int]);
                        }
                    }
                    return Err(DecodeErr::Syntax);
                }
                proof {
                    assert(s1[0] == s@[j2 as int]);
                    assert(s1.drop_first() =~= s@.skip(j2 + 1 as int));
                }
                let j3 = p_ws(s, j2 + 1);
                proof {
                    reveal_strlit("qx");
                    reveal_strlit("qy");
                    reveal_strlit("qz");
                    reveal_strlit("qw");
                    assert("qx"@ =~= seq!['q', 'x']);
                    assert("qy"@ =~= seq!['q', 'y']);
                    assert("qz"@ =~= seq!['q', 'z']);
                    assert("qw"@ =~= seq!['q', 'w']);
                }
                if key.eq(&String::from_str("qx")) {
                    if qx.is_some() {
                        return Err(DecodeErr::DuplicateField);
                    }
                    match p_number(s, j3) {
                        Ok((v, j4)) => p_rotation_after(s, j4, Some(v), qy, qz, qw),
                        Err(e) => Err(e),
                    }
                } else if key.eq(&String::from_str("qy")) {
                    if qy.is_some() {
                        return Err(DecodeErr::DuplicateField);
                    }
                    match p_number(s, j3) {
                        Ok((v, j4)) => p_rotation_after(s, j4, qx, Some(v), qz, qw),
                        Err(e) => Err(e),
                    }
                } else if key.eq(&String::from_str("qz")) {
                    if qz.is_some() {
                        return Err(DecodeErr::DuplicateField);
                    }
                    match p_number(s, j3) {
                        Ok((v, j4)) => p_rotation_after(s, j4, qx, qy, Some(v), qw),
                        Err(e) => Err(e),
                    }
                } else if key.eq(&String::from_str("qw")) {
                    if qw.is_some() {
                        return Err(DecodeErr::DuplicateField);
                    }
                    match p_number(s, j3) {
                        Ok((v, j4)) => p_rotation_after(s, j4, qx, qy, qz, Some(v)),
                        Err(e) => Err(e),
                    }
                } else {
                    match crate::skip::p_skip_value(s, j3) {
                        Ok(j4) => p_rotation_after(s, j4, qx, qy, qz, qw),
                        Err(e) => Err(e),
                    }
                }
            },
            Err(e) => Err(e),
        }
    }
}

/// Reads what follows a member of a rotation object.
fn p_rotation_after(
    s: &Vec<char>, i: usize, qx: Option<Number>, qy: Option<Number>, qz: Option<Number>, qw: Option<Number>,
) -> (res: Result<(Rotation, usize), DecodeErr>)
    requires
        i <= s@.len(),
    ensures
        match res {
            Ok((v, j)) => i <= j <= s@.len()
                && sp_rotation_after(s@.skip(i as int), rotation_numo(qx), rotation_numo(qy), rotation_numo(qz), rotation_numo(qw))
                    == Ok::<_, DecodeErr>((v@, s@.skip(j as int))),
            Err(e) => sp_rotation_after(s@.skip(i as int), rotation_numo(qx), rotation_numo(qy), rotation_numo(qz), rotation_numo(qw))
                == Err::<(RotationV, Seq<char>), _>(e),
        },
    decreases s@.len() - i, 0int,
{
    let ghost s0 = sp_ws(s@.skip(i as int));
    let j0 = p_ws(s, i);
    if j0 == s.len() {
        return Err(DecodeErr::Syntax);
    }
    proof {
        assert(s0[0] == s@[j0 as int]);
        assert(s0.drop_first() =~= s@.skip(j0 + 1 as int));
    }
    if s[j0] == '}' {
        match p_rotation_fin(qx, qy, qz, qw, j0 + 1) {
            Ok((v, j)) => Ok((v, j)),
            Err(e) => Err(e),
        }
    } else if s[j0] == ',' {
        p_rotation_members(s, j0 + 1, qx, qy, qz, qw, false)
    } else {
        Err(DecodeErr::Syntax)
    }
}

/// Reads a whole rotation object at `i`.
pub fn p_rotation(s: &Vec<char>, i: usize) -> (res: Result<(Rotation, usize), DecodeErr>)
    requires
        i <= s@.len(),
    ensures
        match res {
            Ok((v, j)) => i <= j <= s@.len()
                && sp_rotation(s@.skip(i as int)) == Ok::<_, DecodeErr>((v@, s@.skip(j as int))),
            Err(e) => sp_rotation(s@.skip(i as int)) == Err::<(RotationV, Seq<char>), _>(e),
        },
{
    let ghost s0 = sp_ws(s@.skip(i as int));
    let j0 = p_ws(s, i);
    if j0 < s.len() && s[j0] == '{' {
        proof {
            assert(s0[0] == s@[j0 as int]);
            assert(s0.drop_first() =~= s@.skip(j0 + 1 as int));
        }
        p_rotation_members(s, j0 + 1, None, None, None, None, true)
    } else {
        proof {
            if j0 < s.len() {
                assert(s0[0] == s@[j0 as int]);
            }
        }
        Err(DecodeErr::Syntax)
    }
}

/// Appends the wire text of a rotation to `out`.
pub fn push_rotation(v: &Rotation, out: &mut Vec<char>)
    ensures
        final(out)@ == old(out)@ + enc_rotation(v@),
{
    proof {
        reveal_strlit("{\"qx\":");
        reveal_strlit(",\"qy\":");
        reveal_strlit(",\"qz\":");
        reveal_strlit(",\"qw\":");
        reveal_strlit("}");
        assert("{\"qx\":"@ =~= seq!['{', '"', 'q', 'x', '"', ':']);
        assert(",\"qy\":"@ =~= seq![',', '"', 'q', 'y', '"', ':']);
        assert(",\"qz\":"@ =~= seq![',', '"', 'q', 'z', '"', ':']);
        assert(",\"qw\":"@ =~= seq![',', '"', 'q', 'w', '"', ':']);
        assert("}"@ =~= seq!['}']);
    }
    push_lit(out, "{\"qx\":");
    push_lit(out, v.qx.as_str());
    push_lit(out, ",\"qy\":");
    push_lit(out, v.qy.as_str());
    push_lit(out, ",\"qz\":");
    push_lit(out, v.qz.as_str());
    push_lit(out, ",\"qw\":");
    push_lit(out, v.qw.as_str());
    push_lit(out, "}");
    proof {
        assert(final(out)@ =~= old(out)@ + enc_rotation(v@));
    }
}

/// The wire tail from the `qw` member on.
pub open spec fn rotation_mem_qw(v: RotationV, rest: Seq<char>) -> Seq<char> {
    enc_string(seq!['q', 'w']) + seq![':'] + v.qw + (seq!['}'] + rest)
}

/// The wire tail from the `qz` member on.
pub open spec fn rotation_mem_qz(v: RotationV, rest: Seq<char>) -> Seq<char> {
    enc_string(seq!['q', 'z']) + seq![':'] + v.qz + (seq![','] + rotation_mem_qw(v, rest))
}

/// The wire tail from the `qy` member on.
pub open spec fn rotation_mem_qy(v: RotationV, rest: Seq<char>) -> Seq<char> {
    enc_string(seq!['q', 'y']) + seq![':'] + v.qy + (seq![','] + rotation_mem_qz(v, rest))
}

/// The wire tail from the `qx` member on.
pub open spec fn rotation_mem_qx(v: RotationV, rest: Seq<char>) -> Seq<char> {
    enc_string(seq!['q', 'x']) + seq![':'] + v.qx + (seq![','] + rotation_mem_qy(v, rest))
}

#[verifier::rlimit(100)]
proof fn lemma_rotation_step_qw(v: RotationV, rest: Seq<char>)
    requires
        wf_rotation(v),
    ensures
        sp_rotation_members(rotation_mem_qw(v, rest), Some(v.qx), Some(v.qy), Some(v.qz), None, false)
            == Ok::<_, DecodeErr>((v, rest)),
{
    let u = rotation_mem_qw(v, rest);
    let after = seq!['}'] + rest;
    crate::rt::lemma_escape_plain(seq!['q', 'w']);
    assert(u[0] == '"');
    assert(sp_ws(u) == u);
    lemma_string_rt(seq!['q', 'w'], seq![':'] + v.qw + after);
    assert(u =~= enc_string(seq!['q', 'w']) + (seq![':'] + v.qw + after));
    let t1 = seq![':'] + v.qw + after;
    assert(t1[0] == ':');
    assert(sp_ws(t1) == t1);
    assert(t1.drop_first() =~= v.qw + after);
    assert(after[0] == '}');
    lemma_number_rt(v.qw, after);
    assert(sp_ws(v.qw + after) == v.qw + after) by {
        crate::numtok::lemma_num_end_bounds(v.qw, 0);
        assert((v.qw + after)[0] == v.qw[0]);
    }
    assert(sp_ws(after) == after);
    assert(after.drop_first() =~= rest);
    assert(sp_rotation_fin(Some(v.qx), Some(v.qy), Some(v.qz), Some(v.qw), rest) == Ok::<_, DecodeErr>((v, rest))) by {
        assert(RotationV { qx: v.qx, qy: v.qy, qz: v.qz, qw: v.qw } =~= v);
    }
}

#[verifier::rlimit(100)]
proof fn lemma_rotation_step_qz(v: RotationV, rest: Seq<char>)
    requires
        wf_rotation(v),
    ensures
        sp_rotation_members(rotation_mem_qz(v, rest), Some(v.qx), Some(v.qy), None, None, false)
            == Ok::<_, DecodeErr>((v, rest)),
{
    let u = rotation_mem_qz(v, rest);
    let after = seq![','] + rotation_mem_qw(v, rest);
    crate::rt::lemma_escape_plain(seq!['q', 'z']);
    assert(u[0] == '"');
    assert(sp_ws(u) == u);
    lemma_string_rt(seq!['q', 'z'], seq![':'] + v.qz + after);
    assert(u =~= enc_string(seq!['q', 'z']) + (seq![':'] + v.qz + after));
    let t1 = seq![':'] + v.qz + after;
    assert(t1[0] == ':');
    assert(sp_ws(t1) == t1);
    assert(t1.drop_first() =~= v.qz + after);
    assert(after[0] == ',');
    lemma_number_rt(v.qz, after);
    assert(sp_ws(v.qz + after) == v.qz + after) by {
        crate::numtok::lemma_num_end_bounds(v.qz, 0);
        assert((v.qz + after)[0] == v.qz[0]);
    }
    assert(sp_ws(after) == after);
    assert(after.drop_first() =~= rotation_mem_qw(v, rest));
    lemma_rotation_step_qw(v, rest);
}

#[verifier::rlimit(100)]
proof fn lemma_rotation_step_qy(v: RotationV, rest: Seq<char>)
    requires
        wf_rotation(v),
    ensures
        sp_rotation_members(rotation_mem_qy(v, rest), Some(v.qx), None, None, None, false)
            == Ok::<_, DecodeErr>((v, rest)),
{
    let u = rotation_mem_qy(v, rest);
    let after = seq![','] + rotation_mem_qz(v, rest);
    crate::rt::lemma_escape_plain(seq!['q', 'y']);
    assert(u[0] == '"');
    assert(sp_ws(u) == u);
    lemma_string_rt(seq!['q', 'y'], seq![':'] + v.qy + after);
    assert(u =~= enc_string(seq!['q', 'y']) + (seq![':'] + v.qy + after));
    let t1 = seq![':'] + v.qy + after;
    assert(t1[0] == ':');
    assert(sp_ws(t1) == t1);
    assert(t1.drop_first() =~= v.qy + after);
    assert(after[0] == ',');
    lemma_number_rt(v.qy, after);
    assert(sp_ws(v.qy + after) == v.qy + after) by {
        crate::numtok::lemma_num_end_bounds(v.qy, 0);
        assert((v.qy + after)[0] == v.qy[0]);
    }
    assert(sp_ws(after) == after);
    assert(after.drop_first() =~= rotation_mem_qz(v, rest));
    lemma_rotation_step_qz(v, rest);
}

#[verifier::rlimit(100)]
proof fn lemma_rotation_step_qx(v: RotationV, rest: Seq<char>)
    requires
        wf_rotation(v),
    ensures
        sp_rotation_members(rotation_mem_qx(v, rest), None, None, None, None, true)
            == Ok::<_, DecodeErr>((v, rest)),
{
    let u = rotation_mem_qx(v, rest);
    let after = seq![','] + rotation_mem_qy(v, rest);
    crate::rt::lemma_escape_plain(seq!['q', 'x']);
    assert(u[0] == '"');
    assert(sp_ws(u) == u);
    lemma_string_rt(seq!['q', 'x'], seq![':'] + v.qx + after);
    assert(u =~= enc_string(seq!['q', 'x']) + (seq![':'] + v.qx + after));
    let t1 = seq![':'] + v.qx + after;
    assert(t1[0] == ':');
    assert(sp_ws(t1) == t1);
    assert(t1.drop_first() =~= v.qx + after);
    assert(after[0] == ',');
    lemma_number_rt(v.qx, after);
    assert(sp_ws(v.qx + after) == v.qx + after) by {
        crate::numtok::lemma_num_end_bounds(v.qx, 0);
        assert((v.qx + after)[0] == v.qx[0]);
    }
    assert(sp_ws(after) == after);
    assert(after.drop_first() =~= rotation_mem_qy(v, rest));
    lemma_rotation_step_qy(v, rest);
}

/// Reading back an encoded rotation.
#[verifier::rlimit(100)]
pub proof fn lemma_rotation_rt(v: RotationV, rest: Seq<char>)
    requires
        wf_rotation(v),
    ensures
        sp_rotation(enc_rotation(v) + rest) == Ok::<_, DecodeErr>((v, rest)),
{
    let u = enc_rotation(v) + rest;
    crate::rt::lemma_escape_plain(seq!['q', 'x']);
    crate::rt::lemma_escape_plain(seq!['q', 'y']);
    crate::rt::lemma_escape_plain(seq!['q', 'z']);
    crate::rt::lemma_escape_plain(seq!['q', 'w']);
    assert(u[0] == '{');
    assert(sp_ws(u) == u);
    assert(u.drop_first() =~= rotation_mem_qx(v, rest));
    lemma_rotation_step_qx(v, rest);
}

/// A rotation parse consumes at least one character.
pub proof fn lemma_sp_rotation_len(s: Seq<char>)
    ensures
        match sp_rotation(s) {
            Ok((v, r)) => r.len() < s.len(),
            Err(e) => true,
        },
{
    lemma_sp_ws_len(s);
    let s0 = sp_ws(s);
    if s0.len() > 0 && s0[0] == '{' {
        if sp_rotation(s) is Ok {
            lemma_sp_rotation_members_len(s0.drop_first(), None, None, None, None, true);
        }
    }
}

proof fn lemma_sp_rotation_members_len(s: Seq<char>, qx: Option<Seq<char>>, qy: Option<Seq<char>>, qz: Option<Seq<char>>, qw: Option<Seq<char>>, first: bool)
    ensures
        match sp_rotation_members(s, qx, qy, qz, qw, first) {
            Ok((v, r)) => r.len() <= s.len(),
            Err(e) => true,
        },
    decreases s.len(), 1int,
{
    lemma_sp_ws_len(s);
    let s0 = sp_ws(s);
    if s0.len() > 0 && !(first && s0[0] == '}') {
        lemma_sp_string_len(s0);
        match sp_string(s0) {
            Ok((key, r1)) => {
                lemma_sp_ws_len(r1);
                match sp_char(sp_ws(r1), ':') {
                    Ok(r2) => {
                        lemma_sp_ws_len(r2);
                        let s2 = sp_ws(r2);
                        lemma_sp_num_token_len(s2);
                        crate::skip::lemma_sp_skip_value_len(s2);
                        match crate::skip::sp_skip_value(s2) {
                            Ok(r3) => {
                                lemma_sp_rotation_after_len(r3, qx, qy, qz, qw);
                            },
                            Err(e) => {},
                        }
                        match sp_number(s2) {
                            Ok((v, r3)) => {
                                lemma_sp_rotation_after_len(r3, Some(v), qy, qz, qw);
                                lemma_sp_rotation_after_len(r3, qx, Some(v), qz, qw);
                                lemma_sp_rotation_after_len(r3, qx, qy, Some(v), qw);
                                lemma_sp_rotation_after_len(r3, qx, qy, qz, Some(v));
                            },
                            Err(e) => {},
                        }
                    },
                    Err(e) => {},
                }
            },
            Err(e) => {},
        }
    }
}

proof fn lemma_sp_rotation_after_len(s: Seq<char>, qx: Option<Seq<char>>, qy: Option<Seq<char>>, qz: Option<Seq<char>>, qw: Option<Seq<char>>)
    ensures
        match sp_rotation_after(s, qx, qy, qz, qw) {
            Ok((v, r)) => r.len() <= s.len(),
            Err(e) => true,
        },
    decreases s.len(), 0int,
{
    lemma_sp_ws_len(s);
    let s0 = sp_ws(s);
    if s0.len() > 0 && s0[0] == ',' {
        lemma_sp_rotation_members_len(s0.drop_first(), qx, qy, qz, qw, false);
    }
}

/// The whole decode of one rotation: the value, with nothing but whitespace
/// after it.
pub open spec fn dec_rotation(s: Seq<char>) -> Result<RotationV, DecodeErr> {
    match sp_rotation(s) {
        Ok((v, rest)) => if sp_ws(rest).len() == 0 {
            Ok(v)
        } else {
            Err(DecodeErr::TrailingText)
        },
        Err(e) => Err(e),
    }
}

impl Rotation {
    /// The wire text of this rotation.
    pub fn to_json(&self) -> (r: String)
        ensures
            r@ == enc_rotation(self@),
    {
        let mut out: Vec<char> = Vec::new();
        push_rotation(self, &mut out);
        crate::strutil::chars_to_string(&out)
    }

    /// Reads a rotation from wire text: exactly one rotation object, surrounded
    /// by nothing but whitespace. Fails on a missing or repeated key, a value of the wrong shape, malformed text, or trailing text; an object member with an unknown key is read and ignored.
    pub fn from_json(s: &str) -> (r: Result<Rotation, DecodeErr>)
        ensures
            match r {
                Ok(v) => dec_rotation(s@) == Ok::<RotationV, DecodeErr>(v@),
                Err(e) => dec_rotation(s@) == Err::<RotationV, DecodeErr>(e),
            },
    {
        let chars = crate::strutil::str_to_chars(s);
        proof {
            assert(chars@.skip(0) =~= s@);
        }
        match p_rotation(&chars, 0) {
            Ok((v, j)) => {
                let j2 = p_ws(&chars, j);
                if j2 == chars.len() {
                    proof {
                        assert(sp_ws(chars@.skip(j as int)).len() == 0);
                    }
                    Ok(v)
                } else {
                    proof {
                        assert(sp_ws(chars@.skip(j as int)).len() > 0);
                    }
                    Err(DecodeErr::TrailingText)
                }
            },
            Err(e) => Err(e),
        }
    }
}

/// Round trip: decoding an encoded rotation yields the rotation back.
pub proof fn lemma_rotation_round_trip(v: RotationV)
    requires
        wf_rotation(v),
    ensures
        dec_rotation(enc_rotation(v)) == Ok::<RotationV, DecodeErr>(v),
{
    lemma_rotation_rt(v, Seq::empty());
    assert(enc_rotation(v) + Seq::<char>::empty() =~= enc_rotation(v));
}

} // verus!
