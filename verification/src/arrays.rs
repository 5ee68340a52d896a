//! Flat JSON arrays of number tokens and of integers.

use vstd::prelude::*;
use crate::err::DecodeErr;
use crate::intdec::dec_int;
use crate::number::Number;
use crate::numtok::{is_num_token, is_canon_token};
use crate::parse::{
    sp_ws, sp_char, sp_num_token, sp_number, sp_int_i32, in_i32,
    p_ws, p_number, p_int_i32,
    lemma_sp_ws_len, lemma_sp_num_token_len, lemma_sp_int_len,
};
use crate::rt::{lemma_number_rt, lemma_int_i32_rt, lemma_dec_int_token};
use crate::strutil::push_lit;

verus! {

/// The tokens of a vector of numbers.
pub open spec fn nums_view(v: Seq<Number>) -> Seq<Seq<char>> {
    Seq::new(v.len(), |i: int| v[i]@)
}

/// The values of a vector of integers.
pub open spec fn ints_view(v: Seq<i32>) -> Seq<int> {
    Seq::new(v.len(), |i: int| v[i] as int)
}

/// Every token of the sequence is a well-formed canonical number token.
pub open spec fn wf_tokens(ts: Seq<Seq<char>>) -> bool {
    forall|i: int| 0 <= i < ts.len() ==> is_canon_token(ts[i])
}

/// Every value lies in the range of `i32`.
pub open spec fn wf_ints(vs: Seq<int>) -> bool {
    forall|i: int| 0 <= i < vs.len() ==> in_i32(vs[i])
}

/// The comma-separated items of an array of number tokens.
pub open spec fn enc_nums_items(ts: Seq<Seq<char>>) -> Seq<char>
    decreases ts.len(),
{
    if ts.len() == 0 {
        Seq::empty()
    } else if ts.len() == 1 {
        ts[0]
    } else {
        ts[0] + seq![','] + enc_nums_items(ts.drop_first())
    }
}

/// The wire text of an array of number tokens.
pub open spec fn enc_nums(ts: Seq<Seq<char>>) -> Seq<char> {
    seq!['['] + enc_nums_items(ts) + seq![']']
}

/// The comma-separated items of an array of integers.
pub open spec fn enc_ints_items(vs: Seq<int>) -> Seq<char>
    decreases vs.len(),
{
    if vs.len() == 0 {
        Seq::empty()
    } else if vs.len() == 1 {
        dec_int(vs[0])
    } else {
        dec_int(vs[0]) + seq![','] + enc_ints_items(vs.drop_first())
    }
}

/// The wire text of an array of integers.
pub open spec fn enc_ints(vs: Seq<int>) -> Seq<char> {
    seq!['['] + enc_ints_items(vs) + seq![']']
}

/// An item of a number array, then the rest of the array.
pub open spec fn sp_nums_items(s: Seq<char>, acc: Seq<Seq<char>>, first: bool)
    -> Result<(Seq<Seq<char>>, Seq<char>), DecodeErr>
    decreases s.len(), 1int,
{
    let s0 = sp_ws(s);
    if s0.len() == 0 {
        Err(DecodeErr::Syntax)
    } else if first && s0[0] == ']' {
        Ok((acc, s0.drop_first()))
    } else {
        proof {
            lemma_sp_ws_len(s);
            lemma_sp_num_token_len(s0);
        }
        match sp_number(s0) {
            Ok((t, r1)) => sp_nums_after(r1, acc.push(t)),
            Err(e) => Err(e),
        }
    }
}

/// After an item of a number array.
pub open spec fn sp_nums_after(s: Seq<char>, acc: Seq<Seq<char>>)
    -> Result<(Seq<Seq<char>>, Seq<char>), DecodeErr>
    decreases s.len(), 0int,
{
    let s0 = sp_ws(s);
    if s0.len() == 0 {
        Err(DecodeErr::Syntax)
    } else if s0[0] == ']' {
        Ok((acc, s0.drop_first()))
    } else if s0[0] == ',' {
        proof {
            lemma_sp_ws_len(s);
        }
        sp_nums_items(s0.drop_first(), acc, false)
    } else {
        Err(DecodeErr::Syntax)
    }
}

/// A whole array of number tokens.
pub open spec fn sp_nums(s: Seq<char>) -> Result<(Seq<Seq<char>>, Seq<char>), DecodeErr> {
    match sp_char(sp_ws(s), '[') {
        Ok(r) => sp_nums_items(r, Seq::empty(), true),
        Err(e) => Err(e),
    }
}

/// An item of an integer array, then the rest of the array.
pub open spec fn sp_ints_items(s: Seq<char>, acc: Seq<int>, first: bool)
    -> Result<(Seq<int>, Seq<char>), DecodeErr>
    decreases s.len(), 1int,
{
    let s0 = sp_ws(s);
    if s0.len() == 0 {
        Err(DecodeErr::Syntax)
    } else if first && s0[0] == ']' {
        Ok((acc, s0.drop_first()))
    } else {
        proof {
            lemma_sp_ws_len(s);
            lemma_sp_int_len(s0);
        }
        match sp_int_i32(s0) {
            Ok((v, r1)) => sp_ints_after(r1, acc.push(v)),
            Err(e) => Err(e),
        }
    }
}

/// After an item of an integer array.
pub open spec fn sp_ints_after(s: Seq<char>, acc: Seq<int>)
    -> Result<(Seq<int>, Seq<char>), DecodeErr>
    decreases s.len(), 0int,
{
    let s0 = sp_ws(s);
    if s0.len() == 0 {
        Err(DecodeErr::Syntax)
    } else if s0[0] == ']' {
        Ok((acc, s0.drop_first()))
    } else if s0[0] == ',' {
        proof {
            lemma_sp_ws_len(s);
        }
        sp_ints_items(s0.drop_first(), acc, false)
    } else {
        Err(DecodeErr::Syntax)
    }
}

/// A whole array of integers.
pub open spec fn sp_ints(s: Seq<char>) -> Result<(Seq<int>, Seq<char>), DecodeErr> {
    match sp_char(sp_ws(s), '[') {
        Ok(r) => sp_ints_items(r, Seq::empty(), true),
        Err(e) => Err(e),
    }
}

/// Reads the items of a number array.
fn p_nums_items(s: &Vec<char>, i: usize, acc: Vec<Number>, first: bool)
    -> (res: Result<(Vec<Number>, usize), DecodeErr>)
    requires
        i <= s@.len(),
    ensures
        match res {
            Ok((out, j)) => i <= j <= s@.len()
                && sp_nums_items(s@.skip(i as int), nums_view(acc@), first)
                    == Ok::<_, DecodeErr>((nums_view(out@), s@.skip(j as int))),
            Err(e) => sp_nums_items(s@.skip(i as int), nums_view(acc@), first)
                == Err::<(Seq<Seq<char>>, Seq<char>), _>(e),
        },
    decreases s@.len() - i, 1int,
{
    let ghost s0 = sp_ws(s@.skip(i as int));
    let j0 = p_ws(s, i);
    if j0 == s.len() {
        return Err(DecodeErr::Syntax);
    }
    proof {
        assert(s0[0] == s@[j0 as int]);
        assert(s0.drop_first() =~= s@.skip(j0 + 1 as int));
    }
    if first && s[j0] == ']' {
        return Ok((acc, j0 + 1));
    }
    match p_number(s, j0) {
        Ok((n, j1)) => {
            let mut acc = acc;
            let ghost acc0 = acc@;
            acc.push(n);
            proof {
                assert(nums_view(acc@) =~= nums_view(acc0).push(n@));
            }
            p_nums_after(s, j1, acc)
        },
        Err(e) => Err(e),
    }
}

/// Reads what follows an item of a number array.
fn p_nums_after(s: &Vec<char>, i: usize, acc: Vec<Number>)
    -> (res: Result<(Vec<Number>, usize), DecodeErr>)
    requires
        i <= s@.len(),
    ensures
        match res {
            Ok((out, j)) => i <= j <= s@.len()
                && sp_nums_after(s@.skip(i as int), nums_view(acc@))
                    == Ok::<_, DecodeErr>((nums_view(out@), s@.skip(j as int))),
            Err(e) => sp_nums_after(s@.skip(i as int), nums_view(acc@))
                == Err::<(Seq<Seq<char>>, Seq<char>), _>(e),
        },
    decreases s@.len() - i, 0int,
{
    let ghost s0 = sp_ws(s@.skip(i as int));
    let j0 = p_ws(s, i);
    if j0 == s.len() {
        return Err(DecodeErr::Syntax);
    }
    proof {
        assert(s0[0] == s@[j0 as int]);
        assert(s0.drop_first() =~= s@.skip(j0 + 1 as int));
    }
    if s[j0] == ']' {
        Ok((acc, j0 + 1))
    } else if s[j0] == ',' {
        p_nums_items(s, j0 + 1, acc, false)
    } else {
        Err(DecodeErr::Syntax)
    }
}

/// Reads a whole number array at `i`.
pub fn p_nums(s: &Vec<char>, i: usize) -> (res: Result<(Vec<Number>, usize), DecodeErr>)
    requires
        i <= s@.len(),
    ensures
        match res {
            Ok((out, j)) => i <= j <= s@.len()
                && sp_nums(s@.skip(i as int))
                    == Ok::<_, DecodeErr>((nums_view(out@), s@.skip(j as int))),
            Err(e) => sp_nums(s@.skip(i as int)) == Err::<(Seq<Seq<char>>, Seq<char>), _>(e),
        },
{
    let ghost s0 = sp_ws(s@.skip(i as int));
    let j0 = p_ws(s, i);
    if j0 < s.len() && s[j0] == '[' {
        proof {
            assert(s0[0] == s@[j0 as int]);
            assert(s0.drop_first() =~= s@.skip(j0 + 1 as int));
        }
        let acc: Vec<Number> = Vec::new();
        proof {
            assert(nums_view(acc@) =~= Seq::<Seq<char>>::empty());
        }
        p_nums_items(s, j0 + 1, acc, true)
    } else {
        proof {
            if j0 < s.len() {
                assert(s0[0] == s@[j0 as int]);
            }
        }
        Err(DecodeErr::Syntax)
    }
}

/// Reads the items of an integer array.
fn p_ints_items(s: &Vec<char>, i: usize, acc: Vec<i32>, first: bool)
    -> (res: Result<(Vec<i32>, usize), DecodeErr>)
    requires
        i <= s@.len(),
    ensures
        match res {
            Ok((out, j)) => i <= j <= s@.len()
                && sp_ints_items(s@.skip(i as int), ints_view(acc@), first)
                    == Ok::<_, DecodeErr>((ints_view(out@), s@.skip(j as int))),
            Err(e) => sp_ints_items(s@.skip(i as int), ints_view(acc@), first)
                == Err::<(Seq<int>, Seq<char>), _>(e),
        },
    decreases s@.len() - i, 1int,
{
    let ghost s0 = sp_ws(s@.skip(i as int));
    let j0 = p_ws(s, i);
    if j0 == s.len() {
        return Err(DecodeErr::Syntax);
    }
    proof {
        assert(s0[0] == s@[j0 as int]);
        assert(s0.drop_first() =~= s@.skip(j0 + 1 as int));
    }
    if first && s[j0] == ']' {
        return Ok((acc, j0 + 1));
    }
    match p_int_i32(s, j0) {
        Ok((v, j1)) => {
            let mut acc = acc;
            let ghost acc0 = acc@;
            acc.push(v);
            proof {
                assert(ints_view(acc@) =~= ints_view(acc0).push(v as int));
            }
            p_ints_after(s, j1, acc)
        },
        Err(e) => Err(e),
    }
}

/// Reads what follows an item of an integer array.
fn p_ints_after(s: &Vec<char>, i: usize, acc: Vec<i32>)
    -> (res: Result<(Vec<i32>, usize), DecodeErr>)
    requires
        i <= s@.len(),
    ensures
        match res {
            Ok((out, j)) => i <= j <= s@.len()
                && sp_ints_after(s@.skip(i as int), ints_view(acc@))
                    == Ok::<_, DecodeErr>((ints_view(out@), s@.skip(j as int))),
            Err(e) => sp_ints_after(s@.skip(i as int), ints_view(acc@))
                == Err::<(Seq<int>, Seq<char>), _>(e),
        },
    decreases s@.len() - i, 0int,
{
    let ghost s0 = sp_ws(s@.skip(i as int));
    let j0 = p_ws(s, i);
    if j0 == s.len() {
        return Err(DecodeErr::Syntax);
    }
    proof {
        assert(s0[0] == s@[j0 as int]);
        assert(s0.drop_first() =~= s@.skip(j0 + 1 as int));
    }
    if s[j0] == ']' {
        Ok((acc, j0 + 1))
    } else if s[j0] == ',' {
        p_ints_items(s, j0 + 1, acc, false)
    } else {
        Err(DecodeErr::Syntax)
    }
}

/// Reads a whole integer array at `i`.
pub fn p_ints(s: &Vec<char>, i: usize) -> (res: Result<(Vec<i32>, usize), DecodeErr>)
    requires
        i <= s@.len(),
    ensures
        match res {
            Ok((out, j)) => i <= j <= s@.len()
                && sp_ints(s@.skip(i as int))
                    == Ok::<_, DecodeErr>((ints_view(out@), s@.skip(j as int))),
            Err(e) => sp_ints(s@.skip(i as int)) == Err::<(Seq<int>, Seq<char>), _>(e),
        },
{
    let ghost s0 = sp_ws(s@.skip(i as int));
    let j0 = p_ws(s, i);
    if j0 < s.len() && s[j0] == '[' {
        proof {
            assert(s0[0] == s@[j0 as int]);
            assert(s0.drop_first() =~= s@.skip(j0 + 1 as int));
        }
        let acc: Vec<i32> = Vec::new();
        proof {
            assert(ints_view(acc@) =~= Seq::<int>::empty());
        }
        p_ints_items(s, j0 + 1, acc, true)
    } else {
        proof {
            if j0 < s.len() {
                assert(s0[0] == s@[j0 as int]);
            }
        }
        Err(DecodeErr::Syntax)
    }
}

/// Appends the wire text of a number array to `out`.
pub fn push_nums(v: &Vec<Number>, out: &mut Vec<char>)
    ensures
        final(out)@ == old(out)@ + enc_nums(nums_view(v@)),
{
    out.push('[');
    let ghost ts = nums_view(v@);
    let mut k: usize = 0;
    while k < v.len()
        invariant
            k <= v@.len(),
            ts == nums_view(v@),
            out@ == old(out)@ + seq!['['] + enc_items_prefix(ts, k as int),
        decreases v@.len() - k,
    {
        if k > 0 {
            out.push(',');
        }
        push_lit(out, v[k].as_str());
        proof {
            lemma_enc_items_prefix_step(ts, k as int);
            assert(out@ =~= old(out)@ + seq!['['] + enc_items_prefix(ts, k + 1 as int));
        }
        k += 1;
    }
    out.push(']');
    proof {
        lemma_enc_items_prefix_all(ts);
        assert(final(out)@ =~= old(out)@ + enc_nums(ts));
    }
}

/// Appends the wire text of an integer array to `out`.
pub fn push_ints(v: &Vec<i32>, out: &mut Vec<char>)
    ensures
        final(out)@ == old(out)@ + enc_ints(ints_view(v@)),
{
    out.push('[');
    let ghost vs = ints_view(v@);
    let mut k: usize = 0;
    while k < v.len()
        invariant
            k <= v@.len(),
            vs == ints_view(v@),
            out@ == old(out)@ + seq!['['] + enc_ints_prefix(vs, k as int),
        decreases v@.len() - k,
    {
        if k > 0 {
            out.push(',');
        }
        crate::intdec::push_i32_dec(v[k], out);
        proof {
            lemma_enc_ints_prefix_step(vs, k as int);
            assert(out@ =~= old(out)@ + seq!['['] + enc_ints_prefix(vs, k + 1 as int));
        }
        k += 1;
    }
    out.push(']');
    proof {
        lemma_enc_ints_prefix_all(vs);
        assert(final(out)@ =~= old(out)@ + enc_ints(vs));
    }
}

/// The first `k` items of a number array, comma separated.
pub open spec fn enc_items_prefix(ts: Seq<Seq<char>>, k: int) -> Seq<char>
    decreases k,
{
    if k <= 0 {
        Seq::empty()
    } else if k == 1 {
        ts[0]
    } else {
        enc_items_prefix(ts, k - 1) + seq![','] + ts[k - 1]
    }
}

/// The first `k` items of an integer array, comma separated.
pub open spec fn enc_ints_prefix(vs: Seq<int>, k: int) -> Seq<char>
    decreases k,
{
    if k <= 0 {
        Seq::empty()
    } else if k == 1 {
        dec_int(vs[0])
    } else {
        enc_ints_prefix(vs, k - 1) + seq![','] + dec_int(vs[k - 1])
    }
}

proof fn lemma_enc_items_prefix_step(ts: Seq<Seq<char>>, k: int)
    requires
        0 <= k < ts.len(),
    ensures
        enc_items_prefix(ts, k + 1) == if k == 0 {
            enc_items_prefix(ts, k) + ts[k]
        } else {
            enc_items_prefix(ts, k) + seq![','] + ts[k]
        },
{
    if k == 0 {
        assert(enc_items_prefix(ts, 1) == ts[0]);
        assert(enc_items_prefix(ts, 0) + ts[0] =~= ts[0]);
    }
}

proof fn lemma_enc_ints_prefix_step(vs: Seq<int>, k: int)
    requires
        0 <= k < vs.len(),
    ensures
        enc_ints_prefix(vs, k + 1) == if k == 0 {
            enc_ints_prefix(vs, k) + dec_int(vs[k])
        } else {
            enc_ints_prefix(vs, k) + seq![','] + dec_int(vs[k])
        },
{
    if k == 0 {
        assert(enc_ints_prefix(vs, 1) == dec_int(vs[0]));
        assert(enc_ints_prefix(vs, 0) + dec_int(vs[0]) =~= dec_int(vs[0]));
    }
}

proof fn lemma_enc_items_prefix_all(ts: Seq<Seq<char>>)
    ensures
        enc_items_prefix(ts, ts.len() as int) == enc_nums_items(ts),
    decreases ts.len(),
{
    lemma_items_prefix_from(ts, ts.len() as int);
    assert(ts.subrange(0, ts.len() as int) =~= ts);
}

proof fn lemma_enc_ints_prefix_all(vs: Seq<int>)
    ensures
        enc_ints_prefix(vs, vs.len() as int) == enc_ints_items(vs),
{
    lemma_ints_prefix_from(vs, vs.len() as int);
    assert(vs.subrange(0, vs.len() as int) =~= vs);
}

proof fn lemma_items_prefix_from(ts: Seq<Seq<char>>, k: int)
    requires
        0 <= k <= ts.len(),
    ensures
        enc_items_prefix(ts, k) == enc_nums_items(ts.subrange(0, k)),
    decreases k,
{
    if k == 0 {
        assert(ts.subrange(0, 0) =~= Seq::<Seq<char>>::empty());
    } else if k == 1 {
        let p = ts.subrange(0, 1);
        assert(p.len() == 1);
        assert(p[0] == ts[0]);
        assert(enc_nums_items(p) == p[0]);
    } else {
        lemma_items_prefix_from(ts, k - 1);
        let p = ts.subrange(0, k);
        let q = ts.subrange(0, k - 1);
        lemma_items_snoc(q, ts[k - 1]);
        assert(p =~= q.push(ts[k - 1]));
    }
}

proof fn lemma_ints_prefix_from(vs: Seq<int>, k: int)
    requires
        0 <= k <= vs.len(),
    ensures
        enc_ints_prefix(vs, k) == enc_ints_items(vs.subrange(0, k)),
    decreases k,
{
    if k == 0 {
        assert(vs.subrange(0, 0) =~= Seq::<int>::empty());
    } else if k == 1 {
        let p = vs.subrange(0, 1);
        assert(p.len() == 1);
        assert(p[0] == vs[0]);
        assert(enc_ints_items(p) == dec_int(p[0]));
    } else {
        lemma_ints_prefix_from(vs, k - 1);
        let p = vs.subrange(0, k);
        let q = vs.subrange(0, k - 1);
        lemma_ints_snoc(q, vs[k - 1]);
        assert(p =~= q.push(vs[k - 1]));
    }
}

proof fn lemma_items_snoc(ts: Seq<Seq<char>>, t: Seq<char>)
    requires
        ts.len() >= 1,
    ensures
        enc_nums_items(ts.push(t)) == enc_nums_items(ts) + seq![','] + t,
    decreases ts.len(),
{
    let p = ts.push(t);
    assert(p[0] == ts[0]);
    if ts.len() == 1 {
        assert(p.drop_first() =~= seq![t]);
        assert(enc_nums_items(seq![t]) == t);
        assert(enc_nums_items(p) == ts[0] + seq![','] + t);
        assert(enc_nums_items(ts) == ts[0]);
    } else {
        assert(p.drop_first() =~= ts.drop_first().push(t));
        lemma_items_snoc(ts.drop_first(), t);
        assert(enc_nums_items(p) == p[0] + seq![','] + enc_nums_items(ts.drop_first().push(t)));
        assert(enc_nums_items(p) =~= enc_nums_items(ts) + seq![','] + t);
    }
}

proof fn lemma_ints_snoc(vs: Seq<int>, v: int)
    requires
        vs.len() >= 1,
    ensures
        enc_ints_items(vs.push(v)) == enc_ints_items(vs) + seq![','] + dec_int(v),
    decreases vs.len(),
{
    let p = vs.push(v);
    assert(p[0] == vs[0]);
    if vs.len() == 1 {
        assert(p.drop_first() =~= seq![v]);
        assert(enc_ints_items(seq![v]) == dec_int(v));
        assert(enc_ints_items(p) == dec_int(vs[0]) + seq![','] + dec_int(v));
        assert(enc_ints_items(vs) == dec_int(vs[0]));
    } else {
        assert(p.drop_first() =~= vs.drop_first().push(v));
        lemma_ints_snoc(vs.drop_first(), v);
        assert(enc_ints_items(p) == dec_int(p[0]) + seq![','] + enc_ints_items(vs.drop_first().push(v)));
        assert(enc_ints_items(p) =~= enc_ints_items(vs) + seq![','] + dec_int(v));
    }
}

/// Reading back the items of an encoded number array.
#[verifier::rlimit(100)]
proof fn lemma_nums_items_rt(ts: Seq<Seq<char>>, acc: Seq<Seq<char>>, rest: Seq<char>)
    requires
        wf_tokens(ts),
        ts.len() > 0,
    ensures
        sp_nums_items(enc_nums_items(ts) + seq![']'] + rest, acc, false)
            == Ok::<_, DecodeErr>((acc + ts, rest)),
        sp_nums_items(enc_nums_items(ts) + seq![']'] + rest, acc, true)
            == Ok::<_, DecodeErr>((acc + ts, rest)),
    decreases ts.len(),
{
    let u = enc_nums_items(ts) + seq![']'] + rest;
    let t0 = ts[0];
    crate::numtok::lemma_num_end_bounds(t0, 0);
    if ts.len() == 1 {
        let after = seq![']'] + rest;
        assert(u =~= t0 + after);
        assert(u[0] == t0[0]);
        assert(sp_ws(u) == u);
        lemma_number_rt(t0, after);
        assert(sp_ws(after) == after);
        assert(after[0] == ']');
        assert(after.drop_first() =~= rest);
        assert(acc.push(t0) =~= acc + ts);
    } else {
        let tail = enc_nums_items(ts.drop_first()) + seq![']'] + rest;
        let after = seq![','] + tail;
        assert(enc_nums_items(ts) == t0 + seq![','] + enc_nums_items(ts.drop_first()));
        assert(u =~= t0 + after);
        assert(u[0] == t0[0]);
        assert(sp_ws(u) == u);
        lemma_number_rt(t0, after);
        assert(sp_ws(after) == after);
        assert(after[0] == ',');
        assert(after.drop_first() =~= tail);
        assert(wf_tokens(ts.drop_first()));
        lemma_nums_items_rt(ts.drop_first(), acc.push(t0), rest);
        assert(acc.push(t0) + ts.drop_first() =~= acc + ts);
    }
}

/// Reading back an encoded number array.
#[verifier::rlimit(100)]
pub proof fn lemma_nums_rt(ts: Seq<Seq<char>>, rest: Seq<char>)
    requires
        wf_tokens(ts),
    ensures
        sp_nums(enc_nums(ts) + rest) == Ok::<_, DecodeErr>((ts, rest)),
{
    let u = enc_nums(ts) + rest;
    assert(u[0] == '[');
    assert(sp_ws(u) == u);
    if ts.len() == 0 {
        assert(enc_nums_items(ts) =~= Seq::<char>::empty());
        assert(u.drop_first() =~= seq![']'] + rest);
        let w = seq![']'] + rest;
        assert(sp_ws(w) == w);
        assert(w[0] == ']');
        assert(w.drop_first() =~= rest);
        assert(Seq::<Seq<char>>::empty() =~= ts);
    } else {
        assert(u.drop_first() =~= enc_nums_items(ts) + seq![']'] + rest);
        lemma_nums_items_rt(ts, Seq::empty(), rest);
        assert(Seq::<Seq<char>>::empty() + ts =~= ts);
    }
}

/// Reading back the items of an encoded integer array.
#[verifier::rlimit(100)]
proof fn lemma_ints_items_rt(vs: Seq<int>, acc: Seq<int>, rest: Seq<char>)
    requires
        wf_ints(vs),
        vs.len() > 0,
    ensures
        sp_ints_items(enc_ints_items(vs) + seq![']'] + rest, acc, false)
            == Ok::<_, DecodeErr>((acc + vs, rest)),
        sp_ints_items(enc_ints_items(vs) + seq![']'] + rest, acc, true)
            == Ok::<_, DecodeErr>((acc + vs, rest)),
    decreases vs.len(),
{
    let u = enc_ints_items(vs) + seq![']'] + rest;
    let t0 = dec_int(vs[0]);
    lemma_dec_int_token(vs[0]);
    crate::numtok::lemma_num_end_bounds(t0, 0);
    if vs.len() == 1 {
        let after = seq![']'] + rest;
        assert(u =~= t0 + after);
        assert(u[0] == t0[0]);
        assert(sp_ws(u) == u);
        lemma_int_i32_rt(vs[0], after);
        assert(sp_ws(after) == after);
        assert(after[0] == ']');
        assert(after.drop_first() =~= rest);
        assert(acc.push(vs[0]) =~= acc + vs);
    } else {
        let tail = enc_ints_items(vs.drop_first()) + seq![']'] + rest;
        let after = seq![','] + tail;
        assert(enc_ints_items(vs) == t0 + seq![','] + enc_ints_items(vs.drop_first()));
        assert(u =~= t0 + after);
        assert(u[0] == t0[0]);
        assert(sp_ws(u) == u);
        lemma_int_i32_rt(vs[0], after);
        assert(sp_ws(after) == after);
        assert(after[0] == ',');
        assert(after.drop_first() =~= tail);
        assert(wf_ints(vs.drop_first()));
        lemma_ints_items_rt(vs.drop_first(), acc.push(vs[0]), rest);
        assert(acc.push(vs[0]) + vs.drop_first() =~= acc + vs);
    }
}

/// Reading back an encoded integer array.
#[verifier::rlimit(100)]
pub proof fn lemma_ints_rt(vs: Seq<int>, rest: Seq<char>)
    requires
        wf_ints(vs),
    ensures
        sp_ints(enc_ints(vs) + rest) == Ok::<_, DecodeErr>((vs, rest)),
{
    let u = enc_ints(vs) + rest;
    assert(u[0] == '[');
    assert(sp_ws(u) == u);
    if vs.len() == 0 {
        assert(enc_ints_items(vs) =~= Seq::<char>::empty());
        assert(u.drop_first() =~= seq![']'] + rest);
        let w = seq![']'] + rest;
        assert(sp_ws(w) == w);
        assert(w[0] == ']');
        assert(w.drop_first() =~= rest);
        assert(Seq::<int>::empty() =~= vs);
    } else {
        assert(u.drop_first() =~= enc_ints_items(vs) + seq![']'] + rest);
        lemma_ints_items_rt(vs, Seq::empty(), rest);
        assert(Seq::<int>::empty() + vs =~= vs);
    }
}

} // verus!
