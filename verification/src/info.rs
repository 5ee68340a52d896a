//! The `info` mapping: free-form string keys to string values, held as an
//! ordered list of entries with pairwise-distinct keys, compared as a
//! mapping (insertion order irrelevant), and written as a JSON object.

use vstd::prelude::*;
use crate::err::DecodeErr;
use crate::escape::{enc_string, escape};
use crate::parse::{
    sp_ws, sp_char, sp_string, p_ws, p_string,
    lemma_sp_ws_len, lemma_sp_string_len,
};
use crate::rt::lemma_string_rt;
use crate::strutil::push_lit;

verus! {

/// The entries of an exec entry list.
pub open spec fn info_view(v: Seq<(String, String)>) -> Seq<(Seq<char>, Seq<char>)> {
    Seq::new(v.len(), |i: int| (v[i].0@, v[i].1@))
}

/// Some entry has this key.
pub open spec fn has_key(entries: Seq<(Seq<char>, Seq<char>)>, k: Seq<char>) -> bool {
    exists|i: int| 0 <= i < entries.len() && entries[i].0 == k
}

/// The first position holding this key.
pub open spec fn key_index(entries: Seq<(Seq<char>, Seq<char>)>, k: Seq<char>) -> int
    decreases entries.len(),
{
    if entries.len() == 0 {
        0
    } else if entries[0].0 == k {
        0
    } else {
        1 + key_index(entries.drop_first(), k)
    }
}

/// `key_index` names the first position with the key.
pub proof fn lemma_key_index(entries: Seq<(Seq<char>, Seq<char>)>, k: Seq<char>)
    requires
        has_key(entries, k),
    ensures
        0 <= key_index(entries, k) < entries.len(),
        entries[key_index(entries, k)].0 == k,
        forall|m: int| 0 <= m < key_index(entries, k) ==> entries[m].0 != k,
    decreases entries.len(),
{
    if entries.len() > 0 && entries[0].0 != k {
        assert(has_key(entries.drop_first(), k)) by {
            let i = choose|i: int| 0 <= i < entries.len() && entries[i].0 == k;
            assert(entries.drop_first()[i - 1] == entries[i]);
        }
        lemma_key_index(entries.drop_first(), k);
        assert(forall|m: int| 1 <= m < key_index(entries, k)
            ==> entries[m] == entries.drop_first()[m - 1]);
    }
}

/// Keys are pairwise distinct: the list denotes a mapping.
pub open spec fn wf_info(entries: Seq<(Seq<char>, Seq<char>)>) -> bool {
    forall|i: int, j: int|
        0 <= i < j < entries.len() ==> entries[i].0 != entries[j].0
}

/// The entries hold the same mapping: each entry of one occurs in the
/// other.
pub open spec fn info_equiv(
    a: Seq<(Seq<char>, Seq<char>)>, b: Seq<(Seq<char>, Seq<char>)>,
) -> bool {
    (forall|i: int| 0 <= i < a.len() ==> b.contains(a[i]))
        && (forall|j: int| 0 <= j < b.len() ==> a.contains(b[j]))
}

/// The comma-separated members of an info object.
pub open spec fn enc_info_items(entries: Seq<(Seq<char>, Seq<char>)>) -> Seq<char>
    decreases entries.len(),
{
    if entries.len() == 0 {
        Seq::empty()
    } else if entries.len() == 1 {
        enc_string(entries[0].0) + seq![':'] + enc_string(entries[0].1)
    } else {
        enc_string(entries[0].0) + seq![':'] + enc_string(entries[0].1) + seq![',']
            + enc_info_items(entries.drop_first())
    }
}

/// The wire text of an info object.
pub open spec fn enc_info(entries: Seq<(Seq<char>, Seq<char>)>) -> Seq<char> {
    seq!['{'] + enc_info_items(entries) + seq!['}']
}

/// One member of an info object, then the rest of the object. A
/// repeated key keeps its place and takes the later value, as a mapping
/// read member by member does.
pub open spec fn sp_info_items(
    s: Seq<char>, acc: Seq<(Seq<char>, Seq<char>)>, first: bool,
) -> Result<(Seq<(Seq<char>, Seq<char>)>, Seq<char>), DecodeErr>
    decreases s.len(), 1int,
{
    let s0 = sp_ws(s);
    if s0.len() == 0 {
        Err(DecodeErr::Syntax)
    } else if first && s0[0] == '}' {
        Ok((acc, s0.drop_first()))
    } else {
        match sp_string(s0) {
            Ok((key, r1)) => {
                let s1 = sp_ws(r1);
                match sp_char(s1, ':') {
                    Ok(r2) => {
                        let s2 = sp_ws(r2);
                        proof {
                            lemma_sp_ws_len(s);
                            lemma_sp_string_len(s0);
                            lemma_sp_ws_len(r1);
                            lemma_sp_ws_len(r2);
                            lemma_sp_string_len(s2);
                        }
                        match sp_string(s2) {
                            Ok((val, r3)) => if has_key(acc, key) {
                                sp_info_after(r3, acc.update(key_index(acc, key), (key, val)))
                            } else {
                                sp_info_after(r3, acc.push((key, val)))
                            },
                            Err(e) => Err(e),
                        }
                    },
                    Err(e) => Err(e),
                }
            },
            Err(e) => Err(e),
        }
    }
}

/// After a member of an info object.
pub open spec fn sp_info_after(
    s: Seq<char>, acc: Seq<(Seq<char>, Seq<char>)>,
) -> Result<(Seq<(Seq<char>, Seq<char>)>, Seq<char>), DecodeErr>
    decreases s.len(), 0int,
{
    let s0 = sp_ws(s);
    if s0.len() == 0 {
        Err(DecodeErr::Syntax)
    } else if s0[0] == '}' {
        Ok((acc, s0.drop_first()))
    } else if s0[0] == ',' {
        proof {
            lemma_sp_ws_len(s);
        }
        sp_info_items(s0.drop_first(), acc, false)
    } else {
        Err(DecodeErr::Syntax)
    }
}

/// A whole info object.
pub open spec fn sp_info(s: Seq<char>)
    -> Result<(Seq<(Seq<char>, Seq<char>)>, Seq<char>), DecodeErr> {
    match sp_char(sp_ws(s), '{') {
        Ok(r) => sp_info_items(r, Seq::empty(), true),
        Err(e) => Err(e),
    }
}

/// An info parse consumes at least one character.
pub proof fn lemma_sp_info_len(s: Seq<char>)
    ensures
        match sp_info(s) {
            Ok((v, r)) => r.len() < s.len(),
            Err(e) => true,
        },
{
    lemma_sp_ws_len(s);
    let s0 = sp_ws(s);
    if s0.len() > 0 && s0[0] == '{' {
        if sp_info(s) is Ok {
            lemma_sp_info_items_len(s0.drop_first(), Seq::empty(), true);
        }
    }
}

proof fn lemma_sp_info_items_len(s: Seq<char>, acc: Seq<(Seq<char>, Seq<char>)>, first: bool)
    ensures
        match sp_info_items(s, acc, first) {
            Ok((v, r)) => r.len() <= s.len(),
            Err(e) => true,
        },
    decreases s.len(), 1int,
{
    lemma_sp_ws_len(s);
    let s0 = sp_ws(s);
    if s0.len() > 0 && !(first && s0[0] == '}') {
        lemma_sp_string_len(s0);
        match sp_string(s0) {
            Ok((key, r1)) => {
                lemma_sp_ws_len(r1);
                match sp_char(sp_ws(r1), ':') {
                    Ok(r2) => {
                        lemma_sp_ws_len(r2);
                        let s2 = sp_ws(r2);
                        lemma_sp_string_len(s2);
                        match sp_string(s2) {
                            Ok((val, r3)) => {
                                lemma_sp_info_after_len(r3, acc.push((key, val)));
                                lemma_sp_info_after_len(r3,
                                    acc.update(key_index(acc, key), (key, val)));
                            },
                            Err(e) => {},
                        }
                    },
                    Err(e) => {},
                }
            },
            Err(e) => {},
        }
    }
}

proof fn lemma_sp_info_after_len(s: Seq<char>, acc: Seq<(Seq<char>, Seq<char>)>)
    ensures
        match sp_info_after(s, acc) {
            Ok((v, r)) => r.len() <= s.len(),
            Err(e) => true,
        },
    decreases s.len(), 0int,
{
    lemma_sp_ws_len(s);
    let s0 = sp_ws(s);
    if s0.len() > 0 && s0[0] == ',' {
        lemma_sp_info_items_len(s0.drop_first(), acc, false);
    }
}

/// The first position of the list holding this key, if any.
pub fn entries_key_index(v: &Vec<(String, String)>, k: &String) -> (r: Option<usize>)
    ensures
        match r {
            Some(ix) => has_key(info_view(v@), k@)
                && ix == key_index(info_view(v@), k@) && ix < v@.len(),
            None => !has_key(info_view(v@), k@),
        },
{
    let mut i: usize = 0;
    while i < v.len()
        invariant
            i <= v@.len(),
            forall|m: int| 0 <= m < i ==> info_view(v@)[m].0 != k@,
        decreases v@.len() - i,
    {
        if v[i].0.eq(k) {
            proof {
                assert(info_view(v@)[i as int].0 == k@);
                lemma_key_index(info_view(v@), k@);
                assert(key_index(info_view(v@), k@) == i as int) by {
                    let ki = key_index(info_view(v@), k@);
                    if ki < i as int {
                        assert(info_view(v@)[ki].0 != k@);
                    }
                }
            }
            return Some(i);
        }
        i += 1;
    }
    proof {
        if has_key(info_view(v@), k@) {
            let m = choose|m: int| 0 <= m < info_view(v@).len() && info_view(v@)[m].0 == k@;
            assert(false);
        }
    }
    None
}

/// Whether the keys of the list are pairwise distinct: the list denotes
/// one mapping.
pub fn entries_keys_distinct(v: &Vec<(String, String)>) -> (r: bool)
    ensures
        r == wf_info(info_view(v@)),
{
    let mut i: usize = 0;
    while i < v.len()
        invariant
            i <= v@.len(),
            forall|m: int, n: int| 0 <= m < n < v@.len() && m < i
                ==> info_view(v@)[m].0 != info_view(v@)[n].0,
        decreases v@.len() - i,
    {
        let mut j: usize = i + 1;
        while j < v.len()
            invariant
                i < j <= v@.len(),
                i < v@.len(),
                forall|m: int, n: int| 0 <= m < n < v@.len() && m < i
                    ==> info_view(v@)[m].0 != info_view(v@)[n].0,
                forall|n: int| i < n < j ==> info_view(v@)[i as int].0 != info_view(v@)[n].0,
            decreases v@.len() - j,
        {
            if v[i].0.eq(&v[j].0) {
                proof {
                    assert(info_view(v@)[i as int].0 == info_view(v@)[j as int].0);
                }
                return false;
            }
            proof {
                assert(info_view(v@)[i as int].0 != info_view(v@)[j as int].0);
            }
            j += 1;
        }
        i += 1;
    }
    true
}

/// Reads the members of an info object.
fn p_info_items(s: &Vec<char>, i: usize, acc: Vec<(String, String)>, first: bool)
    -> (res: Result<(Vec<(String, String)>, usize), DecodeErr>)
    requires
        i <= s@.len(),
    ensures
        match res {
            Ok((out, j)) => i <= j <= s@.len()
                && sp_info_items(s@.skip(i as int), info_view(acc@), first)
                    == Ok::<_, DecodeErr>((info_view(out@), s@.skip(j as int))),
            Err(e) => sp_info_items(s@.skip(i as int), info_view(acc@), first)
                == Err::<(Seq<(Seq<char>, Seq<char>)>, Seq<char>), _>(e),
        },
    decreases s@.len() - i, 1int,
{
    let ghost s0 = sp_ws(s@.skip(i as int));
    let j0 = p_ws(s, i);
    if j0 == s.len() {
        return Err(DecodeErr::Syntax);
    }
    proof {
        assert(s0[0] == s@[j0 as int]);
        assert(s0.drop_first() =~= s@.skip(j0 + 1 as int));
    }
    if first && s[j0] == '}' {
        return Ok((acc, j0 + 1));
    }
    match p_string(s, j0) {
        Ok((key, j1)) => {
            let j2 = p_ws(s, j1);
            let ghost s1 = sp_ws(s@.skip(j1 as int));
            if j2 == s.len() || s[j2] != ':' {
                proof {
                    if j2 < s.len() {
                        assert(s1[0] == s@[j2 as int]);
                    }
                }
                return Err(DecodeErr::Syntax);
            }
            proof {
                assert(s1[0] == s@[j2 as int]);
                assert(s1.drop_first() =~= s@.skip(j2 + 1 as int));
            }
            let j3 = p_ws(s, j2 + 1);
            match p_string(s, j3) {
                Ok((val, j4)) => {
                    let mut acc = acc;
                    let ghost acc0 = acc@;
                    let ghost gk = key@;
                    let ghost gv = val@;
                    match entries_key_index(&acc, &key) {
                        Some(ix) => {
                            proof {
                                lemma_key_index(info_view(acc0), gk);
                            }
                            acc[ix] = (key, val);
                            proof {
                                assert(info_view(acc@) =~= info_view(acc0).update(
                                    key_index(info_view(acc0), gk), (gk, gv)));
                            }
                        },
                        None => {
                            acc.push((key, val));
                            proof {
                                assert(info_view(acc@) =~= info_view(acc0).push((gk, gv)));
                            }
                        },
                    }
                    p_info_after(s, j4, acc)
                },
                Err(e) => Err(e),
            }
        },
        Err(e) => Err(e),
    }
}

/// Reads what follows a member of an info object.
fn p_info_after(s: &Vec<char>, i: usize, acc: Vec<(String, String)>)
    -> (res: Result<(Vec<(String, String)>, usize), DecodeErr>)
    requires
        i <= s@.len(),
    ensures
        match res {
            Ok((out, j)) => i <= j <= s@.len()
                && sp_info_after(s@.skip(i as int), info_view(acc@))
                    == Ok::<_, DecodeErr>((info_view(out@), s@.skip(j as int))),
            Err(e) => sp_info_after(s@.skip(i as int), info_view(acc@))
                == Err::<(Seq<(Seq<char>, Seq<char>)>, Seq<char>), _>(e),
        },
    decreases s@.len() - i, 0int,
{
    let ghost s0 = sp_ws(s@.skip(i as int));
    let j0 = p_ws(s, i);
    if j0 == s.len() {
        return Err(DecodeErr::Syntax);
    }
    proof {
        assert(s0[0] == s@[j0 as int]);
        assert(s0.drop_first() =~= s@.skip(j0 + 1 as int));
    }
    if s[j0] == '}' {
        Ok((acc, j0 + 1))
    } else if s[j0] == ',' {
        p_info_items(s, j0 + 1, acc, false)
    } else {
        Err(DecodeErr::Syntax)
    }
}

/// Reads a whole info object at `i`.
pub fn p_info(s: &Vec<char>, i: usize)
    -> (res: Result<(Vec<(String, String)>, usize), DecodeErr>)
    requires
        i <= s@.len(),
    ensures
        match res {
            Ok((out, j)) => i <= j <= s@.len()
                && sp_info(s@.skip(i as int))
                    == Ok::<_, DecodeErr>((info_view(out@), s@.skip(j as int))),
            Err(e) => sp_info(s@.skip(i as int))
                == Err::<(Seq<(Seq<char>, Seq<char>)>, Seq<char>), _>(e),
        },
{
    let ghost s0 = sp_ws(s@.skip(i as int));
    let j0 = p_ws(s, i);
    if j0 < s.len() && s[j0] == '{' {
        proof {
            assert(s0[0] == s@[j0 as int]);
            assert(s0.drop_first() =~= s@.skip(j0 + 1 as int));
        }
        let acc: Vec<(String, String)> = Vec::new();
        proof {
            assert(info_view(acc@) =~= Seq::<(Seq<char>, Seq<char>)>::empty());
        }
        p_info_items(s, j0 + 1, acc, true)
    } else {
        proof {
            if j0 < s.len() {
                assert(s0[0] == s@[j0 as int]);
            }
        }
        Err(DecodeErr::Syntax)
    }
}

/// The first `k` members, comma separated.
pub open spec fn enc_info_prefix(entries: Seq<(Seq<char>, Seq<char>)>, k: int) -> Seq<char>
    decreases k,
{
    if k <= 0 {
        Seq::empty()
    } else if k == 1 {
        enc_string(entries[0].0) + seq![':'] + enc_string(entries[0].1)
    } else {
        enc_info_prefix(entries, k - 1) + seq![','] + enc_string(entries[k - 1].0)
            + seq![':'] + enc_string(entries[k - 1].1)
    }
}

proof fn lemma_info_snoc(entries: Seq<(Seq<char>, Seq<char>)>, e: (Seq<char>, Seq<char>))
    requires
        entries.len() >= 1,
    ensures
        enc_info_items(entries.push(e)) == enc_info_items(entries) + seq![',']
            + enc_string(e.0) + seq![':'] + enc_string(e.1),
    decreases entries.len(),
{
    let p = entries.push(e);
    assert(p[0] == entries[0]);
    if entries.len() == 1 {
        assert(p.drop_first() =~= seq![e]);
        assert(enc_info_items(seq![e]) == enc_string(e.0) + seq![':'] + enc_string(e.1));
        assert(enc_info_items(p) =~= enc_info_items(entries) + seq![',']
            + enc_string(e.0) + seq![':'] + enc_string(e.1));
    } else {
        assert(p.drop_first() =~= entries.drop_first().push(e));
        lemma_info_snoc(entries.drop_first(), e);
        assert(enc_info_items(p) =~= enc_info_items(entries) + seq![',']
            + enc_string(e.0) + seq![':'] + enc_string(e.1));
    }
}

proof fn lemma_info_prefix_from(entries: Seq<(Seq<char>, Seq<char>)>, k: int)
    requires
        0 <= k <= entries.len(),
    ensures
        enc_info_prefix(entries, k) == enc_info_items(entries.subrange(0, k)),
    decreases k,
{
    if k == 0 {
        assert(entries.subrange(0, 0) =~= Seq::<(Seq<char>, Seq<char>)>::empty());
    } else if k == 1 {
        let p = entries.subrange(0, 1);
        assert(p[0] == entries[0]);
        assert(enc_info_items(p) == enc_string(p[0].0) + seq![':'] + enc_string(p[0].1));
    } else {
        lemma_info_prefix_from(entries, k - 1);
        let p = entries.subrange(0, k);
        let q = entries.subrange(0, k - 1);
        lemma_info_snoc(q, entries[k - 1]);
        assert(p =~= q.push(entries[k - 1]));
    }
}

/// Appends the wire text of an info object to `out`.
pub fn push_info(v: &Vec<(String, String)>, out: &mut Vec<char>)
    ensures
        final(out)@ == old(out)@ + enc_info(info_view(v@)),
{
    out.push('{');
    let ghost entries = info_view(v@);
    let mut k: usize = 0;
    while k < v.len()
        invariant
            k <= v@.len(),
            entries == info_view(v@),
            out@ == old(out)@ + seq!['{'] + enc_info_prefix(entries, k as int),
        decreases v@.len() - k,
    {
        if k > 0 {
            out.push(',');
        }
        crate::escape::push_json_string(v[k].0.as_str(), out);
        out.push(':');
        crate::escape::push_json_string(v[k].1.as_str(), out);
        proof {
            if k == 0 {
                assert(enc_info_prefix(entries, 1)
                    == enc_string(entries[0].0) + seq![':'] + enc_string(entries[0].1));
            }
            assert(out@ =~= old(out)@ + seq!['{'] + enc_info_prefix(entries, k + 1 as int));
        }
        k += 1;
    }
    out.push('}');
    proof {
        lemma_info_prefix_from(entries, entries.len() as int);
        assert(entries.subrange(0, entries.len() as int) =~= entries);
        assert(final(out)@ =~= old(out)@ + enc_info(entries));
    }
}

/// Reading back the members of an encoded info object.
#[verifier::rlimit(100)]
proof fn lemma_info_items_rt(
    entries: Seq<(Seq<char>, Seq<char>)>, acc: Seq<(Seq<char>, Seq<char>)>, rest: Seq<char>,
)
    requires
        entries.len() > 0,
        wf_info(acc + entries),
    ensures
        sp_info_items(enc_info_items(entries) + seq!['}'] + rest, acc, false)
            == Ok::<_, DecodeErr>((acc + entries, rest)),
        sp_info_items(enc_info_items(entries) + seq!['}'] + rest, acc, true)
            == Ok::<_, DecodeErr>((acc + entries, rest)),
    decreases entries.len(),
{
    let u = enc_info_items(entries) + seq!['}'] + rest;
    let e0 = entries[0];
    assert(!has_key(acc, e0.0)) by {
        assert(forall|i: int| 0 <= i < acc.len() ==> (acc + entries)[i] == acc[i]);
        assert((acc + entries)[acc.len() as int] == e0);
        if has_key(acc, e0.0) {
            let i = choose|i: int| 0 <= i < acc.len() && acc[i].0 == e0.0;
            assert((acc + entries)[i].0 == (acc + entries)[acc.len() as int].0);
            assert(false);
        }
    }
    if entries.len() == 1 {
        let after = seq!['}'] + rest;
        assert(u =~= enc_string(e0.0) + (seq![':'] + enc_string(e0.1) + after));
        assert(u[0] == '"');
        assert(sp_ws(u) == u);
        lemma_string_rt(e0.0, seq![':'] + enc_string(e0.1) + after);
        let t1 = seq![':'] + enc_string(e0.1) + after;
        assert(t1[0] == ':');
        assert(sp_ws(t1) == t1);
        assert(t1.drop_first() =~= enc_string(e0.1) + after);
        assert((enc_string(e0.1) + after)[0] == '"');
        assert(sp_ws(enc_string(e0.1) + after) == enc_string(e0.1) + after);
        lemma_string_rt(e0.1, after);
        assert(sp_ws(after) == after);
        assert(after[0] == '}');
        assert(after.drop_first() =~= rest);
        assert(acc.push(e0) =~= acc + entries);
    } else {
        let tail = enc_info_items(entries.drop_first()) + seq!['}'] + rest;
        let after = seq![','] + tail;
        assert(u =~= enc_string(e0.0) + (seq![':'] + enc_string(e0.1) + after));
        assert(u[0] == '"');
        assert(sp_ws(u) == u);
        lemma_string_rt(e0.0, seq![':'] + enc_string(e0.1) + after);
        let t1 = seq![':'] + enc_string(e0.1) + after;
        assert(t1[0] == ':');
        assert(sp_ws(t1) == t1);
        assert(t1.drop_first() =~= enc_string(e0.1) + after);
        assert((enc_string(e0.1) + after)[0] == '"');
        assert(sp_ws(enc_string(e0.1) + after) == enc_string(e0.1) + after);
        lemma_string_rt(e0.1, after);
        assert(sp_ws(after) == after);
        assert(after[0] == ',');
        assert(after.drop_first() =~= tail);
        assert(acc.push(e0) + entries.drop_first() =~= acc + entries);
        lemma_info_items_rt(entries.drop_first(), acc.push(e0), rest);
    }
}

/// Reading back an encoded info object.
#[verifier::rlimit(100)]
pub proof fn lemma_info_rt(entries: Seq<(Seq<char>, Seq<char>)>, rest: Seq<char>)
    requires
        wf_info(entries),
    ensures
        sp_info(enc_info(entries) + rest) == Ok::<_, DecodeErr>((entries, rest)),
{
    let u = enc_info(entries) + rest;
    assert(u[0] == '{');
    assert(sp_ws(u) == u);
    if entries.len() == 0 {
        assert(enc_info_items(entries) =~= Seq::<char>::empty());
        assert(u.drop_first() =~= seq!['}'] + rest);
        let w = seq!['}'] + rest;
        assert(sp_ws(w) == w);
        assert(w[0] == '}');
        assert(w.drop_first() =~= rest);
        assert(Seq::<(Seq<char>, Seq<char>)>::empty() =~= entries);
    } else {
        assert(u.drop_first() =~= enc_info_items(entries) + seq!['}'] + rest);
        assert(Seq::<(Seq<char>, Seq<char>)>::empty() + entries =~= entries);
        lemma_info_items_rt(entries, Seq::empty(), rest);
    }
}

/// Whether the list contains exactly this entry.
pub fn entries_contains(v: &Vec<(String, String)>, k: &String, val: &String) -> (r: bool)
    ensures
        r == info_view(v@).contains((k@, val@)),
{
    let mut i: usize = 0;
    while i < v.len()
        invariant
            i <= v@.len(),
            forall|m: int| 0 <= m < i ==> info_view(v@)[m] != (k@, val@),
        decreases v@.len() - i,
    {
        if v[i].0.eq(k) && v[i].1.eq(val) {
            proof {
                assert(info_view(v@)[i as int] == (k@, val@));
            }
            return true;
        }
        proof {
            assert(info_view(v@)[i as int] != (k@, val@));
        }
        i += 1;
    }
    proof {
        if info_view(v@).contains((k@, val@)) {
            let m = choose|m: int| 0 <= m < info_view(v@).len() && info_view(v@)[m] == (k@, val@);
            assert(false);
        }
    }
    false
}

/// Whether the two lists hold the same mapping.
pub fn entries_equiv(a: &Vec<(String, String)>, b: &Vec<(String, String)>) -> (r: bool)
    ensures
        r == info_equiv(info_view(a@), info_view(b@)),
{
    let mut i: usize = 0;
    while i < a.len()
        invariant
            i <= a@.len(),
            forall|m: int| 0 <= m < i ==> info_view(b@).contains(info_view(a@)[m]),
        decreases a@.len() - i,
    {
        if !entries_contains(b, &a[i].0, &a[i].1) {
            proof {
                assert(info_view(a@)[i as int] == (a@[i as int].0@, a@[i as int].1@));
            }
            return false;
        }
        proof {
            assert(info_view(a@)[i as int] == (a@[i as int].0@, a@[i as int].1@));
        }
        i += 1;
    }
    let mut j: usize = 0;
    while j < b.len()
        invariant
            j <= b@.len(),
            forall|m: int| 0 <= m < a@.len() ==> info_view(b@).contains(info_view(a@)[m]),
            forall|m: int| 0 <= m < j ==> info_view(a@).contains(info_view(b@)[m]),
        decreases b@.len() - j,
    {
        if !entries_contains(a, &b[j].0, &b[j].1) {
            proof {
                assert(info_view(b@)[j as int] == (b@[j as int].0@, b@[j as int].1@));
            }
            return false;
        }
        proof {
            assert(info_view(b@)[j as int] == (b@[j as int].0@, b@[j as int].1@));
        }
        j += 1;
    }
    true
}

} // verus!
