//! Skipping one JSON value of any shape: the reader accepts and ignores
//! object members whose key the format does not define, as the wire
//! format's tolerant readers do.
//!
//! The skipper validates strings and number tokens and tracks bracket
//! depth; it does not re-check the full grammar inside an ignored
//! composite value.

use vstd::prelude::*;
use crate::err::DecodeErr;
use crate::parse::{
    sp_ws, sp_string, sp_num_token, p_ws, p_string,
    lemma_sp_ws_len, lemma_sp_string_len, lemma_sp_num_token_len,
};
use crate::numtok::scan_number;

verus! {

/// The rest of the input after one ignored composite value, entered just
/// past its opening bracket with `depth` brackets open.
#[verifier::opaque]
pub open spec fn sp_skip_tree(s: Seq<char>, depth: nat) -> Result<Seq<char>, DecodeErr>
    decreases s.len(),
{
    let s0 = sp_ws(s);
    if s0.len() == 0 {
        Err(DecodeErr::Syntax)
    } else {
        let c = s0[0];
        proof {
            lemma_sp_ws_len(s);
            lemma_sp_string_len(s0);
            lemma_sp_num_token_len(s0);
        }
        if c == '}' || c == ']' {
            if depth <= 1 {
                Ok(s0.drop_first())
            } else {
                sp_skip_tree(s0.drop_first(), (depth - 1) as nat)
            }
        } else if c == '{' || c == '[' {
            sp_skip_tree(s0.drop_first(), depth + 1)
        } else if c == ',' || c == ':' {
            sp_skip_tree(s0.drop_first(), depth)
        } else if c == '"' {
            match sp_string(s0) {
                Ok((cc, r)) => sp_skip_tree(r, depth),
                Err(e) => Err(e),
            }
        } else if c == 't' {
            if s0.len() >= 4 && s0[1] == 'r' && s0[2] == 'u' && s0[3] == 'e' {
                sp_skip_tree(s0.skip(4), depth)
            } else {
                Err(DecodeErr::Syntax)
            }
        } else if c == 'f' {
            if s0.len() >= 5 && s0[1] == 'a' && s0[2] == 'l' && s0[3] == 's' && s0[4] == 'e' {
                sp_skip_tree(s0.skip(5), depth)
            } else {
                Err(DecodeErr::Syntax)
            }
        } else if c == 'n' {
            if s0.len() >= 4 && s0[1] == 'u' && s0[2] == 'l' && s0[3] == 'l' {
                sp_skip_tree(s0.skip(4), depth)
            } else {
                Err(DecodeErr::Syntax)
            }
        } else {
            match sp_num_token(s0) {
                Ok((t, r)) => sp_skip_tree(r, depth),
                Err(e) => Err(e),
            }
        }
    }
}

/// The rest of the input after one whole ignored JSON value.
#[verifier::opaque]
pub open spec fn sp_skip_value(s: Seq<char>) -> Result<Seq<char>, DecodeErr> {
    let s0 = sp_ws(s);
    if s0.len() == 0 {
        Err(DecodeErr::Syntax)
    } else {
        let c = s0[0];
        if c == '"' {
            match sp_string(s0) {
                Ok((cc, r)) => Ok(r),
                Err(e) => Err(e),
            }
        } else if c == '{' || c == '[' {
            sp_skip_tree(s0.drop_first(), 1)
        } else if c == 't' {
            if s0.len() >= 4 && s0[1] == 'r' && s0[2] == 'u' && s0[3] == 'e' {
                Ok(s0.skip(4))
            } else {
                Err(DecodeErr::Syntax)
            }
        } else if c == 'f' {
            if s0.len() >= 5 && s0[1] == 'a' && s0[2] == 'l' && s0[3] == 's' && s0[4] == 'e' {
                Ok(s0.skip(5))
            } else {
                Err(DecodeErr::Syntax)
            }
        } else if c == 'n' {
            if s0.len() >= 4 && s0[1] == 'u' && s0[2] == 'l' && s0[3] == 'l' {
                Ok(s0.skip(4))
            } else {
                Err(DecodeErr::Syntax)
            }
        } else {
            match sp_num_token(s0) {
                Ok((t, r)) => Ok(r),
                Err(e) => Err(e),
            }
        }
    }
}

/// Skipping a composite consumes at least one character.
pub proof fn lemma_sp_skip_tree_len(s: Seq<char>, depth: nat)
    ensures
        match sp_skip_tree(s, depth) {
            Ok(r) => r.len() < s.len(),
            Err(e) => true,
        },
    decreases s.len(),
{
    reveal(sp_skip_tree);
    lemma_sp_ws_len(s);
    let s0 = sp_ws(s);
    if s0.len() > 0 {
        let c = s0[0];
        lemma_sp_string_len(s0);
        lemma_sp_num_token_len(s0);
        if c == '}' || c == ']' {
            if depth > 1 {
                lemma_sp_skip_tree_len(s0.drop_first(), (depth - 1) as nat);
            }
        } else if c == '{' || c == '[' {
            lemma_sp_skip_tree_len(s0.drop_first(), depth + 1);
        } else if c == ',' || c == ':' {
            lemma_sp_skip_tree_len(s0.drop_first(), depth);
        } else if c == '"' {
            match sp_string(s0) {
                Ok((cc, r)) => {
                    lemma_sp_skip_tree_len(r, depth);
                },
                Err(e) => {},
            }
        } else if c == 't' || c == 'n' {
            if s0.len() >= 4 {
                lemma_sp_skip_tree_len(s0.skip(4), depth);
            }
        } else if c == 'f' {
            if s0.len() >= 5 {
                lemma_sp_skip_tree_len(s0.skip(5), depth);
            }
        } else {
            match sp_num_token(s0) {
                Ok((t, r)) => {
                    lemma_sp_skip_tree_len(r, depth);
                },
                Err(e) => {},
            }
        }
    }
}

/// Skipping a value consumes at least one character.
pub proof fn lemma_sp_skip_value_len(s: Seq<char>)
    ensures
        match sp_skip_value(s) {
            Ok(r) => r.len() < s.len(),
            Err(e) => true,
        },
{
    reveal(sp_skip_value);
    lemma_sp_ws_len(s);
    let s0 = sp_ws(s);
    if s0.len() > 0 {
        lemma_sp_string_len(s0);
        lemma_sp_num_token_len(s0);
        if s0[0] == '{' || s0[0] == '[' {
            lemma_sp_skip_tree_len(s0.drop_first(), 1);
        }
    }
}

/// Reads past one ignored composite value, entered just past its opening
/// bracket with `depth` brackets open.
fn p_skip_tree(s: &Vec<char>, i: usize, depth: usize) -> (res: Result<usize, DecodeErr>)
    requires
        i <= s@.len(),
        depth <= i,
    ensures
        match res {
            Ok(j) => i <= j <= s@.len()
                && sp_skip_tree(s@.skip(i as int), depth as nat)
                    == Ok::<_, DecodeErr>(s@.skip(j as int)),
            Err(e) => sp_skip_tree(s@.skip(i as int), depth as nat)
                == Err::<Seq<char>, _>(e),
        },
    decreases s@.len() - i,
{
    proof {
        reveal(sp_skip_tree);
    }
    let ghost s0 = sp_ws(s@.skip(i as int));
    let j0 = p_ws(s, i);
    if j0 == s.len() {
        return Err(DecodeErr::Syntax);
    }
    proof {
        assert(s0[0] == s@[j0 as int]);
        assert(s0.drop_first() =~= s@.skip(j0 + 1 as int));
    }
    let c = s[j0];
    if c == '}' || c == ']' {
        if depth <= 1 {
            Ok(j0 + 1)
        } else {
            p_skip_tree(s, j0 + 1, depth - 1)
        }
    } else if c == '{' || c == '[' {
        p_skip_tree(s, j0 + 1, depth + 1)
    } else if c == ',' || c == ':' {
        p_skip_tree(s, j0 + 1, depth)
    } else if c == '"' {
        proof {
            lemma_sp_string_len(s@.skip(j0 as int));
        }
        match p_string(s, j0) {
            Ok((cc, j1)) => p_skip_tree(s, j1, depth),
            Err(e) => Err(e),
        }
    } else if c == 't' {
        if s.len() - j0 >= 4 && s[j0 + 1] == 'r' && s[j0 + 2] == 'u' && s[j0 + 3] == 'e' {
            proof {
                assert(s0[1] == s@[j0 + 1 as int]);
                assert(s0[2] == s@[j0 + 2 as int]);
                assert(s0[3] == s@[j0 + 3 as int]);
                assert(s0.skip(4) =~= s@.skip(j0 + 4 as int));
            }
            p_skip_tree(s, j0 + 4, depth)
        } else {
            proof {
                lemma_lit_mismatch(s@, j0 as int, s0, 4);
            }
            Err(DecodeErr::Syntax)
        }
    } else if c == 'f' {
        if s.len() - j0 >= 5 && s[j0 + 1] == 'a' && s[j0 + 2] == 'l' && s[j0 + 3] == 's'
            && s[j0 + 4] == 'e' {
            proof {
                assert(s0[1] == s@[j0 + 1 as int]);
                assert(s0[2] == s@[j0 + 2 as int]);
                assert(s0[3] == s@[j0 + 3 as int]);
                assert(s0[4] == s@[j0 + 4 as int]);
                assert(s0.skip(5) =~= s@.skip(j0 + 5 as int));
            }
            p_skip_tree(s, j0 + 5, depth)
        } else {
            proof {
                lemma_lit_mismatch(s@, j0 as int, s0, 5);
            }
            Err(DecodeErr::Syntax)
        }
    } else if c == 'n' {
        if s.len() - j0 >= 4 && s[j0 + 1] == 'u' && s[j0 + 2] == 'l' && s[j0 + 3] == 'l' {
            proof {
                assert(s0[1] == s@[j0 + 1 as int]);
                assert(s0[2] == s@[j0 + 2 as int]);
                assert(s0[3] == s@[j0 + 3 as int]);
                assert(s0.skip(4) =~= s@.skip(j0 + 4 as int));
            }
            p_skip_tree(s, j0 + 4, depth)
        } else {
            proof {
                lemma_lit_mismatch(s@, j0 as int, s0, 4);
            }
            Err(DecodeErr::Syntax)
        }
    } else {
        proof {
            crate::parse::lemma_num_end_shift_pub(s@, j0 as int);
        }
        match scan_number(s, j0) {
            Some(e) => {
                proof {
                    assert(s0.subrange(0, e - j0) =~= s@.subrange(j0 as int, e as int));
                    assert(s0.skip(e - j0) =~= s@.skip(e as int));
                }
                p_skip_tree(s, e, depth)
            },
            None => Err(DecodeErr::Syntax),
        }
    }
}

/// The first characters of the suffix agree with the vector.
proof fn lemma_lit_mismatch(s: Seq<char>, j0: int, s0: Seq<char>, n: int)
    requires
        0 <= j0 <= s.len(),
        s0 == s.skip(j0),
        0 <= n,
    ensures
        forall|k: int| 0 <= k < n && j0 + k < s.len() ==> s0[k] == s[j0 + k],
        s0.len() == s.len() - j0,
{
}

/// Reads past one whole ignored JSON value at `i`.
pub fn p_skip_value(s: &Vec<char>, i: usize) -> (res: Result<usize, DecodeErr>)
    requires
        i <= s@.len(),
    ensures
        match res {
            Ok(j) => i <= j <= s@.len()
                && sp_skip_value(s@.skip(i as int)) == Ok::<_, DecodeErr>(s@.skip(j as int)),
            Err(e) => sp_skip_value(s@.skip(i as int)) == Err::<Seq<char>, _>(e),
        },
{
    proof {
        reveal(sp_skip_value);
    }
    let ghost s0 = sp_ws(s@.skip(i as int));
    let j0 = p_ws(s, i);
    if j0 == s.len() {
        return Err(DecodeErr::Syntax);
    }
    proof {
        assert(s0[0] == s@[j0 as int]);
        assert(s0.drop_first() =~= s@.skip(j0 + 1 as int));
    }
    let c = s[j0];
    if c == '"' {
        match p_string(s, j0) {
            Ok((cc, j1)) => Ok(j1),
            Err(e) => Err(e),
        }
    } else if c == '{' || c == '[' {
        p_skip_tree(s, j0 + 1, 1)
    } else if c == 't' {
        if s.len() - j0 >= 4 && s[j0 + 1] == 'r' && s[j0 + 2] == 'u' && s[j0 + 3] == 'e' {
            proof {
                assert(s0[1] == s@[j0 + 1 as int]);
                assert(s0[2] == s@[j0 + 2 as int]);
                assert(s0[3] == s@[j0 + 3 as int]);
                assert(s0.skip(4) =~= s@.skip(j0 + 4 as int));
            }
            Ok(j0 + 4)
        } else {
            proof {
                lemma_lit_mismatch(s@, j0 as int, s0, 4);
            }
            Err(DecodeErr::Syntax)
        }
    } else if c == 'f' {
        if s.len() - j0 >= 5 && s[j0 + 1] == 'a' && s[j0 + 2] == 'l' && s[j0 + 3] == 's'
            && s[j0 + 4] == 'e' {
            proof {
                assert(s0[1] == s@[j0 + 1 as int]);
                assert(s0[2] == s@[j0 + 2 as int]);
                assert(s0[3] == s@[j0 + 3 as int]);
                assert(s0[4] == s@[j0 + 4 as int]);
                assert(s0.skip(5) =~= s@.skip(j0 + 5 as int));
            }
            Ok(j0 + 5)
        } else {
            proof {
                lemma_lit_mismatch(s@, j0 as int, s0, 5);
            }
            Err(DecodeErr::Syntax)
        }
    } else if c == 'n' {
        if s.len() - j0 >= 4 && s[j0 + 1] == 'u' && s[j0 + 2] == 'l' && s[j0 + 3] == 'l' {
            proof {
                assert(s0[1] == s@[j0 + 1 as int]);
                assert(s0[2] == s@[j0 + 2 as int]);
                assert(s0[3] == s@[j0 + 3 as int]);
                assert(s0.skip(4) =~= s@.skip(j0 + 4 as int));
            }
            Ok(j0 + 4)
        } else {
            proof {
                lemma_lit_mismatch(s@, j0 as int, s0, 4);
            }
            Err(DecodeErr::Syntax)
        }
    } else {
        proof {
            crate::parse::lemma_num_end_shift_pub(s@, j0 as int);
        }
        match scan_number(s, j0) {
            Some(e) => {
                proof {
                    assert(s0.subrange(0, e - j0) =~= s@.subrange(j0 as int, e as int));
                    assert(s0.skip(e - j0) =~= s@.skip(e as int));
                }
                Ok(e)
            },
            None => Err(DecodeErr::Syntax),
        }
    }
}

} // verus!
