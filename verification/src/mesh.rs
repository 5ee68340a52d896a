//! `Mesh`: raw triangle geometry identified by an integer id, with
//! structural equality and the wire format
//! `{"mesh_id":..,"coordinates":[..],"indices":[..]}`.

use vstd::prelude::*;
use crate::arrays::{
    nums_view, ints_view, wf_tokens, wf_ints, enc_nums, enc_ints,
    sp_nums, sp_ints, p_nums, p_ints, push_nums, push_ints,
    lemma_nums_rt, lemma_ints_rt,
};
use crate::err::DecodeErr;
use crate::intdec::dec_int;
use crate::number::Number;
use crate::parse::{
    sp_ws, sp_char, sp_string, sp_int_i32, in_i32,
    p_ws, p_string, p_int_i32,
    lemma_sp_ws_len, lemma_sp_string_len, lemma_sp_int_len,
};
use crate::rt::{lemma_string_rt, lemma_int_i32_rt, lemma_escape_plain, lemma_dec_int_token};
use crate::escape::enc_string;
use crate::strutil::push_lit;

verus! {

/// Triangle geometry: an identifier, a flat list of vertex coordinates
/// and a flat list of triangle indices. No cross-field relation is
/// enforced; that validation belongs to the caller (`validate` offers it).
pub struct Mesh {
    /// The identifier for the mesh; documented as non-negative, unenforced.
    pub mesh_id: i32,
    /// The vertex coordinates, three per vertex.
    pub coordinates: Vec<Number>,
    /// The triangle indices, three per triangle.
    pub indices: Vec<i32>,
}

/// The mathematical value of a `Mesh`.
#[verifier::ext_equal]
pub ghost struct MeshV {
    pub mesh_id: int,
    pub coordinates: Seq<Seq<char>>,
    pub indices: Seq<int>,
}

impl View for Mesh {
    type V = MeshV;

    open spec fn view(&self) -> MeshV {
        MeshV {
            mesh_id: self.mesh_id as int,
            coordinates: nums_view(self.coordinates@),
            indices: ints_view(self.indices@),
        }
    }
}

/// The identifier is in range and every coordinate token is well formed.
pub open spec fn wf_mesh(v: MeshV) -> bool {
    in_i32(v.mesh_id) && wf_tokens(v.coordinates) && wf_ints(v.indices)
}

impl Mesh {
    /// A mesh from its parts, taken verbatim.
    pub fn new(mesh_id: i32, coordinates: Vec<Number>, indices: Vec<i32>) -> (m: Mesh)
        ensures
            m@ == (MeshV {
                mesh_id: mesh_id as int,
                coordinates: nums_view(coordinates@),
                indices: ints_view(indices@),
            }),
    {
        Mesh { mesh_id, coordinates, indices }
    }

    /// The documented cross-field conditions that the type itself leaves
    /// unenforced: a non-negative identifier, coordinates in threes and
    /// indices in threes.
    pub fn validate(&self) -> (r: bool)
        ensures
            r == (self@.mesh_id >= 0
                && self@.coordinates.len() % 3 == 0
                && self@.indices.len() % 3 == 0),
    {
        self.mesh_id >= 0 && self.coordinates.len() % 3 == 0 && self.indices.len() % 3 == 0
    }
}

impl PartialEq for Mesh {
    /// Structural equality: identifiers equal, coordinate sequences equal
    /// in length and element by element, index sequences likewise.
    fn eq(&self, other: &Self) -> (r: bool) {
        if self.mesh_id != other.mesh_id {
            proof {
                assert(self@.mesh_id != other@.mesh_id);
            }
            return false;
        }
        if self.coordinates.len() != other.coordinates.len() {
            proof {
                assert(self@.coordinates.len() != other@.coordinates.len());
            }
            return false;
        }
        let mut i: usize = 0;
        while i < self.coordinates.len()
            invariant
                self.coordinates@.len() == other.coordinates@.len(),
                i <= self.coordinates@.len(),
                forall|k: int| 0 <= k < i ==> self.coordinates@[k]@ == other.coordinates@[k]@,
            decreases self.coordinates@.len() - i,
        {
            if !self.coordinates[i].eq(&other.coordinates[i]) {
                proof {
                    assert(self@.coordinates[i as int] != other@.coordinates[i as int]);
                }
                return false;
            }
            i += 1;
        }
        if self.indices.len() != other.indices.len() {
            proof {
                assert(self@.indices.len() != other@.indices.len());
            }
            return false;
        }
        let mut i: usize = 0;
        while i < self.indices.len()
            invariant
                self.indices@.len() == other.indices@.len(),
                i <= self.indices@.len(),
                forall|k: int| 0 <= k < i ==> self.indices@[k] == other.indices@[k],
            decreases self.indices@.len() - i,
        {
            if self.indices[i] != other.indices[i] {
                proof {
                    assert(self@.indices[i as int] != other@.indices[i as int]);
                }
                return false;
            }
            i += 1;
        }
        proof {
            assert(self@.coordinates =~= other@.coordinates);
            assert(self@.indices =~= other@.indices);
            assert(self@ =~= other@);
        }
        true
    }
}

impl vstd::std_specs::cmp::PartialEqSpecImpl for Mesh {
    open spec fn obeys_eq_spec() -> bool {
        true
    }

    open spec fn eq_spec(&self, other: &Self) -> bool {
        self@ == other@
    }
}

/// The wire text of a mesh.
pub open spec fn enc_mesh(v: MeshV) -> Seq<char> {
    seq!['{', '"', 'm', 'e', 's', 'h', '_', 'i', 'd', '"', ':'] + dec_int(v.mesh_id)
        + seq![',', '"', 'c', 'o', 'o', 'r', 'd', 'i', 'n', 'a', 't', 'e', 's', '"', ':']
        + enc_nums(v.coordinates)
        + seq![',', '"', 'i', 'n', 'd', 'i', 'c', 'e', 's', '"', ':'] + enc_ints(v.indices)
        + seq!['}']
}

/// The key `mesh_id` as characters.
pub open spec fn k_mesh_id() -> Seq<char> {
    seq!['m', 'e', 's', 'h', '_', 'i', 'd']
}

/// The key `coordinates` as characters.
pub open spec fn k_coordinates() -> Seq<char> {
    seq!['c', 'o', 'o', 'r', 'd', 'i', 'n', 'a', 't', 'e', 's']
}

/// The key `indices` as characters.
pub open spec fn k_indices() -> Seq<char> {
    seq!['i', 'n', 'd', 'i', 'c', 'e', 's']
}

/// Yields a mesh when all three fields have been seen.
pub open spec fn sp_mesh_fin(
    id: Option<int>, co: Option<Seq<Seq<char>>>, ix: Option<Seq<int>>, rest: Seq<char>,
) -> Result<(MeshV, Seq<char>), DecodeErr> {
    if id is Some && co is Some && ix is Some {
        Ok((MeshV { mesh_id: id->Some_0, coordinates: co->Some_0, indices: ix->Some_0 }, rest))
    } else {
        Err(DecodeErr::MissingField)
    }
}

/// One member of a mesh object, then the rest of the object.
pub open spec fn sp_mesh_members(
    s: Seq<char>, id: Option<int>, co: Option<Seq<Seq<char>>>, ix: Option<Seq<int>>, first: bool,
) -> Result<(MeshV, Seq<char>), DecodeErr>
    decreases s.len(), 1int,
{
    let s0 = sp_ws(s);
    if s0.len() == 0 {
        Err(DecodeErr::Syntax)
    } else if first && s0[0] == '}' {
        sp_mesh_fin(id, co, ix, s0.drop_first())
    } else {
        match sp_string(s0) {
            Ok((key, r1)) => {
                let s1 = sp_ws(r1);
                match sp_char(s1, ':') {
                    Ok(r2) => {
                        let s2 = sp_ws(r2);
                        proof {
                            lemma_sp_ws_len(s);
                            lemma_sp_string_len(s0);
                            lemma_sp_ws_len(r1);
                            lemma_sp_ws_len(r2);
                            lemma_sp_int_len(s2);
                            crate::mesh::lemma_sp_nums_len(s2);
                            crate::mesh::lemma_sp_ints_len(s2);
                            crate::skip::lemma_sp_skip_value_len(s2);
                        }
                        if key == k_mesh_id() {
                            if id is Some {
                                Err(DecodeErr::DuplicateField)
                            } else {
                                match sp_int_i32(s2) {
                                    Ok((v, r3)) => sp_mesh_after(r3, Some(v), co, ix),
                                    Err(e) => Err(e),
                                }
                            }
                        } else if key == k_coordinates() {
                            if co is Some {
                                Err(DecodeErr::DuplicateField)
                            } else {
                                match sp_nums(s2) {
                                    Ok((v, r3)) => sp_mesh_after(r3, id, Some(v), ix),
                                    Err(e) => Err(e),
                                }
                            }
                        } else if key == k_indices() {
                            if ix is Some {
                                Err(DecodeErr::DuplicateField)
                            } else {
                                match sp_ints(s2) {
                                    Ok((v, r3)) => sp_mesh_after(r3, id, co, Some(v)),
                                    Err(e) => Err(e),
                                }
                            }
                        } else {
                            match crate::skip::sp_skip_value(s2) {
                                Ok(r3) => sp_mesh_after(r3, id, co, ix),
                                Err(e) => Err(e),
                            }
                        }
                    },
                    Err(e) => Err(e),
                }
            },
            Err(e) => Err(e),
        }
    }
}

/// After a member: a comma and another member, or the closing brace.
pub open spec fn sp_mesh_after(
    s: Seq<char>, id: Option<int>, co: Option<Seq<Seq<char>>>, ix: Option<Seq<int>>,
) -> Result<(MeshV, Seq<char>), DecodeErr>
    decreases s.len(), 0int,
{
    let s0 = sp_ws(s);
    if s0.len() == 0 {
        Err(DecodeErr::Syntax)
    } else if s0[0] == '}' {
        sp_mesh_fin(id, co, ix, s0.drop_first())
    } else if s0[0] == ',' {
        proof {
            lemma_sp_ws_len(s);
        }
        sp_mesh_members(s0.drop_first(), id, co, ix, false)
    } else {
        Err(DecodeErr::Syntax)
    }
}

/// A whole mesh object.
pub open spec fn sp_mesh(s: Seq<char>) -> Result<(MeshV, Seq<char>), DecodeErr> {
    match sp_char(sp_ws(s), '{') {
        Ok(r) => sp_mesh_members(r, None, None, None, true),
        Err(e) => Err(e),
    }
}

/// An array parse consumes at least one character.
pub proof fn lemma_sp_nums_len(s: Seq<char>)
    ensures
        match sp_nums(s) {
            Ok((v, r)) => r.len() < s.len(),
            Err(e) => true,
        },
{
    lemma_sp_ws_len(s);
    let s0 = sp_ws(s);
    if s0.len() > 0 && s0[0] == '[' {
        if sp_nums(s) is Ok {
            lemma_sp_nums_items_len(s0.drop_first(), Seq::empty(), true);
        }
    }
}

proof fn lemma_sp_nums_items_len(s: Seq<char>, acc: Seq<Seq<char>>, first: bool)
    ensures
        match crate::arrays::sp_nums_items(s, acc, first) {
            Ok((v, r)) => r.len() <= s.len(),
            Err(e) => true,
        },
    decreases s.len(), 1int,
{
    lemma_sp_ws_len(s);
    let s0 = sp_ws(s);
    if s0.len() > 0 && !(first && s0[0] == ']') {
        crate::parse::lemma_sp_num_token_len(s0);
        match crate::parse::sp_number(s0) {
            Ok((t, r1)) => {
                lemma_sp_nums_after_len(r1, acc.push(t));
            },
            Err(e) => {},
        }
    }
}

proof fn lemma_sp_nums_after_len(s: Seq<char>, acc: Seq<Seq<char>>)
    ensures
        match crate::arrays::sp_nums_after(s, acc) {
            Ok((v, r)) => r.len() <= s.len(),
            Err(e) => true,
        },
    decreases s.len(), 0int,
{
    lemma_sp_ws_len(s);
    let s0 = sp_ws(s);
    if s0.len() > 0 && s0[0] == ',' {
        lemma_sp_nums_items_len(s0.drop_first(), acc, false);
    }
}

/// An array parse consumes at least one character.
pub proof fn lemma_sp_ints_len(s: Seq<char>)
    ensures
        match sp_ints(s) {
            Ok((v, r)) => r.len() < s.len(),
            Err(e) => true,
        },
{
    lemma_sp_ws_len(s);
    let s0 = sp_ws(s);
    if s0.len() > 0 && s0[0] == '[' {
        if sp_ints(s) is Ok {
            lemma_sp_ints_items_len(s0.drop_first(), Seq::empty(), true);
        }
    }
}

proof fn lemma_sp_ints_items_len(s: Seq<char>, acc: Seq<int>, first: bool)
    ensures
        match crate::arrays::sp_ints_items(s, acc, first) {
            Ok((v, r)) => r.len() <= s.len(),
            Err(e) => true,
        },
    decreases s.len(), 1int,
{
    lemma_sp_ws_len(s);
    let s0 = sp_ws(s);
    if s0.len() > 0 && !(first && s0[0] == ']') {
        crate::parse::lemma_sp_int_len(s0);
        match crate::parse::sp_int_i32(s0) {
            Ok((t, r1)) => {
                lemma_sp_ints_after_len(r1, acc.push(t));
            },
            Err(e) => {},
        }
    }
}

proof fn lemma_sp_ints_after_len(s: Seq<char>, acc: Seq<int>)
    ensures
        match crate::arrays::sp_ints_after(s, acc) {
            Ok((v, r)) => r.len() <= s.len(),
            Err(e) => true,
        },
    decreases s.len(), 0int,
{
    lemma_sp_ws_len(s);
    let s0 = sp_ws(s);
    if s0.len() > 0 && s0[0] == ',' {
        lemma_sp_ints_items_len(s0.drop_first(), acc, false);
    }
}


/// The accumulator views of the exec slots.
pub open spec fn io(o: Option<i32>) -> Option<int> {
    match o {
        Some(v) => Some(v as int),
        None => None,
    }
}

pub open spec fn nso(o: Option<Vec<Number>>) -> Option<Seq<Seq<char>>> {
    match o {
        Some(v) => Some(nums_view(v@)),
        None => None,
    }
}

pub open spec fn iso(o: Option<Vec<i32>>) -> Option<Seq<int>> {
    match o {
        Some(v) => Some(ints_view(v@)),
        None => None,
    }
}

fn p_mesh_fin(
    id: Option<i32>, co: Option<Vec<Number>>, ix: Option<Vec<i32>>, j: usize,
) -> (res: Result<(Mesh, usize), DecodeErr>)
    ensures
        match res {
            Ok((m, j2)) => j2 == j && sp_mesh_fin(io(id), nso(co), iso(ix), Seq::empty())
                == Ok::<_, DecodeErr>((m@, Seq::<char>::empty())),
            Err(e) => sp_mesh_fin(io(id), nso(co), iso(ix), Seq::empty())
                == Err::<(MeshV, Seq<char>), _>(e),
        },
{
    match (id, co, ix) {
        (Some(mesh_id), Some(coordinates), Some(indices)) => {
            let m = Mesh { mesh_id, coordinates, indices };
            proof {
                assert(m@ =~= sp_mesh_fin(io(Some(mesh_id)), nso(Some(m.coordinates)),
                    iso(Some(m.indices)), Seq::empty())->Ok_0.0);
            }
            Ok((m, j))
        },
        _ => Err(DecodeErr::MissingField),
    }
}

/// Reads the members of a mesh object.
#[verifier::rlimit(100)]
fn p_mesh_members(
    s: &Vec<char>, i: usize,
    id: Option<i32>, co: Option<Vec<Number>>, ix: Option<Vec<i32>>, first: bool,
) -> (res: Result<(Mesh, usize), DecodeErr>)
    requires
        i <= s@.len(),
    ensures
        match res {
            Ok((m, j)) => i <= j <= s@.len()
                && sp_mesh_members(s@.skip(i as int), io(id), nso(co), iso(ix), first)
                    == Ok::<_, DecodeErr>((m@, s@.skip(j as int))),
            Err(e) => sp_mesh_members(s@.skip(i as int), io(id), nso(co), iso(ix), first)
                == Err::<(MeshV, Seq<char>), _>(e),
        },
    decreases s@.len() - i, 1int,
{
    let ghost s0 = sp_ws(s@.skip(i as int));
    let j0 = p_ws(s, i);
    if j0 == s.len() {
        return Err(DecodeErr::Syntax);
    }
    proof {
        assert(s0[0] == s@[j0 as int]);
    }
    if first && s[j0] == '}' {
        proof {
            assert(s0.drop_first() =~= s@.skip(j0 + 1 as int));
        }
        match p_mesh_fin(id, co, ix, j0 + 1) {
            Ok((m, j)) => Ok((m, j)),
            Err(e) => Err(e),
        }
    } else {
        match p_string(s, j0) {
            Ok((key, j1)) => {
                let j2 = p_ws(s, j1);
                let ghost s1 = sp_ws(s@.skip(j1 as int));
                if j2 == s.len() || s[j2] != ':' {
                    proof {
                        if j2 < s.len() {
                            assert(s1[0] == s@[j2 as int]);
                        }
                    }
                    return Err(DecodeErr::Syntax);
                }
                proof {
                    assert(s1[0] == s@[j2 as int]);
                    assert(s1.drop_first() =~= s@.skip(j2 + 1 as int));
                }
                let j3 = p_ws(s, j2 + 1);
                proof {
                    reveal_strlit("mesh_id");
                    reveal_strlit("coordinates");
                    reveal_strlit("indices");
                    assert("mesh_id"@ =~= k_mesh_id());
                    assert("coordinates"@ =~= k_coordinates());
                    assert("indices"@ =~= k_indices());
                }
                if key.eq(&String::from_str("mesh_id")) {
                    if id.is_some() {
                        return Err(DecodeErr::DuplicateField);
                    }
                    match p_int_i32(s, j3) {
                        Ok((v, j4)) => p_mesh_after(s, j4, Some(v), co, ix),
                        Err(e) => Err(e),
                    }
                } else if key.eq(&String::from_str("coordinates")) {
                    if co.is_some() {
                        return Err(DecodeErr::DuplicateField);
                    }
                    match p_nums(s, j3) {
                        Ok((v, j4)) => p_mesh_after(s, j4, id, Some(v), ix),
                        Err(e) => Err(e),
                    }
                } else if key.eq(&String::from_str("indices")) {
                    if ix.is_some() {
                        return Err(DecodeErr::DuplicateField);
                    }
                    match p_ints(s, j3) {
                        Ok((v, j4)) => p_mesh_after(s, j4, id, co, Some(v)),
                        Err(e) => Err(e),
                    }
                } else {
                    match crate::skip::p_skip_value(s, j3) {
                        Ok(j4) => p_mesh_after(s, j4, id, co, ix),
                        Err(e) => Err(e),
                    }
                }
            },
            Err(e) => Err(e),
        }
    }
}

/// Reads what follows a member of a mesh object.
fn p_mesh_after(
    s: &Vec<char>, i: usize,
    id: Option<i32>, co: Option<Vec<Number>>, ix: Option<Vec<i32>>,
) -> (res: Result<(Mesh, usize), DecodeErr>)
    requires
        i <= s@.len(),
    ensures
        match res {
            Ok((m, j)) => i <= j <= s@.len()
                && sp_mesh_after(s@.skip(i as int), io(id), nso(co), iso(ix))
                    == Ok::<_, DecodeErr>((m@, s@.skip(j as int))),
            Err(e) => sp_mesh_after(s@.skip(i as int), io(id), nso(co), iso(ix))
                == Err::<(MeshV, Seq<char>), _>(e),
        },
    decreases s@.len() - i, 0int,
{
    let ghost s0 = sp_ws(s@.skip(i as int));
    let j0 = p_ws(s, i);
    if j0 == s.len() {
        return Err(DecodeErr::Syntax);
    }
    proof {
        assert(s0[0] == s@[j0 as int]);
        assert(s0.drop_first() =~= s@.skip(j0 + 1 as int));
    }
    if s[j0] == '}' {
        match p_mesh_fin(id, co, ix, j0 + 1) {
            Ok((m, j)) => Ok((m, j)),
            Err(e) => Err(e),
        }
    } else if s[j0] == ',' {
        p_mesh_members(s, j0 + 1, id, co, ix, false)
    } else {
        Err(DecodeErr::Syntax)
    }
}

/// Reads a whole mesh object at `i`.
pub fn p_mesh(s: &Vec<char>, i: usize) -> (res: Result<(Mesh, usize), DecodeErr>)
    requires
        i <= s@.len(),
    ensures
        match res {
            Ok((m, j)) => i <= j <= s@.len()
                && sp_mesh(s@.skip(i as int)) == Ok::<_, DecodeErr>((m@, s@.skip(j as int))),
            Err(e) => sp_mesh(s@.skip(i as int)) == Err::<(MeshV, Seq<char>), _>(e),
        },
{
    let ghost s0 = sp_ws(s@.skip(i as int));
    let j0 = p_ws(s, i);
    if j0 < s.len() && s[j0] == '{' {
        proof {
            assert(s0[0] == s@[j0 as int]);
            assert(s0.drop_first() =~= s@.skip(j0 + 1 as int));
        }
        p_mesh_members(s, j0 + 1, None, None, None, true)
    } else {
        proof {
            if j0 < s.len() {
                assert(s0[0] == s@[j0 as int]);
            }
        }
        Err(DecodeErr::Syntax)
    }
}

/// Appends the wire text of a mesh to `out`.
pub fn push_mesh(m: &Mesh, out: &mut Vec<char>)
    ensures
        final(out)@ == old(out)@ + enc_mesh(m@),
{
    proof {
        reveal_strlit("{\"mesh_id\":");
        reveal_strlit(",\"coordinates\":");
        reveal_strlit(",\"indices\":");
        reveal_strlit("}");
        assert("{\"mesh_id\":"@
            =~= seq!['{', '"', 'm', 'e', 's', 'h', '_', 'i', 'd', '"', ':']);
        assert(",\"coordinates\":"@
            =~= seq![',', '"', 'c', 'o', 'o', 'r', 'd', 'i', 'n', 'a', 't', 'e', 's', '"', ':']);
        assert(",\"indices\":"@
            =~= seq![',', '"', 'i', 'n', 'd', 'i', 'c', 'e', 's', '"', ':']);
        assert("}"@ =~= seq!['}']);
    }
    push_lit(out, "{\"mesh_id\":");
    crate::intdec::push_i32_dec(m.mesh_id, out);
    push_lit(out, ",\"coordinates\":");
    push_nums(&m.coordinates, out);
    push_lit(out, ",\"indices\":");
    push_ints(&m.indices, out);
    push_lit(out, "}");
    proof {
        assert(final(out)@ =~= old(out)@ + enc_mesh(m@));
    }
}

/// The wire tail from the `indices` member on.
pub open spec fn mesh_mem_ix(v: MeshV, rest: Seq<char>) -> Seq<char> {
    enc_string(k_indices()) + seq![':'] + enc_ints(v.indices) + (seq!['}'] + rest)
}

/// The wire tail from the `coordinates` member on.
pub open spec fn mesh_mem_co(v: MeshV, rest: Seq<char>) -> Seq<char> {
    enc_string(k_coordinates()) + seq![':'] + enc_nums(v.coordinates)
        + (seq![','] + mesh_mem_ix(v, rest))
}

/// The wire tail from the `mesh_id` member on.
pub open spec fn mesh_mem_id(v: MeshV, rest: Seq<char>) -> Seq<char> {
    enc_string(k_mesh_id()) + seq![':'] + dec_int(v.mesh_id)
        + (seq![','] + mesh_mem_co(v, rest))
}

#[verifier::rlimit(100)]
proof fn lemma_mesh_step_ix(v: MeshV, rest: Seq<char>)
    requires
        wf_mesh(v),
    ensures
        sp_mesh_members(mesh_mem_ix(v, rest), Some(v.mesh_id), Some(v.coordinates), None, false)
            == Ok::<_, DecodeErr>((v, rest)),
{
    let u = mesh_mem_ix(v, rest);
    let after = seq!['}'] + rest;
    lemma_escape_plain(k_indices());
    assert(u[0] == '"');
    assert(sp_ws(u) == u);
    lemma_string_rt(k_indices(), seq![':'] + enc_ints(v.indices) + after);
    assert(u =~= enc_string(k_indices()) + (seq![':'] + enc_ints(v.indices) + after));
    let t1 = seq![':'] + enc_ints(v.indices) + after;
    assert(t1[0] == ':');
    assert(sp_ws(t1) == t1);
    assert(t1.drop_first() =~= enc_ints(v.indices) + after);
    assert((enc_ints(v.indices) + after)[0] == '[');
    assert(sp_ws(enc_ints(v.indices) + after) == enc_ints(v.indices) + after);
    lemma_ints_rt(v.indices, after);
    assert(sp_ws(after) == after);
    assert(after[0] == '}');
    assert(after.drop_first() =~= rest);
    assert(k_indices() != k_mesh_id() && k_indices() != k_coordinates()) by {
        assert(k_indices().len() != k_mesh_id().len() || k_indices()[0] != k_mesh_id()[0]);
        assert(k_indices().len() != k_coordinates().len());
    }
    assert(sp_mesh_fin(Some(v.mesh_id), Some(v.coordinates), Some(v.indices), rest)
        == Ok::<_, DecodeErr>((v, rest))) by {
        assert(MeshV { mesh_id: v.mesh_id, coordinates: v.coordinates, indices: v.indices } =~= v);
    }
}

#[verifier::rlimit(100)]
proof fn lemma_mesh_step_co(v: MeshV, rest: Seq<char>)
    requires
        wf_mesh(v),
    ensures
        sp_mesh_members(mesh_mem_co(v, rest), Some(v.mesh_id), None, None, false)
            == Ok::<_, DecodeErr>((v, rest)),
{
    let u = mesh_mem_co(v, rest);
    let after = seq![','] + mesh_mem_ix(v, rest);
    lemma_escape_plain(k_coordinates());
    assert(u[0] == '"');
    assert(sp_ws(u) == u);
    lemma_string_rt(k_coordinates(), seq![':'] + enc_nums(v.coordinates) + after);
    assert(u =~= enc_string(k_coordinates()) + (seq![':'] + enc_nums(v.coordinates) + after));
    let t1 = seq![':'] + enc_nums(v.coordinates) + after;
    assert(t1[0] == ':');
    assert(sp_ws(t1) == t1);
    assert(t1.drop_first() =~= enc_nums(v.coordinates) + after);
    assert((enc_nums(v.coordinates) + after)[0] == '[');
    assert(sp_ws(enc_nums(v.coordinates) + after) == enc_nums(v.coordinates) + after);
    lemma_nums_rt(v.coordinates, after);
    assert(sp_ws(after) == after);
    assert(after[0] == ',');
    assert(after.drop_first() =~= mesh_mem_ix(v, rest));
    lemma_mesh_step_ix(v, rest);
    assert(k_coordinates() != k_mesh_id()) by {
        assert(k_coordinates().len() != k_mesh_id().len());
    }
}

#[verifier::rlimit(100)]
proof fn lemma_mesh_step_id(v: MeshV, rest: Seq<char>)
    requires
        wf_mesh(v),
    ensures
        sp_mesh_members(mesh_mem_id(v, rest), None, None, None, true)
            == Ok::<_, DecodeErr>((v, rest)),
{
    let u = mesh_mem_id(v, rest);
    let after = seq![','] + mesh_mem_co(v, rest);
    lemma_escape_plain(k_mesh_id());
    assert(u[0] == '"');
    assert(sp_ws(u) == u);
    lemma_string_rt(k_mesh_id(), seq![':'] + dec_int(v.mesh_id) + after);
    assert(u =~= enc_string(k_mesh_id()) + (seq![':'] + dec_int(v.mesh_id) + after));
    let t1 = seq![':'] + dec_int(v.mesh_id) + after;
    assert(t1[0] == ':');
    assert(sp_ws(t1) == t1);
    assert(t1.drop_first() =~= dec_int(v.mesh_id) + after);
    lemma_int_i32_rt(v.mesh_id, after);
    assert(sp_ws(dec_int(v.mesh_id) + after) == dec_int(v.mesh_id) + after) by {
        lemma_dec_int_token(v.mesh_id);
        crate::numtok::lemma_num_end_bounds(dec_int(v.mesh_id), 0);
        assert((dec_int(v.mesh_id) + after)[0] == dec_int(v.mesh_id)[0]);
    }
    assert(sp_ws(after) == after);
    assert(after[0] == ',');
    assert(after.drop_first() =~= mesh_mem_co(v, rest));
    lemma_mesh_step_co(v, rest);
}

/// Reading back an encoded mesh.
#[verifier::rlimit(100)]
pub proof fn lemma_mesh_rt(v: MeshV, rest: Seq<char>)
    requires
        wf_mesh(v),
    ensures
        sp_mesh(enc_mesh(v) + rest) == Ok::<_, DecodeErr>((v, rest)),
{
    let u = enc_mesh(v) + rest;
    lemma_escape_plain(k_mesh_id());
    lemma_escape_plain(k_coordinates());
    lemma_escape_plain(k_indices());
    assert(u[0] == '{');
    assert(sp_ws(u) == u);
    assert(u.drop_first() =~= mesh_mem_id(v, rest));
    lemma_mesh_step_id(v, rest);
}

/// The whole decode of one mesh: the value, with nothing but whitespace
/// after it.
pub open spec fn dec_mesh(s: Seq<char>) -> Result<MeshV, DecodeErr> {
    match sp_mesh(s) {
        Ok((v, rest)) => if sp_ws(rest).len() == 0 {
            Ok(v)
        } else {
            Err(DecodeErr::TrailingText)
        },
        Err(e) => Err(e),
    }
}

impl Mesh {
    /// The wire text of this mesh.
    pub fn to_json(&self) -> (r: String)
        ensures
            r@ == enc_mesh(self@),
    {
        let mut out: Vec<char> = Vec::new();
        push_mesh(self, &mut out);
        crate::strutil::chars_to_string(&out)
    }

    /// Reads a mesh from wire text: exactly one mesh object, surrounded by
    /// nothing but whitespace. Fails on a missing or repeated or unknown
    /// key, an identifier or index out of range, malformed text, or
    /// trailing text.
    pub fn from_json(s: &str) -> (r: Result<Mesh, DecodeErr>)
        ensures
            match r {
                Ok(m) => dec_mesh(s@) == Ok::<MeshV, DecodeErr>(m@),
                Err(e) => dec_mesh(s@) == Err::<MeshV, DecodeErr>(e),
            },
    {
        let chars = crate::strutil::str_to_chars(s);
        proof {
            assert(chars@.skip(0) =~= s@);
        }
        match p_mesh(&chars, 0) {
            Ok((m, j)) => {
                let j2 = p_ws(&chars, j);
                if j2 == chars.len() {
                    proof {
                        assert(sp_ws(chars@.skip(j as int)).len() == 0);
                    }
                    Ok(m)
                } else {
                    proof {
                        assert(sp_ws(chars@.skip(j as int)).len() > 0);
                    }
                    Err(DecodeErr::TrailingText)
                }
            },
            Err(e) => Err(e),
        }
    }
}

/// Round trip: decoding an encoded mesh yields the mesh back.
pub proof fn lemma_mesh_round_trip(v: MeshV)
    requires
        wf_mesh(v),
    ensures
        dec_mesh(enc_mesh(v)) == Ok::<MeshV, DecodeErr>(v),
{
    lemma_mesh_rt(v, Seq::empty());
    assert(enc_mesh(v) + Seq::<char>::empty() =~= enc_mesh(v));
}

} // verus!

