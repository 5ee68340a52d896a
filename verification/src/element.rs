//! `Element`: a placed, colored instance of a mesh in a scene, carrying
//! its own transform and metadata, with structural equality and the wire
//! format `{"mesh_id":..,"vector":..,"rotation":..,"guid":..,"type":..,
//! "color":..,"face_colors":.. (omitted when absent),"info":..}`.
//!
//! The `element_type` field travels under the wire key `type`, which is a
//! reserved word here; the renaming is part of the format.

use vstd::prelude::*;
use crate::arrays::{ints_view, wf_ints, enc_ints, sp_ints, p_ints, push_ints, lemma_ints_rt};
use crate::color::{
    Color, enc_color, sp_color, p_color, push_color, lemma_color_rt, lemma_sp_color_len,
};
use crate::err::DecodeErr;
use crate::escape::{enc_string, push_json_string};
use crate::info::{
    info_view, wf_info, info_equiv, enc_info, sp_info, p_info, push_info, lemma_info_rt,
    lemma_sp_info_len, entries_equiv,
};
use crate::intdec::dec_int;
use crate::parse::{
    sp_ws, sp_char, sp_string, sp_int_i32, in_i32,
    p_ws, p_string, p_int_i32,
    lemma_sp_ws_len, lemma_sp_string_len, lemma_sp_int_len,
};
use crate::rotation::{
    Rotation, RotationV, wf_rotation, enc_rotation, sp_rotation, p_rotation, push_rotation,
    lemma_rotation_rt, lemma_sp_rotation_len,
};
use crate::rt::{lemma_string_rt, lemma_int_i32_rt, lemma_escape_plain, lemma_dec_int_token};
use crate::strutil::push_lit;
use crate::vector::{
    Vector, VectorV, wf_vector, enc_vector, sp_vector, p_vector, push_vector,
    lemma_vector_rt, lemma_sp_vector_len,
};
use crate::mesh::{lemma_sp_ints_len};

verus! {

/// A scene element: a mesh reference with transform, color and metadata.
pub struct Element {
    /// The identifier of the mesh associated with the element.
    pub mesh_id: i32,
    /// The position of the element.
    pub vector: Vector,
    /// The rotation of the element.
    pub rotation: Rotation,
    /// The globally unique identifier for the element.
    pub guid: String,
    /// The kind of the element; written under the wire key `type`.
    pub element_type: String,
    /// The color of the element.
    pub color: Color,
    /// Optional per-triangle color override: four integers per triangle.
    pub face_colors: Option<Vec<i32>>,
    /// Additional information about the element: a mapping from string
    /// keys to string values.
    pub info: Vec<(String, String)>,
}

/// The mathematical value of an `Element`.
#[verifier::ext_equal]
pub ghost struct ElementV {
    pub mesh_id: int,
    pub vector: VectorV,
    pub rotation: RotationV,
    pub guid: Seq<char>,
    pub element_type: Seq<char>,
    pub color: Color,
    pub face_colors: Option<Seq<int>>,
    pub info: Seq<(Seq<char>, Seq<char>)>,
}

/// The view of an optional integer list.
pub open spec fn fco(o: Option<Vec<i32>>) -> Option<Seq<int>> {
    match o {
        Some(v) => Some(ints_view(v@)),
        None => None,
    }
}

impl View for Element {
    type V = ElementV;

    open spec fn view(&self) -> ElementV {
        ElementV {
            mesh_id: self.mesh_id as int,
            vector: self.vector@,
            rotation: self.rotation@,
            guid: self.guid@,
            element_type: self.element_type@,
            color: self.color,
            face_colors: fco(self.face_colors),
            info: info_view(self.info@),
        }
    }
}

/// Number tokens well formed, integers in range, info keys distinct.
pub open spec fn wf_element(v: ElementV) -> bool {
    in_i32(v.mesh_id)
        && wf_vector(v.vector)
        && wf_rotation(v.rotation)
        && (v.face_colors matches Some(fc) ==> wf_ints(fc))
        && wf_info(v.info)
}

/// Whether two optional face-color lists are equal: both absent, or both
/// present with the same integers in the same order. One absent and one
/// present compare unequal (a total, defensive reading of the optional
/// field).
pub open spec fn fc_eq(a: Option<Seq<int>>, b: Option<Seq<int>>) -> bool {
    match (a, b) {
        (None, None) => true,
        (Some(x), Some(y)) => x == y,
        _ => false,
    }
}

/// Structural equality of elements: every field equal, the optional
/// face colors as `fc_eq`, and the info entries as one mapping
/// (insertion order irrelevant).
pub open spec fn elem_eq(a: ElementV, b: ElementV) -> bool {
    a.mesh_id == b.mesh_id
        && a.vector == b.vector
        && a.rotation == b.rotation
        && a.guid == b.guid
        && a.element_type == b.element_type
        && a.color == b.color
        && fc_eq(a.face_colors, b.face_colors)
        && info_equiv(a.info, b.info)
}

impl Element {
    /// An element from its parts, taken verbatim.
    pub fn new(
        mesh_id: i32, vector: Vector, rotation: Rotation, guid: String, element_type: String,
        color: Color, face_colors: Option<Vec<i32>>, info: Vec<(String, String)>,
    ) -> (e: Element)
        ensures
            e@ == (ElementV {
                mesh_id: mesh_id as int,
                vector: vector@,
                rotation: rotation@,
                guid: guid@,
                element_type: element_type@,
                color: color,
                face_colors: fco(face_colors),
                info: info_view(info@),
            }),
    {
        Element { mesh_id, vector, rotation, guid, element_type, color, face_colors, info }
    }

    /// The documented cross-field conditions that the type itself leaves
    /// unenforced: a non-negative mesh reference, face colors in fours
    /// when present, and info keys pairwise distinct (one mapping).
    pub fn validate(&self) -> (r: bool)
        ensures
            r == (self@.mesh_id >= 0
                && (self@.face_colors matches Some(fc) ==> fc.len() % 4 == 0)
                && wf_info(self@.info)),
    {
        if self.mesh_id < 0 {
            return false;
        }
        let fc_ok = match &self.face_colors {
            Some(fc) => fc.len() % 4 == 0,
            None => true,
        };
        if !fc_ok {
            return false;
        }
        crate::info::entries_keys_distinct(&self.info)
    }
}

impl PartialEq for Element {
    /// Structural equality, field by field, with the info entries
    /// compared as a mapping.
    fn eq(&self, other: &Self) -> (r: bool) {
        if self.mesh_id != other.mesh_id {
            proof {
                assert(self@.mesh_id != other@.mesh_id);
            }
            return false;
        }
        if !self.vector.eq(&other.vector) {
            return false;
        }
        if !self.rotation.eq(&other.rotation) {
            return false;
        }
        if !self.guid.eq(&other.guid) {
            return false;
        }
        if !self.element_type.eq(&other.element_type) {
            return false;
        }
        if self.color != other.color {
            return false;
        }
        match (&self.face_colors, &other.face_colors) {
            (None, None) => {},
            (Some(a), Some(b)) => {
                if a.len() != b.len() {
                    proof {
                        assert(ints_view(a@).len() != ints_view(b@).len());
                    }
                    return false;
                }
                let mut i: usize = 0;
                while i < a.len()
                    invariant
                        fco(self.face_colors) == Some(ints_view(a@)),
                        fco(other.face_colors) == Some(ints_view(b@)),
                        elem_eq(self@, other@) == (fc_eq(fco(self.face_colors),
                            fco(other.face_colors)) && info_equiv(self@.info, other@.info)),
                        a@.len() == b@.len(),
                        i <= a@.len(),
                        forall|k: int| 0 <= k < i ==> a@[k] == b@[k],
                    decreases a@.len() - i,
                {
                    if a[i] != b[i] {
                        proof {
                            assert(ints_view(a@)[i as int] != ints_view(b@)[i as int]);
                        }
                        return false;
                    }
                    i += 1;
                }
                proof {
                    assert(ints_view(a@) =~= ints_view(b@));
                }
            },
            _ => {
                return false;
            },
        }
        entries_equiv(&self.info, &other.info)
    }
}

impl vstd::std_specs::cmp::PartialEqSpecImpl for Element {
    open spec fn obeys_eq_spec() -> bool {
        true
    }

    open spec fn eq_spec(&self, other: &Self) -> bool {
        elem_eq(self@, other@)
    }
}

// keys of the wire format
pub open spec fn k_vector() -> Seq<char> {
    seq!['v', 'e', 'c', 't', 'o', 'r']
}

pub open spec fn k_rotation() -> Seq<char> {
    seq!['r', 'o', 't', 'a', 't', 'i', 'o', 'n']
}

pub open spec fn k_guid() -> Seq<char> {
    seq!['g', 'u', 'i', 'd']
}

pub open spec fn k_type() -> Seq<char> {
    seq!['t', 'y', 'p', 'e']
}

pub open spec fn k_color() -> Seq<char> {
    seq!['c', 'o', 'l', 'o', 'r']
}

pub open spec fn k_face_colors() -> Seq<char> {
    seq!['f', 'a', 'c', 'e', '_', 'c', 'o', 'l', 'o', 'r', 's']
}

pub open spec fn k_info() -> Seq<char> {
    seq!['i', 'n', 'f', 'o']
}

/// The wire text of an element. The `face_colors` member appears only
/// when the field is present.
pub open spec fn enc_element(v: ElementV) -> Seq<char> {
    seq!['{', '"', 'm', 'e', 's', 'h', '_', 'i', 'd', '"', ':'] + dec_int(v.mesh_id)
        + seq![',', '"', 'v', 'e', 'c', 't', 'o', 'r', '"', ':'] + enc_vector(v.vector)
        + seq![',', '"', 'r', 'o', 't', 'a', 't', 'i', 'o', 'n', '"', ':']
        + enc_rotation(v.rotation)
        + seq![',', '"', 'g', 'u', 'i', 'd', '"', ':'] + enc_string(v.guid)
        + seq![',', '"', 't', 'y', 'p', 'e', '"', ':'] + enc_string(v.element_type)
        + seq![',', '"', 'c', 'o', 'l', 'o', 'r', '"', ':'] + enc_color(v.color)
        + (match v.face_colors {
            Some(fc) => seq![',', '"', 'f', 'a', 'c', 'e', '_', 'c', 'o', 'l', 'o', 'r', 's', '"',
                ':'] + enc_ints(fc),
            None => Seq::empty(),
        })
        + seq![',', '"', 'i', 'n', 'f', 'o', '"', ':'] + enc_info(v.info)
        + seq!['}']
}

/// Yields an element when all required fields have been seen;
/// `face_colors` may be absent.
pub open spec fn sp_element_fin(
    id: Option<int>, ve: Option<VectorV>, ro: Option<RotationV>, gu: Option<Seq<char>>,
    ty: Option<Seq<char>>, co: Option<Color>, fc: Option<Seq<int>>,
    nf: Option<Seq<(Seq<char>, Seq<char>)>>, rest: Seq<char>,
) -> Result<(ElementV, Seq<char>), DecodeErr> {
    if id is Some && ve is Some && ro is Some && gu is Some && ty is Some && co is Some
        && nf is Some {
        Ok((ElementV {
            mesh_id: id->Some_0,
            vector: ve->Some_0,
            rotation: ro->Some_0,
            guid: gu->Some_0,
            element_type: ty->Some_0,
            color: co->Some_0,
            face_colors: fc,
            info: nf->Some_0,
        }, rest))
    } else {
        Err(DecodeErr::MissingField)
    }
}

/// The value of one member, chosen by its key, then the rest of the
/// object.
pub open spec fn sp_element_dispatch(
    s2: Seq<char>, key: Seq<char>, id: Option<int>, ve: Option<VectorV>, ro: Option<RotationV>,
    gu: Option<Seq<char>>, ty: Option<Seq<char>>, co: Option<Color>, fc: Option<Seq<int>>,
    nf: Option<Seq<(Seq<char>, Seq<char>)>>,
) -> Result<(ElementV, Seq<char>), DecodeErr>
    decreases s2.len(), 2int,
{
    proof {
        lemma_sp_int_len(s2);
        crate::vector::lemma_sp_vector_len(s2);
        crate::rotation::lemma_sp_rotation_len(s2);
        lemma_sp_string_len(s2);
        crate::color::lemma_sp_color_len(s2);
        crate::mesh::lemma_sp_ints_len(s2);
        crate::info::lemma_sp_info_len(s2);
        crate::skip::lemma_sp_skip_value_len(s2);
    }
    if key == crate::mesh::k_mesh_id() {
        if id is Some {
            Err(DecodeErr::DuplicateField)
        } else {
            match sp_int_i32(s2) {
                Ok((v, r3)) => sp_element_after(r3, Some(v), ve, ro, gu, ty, co, fc, nf),
                Err(e) => Err(e),
            }
        }
    } else if key == k_vector() {
        if ve is Some {
            Err(DecodeErr::DuplicateField)
        } else {
            match sp_vector(s2) {
                Ok((v, r3)) => sp_element_after(r3, id, Some(v), ro, gu, ty, co, fc, nf),
                Err(e) => Err(e),
            }
        }
    } else if key == k_rotation() {
        if ro is Some {
            Err(DecodeErr::DuplicateField)
        } else {
            match sp_rotation(s2) {
                Ok((v, r3)) => sp_element_after(r3, id, ve, Some(v), gu, ty, co, fc, nf),
                Err(e) => Err(e),
            }
        }
    } else if key == k_guid() {
        if gu is Some {
            Err(DecodeErr::DuplicateField)
        } else {
            match sp_string(s2) {
                Ok((v, r3)) => sp_element_after(r3, id, ve, ro, Some(v), ty, co, fc, nf),
                Err(e) => Err(e),
            }
        }
    } else if key == k_type() {
        if ty is Some {
            Err(DecodeErr::DuplicateField)
        } else {
            match sp_string(s2) {
                Ok((v, r3)) => sp_element_after(r3, id, ve, ro, gu, Some(v), co, fc, nf),
                Err(e) => Err(e),
            }
        }
    } else if key == k_color() {
        if co is Some {
            Err(DecodeErr::DuplicateField)
        } else {
            match sp_color(s2) {
                Ok((v, r3)) => sp_element_after(r3, id, ve, ro, gu, ty, Some(v), fc, nf),
                Err(e) => Err(e),
            }
        }
    } else if key == k_face_colors() {
        if fc is Some {
            Err(DecodeErr::DuplicateField)
        } else {
            match sp_ints(s2) {
                Ok((v, r3)) => sp_element_after(r3, id, ve, ro, gu, ty, co, Some(v), nf),
                Err(e) => Err(e),
            }
        }
    } else if key == k_info() {
        if nf is Some {
            Err(DecodeErr::DuplicateField)
        } else {
            match sp_info(s2) {
                Ok((v, r3)) => sp_element_after(r3, id, ve, ro, gu, ty, co, fc, Some(v)),
                Err(e) => Err(e),
            }
        }
    } else {
        match crate::skip::sp_skip_value(s2) {
            Ok(r3) => sp_element_after(r3, id, ve, ro, gu, ty, co, fc, nf),
            Err(e) => Err(e),
        }
    }
}

/// One member of an element object, then the rest of the object.
pub open spec fn sp_element_members(
    s: Seq<char>, id: Option<int>, ve: Option<VectorV>, ro: Option<RotationV>,
    gu: Option<Seq<char>>, ty: Option<Seq<char>>, co: Option<Color>, fc: Option<Seq<int>>,
    nf: Option<Seq<(Seq<char>, Seq<char>)>>, first: bool,
) -> Result<(ElementV, Seq<char>), DecodeErr>
    decreases s.len(), 3int,
{
    let s0 = sp_ws(s);
    if s0.len() == 0 {
        Err(DecodeErr::Syntax)
    } else if first && s0[0] == '}' {
        sp_element_fin(id, ve, ro, gu, ty, co, fc, nf, s0.drop_first())
    } else {
        match sp_string(s0) {
            Ok((key, r1)) => {
                let s1 = sp_ws(r1);
                match sp_char(s1, ':') {
                    Ok(r2) => {
                        let s2 = sp_ws(r2);
                        proof {
                            lemma_sp_ws_len(s);
                            lemma_sp_string_len(s0);
                            lemma_sp_ws_len(r1);
                            lemma_sp_ws_len(r2);
                        }
                        sp_element_dispatch(s2, key, id, ve, ro, gu, ty, co, fc, nf)
                    },
                    Err(e) => Err(e),
                }
            },
            Err(e) => Err(e),
        }
    }
}

/// After a member: a comma and another member, or the closing brace.
pub open spec fn sp_element_after(
    s: Seq<char>, id: Option<int>, ve: Option<VectorV>, ro: Option<RotationV>,
    gu: Option<Seq<char>>, ty: Option<Seq<char>>, co: Option<Color>, fc: Option<Seq<int>>,
    nf: Option<Seq<(Seq<char>, Seq<char>)>>,
) -> Result<(ElementV, Seq<char>), DecodeErr>
    decreases s.len(), 0int,
{
    let s0 = sp_ws(s);
    if s0.len() == 0 {
        Err(DecodeErr::Syntax)
    } else if s0[0] == '}' {
        sp_element_fin(id, ve, ro, gu, ty, co, fc, nf, s0.drop_first())
    } else if s0[0] == ',' {
        proof {
            lemma_sp_ws_len(s);
        }
        sp_element_members(s0.drop_first(), id, ve, ro, gu, ty, co, fc, nf, false)
    } else {
        Err(DecodeErr::Syntax)
    }
}

/// A whole element object.
pub open spec fn sp_element(s: Seq<char>) -> Result<(ElementV, Seq<char>), DecodeErr> {
    match sp_char(sp_ws(s), '{') {
        Ok(r) => sp_element_members(r, None, None, None, None, None, None, None, None, true),
        Err(e) => Err(e),
    }
}

/// The whole decode of one element: the value, with nothing but
/// whitespace after it.
pub open spec fn dec_element(s: Seq<char>) -> Result<ElementV, DecodeErr> {
    match sp_element(s) {
        Ok((v, rest)) => if sp_ws(rest).len() == 0 {
            Ok(v)
        } else {
            Err(DecodeErr::TrailingText)
        },
        Err(e) => Err(e),
    }
}

/// Accumulator views of the exec slots.
pub open spec fn ido(o: Option<i32>) -> Option<int> {
    match o {
        Some(v) => Some(v as int),
        None => None,
    }
}

pub open spec fn veo(o: Option<Vector>) -> Option<VectorV> {
    match o {
        Some(v) => Some(v@),
        None => None,
    }
}

pub open spec fn roo(o: Option<Rotation>) -> Option<RotationV> {
    match o {
        Some(v) => Some(v@),
        None => None,
    }
}

pub open spec fn so(o: Option<String>) -> Option<Seq<char>> {
    match o {
        Some(v) => Some(v@),
        None => None,
    }
}

pub open spec fn coo(o: Option<Color>) -> Option<Color> {
    o
}

pub open spec fn nfo(o: Option<Vec<(String, String)>>) -> Option<Seq<(Seq<char>, Seq<char>)>> {
    match o {
        Some(v) => Some(info_view(v@)),
        None => None,
    }
}

fn p_element_fin(
    id: Option<i32>, ve: Option<Vector>, ro: Option<Rotation>, gu: Option<String>,
    ty: Option<String>, co: Option<Color>, fc: Option<Vec<i32>>,
    nf: Option<Vec<(String, String)>>, j: usize,
) -> (res: Result<(Element, usize), DecodeErr>)
    ensures
        match res {
            Ok((e, j2)) => j2 == j
                && sp_element_fin(ido(id), veo(ve), roo(ro), so(gu), so(ty), coo(co), fco(fc),
                    nfo(nf), Seq::empty())
                == Ok::<_, DecodeErr>((e@, Seq::<char>::empty())),
            Err(e) => sp_element_fin(ido(id), veo(ve), roo(ro), so(gu), so(ty), coo(co), fco(fc),
                    nfo(nf), Seq::empty())
                == Err::<(ElementV, Seq<char>), _>(e),
        },
{
    match (id, ve, ro, gu, ty, co, nf) {
        (Some(mesh_id), Some(vector), Some(rotation), Some(guid), Some(element_type),
            Some(color), Some(info)) => {
            let e = Element { mesh_id, vector, rotation, guid, element_type, color,
                face_colors: fc, info };
            proof {
                assert(e@ =~= ElementV {
                    mesh_id: mesh_id as int,
                    vector: e.vector@,
                    rotation: e.rotation@,
                    guid: e.guid@,
                    element_type: e.element_type@,
                    color: color,
                    face_colors: fco(e.face_colors),
                    info: info_view(e.info@),
                });
            }
            Ok((e, j))
        },
        _ => Err(DecodeErr::MissingField),
    }
}


/// Which wire key a member name is.
pub enum ElKey {
    MeshId,
    Vec3,
    Rot,
    Guid,
    Ty,
    Col,
    FaceColors,
    Info,
    Unknown,
}

fn classify_key(key: &String) -> (r: ElKey)
    ensures
        (r is MeshId) == (key@ == crate::mesh::k_mesh_id()),
        (r is Vec3) == (key@ == k_vector()),
        (r is Rot) == (key@ == k_rotation()),
        (r is Guid) == (key@ == k_guid()),
        (r is Ty) == (key@ == k_type()),
        (r is Col) == (key@ == k_color()),
        (r is FaceColors) == (key@ == k_face_colors()),
        (r is Info) == (key@ == k_info()),
{
    proof {
        reveal_strlit("mesh_id");
        reveal_strlit("vector");
        reveal_strlit("rotation");
        reveal_strlit("guid");
        reveal_strlit("type");
        reveal_strlit("color");
        reveal_strlit("face_colors");
        reveal_strlit("info");
        assert("mesh_id"@ =~= crate::mesh::k_mesh_id());
        assert("vector"@ =~= k_vector());
        assert("rotation"@ =~= k_rotation());
        assert("guid"@ =~= k_guid());
        assert("type"@ =~= k_type());
        assert("color"@ =~= k_color());
        assert("face_colors"@ =~= k_face_colors());
        assert("info"@ =~= k_info());
    }
    if key.eq(&String::from_str("mesh_id")) {
        ElKey::MeshId
    } else if key.eq(&String::from_str("vector")) {
        ElKey::Vec3
    } else if key.eq(&String::from_str("rotation")) {
        ElKey::Rot
    } else if key.eq(&String::from_str("guid")) {
        ElKey::Guid
    } else if key.eq(&String::from_str("type")) {
        ElKey::Ty
    } else if key.eq(&String::from_str("color")) {
        ElKey::Col
    } else if key.eq(&String::from_str("face_colors")) {
        ElKey::FaceColors
    } else if key.eq(&String::from_str("info")) {
        ElKey::Info
    } else {
        ElKey::Unknown
    }
}

/// Reads the value of one member, chosen by its key, then the rest of
/// the object.
#[verifier::rlimit(100)]
fn p_element_dispatch(
    s: &Vec<char>, i: usize, key: &String,
    id: Option<i32>, ve: Option<Vector>, ro: Option<Rotation>, gu: Option<String>,
    ty: Option<String>, co: Option<Color>, fc: Option<Vec<i32>>,
    nf: Option<Vec<(String, String)>>,
) -> (res: Result<(Element, usize), DecodeErr>)
    requires
        i <= s@.len(),
    ensures
        match res {
            Ok((e, j)) => i <= j <= s@.len()
                && sp_element_dispatch(s@.skip(i as int), key@, ido(id), veo(ve), roo(ro),
                    so(gu), so(ty), coo(co), fco(fc), nfo(nf))
                    == Ok::<_, DecodeErr>((e@, s@.skip(j as int))),
            Err(e) => sp_element_dispatch(s@.skip(i as int), key@, ido(id), veo(ve), roo(ro),
                    so(gu), so(ty), coo(co), fco(fc), nfo(nf))
                == Err::<(ElementV, Seq<char>), _>(e),
        },
    decreases s@.len() - i, 2int,
{
    let kc = classify_key(key);
    match kc {
        ElKey::MeshId => {
            if id.is_some() {
                return Err(DecodeErr::DuplicateField);
            }
            match p_int_i32(s, i) {
                Ok((v, j4)) => p_element_after(s, j4, Some(v), ve, ro, gu, ty, co, fc, nf),
                Err(e) => Err(e),
            }
        },
        ElKey::Vec3 => {
            if ve.is_some() {
                return Err(DecodeErr::DuplicateField);
            }
            match p_vector(s, i) {
                Ok((v, j4)) => p_element_after(s, j4, id, Some(v), ro, gu, ty, co, fc, nf),
                Err(e) => Err(e),
            }
        },
        ElKey::Rot => {
            if ro.is_some() {
                return Err(DecodeErr::DuplicateField);
            }
            match p_rotation(s, i) {
                Ok((v, j4)) => p_element_after(s, j4, id, ve, Some(v), gu, ty, co, fc, nf),
                Err(e) => Err(e),
            }
        },
        ElKey::Guid => {
            if gu.is_some() {
                return Err(DecodeErr::DuplicateField);
            }
            match p_string(s, i) {
                Ok((v, j4)) => p_element_after(s, j4, id, ve, ro, Some(v), ty, co, fc, nf),
                Err(e) => Err(e),
            }
        },
        ElKey::Ty => {
            if ty.is_some() {
                return Err(DecodeErr::DuplicateField);
            }
            match p_string(s, i) {
                Ok((v, j4)) => p_element_after(s, j4, id, ve, ro, gu, Some(v), co, fc, nf),
                Err(e) => Err(e),
            }
        },
        ElKey::Col => {
            if co.is_some() {
                return Err(DecodeErr::DuplicateField);
            }
            match p_color(s, i) {
                Ok((v, j4)) => p_element_after(s, j4, id, ve, ro, gu, ty, Some(v), fc, nf),
                Err(e) => Err(e),
            }
        },
        ElKey::FaceColors => {
            if fc.is_some() {
                return Err(DecodeErr::DuplicateField);
            }
            match p_ints(s, i) {
                Ok((v, j4)) => p_element_after(s, j4, id, ve, ro, gu, ty, co, Some(v), nf),
                Err(e) => Err(e),
            }
        },
        ElKey::Info => {
            if nf.is_some() {
                return Err(DecodeErr::DuplicateField);
            }
            match p_info(s, i) {
                Ok((v, j4)) => p_element_after(s, j4, id, ve, ro, gu, ty, co, fc, Some(v)),
                Err(e) => Err(e),
            }
        },
        ElKey::Unknown => {
            match crate::skip::p_skip_value(s, i) {
                Ok(j4) => p_element_after(s, j4, id, ve, ro, gu, ty, co, fc, nf),
                Err(e) => Err(e),
            }
        },
    }
}

/// Reads the members of an element object.
#[verifier::rlimit(100)]
fn p_element_members(
    s: &Vec<char>, i: usize,
    id: Option<i32>, ve: Option<Vector>, ro: Option<Rotation>, gu: Option<String>,
    ty: Option<String>, co: Option<Color>, fc: Option<Vec<i32>>,
    nf: Option<Vec<(String, String)>>, first: bool,
) -> (res: Result<(Element, usize), DecodeErr>)
    requires
        i <= s@.len(),
    ensures
        match res {
            Ok((e, j)) => i <= j <= s@.len()
                && sp_element_members(s@.skip(i as int), ido(id), veo(ve), roo(ro), so(gu),
                    so(ty), coo(co), fco(fc), nfo(nf), first)
                    == Ok::<_, DecodeErr>((e@, s@.skip(j as int))),
            Err(e) => sp_element_members(s@.skip(i as int), ido(id), veo(ve), roo(ro), so(gu),
                    so(ty), coo(co), fco(fc), nfo(nf), first)
                == Err::<(ElementV, Seq<char>), _>(e),
        },
    decreases s@.len() - i, 3int,
{
    let ghost s0 = sp_ws(s@.skip(i as int));
    let j0 = p_ws(s, i);
    if j0 == s.len() {
        return Err(DecodeErr::Syntax);
    }
    proof {
        assert(s0[0] == s@[j0 as int]);
    }
    if first && s[j0] == '}' {
        proof {
            assert(s0.drop_first() =~= s@.skip(j0 + 1 as int));
        }
        match p_element_fin(id, ve, ro, gu, ty, co, fc, nf, j0 + 1) {
            Ok((e, j)) => Ok((e, j)),
            Err(e) => Err(e),
        }
    } else {
        match p_string(s, j0) {
            Ok((key, j1)) => {
                let j2 = p_ws(s, j1);
                let ghost s1 = sp_ws(s@.skip(j1 as int));
                if j2 == s.len() || s[j2] != ':' {
                    proof {
                        if j2 < s.len() {
                            assert(s1[0] == s@[j2 as int]);
                        }
                    }
                    return Err(DecodeErr::Syntax);
                }
                proof {
                    assert(s1[0] == s@[j2 as int]);
                    assert(s1.drop_first() =~= s@.skip(j2 + 1 as int));
                }
                let j3 = p_ws(s, j2 + 1);
                p_element_dispatch(s, j3, &key, id, ve, ro, gu, ty, co, fc, nf)
            },
            Err(e) => Err(e),
        }
    }
}

/// Reads what follows a member of an element object.
fn p_element_after(
    s: &Vec<char>, i: usize,
    id: Option<i32>, ve: Option<Vector>, ro: Option<Rotation>, gu: Option<String>,
    ty: Option<String>, co: Option<Color>, fc: Option<Vec<i32>>,
    nf: Option<Vec<(String, String)>>,
) -> (res: Result<(Element, usize), DecodeErr>)
    requires
        i <= s@.len(),
    ensures
        match res {
            Ok((e, j)) => i <= j <= s@.len()
                && sp_element_after(s@.skip(i as int), ido(id), veo(ve), roo(ro), so(gu),
                    so(ty), coo(co), fco(fc), nfo(nf))
                    == Ok::<_, DecodeErr>((e@, s@.skip(j as int))),
            Err(e) => sp_element_after(s@.skip(i as int), ido(id), veo(ve), roo(ro), so(gu),
                    so(ty), coo(co), fco(fc), nfo(nf))
                == Err::<(ElementV, Seq<char>), _>(e),
        },
    decreases s@.len() - i, 0int,
{
    let ghost s0 = sp_ws(s@.skip(i as int));
    let j0 = p_ws(s, i);
    if j0 == s.len() {
        return Err(DecodeErr::Syntax);
    }
    proof {
        assert(s0[0] == s@[j0 as int]);
        assert(s0.drop_first() =~= s@.skip(j0 + 1 as int));
    }
    if s[j0] == '}' {
        match p_element_fin(id, ve, ro, gu, ty, co, fc, nf, j0 + 1) {
            Ok((e, j)) => Ok((e, j)),
            Err(e) => Err(e),
        }
    } else if s[j0] == ',' {
        p_element_members(s, j0 + 1, id, ve, ro, gu, ty, co, fc, nf, false)
    } else {
        Err(DecodeErr::Syntax)
    }
}

/// Reads a whole element object at `i`.
pub fn p_element(s: &Vec<char>, i: usize) -> (res: Result<(Element, usize), DecodeErr>)
    requires
        i <= s@.len(),
    ensures
        match res {
            Ok((e, j)) => i <= j <= s@.len()
                && sp_element(s@.skip(i as int)) == Ok::<_, DecodeErr>((e@, s@.skip(j as int))),
            Err(e) => sp_element(s@.skip(i as int)) == Err::<(ElementV, Seq<char>), _>(e),
        },
{
    let ghost s0 = sp_ws(s@.skip(i as int));
    let j0 = p_ws(s, i);
    if j0 < s.len() && s[j0] == '{' {
        proof {
            assert(s0[0] == s@[j0 as int]);
            assert(s0.drop_first() =~= s@.skip(j0 + 1 as int));
        }
        p_element_members(s, j0 + 1, None, None, None, None, None, None, None, None, true)
    } else {
        proof {
            if j0 < s.len() {
                assert(s0[0] == s@[j0 as int]);
            }
        }
        Err(DecodeErr::Syntax)
    }
}

/// Appends the wire text of an element to `out`.
#[verifier::rlimit(100)]
pub fn push_element(e: &Element, out: &mut Vec<char>)
    ensures
        final(out)@ == old(out)@ + enc_element(e@),
{
    proof {
        reveal_strlit("{\"mesh_id\":");
        reveal_strlit(",\"vector\":");
        reveal_strlit(",\"rotation\":");
        reveal_strlit(",\"guid\":");
        reveal_strlit(",\"type\":");
        reveal_strlit(",\"color\":");
        reveal_strlit(",\"face_colors\":");
        reveal_strlit(",\"info\":");
        reveal_strlit("}");
        assert("{\"mesh_id\":"@
            =~= seq!['{', '"', 'm', 'e', 's', 'h', '_', 'i', 'd', '"', ':']);
        assert(",\"vector\":"@ =~= seq![',', '"', 'v', 'e', 'c', 't', 'o', 'r', '"', ':']);
        assert(",\"rotation\":"@
            =~= seq![',', '"', 'r', 'o', 't', 'a', 't', 'i', 'o', 'n', '"', ':']);
        assert(",\"guid\":"@ =~= seq![',', '"', 'g', 'u', 'i', 'd', '"', ':']);
        assert(",\"type\":"@ =~= seq![',', '"', 't', 'y', 'p', 'e', '"', ':']);
        assert(",\"color\":"@ =~= seq![',', '"', 'c', 'o', 'l', 'o', 'r', '"', ':']);
        assert(",\"face_colors\":"@
            =~= seq![',', '"', 'f', 'a', 'c', 'e', '_', 'c', 'o', 'l', 'o', 'r', 's', '"', ':']);
        assert(",\"info\":"@ =~= seq![',', '"', 'i', 'n', 'f', 'o', '"', ':']);
        assert("}"@ =~= seq!['}']);
    }
    push_lit(out, "{\"mesh_id\":");
    crate::intdec::push_i32_dec(e.mesh_id, out);
    push_lit(out, ",\"vector\":");
    push_vector(&e.vector, out);
    push_lit(out, ",\"rotation\":");
    push_rotation(&e.rotation, out);
    push_lit(out, ",\"guid\":");
    push_json_string(e.guid.as_str(), out);
    push_lit(out, ",\"type\":");
    push_json_string(e.element_type.as_str(), out);
    push_lit(out, ",\"color\":");
    push_color(&e.color, out);
    match &e.face_colors {
        Some(fc) => {
            push_lit(out, ",\"face_colors\":");
            push_ints(fc, out);
        },
        None => {},
    }
    push_lit(out, ",\"info\":");
    push_info(&e.info, out);
    push_lit(out, "}");
    proof {
        assert(final(out)@ =~= old(out)@ + enc_element(e@));
    }
}

// the wire tails from each member on, innermost last

#[verifier::opaque]
pub open spec fn el_mem_info(v: ElementV, rest: Seq<char>) -> Seq<char> {
    enc_string(k_info()) + seq![':'] + enc_info(v.info) + (seq!['}'] + rest)
}

#[verifier::opaque]
pub open spec fn el_mem_fc(v: ElementV, rest: Seq<char>) -> Seq<char> {
    match v.face_colors {
        Some(fc) => enc_string(k_face_colors()) + seq![':'] + enc_ints(fc)
            + (seq![','] + el_mem_info(v, rest)),
        None => el_mem_info(v, rest),
    }
}

#[verifier::opaque]
pub open spec fn el_mem_color(v: ElementV, rest: Seq<char>) -> Seq<char> {
    enc_string(k_color()) + seq![':'] + enc_color(v.color) + (seq![','] + el_mem_fc(v, rest))
}

#[verifier::opaque]
pub open spec fn el_mem_type(v: ElementV, rest: Seq<char>) -> Seq<char> {
    enc_string(k_type()) + seq![':'] + enc_string(v.element_type)
        + (seq![','] + el_mem_color(v, rest))
}

#[verifier::opaque]
pub open spec fn el_mem_guid(v: ElementV, rest: Seq<char>) -> Seq<char> {
    enc_string(k_guid()) + seq![':'] + enc_string(v.guid) + (seq![','] + el_mem_type(v, rest))
}

#[verifier::opaque]
pub open spec fn el_mem_rotation(v: ElementV, rest: Seq<char>) -> Seq<char> {
    enc_string(k_rotation()) + seq![':'] + enc_rotation(v.rotation)
        + (seq![','] + el_mem_guid(v, rest))
}

#[verifier::opaque]
pub open spec fn el_mem_vector(v: ElementV, rest: Seq<char>) -> Seq<char> {
    enc_string(k_vector()) + seq![':'] + enc_vector(v.vector)
        + (seq![','] + el_mem_rotation(v, rest))
}

#[verifier::opaque]
pub open spec fn el_mem_id(v: ElementV, rest: Seq<char>) -> Seq<char> {
    enc_string(crate::mesh::k_mesh_id()) + seq![':'] + dec_int(v.mesh_id)
        + (seq![','] + el_mem_vector(v, rest))
}

#[verifier::rlimit(100)]
pub proof fn lemma_el_step_info(v: ElementV, rest: Seq<char>)
    requires
        wf_element(v),
    ensures
        sp_element_members(el_mem_info(v, rest), Some(v.mesh_id), Some(v.vector),
            Some(v.rotation), Some(v.guid), Some(v.element_type), Some(v.color),
            v.face_colors, None, false)
            == Ok::<_, DecodeErr>((v, rest)),
{
    reveal(el_mem_info);
    let u = el_mem_info(v, rest);
    let after = seq!['}'] + rest;
    lemma_escape_plain(k_info());
    assert(u[0] == '"');
    assert(sp_ws(u) == u);
    lemma_string_rt(k_info(), seq![':'] + enc_info(v.info) + after);
    assert(u =~= enc_string(k_info()) + (seq![':'] + enc_info(v.info) + after));
    let t1 = seq![':'] + enc_info(v.info) + after;
    assert(t1[0] == ':');
    assert(sp_ws(t1) == t1);
    assert(t1.drop_first() =~= enc_info(v.info) + after);
    assert((enc_info(v.info) + after)[0] == '{');
    assert(sp_ws(enc_info(v.info) + after) == enc_info(v.info) + after);
    lemma_info_rt(v.info, after);
    assert(sp_ws(after) == after);
    assert(after[0] == '}');
    assert(after.drop_first() =~= rest);
    assert(k_info() != crate::mesh::k_mesh_id() && k_info() != k_vector()
        && k_info() != k_rotation() && k_info() != k_guid() && k_info() != k_type()
        && k_info() != k_color() && k_info() != k_face_colors()) by {
        assert(k_info()[0] == 'i' && k_info().len() == 4);
        assert(k_guid()[0] == 'g');
        assert(k_type()[0] == 't');
    }
    assert(sp_element_fin(Some(v.mesh_id), Some(v.vector), Some(v.rotation), Some(v.guid),
        Some(v.element_type), Some(v.color), v.face_colors, Some(v.info), rest)
        == Ok::<_, DecodeErr>((v, rest))) by {
        assert(ElementV {
            mesh_id: v.mesh_id,
            vector: v.vector,
            rotation: v.rotation,
            guid: v.guid,
            element_type: v.element_type,
            color: v.color,
            face_colors: v.face_colors,
            info: v.info,
        } =~= v);
    }
}

#[verifier::rlimit(100)]
pub proof fn lemma_el_step_fc(v: ElementV, rest: Seq<char>)
    requires
        wf_element(v),
    ensures
        sp_element_members(el_mem_fc(v, rest), Some(v.mesh_id), Some(v.vector),
            Some(v.rotation), Some(v.guid), Some(v.element_type), Some(v.color), None, None,
            false)
            == Ok::<_, DecodeErr>((v, rest)),
{
    reveal(el_mem_fc);
    match v.face_colors {
        None => {
            lemma_el_step_info(v, rest);
        },
        Some(fc) => {
            let u = el_mem_fc(v, rest);
            let after = seq![','] + el_mem_info(v, rest);
            lemma_escape_plain(k_face_colors());
            assert(u[0] == '"');
            assert(sp_ws(u) == u);
            lemma_string_rt(k_face_colors(), seq![':'] + enc_ints(fc) + after);
            assert(u =~= enc_string(k_face_colors()) + (seq![':'] + enc_ints(fc) + after));
            let t1 = seq![':'] + enc_ints(fc) + after;
            assert(t1[0] == ':');
            assert(sp_ws(t1) == t1);
            assert(t1.drop_first() =~= enc_ints(fc) + after);
            assert((enc_ints(fc) + after)[0] == '[');
            assert(sp_ws(enc_ints(fc) + after) == enc_ints(fc) + after);
            lemma_ints_rt(fc, after);
            assert(sp_ws(after) == after);
            assert(after[0] == ',');
            assert(after.drop_first() =~= el_mem_info(v, rest));
            lemma_el_step_info(v, rest);
            assert(k_face_colors() != crate::mesh::k_mesh_id() && k_face_colors() != k_vector()
                && k_face_colors() != k_rotation() && k_face_colors() != k_guid()
                && k_face_colors() != k_type() && k_face_colors() != k_color()) by {
                assert(k_face_colors().len() == 11);
            }
        },
    }
}

#[verifier::rlimit(100)]
pub proof fn lemma_el_step_color(v: ElementV, rest: Seq<char>)
    requires
        wf_element(v),
    ensures
        sp_element_members(el_mem_color(v, rest), Some(v.mesh_id), Some(v.vector),
            Some(v.rotation), Some(v.guid), Some(v.element_type), None, None, None, false)
            == Ok::<_, DecodeErr>((v, rest)),
{
    reveal(el_mem_color);
    let u = el_mem_color(v, rest);
    let after = seq![','] + el_mem_fc(v, rest);
    lemma_escape_plain(k_color());
    assert(u[0] == '"');
    assert(sp_ws(u) == u);
    lemma_string_rt(k_color(), seq![':'] + enc_color(v.color) + after);
    assert(u =~= enc_string(k_color()) + (seq![':'] + enc_color(v.color) + after));
    let t1 = seq![':'] + enc_color(v.color) + after;
    assert(t1[0] == ':');
    assert(sp_ws(t1) == t1);
    assert(t1.drop_first() =~= enc_color(v.color) + after);
    assert((enc_color(v.color) + after)[0] == '{');
    assert(sp_ws(enc_color(v.color) + after) == enc_color(v.color) + after);
    lemma_color_rt(v.color, after);
    assert(sp_ws(after) == after);
    assert(after[0] == ',');
    assert(after.drop_first() =~= el_mem_fc(v, rest));
    lemma_el_step_fc(v, rest);
    assert(k_color() != crate::mesh::k_mesh_id() && k_color() != k_vector()
        && k_color() != k_rotation() && k_color() != k_guid() && k_color() != k_type()) by {
        assert(k_color()[0] == 'c' && k_color().len() == 5);
        assert(k_type()[0] == 't');
    }
}

#[verifier::rlimit(100)]
pub proof fn lemma_el_step_type(v: ElementV, rest: Seq<char>)
    requires
        wf_element(v),
    ensures
        sp_element_members(el_mem_type(v, rest), Some(v.mesh_id), Some(v.vector),
            Some(v.rotation), Some(v.guid), None, None, None, None, false)
            == Ok::<_, DecodeErr>((v, rest)),
{
    reveal(el_mem_type);
    let u = el_mem_type(v, rest);
    let after = seq![','] + el_mem_color(v, rest);
    lemma_escape_plain(k_type());
    assert(u[0] == '"');
    assert(sp_ws(u) == u);
    lemma_string_rt(k_type(), seq![':'] + enc_string(v.element_type) + after);
    assert(u =~= enc_string(k_type()) + (seq![':'] + enc_string(v.element_type) + after));
    let t1 = seq![':'] + enc_string(v.element_type) + after;
    assert(t1[0] == ':');
    assert(sp_ws(t1) == t1);
    assert(t1.drop_first() =~= enc_string(v.element_type) + after);
    assert((enc_string(v.element_type) + after)[0] == '"');
    assert(sp_ws(enc_string(v.element_type) + after) == enc_string(v.element_type) + after);
    lemma_string_rt(v.element_type, after);
    assert(sp_ws(after) == after);
    assert(after[0] == ',');
    assert(after.drop_first() =~= el_mem_color(v, rest));
    lemma_el_step_color(v, rest);
    assert(k_type() != crate::mesh::k_mesh_id() && k_type() != k_vector()
        && k_type() != k_rotation() && k_type() != k_guid()) by {
        assert(k_type()[0] == 't' && k_type().len() == 4);
        assert(k_guid()[0] == 'g');
    }
}

#[verifier::rlimit(100)]
pub proof fn lemma_el_step_guid(v: ElementV, rest: Seq<char>)
    requires
        wf_element(v),
    ensures
        sp_element_members(el_mem_guid(v, rest), Some(v.mesh_id), Some(v.vector),
            Some(v.rotation), None, None, None, None, None, false)
            == Ok::<_, DecodeErr>((v, rest)),
{
    reveal(el_mem_guid);
    let u = el_mem_guid(v, rest);
    let after = seq![','] + el_mem_type(v, rest);
    lemma_escape_plain(k_guid());
    assert(u[0] == '"');
    assert(sp_ws(u) == u);
    lemma_string_rt(k_guid(), seq![':'] + enc_string(v.guid) + after);
    assert(u =~= enc_string(k_guid()) + (seq![':'] + enc_string(v.guid) + after));
    let t1 = seq![':'] + enc_string(v.guid) + after;
    assert(t1[0] == ':');
    assert(sp_ws(t1) == t1);
    assert(t1.drop_first() =~= enc_string(v.guid) + after);
    assert((enc_string(v.guid) + after)[0] == '"');
    assert(sp_ws(enc_string(v.guid) + after) == enc_string(v.guid) + after);
    lemma_string_rt(v.guid, after);
    assert(sp_ws(after) == after);
    assert(after[0] == ',');
    assert(after.drop_first() =~= el_mem_type(v, rest));
    lemma_el_step_type(v, rest);
    assert(k_guid() != crate::mesh::k_mesh_id() && k_guid() != k_vector()
        && k_guid() != k_rotation()) by {
        assert(k_guid()[0] == 'g' && k_guid().len() == 4);
    }
}

#[verifier::rlimit(100)]
pub proof fn lemma_el_step_rotation(v: ElementV, rest: Seq<char>)
    requires
        wf_element(v),
    ensures
        sp_element_members(el_mem_rotation(v, rest), Some(v.mesh_id), Some(v.vector), None,
            None, None, None, None, None, false)
            == Ok::<_, DecodeErr>((v, rest)),
{
    reveal(el_mem_rotation);
    let u = el_mem_rotation(v, rest);
    let after = seq![','] + el_mem_guid(v, rest);
    lemma_escape_plain(k_rotation());
    assert(u[0] == '"');
    assert(sp_ws(u) == u);
    lemma_string_rt(k_rotation(), seq![':'] + enc_rotation(v.rotation) + after);
    assert(u =~= enc_string(k_rotation()) + (seq![':'] + enc_rotation(v.rotation) + after));
    let t1 = seq![':'] + enc_rotation(v.rotation) + after;
    assert(t1[0] == ':');
    assert(sp_ws(t1) == t1);
    assert(t1.drop_first() =~= enc_rotation(v.rotation) + after);
    assert((enc_rotation(v.rotation) + after)[0] == '{');
    assert(sp_ws(enc_rotation(v.rotation) + after) == enc_rotation(v.rotation) + after);
    lemma_rotation_rt(v.rotation, after);
    assert(sp_ws(after) == after);
    assert(after[0] == ',');
    assert(after.drop_first() =~= el_mem_guid(v, rest));
    lemma_el_step_guid(v, rest);
    assert(k_rotation() != crate::mesh::k_mesh_id() && k_rotation() != k_vector()) by {
        assert(k_rotation().len() == 8);
        assert(crate::mesh::k_mesh_id().len() == 7);
        assert(k_vector().len() == 6);
    }
}

#[verifier::rlimit(100)]
#[verifier::rlimit(100)]
proof fn lemma_el_step_vector_value(v: ElementV, rest: Seq<char>)
    requires
        wf_element(v),
    ensures
        sp_element_dispatch(enc_vector(v.vector) + (seq![','] + el_mem_rotation(v, rest)),
            k_vector(), Some(v.mesh_id), None, None, None, None, None, None, None)
            == Ok::<_, DecodeErr>((v, rest)),
{
    let after = seq![','] + el_mem_rotation(v, rest);
    let t2 = enc_vector(v.vector) + after;
    assert(t2[0] == '{');
    assert(sp_ws(t2) == t2);
    lemma_vector_rt(v.vector, after);
    assert(sp_ws(after) == after);
    assert(after[0] == ',');
    assert(after.drop_first() =~= el_mem_rotation(v, rest));
    lemma_el_step_rotation(v, rest);
    assert(k_vector() != crate::mesh::k_mesh_id()) by {
        assert(k_vector().len() == 6);
        assert(crate::mesh::k_mesh_id().len() == 7);
    }
}

#[verifier::rlimit(100)]
pub proof fn lemma_el_step_vector(v: ElementV, rest: Seq<char>)
    requires
        wf_element(v),
    ensures
        sp_element_members(el_mem_vector(v, rest), Some(v.mesh_id), None, None, None, None,
            None, None, None, false)
            == Ok::<_, DecodeErr>((v, rest)),
{
    reveal(el_mem_vector);
    let u = el_mem_vector(v, rest);
    let after = seq![','] + el_mem_rotation(v, rest);
    let t1 = seq![':'] + enc_vector(v.vector) + after;
    lemma_escape_plain(k_vector());
    assert(u[0] == '"');
    assert(sp_ws(u) == u);
    lemma_string_rt(k_vector(), t1);
    assert(u =~= enc_string(k_vector()) + t1);
    assert(t1[0] == ':');
    assert(sp_ws(t1) == t1);
    assert(t1.drop_first() =~= enc_vector(v.vector) + after);
    lemma_el_step_vector_value(v, rest);
}

#[verifier::rlimit(100)]
#[verifier::rlimit(100)]
proof fn lemma_el_step_id_value(v: ElementV, rest: Seq<char>)
    requires
        wf_element(v),
    ensures
        sp_element_dispatch(dec_int(v.mesh_id) + (seq![','] + el_mem_vector(v, rest)),
            crate::mesh::k_mesh_id(), None, None, None, None, None, None, None, None)
            == Ok::<_, DecodeErr>((v, rest)),
{
    let after = seq![','] + el_mem_vector(v, rest);
    let t2 = dec_int(v.mesh_id) + after;
    lemma_int_i32_rt(v.mesh_id, after);
    assert(sp_ws(t2) == t2) by {
        lemma_dec_int_token(v.mesh_id);
        crate::numtok::lemma_num_end_bounds(dec_int(v.mesh_id), 0);
        assert(t2[0] == dec_int(v.mesh_id)[0]);
    }
    assert(sp_ws(after) == after);
    assert(after[0] == ',');
    assert(after.drop_first() =~= el_mem_vector(v, rest));
    lemma_el_step_vector(v, rest);
}

#[verifier::rlimit(100)]
pub proof fn lemma_el_step_id(v: ElementV, rest: Seq<char>)
    requires
        wf_element(v),
    ensures
        sp_element_members(el_mem_id(v, rest), None, None, None, None, None, None, None, None,
            true)
            == Ok::<_, DecodeErr>((v, rest)),
{
    reveal(el_mem_id);
    let u = el_mem_id(v, rest);
    let after = seq![','] + el_mem_vector(v, rest);
    let t1 = seq![':'] + dec_int(v.mesh_id) + after;
    lemma_escape_plain(crate::mesh::k_mesh_id());
    assert(u[0] == '"');
    assert(sp_ws(u) == u);
    lemma_string_rt(crate::mesh::k_mesh_id(), t1);
    assert(u =~= enc_string(crate::mesh::k_mesh_id()) + t1);
    assert(t1[0] == ':');
    assert(sp_ws(t1) == t1);
    assert(t1.drop_first() =~= dec_int(v.mesh_id) + after);
    assert(sp_ws(dec_int(v.mesh_id) + after) == dec_int(v.mesh_id) + after) by {
        lemma_dec_int_token(v.mesh_id);
        crate::numtok::lemma_num_end_bounds(dec_int(v.mesh_id), 0);
        assert((dec_int(v.mesh_id) + after)[0] == dec_int(v.mesh_id)[0]);
    }
    lemma_el_step_id_value(v, rest);
}

impl Element {
    /// The wire text of this element.
    pub fn to_json(&self) -> (r: String)
        ensures
            r@ == enc_element(self@),
    {
        let mut out: Vec<char> = Vec::new();
        push_element(self, &mut out);
        crate::strutil::chars_to_string(&out)
    }

    /// Reads an element from wire text: exactly one element object,
    /// surrounded by nothing but whitespace. Fails on a missing or
    /// repeated key, a value of the wrong shape, an integer out of
    /// range, malformed text, or trailing text; an object member with
    /// an unknown key is read and ignored; `face_colors` may be absent,
    /// and then stays absent.
    pub fn from_json(s: &str) -> (r: Result<Element, DecodeErr>)
        ensures
            match r {
                Ok(e) => dec_element(s@) == Ok::<ElementV, DecodeErr>(e@),
                Err(e) => dec_element(s@) == Err::<ElementV, DecodeErr>(e),
            },
    {
        let chars = crate::strutil::str_to_chars(s);
        proof {
            assert(chars@.skip(0) =~= s@);
        }
        match p_element(&chars, 0) {
            Ok((e, j)) => {
                let j2 = p_ws(&chars, j);
                if j2 == chars.len() {
                    proof {
                        assert(sp_ws(chars@.skip(j as int)).len() == 0);
                    }
                    Ok(e)
                } else {
                    proof {
                        assert(sp_ws(chars@.skip(j as int)).len() > 0);
                    }
                    Err(DecodeErr::TrailingText)
                }
            },
            Err(e) => Err(e),
        }
    }
}

// Folding the flat wire text into the member tails, one level at a time.
// Each lemma rewrites one member's flat segments into `el_mem_*` form,
// with everything deeper held symbolic, so each proof stays small.

proof fn lemma_fold_info(v: ElementV, rest: Seq<char>, t: Seq<char>)
    requires
        t == seq!['}'] + rest,
    ensures
        seq![',', '"', 'i', 'n', 'f', 'o', '"', ':'] + (enc_info(v.info) + t)
            == seq![','] + el_mem_info(v, rest),
{
    reveal(el_mem_info);
    lemma_escape_plain(k_info());
    assert(seq![',', '"', 'i', 'n', 'f', 'o', '"', ':'] + (enc_info(v.info) + t)
        =~= seq![','] + el_mem_info(v, rest));
}

proof fn lemma_fold_fc(v: ElementV, rest: Seq<char>, t: Seq<char>)
    requires
        t == seq![','] + el_mem_info(v, rest),
    ensures
        (match v.face_colors {
            Some(fc) => seq![',', '"', 'f', 'a', 'c', 'e', '_', 'c', 'o', 'l', 'o', 'r', 's',
                '"', ':'] + (enc_ints(fc) + t),
            None => t,
        }) == seq![','] + el_mem_fc(v, rest),
{
    reveal(el_mem_fc);
    match v.face_colors {
        Some(fc) => {
            lemma_escape_plain(k_face_colors());
            assert(seq![',', '"', 'f', 'a', 'c', 'e', '_', 'c', 'o', 'l', 'o', 'r', 's', '"',
                ':'] + (enc_ints(fc) + t) =~= seq![','] + el_mem_fc(v, rest));
        },
        None => {},
    }
}

proof fn lemma_fold_color(v: ElementV, rest: Seq<char>, t: Seq<char>)
    requires
        t == seq![','] + el_mem_fc(v, rest),
    ensures
        seq![',', '"', 'c', 'o', 'l', 'o', 'r', '"', ':'] + (enc_color(v.color) + t)
            == seq![','] + el_mem_color(v, rest),
{
    reveal(el_mem_color);
    lemma_escape_plain(k_color());
    assert(seq![',', '"', 'c', 'o', 'l', 'o', 'r', '"', ':'] + (enc_color(v.color) + t)
        =~= seq![','] + el_mem_color(v, rest));
}

proof fn lemma_fold_type(v: ElementV, rest: Seq<char>, t: Seq<char>)
    requires
        t == seq![','] + el_mem_color(v, rest),
    ensures
        seq![',', '"', 't', 'y', 'p', 'e', '"', ':'] + (enc_string(v.element_type) + t)
            == seq![','] + el_mem_type(v, rest),
{
    reveal(el_mem_type);
    lemma_escape_plain(k_type());
    assert(seq![',', '"', 't', 'y', 'p', 'e', '"', ':'] + (enc_string(v.element_type) + t)
        =~= seq![','] + el_mem_type(v, rest));
}

proof fn lemma_fold_guid(v: ElementV, rest: Seq<char>, t: Seq<char>)
    requires
        t == seq![','] + el_mem_type(v, rest),
    ensures
        seq![',', '"', 'g', 'u', 'i', 'd', '"', ':'] + (enc_string(v.guid) + t)
            == seq![','] + el_mem_guid(v, rest),
{
    reveal(el_mem_guid);
    lemma_escape_plain(k_guid());
    assert(seq![',', '"', 'g', 'u', 'i', 'd', '"', ':'] + (enc_string(v.guid) + t)
        =~= seq![','] + el_mem_guid(v, rest));
}

proof fn lemma_fold_rotation(v: ElementV, rest: Seq<char>, t: Seq<char>)
    requires
        t == seq![','] + el_mem_guid(v, rest),
    ensures
        seq![',', '"', 'r', 'o', 't', 'a', 't', 'i', 'o', 'n', '"', ':']
            + (enc_rotation(v.rotation) + t)
            == seq![','] + el_mem_rotation(v, rest),
{
    reveal(el_mem_rotation);
    lemma_escape_plain(k_rotation());
    assert(seq![',', '"', 'r', 'o', 't', 'a', 't', 'i', 'o', 'n', '"', ':']
        + (enc_rotation(v.rotation) + t) =~= seq![','] + el_mem_rotation(v, rest));
}

proof fn lemma_fold_vector(v: ElementV, rest: Seq<char>, t: Seq<char>)
    requires
        t == seq![','] + el_mem_rotation(v, rest),
    ensures
        seq![',', '"', 'v', 'e', 'c', 't', 'o', 'r', '"', ':'] + (enc_vector(v.vector) + t)
            == seq![','] + el_mem_vector(v, rest),
{
    reveal(el_mem_vector);
    lemma_escape_plain(k_vector());
    assert(seq![',', '"', 'v', 'e', 'c', 't', 'o', 'r', '"', ':'] + (enc_vector(v.vector) + t)
        =~= seq![','] + el_mem_vector(v, rest));
}

proof fn lemma_fold_id(v: ElementV, rest: Seq<char>, t: Seq<char>)
    requires
        t == seq![','] + el_mem_vector(v, rest),
    ensures
        seq!['"', 'm', 'e', 's', 'h', '_', 'i', 'd', '"', ':'] + (dec_int(v.mesh_id) + t)
            == el_mem_id(v, rest),
{
    reveal(el_mem_id);
    lemma_escape_plain(crate::mesh::k_mesh_id());
    assert(seq!['"', 'm', 'e', 's', 'h', '_', 'i', 'd', '"', ':'] + (dec_int(v.mesh_id) + t)
        =~= el_mem_id(v, rest));
}

/// The encoded element, followed by anything, is the opening brace and
/// then the first member's tail: the flat text regrouped member by
/// member.
#[verifier::rlimit(100)]
proof fn lemma_enc_element_shape(v: ElementV, rest: Seq<char>)
    ensures
        enc_element(v) + rest == seq!['{'] + el_mem_id(v, rest),
{
    let s1 = seq!['{', '"', 'm', 'e', 's', 'h', '_', 'i', 'd', '"', ':'];
    let s2 = dec_int(v.mesh_id);
    let s3 = seq![',', '"', 'v', 'e', 'c', 't', 'o', 'r', '"', ':'];
    let s4 = enc_vector(v.vector);
    let s5 = seq![',', '"', 'r', 'o', 't', 'a', 't', 'i', 'o', 'n', '"', ':'];
    let s6 = enc_rotation(v.rotation);
    let s7 = seq![',', '"', 'g', 'u', 'i', 'd', '"', ':'];
    let s8 = enc_string(v.guid);
    let s9 = seq![',', '"', 't', 'y', 'p', 'e', '"', ':'];
    let s10 = enc_string(v.element_type);
    let s11 = seq![',', '"', 'c', 'o', 'l', 'o', 'r', '"', ':'];
    let s12 = enc_color(v.color);
    let s13 = match v.face_colors {
        Some(fc) => seq![',', '"', 'f', 'a', 'c', 'e', '_', 'c', 'o', 'l', 'o', 'r', 's', '"',
            ':'] + enc_ints(fc),
        None => Seq::<char>::empty(),
    };
    let s14 = seq![',', '"', 'i', 'n', 'f', 'o', '"', ':'];
    let s15 = enc_info(v.info);
    let s16 = seq!['}'];
    let p1 = s1;
    let p2 = p1 + s2;
    let p3 = p2 + s3;
    let p4 = p3 + s4;
    let p5 = p4 + s5;
    let p6 = p5 + s6;
    let p7 = p6 + s7;
    let p8 = p7 + s8;
    let p9 = p8 + s9;
    let p10 = p9 + s10;
    let p11 = p10 + s11;
    let p12 = p11 + s12;
    let p13 = p12 + s13;
    let p14 = p13 + s14;
    let p15 = p14 + s15;
    let p16 = p15 + s16;
    assert(enc_element(v) == p16);
    let d16 = rest;
    let d15 = s16 + d16;
    let d14 = s15 + d15;
    let d13 = s14 + d14;
    let d12 = s13 + d13;
    let d11 = s12 + d12;
    let d10 = s11 + d11;
    let d9 = s10 + d10;
    let d8 = s9 + d9;
    let d7 = s8 + d8;
    let d6 = s7 + d7;
    let d5 = s6 + d6;
    let d4 = s5 + d5;
    let d3 = s4 + d4;
    let d2 = s3 + d3;
    let d1 = s2 + d2;
    vstd::seq_lib::lemma_concat_associative(p15, s16, d16);
    vstd::seq_lib::lemma_concat_associative(p14, s15, d15);
    vstd::seq_lib::lemma_concat_associative(p13, s14, d14);
    vstd::seq_lib::lemma_concat_associative(p12, s13, d13);
    vstd::seq_lib::lemma_concat_associative(p11, s12, d12);
    vstd::seq_lib::lemma_concat_associative(p10, s11, d11);
    vstd::seq_lib::lemma_concat_associative(p9, s10, d10);
    vstd::seq_lib::lemma_concat_associative(p8, s9, d9);
    vstd::seq_lib::lemma_concat_associative(p7, s8, d8);
    vstd::seq_lib::lemma_concat_associative(p6, s7, d7);
    vstd::seq_lib::lemma_concat_associative(p5, s6, d6);
    vstd::seq_lib::lemma_concat_associative(p4, s5, d5);
    vstd::seq_lib::lemma_concat_associative(p3, s4, d4);
    vstd::seq_lib::lemma_concat_associative(p2, s3, d3);
    vstd::seq_lib::lemma_concat_associative(p1, s2, d2);
    assert(enc_element(v) + rest == p1 + d1);
    lemma_fold_info(v, rest, d15);
    assert(d13 == seq![','] + el_mem_info(v, rest));
    assert(d12 == seq![','] + el_mem_fc(v, rest)) by {
        lemma_fold_fc(v, rest, d13);
        match v.face_colors {
            Some(fc) => {
                vstd::seq_lib::lemma_concat_associative(
                    seq![',', '"', 'f', 'a', 'c', 'e', '_', 'c', 'o', 'l', 'o', 'r', 's', '"',
                        ':'], enc_ints(fc), d13);
            },
            None => {
                assert(Seq::<char>::empty() + d13 =~= d13);
            },
        }
    }
    lemma_fold_color(v, rest, d12);
    assert(d10 == seq![','] + el_mem_color(v, rest));
    lemma_fold_type(v, rest, d10);
    assert(d8 == seq![','] + el_mem_type(v, rest));
    lemma_fold_guid(v, rest, d8);
    assert(d6 == seq![','] + el_mem_guid(v, rest));
    lemma_fold_rotation(v, rest, d6);
    assert(d4 == seq![','] + el_mem_rotation(v, rest));
    lemma_fold_vector(v, rest, d4);
    assert(d2 == seq![','] + el_mem_vector(v, rest));
    let lit9 = seq!['"', 'm', 'e', 's', 'h', '_', 'i', 'd', '"', ':'];
    lemma_fold_id(v, rest, d2);
    assert(lit9 + d1 == el_mem_id(v, rest)) by {
        vstd::seq_lib::lemma_concat_associative(lit9, s2, d2);
        assert(lit9 + (s2 + d2) == el_mem_id(v, rest));
    }
    assert(p1 =~= seq!['{'] + lit9);
    vstd::seq_lib::lemma_concat_associative(seq!['{'], lit9, d1);
}

/// Reading back an encoded element.
pub proof fn lemma_element_rt(v: ElementV, rest: Seq<char>)
    requires
        wf_element(v),
    ensures
        sp_element(enc_element(v) + rest) == Ok::<_, DecodeErr>((v, rest)),
{
    let u = enc_element(v) + rest;
    lemma_enc_element_shape(v, rest);
    assert(u[0] == '{');
    assert(u.drop_first() =~= el_mem_id(v, rest));
    assert(sp_ws(u) == u);
    lemma_el_step_id(v, rest);
}

/// Round trip: decoding an encoded element yields the element back.
pub proof fn lemma_element_round_trip(v: ElementV)
    requires
        wf_element(v),
    ensures
        dec_element(enc_element(v)) == Ok::<ElementV, DecodeErr>(v),
{
    lemma_element_rt(v, Seq::empty());
    assert(enc_element(v) + Seq::<char>::empty() =~= enc_element(v));
}

/// An element without face colors encodes without the `face_colors`
/// member, and decoding that text yields the absence back.
pub proof fn lemma_face_colors_none_round_trip(v: ElementV)
    requires
        wf_element(v),
        v.face_colors is None,
    ensures
        dec_element(enc_element(v)) == Ok::<ElementV, DecodeErr>(v),
        (dec_element(enc_element(v))->Ok_0).face_colors is None,
{
    lemma_element_round_trip(v);
}

} // verus!

