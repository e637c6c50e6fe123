use vstd::prelude::*;
use crate::model::{calc_dep_types, type_idents, Attribute, Field};
use crate::text::{chars_of, contains_chars, has_substring, second_eq_piece, second_piece};

verus! {

/// The encoding marker an unsigned integer kind asks for.
pub open spec fn uint_marker(id: Seq<char>) -> Option<Seq<char>> {
    if id == "u8"@ {
        Some("U8Hex"@)
    } else if id == "u16"@ {
        Some("U16Hex"@)
    } else if id == "u32"@ {
        Some("U32Hex"@)
    } else if id == "u64"@ {
        Some("U64Hex"@)
    } else if id == "u128"@ {
        Some("U128Hex"@)
    } else {
        None
    }
}

/// The marker a wire field must carry: for a bare unsigned integer its kind's marker, for an
/// optional one the marker wrapped in `Option<..>`; none for any other shape.
pub open spec fn rpc_expected(f: Field) -> Option<Seq<char>> {
    let ids = type_idents(f.ty);
    if ids.len() == 1 {
        uint_marker(ids[0])
    } else if ids.len() == 2 && ids[0] == "Option"@ {
        match uint_marker(ids[1]) {
            Some(m) => Some("Option<"@ + m + ">"@),
            None => None,
        }
    } else {
        None
    }
}

/// A `serde_as` attribute whose value (what follows its first `=`) holds the marker.
pub open spec fn annotation_ok(a: Attribute, marker: Seq<char>) -> bool {
    &&& a.path@.len() == 1
    &&& a.path@[0]@ == "serde_as"@
    &&& match second_eq_piece(a.tokens@) {
        Some(p) => has_substring(p, marker),
        None => false,
    }
}

pub open spec fn field_annotated(f: Field, marker: Seq<char>) -> bool {
    exists|i: int| 0 <= i < f.attrs@.len() && annotation_ok(#[trigger] f.attrs@[i], marker)
}

/// The marker a wire field is missing, if it is in scope and lacks it.
pub open spec fn rpc_violation(f: Field) -> Option<Seq<char>> {
    match rpc_expected(f) {
        Some(m) => if field_annotated(f, m) {
            None
        } else {
            Some(m)
        },
        None => None,
    }
}

fn uint_marker_of(id: &String) -> (r: Option<String>)
    ensures
        match r {
            Some(m) => uint_marker(id@) == Some(m@),
            None => uint_marker(id@).is_none(),
        },
{
    if *id == String::from_str("u8") {
        Some(String::from_str("U8Hex"))
    } else if *id == String::from_str("u16") {
        Some(String::from_str("U16Hex"))
    } else if *id == String::from_str("u32") {
        Some(String::from_str("U32Hex"))
    } else if *id == String::from_str("u64") {
        Some(String::from_str("U64Hex"))
    } else if *id == String::from_str("u128") {
        Some(String::from_str("U128Hex"))
    } else {
        None
    }
}

/// The encoding marker a wire field must carry, if its type is in scope.
pub fn expected_marker(f: &Field) -> (r: Option<String>)
    ensures
        match r {
            Some(m) => rpc_expected(*f) == Some(m@),
            None => rpc_expected(*f).is_none(),
        },
{
    let ids = calc_dep_types(&f.ty);
    proof {
        assert(ids.deep_view().len() == ids@.len());
    }
    if ids.len() == 1 {
        proof {
            assert(ids.deep_view()[0] == ids@[0]@);
        }
        uint_marker_of(&ids[0])
    } else if ids.len() == 2 && ids[0] == String::from_str("Option") {
        proof {
            assert(ids.deep_view()[0] == ids@[0]@);
            assert(ids.deep_view()[1] == ids@[1]@);
        }
        match uint_marker_of(&ids[1]) {
            Some(m) => {
                let mut w = String::from_str("Option<");
                w.append(m.as_str());
                w.append(">");
                Some(w)
            },
            None => None,
        }
    } else {
        proof {
            if ids.len() == 2 {
                assert(ids.deep_view()[0] == ids@[0]@);
            }
        }
        None
    }
}

fn annotation_holds(a: &Attribute, marker: &Vec<char>) -> (r: bool)
    ensures
        r == annotation_ok(*a, marker@),
{
    if a.path.len() != 1 || a.path[0] != String::from_str("serde_as") {
        return false;
    }
    let toks = chars_of(&a.tokens);
    match second_piece(&toks) {
        Some(p) => contains_chars(&p, marker),
        None => false,
    }
}

/// The marker that a field under the wire boundary lacks, or `None` when it is out of scope
/// or carries it.
pub fn check_rpc_field(f: &Field) -> (r: Option<String>)
    ensures
        match r {
            Some(m) => rpc_violation(*f) == Some(m@),
            None => rpc_violation(*f).is_none(),
        },
{
    match expected_marker(f) {
        None => None,
        Some(m) => {
            let mc = chars_of(&m);
            let mut i: usize = 0;
            while i < f.attrs.len()
                invariant
                    i <= f.attrs@.len(),
                    mc@ == m@,
                    rpc_expected(*f) == Some(m@),
                    forall|k: int| 0 <= k < i ==> !annotation_ok(#[trigger] f.attrs@[k], m@),
                decreases f.attrs.len() - i,
            {
                if annotation_holds(&f.attrs[i], &mc) {
                    proof {
                        assert(annotation_ok(f.attrs@[i as int], m@));
                    }
                    return None;
                }
                i = i + 1;
            }
            Some(m)
        },
    }
}

} // verus!
