use vstd::prelude::*;

verus! {

/// One token of a type expression, with bracketed groups flattened into their contents.
pub enum TypeToken {
    Ident(String),
    Other(String),
}

/// A field's type expression.
pub struct TypeExpr {
    /// The rendered text of the type.
    pub text: String,
    /// The tokens of the type, groups flattened, in order of appearance.
    pub tokens: Vec<TypeToken>,
}

/// An attribute on a field: its path segments and the text of its arguments.
pub struct Attribute {
    pub path: Vec<String>,
    pub tokens: String,
}

/// A record field or a variant payload field; `name` is empty for positional fields.
pub struct Field {
    pub name: String,
    pub ty: TypeExpr,
    pub attrs: Vec<Attribute>,
}

pub struct Variant {
    pub name: String,
    pub fields: Vec<Field>,
}

/// A declaration of one source file, closed over the kinds the analysis handles.
pub enum Item {
    Record { name: String, fields: Vec<Field> },
    Sum { name: String, variants: Vec<Variant> },
    Alias { name: String, ty: TypeExpr },
    Other,
}

/// The identifiers among a token sequence, in order.
pub open spec fn ident_tokens(toks: Seq<TypeToken>) -> Seq<Seq<char>>
    decreases toks.len(),
{
    if toks.len() == 0 {
        Seq::empty()
    } else {
        let rest = ident_tokens(toks.drop_last());
        match toks.last() {
            TypeToken::Ident(s) => rest.push(s@),
            TypeToken::Other(_) => rest,
        }
    }
}

/// The type names a type expression refers to: every identifier in it, in order.
pub open spec fn type_idents(ty: TypeExpr) -> Seq<Seq<char>> {
    ident_tokens(ty.tokens@)
}

/// Dependency Resolver: the identifiers named by a type expression, in order of appearance.
pub fn calc_dep_types(ty: &TypeExpr) -> (r: Vec<String>)
    ensures
        r.deep_view() == type_idents(*ty),
{
    let mut r: Vec<String> = Vec::new();
    proof {
        assert(r.deep_view() =~= ident_tokens(ty.tokens@.take(0)));
    }
    let mut i: usize = 0;
    while i < ty.tokens.len()
        invariant
            i <= ty.tokens.len(),
            r.deep_view() == ident_tokens(ty.tokens@.take(i as int)),
        decreases ty.tokens.len() - i,
    {
        proof {
            assert(ty.tokens@.take(i as int + 1).drop_last() =~= ty.tokens@.take(i as int));
        }
        match &ty.tokens[i] {
            TypeToken::Ident(s) => {
                let ghost before = r.deep_view();
                r.push(s.clone());
                proof {
                    assert(r.deep_view() =~= before.push(s@));
                }
            },
            TypeToken::Other(_) => {},
        }
        i = i + 1;
    }
    proof {
        assert(ty.tokens@.take(i as int) =~= ty.tokens@);
    }
    r
}

} // verus!
