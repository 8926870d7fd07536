//! The Rust type that stands for a field type of the expression grammar, in
//! generated source code.
use vstd::prelude::*;
use vstd::string::{StringExecFns, StringSliceAdditionalSpecFns};

verus! {

/// A Rust type written out as text.
pub enum RsT {
    S(&'static str),
    F(String),
}

impl View for RsT {
    type V = Seq<char>;

    open spec fn view(&self) -> Seq<char> {
        match self {
            RsT::S(s) => s@,
            RsT::F(s) => s@,
        }
    }
}

impl RsT {
    /// The type's text.
    pub fn to_text(&self) -> (r: String)
        ensures
            r@ == self@,
    {
        match self {
            RsT::S(s) => String::from_str(s),
            RsT::F(s) => s.clone(),
        }
    }
}

pub open spec fn token_name() -> Seq<char> {
    seq!['T', 'o', 'k', 'e', 'n']
}

pub open spec fn object_name() -> Seq<char> {
    seq!['O', 'b', 'j', 'e', 'c', 't']
}

/// `Box<base>`
pub open spec fn boxed(base: Seq<char>) -> Seq<char> {
    seq!['B', 'o', 'x', '<'] + base + seq!['>']
}

pub open spec fn token_type_path() -> Seq<char> {
    seq!['t', 'o', 'k', 'e', 'n', 's', ':', ':', 'T', 'o', 'k', 'e', 'n']
}

pub open spec fn literal_type_path() -> Seq<char> {
    seq![
        't', 'o', 'k', 'e', 'n', 's', ':', ':', 'L', 'i', 't', 'e', 'r', 'a', 'l', 'V', 'a', 'l',
        'u', 'e',
    ]
}

/// The grammar field types that have a Rust type: the base type itself,
/// `Token` and `Object`.
pub open spec fn known_type(ty: Seq<char>, base_name: Seq<char>) -> bool {
    ty == base_name || ty == token_name() || ty == object_name()
}

/// Whether `a` and `b` hold the same text.
fn str_eq(a: &str, b: &str) -> (r: bool)
    ensures
        r == (a@ == b@),
{
    let x = a.as_bytes();
    let y = b.as_bytes();
    proof {
        vstd::utf8::encode_utf8_decode_utf8(a@);
        vstd::utf8::encode_utf8_decode_utf8(b@);
    }
    if x.len() != y.len() {
        return false;
    }
    let mut i: usize = 0;
    while i < x.len()
        invariant
            x@ == a.spec_bytes(),
            y@ == b.spec_bytes(),
            x@.len() == y@.len(),
            i <= x@.len(),
            x@.take(i as int) == y@.take(i as int),
        decreases x@.len() - i,
    {
        if x[i] != y[i] {
            return false;
        }
        assert(x@.take(i + 1) =~= y@.take(i + 1));
        i = i + 1;
    }
    assert(x@ =~= x@.take(x@.len() as int));
    assert(y@ =~= y@.take(y@.len() as int));
    true
}

/// The Rust type of a field of grammar type `ty`, in the expression type
/// `base_name`: the base type is boxed, `Token` and `Object` are the token
/// types of the `tokens` module.
pub fn map_to_rs_type(ty: &str, base_name: &str) -> (r: RsT)
    requires
        known_type(ty@, base_name@),
    ensures
        r@ == if ty@ == base_name@ {
            boxed(base_name@)
        } else if ty@ == token_name() {
            token_type_path()
        } else {
            literal_type_path()
        },
{
    proof {
        reveal_strlit("Token");
        reveal_strlit("Box<");
        reveal_strlit(">");
        reveal_strlit("tokens::Token");
        reveal_strlit("tokens::LiteralValue");
    }
    if str_eq(base_name, ty) {
        let mut s = String::from_str("Box<");
        s.append(base_name);
        s.append(">");
        assert(s@ =~= boxed(base_name@));
        RsT::F(s)
    } else if str_eq(ty, "Token") {
        assert("Token"@ =~= token_name());
        assert("tokens::Token"@ =~= token_type_path());
        RsT::S("tokens::Token")
    } else {
        assert("Token"@ =~= token_name());
        assert("tokens::LiteralValue"@ =~= literal_type_path());
        RsT::S("tokens::LiteralValue")
    }
}

} // verus!
