use crate::text::is_ident_continue;
use crate::text::is_ident_start;
use crate::text::is_identifier;
use proc_macro2::Ident;
use proc_macro2::Span;
use vstd::prelude::*;
use vstd::string::*;

verus! {

/// `proc_macro2::Ident`, an identifier as a token.
#[verifier::external_type_specification]
#[verifier::external_body]
pub struct ExIdent(proc_macro2::Ident);

/// The text of an identifier: what `to_string` gives for it.
pub uninterp spec fn ident_text(id: Ident) -> Seq<char>;

/// `proc_macro2::Ident::new` with the span of `proc_macro2::Span::call_site`.
/// The constructor panics on text that is neither a keyword nor a legal
/// name of a variable. Text made of ASCII letters, digits and underscores
/// that does not open with a digit and is more than an underscore is one or
/// the other, and the token made from it prints as that text.
#[verifier::external_body]
fn ident_new(text: &str) -> (id: Ident)
    requires
        is_identifier(text@),
    ensures
        ident_text(id) == text@,
{
    Ident::new(text, Span::call_site())
}

/// `to_string` of a `proc_macro2::Ident`, through its `Display`: the text of
/// the token.
#[verifier::external_body]
fn ident_to_string(id: &Ident) -> (text: String)
    ensures
        text@ == ident_text(*id),
{
    id.to_string()
}

/// Whether the byte `b` may open an identifier.
fn byte_is_ident_start(b: u8) -> (r: bool)
    ensures
        r == is_ident_start(b as char),
{
    b == 95 || (97 <= b && b <= 122) || (65 <= b && b <= 90)
}

/// Whether the byte `b` may stand inside an identifier.
fn byte_is_ident_continue(b: u8) -> (r: bool)
    ensures
        r == is_ident_continue(b as char),
{
    byte_is_ident_start(b) || (48 <= b && b <= 57)
}

/// Decides whether `text` is an identifier.
pub fn check_identifier(text: &str) -> (r: bool)
    ensures
        r == is_identifier(text@),
{
    if !text.is_ascii() {
        proof {
            if is_identifier(text@) {
                assert forall|i: int| 0 <= i < text@.len() implies text@[i] as u32 <= 127 by {
                    assert(is_ident_continue(text@[i]));
                }
            }
        }
        return false;
    }
    let n = text.unicode_len();
    if n == 0 {
        return false;
    }
    let first = text.get_ascii(0);
    if !byte_is_ident_start(first) {
        assert(text@[0] as u8 as char == text@[0]);
        return false;
    }
    let mut i: usize = 0;
    while i < n
        invariant
            i <= n,
            n == text@.len(),
            text.is_ascii(),
            forall|j: int| 0 <= j < i ==> is_ident_continue(#[trigger] text@[j]),
        decreases n - i,
    {
        let b = text.get_ascii(i);
        assert(text@[i as int] as u8 as char == text@[i as int]);
        if !byte_is_ident_continue(b) {
            return false;
        }
        i = i + 1;
    }
    assert(text@[0] as u8 as char == text@[0]);
    n > 1 || first != 95
}

/// An identifier of the generated program: ASCII letters, digits and
/// underscores, not opened by a digit, and more than an underscore alone.
pub struct Name {
    text: String,
}

impl View for Name {
    type V = Seq<char>;

    closed spec fn view(&self) -> Seq<char> {
        self.text@
    }
}

impl Name {
    #[verifier::type_invariant]
    spec fn well_formed(self) -> bool {
        is_identifier(self.text@)
    }

    /// The name with the given text, if the text is an identifier.
    pub fn new(text: &str) -> (r: Option<Name>)
        ensures
            r is Some <==> is_identifier(text@),
            r is Some ==> r->0@ == text@,
    {
        if check_identifier(text) {
            Some(Name { text: String::from_str(text) })
        } else {
            None
        }
    }

    /// The name with the given text, which is known to be an identifier.
    pub(crate) fn from_valid(text: String) -> (r: Name)
        requires
            is_identifier(text@),
        ensures
            r@ == text@,
    {
        Name { text }
    }

    /// The name that `id` prints as, if that is an ASCII identifier.
    pub fn from_ident(id: &Ident) -> (r: Option<Name>)
        ensures
            r is Some <==> is_identifier(ident_text(*id)),
            r is Some ==> r->0@ == ident_text(*id),
    {
        let text = ident_to_string(id);
        Name::new(text.as_str())
    }

    /// The name as a token of the generated program.
    pub fn to_ident(&self) -> (id: Ident)
        ensures
            ident_text(id) == self@,
            is_identifier(self@),
    {
        proof {
            use_type_invariant(self);
        }
        ident_new(self.text.as_str())
    }

    /// A second name with the same text.
    pub fn duplicate(&self) -> (r: Name)
        ensures
            r@ == self@,
    {
        proof {
            use_type_invariant(self);
        }
        Name { text: String::from_str(self.text.as_str()) }
    }

    /// The text of the name.
    pub fn as_str(&self) -> (r: &str)
        ensures
            r@ == self@,
            is_identifier(self@),
    {
        proof {
            use_type_invariant(self);
        }
        self.text.as_str()
    }
}

} // verus!
