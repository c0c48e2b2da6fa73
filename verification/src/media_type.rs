//! MIME types in their canonical spelling.
use crate::error::{Error, ErrorView};
use vstd::prelude::*;

verus! {

/// A failed attempt to read a MIME type.
#[verifier::external_type_specification]
#[verifier::external_body]
pub struct ExFromStrError(mime::FromStrError);

/// The canonical spelling of the MIME type that a text spells, if it spells
/// one: what [`mime::Mime`] makes of the text.
pub uninterp spec fn mime_parsed(text: Seq<char>) -> Option<Seq<char>>;

/// The characters of which type and subtype are made.
pub open spec fn is_token(c: char) -> bool {
    ||| 'a' <= c <= 'z'
    ||| 'A' <= c <= 'Z'
    ||| '0' <= c <= '9'
    ||| c == '!'
    ||| c == '#'
    ||| c == '$'
    ||| c == '%'
    ||| c == '&'
    ||| c == '\''
    ||| c == '*'
    ||| c == '+'
    ||| c == '-'
    ||| c == '.'
    ||| c == '^'
    ||| c == '_'
    ||| c == '`'
    ||| c == '|'
    ||| c == '~'
}

/// The ASCII letters `A` to `Z` in lower case, all else as it is.
pub open spec fn ascii_lower(text: Seq<char>) -> Seq<char> {
    text.map_values(
        |c: char|
            if 'A' <= c <= 'Z' {
                ((c as u32) + 32) as char
            } else {
                c
            },
    )
}

/// A type, a slash and a subtype, with no parameters.
pub open spec fn is_bare_mime(text: Seq<char>) -> bool {
    exists|slash: int|
        0 < slash < text.len() && #[trigger] text[slash] == '/' && forall|i: int|
            0 <= i < text.len() && i != slash ==> is_token(#[trigger] text[i])
}

/// `<mime::Mime as FromStr>::from_str`, and its text by `as_ref`. Of a text
/// with parameters it is only claimed that the outcome depends on the text
/// alone; a text without a semicolon is a MIME type where it is a type, a slash
/// and a subtype, and is then spelled in lower case. A canonical spelling is
/// read as itself.
#[verifier::external_body]
fn parse_mime(text: &str) -> (r: Result<String, mime::FromStrError>)
    ensures
        match r {
            Ok(spelling) => mime_parsed(text@) == Some(spelling@) && mime_parsed(spelling@)
                == Some(spelling@),
            Err(_) => mime_parsed(text@) is None,
        },
        !text@.contains(';') ==> (r is Ok <==> is_bare_mime(text@)),
        r matches Ok(spelling) ==> (!text@.contains(';') ==> spelling@ == ascii_lower(text@)),
{
    text.parse::<mime::Mime>().map(|m| m.as_ref().to_string())
}

/// A MIME type, or a wildcard for MIME types such as `text/*`.
#[derive(Debug, PartialEq, Eq)]
pub struct Mime {
    text: String,
}

impl View for Mime {
    type V = Seq<char>;

    closed spec fn view(&self) -> Seq<char> {
        self.text@
    }
}

/// Whether `text` is the canonical spelling of a MIME type.
pub open spec fn is_canonical(text: Seq<char>) -> bool {
    mime_parsed(text) == Some(text)
}

impl Clone for Mime {
    fn clone(&self) -> (r: Self)
        ensures
            r@ == self@,
    {
        proof {
            use_type_invariant(self);
        }
        Mime { text: self.text.clone() }
    }
}

impl Mime {
    /// The MIME type is spelled canonically.
    #[verifier::type_invariant]
    spec fn is_spelled_canonically(self) -> bool {
        is_canonical(self.text@)
    }

    /// Reads a MIME type.
    pub fn from_str(text: &str) -> (r: Result<Mime, Error>)
        ensures
            match r {
                Ok(m) => is_canonical(m@) && mime_parsed(text@) == Some(m@),
                Err(e) => mime_parsed(text@) is None && e@ == ErrorView::BadMime(text@),
            },
            !text@.contains(';') ==> (r is Ok <==> is_bare_mime(text@)),
            r matches Ok(m) ==> (!text@.contains(';') ==> m@ == ascii_lower(text@)),
    {
        match parse_mime(text) {
            Ok(spelling) => Ok(Mime { text: spelling }),
            Err(_) => Err(Error::BadMime(text.to_owned())),
        }
    }

    /// The canonical spelling.
    pub fn as_str(&self) -> (r: &str)
        ensures
            r@ == self@,
            is_canonical(r@),
    {
        proof {
            use_type_invariant(self);
        }
        self.text.as_str()
    }

    /// The canonical spelling.
    pub fn to_text(&self) -> (r: String)
        ensures
            r@ == self@,
            is_canonical(r@),
    {
        proof {
            use_type_invariant(self);
        }
        self.text.clone()
    }
}

} // verus!
