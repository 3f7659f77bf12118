//! Encoding identifiers: the closed set of well-known compression encodings
//! plus an extension case carrying an unrecognized token verbatim.
//!
//! Identifiers match case-insensitively on parse; well-known ones render in
//! canonical lowercase, extension tokens render exactly as carried.

use vstd::prelude::*;

use crate::error::ParseError;
use crate::text::is_header_char;
use crate::text::is_tchar;
use crate::text::is_tchar_exec;
use crate::text::is_ws_char;
use crate::text::lower_code;
use crate::text::eq_ignore_case;
use crate::text::seq_eq_lower;

verus! {

/// One acceptable content encoding: a well-known identifier or an extension
/// token kept for forward compatibility.
#[derive(Debug, PartialEq, Eq)]
pub enum Encoding {
    /// The `gzip` encoding.
    Gzip,
    /// The `deflate` encoding.
    Deflate,
    /// The `br` (brotli) encoding.
    Br,
    /// The `identity` encoding (no transformation).
    Identity,
    /// The `compress` encoding.
    Compress,
    /// An unrecognized but well-formed token, carried verbatim.
    Other(String),
}

/// Canonical text of the `gzip` identifier.
pub open spec fn gzip_text() -> Seq<char> {
    seq!['g', 'z', 'i', 'p']
}

/// Canonical text of the `deflate` identifier.
pub open spec fn deflate_text() -> Seq<char> {
    seq!['d', 'e', 'f', 'l', 'a', 't', 'e']
}

/// Canonical text of the `br` identifier.
pub open spec fn br_text() -> Seq<char> {
    seq!['b', 'r']
}

/// Canonical text of the `identity` identifier.
pub open spec fn identity_text() -> Seq<char> {
    seq!['i', 'd', 'e', 'n', 't', 'i', 't', 'y']
}

/// Canonical text of the `compress` identifier.
pub open spec fn compress_text() -> Seq<char> {
    seq!['c', 'o', 'm', 'p', 'r', 'e', 's', 's']
}

/// A valid extension token: a nonempty run of token characters that is not
/// the wildcard and does not match a well-known identifier in any case.
pub open spec fn valid_extension(n: Seq<char>) -> bool {
    n.len() > 0 && (forall|i: int| 0 <= i < n.len() ==> is_tchar(n[i])) && n != seq!['*']
        && !seq_eq_lower(n, gzip_text()) && !seq_eq_lower(n, deflate_text()) && !seq_eq_lower(
        n,
        br_text(),
    ) && !seq_eq_lower(n, identity_text()) && !seq_eq_lower(n, compress_text())
}

/// A valid identifier text: a canonical well-known name or a valid extension
/// token.
pub open spec fn ident_wf(n: Seq<char>) -> bool {
    n == gzip_text() || n == deflate_text() || n == br_text() || n == identity_text()
        || n == compress_text() || valid_extension(n)
}

/// Parse an already-trimmed directive name: a well-known identifier yields
/// its canonical text, any other valid token yields itself, and anything
/// else (empty, bad characters, the bare wildcard) yields `None`.
pub open spec fn parse_name(n: Seq<char>) -> Option<Seq<char>> {
    if seq_eq_lower(n, gzip_text()) {
        Some(gzip_text())
    } else if seq_eq_lower(n, deflate_text()) {
        Some(deflate_text())
    } else if seq_eq_lower(n, br_text()) {
        Some(br_text())
    } else if seq_eq_lower(n, identity_text()) {
        Some(identity_text())
    } else if seq_eq_lower(n, compress_text()) {
        Some(compress_text())
    } else if valid_extension(n) {
        Some(n)
    } else {
        None
    }
}

impl View for Encoding {
    type V = Seq<char>;

    open spec fn view(&self) -> Seq<char> {
        match self {
            Encoding::Gzip => gzip_text(),
            Encoding::Deflate => deflate_text(),
            Encoding::Br => br_text(),
            Encoding::Identity => identity_text(),
            Encoding::Compress => compress_text(),
            Encoding::Other(t) => t@,
        }
    }
}

impl Encoding {
    /// A well-known identifier is always valid; an extension must carry a
    /// valid non-wildcard, non-well-known token.
    pub open spec fn wf(self) -> bool {
        match self {
            Encoding::Other(t) => valid_extension(t@),
            _ => true,
        }
    }

    /// Whether this is the extension case.
    pub fn is_extension(&self) -> (r: bool)
        ensures
            r == (self is Other),
    {
        match self {
            Encoding::Other(_) => true,
            _ => false,
        }
    }

    /// Parse an already-trimmed directive name into an encoding.
    ///
    /// Well-known names match case-insensitively; any other nonempty run of
    /// token characters (except a bare `*`) is kept verbatim as an extension.
    pub fn from_token(name: &str) -> (r: Option<Encoding>)
        ensures
            match r {
                Some(e) => parse_name(name@) == Some(e@) && e.wf() && (e is Other ==> e@
                    == name@),
                None => parse_name(name@) is None,
            },
    {
        proof {
            reveal_strlit("gzip");
            reveal_strlit("deflate");
            reveal_strlit("br");
            reveal_strlit("identity");
            reveal_strlit("compress");
            assert("gzip"@ =~= gzip_text());
            assert("deflate"@ =~= deflate_text());
            assert("br"@ =~= br_text());
            assert("identity"@ =~= identity_text());
            assert("compress"@ =~= compress_text());
        }
        if eq_ignore_case(name, "gzip") {
            return Some(Encoding::Gzip);
        }
        if eq_ignore_case(name, "deflate") {
            return Some(Encoding::Deflate);
        }
        if eq_ignore_case(name, "br") {
            return Some(Encoding::Br);
        }
        if eq_ignore_case(name, "identity") {
            return Some(Encoding::Identity);
        }
        if eq_ignore_case(name, "compress") {
            return Some(Encoding::Compress);
        }
        let n: usize = name.unicode_len();
        if n == 0 {
            return None;
        }
        let mut i: usize = 0;
        while i < n
            invariant
                n == name@.len(),
                i <= n,
                forall|j: int| 0 <= j < i ==> is_tchar(name@[j]),
            decreases n - i,
        {
            if !is_tchar_exec(name.get_char(i)) {
                return None;
            }
            i = i + 1;
        }
        if n == 1 && name.get_char(0) == '*' {
            proof {
                assert(name@ =~= seq!['*']);
            }
            return None;
        }
        proof {
            assert(name@ != seq!['*']);
            assert(valid_extension(name@));
        }
        Some(Encoding::Other(name.to_owned()))
    }

    /// Construct an encoding from a token, rejecting invalid ones.
    pub fn new(name: &str) -> (r: Result<Encoding, ParseError>)
        ensures
            match r {
                Ok(e) => parse_name(name@) == Some(e@) && e.wf(),
                Err(err) => parse_name(name@) is None && err == ParseError::InvalidEncoding,
            },
    {
        match Encoding::from_token(name) {
            Some(e) => Ok(e),
            None => Err(ParseError::InvalidEncoding),
        }
    }

    /// The rendered identifier: canonical lowercase for well-known names,
    /// the carried token for extensions.
    pub fn name_str<'a>(&'a self) -> (r: &'a str)
        ensures
            r@ == self@,
    {
        match self {
            Encoding::Gzip => {
                proof {
                    reveal_strlit("gzip");
                    assert("gzip"@ =~= gzip_text());
                }
                "gzip"
            },
            Encoding::Deflate => {
                proof {
                    reveal_strlit("deflate");
                    assert("deflate"@ =~= deflate_text());
                }
                "deflate"
            },
            Encoding::Br => {
                proof {
                    reveal_strlit("br");
                    assert("br"@ =~= br_text());
                }
                "br"
            },
            Encoding::Identity => {
                proof {
                    reveal_strlit("identity");
                    assert("identity"@ =~= identity_text());
                }
                "identity"
            },
            Encoding::Compress => {
                proof {
                    reveal_strlit("compress");
                    assert("compress"@ =~= compress_text());
                }
                "compress"
            },
            Encoding::Other(t) => t.as_str(),
        }
    }
}

impl Clone for Encoding {
    /// Cloning keeps the identifier text, the case, and validity.
    fn clone(&self) -> (r: Self)
        ensures
            r@ == self@,
            r.wf() == self.wf(),
            (r is Other) == (self is Other),
    {
        match self {
            Encoding::Gzip => Encoding::Gzip,
            Encoding::Deflate => Encoding::Deflate,
            Encoding::Br => Encoding::Br,
            Encoding::Identity => Encoding::Identity,
            Encoding::Compress => Encoding::Compress,
            Encoding::Other(t) => Encoding::Other(t.clone()),
        }
    }
}

/// A valid identifier text is a nonempty run of token characters other than
/// the bare wildcard; token characters are printable ASCII and exclude
/// whitespace, comma, and semicolon.
pub proof fn lemma_ident_chars(n: Seq<char>)
    requires
        ident_wf(n),
    ensures
        n.len() > 0,
        n != seq!['*'],
        forall|i: int|
            0 <= i < n.len() ==> is_tchar(#[trigger] n[i]) && is_header_char(n[i]) && !is_ws_char(
                n[i],
            ) && n[i] != ',' && n[i] != ';',
{
    assert forall|i: int| 0 <= i < n.len() implies is_tchar(#[trigger] n[i]) && is_header_char(
        n[i],
    ) && !is_ws_char(n[i]) && n[i] != ',' && n[i] != ';' by {
        if n == gzip_text() || n == deflate_text() || n == br_text() || n == identity_text()
            || n == compress_text() {
        }
    }
}

/// Parsing a valid identifier text gives it back unchanged.
pub proof fn lemma_parse_name_id(n: Seq<char>)
    requires
        ident_wf(n),
    ensures
        parse_name(n) == Some(n),
{
    assert(seq_eq_lower(gzip_text(), gzip_text()));
    assert(seq_eq_lower(deflate_text(), deflate_text()));
    assert(seq_eq_lower(br_text(), br_text()));
    assert(seq_eq_lower(identity_text(), identity_text()));
    assert(seq_eq_lower(compress_text(), compress_text()));
    if n == identity_text() {
        assert(lower_code(identity_text()[0]) != lower_code(compress_text()[0]));
    }
    if n == compress_text() {
        assert(lower_code(compress_text()[0]) != lower_code(identity_text()[0]));
    }
}

} // verus!
