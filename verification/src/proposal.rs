//! A single directive of the header: an encoding identifier with an optional
//! quality weight, parsed from one comma-separated token and rendered back.
//!
//! Parsing is lenient: a token whose identifier or weight is malformed is
//! dropped (the parser yields no proposal) rather than failing the header.

use vstd::prelude::*;

use crate::encoding::Encoding;
use crate::encoding::ident_wf;
use crate::encoding::lemma_ident_chars;
use crate::encoding::lemma_parse_name_id;
use crate::encoding::parse_name;
use crate::error::ParseError;
use crate::quality::Quality;
use crate::quality::lemma_q_text_chars;
use crate::quality::lemma_quality_round_trip;
use crate::quality::parse_q;
use crate::quality::parse_q_str;
use crate::quality::q_text;
use crate::text::lemma_trim_ws_free;
use crate::text::trim_str;
use crate::text::trim_text;

verus! {

/// The mathematical content of a proposal: the identifier text and the
/// weight in thousandths, if any.
#[verifier::ext_equal]
pub struct ProposalModel {
    /// The rendered identifier text.
    pub ident: Seq<char>,
    /// The weight in thousandths, absent when no `;q=` parameter is carried.
    pub weight: Option<u16>,
}

impl ProposalModel {
    /// A valid proposal: a valid identifier and a weight within `[0, 1000]`.
    pub open spec fn wf(self) -> bool {
        ident_wf(self.ident) && (self.weight matches Some(t) ==> t <= 1000)
    }
}

/// One directive of the header: an encoding identifier plus an optional
/// priority weight.
#[derive(Debug, PartialEq, Eq)]
pub struct EncodingProposal {
    /// The proposed encoding.
    pub encoding: Encoding,
    /// The optional priority weight; absent weight renders without `;q=`.
    pub weight: Option<Quality>,
}

impl View for EncodingProposal {
    type V = ProposalModel;

    open spec fn view(&self) -> ProposalModel {
        ProposalModel {
            ident: self.encoding@,
            weight: match self.weight {
                Some(q) => Some(q@),
                None => None,
            },
        }
    }
}

/// The rendered text of one directive: the identifier, followed by `;q=` and
/// the weight when one is carried.
pub open spec fn proposal_text(m: ProposalModel) -> Seq<char> {
    match m.weight {
        Some(t) => m.ident + seq![';', 'q', '='] + q_text(t as int),
        None => m.ident,
    }
}

/// The position of the first semicolon, if any.
pub open spec fn find_semi(s: Seq<char>) -> Option<int>
    decreases s.len(),
{
    if s.len() == 0 {
        None
    } else if s[0] == ';' {
        Some(0)
    } else {
        match find_semi(s.drop_first()) {
            Some(i) => Some(i + 1),
            None => None,
        }
    }
}

/// `find_semi` finds exactly the first semicolon.
pub proof fn lemma_find_semi(s: Seq<char>)
    ensures
        match find_semi(s) {
            Some(i) => 0 <= i < s.len() && s[i] == ';' && (forall|j: int|
                0 <= j < i ==> s[j] != ';'),
            None => forall|j: int| 0 <= j < s.len() ==> s[j] != ';',
        },
    decreases s.len(),
{
    if s.len() > 0 && s[0] != ';' {
        lemma_find_semi(s.drop_first());
        match find_semi(s.drop_first()) {
            Some(i) => {
                assert(s.drop_first()[i] == s[i + 1]);
                assert forall|j: int| 0 <= j < i + 1 implies s[j] != ';' by {
                    if j > 0 {
                        assert(s.drop_first()[j - 1] == s[j]);
                    }
                }
            },
            None => {
                assert forall|j: int| 0 <= j < s.len() implies s[j] != ';' by {
                    if j > 0 {
                        assert(s.drop_first()[j - 1] == s[j]);
                    }
                }
            },
        }
    }
}

/// Parse one already-trimmed, nonempty, non-wildcard directive token.
///
/// The token splits at its first semicolon: the left part is the identifier
/// name (whitespace around it tolerated), the right part, if present, must be
/// a valid weight parameter. A malformed identifier or weight drops the whole
/// directive.
pub open spec fn parse_directive(p: Seq<char>) -> Option<ProposalModel> {
    match find_semi(p) {
        None => match parse_name(trim_text(p)) {
            Some(id) => Some(ProposalModel { ident: id, weight: None }),
            None => None,
        },
        Some(i) => match (parse_name(trim_text(p.take(i))), parse_q(p.skip(i + 1))) {
            (Some(id), Some(t)) => Some(ProposalModel { ident: id, weight: Some(t) }),
            _ => None,
        },
    }
}

impl Clone for EncodingProposal {
    /// Cloning keeps the identifier, the weight, and validity.
    fn clone(&self) -> (r: Self)
        ensures
            r@ == self@,
            r.wf() == self.wf(),
    {
        EncodingProposal { encoding: self.encoding.clone(), weight: self.weight }
    }
}

impl EncodingProposal {
    /// A valid proposal holds a valid encoding and an in-range weight.
    pub open spec fn wf(self) -> bool {
        self.encoding.wf() && (self.weight matches Some(q) ==> q.wf())
    }

    /// Construct a proposal from its parts, rejecting an invalid encoding or
    /// an out-of-range weight.
    pub fn new(encoding: Encoding, weight: Option<Quality>) -> (r: Result<
        EncodingProposal,
        ParseError,
    >)
        ensures
            r is Ok <==> encoding.wf() && (weight matches Some(q) ==> q.wf()),
            r matches Ok(p) ==> p.wf() && p@.ident == encoding@ && p@.weight == (match weight {
                Some(q) => Some(q@),
                None => None,
            }),
            r matches Err(e) ==> e == if !encoding.wf() {
                ParseError::InvalidEncoding
            } else {
                ParseError::OutOfRangeQuality
            },
    {
        let valid = match &encoding {
            Encoding::Other(t) => match Encoding::from_token(t.as_str()) {
                Some(e) => e.is_extension(),
                None => false,
            },
            _ => true,
        };
        if !valid {
            proof {
                assert(!encoding.wf());
            }
            return Err(ParseError::InvalidEncoding);
        }
        proof {
            assert(encoding.wf());
        }
        match &weight {
            Some(q) => {
                if q.thousandths() > 1000 {
                    return Err(ParseError::OutOfRangeQuality);
                }
            },
            None => {},
        }
        Ok(EncodingProposal { encoding, weight })
    }

    /// The encoding of this proposal.
    pub fn encoding(&self) -> (r: &Encoding)
        ensures
            r@ == self@.ident,
    {
        &self.encoding
    }

    /// The weight of this proposal, absent when none was given.
    pub fn weight(&self) -> (r: Option<Quality>)
        ensures
            r matches Some(q) ==> self@.weight == Some(q@),
            r is None ==> self@.weight is None,
    {
        self.weight
    }

    /// Parse one already-trimmed, nonempty, non-wildcard directive token.
    ///
    /// Yields `Ok(None)` for an unknown or malformed directive — the lenient
    /// policy that keeps one bad directive from failing the whole header.
    /// Hard errors are reserved for container-level failures and never arise
    /// from directive text itself.
    pub fn parse_token(token: &str) -> (r: Result<Option<EncodingProposal>, ParseError>)
        ensures
            r matches Ok(o) && (match o {
                Some(p) => parse_directive(token@) == Some(p@) && p.wf(),
                None => parse_directive(token@) is None,
            }),
    {
        let n: usize = token.unicode_len();
        let mut i: usize = 0;
        while i < n && token.get_char(i) != ';'
            invariant
                n == token@.len(),
                i <= n,
                forall|j: int| 0 <= j < i ==> token@[j] != ';',
            decreases n - i,
        {
            i = i + 1;
        }
        proof {
            lemma_find_semi(token@);
        }
        if i == n {
            let name = trim_str(token);
            match Encoding::from_token(name) {
                Some(e) => {
                    proof {
                        assert(find_semi(token@) is None);
                    }
                    Ok(Some(EncodingProposal { encoding: e, weight: None }))
                },
                None => Ok(None),
            }
        } else {
            proof {
                assert(token@[i as int] == ';');
                assert(find_semi(token@) == Some(i as int));
            }
            let name_part = token.substring_char(0, i);
            let name = trim_str(name_part);
            proof {
                assert(name_part@ =~= token@.take(i as int));
            }
            let qpart = token.substring_char(i + 1, n);
            proof {
                assert(qpart@ =~= token@.skip(i + 1));
            }
            match parse_q_str(qpart) {
                Some(t) => match Encoding::from_token(name) {
                    Some(e) => Ok(
                        Some(EncodingProposal { encoding: e, weight: Some(Quality::from_checked(t)) }),
                    ),
                    None => Ok(None),
                },
                None => Ok(None),
            }
        }
    }

    /// Render this directive back to a token.
    pub fn to_text(&self) -> (r: String)
        requires
            self.wf(),
        ensures
            r@ == proposal_text(self@),
    {
        let mut out = String::new();
        out.append(self.encoding.name_str());
        proof {
            assert(out@ =~= self.encoding@);
        }
        match &self.weight {
            Some(q) => {
                out.append(";q=");
                proof {
                    reveal_strlit(";q=");
                    assert(out@ =~= self.encoding@ + seq![';', 'q', '=']);
                }
                let qs = q.to_text();
                out.append(qs.as_str());
            },
            None => {},
        }
        out
    }
}

/// Rendering a valid proposal and parsing the result as a directive token
/// gives the proposal back.
pub proof fn lemma_directive_round_trip(m: ProposalModel)
    requires
        m.wf(),
    ensures
        parse_directive(proposal_text(m)) == Some(m),
{
    let s = proposal_text(m);
    lemma_ident_chars(m.ident);
    lemma_find_semi(s);
    lemma_trim_ws_free(m.ident);
    lemma_parse_name_id(m.ident);
    match m.weight {
        None => {
            assert(find_semi(s) is None);
            assert(parse_directive(s) == Some(ProposalModel { ident: m.ident, weight: None }));
            assert(ProposalModel { ident: m.ident, weight: None } =~= m);
        },
        Some(t) => {
            lemma_q_text_chars(t as int);
            let k = m.ident.len() as int;
            assert(s[k] == ';');
            assert(forall|j: int| 0 <= j < k ==> s[j] == m.ident[j] && s[j] != ';');
            assert(forall|j: int|
                k < j < s.len() ==> s[j] != ';' && (j <= k + 2 || s[j] == q_text(t as int)[j - k
                    - 3]));
            assert(find_semi(s) == Some(k));
            assert(s.take(k) =~= m.ident);
            assert(s.skip(k + 1) =~= seq!['q', '='] + q_text(t as int));
            lemma_quality_round_trip(t as int);
            assert(parse_q(s.skip(k + 1)) == Some(t));
            assert(parse_directive(s) == Some(ProposalModel { ident: m.ident, weight: Some(t) }));
            assert(ProposalModel { ident: m.ident, weight: Some(t) } =~= m);
        },
    }
}

/// A valid proposal has a valid model.
pub proof fn lemma_proposal_model_wf(p: EncodingProposal)
    requires
        p.wf(),
    ensures
        p@.wf(),
{
}

/// The rendered text of a valid proposal is nonempty, free of commas and
/// whitespace at either end, and never the bare wildcard.
pub proof fn lemma_proposal_text_chars(m: ProposalModel)
    requires
        m.wf(),
    ensures
        proposal_text(m).len() > 0,
        proposal_text(m) != seq!['*'],
        forall|i: int|
            0 <= i < proposal_text(m).len() ==> crate::text::is_header_char(
                #[trigger] proposal_text(m)[i],
            ) && !crate::text::is_ws_char(proposal_text(m)[i]) && proposal_text(m)[i] != ',',
{
    let s = proposal_text(m);
    lemma_ident_chars(m.ident);
    match m.weight {
        None => {
            assert(s == m.ident);
        },
        Some(t) => {
            lemma_q_text_chars(t as int);
            let k = m.ident.len() as int;
            assert forall|i: int|
                0 <= i < s.len() implies crate::text::is_header_char(#[trigger] s[i])
                && !crate::text::is_ws_char(s[i]) && s[i] != ',' by {
                if i < k {
                    assert(s[i] == m.ident[i]);
                } else if i <= k + 2 {
                    assert(s[i] == seq![';', 'q', '='][i - k]);
                } else {
                    assert(s[i] == q_text(t as int)[i - k - 3]);
                }
            }
            assert(s[0] == m.ident[0]);
        },
    }
    if s.len() == 1 && s[0] == '*' {
        assert(s =~= seq!['*']);
        assert(false);
    }
}

} // verus!
