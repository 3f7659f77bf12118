//! The `Accept-Encoding` aggregate: an ordered list of encoding proposals
//! plus a wildcard flag, parsed from header lines and rendered back to one
//! canonical header value.
//!
//! Parsing splits each line on commas, trims each piece, skips empty pieces,
//! folds every `*` piece into the single wildcard flag, and keeps every
//! directive that parses — dropping malformed ones silently, so one bad
//! directive never fails the header. Rendering joins the entries with `", "`
//! and appends the wildcard last; parsing the rendered text yields the same
//! list back.

use vstd::prelude::*;

use crate::error::ParseError;
use crate::headers::HeaderName;
use crate::headers::HeaderValue;
use crate::headers::Headers;
use crate::headers::accept_encoding_name;
use crate::headers::accept_encoding_text;
use crate::headers::lookup;
use crate::headers::values_views;
use crate::proposal::EncodingProposal;
use crate::proposal::ProposalModel;
use crate::proposal::lemma_directive_round_trip;
use crate::proposal::lemma_proposal_model_wf;
use crate::proposal::lemma_proposal_text_chars;
use crate::proposal::parse_directive;
use crate::proposal::proposal_text;
use crate::text::all_header_chars;
use crate::text::is_header_char;
use crate::text::is_ws_char;
use crate::text::lemma_trim_ws_free;
use crate::text::lemma_trim_ws_prefix;
use crate::text::trim_str;
use crate::text::trim_text;

verus! {

/// The mathematical content of an `Accept-Encoding` list: the wildcard flag
/// and the proposals in encounter order.
#[verifier::ext_equal]
pub struct ListModel {
    /// Whether a `*` directive was seen or set.
    pub wildcard: bool,
    /// The proposals, in encounter order.
    pub entries: Seq<ProposalModel>,
}

impl ListModel {
    /// Every entry is a valid proposal.
    pub open spec fn wf(self) -> bool {
        forall|i: int| 0 <= i < self.entries.len() ==> self.entries[i].wf()
    }

    /// The model of a freshly created list: no entries, no wildcard.
    pub open spec fn empty_model() -> ListModel {
        ListModel { wildcard: false, entries: Seq::empty() }
    }
}

/// The model held by executable state: a wildcard flag and proposal values.
pub open spec fn model_of(w: bool, es: Seq<EncodingProposal>) -> ListModel {
    ListModel { wildcard: w, entries: es.map_values(|p: EncodingProposal| p@) }
}

/// Fold one trimmed piece into the state: empty pieces are skipped, `*` sets
/// the wildcard, a directive that parses is appended, and anything else is
/// dropped.
pub open spec fn apply_piece(p: Seq<char>, st: ListModel) -> ListModel {
    if p.len() == 0 {
        st
    } else if p == seq!['*'] {
        ListModel { wildcard: true, entries: st.entries }
    } else {
        match parse_directive(p) {
            Some(m) => ListModel { wildcard: st.wildcard, entries: st.entries.push(m) },
            None => st,
        }
    }
}

/// Scan one header line character by character: `cur` accumulates the piece
/// since the last comma; each comma, and the end of the line, finishes a
/// piece.
pub open spec fn scan(s: Seq<char>, cur: Seq<char>, st: ListModel) -> ListModel
    decreases s.len(),
{
    if s.len() == 0 {
        apply_piece(trim_text(cur), st)
    } else if s[0] == ',' {
        scan(s.drop_first(), Seq::empty(), apply_piece(trim_text(cur), st))
    } else {
        scan(s.drop_first(), cur.push(s[0]), st)
    }
}

/// Parse one header line into the state.
pub open spec fn parse_value_text(s: Seq<char>, st: ListModel) -> ListModel {
    scan(s, Seq::empty(), st)
}

/// Parse the physical header lines in order, folding them into one state —
/// the logical concatenation of repeated header occurrences.
pub open spec fn parse_lines(lines: Seq<Seq<char>>, st: ListModel) -> ListModel
    decreases lines.len(),
{
    if lines.len() == 0 {
        st
    } else {
        parse_lines(lines.drop_first(), parse_value_text(lines[0], st))
    }
}

/// The entries rendered in order, joined by `", "`.
pub open spec fn entries_text(s: Seq<ProposalModel>) -> Seq<char>
    decreases s.len(),
{
    if s.len() == 0 {
        Seq::empty()
    } else if s.len() == 1 {
        proposal_text(s[0])
    } else {
        proposal_text(s[0]) + seq![',', ' '] + entries_text(s.drop_first())
    }
}

/// The canonical header value of a list: the entries joined by `", "`, with
/// `*` appended last when the wildcard is set; empty when there is nothing.
pub open spec fn render_text(m: ListModel) -> Seq<char> {
    if m.entries.len() == 0 {
        if m.wildcard {
            seq!['*']
        } else {
            Seq::empty()
        }
    } else if m.wildcard {
        entries_text(m.entries) + seq![',', ' ', '*']
    } else {
        entries_text(m.entries)
    }
}

/// The `Accept-Encoding` header: an ordered list of encoding proposals plus
/// a wildcard flag.
#[derive(Debug)]
pub struct AcceptEncoding {
    wildcard: bool,
    entries: Vec<EncodingProposal>,
}

impl View for AcceptEncoding {
    type V = ListModel;

    closed spec fn view(&self) -> ListModel {
        model_of(self.wildcard, self.entries@)
    }
}

/// Fold one comma-separated piece of a header line into the state.
fn handle_piece(piece: &str, wildcard: &mut bool, entries: &mut Vec<EncodingProposal>)
    requires
        forall|j: int| 0 <= j < old(entries)@.len() ==> old(entries)@[j].wf(),
    ensures
        model_of(*final(wildcard), final(entries)@) == apply_piece(
            trim_text(piece@),
            model_of(*old(wildcard), old(entries)@),
        ),
        forall|j: int| 0 <= j < final(entries)@.len() ==> final(entries)@[j].wf(),
{
    let ghost st = model_of(*old(wildcard), old(entries)@);
    let t = trim_str(piece);
    let m: usize = t.unicode_len();
    if m == 0 {
        return ;
    }
    if m == 1 && t.get_char(0) == '*' {
        proof {
            assert(t@ =~= seq!['*']);
        }
        *wildcard = true;
        proof {
            assert(model_of(*wildcard, entries@) =~= apply_piece(t@, st));
        }
        return ;
    }
    proof {
        if t@ == seq!['*'] {
            assert(t@.len() == 1 && t@[0] == '*');
            assert(false);
        }
    }
    match EncodingProposal::parse_token(t) {
        Ok(Some(p)) => {
            proof {
                assert(parse_directive(t@) == Some(p@));
            }
            entries.push(p);
            proof {
                assert(model_of(*wildcard, entries@).entries =~= st.entries.push(p@));
                assert(model_of(*wildcard, entries@) =~= apply_piece(t@, st));
            }
        },
        Ok(None) => {
            proof {
                assert(model_of(*wildcard, entries@) =~= apply_piece(t@, st));
            }
        },
        Err(_) => {
            proof {
                assert(false);
            }
        },
    }
}

/// Parse one header line, folding its pieces into the state.
fn parse_into(s: &str, wildcard: &mut bool, entries: &mut Vec<EncodingProposal>)
    requires
        forall|j: int| 0 <= j < old(entries)@.len() ==> old(entries)@[j].wf(),
    ensures
        model_of(*final(wildcard), final(entries)@) == scan(
            s@,
            Seq::empty(),
            model_of(*old(wildcard), old(entries)@),
        ),
        forall|j: int| 0 <= j < final(entries)@.len() ==> final(entries)@[j].wf(),
{
    let ghost st0 = model_of(*old(wildcard), old(entries)@);
    let n: usize = s.unicode_len();
    let mut start: usize = 0;
    let mut i: usize = 0;
    proof {
        assert(s@.skip(0) =~= s@);
        assert(s@.subrange(0, 0) =~= Seq::<char>::empty());
    }
    while i < n
        invariant
            n == s@.len(),
            start <= i <= n,
            forall|j: int| 0 <= j < entries@.len() ==> entries@[j].wf(),
            scan(s@, Seq::empty(), st0) == scan(
                s@.skip(i as int),
                s@.subrange(start as int, i as int),
                model_of(*wildcard, entries@),
            ),
        decreases n - i,
    {
        let c = s.get_char(i);
        let ghost cur = s@.subrange(start as int, i as int);
        let ghost stc = model_of(*wildcard, entries@);
        proof {
            assert(s@.skip(i as int)[0] == s@[i as int]);
            assert(s@.skip(i as int).drop_first() =~= s@.skip(i + 1));
        }
        if c == ',' {
            let piece = s.substring_char(start, i);
            proof {
                assert(piece@ =~= cur);
            }
            handle_piece(piece, wildcard, entries);
            start = i + 1;
            proof {
                assert(s@.subrange(start as int, i + 1) =~= Seq::<char>::empty());
            }
        } else {
            proof {
                assert(cur.push(s@[i as int]) =~= s@.subrange(start as int, i + 1));
            }
        }
        i = i + 1;
    }
    let piece = s.substring_char(start, n);
    proof {
        assert(piece@ =~= s@.subrange(start as int, n as int));
        assert(s@.skip(n as int).len() == 0);
    }
    handle_piece(piece, wildcard, entries);
}

impl AcceptEncoding {
    /// Every entry is a valid proposal.
    pub closed spec fn wf(self) -> bool {
        forall|i: int| 0 <= i < self.entries@.len() ==> self.entries@[i].wf()
    }

    /// Create a new, empty instance: no entries, no wildcard.
    pub fn new() -> (r: AcceptEncoding)
        ensures
            r@ == ListModel::empty_model(),
            r.wf(),
    {
        let r = AcceptEncoding { wildcard: false, entries: Vec::new() };
        proof {
            assert(r@ =~= ListModel::empty_model());
        }
        r
    }

    /// Read the `accept-encoding` lines from a header store.
    ///
    /// An absent header yields `Ok(None)`; a present header — even an empty
    /// one — yields the parsed list. Individual malformed directives are
    /// dropped, never an error: hard failure is reserved for the store
    /// handing over bytes that are not header text, which this store cannot.
    pub fn from_headers(headers: &Headers) -> (r: Result<Option<AcceptEncoding>, ParseError>)
        ensures
            r matches Ok(o) && (match lookup(headers@, accept_encoding_text()) {
                None => o is None,
                Some(lines) => o matches Some(l) && l.wf() && l@ == parse_lines(
                    lines,
                    ListModel::empty_model(),
                ),
            }),
    {
        let name = accept_encoding_name();
        let values = match headers.get(&name) {
            Some(values) => values,
            None => {
                return Ok(None);
            },
        };
        let ghost lines = values_views(values@);
        let mut wildcard = false;
        let mut entries: Vec<EncodingProposal> = Vec::new();
        let n = values.len();
        let mut i: usize = 0;
        proof {
            assert(lines.skip(0) =~= lines);
            assert(model_of(false, entries@) =~= ListModel::empty_model());
        }
        while i < n
            invariant
                n == values@.len(),
                i <= n,
                lines == values_views(values@),
                forall|j: int| 0 <= j < entries@.len() ==> entries@[j].wf(),
                parse_lines(lines, ListModel::empty_model()) == parse_lines(
                    lines.skip(i as int),
                    model_of(wildcard, entries@),
                ),
            decreases n - i,
        {
            let v = &values[i];
            proof {
                assert(lines.skip(i as int)[0] == lines[i as int]);
                assert(lines[i as int] == values@[i as int]@);
                assert(lines.skip(i as int).drop_first() =~= lines.skip(i + 1));
            }
            parse_into(v.as_str(), &mut wildcard, &mut entries);
            i = i + 1;
        }
        proof {
            assert(lines.skip(n as int).len() == 0);
        }
        let r = AcceptEncoding { wildcard, entries };
        proof {
            assert(r@ == model_of(r.wildcard, r.entries@));
        }
        Ok(Some(r))
    }

    /// Push a directive onto the end of the list.
    pub fn push(&mut self, prop: EncodingProposal)
        requires
            old(self).wf(),
            prop.wf(),
        ensures
            final(self).wf(),
            final(self)@.wildcard == old(self)@.wildcard,
            final(self)@.entries == old(self)@.entries.push(prop@),
    {
        let ghost before = self@;
        self.entries.push(prop);
        proof {
            assert(self@.entries =~= before.entries.push(prop@));
        }
    }

    /// Whether a wildcard directive was seen or set.
    pub fn wildcard(&self) -> (r: bool)
        ensures
            r == self@.wildcard,
    {
        self.wildcard
    }

    /// Set the wildcard directive.
    pub fn set_wildcard(&mut self, wildcard: bool)
        requires
            old(self).wf(),
        ensures
            final(self).wf(),
            final(self)@.wildcard == wildcard,
            final(self)@.entries == old(self)@.entries,
    {
        self.wildcard = wildcard
    }

    /// The header name this list is stored under.
    pub fn name(&self) -> (r: HeaderName)
        ensures
            r@ == accept_encoding_text(),
    {
        accept_encoding_name()
    }

    /// Render the list to its canonical header value.
    pub fn value(&self) -> (r: HeaderValue)
        requires
            self.wf(),
        ensures
            r@ == render_text(self@),
            r.wf(),
    {
        let mut out = String::new();
        let n = self.entries.len();
        let mut i: usize = 0;
        proof {
            assert(self@.entries.take(0) =~= Seq::<ProposalModel>::empty());
            assert(out@ =~= entries_text(self@.entries.take(0)));
        }
        while i < n
            invariant
                self.wf(),
                n == self.entries@.len(),
                i <= n,
                out@ == entries_text(self@.entries.take(i as int)),
            decreases n - i,
        {
            let ghost taken = self@.entries.take(i as int);
            if i > 0 {
                out.append(", ");
                proof {
                    reveal_strlit(", ");
                    assert(out@ =~= entries_text(taken) + seq![',', ' ']);
                }
            }
            let p = &self.entries[i];
            proof {
                assert(p@ == self@.entries[i as int]);
            }
            let t = p.to_text();
            out.append(t.as_str());
            proof {
                lemma_entries_text_snoc(taken, self@.entries[i as int]);
                assert(self@.entries.take(i + 1) =~= taken.push(self@.entries[i as int]));
                if i == 0 {
                    assert(out@ =~= proposal_text(self@.entries[0]));
                }
                assert(out@ == entries_text(self@.entries.take(i + 1)));
            }
            i = i + 1;
        }
        proof {
            assert(self@.entries.take(n as int) =~= self@.entries);
        }
        if self.wildcard {
            if n == 0 {
                out.append("*");
                proof {
                    reveal_strlit("*");
                    assert(out@ =~= seq!['*']);
                }
            } else {
                out.append(", *");
                proof {
                    reveal_strlit(", *");
                    assert(out@ =~= entries_text(self@.entries) + seq![',', ' ', '*']);
                }
            }
        }
        proof {
            lemma_wf_model(self);
            lemma_render_text_ascii(self@);
            assert(out@ == render_text(self@));
        }
        HeaderValue::from_checked(out)
    }

    /// Install the rendered value in a header store under `accept-encoding`.
    pub fn apply(&self, headers: &mut Headers)
        requires
            self.wf(),
        ensures
            lookup(final(headers)@, accept_encoding_text()) == Some(seq![render_text(self@)]),
            forall|m: Seq<char>|
                m != accept_encoding_text() ==> #[trigger] lookup(final(headers)@, m) == lookup(
                    old(headers)@,
                    m,
                ),
    {
        let value = self.value();
        headers.insert(accept_encoding_name(), value);
    }

    /// The zero-or-one header values this list converts to: none when the
    /// render is empty, exactly one otherwise.
    pub fn to_header_values(&self) -> (r: Option<HeaderValue>)
        requires
            self.wf(),
        ensures
            r is Some <==> render_text(self@).len() > 0,
            r matches Some(v) ==> v@ == render_text(self@),
    {
        let v = self.value();
        if v.as_str().unicode_len() == 0 {
            None
        } else {
            Some(v)
        }
    }

    /// A borrowing cursor over the entries, in order.
    pub fn iter<'a>(&'a self) -> (r: Iter<'a>)
        ensures
            r.entries_spec() == self@.entries,
            r.pos_spec() == 0,
    {
        Iter { entries: &self.entries, pos: 0 }
    }

    /// An owning cursor over the entries, in order.
    pub fn into_iter(self) -> (r: IntoIter)
        ensures
            r.entries_spec() == self@.entries,
            r.pos_spec() == 0,
    {
        IntoIter { entries: self.entries, pos: 0 }
    }
}

/// A borrowing cursor over the entries of an `AcceptEncoding`.
#[derive(Debug)]
pub struct Iter<'a> {
    entries: &'a Vec<EncodingProposal>,
    pos: usize,
}

impl<'a> Iter<'a> {
    /// The models of all entries walked over.
    pub closed spec fn entries_spec(self) -> Seq<ProposalModel> {
        self.entries@.map_values(|p: EncodingProposal| p@)
    }

    /// How many entries were already handed out.
    pub closed spec fn pos_spec(self) -> int {
        self.pos as int
    }

    /// The next entry, or `None` past the end.
    pub fn next(&mut self) -> (r: Option<&'a EncodingProposal>)
        ensures
            final(self).entries_spec() == old(self).entries_spec(),
            old(self).pos_spec() < old(self).entries_spec().len() ==> (r matches Some(p)
                && p@ == old(self).entries_spec()[old(self).pos_spec()]
                && final(self).pos_spec() == old(self).pos_spec() + 1),
            old(self).pos_spec() >= old(self).entries_spec().len() ==> (r is None
                && final(self).pos_spec() == old(self).pos_spec()),
    {
        if self.pos < self.entries.len() {
            let p = &self.entries[self.pos];
            self.pos = self.pos + 1;
            Some(p)
        } else {
            None
        }
    }

    /// How many entries remain.
    pub fn size_hint(&self) -> (r: (usize, Option<usize>))
        ensures
            self.pos_spec() <= self.entries_spec().len() ==> r.0 as int == self.entries_spec().len()
                - self.pos_spec(),
            r.1 == Some(r.0),
    {
        let n = self.entries.len();
        if self.pos <= n {
            (n - self.pos, Some(n - self.pos))
        } else {
            (0, Some(0))
        }
    }
}

/// An owning cursor over the entries of an `AcceptEncoding`.
#[derive(Debug)]
pub struct IntoIter {
    entries: Vec<EncodingProposal>,
    pos: usize,
}

impl IntoIter {
    /// The models of all entries walked over.
    pub closed spec fn entries_spec(self) -> Seq<ProposalModel> {
        self.entries@.map_values(|p: EncodingProposal| p@)
    }

    /// How many entries were already handed out.
    pub closed spec fn pos_spec(self) -> int {
        self.pos as int
    }

    /// The next entry, or `None` past the end.
    pub fn next(&mut self) -> (r: Option<EncodingProposal>)
        ensures
            final(self).entries_spec() == old(self).entries_spec(),
            old(self).pos_spec() < old(self).entries_spec().len() ==> (r matches Some(p)
                && p@ == old(self).entries_spec()[old(self).pos_spec()]
                && final(self).pos_spec() == old(self).pos_spec() + 1),
            old(self).pos_spec() >= old(self).entries_spec().len() ==> (r is None
                && final(self).pos_spec() == old(self).pos_spec()),
    {
        if self.pos < self.entries.len() {
            let p = self.entries[self.pos].clone();
            self.pos = self.pos + 1;
            Some(p)
        } else {
            None
        }
    }

    /// How many entries remain.
    pub fn size_hint(&self) -> (r: (usize, Option<usize>))
        ensures
            self.pos_spec() <= self.entries_spec().len() ==> r.0 as int == self.entries_spec().len()
                - self.pos_spec(),
            r.1 == Some(r.0),
    {
        let n = self.entries.len();
        if self.pos <= n {
            (n - self.pos, Some(n - self.pos))
        } else {
            (0, Some(0))
        }
    }
}

/// A valid list has a valid model.
pub proof fn lemma_wf_model(l: &AcceptEncoding)
    requires
        l.wf(),
    ensures
        l@.wf(),
{
    assert forall|i: int| 0 <= i < l@.entries.len() implies l@.entries[i].wf() by {
        assert(l@.entries[i] == l.entries@[i]@);
        lemma_proposal_model_wf(l.entries@[i]);
    }
}

/// Appending one entry extends the joined text by `", "` and its token.
proof fn lemma_entries_text_snoc(s: Seq<ProposalModel>, p: ProposalModel)
    ensures
        entries_text(s.push(p)) == if s.len() == 0 {
            proposal_text(p)
        } else {
            entries_text(s) + seq![',', ' '] + proposal_text(p)
        },
    decreases s.len(),
{
    if s.len() == 0 {
        assert(s.push(p).len() == 1);
        assert(s.push(p)[0] == p);
    } else {
        assert(s.push(p)[0] == s[0]);
        assert(s.push(p).drop_first() =~= s.drop_first().push(p));
        lemma_entries_text_snoc(s.drop_first(), p);
        if s.len() == 1 {
            assert(entries_text(s.push(p)) == proposal_text(s[0]) + seq![',', ' ']
                + proposal_text(p));
            assert(entries_text(s) == proposal_text(s[0]));
        } else {
            assert(entries_text(s.push(p)) == proposal_text(s[0]) + seq![',', ' '] + (entries_text(
                s.drop_first(),
            ) + seq![',', ' '] + proposal_text(p)));
            assert(entries_text(s) == proposal_text(s[0]) + seq![',', ' '] + entries_text(
                s.drop_first(),
            ));
            assert(proposal_text(s[0]) + seq![',', ' '] + (entries_text(s.drop_first())
                + seq![',', ' '] + proposal_text(p)) =~= (proposal_text(s[0]) + seq![',', ' ']
                + entries_text(s.drop_first())) + seq![',', ' '] + proposal_text(p));
        }
    }
}

/// The joined text of valid entries is printable ASCII.
proof fn lemma_entries_text_ascii(s: Seq<ProposalModel>)
    requires
        forall|i: int| 0 <= i < s.len() ==> s[i].wf(),
    ensures
        all_header_chars(entries_text(s)),
    decreases s.len(),
{
    if s.len() == 0 {
    } else if s.len() == 1 {
        lemma_proposal_text_chars(s[0]);
    } else {
        lemma_proposal_text_chars(s[0]);
        lemma_entries_text_ascii(s.drop_first());
        let p0 = proposal_text(s[0]);
        let rest = entries_text(s.drop_first());
        assert forall|i: int|
            0 <= i < entries_text(s).len() implies is_header_char(#[trigger] entries_text(s)[i]) by {
            if i < p0.len() {
                assert(entries_text(s)[i] == p0[i]);
            } else if i < p0.len() + 2 {
                assert(entries_text(s)[i] == seq![',', ' '][i - p0.len()]);
            } else {
                assert(entries_text(s)[i] == rest[i - p0.len() - 2]);
            }
        }
    }
}

/// The rendered value of a valid list is printable ASCII.
pub proof fn lemma_render_text_ascii(m: ListModel)
    requires
        m.wf(),
    ensures
        all_header_chars(render_text(m)),
{
    lemma_entries_text_ascii(m.entries);
    let e = entries_text(m.entries);
    if m.entries.len() == 0 {
    } else if m.wildcard {
        assert forall|i: int|
            0 <= i < render_text(m).len() implies is_header_char(#[trigger] render_text(m)[i]) by {
            if i < e.len() {
                assert(render_text(m)[i] == e[i]);
            } else {
                assert(render_text(m)[i] == seq![',', ' ', '*'][i - e.len()]);
            }
        }
    }
}

/// Scanning a comma-free prefix only accumulates it onto the current piece.
proof fn lemma_scan_comma_free(a: Seq<char>, b: Seq<char>, cur: Seq<char>, st: ListModel)
    requires
        forall|i: int| 0 <= i < a.len() ==> a[i] != ',',
    ensures
        scan(a + b, cur, st) == scan(b, cur + a, st),
    decreases a.len(),
{
    if a.len() == 0 {
        assert(a + b =~= b);
        assert(cur + a =~= cur);
    } else {
        assert((a + b)[0] == a[0]);
        assert((a + b).drop_first() =~= a.drop_first() + b);
        lemma_scan_comma_free(a.drop_first(), b, cur.push(a[0]), st);
        assert(cur.push(a[0]) + a.drop_first() =~= cur + a);
    }
}

/// Scanning rendered entries (with an optional trailing `", *"`) from any
/// all-whitespace piece accumulator appends exactly those entries and sets
/// the wildcard exactly when the tail carries it.
proof fn lemma_scan_entries(s: Seq<ProposalModel>, wild_tail: bool, cur: Seq<char>, st: ListModel)
    requires
        s.len() > 0,
        forall|i: int| 0 <= i < s.len() ==> s[i].wf(),
        forall|i: int| 0 <= i < cur.len() ==> is_ws_char(cur[i]),
    ensures
        scan(
            entries_text(s) + (if wild_tail {
                seq![',', ' ', '*']
            } else {
                Seq::<char>::empty()
            }),
            cur,
            st,
        ) == (ListModel { wildcard: st.wildcard || wild_tail, entries: st.entries + s }),
    decreases s.len(),
{
    let tail: Seq<char> = if wild_tail {
        seq![',', ' ', '*']
    } else {
        Seq::<char>::empty()
    };
    let p0 = proposal_text(s[0]);
    lemma_proposal_text_chars(s[0]);
    lemma_directive_round_trip(s[0]);
    lemma_trim_ws_prefix(cur, p0);
    lemma_trim_ws_free(p0);
    let st1 = ListModel { wildcard: st.wildcard, entries: st.entries.push(s[0]) };
    assert(apply_piece(trim_text(cur + p0), st) == st1);
    if s.len() == 1 {
        assert(entries_text(s) + tail =~= p0 + tail);
        lemma_scan_comma_free(p0, tail, cur, st);
        if wild_tail {
            assert(tail[0] == ',');
            assert(tail.drop_first() =~= seq![' ', '*']);
            assert(scan(tail, cur + p0, st) == scan(seq![' ', '*'], Seq::<char>::empty(), st1));
            assert(seq![' ', '*'][0] == ' ');
            assert(seq![' ', '*'].drop_first() =~= seq!['*']);
            assert(Seq::<char>::empty().push(' ') =~= seq![' ']);
            assert(seq!['*'][0] == '*');
            assert(seq!['*'].drop_first() =~= Seq::<char>::empty());
            assert(seq![' '].push('*') =~= seq![' ', '*']);
            assert(scan(seq![' ', '*'], Seq::<char>::empty(), st1) == scan(
                seq!['*'],
                seq![' '],
                st1,
            ));
            assert(scan(seq!['*'], seq![' '], st1) == scan(
                Seq::<char>::empty(),
                seq![' ', '*'],
                st1,
            ));
            assert(scan(Seq::<char>::empty(), seq![' ', '*'], st1) == apply_piece(
                trim_text(seq![' ', '*']),
                st1,
            ));
            lemma_trim_ws_prefix(seq![' '], seq!['*']);
            assert(seq![' '] + seq!['*'] =~= seq![' ', '*']);
            lemma_trim_ws_free(seq!['*']);
            assert(apply_piece(seq!['*'], st1) == ListModel {
                wildcard: true,
                entries: st1.entries,
            });
        } else {
            assert(scan(tail, cur + p0, st) == apply_piece(trim_text(cur + p0), st));
        }
        assert(st.entries.push(s[0]) =~= st.entries + s);
        assert(ListModel { wildcard: st.wildcard || wild_tail, entries: st1.entries } =~= ListModel {
            wildcard: st.wildcard || wild_tail,
            entries: st.entries + s,
        });
    } else {
        let rest = entries_text(s.drop_first());
        let after = seq![',', ' '] + (rest + tail);
        assert(entries_text(s) + tail =~= p0 + after);
        lemma_scan_comma_free(p0, after, cur, st);
        assert(after[0] == ',');
        assert(after.drop_first() =~= seq![' '] + (rest + tail));
        assert(scan(after, cur + p0, st) == scan(
            seq![' '] + (rest + tail),
            Seq::<char>::empty(),
            st1,
        ));
        assert((seq![' '] + (rest + tail))[0] == ' ');
        assert((seq![' '] + (rest + tail)).drop_first() =~= rest + tail);
        assert(Seq::<char>::empty().push(' ') =~= seq![' ']);
        assert(scan(seq![' '] + (rest + tail), Seq::<char>::empty(), st1) == scan(
            rest + tail,
            seq![' '],
            st1,
        ));
        lemma_scan_entries(s.drop_first(), wild_tail, seq![' '], st1);
        assert(st1.entries + s.drop_first() =~= st.entries + s);
        assert(ListModel {
            wildcard: st1.wildcard || wild_tail,
            entries: st1.entries + s.drop_first(),
        } =~= ListModel { wildcard: st.wildcard || wild_tail, entries: st.entries + s });
    }
}

/// Round trip: parsing the rendered value of any valid list — any mix of
/// valid proposals and a wildcard flag — yields that list back, entry for
/// entry, in order, with the same wildcard.
pub proof fn lemma_round_trip(m: ListModel)
    requires
        m.wf(),
    ensures
        parse_value_text(render_text(m), ListModel::empty_model()) == m,
{
    let e = ListModel::empty_model();
    if m.entries.len() == 0 {
        if m.wildcard {
            assert(seq!['*'][0] == '*');
            assert(seq!['*'].drop_first() =~= Seq::<char>::empty());
            assert(Seq::<char>::empty().push('*') =~= seq!['*']);
            lemma_trim_ws_free(seq!['*']);
            assert(scan(seq!['*'], Seq::<char>::empty(), e) == scan(
                Seq::<char>::empty(),
                seq!['*'],
                e,
            ));
            assert(scan(Seq::<char>::empty(), seq!['*'], e) == apply_piece(seq!['*'], e));
            assert(apply_piece(seq!['*'], e) =~= m);
        } else {
            lemma_trim_ws_free(Seq::<char>::empty());
            assert(scan(Seq::<char>::empty(), Seq::<char>::empty(), e) == apply_piece(
                Seq::<char>::empty(),
                e,
            ));
            assert(e =~= m);
        }
    } else {
        lemma_scan_entries(m.entries, m.wildcard, Seq::<char>::empty(), e);
        if m.wildcard {
            assert(render_text(m) == entries_text(m.entries) + seq![',', ' ', '*']);
        } else {
            assert(render_text(m) =~= entries_text(m.entries) + Seq::<char>::empty());
        }
        assert(ListModel { wildcard: e.wildcard || m.wildcard, entries: e.entries + m.entries }
            =~= m);
    }
}

/// Round trip through the header store shape: the single rendered line of a
/// valid list parses back to the list's own model.
pub proof fn lemma_header_round_trip(l: &AcceptEncoding)
    requires
        l.wf(),
    ensures
        parse_lines(seq![render_text(l@)], ListModel::empty_model()) == l@,
{
    lemma_wf_model(l);
    lemma_round_trip(l@);
    let lines = seq![render_text(l@)];
    let e = ListModel::empty_model();
    assert(lines.drop_first() =~= Seq::<Seq<char>>::empty());
    assert(lines[0] == render_text(l@));
    assert(parse_lines(lines, e) == parse_lines(lines.drop_first(), parse_value_text(lines[0], e)));
    assert(parse_lines(lines.drop_first(), parse_value_text(lines[0], e)) == parse_value_text(
        lines[0],
        e,
    ));
}

} // verus!
