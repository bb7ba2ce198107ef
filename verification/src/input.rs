//! The request intent: classification of the HTTP method, aggregation of the
//! negotiation headers, and the immutable decision object built from them.

use vstd::prelude::*;

use crate::byterange::Range;
use crate::byterange::RangeParser;
use crate::byterange::RangeState;
use crate::byterange::range_done;
use crate::byterange::range_step;
use crate::encoding::AcceptEncoding;
use crate::encoding::AcceptEncodingParser;
use crate::encoding::Encoding;
use crate::encoding::distinct_encs;
use crate::encoding::encs_of_value;
use crate::encoding::lemma_merge_encs_distinct;
use crate::encoding::lemma_push_new_distinct;
use crate::encoding::merge_encs;
use crate::encoding::push_new;

verus! {

/// The classification outcome of a request. `InvalidMethod` and
/// `InvalidRange` are terminal: no other intent field is populated beyond
/// its construction default when one of them holds.
#[derive(Debug, Clone, Copy, PartialEq, Eq, Structural)]
pub enum Mode {
    Head,
    Get,
    InvalidMethod,
    InvalidRange,
}

/// An entity tag, opaque to this core: it is only ever compared for
/// equality.
#[derive(Debug, Clone, PartialEq, Eq)]
pub struct Etag {
    bytes: Vec<u8>,
}

impl View for Etag {
    type V = Seq<u8>;

    closed spec fn view(&self) -> Seq<u8> {
        self.bytes@
    }
}

impl Etag {
    pub fn new(bytes: Vec<u8>) -> (r: Etag)
        ensures
            r@ == bytes@,
    {
        Etag { bytes }
    }

    pub fn value(&self) -> (r: &Vec<u8>)
        ensures
            r@ == self@,
    {
        &self.bytes
    }
}

/// The validator of an `If-Range` header: either a modification time, in
/// seconds, or an entity tag.
#[derive(Debug, Clone, PartialEq, Eq)]
pub enum IfRange {
    Modified(u64),
    Tag(Etag),
}

/// The immutable result of classifying a request's method and negotiating
/// its headers. The conditional-request slots (`if_range`, `if_match`,
/// `if_none`, `if_unmodified`, `if_modified`) are reserved by the data model
/// but never populated by [`Input::from_headers`]: wiring the corresponding
/// headers up is an open extension point, and the construction contract
/// below pins them to their empty defaults.
#[derive(Debug, Clone, PartialEq, Eq)]
pub struct Input {
    pub mode: Mode,
    pub accept_encoding: AcceptEncoding,
    pub range: Option<Range>,
    pub if_range: Option<IfRange>,
    pub if_match: Vec<Etag>,
    pub if_none: Vec<Etag>,
    pub if_unmodified: Option<u64>,
    pub if_modified: Option<u64>,
}

/// ASCII lower-casing of one character's scalar value, used for
/// case-insensitive header-name matching.
pub open spec fn lower_char(c: char) -> int {
    if 65 <= c as int <= 90 {
        c as int + 32
    } else {
        c as int
    }
}

/// Case-insensitive equality of a header name against a literal.
pub open spec fn name_matches(n: Seq<char>, l: Seq<char>) -> bool {
    n.len() == l.len() && forall|i: int| 0 <= i < n.len() ==> lower_char(n[i]) == lower_char(l[i])
}

pub open spec fn is_ae_name(n: Seq<char>) -> bool {
    name_matches(n, "accept-encoding"@)
}

pub open spec fn is_range_name(n: Seq<char>) -> bool {
    name_matches(n, "range"@)
}

/// No header name can route to both parsers: the two literals differ in
/// length.
proof fn lemma_names_disjoint(n: Seq<char>)
    ensures
        !(is_ae_name(n) && is_range_name(n)),
{
    reveal_strlit("accept-encoding");
    reveal_strlit("range");
    assert("accept-encoding"@.len() == 15);
    assert("range"@.len() == 5);
}

/// The accepted methods, exactly and case-sensitively.
pub open spec fn method_ok(m: Seq<char>) -> bool {
    m == "HEAD"@ || m == "GET"@
}

/// The encoding-parser state after feeding it, in order, the value of every
/// header whose name matches `Accept-Encoding`.
pub open spec fn ae_prefs_after(hs: Seq<(Seq<char>, Seq<u8>)>) -> Seq<Encoding>
    decreases hs.len(),
{
    if hs.len() == 0 {
        Seq::<Encoding>::empty()
    } else {
        let prev = ae_prefs_after(hs.drop_last());
        if is_ae_name(hs.last().0) {
            merge_encs(prev, encs_of_value(hs.last().1))
        } else {
            prev
        }
    }
}

/// The range-parser state after feeding it, in order, the value of every
/// header whose name matches `Range`.
pub open spec fn range_state_after(hs: Seq<(Seq<char>, Seq<u8>)>) -> RangeState
    decreases hs.len(),
{
    if hs.len() == 0 {
        RangeState::Unset
    } else {
        let prev = range_state_after(hs.drop_last());
        if is_range_name(hs.last().0) {
            range_step(prev, hs.last().1)
        } else {
            prev
        }
    }
}

pub proof fn lemma_ae_prefs_distinct(hs: Seq<(Seq<char>, Seq<u8>)>)
    ensures
        distinct_encs(ae_prefs_after(hs)),
    decreases hs.len(),
{
    if hs.len() > 0 {
        lemma_ae_prefs_distinct(hs.drop_last());
        if is_ae_name(hs.last().0) {
            lemma_merge_encs_distinct(ae_prefs_after(hs.drop_last()), encs_of_value(hs.last().1));
        }
    }
}

/// The classification outcome for a method and header sequence.
pub open spec fn intent_mode(m: Seq<char>, hs: Seq<(Seq<char>, Seq<u8>)>) -> Mode {
    if !method_ok(m) {
        Mode::InvalidMethod
    } else if range_done(range_state_after(hs)) is Err {
        Mode::InvalidRange
    } else if m == "HEAD"@ {
        Mode::Head
    } else {
        Mode::Get
    }
}

/// The finalized encoding preference: on either terminal outcome the
/// negotiated preference is deliberately discarded and replaced by the
/// identity-only default.
pub open spec fn intent_prefs(m: Seq<char>, hs: Seq<(Seq<char>, Seq<u8>)>) -> Seq<Encoding> {
    if !method_ok(m) || range_done(range_state_after(hs)) is Err {
        seq![Encoding::Identity]
    } else {
        push_new(ae_prefs_after(hs), Encoding::Identity)
    }
}

/// The finalized range: absent on both terminal outcomes.
pub open spec fn intent_range(m: Seq<char>, hs: Seq<(Seq<char>, Seq<u8>)>) -> Option<Range> {
    if !method_ok(m) {
        None
    } else {
        match range_done(range_state_after(hs)) {
            Ok(r) => r,
            Err(_) => None,
        }
    }
}

/// The conditional-request slots at their construction defaults.
pub open spec fn conditionals_default(r: Input) -> bool {
    &&& r.if_range is None
    &&& r.if_match@.len() == 0
    &&& r.if_none@.len() == 0
    &&& r.if_unmodified is None
    &&& r.if_modified is None
}

/// Full characterization of the intent built from a method and a header
/// sequence.
pub open spec fn built_from(r: Input, m: Seq<char>, hs: Seq<(Seq<char>, Seq<u8>)>) -> bool {
    &&& r.mode == intent_mode(m, hs)
    &&& r.accept_encoding@ == intent_prefs(m, hs)
    &&& r.accept_encoding.wf()
    &&& r.range == intent_range(m, hs)
    &&& conditionals_default(r)
}

/// The header pairs as mathematical sequences.
pub open spec fn headers_view(hs: Seq<(&str, &[u8])>) -> Seq<(Seq<char>, Seq<u8>)> {
    hs.map_values(|p: (&str, &[u8])| (p.0@, p.1@))
}

/// Character-exact string equality.
fn str_eq(a: &str, b: &str) -> (r: bool)
    ensures
        r == (a@ == b@),
{
    let n = a.unicode_len();
    let m = b.unicode_len();
    if n != m {
        return false;
    }
    let mut i: usize = 0;
    while i < n
        invariant
            i <= n,
            n == a@.len() == b@.len(),
            forall|k: int| 0 <= k < i ==> a@[k] == b@[k],
        decreases n - i,
    {
        if a.get_char(i) != b.get_char(i) {
            return false;
        }
        i = i + 1;
    }
    proof {
        assert(a@ =~= b@);
    }
    true
}

/// Case-insensitive header-name comparison.
fn name_is(name: &str, lit: &str) -> (r: bool)
    ensures
        r == name_matches(name@, lit@),
{
    let n = name.unicode_len();
    let m = lit.unicode_len();
    if n != m {
        return false;
    }
    let mut i: usize = 0;
    while i < n
        invariant
            i <= n,
            n == name@.len() == lit@.len(),
            forall|k: int| 0 <= k < i ==> lower_char(name@[k]) == lower_char(lit@[k]),
        decreases n - i,
    {
        let a = name.get_char(i) as u32;
        let b = lit.get_char(i) as u32;
        let la = if 65 <= a && a <= 90 {
            a + 32
        } else {
            a
        };
        let lb = if 65 <= b && b <= 90 {
            b + 32
        } else {
            b
        };
        if la != lb {
            return false;
        }
        i = i + 1;
    }
    true
}

/// An intent in one of the two terminal outcomes: every other field carries
/// its construction default.
fn terminal(mode: Mode) -> (r: Input)
    ensures
        r.mode == mode,
        r.accept_encoding@ == seq![Encoding::Identity],
        r.accept_encoding.wf(),
        r.range is None,
        conditionals_default(r),
{
    Input {
        mode,
        accept_encoding: AcceptEncoding::identity(),
        range: None,
        if_range: None,
        if_match: Vec::new(),
        if_none: Vec::new(),
        if_unmodified: None,
        if_modified: None,
    }
}

impl Input {
    /// Build the request intent for a method and a header set.
    ///
    /// The method must be exactly `HEAD` or `GET`; otherwise the intent is
    /// the `InvalidMethod` terminal and the headers contribute nothing.
    /// Header names are matched case-insensitively against
    /// `Accept-Encoding` and `Range`; every matching header is fed, in
    /// order, to the corresponding parser, and all other headers are
    /// ignored. A malformed range collapses the intent to the
    /// `InvalidRange` terminal, which deliberately discards the negotiated
    /// encoding preference.
    pub fn from_headers(method: &str, headers: &[(&str, &[u8])]) -> (r: Input)
        ensures
            built_from(r, method@, headers_view(headers@)),
    {
        let ghost hv = headers_view(headers@);
        let head = str_eq(method, "HEAD");
        let get = str_eq(method, "GET");
        if !head && !get {
            return terminal(Mode::InvalidMethod);
        }
        let mode = if head {
            Mode::Head
        } else {
            Mode::Get
        };
        let mut ae_parser = AcceptEncodingParser::new();
        let mut range_parser = RangeParser::new();
        let n = headers.len();
        let mut i: usize = 0;
        while i < n
            invariant
                i <= n == headers@.len(),
                hv == headers_view(headers@),
                ae_parser@ == ae_prefs_after(hv.take(i as int)),
                range_parser@ == range_state_after(hv.take(i as int)),
            decreases n - i,
        {
            let (key, val) = headers[i];
            proof {
                assert(hv[i as int] == (key@, val@));
                assert(hv.take(i + 1).drop_last() =~= hv.take(i as int));
                assert(hv.take(i + 1).last() == hv[i as int]);
                lemma_names_disjoint(key@);
            }
            if name_is(key, "accept-encoding") {
                ae_parser.add_header(val);
            } else if name_is(key, "range") {
                range_parser.add_header(val);
            }
            i = i + 1;
        }
        proof {
            assert(hv.take(n as int) =~= hv);
        }
        let range = match range_parser.done() {
            Ok(range) => range,
            Err(()) => {
                return terminal(Mode::InvalidRange);
            },
        };
        let accept_encoding = ae_parser.done();
        proof {
            lemma_ae_prefs_distinct(hv);
            lemma_push_new_distinct(ae_prefs_after(hv), Encoding::Identity);
        }
        Input {
            mode,
            accept_encoding,
            range,
            if_range: None,
            if_match: Vec::new(),
            if_none: Vec::new(),
            if_unmodified: None,
            if_modified: None,
        }
    }

    /// The negotiated encoding preference, most preferred first.
    pub fn encodings(&self) -> (r: &AcceptEncoding)
        ensures
            r == self.accept_encoding,
    {
        &self.accept_encoding
    }
}

/// A request whose method is neither `HEAD` nor `GET` is the
/// `InvalidMethod` terminal, and every other field of its intent carries
/// the construction default, whatever the headers hold: they are never
/// consulted.
pub proof fn lemma_invalid_method_ignores_headers(
    r: Input,
    m: Seq<char>,
    hs: Seq<(Seq<char>, Seq<u8>)>,
)
    requires
        built_from(r, m, hs),
        !method_ok(m),
    ensures
        r.mode == Mode::InvalidMethod,
        r.accept_encoding@ == seq![Encoding::Identity],
        r.range is None,
        conditionals_default(r),
{
}

/// A malformed `Range` header collapses the intent to the `InvalidRange`
/// terminal and discards the negotiated encoding preference: the intent
/// carries the identity-only default even when a usable `Accept-Encoding`
/// header was present.
pub proof fn lemma_invalid_range_discards_encoding(
    r: Input,
    m: Seq<char>,
    hs: Seq<(Seq<char>, Seq<u8>)>,
)
    requires
        built_from(r, m, hs),
        method_ok(m),
        range_done(range_state_after(hs)) is Err,
    ensures
        r.mode == Mode::InvalidRange,
        r.accept_encoding@ == seq![Encoding::Identity],
        r.range is None,
        conditionals_default(r),
{
}

proof fn lemma_ae_prefs_absent(hs: Seq<(Seq<char>, Seq<u8>)>)
    requires
        forall|i: int| 0 <= i < hs.len() ==> !is_ae_name(#[trigger] hs[i].0),
    ensures
        ae_prefs_after(hs) == Seq::<Encoding>::empty(),
    decreases hs.len(),
{
    if hs.len() > 0 {
        assert(forall|i: int|
            0 <= i < hs.drop_last().len() ==> hs.drop_last()[i] == hs[i]);
        lemma_ae_prefs_absent(hs.drop_last());
        assert(hs.last() == hs[hs.len() - 1]);
    }
}

/// With no `Accept-Encoding` header present, the encoding preference of a
/// valid request is exactly the identity-only default.
pub proof fn lemma_no_accept_encoding_header(
    r: Input,
    m: Seq<char>,
    hs: Seq<(Seq<char>, Seq<u8>)>,
)
    requires
        built_from(r, m, hs),
        forall|i: int| 0 <= i < hs.len() ==> !is_ae_name(#[trigger] hs[i].0),
    ensures
        r.accept_encoding@ == seq![Encoding::Identity],
{
    lemma_ae_prefs_absent(hs);
    assert(Seq::<Encoding>::empty().push(Encoding::Identity) =~= seq![Encoding::Identity]);
}

/// Intent construction is a pure function of the method and the header
/// sequence: two intents built from the same inputs agree field for field.
pub proof fn lemma_intent_idempotent(
    a: Input,
    b: Input,
    m: Seq<char>,
    hs: Seq<(Seq<char>, Seq<u8>)>,
)
    requires
        built_from(a, m, hs),
        built_from(b, m, hs),
    ensures
        a.mode == b.mode,
        a.accept_encoding@ == b.accept_encoding@,
        a.range == b.range,
        a.if_range == b.if_range,
        a.if_match@ == b.if_match@,
        a.if_none@ == b.if_none@,
        a.if_unmodified == b.if_unmodified,
        a.if_modified == b.if_modified,
{
    assert(a.if_match@ =~= b.if_match@);
    assert(a.if_none@ =~= b.if_none@);
}

} // verus!
