//! Content-encoding negotiation: the set of supported encodings, the ordered
//! encoding preference of a client, and the parser that accumulates
//! `Accept-Encoding` header values into that preference.

use vstd::prelude::*;

verus! {

/// A content-encoding this core can serve, together with the filename suffix
/// of the on-disk variant that carries it.
#[derive(Debug, Clone, Copy, PartialEq, Eq, Structural)]
pub enum Encoding {
    Brotli,
    Gzip,
    Identity,
}

/// The filename suffix appended to a base path to form the probe path for a
/// variant with this encoding, as a byte sequence.
pub open spec fn suffix_bytes(e: Encoding) -> Seq<u8> {
    match e {
        Encoding::Brotli => seq!['.' as u8, 'b' as u8, 'r' as u8],
        Encoding::Gzip => seq!['.' as u8, 'g' as u8, 'z' as u8],
        Encoding::Identity => seq![],
    }
}

impl Encoding {
    /// The filename suffix of this encoding's on-disk variant; empty for the
    /// identity encoding.
    pub fn suffix(&self) -> (r: &'static str)
        ensures
            r.is_ascii(),
            r@.map_values(|c: char| c as u8) == suffix_bytes(*self),
    {
        match self {
            Encoding::Brotli => {
                let s = ".br";
                proof {
                    reveal_strlit(".br");
                    assert(s@.map_values(|c: char| c as u8) =~= suffix_bytes(Encoding::Brotli));
                }
                s
            },
            Encoding::Gzip => {
                let s = ".gz";
                proof {
                    reveal_strlit(".gz");
                    assert(s@.map_values(|c: char| c as u8) =~= suffix_bytes(Encoding::Gzip));
                }
                s
            },
            Encoding::Identity => {
                let s = "";
                proof {
                    reveal_strlit("");
                    assert(s@.map_values(|c: char| c as u8) =~= suffix_bytes(Encoding::Identity));
                }
                s
            },
        }
    }
}

/// ASCII lower-casing of one byte, used for case-insensitive token matching.
pub open spec fn lower_byte(b: u8) -> u8 {
    if 65 <= b <= 90 {
        (b + 32) as u8
    } else {
        b
    }
}

/// Optional whitespace around list elements and parameters: space and tab.
pub open spec fn is_ws(b: u8) -> bool {
    b == 32 || b == 9
}

/// Index of the first `;` in `s`, or `s.len()` if there is none.
pub open spec fn find_semi(s: Seq<u8>) -> int
    decreases s.len(),
{
    if s.len() == 0 {
        0
    } else if s[0] == ';' as u8 {
        0
    } else {
        1 + find_semi(s.drop_first())
    }
}

/// `find_semi` is determined by its characterization: the first index whose
/// byte is `;`, or the length when no byte is.
pub proof fn lemma_find_semi_is(s: Seq<u8>, m: int)
    requires
        0 <= m <= s.len(),
        forall|k: int| 0 <= k < m ==> s[k] != ';' as u8,
        m < s.len() ==> s[m] == ';' as u8,
    ensures
        find_semi(s) == m,
    decreases s.len(),
{
    if s.len() == 0 {
    } else if s[0] == ';' as u8 {
        assert(m == 0);
    } else {
        assert(m >= 1);
        lemma_find_semi_is(s.drop_first(), m - 1);
    }
}

/// Leading whitespace removed.
pub open spec fn trim_front(s: Seq<u8>) -> Seq<u8>
    decreases s.len(),
{
    if s.len() > 0 && is_ws(s[0]) {
        trim_front(s.drop_first())
    } else {
        s
    }
}

/// Trailing whitespace removed.
pub open spec fn trim_back(s: Seq<u8>) -> Seq<u8>
    decreases s.len(),
{
    if s.len() > 0 && is_ws(s.last()) {
        trim_back(s.drop_last())
    } else {
        s
    }
}

/// `trim_front` keeps exactly the suffix from the first non-whitespace byte.
pub proof fn lemma_trim_front_is(s: Seq<u8>, a: int)
    requires
        0 <= a <= s.len(),
        forall|k: int| 0 <= k < a ==> is_ws(s[k]),
        a < s.len() ==> !is_ws(s[a]),
    ensures
        trim_front(s) =~= s.subrange(a, s.len() as int),
    decreases s.len(),
{
    if s.len() > 0 && is_ws(s[0]) {
        assert(a >= 1);
        lemma_trim_front_is(s.drop_first(), a - 1);
        assert(s.drop_first().subrange(a - 1, s.drop_first().len() as int) =~= s.subrange(
            a,
            s.len() as int,
        ));
    } else {
        assert(a == 0);
        assert(s.subrange(0, s.len() as int) =~= s);
    }
}

/// `trim_back` keeps exactly the prefix up to the last non-whitespace byte.
pub proof fn lemma_trim_back_is(s: Seq<u8>, b: int)
    requires
        0 <= b <= s.len(),
        forall|k: int| b <= k < s.len() ==> is_ws(s[k]),
        b > 0 ==> !is_ws(s[b - 1]),
    ensures
        trim_back(s) =~= s.subrange(0, b),
    decreases s.len(),
{
    if s.len() > 0 && is_ws(s.last()) {
        assert(b < s.len());
        lemma_trim_back_is(s.drop_last(), b);
        assert(s.drop_last().subrange(0, b) =~= s.subrange(0, b));
    } else {
        assert(b == s.len());
        assert(s.subrange(0, s.len() as int) =~= s);
    }
}

/// The encoding token of one comma-separated list element: parameters after
/// the first `;` are dropped, then surrounding whitespace is trimmed.
pub open spec fn token_of_elem(e: Seq<u8>) -> Seq<u8> {
    trim_back(trim_front(e.take(find_semi(e))))
}

pub open spec fn gzip_token() -> Seq<u8> {
    seq!['g' as u8, 'z' as u8, 'i' as u8, 'p' as u8]
}

pub open spec fn br_token() -> Seq<u8> {
    seq!['b' as u8, 'r' as u8]
}

pub open spec fn identity_token() -> Seq<u8> {
    seq!['i' as u8, 'd' as u8, 'e' as u8, 'n' as u8, 't' as u8, 'i' as u8, 't' as u8, 'y' as u8]
}

/// Case-insensitive recognition of a token; tokens naming encodings this core
/// cannot serve are ignored (they yield `None`).
pub open spec fn enc_of_token(t: Seq<u8>) -> Option<Encoding> {
    let l = t.map_values(|b: u8| lower_byte(b));
    if l == gzip_token() {
        Some(Encoding::Gzip)
    } else if l == br_token() {
        Some(Encoding::Brotli)
    } else if l == identity_token() {
        Some(Encoding::Identity)
    } else {
        None
    }
}

/// Index of the first `,` at or after `i`, or `s.len()` if there is none.
pub open spec fn find_comma_from(s: Seq<u8>, i: int) -> int
    decreases s.len() - i,
{
    if i < 0 || i >= s.len() {
        i
    } else if s[i] == ',' as u8 {
        i
    } else {
        find_comma_from(s, i + 1)
    }
}

pub proof fn lemma_find_comma_bounds(s: Seq<u8>, i: int)
    requires
        0 <= i <= s.len(),
    ensures
        i <= find_comma_from(s, i) <= s.len(),
        find_comma_from(s, i) < s.len() ==> s[find_comma_from(s, i)] == ',' as u8,
        forall|k: int| i <= k < find_comma_from(s, i) ==> s[k] != ',' as u8,
    decreases s.len() - i,
{
    if i >= s.len() || s[i] == ',' as u8 {
    } else {
        lemma_find_comma_bounds(s, i + 1);
    }
}

/// `find_comma_from` is determined by its characterization.
pub proof fn lemma_find_comma_is(s: Seq<u8>, i: int, m: int)
    requires
        0 <= i <= m <= s.len(),
        forall|k: int| i <= k < m ==> s[k] != ',' as u8,
        m < s.len() ==> s[m] == ',' as u8,
    ensures
        find_comma_from(s, i) == m,
    decreases s.len() - i,
{
    if i >= s.len() || s[i] == ',' as u8 {
    } else {
        lemma_find_comma_is(s, i + 1, m);
    }
}

/// The encodings recognized in the comma-separated list elements of `s`,
/// starting at index `i`, in order of appearance and with repetitions kept.
pub open spec fn encs_from(s: Seq<u8>, i: int) -> Seq<Encoding>
    decreases s.len() - i,
    when 0 <= i <= s.len()
    via encs_from_decreases
{
    let j = find_comma_from(s, i);
    let head = match enc_of_token(token_of_elem(s.subrange(i, j))) {
        Some(e) => seq![e],
        None => Seq::<Encoding>::empty(),
    };
    if j >= s.len() {
        head
    } else {
        head + encs_from(s, j + 1)
    }
}

#[via_fn]
proof fn encs_from_decreases(s: Seq<u8>, i: int) {
    lemma_find_comma_bounds(s, i);
}

/// The encodings recognized in one whole `Accept-Encoding` header value.
pub open spec fn encs_of_value(s: Seq<u8>) -> Seq<Encoding> {
    encs_from(s, 0)
}

/// Append `e` unless it is already present: repeated encodings keep their
/// first (most preferred) position.
pub open spec fn push_new(s: Seq<Encoding>, e: Encoding) -> Seq<Encoding> {
    if s.contains(e) {
        s
    } else {
        s.push(e)
    }
}

/// Fold `push_new` over `new`, left to right.
pub open spec fn merge_encs(s: Seq<Encoding>, new: Seq<Encoding>) -> Seq<Encoding>
    decreases new.len(),
{
    if new.len() == 0 {
        s
    } else {
        merge_encs(push_new(s, new[0]), new.drop_first())
    }
}

pub proof fn lemma_merge_encs_cons(s: Seq<Encoding>, e: Encoding, rest: Seq<Encoding>)
    ensures
        merge_encs(s, seq![e] + rest) == merge_encs(push_new(s, e), rest),
{
    let whole = seq![e] + rest;
    assert(whole[0] == e);
    assert(whole.drop_first() =~= rest);
}

/// No encoding occurs twice.
pub open spec fn distinct_encs(s: Seq<Encoding>) -> bool {
    forall|i: int, j: int| 0 <= i < j < s.len() ==> s[i] != s[j]
}

pub proof fn lemma_push_new_distinct(s: Seq<Encoding>, e: Encoding)
    requires
        distinct_encs(s),
    ensures
        distinct_encs(push_new(s, e)),
        push_new(s, e).contains(e),
        forall|x: Encoding| s.contains(x) ==> push_new(s, e).contains(x),
{
    if s.contains(e) {
    } else {
        let p = s.push(e);
        assert forall|i: int, j: int| 0 <= i < j < p.len() implies p[i] != p[j] by {
            if j < s.len() {
            } else {
                assert(p[j] == e);
                assert(p[i] == s[i]);
                assert(!s.contains(e));
                assert(s[i] != e);
            }
        }
        assert(p[s.len() as int] == e);
        assert forall|x: Encoding| s.contains(x) implies p.contains(x) by {
            let i = choose|i: int| 0 <= i < s.len() && s[i] == x;
            assert(p[i] == x);
        }
    }
}

pub proof fn lemma_merge_encs_distinct(s: Seq<Encoding>, new: Seq<Encoding>)
    requires
        distinct_encs(s),
    ensures
        distinct_encs(merge_encs(s, new)),
    decreases new.len(),
{
    if new.len() == 0 {
    } else {
        lemma_push_new_distinct(s, new[0]);
        lemma_merge_encs_distinct(push_new(s, new[0]), new.drop_first());
    }
}

fn lower(b: u8) -> (r: u8)
    ensures
        r == lower_byte(b),
{
    if 65 <= b && b <= 90 {
        b + 32
    } else {
        b
    }
}

/// Recognize the token `v[ts..te]`, already stripped of parameters and
/// whitespace, as an encoding name, case-insensitively.
fn parse_token(v: &[u8], ts: usize, te: usize) -> (r: Option<Encoding>)
    requires
        ts <= te <= v@.len(),
    ensures
        r == enc_of_token(v@.subrange(ts as int, te as int)),
{
    let ghost t = v@.subrange(ts as int, te as int);
    let ghost l = t.map_values(|b: u8| lower_byte(b));
    let n = te - ts;
    if n == 4 {
        proof {
            assert(l.len() != br_token().len());
            assert(l.len() != identity_token().len());
        }
        if lower(v[ts]) == 103 && lower(v[ts + 1]) == 122 && lower(v[ts + 2]) == 105 && lower(
            v[ts + 3],
        ) == 112 {
            proof {
                assert(l =~= gzip_token());
            }
            Some(Encoding::Gzip)
        } else {
            proof {
                assert(l != gzip_token());
            }
            None
        }
    } else if n == 2 {
        proof {
            assert(l.len() != gzip_token().len());
            assert(l.len() != identity_token().len());
        }
        if lower(v[ts]) == 98 && lower(v[ts + 1]) == 114 {
            proof {
                assert(l =~= br_token());
            }
            Some(Encoding::Brotli)
        } else {
            proof {
                assert(l != br_token());
            }
            None
        }
    } else if n == 8 {
        proof {
            assert(l.len() != gzip_token().len());
            assert(l.len() != br_token().len());
        }
        if lower(v[ts]) == 105 && lower(v[ts + 1]) == 100 && lower(v[ts + 2]) == 101 && lower(
            v[ts + 3],
        ) == 110 && lower(v[ts + 4]) == 116 && lower(v[ts + 5]) == 105 && lower(v[ts + 6]) == 116
            && lower(v[ts + 7]) == 121 {
            proof {
                assert(l =~= identity_token());
            }
            Some(Encoding::Identity)
        } else {
            proof {
                assert(l != identity_token());
            }
            None
        }
    } else {
        proof {
            assert(l.len() != gzip_token().len());
            assert(l.len() != br_token().len());
            assert(l.len() != identity_token().len());
        }
        None
    }
}

/// Recognize the encoding named by the list element `v[start..end]`.
fn parse_elem(v: &[u8], start: usize, end: usize) -> (r: Option<Encoding>)
    requires
        start <= end <= v@.len(),
    ensures
        r == enc_of_token(token_of_elem(v@.subrange(start as int, end as int))),
{
    let ghost elem = v@.subrange(start as int, end as int);
    // Cut the element at its first `;`: parameters are ignored.
    let mut semi = start;
    while semi < end && v[semi] != 59
        invariant
            start <= semi <= end <= v@.len(),
            forall|k: int| start <= k < semi ==> v@[k] != ';' as u8,
        decreases end - semi,
    {
        semi = semi + 1;
    }
    proof {
        lemma_find_semi_is(elem, semi - start);
        assert(elem.take(semi - start) =~= v@.subrange(start as int, semi as int));
    }
    // Trim whitespace from both ends of what is left.
    let mut ts = start;
    while ts < semi && (v[ts] == 32 || v[ts] == 9)
        invariant
            start <= ts <= semi <= v@.len(),
            forall|k: int| start <= k < ts ==> is_ws(v@[k]),
        decreases semi - ts,
    {
        ts = ts + 1;
    }
    proof {
        lemma_trim_front_is(v@.subrange(start as int, semi as int), ts - start);
        assert(v@.subrange(start as int, semi as int).subrange(ts - start, semi - start) =~= v@
            .subrange(ts as int, semi as int));
    }
    let mut te = semi;
    while te > ts && (v[te - 1] == 32 || v[te - 1] == 9)
        invariant
            ts <= te <= semi <= v@.len(),
            forall|k: int| te <= k < semi ==> is_ws(v@[k]),
        decreases te,
    {
        te = te - 1;
    }
    proof {
        lemma_trim_back_is(v@.subrange(ts as int, semi as int), te - ts);
        assert(v@.subrange(ts as int, semi as int).subrange(0, te - ts) =~= v@.subrange(
            ts as int,
            te as int,
        ));
        assert(token_of_elem(elem) == v@.subrange(ts as int, te as int));
    }
    parse_token(v, ts, te)
}

/// The ordered encoding preference of a request: the encodings the client
/// will accept, most preferred first, deduplicated, and always ending in or
/// containing the identity encoding.
#[derive(Debug, Clone, PartialEq, Eq)]
pub struct AcceptEncoding {
    prefs: Vec<Encoding>,
}

impl View for AcceptEncoding {
    type V = Seq<Encoding>;

    closed spec fn view(&self) -> Seq<Encoding> {
        self.prefs@
    }
}

impl AcceptEncoding {
    /// A preference is well formed when no encoding repeats and the identity
    /// encoding is always an acceptable fallback.
    pub open spec fn wf(&self) -> bool {
        distinct_encs(self@) && self@.contains(Encoding::Identity)
    }

    /// The default preference: identity only.
    pub fn identity() -> (r: AcceptEncoding)
        ensures
            r@ =~= seq![Encoding::Identity],
            r.wf(),
    {
        let mut prefs: Vec<Encoding> = Vec::new();
        prefs.push(Encoding::Identity);
        let r = AcceptEncoding { prefs };
        proof {
            assert(r@[0] == Encoding::Identity);
        }
        r
    }

    /// How many encodings are acceptable.
    pub fn len(&self) -> (n: usize)
        ensures
            n == self@.len(),
    {
        self.prefs.len()
    }

    /// The `i`-th acceptable encoding, most preferred first.
    pub fn get(&self, i: usize) -> (e: Encoding)
        requires
            i < self@.len(),
        ensures
            e == self@[i as int],
    {
        self.prefs[i]
    }
}

/// Accumulates the values of every `Accept-Encoding` header of a request and
/// finalizes them into an [`AcceptEncoding`] preference.
#[derive(Debug, Clone)]
pub struct AcceptEncodingParser {
    prefs: Vec<Encoding>,
}

impl View for AcceptEncodingParser {
    type V = Seq<Encoding>;

    closed spec fn view(&self) -> Seq<Encoding> {
        self.prefs@
    }
}

impl AcceptEncodingParser {
    /// A fresh parser that has seen no header yet.
    pub fn new() -> (r: AcceptEncodingParser)
        ensures
            r@ =~= Seq::<Encoding>::empty(),
    {
        AcceptEncodingParser { prefs: Vec::new() }
    }

    fn push_if_new(&mut self, e: Encoding)
        ensures
            final(self)@ == push_new(old(self)@, e),
    {
        let n = self.prefs.len();
        let mut j: usize = 0;
        while j < n
            invariant
                j <= n == self.prefs.len(),
                self == old(self),
                forall|k: int| 0 <= k < j ==> self.prefs@[k] != e,
            decreases n - j,
        {
            if self.prefs[j] == e {
                proof {
                    assert(old(self)@.contains(e));
                }
                return ;
            }
            j = j + 1;
        }
        proof {
            assert(!old(self)@.contains(e));
        }
        self.prefs.push(e);
    }

    /// Feed one raw `Accept-Encoding` header value: every encoding it names
    /// that this core can serve is appended to the preference, keeping the
    /// position of its first occurrence.
    pub fn add_header(&mut self, value: &[u8])
        ensures
            final(self)@ == merge_encs(old(self)@, encs_of_value(value@)),
    {
        let ghost orig = self@;
        let ghost goal = merge_encs(orig, encs_of_value(value@));
        let n = value.len();
        let mut start: usize = 0;
        let mut i: usize = 0;
        while i < n
            invariant
                start <= i <= n == value@.len(),
                forall|k: int| start <= k < i ==> value@[k] != ',' as u8,
                merge_encs(self@, encs_from(value@, start as int)) == goal,
            decreases n - i,
        {
            if value[i] == 44 {
                proof {
                    lemma_find_comma_is(value@, start as int, i as int);
                }
                let enc = parse_elem(value, start, i);
                let ghost rest = encs_from(value@, i + 1);
                match enc {
                    Some(e) => {
                        proof {
                            assert(encs_from(value@, start as int) == seq![e] + rest);
                            lemma_merge_encs_cons(self@, e, rest);
                        }
                        self.push_if_new(e);
                    },
                    None => {
                        proof {
                            assert(encs_from(value@, start as int) == Seq::<Encoding>::empty()
                                + rest);
                            assert(Seq::<Encoding>::empty() + rest =~= rest);
                        }
                    },
                }
                start = i + 1;
            }
            i = i + 1;
        }
        proof {
            lemma_find_comma_is(value@, start as int, n as int);
        }
        let enc = parse_elem(value, start, n);
        match enc {
            Some(e) => {
                proof {
                    assert(encs_from(value@, start as int) == seq![e]);
                    assert(seq![e] =~= seq![e] + Seq::<Encoding>::empty());
                    lemma_merge_encs_cons(self@, e, Seq::<Encoding>::empty());
                }
                self.push_if_new(e);
            },
            None => {},
        }
    }

    /// Finalize the accumulated preference. The identity encoding is
    /// appended as the least preferred fallback when no header listed it;
    /// with no usable header at all the result is the identity-only default.
    pub fn done(self) -> (r: AcceptEncoding)
        ensures
            r@ == push_new(self@, Encoding::Identity),
    {
        let mut parser = self;
        parser.push_if_new(Encoding::Identity);
        AcceptEncoding { prefs: parser.prefs }
    }
}

} // verus!
