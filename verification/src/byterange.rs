//! The byte range a client may request: the `Range` header value grammar
//! this core accepts (a single `bytes=` range), and the parser that
//! accumulates `Range` headers and finalizes them into a range, an absence,
//! or a parse failure.

use vstd::prelude::*;

verus! {

/// A requested byte range: an inclusive pair of offsets, everything from an
/// offset on, or the last so-many bytes of the resource.
#[derive(Debug, Clone, Copy, PartialEq, Eq, Structural)]
pub enum Range {
    FromTo(u64, u64),
    AllFrom(u64),
    Last(u64),
}

pub open spec fn is_digit(b: u8) -> bool {
    48 <= b <= 57
}

pub open spec fn all_digits(s: Seq<u8>) -> bool {
    forall|i: int| 0 <= i < s.len() ==> is_digit(s[i])
}

/// The decimal value of a digit string.
pub open spec fn num_of(s: Seq<u8>) -> int
    decreases s.len(),
{
    if s.len() == 0 {
        0
    } else {
        num_of(s.drop_last()) * 10 + s.last() - 48
    }
}

pub proof fn lemma_num_of_nonneg(s: Seq<u8>)
    requires
        all_digits(s),
    ensures
        num_of(s) >= 0,
    decreases s.len(),
{
    if s.len() > 0 {
        lemma_num_of_nonneg(s.drop_last());
    }
}

/// A digit string is worth at least any of its prefixes: once a prefix
/// overflows, the whole string does.
pub proof fn lemma_num_of_prefix(s: Seq<u8>, i: int)
    requires
        all_digits(s),
        0 <= i <= s.len(),
    ensures
        num_of(s.take(i)) <= num_of(s),
    decreases s.len(),
{
    if i == s.len() {
        assert(s.take(i) =~= s);
    } else {
        assert(s.drop_last().take(i) =~= s.take(i));
        lemma_num_of_prefix(s.drop_last(), i);
        lemma_num_of_nonneg(s.drop_last());
    }
}

/// Index of the first `-` in `s`, or `s.len()` if there is none.
pub open spec fn find_dash(s: Seq<u8>) -> int
    decreases s.len(),
{
    if s.len() == 0 {
        0
    } else if s[0] == '-' as u8 {
        0
    } else {
        1 + find_dash(s.drop_first())
    }
}

/// `find_dash` is determined by its characterization: the first index whose
/// byte is `-`, or the length when no byte is.
pub proof fn lemma_find_dash_is(s: Seq<u8>, m: int)
    requires
        0 <= m <= s.len(),
        forall|k: int| 0 <= k < m ==> s[k] != '-' as u8,
        m < s.len() ==> s[m] == '-' as u8,
    ensures
        find_dash(s) == m,
    decreases s.len(),
{
    if s.len() == 0 {
    } else if s[0] == '-' as u8 {
        assert(m == 0);
    } else {
        assert(m >= 1);
        lemma_find_dash_is(s.drop_first(), m - 1);
    }
}

pub open spec fn bytes_unit_prefix() -> Seq<u8> {
    seq!['b' as u8, 'y' as u8, 't' as u8, 'e' as u8, 's' as u8, '=' as u8]
}

/// The range described by what follows `bytes=`: `first-last` with
/// `first <= last`, `first-` for everything from an offset on, or `-n` for
/// the final `n` bytes. Both numbers must be plain decimal and fit in 64
/// bits; anything else, including a second `-`, is a parse failure.
pub open spec fn parse_byte_range(s: Seq<u8>) -> Option<Range> {
    let d = find_dash(s);
    if d >= s.len() {
        None
    } else {
        let a = s.subrange(0, d);
        let b = s.subrange(d + 1, s.len() as int);
        if a.len() == 0 {
            if b.len() > 0 && all_digits(b) && num_of(b) <= u64::MAX {
                Some(Range::Last(num_of(b) as u64))
            } else {
                None
            }
        } else if !(all_digits(a) && num_of(a) <= u64::MAX) {
            None
        } else if b.len() == 0 {
            Some(Range::AllFrom(num_of(a) as u64))
        } else if all_digits(b) && num_of(b) <= u64::MAX && num_of(a) <= num_of(b) {
            Some(Range::FromTo(num_of(a) as u64, num_of(b) as u64))
        } else {
            None
        }
    }
}

/// The range described by one whole `Range` header value: the exact unit
/// prefix `bytes=` followed by a single well-formed byte range.
pub open spec fn parse_range_value(v: Seq<u8>) -> Option<Range> {
    if v.len() < 6 || v.subrange(0, 6) != bytes_unit_prefix() {
        None
    } else {
        parse_byte_range(v.subrange(6, v.len() as int))
    }
}

/// Parse the decimal number in `v[start..end]`. `None` means the slice is
/// empty, holds a non-digit, or does not fit in 64 bits.
fn parse_num(v: &[u8], start: usize, end: usize) -> (r: Option<u64>)
    requires
        start <= end <= v@.len(),
    ensures
        ({
            let s = v@.subrange(start as int, end as int);
            match r {
                Some(x) => s.len() > 0 && all_digits(s) && num_of(s) == x,
                None => s.len() == 0 || !all_digits(s) || num_of(s) > u64::MAX,
            }
        }),
{
    let ghost s = v@.subrange(start as int, end as int);
    if start == end {
        return None;
    }
    let mut acc: u64 = 0;
    let mut i = start;
    while i < end
        invariant
            start <= i <= end <= v@.len(),
            s == v@.subrange(start as int, end as int),
            all_digits(s.take(i - start)),
            acc == num_of(s.take(i - start)),
        decreases end - i,
    {
        let b = v[i];
        proof {
            assert(s[i - start] == b);
            assert(s.take(i - start + 1).drop_last() =~= s.take(i - start));
            assert(s.take(i - start + 1).last() == b);
        }
        if b < 48 || b > 57 {
            proof {
                assert(!is_digit(s[i - start]));
            }
            return None;
        }
        let grown = match acc.checked_mul(10) {
            Some(g) => g.checked_add((b - 48) as u64),
            None => None,
        };
        match grown {
            Some(g) => {
                acc = g;
            },
            None => {
                proof {
                    assert(num_of(s.take(i - start + 1)) > u64::MAX);
                    if all_digits(s) {
                        lemma_num_of_prefix(s, i - start + 1);
                    }
                }
                return None;
            },
        }
        i = i + 1;
    }
    proof {
        assert(s.take(end - start) =~= s);
    }
    Some(acc)
}

/// Parse one raw `Range` header value against the grammar of
/// [`parse_range_value`].
fn parse_value(v: &[u8]) -> (r: Option<Range>)
    ensures
        r == parse_range_value(v@),
{
    if v.len() < 6 {
        return None;
    }
    if !(v[0] == 98 && v[1] == 121 && v[2] == 116 && v[3] == 101 && v[4] == 115 && v[5] == 61) {
        proof {
            assert(v@.subrange(0, 6) != bytes_unit_prefix());
        }
        return None;
    }
    proof {
        assert(v@.subrange(0, 6) =~= bytes_unit_prefix());
    }
    let ghost s = v@.subrange(6, v@.len() as int);
    let n = v.len();
    let mut d: usize = 6;
    while d < n && v[d] != 45
        invariant
            6 <= d <= n == v@.len(),
            forall|k: int| 6 <= k < d ==> v@[k] != '-' as u8,
        decreases n - d,
    {
        d = d + 1;
    }
    proof {
        lemma_find_dash_is(s, d - 6);
    }
    if d == n {
        return None;
    }
    proof {
        assert(s.subrange(0, d - 6) =~= v@.subrange(6, d as int));
        assert(s.subrange(d - 6 + 1, s.len() as int) =~= v@.subrange(d + 1, n as int));
    }
    if d == 6 {
        match parse_num(v, d + 1, n) {
            Some(last) => Some(Range::Last(last)),
            None => None,
        }
    } else {
        match parse_num(v, 6, d) {
            None => None,
            Some(from) => {
                if d + 1 == n {
                    Some(Range::AllFrom(from))
                } else {
                    match parse_num(v, d + 1, n) {
                        Some(to) => {
                            if from <= to {
                                Some(Range::FromTo(from, to))
                            } else {
                                None
                            }
                        },
                        None => None,
                    }
                }
            },
        }
    }
}

/// What the range parser has seen so far: no `Range` header yet, exactly one
/// well-formed one, or something malformed (including repeated headers).
#[derive(Debug, Clone, Copy, PartialEq, Eq, Structural)]
pub enum RangeState {
    Unset,
    Parsed(Range),
    Invalid,
}

/// One step of the range parser: a first well-formed header is kept, and
/// anything after that — a malformed value or a second `Range` header —
/// makes the whole range request invalid.
pub open spec fn range_step(st: RangeState, v: Seq<u8>) -> RangeState {
    match st {
        RangeState::Unset => match parse_range_value(v) {
            Some(r) => RangeState::Parsed(r),
            None => RangeState::Invalid,
        },
        _ => RangeState::Invalid,
    }
}

/// The finalized value of a parser state: absence when no header was seen,
/// the parsed range, or the parse failure.
pub open spec fn range_done(st: RangeState) -> Result<Option<Range>, ()> {
    match st {
        RangeState::Unset => Ok(None),
        RangeState::Parsed(r) => Ok(Some(r)),
        RangeState::Invalid => Err(()),
    }
}

/// Accumulates the values of every `Range` header of a request and finalizes
/// them into an optional byte range or a parse failure.
#[derive(Debug, Clone)]
pub struct RangeParser {
    state: RangeState,
}

impl View for RangeParser {
    type V = RangeState;

    closed spec fn view(&self) -> RangeState {
        self.state
    }
}

impl RangeParser {
    /// A fresh parser that has seen no header yet.
    pub fn new() -> (r: RangeParser)
        ensures
            r@ == RangeState::Unset,
    {
        RangeParser { state: RangeState::Unset }
    }

    /// Feed one raw `Range` header value.
    pub fn add_header(&mut self, value: &[u8])
        ensures
            final(self)@ == range_step(old(self)@, value@),
    {
        let next = match self.state {
            RangeState::Unset => match parse_value(value) {
                Some(r) => RangeState::Parsed(r),
                None => RangeState::Invalid,
            },
            _ => RangeState::Invalid,
        };
        self.state = next;
    }

    /// Finalize: `Ok(None)` when no `Range` header was present, `Ok(Some(_))`
    /// when a single well-formed one was, and `Err(())` otherwise.
    pub fn done(self) -> (r: Result<Option<Range>, ()>)
        ensures
            r == range_done(self@),
    {
        match self.state {
            RangeState::Unset => Ok(None),
            RangeState::Parsed(r) => Ok(Some(r)),
            RangeState::Invalid => Err(()),
        }
    }
}

} // verus!
