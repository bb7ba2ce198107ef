//! Variant resolution: probing the filesystem, in encoding-preference
//! order, for the first existing encoded variant of a resource.
//!
//! The filesystem calls themselves block and are left to the caller, which
//! must run them off any I/O-multiplexing thread. The caller asks this
//! state machine for the next probe path, performs the open, and feeds the
//! outcome back; the machine decides whether the resolution is over, which
//! encoding matched, and whether the outcome deserves a diagnostic.

use vstd::prelude::*;

use crate::encoding::AcceptEncoding;
use crate::encoding::Encoding;
use crate::encoding::suffix_bytes;
use crate::input::Input;

verus! {

/// What one filesystem probe produced: the variant opened, the probe path
/// did not exist, or some other I/O error occurred.
#[derive(Debug, Clone, Copy, PartialEq, Eq, Structural)]
pub enum ProbeOutcome {
    Opened,
    NotFound,
    OtherError,
}

/// The resolver's decision after a probe: the resolution is over with a
/// matched encoding, or it moves on to the next candidate, logging a
/// diagnostic exactly when the probe failed with anything but "not found".
#[derive(Debug, Clone, Copy, PartialEq, Eq, Structural)]
pub enum ProbeAction {
    Matched(Encoding),
    Continue { log: bool },
}

/// The probe path of a candidate encoding: the byte-oriented concatenation
/// of the resource's base path and the encoding's filename suffix.
pub fn probe_path(base: &[u8], enc: Encoding) -> (r: Vec<u8>)
    ensures
        r@ == base@ + suffix_bytes(enc),
{
    let mut buf: Vec<u8> = Vec::new();
    let n = base.len();
    let mut i: usize = 0;
    while i < n
        invariant
            i <= n == base@.len(),
            buf@ == base@.take(i as int),
        decreases n - i,
    {
        buf.push(base[i]);
        proof {
            assert(buf@ =~= base@.take(i + 1));
        }
        i = i + 1;
    }
    proof {
        assert(base@.take(n as int) =~= base@);
    }
    match enc {
        Encoding::Brotli => {
            buf.push(46);
            buf.push(98);
            buf.push(114);
        },
        Encoding::Gzip => {
            buf.push(46);
            buf.push(103);
            buf.push(122);
        },
        Encoding::Identity => {},
    }
    proof {
        assert(buf@ =~= base@ + suffix_bytes(enc));
    }
    buf
}

/// One in-progress resolution of an intent against a base path: the
/// candidates still to try, in preference order, and how many probes have
/// already failed.
#[derive(Debug)]
pub struct Resolution {
    prefs: Vec<Encoding>,
    base: Vec<u8>,
    next: usize,
}

impl Resolution {
    /// The candidate encodings, in preference order.
    pub closed spec fn spec_prefs(&self) -> Seq<Encoding> {
        self.prefs@
    }

    /// The base path the candidates are probed against.
    pub closed spec fn spec_base(&self) -> Seq<u8> {
        self.base@
    }

    /// The index of the next candidate to probe.
    pub closed spec fn spec_next(&self) -> int {
        self.next as int
    }

    /// Begin resolving `intent` against `base`: the candidates are exactly
    /// the intent's negotiated preference, and no probe has happened yet.
    pub fn new(intent: &Input, base: Vec<u8>) -> (r: Resolution)
        ensures
            r.spec_prefs() == intent.accept_encoding@,
            r.spec_base() == base@,
            r.spec_next() == 0,
    {
        let src = intent.encodings();
        let n = src.len();
        let mut prefs: Vec<Encoding> = Vec::new();
        let mut i: usize = 0;
        while i < n
            invariant
                i <= n == intent.accept_encoding@.len(),
                src == intent.accept_encoding,
                prefs@ == intent.accept_encoding@.take(i as int),
            decreases n - i,
        {
            prefs.push(src.get(i));
            proof {
                assert(prefs@ =~= intent.accept_encoding@.take(i + 1));
            }
            i = i + 1;
        }
        proof {
            assert(intent.accept_encoding@.take(n as int) =~= intent.accept_encoding@);
        }
        Resolution { prefs, base, next: 0 }
    }

    /// The path to probe for the current candidate, or `None` when every
    /// candidate has been tried.
    pub fn next_probe(&self) -> (r: Option<Vec<u8>>)
        ensures
            match r {
                Some(p) => self.spec_next() < self.spec_prefs().len() && p@ == self.spec_base()
                    + suffix_bytes(self.spec_prefs()[self.spec_next()]),
                None => self.spec_next() >= self.spec_prefs().len(),
            },
    {
        if self.next < self.prefs.len() {
            Some(probe_path(self.base.as_slice(), self.prefs[self.next]))
        } else {
            None
        }
    }

    /// The encoding of the current candidate.
    pub fn current_encoding(&self) -> (e: Encoding)
        requires
            self.spec_next() < self.spec_prefs().len(),
        ensures
            e == self.spec_prefs()[self.spec_next()],
    {
        self.prefs[self.next]
    }

    /// Record the outcome of the current candidate's probe. The first
    /// successful open wins and stops the resolution; any failure moves to
    /// the next candidate, asking for a diagnostic exactly when the failure
    /// was something other than "not found".
    pub fn advance(&mut self, outcome: ProbeOutcome) -> (r: ProbeAction)
        requires
            old(self).spec_next() < old(self).spec_prefs().len(),
        ensures
            final(self).spec_prefs() == old(self).spec_prefs(),
            final(self).spec_base() == old(self).spec_base(),
            outcome == ProbeOutcome::Opened ==> r == ProbeAction::Matched(
                old(self).spec_prefs()[old(self).spec_next()],
            ) && final(self).spec_next() == old(self).spec_next(),
            outcome != ProbeOutcome::Opened ==> r == (ProbeAction::Continue {
                log: outcome == ProbeOutcome::OtherError,
            }) && final(self).spec_next() == old(self).spec_next() + 1,
    {
        match outcome {
            ProbeOutcome::Opened => ProbeAction::Matched(self.prefs[self.next]),
            ProbeOutcome::NotFound | ProbeOutcome::OtherError => {
                if self.next < self.prefs.len() {
                    self.next = self.next + 1;
                }
                ProbeAction::Continue { log: outcome == ProbeOutcome::OtherError }
            },
        }
    }
}

/// The encoding a whole resolution ends with, given the candidates in
/// preference order and the outcome each candidate's probe would produce:
/// the first candidate whose probe opens, and absence when none does.
pub open spec fn run_result(prefs: Seq<Encoding>, outcomes: Seq<ProbeOutcome>) -> Option<
    Encoding,
>
    decreases prefs.len(),
{
    if prefs.len() == 0 || outcomes.len() == 0 {
        None
    } else if outcomes[0] == ProbeOutcome::Opened {
        Some(prefs[0])
    } else {
        run_result(prefs.drop_first(), outcomes.drop_first())
    }
}

/// How many diagnostics the same resolution emits: one per probed candidate
/// that failed with something other than "not found".
pub open spec fn run_logs(prefs: Seq<Encoding>, outcomes: Seq<ProbeOutcome>) -> int
    decreases prefs.len(),
{
    if prefs.len() == 0 || outcomes.len() == 0 {
        0
    } else if outcomes[0] == ProbeOutcome::Opened {
        0
    } else {
        (if outcomes[0] == ProbeOutcome::OtherError {
            1int
        } else {
            0int
        }) + run_logs(prefs.drop_first(), outcomes.drop_first())
    }
}

/// Resolve a preference against a fixed table of probe outcomes, one per
/// candidate: the matched encoding (or absence) and the number of
/// diagnostics emitted on the way.
pub fn resolve_with(prefs: &AcceptEncoding, outcomes: &Vec<ProbeOutcome>) -> (r: (
    Option<Encoding>,
    usize,
))
    requires
        prefs@.len() <= outcomes@.len(),
    ensures
        r.0 == run_result(prefs@, outcomes@),
        r.1 == run_logs(prefs@, outcomes@),
{
    let n = prefs.len();
    proof {
        assert(prefs@.skip(0) =~= prefs@);
        assert(outcomes@.skip(0) =~= outcomes@);
    }
    let mut logs: usize = 0;
    let mut i: usize = 0;
    while i < n
        invariant
            i <= n == prefs@.len() <= outcomes@.len(),
            logs <= i,
            run_result(prefs@, outcomes@) == run_result(
                prefs@.skip(i as int),
                outcomes@.skip(i as int),
            ),
            run_logs(prefs@, outcomes@) == logs + run_logs(
                prefs@.skip(i as int),
                outcomes@.skip(i as int),
            ),
        decreases n - i,
    {
        let ghost ps = prefs@.skip(i as int);
        let ghost os = outcomes@.skip(i as int);
        proof {
            assert(ps[0] == prefs@[i as int]);
            assert(os[0] == outcomes@[i as int]);
            assert(ps.drop_first() =~= prefs@.skip(i + 1));
            assert(os.drop_first() =~= outcomes@.skip(i + 1));
        }
        match outcomes[i] {
            ProbeOutcome::Opened => {
                return (Some(prefs.get(i)), logs);
            },
            ProbeOutcome::NotFound => {},
            ProbeOutcome::OtherError => {
                logs = logs + 1;
            },
        }
        i = i + 1;
    }
    proof {
        assert(prefs@.skip(n as int).len() == 0);
    }
    (None, logs)
}

/// The first candidate whose probe opens is the one resolution returns,
/// whatever stands before it (failed probes) or after it (candidates that
/// are never probed, existing or not).
pub proof fn lemma_first_success_wins(prefs: Seq<Encoding>, outcomes: Seq<ProbeOutcome>, i: int)
    requires
        0 <= i < prefs.len(),
        i < outcomes.len(),
        outcomes[i] == ProbeOutcome::Opened,
        forall|j: int| 0 <= j < i ==> outcomes[j] != ProbeOutcome::Opened,
    ensures
        run_result(prefs, outcomes) == Some(prefs[i]),
    decreases i,
{
    if i > 0 {
        assert(outcomes[0] != ProbeOutcome::Opened);
        assert(prefs.drop_first()[i - 1] == prefs[i]);
        assert(outcomes.drop_first()[i - 1] == outcomes[i]);
        assert forall|j: int| 0 <= j < i - 1 implies outcomes.drop_first()[j]
            != ProbeOutcome::Opened by {
            assert(outcomes.drop_first()[j] == outcomes[j + 1]);
        }
        lemma_first_success_wins(prefs.drop_first(), outcomes.drop_first(), i - 1);
    }
}

/// When no candidate's probe opens, resolution reports absence rather than
/// an error.
pub proof fn lemma_exhaustion_absent(prefs: Seq<Encoding>, outcomes: Seq<ProbeOutcome>)
    requires
        forall|j: int| 0 <= j < prefs.len() && j < outcomes.len() ==> outcomes[j]
            != ProbeOutcome::Opened,
    ensures
        run_result(prefs, outcomes) is None,
    decreases prefs.len(),
{
    if prefs.len() > 0 && outcomes.len() > 0 {
        assert forall|j: int|
            0 <= j < prefs.drop_first().len() && j < outcomes.drop_first().len() implies outcomes
            .drop_first()[j] != ProbeOutcome::Opened by {
            assert(outcomes.drop_first()[j] == outcomes[j + 1]);
        }
        lemma_exhaustion_absent(prefs.drop_first(), outcomes.drop_first());
    }
}

/// Plain "not found" probes are silent: a resolution whose probes never
/// fail with another error emits no diagnostic at all.
pub proof fn lemma_not_found_silent(prefs: Seq<Encoding>, outcomes: Seq<ProbeOutcome>)
    requires
        forall|j: int| 0 <= j < outcomes.len() ==> outcomes[j] != ProbeOutcome::OtherError,
    ensures
        run_logs(prefs, outcomes) == 0,
    decreases prefs.len(),
{
    if prefs.len() > 0 && outcomes.len() > 0 {
        assert forall|j: int| 0 <= j < outcomes.drop_first().len() implies outcomes.drop_first()[j]
            != ProbeOutcome::OtherError by {
            assert(outcomes.drop_first()[j] == outcomes[j + 1]);
        }
        lemma_not_found_silent(prefs.drop_first(), outcomes.drop_first());
    }
}

/// How many probe outcomes are failures other than "not found".
pub open spec fn count_other_errors(outcomes: Seq<ProbeOutcome>) -> int
    decreases outcomes.len(),
{
    if outcomes.len() == 0 {
        0
    } else {
        (if outcomes[0] == ProbeOutcome::OtherError {
            1int
        } else {
            0int
        }) + count_other_errors(outcomes.drop_first())
    }
}

pub proof fn lemma_count_other_errors_nonneg(outcomes: Seq<ProbeOutcome>)
    ensures
        count_other_errors(outcomes) >= 0,
    decreases outcomes.len(),
{
    if outcomes.len() > 0 {
        lemma_count_other_errors_nonneg(outcomes.drop_first());
    }
}

/// A resolution emits at most one diagnostic per probe that failed with
/// something other than "not found".
pub proof fn lemma_logs_bounded(prefs: Seq<Encoding>, outcomes: Seq<ProbeOutcome>)
    ensures
        0 <= run_logs(prefs, outcomes) <= count_other_errors(outcomes),
    decreases prefs.len(),
{
    if prefs.len() == 0 || outcomes.len() == 0 {
        lemma_count_other_errors_nonneg(outcomes);
    } else if outcomes[0] == ProbeOutcome::Opened {
        lemma_count_other_errors_nonneg(outcomes.drop_first());
    } else {
        lemma_logs_bounded(prefs.drop_first(), outcomes.drop_first());
    }
}

} // verus!
