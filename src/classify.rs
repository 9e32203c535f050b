//! One classification: the cache tiers first, then a gated call to the outside classifier,
//! whose verdict fills both tiers.
use vstd::prelude::*;
use crate::cache::{keyword_hit, recorded, KeywordIndex, ResultCache};
use crate::model::{AnalyzeResponse, CustomError};
use crate::normalize::{
    fingerprint_spec, hash_comment, normalize_fancy_text, normalize_spec, remove_all_whitespace,
    strip_white_space,
};
use crate::response::{outcome, parse_response, payload_verdict, ProviderShape};

verus! {

/// A fixed number of permits for calls to the classifier.
pub struct PermitPool {
    capacity: usize,
    in_use: usize,
}

/// The state of a permit pool: its capacity and the permits held.
pub struct PoolView {
    pub capacity: nat,
    pub in_use: nat,
}

impl View for PermitPool {
    type V = PoolView;

    closed spec fn view(&self) -> PoolView {
        PoolView { capacity: self.capacity as nat, in_use: self.in_use as nat }
    }
}

impl PermitPool {
    /// A pool is well formed when its capacity is positive and no more permits are held than it
    /// has.
    pub open spec fn wf(&self) -> bool {
        0 < self@.capacity && self@.in_use <= self@.capacity
    }

    pub fn new(capacity: usize) -> (r: PermitPool)
        requires
            capacity > 0,
        ensures
            r.wf(),
            r@ == (PoolView { capacity: capacity as nat, in_use: 0 }),
    {
        PermitPool { capacity, in_use: 0 }
    }

    /// Take a permit if one is free.
    pub fn try_acquire(&mut self) -> (r: bool)
        requires
            old(self).wf(),
        ensures
            final(self).wf(),
            r == (old(self)@.in_use < old(self)@.capacity),
            final(self)@.capacity == old(self)@.capacity,
            final(self)@.in_use == old(self)@.in_use + if r {
                1nat
            } else {
                0nat
            },
    {
        if self.in_use < self.capacity {
            self.in_use = self.in_use + 1;
            true
        } else {
            false
        }
    }

    /// Give a held permit back.
    pub fn release(&mut self)
        requires
            old(self).wf(),
            old(self)@.in_use > 0,
        ensures
            final(self).wf(),
            final(self)@.capacity == old(self)@.capacity,
            final(self)@.in_use == old(self)@.in_use - 1,
    {
        self.in_use = self.in_use - 1;
    }

    pub fn in_use(&self) -> (r: usize)
        ensures
            r == self@.in_use,
    {
        self.in_use
    }

    pub fn capacity(&self) -> (r: usize)
        ensures
            r == self@.capacity,
    {
        self.capacity
    }
}

/// What to do first with a comment.
#[derive(Debug)]
pub enum Step {
    /// The verdict is known from a cache tier; no call is needed.
    Answer(AnalyzeResponse),
    /// Call the classifier on the canonical text; cache its verdict under the fingerprint.
    CallProvider { fingerprint: String, normalized: String },
}

/// The text that learned keywords are looked for in: the canonical form without white space.
pub open spec fn scan_text(comment: Seq<char>) -> Seq<char> {
    strip_white_space(normalize_spec(comment))
}

/// The first step for a comment: the cached verdict for its fingerprint; else, where a learned
/// keyword occurs in its canonical form, spam with that keyword and its confidence; else a call
/// to the classifier.
pub fn begin_classification(results: &ResultCache, keywords: &KeywordIndex, comment: &str) -> (r:
    Step)
    ensures
        results@.contains_key(fingerprint_spec(comment@)) ==> r == Step::Answer(
            results@[fingerprint_spec(comment@)],
        ),
        !results@.contains_key(fingerprint_spec(comment@)) ==> match keyword_hit(
            keywords@,
            scan_text(comment@),
        ) {
            Some(kc) => r matches Step::Answer(v) && v@ == (true, kc.0, kc.1),
            None => r matches Step::CallProvider { fingerprint, normalized } && fingerprint@
                == fingerprint_spec(comment@) && normalized@ == normalize_spec(comment@),
        },
{
    let fingerprint = hash_comment(comment);
    if let Some(v) = results.lookup_by_fingerprint(fingerprint.as_str()) {
        return Step::Answer(v.copy());
    }
    let normalized = normalize_fancy_text(comment);
    let sanitized = remove_all_whitespace(normalized.as_str());
    match keywords.scan(sanitized.as_str()) {
        Some((keyword, confidence)) => Step::Answer(
            AnalyzeResponse { spam: true, keyword, confidence },
        ),
        None => Step::CallProvider { fingerprint, normalized },
    }
}

/// The last step, once the classifier has been called and its permit given back: `reply` is the
/// raw reply, or `None` where the call failed on the way. A verdict is cached under the
/// fingerprint and its keyword is learned; a failure changes nothing.
pub fn finish_classification(
    results: &mut ResultCache,
    keywords: &mut KeywordIndex,
    fingerprint: String,
    shape: ProviderShape,
    reply: Option<String>,
) -> (r: Result<AnalyzeResponse, CustomError>)
    ensures
        reply is None ==> r == Err::<AnalyzeResponse, CustomError>(CustomError::Transport),
        reply matches Some(p) ==> outcome(r) == payload_verdict(shape, p@),
        r matches Ok(v) ==> final(results)@ == old(results)@.insert(fingerprint@, v)
            && final(keywords)@ == recorded(old(keywords)@, v.keyword@, v.confidence@),
        r is Err ==> final(results)@ == old(results)@ && final(keywords)@ == old(keywords)@,
{
    match reply {
        None => Err(CustomError::Transport),
        Some(payload) => match parse_response(shape, payload.as_str()) {
            Ok(v) => {
                keywords.record(v.keyword.clone(), v.confidence.clone());
                results.put(fingerprint, v.copy());
                Ok(v)
            },
            Err(e) => Err(e),
        },
    }
}

/// Where one call to the classifier stands.
#[derive(PartialEq, Eq, Structural, Clone, Copy, Debug)]
pub enum CallPhase {
    Idle,
    AwaitingPermit,
    Calling,
    Parsing,
    Done,
    Failed,
}

/// What happened to a call.
#[derive(PartialEq, Eq, Structural, Clone, Copy, Debug)]
pub enum CallEvent {
    /// The comment missed both cache tiers.
    Start,
    /// A permit may have come free.
    PermitOffered,
    /// The classifier answered, or the transport failed; either way the call is over.
    CallEnded { delivered: bool },
    /// The reply was decoded: to a verdict, or to a failure.
    Parsed { ok: bool },
    /// The caller gave up on the call.
    Cancelled,
}

/// The phase after an event, as a total function of the two.
pub open spec fn next_phase(phase: CallPhase, event: CallEvent, permit_free: bool) -> CallPhase {
    match (phase, event) {
        (CallPhase::Idle, CallEvent::Start) => CallPhase::AwaitingPermit,
        (CallPhase::AwaitingPermit, CallEvent::PermitOffered) => if permit_free {
            CallPhase::Calling
        } else {
            CallPhase::AwaitingPermit
        },
        (CallPhase::Calling, CallEvent::CallEnded { delivered }) => if delivered {
            CallPhase::Parsing
        } else {
            CallPhase::Failed
        },
        (CallPhase::Parsing, CallEvent::Parsed { ok }) => if ok {
            CallPhase::Done
        } else {
            CallPhase::Failed
        },
        (CallPhase::AwaitingPermit, CallEvent::Cancelled) => CallPhase::Failed,
        (CallPhase::Calling, CallEvent::Cancelled) => CallPhase::Failed,
        (CallPhase::Parsing, CallEvent::Cancelled) => CallPhase::Failed,
        _ => phase,
    }
}

/// Move a call to its next phase. A permit is taken exactly when the call starts calling, and
/// given back exactly when it stops, whether the call ended, failed or was cancelled; so a
/// permit is held by each call that is calling, and by no other.
pub fn advance(pool: &mut PermitPool, phase: CallPhase, event: CallEvent) -> (r: CallPhase)
    requires
        old(pool).wf(),
        phase == CallPhase::Calling ==> old(pool)@.in_use > 0,
    ensures
        final(pool).wf(),
        final(pool)@.capacity == old(pool)@.capacity,
        r == next_phase(phase, event, old(pool)@.in_use < old(pool)@.capacity),
        phase != CallPhase::Calling && r == CallPhase::Calling ==> final(pool)@.in_use == old(
            pool,
        )@.in_use + 1,
        phase == CallPhase::Calling && r != CallPhase::Calling ==> final(pool)@.in_use == old(
            pool,
        )@.in_use - 1,
        (phase == CallPhase::Calling) == (r == CallPhase::Calling) ==> final(pool)@.in_use == old(
            pool,
        )@.in_use,
{
    match (phase, event) {
        (CallPhase::Idle, CallEvent::Start) => CallPhase::AwaitingPermit,
        (CallPhase::AwaitingPermit, CallEvent::PermitOffered) => {
            if pool.try_acquire() {
                CallPhase::Calling
            } else {
                CallPhase::AwaitingPermit
            }
        },
        (CallPhase::Calling, CallEvent::CallEnded { delivered }) => {
            pool.release();
            if delivered {
                CallPhase::Parsing
            } else {
                CallPhase::Failed
            }
        },
        (CallPhase::Parsing, CallEvent::Parsed { ok }) => {
            if ok {
                CallPhase::Done
            } else {
                CallPhase::Failed
            }
        },
        (CallPhase::AwaitingPermit, CallEvent::Cancelled) => CallPhase::Failed,
        (CallPhase::Calling, CallEvent::Cancelled) => {
            pool.release();
            CallPhase::Failed
        },
        (CallPhase::Parsing, CallEvent::Cancelled) => CallPhase::Failed,
        _ => phase,
    }
}

/// The number of calls that are calling.
pub open spec fn calling_count(calls: Seq<CallPhase>) -> nat
    decreases calls.len(),
{
    if calls.len() == 0 {
        0
    } else {
        calling_count(calls.drop_last()) + if calls.last() == CallPhase::Calling {
            1nat
        } else {
            0nat
        }
    }
}

pub open spec fn calling_ind(p: CallPhase) -> nat {
    if p == CallPhase::Calling {
        1
    } else {
        0
    }
}

proof fn lemma_count_update(calls: Seq<CallPhase>, k: int, x: CallPhase)
    requires
        0 <= k < calls.len(),
    ensures
        calling_count(calls.update(k, x)) + calling_ind(calls[k]) == calling_count(calls)
            + calling_ind(x),
    decreases calls.len(),
{
    let u = calls.update(k, x);
    if k == calls.len() - 1 {
        assert(u.drop_last() =~= calls.drop_last());
    } else {
        assert(u.drop_last() =~= calls.drop_last().update(k, x));
        lemma_count_update(calls.drop_last(), k, x);
    }
}

/// Move call `k` among `calls` to its next phase, keeping the permits held equal to the number
/// of calls that are calling.
pub fn advance_call(pool: &mut PermitPool, calls: &mut Vec<CallPhase>, k: usize, event: CallEvent) -> (r:
    CallPhase)
    requires
        old(pool).wf(),
        k < old(calls).len(),
        old(pool)@.in_use == calling_count(old(calls)@),
    ensures
        final(pool).wf(),
        final(pool)@.capacity == old(pool)@.capacity,
        final(pool)@.in_use == calling_count(final(calls)@),
        final(calls)@ == old(calls)@.update(k as int, r),
        r == next_phase(old(calls)@[k as int], event, old(pool)@.in_use < old(pool)@.capacity),
{
    let phase = calls[k];
    proof {
        lemma_count_update(calls@, k as int, CallPhase::Idle);
    }
    let r = advance(pool, phase, event);
    proof {
        lemma_count_update(calls@, k as int, r);
    }
    calls.set(k, r);
    r
}

/// However calls advance, no more of them are calling at once than the pool has permits: each
/// step keeps the permits held equal to the number of calls that are calling, and a well-formed
/// pool holds at most its capacity.
pub proof fn lemma_calls_bounded(pool: PermitPool, calls: Seq<CallPhase>)
    requires
        pool.wf(),
        pool@.in_use == calling_count(calls),
    ensures
        calling_count(calls) <= pool@.capacity,
{
}

} // verus!
