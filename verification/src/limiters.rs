//! Limiter primitives that a request meets: the entries of the stack and the cache of
//! limiters for tier overrides.
use std::fmt::Debug;
use std::hash::Hash;
use std::sync::Arc;

use vstd::prelude::*;

use crate::duration::Duration;
use crate::error::ExtractionError;
use crate::extractor::{KeyExtractor, KeyOutcome};
use crate::limiter::{CheckOutcome, Limiter, LimiterEvent, Reading};
use crate::quota::Quota;
use crate::request::Parts;
use crate::tracker::{EvictionReason, KeyTracker, TouchOutcome};
use crate::util::format_key;

verus! {

/// Outcome of checking one stacked limiter entry.
#[derive(Debug)]
pub enum StackedResult {
    Admit { remaining: u32 },
    Reject { wait: Duration, key_repr: String },
    ExtractionFailed(ExtractionError),
}

/// A stacked outcome, and whether the check pushed a key out of the entry's tracker.
#[derive(Debug)]
pub struct StackedCheck {
    pub result: StackedResult,
    pub evicted: bool,
}

/// Something that happened to a stack entry.
pub enum StackedEvent {
    /// A request was checked, with this outcome.
    Checked { parts: Parts, redact: bool, check: StackedCheck },
    /// Stale keys were dropped.
    Swept,
}

/// No request has been counted yet: every check so far lacked a key.
pub open spec fn untouched(checks: Seq<StackedResult>) -> bool {
    forall|i: int| 0 <= i < checks.len() ==> #[trigger] checks[i] is ExtractionFailed
}

/// What an entry of the given burst may answer. An admission counts itself, so less than the
/// burst remains, and an entry that has counted nothing has all of it.
pub open spec fn entry_answers(burst: u32, checks: Seq<StackedResult>, r: StackedResult) -> bool {
    &&& r matches StackedResult::Admit { remaining } ==> remaining < burst && (untouched(checks)
        ==> remaining == burst - 1)
    &&& r matches StackedResult::Reject { wait, .. } ==> wait.wf() && !untouched(checks)
}

/// One entry in the ordered stack of limiters, whatever its key type.
///
/// On each request the entries are checked in insertion order; the first refusal wins.
pub trait StackedRunner: Send + Sync {
    /// Name of the policy.
    spec fn label(&self) -> Seq<char>;

    /// Quota of the policy.
    spec fn limit(&self) -> Quota;

    /// The bound on the keys that the entry keeps track of, where there is one.
    spec fn key_bound(&self) -> Option<usize>;

    /// Results of all checks so far, in order.
    spec fn checks(&self) -> Seq<StackedResult>;

    /// Number of times that stale keys were dropped.
    spec fn sweeps(&self) -> nat;

    /// Everything that happened to the entry, in order.
    spec fn history(&self) -> Seq<StackedEvent>;

    /// The entry is in good order.
    spec fn runner_wf(&self) -> bool;

    /// `history` is one that an entry of this policy may have from its beginning: every answer
    /// is one that the requests before it allow.
    spec fn may_have(&self, history: Seq<StackedEvent>) -> bool;

    /// `top` is what an entry of this policy may show of its `n` most active keys after
    /// `history`.
    spec fn may_show(&self, history: Seq<StackedEvent>, n: nat, top: Seq<(String, u64)>) -> bool;

    /// `n` is a number of keys that the store of such an entry may hold after `history`.
    spec fn may_store(&self, history: Seq<StackedEvent>, n: usize) -> bool;

    /// `r` is a result that the entry may give for a request: a failure is its extractor's,
    /// a verdict needs a key from it, and a rejection shows that key.
    spec fn may_give(&self, parts: &Parts, redact: bool, r: StackedResult) -> bool;

    /// `top` is what the entry shows of its `n` most active keys.
    spec fn shows_top(&self, n: nat, top: Seq<(String, u64)>) -> bool;

    fn name(&self) -> (name: &str)
        ensures
            name@ == self.label(),
    ;

    fn quota(&self) -> (q: Quota)
        ensures
            q == self.limit(),
    ;

    /// Count a request.
    fn check(&mut self, parts: &Parts, redact: bool) -> (r: StackedCheck)
        requires
            old(self).runner_wf(),
        ensures
            final(self).runner_wf(),
            final(self).label() == old(self).label(),
            final(self).limit() == old(self).limit(),
            final(self).key_bound() == old(self).key_bound(),
            final(self).history() == old(self).history().push(
                StackedEvent::Checked { parts: *parts, redact, check: r },
            ),
            old(self).may_have(final(self).history()),
            forall|h: Seq<StackedEvent>| #[trigger]
                final(self).may_have(h) == old(self).may_have(h),
            forall|h: Seq<StackedEvent>, n: nat, top: Seq<(String, u64)>| #[trigger]
                final(self).may_show(h, n, top) == old(self).may_show(h, n, top),
            forall|h: Seq<StackedEvent>, n: usize| #[trigger]
                final(self).may_store(h, n) == old(self).may_store(h, n),
            old(self).key_bound() is None ==> !r.evicted,
            final(self).checks() == old(self).checks().push(r.result),
            final(self).sweeps() == old(self).sweeps() + (if r.evicted {
                1nat
            } else {
                0nat
            }),
            old(self).may_give(parts, redact, r.result),
            forall|p: &Parts, shy: bool, x: StackedResult| #[trigger]
                final(self).may_give(p, shy, x) == old(self).may_give(p, shy, x),
            entry_answers(old(self).limit().burst_limit(), old(self).checks(), r.result),
            r.result is ExtractionFailed ==> {
                &&& !r.evicted
                &&& forall|n: nat, top: Seq<(String, u64)>| #[trigger]
                    final(self).shows_top(n, top) == old(self).shows_top(n, top)
                &&& forall|n: usize| #[trigger] final(self).may_hold(n) == old(self).may_hold(n)
            },
            r.result matches StackedResult::Reject { key_repr, .. } ==> (redact ==> exists|
                hash: u64,
            |
                key_repr@ == #[trigger] crate::util::redacted(hash)),
    ;

    /// Drop the keys that are no different from new ones.
    fn retain_recent(&mut self)
        requires
            old(self).runner_wf(),
        ensures
            final(self).runner_wf(),
            final(self).label() == old(self).label(),
            final(self).limit() == old(self).limit(),
            final(self).key_bound() == old(self).key_bound(),
            final(self).history() == old(self).history().push(StackedEvent::Swept),
            old(self).may_have(final(self).history()),
            forall|h: Seq<StackedEvent>| #[trigger]
                final(self).may_have(h) == old(self).may_have(h),
            forall|h: Seq<StackedEvent>, n: nat, top: Seq<(String, u64)>| #[trigger]
                final(self).may_show(h, n, top) == old(self).may_show(h, n, top),
            forall|h: Seq<StackedEvent>, n: usize| #[trigger]
                final(self).may_store(h, n) == old(self).may_store(h, n),
            final(self).checks() == old(self).checks(),
            final(self).sweeps() == old(self).sweeps() + 1,
            forall|p: &Parts, shy: bool, x: StackedResult| #[trigger]
                final(self).may_give(p, shy, x) == old(self).may_give(p, shy, x),
            forall|n: nat, top: Seq<(String, u64)>| #[trigger]
                final(self).shows_top(n, top) == old(self).shows_top(n, top),
    ;

    /// `n` is a number of keys that the limiter's store may hold.
    spec fn may_hold(&self, n: usize) -> bool;

    /// Number of keys in the limiter's store.
    fn key_count(&self) -> (n: usize)
        requires
            self.runner_wf(),
        ensures
            self.may_hold(n),
            self.may_store(self.history(), n),
            n <= self.checks().len() + self.sweeps(),
    ;

    /// The `n` most active keys, in falling order of hits.
    fn top_n(&self, n: usize) -> (top: Vec<(String, u64)>)
        requires
            self.runner_wf(),
        ensures
            self.shows_top(n as nat, top@),
            self.may_show(self.history(), n as nat, top@),
    ;
}

/// A stack entry of any key type.
pub struct Stacked {
    pub runner: Box<dyn StackedRunner>,
}

impl Stacked {
    /// Name of the policy.
    pub open spec fn label(&self) -> Seq<char> {
        self.runner.label()
    }

    /// Quota of the policy.
    pub open spec fn limit(&self) -> Quota {
        self.runner.limit()
    }

    /// The bound on the keys that the entry keeps track of, where there is one.
    pub open spec fn key_bound(&self) -> Option<usize> {
        self.runner.key_bound()
    }

    /// Everything that happened to the entry, in order.
    pub open spec fn history(&self) -> Seq<StackedEvent> {
        self.runner.history()
    }

    /// `history` is one that an entry of this policy may have from its beginning.
    pub open spec fn may_have(&self, history: Seq<StackedEvent>) -> bool {
        self.runner.may_have(history)
    }

    /// `top` is what an entry of this policy may show after `history`.
    pub open spec fn may_show(
        &self,
        history: Seq<StackedEvent>,
        n: nat,
        top: Seq<(String, u64)>,
    ) -> bool {
        self.runner.may_show(history, n, top)
    }

    /// `n` is a number of keys that the store of such an entry may hold after `history`.
    pub open spec fn may_store(&self, history: Seq<StackedEvent>, n: usize) -> bool {
        self.runner.may_store(history, n)
    }

    /// Results of all checks so far, in order.
    pub open spec fn checks(&self) -> Seq<StackedResult> {
        self.runner.checks()
    }

    /// Number of times that stale keys were dropped.
    pub open spec fn sweeps(&self) -> nat {
        self.runner.sweeps()
    }

    /// The entry is in good order.
    pub open spec fn wf(&self) -> bool {
        self.runner.runner_wf()
    }

    /// `r` is a result that the entry may give for a request.
    pub open spec fn gives(&self, parts: &Parts, redact: bool, r: StackedResult) -> bool {
        self.runner.may_give(parts, redact, r)
    }

    /// `top` is what the entry shows of its `n` most active keys.
    pub open spec fn shows_top(&self, n: nat, top: Seq<(String, u64)>) -> bool {
        self.runner.shows_top(n, top)
    }

    /// `n` is a number of keys that the limiter's store may hold.
    pub open spec fn may_hold(&self, n: usize) -> bool {
        self.runner.may_hold(n)
    }

    /// Name of the policy.
    pub fn name(&self) -> (name: &str)
        ensures
            name@ == self.label(),
    {
        self.runner.name()
    }

    /// Quota of the policy.
    pub fn quota(&self) -> (q: Quota)
        ensures
            q == self.limit(),
    {
        self.runner.quota()
    }
}

/// The two entries have their keys from the same extractor and count them alike, as far as can
/// be told.
pub open spec fn same_source(a: Stacked, b: Stacked) -> bool {
    &&& a.key_bound() == b.key_bound()
    &&& forall|parts: &Parts, redact: bool, r: StackedResult| #[trigger]
        a.gives(parts, redact, r) == b.gives(parts, redact, r)
    &&& forall|h: Seq<StackedEvent>| #[trigger] a.may_have(h) == b.may_have(h)
    &&& forall|h: Seq<StackedEvent>, n: nat, top: Seq<(String, u64)>| #[trigger]
        a.may_show(h, n, top) == b.may_show(h, n, top)
    &&& forall|h: Seq<StackedEvent>, n: usize| #[trigger] a.may_store(h, n) == b.may_store(h, n)
}

/// The two entries show the same most active keys.
pub open spec fn same_top(a: Stacked, b: Stacked) -> bool {
    forall|n: nat, top: Seq<(String, u64)>| #[trigger] a.shows_top(n, top) == b.shows_top(n, top)
}

/// The limiters of the two entries hold the same number of keys, as far as can be told.
pub open spec fn same_store(a: Stacked, b: Stacked) -> bool {
    forall|n: usize| #[trigger] a.may_hold(n) == b.may_hold(n)
}

/// `r` is a result for a request whose key comes from `e`: a failure is the extractor's, a
/// verdict needs a key, and a rejection shows it.
pub open spec fn keyed_by<E: KeyExtractor>(
    e: E,
    parts: &Parts,
    redact: bool,
    r: StackedResult,
) -> bool {
    match r {
        StackedResult::ExtractionFailed(err) => e.yields(parts, Err(err)),
        StackedResult::Admit { .. } => exists|o: KeyOutcome<E::Key>| e.yields(parts, Ok(o)),
        StackedResult::Reject { key_repr, .. } => exists|o: KeyOutcome<E::Key>| #[trigger]
            e.yields(parts, Ok(o)) && crate::util::shown(o.key, redact, key_repr),
    }
}

/// A stack entry for a given `KeyExtractor`.
#[verifier::reject_recursive_types(E)]
pub struct StackedEntry<E: KeyExtractor> {
    name: String,
    quota: Quota,
    extractor: Arc<E>,
    limiter: Limiter<E::Key>,
    tracker: KeyTracker<E::Key>,
    checks: Ghost<Seq<StackedResult>>,
    sweeps: Ghost<nat>,
    history: Ghost<Seq<StackedEvent>>,
    models: Ghost<Seq<EntryModel<E::Key>>>,
}

impl<E: KeyExtractor> StackedEntry<E> {
    /// The extractor of the entry.
    pub closed spec fn source(&self) -> E {
        *self.extractor
    }

    /// What was asked of the entry's limiter.
    pub closed spec fn log(&self) -> Seq<LimiterEvent<E::Key>> {
        self.limiter.log()
    }

    /// The entry's table of keys.
    pub closed spec fn seen_keys(&self) -> KeyTracker<E::Key> {
        self.tracker
    }

    /// What the entry has counted.
    pub open spec fn model(&self) -> EntryModel<E::Key> {
        EntryModel {
            log: self.log(),
            table: self.seen_keys()@,
            touches: self.seen_keys().touch_count(),
        }
    }

    /// An entry that has seen no request.
    pub fn new(name: String, quota: Quota, extractor: Arc<E>, max_keys: Option<usize>) -> (e: Self)
        requires
            quota.usable(),
        ensures
            e.runner_wf(),
            e.label() == name@,
            e.limit() == quota,
            e.checks() == Seq::<StackedResult>::empty(),
            e.sweeps() == 0,
            e.history() == Seq::<StackedEvent>::empty(),
            e.source() == *extractor,
            e.model() == nothing_counted::<E::Key>(),
            e.key_bound() == max_keys,
    {
        let e = StackedEntry {
            name,
            quota,
            extractor,
            limiter: Limiter::new(quota),
            tracker: KeyTracker::new(max_keys),
            checks: Ghost(Seq::empty()),
            sweeps: Ghost(0nat),
            history: Ghost(Seq::empty()),
            models: Ghost(Seq::empty().push(nothing_counted::<E::Key>())),
        };
        assert(e.model() == nothing_counted::<E::Key>());
        e
    }
}

/// What an entry has counted: the record of its limiter, its table of keys, and how many
/// requests had one.
pub struct EntryModel<K> {
    pub log: Seq<LimiterEvent<K>>,
    pub table: Seq<(K, u64)>,
    pub touches: nat,
}

/// What a new entry has counted.
pub open spec fn nothing_counted<K>() -> EntryModel<K> {
    EntryModel { log: Seq::empty(), table: Seq::empty(), touches: 0 }
}

/// What a limiter's verdict on a key is as a stacked result.
pub open spec fn stacked(outcome: CheckOutcome, r: StackedResult) -> bool {
    match outcome {
        CheckOutcome::Admit { remaining } => r == (StackedResult::Admit { remaining }),
        CheckOutcome::Reject { wait } => r matches StackedResult::Reject { wait: w, key_repr } && w
            == wait,
    }
}

/// A check under the key of `o` took an entry of the given quota and bound from `before` to `after`:
/// the limiter gave an answer that its record allows, the table has noted the key, and where
/// that pushed a key past the bound the limiter was swept.
pub open spec fn counted<K: Hash + Clone + Debug>(
    quota: Quota,
    max_keys: Option<usize>,
    before: EntryModel<K>,
    after: EntryModel<K>,
    o: KeyOutcome<K>,
    redact: bool,
    outcome: CheckOutcome,
    r: StackedCheck,
) -> bool {
    &&& stacked(outcome, r.result)
    &&& r.result matches StackedResult::Reject { key_repr, .. } ==> crate::util::shown(
        o.key,
        redact,
        key_repr,
    )
    &&& crate::limiter::answers(quota.burst_limit(), before.log, o.key, outcome)
    &&& after.log == (if r.evicted {
        before.log.push(LimiterEvent::Checked(o.key, outcome)).push(LimiterEvent::Swept)
    } else {
        before.log.push(LimiterEvent::Checked(o.key, outcome))
    })
    &&& after.touches == before.touches + 1
    &&& max_keys is None ==> !r.evicted
    &&& crate::tracker::orderly::<K>(before.touches) ==> {
        &&& after.table == crate::tracker::touched(
            before.table,
            o.key,
            crate::tracker::room(max_keys),
        )
        &&& r.evicted <==> max_keys is Some && crate::tracker::promoted(before.table, o.key).len()
            > crate::tracker::room(max_keys)
    }
}

/// A check under some key that `e` may give for the request took an entry from `before` to
/// `after`.
pub open spec fn keyed_step<E: KeyExtractor>(
    e: E,
    quota: Quota,
    max_keys: Option<usize>,
    before: EntryModel<E::Key>,
    after: EntryModel<E::Key>,
    parts: &Parts,
    redact: bool,
    check: StackedCheck,
) -> bool {
    exists|o: KeyOutcome<E::Key>, c: CheckOutcome|
        {
            &&& e.yields(parts, Ok(o))
            &&& #[trigger] counted(quota, max_keys, before, after, o, redact, c, check)
        }
}

/// `event` took an entry with its keys from `e` from `before` to `after`.
pub open spec fn stepped_by<E: KeyExtractor>(
    e: E,
    quota: Quota,
    max_keys: Option<usize>,
    before: EntryModel<E::Key>,
    event: StackedEvent,
    after: EntryModel<E::Key>,
) -> bool {
    match event {
        StackedEvent::Swept => after == (EntryModel {
            log: before.log.push(LimiterEvent::Swept),
            ..before
        }),
        StackedEvent::Checked { parts, redact, check } => match check.result {
            StackedResult::ExtractionFailed(err) => {
                &&& e.yields(&parts, Err(err))
                &&& !check.evicted
                &&& after == before
            },
            _ => keyed_step(e, quota, max_keys, before, after, &parts, redact, check),
        },
    }
}

/// `models` is what an entry had counted before each event of `history` and in the end.
pub open spec fn traced<E: KeyExtractor>(
    e: E,
    quota: Quota,
    max_keys: Option<usize>,
    history: Seq<StackedEvent>,
    models: Seq<EntryModel<E::Key>>,
) -> bool {
    &&& models.len() == history.len() + 1
    &&& models[0] == nothing_counted::<E::Key>()
    &&& forall|i: int|
        0 <= i < history.len() ==> stepped_by(
            e,
            quota,
            max_keys,
            models[i],
            #[trigger] history[i],
            models[i + 1],
        )
}

/// An entry with its keys from `e` may have this history.
pub open spec fn can_happen<E: KeyExtractor>(
    e: E,
    quota: Quota,
    max_keys: Option<usize>,
    history: Seq<StackedEvent>,
) -> bool {
    exists|models: Seq<EntryModel<E::Key>>|
        {
            &&& #[trigger] traced(e, quota, max_keys, history, models)
            &&& keeps_time(quota, models.last().log)
        }
}

/// Some readings of its clock make the record that of a limiter of the quota.
pub open spec fn keeps_time<K: Clone>(quota: Quota, log: Seq<LimiterEvent<K>>) -> bool {
    exists|readings: Seq<Reading>| #[trigger]
        crate::limiter::on_time(quota.burst_limit() as nat, quota.cell(), log, readings)
}

/// An entry with its keys from `e` may show `top` after this history.
pub open spec fn can_show<E: KeyExtractor>(
    e: E,
    quota: Quota,
    max_keys: Option<usize>,
    history: Seq<StackedEvent>,
    n: nat,
    top: Seq<(String, u64)>,
) -> bool {
    exists|models: Seq<EntryModel<E::Key>>|
        {
            &&& #[trigger] traced(e, quota, max_keys, history, models)
            &&& crate::tracker::table_shows(models.last().table, models.last().touches, n, top)
        }
}

/// The store of an entry with its keys from `e` may hold `n` keys after this history.
pub open spec fn can_store<E: KeyExtractor>(
    e: E,
    quota: Quota,
    max_keys: Option<usize>,
    history: Seq<StackedEvent>,
    n: usize,
) -> bool {
    exists|models: Seq<EntryModel<E::Key>>|
        {
            &&& #[trigger] traced(e, quota, max_keys, history, models)
            &&& crate::limiter::stores(models.last().log, n)
        }
}

proof fn lemma_traced_push<E: KeyExtractor>(
    e: E,
    quota: Quota,
    max_keys: Option<usize>,
    history: Seq<StackedEvent>,
    models: Seq<EntryModel<E::Key>>,
    event: StackedEvent,
    next: EntryModel<E::Key>,
)
    requires
        traced(e, quota, max_keys, history, models),
        stepped_by(e, quota, max_keys, models.last(), event, next),
    ensures
        traced(e, quota, max_keys, history.push(event), models.push(next)),
{
    let h = history.push(event);
    let m = models.push(next);
    assert forall|i: int| 0 <= i < h.len() implies stepped_by(
        e,
        quota,
        max_keys,
        m[i],
        #[trigger] h[i],
        m[i + 1],
    ) by {
        if i < history.len() {
            assert(h[i] == history[i]);
        }
    }
}

proof fn lemma_untouched_push(checks: Seq<StackedResult>, r: StackedResult)
    ensures
        untouched(checks.push(r)) == (untouched(checks) && r is ExtractionFailed),
{
    let more = checks.push(r);
    assert(more[checks.len() as int] == r);
    assert forall|i: int| 0 <= i < checks.len() implies more[i] == #[trigger] checks[i] by {}
}

impl<E: KeyExtractor> StackedRunner for StackedEntry<E> {
    closed spec fn label(&self) -> Seq<char> {
        self.name@
    }

    closed spec fn limit(&self) -> Quota {
        self.quota
    }

    closed spec fn checks(&self) -> Seq<StackedResult> {
        self.checks@
    }

    closed spec fn sweeps(&self) -> nat {
        self.sweeps@
    }

    closed spec fn key_bound(&self) -> Option<usize> {
        self.tracker.limit()
    }

    closed spec fn history(&self) -> Seq<StackedEvent> {
        self.history@
    }

    open spec fn may_have(&self, history: Seq<StackedEvent>) -> bool {
        can_happen(self.source(), self.limit(), self.key_bound(), history)
    }

    open spec fn may_show(
        &self,
        history: Seq<StackedEvent>,
        n: nat,
        top: Seq<(String, u64)>,
    ) -> bool {
        can_show(self.source(), self.limit(), self.key_bound(), history, n, top)
    }

    open spec fn may_store(&self, history: Seq<StackedEvent>, n: usize) -> bool {
        can_store(self.source(), self.limit(), self.key_bound(), history, n)
    }

    closed spec fn runner_wf(&self) -> bool {
        &&& self.tracker.wf()
        &&& self.limiter.wf()
        &&& self.limiter.limit() == self.quota
        &&& self.quota.usable()
        &&& untouched(self.checks@) ==> crate::limiter::keys_of(self.limiter.log()) == Set::<
            E::Key,
        >::empty()
        &&& self.limiter.log().len() <= self.checks@.len() + self.sweeps@
        &&& traced(
            *self.extractor,
            self.quota,
            self.tracker.limit(),
            self.history@,
            self.models@,
        )
        &&& self.models@.last() == self.model()
    }

    open spec fn may_give(&self, parts: &Parts, redact: bool, r: StackedResult) -> bool {
        keyed_by(self.source(), parts, redact, r)
    }

    closed spec fn shows_top(&self, n: nat, top: Seq<(String, u64)>) -> bool {
        self.tracker.shows(n, top)
    }

    open spec fn may_hold(&self, n: usize) -> bool {
        crate::limiter::stores(self.log(), n)
    }

    fn name(&self) -> (name: &str) {
        self.name.as_str()
    }

    fn quota(&self) -> (q: Quota) {
        self.quota
    }

    fn check(&mut self, parts: &Parts, redact: bool) -> (r: StackedCheck)
        ensures
            final(self).source() == old(self).source(),
            r.result is ExtractionFailed ==> final(self).seen_keys() == old(self).seen_keys(),
            stepped_by(
                old(self).source(),
                old(self).limit(),
                old(self).key_bound(),
                old(self).model(),
                StackedEvent::Checked { parts: *parts, redact, check: r },
                final(self).model(),
            ),
    {
        let ghost start = *self;
        let extracted = self.extractor.extract(parts);
        assert(start.source().yields(parts, extracted));
        match extracted {
            Err(e) => {
                let result = StackedResult::ExtractionFailed(e);
                let r = StackedCheck { result, evicted: false };
                proof {
                    self.checks = Ghost(self.checks@.push(r.result));
                    lemma_untouched_push(start.checks@, r.result);
                    let event = StackedEvent::Checked { parts: *parts, redact, check: r };
                    lemma_traced_push(
                        start.source(),
                        start.quota,
                        start.tracker.limit(),
                        start.history@,
                        start.models@,
                        event,
                        self.model(),
                    );
                    self.history = Ghost(start.history@.push(event));
                    self.models = Ghost(start.models@.push(self.model()));
                    self.limiter.always_counts_its_quota();
                    assert(keeps_time(self.quota, self.models@.last().log));
                }
                r
            },
            Ok(outcome) => {
                let verdict: CheckOutcome = self.limiter.check(&outcome.key);
                let result = match verdict {
                    CheckOutcome::Admit { remaining } => StackedResult::Admit { remaining },
                    CheckOutcome::Reject { wait } => {
                        let key_repr = format_key(&outcome.key, redact);
                        StackedResult::Reject { wait, key_repr }
                    },
                };
                let touch: TouchOutcome<E::Key> = self.tracker.touch(&outcome.key);
                let evicted: bool = match touch.reason {
                    Some(EvictionReason::MaxKeys) => true,
                    _ => false,
                };
                if evicted {
                    self.limiter.retain_recent();
                }
                proof {
                    self.checks = Ghost(self.checks@.push(result));
                    if evicted {
                        self.sweeps = Ghost(self.sweeps@ + 1);
                    }
                }
                let r = StackedCheck { result, evicted };
                proof {
                    lemma_untouched_push(start.checks@, r.result);
                    start.tracker.keeps_to_its_bound();
                    assert(counted(
                        start.quota,
                        start.tracker.limit(),
                        start.model(),
                        self.model(),
                        outcome,
                        redact,
                        verdict,
                        r,
                    ));
                    let event = StackedEvent::Checked { parts: *parts, redact, check: r };
                    assert(start.source().yields(parts, Ok(outcome)));
                    assert(keyed_step(
                        start.source(),
                        start.quota,
                        start.tracker.limit(),
                        start.model(),
                        self.model(),
                        parts,
                        redact,
                        r,
                    ));
                    assert(stepped_by(
                        start.source(),
                        start.quota,
                        start.tracker.limit(),
                        start.model(),
                        event,
                        self.model(),
                    ));
                    lemma_traced_push(
                        start.source(),
                        start.quota,
                        start.tracker.limit(),
                        start.history@,
                        start.models@,
                        event,
                        self.model(),
                    );
                    self.history = Ghost(start.history@.push(event));
                    self.models = Ghost(start.models@.push(self.model()));
                    self.limiter.always_counts_its_quota();
                    assert(keeps_time(self.quota, self.models@.last().log));
                }
                r
            },
        }
    }

    fn retain_recent(&mut self)
        ensures
            final(self).source() == old(self).source(),
            final(self).seen_keys() == old(self).seen_keys(),
            final(self).log() == old(self).log().push(LimiterEvent::Swept),
    {
        let ghost start = *self;
        let ghost before = self.limiter.log();
        self.limiter.retain_recent();
        proof {
            self.sweeps = Ghost(self.sweeps@ + 1);
            assert(self.limiter.log().drop_last() =~= before);
            lemma_traced_push(
                start.source(),
                start.quota,
                start.tracker.limit(),
                start.history@,
                start.models@,
                StackedEvent::Swept,
                self.model(),
            );
            self.history = Ghost(start.history@.push(StackedEvent::Swept));
            self.models = Ghost(start.models@.push(self.model()));
            self.limiter.always_counts_its_quota();
            assert(keeps_time(self.quota, self.models@.last().log));
        }
    }

    fn key_count(&self) -> (n: usize) {
        self.limiter.len()
    }

    fn top_n(&self, n: usize) -> (top: Vec<(String, u64)>) {
        self.tracker.top_n(n)
    }
}

/// Builds one entry of the stack when the layer is finalized.
pub trait StackEntryFactory: Send + Sync {
    /// Name of the policy.
    spec fn factory_label(&self) -> Seq<char>;

    /// Quota of the policy.
    spec fn factory_limit(&self) -> Quota;

    /// `r` is a result that the entry may give for a request.
    spec fn factory_gives(&self, parts: &Parts, redact: bool, r: StackedResult) -> bool;

    /// `history` is one that an entry with this bound may have.
    spec fn factory_may_have(&self, max_keys: Option<usize>, history: Seq<StackedEvent>) -> bool;

    /// `top` is what an entry with this bound may show after `history`.
    spec fn factory_may_show(
        &self,
        max_keys: Option<usize>,
        history: Seq<StackedEvent>,
        n: nat,
        top: Seq<(String, u64)>,
    ) -> bool;

    /// `n` is a number of keys that the store of such an entry may hold after `history`.
    spec fn factory_may_store(
        &self,
        max_keys: Option<usize>,
        history: Seq<StackedEvent>,
        n: usize,
    ) -> bool;

    /// Name of the policy.
    fn factory_name(&self) -> (name: &str)
        ensures
            name@ == self.factory_label(),
    ;

    /// Quota of the policy.
    fn factory_quota(&self) -> (q: Quota)
        ensures
            q == self.factory_limit(),
    ;

    /// Build the entry, its tracker bounded by `max_keys`.
    fn build(&self, max_keys: Option<usize>) -> (r: Stacked)
        requires
            self.factory_limit().usable(),
        ensures
            r.wf(),
            r.label() == self.factory_label(),
            r.limit() == self.factory_limit(),
            forall|p: &Parts, redact: bool, x: StackedResult| #[trigger]
                r.gives(p, redact, x) == self.factory_gives(p, redact, x),
            r.key_bound() == max_keys,
            forall|h: Seq<StackedEvent>| #[trigger]
                r.may_have(h) == self.factory_may_have(max_keys, h),
            forall|h: Seq<StackedEvent>, n: nat, top: Seq<(String, u64)>| #[trigger]
                r.may_show(h, n, top) == self.factory_may_show(max_keys, h, n, top),
            forall|h: Seq<StackedEvent>, n: usize| #[trigger]
                r.may_store(h, n) == self.factory_may_store(max_keys, h, n),
            r.checks() == Seq::<StackedResult>::empty(),
            r.sweeps() == 0,
            r.history() == Seq::<StackedEvent>::empty(),
            forall|n: nat, top: Seq<(String, u64)>| #[trigger]
                r.shows_top(n, top) ==> top.len() == 0,
            forall|n: usize| #[trigger] r.may_hold(n) ==> n == 0,
    ;
}

/// A factory of any type.
pub struct StackFactory {
    pub factory: Box<dyn StackEntryFactory>,
}

impl StackFactory {
    /// Name of the policy.
    pub open spec fn label(&self) -> Seq<char> {
        self.factory.factory_label()
    }

    /// Quota of the policy.
    pub open spec fn limit(&self) -> Quota {
        self.factory.factory_limit()
    }

    /// `r` is a result that the entry may give for a request.
    pub open spec fn gives(&self, parts: &Parts, redact: bool, r: StackedResult) -> bool {
        self.factory.factory_gives(parts, redact, r)
    }

    /// `history` is one that an entry with this bound may have.
    pub open spec fn may_have(&self, max_keys: Option<usize>, history: Seq<StackedEvent>) -> bool {
        self.factory.factory_may_have(max_keys, history)
    }

    /// `top` is what an entry with this bound may show after `history`.
    pub open spec fn may_show(
        &self,
        max_keys: Option<usize>,
        history: Seq<StackedEvent>,
        n: nat,
        top: Seq<(String, u64)>,
    ) -> bool {
        self.factory.factory_may_show(max_keys, history, n, top)
    }

    /// `n` is a number of keys that the store of such an entry may hold after `history`.
    pub open spec fn may_store(
        &self,
        max_keys: Option<usize>,
        history: Seq<StackedEvent>,
        n: usize,
    ) -> bool {
        self.factory.factory_may_store(max_keys, history, n)
    }

    /// The entry is of the given policy and has its keys from `extractor`.
    pub open spec fn is_for<E: KeyExtractor>(&self, name: Seq<char>, quota: Quota, extractor: E) -> bool {
        &&& self.label() == name
        &&& self.limit() == quota
        &&& forall|parts: &Parts, redact: bool, r: StackedResult| #[trigger]
            self.gives(parts, redact, r) == keyed_by(extractor, parts, redact, r)
        &&& forall|bound: Option<usize>, h: Seq<StackedEvent>| #[trigger]
            self.may_have(bound, h) == can_happen(extractor, quota, bound, h)
        &&& forall|bound: Option<usize>, h: Seq<StackedEvent>, n: nat, top: Seq<(String, u64)>|
            #[trigger]
            self.may_show(bound, h, n, top) == can_show(extractor, quota, bound, h, n, top)
        &&& forall|bound: Option<usize>, h: Seq<StackedEvent>, n: usize| #[trigger]
            self.may_store(bound, h, n) == can_store(extractor, quota, bound, h, n)
    }

    /// A factory for entries of the given extractor.
    pub fn new<E: KeyExtractor>(name: String, quota: Quota, extractor: Arc<E>) -> (f: Self)
        ensures
            f.is_for(name@, quota, *extractor),
    {
        StackFactory { factory: Box::new(TypedStackFactory { name, quota, extractor }) }
    }
}

/// The entry `s` was built by `f` with the given bound.
pub open spec fn built_by(s: Stacked, f: StackFactory, max_keys: Option<usize>) -> bool {
    &&& s.key_bound() == max_keys
    &&& forall|h: Seq<StackedEvent>| #[trigger] s.may_have(h) == f.may_have(max_keys, h)
    &&& forall|h: Seq<StackedEvent>, n: nat, top: Seq<(String, u64)>| #[trigger]
        s.may_show(h, n, top) == f.may_show(max_keys, h, n, top)
    &&& forall|h: Seq<StackedEvent>, n: usize| #[trigger]
        s.may_store(h, n) == f.may_store(max_keys, h, n)
    &&& s.label() == f.label()
    &&& s.limit() == f.limit()
    &&& forall|parts: &Parts, redact: bool, r: StackedResult| #[trigger]
        s.gives(parts, redact, r) == f.gives(parts, redact, r)
}

/// Factory for `StackedEntry<E>`: everything but the limiter.
pub struct TypedStackFactory<E> {
    pub name: String,
    pub quota: Quota,
    pub extractor: Arc<E>,
}

impl<E: KeyExtractor> StackEntryFactory for TypedStackFactory<E> {
    open spec fn factory_label(&self) -> Seq<char> {
        self.name@
    }

    open spec fn factory_limit(&self) -> Quota {
        self.quota
    }

    open spec fn factory_gives(&self, parts: &Parts, redact: bool, r: StackedResult) -> bool {
        keyed_by(*self.extractor, parts, redact, r)
    }

    open spec fn factory_may_have(
        &self,
        max_keys: Option<usize>,
        history: Seq<StackedEvent>,
    ) -> bool {
        can_happen(*self.extractor, self.quota, max_keys, history)
    }

    open spec fn factory_may_show(
        &self,
        max_keys: Option<usize>,
        history: Seq<StackedEvent>,
        n: nat,
        top: Seq<(String, u64)>,
    ) -> bool {
        can_show(*self.extractor, self.quota, max_keys, history, n, top)
    }

    open spec fn factory_may_store(
        &self,
        max_keys: Option<usize>,
        history: Seq<StackedEvent>,
        n: usize,
    ) -> bool {
        can_store(*self.extractor, self.quota, max_keys, history, n)
    }

    fn factory_name(&self) -> (name: &str) {
        self.name.as_str()
    }

    fn factory_quota(&self) -> (q: Quota) {
        self.quota
    }

    fn build(&self, max_keys: Option<usize>) -> (r: Stacked) {
        let entry = StackedEntry::new(
            self.name.clone(),
            self.quota,
            Arc::clone(&self.extractor),
            max_keys,
        );
        Stacked { runner: Box::new(entry) }
    }
}

/// Keys do not use up each other's budget in a stack entry either: a key that is new to its
/// limiter is admitted with the whole burst.
pub proof fn a_key_new_to_an_entry_has_the_whole_burst<K: Hash + Clone + Debug>(
    quota: Quota,
    max_keys: Option<usize>,
    before: EntryModel<K>,
    after: EntryModel<K>,
    o: KeyOutcome<K>,
    redact: bool,
    outcome: CheckOutcome,
    check: StackedCheck,
)
    requires
        crate::tracker::lawful_key::<K>(),
        forall|i: int|
            0 <= i < before.log.len() ==> !crate::limiter::is_check_of(
                #[trigger] before.log[i],
                o.key,
            ),
        counted(quota, max_keys, before, after, o, redact, outcome, check),
    ensures
        check.result == (StackedResult::Admit { remaining: (quota.burst_limit() - 1) as u32 }),
{
    crate::limiter::a_new_key_has_the_whole_burst(quota.burst_limit(), before.log, o.key, outcome);
}

/// Whatever happens to a stack entry, it keeps track of no more keys than its bound allows, and
/// of each only once.
pub proof fn an_entry_keeps_to_its_bound<E: KeyExtractor>(
    e: E,
    quota: Quota,
    max_keys: Option<usize>,
    history: Seq<StackedEvent>,
    models: Seq<EntryModel<E::Key>>,
)
    requires
        traced(e, quota, max_keys, history, models),
        crate::tracker::orderly::<E::Key>(models.last().touches),
    ensures
        models.last().table.len() <= crate::tracker::room(max_keys),
        crate::tracker::distinct_keys(models.last().table),
    decreases history.len(),
{
    if history.len() > 0 {
        let last = history.len() - 1;
        let h = history.drop_last();
        let m = models.drop_last();
        let before = models[last];
        let after = models[last + 1];
        let event = history[last];
        assert(stepped_by(e, quota, max_keys, before, event, after));
        assert(traced(e, quota, max_keys, h, m)) by {
            assert forall|i: int| 0 <= i < h.len() implies stepped_by(
                e,
                quota,
                max_keys,
                m[i],
                #[trigger] h[i],
                m[i + 1],
            ) by {
                assert(h[i] == history[i]);
            }
        }
        assert(m.last() == before);
        if let StackedEvent::Checked { parts, redact, check } = event {
            if check.result !is ExtractionFailed {
                assert(keyed_step(e, quota, max_keys, before, after, &parts, redact, check));
                let (o, c) = choose|o: KeyOutcome<E::Key>, c: CheckOutcome|
                    {
                        &&& e.yields(&parts, Ok(o))
                        &&& #[trigger] counted(
                            quota,
                            max_keys,
                            before,
                            after,
                            o,
                            redact,
                            c,
                            check,
                        )
                    };
                an_entry_keeps_to_its_bound(e, quota, max_keys, h, m);
                crate::tracker::touching_keeps_the_bound(
                    before.table,
                    o.key,
                    crate::tracker::room(max_keys),
                );
            } else {
                an_entry_keeps_to_its_bound(e, quota, max_keys, h, m);
            }
        } else {
            an_entry_keeps_to_its_bound(e, quota, max_keys, h, m);
        }
    }
}

/// An entry says what its limiter said: it admits and rejects the same requests, with the same
/// number left or the same time to wait.
pub proof fn an_entry_says_what_its_limiter_said<K: Hash + Clone + Debug>(
    quota: Quota,
    max_keys: Option<usize>,
    before: EntryModel<K>,
    after: EntryModel<K>,
    o: KeyOutcome<K>,
    redact: bool,
    outcome: CheckOutcome,
    check: StackedCheck,
)
    requires
        counted(quota, max_keys, before, after, o, redact, outcome, check),
    ensures
        after.log.len() > before.log.len(),
        after.log[before.log.len() as int] == LimiterEvent::Checked(o.key, outcome),
        after.log.last() is Swept <==> check.evicted,
        after.log.len() == before.log.len() + (if check.evicted {
            2int
        } else {
            1int
        }),
        after.touches == before.touches + 1,
        check.result is Admit <==> outcome is Admit,
        check.result is Reject <==> outcome is Reject,
        check.result matches StackedResult::Admit { remaining } ==> outcome == (
        CheckOutcome::Admit { remaining }),
        check.result matches StackedResult::Reject { wait, .. } ==> outcome == (
        CheckOutcome::Reject { wait }),
{
}

/// Whatever happened to a stack entry, its limiter has kept to the quota: there are readings
/// of its clock with which everything that it said is what a limiter of the quota says.
pub proof fn an_entry_counts_its_quota<E: KeyExtractor>(
    e: E,
    quota: Quota,
    max_keys: Option<usize>,
    history: Seq<StackedEvent>,
) -> (r: (Seq<EntryModel<E::Key>>, Seq<Reading>))
    requires
        can_happen(e, quota, max_keys, history),
    ensures
        traced(e, quota, max_keys, history, r.0),
        crate::limiter::on_time(
            quota.burst_limit() as nat,
            quota.cell(),
            r.0.last().log,
            r.1,
        ),
{
    let models = choose|models: Seq<EntryModel<E::Key>>|
        {
            &&& #[trigger] traced(e, quota, max_keys, history, models)
            &&& keeps_time(quota, models.last().log)
        };
    let readings = choose|readings: Seq<Reading>| #[trigger]
        crate::limiter::on_time(
            quota.burst_limit() as nat,
            quota.cell(),
            models.last().log,
            readings,
        );
    (models, readings)
}

}
