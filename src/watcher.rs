use vstd::prelude::*;
use crossbeam_channel::{Receiver, Sender};
use crate::changes::{
    ChangeState, ChangeView, apply_change, change_key, changes_between, compute_changes,
    copy_change, events_of, keys_distinct,
};
use crate::error::Error;
use crate::pattern::{
    InterestView, KeyPattern, Subscribe, compile_patterns, compiled_from, kind_matches,
    kind_matches_key, patterns_compile, reports_first_invalid, strings_view,
};
use crate::table::{EnvTable, lists_map};

verus! {

/// The sending end of a crossbeam channel, carried without a look inside.
#[verifier::external_type_specification]
#[verifier::external_body]
#[verifier::reject_recursive_types(T)]
pub struct ExSender<T>(crossbeam_channel::Sender<T>);

/// The receiving end of a crossbeam channel, carried without a look inside.
#[verifier::external_type_specification]
#[verifier::external_body]
#[verifier::reject_recursive_types(T)]
pub struct ExReceiver<T>(crossbeam_channel::Receiver<T>);

/// Relies on `crossbeam_channel::unbounded`: a new channel without a
/// capacity bound, as its sending and its receiving end.
#[verifier::external_body]
fn open_channel() -> (Sender<ChangeState>, Receiver<ChangeState>) {
    crossbeam_channel::unbounded()
}

/// Relies on `crossbeam_channel::Sender::send`: `true` where the change was
/// queued, `false` where every receiver of the channel is gone.
#[verifier::external_body]
fn send_change(tx: &Sender<ChangeState>, change: ChangeState) -> bool {
    tx.send(change).is_ok()
}

/// The part of table `t` that a subscription of kind `kind` is interested in.
pub open spec fn restrict_to(t: Map<Seq<char>, Seq<char>>, kind: InterestView) -> Map<
    Seq<char>,
    Seq<char>,
> {
    t.restrict(Set::new(|k: Seq<char>| kind_matches(kind, k)))
}

/// The changes of `s` that a subscription of kind `kind` is interested in,
/// in their order.
pub open spec fn matching_events(s: Seq<ChangeView>, kind: InterestView) -> Seq<ChangeView>
    decreases s.len(),
{
    if s.len() == 0 {
        Seq::empty()
    } else {
        let rest = matching_events(s.drop_last(), kind);
        if kind_matches(kind, change_key(s.last())) {
            rest.push(s.last())
        } else {
            rest
        }
    }
}

/// The kinds of a registry after `kind` was subscribed: a kind already
/// there keeps its place, a new one comes last.
pub open spec fn registered(kinds: Seq<InterestView>, kind: InterestView) -> Seq<InterestView> {
    if kinds.contains(kind) {
        kinds
    } else {
        kinds.push(kind)
    }
}

/// The channels of each kind after a new channel `tx` was subscribed under
/// `kind`: appended to the channels of a kind already there, or as the
/// only channel of a new last entry.
pub open spec fn registered_channels(
    kinds: Seq<InterestView>,
    channels: Seq<Seq<Sender<ChangeState>>>,
    kind: InterestView,
    tx: Sender<ChangeState>,
) -> Seq<Seq<Sender<ChangeState>>> {
    if kinds.contains(kind) {
        let i = choose|i: int| 0 <= i < kinds.len() && kinds[i] == kind;
        channels.update(i, channels[i].push(tx))
    } else {
        channels.push(seq![tx])
    }
}

/// One entry of the registry: a kind of interest, its compiled patterns and
/// the channels that receive its changes.
struct Subscription {
    kind: Subscribe,
    patterns: Vec<KeyPattern>,
    senders: Vec<Sender<ChangeState>>,
}

impl Subscription {
    spec fn wf(&self) -> bool {
        self.kind matches Subscribe::PatternEnvs(ps) ==> compiled_from(
            self.patterns@,
            strings_view(ps@),
        )
    }
}

/// Whether two lists of strings are equal.
fn same_strings(a: &Vec<String>, b: &Vec<String>) -> (r: bool)
    ensures
        r == (strings_view(a@) == strings_view(b@)),
{
    if a.len() != b.len() {
        assert(strings_view(a@).len() != strings_view(b@).len());
        return false;
    }
    let mut i: usize = 0;
    while i < a.len()
        invariant
            a@.len() == b@.len(),
            i <= a@.len(),
            forall|j: int| 0 <= j < i ==> (#[trigger] a@[j])@ == b@[j]@,
        decreases a@.len() - i,
    {
        if a[i] != b[i] {
            assert(strings_view(a@)[i as int] != strings_view(b@)[i as int]);
            return false;
        }
        i = i + 1;
    }
    assert(strings_view(a@) =~= strings_view(b@));
    true
}

/// Whether two kinds of interest are the same.
fn same_kind(a: &Subscribe, b: &Subscribe) -> (r: bool)
    ensures
        r == (a@ == b@),
{
    match (a, b) {
        (Subscribe::All, Subscribe::All) => true,
        (Subscribe::Envs(x), Subscribe::Envs(y)) => same_strings(x, y),
        (Subscribe::PatternEnvs(x), Subscribe::PatternEnvs(y)) => same_strings(x, y),
        _ => false,
    }
}

/// The part of `table` that a subscription of kind `kind`, whose patterns
/// compiled to `patterns`, is interested in.
fn filter_table(table: &EnvTable, kind: &Subscribe, patterns: &Vec<KeyPattern>) -> (r: EnvTable)
    requires
        table.wf(),
        kind matches Subscribe::PatternEnvs(ps) ==> compiled_from(patterns@, strings_view(ps@)),
    ensures
        r.wf(),
        r@ == restrict_to(table@, kind@),
{
    let pairs = table.pairs();
    let mut r = EnvTable::new();
    let mut i: usize = 0;
    while i < pairs.len()
        invariant
            table.wf(),
            lists_map(pairs@, table@),
            kind matches Subscribe::PatternEnvs(ps) ==> compiled_from(patterns@, strings_view(ps@)),
            i <= pairs@.len(),
            r.wf(),
            forall|k: Seq<char>|
                #[trigger] r@.contains_key(k) <==> (kind_matches(kind@, k) && exists|j: int|
                    0 <= j < i && (#[trigger] pairs@[j]).0@ == k),
            forall|k: Seq<char>| #[trigger] r@.contains_key(k) ==> r@[k] == table@[k],
        decreases pairs@.len() - i,
    {
        let (k, v) = &pairs[i];
        if kind_matches_key(kind, patterns, k) {
            r.insert(k.clone(), v.clone());
        }
        proof {
            assert(pairs@[i as int].0@ == k@);
            assert forall|x: Seq<char>| #[trigger] r@.contains_key(x) <==> (kind_matches(kind@, x)
                && exists|j: int| 0 <= j < i + 1 && (#[trigger] pairs@[j]).0@ == x) by {
                if kind_matches(kind@, x) && x != k@ {
                    if exists|j: int| 0 <= j < i + 1 && (#[trigger] pairs@[j]).0@ == x {
                        let j = choose|j: int| 0 <= j < i + 1 && (#[trigger] pairs@[j]).0@ == x;
                        assert(j != i);
                    }
                }
            }
        }
        i = i + 1;
    }
    proof {
        assert(r@ =~= restrict_to(table@, kind@)) by {
            assert forall|k: Seq<char>| #[trigger] table@.contains_key(k) implies exists|j: int|
                0 <= j < pairs@.len() && (#[trigger] pairs@[j]).0@ == k by {}
        }
    }
    r
}

/// The changes of `changes` that a subscription of kind `kind`, whose
/// patterns compiled to `patterns`, is interested in, in their order.
pub fn select_changes(kind: &Subscribe, patterns: &Vec<KeyPattern>, changes: &Vec<ChangeState>) -> (r: Vec<ChangeState>)
    requires
        kind matches Subscribe::PatternEnvs(ps) ==> compiled_from(patterns@, strings_view(ps@)),
    ensures
        events_of(r@) == matching_events(events_of(changes@), kind@),
{
    let mut r: Vec<ChangeState> = Vec::new();
    let mut i: usize = 0;
    while i < changes.len()
        invariant
            kind matches Subscribe::PatternEnvs(ps) ==> compiled_from(patterns@, strings_view(ps@)),
            i <= changes@.len(),
            events_of(r@) == matching_events(events_of(changes@).subrange(0, i as int), kind@),
        decreases changes@.len() - i,
    {
        let c = &changes[i];
        let key = match c {
            ChangeState::Edit(k, _) => k,
            ChangeState::Delete(k) => k,
        };
        let ghost before = events_of(r@);
        let m = kind_matches_key(kind, patterns, key);
        if m {
            r.push(copy_change(c));
        }
        proof {
            let s = events_of(changes@).subrange(0, i + 1);
            assert(s.drop_last() =~= events_of(changes@).subrange(0, i as int));
            assert(s.last() == c@);
            assert(change_key(c@) == key@);
            if m {
                assert(events_of(r@) =~= before.push(c@));
            } else {
                assert(events_of(r@) =~= before);
            }
        }
        i = i + 1;
    }
    assert(events_of(changes@).subrange(0, i as int) =~= events_of(changes@));
    r
}

/// `s` is a prefix of `t`.
pub open spec fn is_prefix(s: Seq<ChangeView>, t: Seq<ChangeView>) -> bool {
    s.len() <= t.len() && t.subrange(0, s.len() as int) == s
}

/// The items of `s` whose flag in `f` is set, in order; an item without a
/// flag is dropped.
pub open spec fn kept<T>(s: Seq<T>, f: Seq<bool>) -> Seq<T>
    decreases s.len(),
{
    if s.len() == 0 {
        Seq::empty()
    } else {
        let rest = kept(s.drop_last(), f);
        if s.len() - 1 < f.len() && f[s.len() - 1] {
            rest.push(s.last())
        } else {
            rest
        }
    }
}

/// How one registry entry came out of a dispatch of the changes `ev`: each
/// of its channels `before` was offered the changes its kind is interested
/// in, `sent` records what was handed to each, `delivered` whether all of
/// it was taken, and `after` keeps the channels that took all of it.
pub open spec fn entry_dispatched(
    before: Seq<Sender<ChangeState>>,
    after: Seq<Sender<ChangeState>>,
    kind: InterestView,
    ev: Seq<ChangeView>,
    delivered: Seq<bool>,
    sent: Seq<Seq<ChangeView>>,
) -> bool {
    &&& delivered.len() == before.len()
    &&& sent.len() == before.len()
    &&& after == kept(before, delivered)
    &&& forall|j: int|
        0 <= j < sent.len() ==> is_prefix(#[trigger] sent[j], matching_events(ev, kind)) && (
        delivered[j] ==> sent[j] == matching_events(ev, kind))
}

/// Sends each change to `tx`, stopping at the first that cannot be sent.
/// Returns whether all were sent, and the changes handed to the channel:
/// a prefix of `changes`, all of it where all were sent.
fn send_all(tx: &Sender<ChangeState>, changes: &Vec<ChangeState>) -> (r: (bool, Ghost<Seq<ChangeView>>))
    ensures
        is_prefix(r.1@, events_of(changes@)),
        r.0 ==> r.1@ == events_of(changes@),
{
    let ghost ev = events_of(changes@);
    let ghost mut sent: Seq<ChangeView> = Seq::empty();
    let mut i: usize = 0;
    while i < changes.len()
        invariant
            ev == events_of(changes@),
            i <= changes@.len(),
            sent == ev.subrange(0, i as int),
        decreases changes@.len() - i,
    {
        let c = copy_change(&changes[i]);
        proof {
            sent = sent.push(c@);
            assert(sent =~= ev.subrange(0, i + 1));
        }
        if !send_change(tx, c) {
            return (false, Ghost(sent));
        }
        i = i + 1;
    }
    assert(sent =~= ev);
    (true, Ghost(sent))
}

/// The channels of `senders` whose flag in `delivered` is set, in order.
pub fn keep_delivered(senders: Vec<Sender<ChangeState>>, delivered: &Vec<bool>) -> (r: Vec<Sender<ChangeState>>)
    ensures
        r@ == kept(senders@, delivered@),
{
    let ghost orig = senders@;
    let n = senders.len();
    let mut pending = senders;
    let mut r: Vec<Sender<ChangeState>> = Vec::new();
    let mut i: usize = 0;
    while pending.len() > 0
        invariant
            i <= orig.len(),
            n == orig.len(),
            pending@ == orig.subrange(i as int, orig.len() as int),
            r@ == kept(orig.subrange(0, i as int), delivered@),
        decreases pending@.len(),
    {
        let tx = pending.remove(0);
        let keep = i < delivered.len() && delivered[i];
        proof {
            let s = orig.subrange(0, i + 1);
            assert(s.drop_last() =~= orig.subrange(0, i as int));
            assert(s.last() == tx);
        }
        if keep {
            r.push(tx);
        }
        i = i + 1;
        assert(pending@ =~= orig.subrange(i as int, orig.len() as int));
    }
    assert(orig.subrange(0, i as int) =~= orig);
    r
}

/// Hands each channel of a subscription the changes it is interested in,
/// and keeps only the channels that took all of them.
fn deliver(sub: &mut Subscription, changes: &Vec<ChangeState>) -> (r: (Ghost<Seq<bool>>, Ghost<Seq<Seq<ChangeView>>>))
    requires
        old(sub).wf(),
    ensures
        final(sub).kind == old(sub).kind,
        final(sub).patterns == old(sub).patterns,
        entry_dispatched(
            old(sub).senders@,
            final(sub).senders@,
            old(sub).kind@,
            events_of(changes@),
            r.0@,
            r.1@,
        ),
{
    let selected = select_changes(&sub.kind, &sub.patterns, changes);
    let ghost wanted = matching_events(events_of(changes@), sub.kind@);
    let mut flags: Vec<bool> = Vec::new();
    let ghost mut logs: Seq<Seq<ChangeView>> = Seq::empty();
    let mut j: usize = 0;
    while j < sub.senders.len()
        invariant
            *sub == *old(sub),
            events_of(selected@) == wanted,
            j <= sub.senders@.len(),
            flags@.len() == j,
            logs.len() == j,
            forall|k: int|
                0 <= k < j ==> is_prefix(#[trigger] logs[k], wanted) && (flags@[k] ==> logs[k]
                    == wanted),
        decreases sub.senders@.len() - j,
    {
        let (ok, sent) = send_all(&sub.senders[j], &selected);
        flags.push(ok);
        proof {
            logs = logs.push(sent@);
        }
        j = j + 1;
    }
    let mut pending: Vec<Sender<ChangeState>> = Vec::new();
    std::mem::swap(&mut pending, &mut sub.senders);
    sub.senders = keep_delivered(pending, &flags);
    (Ghost(flags@), Ghost(logs))
}

/// The watcher's state: the table of the last sample, the registry of
/// subscriptions, and the interval between samples.
pub struct EnvironmentWatcher {
    state: EnvTable,
    registry: Vec<Subscription>,
    interval: u64,
    delivered: Ghost<Seq<Seq<bool>>>,
    sent: Ghost<Seq<Seq<Seq<ChangeView>>>>,
}

impl EnvironmentWatcher {
    /// The table of the last sample.
    pub closed spec fn table(&self) -> Map<Seq<char>, Seq<char>> {
        self.state@
    }

    /// The registered kinds of interest, in the order they were first seen.
    pub closed spec fn kinds(&self) -> Seq<InterestView> {
        self.registry@.map_values(|s: Subscription| s.kind@)
    }

    /// The channels of each registered kind, in the order of `kinds`.
    pub closed spec fn channels(&self) -> Seq<Seq<Sender<ChangeState>>> {
        self.registry@.map_values(|s: Subscription| s.senders@)
    }

    /// For each entry and each of its channels, whether the last dispatch
    /// handed that channel all it was offered.
    pub closed spec fn last_delivered(&self) -> Seq<Seq<bool>> {
        self.delivered@
    }

    /// For each entry and each of its channels, what the last dispatch
    /// handed that channel.
    pub closed spec fn last_sent(&self) -> Seq<Seq<Seq<ChangeView>>> {
        self.sent@
    }

    /// The interval between samples, in milliseconds.
    pub closed spec fn interval(&self) -> u64 {
        self.interval
    }

    /// The watcher is well formed: its table is, each entry's patterns stand
    /// for its kind, and no kind is registered twice.
    pub closed spec fn wf(&self) -> bool {
        &&& self.state.wf()
        &&& forall|i: int| 0 <= i < self.registry@.len() ==> (#[trigger] self.registry@[i]).wf()
        &&& forall|i: int, j: int|
            0 <= i < j < self.registry@.len() ==> (#[trigger] self.registry@[i]).kind@
                != (#[trigger] self.registry@[j]).kind@
    }

    /// A watcher that samples every `interval_ms` milliseconds, starting
    /// from `environment`, with no subscriptions.
    pub fn new(interval_ms: u64, environment: EnvTable) -> (r: EnvironmentWatcher)
        requires
            environment.wf(),
        ensures
            r.wf(),
            r.table() == environment@,
            r.kinds() == Seq::<InterestView>::empty(),
            r.channels() == Seq::<Seq<Sender<ChangeState>>>::empty(),
            r.interval() == interval_ms,
    {
        let r = EnvironmentWatcher {
            state: environment,
            registry: Vec::new(),
            interval: interval_ms,
            delivered: Ghost(Seq::empty()),
            sent: Ghost(Seq::empty()),
        };
        assert(r.kinds() =~= Seq::<InterestView>::empty());
        assert(r.channels() =~= Seq::<Seq<Sender<ChangeState>>>::empty());
        r
    }

    /// The interval between samples, in milliseconds.
    pub fn interval_millis(&self) -> (r: u64)
        ensures
            r == self.interval(),
    {
        self.interval
    }

    /// The number of distinct kinds of interest registered.
    pub fn size(&self) -> (r: usize)
        ensures
            r == self.kinds().len(),
    {
        self.registry.len()
    }

    /// The position of `kind` in the registry.
    fn position_of_kind(&self, kind: &Subscribe) -> (r: Option<usize>)
        ensures
            r is None <==> !self.kinds().contains(kind@),
            r matches Some(i) ==> i < self.kinds().len() && self.kinds()[i as int] == kind@,
    {
        let mut i: usize = 0;
        while i < self.registry.len()
            invariant
                i <= self.registry@.len(),
                forall|j: int| 0 <= j < i ==> (#[trigger] self.registry@[j]).kind@ != kind@,
            decreases self.registry@.len() - i,
        {
            if same_kind(&self.registry[i].kind, kind) {
                assert(self.kinds()[i as int] == kind@);
                return Some(i);
            }
            i = i + 1;
        }
        proof {
            if self.kinds().contains(kind@) {
                let j = choose|j: int| 0 <= j < self.kinds().len() && self.kinds()[j] == kind@;
                assert(self.registry@[j].kind@ == kind@);
            }
        }
        None
    }

    /// Adds `tx` to the channels of `kind`, registering the kind where it is new.
    fn register(&mut self, kind: Subscribe, patterns: Vec<KeyPattern>, tx: Sender<ChangeState>)
        requires
            old(self).wf(),
            kind matches Subscribe::PatternEnvs(ps) ==> compiled_from(patterns@, strings_view(ps@)),
        ensures
            final(self).wf(),
            final(self).table() == old(self).table(),
            final(self).interval() == old(self).interval(),
            final(self).kinds() == registered(old(self).kinds(), kind@),
            final(self).channels() == registered_channels(old(self).kinds(), old(self).channels(), kind@, tx),
    {
        let ghost old_subs = self.registry@;
        match self.position_of_kind(&kind) {
            Some(i) => {
                let mut sub = self.registry.remove(i);
                sub.senders.push(tx);
                self.registry.insert(i, sub);
                proof {
                    assert(self.registry@ =~= old_subs.update(i as int, sub));
                    assert(self.kinds() =~= old(self).kinds());
                    assert(self.channels() =~= old(self).channels().update(
                        i as int,
                        old(self).channels()[i as int].push(tx),
                    ));
                    let c = choose|c: int|
                        0 <= c < old(self).kinds().len() && old(self).kinds()[c] == kind@;
                    if c != i {
                        if c < i {
                            assert(old_subs[c].kind@ != old_subs[i as int].kind@);
                        } else {
                            assert(old_subs[i as int].kind@ != old_subs[c].kind@);
                        }
                    }
                    assert forall|a: int, b: int|
                        0 <= a < b < self.registry@.len() implies (#[trigger] self.registry@[a]).kind@
                        != (#[trigger] self.registry@[b]).kind@ by {
                        assert(old_subs[a].kind@ != old_subs[b].kind@);
                    }
                }
            },
            None => {
                let mut senders: Vec<Sender<ChangeState>> = Vec::new();
                senders.push(tx);
                let sub = Subscription { kind, patterns, senders };
                self.registry.push(sub);
                proof {
                    assert(self.kinds() =~= old(self).kinds().push(sub.kind@));
                    assert(self.channels() =~= old(self).channels().push(seq![tx]));
                    assert forall|a: int, b: int|
                        0 <= a < b < self.registry@.len() implies (#[trigger] self.registry@[a]).kind@
                        != (#[trigger] self.registry@[b]).kind@ by {
                        if b == old_subs.len() {
                            assert(old(self).kinds()[a] == old_subs[a].kind@);
                        } else {
                            assert(old_subs[a].kind@ != old_subs[b].kind@);
                        }
                    }
                }
            },
        }
    }

    /// Subscribes to the variables of kind `subscribe`: the part of the
    /// current table it is interested in, and a channel that receives each
    /// later change of that part. A list of patterns that holds one that
    /// does not compile is refused, and nothing is registered.
    pub fn subscribe(&mut self, subscribe: Subscribe) -> (r: Result<(EnvTable, Receiver<ChangeState>), Error>)
        requires
            old(self).wf(),
        ensures
            final(self).wf(),
            final(self).table() == old(self).table(),
            final(self).interval() == old(self).interval(),
            r is Ok <==> patterns_compile(subscribe@),
            r matches Ok(p) ==> p.0.wf() && p.0@ == restrict_to(old(self).table(), subscribe@)
                && final(self).kinds() == registered(old(self).kinds(), subscribe@),
            r is Ok ==> exists|tx: Sender<ChangeState>|
                final(self).channels() == registered_channels(
                    old(self).kinds(),
                    old(self).channels(),
                    subscribe@,
                    tx,
                ),
            r is Err ==> final(self).kinds() == old(self).kinds() && final(self).channels() == old(
                self,
            ).channels(),
            r matches Err(e) ==> subscribe matches Subscribe::PatternEnvs(ps) && reports_first_invalid(
                strings_view(ps@),
                e,
            ),
    {
        let patterns = match &subscribe {
            Subscribe::PatternEnvs(ps) => match compile_patterns(ps) {
                Ok(v) => v,
                Err(e) => {
                    return Err(e);
                },
            },
            _ => Vec::new(),
        };
        let snapshot = filter_table(&self.state, &subscribe, &patterns);
        let (tx, rx) = open_channel();
        let ghost t = tx;
        self.register(subscribe, patterns, tx);
        assert(self.channels() == registered_channels(
            old(self).kinds(),
            old(self).channels(),
            subscribe@,
            t,
        ));
        Ok((snapshot, rx))
    }

    /// Subscribes as `subscribe` does, and wraps the part of the table in a
    /// snapshot that the changes of the channel keep current.
    pub fn subscribe_snapshot(&mut self, subscribe: Subscribe) -> (r: Result<(EnvironmentData, Receiver<ChangeState>), Error>)
        requires
            old(self).wf(),
        ensures
            final(self).wf(),
            final(self).table() == old(self).table(),
            final(self).interval() == old(self).interval(),
            r is Ok <==> patterns_compile(subscribe@),
            r matches Ok(p) ==> p.0.wf() && p.0@ == restrict_to(old(self).table(), subscribe@)
                && final(self).kinds() == registered(old(self).kinds(), subscribe@),
            r is Ok ==> exists|tx: Sender<ChangeState>|
                final(self).channels() == registered_channels(
                    old(self).kinds(),
                    old(self).channels(),
                    subscribe@,
                    tx,
                ),
            r is Err ==> final(self).kinds() == old(self).kinds() && final(self).channels() == old(
                self,
            ).channels(),
            r matches Err(e) ==> subscribe matches Subscribe::PatternEnvs(ps) && reports_first_invalid(
                strings_view(ps@),
                e,
            ),
    {
        match self.subscribe(subscribe) {
            Ok((table, rx)) => Ok((EnvironmentData::new(table), rx)),
            Err(e) => Err(e),
        }
    }

    /// Hands each channel the changes of `changes` its kind is interested
    /// in, and keeps under each kind only the channels that took all of
    /// them. What each channel was handed, and whether it took all of it,
    /// is recorded in `last_sent` and `last_delivered`.
    pub fn dispatch(&mut self, changes: &Vec<ChangeState>)
        requires
            old(self).wf(),
        ensures
            final(self).wf(),
            final(self).table() == old(self).table(),
            final(self).interval() == old(self).interval(),
            final(self).kinds() == old(self).kinds(),
            final(self).last_delivered().len() == old(self).kinds().len(),
            final(self).last_sent().len() == old(self).kinds().len(),
            forall|i: int|
                0 <= i < old(self).kinds().len() ==> #[trigger] entry_dispatched(
                    old(self).channels()[i],
                    final(self).channels()[i],
                    old(self).kinds()[i],
                    events_of(changes@),
                    final(self).last_delivered()[i],
                    final(self).last_sent()[i],
                ),
    {
        let ghost ev = events_of(changes@);
        let ghost mut dl: Seq<Seq<bool>> = Seq::empty();
        let ghost mut sl: Seq<Seq<Seq<ChangeView>>> = Seq::empty();
        let mut i: usize = 0;
        while i < self.registry.len()
            invariant
                ev == events_of(changes@),
                self.wf(),
                self.table() == old(self).table(),
                self.interval() == old(self).interval(),
                self.kinds() == old(self).kinds(),
                self.channels().len() == old(self).channels().len(),
                i <= self.registry@.len(),
                dl.len() == i,
                sl.len() == i,
                forall|k: int|
                    i <= k < self.registry@.len() ==> #[trigger] self.channels()[k] == old(
                        self,
                    ).channels()[k],
                forall|k: int|
                    0 <= k < i ==> #[trigger] entry_dispatched(
                        old(self).channels()[k],
                        self.channels()[k],
                        old(self).kinds()[k],
                        ev,
                        dl[k],
                        sl[k],
                    ),
            decreases self.registry@.len() - i,
        {
            let ghost before = self.registry@;
            let ghost chans_before = self.channels();
            let mut sub = self.registry.remove(i);
            proof {
                assert(chans_before[i as int] == sub.senders@);
                assert(old(self).kinds()[i as int] == sub.kind@);
            }
            let (d, t) = deliver(&mut sub, changes);
            self.registry.insert(i, sub);
            proof {
                dl = dl.push(d@);
                sl = sl.push(t@);
                assert(self.registry@ =~= before.update(i as int, sub));
                assert(self.kinds() =~= old(self).kinds()) by {
                    assert forall|j: int| 0 <= j < self.registry@.len() implies (#[trigger] self.kinds()[j])
                        == old(self).kinds()[j] by {
                        assert(before.map_values(|s: Subscription| s.kind@)[j] == old(self).kinds()[j]);
                    }
                }
                assert(self.channels() =~= chans_before.update(i as int, sub.senders@));
                assert forall|a: int, b: int|
                    0 <= a < b < self.registry@.len() implies (#[trigger] self.registry@[a]).kind@
                    != (#[trigger] self.registry@[b]).kind@ by {
                    assert(before[a].kind@ != before[b].kind@);
                }
                assert forall|k: int| 0 <= k < i + 1 implies #[trigger] entry_dispatched(
                    old(self).channels()[k],
                    self.channels()[k],
                    old(self).kinds()[k],
                    ev,
                    dl[k],
                    sl[k],
                ) by {
                    if k < i {
                        assert(self.channels()[k] == chans_before[k]);
                    }
                }
            }
            i = i + 1;
        }
        self.delivered = Ghost(dl);
        self.sent = Ghost(sl);
    }

    /// One sampling step: the changes from the last table to `fresh`, each
    /// handed to the subscriptions interested in it; `fresh` becomes the
    /// table of the last sample.
    pub fn tick(&mut self, fresh: EnvTable) -> (r: Vec<ChangeState>)
        requires
            old(self).wf(),
            fresh.wf(),
        ensures
            final(self).wf(),
            final(self).table() == fresh@,
            final(self).interval() == old(self).interval(),
            final(self).kinds() == old(self).kinds(),
            final(self).last_delivered().len() == old(self).kinds().len(),
            final(self).last_sent().len() == old(self).kinds().len(),
            forall|i: int|
                0 <= i < old(self).kinds().len() ==> #[trigger] entry_dispatched(
                    old(self).channels()[i],
                    final(self).channels()[i],
                    old(self).kinds()[i],
                    events_of(r@),
                    final(self).last_delivered()[i],
                    final(self).last_sent()[i],
                ),
            events_of(r@).to_set() == changes_between(old(self).table(), fresh@),
            keys_distinct(events_of(r@)),
            old(self).table() == fresh@ ==> r@.len() == 0,
    {
        let changes = compute_changes(&self.state, &fresh);
        self.dispatch(&changes);
        let ghost mid = *self;
        self.state = fresh;
        assert(self.channels() == mid.channels());
        assert(self.last_delivered() == mid.last_delivered());
        assert(self.last_sent() == mid.last_sent());
        changes
    }
}

impl Default for EnvironmentWatcher {
    /// A watcher that samples every half second, starting from an empty
    /// table, with no subscriptions.
    fn default() -> (r: EnvironmentWatcher)
        ensures
            r.wf(),
            r.table() == Map::<Seq<char>, Seq<char>>::empty(),
            r.kinds() == Seq::<InterestView>::empty(),
            r.channels() == Seq::<Seq<Sender<ChangeState>>>::empty(),
            r.interval() == 500,
    {
        EnvironmentWatcher::new(500, EnvTable::new())
    }
}

/// A snapshot of the variables one subscription is interested in, which
/// the changes of its channel keep current.
pub struct EnvironmentData {
    data: EnvTable,
}

impl View for EnvironmentData {
    type V = Map<Seq<char>, Seq<char>>;

    closed spec fn view(&self) -> Map<Seq<char>, Seq<char>> {
        self.data@
    }
}

impl EnvironmentData {
    /// The snapshot is well formed.
    pub closed spec fn wf(&self) -> bool {
        self.data.wf()
    }

    /// A snapshot that starts from `initial`.
    pub fn new(initial: EnvTable) -> (r: EnvironmentData)
        requires
            initial.wf(),
        ensures
            r.wf(),
            r@ == initial@,
    {
        EnvironmentData { data: initial }
    }

    /// A copy of the snapshot's table.
    pub fn data(&self) -> (r: EnvTable)
        requires
            self.wf(),
        ensures
            r.wf(),
            r@ == self@,
    {
        self.data.duplicate()
    }

    /// Folds one change into the snapshot: an edit stores the value, a
    /// delete takes the key out, and a delete of an absent key does nothing.
    pub fn apply(&mut self, change: ChangeState)
        requires
            old(self).wf(),
        ensures
            final(self).wf(),
            final(self)@ == apply_change(old(self)@, change@),
    {
        match change {
            ChangeState::Edit(k, v) => {
                self.data.insert(k, v);
            },
            ChangeState::Delete(k) => {
                self.data.remove(&k);
            },
        }
    }
}

/// A place for one shared watcher, and whether it was initialised.
pub struct WatcherSlot {
    pub initialized: bool,
    pub watcher: Option<EnvironmentWatcher>,
}

impl WatcherSlot {
    /// An empty place, not initialised.
    pub fn new() -> (r: WatcherSlot)
        ensures
            !r.initialized,
            r.watcher is None,
    {
        WatcherSlot { initialized: false, watcher: None }
    }
}

/// Initialises the shared watcher once. A second call fails with
/// `DoubleInitialWatcher`. Otherwise the watcher is made, from `interval_ms`
/// and `environment`, unless one is already there; where that one has
/// subscribers the call fails with `ReinitializedWithSubscribers`.
pub fn init_env_watcher(slot: &mut WatcherSlot, interval_ms: u64, environment: EnvTable) -> (r: Result<(), Error>)
    requires
        environment.wf(),
        old(slot).watcher matches Some(w) ==> w.wf(),
    ensures
        old(slot).initialized ==> r == Err::<(), Error>(Error::DoubleInitialWatcher) && *final(slot) == *old(slot),
        !old(slot).initialized ==> (final(slot).watcher matches Some(w) && w.wf()
            && (old(slot).watcher matches Some(o) ==> w == o)
            && (old(slot).watcher is None ==> w.table() == environment@ && w.kinds().len() == 0
                && w.interval() == interval_ms)
            && (r is Ok <==> w.kinds().len() == 0)
            && (r is Err ==> r == Err::<(), Error>(Error::ReinitializedWithSubscribers))),
        final(slot).initialized == (old(slot).initialized || r is Ok),
{
    if slot.initialized {
        return Err(Error::DoubleInitialWatcher);
    }
    if slot.watcher.is_none() {
        slot.watcher = Some(EnvironmentWatcher::new(interval_ms, environment));
    }
    let subscribers = match &slot.watcher {
        Some(w) => w.size(),
        None => 0,
    };
    if subscribers > 0 {
        return Err(Error::ReinitializedWithSubscribers);
    }
    slot.initialized = true;
    Ok(())
}

} // verus!
