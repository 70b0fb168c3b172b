//! The queue in front of the one thread that runs Bazel: which arriving
//! message interrupts the running operation, and how a backlog collapses.
//!
//! The thread, its channel and the child processes live with the program;
//! what is decided here is what the queue holds after each step.

use vstd::prelude::*;
use std::collections::VecDeque;
use crate::bazel::{BazelConfig, Version};
use crate::paths::texts;
use crate::text::str_eq;

verus! {

/// What the Bazel thread is asked to do.
#[derive(Debug)]
pub enum Message {
    /// Use a new configuration, probing the Bazel it names.
    Configure(BazelConfig),
    /// Re-read the graph and the repository mapping.
    Refresh,
    /// Run `bazel <verb> <label>`.
    Run { verb: String, label: String },
    Stop,
}

/// The interruptible operation the thread is running.
#[derive(Debug, Clone, Copy, PartialEq, Eq)]
pub enum Operation {
    Probe,
    Refresh,
}

/// Whether `message`, arriving while `operation` runs, makes the running
/// operation's result worthless: a probe only answers to a new configuration
/// or a stop; a refresh to anything at all.
pub open spec fn spec_supersedes(message: Message, operation: Operation) -> bool {
    match operation {
        Operation::Probe => message is Configure || message is Stop,
        Operation::Refresh => message is Configure || message is Refresh || message is Run
            || message is Stop,
    }
}

impl Message {
    /// Whether this message, arriving while `operation` runs, supersedes it.
    pub fn supersedes(&self, operation: Operation) -> (b: bool)
        ensures
            b == spec_supersedes(*self, operation),
    {
        match operation {
            Operation::Probe => matches!(self, Message::Configure(_) | Message::Stop),
            Operation::Refresh => matches!(
                self,
                Message::Configure(_) | Message::Refresh | Message::Run { .. } | Message::Stop
            ),
        }
    }
}

/// The verbs a client may run a target with.
pub fn is_runnable_verb(verb: &str) -> (b: bool)
    ensures
        b == (verb@ == "build"@ || verb@ == "run"@ || verb@ == "test"@),
{
    str_eq(verb, "build") || str_eq(verb, "run") || str_eq(verb, "test")
}

/// The messages that are not refreshes, in order.
pub open spec fn without_refreshes(s: Seq<Message>) -> Seq<Message>
    decreases s.len(),
{
    if s.len() == 0 {
        s
    } else if s.last() is Refresh {
        without_refreshes(s.drop_last())
    } else {
        without_refreshes(s.drop_last()).push(s.last())
    }
}

/// Where the last refresh stands in `s`, or -1 when there is none.
pub open spec fn last_refresh(s: Seq<Message>) -> int
    decreases s.len(),
{
    if s.len() == 0 {
        -1
    } else if s.last() is Refresh {
        s.len() - 1
    } else {
        last_refresh(s.drop_last())
    }
}

/// A backlog with only its last refresh kept: every refresh before it is
/// dropped, and everything else keeps its place around it.
pub open spec fn coalesced(s: Seq<Message>) -> Seq<Message> {
    let k = last_refresh(s);
    if k < 0 {
        s
    } else {
        without_refreshes(s.take(k)) + s.skip(k)
    }
}

/// How many refreshes `s` holds.
pub open spec fn refreshes(s: Seq<Message>) -> int {
    s.len() - without_refreshes(s).len()
}

proof fn lemma_last_refresh_bounds(s: Seq<Message>)
    ensures
        -1 <= last_refresh(s) < s.len(),
        last_refresh(s) >= 0 ==> s[last_refresh(s)] is Refresh,
        forall|j: int| last_refresh(s) < j < s.len() ==> !(#[trigger] s[j] is Refresh),
    decreases s.len(),
{
    if s.len() > 0 && !(s.last() is Refresh) {
        lemma_last_refresh_bounds(s.drop_last());
        assert forall|j: int| last_refresh(s) < j < s.len() implies !(#[trigger] s[j] is Refresh) by {
            if j < s.len() - 1 {
                assert(s[j] == s.drop_last()[j]);
            }
        }
    }
}

proof fn lemma_last_refresh_take(s: Seq<Message>, i: int)
    requires
        0 <= i < s.len(),
    ensures
        last_refresh(s.take(i + 1)) == if s[i] is Refresh {
            i
        } else {
            last_refresh(s.take(i))
        },
{
    assert(s.take(i + 1).drop_last() =~= s.take(i));
    assert(s.take(i + 1).last() == s[i]);
}

proof fn lemma_without_refreshes_len(s: Seq<Message>)
    ensures
        without_refreshes(s).len() <= s.len(),
    decreases s.len(),
{
    if s.len() > 0 {
        lemma_without_refreshes_len(s.drop_last());
    }
}

proof fn lemma_without_refreshes_add(a: Seq<Message>, b: Seq<Message>)
    ensures
        without_refreshes(a + b) == without_refreshes(a) + without_refreshes(b),
    decreases b.len(),
{
    if b.len() == 0 {
        assert(a + b =~= a);
        assert(without_refreshes(a) + without_refreshes(b) =~= without_refreshes(a));
    } else {
        lemma_without_refreshes_add(a, b.drop_last());
        assert((a + b).drop_last() =~= a + b.drop_last());
        assert((a + b).last() == b.last());
        assert(without_refreshes(a) + without_refreshes(b.drop_last()).push(b.last())
            =~= (without_refreshes(a) + without_refreshes(b.drop_last())).push(b.last()));
    }
}

proof fn lemma_without_refreshes_free(s: Seq<Message>)
    requires
        forall|j: int| 0 <= j < s.len() ==> !(#[trigger] s[j] is Refresh),
    ensures
        without_refreshes(s) == s,
    decreases s.len(),
{
    if s.len() > 0 {
        assert forall|j: int| 0 <= j < s.drop_last().len() implies !(
        #[trigger] s.drop_last()[j] is Refresh) by {
            assert(s.drop_last()[j] == s[j]);
        }
        lemma_without_refreshes_free(s.drop_last());
        assert(s.drop_last().push(s.last()) =~= s);
    }
}

proof fn lemma_without_refreshes_idempotent(s: Seq<Message>)
    ensures
        without_refreshes(without_refreshes(s)) == without_refreshes(s),
        forall|j: int|
            0 <= j < without_refreshes(s).len() ==> !(#[trigger] without_refreshes(s)[j] is Refresh),
    decreases s.len(),
{
    if s.len() > 0 {
        lemma_without_refreshes_idempotent(s.drop_last());
        let w = without_refreshes(s.drop_last());
        if !(s.last() is Refresh) {
            assert(w.push(s.last()).drop_last() =~= w);
            assert forall|j: int| 0 <= j < w.push(s.last()).len() implies !(
            #[trigger] w.push(s.last())[j] is Refresh) by {
                if j < w.len() {
                    assert(w.push(s.last())[j] == w[j]);
                }
            }
        }
    }
}

/// Keep only the last refresh in a backlog. Runs stay in order around it.
pub fn coalesce_refreshes(pending: &mut VecDeque<Message>)
    ensures
        final(pending)@ == coalesced(old(pending)@),
{
    let ghost s = pending@;
    let n = pending.len();
    let mut last: usize = n;
    let mut i: usize = 0;
    while i < n
        invariant
            n == s.len(),
            pending@ == s,
            i <= n,
            last == (if last_refresh(s.take(i as int)) < 0 {
                n as int
            } else {
                last_refresh(s.take(i as int))
            }),
        decreases n - i,
    {
        proof {
            lemma_last_refresh_take(s, i as int);
        }
        if matches!(pending[i], Message::Refresh) {
            last = i;
        }
        i = i + 1;
    }
    assert(s.take(n as int) =~= s);
    proof {
        lemma_last_refresh_bounds(s);
    }
    if last == n {
        return;
    }
    let mut j: usize = 0;
    let mut at: usize = 0;
    assert(s.take(0) =~= Seq::<Message>::empty());
    assert(s.skip(0) =~= s);
    while j < last
        invariant
            n == s.len(),
            last < n,
            last == last_refresh(s),
            j <= last,
            at <= j,
            pending@ == without_refreshes(s.take(j as int)) + s.skip(j as int),
            at == without_refreshes(s.take(j as int)).len(),
        decreases last - j,
    {
        let ghost kept = without_refreshes(s.take(j as int));
        assert(pending@[at as int] == s[j as int]);
        assert(s.take(j + 1).drop_last() =~= s.take(j as int));
        assert(s.take(j + 1).last() == s[j as int]);
        if matches!(pending[at], Message::Refresh) {
            let _ = pending.remove(at);
            assert(pending@ =~= kept + s.skip(j + 1));
        } else {
            at = at + 1;
            assert(pending@ =~= kept.push(s[j as int]) + s.skip(j + 1));
        }
        j = j + 1;
    }
}

/// Whether a refresh will follow anyway: one is queued, or a stop ends
/// everything.
pub open spec fn refresh_follows(s: Seq<Message>) -> bool {
    exists|i: int| 0 <= i < s.len() && (#[trigger] s[i] is Refresh || s[i] is Stop)
}

/// A backlog after an interrupted refresh: a refresh queued at its end,
/// unless one will follow anyway.
pub open spec fn preserved(s: Seq<Message>) -> Seq<Message> {
    if refresh_follows(s) {
        s
    } else {
        s.push(Message::Refresh)
    }
}

/// Queue a refresh after an interrupted one, unless one will follow anyway:
/// a refresh is queued already, or a stop ends everything.
pub fn preserve_refresh(pending: &mut VecDeque<Message>)
    ensures
        final(pending)@ == preserved(old(pending)@),
{
    let n = pending.len();
    let mut i: usize = 0;
    while i < n
        invariant
            n == pending@.len(),
            pending@ == old(pending)@,
            i <= n,
            forall|j: int| 0 <= j < i ==> !(#[trigger] pending@[j] is Refresh || pending@[j] is Stop),
        decreases n - i,
    {
        if matches!(pending[i], Message::Refresh | Message::Stop) {
            return;
        }
        i = i + 1;
    }
    pending.push_back(Message::Refresh);
}

/// A backlog after what arrived joins it: only a stop when any message is
/// one, and otherwise everything in order with only the last refresh kept.
pub open spec fn drained(s: Seq<Message>) -> Seq<Message> {
    if exists|i: int| 0 <= i < s.len() && #[trigger] s[i] is Stop {
        seq![Message::Stop]
    } else {
        coalesced(s)
    }
}

/// Whether a backlog holds a stop.
fn holds_stop(pending: &VecDeque<Message>) -> (found: bool)
    ensures
        found == exists|i: int| 0 <= i < pending@.len() && #[trigger] pending@[i] is Stop,
{
    let n = pending.len();
    let mut i: usize = 0;
    while i < n
        invariant
            n == pending@.len(),
            i <= n,
            forall|j: int| 0 <= j < i ==> !(#[trigger] pending@[j] is Stop),
        decreases n - i,
    {
        if matches!(pending[i], Message::Stop) {
            assert(pending@[i as int] is Stop);
            return true;
        }
        i = i + 1;
    }
    false
}

/// Take in what arrived while an operation ran: a stop discards everything
/// else, and a burst of refreshes becomes its last one.
pub fn drain(arrived: VecDeque<Message>, pending: &mut VecDeque<Message>)
    ensures
        final(pending)@ == drained(old(pending)@ + arrived@),
{
    let mut incoming = arrived;
    pending.append(&mut incoming);
    if holds_stop(pending) {
        pending.clear();
        pending.push_back(Message::Stop);
        assert(pending@ =~= seq![Message::Stop]);
        return;
    }
    coalesce_refreshes(pending);
}

/// Coalescing leaves at most one refresh, and exactly one when the backlog
/// held any; every other message keeps its order.
pub proof fn coalescing_keeps_one_refresh(s: Seq<Message>)
    ensures
        refreshes(coalesced(s)) == if refreshes(s) > 0 {
            1int
        } else {
            0int
        },
        without_refreshes(coalesced(s)) == without_refreshes(s),
{
    lemma_last_refresh_bounds(s);
    let k = last_refresh(s);
    if k < 0 {
        lemma_without_refreshes_free(s);
    } else {
        let head = s.take(k);
        let tail = s.skip(k);
        assert(s =~= head + tail);
        let rest = s.skip(k + 1);
        assert(tail =~= seq![s[k]] + rest);
        assert forall|j: int| 0 <= j < rest.len() implies !(#[trigger] rest[j] is Refresh) by {
            assert(rest[j] == s[k + 1 + j]);
        }
        lemma_without_refreshes_free(rest);
        lemma_without_refreshes_add(seq![s[k]], rest);
        assert(seq![s[k]].drop_last() =~= Seq::<Message>::empty());
        assert(without_refreshes(Seq::<Message>::empty()) == Seq::<Message>::empty());
        assert(seq![s[k]].last() == s[k]);
        assert(without_refreshes(seq![s[k]]) =~= Seq::<Message>::empty());
        lemma_without_refreshes_len(head);
        lemma_without_refreshes_add(head, tail);
        lemma_without_refreshes_idempotent(head);
        lemma_without_refreshes_add(without_refreshes(head), tail);
        lemma_without_refreshes_add(seq![s[k]], rest);
    }
}

/// A configuration as plain values: whether Bazel is enabled, the binary,
/// whether the server gets its own output base, and the extra arguments.
pub open spec fn config_view(c: BazelConfig) -> (bool, Seq<char>, bool, Seq<Seq<char>>) {
    (c.enable, c.path@, c.private_output_base, texts(c.args@))
}

/// Whether two configurations say the same thing.
pub fn same_config(a: &BazelConfig, b: &BazelConfig) -> (same: bool)
    ensures
        same == (config_view(*a) == config_view(*b)),
{
    if a.enable != b.enable || a.private_output_base != b.private_output_base || !str_eq(a.path.as_str(), b.path.as_str()) {
        return false;
    }
    if a.args.len() != b.args.len() {
        assert(texts(a.args@).len() != texts(b.args@).len());
        return false;
    }
    let mut i: usize = 0;
    while i < a.args.len()
        invariant
            a.args.len() == b.args.len(),
            i <= a.args.len(),
            forall|j: int| 0 <= j < i ==> (#[trigger] a.args@[j])@ == b.args@[j]@,
        decreases a.args.len() - i,
    {
        if !str_eq(a.args[i].as_str(), b.args[i].as_str()) {
            assert(texts(a.args@)[i as int] != texts(b.args@)[i as int]);
            return false;
        }
        i = i + 1;
    }
    assert(texts(a.args@) =~= texts(b.args@));
    true
}

/// How a probe of a configuration's Bazel ended.
#[derive(Debug, Clone, Copy, PartialEq, Eq)]
pub enum ProbeOutcome {
    /// A message arriving meanwhile made the probe worthless.
    Superseded,
    /// No Bazel answered, or one older than the floor did.
    Failed,
    /// A usable Bazel answered with this release.
    Found(Version),
}

/// How reading Bazel's flag catalog ended.
#[derive(Debug, Clone, Copy, PartialEq, Eq)]
pub enum CatalogOutcome {
    /// A message arriving meanwhile made the reading worthless.
    Superseded,
    /// Bazel could not give its catalog.
    Failed,
    /// The catalog was read.
    Read,
}

/// What the Bazel thread learns between its steps.
#[derive(Debug)]
pub enum ActorEvent {
    /// A message taken from the queue.
    Received(Message),
    /// The probe of `config`'s Bazel ended.
    Probed { config: BazelConfig, outcome: ProbeOutcome },
    /// The reading of the flag catalog ended.
    CatalogRead(CatalogOutcome),
    /// A refresh ended; `superseded` when a message arriving meanwhile made
    /// what it read worthless.
    Refreshed { superseded: bool },
}

/// What the Bazel thread is to do next.
#[derive(Debug)]
pub enum ActorAction {
    /// Stop using the client in use, if any.
    Disconnect,
    /// Forget the graph tier and the repository mapping.
    ClearTiers,
    /// Forget the flag catalog.
    ClearCatalog,
    /// Probe the Bazel that `config` names, with a client made for it.
    Probe(BazelConfig),
    /// Read Bazel's flag catalog with the probed client.
    ReadCatalog,
    /// Keep the catalog that was read.
    StoreCatalog,
    /// Use the probed client from here on.
    Connect,
    /// Re-read the repository mapping and the graph.
    Refresh,
    /// Publish what the refresh read.
    Publish,
    /// Run `bazel <verb> <label>` with the client in use.
    Run { verb: String, label: String },
    /// End the thread.
    Stop,
}

/// What the Bazel thread holds between steps: the configuration it last
/// took, whether a probed client is in use, whether there is a workspace to
/// run Bazel in, and the messages waiting.
pub struct ActorState {
    pub config: Option<BazelConfig>,
    pub connected: bool,
    pub has_root: bool,
    pub pending: VecDeque<Message>,
}

/// The thread's state as plain values.
pub struct ActorView {
    pub config: Option<BazelConfig>,
    pub connected: bool,
    pub has_root: bool,
    pub pending: Seq<Message>,
}

impl View for ActorState {
    type V = ActorView;

    open spec fn view(&self) -> ActorView {
        ActorView { config: self.config, connected: self.connected, has_root: self.has_root, pending: self.pending@ }
    }
}

/// Whether `next` changes nothing: it says what the configuration in use
/// says, and either a client is in use or `next` disables Bazel anyway.
pub open spec fn is_current(s: ActorView, next: BazelConfig) -> bool {
    &&& s.config matches Some(c) && config_view(c) == config_view(next)
    &&& s.connected || !next.enable
}

/// Whether Bazel's flag catalog is read for a release: it is described
/// for Bazel 8.7 only.
pub open spec fn reads_catalog(v: Version) -> bool {
    v.major == 8 && v.minor == 7
}

/// The state once a probed client is in use: connected, and a refresh
/// queued after what waits, only the last refresh kept.
pub open spec fn connected_view(s: ActorView) -> ActorView {
    ActorView { config: s.config, connected: true, has_root: s.has_root, pending: coalesced(s.pending.push(Message::Refresh)) }
}

/// One step of the Bazel thread: the state after `event`, and what to do.
///
/// A stop ends the thread. A configuration that changes nothing is
/// ignored; any other drops the client and clears the tiers and the
/// catalog, then probes the Bazel it names (without a workspace it is
/// only taken). A refresh clears the tiers and, with a client, reads them
/// again; a run uses the client, and without one nothing happens. A probe
/// that found Bazel 8.7 reads the flag catalog first; once the client is
/// in use a refresh follows. A superseded probe or reading changes
/// nothing; a superseded refresh is queued again unless one will follow.
pub open spec fn spec_actor_step(s: ActorView, event: ActorEvent) -> (ActorView, Seq<ActorAction>) {
    match event {
        ActorEvent::Received(message) => match message {
            Message::Stop => (s, seq![ActorAction::Stop]),
            Message::Configure(next) => if is_current(s, next) {
                (s, Seq::empty())
            } else if !s.has_root || !next.enable {
                (
                    ActorView { config: Some(next), connected: false, has_root: s.has_root, pending: s.pending },
                    seq![ActorAction::Disconnect, ActorAction::ClearTiers, ActorAction::ClearCatalog],
                )
            } else {
                (
                    ActorView { config: s.config, connected: false, has_root: s.has_root, pending: s.pending },
                    seq![ActorAction::Disconnect, ActorAction::ClearTiers, ActorAction::ClearCatalog, ActorAction::Probe(next)],
                )
            },
            Message::Refresh => if s.connected {
                (s, seq![ActorAction::ClearTiers, ActorAction::Refresh])
            } else {
                (s, seq![ActorAction::ClearTiers])
            },
            Message::Run { verb, label } => if s.connected {
                (s, seq![ActorAction::Run { verb, label }])
            } else {
                (s, Seq::empty())
            },
        },
        ActorEvent::Probed { config, outcome } => match outcome {
            ProbeOutcome::Superseded => (s, Seq::empty()),
            ProbeOutcome::Failed => (
                ActorView { config: Some(config), connected: false, has_root: s.has_root, pending: s.pending },
                Seq::empty(),
            ),
            ProbeOutcome::Found(v) => {
                let taken = ActorView { config: Some(config), connected: false, has_root: s.has_root, pending: s.pending };
                if reads_catalog(v) {
                    (taken, seq![ActorAction::ReadCatalog])
                } else {
                    (connected_view(taken), seq![ActorAction::Connect])
                }
            },
        },
        ActorEvent::CatalogRead(outcome) => match outcome {
            CatalogOutcome::Superseded => (s, Seq::empty()),
            CatalogOutcome::Failed => (connected_view(s), seq![ActorAction::Connect]),
            CatalogOutcome::Read => (connected_view(s), seq![ActorAction::StoreCatalog, ActorAction::Connect]),
        },
        ActorEvent::Refreshed { superseded } => if superseded {
            (ActorView { config: s.config, connected: s.connected, has_root: s.has_root, pending: preserved(s.pending) }, Seq::empty())
        } else {
            (s, seq![ActorAction::Publish])
        },
    }
}

impl ActorState {
    /// A thread that has taken no configuration yet; `has_root` says
    /// whether there is a workspace to run Bazel in.
    pub fn new(has_root: bool) -> (state: Self)
        ensures
            state@.config is None,
            !state@.connected,
            state@.has_root == has_root,
            state@.pending.len() == 0,
    {
        ActorState { config: None, connected: false, has_root, pending: VecDeque::new() }
    }

    /// The next waiting message, taken off the queue.
    pub fn next_pending(&mut self) -> (message: Option<Message>)
        ensures
            (match message {
                Some(m) => old(self)@.pending.len() > 0 && m == old(self)@.pending[0]
                    && final(self)@.pending == old(self)@.pending.drop_first(),
                None => old(self)@.pending.len() == 0 && final(self)@.pending == old(self)@.pending,
            }),
            final(self)@.config == old(self)@.config,
            final(self)@.connected == old(self)@.connected,
            final(self)@.has_root == old(self)@.has_root,
    {
        self.pending.pop_front()
    }

    /// Whether `next` changes nothing.
    fn is_current(&self, next: &BazelConfig) -> (b: bool)
        ensures
            b == is_current(self@, *next),
    {
        let same = match &self.config {
            Some(c) => same_config(c, next),
            None => false,
        };
        same && (self.connected || !next.enable)
    }

    /// The client is in use: a refresh follows what waits.
    fn connect(&mut self)
        ensures
            final(self)@ == connected_view(old(self)@),
    {
        self.connected = true;
        self.pending.push_back(Message::Refresh);
        coalesce_refreshes(&mut self.pending);
    }

    /// Take one step: change the state as `event` asks and say what to do.
    pub fn step(&mut self, event: ActorEvent) -> (actions: Vec<ActorAction>)
        ensures
            final(self)@ == spec_actor_step(old(self)@, event).0,
            actions@ == spec_actor_step(old(self)@, event).1,
    {
        match event {
            ActorEvent::Received(message) => match message {
                Message::Stop => vec![ActorAction::Stop],
                Message::Configure(next) => {
                    if self.is_current(&next) {
                        return Vec::new();
                    }
                    self.connected = false;
                    if !self.has_root || !next.enable {
                        self.config = Some(next);
                        vec![ActorAction::Disconnect, ActorAction::ClearTiers, ActorAction::ClearCatalog]
                    } else {
                        vec![ActorAction::Disconnect, ActorAction::ClearTiers, ActorAction::ClearCatalog, ActorAction::Probe(next)]
                    }
                },
                Message::Refresh => {
                    if self.connected {
                        vec![ActorAction::ClearTiers, ActorAction::Refresh]
                    } else {
                        vec![ActorAction::ClearTiers]
                    }
                },
                Message::Run { verb, label } => {
                    if self.connected {
                        vec![ActorAction::Run { verb, label }]
                    } else {
                        Vec::new()
                    }
                },
            },
            ActorEvent::Probed { config, outcome } => match outcome {
                ProbeOutcome::Superseded => Vec::new(),
                ProbeOutcome::Failed => {
                    self.config = Some(config);
                    self.connected = false;
                    Vec::new()
                },
                ProbeOutcome::Found(v) => {
                    self.config = Some(config);
                    self.connected = false;
                    if v.major == 8 && v.minor == 7 {
                        vec![ActorAction::ReadCatalog]
                    } else {
                        self.connect();
                        vec![ActorAction::Connect]
                    }
                },
            },
            ActorEvent::CatalogRead(outcome) => match outcome {
                CatalogOutcome::Superseded => Vec::new(),
                CatalogOutcome::Failed => {
                    self.connect();
                    vec![ActorAction::Connect]
                },
                CatalogOutcome::Read => {
                    self.connect();
                    vec![ActorAction::StoreCatalog, ActorAction::Connect]
                },
            },
            ActorEvent::Refreshed { superseded } => {
                if superseded {
                    preserve_refresh(&mut self.pending);
                    Vec::new()
                } else {
                    vec![ActorAction::Publish]
                }
            },
        }
    }
}

/// Where a refresh is followed by none, it is the last refresh.
proof fn lemma_last_refresh_at(s: Seq<Message>, k: int)
    requires
        0 <= k < s.len(),
        s[k] is Refresh,
        forall|j: int| k < j < s.len() ==> !(#[trigger] s[j] is Refresh),
    ensures
        last_refresh(s) == k,
    decreases s.len(),
{
    if s.len() - 1 > k {
        assert(!(s.last() is Refresh));
        assert forall|j: int| k < j < s.drop_last().len() implies !(#[trigger] s.drop_last()[j] is Refresh) by {
            assert(s.drop_last()[j] == s[j]);
        }
        lemma_last_refresh_at(s.drop_last(), k);
    }
}

/// Coalescing a backlog twice is coalescing it once: what is left holds
/// one refresh at most, and nothing before it is a refresh.
pub proof fn coalescing_twice_changes_nothing(s: Seq<Message>)
    ensures
        coalesced(coalesced(s)) == coalesced(s),
{
    lemma_last_refresh_bounds(s);
    let k = last_refresh(s);
    if k >= 0 {
        let w = without_refreshes(s.take(k));
        let c = coalesced(s);
        lemma_without_refreshes_idempotent(s.take(k));
        assert(c == w + s.skip(k));
        assert(c[w.len() as int] == s[k]);
        assert forall|j: int| w.len() < j < c.len() implies !(#[trigger] c[j] is Refresh) by {
            assert(c[j] == s[k + (j - w.len())]);
        }
        lemma_last_refresh_at(c, w.len() as int);
        assert(c.take(w.len() as int) =~= w);
        assert(c.skip(w.len() as int) =~= s.skip(k));
    }
}

/// A configuration that changes nothing is ignored: no state changes and
/// nothing is done.
pub proof fn an_identical_configuration_is_ignored(s: ActorView, next: BazelConfig)
    requires
        is_current(s, next),
    ensures
        spec_actor_step(s, ActorEvent::Received(Message::Configure(next))).0 == s,
        spec_actor_step(s, ActorEvent::Received(Message::Configure(next))).1.len() == 0,
{
}

/// Any other configuration drops the client and clears the tiers and the
/// catalog before anything else; in a workspace it then probes the Bazel
/// it names, when that is enabled, and otherwise it is taken as it is.
pub proof fn a_new_configuration_clears_then_probes(s: ActorView, next: BazelConfig)
    requires
        !is_current(s, next),
    ensures
        ({
            let (after, actions) = spec_actor_step(s, ActorEvent::Received(Message::Configure(next)));
            &&& !after.connected
            &&& after.pending == s.pending
            &&& actions[0] is Disconnect && actions[1] is ClearTiers && actions[2] is ClearCatalog
            &&& s.has_root && next.enable ==> actions.len() == 4 && actions[3] == ActorAction::Probe(next)
                && after.config == s.config
            &&& !(s.has_root && next.enable) ==> actions.len() == 3 && after.config == Some(next)
        }),
{
}

/// A disabled configuration never runs Bazel: taking it asks for no probe
/// and leaves no client in use.
pub proof fn a_disabled_configuration_runs_nothing(s: ActorView, next: BazelConfig)
    requires
        !next.enable,
    ensures
        ({
            let (after, actions) = spec_actor_step(s, ActorEvent::Received(Message::Configure(next)));
            &&& forall|i: int| 0 <= i < actions.len() ==> !(#[trigger] actions[i] is Probe)
            &&& (after.connected ==> after == s)
        }),
{
}

/// Without a client in use, a run does nothing and a refresh only clears
/// the tiers.
pub proof fn without_a_client_nothing_runs(s: ActorView, verb: String, label: String)
    requires
        !s.connected,
    ensures
        spec_actor_step(s, ActorEvent::Received(Message::Run { verb, label })) == (s, Seq::<ActorAction>::empty()),
        spec_actor_step(s, ActorEvent::Received(Message::Refresh)).0 == s,
        spec_actor_step(s, ActorEvent::Received(Message::Refresh)).1 == seq![ActorAction::ClearTiers],
{
}

/// A stop ends the thread and changes nothing else.
pub proof fn a_stop_ends_the_thread(s: ActorView)
    ensures
        spec_actor_step(s, ActorEvent::Received(Message::Stop)) == (s, seq![ActorAction::Stop]),
{
}

/// Once a probed client is in use a refresh waits, and exactly one.
pub proof fn a_connected_thread_refreshes_once(s: ActorView)
    ensures
        refreshes(connected_view(s).pending) == 1,
{
    let p = s.pending.push(Message::Refresh);
    coalescing_keeps_one_refresh(p);
    lemma_without_refreshes_len(s.pending);
    assert(p.drop_last() =~= s.pending);
    assert(refreshes(p) > 0);
}

/// Work that a newer message made worthless changes nothing: a superseded
/// probe or catalog reading leaves the state as it was and asks for
/// nothing.
pub proof fn superseded_work_changes_nothing(s: ActorView, config: BazelConfig)
    ensures
        spec_actor_step(s, ActorEvent::Probed { config, outcome: ProbeOutcome::Superseded }) == (
            s,
            Seq::<ActorAction>::empty(),
        ),
        spec_actor_step(s, ActorEvent::CatalogRead(CatalogOutcome::Superseded)) == (s, Seq::<ActorAction>::empty()),
{
}

/// An interrupted refresh is not lost: afterwards a refresh or a stop
/// waits, nothing is done, and the only change is a refresh queued at the
/// end when none was waiting.
pub proof fn an_interrupted_refresh_is_not_lost(s: ActorView)
    ensures
        ({
            let (after, actions) = spec_actor_step(s, ActorEvent::Refreshed { superseded: true });
            &&& actions.len() == 0
            &&& after.config == s.config && after.connected == s.connected && after.has_root == s.has_root
            &&& refresh_follows(after.pending)
            &&& after.pending == s.pending || after.pending == s.pending.push(Message::Refresh)
        }),
{
    let p = s.pending.push(Message::Refresh);
    if !refresh_follows(s.pending) {
        assert(p[p.len() - 1] is Refresh);
    }
}

/// What arrives while work runs joins the backlog thus: a stop anywhere
/// leaves only the stop; otherwise at most one refresh is left, and every
/// other message keeps its order.
pub proof fn a_drained_backlog_keeps_what_matters(s: Seq<Message>)
    ensures
        (exists|i: int| 0 <= i < s.len() && #[trigger] s[i] is Stop) ==> drained(s) == seq![Message::Stop],
        !(exists|i: int| 0 <= i < s.len() && #[trigger] s[i] is Stop) ==> refreshes(drained(s)) <= 1
            && without_refreshes(drained(s)) == without_refreshes(s),
{
    coalescing_keeps_one_refresh(s);
}

} // verus!
