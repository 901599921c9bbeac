use vstd::prelude::*;

verus! {

/// The seconds the broker waits after a loss before it reconnects.
pub const RECONNECT_DELAY_SECS: u64 = 5;

/// The lifecycle of the upstream connection, as the broker sees it.
#[derive(PartialEq, Eq, Structural, Clone, Copy, Debug)]
pub enum UpstreamState {
    Disconnected,
    Connecting,
    Connected,
    Backoff,
}

/// An event in the broker's inbox. A new subscriber's transport stays with
/// the caller, which files it under the identifier the broker hands out.
pub enum BrokerEvent {
    NewSubscriber,
    Message(Vec<u8>),
    UpstreamConnectionLost,
    Shutdown,
}

/// What the caller does after the broker has taken an event.
pub enum BrokerAction {
    /// Keep the new subscriber's transport under this identifier.
    Register(u64),
    /// No identifier is left: release the new subscriber's transport.
    Refuse,
    /// Write `message` to each of `targets`, in order, then report the
    /// outcomes through `finish_broadcast`.
    Broadcast { targets: Vec<u64>, message: Vec<u8> },
    /// Wait this many seconds, then call `backoff_elapsed` and launch a new
    /// connector if it says so.
    Reconnect { delay_secs: u64 },
    /// Leave the event loop and release every subscriber.
    Stop,
    /// The broker has stopped; the event has no effect.
    Ignore,
}

/// The broker's state in mathematical terms.
pub struct BrokerState {
    pub subscribers: Seq<u64>,
    pub next_id: nat,
    pub upstream: UpstreamState,
    pub running: bool,
}

/// Everything that changes the broker's state.
pub enum Input {
    Start,
    NewSubscriber,
    Message(Seq<u8>),
    UpstreamConnectionLost,
    Shutdown,
    WritesDone(Seq<bool>),
    BackoffElapsed,
}

/// The subscribers of `subs` whose write was `delivered`, in their order.
pub open spec fn kept(subs: Seq<u64>, delivered: Seq<bool>) -> Seq<u64>
    decreases subs.len(),
{
    if subs.len() == 0 || delivered.len() == 0 {
        Seq::empty()
    } else {
        let rest = kept(subs.drop_last(), delivered.drop_last());
        if delivered.last() {
            rest.push(subs.last())
        } else {
            rest
        }
    }
}

impl BrokerState {
    /// Identifiers are unique and below the next one to be handed out.
    pub open spec fn wf(&self) -> bool {
        &&& self.subscribers.no_duplicates()
        &&& forall|i: int| 0 <= i < self.subscribers.len() ==> #[trigger] self.subscribers[i] < self.next_id
    }
}

/// The state after `input`. Events reach a stopped broker without effect.
pub open spec fn step(s: BrokerState, input: Input) -> BrokerState {
    match input {
        Input::Start => if s.upstream == UpstreamState::Disconnected {
            BrokerState { upstream: UpstreamState::Connecting, ..s }
        } else {
            s
        },
        Input::WritesDone(d) => if d.len() == s.subscribers.len() {
            BrokerState { subscribers: kept(s.subscribers, d), ..s }
        } else {
            s
        },
        Input::BackoffElapsed => if s.upstream == UpstreamState::Backoff {
            BrokerState { upstream: UpstreamState::Connecting, ..s }
        } else {
            s
        },
        _ => if !s.running {
            s
        } else {
            match input {
                Input::NewSubscriber => if s.next_id < u64::MAX {
                    BrokerState {
                        subscribers: s.subscribers.push(s.next_id as u64),
                        next_id: s.next_id + 1,
                        ..s
                    }
                } else {
                    s
                },
                Input::Message(_) => if s.upstream == UpstreamState::Connecting {
                    BrokerState { upstream: UpstreamState::Connected, ..s }
                } else {
                    s
                },
                Input::UpstreamConnectionLost => BrokerState { upstream: UpstreamState::Backoff, ..s },
                _ => BrokerState { running: false, ..s },
            }
        },
    }
}

/// The state after each of `inputs` in turn.
pub open spec fn run(s: BrokerState, inputs: Seq<Input>) -> BrokerState
    decreases inputs.len(),
{
    if inputs.len() == 0 {
        s
    } else {
        run(step(s, inputs[0]), inputs.drop_first())
    }
}

/// The input that an event is.
pub open spec fn event_input(e: BrokerEvent) -> Input {
    match e {
        BrokerEvent::NewSubscriber => Input::NewSubscriber,
        BrokerEvent::Message(m) => Input::Message(m@),
        BrokerEvent::UpstreamConnectionLost => Input::UpstreamConnectionLost,
        BrokerEvent::Shutdown => Input::Shutdown,
    }
}

/// A subscriber stays exactly where one of its writes was delivered.
pub proof fn lemma_kept_contains(subs: Seq<u64>, delivered: Seq<bool>, x: u64)
    requires
        subs.len() == delivered.len(),
    ensures
        kept(subs, delivered).contains(x) <==> exists|j: int|
            0 <= j < subs.len() && subs[j] == x && #[trigger] delivered[j],
    decreases subs.len(),
{
    if subs.len() > 0 {
        let s0 = subs.drop_last();
        let d0 = delivered.drop_last();
        lemma_kept_contains(s0, d0, x);
        let n = subs.len() - 1;
        let rest = kept(s0, d0);
        if delivered.last() {
            let r = rest.push(subs.last());
            assert(r[rest.len() as int] == subs[n]);
            if r.contains(x) && x != subs[n] {
                let i = choose|i: int| 0 <= i < r.len() && r[i] == x;
                assert(rest[i] == x);
            }
            if rest.contains(x) {
                let i = choose|i: int| 0 <= i < rest.len() && rest[i] == x;
                assert(r[i] == x);
            }
        }
        if exists|j: int| 0 <= j < s0.len() && s0[j] == x && #[trigger] d0[j] {
            let j = choose|j: int| 0 <= j < s0.len() && s0[j] == x && #[trigger] d0[j];
            assert(subs[j] == x && delivered[j]);
        }
        if exists|j: int| 0 <= j < subs.len() && subs[j] == x && #[trigger] delivered[j] {
            let j = choose|j: int| 0 <= j < subs.len() && subs[j] == x && #[trigger] delivered[j];
            if j < n {
                assert(s0[j] == x && d0[j]);
            } else {
                assert(delivered.last());
            }
        }
    }
}

/// Keeping some subscribers keeps identifiers unique and bounded.
pub proof fn lemma_kept_wf(s: BrokerState, delivered: Seq<bool>)
    requires
        s.wf(),
        s.subscribers.len() == delivered.len(),
    ensures
        (BrokerState { subscribers: kept(s.subscribers, delivered), ..s }).wf(),
    decreases s.subscribers.len(),
{
    let subs = s.subscribers;
    if subs.len() > 0 {
        let s0 = BrokerState { subscribers: subs.drop_last(), ..s };
        let d0 = delivered.drop_last();
        assert(s0.wf()) by {
            assert forall|i: int| 0 <= i < s0.subscribers.len() implies #[trigger] s0.subscribers[i] < s.next_id by {
                assert(s0.subscribers[i] == subs[i]);
            }
        }
        lemma_kept_wf(s0, d0);
        let rest = kept(s0.subscribers, d0);
        if delivered.last() {
            let x = subs.last();
            lemma_kept_contains(s0.subscribers, d0, x);
            assert(!rest.contains(x)) by {
                if rest.contains(x) {
                    let j = choose|j: int| 0 <= j < s0.subscribers.len() && s0.subscribers[j] == x && #[trigger] d0[j];
                    assert(subs[j] == subs[subs.len() - 1]);
                }
            }
            let r = rest.push(x);
            assert forall|i: int, k: int| 0 <= i < r.len() && 0 <= k < r.len() && i != k implies r[i] != r[k] by {
                if i < rest.len() && k < rest.len() {
                    assert(rest[i] != rest[k]);
                } else if i < rest.len() {
                    assert(rest.contains(rest[i]));
                } else {
                    assert(rest.contains(rest[k]));
                }
            }
            assert forall|i: int| 0 <= i < r.len() implies #[trigger] r[i] < s.next_id by {
                if i < rest.len() {
                    assert(rest[i] == r[i]);
                }
            }
        }
    }
}

/// Whether a write that returned `written` (`None` for an error) delivered
/// the message: a write of zero bytes means the subscriber has gone.
pub fn write_delivered(written: Option<usize>) -> (r: bool)
    ensures
        r == (written matches Some(n) && n > 0),
{
    match written {
        Some(n) => n > 0,
        None => false,
    }
}


/// A broadcast's outcome touches each subscriber alone: after the writes of
/// one message, a subscriber stays exactly when its own write was delivered,
/// whatever became of the writes to the others.
pub proof fn lemma_failure_is_isolated(s: BrokerState, delivered: Seq<bool>, k: int)
    requires
        s.wf(),
        delivered.len() == s.subscribers.len(),
        0 <= k < s.subscribers.len(),
    ensures
        step(s, Input::WritesDone(delivered)).subscribers.contains(s.subscribers[k]) == delivered[k],
{
    let x = s.subscribers[k];
    lemma_kept_contains(s.subscribers, delivered, x);
    if step(s, Input::WritesDone(delivered)).subscribers.contains(x) {
        let j = choose|j: int| 0 <= j < s.subscribers.len() && s.subscribers[j] == x && #[trigger] delivered[j];
        assert(j == k);
    }
}

/// Every input keeps identifiers unique and below the next one.
pub proof fn lemma_step_wf(s: BrokerState, input: Input)
    requires
        s.wf(),
    ensures
        step(s, input).wf(),
{
    match input {
        Input::WritesDone(d) => {
            if d.len() == s.subscribers.len() {
                lemma_kept_wf(s, d);
            }
        },
        Input::NewSubscriber => {
            if s.running && s.next_id < u64::MAX {
                let t = step(s, input);
                let n = s.subscribers.len();
                assert forall|i: int, k: int| 0 <= i < t.subscribers.len() && 0 <= k < t.subscribers.len() && i != k
                    implies t.subscribers[i] != t.subscribers[k] by {
                    if i < n && k < n {
                        assert(s.subscribers[i] != s.subscribers[k]);
                    } else if i < n {
                        assert(s.subscribers[i] < s.next_id);
                    } else if k < n {
                        assert(s.subscribers[k] < s.next_id);
                    }
                }
                assert forall|i: int| 0 <= i < t.subscribers.len() implies #[trigger] t.subscribers[i] < t.next_id by {
                    if i < n {
                        assert(s.subscribers[i] < s.next_id);
                    }
                }
            }
        },
        _ => {},
    }
}

/// An identifier that has been handed out and is not in the set stays out
/// of it, whatever comes next.
pub proof fn lemma_absent_stays_absent(s: BrokerState, inputs: Seq<Input>, id: u64)
    requires
        s.wf(),
        id < s.next_id,
        !s.subscribers.contains(id),
    ensures
        !run(s, inputs).subscribers.contains(id),
        run(s, inputs).wf(),
    decreases inputs.len(),
{
    if inputs.len() > 0 {
        let t = step(s, inputs[0]);
        lemma_step_wf(s, inputs[0]);
        match inputs[0] {
            Input::WritesDone(d) => {
                if d.len() == s.subscribers.len() {
                    lemma_kept_contains(s.subscribers, d, id);
                    if t.subscribers.contains(id) {
                        let j = choose|j: int| 0 <= j < s.subscribers.len() && s.subscribers[j] == id && #[trigger] d[j];
                        assert(s.subscribers.contains(id));
                    }
                }
            },
            Input::NewSubscriber => {
                if s.running && s.next_id < u64::MAX {
                    if t.subscribers.contains(id) {
                        let j = choose|j: int| 0 <= j < t.subscribers.len() && t.subscribers[j] == id;
                        if j < s.subscribers.len() {
                            assert(s.subscribers[j] == id);
                        }
                    }
                }
            },
            _ => {},
        }
        lemma_absent_stays_absent(t, inputs.drop_first(), id);
    }
}

/// A subscriber removed after a failed write is in the set of no later state,
/// so no later broadcast targets it.
pub proof fn lemma_removed_subscriber_receives_nothing(
    s: BrokerState,
    delivered: Seq<bool>,
    k: int,
    later: Seq<Input>,
)
    requires
        s.wf(),
        delivered.len() == s.subscribers.len(),
        0 <= k < s.subscribers.len(),
        !delivered[k],
    ensures
        !run(step(s, Input::WritesDone(delivered)), later).subscribers.contains(s.subscribers[k]),
{
    lemma_failure_is_isolated(s, delivered, k);
    lemma_step_wf(s, Input::WritesDone(delivered));
    lemma_absent_stays_absent(step(s, Input::WritesDone(delivered)), later, s.subscribers[k]);
}

/// After a loss the upstream stays in backoff, so that no connector is
/// launched, until the caller reports that the delay has passed.
pub proof fn lemma_backoff_holds_until_elapsed(s: BrokerState, inputs: Seq<Input>)
    requires
        s.upstream == UpstreamState::Backoff,
        forall|i: int| 0 <= i < inputs.len() ==> !(#[trigger] inputs[i] is BackoffElapsed),
    ensures
        run(s, inputs).upstream == UpstreamState::Backoff,
    decreases inputs.len(),
{
    if inputs.len() > 0 {
        let rest = inputs.drop_first();
        assert forall|i: int| 0 <= i < rest.len() implies !(#[trigger] rest[i] is BackoffElapsed) by {
            assert(rest[i] == inputs[i + 1]);
        }
        assert(!(inputs[0] is BackoffElapsed));
        lemma_backoff_holds_until_elapsed(step(s, inputs[0]), rest);
    }
}

/// A broadcast targets each current subscriber once: as many write attempts
/// as there are subscribers, none repeated.
pub proof fn lemma_broadcast_targets_each_subscriber_once(s: BrokerState, e: BrokerEvent, r: BrokerAction)
    requires
        s.wf(),
        s.running,
        e is Message,
        expected_action(s, e, r),
    ensures
        r matches BrokerAction::Broadcast { targets, .. } && targets@.len() == s.subscribers.len()
            && targets@.no_duplicates() && forall|x: u64| targets@.contains(x) <==> s.subscribers.contains(x),
{
}

/// Whether `r` is the action that a broker in state `s` takes on `e`.
pub open spec fn expected_action(s: BrokerState, e: BrokerEvent, r: BrokerAction) -> bool {
    if !s.running {
        r is Ignore
    } else {
        match e {
            BrokerEvent::NewSubscriber => if s.next_id < u64::MAX {
                r == BrokerAction::Register(s.next_id as u64)
            } else {
                r is Refuse
            },
            BrokerEvent::Message(m) => r matches BrokerAction::Broadcast { targets, message }
                && targets@ == s.subscribers && message@ == m@,
            BrokerEvent::UpstreamConnectionLost => r == (BrokerAction::Reconnect { delay_secs: RECONNECT_DELAY_SECS }),
            BrokerEvent::Shutdown => r is Stop,
        }
    }
}

/// The single coordinator: owns the subscriber set and the upstream
/// lifecycle, and takes one event at a time.
pub struct Broker {
    subscribers: Vec<u64>,
    next_id: u64,
    upstream: UpstreamState,
    running: bool,
}

impl View for Broker {
    type V = BrokerState;

    closed spec fn view(&self) -> BrokerState {
        BrokerState {
            subscribers: self.subscribers@,
            next_id: self.next_id as nat,
            upstream: self.upstream,
            running: self.running,
        }
    }
}

/// A copy of `v`, element by element.
fn copy_ids(v: &Vec<u64>) -> (r: Vec<u64>)
    ensures
        r@ == v@,
{
    let mut r: Vec<u64> = Vec::new();
    let mut i: usize = 0;
    while i < v.len()
        invariant
            i <= v@.len(),
            r@ == v@.subrange(0, i as int),
        decreases v@.len() - i,
    {
        r.push(v[i]);
        i = i + 1;
        proof {
            assert(r@ =~= v@.subrange(0, i as int));
        }
    }
    assert(v@.subrange(0, v@.len() as int) =~= v@);
    r
}

impl Broker {
    /// A running broker with no subscriber and no upstream connection.
    pub fn new() -> (r: Broker)
        ensures
            r@ == (BrokerState {
                subscribers: Seq::empty(),
                next_id: 0,
                upstream: UpstreamState::Disconnected,
                running: true,
            }),
            r@.wf(),
    {
        Broker { subscribers: Vec::new(), next_id: 0, upstream: UpstreamState::Disconnected, running: true }
    }

    /// Begins the upstream lifecycle: returns whether the caller is to launch
    /// the first connector, which is so only while disconnected.
    pub fn start(&mut self) -> (r: bool)
        requires
            old(self)@.wf(),
        ensures
            final(self)@.wf(),
            final(self)@ == step(old(self)@, Input::Start),
            r == (old(self)@.upstream == UpstreamState::Disconnected),
    {
        if self.upstream == UpstreamState::Disconnected {
            self.upstream = UpstreamState::Connecting;
            true
        } else {
            false
        }
    }

    /// Takes one event from the inbox and says what the caller is to do.
    pub fn handle(&mut self, event: BrokerEvent) -> (r: BrokerAction)
        requires
            old(self)@.wf(),
        ensures
            final(self)@.wf(),
            final(self)@ == step(old(self)@, event_input(event)),
            expected_action(old(self)@, event, r),
    {
        if !self.running {
            return BrokerAction::Ignore;
        }
        match event {
            BrokerEvent::NewSubscriber => {
                if self.next_id < u64::MAX {
                    let id = self.next_id;
                    self.subscribers.push(id);
                    self.next_id = id + 1;
                    proof {
                        let s = self.subscribers@;
                        assert forall|i: int, k: int| 0 <= i < s.len() && 0 <= k < s.len() && i != k implies s[i] != s[k] by {
                            if i < s.len() - 1 && k < s.len() - 1 {
                                assert(old(self)@.subscribers[i] != old(self)@.subscribers[k]);
                            } else if i < s.len() - 1 {
                                assert(old(self)@.subscribers[i] < id);
                            } else {
                                assert(old(self)@.subscribers[k] < id);
                            }
                        }
                        assert forall|i: int| 0 <= i < s.len() implies #[trigger] s[i] < self.next_id by {
                            if i < s.len() - 1 {
                                assert(old(self)@.subscribers[i] < id);
                            }
                        }
                    }
                    BrokerAction::Register(id)
                } else {
                    BrokerAction::Refuse
                }
            },
            BrokerEvent::Message(message) => {
                if self.upstream == UpstreamState::Connecting {
                    self.upstream = UpstreamState::Connected;
                }
                let targets = copy_ids(&self.subscribers);
                BrokerAction::Broadcast { targets, message }
            },
            BrokerEvent::UpstreamConnectionLost => {
                self.upstream = UpstreamState::Backoff;
                BrokerAction::Reconnect { delay_secs: RECONNECT_DELAY_SECS }
            },
            BrokerEvent::Shutdown => {
                self.running = false;
                BrokerAction::Stop
            },
        }
    }

    /// Takes the outcomes of a broadcast's writes, one per target in the
    /// order the targets were given: a subscriber whose write was not
    /// delivered leaves the set, and every other one stays.
    pub fn finish_broadcast(&mut self, delivered: &Vec<bool>)
        requires
            old(self)@.wf(),
            delivered@.len() == old(self)@.subscribers.len(),
        ensures
            final(self)@.wf(),
            final(self)@ == step(old(self)@, Input::WritesDone(delivered@)),
    {
        let mut remaining: Vec<u64> = Vec::new();
        let mut i: usize = 0;
        while i < self.subscribers.len()
            invariant
                i <= self.subscribers@.len(),
                self.subscribers@.len() == delivered@.len(),
                remaining@ == kept(self.subscribers@.subrange(0, i as int), delivered@.subrange(0, i as int)),
            decreases self.subscribers@.len() - i,
        {
            if delivered[i] {
                remaining.push(self.subscribers[i]);
            }
            i = i + 1;
            proof {
                let s = self.subscribers@.subrange(0, i as int);
                let d = delivered@.subrange(0, i as int);
                assert(s.drop_last() =~= self.subscribers@.subrange(0, i - 1));
                assert(d.drop_last() =~= delivered@.subrange(0, i - 1));
            }
        }
        assert(self.subscribers@.subrange(0, i as int) =~= self.subscribers@);
        assert(delivered@.subrange(0, i as int) =~= delivered@);
        proof {
            lemma_kept_wf(self@, delivered@);
        }
        self.subscribers = remaining;
    }

    /// The reconnect delay has passed: returns whether the caller is to
    /// launch a new connector, which is so only after a loss.
    pub fn backoff_elapsed(&mut self) -> (r: bool)
        requires
            old(self)@.wf(),
        ensures
            final(self)@.wf(),
            final(self)@ == step(old(self)@, Input::BackoffElapsed),
            r == (old(self)@.upstream == UpstreamState::Backoff),
    {
        if self.upstream == UpstreamState::Backoff {
            self.upstream = UpstreamState::Connecting;
            true
        } else {
            false
        }
    }

    /// The identifiers of the current subscribers, in their order.
    pub fn subscribers(&self) -> (r: Vec<u64>)
        ensures
            r@ == self@.subscribers,
    {
        copy_ids(&self.subscribers)
    }

    /// The state of the upstream connection.
    pub fn upstream(&self) -> (r: UpstreamState)
        ensures
            r == self@.upstream,
    {
        self.upstream
    }

    /// Whether the broker still takes events.
    pub fn is_running(&self) -> (r: bool)
        ensures
            r == self@.running,
    {
        self.running
    }
}

} // verus!
