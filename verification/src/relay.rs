//! Relay decisions: duplicate-suppressed forwarding between two endpoints,
//! per-direction counters, broker-event handling and the session lifecycle.
//!
//! The loops that read from and write to sockets live outside the library;
//! they hand every received frame (and every polled broker event) to the
//! functions here and perform the returned decision.  One tracker is shared
//! by both directions of a bridge, so a frame forwarded one way is also
//! suppressed when it echoes back the other way.

use vstd::prelude::*;

use crate::dupdet::MAX_SEEN_MESSAGES;
use crate::dupdet::MessageTracker;
use crate::dupdet::hash_binary_message;
use crate::dupdet::sip_hash_of;
use crate::dupdet::tracker_run;
use crate::dupdet::tracker_step;

verus! {

/// The fingerprints of a run of frames, in arrival order.
pub open spec fn fingerprints(frames: Seq<Seq<u8>>) -> Seq<u64> {
    frames.map_values(|f: Seq<u8>| sip_hash_of(f))
}

/// The frames a direction forwards when `frames` arrive with fingerprints
/// `hs` at a tracker holding `seen`: each frame whose fingerprint is not
/// resident at its arrival is forwarded, in arrival order, and recorded; a
/// resident fingerprint is dropped.
pub open spec fn forwarded_frames(
    seen: Seq<u64>,
    frames: Seq<Seq<u8>>,
    hs: Seq<u64>,
    cap: nat,
) -> Seq<Seq<u8>>
    recommends
        hs.len() == frames.len(),
    decreases frames.len(),
{
    if frames.len() == 0 || hs.len() == 0 {
        Seq::<Seq<u8>>::empty()
    } else {
        let rest = forwarded_frames(
            tracker_step(seen, hs[0], cap),
            frames.drop_first(),
            hs.drop_first(),
            cap,
        );
        if seen.contains(hs[0]) {
            rest
        } else {
            seq![frames[0]] + rest
        }
    }
}

/// Monotonic per-direction forwarding counters, read for operator telemetry.
#[derive(Clone, Copy, PartialEq, Eq, Structural, Debug)]
pub struct RelayStats {
    /// Frames forwarded from the first endpoint to the second.
    pub a_to_b: u64,
    /// Frames forwarded from the second endpoint to the first.
    pub b_to_a: u64,
}

/// The forwarding core of a two-endpoint bridge: a shared duplicate tracker
/// and one counter per direction.  Frames are never decrypted here — the
/// bridge is content-oblivious and fingerprints the raw bytes.
pub struct Bridge {
    tracker: MessageTracker,
    forwarded_a_to_b: u64,
    forwarded_b_to_a: u64,
}

impl Bridge {
    /// The fingerprints currently resident, oldest first.
    pub closed spec fn seen(&self) -> Seq<u64> {
        self.tracker@
    }

    /// The bound on resident fingerprints.
    pub closed spec fn capacity(&self) -> nat {
        self.tracker.capacity()
    }

    /// Frames forwarded from the first endpoint to the second.
    pub closed spec fn count_a_to_b(&self) -> u64 {
        self.forwarded_a_to_b
    }

    /// Frames forwarded from the second endpoint to the first.
    pub closed spec fn count_b_to_a(&self) -> u64 {
        self.forwarded_b_to_a
    }

    /// The resident fingerprints are distinct and within the capacity.
    pub open spec fn wf(&self) -> bool {
        self.seen().no_duplicates() && self.seen().len() <= self.capacity()
    }

    /// Creates a fresh bridge with an empty tracker and zeroed counters.
    pub fn new() -> (bridge: Self)
        ensures
            bridge.seen() == Seq::<u64>::empty(),
            bridge.capacity() == MAX_SEEN_MESSAGES,
            bridge.count_a_to_b() == 0,
            bridge.count_b_to_a() == 0,
            bridge.wf(),
    {
        Bridge { tracker: MessageTracker::new(), forwarded_a_to_b: 0, forwarded_b_to_a: 0 }
    }

    /// Decides whether a frame read from the first endpoint is forwarded to
    /// the second: yes exactly when its fingerprint is not yet resident.  The
    /// shared tracker takes one `tracker_step`, and the direction's counter
    /// counts the forwarded frame.
    pub fn handle_a_to_b(&mut self, frame: &[u8]) -> (forward: bool)
        requires
            old(self).wf(),
            old(self).count_a_to_b() < u64::MAX,
        ensures
            final(self).wf(),
            final(self).capacity() == old(self).capacity(),
            forward == !old(self).seen().contains(sip_hash_of(frame@)),
            final(self).seen() == tracker_step(
                old(self).seen(),
                sip_hash_of(frame@),
                old(self).capacity(),
            ),
            final(self).count_a_to_b() == old(self).count_a_to_b() + (if forward {
                1int
            } else {
                0int
            }),
            final(self).count_b_to_a() == old(self).count_b_to_a(),
    {
        let fingerprint = hash_binary_message(frame);
        let duplicate = self.tracker.is_duplicate(fingerprint);
        if !duplicate {
            self.forwarded_a_to_b = self.forwarded_a_to_b + 1;
        }
        !duplicate
    }

    /// The mirror of [`Bridge::handle_a_to_b`] for frames read from the
    /// second endpoint.
    pub fn handle_b_to_a(&mut self, frame: &[u8]) -> (forward: bool)
        requires
            old(self).wf(),
            old(self).count_b_to_a() < u64::MAX,
        ensures
            final(self).wf(),
            final(self).capacity() == old(self).capacity(),
            forward == !old(self).seen().contains(sip_hash_of(frame@)),
            final(self).seen() == tracker_step(
                old(self).seen(),
                sip_hash_of(frame@),
                old(self).capacity(),
            ),
            final(self).count_b_to_a() == old(self).count_b_to_a() + (if forward {
                1int
            } else {
                0int
            }),
            final(self).count_a_to_b() == old(self).count_a_to_b(),
    {
        let fingerprint = hash_binary_message(frame);
        let duplicate = self.tracker.is_duplicate(fingerprint);
        if !duplicate {
            self.forwarded_b_to_a = self.forwarded_b_to_a + 1;
        }
        !duplicate
    }

    /// Runs a whole sequence of frames arriving on the first endpoint
    /// through the bridge and returns, in arrival order, exactly the frames
    /// the second endpoint receives.
    pub fn forward_batch_a_to_b(&mut self, frames: &Vec<Vec<u8>>) -> (out: Vec<Vec<u8>>)
        requires
            old(self).wf(),
            old(self).count_a_to_b() + frames@.len() <= u64::MAX,
        ensures
            final(self).wf(),
            final(self).capacity() == old(self).capacity(),
            out@.map_values(|v: Vec<u8>| v@) == forwarded_frames(
                old(self).seen(),
                frames@.map_values(|v: Vec<u8>| v@),
                fingerprints(frames@.map_values(|v: Vec<u8>| v@)),
                old(self).capacity(),
            ),
            final(self).seen() == tracker_run(
                old(self).seen(),
                fingerprints(frames@.map_values(|v: Vec<u8>| v@)),
                old(self).capacity(),
            ),
            final(self).count_a_to_b() == old(self).count_a_to_b() + out@.len(),
            final(self).count_b_to_a() == old(self).count_b_to_a(),
    {
        let ghost seen0 = self.seen();
        let ghost count0 = self.count_a_to_b();
        let ghost cap = self.capacity();
        let ghost views = frames@.map_values(|v: Vec<u8>| v@);
        let mut out: Vec<Vec<u8>> = Vec::new();
        let mut i: usize = 0;
        while i < frames.len()
            invariant
                0 <= i <= frames@.len(),
                views == frames@.map_values(|v: Vec<u8>| v@),
                self.wf(),
                self.capacity() == cap,
                self.count_a_to_b() == count0 + out@.len(),
                self.count_b_to_a() == old(self).count_b_to_a(),
                count0 + frames@.len() <= u64::MAX,
                out@.len() <= i,
                self.seen() == tracker_run(seen0, fingerprints(views.take(i as int)), cap),
                out@.map_values(|v: Vec<u8>| v@) == forwarded_frames(
                    seen0,
                    views.take(i as int),
                    fingerprints(views.take(i as int)),
                    cap,
                ),
            decreases frames@.len() - i,
        {
            let frame = &frames[i];
            let ghost prev_out = out@;
            let forward = self.handle_a_to_b(frame.as_slice());
            if forward {
                out.push(clone_bytes(frame));
            }
            proof {
                let pre = views.take(i as int);
                let post = views.take(i + 1);
                assert(views[i as int] == frames@[i as int]@);
                assert(post =~= pre.push(frame@));
                assert(fingerprints(post) =~= fingerprints(pre).push(sip_hash_of(frame@)));
                lemma_tracker_run_snoc(seen0, fingerprints(pre), sip_hash_of(frame@), cap);
                lemma_forwarded_snoc(seen0, pre, fingerprints(pre), frame@, sip_hash_of(frame@), cap);
                if forward {
                    assert(out@.map_values(|v: Vec<u8>| v@) =~= prev_out.map_values(
                        |v: Vec<u8>| v@,
                    ).push(frame@));
                    assert(forwarded_frames(seen0, post, fingerprints(post), cap)
                        =~= forwarded_frames(seen0, pre, fingerprints(pre), cap) + seq![frame@]);
                    assert(out@.map_values(|v: Vec<u8>| v@) =~= forwarded_frames(
                        seen0,
                        post,
                        fingerprints(post),
                        cap,
                    ));
                } else {
                    assert(forwarded_frames(seen0, post, fingerprints(post), cap)
                        =~= forwarded_frames(seen0, pre, fingerprints(pre), cap));
                }
            }
            i = i + 1;
        }
        proof {
            assert(views.take(frames@.len() as int) =~= views);
        }
        out
    }

    /// Reads both counters for display.
    pub fn stats(&self) -> (stats: RelayStats)
        ensures
            stats.a_to_b == self.count_a_to_b(),
            stats.b_to_a == self.count_b_to_a(),
    {
        RelayStats { a_to_b: self.forwarded_a_to_b, b_to_a: self.forwarded_b_to_a }
    }
}

/// Copies a byte vector.
fn clone_bytes(data: &Vec<u8>) -> (out: Vec<u8>)
    ensures
        out@ == data@,
{
    let mut out: Vec<u8> = Vec::new();
    let mut i: usize = 0;
    while i < data.len()
        invariant
            0 <= i <= data@.len(),
            out@ == data@.take(i as int),
        decreases data@.len() - i,
    {
        out.push(data[i]);
        proof {
            assert(data@.take(i + 1) =~= data@.take(i as int).push(data@[i as int]));
        }
        i = i + 1;
    }
    proof {
        assert(data@.take(data@.len() as int) =~= data@);
    }
    out
}

/// Folding one more fingerprint into a run steps the tracker once more.
proof fn lemma_tracker_run_snoc(seen: Seq<u64>, hs: Seq<u64>, h: u64, cap: nat)
    ensures
        tracker_run(seen, hs.push(h), cap) == tracker_step(tracker_run(seen, hs, cap), h, cap),
    decreases hs.len(),
{
    let ph = hs.push(h);
    if hs.len() == 0 {
        assert(ph[0] == h);
        assert(ph.drop_first() =~= Seq::<u64>::empty());
        let s1 = tracker_step(seen, h, cap);
        assert(tracker_run(seen, ph, cap) == tracker_run(s1, ph.drop_first(), cap));
        assert(tracker_run(s1, ph.drop_first(), cap) == s1);
        assert(tracker_run(seen, hs, cap) == seen);
    } else {
        assert(ph[0] == hs[0]);
        assert(ph.drop_first() =~= hs.drop_first().push(h));
        let s1 = tracker_step(seen, hs[0], cap);
        assert(tracker_run(seen, ph, cap) == tracker_run(s1, ph.drop_first(), cap));
        lemma_tracker_run_snoc(s1, hs.drop_first(), h, cap);
        assert(tracker_run(seen, hs, cap) == tracker_run(s1, hs.drop_first(), cap));
    }
}

/// One more arriving frame is appended to the forwarded run exactly when its
/// fingerprint is not resident after the frames before it.
proof fn lemma_forwarded_snoc(
    seen: Seq<u64>,
    frames: Seq<Seq<u8>>,
    hs: Seq<u64>,
    f: Seq<u8>,
    h: u64,
    cap: nat,
)
    requires
        hs.len() == frames.len(),
    ensures
        forwarded_frames(seen, frames.push(f), hs.push(h), cap) == forwarded_frames(
            seen,
            frames,
            hs,
            cap,
        ) + (if tracker_run(seen, hs, cap).contains(h) {
            Seq::<Seq<u8>>::empty()
        } else {
            seq![f]
        }),
    decreases frames.len(),
{
    let pf = frames.push(f);
    let ph = hs.push(h);
    let extra = if tracker_run(seen, hs, cap).contains(h) {
        Seq::<Seq<u8>>::empty()
    } else {
        seq![f]
    };
    if frames.len() == 0 {
        assert(pf[0] == f);
        assert(ph[0] == h);
        assert(pf.drop_first() =~= Seq::<Seq<u8>>::empty());
        assert(ph.drop_first() =~= Seq::<u64>::empty());
        let s1 = tracker_step(seen, h, cap);
        assert(forwarded_frames(s1, pf.drop_first(), ph.drop_first(), cap) == Seq::<
            Seq<u8>,
        >::empty());
        assert(forwarded_frames(seen, frames, hs, cap) == Seq::<Seq<u8>>::empty());
        assert(tracker_run(seen, hs, cap) == seen);
        if seen.contains(h) {
            assert(forwarded_frames(seen, pf, ph, cap) =~= forwarded_frames(seen, frames, hs, cap)
                + extra);
        } else {
            assert(forwarded_frames(seen, pf, ph, cap) == seq![f] + Seq::<Seq<u8>>::empty());
            assert(forwarded_frames(seen, pf, ph, cap) =~= forwarded_frames(seen, frames, hs, cap)
                + extra);
        }
    } else {
        assert(pf[0] == frames[0]);
        assert(ph[0] == hs[0]);
        assert(pf.drop_first() =~= frames.drop_first().push(f));
        assert(ph.drop_first() =~= hs.drop_first().push(h));
        let s1 = tracker_step(seen, hs[0], cap);
        lemma_forwarded_snoc(s1, frames.drop_first(), hs.drop_first(), f, h, cap);
        let tail_old = forwarded_frames(s1, frames.drop_first(), hs.drop_first(), cap);
        let tail_new = forwarded_frames(
            s1,
            frames.drop_first().push(f),
            hs.drop_first().push(h),
            cap,
        );
        assert(tracker_run(seen, hs, cap) == tracker_run(s1, hs.drop_first(), cap));
        assert(tail_new == tail_old + extra);
        assert(forwarded_frames(seen, pf, ph, cap) == (if seen.contains(hs[0]) {
            tail_new
        } else {
            seq![frames[0]] + tail_new
        }));
        assert(forwarded_frames(seen, frames, hs, cap) == (if seen.contains(hs[0]) {
            tail_old
        } else {
            seq![frames[0]] + tail_old
        }));
        if seen.contains(hs[0]) {
        } else {
            assert(seq![frames[0]] + (tail_old + extra) =~= (seq![frames[0]] + tail_old) + extra);
        }
    }
}

/// Bridge forwarding: frames `[f1, f1, f2]` arriving on one side of a fresh
/// bridge, with fingerprints `[h1, h1, h2]` and `h1 != h2`, are forwarded as
/// exactly `[f1, f2]` — the repeat is dropped and order is kept — so the
/// direction's counter reads 2.
pub proof fn lemma_bridge_forwarding(f1: Seq<u8>, f2: Seq<u8>, h1: u64, h2: u64, cap: nat)
    requires
        h1 != h2,
        cap >= 2,
    ensures
        forwarded_frames(
            Seq::<u64>::empty(),
            seq![f1, f1, f2],
            seq![h1, h1, h2],
            cap,
        ) == seq![f1, f2],
        forwarded_frames(Seq::<u64>::empty(), seq![f1, f1, f2], seq![h1, h1, h2], cap).len() == 2,
{
    let s0 = Seq::<u64>::empty();
    let frames = seq![f1, f1, f2];
    let hs = seq![h1, h1, h2];
    assert(!s0.contains(h1));
    let s1 = tracker_step(s0, h1, cap);
    assert(s0.push(h1) =~= seq![h1]);
    assert(s1 == seq![h1]);
    assert(s1.contains(h1)) by {
        assert(s1[0] == h1);
    }
    let s2 = tracker_step(s1, h1, cap);
    assert(s2 == s1);
    assert(!s1.contains(h2)) by {
        if s1.contains(h2) {
            let i = choose|i: int| 0 <= i < s1.len() && s1[i] == h2;
            assert(s1[i] == h1);
        }
    }
    assert(frames.drop_first() =~= seq![f1, f2]);
    assert(hs.drop_first() =~= seq![h1, h2]);
    assert(seq![f1, f2].drop_first() =~= seq![f2]);
    assert(seq![h1, h2].drop_first() =~= seq![h2]);
    assert(seq![f2].drop_first() =~= Seq::<Seq<u8>>::empty());
    assert(seq![h2].drop_first() =~= Seq::<u64>::empty());
    let s3 = tracker_step(s2, h2, cap);
    assert(forwarded_frames(s3, Seq::<Seq<u8>>::empty(), Seq::<u64>::empty(), cap) == Seq::<
        Seq<u8>,
    >::empty());
    assert(forwarded_frames(s2, seq![f2], seq![h2], cap) == seq![f2] + Seq::<Seq<u8>>::empty());
    assert(forwarded_frames(s1, seq![f1, f2], seq![h1, h2], cap) == forwarded_frames(
        s2,
        seq![f2],
        seq![h2],
        cap,
    ));
    assert(forwarded_frames(s0, frames, hs, cap) == seq![f1] + forwarded_frames(
        s1,
        seq![f1, f2],
        seq![h1, h2],
        cap,
    ));
    assert(seq![f1] + (seq![f2] + Seq::<Seq<u8>>::empty()) =~= seq![f1, f2]);
    assert(forwarded_frames(s0, frames, hs, cap) == seq![f1, f2]);
}

/// One event from the broker client's polled event loop, as the relay core
/// sees it.
pub enum BrokerEvent {
    /// The broker acknowledged the session.
    SessionAck,
    /// A publish arrived on the subscribed topic, carrying its payload.
    Inbound(Vec<u8>),
    /// The broker reported a disconnect.
    Disconnected,
    /// Any other incoming packet or outgoing echo; needs no action.
    Quiet,
    /// Polling the event loop failed.
    PollFailure,
}

/// What the relay does in response to one polled broker event.
pub enum BrokerAction {
    /// Send the payload to the peer connection as a binary frame.
    ForwardToPeer(Vec<u8>),
    /// Sleep for the fixed backoff delay, then poll again; recoverable.
    BackOff,
    /// Nothing to do; poll again.
    Ignore,
}

/// Decides the action for one broker event while relaying: a publish on the
/// subscribed topic is forwarded to the peer; a disconnect or a poll error
/// backs off and retries, never ending the session; everything else is
/// ignored.
pub fn broker_poll_action(event: BrokerEvent) -> (action: BrokerAction)
    ensures
        match event {
            BrokerEvent::Inbound(payload) => action == BrokerAction::ForwardToPeer(payload),
            BrokerEvent::Disconnected => action == BrokerAction::BackOff,
            BrokerEvent::PollFailure => action == BrokerAction::BackOff,
            BrokerEvent::SessionAck => action == BrokerAction::Ignore,
            BrokerEvent::Quiet => action == BrokerAction::Ignore,
        },
{
    match event {
        BrokerEvent::Inbound(payload) => BrokerAction::ForwardToPeer(payload),
        BrokerEvent::Disconnected => BrokerAction::BackOff,
        BrokerEvent::PollFailure => BrokerAction::BackOff,
        BrokerEvent::SessionAck => BrokerAction::Ignore,
        BrokerEvent::Quiet => BrokerAction::Ignore,
    }
}

/// Polls allowed to fail while waiting for the broker to acknowledge the
/// session.
pub const MAX_CONNECT_ATTEMPTS: u32 = 3;

/// How the connect handshake proceeds after one poll.
#[derive(Clone, Copy, PartialEq, Eq, Structural, Debug)]
pub enum ConnectDecision {
    /// The acknowledgement arrived; the session is up.
    Established,
    /// Something else arrived; poll again at once.
    KeepWaiting,
    /// The poll failed; sleep the fixed delay and poll again.
    RetryAfterDelay,
    /// The poll failed and the attempts are spent; establishing failed.
    GiveUp,
}

/// Decides the next step of the connect handshake after one poll: the
/// acknowledgement establishes the session; any other successful poll keeps
/// waiting without consuming an attempt; a failed poll consumes one attempt
/// and retries after the fixed delay until the attempts are spent.
pub fn connect_poll_step(event: &BrokerEvent, attempts: u32) -> (next: (ConnectDecision, u32))
    requires
        attempts < MAX_CONNECT_ATTEMPTS,
    ensures
        next.1 <= MAX_CONNECT_ATTEMPTS,
        match event {
            BrokerEvent::SessionAck => next == (ConnectDecision::Established, attempts),
            BrokerEvent::PollFailure => next.1 == attempts + 1 && next.0 == (if attempts + 1
                < MAX_CONNECT_ATTEMPTS {
                ConnectDecision::RetryAfterDelay
            } else {
                ConnectDecision::GiveUp
            }),
            _ => next == (ConnectDecision::KeepWaiting, attempts),
        },
{
    match event {
        BrokerEvent::SessionAck => (ConnectDecision::Established, attempts),
        BrokerEvent::PollFailure => {
            let tried = attempts + 1;
            if tried < MAX_CONNECT_ATTEMPTS {
                (ConnectDecision::RetryAfterDelay, tried)
            } else {
                (ConnectDecision::GiveUp, tried)
            }
        },
        _ => (ConnectDecision::KeepWaiting, attempts),
    }
}

/// The lifecycle of a relay session.
#[derive(Clone, Copy, PartialEq, Eq, Structural, Debug)]
pub enum SessionState {
    /// Opening the two endpoints.
    Connecting,
    /// Sending one authentication control message per endpoint.
    Authenticating,
    /// Both forwarding loops run.
    Relaying,
    /// Cancelling remaining loops and sending the close notification.
    Draining,
    /// Over; a new session requires a fresh instance.
    Closed,
}

/// An event that drives the session lifecycle.
#[derive(Clone, Copy, PartialEq, Eq, Structural, Debug)]
pub enum SessionEvent {
    /// All endpoints are connected.
    Connected,
    /// The authentication control messages are out.
    Authenticated,
    /// A forwarding loop ended: connection loss or write failure.
    LoopEnded,
    /// An external interrupt asked the session to stop.
    Interrupted,
    /// Remaining loops are cancelled and the close notification is out.
    Drained,
}

/// The session lifecycle: `Connecting → Authenticating → Relaying →
/// Draining → Closed`.  A loop ending or an interrupt drains any live
/// session; nothing leaves `Closed`.
pub open spec fn session_next(state: SessionState, event: SessionEvent) -> SessionState {
    match state {
        SessionState::Connecting => match event {
            SessionEvent::Connected => SessionState::Authenticating,
            SessionEvent::LoopEnded => SessionState::Draining,
            SessionEvent::Interrupted => SessionState::Draining,
            _ => SessionState::Connecting,
        },
        SessionState::Authenticating => match event {
            SessionEvent::Authenticated => SessionState::Relaying,
            SessionEvent::LoopEnded => SessionState::Draining,
            SessionEvent::Interrupted => SessionState::Draining,
            _ => SessionState::Authenticating,
        },
        SessionState::Relaying => match event {
            SessionEvent::LoopEnded => SessionState::Draining,
            SessionEvent::Interrupted => SessionState::Draining,
            _ => SessionState::Relaying,
        },
        SessionState::Draining => match event {
            SessionEvent::Drained => SessionState::Closed,
            _ => SessionState::Draining,
        },
        SessionState::Closed => SessionState::Closed,
    }
}

/// Advances the session lifecycle by one event.
pub fn session_advance(state: SessionState, event: SessionEvent) -> (next: SessionState)
    ensures
        next == session_next(state, event),
{
    match state {
        SessionState::Connecting => match event {
            SessionEvent::Connected => SessionState::Authenticating,
            SessionEvent::LoopEnded => SessionState::Draining,
            SessionEvent::Interrupted => SessionState::Draining,
            _ => SessionState::Connecting,
        },
        SessionState::Authenticating => match event {
            SessionEvent::Authenticated => SessionState::Relaying,
            SessionEvent::LoopEnded => SessionState::Draining,
            SessionEvent::Interrupted => SessionState::Draining,
            _ => SessionState::Authenticating,
        },
        SessionState::Relaying => match event {
            SessionEvent::LoopEnded => SessionState::Draining,
            SessionEvent::Interrupted => SessionState::Draining,
            _ => SessionState::Relaying,
        },
        SessionState::Draining => match event {
            SessionEvent::Drained => SessionState::Closed,
            _ => SessionState::Draining,
        },
        SessionState::Closed => SessionState::Closed,
    }
}

/// How far along its lifecycle a session is.
pub open spec fn session_rank(state: SessionState) -> int {
    match state {
        SessionState::Connecting => 0,
        SessionState::Authenticating => 1,
        SessionState::Relaying => 2,
        SessionState::Draining => 3,
        SessionState::Closed => 4,
    }
}

/// The lifecycle only moves forward: no event returns a session to an
/// earlier state, and nothing leaves `Closed`.
pub proof fn lemma_session_monotone(state: SessionState, event: SessionEvent)
    ensures
        session_rank(session_next(state, event)) >= session_rank(state),
        state is Closed ==> session_next(state, event) == state,
{
}

} // verus!
