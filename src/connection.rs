use vstd::prelude::*;

use crate::ack::{ack_records, decode_ack_records, mark_after, AckRecord, AckState, AckTracker};
use crate::compound::{compound_step, CompoundCollector, CompoundState};
use crate::error::{Error, ErrorKind};
use crate::frame::{batch_valid, decode_batch, frames_at, u24_le, Frame, FrameView};
use crate::order::{frames_view, order_step, OrderChannel, OrderState};

verus! {

/// Number of order channels of a connection, as both peers understand it.
pub const CHANNEL_COUNT: usize = 32;

/// First byte of an acknowledgment datagram.
pub const ACK_ID: u8 = 0xc0;

/// First byte of a negative-acknowledgment datagram.
pub const NAK_ID: u8 = 0xa0;

/// Caps that a connection is built with.
pub struct ConnectionConfig {
    /// Most compounds that may be pending at once.
    pub max_pending_compounds: usize,
    /// Most fragments that one compound may have.
    pub max_compound_size: u32,
}

/// Abstract state of a connection.
pub struct ConnView {
    pub open: bool,
    /// The handshake has completed.
    pub connected: bool,
    pub compounds: CompoundState,
    pub channels: Seq<OrderState>,
    pub acks: AckState,
}

/// The tracker after batch `seq` was recorded as received.
pub open spec fn ack_recorded(a: AckState, seq: u32) -> AckState {
    AckState {
        highest: mark_after(a.highest, seq![seq]),
        pending: if a.pending.contains(seq) {
            a.pending
        } else {
            a.pending.push(seq)
        },
    }
}

/// Bodies of frames, in order.
pub open spec fn bodies(fs: Seq<FrameView>) -> Seq<Seq<u8>> {
    fs.map_values(|f: FrameView| f.body)
}

/// The order stage: an ordered or sequenced frame goes through its channel;
/// any other frame is delivered as it is.
pub open spec fn order_stage(c: ConnView, g: FrameView) -> Result<(ConnView, Seq<Seq<u8>>), ErrorKind> {
    if g.reliability.spec_is_ordered() || g.reliability.spec_is_sequenced() {
        let ch = g.order_channel as int;
        if ch >= c.channels.len() {
            Err(ErrorKind::Malformed)
        } else {
            match order_step(c.channels[ch], g) {
                None => Err(ErrorKind::ResourceExceeded),
                Some((st, out)) => Ok((ConnView { channels: c.channels.update(ch, st), ..c }, bodies(out))),
            }
        }
    } else {
        Ok((c, seq![g.body]))
    }
}

/// Effect of one frame of batch `batch`, arriving at time `now`, on an open
/// connection: the next state and the payloads delivered, in order; or the
/// error kind.
pub open spec fn frame_step(c: ConnView, f: FrameView, batch: u32, now: u64) -> Result<(ConnView, Seq<Seq<u8>>), ErrorKind> {
    if f.reliability.spec_is_sequenced() && f.sequence_index < c.acks.highest {
        Ok((c, Seq::empty()))
    } else {
        let c1 = if f.reliability.spec_is_reliable() {
            ConnView { acks: ack_recorded(c.acks, batch), ..c }
        } else {
            c
        };
        if f.is_compound {
            match compound_step(c1.compounds, f, now) {
                Err(k) => Err(k),
                Ok((p, None)) => Ok((ConnView { compounds: CompoundState { pending: p, ..c1.compounds }, ..c1 }, Seq::empty())),
                Ok((p, Some(body))) => order_stage(
                    ConnView { compounds: CompoundState { pending: p, ..c1.compounds }, ..c1 },
                    FrameView { is_compound: false, body, ..f },
                ),
            }
        } else {
            order_stage(c1, f)
        }
    }
}

/// Effect of the frames `fs` of batch `batch`, in wire order; the first
/// error stops the run.
pub open spec fn frames_step(c: ConnView, fs: Seq<FrameView>, batch: u32, now: u64) -> Result<(ConnView, Seq<Seq<u8>>), ErrorKind>
    decreases fs.len(),
{
    if fs.len() == 0 {
        Ok((c, Seq::empty()))
    } else {
        match frames_step(c, fs.drop_last(), batch, now) {
            Err(k) => Err(k),
            Ok((c1, o1)) => match frame_step(c1, fs.last(), batch, now) {
                Err(k) => Err(k),
                Ok((c2, o2)) => Ok((c2, o1 + o2)),
            },
        }
    }
}

/// Effect of a batch datagram on an open connection: the batch number
/// raises the high-water mark, then each frame runs through the pipeline.
pub open spec fn batch_step(c: ConnView, s: Seq<u8>, now: u64) -> Result<(ConnView, Seq<Seq<u8>>), ErrorKind> {
    if !batch_valid(s) {
        Err(ErrorKind::Malformed)
    } else {
        let seq = u24_le(s, 1) as u32;
        let c1 = ConnView { acks: AckState { highest: mark_after(c.acks.highest, seq![seq]), ..c.acks }, ..c };
        frames_step(c1, frames_at(s, 4), seq, now)
    }
}

/// What to do with a delivered payload.
#[derive(Debug, Copy, Clone, PartialEq, Eq, Structural)]
pub enum PayloadAction {
    /// Hand it to the session layer.
    Forward,
    /// Answer it on the send path (a connection request or a ping).
    Respond,
    /// The handshake completed with it.
    Accept,
    /// Drop it: game data before the handshake completed.
    Reject,
    /// The peer left: the connection is now closed.
    Close,
    /// Drop it: the connection is closed.
    Ignore,
}

/// Effect of a payload of kind `k` on a connection that is `open` and, once
/// its handshake completed, `connected`: whether it is then open and
/// connected, and the action to take.
pub open spec fn payload_step(open: bool, connected: bool, k: PayloadKind) -> (bool, bool, PayloadAction) {
    if !open {
        (open, connected, PayloadAction::Ignore)
    } else {
        match k {
            PayloadKind::Disconnect => (false, false, PayloadAction::Close),
            PayloadKind::ConnectionRequest => (open, connected, PayloadAction::Respond),
            PayloadKind::ConnectedPing => (open, connected, PayloadAction::Respond),
            PayloadKind::NewIncomingConnection => if connected {
                (open, connected, PayloadAction::Respond)
            } else {
                (open, true, PayloadAction::Accept)
            },
            PayloadKind::Game => if connected {
                (open, connected, PayloadAction::Forward)
            } else {
                (open, connected, PayloadAction::Reject)
            },
        }
    }
}

/// What a datagram gave.
#[derive(Debug)]
pub enum Received {
    /// Application payloads released by a batch, in delivery order.
    Payloads(Vec<Vec<u8>>),
    /// Batches that the peer acknowledged, for the send path to forget.
    Ack(Vec<AckRecord>),
    /// Batches that the peer reports missing, for the send path to send
    /// again under the sequence numbers they first went out with.
    Nak(Vec<AckRecord>),
}

/// Lifecycle of a connection.
#[derive(Debug, Copy, Clone, PartialEq, Eq, Structural)]
pub enum ConnectionState {
    Handshaking,
    Connected,
    Closed,
}

/// The receive side of one connection: compound collector, order channels
/// and acknowledgment tracker, driven by incoming datagrams.
pub struct Connection {
    state: ConnectionState,
    compounds: CompoundCollector,
    channels: Vec<OrderChannel>,
    acks: AckTracker,
}

impl View for Connection {
    type V = ConnView;

    closed spec fn view(&self) -> ConnView {
        ConnView {
            open: self.state != ConnectionState::Closed,
            connected: self.state == ConnectionState::Connected,
            compounds: self.compounds@,
            channels: self.channels@.map_values(|c: OrderChannel| c@),
            acks: self.acks@,
        }
    }
}


/// Once a step of a run fails, the run fails with it.
proof fn lemma_steps_stop(c: ConnView, all: Seq<FrameView>, n: int, batch: u32, now: u64)
    requires
        0 < n <= all.len(),
        frames_step(c, all.take(n), batch, now) is Err,
    ensures
        frames_step(c, all, batch, now) == frames_step(c, all.take(n), batch, now),
    decreases all.len() - n,
{
    if n < all.len() {
        assert(all.take(n + 1).drop_last() =~= all.take(n));
        lemma_steps_stop(c, all, n + 1, batch, now);
    } else {
        assert(all.take(n) =~= all);
    }
}

/// Abstract value of a list of payloads.
pub open spec fn payloads_view(v: Seq<Vec<u8>>) -> Seq<Seq<u8>> {
    v.map_values(|b: Vec<u8>| b@)
}

proof fn lemma_payloads_view(v: Seq<Vec<u8>>)
    ensures
        payloads_view(v).len() == v.len(),
        forall|j: int| 0 <= j < v.len() ==> #[trigger] payloads_view(v)[j] == v[j]@,
{
}

proof fn lemma_channels_view(v: Seq<OrderChannel>)
    ensures
        channels_view(v).len() == v.len(),
        forall|j: int| 0 <= j < v.len() ==> #[trigger] channels_view(v)[j] == v[j]@,
{
}

/// Abstract value of a list of order channels.
pub open spec fn channels_view(v: Seq<OrderChannel>) -> Seq<OrderState> {
    v.map_values(|c: OrderChannel| c@)
}

/// Moves the bodies out of `fs`, in order.
fn take_bodies(fs: Vec<Frame>) -> (r: Vec<Vec<u8>>)
    ensures
        payloads_view(r@) == bodies(frames_view(fs@)),
{
    let ghost all = frames_view(fs@);
    let mut rest = fs;
    let mut r: Vec<Vec<u8>> = Vec::new();
    proof {
        assert(frames_view(rest@) =~= all.skip(0));
        assert(payloads_view(r@) =~= bodies(all).take(0));
    }
    while rest.len() > 0
        invariant
            all.len() == r@.len() + rest@.len(),
            frames_view(rest@) == all.skip(r@.len() as int),
            payloads_view(r@) == bodies(all).take(r@.len() as int),
        decreases rest@.len(),
    {
        let ghost prev = rest@;
        let ghost rprev = r@;
        let f = rest.remove(0);
        proof {
            assert(frames_view(prev)[0] == f@);
        }
        r.push(f.body);
        proof {
            lemma_payloads_view(rprev);
            lemma_payloads_view(r@);
            assert(rest@ =~= prev.subrange(1, prev.len() as int));
            assert forall|j: int| 0 <= j < rest@.len() implies frames_view(rest@)[j] == all.skip(
                r@.len() as int,
            )[j] by {
                assert(rest@[j] == prev[j + 1]);
                assert(frames_view(prev)[j + 1] == all.skip(rprev.len() as int)[j + 1]);
            }
            assert(frames_view(rest@) =~= all.skip(r@.len() as int));
            assert forall|j: int| 0 <= j < r@.len() implies payloads_view(r@)[j] == bodies(all).take(
                r@.len() as int,
            )[j] by {
                if j < rprev.len() {
                    assert(payloads_view(r@)[j] == payloads_view(rprev)[j]);
                }
            }
            assert(payloads_view(r@) =~= bodies(all).take(r@.len() as int));
        }
    }
    assert(bodies(all).take(all.len() as int) =~= bodies(all));
    r
}

impl Connection {
    pub closed spec fn wf(&self) -> bool {
        &&& self.compounds.wf()
        &&& self.acks.wf()
        &&& self.channels@.len() == CHANNEL_COUNT
        &&& forall|i: int| 0 <= i < self.channels@.len() ==> (#[trigger] self.channels@[i]).wf()
    }

    /// A connection in its handshake with nothing received yet.
    pub fn new(config: ConnectionConfig) -> (r: Connection)
        requires
            config.max_pending_compounds < usize::MAX,
        ensures
            r.wf(),
            r@.open,
            !r@.connected,
            r@.compounds.pending.len() == 0,
            r@.compounds.max_pending == config.max_pending_compounds,
            r@.compounds.max_size == config.max_compound_size,
            r@.channels.len() == CHANNEL_COUNT,
            forall|i: int| 0 <= i < CHANNEL_COUNT ==> crate::order::order_state_fresh(#[trigger] r@.channels[i]),
            r@.acks.highest == 0,
            r@.acks.pending.len() == 0,
    {
        let mut channels: Vec<OrderChannel> = Vec::new();
        while channels.len() < CHANNEL_COUNT
            invariant
                channels@.len() <= CHANNEL_COUNT,
                forall|i: int| 0 <= i < channels@.len() ==> (#[trigger] channels@[i]).wf()
                    && crate::order::order_state_fresh(channels@[i]@),
            decreases CHANNEL_COUNT - channels@.len(),
        {
            channels.push(OrderChannel::new());
        }
        proof {
            lemma_channels_view(channels@);
        }
        Connection {
            state: ConnectionState::Handshaking,
            compounds: CompoundCollector::new(config.max_pending_compounds, config.max_compound_size),
            channels,
            acks: AckTracker::new(),
        }
    }

    /// The connection still takes datagrams.
    pub fn is_open(&self) -> (r: bool)
        ensures
            r == self@.open,
    {
        self.state != ConnectionState::Closed
    }

    /// Tears the connection down: later datagrams are ignored.
    pub fn disconnect(&mut self)
        ensures
            !final(self)@.open,
            !final(self)@.connected,
            final(self)@.compounds == old(self)@.compounds,
            final(self)@.channels == old(self)@.channels,
            final(self)@.acks == old(self)@.acks,
            old(self).wf() ==> final(self).wf(),
    {
        self.state = ConnectionState::Closed;
    }

    /// Moves the connection through its lifecycle for one delivered payload
    /// and tells what to do with it: handshake messages answer or complete
    /// the handshake, game data goes on only once it has completed, and a
    /// disconnect notification closes the connection.
    pub fn on_payload(&mut self, kind: PayloadKind) -> (r: PayloadAction)
        requires
            old(self).wf(),
        ensures
            final(self).wf(),
            (final(self)@.open, final(self)@.connected, r) == payload_step(
                old(self)@.open,
                old(self)@.connected,
                kind,
            ),
            final(self)@.compounds == old(self)@.compounds,
            final(self)@.channels == old(self)@.channels,
            final(self)@.acks == old(self)@.acks,
    {
        match self.state {
            ConnectionState::Closed => PayloadAction::Ignore,
            ConnectionState::Handshaking => match kind {
                PayloadKind::Disconnect => {
                    self.state = ConnectionState::Closed;
                    PayloadAction::Close
                },
                PayloadKind::ConnectionRequest | PayloadKind::ConnectedPing => PayloadAction::Respond,
                PayloadKind::NewIncomingConnection => {
                    self.state = ConnectionState::Connected;
                    PayloadAction::Accept
                },
                PayloadKind::Game => PayloadAction::Reject,
            },
            ConnectionState::Connected => match kind {
                PayloadKind::Disconnect => {
                    self.state = ConnectionState::Closed;
                    PayloadAction::Close
                },
                PayloadKind::Game => PayloadAction::Forward,
                _ => PayloadAction::Respond,
            },
        }
    }

    /// The highest batch sequence number seen.
    pub fn highest_seen(&self) -> (r: u32)
        ensures
            r == self@.acks.highest,
    {
        self.acks.highest_seen()
    }

    /// Hands out the batch sequence numbers waiting for acknowledgment.
    pub fn take_pending_acks(&mut self) -> (r: Vec<u32>)
        requires
            old(self).wf(),
        ensures
            final(self).wf(),
            r@ == old(self)@.acks.pending,
            final(self)@ == (ConnView { acks: AckState { pending: Seq::empty(), ..old(self)@.acks }, ..old(self)@ }),
    {
        let r = self.acks.take_pending_acks();
        assert(self@.acks.pending =~= Seq::<u32>::empty());
        r
    }

    /// Drops pending compounds whose first fragment came before `cutoff`.
    pub fn evict_stale_compounds(&mut self, cutoff: u64)
        requires
            old(self).wf(),
        ensures
            final(self).wf(),
            final(self)@ == (ConnView {
                compounds: CompoundState {
                    pending: crate::compound::started_since(old(self)@.compounds.pending, cutoff as int),
                    ..old(self)@.compounds
                },
                ..old(self)@
            }),
    {
        self.compounds.evict_started_before(cutoff);
    }

    /// The order stage for one frame.
    fn order_stage_exec(&mut self, g: Frame) -> (r: Result<Vec<Vec<u8>>, Error>)
        requires
            old(self).wf(),
        ensures
            final(self).wf(),
            match order_stage(old(self)@, g@) {
                Err(k) => (r matches Err(e) && e.spec_kind() == k) && final(self)@ == old(self)@,
                Ok((c, out)) => final(self)@ == c && (r matches Ok(v) && payloads_view(v@) == out),
            },
    {
        proof {
            lemma_channels_view(self.channels@);
        }
        if g.reliability.is_ordered() || g.reliability.is_sequenced() {
            let idx = g.order_channel as usize;
            if idx >= self.channels.len() {
                return Err(Error::new(ErrorKind::Malformed, "order channel out of range".to_owned()));
            }
            let ghost before = self.channels@;
            let mut ch = self.channels.remove(idx);
            let res = ch.insert(g);
            self.channels.insert(idx, ch);
            proof {
                lemma_channels_view(self.channels@);
                assert(self.channels@ =~= before.update(idx as int, ch));
                assert forall|i: int| 0 <= i < self.channels@.len() implies (#[trigger] self.channels@[i]).wf() by {
                    if i != idx {
                        assert(self.channels@[i] == before[i]);
                    }
                }
            }
            match res {
                Err(e) => {
                    assert(self@.channels =~= old(self)@.channels);
                    assert(self@ == old(self)@);
                    Err(e)
                },
                Ok(None) => {
                    let v: Vec<Vec<u8>> = Vec::new();
                    proof {
                        assert(self@.channels =~= old(self)@.channels.update(idx as int, ch@));
                        assert(payloads_view(v@) =~= Seq::<Seq<u8>>::empty());
                        assert(bodies(Seq::<FrameView>::empty()) =~= Seq::<Seq<u8>>::empty());
                    }
                    Ok(v)
                },
                Ok(Some(fs)) => {
                    proof {
                        assert(self@.channels =~= old(self)@.channels.update(idx as int, ch@));
                    }
                    Ok(take_bodies(fs))
                },
            }
        } else {
            let ghost b = g.body@;
            let mut v: Vec<Vec<u8>> = Vec::new();
            v.push(g.body);
            proof {
                assert(payloads_view(v@) =~= seq![b]);
            }
            Ok(v)
        }
    }

    /// Runs one frame of batch `batch`, arriving at time `now`, through the
    /// pipeline: stale sequenced frames are dropped, reliable ones recorded
    /// for acknowledgment, fragments collected, and what comes out goes
    /// through its order channel. Returns the payloads released, in order.
    /// A closed connection ignores the frame; an error closes it.
    pub fn handle_frame(&mut self, frame: Frame, batch: u32, now: u64) -> (r: Result<Vec<Vec<u8>>, Error>)
        requires
            old(self).wf(),
        ensures
            final(self).wf(),
            !old(self)@.open ==> final(self)@ == old(self)@ && (r matches Ok(v) && v@.len() == 0),
            old(self)@.open ==> match frame_step(old(self)@, frame@, batch, now) {
                Err(k) => !final(self)@.open && (r matches Err(e) && e.spec_kind() == k),
                Ok((c, out)) => final(self)@ == c && (r matches Ok(v) && payloads_view(v@) == out),
            },
    {
        if self.state == ConnectionState::Closed {
            return Ok(Vec::new());
        }
        let r = self.handle_frame_open(frame, batch, now);
        if r.is_err() {
            self.state = ConnectionState::Closed;
        }
        r
    }

    fn handle_frame_open(&mut self, frame: Frame, batch: u32, now: u64) -> (r: Result<Vec<Vec<u8>>, Error>)
        requires
            old(self).wf(),
        ensures
            final(self).wf(),
            final(self)@.open == old(self)@.open,
            match frame_step(old(self)@, frame@, batch, now) {
                Err(k) => r matches Err(e) && e.spec_kind() == k,
                Ok((c, out)) => final(self)@ == c && (r matches Ok(v) && payloads_view(v@) == out),
            },
    {
        if frame.reliability.is_sequenced() && frame.sequence_index < self.acks.highest_seen() {
            let v: Vec<Vec<u8>> = Vec::new();
            assert(payloads_view(v@) =~= Seq::<Seq<u8>>::empty());
            return Ok(v);
        }
        if frame.reliability.is_reliable() {
            self.acks.record_received(batch);
        }
        if frame.is_compound {
            match self.compounds.insert(frame, now) {
                Err(e) => Err(e),
                Ok(None) => {
                    let v: Vec<Vec<u8>> = Vec::new();
                    assert(payloads_view(v@) =~= Seq::<Seq<u8>>::empty());
                    Ok(v)
                },
                Ok(Some(g)) => self.order_stage_exec(g),
            }
        } else {
            self.order_stage_exec(frame)
        }
    }

    /// Handles one datagram of this connection, arriving at time `now`. A closed connection ignores
    /// it. The records of acknowledgment datagrams are handed back for the
    /// send path; any other datagram is a batch, whose payloads come back in
    /// delivery order. An empty or malformed datagram, or a cap that is hit, closes
    /// the connection and fails.
    pub fn handle_datagram(&mut self, d: &[u8], now: u64) -> (r: Result<Received, Error>)
        requires
            old(self).wf(),
        ensures
            final(self).wf(),
            !old(self)@.open ==> final(self)@ == old(self)@ && (r matches Ok(Received::Payloads(v))
                && v@.len() == 0),
            old(self)@.open && d@.len() == 0 ==> !final(self)@.open && (r matches Err(e)
                && e.spec_kind() == ErrorKind::Malformed),
            old(self)@.open && d@.len() > 0 && d@[0] == ACK_ID ==> match ack_records(d@) {
                None => !final(self)@.open && (r matches Err(e) && e.spec_kind() == ErrorKind::Malformed),
                Some(v) => final(self)@ == old(self)@ && (r matches Ok(Received::Ack(x)) && x@ == v),
            },
            old(self)@.open && d@.len() > 0 && d@[0] == NAK_ID ==> match ack_records(d@) {
                None => !final(self)@.open && (r matches Err(e) && e.spec_kind() == ErrorKind::Malformed),
                Some(v) => final(self)@ == old(self)@ && (r matches Ok(Received::Nak(x)) && x@ == v),
            },
            old(self)@.open && d@.len() > 0 && d@[0] != ACK_ID && d@[0] != NAK_ID ==> match batch_step(
                old(self)@,
                d@,
                now,
            ) {
                Err(k) => !final(self)@.open && (r matches Err(e) && e.spec_kind() == k),
                Ok((c, out)) => final(self)@ == c && (r matches Ok(Received::Payloads(v))
                    && payloads_view(v@) == out),
            },
    {
        if self.state == ConnectionState::Closed {
            return Ok(Received::Payloads(Vec::new()));
        }
        if d.len() == 0 {
            self.state = ConnectionState::Closed;
            return Err(Error::new(ErrorKind::Malformed, "empty datagram".to_owned()));
        }
        if d[0] == ACK_ID || d[0] == NAK_ID {
            return match decode_ack_records(d) {
                Ok(v) => if d[0] == ACK_ID {
                    Ok(Received::Ack(v))
                } else {
                    Ok(Received::Nak(v))
                },
                Err(e) => {
                    self.state = ConnectionState::Closed;
                    Err(e)
                },
            };
        }
        let batch = match decode_batch(d) {
            Ok(b) => b,
            Err(e) => {
                self.state = ConnectionState::Closed;
                return Err(e);
            },
        };
        let seq = batch.sequence_number;
        self.acks.observe(seq);
        let ghost all = frames_at(d@, 4);
        let ghost c0 = self@;
        assert(c0 == (ConnView {
            acks: AckState { highest: mark_after(old(self)@.acks.highest, seq![seq]), ..old(self)@.acks },
            ..old(self)@
        }));
        let mut rest = batch.frames;
        let mut out: Vec<Vec<u8>> = Vec::new();
        let ghost mut n: int = 0;
        proof {
            assert(frames_view(rest@) == all);
            assert(all.take(0) =~= Seq::<FrameView>::empty());
            assert(payloads_view(out@) =~= Seq::<Seq<u8>>::empty());
        }
        while rest.len() > 0
            invariant
                self.wf(),
                self@.open,
                old(self)@.open,
                d@.len() > 0 && d@[0] != ACK_ID && d@[0] != NAK_ID,
                batch_step(old(self)@, d@, now) == frames_step(c0, all, seq, now),
                0 <= n <= all.len(),
                n + rest@.len() == all.len(),
                frames_view(rest@) == all.skip(n),
                frames_step(c0, all.take(n), seq, now) == Ok::<(ConnView, Seq<Seq<u8>>), ErrorKind>((self@, payloads_view(out@))),
            decreases rest@.len(),
        {
            let ghost prev = rest@;
            let ghost oprev = out@;
            let f = rest.remove(0);
            proof {
                assert(frames_view(prev)[0] == f@);
                assert(all.take(n + 1).drop_last() =~= all.take(n));
                assert(all.take(n + 1).last() == f@);
            }
            match self.handle_frame(f, seq, now) {
                Err(e) => {
                    proof {
                        lemma_steps_stop(c0, all, n + 1, seq, now);
                    }
                    self.state = ConnectionState::Closed;
                    return Err(e);
                },
                Ok(mut v) => {
                    let ghost vv = v@;
                    out.append(&mut v);
                    proof {
                        lemma_payloads_view(oprev);
                        lemma_payloads_view(vv);
                        lemma_payloads_view(out@);
                        assert(payloads_view(out@) =~= payloads_view(oprev) + payloads_view(vv));
                    }
                },
            }
            proof {
                assert(rest@ =~= prev.subrange(1, prev.len() as int));
                assert forall|j: int| 0 <= j < rest@.len() implies frames_view(rest@)[j] == all.skip(
                    n + 1,
                )[j] by {
                    assert(rest@[j] == prev[j + 1]);
                    assert(frames_view(prev)[j + 1] == all.skip(n)[j + 1]);
                }
                assert(frames_view(rest@) =~= all.skip(n + 1));
                n = n + 1;
            }
        }
        proof {
            assert(all.take(n) =~= all);
        }
        Ok(Received::Payloads(out))
    }
}


/// First byte of a game packet batch.
pub const GAME_PACKET_ID: u8 = 0xfe;
/// First byte of a disconnect notification.
pub const DISCONNECT_NOTIFICATION_ID: u8 = 0x15;
/// First byte of a connection request.
pub const CONNECTION_REQUEST_ID: u8 = 0x09;
/// First byte of a connected ping.
pub const CONNECTED_PING_ID: u8 = 0x00;

/// What a delivered payload is, by its first byte.
#[derive(Debug, Copy, Clone, PartialEq, Eq, Structural)]
pub enum PayloadKind {
    /// Game packets, for the session layer.
    Game,
    /// The peer leaves: the connection is to be torn down.
    Disconnect,
    ConnectionRequest,
    NewIncomingConnection,
    ConnectedPing,
}

/// Kind of a payload whose first byte is `b`.
pub open spec fn payload_kind_of(b: u8) -> Option<PayloadKind> {
    if b == GAME_PACKET_ID {
        Some(PayloadKind::Game)
    } else if b == DISCONNECT_NOTIFICATION_ID {
        Some(PayloadKind::Disconnect)
    } else if b == CONNECTION_REQUEST_ID {
        Some(PayloadKind::ConnectionRequest)
    } else if b == crate::packets::NEW_INCOMING_CONNECTION_ID {
        Some(PayloadKind::NewIncomingConnection)
    } else if b == CONNECTED_PING_ID {
        Some(PayloadKind::ConnectedPing)
    } else {
        None
    }
}

/// Tells what a delivered payload is by its first byte. Fails with
/// `Malformed` on an empty payload or an unknown identifier.
pub fn classify_payload(p: &[u8]) -> (r: Result<PayloadKind, Error>)
    ensures
        p@.len() == 0 ==> (r matches Err(e) && e.spec_kind() == ErrorKind::Malformed),
        p@.len() > 0 ==> match payload_kind_of(p@[0]) {
            Some(k) => r matches Ok(x) && x == k,
            None => r matches Err(e) && e.spec_kind() == ErrorKind::Malformed,
        },
{
    if p.len() == 0 {
        return Err(Error::new(ErrorKind::Malformed, "empty payload".to_owned()));
    }
    let id = p[0];
    if id == GAME_PACKET_ID {
        Ok(PayloadKind::Game)
    } else if id == DISCONNECT_NOTIFICATION_ID {
        Ok(PayloadKind::Disconnect)
    } else if id == CONNECTION_REQUEST_ID {
        Ok(PayloadKind::ConnectionRequest)
    } else if id == crate::packets::NEW_INCOMING_CONNECTION_ID {
        Ok(PayloadKind::NewIncomingConnection)
    } else if id == CONNECTED_PING_ID {
        Ok(PayloadKind::ConnectedPing)
    } else {
        Err(Error::new(ErrorKind::Malformed, "invalid packet identifier".to_owned()))
    }
}

} // verus!
