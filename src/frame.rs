use vstd::prelude::*;

use crate::error::{Error, ErrorKind};

verus! {

/// Delivery guarantee that a frame asks for.
#[derive(Debug, Copy, Clone, PartialEq, Eq, Structural)]
pub enum Reliability {
    Unreliable,
    UnreliableSequenced,
    Reliable,
    ReliableOrdered,
    ReliableSequenced,
}

/// Reliability encoded by the three-bit tag of a frame's flag byte.
pub open spec fn reliability_of_tag(tag: int) -> Reliability {
    if tag == 0 {
        Reliability::Unreliable
    } else if tag == 1 {
        Reliability::UnreliableSequenced
    } else if tag == 2 {
        Reliability::Reliable
    } else if tag == 3 {
        Reliability::ReliableOrdered
    } else {
        Reliability::ReliableSequenced
    }
}

impl Reliability {
    pub open spec fn spec_is_reliable(self) -> bool {
        self == Reliability::Reliable || self == Reliability::ReliableOrdered || self
            == Reliability::ReliableSequenced
    }

    pub open spec fn spec_is_ordered(self) -> bool {
        self == Reliability::ReliableOrdered
    }

    pub open spec fn spec_is_sequenced(self) -> bool {
        self == Reliability::UnreliableSequenced || self == Reliability::ReliableSequenced
    }

    pub fn is_reliable(&self) -> (r: bool)
        ensures
            r == self.spec_is_reliable(),
    {
        match self {
            Reliability::Reliable | Reliability::ReliableOrdered
            | Reliability::ReliableSequenced => true,
            _ => false,
        }
    }

    pub fn is_ordered(&self) -> (r: bool)
        ensures
            r == self.spec_is_ordered(),
    {
        match self {
            Reliability::ReliableOrdered => true,
            _ => false,
        }
    }

    pub fn is_sequenced(&self) -> (r: bool)
        ensures
            r == self.spec_is_sequenced(),
    {
        match self {
            Reliability::UnreliableSequenced | Reliability::ReliableSequenced => true,
            _ => false,
        }
    }

    /// The three-bit tag that encodes this reliability on the wire.
    pub fn tag(&self) -> (r: u8)
        ensures
            r <= 4,
            reliability_of_tag(r as int) == *self,
    {
        match self {
            Reliability::Unreliable => 0,
            Reliability::UnreliableSequenced => 1,
            Reliability::Reliable => 2,
            Reliability::ReliableOrdered => 3,
            Reliability::ReliableSequenced => 4,
        }
    }
}

/// One protocol data unit of the reliability layer; possibly one fragment of
/// a larger payload.
#[derive(Debug)]
pub struct Frame {
    pub reliability: Reliability,
    pub is_compound: bool,
    pub compound_id: u16,
    pub compound_size: u32,
    pub compound_index: u32,
    pub reliable_index: u32,
    pub sequence_index: u32,
    pub order_index: u32,
    pub order_channel: u8,
    pub body: Vec<u8>,
}

/// Abstract value of a frame: its fields, with the body as a sequence.
pub struct FrameView {
    pub reliability: Reliability,
    pub is_compound: bool,
    pub compound_id: u16,
    pub compound_size: u32,
    pub compound_index: u32,
    pub reliable_index: u32,
    pub sequence_index: u32,
    pub order_index: u32,
    pub order_channel: u8,
    pub body: Seq<u8>,
}

impl View for Frame {
    type V = FrameView;

    open spec fn view(&self) -> FrameView {
        FrameView {
            reliability: self.reliability,
            is_compound: self.is_compound,
            compound_id: self.compound_id,
            compound_size: self.compound_size,
            compound_index: self.compound_index,
            reliable_index: self.reliable_index,
            sequence_index: self.sequence_index,
            order_index: self.order_index,
            order_channel: self.order_channel,
            body: self.body@,
        }
    }
}

impl Default for Frame {
    fn default() -> (r: Frame)
        ensures
            r.reliability == Reliability::Unreliable,
            !r.is_compound,
            r.compound_id == 0,
            r.compound_size == 0,
            r.compound_index == 0,
            r.reliable_index == 0,
            r.sequence_index == 0,
            r.order_index == 0,
            r.order_channel == 0,
            r.body@.len() == 0,
    {
        Frame {
            reliability: Reliability::Unreliable,
            is_compound: false,
            compound_id: 0,
            compound_size: 0,
            compound_index: 0,
            reliable_index: 0,
            sequence_index: 0,
            order_index: 0,
            order_channel: 0,
            body: Vec::new(),
        }
    }
}

/// A datagram's worth of frames under one sequence number.
#[derive(Debug)]
pub struct FrameBatch {
    pub sequence_number: u32,
    pub frames: Vec<Frame>,
}

/// Little-endian 24-bit integer at `i`.
pub open spec fn u24_le(s: Seq<u8>, i: int) -> int {
    s[i] + s[i + 1] * 256 + s[i + 2] * 65536
}

/// Big-endian 16-bit integer at `i`.
pub open spec fn u16_be(s: Seq<u8>, i: int) -> int {
    s[i] * 256 + s[i + 1]
}

/// Big-endian 32-bit integer at `i`.
pub open spec fn u32_be(s: Seq<u8>, i: int) -> int {
    s[i] * 16777216 + s[i + 1] * 65536 + s[i + 2] * 256 + s[i + 3]
}

/// The reliability tag: the top three bits of the flag byte.
pub open spec fn tag_of(flags: u8) -> int {
    flags as int / 32
}

/// The compound bit of the flag byte.
pub open spec fn compound_of(flags: u8) -> bool {
    (flags as int / 16) % 2 == 1
}

pub open spec fn tag_reliable(tag: int) -> bool {
    tag == 2 || tag == 3 || tag == 4
}

pub open spec fn tag_sequenced(tag: int) -> bool {
    tag == 1 || tag == 4
}

pub open spec fn tag_ordered_or_sequenced(tag: int) -> bool {
    tag == 1 || tag == 3 || tag == 4
}

/// Offset of the reliable index, past flags and bit length.
pub open spec fn reliable_at(s: Seq<u8>, p: int) -> int {
    p + 3
}

pub open spec fn sequence_at(s: Seq<u8>, p: int) -> int {
    reliable_at(s, p) + if tag_reliable(tag_of(s[p])) { 3int } else { 0int }
}

pub open spec fn order_at(s: Seq<u8>, p: int) -> int {
    sequence_at(s, p) + if tag_sequenced(tag_of(s[p])) { 3int } else { 0int }
}

pub open spec fn compound_at(s: Seq<u8>, p: int) -> int {
    order_at(s, p) + if tag_ordered_or_sequenced(tag_of(s[p])) { 4int } else { 0int }
}

pub open spec fn body_at(s: Seq<u8>, p: int) -> int {
    compound_at(s, p) + if compound_of(s[p]) { 10int } else { 0int }
}

/// Body length in bytes: the header gives it in bits.
pub open spec fn body_len(s: Seq<u8>, p: int) -> int {
    (u16_be(s, p + 1) + 7) / 8
}

/// Position just past the frame that starts at `p`.
pub open spec fn frame_end(s: Seq<u8>, p: int) -> int {
    body_at(s, p) + body_len(s, p)
}

/// A well-formed frame starts at `p`: a known tag, a header and body that fit,
/// and a compound size that is not zero.
pub open spec fn frame_valid(s: Seq<u8>, p: int) -> bool {
    &&& 0 <= p
    &&& p + 3 <= s.len()
    &&& tag_of(s[p]) <= 4
    &&& body_at(s, p) <= s.len()
    &&& frame_end(s, p) <= s.len()
    &&& compound_of(s[p]) ==> u32_be(s, compound_at(s, p)) > 0
}

/// The frame that starts at `p`, where it is well-formed. Fields that its
/// flags leave out are zero.
pub open spec fn frame_at(s: Seq<u8>, p: int) -> FrameView {
    let tag = tag_of(s[p]);
    let compound = compound_of(s[p]);
    FrameView {
        reliability: reliability_of_tag(tag),
        is_compound: compound,
        reliable_index: (if tag_reliable(tag) { u24_le(s, reliable_at(s, p)) } else { 0 }) as u32,
        sequence_index: (if tag_sequenced(tag) { u24_le(s, sequence_at(s, p)) } else { 0 }) as u32,
        order_index: (if tag_ordered_or_sequenced(tag) { u24_le(s, order_at(s, p)) } else { 0 }) as u32,
        order_channel: if tag_ordered_or_sequenced(tag) { s[order_at(s, p) + 3] } else { 0 },
        compound_size: (if compound { u32_be(s, compound_at(s, p)) } else { 0 }) as u32,
        compound_id: (if compound { u16_be(s, compound_at(s, p) + 4) } else { 0 }) as u16,
        compound_index: (if compound { u32_be(s, compound_at(s, p) + 6) } else { 0 }) as u32,
        body: s.subrange(body_at(s, p), frame_end(s, p)),
    }
}

/// `f` is the frame that starts at `p`.
pub open spec fn frame_matches(f: Frame, s: Seq<u8>, p: int) -> bool {
    f@ == frame_at(s, p)
}

/// The frames of the run that starts at `p`, in wire order, as far as they
/// are well-formed.
pub open spec fn frames_at(s: Seq<u8>, p: int) -> Seq<FrameView>
    decreases s.len() - p,
{
    if p < 0 || p >= s.len() || !frame_valid(s, p) || frame_end(s, p) <= p {
        Seq::empty()
    } else {
        seq![frame_at(s, p)] + frames_at(s, frame_end(s, p))
    }
}

/// From `p` to the end, `s` is a run of well-formed frames.
pub open spec fn frames_valid(s: Seq<u8>, p: int) -> bool
    decreases s.len() - p,
{
    if p < 0 || p > s.len() {
        false
    } else if p == s.len() {
        true
    } else {
        frame_valid(s, p) && frame_end(s, p) > p && frames_valid(s, frame_end(s, p))
    }
}

/// A batch datagram: an identifier byte, a 24-bit little-endian sequence
/// number, then frames to the end.
pub open spec fn batch_valid(s: Seq<u8>) -> bool {
    s.len() >= 4 && frames_valid(s, 4)
}

fn malformed(msg: &str) -> (r: Error)
    ensures
        r.spec_kind() == ErrorKind::Malformed,
{
    Error::new(ErrorKind::Malformed, msg.to_owned())
}

fn read_u24_le(b: &[u8], i: usize) -> (r: u32)
    requires
        i + 3 <= b@.len(),
    ensures
        r == u24_le(b@, i as int),
{
    b[i] as u32 + (b[i + 1] as u32) * 256 + (b[i + 2] as u32) * 65536
}

fn read_u16_be(b: &[u8], i: usize) -> (r: u16)
    requires
        i + 2 <= b@.len(),
    ensures
        r == u16_be(b@, i as int),
{
    (b[i] as u16) * 256 + b[i + 1] as u16
}

fn read_u32_be(b: &[u8], i: usize) -> (r: u32)
    requires
        i + 4 <= b@.len(),
    ensures
        r == u32_be(b@, i as int),
{
    (b[i] as u32) * 16777216 + (b[i + 1] as u32) * 65536 + (b[i + 2] as u32) * 256
        + b[i + 3] as u32
}

/// Copies `b[from..to]`.
pub(crate) fn copy_range(b: &[u8], from: usize, to: usize) -> (r: Vec<u8>)
    requires
        from <= to <= b@.len(),
    ensures
        r@ == b@.subrange(from as int, to as int),
{
    let mut r: Vec<u8> = Vec::new();
    let mut i: usize = from;
    while i < to
        invariant
            from <= i <= to <= b@.len(),
            r@ == b@.subrange(from as int, i as int),
        decreases to - i,
    {
        r.push(b[i]);
        i = i + 1;
    }
    r
}

#[verifier::rlimit(50)]
/// Decodes the frame that starts at `pos` and returns it with the position
/// just past it. Fails with `Malformed` on a truncated buffer, an unknown
/// reliability tag or a compound of size zero.
pub fn decode_frame(b: &[u8], pos: usize) -> (r: Result<(Frame, usize), Error>)
    ensures
        r.is_ok() <==> frame_valid(b@, pos as int),
        r matches Ok((f, end)) ==> frame_matches(f, b@, pos as int) && end == frame_end(
            b@,
            pos as int,
        ),
        r matches Err(e) ==> e.spec_kind() == ErrorKind::Malformed,
{
    let len = b.len();
    if pos >= len || len - pos < 3 {
        return Err(malformed("truncated frame header"));
    }
    let flags = b[pos];
    let tag = flags / 32;
    if tag > 4 {
        return Err(malformed("unknown reliability"));
    }
    let compound = (flags / 16) % 2 == 1;
    let bits = read_u16_be(b, pos + 1);
    let n: usize = (bits as usize + 7) / 8;
    let mut q: usize = pos + 3;
    let mut reliable_index: u32 = 0;
    let mut sequence_index: u32 = 0;
    let mut order_index: u32 = 0;
    let mut order_channel: u8 = 0;
    let mut compound_size: u32 = 0;
    let mut compound_id: u16 = 0;
    let mut compound_index: u32 = 0;
    if tag == 2 || tag == 3 || tag == 4 {
        if len - q < 3 {
            return Err(malformed("truncated reliable index"));
        }
        reliable_index = read_u24_le(b, q);
        q = q + 3;
    }
    assert(q == sequence_at(b@, pos as int));
    if tag == 1 || tag == 4 {
        if len - q < 3 {
            return Err(malformed("truncated sequence index"));
        }
        sequence_index = read_u24_le(b, q);
        q = q + 3;
    }
    assert(q == order_at(b@, pos as int));
    if tag == 1 || tag == 3 || tag == 4 {
        if len - q < 4 {
            return Err(malformed("truncated order index"));
        }
        order_index = read_u24_le(b, q);
        order_channel = b[q + 3];
        q = q + 4;
    }
    assert(q == compound_at(b@, pos as int));
    if compound {
        if len - q < 10 {
            return Err(malformed("truncated compound header"));
        }
        compound_size = read_u32_be(b, q);
        compound_id = read_u16_be(b, q + 4);
        compound_index = read_u32_be(b, q + 6);
        if compound_size == 0 {
            return Err(malformed("compound of size zero"));
        }
        q = q + 10;
    }
    assert(q == body_at(b@, pos as int));
    if len - q < n {
        return Err(malformed("truncated frame body"));
    }
    let body = copy_range(b, q, q + n);
    let reliability = if tag == 0 {
        Reliability::Unreliable
    } else if tag == 1 {
        Reliability::UnreliableSequenced
    } else if tag == 2 {
        Reliability::Reliable
    } else if tag == 3 {
        Reliability::ReliableOrdered
    } else {
        Reliability::ReliableSequenced
    };
    let f = Frame {
        reliability,
        is_compound: compound,
        compound_id,
        compound_size,
        compound_index,
        reliable_index,
        sequence_index,
        order_index,
        order_channel,
        body,
    };
    Ok((f, q + n))
}


proof fn lemma_frames_step(fs: Seq<Frame>, f: Frame, s: Seq<u8>, p: int, q: int)
    requires
        0 <= p <= q <= s.len(),
        frame_valid(s, q),
        frame_end(s, q) > q,
        frame_matches(f, s, q),
        frames_match_until(fs, s, p, q),
    ensures
        frames_match_until(fs.push(f), s, p, frame_end(s, q)),
    decreases fs.len(),
{
    let g = fs.push(f);
    if fs.len() > 0 {
        lemma_frames_step(fs.drop_first(), f, s, frame_end(s, p), q);
        assert(g.drop_first() =~= fs.drop_first().push(f));
        assert(g[0] == fs[0]);
    } else {
        assert(g.drop_first() =~= Seq::<Frame>::empty());
        assert(g[0] == f);
        assert(frames_match_until(g.drop_first(), s, frame_end(s, q), frame_end(s, q)));
    }
}

/// `fs` are the frames that run from `p` to `q`.
pub open spec fn frames_match_until(fs: Seq<Frame>, s: Seq<u8>, p: int, q: int) -> bool
    decreases fs.len(),
{
    if fs.len() == 0 {
        p == q
    } else {
        frame_valid(s, p) && frame_end(s, p) > p && frame_end(s, p) <= q && frame_matches(
            fs[0],
            s,
            p,
        ) && frames_match_until(fs.drop_first(), s, frame_end(s, p), q)
    }
}

proof fn lemma_until_end(fs: Seq<Frame>, s: Seq<u8>, p: int)
    requires
        0 <= p <= s.len(),
        frames_match_until(fs, s, p, s.len() as int),
    ensures
        frames_valid(s, p),
        fs.map_values(|f: Frame| f@) == frames_at(s, p),
    decreases fs.len(),
{
    if fs.len() > 0 {
        lemma_until_end(fs.drop_first(), s, frame_end(s, p));
        assert(fs.map_values(|f: Frame| f@) =~= seq![fs[0]@] + fs.drop_first().map_values(
            |f: Frame| f@,
        ));
    } else {
        assert(fs.map_values(|f: Frame| f@) =~= Seq::<FrameView>::empty());
    }
}

proof fn lemma_invalid_rest(s: Seq<u8>, p: int, q: int, fs: Seq<Frame>)
    requires
        0 <= p <= q <= s.len(),
        frames_match_until(fs, s, p, q),
        !frames_valid(s, q),
    ensures
        !frames_valid(s, p),
    decreases fs.len(),
{
    if fs.len() > 0 {
        lemma_invalid_rest(s, frame_end(s, p), q, fs.drop_first());
    }
}

/// Decodes a batch datagram. Any malformed frame fails the whole batch.
pub fn decode_batch(b: &[u8]) -> (r: Result<FrameBatch, Error>)
    ensures
        r.is_ok() <==> batch_valid(b@),
        r matches Ok(batch) ==> batch.sequence_number == u24_le(b@, 1)
            && batch.frames@.map_values(|f: Frame| f@) == frames_at(b@, 4),
        r matches Err(e) ==> e.spec_kind() == ErrorKind::Malformed,
{
    if b.len() < 4 {
        return Err(malformed("truncated batch header"));
    }
    let sequence_number = read_u24_le(b, 1);
    let mut frames: Vec<Frame> = Vec::new();
    let mut pos: usize = 4;
    while pos < b.len()
        invariant
            4 <= pos <= b@.len(),
            frames_match_until(frames@, b@, 4, pos as int),
        decreases b@.len() - pos,
    {
        match decode_frame(b, pos) {
            Ok((f, end)) => {
                proof {
                    lemma_frames_step(frames@, f, b@, 4, pos as int);
                }
                frames.push(f);
                pos = end;
            },
            Err(e) => {
                proof {
                    lemma_invalid_rest(b@, 4, pos as int, frames@);
                }
                return Err(e);
            },
        }
    }
    proof {
        lemma_until_end(frames@, b@, 4);
    }
    Ok(FrameBatch { sequence_number, frames })
}


/// The tag that encodes reliability `r`.
pub open spec fn tag_of_reliability(r: Reliability) -> int {
    match r {
        Reliability::Unreliable => 0,
        Reliability::UnreliableSequenced => 1,
        Reliability::Reliable => 2,
        Reliability::ReliableOrdered => 3,
        Reliability::ReliableSequenced => 4,
    }
}

/// `f` as the wire carries it: fields that its flags leave out are zero.
pub open spec fn wire_view(f: FrameView) -> FrameView {
    let tag = tag_of_reliability(f.reliability);
    FrameView {
        reliable_index: if tag_reliable(tag) { f.reliable_index } else { 0 },
        sequence_index: if tag_sequenced(tag) { f.sequence_index } else { 0 },
        order_index: if tag_ordered_or_sequenced(tag) { f.order_index } else { 0 },
        order_channel: if tag_ordered_or_sequenced(tag) { f.order_channel } else { 0 },
        compound_size: if f.is_compound { f.compound_size } else { 0 },
        compound_id: if f.is_compound { f.compound_id } else { 0 },
        compound_index: if f.is_compound { f.compound_index } else { 0 },
        ..f
    }
}

/// `f` has an encoding: a body whose length in bits fits 16 bits, indices
/// that the flags carry fit 24 bits, and a compound size that is not zero.
pub open spec fn frame_encodable(f: FrameView) -> bool {
    let tag = tag_of_reliability(f.reliability);
    &&& f.body.len() * 8 <= 0xffff
    &&& tag_reliable(tag) ==> f.reliable_index < 0x100_0000
    &&& tag_sequenced(tag) ==> f.sequence_index < 0x100_0000
    &&& tag_ordered_or_sequenced(tag) ==> f.order_index < 0x100_0000
    &&& f.is_compound ==> f.compound_size > 0
}

fn push_u24_le(buf: &mut Vec<u8>, v: u32)
    requires
        v < 0x100_0000,
    ensures
        final(buf)@.len() == old(buf)@.len() + 3,
        forall|j: int| 0 <= j < old(buf)@.len() ==> final(buf)@[j] == old(buf)@[j],
        u24_le(final(buf)@, old(buf)@.len() as int) == v,
{
    buf.push((v % 256) as u8);
    buf.push(((v / 256) % 256) as u8);
    buf.push((v / 65536) as u8);
}

fn push_u16_be(buf: &mut Vec<u8>, v: u16)
    ensures
        final(buf)@.len() == old(buf)@.len() + 2,
        forall|j: int| 0 <= j < old(buf)@.len() ==> final(buf)@[j] == old(buf)@[j],
        u16_be(final(buf)@, old(buf)@.len() as int) == v,
{
    buf.push((v / 256) as u8);
    buf.push((v % 256) as u8);
}

fn push_u32_be(buf: &mut Vec<u8>, v: u32)
    ensures
        final(buf)@.len() == old(buf)@.len() + 4,
        forall|j: int| 0 <= j < old(buf)@.len() ==> final(buf)@[j] == old(buf)@[j],
        u32_be(final(buf)@, old(buf)@.len() as int) == v,
{
    buf.push((v / 16777216) as u8);
    buf.push(((v / 65536) % 256) as u8);
    buf.push(((v / 256) % 256) as u8);
    buf.push((v % 256) as u8);
}

/// Appends the wire encoding of `f`. Decoding it back from where it starts
/// gives `f` with the fields that its flags leave out set to zero.
pub fn encode_frame(f: &Frame, buf: &mut Vec<u8>)
    requires
        frame_encodable(f@),
    ensures
        final(buf)@.subrange(0, old(buf)@.len() as int) == old(buf)@,
        frame_valid(final(buf)@, old(buf)@.len() as int),
        frame_end(final(buf)@, old(buf)@.len() as int) == final(buf)@.len(),
        frame_at(final(buf)@, old(buf)@.len() as int) == wire_view(f@),
{
    let ghost p = old(buf)@.len() as int;
    let tag = f.reliability.tag();
    let flags: u8 = tag * 32 + if f.is_compound { 16u8 } else { 0u8 };
    buf.push(flags);
    let bits = (f.body.len() * 8) as u16;
    push_u16_be(buf, bits);
    let ghost s1 = buf@;
    if tag == 2 || tag == 3 || tag == 4 {
        push_u24_le(buf, f.reliable_index);
    }
    let ghost s2 = buf@;
    if tag == 1 || tag == 4 {
        push_u24_le(buf, f.sequence_index);
    }
    let ghost s3 = buf@;
    if tag == 1 || tag == 3 || tag == 4 {
        push_u24_le(buf, f.order_index);
        buf.push(f.order_channel);
    }
    let ghost s4 = buf@;
    if f.is_compound {
        push_u32_be(buf, f.compound_size);
        let ghost c1 = buf@;
        push_u16_be(buf, f.compound_id);
        push_u32_be(buf, f.compound_index);
        assert(forall|j: int| 0 <= j < c1.len() ==> buf@[j] == c1[j]);
        assert(forall|j: int| 0 <= j < s4.len() ==> buf@[j] == s4[j]);
    }
    let ghost s5 = buf@;
    let mut i: usize = 0;
    while i < f.body.len()
        invariant
            i <= f.body@.len(),
            buf@.len() == s5.len() + i,
            forall|j: int| 0 <= j < s5.len() ==> buf@[j] == s5[j],
            forall|j: int| 0 <= j < i ==> buf@[s5.len() + j] == f.body@[j],
        decreases f.body@.len() - i,
    {
        buf.push(f.body[i]);
        i = i + 1;
    }
    proof {
        let t = buf@;
        let tg = tag as int;
        assert(forall|j: int| 0 <= j < s4.len() ==> t[j] == s4[j]);
        assert(forall|j: int| 0 <= j < s3.len() ==> t[j] == s3[j]);
        assert(forall|j: int| 0 <= j < s2.len() ==> t[j] == s2[j]);
        assert(forall|j: int| 0 <= j < s1.len() ==> t[j] == s1[j]);
        assert(t[p] == flags);
        assert(tag_of(flags) == tg);
        assert(compound_of(flags) == f.is_compound);
        assert(u16_be(t, p + 1) == bits);
        assert(body_len(t, p) == f.body@.len());
        assert(reliable_at(t, p) == s1.len());
        assert(sequence_at(t, p) == s2.len());
        assert(order_at(t, p) == s3.len());
        assert(compound_at(t, p) == s4.len());
        assert(body_at(t, p) == s5.len());
        assert(t.subrange(body_at(t, p), frame_end(t, p)) =~= f.body@);
        assert(frame_at(t, p) == wire_view(f@));
    }
}


/// `vs` are the frames that run from `p` to `q`.
pub open spec fn views_until(vs: Seq<FrameView>, s: Seq<u8>, p: int, q: int) -> bool
    decreases vs.len(),
{
    if vs.len() == 0 {
        p == q
    } else {
        frame_valid(s, p) && frame_end(s, p) > p && frame_end(s, p) <= q && frame_at(s, p) == vs[0]
            && views_until(vs.drop_first(), s, frame_end(s, p), q)
    }
}

/// A frame reads only its own bytes: bytes past it do not change it.
proof fn lemma_frame_stable(s: Seq<u8>, t: Seq<u8>, p: int, q: int)
    requires
        frame_valid(s, p),
        frame_end(s, p) <= q <= s.len(),
        q <= t.len(),
        forall|j: int| 0 <= j < q ==> s[j] == t[j],
    ensures
        frame_valid(t, p),
        frame_end(t, p) == frame_end(s, p),
        frame_at(t, p) == frame_at(s, p),
{
    assert(t[p] == s[p]);
    assert(t[p + 1] == s[p + 1] && t[p + 2] == s[p + 2]);
    let r = reliable_at(s, p);
    let sq = sequence_at(s, p);
    let o = order_at(s, p);
    let c = compound_at(s, p);
    let b = body_at(s, p);
    assert(reliable_at(t, p) == r && sequence_at(t, p) == sq && order_at(t, p) == o);
    assert(compound_at(t, p) == c && body_at(t, p) == b);
    assert(body_len(t, p) == body_len(s, p));
    if tag_reliable(tag_of(s[p])) {
        assert(t[r] == s[r] && t[r + 1] == s[r + 1] && t[r + 2] == s[r + 2]);
    }
    if tag_sequenced(tag_of(s[p])) {
        assert(t[sq] == s[sq] && t[sq + 1] == s[sq + 1] && t[sq + 2] == s[sq + 2]);
    }
    if tag_ordered_or_sequenced(tag_of(s[p])) {
        assert(t[o] == s[o] && t[o + 1] == s[o + 1] && t[o + 2] == s[o + 2] && t[o + 3] == s[o + 3]);
    }
    if compound_of(s[p]) {
        assert(t[c] == s[c] && t[c + 1] == s[c + 1] && t[c + 2] == s[c + 2] && t[c + 3] == s[c + 3]);
        assert(t[c + 4] == s[c + 4] && t[c + 5] == s[c + 5]);
        assert(t[c + 6] == s[c + 6] && t[c + 7] == s[c + 7] && t[c + 8] == s[c + 8] && t[c + 9] == s[c + 9]);
    }
    assert(t.subrange(b, frame_end(s, p)) =~= s.subrange(b, frame_end(s, p)));
}

proof fn lemma_views_stable(vs: Seq<FrameView>, s: Seq<u8>, t: Seq<u8>, p: int, q: int)
    requires
        0 <= p <= q <= s.len(),
        q <= t.len(),
        views_until(vs, s, p, q),
        forall|j: int| 0 <= j < q ==> s[j] == t[j],
    ensures
        views_until(vs, t, p, q),
    decreases vs.len(),
{
    if vs.len() > 0 {
        lemma_frame_stable(s, t, p, q);
        lemma_views_stable(vs.drop_first(), s, t, frame_end(s, p), q);
    }
}

proof fn lemma_views_step(vs: Seq<FrameView>, s: Seq<u8>, p: int, q: int)
    requires
        0 <= p <= q,
        views_until(vs, s, p, q),
        frame_valid(s, q),
        frame_end(s, q) > q,
    ensures
        views_until(vs.push(frame_at(s, q)), s, p, frame_end(s, q)),
    decreases vs.len(),
{
    let g = vs.push(frame_at(s, q));
    if vs.len() > 0 {
        lemma_views_step(vs.drop_first(), s, frame_end(s, p), q);
        assert(g.drop_first() =~= vs.drop_first().push(frame_at(s, q)));
    } else {
        assert(g.drop_first() =~= Seq::<FrameView>::empty());
        assert(views_until(g.drop_first(), s, frame_end(s, q), frame_end(s, q)));
    }
}

proof fn lemma_views_end(vs: Seq<FrameView>, s: Seq<u8>, p: int)
    requires
        0 <= p <= s.len(),
        views_until(vs, s, p, s.len() as int),
    ensures
        frames_valid(s, p),
        frames_at(s, p) == vs,
    decreases vs.len(),
{
    if vs.len() > 0 {
        lemma_views_end(vs.drop_first(), s, frame_end(s, p));
        assert(vs =~= seq![vs[0]] + vs.drop_first());
    }
}

/// Identifier byte of the batches that this library sends.
pub const BATCH_ID: u8 = 0x84;

/// Encodes a batch datagram. Decoding it gives back the sequence number and
/// the frames as the wire carries them.
pub fn encode_batch(sequence_number: u32, frames: &Vec<Frame>) -> (r: Vec<u8>)
    requires
        sequence_number < 0x100_0000,
        forall|i: int| 0 <= i < frames@.len() ==> frame_encodable((#[trigger] frames@[i])@),
    ensures
        batch_valid(r@),
        r@[0] == BATCH_ID,
        u24_le(r@, 1) == sequence_number,
        frames_at(r@, 4) == frames@.map_values(|f: Frame| wire_view(f@)),
{
    let mut buf: Vec<u8> = Vec::new();
    buf.push(BATCH_ID);
    buf.push((sequence_number % 256) as u8);
    buf.push(((sequence_number / 256) % 256) as u8);
    buf.push((sequence_number / 65536) as u8);
    let ghost head = buf@;
    assert(head.len() == 4 && head[0] == BATCH_ID && u24_le(head, 1) == sequence_number);
    let ghost all = frames@.map_values(|f: Frame| wire_view(f@));
    let mut i: usize = 0;
    while i < frames.len()
        invariant
            i <= frames@.len(),
            forall|i: int| 0 <= i < frames@.len() ==> frame_encodable((#[trigger] frames@[i])@),
            all == frames@.map_values(|f: Frame| wire_view(f@)),
            buf@.len() >= 4,
            head.len() == 4 && head[0] == BATCH_ID && u24_le(head, 1) == sequence_number,
            forall|j: int| 0 <= j < 4 ==> buf@[j] == head[j],
            views_until(all.take(i as int), buf@, 4, buf@.len() as int),
        decreases frames@.len() - i,
    {
        let ghost before = buf@;
        encode_frame(&frames[i], &mut buf);
        proof {
            let q = before.len() as int;
            assert forall|j: int| 0 <= j < q implies buf@[j] == before[j] by {
                assert(buf@.subrange(0, q)[j] == buf@[j]);
            }
            lemma_views_stable(all.take(i as int), before, buf@, 4, q);
            lemma_views_step(all.take(i as int), buf@, 4, q);
            assert(all.take(i + 1) =~= all.take(i as int).push(frame_at(buf@, q)));
        }
        i = i + 1;
    }
    proof {
        assert(all.take(i as int) =~= all);
        lemma_views_end(all, buf@, 4);
        assert(buf@[0] == head[0] && buf@[1] == head[1] && buf@[2] == head[2] && buf@[3] == head[3]);
    }
    buf
}

} // verus!
