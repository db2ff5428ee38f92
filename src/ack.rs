use vstd::prelude::*;

use crate::error::{Error, ErrorKind};
use crate::frame::{u16_be, u24_le};

verus! {

/// Abstract state of an acknowledgment tracker.
pub struct AckState {
    /// Highest batch sequence number seen.
    pub highest: int,
    /// Sequence numbers waiting for the next outbound acknowledgment, in the
    /// order they were first recorded.
    pub pending: Seq<u32>,
}

/// The high-water mark after recording `h` then each of `xs` in turn.
pub open spec fn mark_after(h: int, xs: Seq<u32>) -> int
    decreases xs.len(),
{
    if xs.len() == 0 {
        h
    } else {
        let m = mark_after(h, xs.drop_last());
        if xs.last() > m {
            xs.last() as int
        } else {
            m
        }
    }
}

/// The high-water mark never decreases, whatever the order of the numbers
/// recorded: it ends at least at its start and at least at each number
/// recorded, and it is one of those.
pub proof fn lemma_mark_monotone(h: int, xs: Seq<u32>)
    ensures
        mark_after(h, xs) >= h,
        forall|i: int| 0 <= i < xs.len() ==> mark_after(h, xs) >= xs[i],
        mark_after(h, xs) == h || exists|i: int| 0 <= i < xs.len() && mark_after(h, xs) == xs[i],
        forall|n: int| 0 <= n <= xs.len() ==> mark_after(h, xs.take(n)) <= mark_after(h, xs),
    decreases xs.len(),
{
    if xs.len() > 0 {
        let pre = xs.drop_last();
        lemma_mark_monotone(h, pre);
        assert forall|i: int| 0 <= i < pre.len() implies pre[i] == xs[i] by {}
        assert forall|n: int| 0 <= n <= xs.len() implies mark_after(h, xs.take(n)) <= mark_after(
            h,
            xs,
        ) by {
            if n < xs.len() {
                assert(xs.take(n) =~= pre.take(n));
            } else {
                assert(xs.take(n) =~= xs);
            }
        }
        if mark_after(h, xs) != h && mark_after(h, xs) != xs.last() {
            let i = choose|i: int| 0 <= i < pre.len() && mark_after(h, pre) == pre[i];
            assert(mark_after(h, xs) == xs[i]);
        }
    }
}

/// Records which batches arrived, for acknowledgment, and the highest batch
/// sequence number seen.
pub struct AckTracker {
    highest: u32,
    pending: Vec<u32>,
}

impl View for AckTracker {
    type V = AckState;

    closed spec fn view(&self) -> AckState {
        AckState { highest: self.highest as int, pending: self.pending@ }
    }
}

impl AckTracker {
    /// No entry is waiting twice.
    pub closed spec fn wf(&self) -> bool {
        self.pending@.no_duplicates()
    }

    pub fn new() -> (r: AckTracker)
        ensures
            r.wf(),
            r@.highest == 0,
            r@.pending.len() == 0,
    {
        AckTracker { highest: 0, pending: Vec::new() }
    }

    /// Raises the high-water mark to `seq` where that is higher.
    pub fn observe(&mut self, seq: u32)
        requires
            old(self).wf(),
        ensures
            final(self).wf(),
            final(self)@.highest == mark_after(old(self)@.highest, seq![seq]),
            final(self)@.pending == old(self)@.pending,
    {
        proof {
            assert(seq![seq].drop_last() =~= Seq::<u32>::empty());
            assert(mark_after(old(self)@.highest, Seq::<u32>::empty()) == old(self)@.highest);
        }
        if seq > self.highest {
            self.highest = seq;
        }
    }

    /// Marks batch `seq` as received: it waits for the next acknowledgment
    /// (once, however often it is recorded) and folds into the high-water
    /// mark.
    pub fn record_received(&mut self, seq: u32)
        requires
            old(self).wf(),
        ensures
            final(self).wf(),
            final(self)@.highest == mark_after(old(self)@.highest, seq![seq]),
            final(self)@.highest >= old(self)@.highest,
            final(self)@.pending == if old(self)@.pending.contains(seq) {
                old(self)@.pending
            } else {
                old(self)@.pending.push(seq)
            },
    {
        self.observe(seq);
        proof {
            lemma_mark_monotone(old(self)@.highest, seq![seq]);
        }
        let ghost mid = self@;
        let mut i: usize = 0;
        let mut found = false;
        while i < self.pending.len()
            invariant
                self@ == mid,
                self.wf(),
                i <= self.pending@.len(),
                found == exists|j: int| 0 <= j < i && self.pending@[j] == seq,
            decreases self.pending@.len() - i,
        {
            if self.pending[i] == seq {
                found = true;
            }
            i = i + 1;
        }
        if !found {
            self.pending.push(seq);
        }
    }

    /// The highest batch sequence number seen so far.
    pub fn highest_seen(&self) -> (r: u32)
        ensures
            r == self@.highest,
    {
        self.highest
    }

    /// Hands out the sequence numbers waiting for acknowledgment and empties
    /// the queue.
    pub fn take_pending_acks(&mut self) -> (r: Vec<u32>)
        requires
            old(self).wf(),
        ensures
            final(self).wf(),
            r@ == old(self)@.pending,
            final(self)@.pending.len() == 0,
            final(self)@.highest == old(self)@.highest,
    {
        let mut r: Vec<u32> = Vec::new();
        std::mem::swap(&mut r, &mut self.pending);
        r
    }
}


/// A run of batch sequence numbers, `first` to `last` inclusive, listed by
/// an acknowledgment or a negative acknowledgment.
#[derive(Debug, Copy, Clone, PartialEq, Eq, Structural)]
pub struct AckRecord {
    pub first: u32,
    pub last: u32,
}

/// Length of the record at `p`: a flag byte, then one 24-bit number for a
/// single sequence number (flag not zero) or two for a range.
pub open spec fn record_len(s: Seq<u8>, p: int) -> int {
    if s[p] != 0 {
        4
    } else {
        7
    }
}

/// The record at `p`, where it fits and its range does not run backwards.
pub open spec fn record_at(s: Seq<u8>, p: int) -> Option<AckRecord> {
    if p < 0 || p >= s.len() || p + record_len(s, p) > s.len() {
        None
    } else if s[p] != 0 {
        Some(AckRecord { first: u24_le(s, p + 1) as u32, last: u24_le(s, p + 1) as u32 })
    } else if u24_le(s, p + 1) <= u24_le(s, p + 4) {
        Some(AckRecord { first: u24_le(s, p + 1) as u32, last: u24_le(s, p + 4) as u32 })
    } else {
        None
    }
}

/// The `n` records from `p` on, where all of them are well-formed.
pub open spec fn records_at(s: Seq<u8>, p: int, n: int) -> Option<Seq<AckRecord>>
    decreases n,
{
    if n <= 0 {
        Some(Seq::empty())
    } else {
        match record_at(s, p) {
            None => None,
            Some(r) => match records_at(s, p + record_len(s, p), n - 1) {
                Some(rest) => Some(seq![r] + rest),
                None => None,
            },
        }
    }
}

/// The records of an acknowledgment datagram: an identifier byte, a
/// big-endian 16-bit record count, then the records.
pub open spec fn ack_records(s: Seq<u8>) -> Option<Seq<AckRecord>> {
    if s.len() < 3 {
        None
    } else {
        records_at(s, 3, u16_be(s, 1))
    }
}

fn read_u24(b: &[u8], i: usize) -> (r: u32)
    requires
        i + 3 <= b@.len(),
    ensures
        r == u24_le(b@, i as int),
{
    b[i] as u32 + (b[i + 1] as u32) * 256 + (b[i + 2] as u32) * 65536
}

/// Decodes the records of an acknowledgment or negative-acknowledgment
/// datagram. Fails with `Malformed` on a truncated datagram or a range that
/// runs backwards.
pub fn decode_ack_records(b: &[u8]) -> (r: Result<Vec<AckRecord>, Error>)
    ensures
        match ack_records(b@) {
            None => r matches Err(e) && e.spec_kind() == ErrorKind::Malformed,
            Some(v) => r matches Ok(x) && x@ == v,
        },
{
    if b.len() < 3 {
        return Err(Error::new(ErrorKind::Malformed, "truncated acknowledgment".to_owned()));
    }
    let count = (b[1] as usize) * 256 + b[2] as usize;
    let mut p: usize = 3;
    let mut k: usize = 0;
    let mut out: Vec<AckRecord> = Vec::new();
    while k < count
        invariant
            count == u16_be(b@, 1),
            b@.len() >= 3,
            k <= count,
            3 <= p <= b@.len(),
            ack_records(b@) == match records_at(b@, p as int, count - k) {
                Some(rest) => Some(out@ + rest),
                None => None::<Seq<AckRecord>>,
            },
        decreases count - k,
    {
        if p >= b.len() {
            return Err(Error::new(ErrorKind::Malformed, "truncated acknowledgment".to_owned()));
        }
        let single = b[p] != 0;
        let len: usize = if single { 4 } else { 7 };
        if b.len() - p < len {
            return Err(Error::new(ErrorKind::Malformed, "truncated acknowledgment".to_owned()));
        }
        let first = read_u24(b, p + 1);
        let last = if single { first } else { read_u24(b, p + 4) };
        if last < first {
            return Err(Error::new(ErrorKind::Malformed, "backward range".to_owned()));
        }
        let ghost before = out@;
        out.push(AckRecord { first, last });
        proof {
            let rec = AckRecord { first, last };
            assert(record_at(b@, p as int) == Some(rec));
            match records_at(b@, p + len, count - k - 1) {
                Some(rest) => {
                    assert(out@ + rest =~= before + (seq![rec] + rest));
                },
                None => {},
            }
        }
        p = p + len;
        k = k + 1;
    }
    assert(out@ + Seq::<AckRecord>::empty() =~= out@);
    Ok(out)
}

} // verus!
