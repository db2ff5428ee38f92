use vstd::prelude::*;

use crate::ack::AckRecord;
use crate::frame::copy_range;

verus! {

/// A batch that went out: its sequence number and its bytes.
pub struct SentView {
    pub seq: u32,
    pub bytes: Seq<u8>,
}

/// Some record lists sequence number `n`.
pub open spec fn listed(rs: Seq<AckRecord>, n: u32) -> bool {
    exists|i: int| 0 <= i < rs.len() && (#[trigger] rs[i]).first <= n <= rs[i].last
}

/// The sent batches that no record lists, in order.
pub open spec fn unlisted(q: Seq<SentView>, rs: Seq<AckRecord>) -> Seq<SentView>
    decreases q.len(),
{
    if q.len() == 0 {
        Seq::empty()
    } else if listed(rs, q.last().seq) {
        unlisted(q.drop_last(), rs)
    } else {
        unlisted(q.drop_last(), rs).push(q.last())
    }
}

/// The bytes of the sent batches that some record lists, in order.
pub open spec fn listed_bytes(q: Seq<SentView>, rs: Seq<AckRecord>) -> Seq<Seq<u8>>
    decreases q.len(),
{
    if q.len() == 0 {
        Seq::empty()
    } else if listed(rs, q.last().seq) {
        listed_bytes(q.drop_last(), rs).push(q.last().bytes)
    } else {
        listed_bytes(q.drop_last(), rs)
    }
}

struct Sent {
    seq: u32,
    bytes: Vec<u8>,
}

impl View for Sent {
    type V = SentView;

    closed spec fn view(&self) -> SentView {
        SentView { seq: self.seq, bytes: self.bytes@ }
    }
}

closed spec fn sent_view(v: Seq<Sent>) -> Seq<SentView> {
    v.map_values(|s: Sent| s@)
}

proof fn lemma_sent_view(v: Seq<Sent>)
    ensures
        sent_view(v).len() == v.len(),
        forall|j: int| 0 <= j < v.len() ==> #[trigger] sent_view(v)[j] == v[j]@,
{
}

/// Batches sent and not yet acknowledged, kept to be sent again, unchanged
/// and under the same sequence number, when the peer reports them missing.
pub struct ResendQueue {
    sent: Vec<Sent>,
}

impl View for ResendQueue {
    type V = Seq<SentView>;

    closed spec fn view(&self) -> Seq<SentView> {
        sent_view(self.sent@)
    }
}

/// Some record of `rs` lists `n`.
pub fn is_listed(rs: &Vec<AckRecord>, n: u32) -> (r: bool)
    ensures
        r == listed(rs@, n),
{
    let mut i: usize = 0;
    while i < rs.len()
        invariant
            i <= rs@.len(),
            forall|j: int| 0 <= j < i ==> !((#[trigger] rs@[j]).first <= n <= rs@[j].last),
        decreases rs@.len() - i,
    {
        if rs[i].first <= n && n <= rs[i].last {
            return true;
        }
        i = i + 1;
    }
    false
}

impl ResendQueue {
    pub fn new() -> (r: ResendQueue)
        ensures
            r@.len() == 0,
    {
        ResendQueue { sent: Vec::new() }
    }

    /// Keeps a batch that went out under sequence number `seq`.
    pub fn record_sent(&mut self, seq: u32, bytes: Vec<u8>)
        ensures
            final(self)@ == old(self)@.push(SentView { seq, bytes: bytes@ }),
    {
        let ghost before = self.sent@;
        self.sent.push(Sent { seq, bytes });
        proof {
            lemma_sent_view(before);
            lemma_sent_view(self.sent@);
        }
        assert(self@ =~= old(self)@.push(SentView { seq, bytes: bytes@ }));
    }

    /// Number of batches kept.
    pub fn len(&self) -> (r: usize)
        ensures
            r == self@.len(),
    {
        proof {
            lemma_sent_view(self.sent@);
        }
        self.sent.len()
    }

    /// Forgets the batches that the acknowledgment records list.
    pub fn acknowledge(&mut self, records: &Vec<AckRecord>)
        ensures
            final(self)@ == unlisted(old(self)@, records@),
    {
        let ghost q = self@;
        let mut rest: Vec<Sent> = Vec::new();
        std::mem::swap(&mut rest, &mut self.sent);
        let mut kept: Vec<Sent> = Vec::new();
        let mut i: usize = 0;
        let total = rest.len();
        proof {
            assert(q == sent_view(rest@));
            lemma_sent_view(rest@);
            lemma_sent_view(kept@);
            assert(q.take(0) =~= Seq::<SentView>::empty());
            assert(sent_view(kept@) =~= Seq::<SentView>::empty());
            assert(q.skip(0) =~= q);
        }
        while i < total
            invariant
                q.len() == total,
                q.len() == i + rest@.len(),
                sent_view(rest@) == q.skip(i as int),
                sent_view(kept@) == unlisted(q.take(i as int), records@),
            decreases rest@.len(),
        {
            let ghost prev = rest@;
            proof {
                lemma_sent_view(prev);
                assert(q.skip(i as int)[0] == q[i as int]);
            }
            let s = rest.remove(0);
            proof {
                lemma_sent_view(rest@);
                assert(q.take(i + 1).drop_last() =~= q.take(i as int));
                assert(q.take(i + 1).last() == s@);
                assert(rest@ =~= prev.subrange(1, prev.len() as int));
                assert forall|j: int| 0 <= j < rest@.len() implies sent_view(rest@)[j] == q.skip(
                    i + 1,
                )[j] by {
                    assert(rest@[j] == prev[j + 1]);
                    assert(sent_view(prev)[j + 1] == q.skip(i as int)[j + 1]);
                }
                assert(sent_view(rest@) =~= q.skip(i + 1));
            }
            let ghost kprev = kept@;
            if !is_listed(records, s.seq) {
                kept.push(s);
                proof {
                    lemma_sent_view(kprev);
                    lemma_sent_view(kept@);
                    assert(sent_view(kept@) =~= sent_view(kprev).push(s@));
                }
            }
            i = i + 1;
        }
        assert(q.take(i as int) =~= q);
        self.sent = kept;
    }

    /// Copies of the batches that the negative-acknowledgment records list,
    /// in the order they went out; they stay kept until acknowledged.
    pub fn to_resend(&self, records: &Vec<AckRecord>) -> (r: Vec<Vec<u8>>)
        ensures
            r@.map_values(|b: Vec<u8>| b@) == listed_bytes(self@, records@),
    {
        let ghost q = self@;
        let mut out: Vec<Vec<u8>> = Vec::new();
        let mut i: usize = 0;
        proof {
            lemma_sent_view(self.sent@);
            assert(q.take(0) =~= Seq::<SentView>::empty());
            assert(out@.map_values(|b: Vec<u8>| b@) =~= Seq::<Seq<u8>>::empty());
        }
        while i < self.sent.len()
            invariant
                q == sent_view(self.sent@),
                q.len() == self.sent@.len(),
                i <= self.sent@.len(),
                out@.map_values(|b: Vec<u8>| b@) == listed_bytes(q.take(i as int), records@),
            decreases self.sent@.len() - i,
        {
            proof {
                lemma_sent_view(self.sent@);
                assert(q.take(i + 1).drop_last() =~= q.take(i as int));
                assert(q.take(i + 1).last() == self.sent@[i as int]@);
            }
            if is_listed(records, self.sent[i].seq) {
                let b = copy_range(self.sent[i].bytes.as_slice(), 0, self.sent[i].bytes.len());
                let ghost oprev = out@;
                out.push(b);
                assert(b@ =~= self.sent@[i as int].bytes@);
                assert(out@.map_values(|b: Vec<u8>| b@) =~= oprev.map_values(|b: Vec<u8>| b@).push(
                    b@,
                ));
            }
            i = i + 1;
        }
        assert(q.take(i as int) =~= q);
        out
    }
}

} // verus!
