use vstd::prelude::*;

use crate::error::{Error, ErrorKind};
use crate::frame::{Frame, FrameView};

verus! {

/// Default cap on compounds that may be pending at once.
pub const DEFAULT_MAX_PENDING: usize = 64;

/// Default cap on the fragment count of one compound.
pub const DEFAULT_MAX_SIZE: u32 = 1024;

/// Abstract state of one compound still being collected.
pub struct PendingCompound {
    pub id: int,
    pub size: int,
    /// When its first fragment came.
    pub started: int,
    /// Slot `i` holds the bytes of fragment `i`, once it came.
    pub fragments: Seq<Option<Seq<u8>>>,
}

/// Abstract state of a collector.
pub struct CompoundState {
    pub pending: Seq<PendingCompound>,
    pub max_pending: int,
    pub max_size: int,
}

/// Every fragment is there.
pub open spec fn all_received(frags: Seq<Option<Seq<u8>>>) -> bool {
    forall|i: int| 0 <= i < frags.len() ==> (#[trigger] frags[i]) is Some
}

/// The fragments' bytes joined in index order.
pub open spec fn joined(frags: Seq<Option<Seq<u8>>>) -> Seq<u8>
    decreases frags.len(),
{
    if frags.len() == 0 {
        Seq::empty()
    } else {
        joined(frags.drop_last()) + frags.last().unwrap()
    }
}

/// Position of the pending compound with identifier `id`, searching from
/// `i`; -1 where there is none.
pub open spec fn index_from(es: Seq<PendingCompound>, id: int, i: int) -> int
    decreases es.len() - i,
{
    if i < 0 || i >= es.len() {
        -1
    } else if es[i].id == id {
        i
    } else {
        index_from(es, id, i + 1)
    }
}

/// Effect of inserting fragment `f` at time `now`: the next pending list and the joined
/// payload where this fragment completes its compound; or the error kind.
pub open spec fn compound_step(st: CompoundState, f: FrameView, now: u64) -> Result<
    (Seq<PendingCompound>, Option<Seq<u8>>),
    ErrorKind,
> {
    let size = f.compound_size as int;
    let idx = f.compound_index as int;
    let i = index_from(st.pending, f.compound_id as int, 0);
    if size == 0 || idx >= size {
        Err(ErrorKind::Malformed)
    } else if size > st.max_size {
        Err(ErrorKind::ResourceExceeded)
    } else if i < 0 {
        let frags = Seq::new(size as nat, |j: int| if j == idx { Some(f.body) } else { None });
        if all_received(frags) {
            Ok((st.pending, Some(joined(frags))))
        } else if st.pending.len() >= st.max_pending {
            Err(ErrorKind::ResourceExceeded)
        } else {
            Ok(
                (
                    st.pending.push(
                        PendingCompound {
                            id: f.compound_id as int,
                            size,
                            started: now as int,
                            fragments: frags,
                        },
                    ),
                    None,
                ),
            )
        }
    } else {
        let e = st.pending[i];
        if e.size != size {
            Err(ErrorKind::Malformed)
        } else if e.fragments[idx] is Some {
            Ok((st.pending, None))
        } else {
            let frags = e.fragments.update(idx, Some(f.body));
            if all_received(frags) {
                Ok((st.pending.remove(i), Some(joined(frags))))
            } else {
                Ok((st.pending.update(i, PendingCompound { fragments: frags, ..e }), None))
            }
        }
    }
}

/// A valid state: distinct identifiers, each compound sized within the cap
/// and not yet complete, and no more of them than the cap.
pub open spec fn compound_state_wf(st: CompoundState) -> bool {
    &&& 0 <= st.max_size <= u32::MAX
    &&& 0 <= st.max_pending < usize::MAX
    &&& st.pending.len() <= st.max_pending
    &&& forall|i: int, j: int|
        0 <= i < j < st.pending.len() ==> (#[trigger] st.pending[i]).id != (#[trigger] st.pending[j]).id
    &&& forall|i: int|
        0 <= i < st.pending.len() ==> {
            let e = #[trigger] st.pending[i];
            &&& 1 <= e.size <= st.max_size
            &&& 0 <= e.id <= u16::MAX
            &&& e.fragments.len() == e.size
            &&& !all_received(e.fragments)
        }
}

pub open spec fn frags_view(v: Seq<Option<Vec<u8>>>) -> Seq<Option<Seq<u8>>> {
    v.map_values(|o: Option<Vec<u8>>| match o {
        Some(b) => Some(b@),
        None => None,
    })
}

struct CompoundEntry {
    id: u16,
    size: u32,
    started: u64,
    fragments: Vec<Option<Vec<u8>>>,
}

impl View for CompoundEntry {
    type V = PendingCompound;

    closed spec fn view(&self) -> PendingCompound {
        PendingCompound {
            id: self.id as int,
            size: self.size as int,
            started: self.started as int,
            fragments: frags_view(self.fragments@),
        }
    }
}

/// Reassembles compounds from their fragments.
pub struct CompoundCollector {
    entries: Vec<CompoundEntry>,
    max_pending: usize,
    max_size: u32,
}

impl View for CompoundCollector {
    type V = CompoundState;

    closed spec fn view(&self) -> CompoundState {
        CompoundState {
            pending: entries_view(self.entries@),
            max_pending: self.max_pending as int,
            max_size: self.max_size as int,
        }
    }
}

closed spec fn entries_view(v: Seq<CompoundEntry>) -> Seq<PendingCompound> {
    v.map_values(|e: CompoundEntry| e@)
}

proof fn lemma_entries_view(v: Seq<CompoundEntry>)
    ensures
        entries_view(v).len() == v.len(),
        forall|j: int| 0 <= j < v.len() ==> #[trigger] entries_view(v)[j] == v[j]@,
{
}

proof fn lemma_index_from(es: Seq<PendingCompound>, id: int, i: int)
    requires
        0 <= i <= es.len(),
    ensures
        -1 <= index_from(es, id, i) < es.len(),
        index_from(es, id, i) >= 0 ==> es[index_from(es, id, i)].id == id,
        index_from(es, id, i) < 0 ==> forall|j: int| i <= j < es.len() ==> es[j].id != id,
    decreases es.len() - i,
{
    if i < es.len() && es[i].id != id {
        lemma_index_from(es, id, i + 1);
    }
}

/// Appends `src` to `out`.
fn append_bytes(out: &mut Vec<u8>, src: &Vec<u8>)
    ensures
        final(out)@ == old(out)@ + src@,
{
    let mut i: usize = 0;
    while i < src.len()
        invariant
            i <= src@.len(),
            out@ == old(out)@ + src@.take(i as int),
        decreases src@.len() - i,
    {
        out.push(src[i]);
        i = i + 1;
        assert(out@ =~= old(out)@ + src@.take(i as int));
    }
    assert(src@.take(src@.len() as int) =~= src@);
}

/// Joins complete fragments in index order.
fn join_fragments(frags: &Vec<Option<Vec<u8>>>) -> (r: Vec<u8>)
    requires
        all_received(frags_view(frags@)),
    ensures
        r@ == joined(frags_view(frags@)),
{
    let ghost fv = frags_view(frags@);
    let mut out: Vec<u8> = Vec::new();
    let mut i: usize = 0;
    while i < frags.len()
        invariant
            i <= frags@.len(),
            fv == frags_view(frags@),
            all_received(fv),
            out@ == joined(fv.take(i as int)),
        decreases frags@.len() - i,
    {
        assert(fv[i as int] is Some);
        match &frags[i] {
            Some(b) => append_bytes(&mut out, b),
            None => {},
        }
        proof {
            let t = fv.take(i + 1);
            assert(t.drop_last() =~= fv.take(i as int));
        }
        i = i + 1;
    }
    assert(fv.take(frags@.len() as int) =~= fv);
    out
}

/// The pending compounds that started at or after `cutoff`, in order.
pub open spec fn started_since(es: Seq<PendingCompound>, cutoff: int) -> Seq<PendingCompound>
    decreases es.len(),
{
    if es.len() == 0 {
        Seq::empty()
    } else if es.last().started >= cutoff {
        started_since(es.drop_last(), cutoff).push(es.last())
    } else {
        started_since(es.drop_last(), cutoff)
    }
}

proof fn lemma_started_since(es: Seq<PendingCompound>, cutoff: int)
    ensures
        started_since(es, cutoff).len() <= es.len(),
        forall|i: int|
            0 <= i < started_since(es, cutoff).len() ==> exists|j: int|
                0 <= j < es.len() && es[j] == #[trigger] started_since(es, cutoff)[i],
        forall|i: int, j: int|
            0 <= i < j < started_since(es, cutoff).len() ==> exists|a: int, b: int|
                0 <= a < b < es.len() && es[a] == #[trigger] started_since(es, cutoff)[i] && es[b]
                    == #[trigger] started_since(es, cutoff)[j],
    decreases es.len(),
{
    if es.len() > 0 {
        let pre = es.drop_last();
        lemma_started_since(pre, cutoff);
        let k = started_since(pre, cutoff);
        let r = started_since(es, cutoff);
        assert forall|i: int| 0 <= i < r.len() implies exists|j: int|
            0 <= j < es.len() && es[j] == #[trigger] r[i] by {
            if i < k.len() {
                let j = choose|j: int| 0 <= j < pre.len() && pre[j] == k[i];
                assert(es[j] == r[i]);
            } else {
                assert(es[es.len() - 1] == r[i]);
            }
        }
        assert forall|i: int, j: int| 0 <= i < j < r.len() implies exists|a: int, b: int|
            0 <= a < b < es.len() && es[a] == #[trigger] r[i] && es[b] == #[trigger] r[j] by {
            if j < k.len() {
                let (a, b) = choose|a: int, b: int|
                    0 <= a < b < pre.len() && pre[a] == k[i] && pre[b] == k[j];
                assert(es[a] == r[i] && es[b] == r[j]);
            } else {
                let a = choose|a: int| 0 <= a < pre.len() && pre[a] == k[i];
                assert(es[a] == r[i] && es[es.len() - 1] == r[j]);
            }
        }
    }
}

impl CompoundCollector {
    pub closed spec fn wf(&self) -> bool {
        compound_state_wf(self@)
    }

    /// An empty collector with the given caps on pending compounds and on
    /// the fragment count of one compound.
    pub fn new(max_pending: usize, max_size: u32) -> (r: CompoundCollector)
        requires
            max_pending < usize::MAX,
        ensures
            r.wf(),
            r@.pending.len() == 0,
            r@.max_pending == max_pending,
            r@.max_size == max_size,
    {
        CompoundCollector { entries: Vec::new(), max_pending, max_size }
    }

    /// Number of compounds still being collected.
    pub fn pending_count(&self) -> (r: usize)
        ensures
            r == self@.pending.len(),
    {
        self.entries.len()
    }

    /// Stores one fragment that came at time `now`. Returns the reassembled frame on the call that
    /// supplies the last missing fragment: the inserted frame's fields with
    /// the compound flag cleared and the fragments joined in index order as
    /// body. A fragment already held is ignored. Fails with `Malformed` on a
    /// fragment index out of range or a size that disagrees with earlier
    /// fragments, and with `ResourceExceeded` on a size above the cap or a new
    /// compound while the cap of pending ones is reached.
    pub fn insert(&mut self, frame: Frame, now: u64) -> (r: Result<Option<Frame>, Error>)
        requires
            old(self).wf(),
            frame.is_compound,
        ensures
            final(self).wf(),
            final(self)@.max_pending == old(self)@.max_pending,
            final(self)@.max_size == old(self)@.max_size,
            match compound_step(old(self)@, frame@, now) {
                Err(k) => (r matches Err(e) && e.spec_kind() == k) && final(self)@ == old(self)@,
                Ok((pending, out)) => final(self)@.pending == pending && match out {
                    None => r matches Ok(None),
                    Some(body) => r matches Ok(Some(g)) && g@ == (FrameView {
                        is_compound: false,
                        body,
                        ..frame@
                    }),
                },
            },
    {
        let size = frame.compound_size;
        let idx = frame.compound_index;
        if size == 0 || idx >= size {
            return Err(Error::new(ErrorKind::Malformed, "fragment index out of range".to_owned()));
        }
        if size > self.max_size {
            return Err(Error::new(ErrorKind::ResourceExceeded, "compound too large".to_owned()));
        }
        let ghost es = self@.pending;
        let mut i: usize = 0;
        while i < self.entries.len()
            invariant
                i <= self.entries@.len(),
                es == self@.pending,
                index_from(es, frame.compound_id as int, 0) == index_from(
                    es,
                    frame.compound_id as int,
                    i as int,
                ),
            ensures
                i <= self.entries@.len(),
                es == self@.pending,
                index_from(es, frame.compound_id as int, 0) == index_from(
                    es,
                    frame.compound_id as int,
                    i as int,
                ),
                i < self.entries@.len() ==> es[i as int].id == frame.compound_id,
            decreases self.entries@.len() - i,
        {
            assert(es[i as int] == self.entries@[i as int]@);
            if self.entries[i].id == frame.compound_id {
                break;
            }
            i = i + 1;
        }
        proof {
            lemma_index_from(es, frame.compound_id as int, 0);
        }
        let mut g = frame;
        let mut body: Vec<u8> = Vec::new();
        std::mem::swap(&mut body, &mut g.body);
        if i == self.entries.len() {
            if size == 1 {
                g.body = body;
                g.is_compound = false;
                proof {
                    let frags = Seq::new(1, |j: int| if j == 0 { Some(frame.body@) } else { None });
                    assert(frags.drop_last() =~= Seq::<Option<Seq<u8>>>::empty());
                    assert(joined(frags.drop_last()) =~= Seq::<u8>::empty());
                    assert(frags.last() == Some(frame.body@));
                    assert(joined(frags) =~= frame.body@);
                }
                return Ok(Some(g));
            }
            let ghost frags = Seq::new(size as nat, |j: int| if j == idx { Some(frame.body@) } else { None });
            proof {
                let other: int = if idx == 0 { 1 } else { 0 };
                assert(frags[other] is None);
            }
            if self.entries.len() >= self.max_pending {
                return Err(Error::new(ErrorKind::ResourceExceeded, "too many pending compounds".to_owned()));
            }
            let mut fragments: Vec<Option<Vec<u8>>> = Vec::new();
            let mut j: u32 = 0;
            while j < size
                invariant
                    j <= size,
                    fragments@.len() == j,
                    forall|k: int| 0 <= k < j ==> fragments@[k] is None,
                decreases size - j,
            {
                fragments.push(None);
                j = j + 1;
            }
            fragments[idx as usize] = Some(body);
            let entry = CompoundEntry { id: g.compound_id, size, started: now, fragments };
            assert(entry@.fragments =~= frags);
            self.entries.push(entry);
            assert(self@.pending =~= es.push(entry@));
            return Ok(None);
        }
        assert(index_from(es, frame.compound_id as int, 0) == i as int);
        let ghost e = es[i as int];
        assert(e == self.entries@[i as int]@);
        if self.entries[i].size != size {
            return Err(Error::new(ErrorKind::Malformed, "compound size changed".to_owned()));
        }
        assert(e.fragments[idx as int] == match self.entries@[i as int].fragments@[idx as int] {
            Some(b) => Some(b@),
            None => None,
        });
        if self.entries[i].fragments[idx as usize].is_some() {
            return Ok(None);
        }
        let mut entry = self.entries.remove(i);
        assert(self@.pending =~= es.remove(i as int));
        entry.fragments[idx as usize] = Some(body);
        let ghost frags = e.fragments.update(idx as int, Some(frame.body@));
        assert(entry@.fragments =~= frags);
        let mut complete = true;
        let mut k: usize = 0;
        while k < entry.fragments.len()
            invariant
                k <= entry.fragments@.len(),
                frags == frags_view(entry.fragments@),
                complete == (forall|m: int| 0 <= m < k ==> (#[trigger] frags[m]) is Some),
            decreases entry.fragments@.len() - k,
        {
            assert(frags[k as int] == match entry.fragments@[k as int] {
                Some(b) => Some(b@),
                None => None,
            });
            if entry.fragments[k].is_none() {
                complete = false;
            }
            k = k + 1;
        }
        if complete {
            g.body = join_fragments(&entry.fragments);
            g.is_compound = false;
            Ok(Some(g))
        } else {
            self.entries.insert(i, entry);
            assert(self@.pending =~= es.update(i as int, PendingCompound { fragments: frags, ..e }));
            Ok(None)
        }
    }

    /// Drops the compounds whose first fragment came before `cutoff`, with
    /// the fragments they hold.
    pub fn evict_started_before(&mut self, cutoff: u64)
        requires
            old(self).wf(),
        ensures
            final(self).wf(),
            final(self)@ == (CompoundState {
                pending: started_since(old(self)@.pending, cutoff as int),
                ..old(self)@
            }),
    {
        let ghost es = self@.pending;
        let mut old_entries: Vec<CompoundEntry> = Vec::new();
        std::mem::swap(&mut old_entries, &mut self.entries);
        let mut kept: Vec<CompoundEntry> = Vec::new();
        let mut i: usize = 0;
        proof {
            lemma_entries_view(old_entries@);
            assert(es.take(0) =~= Seq::<PendingCompound>::empty());
            lemma_entries_view(kept@);
            assert(entries_view(kept@) =~= Seq::<PendingCompound>::empty());
            assert(es.skip(0) =~= es);
        }
        while old_entries.len() > 0
            invariant
                es.len() == i + old_entries@.len(),
                es.len() <= usize::MAX,
                entries_view(old_entries@) == es.skip(i as int),
                entries_view(kept@) == started_since(es.take(i as int), cutoff as int),
            decreases old_entries@.len(),
        {
            let ghost prev = old_entries@;
            proof {
                lemma_entries_view(prev);
                assert(es.skip(i as int)[0] == es[i as int]);
            }
            let e = old_entries.remove(0);
            proof {
                lemma_entries_view(old_entries@);
                assert(es[i as int] == e@);
                assert(es.take(i + 1).drop_last() =~= es.take(i as int));
                assert(es.take(i + 1).last() == e@);
                assert(old_entries@ =~= prev.subrange(1, prev.len() as int));
                assert forall|j: int| 0 <= j < old_entries@.len() implies entries_view(old_entries@)[j]
                    == es.skip(i + 1)[j] by {
                    assert(old_entries@[j] == prev[j + 1]);
                    assert(entries_view(prev)[j + 1] == es.skip(i as int)[j + 1]);
                }
                assert(entries_view(old_entries@) =~= es.skip(i + 1));
            }
            let ghost kprev = kept@;
            if e.started >= cutoff {
                kept.push(e);
                proof {
                    lemma_entries_view(kprev);
                    lemma_entries_view(kept@);
                    assert(entries_view(kept@) =~= entries_view(kprev).push(e@));
                }
            }
            i = i + 1;
        }
        assert(es.take(i as int) =~= es);
        self.entries = kept;
        proof {
            lemma_started_since(es, cutoff as int);
            let r = started_since(es, cutoff as int);
            assert forall|a: int| 0 <= a < r.len() implies {
                let e = #[trigger] r[a];
                &&& 1 <= e.size <= self@.max_size
                &&& 0 <= e.id <= u16::MAX
                &&& e.fragments.len() == e.size
                &&& !all_received(e.fragments)
            } by {
                let j = choose|j: int| 0 <= j < es.len() && es[j] == r[a];
                assert(es[j] == r[a]);
            }
            assert forall|a: int, b: int| 0 <= a < b < r.len() implies (#[trigger] r[a]).id != (
            #[trigger] r[b]).id by {
                let (x, y) = choose|x: int, y: int|
                    0 <= x < y < es.len() && es[x] == r[a] && es[y] == r[b];
                assert(es[x].id != es[y].id);
            }
        }
    }
}

/// Memory stays bounded: a fragment of a compound larger than the cap is
/// refused with `ResourceExceeded`, so is the first fragment of a new
/// compound while the cap of pending compounds is reached (unless that one
/// fragment completes it), and no accepted fragment takes the pending list
/// past its cap.
pub proof fn lemma_compound_bounded(st: CompoundState, f: FrameView, now: u64)
    requires
        compound_state_wf(st),
    ensures
        f.compound_index < f.compound_size && f.compound_size > st.max_size ==> compound_step(st, f, now)
            == Err::<(Seq<PendingCompound>, Option<Seq<u8>>), ErrorKind>(ErrorKind::ResourceExceeded),
        f.compound_index < f.compound_size <= st.max_size && f.compound_size > 1 && index_from(
            st.pending,
            f.compound_id as int,
            0,
        ) < 0 && st.pending.len() >= st.max_pending ==> compound_step(st, f, now) == Err::<
            (Seq<PendingCompound>, Option<Seq<u8>>),
            ErrorKind,
        >(ErrorKind::ResourceExceeded),
        compound_step(st, f, now) matches Ok((p, _)) ==> p.len() <= st.max_pending,
{
    lemma_index_from(st.pending, f.compound_id as int, 0);
    if f.compound_index < f.compound_size && f.compound_size > 1 {
        let idx = f.compound_index as int;
        let frags = Seq::new(
            f.compound_size as nat,
            |j: int| if j == idx { Some(f.body) } else { None },
        );
        let other: int = if idx == 0 { 1 } else { 0 };
        assert(frags[other] is None);
    }
}

} // verus!
