use vstd::prelude::*;

use crate::error::{Error, ErrorKind};
use crate::frame::{Frame, FrameView};

verus! {

/// How far ahead of the next expected index a frame may arrive and still be
/// held: one slot per index after it.
pub const ORDER_WINDOW: usize = 256;

/// Abstract state of an order channel.
pub struct OrderState {
    /// The next order index eligible for release.
    pub next: int,
    /// The smallest sequence index still accepted for sequenced frames.
    pub watermark: int,
    /// Slot `j` holds the frame with order index `next + 1 + j`, if it came.
    pub window: Seq<Option<FrameView>>,
}

/// Number of consecutive filled slots from `j` on.
pub open spec fn run_len(w: Seq<Option<FrameView>>, j: int) -> int
    decreases w.len() - j,
{
    if j < 0 || j >= w.len() {
        0
    } else if w[j] is None {
        0
    } else {
        1 + run_len(w, j + 1)
    }
}

/// The window moved forward by `n` slots, empty slots coming in at the end.
pub open spec fn shift(w: Seq<Option<FrameView>>, n: int) -> Seq<Option<FrameView>> {
    Seq::new(w.len(), |j: int| if j + n < w.len() { w[j + n] } else { None })
}

/// What a frame at the next expected index releases: itself, then the run of
/// held frames right behind it.
pub open spec fn released_run(f: FrameView, w: Seq<Option<FrameView>>) -> Seq<FrameView> {
    seq![f] + Seq::new(run_len(w, 0) as nat, |j: int| w[j].unwrap())
}

/// Effect of inserting `f`: the next state and the frames released, in
/// order; `None` where the frame lies beyond the window.
pub open spec fn order_step(st: OrderState, f: FrameView) -> Option<(OrderState, Seq<FrameView>)> {
    if f.reliability.spec_is_sequenced() {
        if f.sequence_index < st.watermark {
            Some((st, Seq::empty()))
        } else {
            Some((OrderState { watermark: f.sequence_index + 1, ..st }, seq![f]))
        }
    } else {
        let idx = f.order_index as int;
        if idx < st.next {
            Some((st, Seq::empty()))
        } else if idx == st.next {
            let k = run_len(st.window, 0);
            Some(
                (
                    OrderState { next: st.next + k + 1, window: shift(st.window, k + 1), ..st },
                    released_run(f, st.window),
                ),
            )
        } else if idx - st.next - 1 >= st.window.len() {
            None
        } else if st.window[idx - st.next - 1] is Some {
            Some((st, Seq::empty()))
        } else {
            Some(
                (
                    OrderState { window: st.window.update(idx - st.next - 1, Some(f)), ..st },
                    Seq::empty(),
                ),
            )
        }
    }
}

/// A valid state: a full window whose slots hold frames of the right index.
pub open spec fn order_state_wf(st: OrderState) -> bool {
    &&& 0 <= st.next <= 0x1_0000_0000
    &&& 0 <= st.watermark <= 0x1_0000_0000
    &&& st.window.len() == ORDER_WINDOW
    &&& forall|j: int|
        0 <= j < st.window.len() && (#[trigger] st.window[j]) is Some ==> st.window[j].unwrap().order_index
            == st.next + 1 + j
}

/// Releases frames of one channel in order-index order, and sequenced frames
/// as they come while they are newer than the last one let through.
pub struct OrderChannel {
    next_index: u64,
    next_sequence: u64,
    window: Vec<Option<Frame>>,
}

/// Abstract value of a sequence of frames.
pub open spec fn frames_view(v: Seq<Frame>) -> Seq<FrameView> {
    v.map_values(|g: Frame| g@)
}

/// Abstract value of a sequence of window slots.
pub open spec fn slots_view(v: Seq<Option<Frame>>) -> Seq<Option<FrameView>> {
    v.map_values(|o: Option<Frame>| slot_view(o))
}

proof fn lemma_frames_view(v: Seq<Frame>)
    ensures
        frames_view(v).len() == v.len(),
        forall|j: int| 0 <= j < v.len() ==> #[trigger] frames_view(v)[j] == v[j]@,
{
}

proof fn lemma_slots_view(v: Seq<Option<Frame>>)
    ensures
        slots_view(v).len() == v.len(),
        forall|j: int| 0 <= j < v.len() ==> #[trigger] slots_view(v)[j] == slot_view(v[j]),
{
}

/// Abstract value of a window slot.
pub open spec fn slot_view(o: Option<Frame>) -> Option<FrameView> {
    match o {
        Some(f) => Some(f@),
        None => None,
    }
}

impl View for OrderChannel {
    type V = OrderState;

    closed spec fn view(&self) -> OrderState {
        OrderState {
            next: self.next_index as int,
            watermark: self.next_sequence as int,
            window: slots_view(self.window@),
        }
    }
}

proof fn lemma_run_len(w: Seq<Option<FrameView>>, j: int, k: int)
    requires
        0 <= j <= k <= w.len(),
        forall|i: int| j <= i < k ==> w[i] is Some,
        k == w.len() || w[k] is None,
    ensures
        run_len(w, j) == k - j,
    decreases k - j,
{
    if j < k {
        lemma_run_len(w, j + 1, k);
    }
}

impl OrderChannel {
    pub closed spec fn wf(&self) -> bool {
        order_state_wf(self@)
    }

    /// A channel that expects order index zero first.
    pub fn new() -> (r: OrderChannel)
        ensures
            r.wf(),
            r@.next == 0,
            r@.watermark == 0,
            order_state_fresh(r@),
    {
        let mut window: Vec<Option<Frame>> = Vec::new();
        while window.len() < ORDER_WINDOW
            invariant
                window@.len() <= ORDER_WINDOW,
                forall|j: int| 0 <= j < window@.len() ==> window@[j] is None,
            decreases ORDER_WINDOW - window@.len(),
        {
            window.push(None);
        }
        assert(forall|j: int| 0 <= j < window@.len() ==> slots_view(window@)[j] is None);
        OrderChannel { next_index: 0, next_sequence: 0, window }
    }

    /// The next order index that will be released.
    pub fn next_expected_index(&self) -> (r: u64)
        ensures
            r == self@.next,
    {
        self.next_index
    }

    /// Inserts a frame and returns the frames it releases, in order, or
    /// `None` where it releases nothing (held for a missing predecessor, or
    /// stale). A frame beyond the window fails with `ResourceExceeded`.
    pub fn insert(&mut self, frame: Frame) -> (r: Result<Option<Vec<Frame>>, Error>)
        requires
            old(self).wf(),
        ensures
            final(self).wf(),
            match order_step(old(self)@, frame@) {
                None => (r matches Err(e) && e.spec_kind() == ErrorKind::ResourceExceeded)
                    && final(self)@ == old(self)@,
                Some((st, out)) => final(self)@ == st && (out.len() == 0 ==> r matches Ok(None))
                    && (out.len() > 0 ==> (r matches Ok(Some(v)) && frames_view(v@) == out)),
            },
    {
        let ghost fv = frame@;
        if frame.reliability.is_sequenced() {
            if (frame.sequence_index as u64) < self.next_sequence {
                return Ok(None);
            }
            self.next_sequence = frame.sequence_index as u64 + 1;
            let mut out: Vec<Frame> = Vec::new();
            out.push(frame);
            assert(frames_view(out@) =~= seq![fv]);
            return Ok(Some(out));
        }
        let idx = frame.order_index as u64;
        if idx < self.next_index {
            return Ok(None);
        }
        let ghost w = self@.window;
        if idx > self.next_index {
            let gap = idx - self.next_index - 1;
            if gap >= ORDER_WINDOW as u64 {
                return Err(
                    Error::new(ErrorKind::ResourceExceeded, "order gap too wide".to_owned()),
                );
            }
            let off = gap as usize;
            assert(w[off as int] == slot_view(self.window@[off as int]));
            if self.window[off].is_some() {
                return Ok(None);
            }
            self.window[off] = Some(frame);
            assert(self@.window =~= w.update(off as int, Some(fv)));
            return Ok(None);
        }
        let mut k: usize = 0;
        while k < self.window.len() && self.window[k].is_some()
            invariant
                self@.window == w,
                w == slots_view(self.window@),
                w.len() == ORDER_WINDOW,
                k <= w.len(),
                forall|i: int| 0 <= i < k ==> w[i] is Some,
            decreases w.len() - k,
        {
            assert(w[k as int] == slot_view(self.window@[k as int]));
            k = k + 1;
        }
        proof {
            if k < w.len() {
                assert(w[k as int] == slot_view(self.window@[k as int]));
            }
            lemma_run_len(w, 0, k as int);
        }
        let mut rest: Vec<Option<Frame>> = Vec::new();
        std::mem::swap(&mut rest, &mut self.window);
        let mut out: Vec<Frame> = Vec::new();
        out.push(frame);
        assert(frames_view(out@) =~= released_run(fv, w).take(1));
        let mut i: usize = 0;
        while i < k
            invariant
                i <= k <= w.len(),
                forall|j: int| 0 <= j < k ==> w[j] is Some,
                slots_view(rest@) == w.skip(i as int),
                run_len(w, 0) == k,
                frames_view(out@) == released_run(fv, w).take(i + 1),
            decreases k - i,
        {
            let ghost prev = rest@;
            assert(slots_view(prev).len() == prev.len());
            assert(slots_view(prev)[0] == w[i as int]);
            let slot = rest.remove(0);
            assert(rest@ =~= prev.subrange(1, prev.len() as int));
            assert forall|j: int| 0 <= j < rest@.len() implies slots_view(rest@)[j] == w.skip(
                i + 1,
            )[j] by {
                assert(rest@[j] == prev[j + 1]);
                assert(slots_view(prev)[j + 1] == w.skip(i as int)[j + 1]);
            }
            assert(slots_view(rest@) =~= w.skip(i + 1));
            let ghost oprev = out@;
            proof {
                lemma_frames_view(oprev);
            }
            out.push(slot.unwrap());
            proof {
                lemma_frames_view(out@);
            }
            assert(out@ =~= oprev.push(slot.unwrap()));
            assert(frames_view(out@)[i + 1] == slot.unwrap()@);
            assert(forall|j: int| 0 <= j <= i ==> frames_view(out@)[j] == frames_view(oprev)[j]);
            i = i + 1;
            assert(frames_view(out@) =~= released_run(fv, w).take(i + 1));
        }
        assert(slots_view(rest@) == w.skip(k as int));
        assert(slots_view(rest@).len() == rest@.len());
        if rest.len() > 0 {
            let ghost prev = rest@;
            rest.remove(0);
            assert(rest@ =~= prev.subrange(1, prev.len() as int));
            assert forall|j: int| 0 <= j < rest@.len() implies slots_view(rest@)[j] == w.skip(
                k + 1,
            )[j] by {
                assert(rest@[j] == prev[j + 1]);
                assert(slots_view(prev)[j + 1] == w.skip(k as int)[j + 1]);
            }
            assert(slots_view(rest@) =~= w.skip(k + 1));
        } else {
            assert(rest@.len() == 0);
        }
        assert(forall|j: int| 0 <= j < rest@.len() ==> slots_view(rest@)[j] == shift(w, k + 1)[j]);
        proof {
            if k > 0 {
                let last = w[k - 1].unwrap();
                assert(last.order_index == self.next_index + k);
            }
        }
        while rest.len() < ORDER_WINDOW
            invariant
                rest@.len() <= ORDER_WINDOW,
                w.len() == ORDER_WINDOW,
                k + 1 + rest@.len() >= ORDER_WINDOW,
                forall|j: int| 0 <= j < rest@.len() ==> slots_view(rest@)[j] == shift(w, k + 1)[j],
            decreases ORDER_WINDOW - rest@.len(),
        {
            let ghost prev = rest@;
            rest.push(None);
            proof {
                lemma_slots_view(prev);
                lemma_slots_view(rest@);
            }
            assert(rest@ =~= prev.push(None));
            assert(forall|j: int| 0 <= j < prev.len() ==> rest@[j] == prev[j]);
            assert(slots_view(rest@)[rest@.len() - 1] == None::<FrameView>);
            assert(shift(w, k + 1)[prev.len() as int] == None::<FrameView>);
            assert forall|j: int| 0 <= j < rest@.len() implies slots_view(rest@)[j] == shift(
                w,
                k + 1,
            )[j] by {
                if j < prev.len() {
                    assert(slots_view(rest@)[j] == slots_view(prev)[j]);
                }
            }
            assert(forall|j: int| 0 <= j < prev.len() ==> slots_view(rest@)[j] == slots_view(prev)[j]);
        }
        self.window = rest;
        self.next_index = self.next_index + k as u64 + 1;
        assert(self@.window =~= shift(w, k + 1));
        assert(frames_view(out@) =~= released_run(fv, w));
        Ok(Some(out))
    }
}


proof fn lemma_run_len_facts(w: Seq<Option<FrameView>>, j: int)
    requires
        0 <= j <= w.len(),
    ensures
        0 <= run_len(w, j) <= w.len() - j,
        forall|i: int| j <= i < j + run_len(w, j) ==> w[i] is Some,
        j + run_len(w, j) == w.len() || w[j + run_len(w, j)] is None,
    decreases w.len() - j,
{
    if j < w.len() && w[j] is Some {
        lemma_run_len_facts(w, j + 1);
    }
}

/// One step of an ordered (not sequenced) frame keeps the state valid,
/// releases frames whose indices run on from the old next expected index
/// without a gap, and releases or holds only frames that were inserted.
pub proof fn lemma_order_step(st: OrderState, f: FrameView)
    requires
        order_state_wf(st),
        !f.reliability.spec_is_sequenced(),
    ensures
        order_step(st, f) matches Some((st2, out)) ==> {
            &&& order_state_wf(st2)
            &&& st2.watermark == st.watermark
            &&& st2.next == st.next + out.len()
            &&& forall|m: int| 0 <= m < out.len() ==> (#[trigger] out[m]).order_index == st.next + m
            &&& forall|m: int|
                0 <= m < out.len() ==> (out[m] == f || exists|j: int|
                    0 <= j < st.window.len() && st.window[j] == Some(#[trigger] out[m]))
            &&& forall|j: int|
                0 <= j < st2.window.len() && (#[trigger] st2.window[j]) is Some ==> (st2.window[j]
                    == Some(f) || exists|i: int| 0 <= i < st.window.len() && st.window[i] == st2.window[j])
        },
        order_step(st, f) is None ==> f.order_index >= st.next + 1 + st.window.len(),
{
    let w = st.window;
    lemma_run_len_facts(w, 0);
    let k = run_len(w, 0);
    if f.order_index as int == st.next {
        let out = released_run(f, w);
        let st2 = OrderState { next: st.next + k + 1, window: shift(w, k + 1), ..st };
        assert forall|m: int| 0 <= m < out.len() implies (#[trigger] out[m]).order_index == st.next
            + m && (out[m] == f || exists|j: int|
            0 <= j < st.window.len() && st.window[j] == Some(out[m])) by {
            if m > 0 {
                assert(out[m] == w[m - 1].unwrap());
                assert(w[m - 1] is Some);
                assert(w[m - 1] == Some(out[m]));
            }
        }
        assert forall|j: int|
            0 <= j < st2.window.len() && (#[trigger] st2.window[j]) is Some implies st2.window[j].unwrap().order_index
            == st2.next + 1 + j && (st2.window[j] == Some(f) || exists|i: int|
            0 <= i < st.window.len() && st.window[i] == st2.window[j]) by {
            assert(st2.window[j] == w[j + k + 1]);
        }
        if k > 0 {
            assert(w[k - 1] is Some);
            assert(w[k - 1].unwrap().order_index == st.next + k);
        }
        assert(order_state_wf(st2));
    } else if f.order_index as int > st.next && f.order_index as int - st.next - 1 < w.len() {
        let off = f.order_index as int - st.next - 1;
        if w[off] is None {
            let w2 = w.update(off, Some(f));
            assert forall|j: int|
                0 <= j < w2.len() && (#[trigger] w2[j]) is Some implies w2[j].unwrap().order_index
                == st.next + 1 + j && (w2[j] == Some(f) || exists|i: int|
                0 <= i < st.window.len() && st.window[i] == w2[j]) by {
                if j != off {
                    assert(w2[j] == w[j]);
                }
            }
        }
    }
}

/// Inserting the same frame a second time changes nothing and releases
/// nothing: a frame is released at most once.
pub proof fn lemma_duplicate_released_once(st: OrderState, f: FrameView)
    requires
        order_state_wf(st),
        order_step(st, f) is Some,
    ensures
        ({
            let st1 = order_step(st, f).unwrap().0;
            order_step(st1, f) == Some((st1, Seq::<FrameView>::empty()))
        }),
{
    if !f.reliability.spec_is_sequenced() {
        lemma_run_len_facts(st.window, 0);
    }
}

/// Effect of inserting each frame of `fs` in turn: the final state and every
/// frame released, in release order. A rejected insertion changes nothing.
pub open spec fn order_steps(st: OrderState, fs: Seq<FrameView>) -> (OrderState, Seq<FrameView>)
    decreases fs.len(),
{
    if fs.len() == 0 {
        (st, Seq::empty())
    } else {
        let (s1, o1) = order_steps(st, fs.drop_last());
        match order_step(s1, fs.last()) {
            Some((s2, o2)) => (s2, o1 + o2),
            None => (s1, o1),
        }
    }
}

/// A channel that has seen nothing yet.
pub open spec fn order_state_fresh(st: OrderState) -> bool {
    &&& st.next == 0
    &&& st.watermark == 0
    &&& st.window.len() == ORDER_WINDOW
    &&& forall|j: int| 0 <= j < st.window.len() ==> st.window[j] is None
}

/// Over any sequence of ordered insertions into a fresh channel, the frames
/// released, taken together in call order, carry the order indices
/// 0, 1, 2, ... up to the next expected index, with no gap and no repeat, so
/// every inserted index below that one has been released exactly once. Each
/// frame released or held is one of the inserted frames.
pub proof fn lemma_release_is_consecutive(st: OrderState, fs: Seq<FrameView>)
    requires
        order_state_fresh(st),
        forall|i: int| 0 <= i < fs.len() ==> !(#[trigger] fs[i]).reliability.spec_is_sequenced(),
    ensures
        ({
            let (st2, out) = order_steps(st, fs);
            &&& order_state_wf(st2)
            &&& out.len() == st2.next
            &&& forall|m: int| 0 <= m < out.len() ==> (#[trigger] out[m]).order_index == m
            &&& forall|m: int|
                0 <= m < out.len() ==> exists|i: int| 0 <= i < fs.len() && fs[i] == #[trigger] out[m]
            &&& forall|j: int|
                0 <= j < st2.window.len() && (#[trigger] st2.window[j]) is Some ==> exists|i: int|
                    0 <= i < fs.len() && Some(fs[i]) == st2.window[j]
        }),
    decreases fs.len(),
{
    if fs.len() > 0 {
        let pre = fs.drop_last();
        let f = fs.last();
        assert forall|i: int| 0 <= i < pre.len() implies !(#[trigger] pre[i]).reliability.spec_is_sequenced() by {
            assert(pre[i] == fs[i]);
        }
        lemma_release_is_consecutive(st, pre);
        let (s1, o1) = order_steps(st, pre);
        lemma_order_step(s1, f);
        assert(f == fs[fs.len() - 1]);
        assert forall|i: int| 0 <= i < pre.len() implies pre[i] == fs[i] by {}
        match order_step(s1, f) {
            Some((s2, o2)) => {
                let out = o1 + o2;
                assert(order_steps(st, fs) == (s2, out));
                assert forall|m: int| 0 <= m < out.len() implies (#[trigger] out[m]).order_index == m
                    && exists|i: int| 0 <= i < fs.len() && fs[i] == out[m] by {
                    if m < o1.len() {
                        assert(out[m] == o1[m]);
                        let i = choose|i: int| 0 <= i < pre.len() && pre[i] == o1[m];
                        assert(fs[i] == out[m]);
                    } else {
                        assert(out[m] == o2[m - o1.len()]);
                        if o2[m - o1.len()] != f {
                            let j = choose|j: int|
                                0 <= j < s1.window.len() && s1.window[j] == Some(o2[m - o1.len()]);
                            let i = choose|i: int| 0 <= i < pre.len() && Some(pre[i]) == s1.window[j];
                            assert(fs[i] == out[m]);
                        } else {
                            assert(fs[fs.len() - 1] == out[m]);
                        }
                    }
                }
                assert forall|j: int|
                    0 <= j < s2.window.len() && (#[trigger] s2.window[j]) is Some implies exists|i: int|
                        0 <= i < fs.len() && Some(fs[i]) == s2.window[j] by {
                    if s2.window[j] != Some(f) {
                        let j1 = choose|i: int| 0 <= i < s1.window.len() && s1.window[i] == s2.window[j];
                        let i = choose|i: int| 0 <= i < pre.len() && Some(pre[i]) == s1.window[j1];
                        assert(Some(fs[i]) == s2.window[j]);
                    } else {
                        assert(Some(fs[fs.len() - 1]) == s2.window[j]);
                    }
                }
            },
            None => {
                assert(order_steps(st, fs) == (s1, o1));
                assert forall|m: int| 0 <= m < o1.len() implies exists|i: int|
                    0 <= i < fs.len() && fs[i] == #[trigger] o1[m] by {
                    let i = choose|i: int| 0 <= i < pre.len() && pre[i] == o1[m];
                    assert(fs[i] == o1[m]);
                }
                assert forall|j: int|
                    0 <= j < s1.window.len() && (#[trigger] s1.window[j]) is Some implies exists|i: int|
                        0 <= i < fs.len() && Some(fs[i]) == s1.window[j] by {
                    let i = choose|i: int| 0 <= i < pre.len() && Some(pre[i]) == s1.window[j];
                    assert(Some(fs[i]) == s1.window[j]);
                }
            },
        }
    }
}

} // verus!
