use vstd::prelude::*;

verus! {

/// One recorded change of the item `id` from `before` to `after`.
#[derive(Debug, Clone, Copy)]
pub struct Delta<ID, T> {
    pub id: ID,
    pub before: T,
    pub after: T,
    /// How many deltas, this one included, make up the frame it belongs to.
    pub burst: usize,
}

/// A history of deltas with a cursor for stepping through it frame by frame.
#[derive(Debug, Clone)]
pub struct Tape<ID, T> {
    steps: Vec<Delta<ID, T>>,
    i: usize,
}

/// Where the cursor of `steps` moves on a step forward: to the start of the
/// next frame, or nowhere when the current frame is the last one.
pub open spec fn spec_next_index<ID, T>(steps: Seq<Delta<ID, T>>, i: int) -> int {
    if steps.len() == 0 || i + steps[i].burst >= steps.len() {
        i
    } else {
        i + steps[i].burst
    }
}

/// Where the cursor of `steps` moves on a step back: to the start of the
/// previous frame, whose length the delta just before the cursor records.
pub open spec fn spec_prev_index<ID, T>(steps: Seq<Delta<ID, T>>, i: int) -> int {
    if steps.len() == 0 || i == 0 || steps[i - 1].burst > i {
        i
    } else {
        i - steps[i - 1].burst
    }
}

/// The deltas of the frame that starts at `i`.
pub open spec fn spec_frame<ID, T>(steps: Seq<Delta<ID, T>>, i: int) -> Seq<Delta<ID, T>> {
    steps.subrange(i, i + steps[i].burst)
}

/// A frame whose first and last delta both record its length.
pub open spec fn is_burst<ID, T>(steps: Seq<Delta<ID, T>>) -> bool {
    steps.len() == 0 || (steps[0].burst == steps.len() && steps.last().burst == steps.len())
}

/// `steps` from position `p` on splits into whole frames, each recorded by
/// its length at both ends.
pub open spec fn frames_from<ID, T>(steps: Seq<Delta<ID, T>>, p: int) -> bool
    decreases steps.len() - p,
{
    if p < 0 || p > steps.len() {
        false
    } else if p == steps.len() {
        true
    } else {
        let b = steps[p].burst as int;
        &&& 1 <= b
        &&& p + b <= steps.len()
        &&& steps[p + b - 1].burst == b
        &&& frames_from(steps, p + b)
    }
}

/// Stepping forward from a frame whose last delta records its length, then
/// stepping back, returns to where the step started.
pub proof fn lemma_next_then_prev<ID, T>(steps: Seq<Delta<ID, T>>, i: int)
    requires
        0 <= i < steps.len(),
        i + steps[i].burst < steps.len(),
        steps[i + steps[i].burst - 1].burst == steps[i].burst,
    ensures
        spec_prev_index(steps, spec_next_index(steps, i)) == i,
{
}

/// Stepping back to a frame whose first delta records its length, then
/// stepping forward, returns to where the step started.
pub proof fn lemma_prev_then_next<ID, T>(steps: Seq<Delta<ID, T>>, i: int)
    requires
        0 < i < steps.len(),
        1 <= steps[i - 1].burst <= i,
        steps[i - steps[i - 1].burst].burst == steps[i - 1].burst,
    ensures
        spec_next_index(steps, spec_prev_index(steps, i)) == i,
{
}

/// On a tape made of whole frames, a step forward from a frame boundary lands
/// on a frame boundary, and stepping back from there returns.
pub proof fn lemma_frames_step<ID, T>(steps: Seq<Delta<ID, T>>, p: int)
    requires
        frames_from(steps, p),
        p < steps.len(),
    ensures
        frames_from(steps, spec_next_index(steps, p)),
        spec_next_index(steps, p) != p ==> spec_prev_index(steps, spec_next_index(steps, p))
            == p,
{
}

/// Appending a whole frame to a tape made of whole frames keeps it so.
pub proof fn lemma_frames_append<ID, T>(steps: Seq<Delta<ID, T>>, frame: Seq<Delta<ID, T>>, p: int)
    requires
        frames_from(steps, p),
        frame.len() > 0,
        is_burst(frame),
    ensures
        frames_from(steps + frame, p),
    decreases steps.len() - p,
{
    let all = steps + frame;
    if p == steps.len() {
        let b = frame.len() as int;
        assert(all[p] == frame[0]);
        assert(all[p + b - 1] == frame[b - 1]);
        assert(frames_from(all, p + b));
    } else {
        let b = steps[p].burst as int;
        lemma_frames_append(steps, frame, p + b);
        assert(all[p] == steps[p]);
        assert(all[p + b - 1] == steps[p + b - 1]);
    }
}

impl<ID, T> Tape<ID, T> {
    pub closed spec fn deltas(&self) -> Seq<Delta<ID, T>> {
        self.steps@
    }

    pub closed spec fn pos(&self) -> int {
        self.i as int
    }

    /// The cursor stands on a delta, or at zero on an empty tape.
    pub open spec fn wf(&self) -> bool {
        if self.deltas().len() == 0 {
            self.pos() == 0
        } else {
            0 <= self.pos() < self.deltas().len()
        }
    }

    /// The whole tape splits into frames recorded at both ends.
    pub open spec fn framed(&self) -> bool {
        frames_from(self.deltas(), 0)
    }

    /// The frame under the cursor lies inside the tape.
    pub open spec fn frame_fits(&self) -> bool {
        self.deltas().len() > 0 ==> self.pos() + self.deltas()[self.pos()].burst
            <= self.deltas().len()
    }

    /// Moving forward from the cursor does not overflow.
    pub open spec fn step_fits(&self) -> bool {
        self.deltas().len() > 0 ==> self.pos() + self.deltas()[self.pos()].burst <= usize::MAX
    }

    pub open spec fn next_index(&self) -> int {
        spec_next_index(self.deltas(), self.pos())
    }

    pub open spec fn prev_index(&self) -> int {
        spec_prev_index(self.deltas(), self.pos())
    }

    /// A frame follows the one under the cursor.
    pub open spec fn can_advance(&self) -> bool {
        self.deltas().len() > 0 && self.pos() + self.deltas()[self.pos()].burst
            < self.deltas().len()
    }

    /// The delta before the cursor records a frame that fits before it.
    pub open spec fn can_retreat(&self) -> bool {
        self.pos() > 0 && self.deltas()[self.pos() - 1].burst <= self.pos()
    }

    pub fn new() -> (t: Tape<ID, T>)
        ensures
            t.deltas() == Seq::<Delta<ID, T>>::empty(),
            t.pos() == 0,
            t.wf(),
    {
        Tape { steps: Vec::new(), i: 0 }
    }

    pub fn index(&self, index: usize) -> (d: &Delta<ID, T>)
        requires
            index < self.deltas().len(),
        ensures
            *d == self.deltas()[index as int],
    {
        &self.steps[index]
    }

    pub fn index_mut(&mut self, index: usize) -> (d: &mut Delta<ID, T>)
        requires
            index < old(self).deltas().len(),
        ensures
            *d == old(self).deltas()[index as int],
            final(self).deltas() == old(self).deltas().update(index as int, *final(d)),
            final(self).pos() == old(self).pos(),
    {
        &mut self.steps[index]
    }

    pub fn is_empty(&self) -> (b: bool)
        ensures
            b == (self.deltas().len() == 0),
    {
        self.steps.len() == 0
    }

    pub fn len(&self) -> (n: usize)
        ensures
            n == self.deltas().len(),
    {
        self.steps.len()
    }

    /// Moves the cursor to the last delta; an empty tape has none.
    pub fn end(&mut self)
        requires
            old(self).deltas().len() > 0,
        ensures
            final(self).deltas() == old(self).deltas(),
            final(self).pos() == old(self).deltas().len() - 1,
            final(self).wf(),
    {
        self.i = self.steps.len() - 1;
    }

    /// Moves the cursor to the first delta; an empty tape has none.
    pub fn start(&mut self)
        requires
            old(self).deltas().len() > 0,
        ensures
            final(self).deltas() == old(self).deltas(),
            final(self).pos() == 0,
            final(self).wf(),
    {
        self.i = 0;
    }

    /// The frame under the cursor, or `None` on an empty tape.
    pub fn cur_step(&self) -> (r: Option<&[Delta<ID, T>]>)
        requires
            self.wf(),
            self.frame_fits(),
        ensures
            r is None <==> self.deltas().len() == 0,
            r matches Some(s) ==> s@ == spec_frame(self.deltas(), self.pos()),
    {
        if self.steps.len() == 0 {
            return None;
        }
        Some(&self.steps[self.i..self.i + self.steps[self.i].burst])
    }

    fn peek_next_index(&self) -> (n: usize)
        requires
            self.wf(),
            self.step_fits(),
        ensures
            n == self.next_index(),
    {
        if self.steps.len() == 0 || self.i + self.steps[self.i].burst >= self.steps.len() {
            return self.i;
        }
        self.i + self.steps[self.i].burst
    }

    fn peek_prev_index(&self) -> (n: usize)
        requires
            self.wf(),
        ensures
            n == self.prev_index(),
    {
        if self.steps.len() == 0 || self.i == 0 || self.steps[self.i - 1].burst > self.i {
            return self.i;
        }
        self.i - self.steps[self.i - 1].burst
    }

    /// The frame under the cursor, unless it is the last frame of the tape.
    pub fn peek_next_delta(&self) -> (r: Option<&[Delta<ID, T>]>)
        requires
            self.wf(),
            self.step_fits(),
            self.deltas().len() > 0,
        ensures
            r is None <==> self.pos() + self.deltas()[self.pos()].burst >= self.deltas().len(),
            r matches Some(s) ==> s@ == spec_frame(self.deltas(), self.pos()),
    {
        if self.i + self.steps[self.i].burst >= self.steps.len() {
            return None;
        }
        Some(&self.steps[self.i..self.i + self.steps[self.i].burst])
    }

    /// The frame that ends just before the cursor, if there is one.
    pub fn peek_prev_delta(&self) -> (r: Option<&[Delta<ID, T>]>)
        requires
            self.wf(),
        ensures
            r is None <==> (self.pos() == 0 || self.deltas()[self.pos() - 1].burst > self.pos()),
            r matches Some(s) ==> s@ == self.deltas().subrange(
                self.prev_index(),
                self.pos(),
            ),
    {
        if self.i == 0 || self.steps[self.i - 1].burst > self.i {
            return None;
        }
        Some(&self.steps[self.i - self.steps[self.i - 1].burst..self.i])
    }

    /// Steps forward one frame and returns the new frame; `None`, with the
    /// cursor unchanged, at the last frame.
    pub fn next_delta(&mut self) -> (r: Option<&[Delta<ID, T>]>)
        requires
            old(self).wf(),
            old(self).step_fits(),
            old(self).can_advance() ==> old(self).next_index()
                + old(self).deltas()[old(self).next_index()].burst <= old(self).deltas().len(),
        ensures
            final(self).deltas() == old(self).deltas(),
            final(self).pos() == old(self).next_index(),
            final(self).wf(),
            r is None <==> !old(self).can_advance(),
            r matches Some(s) ==> s@ == spec_frame(final(self).deltas(), final(self).pos()),
    {
        if self.steps.len() == 0 || self.i + self.steps[self.i].burst >= self.steps.len() {
            return None;
        }
        self.i = self.i + self.steps[self.i].burst;
        Some(&self.steps[self.i..self.i + self.steps[self.i].burst])
    }

    /// Steps back one frame and returns the new frame; `None`, with the
    /// cursor unchanged, where there is no frame before the cursor.
    pub fn prev_delta(&mut self) -> (r: Option<&[Delta<ID, T>]>)
        requires
            old(self).wf(),
            old(self).can_retreat() ==> old(self).prev_index()
                + old(self).deltas()[old(self).prev_index()].burst <= old(self).deltas().len(),
        ensures
            final(self).deltas() == old(self).deltas(),
            final(self).pos() == old(self).prev_index(),
            final(self).wf(),
            r is None <==> !old(self).can_retreat(),
            r matches Some(s) ==> s@ == spec_frame(final(self).deltas(), final(self).pos()),
    {
        if self.i == 0 || self.steps[self.i - 1].burst > self.i {
            return None;
        }
        let len = self.steps.len();
        self.i = self.i - self.steps[self.i - 1].burst;
        Some(&self.steps[self.i..self.i + self.steps[self.i].burst])
    }

    /// Appends a whole frame; its first and last delta must record its length.
    pub fn push_burst(&mut self, steps: &[Delta<ID, T>])
        where
            Delta<ID, T>: Copy,
        requires
            steps@.len() > 0,
            is_burst(steps@),
            old(self).deltas().len() + steps@.len() <= usize::MAX,
        ensures
            final(self).deltas() == old(self).deltas() + steps@,
            final(self).pos() == old(self).pos(),
            old(self).framed() ==> final(self).framed(),
    {
        let mut k: usize = 0;
        while k < steps.len()
            invariant
                k <= steps@.len(),
                self.steps@ == old(self).steps@ + steps@.subrange(0, k as int),
                self.i == old(self).i,
            decreases steps@.len() - k,
        {
            self.steps.push(steps[k]);
            k = k + 1;
            assert(self.steps@ =~= old(self).steps@ + steps@.subrange(0, k as int));
        }
        assert(steps@.subrange(0, steps@.len() as int) =~= steps@);
        proof {
            if old(self).framed() && steps@.len() > 0 {
                lemma_frames_append(old(self).deltas(), steps@, 0);
            }
            if steps@.len() == 0 {
                assert(self.steps@ =~= old(self).steps@);
            }
        }
    }

    /// Appends a frame of one delta.
    pub fn push(&mut self, s: Delta<ID, T>)
        requires
            s.burst == 1,
        ensures
            final(self).deltas() == old(self).deltas().push(s),
            final(self).pos() == old(self).pos(),
            old(self).framed() ==> final(self).framed(),
    {
        self.steps.push(s);
        proof {
            if old(self).framed() {
                lemma_frames_append(old(self).deltas(), seq![s], 0);
                assert(old(self).deltas() + seq![s] =~= old(self).deltas().push(s));
            }
        }
    }

    /// The cursor stands on the last frame.
    pub fn at_end(&self) -> (b: bool)
        requires
            self.wf(),
            self.step_fits(),
        ensures
            b == (self.next_index() == self.pos()),
    {
        self.i == self.peek_next_index()
    }

    /// No frame lies before the cursor.
    pub fn at_start(&self) -> (b: bool)
        requires
            self.wf(),
        ensures
            b == (self.prev_index() == self.pos()),
    {
        self.i == self.peek_prev_index()
    }

    /// Moves the cursor back one frame; says whether it moved.
    pub fn set_prev(&mut self) -> (moved: bool)
        requires
            old(self).wf(),
        ensures
            final(self).deltas() == old(self).deltas(),
            final(self).pos() == old(self).prev_index(),
            final(self).wf(),
            moved == (old(self).prev_index() != old(self).pos()),
    {
        let prev = self.i;
        self.i = self.peek_prev_index();
        self.i != prev
    }

    /// Moves the cursor forward one frame; says whether it moved.
    pub fn set_next(&mut self) -> (moved: bool)
        requires
            old(self).wf(),
            old(self).step_fits(),
        ensures
            final(self).deltas() == old(self).deltas(),
            final(self).pos() == old(self).next_index(),
            final(self).wf(),
            moved == (old(self).next_index() != old(self).pos()),
    {
        let prev = self.i;
        self.i = self.peek_next_index();
        self.i != prev
    }
}


impl<ID, T> Default for Tape<ID, T> {
    fn default() -> (t: Tape<ID, T>)
        ensures
            t.deltas() == Seq::<Delta<ID, T>>::empty(),
            t.pos() == 0,
    {
        Tape::new()
    }
}

} // verus!
