use vstd::prelude::*;
use crate::maze::{cell_index, replay, rewind, spec_frame, Blueprint, Delta, Tape};

verus! {

/// The histories of a maze, ready to be stepped through over its grid.
#[derive(Debug, Clone)]
pub struct Playback {
    pub maze: Blueprint,
    pub build_tape: Tape,
    pub solve_tape: Tape,
    pub forward: bool,
    pub pause: bool,
}

/// Every delta of the tape names a square of the grid.
pub open spec fn ids_on_grid(tape: &Tape, maze: &Blueprint) -> bool {
    forall|k: int|
        0 <= k < tape.deltas().len() ==> maze.in_bounds(
            (#[trigger] tape.deltas()[k]).id.row as int,
            tape.deltas()[k].id.col as int,
        )
}

/// A tape that can be stepped through over the grid without a panic.
pub open spec fn playable(tape: &Tape, maze: &Blueprint) -> bool {
    &&& tape.wf()
    &&& tape.frame_fits()
    &&& tape.step_fits()
    &&& ids_on_grid(tape, maze)
    &&& tape.can_advance() ==> tape.next_index() + tape.deltas()[tape.next_index()].burst <= tape.deltas().len()
}

/// Writes the `after` value of each delta of the frame, in order.
fn apply_forward(maze: &mut Blueprint, frame: &[Delta])
    requires
        old(maze).wf(),
        forall|k: int| 0 <= k < frame@.len() ==> old(maze).in_bounds(
            (#[trigger] frame@[k]).id.row as int,
            frame@[k].id.col as int,
        ),
    ensures
        final(maze).wf(),
        final(maze).rows == old(maze).rows,
        final(maze).cols == old(maze).cols,
        final(maze).offset == old(maze).offset,
        final(maze).wall_style_index == old(maze).wall_style_index,
        final(maze).buf@ == replay(old(maze).buf@, old(maze).cols as int, frame@),
{
    let ghost s0 = maze.buf@;
    let ghost cols = maze.cols as int;
    let mut k: usize = 0;
    proof {
        assert(frame@.subrange(0, 0) =~= Seq::<Delta>::empty());
        crate::maze::lemma_replay_empty(s0, cols);
    }
    while k < frame.len()
        invariant
            k <= frame@.len(),
            maze.wf(),
            maze.rows == old(maze).rows,
            maze.cols == old(maze).cols,
            maze.offset == old(maze).offset,
            maze.wall_style_index == old(maze).wall_style_index,
            cols == maze.cols,
            s0 == old(maze).buf@,
            s0.len() == maze.buf@.len(),
            forall|j: int| 0 <= j < frame@.len() ==> old(maze).in_bounds(
                (#[trigger] frame@[j]).id.row as int,
                frame@[j].id.col as int,
            ),
            maze.buf@ == replay(s0, cols, frame@.subrange(0, k as int)),
        decreases frame@.len() - k,
    {
        let d = frame[k];
        proof {
            maze.lemma_index(d.id.row as int, d.id.col as int);
            crate::maze::lemma_replay_push(s0, cols, frame@.subrange(0, k as int), d);
            assert(frame@.subrange(0, k as int).push(d) =~= frame@.subrange(0, k + 1));
        }
        let slot = maze.get_mut(d.id.row, d.id.col);
        *slot = d.after;
        k = k + 1;
    }
    assert(frame@.subrange(0, frame@.len() as int) =~= frame@);
}

/// Writes the `before` value of each delta of the frame, last first.
fn apply_backward(maze: &mut Blueprint, frame: &[Delta])
    requires
        old(maze).wf(),
        forall|k: int| 0 <= k < frame@.len() ==> old(maze).in_bounds(
            (#[trigger] frame@[k]).id.row as int,
            frame@[k].id.col as int,
        ),
    ensures
        final(maze).wf(),
        final(maze).rows == old(maze).rows,
        final(maze).cols == old(maze).cols,
        final(maze).offset == old(maze).offset,
        final(maze).wall_style_index == old(maze).wall_style_index,
        final(maze).buf@ == rewind(old(maze).buf@, old(maze).cols as int, frame@),
{
    let ghost s0 = maze.buf@;
    let ghost cols = maze.cols as int;
    let mut k: usize = frame.len();
    assert(frame@.subrange(0, k as int) =~= frame@);
    while k > 0
        invariant
            k <= frame@.len(),
            maze.wf(),
            maze.rows == old(maze).rows,
            maze.cols == old(maze).cols,
            maze.offset == old(maze).offset,
            maze.wall_style_index == old(maze).wall_style_index,
            cols == maze.cols,
            s0 == old(maze).buf@,
            s0.len() == maze.buf@.len(),
            forall|j: int| 0 <= j < frame@.len() ==> old(maze).in_bounds(
                (#[trigger] frame@[j]).id.row as int,
                frame@[j].id.col as int,
            ),
            rewind(maze.buf@, cols, frame@.subrange(0, k as int)) == rewind(s0, cols, frame@),
        decreases k,
    {
        let d = frame[k - 1];
        proof {
            maze.lemma_index(d.id.row as int, d.id.col as int);
            let pre = frame@.subrange(0, k as int);
            assert(pre.drop_last() =~= frame@.subrange(0, k - 1));
            assert(pre.last() == d);
            reveal(rewind);
        }
        let slot = maze.get_mut(d.id.row, d.id.col);
        *slot = d.before;
        k = k - 1;
    }
    proof {
        reveal(rewind);
        assert(frame@.subrange(0, 0) =~= Seq::<Delta>::empty());
    }
}

/// `new` is `old` after playing the frame under the cursor of `tape` (the old
/// cursor of the tape that `new_tape` holds now) in the direction of `old`.
pub open spec fn played(old_maze: &Blueprint, old_tape: &Tape, forward: bool, new_maze: &Blueprint, new_tape: &Tape) -> bool {
    &&& new_maze.wf()
    &&& new_maze.rows == old_maze.rows
    &&& new_maze.cols == old_maze.cols
    &&& new_maze.offset == old_maze.offset
    &&& new_maze.wall_style_index == old_maze.wall_style_index
    &&& new_tape.deltas() == old_tape.deltas()
    &&& old_tape.deltas().len() == 0 ==> new_maze.buf@ == old_maze.buf@ && new_tape.pos() == old_tape.pos()
    &&& old_tape.deltas().len() > 0 && forward ==> {
        &&& new_maze.buf@ == replay(
            old_maze.buf@,
            old_maze.cols as int,
            spec_frame(old_tape.deltas(), old_tape.pos()),
        )
        &&& new_tape.pos() == old_tape.next_index()
    }
    &&& old_tape.deltas().len() > 0 && !forward ==> {
        &&& new_maze.buf@ == rewind(
            old_maze.buf@,
            old_maze.cols as int,
            spec_frame(old_tape.deltas(), old_tape.pos()),
        )
        &&& new_tape.pos() == old_tape.prev_index()
    }
}

/// Playing the frame under the cursor moves the cursor.
pub open spec fn moves(tape: &Tape, forward: bool) -> bool {
    tape.deltas().len() > 0 && if forward {
        tape.next_index() != tape.pos()
    } else {
        tape.prev_index() != tape.pos()
    }
}

impl Playback {
    /// Plays the frame under the build cursor: forward writes each delta's
    /// `after` and steps the cursor on; backward writes each `before`, last
    /// first, and steps it back. Says whether the cursor moved; an empty tape
    /// changes nothing.
    pub fn build_step(&mut self) -> (moved: bool)
        requires
            old(self).maze.wf(),
            playable(&old(self).build_tape, &old(self).maze),
        ensures
            played(&old(self).maze, &old(self).build_tape, old(self).forward, &final(self).maze, &final(self).build_tape),
            final(self).build_tape.wf(),
            final(self).solve_tape == old(self).solve_tape,
            final(self).forward == old(self).forward,
            final(self).pause == old(self).pause,
            moved == moves(&old(self).build_tape, old(self).forward),
    {
        if let Some(history) = self.build_tape.cur_step() {
            if self.forward {
                apply_forward(&mut self.maze, history);
                return self.build_tape.set_next();
            }
            apply_backward(&mut self.maze, history);
            return self.build_tape.set_prev();
        }
        false
    }

    /// `build_step` on the solve tape.
    pub fn solve_step(&mut self) -> (moved: bool)
        requires
            old(self).maze.wf(),
            playable(&old(self).solve_tape, &old(self).maze),
        ensures
            played(&old(self).maze, &old(self).solve_tape, old(self).forward, &final(self).maze, &final(self).solve_tape),
            final(self).solve_tape.wf(),
            final(self).build_tape == old(self).build_tape,
            final(self).forward == old(self).forward,
            final(self).pause == old(self).pause,
            moved == moves(&old(self).solve_tape, old(self).forward),
    {
        if let Some(history) = self.solve_tape.cur_step() {
            if self.forward {
                apply_forward(&mut self.maze, history);
                return self.solve_tape.set_next();
            }
            apply_backward(&mut self.maze, history);
            return self.solve_tape.set_prev();
        }
        false
    }

    /// One step of the build animation: nothing while paused; forward, a
    /// build step, reporting whether the tape went on; backward, a build
    /// step that turns the direction forward once the tape stops moving.
    pub fn build_delta(&mut self) -> (going: bool)
        requires
            old(self).maze.wf(),
            playable(&old(self).build_tape, &old(self).maze),
        ensures
            old(self).pause ==> going && *final(self) == *old(self),
            !old(self).pause ==> {
                &&& played(&old(self).maze, &old(self).build_tape, old(self).forward, &final(self).maze, &final(self).build_tape)
                &&& final(self).solve_tape == old(self).solve_tape
                &&& final(self).pause == old(self).pause
                &&& old(self).forward ==> going == moves(&old(self).build_tape, true) && final(self).forward
                &&& !old(self).forward ==> going && final(self).forward == !moves(&old(self).build_tape, false)
            },
    {
        if self.pause {
            return true;
        }
        if self.forward {
            if !self.build_step() {
                return false;
            }
        } else {
            self.forward = !self.build_step();
        }
        true
    }

    /// One step of the solve animation: nothing while paused; forward, a
    /// solve step that pauses once the tape stops moving; backward, a solve
    /// step, reporting whether the tape went back.
    pub fn solve_delta(&mut self) -> (going: bool)
        requires
            old(self).maze.wf(),
            playable(&old(self).solve_tape, &old(self).maze),
        ensures
            old(self).pause ==> going && *final(self) == *old(self),
            !old(self).pause ==> {
                &&& played(&old(self).maze, &old(self).solve_tape, old(self).forward, &final(self).maze, &final(self).solve_tape)
                &&& final(self).build_tape == old(self).build_tape
                &&& final(self).forward == old(self).forward
                &&& old(self).forward ==> going && final(self).pause == !moves(&old(self).solve_tape, true)
                &&& !old(self).forward ==> going == moves(&old(self).solve_tape, false) && !final(self).pause
            },
    {
        if self.pause {
            return true;
        }
        if self.forward {
            if !self.solve_step() {
                self.pause = true;
            }
        } else if !self.solve_step() {
            return false;
        }
        true
    }
}

} // verus!
