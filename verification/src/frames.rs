use vstd::prelude::*;
use crate::maze::Blueprint;

verus! {

/// What the animation is playing: a build or a solve.
#[derive(Clone, Copy, PartialEq, Eq, Structural)]
pub enum Process {
    Building,
    Solving,
}

/// The maze grid drawn while a build plays.
pub struct BuildFrame<'a> {
    pub maze: &'a Blueprint,
}

/// The maze grid drawn while a solve plays.
pub struct SolveFrame<'a> {
    pub maze: &'a Blueprint,
}

impl<'a> BuildFrame<'a> {
    pub fn new(maze: &'a Blueprint) -> (f: BuildFrame<'a>)
        ensures
            *f.maze == *maze,
    {
        BuildFrame { maze }
    }
}

impl<'a> SolveFrame<'a> {
    pub fn new(maze: &'a Blueprint) -> (f: SolveFrame<'a>)
        ensures
            *f.maze == *maze,
    {
        SolveFrame { maze }
    }
}

/// A cursor that the terminal hides while a maze is drawn.
#[derive(Clone, Copy)]
pub struct InvisibleCursor;

impl InvisibleCursor {
    pub fn new() -> (c: InvisibleCursor) {
        InvisibleCursor
    }
}

impl Default for InvisibleCursor {
    fn default() -> (c: InvisibleCursor) {
        InvisibleCursor
    }
}

} // verus!
