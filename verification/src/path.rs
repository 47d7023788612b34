//! Path storage.
//!
//! A path is a sequence of commands over fixed-point points. Curves are
//! flattened to line segments upstream, so the rasterizer core only sees
//! moves, lines and closes.

use vstd::prelude::*;

use crate::geom::Point;

verus! {

/// One path command.
#[derive(Clone, Copy, PartialEq, Eq, Structural, Debug)]
pub enum Command {
    /// Start a new sub-path at the point.
    Move(Point),
    /// A straight segment from the current point to the point.
    Line(Point),
    /// Close the current sub-path back to its starting point.
    Close,
}

impl Command {
    /// The point this command carries, if any.
    pub open spec fn point(self) -> Option<Point> {
        match self {
            Command::Move(p) => Some(p),
            Command::Line(p) => Some(p),
            Command::Close => None,
        }
    }

    /// Whether every coordinate the command carries is in range.
    pub open spec fn wf(self) -> bool {
        match self.point() {
            Some(p) => p.wf(),
            None => true,
        }
    }
}

/// A path: a list of commands.
pub struct Path {
    pub cmds: Vec<Command>,
}

impl Path {
    pub open spec fn view(self) -> Seq<Command> {
        self.cmds@
    }

    pub open spec fn wf(self) -> bool {
        forall|i: int| 0 <= i < self.cmds@.len() ==> (#[trigger] self.cmds@[i]).wf()
    }

    /// An empty path.
    pub fn new() -> (p: Path)
        ensures
            p.view() =~= Seq::<Command>::empty(),
            p.wf(),
    {
        Path { cmds: Vec::new() }
    }

    pub fn is_empty(&self) -> (r: bool)
        ensures
            r == (self.view().len() == 0),
    {
        self.cmds.len() == 0
    }

    /// Start a new sub-path at `p`.
    pub fn move_to(&mut self, p: Point)
        requires
            p.wf(),
            old(self).wf(),
        ensures
            final(self).view() =~= old(self).view().push(Command::Move(p)),
            final(self).wf(),
    {
        self.cmds.push(Command::Move(p));
    }

    /// A straight segment from the current point to `p`.
    pub fn line_to(&mut self, p: Point)
        requires
            p.wf(),
            old(self).wf(),
        ensures
            final(self).view() =~= old(self).view().push(Command::Line(p)),
            final(self).wf(),
    {
        self.cmds.push(Command::Line(p));
    }

    /// Close the current sub-path.
    pub fn close(&mut self)
        requires
            old(self).wf(),
        ensures
            final(self).view() =~= old(self).view().push(Command::Close),
            final(self).wf(),
    {
        self.cmds.push(Command::Close);
    }
}

} // verus!
