use vstd::prelude::*;

verus! {

/// A signed two-dimensional grid coordinate.
#[derive(Clone, Copy, Debug, PartialEq, Eq, Hash, Structural)]
pub struct Position {
    pub x: isize,
    pub y: isize,
}

impl Position {
    pub fn new(x: isize, y: isize) -> (r: Position)
        ensures
            r.x == x,
            r.y == y,
    {
        Position { x, y }
    }

    /// The cardinal neighbours in the fixed order left, right, up, down.
    pub open spec fn cardinal_neighbours_spec(self) -> Seq<Position> {
        seq![
            Position { x: (self.x - 1) as isize, y: self.y },
            Position { x: (self.x + 1) as isize, y: self.y },
            Position { x: self.x, y: (self.y - 1) as isize },
            Position { x: self.x, y: (self.y + 1) as isize },
        ]
    }

    pub fn cardinal_neighbours(&self) -> (r: [Position; 4])
        requires
            isize::MIN < self.x < isize::MAX,
            isize::MIN < self.y < isize::MAX,
        ensures
            r@ == self.cardinal_neighbours_spec(),
    {
        let r = [
            Position { x: self.x - 1, y: self.y },
            Position { x: self.x + 1, y: self.y },
            Position { x: self.x, y: self.y - 1 },
            Position { x: self.x, y: self.y + 1 },
        ];
        assert(r@ =~= self.cardinal_neighbours_spec());
        r
    }
}

} // verus!
