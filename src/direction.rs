//! The eight compass directions along which words are laid out.

use vstd::prelude::*;
use vstd::seq_lib::to_multiset_contains;

verus! {

/// A step on the grid: `y_dir` moves between rows, `x_dir` between columns.
#[derive(Clone, Copy)]
pub struct Direction {
    pub x_dir: isize,
    pub y_dir: isize,
    pub dbg_name: &'static str,
}

impl Direction {
    /// Each delta is -1, 0 or 1, and the two are not both zero.
    pub open spec fn wf(self) -> bool {
        &&& -1 <= self.x_dir <= 1
        &&& -1 <= self.y_dir <= 1
        &&& !(self.x_dir == 0 && self.y_dir == 0)
    }

    /// The compass label of this direction ("N", "SE", ...).
    pub fn label(&self) -> (r: &'static str)
        ensures
            r == self.dbg_name,
    {
        self.dbg_name
    }
}

/// The fixed table of directions, in the order NW, N, NE, W, E, SW, S, SE.
pub open spec fn direction_table() -> Seq<Direction> {
    seq![
        Direction { y_dir: -1isize, x_dir: -1isize, dbg_name: "NW" },
        Direction { y_dir: -1isize, x_dir: 0isize, dbg_name: "N" },
        Direction { y_dir: -1isize, x_dir: 1isize, dbg_name: "NE" },
        Direction { y_dir: 0isize, x_dir: -1isize, dbg_name: "W" },
        Direction { y_dir: 0isize, x_dir: 1isize, dbg_name: "E" },
        Direction { y_dir: 1isize, x_dir: -1isize, dbg_name: "SW" },
        Direction { y_dir: 1isize, x_dir: 0isize, dbg_name: "S" },
        Direction { y_dir: 1isize, x_dir: 1isize, dbg_name: "SE" },
    ]
}

/// Every direction of the table is well formed.
pub proof fn lemma_table_wf()
    ensures
        forall|d: Direction| #[trigger] direction_table().contains(d) ==> d.wf(),
{
    assert forall|d: Direction| #[trigger] direction_table().contains(d) implies d.wf() by {
        let i = choose|i: int| 0 <= i < direction_table().len() && direction_table()[i] == d;
        assert(0 <= i < 8);
    }
}

/// A reordering of the table holds exactly the table's directions.
pub proof fn lemma_permuted_table(s: Seq<Direction>)
    requires
        s.to_multiset() == direction_table().to_multiset(),
    ensures
        forall|d: Direction| #[trigger] s.contains(d) <==> direction_table().contains(d),
{
    assert forall|d: Direction| #[trigger] s.contains(d) <==> direction_table().contains(d) by {
        to_multiset_contains(s, d);
        to_multiset_contains(direction_table(), d);
    }
}

/// The eight directions, as a fresh vector in table order.
pub fn all_directions() -> (r: Vec<Direction>)
    ensures
        r@ == direction_table(),
{
    let mut r: Vec<Direction> = Vec::new();
    r.push(Direction { y_dir: -1, x_dir: -1, dbg_name: "NW" });
    r.push(Direction { y_dir: -1, x_dir: 0, dbg_name: "N" });
    r.push(Direction { y_dir: -1, x_dir: 1, dbg_name: "NE" });
    r.push(Direction { y_dir: 0, x_dir: -1, dbg_name: "W" });
    r.push(Direction { y_dir: 0, x_dir: 1, dbg_name: "E" });
    r.push(Direction { y_dir: 1, x_dir: -1, dbg_name: "SW" });
    r.push(Direction { y_dir: 1, x_dir: 0, dbg_name: "S" });
    r.push(Direction { y_dir: 1, x_dir: 1, dbg_name: "SE" });
    assert(r@ =~= direction_table());
    r
}

} // verus!
