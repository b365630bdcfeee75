//! Enumeration of closed, self-avoiding curves drawn on a bounded 7x7 grid of
//! cells, where each cell is empty or holds one diagonal segment, together
//! with exact rational-area bookkeeping and a depth-first backtracking search
//! that harvests every closed curve enclosing a prescribed area.
//!
//! The `fast` module draws curves out of straight diagonal slants and scales
//! each discovered layout by a central binomial coefficient to count the
//! quarter-circle-arc realizations it stands for.  The `slow` module draws the
//! fully general quarter-circle-arc curves directly.  The `stroll` module
//! holds the deterministic heart of a separate set of random-walk puzzles on
//! a hexagonally tiled floor: the tiling's geometry, a base-3 counter over
//! the possible walks, and an exact path-counting table.

pub mod fast;
pub mod slow;
pub mod stroll;
