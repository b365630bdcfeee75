//! Helpers for random walks on an infinite hexagonally tiled floor whose
//! white hexagons each touch exactly three other white hexagons.
//!
//! The floor is modelled with a coordinate `(x, y)` for every hexagon.  There
//! are two kinds of white hexagon, told apart by `hex_type` from the
//! coordinates alone, and each kind reaches its three white neighbours in its
//! own three compass directions.  A base-3 counter over twenty digits
//! enumerates every possible sequence of twenty step choices.

use vstd::prelude::*;

verus! {

/// A representation of a coordinate on the floor plane.
pub type Coord = (i32, i32);

/// Coordinates far enough from the `i32` boundary that taking a step, or
/// telling the hexagon kinds apart, stays within machine arithmetic.
pub open spec fn coord_in_range(c: Coord) -> bool {
    i32::MIN + 8 <= c.0 <= i32::MAX - 8 && i32::MIN + 8 <= c.1 <= i32::MAX - 8
}

/// The kind of the white hexagon at `c`: the two kinds alternate over the
/// tiling according to the residues of the coordinates modulo three.
pub open spec fn spec_hex_type(c: Coord) -> bool {
    (c.1 as int) % 3 == (3 - c.0 as int) % 3
}

/// The three white hexagons adjacent to the white hexagon at `c`, in the
/// order the step index picks them.
pub open spec fn neighbours_of(c: Coord) -> Seq<Coord> {
    if spec_hex_type(c) {
        seq![
            (((c.0 + 1) as i32), ((c.1 + 1) as i32)),
            ((c.0), ((c.1 - 1) as i32)),
            (((c.0 - 1) as i32), (c.1)),
        ]
    } else {
        seq![
            ((c.0), ((c.1 + 1) as i32)),
            (((c.0 + 1) as i32), (c.1)),
            (((c.0 - 1) as i32), ((c.1 - 1) as i32)),
        ]
    }
}

/// The hexagon that the step index `idx` moves onto.  The three indices pick
/// the three white neighbours; on the second kind of hexagon they pick them
/// in a different order than `neighbours_of` lists them.
pub open spec fn move_target(c: Coord, idx: int) -> Coord {
    if spec_hex_type(c) || idx == 0 {
        neighbours_of(c)[idx]
    } else if idx == 1 {
        neighbours_of(c)[2]
    } else {
        neighbours_of(c)[1]
    }
}

/// The hexagon reached after following the first `j` decision digits of a
/// walk that starts at the origin.
pub open spec fn walk_pos(digits: Seq<usize>, j: int) -> Coord
    decreases j,
{
    if j <= 0 {
        (0i32, 0i32)
    } else {
        move_target(walk_pos(digits, j - 1), digits[j - 1] as int)
    }
}

proof fn lemma_walk_pos_bound(digits: Seq<usize>, j: int)
    requires
        0 <= j <= 20,
        forall|i: int| 0 <= i < j ==> #[trigger] digits[i] <= 2,
    ensures
        key_bound(walk_pos(digits, j), j),
    decreases j,
{
    if j > 0 {
        lemma_walk_pos_bound(digits, j - 1);
        let c = walk_pos(digits, j - 1);
        lemma_neighbour_bound(c, j - 1, 0);
        lemma_neighbour_bound(c, j - 1, 1);
        lemma_neighbour_bound(c, j - 1, 2);
    }
}

/// Relies on `i32::rem_euclid`: for a positive modulus it returns the least
/// non-negative remainder, which is the Euclidean remainder.
pub assume_specification[ i32::rem_euclid ](x: i32, rhs: i32) -> (r: i32)
    requires
        rhs > 0,
    ensures
        r as int == (x as int) % (rhs as int),
;

/// A possible trajectory of a walk: `k` positions after `src`, each a white
/// neighbour of the one before, none of which is `tgt` except possibly the
/// final one.
pub open spec fn walk_trajectory(src: (i32, i32), tgt: (i32, i32), tr: Seq<(i32, i32)>, k: int) -> bool {
    &&& tr.len() == k + 1
    &&& tr[0] == src
    &&& forall|j: int| 0 <= j < k ==> neighbours_of(#[trigger] tr[j]).contains(tr[j + 1])
    &&& forall|j: int| 1 <= j < k ==> #[trigger] tr[j] != tgt
}

/// An implementation of the infinite hexagonally tiled kitchen floor.
///
/// Every white hexagon is surrounded by alternating black and white hexagons;
/// the walker stands on a white hexagon and steps only onto white ones.
pub struct KitchenFloor {
    coords: (i32, i32),
}

impl KitchenFloor {
    /// The coordinates the walker currently stands on.
    pub closed spec fn spec_coords(&self) -> Coord {
        self.coords
    }

    /// Create a new kitchen floor with the walker at the origin.
    pub fn new() -> (kf: KitchenFloor)
        ensures
            kf.spec_coords() == ((0i32, 0i32)),
    {
        KitchenFloor { coords: (0, 0) }
    }

    /// The kind of the white hexagon at `coord`.
    pub fn coord_hex_type(coord: (i32, i32)) -> (t: bool)
        requires
            coord_in_range(coord),
        ensures
            t == spec_hex_type(coord),
    {
        let x = coord.0;
        let y = coord.1;
        y.rem_euclid(3) == (3 - x).rem_euclid(3)
    }

    /// The three white hexagons adjacent to the white hexagon at `coord`.
    pub fn coord_neighbours(coord: (i32, i32)) -> (r: [(i32, i32); 3])
        requires
            coord_in_range(coord),
        ensures
            r@ == neighbours_of(coord),
    {
        let r: [(i32, i32); 3] = if Self::coord_hex_type(coord) {
            [
                (coord.0 + 1, coord.1 + 1),
                (coord.0, coord.1 - 1),
                (coord.0 - 1, coord.1),
            ]
        } else {
            [
                (coord.0, coord.1 + 1),
                (coord.0 + 1, coord.1),
                (coord.0 - 1, coord.1 - 1),
            ]
        };
        proof {
            assert(r@ =~= neighbours_of(coord));
        }
        r
    }

    /// The kind of the hexagon the walker stands on.
    pub fn hex_type(&self) -> (t: bool)
        requires
            coord_in_range(self.spec_coords()),
        ensures
            t == spec_hex_type(self.spec_coords()),
    {
        Self::coord_hex_type(self.coords)
    }

    /// The three hexagons the walker could step onto.
    pub fn neighbours(&self) -> (r: [(i32, i32); 3])
        requires
            coord_in_range(self.spec_coords()),
        ensures
            r@ == neighbours_of(self.spec_coords()),
    {
        Self::coord_neighbours(self.coords)
    }

    /// Step onto the neighbour picked by `idx`.
    pub fn move_from_idx(&mut self, idx: usize)
        requires
            coord_in_range(old(self).spec_coords()),
            idx < 3,
        ensures
            final(self).spec_coords() == move_target(old(self).spec_coords(), idx as int),
            neighbours_of(old(self).spec_coords()).contains(final(self).spec_coords()),
    {
        if self.hex_type() {
            match idx {
                0 => {
                    self.coords.0 = self.coords.0 + 1;
                    self.coords.1 = self.coords.1 + 1;
                },
                1 => {
                    self.coords.1 = self.coords.1 - 1;
                },
                _ => {
                    self.coords.0 = self.coords.0 - 1;
                },
            }
        } else {
            match idx {
                0 => {
                    self.coords.1 = self.coords.1 + 1;
                },
                1 => {
                    self.coords.0 = self.coords.0 - 1;
                    self.coords.1 = self.coords.1 - 1;
                },
                _ => {
                    self.coords.0 = self.coords.0 + 1;
                },
            }
        }
    }

    /// Put the walker at the origin and follow the twenty decision digits,
    /// stopping as soon as the walk first returns home.  Reports whether the
    /// walk returned home on or before its twentieth step.
    pub fn walk_returns_home(&mut self, decisions: &Decisions) -> (r: bool)
        requires
            decisions.wf(),
        ensures
            r == exists|j: int| 1 <= j <= 20 && walk_pos(decisions@, j) == ((0i32, 0i32)),
    {
        self.set_state((0, 0));
        let digits = decisions.curr();
        let mut step: usize = 0;
        while step < 20
            invariant
                decisions.wf(),
                digits@ == decisions@,
                step <= 20,
                self.spec_coords() == walk_pos(decisions@, step as int),
                forall|j: int| 1 <= j <= step ==> walk_pos(decisions@, j) != ((0i32, 0i32)),
            decreases 20 - step,
        {
            proof {
                lemma_walk_pos_bound(decisions@, step as int);
            }
            let d = digits[step];
            self.move_from_idx(d);
            step = step + 1;
            let c = self.get_state();
            if c.0 == 0 && c.1 == 0 {
                proof {
                    assert(walk_pos(decisions@, step as int) == ((0i32, 0i32)));
                }
                return true;
            }
        }
        false
    }

    /// Perform a random walk from `src`, making random moves until `tgt` is
    /// reached or `limit` moves have been made; at least one move is always
    /// made.  Returns `Ok` with the number of steps when the walk ended on
    /// `tgt`, and `Err(limit)` when the limit ran out elsewhere.  Either way
    /// the positions taken form a trajectory of neighbouring hexagons that
    /// touches `tgt` at most as its final position, so the step count of an
    /// `Ok` is the walk's first arrival.
    pub fn walk_until_limit(&mut self, src: (i32, i32), tgt: (i32, i32), limit: u32) -> (r: Result<
        u32,
        u32,
    >)
        requires
            1 <= limit,
            i32::MIN + 8 <= src.0 - limit && src.0 + limit <= i32::MAX - 8,
            i32::MIN + 8 <= src.1 - limit && src.1 + limit <= i32::MAX - 8,
        ensures
            r matches Ok(n) ==> 1 <= n <= limit && final(self).spec_coords() == tgt && (exists|tr: Seq<(i32, i32)>|
                #[trigger] walk_trajectory(src, tgt, tr, n as int) && tr[n as int] == tgt),
            r matches Err(n) ==> n == limit && final(self).spec_coords() != tgt && (exists|tr: Seq<(i32, i32)>|
                #[trigger] walk_trajectory(src, tgt, tr, limit as int)
                    && tr[limit as int] == final(self).spec_coords()),
    {
        self.set_state(src);

        let ghost mut tr: Seq<(i32, i32)> = seq![src];
        self.make_move();
        proof {
            tr = tr.push(self.spec_coords());
        }
        let mut cnt: u32 = 1;

        while !(self.get_state().0 == tgt.0 && self.get_state().1 == tgt.1) && cnt < limit
            invariant
                1 <= cnt <= limit,
                i32::MIN + 8 <= src.0 - limit && src.0 + limit <= i32::MAX - 8,
                i32::MIN + 8 <= src.1 - limit && src.1 + limit <= i32::MAX - 8,
                src.0 - cnt <= self.spec_coords().0 <= src.0 + cnt,
                src.1 - cnt <= self.spec_coords().1 <= src.1 + cnt,
                tr.len() == cnt + 1,
                tr[0] == src,
                tr[cnt as int] == self.spec_coords(),
                forall|j: int|
                    0 <= j < cnt ==> neighbours_of(#[trigger] tr[j]).contains(tr[j + 1]),
                forall|j: int| 1 <= j < cnt ==> #[trigger] tr[j] != tgt,
            decreases limit - cnt,
        {
            proof {
                assert(tr[cnt as int] != tgt);
            }
            self.make_move();
            proof {
                tr = tr.push(self.spec_coords());
            }
            cnt = cnt + 1;
        }

        proof {
            assert(walk_trajectory(src, tgt, tr, cnt as int));
        }
        if cnt == limit {
            if self.get_state().0 == tgt.0 && self.get_state().1 == tgt.1 {
                Ok(limit)
            } else {
                Err(limit)
            }
        } else {
            Ok(cnt)
        }
    }

    /// The walker's current position.
    pub fn get_state(&self) -> (c: (i32, i32))
        ensures
            c == self.spec_coords(),
    {
        self.coords
    }

    /// Put the walker at `state`.
    pub fn set_state(&mut self, state: (i32, i32))
        ensures
            final(self).spec_coords() == state,
    {
        self.coords = state;
    }

    /// Make a random move onto one of the three neighbouring white hexagons,
    /// each with equal probability.
    pub fn make_move(&mut self)
        requires
            coord_in_range(old(self).spec_coords()),
        ensures
            neighbours_of(old(self).spec_coords()).contains(final(self).spec_coords()),
    {
        let random_idx = random_step_index();
        self.move_from_idx(random_idx);
    }
}

/// Relies on `fastrand::usize`: a draw from the given non-empty range lies in
/// that range.
#[verifier::external_body]
fn random_step_index() -> (r: usize)
    ensures
        r < 3,
{
    fastrand::usize(..3)
}


/// The twenty white hexagons of the football, each with its three white
/// neighbours: the graph of the hexagonal faces of a truncated icosahedron,
/// hand-coded from a stereographic projection.
pub open spec fn football_adjacency(n: int) -> Seq<i32> {
    if n == 1 {
        seq![2i32, 6i32, 5i32]
    } else if n == 2 {
        seq![1i32, 7i32, 3i32]
    } else if n == 3 {
        seq![4i32, 8i32, 2i32]
    } else if n == 4 {
        seq![3i32, 9i32, 5i32]
    } else if n == 5 {
        seq![4i32, 10i32, 1i32]
    } else if n == 6 {
        seq![1i32, 11i32, 12i32]
    } else if n == 7 {
        seq![2i32, 12i32, 13i32]
    } else if n == 8 {
        seq![3i32, 13i32, 14i32]
    } else if n == 9 {
        seq![4i32, 14i32, 15i32]
    } else if n == 10 {
        seq![5i32, 11i32, 15i32]
    } else if n == 11 {
        seq![6i32, 10i32, 20i32]
    } else if n == 12 {
        seq![6i32, 7i32, 16i32]
    } else if n == 13 {
        seq![7i32, 8i32, 17i32]
    } else if n == 14 {
        seq![8i32, 9i32, 18i32]
    } else if n == 15 {
        seq![9i32, 10i32, 19i32]
    } else if n == 16 {
        seq![12i32, 17i32, 20i32]
    } else if n == 17 {
        seq![13i32, 16i32, 18i32]
    } else if n == 18 {
        seq![14i32, 17i32, 19i32]
    } else if n == 19 {
        seq![15i32, 18i32, 20i32]
    } else if n == 20 {
        seq![11i32, 16i32, 19i32]
    } else {
        Seq::empty()
    }
}

/// The three hexagons adjacent to hexagon `n` on the football.
pub fn football_neighbours(n: i32) -> (r: [i32; 3])
    requires
        1 <= n <= 20,
    ensures
        r@ == football_adjacency(n as int),
        forall|i: int| 0 <= i < 3 ==> 1 <= #[trigger] r@[i] <= 20,
{
    let r: [i32; 3] = match n {
        1 => [2, 6, 5],
        2 => [1, 7, 3],
        3 => [4, 8, 2],
        4 => [3, 9, 5],
        5 => [4, 10, 1],
        6 => [1, 11, 12],
        7 => [2, 12, 13],
        8 => [3, 13, 14],
        9 => [4, 14, 15],
        10 => [5, 11, 15],
        11 => [6, 10, 20],
        12 => [6, 7, 16],
        13 => [7, 8, 17],
        14 => [8, 9, 18],
        15 => [9, 10, 19],
        16 => [12, 17, 20],
        17 => [13, 16, 18],
        18 => [14, 17, 19],
        19 => [15, 18, 20],
        20 => [11, 16, 19],
        _ => [0, 0, 0],
    };
    proof {
        assert(r@ =~= football_adjacency(n as int));
    }
    r
}

/// The football's adjacency is symmetric: each hexagon lists exactly the
/// hexagons that list it, so the hand-coded table really describes an
/// undirected graph.
pub proof fn lemma_football_symmetric(n: i32, m: i32)
    requires
        1 <= n <= 20,
        1 <= m <= 20,
    ensures
        football_adjacency(n as int).contains(m) <==> football_adjacency(m as int).contains(n),
{
}

/// A helper struct to assist with iterating through the possible choices of
/// path: a base-3 counter, stored as twenty digits in little-endian order,
/// each digit between 0 and 2.
pub struct Decisions {
    curr: [usize; 20],
}

impl View for Decisions {
    type V = Seq<usize>;

    closed spec fn view(&self) -> Seq<usize> {
        self.curr@
    }
}

impl Decisions {
    /// Every digit of the counter stays between 0 and 2.
    pub open spec fn wf(&self) -> bool {
        self@.len() == 20 && forall|i: int| 0 <= i < 20 ==> #[trigger] self@[i] <= 2
    }

    /// Create a new decision counter, at all zeroes.
    pub fn new() -> (d: Decisions)
        ensures
            d.wf(),
            forall|i: int| 0 <= i < 20 ==> #[trigger] d@[i] == 0,
    {
        Decisions { curr: [0; 20] }
    }

    /// Return the current value of the array representation of the path.
    pub fn curr(&self) -> (r: &[usize; 20])
        ensures
            r@ == self@,
    {
        &self.curr
    }

    /// Increment to the next path: the counter counts in base 3, so the run
    /// of low-order twos resets to zero and the next digit, if any, gains
    /// one.
    pub fn inc(&mut self)
        requires
            old(self).wf(),
        ensures
            final(self).wf(),
            exists|k: int| #[trigger] carried(old(self)@, final(self)@, k),
    {
        let mut idx: usize = 0;
        while idx < 20
            invariant
                idx <= 20,
                self@.len() == 20,
                forall|i: int| 0 <= i < 20 ==> #[trigger] old(self)@[i] <= 2,
                forall|i: int| 0 <= i < idx ==> old(self)@[i] == 2,
                forall|i: int| 0 <= i < idx ==> #[trigger] self@[i] == 0,
                forall|i: int| idx <= i < 20 ==> #[trigger] self@[i] == old(self)@[i],
            decreases 20 - idx,
        {
            if self.curr[idx] == 2 {
                self.curr[idx] = 0;
            } else {
                self.curr[idx] = self.curr[idx] + 1;
                // As soon as we increment a digit rather than resetting it,
                // we are done.
                proof {
                    assert(carried(old(self)@, self@, idx as int));
                }
                return ;
            }
            idx = idx + 1;
        }
        proof {
            assert(carried(old(self)@, self@, 20int));
        }
    }
}

/// The exact relation of one base-3 increment: the first `k` digits were all
/// twos and reset to zero, digit `k` (if any) gains one, and the digits above
/// `k` stand unchanged.
pub open spec fn carried(pre: Seq<usize>, post: Seq<usize>, k: int) -> bool {
    &&& 0 <= k <= 20
    &&& forall|i: int| 0 <= i < k ==> pre[i] == 2
    &&& forall|i: int| 0 <= i < k ==> #[trigger] post[i] == 0
    &&& k < 20 ==> post[k] == pre[k] + 1
    &&& forall|i: int| k < i < 20 ==> #[trigger] post[i] == pre[i]
}

/// Powers of three.
pub open spec fn pow3(n: nat) -> int
    decreases n,
{
    if n == 0 {
        1
    } else {
        3 * pow3((n - 1) as nat)
    }
}

proof fn lemma_pow3_pos(n: nat)
    ensures
        pow3(n) >= 1,
    decreases n,
{
    if n > 0 {
        lemma_pow3_pos((n - 1) as nat);
    }
}

proof fn lemma_pow3_mono(a: nat, b: nat)
    requires
        a <= b,
    ensures
        pow3(a) <= pow3(b),
    decreases b,
{
    lemma_pow3_pos(a);
    if a < b {
        lemma_pow3_mono(a, (b - 1) as nat);
    }
}

proof fn lemma_pow3_adds(a: nat, b: nat)
    ensures
        pow3(a) * pow3(b) == pow3((a + b) as nat),
    decreases a,
{
    if a > 0 {
        lemma_pow3_adds((a - 1) as nat, b);
        let x = pow3((a - 1) as nat);
        let y = pow3(b);
        assert(pow3(a) == 3 * x);
        assert(pow3((a + b) as nat) == 3 * pow3(((a - 1) + b) as nat));
        assert((3 * x) * y == 3 * (x * y)) by (nonlinear_arith);
    }
}

proof fn lemma_pow3_32()
    ensures
        pow3(32) == 1853020188851841,
{
    assert(pow3(0) == 1);
    assert(pow3(1) == 3);
    assert(pow3(2) == 9);
    assert(pow3(3) == 27);
    assert(pow3(4) == 81);
    assert(pow3(5) == 243);
    assert(pow3(6) == 729);
    assert(pow3(7) == 2187);
    assert(pow3(8) == 6561);
    assert(pow3(9) == 19683);
    assert(pow3(10) == 59049);
    assert(pow3(11) == 177147);
    assert(pow3(12) == 531441);
    assert(pow3(13) == 1594323);
    assert(pow3(14) == 4782969);
    assert(pow3(15) == 14348907);
    assert(pow3(16) == 43046721);
    assert(pow3(17) == 129140163);
    assert(pow3(18) == 387420489);
    assert(pow3(19) == 1162261467);
    assert(pow3(20) == 3486784401);
    assert(pow3(21) == 10460353203);
    assert(pow3(22) == 31381059609);
    assert(pow3(23) == 94143178827);
    assert(pow3(24) == 282429536481);
    assert(pow3(25) == 847288609443);
    assert(pow3(26) == 2541865828329);
    assert(pow3(27) == 7625597484987);
    assert(pow3(28) == 22876792454961);
    assert(pow3(29) == 68630377364883);
    assert(pow3(30) == 205891132094649);
    assert(pow3(31) == 617673396283947);
    assert(pow3(32) == 1853020188851841);
}

/// The partial map that an association list stands for.
pub open spec fn map_of(s: Seq<((i32, i32), u64)>) -> Map<(i32, i32), u64>
    decreases s.len(),
{
    if s.len() == 0 {
        Map::empty()
    } else {
        map_of(s.drop_last()).insert(s.last().0, s.last().1)
    }
}

/// Whether the entries of an association list have pairwise distinct keys.
pub open spec fn keys_distinct(s: Seq<((i32, i32), u64)>) -> bool {
    forall|i: int, j: int| 0 <= i < j < s.len() ==> (#[trigger] s[i]).0 != (#[trigger] s[j]).0
}

proof fn lemma_map_of_contains(s: Seq<((i32, i32), u64)>, c: (i32, i32))
    ensures
        map_of(s).dom().contains(c) <==> exists|q: int| 0 <= q < s.len() && (#[trigger] s[q]).0
            == c,
    decreases s.len(),
{
    if s.len() > 0 {
        lemma_map_of_contains(s.drop_last(), c);
        if s.last().0 == c {
            assert(s[s.len() - 1].0 == c);
        } else if map_of(s).dom().contains(c) {
            let q = choose|q: int| 0 <= q < s.len() - 1 && (#[trigger] s.drop_last()[q]).0 == c;
            assert(s[q].0 == c);
        } else {
            assert forall|q: int| 0 <= q < s.len() implies (#[trigger] s[q]).0 != c by {
                if q < s.len() - 1 {
                    assert(s.drop_last()[q] == s[q]);
                }
            }
        }
    }
}

proof fn lemma_map_of_get(s: Seq<((i32, i32), u64)>, q: int)
    requires
        keys_distinct(s),
        0 <= q < s.len(),
    ensures
        map_of(s).dom().contains(s[q].0),
        map_of(s)[s[q].0] == s[q].1,
    decreases s.len(),
{
    if q == s.len() - 1 {
    } else {
        assert(keys_distinct(s.drop_last()));
        assert(s.drop_last()[q] == s[q]);
        lemma_map_of_get(s.drop_last(), q);
        assert(s[q].0 != s.last().0);
    }
}

/// Both coordinates of `c` lie within `b` of the origin.
pub open spec fn key_bound(c: (i32, i32), b: int) -> bool {
    -b <= c.0 <= b && -b <= c.1 <= b
}

proof fn lemma_neighbour_bound(c: (i32, i32), b: int, j: int)
    requires
        key_bound(c, b),
        0 <= b <= 100,
        0 <= j < 3,
    ensures
        key_bound(neighbours_of(c)[j], b + 1),
{
}

/// The number of paths `m` records as resting at `n`, as seen by the counting
/// step numbered `step`: paths resting at the origin have terminated there
/// and carry nothing onward, except on the very first step, when the origin
/// holds the one empty path.
pub open spec fn from_source(m: Map<(i32, i32), u64>, n: (i32, i32), step: int) -> int {
    if m.dom().contains(n) && (n != (0i32, 0i32) || step == 1) {
        m[n] as int
    } else {
        0
    }
}

/// Whether `c` belongs to the domain after one counting step: it was already
/// tracked, or it neighbours a tracked hexagon.
pub open spec fn step_domain(m: Map<(i32, i32), u64>, c: (i32, i32)) -> bool {
    m.dom().contains(c) || exists|n: (i32, i32)| #[trigger] m.dom().contains(n)
        && neighbours_of(n).contains(c)
}

/// The count of `c` after one counting step: the counts carried in from its
/// three neighbours.
pub open spec fn step_value(m: Map<(i32, i32), u64>, c: (i32, i32), step: int) -> int {
    from_source(m, neighbours_of(c)[0], step) + from_source(m, neighbours_of(c)[1], step)
        + from_source(m, neighbours_of(c)[2], step)
}

/// The whole map after one counting step.
pub open spec fn step_map(m: Map<(i32, i32), u64>, step: int) -> Map<(i32, i32), u64> {
    Map::new(|c: (i32, i32)| step_domain(m, c), |c: (i32, i32)| step_value(m, c, step) as u64)
}

/// The map `k` counting steps after a map `m0` seen at step `s0`.
pub open spec fn map_at(m0: Map<(i32, i32), u64>, s0: int, k: nat) -> Map<(i32, i32), u64>
    decreases k,
{
    if k == 0 {
        m0
    } else {
        step_map(map_at(m0, s0, (k - 1) as nat), s0 + k)
    }
}

/// The number of paths a map records at the origin.
pub open spec fn origin_count(m: Map<(i32, i32), u64>) -> int {
    if m.dom().contains((0i32, 0i32)) {
        m[(0i32, 0i32)] as int
    } else {
        0
    }
}

/// The paths that returned to the origin within the first `k` of `total`
/// counting steps, each counted once.
pub open spec fn plain_returns(m0: Map<(i32, i32), u64>, s0: int, k: nat) -> int
    decreases k,
{
    if k == 0 {
        0
    } else {
        plain_returns(m0, s0, (k - 1) as nat) + origin_count(map_at(m0, s0, k))
    }
}

/// The paths that returned to the origin within the first `k` of `total`
/// counting steps, each scaled by three to the power of the steps that remain
/// after its return, so that every count is stated in units of full-length
/// paths.
pub open spec fn weighted_returns(m0: Map<(i32, i32), u64>, s0: int, total: nat, k: nat) -> int
    decreases k,
{
    if k == 0 {
        0
    } else {
        weighted_returns(m0, s0, total, (k - 1) as nat) + origin_count(map_at(m0, s0, k)) * pow3(
            (total - k) as nat,
        )
    }
}

/// The number of paths recorded for `c`, or zero when `c` has no entry.
fn lookup(cells: &Vec<((i32, i32), u64)>, c: (i32, i32)) -> (r: u64)
    requires
        keys_distinct(cells@),
    ensures
        map_of(cells@).dom().contains(c) ==> r == map_of(cells@)[c],
        !map_of(cells@).dom().contains(c) ==> r == 0,
{
    let mut i: usize = 0;
    while i < cells.len()
        invariant
            keys_distinct(cells@),
            i <= cells@.len(),
            forall|q: int| 0 <= q < i ==> (#[trigger] cells@[q]).0 != c,
        decreases cells@.len() - i,
    {
        let e = cells[i];
        if e.0.0 == c.0 && e.0.1 == c.1 {
            proof {
                lemma_map_of_get(cells@, i as int);
            }
            return e.1;
        }
        i = i + 1;
    }
    proof {
        lemma_map_of_contains(cells@, c);
    }
    0
}

/// Ensure `c` has an entry, adding a zero entry when it has none.
fn insert_zero(cells: &mut Vec<((i32, i32), u64)>, c: (i32, i32))
    requires
        keys_distinct(old(cells)@),
    ensures
        keys_distinct(final(cells)@),
        final(cells)@ == old(cells)@ || final(cells)@ == old(cells)@.push((c, 0u64)),
        map_of(final(cells)@) == (if map_of(old(cells)@).dom().contains(c) {
            map_of(old(cells)@)
        } else {
            map_of(old(cells)@).insert(c, 0u64)
        }),
{
    let mut i: usize = 0;
    while i < cells.len()
        invariant
            keys_distinct(cells@),
            cells@ == old(cells)@,
            i <= cells@.len(),
            forall|q: int| 0 <= q < i ==> (#[trigger] cells@[q]).0 != c,
        decreases cells@.len() - i,
    {
        let e = cells[i];
        if e.0.0 == c.0 && e.0.1 == c.1 {
            proof {
                lemma_map_of_get(cells@, i as int);
            }
            return ;
        }
        i = i + 1;
    }
    proof {
        lemma_map_of_contains(cells@, c);
    }
    cells.push((c, 0));
    proof {
        lemma_map_of_contains(old(cells)@, c);
        assert(cells@.drop_last() =~= old(cells)@);
        assert forall|q1: int, q2: int| 0 <= q1 < q2 < cells@.len() implies (#[trigger] cells@[q1]).0
            != (#[trigger] cells@[q2]).0 by {
            if q2 == cells@.len() - 1 {
                assert(cells@[q1] == old(cells)@[q1]);
            } else {
                assert(cells@[q1] == old(cells)@[q1]);
                assert(cells@[q2] == old(cells)@[q2]);
            }
        }
    }
}

/// Stores a representation of the underlying graph, tracking how many paths
/// have arrived at each hexagon by the current time step.
///
/// Calling `next` steps the representation forward by introducing every
/// hexagon adjacent to a tracked one, and then setting each tracked count to
/// the sum of the counts of its neighbours from the previous step, without
/// counting any contribution from the origin, because paths which reached the
/// origin terminated there.
pub struct GraphPathCounter {
    /// The kitchen floor model.
    kf: KitchenFloor,
    /// The total number of paths which can arrive at each tracked coordinate
    /// by the current time step, as a table with pairwise distinct keys.
    cells: Vec<((i32, i32), u64)>,
    /// Which time step we are currently at.
    step: usize,
}

impl GraphPathCounter {
    /// The table this counter currently holds, as a map.
    pub closed spec fn spec_cells(&self) -> Map<(i32, i32), u64> {
        map_of(self.cells@)
    }

    /// The time step this counter stands at.
    pub closed spec fn spec_step(&self) -> int {
        self.step as int
    }

    /// Well-formedness: distinct keys, a bounded step, every tracked
    /// coordinate within `step` of the origin, and every count at most the
    /// `3^step` paths that could exist at all.
    pub closed spec fn inv(&self) -> bool {
        &&& keys_distinct(self.cells@)
        &&& self.step <= 32
        &&& forall|q: int|
            0 <= q < self.cells@.len() ==> key_bound((#[trigger] self.cells@[q]).0, self.step as int)
        &&& forall|q: int|
            0 <= q < self.cells@.len() ==> (#[trigger] self.cells@[q]).1 as int <= pow3(
                self.step as nat,
            )
    }

    /// Create a new graph counter: at step zero, one (empty) path rests at
    /// the origin.
    pub fn new() -> (g: GraphPathCounter)
        ensures
            g.inv(),
            g.spec_step() == 0,
            g.spec_cells() == Map::<(i32, i32), u64>::empty().insert((0i32, 0i32), 1u64),
    {
        let mut cells: Vec<((i32, i32), u64)> = Vec::new();
        cells.push(((0, 0), 1));
        proof {
            assert(cells@.drop_last() =~= Seq::<((i32, i32), u64)>::empty());
            assert(map_of(Seq::<((i32, i32), u64)>::empty()) == Map::<(i32, i32), u64>::empty());
            assert(cells@.last() == (((0i32, 0i32), 1u64)));
            assert(map_of(cells@) =~= Map::<(i32, i32), u64>::empty().insert((0i32, 0i32), 1u64));
        }
        GraphPathCounter { kf: KitchenFloor::new(), cells, step: 0 }
    }

    /// Step the internal graph representation forward: every neighbour of a
    /// tracked hexagon joins the table, and each tracked hexagon's count
    /// becomes the sum of its neighbours' previous counts, with paths resting
    /// at the origin carried onward only on the first step.
    #[verifier::rlimit(100)]
    pub fn next(&mut self)
        requires
            old(self).inv(),
            old(self).spec_step() < 32,
        ensures
            final(self).inv(),
            final(self).spec_step() == old(self).spec_step() + 1,
            final(self).spec_cells() == step_map(old(self).spec_cells(), old(self).spec_step() + 1),
    {
        proof {
            lemma_pow3_pos(self.step as nat);
        }
        let ghost m0 = map_of(self.cells@);
        let ghost step0 = self.step as int;
        self.step = self.step + 1;

        // Collect the tracked coordinates.
        let mut keys: Vec<(i32, i32)> = Vec::with_capacity(self.cells.len());
        let mut i: usize = 0;
        while i < self.cells.len()
            invariant
                i <= self.cells@.len(),
                keys@.len() == i,
                forall|q: int| 0 <= q < i ==> #[trigger] keys@[q] == self.cells@[q].0,
            decreases self.cells@.len() - i,
        {
            let e = self.cells[i];
            keys.push(e.0);
            i = i + 1;
        }
        let ghost cells0 = self.cells@;

        // Introduce a zero entry for every neighbour of a tracked hexagon.
        let mut i: usize = 0;
        while i < keys.len()
            invariant
                self.step == step0 + 1,
                0 <= step0 < 32,
                keys_distinct(self.cells@),
                keys@.len() == cells0.len(),
                forall|q: int| 0 <= q < keys@.len() ==> #[trigger] keys@[q] == cells0[q].0,
                i <= keys@.len(),
                m0 == map_of(cells0),
                keys_distinct(cells0),
                pow3(step0 as nat) >= 1,
                forall|q: int| 0 <= q < cells0.len() ==> key_bound((#[trigger] cells0[q]).0, step0),
                forall|q: int|
                    0 <= q < cells0.len() ==> (#[trigger] cells0[q]).1 as int <= pow3(step0 as nat),
                forall|q: int|
                    0 <= q < self.cells@.len() ==> key_bound(
                        (#[trigger] self.cells@[q]).0,
                        self.step as int,
                    ),
                forall|q: int|
                    0 <= q < self.cells@.len() ==> (#[trigger] self.cells@[q]).1 as int <= pow3(
                        step0 as nat,
                    ),
                forall|c: (i32, i32)|
                    #[trigger] m0.dom().contains(c) ==> map_of(self.cells@).dom().contains(c)
                        && map_of(self.cells@)[c] == m0[c],
                forall|c: (i32, i32)|
                    #[trigger] map_of(self.cells@).dom().contains(c) && !m0.dom().contains(c)
                        ==> map_of(self.cells@)[c] == 0,
                forall|c: (i32, i32)|
                    #[trigger] map_of(self.cells@).dom().contains(c) <==> (m0.dom().contains(c)
                        || exists|q: int|
                        0 <= q < i && neighbours_of(#[trigger] keys@[q]).contains(c)),
            decreases keys@.len() - i,
        {
            let k = keys[i];
            proof {
                assert(key_bound(k, step0));
                lemma_neighbour_bound(k, step0, 0);
                lemma_neighbour_bound(k, step0, 1);
                lemma_neighbour_bound(k, step0, 2);
            }
            let nbs = KitchenFloor::coord_neighbours(k);
            let ghost before = self.cells@;
            let ghost ma = map_of(self.cells@);
            insert_zero(&mut self.cells, nbs[0]);
            let ghost mb = map_of(self.cells@);
            insert_zero(&mut self.cells, nbs[1]);
            let ghost mc = map_of(self.cells@);
            insert_zero(&mut self.cells, nbs[2]);
            proof {
                lemma_preserve_insert(m0, ma, mb, nbs@[0]);
                lemma_preserve_insert(m0, mb, mc, nbs@[1]);
                lemma_preserve_insert(m0, mc, map_of(self.cells@), nbs@[2]);
            }
            proof {
                assert(neighbours_of(k)[0] == nbs@[0] && neighbours_of(k)[1] == nbs@[1]
                    && neighbours_of(k)[2] == nbs@[2]);
                assert forall|c: (i32, i32)| #[trigger]
                    map_of(self.cells@).dom().contains(c) implies (m0.dom().contains(c) || exists|
                q: int|
                    0 <= q < i + 1 && neighbours_of(#[trigger] keys@[q]).contains(c)) by {
                    if !m0.dom().contains(c) {
                        if map_of(before).dom().contains(c) {
                            let q = choose|q: int|
                                0 <= q < i && neighbours_of(#[trigger] keys@[q]).contains(c);
                            assert(neighbours_of(keys@[q]).contains(c));
                        } else {
                            assert(c == nbs@[0] || c == nbs@[1] || c == nbs@[2]);
                            assert(neighbours_of(keys@[i as int]).contains(c));
                        }
                    }
                }
                assert forall|c: (i32, i32)|
                    (m0.dom().contains(c) || exists|q: int|
                        0 <= q < i + 1 && neighbours_of(#[trigger] keys@[q]).contains(c)) implies #[trigger]
                    map_of(self.cells@).dom().contains(c) by {
                    if !m0.dom().contains(c) {
                        let q = choose|q: int|
                            0 <= q < i + 1 && neighbours_of(#[trigger] keys@[q]).contains(c);
                        if q < i {
                            assert(map_of(before).dom().contains(c));
                        } else {
                            assert(neighbours_of(k).contains(c));
                            assert(c == nbs@[0] || c == nbs@[1] || c == nbs@[2]);
                        }
                    }
                }
            }
            i = i + 1;
        }

        let ghost m1 = map_of(self.cells@);

        // Each tracked hexagon's new count is the sum of what its three
        // neighbours carry in.
        let mut updated: Vec<((i32, i32), u64)> = Vec::with_capacity(self.cells.len());
        let mut i: usize = 0;
        while i < self.cells.len()
            invariant
                self.step == step0 + 1,
                0 <= step0 < 32,
                keys_distinct(self.cells@),
                m1 == map_of(self.cells@),
                m0 == map_of(cells0),
                keys_distinct(cells0),
                pow3(step0 as nat) >= 1,
                forall|q: int|
                    0 <= q < cells0.len() ==> (#[trigger] cells0[q]).1 as int <= pow3(step0 as nat),
                forall|q: int|
                    0 <= q < self.cells@.len() ==> key_bound(
                        (#[trigger] self.cells@[q]).0,
                        self.step as int,
                    ),
                forall|q: int|
                    0 <= q < self.cells@.len() ==> (#[trigger] self.cells@[q]).1 as int <= pow3(
                        step0 as nat,
                    ),
                forall|c: (i32, i32)|
                    #[trigger] m0.dom().contains(c) ==> m1.dom().contains(c) && m1[c] == m0[c],
                forall|c: (i32, i32)|
                    #[trigger] m1.dom().contains(c) && !m0.dom().contains(c) ==> m1[c] == 0,
                i <= self.cells@.len(),
                updated@.len() == i,
                forall|q: int|
                    0 <= q < i ==> (#[trigger] updated@[q]).0 == self.cells@[q].0
                        && updated@[q].1 as int == step_value(m0, self.cells@[q].0, step0 + 1)
                        && updated@[q].1 as int <= pow3((step0 + 1) as nat),
            decreases self.cells@.len() - i,
        {
            let e = self.cells[i];
            let c = e.0;
            proof {
                assert(key_bound(c, self.step as int));
                lemma_neighbour_bound(c, self.step as int, 0);
                lemma_neighbour_bound(c, self.step as int, 1);
                lemma_neighbour_bound(c, self.step as int, 2);
                lemma_map_value_bound(cells0, pow3(step0 as nat));
                lemma_pow3_pos(step0 as nat);
                lemma_pow3_mono((step0 + 1) as nat, 32);
                lemma_pow3_32();
            }
            let nbs = KitchenFloor::coord_neighbours(c);
            let v0 = self.carried_in(nbs[0]);
            let v1 = self.carried_in(nbs[1]);
            let v2 = self.carried_in(nbs[2]);
            proof {
                lemma_from_source_agrees(m0, m1, nbs@[0], step0 + 1);
                lemma_from_source_agrees(m0, m1, nbs@[1], step0 + 1);
                lemma_from_source_agrees(m0, m1, nbs@[2], step0 + 1);
                assert(nbs@[0] == neighbours_of(c)[0] && nbs@[1] == neighbours_of(c)[1] && nbs@[2]
                    == neighbours_of(c)[2]);
                assert forall|j: int| 0 <= j < 3 implies from_source(m0, nbs@[j], step0 + 1) <= pow3(
                    step0 as nat,
                ) by {
                    if m0.dom().contains(nbs@[j]) {
                        assert(map_of(cells0).dom().contains(nbs@[j]));
                    }
                }
                assert(3 * pow3(step0 as nat) == pow3((step0 + 1) as nat));
            }
            let total = v0 + v1 + v2;
            updated.push((c, total));
            i = i + 1;
        }

        let ghost exp = self.cells@;
        self.cells = updated;

        proof {
            // The rebuilt table has the same keys as the expanded one, so it
            // describes the same domain, now carrying the stepped values.
            assert forall|q1: int, q2: int|
                0 <= q1 < q2 < self.cells@.len() implies (#[trigger] self.cells@[q1]).0
                != (#[trigger] self.cells@[q2]).0 by {
                assert(self.cells@[q1].0 == exp[q1].0 && self.cells@[q2].0 == exp[q2].0);
            }
            assert forall|q: int| 0 <= q < self.cells@.len() implies key_bound(
                (#[trigger] self.cells@[q]).0,
                self.step as int,
            ) by {
                assert(self.cells@[q].0 == exp[q].0);
            }
            let m2 = map_of(self.cells@);
            let goal = step_map(m0, step0 + 1);
            assert forall|c: (i32, i32)| #[trigger] m2.dom().contains(c) implies goal.dom().contains(c)
                && m2[c] == goal[c] by {
                lemma_map_of_contains(self.cells@, c);
                let q = choose|q: int|
                    0 <= q < self.cells@.len() && (#[trigger] self.cells@[q]).0 == c;
                lemma_map_of_get(self.cells@, q);
                assert(exp[q].0 == c);
                lemma_map_of_get(exp, q);
                assert(m1.dom().contains(c));
                lemma_step_domain_bridge(m0, cells0, keys@, c);
                assert(m2[c] as int == step_value(m0, c, step0 + 1));
            }
            assert forall|c: (i32, i32)| #[trigger] goal.dom().contains(c) implies m2.dom().contains(
                c,
            ) by {
                lemma_step_domain_bridge(m0, cells0, keys@, c);
                lemma_map_of_contains(exp, c);
                let q = choose|q: int| 0 <= q < exp.len() && (#[trigger] exp[q]).0 == c;
                assert(self.cells@[q].0 == c);
                lemma_map_of_contains(self.cells@, c);
            }
            assert(m2 =~= goal);
        }
    }

    /// What the hexagon `n` carries into a neighbouring count on this step:
    /// its previous count, unless it is the origin on any step after the
    /// first, where every resting path has already terminated.
    fn carried_in(&self, n: (i32, i32)) -> (r: u64)
        requires
            keys_distinct(self.cells@),
        ensures
            r as int == from_source(map_of(self.cells@), n, self.step as int),
    {
        if n.0 == 0 && n.1 == 0 && self.step != 1 {
            0
        } else {
            lookup(&self.cells, n)
        }
    }

    /// The number of paths currently recorded at the origin.
    pub fn origin_paths(&self) -> (r: u64)
        requires
            self.inv(),
        ensures
            r as int == origin_count(self.spec_cells()),
            r as int <= pow3(self.spec_step() as nat),
    {
        proof {
            lemma_map_value_bound(self.cells@, pow3(self.step as nat));
            lemma_pow3_pos(self.step as nat);
        }
        lookup(&self.cells, (0, 0))
    }

    /// Run the analysis for the given number of steps.  Returns the total
    /// number of paths that returned to the origin within `steps` steps, each
    /// scaled by three to the power of its remaining steps so that the total
    /// is stated in units of full-length paths, together with the unscaled
    /// count of returning paths.
    pub fn calculate(&mut self, steps: u32) -> (r: (u64, u64))
        requires
            old(self).inv(),
            old(self).spec_step() == 0,
            steps <= 32,
        ensures
            final(self).inv(),
            final(self).spec_step() == steps,
            final(self).spec_cells() == map_at(old(self).spec_cells(), 0, steps as nat),
            r.0 as int == weighted_returns(old(self).spec_cells(), 0, steps as nat, steps as nat),
            r.1 as int == plain_returns(old(self).spec_cells(), 0, steps as nat),
    {
        let ghost m0 = self.spec_cells();
        let mut returned_paths: u64 = 0;
        let mut returning_paths: u64 = 0;
        let mut i: u32 = 0;
        while i < steps
            invariant
                self.inv(),
                steps <= 32,
                i <= steps,
                m0 == old(self).spec_cells(),
                self.spec_step() == i as int,
                self.spec_cells() == map_at(m0, 0, i as nat),
                returned_paths as int == weighted_returns(m0, 0, steps as nat, i as nat),
                returning_paths as int == plain_returns(m0, 0, i as nat),
                returned_paths as int <= i * pow3(steps as nat),
                returning_paths as int <= i * pow3(steps as nat),
            decreases steps - i,
        {
            self.next();
            let at_origin = self.origin_paths();
            let w = pow3_u64(steps - i - 1);
            proof {
                lemma_pow3_pos((steps - i - 1) as nat);
                lemma_pow3_pos((i + 1) as nat);
                lemma_pow3_mono((i + 1) as nat, steps as nat);
                lemma_pow3_mono(steps as nat, 32);
                lemma_pow3_32();
                assert(at_origin as int * w as int <= pow3((i + 1) as nat) * pow3(
                    (steps - i - 1) as nat,
                )) by (nonlinear_arith)
                    requires
                        0 <= at_origin as int <= pow3((i + 1) as nat),
                        0 <= w as int,
                        w as int == pow3((steps - i - 1) as nat),
                ;
                lemma_pow3_adds((i + 1) as nat, (steps - i - 1) as nat);
                assert((i + 1) * pow3(steps as nat) <= 33 * pow3(32)) by (nonlinear_arith)
                    requires
                        0 <= i + 1 <= 33,
                        0 <= pow3(steps as nat) <= pow3(32),
                        pow3(32) == 1853020188851841,
                ;
                assert(i * pow3(steps as nat) + pow3(steps as nat) == (i + 1) * pow3(
                    steps as nat,
                )) by (nonlinear_arith);
            }
            returned_paths = returned_paths + at_origin * w;
            returning_paths = returning_paths + at_origin;
            i = i + 1;
        }
        (returned_paths, returning_paths)
    }
}

/// Three to the power `e`.
fn pow3_u64(e: u32) -> (r: u64)
    requires
        e <= 32,
    ensures
        r as int == pow3(e as nat),
{
    let mut r: u64 = 1;
    let mut i: u32 = 0;
    while i < e
        invariant
            i <= e,
            e <= 32,
            r as int == pow3(i as nat),
        decreases e - i,
    {
        proof {
            lemma_pow3_pos(i as nat);
            lemma_pow3_mono((i + 1) as nat, 32);
            lemma_pow3_32();
        }
        r = r * 3;
        i = i + 1;
    }
    r
}

proof fn lemma_map_value_bound(s: Seq<((i32, i32), u64)>, b: int)
    requires
        keys_distinct(s),
        forall|q: int| 0 <= q < s.len() ==> (#[trigger] s[q]).1 as int <= b,
    ensures
        forall|c: (i32, i32)| #[trigger] map_of(s).dom().contains(c) ==> map_of(s)[c] as int <= b,
{
    assert forall|c: (i32, i32)| #[trigger] map_of(s).dom().contains(c) implies map_of(s)[c] as int
        <= b by {
        lemma_map_of_contains(s, c);
        let q = choose|q: int| 0 <= q < s.len() && (#[trigger] s[q]).0 == c;
        lemma_map_of_get(s, q);
    }
}

proof fn lemma_preserve_insert(
    m0: Map<(i32, i32), u64>,
    ma: Map<(i32, i32), u64>,
    mb: Map<(i32, i32), u64>,
    c_new: (i32, i32),
)
    requires
        mb == ma || (mb == ma.insert(c_new, 0u64) && !ma.dom().contains(c_new)),
        forall|c: (i32, i32)|
            #[trigger] m0.dom().contains(c) ==> ma.dom().contains(c) && ma[c] == m0[c],
        forall|c: (i32, i32)|
            #[trigger] ma.dom().contains(c) && !m0.dom().contains(c) ==> ma[c] == 0,
    ensures
        forall|c: (i32, i32)|
            #[trigger] m0.dom().contains(c) ==> mb.dom().contains(c) && mb[c] == m0[c],
        forall|c: (i32, i32)|
            #[trigger] mb.dom().contains(c) && !m0.dom().contains(c) ==> mb[c] == 0,
{
    assert forall|c: (i32, i32)| m0.dom().contains(c) implies #[trigger] mb.dom().contains(c)
        && mb[c] == m0[c] by {
        assert(ma.dom().contains(c) && ma[c] == m0[c]);
    }
    assert forall|c: (i32, i32)| #[trigger] mb.dom().contains(c) && !m0.dom().contains(c) implies mb[c]
        == 0 by {
        if mb == ma {
            assert(ma.dom().contains(c));
        } else if c == c_new {
        } else {
            assert(ma.dom().contains(c));
        }
    }
}

proof fn lemma_from_source_agrees(
    m0: Map<(i32, i32), u64>,
    m1: Map<(i32, i32), u64>,
    n: (i32, i32),
    step: int,
)
    requires
        forall|c: (i32, i32)|
            #[trigger] m0.dom().contains(c) ==> m1.dom().contains(c) && m1[c] == m0[c],
        forall|c: (i32, i32)|
            #[trigger] m1.dom().contains(c) && !m0.dom().contains(c) ==> m1[c] == 0,
    ensures
        from_source(m1, n, step) == from_source(m0, n, step),
{
    if m0.dom().contains(n) {
    } else if m1.dom().contains(n) {
    }
}

proof fn lemma_step_domain_bridge(
    m0: Map<(i32, i32), u64>,
    cells0: Seq<((i32, i32), u64)>,
    keys: Seq<(i32, i32)>,
    c: (i32, i32),
)
    requires
        m0 == map_of(cells0),
        keys.len() == cells0.len(),
        forall|q: int| 0 <= q < keys.len() ==> #[trigger] keys[q] == cells0[q].0,
    ensures
        step_domain(m0, c) <==> (m0.dom().contains(c) || exists|q: int|
            0 <= q < keys.len() && neighbours_of(#[trigger] keys[q]).contains(c)),
{
    if !m0.dom().contains(c) {
        if step_domain(m0, c) {
            let n = choose|n: (i32, i32)| #[trigger] m0.dom().contains(n) && neighbours_of(
                n,
            ).contains(c);
            lemma_map_of_contains(cells0, n);
            let q = choose|q: int| 0 <= q < cells0.len() && (#[trigger] cells0[q]).0 == n;
            assert(keys[q] == n);
            assert(neighbours_of(keys[q]).contains(c));
        }
        if exists|q: int| 0 <= q < keys.len() && neighbours_of(#[trigger] keys[q]).contains(c) {
            let q = choose|q: int|
                0 <= q < keys.len() && neighbours_of(#[trigger] keys[q]).contains(c);
            lemma_map_of_contains(cells0, keys[q]);
            assert(cells0[q].0 == keys[q]);
            assert(m0.dom().contains(keys[q]));
        }
    }
}

/// The most efficient way to count the morning strolls: build the graph in
/// memory and step it forward twenty times, counting the walks that return to
/// their starting hexagon on the way.  Returns that count in units of
/// full-length twenty-step walks, together with the unscaled count of
/// returns.
pub fn path_counting_on_graph() -> (r: (u64, u64))
    ensures
        r.0 as int == weighted_returns(
            Map::<(i32, i32), u64>::empty().insert((0i32, 0i32), 1u64),
            0,
            20,
            20,
        ),
        r.1 as int == plain_returns(
            Map::<(i32, i32), u64>::empty().insert((0i32, 0i32), 1u64),
            0,
            20,
        ),
{
    let mut counter = GraphPathCounter::new();
    counter.calculate(20)
}

} // verus!
