//! Breadth-first pathfinding over the occupancy grid, and the compact
//! direction-sequence paths it produces (two bits per step).

use vstd::prelude::*;
use crate::game_object::TilePosition;
use crate::grid::{BitGrid, Grid};

verus! {

/// One orthogonal step on the tile grid.
#[derive(Clone, Copy, PartialEq, Eq, Structural, Debug)]
pub enum Direction {
    Up,
    Down,
    Left,
    Right,
}

/// Horizontal displacement of one step in `d`.
pub open spec fn dir_dx(d: Direction) -> int {
    match d {
        Direction::Up => 0,
        Direction::Down => 0,
        Direction::Left => -1,
        Direction::Right => 1,
    }
}

/// Vertical displacement of one step in `d`; up decreases y.
pub open spec fn dir_dy(d: Direction) -> int {
    match d {
        Direction::Up => -1,
        Direction::Down => 1,
        Direction::Left => 0,
        Direction::Right => 0,
    }
}

impl Direction {
    pub open spec fn spec_to_u8(self) -> u8 {
        match self {
            Direction::Up => 0,
            Direction::Down => 1,
            Direction::Left => 2,
            Direction::Right => 3,
        }
    }

    pub open spec fn spec_from_u8(u: u8) -> Direction {
        if u == 0 {
            Direction::Up
        } else if u == 1 {
            Direction::Down
        } else if u == 2 {
            Direction::Left
        } else {
            Direction::Right
        }
    }

    pub fn to_u8(self) -> (r: u8)
        ensures
            r == self.spec_to_u8(),
            r <= 3,
    {
        match self {
            Direction::Up => 0,
            Direction::Down => 1,
            Direction::Left => 2,
            Direction::Right => 3,
        }
    }

    pub fn from_u8(u: u8) -> (r: Direction)
        ensures
            r == Direction::spec_from_u8(u),
    {
        if u == 0 {
            Direction::Up
        } else if u == 1 {
            Direction::Down
        } else if u == 2 {
            Direction::Left
        } else {
            Direction::Right
        }
    }

    /// The direction that undoes one step in `self`.
    pub open spec fn spec_opposite(self) -> Direction {
        match self {
            Direction::Up => Direction::Down,
            Direction::Down => Direction::Up,
            Direction::Left => Direction::Right,
            Direction::Right => Direction::Left,
        }
    }

    pub fn opposite(self) -> (r: Direction)
        ensures
            r == self.spec_opposite(),
    {
        match self {
            Direction::Up => Direction::Down,
            Direction::Down => Direction::Up,
            Direction::Left => Direction::Right,
            Direction::Right => Direction::Left,
        }
    }

    /// The next direction clockwise, used for collision-avoidance
    /// side-stepping.
    pub fn next_clockwise(self) -> (r: Direction)
        ensures
            self == Direction::Up ==> r == Direction::Right,
            self == Direction::Down ==> r == Direction::Left,
            self == Direction::Left ==> r == Direction::Up,
            self == Direction::Right ==> r == Direction::Down,
    {
        match self {
            Direction::Up => Direction::Right,
            Direction::Down => Direction::Left,
            Direction::Left => Direction::Up,
            Direction::Right => Direction::Down,
        }
    }

    /// The fixed neighbor-expansion order of the breadth-first search:
    /// up, down, right, left.
    pub open spec fn spec_nth_neighbor(k: int) -> Direction {
        if k == 0 {
            Direction::Up
        } else if k == 1 {
            Direction::Down
        } else if k == 2 {
            Direction::Right
        } else {
            Direction::Left
        }
    }

    pub fn nth_neighbor(k: u8) -> (r: Direction)
        ensures
            r == Direction::spec_nth_neighbor(k as int),
    {
        if k == 0 {
            Direction::Up
        } else if k == 1 {
            Direction::Down
        } else if k == 2 {
            Direction::Right
        } else {
            Direction::Left
        }
    }
}

impl TilePosition {
    /// The neighboring cell one step in `dir`; the preconditions rule out
    /// coordinate overflow.
    pub fn step(self, dir: Direction) -> (r: TilePosition)
        requires
            i16::MIN <= self.x as int + dir_dx(dir) <= i16::MAX,
            i16::MIN <= self.y as int + dir_dy(dir) <= i16::MAX,
        ensures
            r.x as int == self.x as int + dir_dx(dir),
            r.y as int == self.y as int + dir_dy(dir),
    {
        match dir {
            Direction::Up => TilePosition { x: self.x, y: self.y - 1 },
            Direction::Down => TilePosition { x: self.x, y: self.y + 1 },
            Direction::Left => TilePosition { x: self.x - 1, y: self.y },
            Direction::Right => TilePosition { x: self.x + 1, y: self.y },
        }
    }
}

/// The step stored at position `k` (0..4) of a packed quad byte.
pub open spec fn quad_entry(quad: u8, k: int) -> Direction {
    Direction::spec_from_u8((quad >> ((2 * k) as u8)) & 3)
}

/// An ordered, length-bounded sequence of steps, packed four steps per byte;
/// the longest representable path is 224 steps. A path of length 0 means
/// "already at the destination".
#[derive(PartialEq, Eq, Debug)]
pub struct Path {
    step_quads: Vec<u8>,
    steps_in_last_quad: u8,
}

/// Longest representable path, in steps.
pub const MAX_PATH_STEPS: usize = 224;

impl View for Path {
    type V = Seq<Direction>;

    closed spec fn view(&self) -> Seq<Direction> {
        Seq::new(
            self.spec_len() as nat,
            |i: int| quad_entry(self.step_quads[i / 4], i % 4),
        )
    }
}

impl Path {
    pub closed spec fn spec_len(self) -> int {
        if self.step_quads.len() == 0 {
            0
        } else {
            (self.step_quads.len() - 1) * 4 + self.steps_in_last_quad
        }
    }

    pub closed spec fn wf(self) -> bool {
        &&& self.step_quads.len() <= 56
        &&& self.steps_in_last_quad <= 4
        &&& (self.step_quads.len() == 0 <==> self.steps_in_last_quad == 0)
        &&& (self.step_quads.len() > 0 && self.steps_in_last_quad < 4
            ==> self.step_quads[self.step_quads.len() - 1] >> (2 * self.steps_in_last_quad) == 0)
    }

    /// The number of steps, which never exceeds 224.
    pub fn len(&self) -> (r: u8)
        requires
            self.wf(),
        ensures
            r as int == self@.len(),
            r <= 224,
    {
        let qlen: usize = self.step_quads.len();
        if qlen == 0 {
            0
        } else {
            self.steps_in_last_quad + ((qlen - 1) as u8) * 4
        }
    }

    pub fn is_empty(&self) -> (r: bool)
        requires
            self.wf(),
        ensures
            r == (self@.len() == 0),
    {
        self.step_quads.len() == 0
    }

    pub fn is_full(&self) -> (r: bool)
        requires
            self.wf(),
        ensures
            r == (self@.len() == MAX_PATH_STEPS),
    {
        self.steps_in_last_quad == 4 && self.step_quads.len() == 56
    }

    /// The step at index `i`.
    pub fn get_step(&self, i: usize) -> (r: Direction)
        requires
            self.wf(),
            i < self@.len(),
        ensures
            r == self@[i as int],
    {
        proof {
            lemma_quad_index(i as int, self.step_quads.len() as int);
        }
        let quad: u8 = self.step_quads[i / 4];
        let k: u8 = (i % 4) as u8;
        Direction::from_u8((quad >> (2 * k)) & 3)
    }

    /// Appends a step to the end of the path.
    ///
    /// Returns `false`, leaving the path unchanged, when the path is already
    /// at its 224-step capacity.
    pub fn add_step(&mut self, direction: Direction) -> (r: bool)
        requires
            old(self).wf(),
        ensures
            final(self).wf(),
            old(self)@.len() == MAX_PATH_STEPS ==> r == false && *final(self) == *old(self),
            old(self)@.len() < MAX_PATH_STEPS ==> r == true && final(self)@ == old(self)@.push(
                direction,
            ),
    {
        let d: u8 = direction.to_u8();
        if self.steps_in_last_quad % 4 == 0 {
            if self.step_quads.len() >= 56 {
                return false;
            }
            self.step_quads.push(d);
            self.steps_in_last_quad = 1;
            proof {
                lemma_to_from_u8(direction);
                assert((d >> 0u8) & 3 == d && d >> 2u8 == 0) by (bit_vector)
                    requires
                        d <= 3,
                ;
                assert forall|i: int| 0 <= i < old(self)@.len() implies final(self)@[i] == old(self)@[i] by {
                    lemma_quad_index(i, old(self).step_quads.len() as int);
                }
                assert(final(self)@[old(self)@.len() as int] == direction) by {
                    lemma_quad_div(old(self).step_quads.len() as int);
                }
                assert(final(self)@ =~= old(self)@.push(direction));
            }
            true
        } else {
            let last_idx: usize = self.step_quads.len() - 1;
            let quad: u8 = self.step_quads[last_idx];
            let s: u8 = self.steps_in_last_quad;
            let updated: u8 = quad | (d << (2 * s));
            self.step_quads[last_idx] = updated;
            self.steps_in_last_quad = s + 1;
            proof {
                lemma_to_from_u8(direction);
                lemma_quad_append(quad, d, s);
                assert forall|i: int| 0 <= i < old(self)@.len() implies final(self)@[i] == old(self)@[i] by {
                    lemma_quad_index(i, old(self).step_quads.len() as int);
                    if i / 4 == last_idx as int {
                        assert(i % 4 < s as int);
                        assert((updated >> ((2 * (i % 4)) as u8)) & 3 == (quad >> ((2 * (i
                            % 4)) as u8)) & 3);
                    }
                }
                let oldlen: int = old(self)@.len() as int;
                let li: int = last_idx as int;
                let si: int = s as int;
                assert(oldlen / 4 == li && oldlen % 4 == si) by (nonlinear_arith)
                    requires
                        oldlen == li * 4 + si,
                        0 < si < 4,
                ;
                assert(final(self)@[oldlen] == direction);
                assert(final(self)@ =~= old(self)@.push(direction));
            }
            true
        }
    }

    /// A path with the same steps in opposite order and direction: walking it
    /// from the old destination leads back to the old origin.
    pub fn reverse(&self) -> (r: Path)
        requires
            self.wf(),
        ensures
            r.wf(),
            r@ == spec_reversed(self@),
    {
        let n: u8 = self.len();
        let mut path = Path { step_quads: Vec::new(), steps_in_last_quad: 0 };
        let mut i: usize = n as usize;
        while i > 0
            invariant
                i <= n,
                n as int == self@.len(),
                self.wf(),
                path.wf(),
                path@.len() == n - i,
                forall|k: int|
                    0 <= k < n - i ==> path@[k] == self@[n - 1 - k].spec_opposite(),
            decreases i,
        {
            i = i - 1;
            let step = self.get_step(i);
            let added = path.add_step(step.opposite());
            assert(added);
        }
        proof {
            assert(path@ =~= spec_reversed(self@));
        }
        path
    }
}

impl Default for Path {
    /// The empty path.
    fn default() -> (r: Path)
        ensures
            r.wf(),
            r@ == Seq::<Direction>::empty(),
    {
        let path = Path { step_quads: Vec::new(), steps_in_last_quad: 0 };
        proof {
            assert(path@ =~= Seq::<Direction>::empty());
        }
        path
    }
}

/// Walks a path's steps front to back.
pub struct PathIterator {
    path: Path,
    next_index: usize,
    end_index: usize,
}

impl PathIterator {
    pub closed spec fn wf(self) -> bool {
        self.path.wf() && self.next_index <= self.end_index <= self.path@.len()
    }

    /// The steps being iterated.
    pub closed spec fn spec_steps(self) -> Seq<Direction> {
        self.path@
    }

    /// How many steps the front has handed out already.
    pub closed spec fn spec_index(self) -> int {
        self.next_index as int
    }

    /// Where the back cursor stands: steps at and beyond it were already
    /// handed out in reverse order.
    pub closed spec fn spec_end(self) -> int {
        self.end_index as int
    }

    /// The next step from the front, or `None` once the cursors met.
    pub fn next(&mut self) -> (r: Option<Direction>)
        requires
            old(self).wf(),
        ensures
            final(self).wf(),
            final(self).spec_steps() == old(self).spec_steps(),
            final(self).spec_end() == old(self).spec_end(),
            old(self).spec_index() < old(self).spec_end() ==> {
                &&& r == Some(old(self).spec_steps()[old(self).spec_index()])
                &&& final(self).spec_index() == old(self).spec_index() + 1
            },
            old(self).spec_index() >= old(self).spec_end() ==> r is None
                && final(self).spec_index() == old(self).spec_index(),
    {
        if self.next_index < self.end_index {
            let step = self.path.get_step(self.next_index);
            self.next_index = self.next_index + 1;
            Some(step)
        } else {
            None
        }
    }

    /// The next step from the back, or `None` once the cursors met.
    pub fn next_back(&mut self) -> (r: Option<Direction>)
        requires
            old(self).wf(),
        ensures
            final(self).wf(),
            final(self).spec_steps() == old(self).spec_steps(),
            final(self).spec_index() == old(self).spec_index(),
            old(self).spec_index() < old(self).spec_end() ==> {
                &&& r == Some(old(self).spec_steps()[old(self).spec_end() - 1])
                &&& final(self).spec_end() == old(self).spec_end() - 1
            },
            old(self).spec_index() >= old(self).spec_end() ==> r is None
                && final(self).spec_end() == old(self).spec_end(),
    {
        if self.next_index < self.end_index {
            let step = self.path.get_step(self.end_index - 1);
            self.end_index = self.end_index - 1;
            Some(step)
        } else {
            None
        }
    }
}

impl Path {
    /// An iterator over this path's steps, walkable from both ends.
    pub fn iterate(&self) -> (r: PathIterator)
        requires
            self.wf(),
        ensures
            r.wf(),
            r.spec_steps() == self@,
            r.spec_index() == 0,
            r.spec_end() == self@.len(),
    {
        let len: u8 = self.len();
        PathIterator { path: self.clone_path(), next_index: 0, end_index: len as usize }
    }

    /// An explicit copy of the path.
    pub fn clone_path(&self) -> (r: Path)
        requires
            self.wf(),
        ensures
            r.wf(),
            r@ == self@,
    {
        let r = Path {
            step_quads: clone_quads(&self.step_quads),
            steps_in_last_quad: self.steps_in_last_quad,
        };
        proof {
            assert(r@ =~= self@);
        }
        r
    }
}

/// Copies a byte vector element by element.
fn clone_quads(v: &Vec<u8>) -> (r: Vec<u8>)
    ensures
        r@ == v@,
{
    let mut r: Vec<u8> = Vec::new();
    let mut i: usize = 0;
    while i < v.len()
        invariant
            i <= v@.len(),
            r@ == v@.subrange(0, i as int),
        decreases v@.len() - i,
    {
        r.push(v[i]);
        proof {
            assert(r@ =~= v@.subrange(0, i + 1));
        }
        i = i + 1;
    }
    proof {
        assert(r@ =~= v@);
    }
    r
}

/// The same steps in opposite order, each turned around.
pub open spec fn spec_reversed(s: Seq<Direction>) -> Seq<Direction> {
    Seq::new(s.len(), |i: int| s[s.len() - 1 - i].spec_opposite())
}

/// Reversing a path twice yields the original step sequence.
pub proof fn lemma_reverse_reverse(s: Seq<Direction>)
    ensures
        spec_reversed(spec_reversed(s)) == s,
{
    assert forall|i: int| 0 <= i < s.len() implies spec_reversed(spec_reversed(s))[i] == s[i] by {
        assert(spec_reversed(s)[s.len() - 1 - i] == s[i].spec_opposite());
    }
    assert(spec_reversed(spec_reversed(s)) =~= s);
}

/// Round-trip of the two-bit direction encoding.
proof fn lemma_to_from_u8(d: Direction)
    ensures
        Direction::spec_from_u8(d.spec_to_u8()) == d,
        d.spec_to_u8() <= 3,
{
}

/// Packing one more step at offset `s` of a quad keeps the stored steps and
/// stores the new one; the bits above the new step stay clear.
proof fn lemma_quad_append(quad: u8, d: u8, s: u8)
    by (bit_vector)
    requires
        d <= 3,
        1 <= s < 4,
        quad >> (2 * s) == 0,
    ensures
        forall|k: u8|
            k < s ==> #[trigger] ((quad | (d << (2 * s))) >> (2 * k)) & 3 == (quad >> (2 * k)) & 3,
        ((quad | (d << (2 * s))) >> (2 * s)) & 3 == d,
        s < 3 ==> (quad | (d << (2 * s))) >> (2 * (s + 1)) == 0,
{
}

/// An index below `4 * qlen` selects a quad below `qlen`.
proof fn lemma_quad_index(i: int, qlen: int)
    by (nonlinear_arith)
    requires
        qlen >= 1,
        0 <= i,
        i < 4 * (qlen - 1) + 4,
    ensures
        0 <= i / 4 < qlen,
        0 <= i % 4 < 4,
        i / 4 == qlen - 1 ==> i % 4 == i - 4 * (qlen - 1),
{
}

/// `4 * qlen` is the first index of quad `qlen`.
proof fn lemma_quad_div(qlen: int)
    by (nonlinear_arith)
    requires
        qlen >= 0,
    ensures
        (4 * qlen) / 4 == qlen,
        (4 * qlen) % 4 == 0,
{
}

/// The endpoint reached by walking `steps` from (x, y).
pub open spec fn walk(x: int, y: int, steps: Seq<Direction>) -> (int, int)
    decreases steps.len(),
{
    if steps.len() == 0 {
        (x, y)
    } else {
        walk(x + dir_dx(steps[0]), y + dir_dy(steps[0]), steps.drop_first())
    }
}

/// Every cell entered while walking `steps` from (x, y) is within the grid
/// and not blocked; the starting cell itself is not constrained.
pub open spec fn walk_open(x: int, y: int, steps: Seq<Direction>, walls: BitGrid) -> bool
    decreases steps.len(),
{
    steps.len() == 0 || {
        let nx = x + dir_dx(steps[0]);
        let ny = y + dir_dy(steps[0]);
        &&& 0 <= nx && nx < walls.spec_width()
        &&& 0 <= ny && ny < walls.spec_height()
        &&& !walls.spec_get(nx, ny)
        &&& walk_open(nx, ny, steps.drop_first(), walls)
    }
}

/// The endpoint of `steps` from `from` satisfies the destination mask:
/// either it is itself a destination (a blocked one only when
/// `allow_wall_destination` is set), or, with `allow_wall_destination`, it
/// stands next to a blocked destination cell; an empty path is also a hit
/// when the origin itself is a destination.
pub open spec fn hits_destination(
    from: TilePosition,
    steps: Seq<Direction>,
    walls: BitGrid,
    destinations: BitGrid,
    allow_wall_destination: bool,
) -> bool {
    let end = walk(from.x as int, from.y as int, steps);
    ||| {
        &&& 0 <= end.0 && end.0 < walls.spec_width()
        &&& 0 <= end.1 && end.1 < walls.spec_height()
        &&& destinations.spec_get(end.0, end.1)
        &&& (allow_wall_destination || !walls.spec_get(end.0, end.1))
    }
    ||| (allow_wall_destination && exists|d: Direction|
        #![trigger dir_dx(d), dir_dy(d)]
        {
            &&& 0 <= end.0 + dir_dx(d) && end.0 + dir_dx(d) < walls.spec_width()
            &&& 0 <= end.1 + dir_dy(d) && end.1 + dir_dy(d) < walls.spec_height()
            &&& walls.spec_get(end.0 + dir_dx(d), end.1 + dir_dy(d))
            &&& destinations.spec_get(end.0 + dir_dx(d), end.1 + dir_dy(d))
        })
    ||| (steps.len() == 0 && destinations.spec_get(from.x as int, from.y as int))
}

/// Like [`hits_destination`], for a single destination tile.
pub open spec fn path_reaches_tile(
    from: TilePosition,
    steps: Seq<Direction>,
    walls: BitGrid,
    to: TilePosition,
    allow_wall_destination: bool,
) -> bool {
    let end = walk(from.x as int, from.y as int, steps);
    ||| (end.0 == to.x as int && end.1 == to.y as int && (allow_wall_destination
        || !walls.spec_get(to.x as int, to.y as int)))
    ||| (allow_wall_destination && walls.spec_get(to.x as int, to.y as int) && exists|d: Direction|
        #![trigger dir_dx(d), dir_dy(d)]
        end.0 + dir_dx(d) == to.x as int && end.1 + dir_dy(d) == to.y as int)
    ||| (steps.len() == 0 && from == to)
}

/// The position after the first `k` steps of `s`, starting from (x, y).
pub open spec fn walk_pos(x: int, y: int, s: Seq<Direction>, k: int) -> (int, int)
    decreases k,
{
    if k <= 0 {
        (x, y)
    } else {
        let p = walk_pos(x, y, s, k - 1);
        (p.0 + dir_dx(s[k - 1]), p.1 + dir_dy(s[k - 1]))
    }
}

/// Stepping the start of a walk forward shifts every later position index
/// down by one.
proof fn lemma_walk_pos_cons(x: int, y: int, s: Seq<Direction>, k: int)
    requires
        1 <= k <= s.len(),
    ensures
        walk_pos(x, y, s, k) == walk_pos(
            x + dir_dx(s[0]),
            y + dir_dy(s[0]),
            s.drop_first(),
            k - 1,
        ),
    decreases k,
{
    if k == 1 {
        assert(walk_pos(x, y, s, 0) == (x, y));
        assert(walk_pos(x + dir_dx(s[0]), y + dir_dy(s[0]), s.drop_first(), 0) == (
            x + dir_dx(s[0]),
            y + dir_dy(s[0]),
        ));
    } else {
        lemma_walk_pos_cons(x, y, s, k - 1);
        assert(s.drop_first()[k - 2] == s[k - 1]);
    }
}

/// A walk's endpoint is its position after all of its steps.
proof fn lemma_walk_is_walk_pos(x: int, y: int, s: Seq<Direction>)
    ensures
        walk(x, y, s) == walk_pos(x, y, s, s.len() as int),
    decreases s.len(),
{
    if s.len() > 0 {
        lemma_walk_is_walk_pos(x + dir_dx(s[0]), y + dir_dy(s[0]), s.drop_first());
        lemma_walk_pos_cons(x, y, s, s.len() as int);
    }
}

/// A prefix of a walk passes through the same positions.
proof fn lemma_walk_pos_take(x: int, y: int, s: Seq<Direction>, n: int, k: int)
    requires
        0 <= k <= n <= s.len(),
    ensures
        walk_pos(x, y, s.take(n), k) == walk_pos(x, y, s, k),
    decreases k,
{
    if k > 0 {
        lemma_walk_pos_take(x, y, s, n, k - 1);
        assert(s.take(n)[k - 1] == s[k - 1]);
    }
}

/// A prefix of an open walk is itself open.
proof fn lemma_walk_open_take(x: int, y: int, s: Seq<Direction>, n: int, walls: BitGrid)
    requires
        walk_open(x, y, s, walls),
        0 <= n <= s.len(),
    ensures
        walk_open(x, y, s.take(n), walls),
    decreases n,
{
    if n == 0 {
        assert(s.take(0) =~= Seq::<Direction>::empty());
    } else {
        let x2 = x + dir_dx(s[0]);
        let y2 = y + dir_dy(s[0]);
        lemma_walk_open_take(x2, y2, s.drop_first(), n - 1, walls);
        assert(s.take(n)[0] == s[0]);
        assert(s.take(n).drop_first() =~= s.drop_first().take(n - 1));
    }
}

/// Every position an open walk enters is in bounds and unblocked.
proof fn lemma_walk_open_positions(x: int, y: int, s: Seq<Direction>, walls: BitGrid)
    requires
        walk_open(x, y, s, walls),
    ensures
        forall|k: int|
            1 <= k <= s.len() ==> {
                let p = #[trigger] walk_pos(x, y, s, k);
                &&& 0 <= p.0 && p.0 < walls.spec_width()
                &&& 0 <= p.1 && p.1 < walls.spec_height()
                &&& !walls.spec_get(p.0, p.1)
            },
    decreases s.len(),
{
    if s.len() > 0 {
        let x2 = x + dir_dx(s[0]);
        let y2 = y + dir_dy(s[0]);
        lemma_walk_open_positions(x2, y2, s.drop_first(), walls);
        assert forall|k: int| 1 <= k <= s.len() implies {
            let p = #[trigger] walk_pos(x, y, s, k);
            &&& 0 <= p.0 && p.0 < walls.spec_width()
            &&& 0 <= p.1 && p.1 < walls.spec_height()
            &&& !walls.spec_get(p.0, p.1)
        } by {
            lemma_walk_pos_cons(x, y, s, k);
            if k > 1 {
                assert(walk_pos(x2, y2, s.drop_first(), k - 1) == walk_pos(x, y, s, k));
            }
        }
    }
}

/// A walk that reaches one member of a destination mask also hits the mask
/// as a whole; so a multi-destination search competes against the walks to
/// each individually reachable member.
pub proof fn lemma_member_hit_is_mask_hit(
    from: TilePosition,
    steps: Seq<Direction>,
    walls: BitGrid,
    destinations: BitGrid,
    to: TilePosition,
    allow_wall_destination: bool,
)
    requires
        destinations.spec_width() == walls.spec_width(),
        destinations.spec_height() == walls.spec_height(),
        walls.spec_in_bounds(from),
        walls.spec_in_bounds(to),
        destinations.spec_get(to.x as int, to.y as int),
        path_reaches_tile(from, steps, walls, to, allow_wall_destination),
    ensures
        hits_destination(from, steps, walls, destinations, allow_wall_destination),
{
    let end = walk(from.x as int, from.y as int, steps);
    if end.0 == to.x as int && end.1 == to.y as int && (allow_wall_destination
        || !walls.spec_get(to.x as int, to.y as int)) {
        assert(hits_destination(from, steps, walls, destinations, allow_wall_destination));
    } else if allow_wall_destination && walls.spec_get(to.x as int, to.y as int) && exists|
        d: Direction,
    |
        #![trigger dir_dx(d), dir_dy(d)]
        end.0 + dir_dx(d) == to.x as int && end.1 + dir_dy(d) == to.y as int {
        let d = choose|d: Direction|
            #![trigger dir_dx(d), dir_dy(d)]
            end.0 + dir_dx(d) == to.x as int && end.1 + dir_dy(d) == to.y as int;
        assert(0 <= end.0 + dir_dx(d) && end.0 + dir_dx(d) < walls.spec_width());
        assert(walls.spec_get(end.0 + dir_dx(d), end.1 + dir_dy(d)));
        assert(destinations.spec_get(end.0 + dir_dx(d), end.1 + dir_dy(d)));
        assert(hits_destination(from, steps, walls, destinations, allow_wall_destination));
    } else {
        assert(steps.len() == 0 && from == to);
        assert(destinations.spec_get(from.x as int, from.y as int));
    }
}

/// A step in the opposite direction undoes a step's displacement.
proof fn lemma_opposite_cancels(d: Direction)
    ensures
        dir_dx(d.spec_opposite()) == -dir_dx(d),
        dir_dy(d.spec_opposite()) == -dir_dy(d),
{
}

/// Prepending one step to a walk shifts its start by that step.
proof fn lemma_walk_cons(x: int, y: int, d: Direction, s: Seq<Direction>, walls: BitGrid)
    ensures
        walk(x, y, seq![d] + s) == walk(x + dir_dx(d), y + dir_dy(d), s),
        walk_open(x, y, seq![d] + s, walls) == ({
            let nx = x + dir_dx(d);
            let ny = y + dir_dy(d);
            &&& 0 <= nx && nx < walls.spec_width()
            &&& 0 <= ny && ny < walls.spec_height()
            &&& !walls.spec_get(nx, ny)
            &&& walk_open(nx, ny, s, walls)
        }),
{
    let c = seq![d] + s;
    assert(c[0] == d);
    assert(c.drop_first() =~= s);
}

/// Reversing after appending a step puts that step's opposite in front.
proof fn lemma_reversed_push(s: Seq<Direction>, d: Direction)
    ensures
        spec_reversed(s.push(d)) == seq![d.spec_opposite()] + spec_reversed(s),
{
    assert(spec_reversed(s.push(d)) =~= seq![d.spec_opposite()] + spec_reversed(s));
}

/// The scratch grids of one search agree in size with the wall grid.
spec fn grids_match(distances: Grid<u32>, step_back: Grid<Direction>, walls: BitGrid) -> bool {
    &&& walls.wf()
    &&& distances.wf()
    &&& step_back.wf()
    &&& distances.spec_width() == walls.spec_width()
    &&& distances.spec_height() == walls.spec_height()
    &&& step_back.spec_width() == walls.spec_width()
    &&& step_back.spec_height() == walls.spec_height()
}

/// Soundness of the discovered-distance grid: the origin has distance 1,
/// every other discovered cell is walkable and its back direction leads to a
/// cell discovered one step earlier.
spec fn bfs_state_ok(
    distances: Grid<u32>,
    step_back: Grid<Direction>,
    walls: BitGrid,
    from: TilePosition,
) -> bool {
    &&& 0 <= from.x as int && (from.x as int) < walls.spec_width()
    &&& 0 <= from.y as int && (from.y as int) < walls.spec_height()
    &&& distances.spec_get(from.x as int, from.y as int) == 1
    &&& forall|x: int, y: int|
        0 <= x && x < walls.spec_width() && 0 <= y && y < walls.spec_height()
            && #[trigger] distances.spec_get(x, y) != 0 && !(x == from.x as int && y
            == from.y as int) ==> {
            let d = step_back.spec_get(x, y);
            let px = x + dir_dx(d);
            let py = y + dir_dy(d);
            &&& distances.spec_get(x, y) >= 2
            &&& !walls.spec_get(x, y)
            &&& 0 <= px && px < walls.spec_width()
            &&& 0 <= py && py < walls.spec_height()
            &&& distances.spec_get(px, py) == distances.spec_get(x, y) - 1
        }
}

/// Whether some queue entry carries the cell (x, y).
#[verifier::opaque]
spec fn in_queue(q: Seq<TilePosition>, x: int, y: int) -> bool {
    exists|j: int| 0 <= j < q.len() && (#[trigger] q[j]).x as int == x && q[j].y as int == y
}

/// Every discovered cell sits somewhere in the queue (entries are never
/// removed; `head` only advances past them).
#[verifier::opaque]
spec fn discovered_in_queue(distances: Grid<u32>, q: Seq<TilePosition>, walls: BitGrid) -> bool {
    forall|x: int, y: int|
        0 <= x < walls.spec_width() && 0 <= y < walls.spec_height() && #[trigger] distances.spec_get(
            x,
            y,
        ) != 0 ==> in_queue(q, x, y)
}

/// Queue entries are ordered by nondecreasing discovered distance.
#[verifier::opaque]
spec fn queue_sorted(q: Seq<TilePosition>, distances: Grid<u32>) -> bool {
    forall|i: int, j: int|
        0 <= i <= j < q.len() ==> distances.spec_get(
            (#[trigger] q[i]).x as int,
            q[i].y as int,
        ) <= distances.spec_get((#[trigger] q[j]).x as int, q[j].y as int)
}

/// Every processed queue entry is fully expanded: each neighbor is
/// off-grid, blocked, or discovered at a distance at most one greater.
#[verifier::opaque]
spec fn popped_expanded(q: Seq<TilePosition>, head: int, distances: Grid<u32>, walls: BitGrid) -> bool {
    forall|i: int, d: Direction|
        #![trigger q[i], dir_dx(d)]
        0 <= i < head ==> {
            let nx = q[i].x as int + dir_dx(d);
            let ny = q[i].y as int + dir_dy(d);
            ||| !(0 <= nx && nx < walls.spec_width() && 0 <= ny && ny < walls.spec_height())
            ||| walls.spec_get(nx, ny)
            ||| (distances.spec_get(nx, ny) != 0 && distances.spec_get(nx, ny)
                <= distances.spec_get(q[i].x as int, q[i].y as int) + 1)
        }
}

/// No discovered cell satisfies the destination condition; a hit would have
/// ended the search at its discovery.
#[verifier::opaque]
spec fn no_discovered_destination(
    distances: Grid<u32>,
    destinations: BitGrid,
    walls: BitGrid,
    allow_wall_destination: bool,
) -> bool {
    forall|x: int, y: int|
        0 <= x < walls.spec_width() && 0 <= y < walls.spec_height() && #[trigger] distances.spec_get(
            x,
            y,
        ) != 0 ==> !(destinations.spec_get(x, y) && (allow_wall_destination || !walls.spec_get(
            x,
            y,
        )))
}

/// One open walk is accounted for by the search: either its endpoint is
/// already discovered within the walk's length, or some prefix of it ends
/// on a discovered cell still waiting in the queue's unprocessed suffix,
/// within the prefix's length.
#[verifier::opaque]
spec fn covered(
    from: TilePosition,
    s: Seq<Direction>,
    distances: Grid<u32>,
    q: Seq<TilePosition>,
    head: int,
) -> bool {
    ||| {
        let e = walk_pos(from.x as int, from.y as int, s, s.len() as int);
        distances.spec_get(e.0, e.1) != 0 && distances.spec_get(e.0, e.1) - 1 <= s.len()
    }
    ||| exists|k: int, j: int|
        #![trigger walk_pos(from.x as int, from.y as int, s, k), q[j]]
        {
            let e = walk_pos(from.x as int, from.y as int, s, k);
            &&& 0 <= k <= s.len()
            &&& head <= j < q.len()
            &&& q[j].x as int == e.0 && q[j].y as int == e.1
            &&& distances.spec_get(e.0, e.1) != 0
            &&& distances.spec_get(e.0, e.1) - 1 <= k
        }
}

/// Every open walk from the origin is accounted for by the search state.
#[verifier::opaque]
spec fn frontier_covers(
    from: TilePosition,
    distances: Grid<u32>,
    q: Seq<TilePosition>,
    head: int,
    walls: BitGrid,
) -> bool {
    forall|s: Seq<Direction>|
        #[trigger] walk_open(from.x as int, from.y as int, s, walls) ==> covered(
            from,
            s,
            distances,
            q,
            head,
        )
}

/// An open walk with a discovered prefix endpoint is accounted for:
/// following it onward from there, it either ends on a discovered cell or
/// crosses the queue's unprocessed suffix.
proof fn lemma_walk_eventually_covered(
    from: TilePosition,
    s: Seq<Direction>,
    k: int,
    distances: Grid<u32>,
    q: Seq<TilePosition>,
    head: int,
    walls: BitGrid,
)
    requires
        walk_open(from.x as int, from.y as int, s, walls),
        walls.spec_in_bounds(from),
        0 <= k <= s.len(),
        ({
            let e = walk_pos(from.x as int, from.y as int, s, k);
            &&& 0 <= e.0 < walls.spec_width() && 0 <= e.1 < walls.spec_height()
            &&& distances.spec_get(e.0, e.1) != 0
            &&& distances.spec_get(e.0, e.1) - 1 <= k
        }),
        discovered_in_queue(distances, q, walls),
        popped_expanded(q, head, distances, walls),
        0 <= head <= q.len(),
    ensures
        covered(from, s, distances, q, head),
    decreases s.len() - k,
{
    reveal(crate::pathfinding::covered);
    reveal(crate::pathfinding::in_queue);
    reveal(crate::pathfinding::discovered_in_queue);
    reveal(crate::pathfinding::popped_expanded);
    let fx = from.x as int;
    let fy = from.y as int;
    let e = walk_pos(fx, fy, s, k);
    lemma_walk_open_positions(fx, fy, s, walls);
    if k == s.len() {
    } else {
        assert(in_queue(q, e.0, e.1));
        let j = choose|j: int|
            0 <= j < q.len() && (#[trigger] q[j]).x as int == e.0 && q[j].y as int == e.1;
        if j >= head {
            assert(covered(from, s, distances, q, head)) by {
                assert(walk_pos(fx, fy, s, k) == e && q[j].x as int == e.0);
            }
        } else {
            let d = s[k];
            let e2 = walk_pos(fx, fy, s, k + 1);
            assert(e2 == (e.0 + dir_dx(d), e.1 + dir_dy(d)));
            assert(0 <= e2.0 < walls.spec_width() && 0 <= e2.1 < walls.spec_height()
                && !walls.spec_get(e2.0, e2.1));
            assert(distances.spec_get(e2.0, e2.1) != 0 && distances.spec_get(e2.0, e2.1)
                <= distances.spec_get(e.0, e.1) + 1) by {
                assert(q[j].x as int + dir_dx(d) == e2.0 && q[j].y as int + dir_dy(d) == e2.1);
            }
            lemma_walk_eventually_covered(from, s, k + 1, distances, q, head, walls);
        }
    }
}

/// Discovering fresh cells and appending them to the queue only adds ways
/// for a walk to be accounted for.
proof fn lemma_coverage_monotone(
    from: TilePosition,
    d0: Grid<u32>,
    d1: Grid<u32>,
    q0: Seq<TilePosition>,
    q1: Seq<TilePosition>,
    head: int,
    walls: BitGrid,
)
    requires
        frontier_covers(from, d0, q0, head, walls),
        walls.spec_in_bounds(from),
        q0.len() <= q1.len(),
        forall|j: int| 0 <= j < q0.len() ==> q1[j] == q0[j],
        forall|x: int, y: int|
            0 <= x < walls.spec_width() && 0 <= y < walls.spec_height() && #[trigger] d0.spec_get(
                x,
                y,
            ) != 0 ==> d1.spec_get(x, y) == d0.spec_get(x, y),
        0 <= head <= q0.len(),
    ensures
        frontier_covers(from, d1, q1, head, walls),
{
    reveal(crate::pathfinding::frontier_covers);
    reveal(crate::pathfinding::covered);
    let fx = from.x as int;
    let fy = from.y as int;
    assert forall|s: Seq<Direction>|
        #[trigger] walk_open(fx, fy, s, walls) implies covered(from, s, d1, q1, head) by {
        assert(covered(from, s, d0, q0, head));
        let e = walk_pos(fx, fy, s, s.len() as int);
        if d0.spec_get(e.0, e.1) != 0 && d0.spec_get(e.0, e.1) - 1 <= s.len() {
            lemma_walk_open_positions(fx, fy, s, walls);
            if s.len() > 0 {
                assert(d1.spec_get(e.0, e.1) == d0.spec_get(e.0, e.1));
            } else {
                assert(e == (fx, fy));
                assert(d1.spec_get(e.0, e.1) == d0.spec_get(e.0, e.1));
            }
        } else {
            let (k, j) = choose|k: int, j: int|
                #![trigger walk_pos(from.x as int, from.y as int, s, k), q0[j]]
                {
                    let e = walk_pos(from.x as int, from.y as int, s, k);
                    &&& 0 <= k <= s.len()
                    &&& head <= j < q0.len()
                    &&& q0[j].x as int == e.0 && q0[j].y as int == e.1
                    &&& d0.spec_get(e.0, e.1) != 0
                    &&& d0.spec_get(e.0, e.1) - 1 <= k
                };
            let ek = walk_pos(fx, fy, s, k);
            assert(q1[j] == q0[j]);
            assert(d1.spec_get(ek.0, ek.1) == d0.spec_get(ek.0, ek.1)) by {
                lemma_walk_open_positions(fx, fy, s, walls);
                if k == 0 {
                    assert(ek == (fx, fy));
                }
            }
        }
    }
}

/// Once the entry at `head` is fully expanded, advancing past it keeps
/// every open walk accounted for.
proof fn lemma_head_advance_coverage(
    from: TilePosition,
    distances: Grid<u32>,
    q: Seq<TilePosition>,
    head: int,
    walls: BitGrid,
)
    requires
        frontier_covers(from, distances, q, head, walls),
        discovered_in_queue(distances, q, walls),
        popped_expanded(q, head + 1, distances, walls),
        0 <= head < q.len(),
        walls.spec_in_bounds(from),
    ensures
        frontier_covers(from, distances, q, head + 1, walls),
{
    reveal(crate::pathfinding::frontier_covers);
    reveal(crate::pathfinding::covered);
    let fx = from.x as int;
    let fy = from.y as int;
    assert forall|s: Seq<Direction>|
        #[trigger] walk_open(fx, fy, s, walls) implies covered(from, s, distances, q, head + 1) by {
        assert(covered(from, s, distances, q, head));
        let e = walk_pos(fx, fy, s, s.len() as int);
        if distances.spec_get(e.0, e.1) != 0 && distances.spec_get(e.0, e.1) - 1 <= s.len() {
        } else {
            let (k, j) = choose|k: int, j: int|
                #![trigger walk_pos(from.x as int, from.y as int, s, k), q[j]]
                {
                    let e = walk_pos(from.x as int, from.y as int, s, k);
                    &&& 0 <= k <= s.len()
                    &&& head <= j < q.len()
                    &&& q[j].x as int == e.0 && q[j].y as int == e.1
                    &&& distances.spec_get(e.0, e.1) != 0
                    &&& distances.spec_get(e.0, e.1) - 1 <= k
                };
            if j >= head + 1 {
                assert(covered(from, s, distances, q, head + 1));
            } else {
                let ek = walk_pos(fx, fy, s, k);
                assert(0 <= ek.0 < walls.spec_width() && 0 <= ek.1 < walls.spec_height()) by {
                    lemma_walk_open_positions(fx, fy, s, walls);
                    if k == 0 {
                        assert(ek == (fx, fy));
                    }
                }
                lemma_walk_eventually_covered(from, s, k, distances, q, head + 1, walls);
            }
        }
    }
}

/// Neighbors of one cell in the first `upto` expansion directions are
/// off-grid, blocked, or discovered at a distance at most one greater.
#[verifier::opaque]
spec fn cell_expanded_upto(
    c: TilePosition,
    upto: int,
    distances: Grid<u32>,
    walls: BitGrid,
) -> bool {
    forall|k2: int|
        #![trigger Direction::spec_nth_neighbor(k2)]
        0 <= k2 < upto ==> {
            let d = Direction::spec_nth_neighbor(k2);
            let nx = c.x as int + dir_dx(d);
            let ny = c.y as int + dir_dy(d);
            ||| !(0 <= nx && nx < walls.spec_width() && 0 <= ny && ny < walls.spec_height())
            ||| walls.spec_get(nx, ny)
            ||| (distances.spec_get(nx, ny) != 0 && distances.spec_get(nx, ny)
                <= distances.spec_get(c.x as int, c.y as int) + 1)
        }
}

/// The four expansion directions cover every direction.
proof fn lemma_expanded_all_dirs(c: TilePosition, distances: Grid<u32>, walls: BitGrid)
    requires
        cell_expanded_upto(c, 4, distances, walls),
    ensures
        forall|d: Direction|
            #![trigger dir_dx(d)]
            {
                let nx = c.x as int + dir_dx(d);
                let ny = c.y as int + dir_dy(d);
                ||| !(0 <= nx && nx < walls.spec_width() && 0 <= ny && ny
                    < walls.spec_height())
                ||| walls.spec_get(nx, ny)
                ||| (distances.spec_get(nx, ny) != 0 && distances.spec_get(nx, ny)
                    <= distances.spec_get(c.x as int, c.y as int) + 1)
            },
{
    reveal(crate::pathfinding::cell_expanded_upto);
    assert forall|d: Direction|
        #![trigger dir_dx(d)]
        {
            let nx = c.x as int + dir_dx(d);
            let ny = c.y as int + dir_dy(d);
            ||| !(0 <= nx && nx < walls.spec_width() && 0 <= ny && ny < walls.spec_height())
            ||| walls.spec_get(nx, ny)
            ||| (distances.spec_get(nx, ny) != 0 && distances.spec_get(nx, ny)
                <= distances.spec_get(c.x as int, c.y as int) + 1)
        } by {
        match d {
            Direction::Up => {
                assert(Direction::spec_nth_neighbor(0) == d);
            },
            Direction::Down => {
                assert(Direction::spec_nth_neighbor(1) == d);
            },
            Direction::Right => {
                assert(Direction::spec_nth_neighbor(2) == d);
            },
            Direction::Left => {
                assert(Direction::spec_nth_neighbor(3) == d);
            },
        }
    }
}

/// Every discovered distance stays within one of the next entry to expand.
#[verifier::opaque]
spec fn dists_bounded(
    q: Seq<TilePosition>,
    head: int,
    distances: Grid<u32>,
    walls: BitGrid,
) -> bool {
    head < q.len() ==> forall|x: int, y: int|
        0 <= x < walls.spec_width() && 0 <= y < walls.spec_height() && #[trigger] distances.spec_get(
            x,
            y,
        ) != 0 ==> distances.spec_get(x, y) <= distances.spec_get(
            q[head].x as int,
            q[head].y as int,
        ) + 1
}




/// At the start of a search the single queued origin accounts for every
/// open walk.
#[verifier::rlimit(100)]
proof fn lemma_bfs_init(
    from: TilePosition,
    distances: Grid<u32>,
    q: Seq<TilePosition>,
    walls: BitGrid,
    destinations: BitGrid,
    allow_wall_destination: bool,
)
    requires
        walls.spec_in_bounds(from),
        q.len() == 1,
        q[0] == from,
        distances.spec_width() == walls.spec_width(),
        distances.spec_height() == walls.spec_height(),
        distances.spec_get(from.x as int, from.y as int) == 1,
        forall|x: int, y: int|
            0 <= x && x < walls.spec_width() && 0 <= y && y < walls.spec_height() && !(x
                == from.x as int && y == from.y as int) ==> #[trigger] distances.spec_get(x, y)
                == 0,
        !destinations.spec_get(from.x as int, from.y as int),
    ensures
        discovered_in_queue(distances, q, walls),
        queue_sorted(q, distances),
        popped_expanded(q, 0, distances, walls),
        dists_bounded(q, 0, distances, walls),
        no_discovered_destination(distances, destinations, walls, allow_wall_destination),
        frontier_covers(from, distances, q, 0, walls),
        cell_expanded_upto(from, 0, distances, walls),
        popped_no_open_walldest(q, 0, walls, destinations, allow_wall_destination),
{
    reveal(crate::pathfinding::popped_no_open_walldest);
    reveal(crate::pathfinding::in_queue);
    reveal(crate::pathfinding::discovered_in_queue);
    reveal(crate::pathfinding::queue_sorted);
    reveal(crate::pathfinding::popped_expanded);
    reveal(crate::pathfinding::dists_bounded);
    reveal(crate::pathfinding::no_discovered_destination);
    reveal(crate::pathfinding::covered);
    reveal(crate::pathfinding::frontier_covers);
    reveal(crate::pathfinding::cell_expanded_upto);
    let fx = from.x as int;
    let fy = from.y as int;
    assert(in_queue(q, fx, fy)) by {
        assert(q[0] == from);
    }
    assert forall|x: int, y: int|
        0 <= x < walls.spec_width() && 0 <= y < walls.spec_height()
            && #[trigger] distances.spec_get(x, y) != 0 implies in_queue(q, x, y) by {
        assert(x == fx && y == fy);
    }
    assert forall|s: Seq<Direction>|
        #[trigger] walk_open(fx, fy, s, walls) implies covered(from, s, distances, q, 0) by {
        assert(walk_pos(fx, fy, s, 0) == (fx, fy));
        assert(q[0] == from);
        assert(distances.spec_get(fx, fy) - 1 <= 0);
    }
}

/// Discovers one fresh open neighbor of the frontier entry: marks its
/// distance and back direction, enqueues it, and maintains every
/// bookkeeping invariant of the search.
#[verifier::rlimit(100)]
fn bfs_discover_step(
    distances: &mut Grid<u32>,
    step_back: &mut Grid<Direction>,
    queue: &mut Vec<TilePosition>,
    visited: Ghost<Set<int>>,
    from: TilePosition,
    try_pos: TilePosition,
    head: usize,
    k: u8,
    dir: Direction,
    neighbor: TilePosition,
    dist_try: u32,
    walls: &BitGrid,
    destinations: &BitGrid,
    allow_wall_destination: bool,
) -> (visited2: Ghost<Set<int>>)
    requires
        grids_match(*old(distances), *old(step_back), *walls),
        bfs_state_ok(*old(distances), *old(step_back), *walls, from),
        destinations.wf(),
        destinations.spec_width() == walls.spec_width(),
        destinations.spec_height() == walls.spec_height(),
        walls.spec_in_bounds(from),
        head < old(queue)@.len(),
        queue_ok(old(queue)@, *old(distances), *walls),
        visited_ok(*old(distances), visited@, *walls),
        old(queue)@.len() <= visited@.len(),
        discovered_in_queue(*old(distances), old(queue)@, *walls),
        queue_sorted(old(queue)@, *old(distances)),
        popped_expanded(old(queue)@, head as int, *old(distances), *walls),
        no_discovered_destination(
            *old(distances),
            *destinations,
            *walls,
            allow_wall_destination,
        ),
        popped_no_open_walldest(
            old(queue)@,
            head as int,
            *walls,
            *destinations,
            allow_wall_destination,
        ),
        frontier_covers(from, *old(distances), old(queue)@, head as int, *walls),
        old(queue)@[head as int] == try_pos,
        walls.spec_in_bounds(try_pos),
        old(distances).spec_get(try_pos.x as int, try_pos.y as int) == dist_try,
        1 <= dist_try,
        forall|x: int, y: int|
            0 <= x && x < walls.spec_width() && 0 <= y && y < walls.spec_height()
                && #[trigger] old(distances).spec_get(x, y) != 0 ==> old(distances).spec_get(x, y)
                <= dist_try + 1,
        cell_expanded_upto(try_pos, k as int, *old(distances), *walls),
        neighbor.x as int == try_pos.x as int + dir_dx(dir),
        neighbor.y as int == try_pos.y as int + dir_dy(dir),
        walls.spec_in_bounds(neighbor),
        old(distances).spec_get(neighbor.x as int, neighbor.y as int) == 0,
        !walls.spec_get(neighbor.x as int, neighbor.y as int),
    ensures
        grids_match(*final(distances), *final(step_back), *walls),
        bfs_state_ok(*final(distances), *final(step_back), *walls, from),
        head < final(queue)@.len(),
        queue_ok(final(queue)@, *final(distances), *walls),
        visited_ok(*final(distances), visited2@, *walls),
        final(queue)@.len() <= visited2@.len(),
        discovered_in_queue(*final(distances), final(queue)@, *walls),
        queue_sorted(final(queue)@, *final(distances)),
        popped_expanded(final(queue)@, head as int, *final(distances), *walls),
        popped_no_open_walldest(
            final(queue)@,
            head as int,
            *walls,
            *destinations,
            allow_wall_destination,
        ),
        frontier_covers(from, *final(distances), final(queue)@, head as int, *walls),
        final(queue)@[head as int] == try_pos,
        final(distances).spec_get(try_pos.x as int, try_pos.y as int) == dist_try,
        forall|x: int, y: int|
            0 <= x && x < walls.spec_width() && 0 <= y && y < walls.spec_height()
                && #[trigger] final(distances).spec_get(x, y) != 0 ==> final(distances).spec_get(x, y) <= dist_try + 1,
        cell_expanded_upto(try_pos, k as int, *final(distances), *walls),
        final(distances).spec_get(neighbor.x as int, neighbor.y as int) == dist_try + 1,
        forall|x: int, y: int|
            0 <= x && x < walls.spec_width() && 0 <= y && y < walls.spec_height()
                && #[trigger] final(distances).spec_get(x, y) != 0 && !(x == neighbor.x as int
                && y == neighbor.y as int) ==> !(destinations.spec_get(x, y) && (
            allow_wall_destination || !walls.spec_get(x, y))),
        !destinations.spec_get(neighbor.x as int, neighbor.y as int)
            ==> no_discovered_destination(
            *final(distances),
            *destinations,
            *walls,
            allow_wall_destination,
        ),
{
    let ghost gw: int = walls.spec_width();
    let ghost gh: int = walls.spec_height();
    proof {
        vstd::set_lib::lemma_int_range(0, gw * gh);
        vstd::set_lib::lemma_len_subset(visited@, vstd::set_lib::set_int_range(0, gw * gh));
        walls.lemma_dims();
        assert(dist_try as int + 1 <= u32::MAX as int) by (nonlinear_arith)
            requires
                dist_try as int <= visited@.len() as int,
                visited@.len() <= gw * gh,
                0 <= gw <= 32767,
                0 <= gh <= 32767,
        ;
    }
    let ghost queue_before: Seq<TilePosition> = queue@;
    let ghost distances_before: Grid<u32> = *distances;
    let ghost step_back_before: Grid<Direction> = *step_back;
    queue.push(neighbor);
    distances.set(neighbor, dist_try + 1);
    step_back.set(neighbor, dir.opposite());
    let ghost visited_after: Set<int> = visited@.insert(
        (neighbor.y as int) * gw + neighbor.x as int,
    );
    proof {
        lemma_bfs_discover(
            distances_before,
            *distances,
            step_back_before,
            *step_back,
            queue_before,
            queue@,
            visited@,
            visited_after,
            *walls,
            from,
            try_pos,
            dir,
            neighbor,
            dist_try,
        );
        lemma_discover_frontier(
            distances_before,
            *distances,
            queue_before,
            queue@,
            head as int,
            *walls,
            from,
            try_pos,
            k as int,
            neighbor,
            dist_try,
        );
        reveal(crate::pathfinding::no_discovered_destination);
        reveal(crate::pathfinding::popped_no_open_walldest);
        assert forall|i: int, d2: Direction|
            #![trigger queue@[i], dir_dx(d2)]
            0 <= i < head as int implies {
            let nx = queue@[i].x as int + dir_dx(d2);
            let ny = queue@[i].y as int + dir_dy(d2);
            ||| !(0 <= nx && nx < walls.spec_width() && 0 <= ny && ny < walls.spec_height())
            ||| !walls.spec_get(nx, ny)
            ||| !(allow_wall_destination && destinations.spec_get(nx, ny))
        } by {
            assert(queue@[i] == queue_before[i]);
        }
        assert forall|x: int, y: int|
            0 <= x && x < gw && 0 <= y && y < gh && #[trigger] distances.spec_get(x, y) != 0
                && !(x == neighbor.x as int && y == neighbor.y as int) implies !(
        destinations.spec_get(x, y) && (allow_wall_destination || !walls.spec_get(x, y))) by {
            assert(distances_before.spec_get(x, y) == distances.spec_get(x, y));
        }
        if !destinations.spec_get(neighbor.x as int, neighbor.y as int) {
            assert forall|x: int, y: int|
                0 <= x && x < gw && 0 <= y && y < gh && #[trigger] distances.spec_get(x, y)
                    != 0 implies !(destinations.spec_get(x, y) && (allow_wall_destination
                || !walls.spec_get(x, y))) by {
                if !(x == neighbor.x as int && y == neighbor.y as int) {
                    assert(distances_before.spec_get(x, y) == distances.spec_get(x, y));
                }
            }
        }
    }
    Ghost(visited_after)
}

/// Discovering a fresh open neighbor of the frontier entry preserves every
/// bookkeeping invariant of the search.
#[verifier::rlimit(100)]
proof fn lemma_discover_frontier(
    d0: Grid<u32>,
    d1: Grid<u32>,
    q0: Seq<TilePosition>,
    q1: Seq<TilePosition>,
    head: int,
    walls: BitGrid,
    from: TilePosition,
    try_pos: TilePosition,
    upto: int,
    neighbor: TilePosition,
    dist_try: u32,
)
    requires
        walls.wf(),
        d0.wf(),
        d1.wf(),
        d0.spec_width() == walls.spec_width(),
        d0.spec_height() == walls.spec_height(),
        d1.spec_width() == walls.spec_width(),
        d1.spec_height() == walls.spec_height(),
        walls.spec_in_bounds(from),
        0 <= head < q0.len(),
        q0[head] == try_pos,
        walls.spec_in_bounds(try_pos),
        d0.spec_get(try_pos.x as int, try_pos.y as int) == dist_try,
        dist_try >= 1,
        dist_try as int + 1 <= u32::MAX as int,
        walls.spec_in_bounds(neighbor),
        d0.spec_get(neighbor.x as int, neighbor.y as int) == 0,
        !walls.spec_get(neighbor.x as int, neighbor.y as int),
        q1 == q0.push(neighbor),
        d1.spec_get(neighbor.x as int, neighbor.y as int) == dist_try + 1,
        forall|x: int, y: int|
            0 <= x < walls.spec_width() && 0 <= y < walls.spec_height() && !(x
                == neighbor.x as int && y == neighbor.y as int) ==> #[trigger] d1.spec_get(x, y)
                == d0.spec_get(x, y),
        queue_ok(q0, d0, walls),
        discovered_in_queue(d0, q0, walls),
        queue_sorted(q0, d0),
        popped_expanded(q0, head, d0, walls),
        frontier_covers(from, d0, q0, head, walls),
        cell_expanded_upto(try_pos, upto, d0, walls),
        forall|x: int, y: int|
            0 <= x < walls.spec_width() && 0 <= y < walls.spec_height() && #[trigger] d0.spec_get(
                x,
                y,
            ) != 0 ==> d0.spec_get(x, y) <= dist_try + 1,
    ensures
        discovered_in_queue(d1, q1, walls),
        queue_sorted(q1, d1),
        popped_expanded(q1, head, d1, walls),
        frontier_covers(from, d1, q1, head, walls),
        cell_expanded_upto(try_pos, upto, d1, walls),
        d1.spec_get(try_pos.x as int, try_pos.y as int) == dist_try,
        forall|x: int, y: int|
            0 <= x < walls.spec_width() && 0 <= y < walls.spec_height() && #[trigger] d1.spec_get(
                x,
                y,
            ) != 0 ==> d1.spec_get(x, y) <= dist_try + 1,
    decreases 0int,
{
    reveal(crate::pathfinding::discovered_in_queue);
    reveal(crate::pathfinding::queue_sorted);
    reveal(crate::pathfinding::popped_expanded);
    reveal(crate::pathfinding::cell_expanded_upto);
    reveal(crate::pathfinding::in_queue);
    let gw = walls.spec_width();
    let gh = walls.spec_height();
    assert(!(try_pos.x as int == neighbor.x as int && try_pos.y as int == neighbor.y as int));
    lemma_coverage_monotone(from, d0, d1, q0, q1, head, walls);
    assert forall|x: int, y: int|
        0 <= x < gw && 0 <= y < gh && #[trigger] d1.spec_get(x, y) != 0 implies in_queue(
        q1,
        x,
        y,
    ) by {
        if x == neighbor.x as int && y == neighbor.y as int {
            assert(q1[q1.len() - 1] == neighbor);
        } else {
            assert(in_queue(q0, x, y));
            let j = choose|j: int|
                0 <= j < q0.len() && (#[trigger] q0[j]).x as int == x && q0[j].y as int == y;
            assert(q1[j] == q0[j]);
        }
    }
    assert forall|i: int, j: int| 0 <= i <= j < q1.len() implies d1.spec_get(
        (#[trigger] q1[i]).x as int,
        q1[i].y as int,
    ) <= d1.spec_get((#[trigger] q1[j]).x as int, q1[j].y as int) by {
        if j < q1.len() - 1 {
            assert(q1[i] == q0[i] && q1[j] == q0[j]);
            assert(d1.spec_get(q0[i].x as int, q0[i].y as int) == d0.spec_get(
                q0[i].x as int,
                q0[i].y as int,
            ));
            assert(d1.spec_get(q0[j].x as int, q0[j].y as int) == d0.spec_get(
                q0[j].x as int,
                q0[j].y as int,
            ));
        } else {
            assert(q1[j] == neighbor);
            if i < q1.len() - 1 {
                assert(q1[i] == q0[i]);
                assert(walls.spec_in_bounds(q0[i]));
                assert(d0.spec_get(q0[i].x as int, q0[i].y as int) != 0);
                assert(d1.spec_get(q0[i].x as int, q0[i].y as int) == d0.spec_get(
                    q0[i].x as int,
                    q0[i].y as int,
                ));
            }
        }
    }
    assert forall|i: int, d2: Direction|
        #![trigger q1[i], dir_dx(d2)]
        0 <= i < head implies {
        let nx = q1[i].x as int + dir_dx(d2);
        let ny = q1[i].y as int + dir_dy(d2);
        ||| !(0 <= nx && nx < gw && 0 <= ny && ny < gh)
        ||| walls.spec_get(nx, ny)
        ||| (d1.spec_get(nx, ny) != 0 && d1.spec_get(nx, ny) <= d1.spec_get(
            q1[i].x as int,
            q1[i].y as int,
        ) + 1)
    } by {
        assert(q1[i] == q0[i]);
        let nx = q1[i].x as int + dir_dx(d2);
        let ny = q1[i].y as int + dir_dy(d2);
        if 0 <= nx && nx < gw && 0 <= ny && ny < gh && !walls.spec_get(nx, ny) {
            assert(d0.spec_get(nx, ny) != 0);
            assert(!(nx == neighbor.x as int && ny == neighbor.y as int));
            assert(walls.spec_in_bounds(q0[i]));
            assert(d1.spec_get(q1[i].x as int, q1[i].y as int) == d0.spec_get(
                q0[i].x as int,
                q0[i].y as int,
            ));
        }
    }
    assert forall|k2: int|
        #![trigger Direction::spec_nth_neighbor(k2)]
        0 <= k2 < upto implies {
        let d2 = Direction::spec_nth_neighbor(k2);
        let nx = try_pos.x as int + dir_dx(d2);
        let ny = try_pos.y as int + dir_dy(d2);
        ||| !(0 <= nx && nx < gw && 0 <= ny && ny < gh)
        ||| walls.spec_get(nx, ny)
        ||| (d1.spec_get(nx, ny) != 0 && d1.spec_get(nx, ny) <= d1.spec_get(
            try_pos.x as int,
            try_pos.y as int,
        ) + 1)
    } by {
        let d2 = Direction::spec_nth_neighbor(k2);
        let nx = try_pos.x as int + dir_dx(d2);
        let ny = try_pos.y as int + dir_dy(d2);
        if 0 <= nx && nx < gw && 0 <= ny && ny < gh && !walls.spec_get(nx, ny) && d0.spec_get(
            nx,
            ny,
        ) != 0 {
            assert(!(nx == neighbor.x as int && ny == neighbor.y as int));
        }
    }
}

/// After every direction of the frontier entry has been examined, the entry
/// counts as processed and the search may advance past it.
#[verifier::rlimit(100)]
proof fn lemma_finish_pop(
    from: TilePosition,
    distances: Grid<u32>,
    q: Seq<TilePosition>,
    head: int,
    try_pos: TilePosition,
    walls: BitGrid,
)
    requires
        walls.spec_in_bounds(from),
        0 <= head < q.len(),
        q[head] == try_pos,
        cell_expanded_upto(try_pos, 4, distances, walls),
        discovered_in_queue(distances, q, walls),
        queue_sorted(q, distances),
        popped_expanded(q, head, distances, walls),
        frontier_covers(from, distances, q, head, walls),
        forall|x: int, y: int|
            0 <= x && x < walls.spec_width() && 0 <= y && y < walls.spec_height()
                && #[trigger] distances.spec_get(x, y) != 0 ==> distances.spec_get(x, y)
                <= distances.spec_get(try_pos.x as int, try_pos.y as int) + 1,
    ensures
        popped_expanded(q, head + 1, distances, walls),
        frontier_covers(from, distances, q, head + 1, walls),
        dists_bounded(q, head + 1, distances, walls),
{
    reveal(crate::pathfinding::popped_expanded);
    reveal(crate::pathfinding::queue_sorted);
    reveal(crate::pathfinding::dists_bounded);
    lemma_expanded_all_dirs(try_pos, distances, walls);
    assert forall|i: int, d2: Direction|
        #![trigger q[i], dir_dx(d2)]
        0 <= i < head + 1 implies {
        let nx = q[i].x as int + dir_dx(d2);
        let ny = q[i].y as int + dir_dy(d2);
        ||| !(0 <= nx && nx < walls.spec_width() && 0 <= ny && ny < walls.spec_height())
        ||| walls.spec_get(nx, ny)
        ||| (distances.spec_get(nx, ny) != 0 && distances.spec_get(nx, ny)
            <= distances.spec_get(q[i].x as int, q[i].y as int) + 1)
    } by {
        if i == head {
            assert(q[i] == try_pos);
        }
    }
    lemma_head_advance_coverage(from, distances, q, head, walls);
    if head + 1 < q.len() {
        assert(distances.spec_get(q[head].x as int, q[head].y as int) <= distances.spec_get(
            q[head + 1].x as int,
            q[head + 1].y as int,
        ));
    }
}



/// No direction of a cell has been examined yet.
proof fn lemma_cell_expanded_zero(c: TilePosition, distances: Grid<u32>, walls: BitGrid)
    ensures
        cell_expanded_upto(c, 0, distances, walls),
{
    reveal(crate::pathfinding::cell_expanded_upto);
}

/// Examining one more direction of the frontier entry extends its
/// processed-directions count.
proof fn lemma_cell_expanded_extend(
    try_pos: TilePosition,
    k: int,
    dir: Direction,
    distances: Grid<u32>,
    walls: BitGrid,
)
    requires
        0 <= k,
        cell_expanded_upto(try_pos, k, distances, walls),
        Direction::spec_nth_neighbor(k) == dir,
        ({
            let nx = try_pos.x as int + dir_dx(dir);
            let ny = try_pos.y as int + dir_dy(dir);
            ||| !(0 <= nx && nx < walls.spec_width() && 0 <= ny && ny < walls.spec_height())
            ||| walls.spec_get(nx, ny)
            ||| (distances.spec_get(nx, ny) != 0 && distances.spec_get(nx, ny)
                <= distances.spec_get(try_pos.x as int, try_pos.y as int) + 1)
        }),
    ensures
        cell_expanded_upto(try_pos, k + 1, distances, walls),
{
    reveal(crate::pathfinding::cell_expanded_upto);
    assert forall|k2: int|
        #![trigger Direction::spec_nth_neighbor(k2)]
        0 <= k2 < k + 1 implies {
        let d2 = Direction::spec_nth_neighbor(k2);
        let nx = try_pos.x as int + dir_dx(d2);
        let ny = try_pos.y as int + dir_dy(d2);
        ||| !(0 <= nx && nx < walls.spec_width() && 0 <= ny && ny < walls.spec_height())
        ||| walls.spec_get(nx, ny)
        ||| (distances.spec_get(nx, ny) != 0 && distances.spec_get(nx, ny)
            <= distances.spec_get(try_pos.x as int, try_pos.y as int) + 1)
    } by {
        if k2 == k {
            assert(Direction::spec_nth_neighbor(k2) == dir);
        }
    }
}

/// Among the first `upto` examined directions of `c`, none leads to a
/// blocked destination cell that the search would accept: such a neighbor
/// would have ended the search.
#[verifier::opaque]
spec fn cell_no_open_walldest_upto(
    c: TilePosition,
    upto: int,
    walls: BitGrid,
    destinations: BitGrid,
    allow_wall_destination: bool,
) -> bool {
    forall|k2: int|
        #![trigger Direction::spec_nth_neighbor(k2)]
        0 <= k2 < upto ==> {
            let d = Direction::spec_nth_neighbor(k2);
            let nx = c.x as int + dir_dx(d);
            let ny = c.y as int + dir_dy(d);
            ||| !(0 <= nx && nx < walls.spec_width() && 0 <= ny && ny < walls.spec_height())
            ||| !walls.spec_get(nx, ny)
            ||| !(allow_wall_destination && destinations.spec_get(nx, ny))
        }
}

/// No processed queue entry stands beside a blocked destination cell the
/// search would accept.
#[verifier::opaque]
spec fn popped_no_open_walldest(
    q: Seq<TilePosition>,
    head: int,
    walls: BitGrid,
    destinations: BitGrid,
    allow_wall_destination: bool,
) -> bool {
    forall|i: int, d2: Direction|
        #![trigger q[i], dir_dx(d2)]
        0 <= i < head ==> {
            let nx = q[i].x as int + dir_dx(d2);
            let ny = q[i].y as int + dir_dy(d2);
            ||| !(0 <= nx && nx < walls.spec_width() && 0 <= ny && ny < walls.spec_height())
            ||| !walls.spec_get(nx, ny)
            ||| !(allow_wall_destination && destinations.spec_get(nx, ny))
        }
}

/// Examining one more direction of the frontier entry extends the
/// no-blocked-destination record.
proof fn lemma_no_walldest_extend(
    c: TilePosition,
    k: int,
    dir: Direction,
    walls: BitGrid,
    destinations: BitGrid,
    allow_wall_destination: bool,
)
    requires
        0 <= k,
        cell_no_open_walldest_upto(c, k, walls, destinations, allow_wall_destination),
        Direction::spec_nth_neighbor(k) == dir,
        ({
            let nx = c.x as int + dir_dx(dir);
            let ny = c.y as int + dir_dy(dir);
            ||| !(0 <= nx && nx < walls.spec_width() && 0 <= ny && ny < walls.spec_height())
            ||| !walls.spec_get(nx, ny)
            ||| !(allow_wall_destination && destinations.spec_get(nx, ny))
        }),
    ensures
        cell_no_open_walldest_upto(c, k + 1, walls, destinations, allow_wall_destination),
{
    reveal(crate::pathfinding::cell_no_open_walldest_upto);
    assert forall|k2: int|
        #![trigger Direction::spec_nth_neighbor(k2)]
        0 <= k2 < k + 1 implies {
        let d2 = Direction::spec_nth_neighbor(k2);
        let nx = c.x as int + dir_dx(d2);
        let ny = c.y as int + dir_dy(d2);
        ||| !(0 <= nx && nx < walls.spec_width() && 0 <= ny && ny < walls.spec_height())
        ||| !walls.spec_get(nx, ny)
        ||| !(allow_wall_destination && destinations.spec_get(nx, ny))
    } by {
        if k2 == k {
            assert(Direction::spec_nth_neighbor(k2) == dir);
        }
    }
}

/// Once all four directions of the frontier entry carry the record, it
/// holds for every direction, and advancing past the entry keeps the
/// processed prefix clean.
proof fn lemma_finish_pop_no_walldest(
    q: Seq<TilePosition>,
    head: int,
    try_pos: TilePosition,
    walls: BitGrid,
    destinations: BitGrid,
    allow_wall_destination: bool,
)
    requires
        0 <= head < q.len(),
        q[head] == try_pos,
        cell_no_open_walldest_upto(try_pos, 4, walls, destinations, allow_wall_destination),
        popped_no_open_walldest(q, head, walls, destinations, allow_wall_destination),
    ensures
        popped_no_open_walldest(q, head + 1, walls, destinations, allow_wall_destination),
{
    reveal(crate::pathfinding::cell_no_open_walldest_upto);
    reveal(crate::pathfinding::popped_no_open_walldest);
    assert forall|i: int, d2: Direction|
        #![trigger q[i], dir_dx(d2)]
        0 <= i < head + 1 implies {
        let nx = q[i].x as int + dir_dx(d2);
        let ny = q[i].y as int + dir_dy(d2);
        ||| !(0 <= nx && nx < walls.spec_width() && 0 <= ny && ny < walls.spec_height())
        ||| !walls.spec_get(nx, ny)
        ||| !(allow_wall_destination && destinations.spec_get(nx, ny))
    } by {
        if i == head {
            assert(q[i] == try_pos);
            match d2 {
                Direction::Up => {
                    assert(Direction::spec_nth_neighbor(0) == d2);
                },
                Direction::Down => {
                    assert(Direction::spec_nth_neighbor(1) == d2);
                },
                Direction::Right => {
                    assert(Direction::spec_nth_neighbor(2) == d2);
                },
                Direction::Left => {
                    assert(Direction::spec_nth_neighbor(3) == d2);
                },
            }
        }
    }
}

/// With the queue exhausted, no open walk hits a destination at all: its
/// endpoint would be a discovered open destination, or it would stand next
/// to a blocked destination beside a fully processed cell.
#[verifier::rlimit(100)]
proof fn lemma_exhausted_no_hit(
    from: TilePosition,
    s: Seq<Direction>,
    distances: Grid<u32>,
    q: Seq<TilePosition>,
    walls: BitGrid,
    destinations: BitGrid,
    allow_wall_destination: bool,
)
    requires
        walk_open(from.x as int, from.y as int, s, walls),
        walls.spec_in_bounds(from),
        !destinations.spec_get(from.x as int, from.y as int),
        destinations.spec_width() == walls.spec_width(),
        destinations.spec_height() == walls.spec_height(),
        frontier_covers(from, distances, q, q.len() as int, walls),
        discovered_in_queue(distances, q, walls),
        no_discovered_destination(distances, destinations, walls, allow_wall_destination),
        popped_no_open_walldest(
            q,
            q.len() as int,
            walls,
            destinations,
            allow_wall_destination,
        ),
    ensures
        !hits_destination(from, s, walls, destinations, allow_wall_destination),
{
    reveal(crate::pathfinding::frontier_covers);
    reveal(crate::pathfinding::covered);
    reveal(crate::pathfinding::in_queue);
    reveal(crate::pathfinding::discovered_in_queue);
    reveal(crate::pathfinding::no_discovered_destination);
    reveal(crate::pathfinding::popped_no_open_walldest);
    if hits_destination(from, s, walls, destinations, allow_wall_destination) {
        let fx = from.x as int;
        let fy = from.y as int;
        lemma_walk_is_walk_pos(fx, fy, s);
        lemma_walk_open_positions(fx, fy, s, walls);
        let e = walk_pos(fx, fy, s, s.len() as int);
        if s.len() == 0 {
            assert(e == (fx, fy));
        }
        assert(covered(from, s, distances, q, q.len() as int));
        assert(distances.spec_get(e.0, e.1) != 0);
        assert(in_queue(q, e.0, e.1));
        let j = choose|j: int|
            0 <= j < q.len() && (#[trigger] q[j]).x as int == e.0 && q[j].y as int == e.1;
        let end = walk(fx, fy, s);
        if allow_wall_destination && exists|d: Direction|
            #![trigger dir_dx(d), dir_dy(d)]
            {
                &&& 0 <= end.0 + dir_dx(d) && end.0 + dir_dx(d) < walls.spec_width()
                &&& 0 <= end.1 + dir_dy(d) && end.1 + dir_dy(d) < walls.spec_height()
                &&& walls.spec_get(end.0 + dir_dx(d), end.1 + dir_dy(d))
                &&& destinations.spec_get(end.0 + dir_dx(d), end.1 + dir_dy(d))
            } {
            let d = choose|d: Direction|
                #![trigger dir_dx(d), dir_dy(d)]
                {
                    &&& 0 <= end.0 + dir_dx(d) && end.0 + dir_dx(d) < walls.spec_width()
                    &&& 0 <= end.1 + dir_dy(d) && end.1 + dir_dy(d) < walls.spec_height()
                    &&& walls.spec_get(end.0 + dir_dx(d), end.1 + dir_dy(d))
                    &&& destinations.spec_get(end.0 + dir_dx(d), end.1 + dir_dy(d))
                };
            assert(q[j].x as int + dir_dx(d) == end.0 + dir_dx(d));
            assert(false);
        } else {
            assert(destinations.spec_get(end.0, end.1) && (allow_wall_destination
                || !walls.spec_get(end.0, end.1)));
            assert(false);
        }
    }
}

/// While a frontier entry still waits at distance `dist_try`, any open walk
/// that hits a destination takes at least `dist_try - 1` steps; the one
/// freshly discovered cell is exempt from the no-destination record, but
/// its distance is already known.
#[verifier::rlimit(100)]
proof fn lemma_bounded_hit_is_long(
    from: TilePosition,
    s: Seq<Direction>,
    distances: Grid<u32>,
    q: Seq<TilePosition>,
    head: int,
    walls: BitGrid,
    destinations: BitGrid,
    allow_wall_destination: bool,
    try_pos: TilePosition,
    dist_try: u32,
    exception: TilePosition,
)
    requires
        walk_open(from.x as int, from.y as int, s, walls),
        hits_destination(from, s, walls, destinations, allow_wall_destination),
        walls.spec_in_bounds(from),
        !destinations.spec_get(from.x as int, from.y as int),
        destinations.spec_width() == walls.spec_width(),
        destinations.spec_height() == walls.spec_height(),
        frontier_covers(from, distances, q, head, walls),
        discovered_in_queue(distances, q, walls),
        queue_sorted(q, distances),
        popped_no_open_walldest(q, head, walls, destinations, allow_wall_destination),
        0 <= head < q.len(),
        q[head] == try_pos,
        distances.spec_get(try_pos.x as int, try_pos.y as int) == dist_try,
        dist_try >= 1,
        forall|x: int, y: int|
            0 <= x < walls.spec_width() && 0 <= y < walls.spec_height()
                && #[trigger] distances.spec_get(x, y) != 0 && !(x == exception.x as int && y
                == exception.y as int) ==> !(destinations.spec_get(x, y) && (
            allow_wall_destination || !walls.spec_get(x, y))),
        distances.spec_get(exception.x as int, exception.y as int) == 0
            || distances.spec_get(exception.x as int, exception.y as int) >= dist_try,
    ensures
        s.len() + 1 >= dist_try,
{
    reveal(crate::pathfinding::frontier_covers);
    reveal(crate::pathfinding::covered);
    reveal(crate::pathfinding::in_queue);
    reveal(crate::pathfinding::discovered_in_queue);
    reveal(crate::pathfinding::queue_sorted);
    reveal(crate::pathfinding::popped_no_open_walldest);
    let fx = from.x as int;
    let fy = from.y as int;
    lemma_walk_is_walk_pos(fx, fy, s);
    lemma_walk_open_positions(fx, fy, s, walls);
    let e = walk_pos(fx, fy, s, s.len() as int);
    if s.len() == 0 {
        assert(e == (fx, fy));
    }
    assert(covered(from, s, distances, q, head));
    if distances.spec_get(e.0, e.1) != 0 && distances.spec_get(e.0, e.1) - 1 <= s.len() {
        let end = walk(fx, fy, s);
        if allow_wall_destination && exists|d: Direction|
            #![trigger dir_dx(d), dir_dy(d)]
            {
                &&& 0 <= end.0 + dir_dx(d) && end.0 + dir_dx(d) < walls.spec_width()
                &&& 0 <= end.1 + dir_dy(d) && end.1 + dir_dy(d) < walls.spec_height()
                &&& walls.spec_get(end.0 + dir_dx(d), end.1 + dir_dy(d))
                &&& destinations.spec_get(end.0 + dir_dx(d), end.1 + dir_dy(d))
            } {
            let d = choose|d: Direction|
                #![trigger dir_dx(d), dir_dy(d)]
                {
                    &&& 0 <= end.0 + dir_dx(d) && end.0 + dir_dx(d) < walls.spec_width()
                    &&& 0 <= end.1 + dir_dy(d) && end.1 + dir_dy(d) < walls.spec_height()
                    &&& walls.spec_get(end.0 + dir_dx(d), end.1 + dir_dy(d))
                    &&& destinations.spec_get(end.0 + dir_dx(d), end.1 + dir_dy(d))
                };
            assert(in_queue(q, e.0, e.1));
            let j = choose|j: int|
                0 <= j < q.len() && (#[trigger] q[j]).x as int == e.0 && q[j].y as int == e.1;
            if j < head {
                assert(q[j].x as int + dir_dx(d) == end.0 + dir_dx(d));
                assert(false);
            } else {
                assert(distances.spec_get(try_pos.x as int, try_pos.y as int)
                    <= distances.spec_get(q[j].x as int, q[j].y as int));
            }
        } else {
            // The hit is the endpoint itself: an open destination, so it
            // can only be the exempt cell, whose distance is known.
            assert(destinations.spec_get(end.0, end.1) && (allow_wall_destination
                || !walls.spec_get(end.0, end.1)));
            assert(e.0 == exception.x as int && e.1 == exception.y as int);
        }
    } else {
        let (k, j) = choose|k: int, j: int|
            #![trigger walk_pos(from.x as int, from.y as int, s, k), q[j]]
            {
                let e2 = walk_pos(from.x as int, from.y as int, s, k);
                &&& 0 <= k <= s.len()
                &&& head <= j < q.len()
                &&& q[j].x as int == e2.0 && q[j].y as int == e2.1
                &&& distances.spec_get(e2.0, e2.1) != 0
                &&& distances.spec_get(e2.0, e2.1) - 1 <= k
            };
        assert(distances.spec_get(try_pos.x as int, try_pos.y as int) <= distances.spec_get(
            q[j].x as int,
            q[j].y as int,
        ));
    }
}

/// When every destination lies on open ground, a hit discovered while
/// expanding the frontier entry is no longer than any open walk that
/// reaches a destination: such a walk's last step leaves from a cell the
/// search has already discovered at the frontier distance or beyond.
#[verifier::rlimit(100)]
proof fn lemma_hit_minimal_open_mask(
    from: TilePosition,
    s: Seq<Direction>,
    distances: Grid<u32>,
    q: Seq<TilePosition>,
    head: int,
    walls: BitGrid,
    destinations: BitGrid,
    allow_wall_destination: bool,
    try_pos: TilePosition,
    dist_try: int,
    neighbor: TilePosition,
)
    requires
        destinations.spec_width() == walls.spec_width(),
        destinations.spec_height() == walls.spec_height(),
        forall|x: int, y: int|
            0 <= x < walls.spec_width() && 0 <= y < walls.spec_height()
                && #[trigger] destinations.spec_get(x, y) ==> !walls.spec_get(x, y),
        walls.spec_in_bounds(from),
        !destinations.spec_get(from.x as int, from.y as int),
        frontier_covers(from, distances, q, head, walls),
        discovered_in_queue(distances, q, walls),
        popped_expanded(q, head, distances, walls),
        queue_sorted(q, distances),
        0 <= head < q.len(),
        q[head] == try_pos,
        distances.spec_get(try_pos.x as int, try_pos.y as int) == dist_try,
        dist_try >= 1,
        walls.spec_in_bounds(neighbor),
        distances.spec_get(neighbor.x as int, neighbor.y as int) == dist_try + 1,
        forall|x: int, y: int|
            0 <= x < walls.spec_width() && 0 <= y < walls.spec_height()
                && #[trigger] distances.spec_get(x, y) != 0 && !(x == neighbor.x as int && y
                == neighbor.y as int) ==> !(destinations.spec_get(x, y) && (
            allow_wall_destination || !walls.spec_get(x, y))),
        walk_open(from.x as int, from.y as int, s, walls),
        hits_destination(from, s, walls, destinations, allow_wall_destination),
    ensures
        dist_try <= s.len(),
{
    reveal(crate::pathfinding::frontier_covers);
    reveal(crate::pathfinding::covered);
    reveal(crate::pathfinding::in_queue);
    reveal(crate::pathfinding::discovered_in_queue);
    reveal(crate::pathfinding::popped_expanded);
    reveal(crate::pathfinding::queue_sorted);
    let fx = from.x as int;
    let fy = from.y as int;
    lemma_walk_is_walk_pos(fx, fy, s);
    lemma_walk_open_positions(fx, fy, s, walls);
    let end = walk(fx, fy, s);
    let n = s.len() as int;
    // An adjacency hit would need a blocked destination; the open mask has
    // none, so the hit is the endpoint itself, and it cannot be the origin.
    if allow_wall_destination && exists|d: Direction|
        #![trigger dir_dx(d), dir_dy(d)]
        {
            &&& 0 <= end.0 + dir_dx(d) && end.0 + dir_dx(d) < walls.spec_width()
            &&& 0 <= end.1 + dir_dy(d) && end.1 + dir_dy(d) < walls.spec_height()
            &&& walls.spec_get(end.0 + dir_dx(d), end.1 + dir_dy(d))
            &&& destinations.spec_get(end.0 + dir_dx(d), end.1 + dir_dy(d))
        } {
        let d = choose|d: Direction|
            #![trigger dir_dx(d), dir_dy(d)]
            {
                &&& 0 <= end.0 + dir_dx(d) && end.0 + dir_dx(d) < walls.spec_width()
                &&& 0 <= end.1 + dir_dy(d) && end.1 + dir_dy(d) < walls.spec_height()
                &&& walls.spec_get(end.0 + dir_dx(d), end.1 + dir_dy(d))
                &&& destinations.spec_get(end.0 + dir_dx(d), end.1 + dir_dy(d))
            };
        assert(!walls.spec_get(end.0 + dir_dx(d), end.1 + dir_dy(d)));
        assert(false);
    }
    assert(destinations.spec_get(end.0, end.1));
    assert(n > 0) by {
        if n == 0 {
            assert(end == (fx, fy));
        }
    }
    // Coverage of the walk without its last step.
    let s2 = s.take(n - 1);
    lemma_walk_open_take(fx, fy, s, n - 1, walls);
    assert(covered(from, s2, distances, q, head));
    lemma_walk_pos_take(fx, fy, s, n - 1, n - 1);
    let pre = walk_pos(fx, fy, s, n - 1);
    assert(walk_pos(fx, fy, s2, s2.len() as int) == pre);
    assert(0 <= pre.0 < walls.spec_width() && 0 <= pre.1 < walls.spec_height()) by {
        if n == 1 {
            assert(pre == (fx, fy));
        }
    }
    assert(end == (pre.0 + dir_dx(s[n - 1]), pre.1 + dir_dy(s[n - 1])));
    if distances.spec_get(pre.0, pre.1) != 0 && distances.spec_get(pre.0, pre.1) - 1 <= s2.len() {
        assert(in_queue(q, pre.0, pre.1));
        let j0 = choose|j: int|
            0 <= j < q.len() && (#[trigger] q[j]).x as int == pre.0 && q[j].y as int == pre.1;
        if j0 < head {
            // The cell before the destination was already fully expanded, so
            // the destination itself was discovered: it must be the hit.
            assert(!walls.spec_get(end.0, end.1));
            assert(distances.spec_get(end.0, end.1) != 0 && distances.spec_get(end.0, end.1)
                <= distances.spec_get(pre.0, pre.1) + 1) by {
                assert(q[j0].x as int + dir_dx(s[n - 1]) == end.0);
                assert(q[j0].y as int + dir_dy(s[n - 1]) == end.1);
            }
            assert(end == (neighbor.x as int, neighbor.y as int));
            assert(dist_try + 1 <= distances.spec_get(pre.0, pre.1) + 1);
        } else {
            assert(distances.spec_get(try_pos.x as int, try_pos.y as int) <= distances.spec_get(
                q[j0].x as int,
                q[j0].y as int,
            ));
        }
    } else {
        let (k, j) = choose|k: int, j: int|
            #![trigger walk_pos(from.x as int, from.y as int, s2, k), q[j]]
            {
                let e = walk_pos(from.x as int, from.y as int, s2, k);
                &&& 0 <= k <= s2.len()
                &&& head <= j < q.len()
                &&& q[j].x as int == e.0 && q[j].y as int == e.1
                &&& distances.spec_get(e.0, e.1) != 0
                &&& distances.spec_get(e.0, e.1) - 1 <= k
            };
        let ek = walk_pos(fx, fy, s2, k);
        assert(distances.spec_get(try_pos.x as int, try_pos.y as int) <= distances.spec_get(
            q[j].x as int,
            q[j].y as int,
        ));
        assert(dist_try - 1 <= k);
    }
}

/// One step of backtracking along the discovered grid extends the reversed
/// walk and lands one distance unit closer to the origin.
#[verifier::rlimit(100)]
#[verifier::spinoff_prover]
proof fn lemma_backtrack_step(
    distances: Grid<u32>,
    step_back: Grid<Direction>,
    walls: BitGrid,
    from: TilePosition,
    cur: TilePosition,
    next: TilePosition,
    dir: Direction,
    steps_before: Seq<Direction>,
    hit_end: TilePosition,
)
    requires
        grids_match(distances, step_back, walls),
        bfs_state_ok(distances, step_back, walls, from),
        walls.spec_in_bounds(cur),
        distances.spec_get(cur.x as int, cur.y as int) >= 1,
        !(cur.x == from.x && cur.y == from.y),
        dir == step_back.spec_get(cur.x as int, cur.y as int),
        next.x as int == cur.x as int + dir_dx(dir),
        next.y as int == cur.y as int + dir_dy(dir),
        walk_open(cur.x as int, cur.y as int, spec_reversed(steps_before), walls),
        walk(cur.x as int, cur.y as int, spec_reversed(steps_before)) == (
            hit_end.x as int,
            hit_end.y as int,
        ),
    ensures
        walls.spec_in_bounds(next),
        distances.spec_get(next.x as int, next.y as int) == distances.spec_get(
            cur.x as int,
            cur.y as int,
        ) - 1,
        distances.spec_get(next.x as int, next.y as int) >= 1,
        walk_open(next.x as int, next.y as int, spec_reversed(steps_before.push(dir)), walls),
        walk(next.x as int, next.y as int, spec_reversed(steps_before.push(dir))) == (
            hit_end.x as int,
            hit_end.y as int,
        ),
{
    assert(distances.spec_get(cur.x as int, cur.y as int) != 0);
    lemma_opposite_cancels(dir);
    lemma_reversed_push(steps_before, dir);
    lemma_walk_cons(
        next.x as int,
        next.y as int,
        dir.spec_opposite(),
        spec_reversed(steps_before),
        walls,
    );
}

/// Walks the back-direction grid from `hit_end` toward `from`, then returns
/// the forward path, or `None` when the path would not fit in 224 steps.
#[verifier::rlimit(100)]
#[verifier::spinoff_prover]
fn reconstruct_path(
    from: TilePosition,
    hit_end: TilePosition,
    distances: &Grid<u32>,
    step_back: &Grid<Direction>,
    walls: &BitGrid,
) -> (r: Option<Path>)
    requires
        grids_match(*distances, *step_back, *walls),
        bfs_state_ok(*distances, *step_back, *walls, from),
        walls.spec_in_bounds(hit_end),
        distances.spec_get(hit_end.x as int, hit_end.y as int) >= 1,
    ensures
        r matches Some(p) ==> {
            &&& p.wf()
            &&& walk_open(from.x as int, from.y as int, p@, *walls)
            &&& walk(from.x as int, from.y as int, p@) == (hit_end.x as int, hit_end.y as int)
            &&& p@.len() == distances.spec_get(hit_end.x as int, hit_end.y as int) - 1
        },
        r is None ==> distances.spec_get(hit_end.x as int, hit_end.y as int) - 1
            > MAX_PATH_STEPS,
{
    let mut back_steps: Vec<Direction> = Vec::new();
    let mut cur: TilePosition = hit_end;
    while !(cur.x == from.x && cur.y == from.y) && back_steps.len() < MAX_PATH_STEPS
        invariant
            grids_match(*distances, *step_back, *walls),
            bfs_state_ok(*distances, *step_back, *walls, from),
            walls.spec_in_bounds(cur),
            distances.spec_get(cur.x as int, cur.y as int) >= 1,
            back_steps@.len() == distances.spec_get(hit_end.x as int, hit_end.y as int)
                - distances.spec_get(cur.x as int, cur.y as int),
            back_steps@.len() <= MAX_PATH_STEPS,
            walk_open(cur.x as int, cur.y as int, spec_reversed(back_steps@), *walls),
            walk(cur.x as int, cur.y as int, spec_reversed(back_steps@)) == (
                hit_end.x as int,
                hit_end.y as int,
            ),
        decreases distances.spec_get(cur.x as int, cur.y as int),
    {
        let dir = step_back.get(cur);
        proof {
            assert(distances.spec_get(cur.x as int, cur.y as int) != 0);
            lemma_opposite_cancels(dir);
            walls.lemma_dims();
        }
        let next = cur.step(dir);
        let ghost steps_before: Seq<Direction> = back_steps@;
        back_steps.push(dir);
        proof {
            lemma_backtrack_step(
                *distances,
                *step_back,
                *walls,
                from,
                cur,
                next,
                dir,
                steps_before,
                hit_end,
            );
        }
        cur = next;
    }
    if !(cur.x == from.x && cur.y == from.y) {
        proof {
            assert(distances.spec_get(cur.x as int, cur.y as int) >= 2);
        }
        return None;
    }
    Some(pack_forward(&back_steps))
}

/// Packs backtracked steps into the forward path: opposite directions in
/// opposite order.
fn pack_forward(back_steps: &Vec<Direction>) -> (r: Path)
    requires
        back_steps@.len() <= MAX_PATH_STEPS,
    ensures
        r.wf(),
        r@ == spec_reversed(back_steps@),
{
    let n: usize = back_steps.len();
    let mut path = Path::default();
    let mut i: usize = n;
    while i > 0
        invariant
            n == back_steps@.len(),
            n <= MAX_PATH_STEPS,
            i <= n,
            path.wf(),
            path@.len() == n - i,
            forall|k: int| 0 <= k < n - i ==> path@[k] == back_steps@[n - 1 - k].spec_opposite(),
        decreases i,
    {
        i = i - 1;
        let added = path.add_step(back_steps[i].opposite());
        assert(added);
    }
    proof {
        assert(path@ =~= spec_reversed(back_steps@));
    }
    path
}

/// The queue only holds discovered in-bounds cells.
spec fn queue_ok(q: Seq<TilePosition>, distances: Grid<u32>, walls: BitGrid) -> bool {
    forall|i: int|
        0 <= i < q.len() ==> walls.spec_in_bounds(#[trigger] q[i]) && distances.spec_get(
            q[i].x as int,
            q[i].y as int,
        ) >= 1
}

/// The ghost set of discovered cell indices mirrors the nonzero cells of the
/// distance grid; it bounds both the stored distances and, through its
/// cardinality, how many cells can still be enqueued.
spec fn visited_ok(distances: Grid<u32>, visited: Set<int>, walls: BitGrid) -> bool {
    let gw = walls.spec_width();
    let gh = walls.spec_height();
    &&& visited.finite()
    &&& visited.subset_of(vstd::set_lib::set_int_range(0, gw * gh))
    &&& visited.len() <= gw * gh
    &&& forall|x: int, y: int|
        0 <= x && x < gw && 0 <= y && y < gh ==> ((#[trigger] distances.spec_get(x, y)) != 0
            <==> visited.contains(y * gw + x))
    &&& forall|x: int, y: int|
        0 <= x && x < gw && 0 <= y && y < gh ==> (#[trigger] distances.spec_get(x, y))
            <= visited.len()
}

/// Discovering a fresh walkable neighbor preserves the search invariants.
#[verifier::rlimit(100)]
proof fn lemma_bfs_discover(
    d0: Grid<u32>,
    d1: Grid<u32>,
    b0: Grid<Direction>,
    b1: Grid<Direction>,
    q0: Seq<TilePosition>,
    q1: Seq<TilePosition>,
    v0: Set<int>,
    v1: Set<int>,
    walls: BitGrid,
    from: TilePosition,
    try_pos: TilePosition,
    dir: Direction,
    neighbor: TilePosition,
    dist_try: u32,
)
    requires
        grids_match(d0, b0, walls),
        bfs_state_ok(d0, b0, walls, from),
        queue_ok(q0, d0, walls),
        visited_ok(d0, v0, walls),
        q0.len() <= v0.len(),
        walls.spec_in_bounds(try_pos),
        d0.spec_get(try_pos.x as int, try_pos.y as int) == dist_try,
        dist_try >= 1,
        neighbor.x as int == try_pos.x as int + dir_dx(dir),
        neighbor.y as int == try_pos.y as int + dir_dy(dir),
        walls.spec_in_bounds(neighbor),
        d0.spec_get(neighbor.x as int, neighbor.y as int) == 0,
        !walls.spec_get(neighbor.x as int, neighbor.y as int),
        dist_try as int + 1 <= u32::MAX as int,
        d1.wf(),
        d1.spec_width() == walls.spec_width(),
        d1.spec_height() == walls.spec_height(),
        d1.spec_get(neighbor.x as int, neighbor.y as int) == dist_try + 1,
        forall|x: int, y: int|
            0 <= x < d1.spec_width() && 0 <= y < d1.spec_height() && !(x == neighbor.x as int && y
                == neighbor.y as int) ==> d1.spec_get(x, y) == d0.spec_get(x, y),
        b1.wf(),
        b1.spec_width() == walls.spec_width(),
        b1.spec_height() == walls.spec_height(),
        b1.spec_get(neighbor.x as int, neighbor.y as int) == dir.spec_opposite(),
        forall|x: int, y: int|
            0 <= x < b1.spec_width() && 0 <= y < b1.spec_height() && !(x == neighbor.x as int && y
                == neighbor.y as int) ==> b1.spec_get(x, y) == b0.spec_get(x, y),
        q1 == q0.push(neighbor),
        v1 == v0.insert((neighbor.y as int) * walls.spec_width() + neighbor.x as int),
    ensures
        grids_match(d1, b1, walls),
        bfs_state_ok(d1, b1, walls, from),
        queue_ok(q1, d1, walls),
        visited_ok(d1, v1, walls),
        q1.len() <= v1.len(),
        d1.spec_get(try_pos.x as int, try_pos.y as int) == dist_try,
        v0.len() < v1.len(),
{
    let gw = walls.spec_width();
    let gh = walls.spec_height();
    let nx = neighbor.x as int;
    let ny = neighbor.y as int;
    lemma_opposite_cancels(dir);
    crate::grid::lemma_grid_index_in_range(nx, ny, gw, gh);
    vstd::set_lib::lemma_int_range(0, gw * gh);
    assert(!v0.contains(ny * gw + nx));
    assert(v1.len() == v0.len() + 1);
    assert(v1.subset_of(vstd::set_lib::set_int_range(0, gw * gh)));
    vstd::set_lib::lemma_len_subset(v1, vstd::set_lib::set_int_range(0, gw * gh));
    assert(!(try_pos.x as int == nx && try_pos.y as int == ny));
    assert(d1.spec_get(try_pos.x as int, try_pos.y as int) == dist_try);
    assert forall|x: int, y: int|
        0 <= x && x < gw && 0 <= y && y < gh implies ((#[trigger] d1.spec_get(x, y)) != 0
        <==> v1.contains(y * gw + x)) by {
        if !(x == nx && y == ny) {
            crate::grid::lemma_grid_index_injective(x, y, nx, ny, gw, gh);
        }
    }
    assert forall|x: int, y: int|
        0 <= x && x < gw && 0 <= y && y < gh implies (#[trigger] d1.spec_get(x, y))
        <= v1.len() by {
        if !(x == nx && y == ny) {
            assert(d1.spec_get(x, y) == d0.spec_get(x, y));
        }
    }
    assert forall|i: int| 0 <= i < q1.len() implies walls.spec_in_bounds(#[trigger] q1[i])
        && d1.spec_get(q1[i].x as int, q1[i].y as int) >= 1 by {
        if i < q0.len() {
            assert(walls.spec_in_bounds(q0[i]));
            assert(d0.spec_get(q0[i].x as int, q0[i].y as int) >= 1);
            if !(q0[i].x as int == nx && q0[i].y as int == ny) {
                assert(d1.spec_get(q1[i].x as int, q1[i].y as int) == d0.spec_get(
                    q0[i].x as int,
                    q0[i].y as int,
                ));
            }
        }
    }
    assert forall|x: int, y: int|
        0 <= x && x < gw && 0 <= y && y < gh && #[trigger] d1.spec_get(x, y) != 0 && !(x
            == from.x as int && y == from.y as int) implies {
        let d = b1.spec_get(x, y);
        let px = x + dir_dx(d);
        let py = y + dir_dy(d);
        &&& d1.spec_get(x, y) >= 2
        &&& !walls.spec_get(x, y)
        &&& 0 <= px && px < gw
        &&& 0 <= py && py < gh
        &&& d1.spec_get(px, py) == d1.spec_get(x, y) - 1
    } by {
        if x == nx && y == ny {
            assert(b1.spec_get(nx, ny) == dir.spec_opposite());
            assert(nx + dir_dx(dir.spec_opposite()) == try_pos.x as int);
            assert(ny + dir_dy(dir.spec_opposite()) == try_pos.y as int);
        } else {
            assert(d0.spec_get(x, y) == d1.spec_get(x, y));
            assert(b0.spec_get(x, y) == b1.spec_get(x, y));
            let d = b0.spec_get(x, y);
            let px = x + dir_dx(d);
            let py = y + dir_dy(d);
            assert(d0.spec_get(px, py) == d0.spec_get(x, y) - 1 >= 1);
            assert(!(px == nx && py == ny));
            assert(d1.spec_get(px, py) == d0.spec_get(px, py));
        }
    }
}

/// Breadth-first search from `from` to any cell set in `destinations`,
/// expanding neighbors in the fixed order up, down, right, left.
///
/// A returned path only crosses unblocked in-bounds cells and ends on (or,
/// with `allow_wall_destination`, next to) a destination; when every
/// destination lies on open ground, the returned path is moreover no longer
/// than any open walk that hits a destination. `None` is returned when
/// `from` lies outside the grid, when no destination is reachable, or when
/// the path would not fit in 224 steps; the causes are not distinguished.
#[verifier::rlimit(100)]
pub fn find_path_to_any(
    from: TilePosition,
    destinations: &BitGrid,
    allow_wall_destination: bool,
    walls: &BitGrid,
) -> (r: Option<Path>)
    requires
        walls.wf(),
        destinations.wf(),
        destinations.spec_width() == walls.spec_width(),
        destinations.spec_height() == walls.spec_height(),
    ensures
        r matches Some(p) ==> {
            &&& p.wf()
            &&& walls.spec_in_bounds(from)
            &&& walk_open(from.x as int, from.y as int, p@, *walls)
            &&& hits_destination(from, p@, *walls, *destinations, allow_wall_destination)
        },
        r matches Some(p) ==> ((forall|x: int, y: int|
            0 <= x < walls.spec_width() && 0 <= y < walls.spec_height()
                && #[trigger] destinations.spec_get(x, y) ==> !walls.spec_get(x, y))
            ==> forall|s: Seq<Direction>|
            #[trigger] walk_open(from.x as int, from.y as int, s, *walls) && hits_destination(
                from,
                s,
                *walls,
                *destinations,
                allow_wall_destination,
            ) ==> p@.len() <= s.len()),
        (walls.spec_in_bounds(from) && exists|s: Seq<Direction>|
            #[trigger] walk_open(from.x as int, from.y as int, s, *walls) && hits_destination(
                from,
                s,
                *walls,
                *destinations,
                allow_wall_destination,
            ) && s.len() + 1 <= MAX_PATH_STEPS) ==> r is Some,
        !walls.spec_in_bounds(from) ==> r is None,
        walls.spec_in_bounds(from) && destinations.spec_get(from.x as int, from.y as int) ==> (
        r matches Some(p) && p@.len() == 0),
{
    if !destinations.in_bounds(from) {
        return None;
    }
    if destinations.get(from) {
        return Some(Path::default());
    }
    let width: usize = walls.width();
    let height: usize = walls.height();
    proof {
        walls.lemma_dims();
    }
    assert(width * height <= 32767 * 32767) by (nonlinear_arith)
        requires
            width <= 32767,
            height <= 32767,
    ;
    let cells: usize = width * height;
    let mut distances: Grid<u32> = match Grid::<u32>::new_filled(width, height, 0) {
        Some(g) => g,
        None => vstd::pervasive::unreached(),
    };
    let mut step_back: Grid<Direction> = match Grid::<Direction>::new_filled(
        width,
        height,
        Direction::Up,
    ) {
        Some(g) => g,
        None => vstd::pervasive::unreached(),
    };
    let mut queue: Vec<TilePosition> = Vec::new();
    let mut head: usize = 0;
    queue.push(from);
    distances.set(from, 1);
    let ghost gw: int = walls.spec_width();
    let ghost gh: int = walls.spec_height();
    let ghost from_idx: int = (from.y as int) * gw + from.x as int;
    let ghost mut visited: Set<int> = Set::<int>::empty().insert(from_idx);
    proof {
        crate::grid::lemma_grid_index_in_range(from.x as int, from.y as int, gw, gh);
        vstd::set_lib::lemma_int_range(0, gw * gh);
        assert(visited.subset_of(vstd::set_lib::set_int_range(0, gw * gh)));
        vstd::set_lib::lemma_len_subset(visited, vstd::set_lib::set_int_range(0, gw * gh));
        assert(visited.len() == 1);
        assert forall|x: int, y: int| 0 <= x && x < gw && 0 <= y && y < gh implies ((
        #[trigger] distances.spec_get(x, y)) != 0 <==> visited.contains(y * gw + x)) by {
            if !(x == from.x as int && y == from.y as int) {
                crate::grid::lemma_grid_index_injective(x, y, from.x as int, from.y as int, gw, gh);
            }
        }
        assert(queue_ok(queue@, distances, *walls));
        assert(visited_ok(distances, visited, *walls));
        lemma_bfs_init(from, distances, queue@, *walls, *destinations, allow_wall_destination);
    }
    while head < queue.len()
        invariant
            grids_match(distances, step_back, *walls),
            bfs_state_ok(distances, step_back, *walls, from),
            destinations.wf(),
            destinations.spec_width() == gw,
            destinations.spec_height() == gh,
            !destinations.spec_get(from.x as int, from.y as int),
            gw == walls.spec_width(),
            gh == walls.spec_height(),
            cells as int == gw * gh,
            head <= queue.len(),
            queue_ok(queue@, distances, *walls),
            visited_ok(distances, visited, *walls),
            queue@.len() <= visited.len(),
            walls.spec_in_bounds(from),
            discovered_in_queue(distances, queue@, *walls),
            queue_sorted(queue@, distances),
            popped_expanded(queue@, head as int, distances, *walls),
            popped_no_open_walldest(
                queue@,
                head as int,
                *walls,
                *destinations,
                allow_wall_destination,
            ),
            dists_bounded(queue@, head as int, distances, *walls),
            no_discovered_destination(distances, *destinations, *walls, allow_wall_destination),
            frontier_covers(from, distances, queue@, head as int, *walls),
        decreases cells - head,
    {
        let try_pos: TilePosition = queue[head];
        let dist_try: u32 = distances.get(try_pos);
        proof {
            lemma_cell_expanded_zero(try_pos, distances, *walls);
            assert(cell_no_open_walldest_upto(
                try_pos,
                0,
                *walls,
                *destinations,
                allow_wall_destination,
            )) by {
                reveal(crate::pathfinding::cell_no_open_walldest_upto);
            }
            assert forall|x: int, y: int|
                0 <= x && x < gw && 0 <= y && y < gh && #[trigger] distances.spec_get(x, y)
                    != 0 implies distances.spec_get(x, y) <= dist_try + 1 by {
                reveal(crate::pathfinding::dists_bounded);
            }
        }
        let mut k: u8 = 0;
        while k < 4
            invariant
                grids_match(distances, step_back, *walls),
                bfs_state_ok(distances, step_back, *walls, from),
                destinations.wf(),
                destinations.spec_width() == gw,
                destinations.spec_height() == gh,
                !destinations.spec_get(from.x as int, from.y as int),
                gw == walls.spec_width(),
                gh == walls.spec_height(),
                cells as int == gw * gh,
                head < queue.len(),
                queue_ok(queue@, distances, *walls),
                visited_ok(distances, visited, *walls),
                queue@.len() <= visited.len(),
                walls.spec_in_bounds(from),
                discovered_in_queue(distances, queue@, *walls),
                queue_sorted(queue@, distances),
                popped_expanded(queue@, head as int, distances, *walls),
                popped_no_open_walldest(
                    queue@,
                    head as int,
                    *walls,
                    *destinations,
                    allow_wall_destination,
                ),
                cell_no_open_walldest_upto(
                    try_pos,
                    k as int,
                    *walls,
                    *destinations,
                    allow_wall_destination,
                ),
                no_discovered_destination(
                    distances,
                    *destinations,
                    *walls,
                    allow_wall_destination,
                ),
                frontier_covers(from, distances, queue@, head as int, *walls),
                queue@[head as int] == try_pos,
                walls.spec_in_bounds(try_pos),
                distances.spec_get(try_pos.x as int, try_pos.y as int) == dist_try,
                1 <= dist_try,
                forall|x: int, y: int|
                    0 <= x && x < gw && 0 <= y && y < gh && #[trigger] distances.spec_get(x, y)
                        != 0 ==> distances.spec_get(x, y) <= dist_try + 1,
                cell_expanded_upto(try_pos, k as int, distances, *walls),
                k <= 4,
            decreases 4 - k,
        {
            let dir = Direction::nth_neighbor(k);
            proof {
                walls.lemma_dims();
            }
            let neighbor = try_pos.step(dir);
            if walls.in_bounds(neighbor) && distances.get(neighbor) == 0 {
                let can_walk = !walls.get(neighbor);
                if can_walk {
                    let visited2 = bfs_discover_step(
                        &mut distances,
                        &mut step_back,
                        &mut queue,
                        Ghost(visited),
                        from,
                        try_pos,
                        head,
                        k,
                        dir,
                        neighbor,
                        dist_try,
                        walls,
                        destinations,
                        allow_wall_destination,
                    );
                    proof {
                        visited = visited2@;
                    }
                }
                if destinations.get(neighbor) && (allow_wall_destination || can_walk) {
                    let hit_end: TilePosition = if can_walk {
                        neighbor
                    } else {
                        try_pos
                    };
                    let result = reconstruct_path(from, hit_end, &distances, &step_back, walls);
                    match result {
                        Some(p) => {
                            proof {
                                let end = walk(from.x as int, from.y as int, p@);
                                assert(end == (hit_end.x as int, hit_end.y as int));
                                if !can_walk {
                                    assert(walls.spec_get(end.0 + dir_dx(dir), end.1 + dir_dy(
                                        dir,
                                    )));
                                }
                                assert(hits_destination(
                                    from,
                                    p@,
                                    *walls,
                                    *destinations,
                                    allow_wall_destination,
                                ));
                                if forall|x: int, y: int|
                                    0 <= x < walls.spec_width() && 0 <= y < walls.spec_height()
                                        && #[trigger] destinations.spec_get(x, y)
                                        ==> !walls.spec_get(x, y) {
                                    if !can_walk {
                                        assert(destinations.spec_get(
                                            neighbor.x as int,
                                            neighbor.y as int,
                                        ) && walls.spec_get(
                                            neighbor.x as int,
                                            neighbor.y as int,
                                        ));
                                        assert(false);
                                    }
                                    assert forall|s: Seq<Direction>|
                                        #[trigger] walk_open(
                                            from.x as int,
                                            from.y as int,
                                            s,
                                            *walls,
                                        ) && hits_destination(
                                            from,
                                            s,
                                            *walls,
                                            *destinations,
                                            allow_wall_destination,
                                        ) implies p@.len() <= s.len() by {
                                        lemma_hit_minimal_open_mask(
                                            from,
                                            s,
                                            distances,
                                            queue@,
                                            head as int,
                                            *walls,
                                            *destinations,
                                            allow_wall_destination,
                                            try_pos,
                                            dist_try as int,
                                            neighbor,
                                        );
                                    }
                                }
                            }
                            return Some(p);
                        },
                        None => {
                            proof {
                                let exception = neighbor;
                                assert forall|s: Seq<Direction>|
                                    #[trigger] walk_open(from.x as int, from.y as int, s, *walls)
                                        && hits_destination(
                                        from,
                                        s,
                                        *walls,
                                        *destinations,
                                        allow_wall_destination,
                                    ) implies s.len() + 1 > MAX_PATH_STEPS by {
                                    reveal(crate::pathfinding::no_discovered_destination);
                                    lemma_bounded_hit_is_long(
                                        from,
                                        s,
                                        distances,
                                        queue@,
                                        head as int,
                                        *walls,
                                        *destinations,
                                        allow_wall_destination,
                                        try_pos,
                                        dist_try,
                                        exception,
                                    );
                                }
                            }
                            return None;
                        },
                    }
                }
            }
            proof {
                lemma_cell_expanded_extend(try_pos, k as int, dir, distances, *walls);
                assert({
                    let nx = try_pos.x as int + dir_dx(dir);
                    let ny = try_pos.y as int + dir_dy(dir);
                    ||| !(0 <= nx && nx < walls.spec_width() && 0 <= ny && ny
                        < walls.spec_height())
                    ||| !walls.spec_get(nx, ny)
                    ||| !(allow_wall_destination && destinations.spec_get(nx, ny))
                }) by {
                    if walls.spec_in_bounds(neighbor) && walls.spec_get(
                        neighbor.x as int,
                        neighbor.y as int,
                    ) {
                        if distances.spec_get(neighbor.x as int, neighbor.y as int) != 0 {
                            // Only the origin can be both discovered and
                            // blocked, and the origin is no destination.
                            assert(neighbor.x as int == from.x as int && neighbor.y as int
                                == from.y as int);
                        }
                    }
                }
                lemma_no_walldest_extend(
                    try_pos,
                    k as int,
                    dir,
                    *walls,
                    *destinations,
                    allow_wall_destination,
                );
            }
            k = k + 1;
        }
        proof {
            lemma_finish_pop(from, distances, queue@, head as int, try_pos, *walls);
            lemma_finish_pop_no_walldest(
                queue@,
                head as int,
                try_pos,
                *walls,
                *destinations,
                allow_wall_destination,
            );
        }
        head = head + 1;
    }
    proof {
        assert forall|s: Seq<Direction>|
            #[trigger] walk_open(from.x as int, from.y as int, s, *walls) implies
            !hits_destination(from, s, *walls, *destinations, allow_wall_destination) by {
            lemma_exhausted_no_hit(
                from,
                s,
                distances,
                queue@,
                *walls,
                *destinations,
                allow_wall_destination,
            );
        }
    }
    None
}


/// Breadth-first search from `from` to the single tile `to`; the returned
/// path ends on `to`, or next to it when `to` is blocked and
/// `allow_wall_destination` is set.
pub fn find_path_to(
    from: TilePosition,
    to: TilePosition,
    allow_wall_destination: bool,
    walls: &BitGrid,
) -> (r: Option<Path>)
    requires
        walls.wf(),
        walls.spec_in_bounds(to),
    ensures
        r matches Some(p) ==> {
            &&& p.wf()
            &&& walls.spec_in_bounds(from)
            &&& walk_open(from.x as int, from.y as int, p@, *walls)
            &&& path_reaches_tile(from, p@, *walls, to, allow_wall_destination)
        },
        !walls.spec_get(to.x as int, to.y as int) ==> (r matches Some(p) ==> forall|
            s: Seq<Direction>,
        |
            #[trigger] walk_open(from.x as int, from.y as int, s, *walls) && path_reaches_tile(
                from,
                s,
                *walls,
                to,
                allow_wall_destination,
            ) ==> p@.len() <= s.len()),
        (walls.spec_in_bounds(from) && exists|s: Seq<Direction>|
            #[trigger] walk_open(from.x as int, from.y as int, s, *walls) && path_reaches_tile(
                from,
                s,
                *walls,
                to,
                allow_wall_destination,
            ) && s.len() + 1 <= MAX_PATH_STEPS) ==> r is Some,
        !walls.spec_in_bounds(from) ==> r is None,
        walls.spec_in_bounds(from) && from == to ==> (r matches Some(p) && p@.len() == 0),
{
    let (width, height) = walls.size();
    let mut destinations: BitGrid = match BitGrid::new(width, height) {
        Some(g) => g,
        None => {
            proof {
                walls.lemma_dims();
            }
            return None;
        },
    };
    destinations.set(to, true);
    let r = find_path_to_any(from, &destinations, allow_wall_destination, walls);
    proof {
        match &r {
            Some(p) => {
            let end = walk(from.x as int, from.y as int, p@);
            assert(path_reaches_tile(from, p@, *walls, to, allow_wall_destination)) by {
                if {
                    &&& 0 <= end.0 && end.0 < walls.spec_width()
                    &&& 0 <= end.1 && end.1 < walls.spec_height()
                    &&& destinations.spec_get(end.0, end.1)
                    &&& (allow_wall_destination || !walls.spec_get(end.0, end.1))
                } {
                    assert(end.0 == to.x as int && end.1 == to.y as int);
                } else if allow_wall_destination && exists|d: Direction|
                    #![trigger dir_dx(d), dir_dy(d)]
                    {
                        &&& 0 <= end.0 + dir_dx(d) && end.0 + dir_dx(d) < walls.spec_width()
                        &&& 0 <= end.1 + dir_dy(d) && end.1 + dir_dy(d) < walls.spec_height()
                        &&& walls.spec_get(end.0 + dir_dx(d), end.1 + dir_dy(d))
                        &&& destinations.spec_get(end.0 + dir_dx(d), end.1 + dir_dy(d))
                    } {
                    let d = choose|d: Direction|
                        #![trigger dir_dx(d), dir_dy(d)]
                        {
                            &&& 0 <= end.0 + dir_dx(d) && end.0 + dir_dx(d) < walls.spec_width()
                            &&& 0 <= end.1 + dir_dy(d) && end.1 + dir_dy(d) < walls.spec_height()
                            &&& walls.spec_get(end.0 + dir_dx(d), end.1 + dir_dy(d))
                            &&& destinations.spec_get(end.0 + dir_dx(d), end.1 + dir_dy(d))
                        };
                    assert(end.0 + dir_dx(d) == to.x as int && end.1 + dir_dy(d) == to.y as int);
                } else {
                    assert(p@.len() == 0 && destinations.spec_get(from.x as int, from.y as int));
                    assert(from.x as int == to.x as int && from.y as int == to.y as int);
                    assert(from == to);
                }
            }
            if !walls.spec_get(to.x as int, to.y as int) {
                assert forall|x: int, y: int|
                    0 <= x < walls.spec_width() && 0 <= y < walls.spec_height()
                        && #[trigger] destinations.spec_get(x, y) implies !walls.spec_get(
                    x,
                    y,
                ) by {
                    assert(x == to.x as int && y == to.y as int);
                }
                assert forall|s: Seq<Direction>|
                    #[trigger] walk_open(from.x as int, from.y as int, s, *walls)
                        && path_reaches_tile(
                        from,
                        s,
                        *walls,
                        to,
                        allow_wall_destination,
                    ) implies p@.len() <= s.len() by {
                    lemma_member_hit_is_mask_hit(
                        from,
                        s,
                        *walls,
                        destinations,
                        to,
                        allow_wall_destination,
                    );
                }
            }
            },
            None => {
                if walls.spec_in_bounds(from) {
                    assert forall|s: Seq<Direction>|
                        #[trigger] walk_open(from.x as int, from.y as int, s, *walls)
                            && path_reaches_tile(
                            from,
                            s,
                            *walls,
                            to,
                            allow_wall_destination,
                        ) implies s.len() + 1 > MAX_PATH_STEPS by {
                        lemma_member_hit_is_mask_hit(
                            from,
                            s,
                            *walls,
                            destinations,
                            to,
                            allow_wall_destination,
                        );
                    }
                }
            },
        }
    }
    r
}

} // verus!
