//! Squares, single-square masks, the eight directions, rays, and iteration
//! over the members of a bitboard.
//!
//! Square `i` has file coordinate `i % 8` and rank coordinate `i / 8`.
//! North is towards rank coordinate 0, east towards file coordinate 7.
use vstd::prelude::*;
use vstd::std_specs::bits::*;
use crate::bits::{
    bit, single, mask_of, group_bits, lemma_bit_and, lemma_bit_not, lemma_bit_zero, lemma_lowest,
    lemma_highest, lemma_single_nonzero, lemma_bits_equal, lemma_mask_of_bit, lemma_mask_of_unique,
};

verus! {

#[derive(Debug, Clone, Copy, PartialEq, Eq, Structural)]
pub enum Dir {
    North,
    South,
    East,
    West,
    NorthEast,
    NorthWest,
    SouthEast,
    SouthWest,
}

/// File coordinate of square `i`.
pub open spec fn file_of(i: int) -> int {
    i % 8
}

/// Rank coordinate of square `i`.
pub open spec fn rank_of(i: int) -> int {
    i / 8
}

/// Whether `(x, y)` are the coordinates of a square.
pub open spec fn on_board(x: int, y: int) -> bool {
    0 <= x <= 7 && 0 <= y <= 7
}

/// `k` steps along one coordinate whose unit step is `d`.
pub open spec fn along(k: int, d: int) -> int {
    if d > 0 {
        k
    } else if d < 0 {
        -k
    } else {
        0
    }
}

impl Dir {
    /// Change of the file coordinate in one step.
    pub open spec fn dx(self) -> int {
        match self {
            Dir::North | Dir::South => 0,
            Dir::East | Dir::NorthEast | Dir::SouthEast => 1,
            Dir::West | Dir::NorthWest | Dir::SouthWest => -1,
        }
    }

    /// Change of the rank coordinate in one step.
    pub open spec fn dy(self) -> int {
        match self {
            Dir::East | Dir::West => 0,
            Dir::South | Dir::SouthEast | Dir::SouthWest => 1,
            Dir::North | Dir::NorthEast | Dir::NorthWest => -1,
        }
    }

    /// Change of the square index in one step.
    pub open spec fn delta(self) -> int {
        8 * self.dy() + self.dx()
    }

    pub open spec fn spec_flip(self) -> Dir {
        match self {
            Dir::North => Dir::South,
            Dir::South => Dir::North,
            Dir::East => Dir::West,
            Dir::West => Dir::East,
            Dir::NorthEast => Dir::SouthWest,
            Dir::NorthWest => Dir::SouthEast,
            Dir::SouthEast => Dir::NorthWest,
            Dir::SouthWest => Dir::NorthEast,
        }
    }

    /// Position of `self` in tables indexed by direction.
    pub open spec fn spec_ordinal(self) -> int {
        match self {
            Dir::North => 0,
            Dir::South => 1,
            Dir::East => 2,
            Dir::West => 3,
            Dir::NorthEast => 4,
            Dir::NorthWest => 5,
            Dir::SouthEast => 6,
            Dir::SouthWest => 7,
        }
    }

    /// The square one step from the lowest member of `place`, if it is on
    /// the board.
    pub open spec fn spec_mv(self, place: u64) -> Option<u64> {
        let i = u64_trailing_zeros(place) as int;
        let x = file_of(i) + self.dx();
        let y = rank_of(i) + self.dy();
        if on_board(x, y) {
            Some(single(y * 8 + x))
        } else {
            None
        }
    }

    pub fn ordinal(&self) -> (r: usize)
        ensures
            r == self.spec_ordinal(),
            r < 8,
    {
        match *self {
            Dir::North => 0,
            Dir::South => 1,
            Dir::East => 2,
            Dir::West => 3,
            Dir::NorthEast => 4,
            Dir::NorthWest => 5,
            Dir::SouthEast => 6,
            Dir::SouthWest => 7,
        }
    }

    pub fn mv(&self, place: u64) -> (r: Option<u64>)
        ensures
            r == self.spec_mv(place),
    {
        let (x, y) = place_to_coord(place);
        let (dx, dy) = match *self {
            Dir::North => (x, y - 1),
            Dir::South => (x, y + 1),
            Dir::East => (x + 1, y),
            Dir::West => (x - 1, y),
            Dir::NorthEast => (x + 1, y - 1),
            Dir::NorthWest => (x - 1, y - 1),
            Dir::SouthEast => (x + 1, y + 1),
            Dir::SouthWest => (x - 1, y + 1),
        };
        if 0 <= dx && dx <= 7 && 0 <= dy && dy <= 7 {
            return Some(index_to_place(coord_to_index((dx, dy))));
        }
        return None;
    }

    pub fn flip(&self) -> (r: Dir)
        ensures
            r == self.spec_flip(),
            r.dx() == -self.dx(),
            r.dy() == -self.dy(),
    {
        match *self {
            Dir::North => Dir::South,
            Dir::South => Dir::North,
            Dir::East => Dir::West,
            Dir::West => Dir::East,
            Dir::NorthEast => Dir::SouthWest,
            Dir::NorthWest => Dir::SouthEast,
            Dir::SouthEast => Dir::NorthWest,
            Dir::SouthWest => Dir::NorthEast,
        }
    }

    /// The four orthogonal directions.
    pub fn adj() -> (r: [Dir; 4])
        ensures
            r@ == seq![Dir::North, Dir::South, Dir::East, Dir::West],
    {
        [Dir::North, Dir::South, Dir::East, Dir::West]
    }

    /// The four diagonal directions.
    pub fn diag() -> (r: [Dir; 4])
        ensures
            r@ == seq![Dir::NorthEast, Dir::NorthWest, Dir::SouthEast, Dir::SouthWest],
    {
        [Dir::NorthEast, Dir::NorthWest, Dir::SouthEast, Dir::SouthWest]
    }

    /// All eight directions, the orthogonal ones first.
    pub fn all() -> (r: [Dir; 8])
        ensures
            r@ == seq![
                Dir::North,
                Dir::South,
                Dir::East,
                Dir::West,
                Dir::NorthEast,
                Dir::NorthWest,
                Dir::SouthEast,
                Dir::SouthWest,
            ],
            forall|k: int| 0 <= k < 8 ==> (#[trigger] r@[k]).spec_ordinal() == k,
    {
        [
            Dir::North,
            Dir::South,
            Dir::East,
            Dir::West,
            Dir::NorthEast,
            Dir::NorthWest,
            Dir::SouthEast,
            Dir::SouthWest,
        ]
    }
}

/// Walks the members of a bitboard from the lowest square up, as square
/// indices.
pub struct IndexIterator {
    cur: u64,
}

impl IndexIterator {
    /// The members not yet handed out.
    pub closed spec fn remaining(&self) -> u64 {
        self.cur
    }

    pub fn next(&mut self) -> (r: Option<usize>)
        ensures
            old(self).remaining() == 0 ==> r is None && final(self).remaining() == 0,
            old(self).remaining() != 0 ==> r == Some(u64_trailing_zeros(old(self).remaining()) as usize)
                && r->0 < 64 && bit(old(self).remaining(), r->0 as int)
                && final(self).remaining() == old(self).remaining() & !single(r->0 as int)
                && final(self).remaining() < old(self).remaining(),
    {
        if self.cur == 0 {
            None
        } else {
            proof {
                lemma_lowest(self.cur);
            }
            let res = Some(self.cur.trailing_zeros() as usize);
            self.cur &= self.cur - 1;
            res
        }
    }
}

pub fn iter_index(board: u64) -> (r: IndexIterator)
    ensures
        r.remaining() == board,
{
    IndexIterator { cur: board }
}

/// Walks the members of a bitboard from the lowest square up, as
/// single-square masks.
pub struct PlaceIterator {
    cur: u64,
}

impl PlaceIterator {
    /// The members not yet handed out.
    pub closed spec fn remaining(&self) -> u64 {
        self.cur
    }

    pub fn next(&mut self) -> (r: Option<u64>)
        ensures
            old(self).remaining() == 0 ==> r is None && final(self).remaining() == 0,
            old(self).remaining() != 0 ==> r == Some(single(u64_trailing_zeros(old(self).remaining()) as int))
                && u64_trailing_zeros(old(self).remaining()) < 64
                && bit(old(self).remaining(), u64_trailing_zeros(old(self).remaining()) as int)
                && final(self).remaining() == old(self).remaining() & !(r->0)
                && final(self).remaining() < old(self).remaining(),
    {
        if self.cur == 0 {
            None
        } else {
            proof {
                lemma_lowest(self.cur);
            }
            let prev = self.cur;
            self.cur &= self.cur - 1;
            Some(prev ^ self.cur)
        }
    }
}

pub fn iter_place(board: u64) -> (r: PlaceIterator)
    ensures
        r.remaining() == board,
{
    PlaceIterator { cur: board }
}

pub fn index_to_place(index: usize) -> (r: u64)
    requires
        index < 64,
    ensures
        r == single(index as int),
        r != 0,
{
    proof {
        lemma_single_nonzero(index as int);
    }
    return 1_u64 << index;
}

/// Index of the lowest member of `place`; 64 for the empty bitboard.
pub fn index(place: u64) -> (r: usize)
    ensures
        r == u64_trailing_zeros(place),
        r <= 64,
        place != 0 ==> r < 64 && bit(place, r as int),
{
    proof {
        axiom_u64_trailing_zeros(place);
        if place != 0 {
            lemma_lowest(place);
        }
    }
    place.trailing_zeros() as usize
}

pub fn coord_to_index(coord: (i32, i32)) -> (r: usize)
    requires
        on_board(coord.0 as int, coord.1 as int),
    ensures
        r == coord.1 * 8 + coord.0,
        r < 64,
        file_of(r as int) == coord.0,
        rank_of(r as int) == coord.1,
{
    (coord.1 * 8 + coord.0) as usize
}

pub fn index_to_coord(index: usize) -> (r: (i32, i32))
    requires
        index <= i32::MAX,
    ensures
        r.0 == file_of(index as int),
        r.1 == rank_of(index as int),
{
    return (index as i32 % 8, index as i32 / 8);
}

pub fn place_to_coord(place: u64) -> (r: (i32, i32))
    ensures
        r.0 == file_of(u64_trailing_zeros(place) as int),
        r.1 == rank_of(u64_trailing_zeros(place) as int),
        0 <= r.0 <= 7,
        0 <= r.1 <= 8,
        place != 0 ==> r.1 <= 7,
{
    return index_to_coord(index(place));
}


/// Whether `j` is exactly `k` steps from `i` in direction `dir`.
pub open spec fn is_step(i: int, dir: Dir, k: int, j: int) -> bool {
    &&& 0 <= i < 64
    &&& 0 <= j < 64
    &&& k >= 1
    &&& file_of(j) == file_of(i) + along(k, dir.dx())
    &&& rank_of(j) == rank_of(i) + along(k, dir.dy())
}

pub open spec fn abs_diff(a: int, b: int) -> int {
    if a >= b {
        a - b
    } else {
        b - a
    }
}

/// The number of king steps between two squares.
pub open spec fn distance(i: int, j: int) -> int {
    let dx = abs_diff(file_of(i), file_of(j));
    let dy = abs_diff(rank_of(i), rank_of(j));
    if dx >= dy {
        dx
    } else {
        dy
    }
}

/// Whether `j` lies on the ray that leaves `i` in direction `dir`; `i`
/// itself does not.
pub open spec fn on_ray(i: int, dir: Dir, j: int) -> bool {
    is_step(i, dir, distance(i, j), j)
}

/// How far a coordinate `c` can move with unit step `d` before it leaves
/// the board.
pub open spec fn room(c: int, d: int) -> int {
    if d > 0 {
        7 - c
    } else if d < 0 {
        c
    } else {
        7
    }
}

/// The number of steps from `i` in direction `dir` that stay on the board.
pub open spec fn steps_to_edge(i: int, dir: Dir) -> int {
    let a = room(file_of(i), dir.dx());
    let b = room(rank_of(i), dir.dy());
    if a <= b {
        a
    } else {
        b
    }
}

/// The squares of the ray from `i` in direction `dir` that keep at least
/// `edge_buffer` further steps before the edge of the board.
pub open spec fn spec_ray(i: int, dir: Dir, edge_buffer: int) -> u64 {
    mask_of(|j: int| on_ray(i, dir, j) && steps_to_edge(j, dir) >= edge_buffer)
}

/// Whether a slider on `i` sees `j` in direction `dir`: `j` is on the ray
/// and no member of `blockers` lies strictly between the two.
pub open spec fn sees(i: int, blockers: u64, dir: Dir, j: int) -> bool {
    &&& on_ray(i, dir, j)
    &&& forall|m: int| #[trigger]
        bit(blockers, m) && on_ray(i, dir, m) ==> distance(i, m) >= distance(i, j)
}

/// The squares that a slider on `i` sees in direction `dir`; the first
/// blocker is among them.
pub open spec fn spec_ray_until_blocker(i: int, blockers: u64, dir: Dir) -> u64 {
    mask_of(|j: int| sees(i, blockers, dir, j))
}

pub broadcast proof fn lemma_ray_bit(i: int, dir: Dir, edge_buffer: int, j: int)
    ensures
        #[trigger] bit(spec_ray(i, dir, edge_buffer), j) == (on_ray(i, dir, j) && steps_to_edge(
            j,
            dir,
        ) >= edge_buffer),
{
    lemma_mask_of_bit(|j: int| on_ray(i, dir, j) && steps_to_edge(j, dir) >= edge_buffer, j);
}

pub broadcast proof fn lemma_ray_until_blocker_bit(i: int, blockers: u64, dir: Dir, j: int)
    ensures
        #[trigger] bit(spec_ray_until_blocker(i, blockers, dir), j) == sees(i, blockers, dir, j),
{
    lemma_mask_of_bit(|j: int| sees(i, blockers, dir, j), j);
}

/// Squares on one ray are ordered by their distance from its origin, and the
/// ray that leaves one of them is the rest of the ray.
pub proof fn lemma_ray_order(i: int, dir: Dir, a: int, b: int)
    requires
        on_ray(i, dir, a),
        0 <= b < 64,
    ensures
        on_ray(a, dir, b) <==> on_ray(i, dir, b) && distance(i, b) > distance(i, a),
        on_ray(i, dir, b) ==> (distance(i, a) < distance(i, b) <==> (if dir.delta() > 0 {
            a < b
        } else {
            a > b
        })),
        on_ray(i, dir, b) && distance(i, a) == distance(i, b) ==> a == b,
        1 <= distance(i, a) <= steps_to_edge(i, dir),
        steps_to_edge(a, dir) == steps_to_edge(i, dir) - distance(i, a),
{
}

/// Shifting a single square moves it by the shift.
pub proof fn lemma_shift_single(p: int, s: int)
    requires
        0 <= p < 64,
        0 <= s < 64,
    ensures
        p + s < 64 ==> single(p) << (s as u64) == single(p + s),
        p >= s ==> single(p) >> (s as u64) == single(p - s),
{
    broadcast use group_bits;

    if p + s < 64 {
        assert forall|j: int| 0 <= j < 64 implies #[trigger] bit(single(p) << (s as u64), j)
            == bit(single(p + s), j) by {}
        lemma_bits_equal(single(p) << (s as u64), single(p + s));
    }
    if p >= s {
        assert forall|j: int| 0 <= j < 64 implies #[trigger] bit(single(p) >> (s as u64), j)
            == bit(single(p - s), j) by {}
        lemma_bits_equal(single(p) >> (s as u64), single(p - s));
    }
}

/// The square one step from `place` in direction `dir`.
fn shift_place(place: u64, dir: Dir, Ghost(p): Ghost<int>) -> (r: u64)
    requires
        0 <= p < 64,
        place == single(p),
        on_board(file_of(p) + dir.dx(), rank_of(p) + dir.dy()),
    ensures
        r == single(p + dir.delta()),
        0 <= p + dir.delta() < 64,
        file_of(p + dir.delta()) == file_of(p) + dir.dx(),
        rank_of(p + dir.delta()) == rank_of(p) + dir.dy(),
{
    proof {
        lemma_shift_single(p, 1);
        lemma_shift_single(p, 7);
        lemma_shift_single(p, 8);
        lemma_shift_single(p, 9);
    }
    match dir {
        Dir::North => place >> 8,
        Dir::South => place << 8,
        Dir::East => place << 1,
        Dir::West => place >> 1,
        Dir::NorthEast => place >> 7,
        Dir::NorthWest => place >> 9,
        Dir::SouthEast => place << 9,
        Dir::SouthWest => place << 7,
    }
}

fn min_i32(a: i32, b: i32) -> (r: i32)
    ensures
        r == if a <= b {
            a
        } else {
            b
        },
{
    if a <= b {
        a
    } else {
        b
    }
}

/// The squares of the ray from `index` in direction `dir`, `index` itself
/// not among them.
pub fn ray(index: usize, dir: Dir) -> (r: u64)
    requires
        index < 64,
    ensures
        r == spec_ray(index as int, dir, 0),
{
    _ray(index, dir, 0)
}

/// The ray from `index` in direction `dir` without its last `edge_buffer`
/// squares before the edge of the board.
pub fn _ray(index: usize, dir: Dir, edge_buffer: i32) -> (r: u64)
    requires
        index < 64,
        0 <= edge_buffer,
    ensures
        r == spec_ray(index as int, dir, edge_buffer as int),
{
    // not including index.
    let start = index_to_place(index);
    let i = index as i32;
    let (n, s, e, w) = (
        (i / 8) - edge_buffer,
        7 - (i / 8) - edge_buffer,
        7 - (i % 8) - edge_buffer,
        (i % 8) - edge_buffer,
    );
    let cnt = match dir {
        Dir::North => n,
        Dir::South => s,
        Dir::East => e,
        Dir::West => w,
        Dir::NorthEast => min_i32(n, e),
        Dir::NorthWest => min_i32(n, w),
        Dir::SouthEast => min_i32(s, e),
        Dir::SouthWest => min_i32(s, w),
    };
    assert(cnt == steps_to_edge(index as int, dir) - edge_buffer);
    let r = __ray(start, cnt, dir, Ghost(index as int));
    proof {
        let f = |j: int| on_ray(index as int, dir, j) && steps_to_edge(j, dir) >= edge_buffer;
        assert forall|j: int| 0 <= j < 64 implies #[trigger] bit(r, j) == f(j) by {
            if on_ray(index as int, dir, j) {
                lemma_ray_order(index as int, dir, j, j);
            }
        }
        lemma_mask_of_unique(r, f);
    }
    r
}

fn __ray(start: u64, cnt: i32, dir: Dir, Ghost(i): Ghost<int>) -> (r: u64)
    requires
        0 <= i < 64,
        start == single(i),
        cnt <= steps_to_edge(i, dir),
    ensures
        forall|j: int| 0 <= j < 64 ==> #[trigger] bit(r, j) == (on_ray(i, dir, j) && distance(i, j) <= cnt),
{
    broadcast use group_bits;

    let mut cur = start;
    let mut ray = 0_u64;
    let mut n: i32 = 0;
    let ghost mut p: int = i;
    while n < cnt
        invariant
            0 <= i < 64,
            0 <= n,
            n <= cnt || n == 0,
            cnt <= steps_to_edge(i, dir),
            0 <= p < 64,
            cur == single(p),
            file_of(p) == file_of(i) + along(n as int, dir.dx()),
            rank_of(p) == rank_of(i) + along(n as int, dir.dy()),
            forall|j: int| 0 <= j < 64 ==> #[trigger] bit(ray, j) == (on_ray(i, dir, j) && distance(i, j) <= n),
        decreases cnt - n,
    {
        broadcast use group_bits;

        let ghost before = ray;
        cur = shift_place(cur, dir, Ghost(p));
        ray |= cur;
        n += 1;
        proof {
            p = p + dir.delta();
            assert(is_step(i, dir, n as int, p));
            assert(distance(i, p) == n);
            assert forall|j: int| 0 <= j < 64 implies #[trigger] bit(ray, j) == (on_ray(i, dir, j)
                && distance(i, j) <= n) by {
                assert(ray == before | cur);
                assert(bit(ray, j) == (bit(before, j) || bit(cur, j)));
                assert(bit(single(p), j) == (j == p));
                if on_ray(i, dir, j) && distance(i, j) == n {
                    assert(j == p);
                }
            }
        }
    }
    proof {
        assert forall|j: int| 0 <= j < 64 implies #[trigger] bit(ray, j) == (on_ray(i, dir, j)
            && distance(i, j) <= cnt) by {}
    }
    ray
}

/// With `fb` the nearest blocker on the ray, a square is seen exactly when it
/// is on the ray and not beyond `fb`.
proof fn lemma_nearest_blocker(i: int, blockers: u64, dir: Dir, fb: int, j: int)
    requires
        on_ray(i, dir, fb),
        bit(blockers, fb),
        forall|m: int| #[trigger]
            bit(blockers, m) && on_ray(i, dir, m) ==> distance(i, m) >= distance(i, fb),
        0 <= j < 64,
    ensures
        sees(i, blockers, dir, j) == (on_ray(i, dir, j) && !on_ray(fb, dir, j)),
{
    lemma_ray_order(i, dir, fb, j);
    if on_ray(i, dir, j) && !on_ray(fb, dir, j) {
        assert forall|m: int| #[trigger]
            bit(blockers, m) && on_ray(i, dir, m) implies distance(i, m) >= distance(i, j) by {}
    }
}

/// Without a blocker on the ray, every square of the ray is seen.
proof fn lemma_no_blocker(i: int, blockers: u64, dir: Dir, j: int)
    requires
        forall|m: int| #[trigger] bit(blockers, m) ==> !on_ray(i, dir, m),
    ensures
        sees(i, blockers, dir, j) == on_ray(i, dir, j),
{
}

/// Cutting a ray at its nearest blocker leaves what a slider sees.
#[verifier::rlimit(60)]
proof fn lemma_cut_at_blocker(i: int, blockers: u64, dir: Dir, hit: u64, fb: int)
    requires
        0 <= i < 64,
        hit == spec_ray(i, dir, 0) & blockers,
        hit != 0,
        fb == if dir.delta() > 0 {
            u64_trailing_zeros(hit) as int
        } else {
            63 - u64_leading_zeros(hit)
        },
    ensures
        0 <= fb < 64,
        spec_ray(i, dir, 0) & !spec_ray(fb, dir, 0) == spec_ray_until_blocker(i, blockers, dir),
{
    let full = spec_ray(i, dir, 0);
    let beyond = spec_ray(fb, dir, 0);
    let res = full & !beyond;
    let f = |j: int| sees(i, blockers, dir, j);
    lemma_lowest(hit);
    lemma_highest(hit);
    assert(bit(hit, fb));
    assert(on_ray(i, dir, fb) && bit(blockers, fb)) by {
        lemma_bit_and(full, blockers, fb);
        lemma_ray_bit(i, dir, 0, fb);
    }
    assert forall|m: int| #[trigger] bit(blockers, m) && on_ray(i, dir, m) implies distance(i, m)
        >= distance(i, fb) by {
        lemma_bit_and(full, blockers, m);
        lemma_ray_bit(i, dir, 0, m);
        assert(bit(hit, m));
        lemma_ray_order(i, dir, fb, m);
    }
    assert forall|j: int| 0 <= j < 64 implies #[trigger] bit(res, j) == f(j) by {
        lemma_nearest_blocker(i, blockers, dir, fb, j);
        lemma_bit_and(full, !beyond, j);
        lemma_bit_not(beyond, j);
        lemma_ray_bit(i, dir, 0, j);
        lemma_ray_bit(fb, dir, 0, j);
    }
    lemma_mask_of_unique(res, f);
}

/// A ray without a blocker on it is what a slider sees.
proof fn lemma_uncut(i: int, blockers: u64, dir: Dir)
    requires
        0 <= i < 64,
        spec_ray(i, dir, 0) & blockers == 0,
    ensures
        spec_ray(i, dir, 0) == spec_ray_until_blocker(i, blockers, dir),
{
    let full = spec_ray(i, dir, 0);
    let f = |j: int| sees(i, blockers, dir, j);
    assert forall|m: int| #[trigger] bit(blockers, m) implies !on_ray(i, dir, m) by {
        lemma_bit_and(full, blockers, m);
        lemma_ray_bit(i, dir, 0, m);
        lemma_bit_zero(m);
    }
    assert forall|j: int| 0 <= j < 64 implies #[trigger] bit(full, j) == f(j) by {
        lemma_no_blocker(i, blockers, dir, j);
        lemma_ray_bit(i, dir, 0, j);
    }
    lemma_mask_of_unique(full, f);
}

/// The squares that a slider on `index` sees in direction `dir`, up to and
/// including the first member of `blockers` on its way.
pub fn ray_until_blocker(index: usize, blockers: u64, dir: Dir) -> (r: u64)
    requires
        index < 64,
    ensures
        r == spec_ray_until_blocker(index as int, blockers, dir),
{
    // not including index, including blocker.
    let mut res = ray(index, dir);
    if res & blockers != 0 {
        let hit = res & blockers;
        proof {
            lemma_lowest(hit);
            lemma_highest(hit);
        }
        let first_blocker_index = match dir {
            Dir::NorthEast | Dir::NorthWest | Dir::North | Dir::West => 63 - hit.leading_zeros(),
            Dir::SouthEast | Dir::SouthWest | Dir::South | Dir::East => hit.trailing_zeros(),
        };
        proof {
            lemma_cut_at_blocker(index as int, blockers, dir, hit, first_blocker_index as int);
        }
        res &= !(ray(first_blocker_index as usize, dir))
    } else {
        proof {
            lemma_uncut(index as int, blockers, dir);
        }
    }
    res
}

/// A cell that hands out its number for change in place.
pub struct X {
    pub thing: u64,
}

impl X {
    pub fn get_mut(&mut self) -> (r: &mut u64)
        ensures
            *r == old(self).thing,
            final(self).thing == *final(r),
    {
        &mut self.thing
    }
}

} // verus!
