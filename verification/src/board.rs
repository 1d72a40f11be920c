//! The board and its incremental position evaluator.
//!
//! The board owns the grid, the move history, the fingerprint, a per-cell /
//! per-role / per-direction pattern cache with dirty tracking, and per-role
//! aggregate score matrices. Placement and reversal keep everything in step:
//! the score matrices always carry exactly the aggregate scores that the
//! pattern model of `patterns` assigns to the current grid, which is what
//! makes a put followed by its undo restore the evaluator bit for bit.

use crate::cache::Cache;
use crate::cache::CacheConfig;
use crate::patterns::Pattern;
use crate::patterns::MAX_PATTERN_COST;
use crate::patterns::PATTERN_COUNT;
use crate::patterns::build_pattern_table;
use crate::patterns::cell_at;
use crate::patterns::cell_score;
use crate::patterns::CELL_SCORE_MAX;
use crate::patterns::dir_best;
use crate::patterns::dir_dx;
use crate::patterns::dir_dy;
use crate::patterns::dir_sum;
use crate::patterns::gidx;
use crate::patterns::in_range;
use crate::patterns::near;
use crate::patterns::on_line;
use crate::patterns::pattern_matches;
use crate::patterns::same_but;
use crate::patterns::cell_fits;
use crate::patterns::table_ok;
use crate::player::Role;
use crate::zobrist_cache::ZobristCache;
use vstd::prelude::*;

verus! {

/// Which pattern a cache entry recorded as the best match: none, or an index
/// into the pattern table.
#[derive(Clone, Copy, Debug, PartialEq, Eq, Structural)]
pub enum ShapeId {
    Empty,
    Pattern(usize),
}

/// The `ShapeId` of a canonical best-pattern index.
pub open spec fn shape_id_of(i: int) -> ShapeId {
    if i < 0 {
        ShapeId::Empty
    } else {
        ShapeId::Pattern(i as usize)
    }
}

/// Slot of a role in the shape cache: 0 for `Black`, 1 for `White`.
pub open spec fn role_slot_spec(r: Role) -> int {
    match r {
        Role::Black => 0,
        Role::White => 1,
    }
}

/// Maps `Role::Black` to slot 0 and `Role::White` to slot 1.
pub fn role_index(r: Role) -> (i: usize)
    ensures
        i as int == role_slot_spec(r),
{
    match r {
        Role::Black => 0,
        Role::White => 1,
    }
}

/// Index of the entry of (slot, dir, x, y) in the flat shape-cache arrays.
pub open spec fn sidx(size: int, slot: int, dir: int, x: int, y: int) -> int {
    ((slot * 4 + dir) * size + x) * size + y
}

proof fn lemma_sidx_bound(size: int, slot: int, dir: int, x: int, y: int)
    requires
        0 <= slot < 2,
        0 <= dir < 4,
        0 <= x < size,
        0 <= y < size,
    ensures
        0 <= sidx(size, slot, dir, x, y) < 8 * size * size,
{
    assert(0 <= ((slot * 4 + dir) * size + x) * size + y < 8 * size * size) by (nonlinear_arith)
        requires
            0 <= slot < 2,
            0 <= dir < 4,
            0 <= x < size,
            0 <= y < size,
    ;
}

proof fn lemma_sidx_inj(
    size: int,
    s1: int,
    d1: int,
    x1: int,
    y1: int,
    s2: int,
    d2: int,
    x2: int,
    y2: int,
)
    requires
        0 <= s1 < 2,
        0 <= d1 < 4,
        0 <= x1 < size,
        0 <= y1 < size,
        0 <= s2 < 2,
        0 <= d2 < 4,
        0 <= x2 < size,
        0 <= y2 < size,
        sidx(size, s1, d1, x1, y1) == sidx(size, s2, d2, x2, y2),
    ensures
        s1 == s2 && d1 == d2 && x1 == x2 && y1 == y2,
{
    assert((s1 == s2 && d1 == d2 && x1 == x2 && y1 == y2)) by (nonlinear_arith)
        requires
            0 <= s1 < 2,
            0 <= d1 < 4,
            0 <= x1 < size,
            0 <= y1 < size,
            0 <= s2 < 2,
            0 <= d2 < 4,
            0 <= x2 < size,
            0 <= y2 < size,
            ((s1 * 4 + d1) * size + x1) * size + y1 == ((s2 * 4 + d2) * size + x2) * size + y2,
    ;
}

/// Computes the flat shape-cache index of (slot, dir, x, y).
fn shape_index(size: usize, slot: usize, d: usize, x: usize, y: usize) -> (i: usize)
    requires
        slot < 2,
        d < 4,
        x < size,
        y < size,
        size <= 1024,
    ensures
        i as int == sidx(size as int, slot as int, d as int, x as int, y as int),
        i < 8 * size * size,
{
    proof {
        lemma_sidx_bound(size as int, slot as int, d as int, x as int, y as int);
        assert(((slot as int * 4 + d as int) * size as int + x as int) <= 8 * 1024 * 1024
            && ((slot as int * 4 + d as int) * size as int + x as int) * size as int + y as int
            <= 8 * 1024 * 1024 && 8 * (size as int) * (size as int) <= 8 * 1024 * 1024)
            by (nonlinear_arith)
            requires
                slot < 2,
                d < 4,
                x < size,
                y < size,
                size <= 1024,
        ;
    }
    ((slot * 4 + d) * size + x) * size + y
}

/// The unit step of direction `d`, as executable values.
fn dir_step(d: usize) -> (r: (i64, i64))
    requires
        d < 4,
    ensures
        r.0 as int == dir_dx(d as int),
        r.1 as int == dir_dy(d as int),
{
    if d == 0 {
        (1, 0)
    } else if d == 1 {
        (0, 1)
    } else if d == 2 {
        (1, 1)
    } else {
        (-1, 1)
    }
}

/// Whether (a, b) is reached from (px, py) by walking `sgn` steps of
/// direction `dir` between 1 and `hi` times.
pub open spec fn ray_hit(
    px: int,
    py: int,
    a: int,
    b: int,
    dir: int,
    sgn: int,
    hi: int,
) -> bool {
    exists|k: int|
        1 <= k <= hi && a == px + sgn * (#[trigger] (k * dir_dx(dir))) && b == py + sgn * (k
            * dir_dy(dir))
}

/// Once a walk along a ray has left the grid it never returns.
proof fn lemma_ray_oob(size: int, x: int, y: int, dir: int, sgn: int, t: int)
    requires
        0 <= dir < 4,
        sgn == 1 || sgn == -1,
        0 <= x < size,
        0 <= y < size,
        t >= 1,
        !in_range(size, x + sgn * (t * dir_dx(dir)), y + sgn * (t * dir_dy(dir))),
    ensures
        forall|k: int|
            k >= t ==> !in_range(
                size,
                x + sgn * (#[trigger] (k * dir_dx(dir))),
                y + sgn * (k * dir_dy(dir)),
            ),
{
    let sx = sgn * dir_dx(dir);
    let sy = sgn * dir_dy(dir);
    assert(-1 <= sx <= 1 && -1 <= sy <= 1) by (nonlinear_arith)
        requires
            sgn == 1 || sgn == -1,
            -1 <= dir_dx(dir) <= 1,
            -1 <= dir_dy(dir) <= 1,
            sx == sgn * dir_dx(dir),
            sy == sgn * dir_dy(dir),
    ;
    assert forall|k: int|
        sgn * (#[trigger] (k * dir_dx(dir))) == sx * k && sgn * (k * dir_dy(dir)) == sy * k by {
        assert(sgn * (k * dir_dx(dir)) == (sgn * dir_dx(dir)) * k && sgn * (k * dir_dy(dir)) == (
        sgn * dir_dy(dir)) * k) by (nonlinear_arith);
    }
    assert forall|k: int| k >= t implies !in_range(
        size,
        x + sgn * (#[trigger] (k * dir_dx(dir))),
        y + sgn * (k * dir_dy(dir)),
    ) by {
        assert(sgn * (k * dir_dx(dir)) == sx * k && sgn * (k * dir_dy(dir)) == sy * k);
        assert(sgn * (t * dir_dx(dir)) == sx * t && sgn * (t * dir_dy(dir)) == sy * t);
        if x + sx * t < 0 {
            assert(sx == -1) by (nonlinear_arith)
                requires
                    x >= 0,
                    t >= 1,
                    -1 <= sx <= 1,
                    x + sx * t < 0,
            ;
            assert(x + sx * k < 0) by (nonlinear_arith)
                requires
                    sx == -1,
                    k >= t,
                    x + sx * t < 0,
            ;
        } else if x + sx * t >= size {
            assert(sx == 1) by (nonlinear_arith)
                requires
                    x < size,
                    t >= 1,
                    -1 <= sx <= 1,
                    x + sx * t >= size,
            ;
            assert(x + sx * k >= size) by (nonlinear_arith)
                requires
                    sx == 1,
                    k >= t,
                    x + sx * t >= size,
            ;
        } else if y + sy * t < 0 {
            assert(sy == -1) by (nonlinear_arith)
                requires
                    y >= 0,
                    t >= 1,
                    -1 <= sy <= 1,
                    y + sy * t < 0,
            ;
            assert(y + sy * k < 0) by (nonlinear_arith)
                requires
                    sy == -1,
                    k >= t,
                    y + sy * t < 0,
            ;
        } else {
            assert(y + sy * t >= size);
            assert(sy == 1) by (nonlinear_arith)
                requires
                    y < size,
                    t >= 1,
                    -1 <= sy <= 1,
                    y + sy * t >= size,
            ;
            assert(y + sy * k >= size) by (nonlinear_arith)
                requires
                    sy == 1,
                    k >= t,
                    y + sy * t >= size,
            ;
        }
    }
}

/// Whether, for one role slot, all four direction entries of a cell are
/// marked dirty.
pub open spec fn all_dirs_dirty(sc: ShapeCache, slot: int, a: int, b: int) -> bool {
    forall|d2: int| 0 <= d2 < 4 ==> sc.is_dirty(slot, d2, a, b)
}

/// Whether `cur` is `pre` with exactly the entries of (slot, dd, x, y) for
/// dd below `d` switched on.
spec fn marked_upto(
    cur: Seq<bool>,
    pre: Seq<bool>,
    size: int,
    slot: int,
    x: int,
    y: int,
    d: int,
) -> bool {
    forall|j: int|
        0 <= j < cur.len() ==> cur[j] == (pre[j] || exists|dd: int|
            0 <= dd < d && j == sidx(size, slot, dd, x, y))
}

/// Per-cell, per-role, per-direction cache of (best pattern, summed cost),
/// with a dirty flag per entry. When an entry is not dirty it holds exactly
/// what recomputation against the current grid would yield.
#[derive(Debug)]
pub struct ShapeCache {
    size: usize,
    data: Vec<(ShapeId, i64)>,
    dirty: Vec<bool>,
}

impl ShapeCache {
    pub closed spec fn spec_size(self) -> int {
        self.size as int
    }

    pub closed spec fn wf(self) -> bool {
        &&& self.size <= 1024
        &&& self.data@.len() == 8 * self.size * self.size
        &&& self.dirty@.len() == 8 * self.size * self.size
    }

    /// The recorded (best pattern, summed cost) of an entry.
    pub closed spec fn entry(self, slot: int, dir: int, x: int, y: int) -> (ShapeId, i64) {
        self.data@[sidx(self.size as int, slot, dir, x, y)]
    }

    /// Whether an entry awaits recomputation.
    pub closed spec fn is_dirty(self, slot: int, dir: int, x: int, y: int) -> bool {
        self.dirty@[sidx(self.size as int, slot, dir, x, y)]
    }

    /// A cache for a `size` by `size` board, with every entry awaiting its
    /// first computation.
    pub fn new(size: usize) -> (r: ShapeCache)
        requires
            size <= 1024,
        ensures
            r.wf(),
            r.spec_size() == size,
            forall|s: int, d: int, x: int, y: int|
                0 <= s < 2 && 0 <= d < 4 && in_range(size as int, x, y) ==> r.is_dirty(s, d, x, y),
    {
        proof {
            assert(8 * (size as int) * (size as int) <= 8 * 1024 * 1024) by (nonlinear_arith)
                requires
                    size <= 1024,
            ;
        }
        let n = 8 * size * size;
        let mut data: Vec<(ShapeId, i64)> = Vec::new();
        let mut dirty: Vec<bool> = Vec::new();
        let mut i: usize = 0;
        while i < n
            invariant
                i <= n,
                data@.len() == i,
                dirty@.len() == i,
                forall|j: int| 0 <= j < i ==> dirty@[j],
            decreases n - i,
        {
            data.push((ShapeId::Empty, 0));
            dirty.push(true);
            i = i + 1;
        }
        let r = ShapeCache { size, data, dirty };
        proof {
            assert forall|s: int, d: int, x: int, y: int|
                0 <= s < 2 && 0 <= d < 4 && in_range(size as int, x, y) implies r.is_dirty(
                s,
                d,
                x,
                y,
            ) by {
                lemma_sidx_bound(size as int, s, d, x, y);
            }
        }
        r
    }

    /// Mark the four direction entries of (role, x, y) dirty.
    pub fn mark_dirty(&mut self, role: Role, x: usize, y: usize)
        requires
            old(self).wf(),
            x < old(self).spec_size(),
            y < old(self).spec_size(),
        ensures
            final(self).wf(),
            final(self).spec_size() == old(self).spec_size(),
            forall|s: int, d: int, a: int, b: int|
                final(self).entry(s, d, a, b) == old(self).entry(s, d, a, b),
            forall|s: int, d: int, a: int, b: int|
                0 <= s < 2 && 0 <= d < 4 && in_range(old(self).spec_size(), a, b) ==> (final(self).is_dirty(s, d, a, b) == (old(self).is_dirty(s, d, a, b) || (s == role_slot_spec(
                    role,
                ) && a == x && b == y))),
    {
        let slot = role_index(role);
        let size = self.size;
        let ghost pre = *self;
        let mut d: usize = 0;
        while d < 4
            invariant
                d <= 4,
                self.size == pre.size,
                self.wf(),
                x < size,
                y < size,
                size == self.size,
                slot as int == role_slot_spec(role),
                self.data@ == pre.data@,
                self.dirty@.len() == pre.dirty@.len(),
                marked_upto(
                    self.dirty@,
                    pre.dirty@,
                    size as int,
                    slot as int,
                    x as int,
                    y as int,
                    d as int,
                ),
            decreases 4 - d,
        {
            proof {
                assert(8 * (size as int) * (size as int) == self.dirty@.len());
            }
            let idx = shape_index(size, slot, d, x, y);
            let ghost dprev = self.dirty@;
            self.dirty.set(idx, true);
            proof {
                let sz = size as int;
                let sl = slot as int;
                assert forall|j: int| 0 <= j < self.dirty@.len() implies self.dirty@[j] == (
                pre.dirty@[j] || exists|dd: int|
                    0 <= dd < d + 1 && j == sidx(sz, sl, dd, x as int, y as int)) by {
                    assert(marked_upto(dprev, pre.dirty@, sz, sl, x as int, y as int, d as int));
                    let jnew = sidx(sz, sl, d as int, x as int, y as int);
                    if j == jnew {
                        let dd = d as int;
                        assert(0 <= dd < d + 1 && j == sidx(sz, sl, dd, x as int, y as int));
                        assert(self.dirty@[j]);
                    } else {
                        assert(self.dirty@[j] == dprev[j]);
                        if dprev[j] {
                            if !pre.dirty@[j] {
                                let dd = choose|dd: int|
                                    0 <= dd < d && j == sidx(sz, sl, dd, x as int, y as int);
                                assert(0 <= dd < d + 1 && j == sidx(sz, sl, dd, x as int, y as int));
                            }
                        } else {
                            assert(!pre.dirty@[j]);
                            assert forall|dd: int| 0 <= dd < d + 1 implies j != sidx(
                                sz,
                                sl,
                                dd,
                                x as int,
                                y as int,
                            ) by {
                                if dd < d && j == sidx(sz, sl, dd, x as int, y as int) {
                                    assert(dprev[j]);
                                }
                            }
                        }
                    }
                }
                assert(marked_upto(
                    self.dirty@,
                    pre.dirty@,
                    sz,
                    sl,
                    x as int,
                    y as int,
                    d + 1,
                ));
            }
            d = d + 1;
        }
        proof {
            assert forall|s: int, dd: int, a: int, b: int|
                final(self).entry(s, dd, a, b) == old(self).entry(s, dd, a, b) by {}
            assert forall|s: int, dd: int, a: int, b: int|
                0 <= s < 2 && 0 <= dd < 4 && in_range(old(self).spec_size(), a, b) implies (final(self).is_dirty(s, dd, a, b) == (old(self).is_dirty(s, dd, a, b) || (s == role_slot_spec(
                role,
            ) && a == x && b == y))) by {
                lemma_sidx_bound(size as int, s, dd, a, b);
                let j = sidx(size as int, s, dd, a, b);
                if self.dirty@[j] != pre.dirty@[j] {
                    let dd2 = choose|dd2: int|
                        0 <= dd2 < 4 && j == sidx(size as int, slot as int, dd2, x as int, y as int);
                    lemma_sidx_inj(size as int, s, dd, a, b, slot as int, dd2, x as int, y as int);
                } else {
                    if s == role_slot_spec(role) && a == x && b == y {
                        assert(j == sidx(size as int, slot as int, dd, x as int, y as int));
                        assert(self.dirty@[j]);
                    }
                }
            }
        }
    }
    /// Mark dirty, for `role`, every entry within five steps of (x, y) along
    /// the four line directions, the cell itself included. A placement or a
    /// reversal at (x, y) can only invalidate entries so marked, because the
    /// longest template window reaches five cells from its activation.
    pub fn mark_neighbors_dirty(&mut self, role: Role, x: usize, y: usize, size: usize)
        requires
            old(self).wf(),
            size == old(self).spec_size(),
            x < size,
            y < size,
        ensures
            final(self).wf(),
            final(self).spec_size() == old(self).spec_size(),
            forall|s: int, d: int, a: int, b: int|
                final(self).entry(s, d, a, b) == old(self).entry(s, d, a, b),
            forall|s: int, d: int, a: int, b: int|
                0 <= s < 2 && 0 <= d < 4 && in_range(size as int, a, b) && old(self).is_dirty(
                    s,
                    d,
                    a,
                    b,
                ) ==> final(self).is_dirty(s, d, a, b),
            forall|a: int, b: int|
                in_range(size as int, a, b) && near(x as int, y as int, a, b)
                    ==> all_dirs_dirty(*final(self), role_slot_spec(role), a, b),
            forall|s: int, d: int, a: int, b: int|
                0 <= s < 2 && 0 <= d < 4 && in_range(size as int, a, b) ==> final(self).is_dirty(
                    s,
                    d,
                    a,
                    b,
                ) == (old(self).is_dirty(s, d, a, b) || (s == role_slot_spec(role) && near(
                    x as int,
                    y as int,
                    a,
                    b,
                ))),
    {
        let ghost slot = role_slot_spec(role);
        let ghost pre = *self;
        let ghost px = x as int;
        let ghost py = y as int;
        self.mark_dirty(role, x, y);
        proof {
            lemma_near_self(px, py);
        }
        let mut d: usize = 0;
        while d < 4
            invariant
                d <= 4,
                x < size,
                y < size,
                size == self.spec_size(),
                self.wf(),
                slot == role_slot_spec(role),
                px == x as int,
                py == y as int,
                forall|s: int, dd: int, a: int, b: int|
                    self.entry(s, dd, a, b) == pre.entry(s, dd, a, b),
                forall|s: int, dd: int, a: int, b: int|
                    0 <= s < 2 && 0 <= dd < 4 && in_range(size as int, a, b) && pre.is_dirty(
                        s,
                        dd,
                        a,
                        b,
                    ) ==> self.is_dirty(s, dd, a, b),
                forall|s2: int, d2: int, a: int, b: int|
                    0 <= s2 < 2 && 0 <= d2 < 4 && in_range(size as int, a, b)
                        && self.is_dirty(s2, d2, a, b) ==> pre.is_dirty(s2, d2, a, b) || (s2
                        == slot && near(px, py, a, b)),
                all_dirs_dirty(*self, slot, px, py),
                forall|a: int, b: int|
                    in_range(size as int, a, b) && (exists|dd: int, sg2: int|
                        0 <= dd < d && (sg2 == 1 || sg2 == -1) && #[trigger] ray_hit(
                            px,
                            py,
                            a,
                            b,
                            dd,
                            sg2,
                            5,
                        )) ==> all_dirs_dirty(*self, slot, a, b),
            decreases 4 - d,
        {
            let (dxv, dyv) = dir_step(d);
            let mut si: usize = 0;
            while si < 2
                invariant
                    d < 4,
                    si <= 2,
                    x < size,
                    y < size,
                    size == self.spec_size(),
                    self.wf(),
                    slot == role_slot_spec(role),
                    px == x as int,
                    py == y as int,
                    dxv as int == dir_dx(d as int),
                    dyv as int == dir_dy(d as int),
                    forall|s: int, dd: int, a: int, b: int|
                        self.entry(s, dd, a, b) == pre.entry(s, dd, a, b),
                    forall|s: int, dd: int, a: int, b: int|
                        0 <= s < 2 && 0 <= dd < 4 && in_range(size as int, a, b) && pre.is_dirty(
                            s,
                            dd,
                            a,
                            b,
                        ) ==> self.is_dirty(s, dd, a, b),
                    forall|s2: int, d2: int, a: int, b: int|
                        0 <= s2 < 2 && 0 <= d2 < 4 && in_range(size as int, a, b)
                            && self.is_dirty(s2, d2, a, b) ==> pre.is_dirty(s2, d2, a, b) || (s2
                            == slot && near(px, py, a, b)),
                    all_dirs_dirty(*self, slot, px, py),
                    forall|a: int, b: int|
                        in_range(size as int, a, b) && (exists|dd: int, sg2: int|
                            0 <= dd < d && (sg2 == 1 || sg2 == -1) && #[trigger] ray_hit(
                                px,
                                py,
                                a,
                                b,
                                dd,
                                sg2,
                                5,
                            )) ==> all_dirs_dirty(*self, slot, a, b),
                    forall|a: int, b: int|
                        in_range(size as int, a, b) && si >= 1 && #[trigger] ray_hit(
                            px,
                            py,
                            a,
                            b,
                            d as int,
                            1,
                            5,
                        ) ==> all_dirs_dirty(*self, slot, a, b),
                    forall|a: int, b: int|
                        in_range(size as int, a, b) && si >= 2 && #[trigger] ray_hit(
                            px,
                            py,
                            a,
                            b,
                            d as int,
                            -1,
                            5,
                        ) ==> all_dirs_dirty(*self, slot, a, b),
                decreases 2 - si,
            {
                let sg: i64 = if si == 0 {
                    1
                } else {
                    -1
                };
                let ghost sgn = sg as int;
                let mut step: usize = 1;
                let mut stopped = false;
                while step <= 5 && !stopped
                    invariant
                        d < 4,
                        si < 2,
                        1 <= step <= 6,
                        x < size,
                        y < size,
                        size == self.spec_size(),
                        self.wf(),
                        slot == role_slot_spec(role),
                        px == x as int,
                        py == y as int,
                        dxv as int == dir_dx(d as int),
                        dyv as int == dir_dy(d as int),
                        sgn == sg as int,
                        sg == 1 || sg == -1,
                        sgn == if si == 0 { 1int } else { -1int },
                        forall|s: int, dd: int, a: int, b: int|
                            self.entry(s, dd, a, b) == pre.entry(s, dd, a, b),
                        forall|s: int, dd: int, a: int, b: int|
                            0 <= s < 2 && 0 <= dd < 4 && in_range(size as int, a, b)
                                && pre.is_dirty(s, dd, a, b) ==> self.is_dirty(s, dd, a, b),
                        forall|s2: int, d2: int, a: int, b: int|
                            0 <= s2 < 2 && 0 <= d2 < 4 && in_range(size as int, a, b)
                                && self.is_dirty(s2, d2, a, b) ==> pre.is_dirty(s2, d2, a, b) || (
                            s2 == slot && near(px, py, a, b)),
                        all_dirs_dirty(*self, slot, px, py),
                        forall|a: int, b: int|
                            in_range(size as int, a, b) && (exists|dd: int, sg2: int|
                                0 <= dd < d && (sg2 == 1 || sg2 == -1) && #[trigger] ray_hit(
                                    px,
                                    py,
                                    a,
                                    b,
                                    dd,
                                    sg2,
                                    5,
                                )) ==> all_dirs_dirty(*self, slot, a, b),
                        forall|a: int, b: int|
                            in_range(size as int, a, b) && si >= 1 && #[trigger] ray_hit(
                                px,
                                py,
                                a,
                                b,
                                d as int,
                                1,
                                5,
                            ) ==> all_dirs_dirty(*self, slot, a, b),
                        forall|a: int, b: int|
                            in_range(size as int, a, b) && #[trigger] ray_hit(
                                px,
                                py,
                                a,
                                b,
                                d as int,
                                sgn,
                                step - 1,
                            ) ==> all_dirs_dirty(*self, slot, a, b),
                        stopped ==> forall|k: int|
                            step <= k <= 5 ==> !in_range(
                                size as int,
                                px + sgn * (#[trigger] (k * dir_dx(d as int))),
                                py + sgn * (k * dir_dy(d as int)),
                            ),
                    decreases 6 - step,
                {
                    proof {
                        assert(-5 <= (step as int) * dir_dx(d as int) <= 5 && -5 <= (step as int)
                            * dir_dy(d as int) <= 5 && -5 <= sg as int * ((step as int) * dir_dx(
                            d as int,
                        )) <= 5 && -5 <= sg as int * ((step as int) * dir_dy(d as int)) <= 5)
                            by (nonlinear_arith)
                            requires
                                sg == 1 || sg == -1,
                                1 <= step <= 5,
                                -1 <= dir_dx(d as int) <= 1,
                                -1 <= dir_dy(d as int) <= 1,
                        ;
                    }
                    let nx: i64 = x as i64 + sg * ((step as i64) * dxv);
                    let ny: i64 = y as i64 + sg * ((step as i64) * dyv);
                    if nx < 0 || ny < 0 || nx >= size as i64 || ny >= size as i64 {
                        stopped = true;
                        proof {
                            lemma_ray_oob(size as int, px, py, d as int, sgn, step as int);
                            assert forall|a: int, b: int|
                                in_range(size as int, a, b) && #[trigger] ray_hit(
                                    px,
                                    py,
                                    a,
                                    b,
                                    d as int,
                                    sgn,
                                    step as int,
                                ) implies all_dirs_dirty(*self, slot, a, b) by {
                                let k = choose|k: int|
                                    1 <= k <= step as int && a == px + sgn * (#[trigger] (k
                                        * dir_dx(d as int))) && b == py + sgn * (k * dir_dy(
                                        d as int,
                                    ));
                                if k <= step - 1 {
                                    assert(ray_hit(px, py, a, b, d as int, sgn, step - 1));
                                } else {
                                    assert(!in_range(
                                        size as int,
                                        px + sgn * (k * dir_dx(d as int)),
                                        py + sgn * (k * dir_dy(d as int)),
                                    ));
                                    assert(false);
                                }
                            }
                        }
                    } else {
                        let ghost before = *self;
                        self.mark_dirty(role, nx as usize, ny as usize);
                        proof {
                            let k2 = -sgn * (step as int);
                            assert(k2 * dir_dx(d as int) == -(sgn * ((step as int) * dir_dx(
                                d as int,
                            ))) && k2 * dir_dy(d as int) == -(sgn * ((step as int) * dir_dy(
                                d as int,
                            )))) by (nonlinear_arith)
                                requires
                                    k2 == -sgn * (step as int),
                            ;
                            assert(px == nx as int + k2 * dir_dx(d as int) && py == ny as int + k2
                                * dir_dy(d as int));
                            assert(on_line(px, py, nx as int, ny as int, d as int));
                            assert(near(px, py, nx as int, ny as int));
                            assert forall|sl2: int, a: int, b: int|
                                0 <= sl2 < 2 && in_range(size as int, a, b) && #[trigger]
                                all_dirs_dirty(before, sl2, a, b) implies all_dirs_dirty(
                                *self,
                                sl2,
                                a,
                                b,
                            ) by {
                                assert forall|d2: int| 0 <= d2 < 4 implies self.is_dirty(
                                    sl2,
                                    d2,
                                    a,
                                    b,
                                ) by {
                                    assert(before.is_dirty(sl2, d2, a, b));
                                }
                            }
                            assert(0 <= slot < 2);
                            assert forall|a: int, b: int|
                                in_range(size as int, a, b) && #[trigger] ray_hit(
                                    px,
                                    py,
                                    a,
                                    b,
                                    d as int,
                                    sgn,
                                    step as int,
                                ) implies all_dirs_dirty(*self, slot, a, b) by {
                                let k = choose|k: int|
                                    1 <= k <= step as int && a == px + sgn * (#[trigger] (k
                                        * dir_dx(d as int))) && b == py + sgn * (k * dir_dy(
                                        d as int,
                                    ));
                                if k <= step - 1 {
                                    assert(ray_hit(px, py, a, b, d as int, sgn, step - 1));
                                    assert(all_dirs_dirty(before, slot, a, b));
                                } else {
                                    assert(a == nx as int && b == ny as int);
                                }
                            }
                        }
                    }
                    step = step + 1;
                }
                proof {
                    assert forall|a: int, b: int|
                        in_range(size as int, a, b) && #[trigger] ray_hit(
                            px,
                            py,
                            a,
                            b,
                            d as int,
                            sgn,
                            5,
                        ) implies all_dirs_dirty(*self, slot, a, b) by {
                        let k = choose|k: int|
                            1 <= k <= 5 && a == px + sgn * (#[trigger] (k * dir_dx(d as int))) && b
                                == py + sgn * (k * dir_dy(d as int));
                        if k <= step - 1 {
                            assert(ray_hit(px, py, a, b, d as int, sgn, step - 1));
                        } else {
                            assert(stopped);
                            assert(!in_range(
                                size as int,
                                px + sgn * (k * dir_dx(d as int)),
                                py + sgn * (k * dir_dy(d as int)),
                            ));
                        }
                    }
                }
                si = si + 1;
            }
            proof {
                assert forall|a: int, b: int|
                    in_range(size as int, a, b) && (exists|dd: int, sg2: int|
                        0 <= dd < d + 1 && (sg2 == 1 || sg2 == -1) && #[trigger] ray_hit(
                            px,
                            py,
                            a,
                            b,
                            dd,
                            sg2,
                            5,
                        )) implies all_dirs_dirty(*self, slot, a, b) by {
                    let (dd, sg2) = choose|dd: int, sg2: int|
                        0 <= dd < d + 1 && (sg2 == 1 || sg2 == -1) && #[trigger] ray_hit(
                            px,
                            py,
                            a,
                            b,
                            dd,
                            sg2,
                            5,
                        );
                    if dd < d {
                        assert(exists|dd3: int, sg3: int|
                            0 <= dd3 < d && (sg3 == 1 || sg3 == -1) && #[trigger] ray_hit(
                                px,
                                py,
                                a,
                                b,
                                dd3,
                                sg3,
                                5,
                            ));
                    }
                }
            }
            d = d + 1;
        }
        proof {
            assert forall|a: int, b: int|
                in_range(size as int, a, b) && near(px, py, a, b) implies all_dirs_dirty(
                *self,
                slot,
                a,
                b,
            ) by {
                let dd = choose|dd: int| 0 <= dd < 4 && #[trigger] on_line(px, py, a, b, dd);
                let k = choose|k: int|
                    -5 <= k <= 5 && px == a + #[trigger] (k * dir_dx(dd)) && py == b + k * dir_dy(
                        dd,
                    );
                if k == 0 {
                    assert(k * dir_dx(dd) == 0 && k * dir_dy(dd) == 0) by (nonlinear_arith)
                        requires
                            k == 0,
                    ;
                    assert(a == px && b == py);
                } else {
                    let kk = if k > 0 {
                        k
                    } else {
                        -k
                    };
                    let sg2: int = if k > 0 {
                        -1
                    } else {
                        1
                    };
                    assert(a == px + sg2 * (kk * dir_dx(dd)) && b == py + sg2 * (kk * dir_dy(dd)))
                        by (nonlinear_arith)
                        requires
                            px == a + k * dir_dx(dd),
                            py == b + k * dir_dy(dd),
                            k != 0,
                            kk == if k > 0 {
                                k
                            } else {
                                -k
                            },
                            sg2 == if k > 0 {
                                -1int
                            } else {
                                1int
                            },
                    ;
                    assert(ray_hit(px, py, a, b, dd, sg2, 5));
                    assert(exists|dd3: int, sg3: int|
                        0 <= dd3 < 4 && (sg3 == 1 || sg3 == -1) && #[trigger] ray_hit(
                            px,
                            py,
                            a,
                            b,
                            dd3,
                            sg3,
                            5,
                        ));
                }
            }
            assert forall|s: int, d: int, a: int, b: int|
                0 <= s < 2 && 0 <= d < 4 && in_range(size as int, a, b) implies self.is_dirty(
                s,
                d,
                a,
                b,
            ) == (pre.is_dirty(s, d, a, b) || (s == slot && near(px, py, a, b))) by {
                if s == slot && near(px, py, a, b) {
                    assert(all_dirs_dirty(*self, slot, a, b));
                    assert(self.is_dirty(s, d, a, b));
                }
            }
        }
    }
}

/// The role value stored in grid cells for the role of shape-cache slot `s`.
pub open spec fn slot_role_val(s: int) -> int {
    if s == 0 {
        -1
    } else {
        1
    }
}

/// Whether five consecutive cells of value `rv` start at (x, y) along `d`.
pub open spec fn five_from(g: Seq<i32>, size: int, rv: int, x: int, y: int, d: int) -> bool {
    forall|k: int|
        0 <= k < 5 ==> cell_at(g, size, x + #[trigger] (k * dir_dx(d)), y + k * dir_dy(d)) == rv
}

/// Whether the grid holds five in a row of value `rv` anywhere, in any of
/// the four line directions.
pub open spec fn has_five(g: Seq<i32>, size: int, rv: int) -> bool {
    exists|x: int, y: int, d: int| 0 <= d < 4 && #[trigger] five_from(g, size, rv, x, y, d)
}

/// What the score matrix stores for a cell: the aggregate score for empty
/// cells, zero for occupied ones (an occupied cell has no potential).
pub open spec fn stored_cell_spec(g: Seq<i32>, size: int, rv: int, a: int, b: int) -> int {
    if cell_at(g, size, a, b) == 0 {
        cell_score(g, size, rv, a, b)
    } else {
        0
    }
}

/// Sum of the stored scores of the first `n` cells of row `x`.
pub open spec fn row_sum(g: Seq<i32>, size: int, rv: int, x: int, n: int) -> int
    decreases n,
{
    if n <= 0 {
        0
    } else {
        row_sum(g, size, rv, x, n - 1) + stored_cell_spec(g, size, rv, x, n - 1)
    }
}

/// Sum of the stored scores of the first `n` full rows.
pub open spec fn rows_sum(g: Seq<i32>, size: int, rv: int, n: int) -> int
    decreases n,
{
    if n <= 0 {
        0
    } else {
        rows_sum(g, size, rv, n - 1) + row_sum(g, size, rv, n - 1, size)
    }
}

/// The board evaluation of a grid for a role: the difference between the two
/// roles' total stored scores, signed for `role`.
pub open spec fn eval_of_grid(g: Seq<i32>, size: int, role: Role) -> int {
    if role == Role::White {
        rows_sum(g, size, 1, size) - rows_sum(g, size, -1, size)
    } else {
        rows_sum(g, size, -1, size) - rows_sum(g, size, 1, size)
    }
}

/// The larger of the two roles' aggregate scores at a cell: how interesting
/// the cell is to whoever moves next.
pub open spec fn combined_score(g: Seq<i32>, size: int, a: int, b: int) -> int {
    let bs = cell_score(g, size, -1, a, b);
    let ws = cell_score(g, size, 1, a, b);
    if bs >= ws {
        bs
    } else {
        ws
    }
}

/// Whether a cell passes the move filters: it must be empty, and under
/// `only_four` (`only_three`) either side's score there must reach the four
/// (three) threshold.
pub open spec fn move_pass(g: Seq<i32>, size: int, o3: bool, o4: bool, a: int, b: int) -> bool {
    &&& cell_at(g, size, a, b) == 0
    &&& (o4 ==> combined_score(g, size, a, b) >= 1000000)
    &&& (o3 ==> combined_score(g, size, a, b) >= 250000)
}

/// Whether `ms` is the move list that the filters and the ordering demand
/// for this grid: exactly the passing cells, without repetition, sorted by
/// combined score descending, ties broken by grid position ascending.
pub open spec fn moves_props(
    g: Seq<i32>,
    size: int,
    o3: bool,
    o4: bool,
    ms: Seq<(usize, usize)>,
) -> bool {
    &&& forall|i: int|
        0 <= i < ms.len() ==> in_range(size, (#[trigger] ms[i]).0 as int, ms[i].1 as int)
            && move_pass(g, size, o3, o4, ms[i].0 as int, ms[i].1 as int)
    &&& forall|a: usize, b: usize|
        (a as int) < size && (b as int) < size && move_pass(g, size, o3, o4, a as int, b as int)
            ==> ms.contains((a, b))
    &&& forall|i: int, j: int| 0 <= i < j < ms.len() ==> ms[i] != ms[j]
    &&& forall|i: int, j: int|
        0 <= i < j < ms.len() ==> (combined_score(g, size, (#[trigger] ms[i]).0 as int, ms[i].1 as int)
            > combined_score(g, size, (#[trigger] ms[j]).0 as int, ms[j].1 as int) || (
        combined_score(g, size, ms[i].0 as int, ms[i].1 as int) == combined_score(
            g,
            size,
            ms[j].0 as int,
            ms[j].1 as int,
        ) && gidx(size, ms[i].0 as int, ms[i].1 as int) < gidx(
            size,
            ms[j].0 as int,
            ms[j].1 as int,
        )))
}


/// Whether one memoized evaluation entry is faithful: its grid has no
/// winner and its score is that grid's true evaluation.
spec fn eval_entry_ok(e: EvalEntry, size: int) -> bool {
    &&& e.grid@.len() == size * size
    &&& !has_five(e.grid@, size, 1)
    &&& !has_five(e.grid@, size, -1)
    &&& e.score as int == eval_of_grid(e.grid@, size, e.role)
}

/// Whether one memoized move list is faithful to its stored grid and query.
spec fn moves_entry_ok(e: MovesEntry, size: int) -> bool {
    &&& e.grid@.len() == size * size
    &&& moves_props(e.grid@, size, e.only_three, e.only_four, e.moves@)
}

/// A memoized winner, with the start and direction of the five that proved
/// it, so a cache hit can be checked against the live grid.
struct WinnerEntry {
    winner: i32,
    x: usize,
    y: usize,
    dir: usize,
}

/// A memoized evaluation together with the grid it was computed for. The
/// fingerprint indexes the cache; the stored grid guards against a
/// fingerprint collision handing back a foreign position's value.
struct EvalEntry {
    grid: Vec<i32>,
    role: Role,
    score: i64,
}

/// A memoized move list together with the grid and the query it answers.
struct MovesEntry {
    grid: Vec<i32>,
    role: Role,
    depth: i32,
    only_three: bool,
    only_four: bool,
    moves: Vec<(usize, usize)>,
}

/// The board: grid, history, fingerprint, score matrices, pattern cache and
/// the memo caches of the derived queries.
pub struct Board {
    pub size: usize,
    board: Vec<i32>,
    pub history: Vec<(usize, usize, Role)>,
    zorbist_cache: ZobristCache,
    winner_cache: Cache<WinnerEntry>,
    evaluate_cache: Cache<EvalEntry>,
    valuable_moves_cache: Cache<MovesEntry>,
    black_scores: Vec<i64>,
    white_scores: Vec<i64>,
    pub patterns: Vec<Pattern>,
    shape_cache: ShapeCache,
}

impl Board {
    /// The grid, row-major, without the virtual wall ring.
    pub closed spec fn grid(self) -> Seq<i32> {
        self.board@
    }

    pub closed spec fn sz(self) -> int {
        self.size as int
    }

    /// The move history as a sequence.
    pub closed spec fn spec_history(self) -> Seq<(usize, usize, Role)> {
        self.history@
    }

    /// The stored aggregate score matrix of a role, row-major.
    pub closed spec fn scores_of(self, role: Role) -> Seq<i64> {
        if role == Role::Black {
            self.black_scores@
        } else {
            self.white_scores@
        }
    }

    /// The current fingerprint.
    pub closed spec fn fingerprint(self) -> u64 {
        self.zorbist_cache.spec_hash()
    }

    /// The fingerprint key table.
    pub closed spec fn zkeys(self) -> Seq<u64> {
        self.zorbist_cache.spec_keys()
    }

    /// The fingerprint key of (x, y, role).
    pub closed spec fn key_at(self, x: int, y: int, role: Role) -> u64 {
        self.zorbist_cache.key_of(x, y, role.to_int_spec())
    }

    /// Structural well-formedness: sizes, value ranges, the canonical
    /// pattern table, and well-formed parts.
    pub closed spec fn wf_grid(self) -> bool {
        &&& 1 <= self.size <= 1024
        &&& self.board@.len() == self.size * self.size
        &&& forall|i: int| 0 <= i < self.board@.len() ==> -1 <= #[trigger] self.board@[i] <= 1
        &&& self.black_scores@.len() == self.size * self.size
        &&& self.white_scores@.len() == self.size * self.size
        &&& table_ok(self.patterns@)
        &&& self.shape_cache.wf()
        &&& self.shape_cache.spec_size() == self.size
        &&& self.zorbist_cache.wf()
        &&& self.zorbist_cache.spec_size() == self.size
        &&& self.winner_cache.wf()
        &&& self.evaluate_cache.wf()
        &&& self.valuable_moves_cache.wf()
    }

    /// The history records exactly the stones on the grid: each entry sits
    /// in range on a cell carrying its role, no cell is recorded twice, and
    /// every stone on the grid is recorded.
    pub closed spec fn history_ok(self) -> bool {
        &&& forall|i: int|
            0 <= i < self.history@.len() ==> {
                let m = #[trigger] self.history@[i];
                in_range(self.sz(), m.0 as int, m.1 as int) && cell_at(
                    self.grid(),
                    self.sz(),
                    m.0 as int,
                    m.1 as int,
                ) == m.2.to_int_spec()
            }
        &&& forall|i: int, j: int|
            0 <= i < j < self.history@.len() ==> !((#[trigger] self.history@[i]).0 == (
            #[trigger] self.history@[j]).0 && self.history@[i].1 == self.history@[j].1)
        &&& forall|a: int, b: int|
            in_range(self.sz(), a, b) && cell_at(self.grid(), self.sz(), a, b) != 0 ==> exists|
                i: int,
            |
                0 <= i < self.history@.len() && (#[trigger] self.history@[i]).0 as int == a
                    && self.history@[i].1 as int == b
    }

    /// Every clean shape-cache entry holds exactly what recomputation
    /// against the current grid yields.
    pub closed spec fn shape_ok(self) -> bool {
        forall|s: int, d: int, a: int, b: int|
            0 <= s < 2 && 0 <= d < 4 && in_range(self.sz(), a, b) && !self.shape_cache.is_dirty(
                s,
                d,
                a,
                b,
            ) ==> #[trigger] self.shape_cache.entry(s, d, a, b) == (
            shape_id_of(dir_best(self.grid(), self.sz(), slot_role_val(s), a, b, d).0),
            dir_sum(self.grid(), self.sz(), slot_role_val(s), a, b, d) as i64,
            )
    }

    /// The score matrices hold exactly the aggregate scores of the current
    /// grid: the pattern-model score on empty cells, zero on occupied ones.
    pub closed spec fn scores_ok(self) -> bool {
        forall|a: int, b: int| in_range(self.sz(), a, b) ==> self.cell_scored(a, b)
    }

    /// Every memoized evaluation is the true evaluation of the grid it was
    /// stored with, and that grid had no winner.
    pub closed spec fn eval_cache_ok(self) -> bool {
        forall|k: u64|
            #[trigger] self.evaluate_cache.smap().contains_key(k) ==> eval_entry_ok(
                self.evaluate_cache.smap()[k],
                self.sz(),
            )
    }

    /// Every memoized move list is the list its stored grid and query
    /// demand.
    pub closed spec fn moves_cache_ok(self) -> bool {
        forall|k: u64|
            #[trigger] self.valuable_moves_cache.smap().contains_key(k) ==> moves_entry_ok(
                self.valuable_moves_cache.smap()[k],
                self.sz(),
            )
    }

    /// Structure and history, without the derived-data invariants. This is
    /// all the move generator needs, so a score override for diagnosis (see
    /// `set_role_score`) does not wedge it.
    pub closed spec fn wf_basic(self) -> bool {
        &&& self.wf_grid()
        &&& self.history_ok()
    }

    /// Full well-formedness: structure, history, and every piece of derived
    /// data faithful to the grid.
    pub closed spec fn wf(self) -> bool {
        &&& self.wf_basic()
        &&& self.shape_ok()
        &&& self.scores_ok()
        &&& self.eval_cache_ok()
        &&& self.moves_cache_ok()
    }
}

/// Whether two boards describe the same position, bit for bit: grid,
/// history, fingerprint (keys and accumulator) and score matrices. The memo
/// caches and the dirty flags may differ; they are derived data.
pub open spec fn pos_eq(a: Board, b: Board) -> bool {
    &&& a.sz() == b.sz()
    &&& a.grid() == b.grid()
    &&& a.spec_history() == b.spec_history()
    &&& a.zkeys() == b.zkeys()
    &&& a.fingerprint() == b.fingerprint()
    &&& a.scores_of(Role::Black) == b.scores_of(Role::Black)
    &&& a.scores_of(Role::White) == b.scores_of(Role::White)
}

/// `history_ok` carries over to any board with the same grid, size and
/// history, whatever its caches look like.
proof fn lemma_history_transfer(a: Board, b: Board)
    requires
        a.history_ok(),
        b.grid() == a.grid(),
        b.sz() == a.sz(),
        b.spec_history() == a.spec_history(),
    ensures
        b.history_ok(),
{
    assert forall|i: int| 0 <= i < b.history@.len() implies {
        let m = #[trigger] b.history@[i];
        in_range(b.sz(), m.0 as int, m.1 as int) && cell_at(b.grid(), b.sz(), m.0 as int, m.1 as int)
            == m.2.to_int_spec()
    } by {
        assert(b.history@[i] == a.history@[i]);
    }
    assert forall|x: int, y: int|
        in_range(b.sz(), x, y) && cell_at(b.grid(), b.sz(), x, y) != 0 implies exists|i: int|
        0 <= i < b.history@.len() && (#[trigger] b.history@[i]).0 as int == x && b.history@[i].1
            as int == y by {
        let i = choose|i: int|
            0 <= i < a.history@.len() && (#[trigger] a.history@[i]).0 as int == x
                && a.history@[i].1 as int == y;
        assert(b.history@[i] == a.history@[i]);
        assert(0 <= i < b.history@.len() && b.history@[i].0 as int == x && b.history@[i].1 as int
            == y);
    }
}


/// A board whose derived data was rebuilt for one empty cell, on an
/// unchanged grid, is the same position: under `wf` the rebuild writes back
/// the values the matrices already held.
proof fn lemma_calc_noop(pre: Board, post: Board, x: int, y: int)
    requires
        pre.wf(),
        in_range(pre.sz(), x, y),
        cell_at(pre.grid(), pre.sz(), x, y) == 0,
        post.wf_basic(),
        post.shape_ok(),
        post.size == pre.size,
        post.board == pre.board,
        post.history == pre.history,
        post.zorbist_cache == pre.zorbist_cache,
        post.winner_cache == pre.winner_cache,
        post.evaluate_cache == pre.evaluate_cache,
        post.valuable_moves_cache == pre.valuable_moves_cache,
        post.patterns == pre.patterns,
        post.black_scores@ == pre.black_scores@.update(
            gidx(pre.sz(), x, y),
            cell_score(pre.grid(), pre.sz(), -1, x, y) as i64,
        ),
        post.white_scores@ == pre.white_scores@.update(
            gidx(pre.sz(), x, y),
            cell_score(pre.grid(), pre.sz(), 1, x, y) as i64,
        ),
    ensures
        post.wf(),
        post.black_scores@ == pre.black_scores@,
        post.white_scores@ == pre.white_scores@,
{
    lemma_gidx_bound(pre.sz(), x, y);
    assert(pre.cell_scored(x, y));
    assert(pre.black_scores@[gidx(pre.sz(), x, y)] as int == cell_score(
        pre.grid(),
        pre.sz(),
        -1,
        x,
        y,
    ));
    assert(pre.white_scores@[gidx(pre.sz(), x, y)] as int == cell_score(
        pre.grid(),
        pre.sz(),
        1,
        x,
        y,
    ));
    crate::patterns::lemma_cell_score_bound(pre.grid(), pre.sz(), -1, x, y);
    crate::patterns::lemma_cell_score_bound(pre.grid(), pre.sz(), 1, x, y);
    assert(post.black_scores@ =~= pre.black_scores@);
    assert(post.white_scores@ =~= pre.white_scores@);
    assert forall|a: int, b: int| in_range(post.sz(), a, b) implies post.cell_scored(a, b) by {
        assert(pre.cell_scored(a, b));
    }
    assert(post.eval_cache_ok());
    assert(post.moves_cache_ok());
}

proof fn lemma_gidx_bound(size: int, x: int, y: int)
    requires
        in_range(size, x, y),
    ensures
        0 <= gidx(size, x, y) < size * size,
        size <= 1024 ==> gidx(size, x, y) < 1024 * 1024,
{
    assert(0 <= x * size + y < size * size && (size <= 1024 ==> x * size + y < 1024 * 1024))
        by (nonlinear_arith)
        requires
            0 <= x < size,
            0 <= y < size,
    ;
}

proof fn lemma_gidx_inj(size: int, x1: int, y1: int, x2: int, y2: int)
    requires
        in_range(size, x1, y1),
        in_range(size, x2, y2),
        gidx(size, x1, y1) == gidx(size, x2, y2),
    ensures
        x1 == x2 && y1 == y2,
{
    assert(x1 == x2 && y1 == y2) by (nonlinear_arith)
        requires
            0 <= x1 < size,
            0 <= y1 < size,
            0 <= x2 < size,
            0 <= y2 < size,
            x1 * size + y1 == x2 * size + y2,
    ;
}

impl Board {
    /// Computes the flat grid index of (x, y).
    fn grid_index(&self, x: usize, y: usize) -> (i: usize)
        requires
            self.wf_grid(),
            x < self.size,
            y < self.size,
        ensures
            i as int == gidx(self.sz(), x as int, y as int),
            i < self.board@.len(),
    {
        proof {
            lemma_gidx_bound(self.sz(), x as int, y as int);
        }
        x * self.size + y
    }

    /// The content of logical cell (x, y): a stone value inside the grid,
    /// the wall value outside it.
    fn cell(&self, x: i64, y: i64) -> (r: i32)
        requires
            self.wf_grid(),
        ensures
            r as int == cell_at(self.grid(), self.sz(), x as int, y as int),
    {
        if x < 0 || y < 0 || x >= self.size as i64 || y >= self.size as i64 {
            2
        } else {
            proof {
                lemma_gidx_bound(self.sz(), x as int, y as int);
            }
            self.board[(x as usize) * self.size + (y as usize)]
        }
    }

    /// The content of cell (x, y): -1 for a black stone, 1 for a white one,
    /// 0 for an empty cell, the wall value 2 outside the grid.
    pub fn get_cell(&self, x: usize, y: usize) -> (r: i32)
        requires
            self.wf_basic(),
        ensures
            r as int == cell_at(self.grid(), self.sz(), x as int, y as int),
    {
        if x >= self.size || y >= self.size {
            2
        } else {
            let i = self.grid_index(x, y);
            self.board[i]
        }
    }

    /// Whether the template `pattern_vec` with activation offset `act_idx`
    /// matches for `role_val` when its activation position is laid over
    /// (x, y) and it is read along step (dx, dy).
    pub fn check_pattern(
        &self,
        role_val: i32,
        x: usize,
        y: usize,
        dx: i32,
        dy: i32,
        act_idx: i32,
        pattern_vec: &[i32],
    ) -> (r: bool)
        requires
            self.wf_basic(),
            (x as int) < self.sz(),
            (y as int) < self.sz(),
            pattern_vec@.len() <= 1024,
        ensures
            r == pattern_matches(
                self.grid(),
                self.sz(),
                role_val as int,
                x as int,
                y as int,
                dx as int,
                dy as int,
                act_idx as int,
                pattern_vec@,
            ),
    {
        let pat_len: usize = pattern_vec.len();
        let mut i: usize = 0;
        while i < pat_len
            invariant
                self.wf_basic(),
                x < self.size,
                y < self.size,
                i <= pat_len,
                pat_len == pattern_vec@.len() <= 1024,
                forall|j: int|
                    0 <= j < i ==> cell_fits(
                        cell_at(
                            self.grid(),
                            self.sz(),
                            x + (j - act_idx as int) * (dx as int),
                            y + (j - act_idx as int) * (dy as int),
                        ),
                        role_val as int,
                        (#[trigger] pattern_vec@[j]) as int,
                    ),
            decreases pat_len - i,
        {
            proof {
                assert(-4700000000000000000 <= ((i as int) - (act_idx as int)) * (dx as int)
                    <= 4700000000000000000 && -4700000000000000000 <= ((i as int) - (
                act_idx as int)) * (dy as int) <= 4700000000000000000) by (nonlinear_arith)
                    requires
                        0 <= i <= 1024,
                        -2147483648 <= act_idx as int <= 2147483647,
                        -2147483648 <= dx as int <= 2147483647,
                        -2147483648 <= dy as int <= 2147483647,
                ;
            }
            let board_x: i64 = x as i64 + (i as i64 - act_idx as i64) * dx as i64;
            let board_y: i64 = y as i64 + (i as i64 - act_idx as i64) * dy as i64;
            let cv = if board_x < 0 || board_y < 0 || board_x >= self.size as i64 || board_y
                >= self.size as i64 {
                2
            } else {
                proof {
                    lemma_gidx_bound(self.sz(), board_x as int, board_y as int);
                }
                self.board[(board_x as usize) * self.size + (board_y as usize)]
            };
            let t = pattern_vec[i];
            let fits = if t == 1 {
                cv == role_val
            } else if t == 0 {
                cv == 0
            } else if t == 2 {
                cv == 2 || (cv != 0 && cv != role_val)
            } else {
                false
            };
            if !fits {
                return false;
            }
            i = i + 1;
        }
        true
    }
}

impl ShapeCache {
    /// The recorded (best pattern, cost sum) of (role, d, x, y).
    fn entry_at(&self, role: Role, d: usize, x: usize, y: usize) -> (r: (ShapeId, i64))
        requires
            self.wf(),
            d < 4,
            (x as int) < self.spec_size(),
            (y as int) < self.spec_size(),
        ensures
            r == self.entry(role_slot_spec(role), d as int, x as int, y as int),
    {
        let slot = role_index(role);
        let i = shape_index(self.size, slot, d, x, y);
        self.data[i]
    }

    /// Whether the entry of (role, d, x, y) awaits recomputation.
    fn dirty_at(&self, role: Role, d: usize, x: usize, y: usize) -> (r: bool)
        requires
            self.wf(),
            d < 4,
            (x as int) < self.spec_size(),
            (y as int) < self.spec_size(),
        ensures
            r == self.is_dirty(role_slot_spec(role), d as int, x as int, y as int),
    {
        let slot = role_index(role);
        let i = shape_index(self.size, slot, d, x, y);
        self.dirty[i]
    }

    /// Record a freshly computed value for (role, d, x, y) and clear its
    /// dirty flag; every other entry is untouched.
    fn set_entry(&mut self, role: Role, d: usize, x: usize, y: usize, v: (ShapeId, i64))
        requires
            old(self).wf(),
            d < 4,
            (x as int) < old(self).spec_size(),
            (y as int) < old(self).spec_size(),
        ensures
            final(self).wf(),
            final(self).spec_size() == old(self).spec_size(),
            final(self).entry(role_slot_spec(role), d as int, x as int, y as int) == v,
            !final(self).is_dirty(role_slot_spec(role), d as int, x as int, y as int),
            forall|s2: int, d2: int, a: int, b: int|
                0 <= s2 < 2 && 0 <= d2 < 4 && in_range(old(self).spec_size(), a, b) && !(s2
                    == role_slot_spec(role) && d2 == d as int && a == x as int && b == y as int)
                    ==> final(self).entry(s2, d2, a, b) == old(self).entry(s2, d2, a, b) && final(self).is_dirty(s2, d2, a, b) == old(self).is_dirty(s2, d2, a, b),
    {
        let slot = role_index(role);
        let i = shape_index(self.size, slot, d, x, y);
        self.data.set(i, v);
        self.dirty.set(i, false);
        proof {
            assert forall|s2: int, d2: int, a: int, b: int|
                0 <= s2 < 2 && 0 <= d2 < 4 && in_range(old(self).spec_size(), a, b) && !(s2
                    == role_slot_spec(role) && d2 == d as int && a == x as int && b
                    == y as int) implies final(self).entry(s2, d2, a, b) == old(self).entry(
                s2,
                d2,
                a,
                b,
            ) && final(self).is_dirty(s2, d2, a, b) == old(self).is_dirty(s2, d2, a, b) by {
                lemma_sidx_bound(self.size as int, s2, d2, a, b);
                if sidx(self.size as int, s2, d2, a, b) == i as int {
                    lemma_sidx_inj(
                        self.size as int,
                        s2,
                        d2,
                        a,
                        b,
                        slot as int,
                        d as int,
                        x as int,
                        y as int,
                    );
                }
            }
        }
    }
}

impl Board {
    /// The most expensive matching pattern for `role` at (x, y) along `dir`,
    /// and the summed cost of every matching pattern there.
    pub fn find_best_pattern_in_dir(&self, role: Role, x: usize, y: usize, dir: usize) -> (r: (
        ShapeId,
        i64,
    ))
        requires
            self.wf_basic(),
            (x as int) < self.sz(),
            (y as int) < self.sz(),
            dir < 4,
        ensures
            r.0 == shape_id_of(
                dir_best(
                    self.grid(),
                    self.sz(),
                    role.to_int_spec(),
                    x as int,
                    y as int,
                    dir as int,
                ).0,
            ),
            r.1 as int == dir_sum(
                self.grid(),
                self.sz(),
                role.to_int_spec(),
                x as int,
                y as int,
                dir as int,
            ),
            0 <= r.1 as int <= (PATTERN_COUNT as int) * (MAX_PATTERN_COST as int),
    {
        let role_val = role.to_int();
        let (dxv, dyv) = dir_step(dir);
        let ghost g = self.grid();
        let ghost sz = self.sz();
        let ghost rv = role.to_int_spec();
        let mut best_cost: i64 = 0;
        let mut best_shape = ShapeId::Empty;
        let mut sum_cost: i64 = 0;
        let n = self.patterns.len();
        let mut i: usize = 0;
        while i < n
            invariant
                self.wf_basic(),
                (x as int) < self.sz(),
                (y as int) < self.sz(),
                dir < 4,
                n == PATTERN_COUNT,
                i <= n,
                g == self.grid(),
                sz == self.sz(),
                rv == role.to_int_spec(),
                role_val as int == rv,
                dxv as int == dir_dx(dir as int),
                dyv as int == dir_dy(dir as int),
                sum_cost as int == crate::patterns::dir_sum_upto(g, sz, rv, x as int, y as int, dir as int, i as int),
                0 <= sum_cost as int <= (i as int) * (MAX_PATTERN_COST as int),
                best_shape == shape_id_of(
                    crate::patterns::dir_best_upto(g, sz, rv, x as int, y as int, dir as int, i as int).0,
                ),
                best_cost as int == crate::patterns::dir_best_upto(
                    g,
                    sz,
                    rv,
                    x as int,
                    y as int,
                    dir as int,
                    i as int,
                ).1,
                0 <= best_cost as int <= MAX_PATTERN_COST as int,
            decreases n - i,
        {
            proof {
                crate::patterns::lemma_pat_props(i as int);
                crate::patterns::lemma_dir_sum_bound(g, sz, rv, x as int, y as int, dir as int, i as int);
                crate::patterns::lemma_dir_best_bound(g, sz, rv, x as int, y as int, dir as int, i + 1);
            }
            let p = &self.patterns[i];
            let matched = self.check_pattern(
                role_val,
                x,
                y,
                dxv as i32,
                dyv as i32,
                p.0 as i32,
                p.1.as_slice(),
            );
            if matched {
                sum_cost = sum_cost + p.2;
                if p.2 > best_cost {
                    best_cost = p.2;
                    best_shape = ShapeId::Pattern(i);
                }
            }
            i = i + 1;
        }
        proof {
            crate::patterns::lemma_dir_sum_bound(g, sz, rv, x as int, y as int, dir as int, n as int);
        }
        (best_shape, sum_cost)
    }

    /// Recompute, for `role`, every dirty direction entry of cell (x, y);
    /// afterwards all four entries there are clean and exact.
    fn update_cache_if_needed(&mut self, role: Role, x: usize, y: usize)
        requires
            old(self).wf_basic(),
            old(self).shape_ok(),
            x < old(self).size,
            y < old(self).size,
        ensures
            final(self).wf_basic(),
            final(self).shape_ok(),
            final(self).board == old(self).board,
            final(self).history == old(self).history,
            final(self).zorbist_cache == old(self).zorbist_cache,
            final(self).winner_cache == old(self).winner_cache,
            final(self).evaluate_cache == old(self).evaluate_cache,
            final(self).valuable_moves_cache == old(self).valuable_moves_cache,
            final(self).black_scores == old(self).black_scores,
            final(self).white_scores == old(self).white_scores,
            final(self).patterns == old(self).patterns,
            final(self).size == old(self).size,
            final(self).shape_cache.wf(),
            final(self).shape_cache.spec_size() == old(self).shape_cache.spec_size(),
            forall|s2: int, d2: int, a: int, b: int|
                0 <= s2 < 2 && 0 <= d2 < 4 && in_range(old(self).sz(), a, b) && !(s2
                    == role_slot_spec(role) && a == x as int && b == y as int) ==> final(self).shape_cache.entry(s2, d2, a, b) == old(self).shape_cache.entry(s2, d2, a, b)
                    && final(self).shape_cache.is_dirty(s2, d2, a, b) == old(self).shape_cache.is_dirty(s2, d2, a, b),
            forall|d2: int|
                0 <= d2 < 4 ==> !final(self).shape_cache.is_dirty(
                    role_slot_spec(role),
                    d2,
                    x as int,
                    y as int,
                ),
    {
        let ghost pre = *self;
        let mut d: usize = 0;
        while d < 4
            invariant
                d <= 4,
                x < self.size,
                y < self.size,
                self.wf_basic(),
                self.shape_ok(),
                self.board == pre.board,
                self.history == pre.history,
                self.zorbist_cache == pre.zorbist_cache,
                self.winner_cache == pre.winner_cache,
                self.evaluate_cache == pre.evaluate_cache,
                self.valuable_moves_cache == pre.valuable_moves_cache,
                self.black_scores == pre.black_scores,
                self.white_scores == pre.white_scores,
                self.patterns == pre.patterns,
                self.size == pre.size,
                self.shape_cache.wf(),
                self.shape_cache.spec_size() == pre.shape_cache.spec_size(),
                forall|s2: int, d2: int, a: int, b: int|
                    0 <= s2 < 2 && 0 <= d2 < 4 && in_range(pre.sz(), a, b) && !(s2
                        == role_slot_spec(role) && a == x as int && b == y as int)
                        ==> self.shape_cache.entry(s2, d2, a, b) == pre.shape_cache.entry(
                        s2,
                        d2,
                        a,
                        b,
                    ) && self.shape_cache.is_dirty(s2, d2, a, b) == pre.shape_cache.is_dirty(
                        s2,
                        d2,
                        a,
                        b,
                    ),
                forall|d2: int|
                    0 <= d2 < d ==> !self.shape_cache.is_dirty(
                        role_slot_spec(role),
                        d2,
                        x as int,
                        y as int,
                    ),
            decreases 4 - d,
        {
            if self.shape_cache.dirty_at(role, d, x, y) {
                let v = self.find_best_pattern_in_dir(role, x, y, d);
                self.shape_cache.set_entry(role, d, x, y, v);
            }
            proof {
                lemma_history_transfer(pre, *self);
            }
            d = d + 1;
        }
    }

    /// The tiered defensive surcharge against an opponent whose offensive
    /// worth at the cell is `opp`.
    fn defense_tier(opp: i64) -> (r: i64)
        ensures
            r as int == crate::patterns::defense_of(opp as int),
    {
        if opp >= 2000000 {
            1500000
        } else if opp >= 1000000 {
            1000000
        } else if opp >= 300000 {
            600000
        } else {
            0
        }
    }

    /// Recompute both roles' aggregate scores of the empty cell (x, y) from
    /// the (freshly cleaned) shape cache, defensive surcharge included.
    fn calc_point_inner(&mut self, x: usize, y: usize)
        requires
            old(self).wf_basic(),
            old(self).shape_ok(),
            x < old(self).size,
            y < old(self).size,
        ensures
            final(self).wf_basic(),
            final(self).shape_ok(),
            final(self).board == old(self).board,
            final(self).history == old(self).history,
            final(self).zorbist_cache == old(self).zorbist_cache,
            final(self).winner_cache == old(self).winner_cache,
            final(self).evaluate_cache == old(self).evaluate_cache,
            final(self).valuable_moves_cache == old(self).valuable_moves_cache,
            final(self).patterns == old(self).patterns,
            final(self).size == old(self).size,
            final(self).shape_cache.wf(),
            final(self).shape_cache.spec_size() == old(self).shape_cache.spec_size(),
            forall|s2: int, d2: int, a: int, b: int|
                0 <= s2 < 2 && 0 <= d2 < 4 && in_range(old(self).sz(), a, b) && !(a == x as int
                    && b == y as int) ==> final(self).shape_cache.entry(s2, d2, a, b) == old(self).shape_cache.entry(s2, d2, a, b) && final(self).shape_cache.is_dirty(s2, d2, a, b)
                    == old(self).shape_cache.is_dirty(s2, d2, a, b),
            final(self).black_scores@ == old(self).black_scores@.update(
                gidx(old(self).sz(), x as int, y as int),
                cell_score(old(self).grid(), old(self).sz(), -1, x as int, y as int) as i64,
            ),
            final(self).white_scores@ == old(self).white_scores@.update(
                gidx(old(self).sz(), x as int, y as int),
                cell_score(old(self).grid(), old(self).sz(), 1, x as int, y as int) as i64,
            ),
    {
        let ghost g = self.grid();
        let ghost sz = self.sz();
        self.update_cache_if_needed(Role::Black, x, y);
        self.update_cache_if_needed(Role::White, x, y);
        let mut bsum: i64 = 0;
        let mut wsum: i64 = 0;
        let mut d: usize = 0;
        while d < 4
            invariant
                d <= 4,
                x < self.size,
                y < self.size,
                self.wf_basic(),
                self.shape_ok(),
                g == self.grid(),
                sz == self.sz(),
                forall|d2: int|
                    0 <= d2 < 4 ==> !self.shape_cache.is_dirty(0, d2, x as int, y as int)
                        && !self.shape_cache.is_dirty(1, d2, x as int, y as int),
                bsum as int == crate::patterns::dir_sum_prefix(g, sz, -1, x as int, y as int, d as int),
                wsum as int == crate::patterns::dir_sum_prefix(g, sz, 1, x as int, y as int, d as int),
                0 <= bsum as int <= (d as int) * (PATTERN_COUNT as int) * (MAX_PATTERN_COST as int),
                0 <= wsum as int <= (d as int) * (PATTERN_COUNT as int) * (MAX_PATTERN_COST as int),
            decreases 4 - d,
        {
            proof {
                crate::patterns::lemma_dir_sum_bound(g, sz, -1, x as int, y as int, d as int, PATTERN_COUNT as int);
                crate::patterns::lemma_dir_sum_bound(g, sz, 1, x as int, y as int, d as int, PATTERN_COUNT as int);
            }
            let be = self.shape_cache.entry_at(Role::Black, d, x, y);
            let we = self.shape_cache.entry_at(Role::White, d, x, y);
            bsum = bsum + be.1;
            wsum = wsum + we.1;
            d = d + 1;
        }
        proof {
            crate::patterns::lemma_prefix_base(g, sz, -1, x as int, y as int);
            crate::patterns::lemma_prefix_base(g, sz, 1, x as int, y as int);
            crate::patterns::lemma_cell_score_bound(g, sz, -1, x as int, y as int);
            crate::patterns::lemma_cell_score_bound(g, sz, 1, x as int, y as int);
        }
        let bscore = bsum + Self::defense_tier(wsum);
        let wscore = wsum + Self::defense_tier(bsum);
        let i = self.grid_index(x, y);
        self.black_scores.set(i, bscore);
        self.white_scores.set(i, wscore);
        proof {
            lemma_history_transfer(*old(self), *self);
        }
    }

    /// Recompute both roles' aggregate scores of the empty cell (x, y).
    pub fn cacl_score_for_point(&mut self, x: usize, y: usize)
        requires
            old(self).wf(),
            (x as int) < old(self).sz(),
            (y as int) < old(self).sz(),
            cell_at(old(self).grid(), old(self).sz(), x as int, y as int) == 0,
        ensures
            final(self).wf(),
            final(self).sz() == old(self).sz(),
            final(self).grid() == old(self).grid(),
            final(self).spec_history() == old(self).spec_history(),
            final(self).zkeys() == old(self).zkeys(),
            final(self).fingerprint() == old(self).fingerprint(),
            final(self).scores_of(Role::Black) == old(self).scores_of(Role::Black),
            final(self).scores_of(Role::White) == old(self).scores_of(Role::White),
    {
        let ghost pre = *self;
        self.calc_point_inner(x, y);
        proof {
            lemma_calc_noop(pre, *self, x as int, y as int);
        }
    }
}

impl Board {
    /// Whether both roles' stored scores of cell (a, b) are faithful to the
    /// current grid.
    pub closed spec fn cell_scored(self, a: int, b: int) -> bool {
        &&& self.black_scores@[gidx(self.sz(), a, b)] as int == stored_cell_spec(
            self.grid(),
            self.sz(),
            -1,
            a,
            b,
        )
        &&& self.white_scores@[gidx(self.sz(), a, b)] as int == stored_cell_spec(
            self.grid(),
            self.sz(),
            1,
            a,
            b,
        )
    }
}

/// After a one-cell grid change whose five-step neighborhood was marked
/// dirty for both roles, every still-clean cache entry is still exact.
proof fn lemma_shape_ok_after_marks(pre: Board, post: Board, x: int, y: int)
    requires
        pre.wf_basic(),
        pre.shape_ok(),
        in_range(pre.sz(), x, y),
        post.sz() == pre.sz(),
        post.patterns == pre.patterns,
        post.shape_cache.wf(),
        post.shape_cache.spec_size() == pre.shape_cache.spec_size(),
        post.board@.len() == pre.board@.len(),
        same_but(pre.grid(), post.grid(), pre.sz(), x, y),
        forall|s: int, d: int, a: int, b: int|
            post.shape_cache.entry(s, d, a, b) == pre.shape_cache.entry(s, d, a, b),
        forall|s: int, d: int, a: int, b: int|
            0 <= s < 2 && 0 <= d < 4 && in_range(pre.sz(), a, b) && pre.shape_cache.is_dirty(
                s,
                d,
                a,
                b,
            ) ==> post.shape_cache.is_dirty(s, d, a, b),
        forall|s: int, a: int, b: int|
            0 <= s < 2 && in_range(pre.sz(), a, b) && near(x, y, a, b) ==> all_dirs_dirty(
                post.shape_cache,
                s,
                a,
                b,
            ),
    ensures
        post.shape_ok(),
{
    assert forall|s: int, d: int, a: int, b: int|
        0 <= s < 2 && 0 <= d < 4 && in_range(post.sz(), a, b) && !post.shape_cache.is_dirty(
            s,
            d,
            a,
            b,
        ) implies #[trigger] post.shape_cache.entry(s, d, a, b) == (
        shape_id_of(dir_best(post.grid(), post.sz(), slot_role_val(s), a, b, d).0),
        dir_sum(post.grid(), post.sz(), slot_role_val(s), a, b, d) as i64,
    ) by {
        if near(x, y, a, b) {
            assert(all_dirs_dirty(post.shape_cache, s, a, b));
            assert(post.shape_cache.is_dirty(s, d, a, b));
        } else {
            assert(!pre.shape_cache.is_dirty(s, d, a, b));
            assert(!on_line(x, y, a, b, d));
            crate::patterns::lemma_dir_local(
                pre.grid(),
                post.grid(),
                pre.sz(),
                slot_role_val(s),
                a,
                b,
                d,
                x,
                y,
                PATTERN_COUNT as int,
            );
        }
    }
}

impl Board {
    /// Recompute the aggregate scores of every empty cell within five steps
    /// of (x, y) along the four line directions, (x, y) itself included.
    /// Afterwards the whole score matrix is faithful to the grid again.
    fn recalc_scores(&mut self, x: usize, y: usize)
        requires
            old(self).wf_basic(),
            old(self).shape_ok(),
            x < old(self).size,
            y < old(self).size,
            forall|a: int, b: int|
                in_range(old(self).sz(), a, b) && !near(x as int, y as int, a, b)
                    ==> old(self).cell_scored(a, b),
            forall|a: int, b: int|
                in_range(old(self).sz(), a, b) && cell_at(old(self).grid(), old(self).sz(), a, b)
                    != 0 ==> old(self).cell_scored(a, b),
        ensures
            final(self).wf_basic(),
            final(self).shape_ok(),
            final(self).scores_ok(),
            final(self).board == old(self).board,
            final(self).history == old(self).history,
            final(self).zorbist_cache == old(self).zorbist_cache,
            final(self).winner_cache == old(self).winner_cache,
            final(self).evaluate_cache == old(self).evaluate_cache,
            final(self).valuable_moves_cache == old(self).valuable_moves_cache,
            final(self).patterns == old(self).patterns,
            final(self).size == old(self).size,
    {
        let ghost pre = *self;
        let ghost px = x as int;
        let ghost py = y as int;
        let size = self.size;
        if self.get_cell(x, y) == 0 {
            let ghost before = *self;
            self.calc_point_inner(x, y);
            proof {
                lemma_scored_preserved(before, *self, px, py);
            }
        }
        let mut d: usize = 0;
        while d < 4
            invariant
                d <= 4,
                x < size,
                y < size,
                size == self.size,
                px == x as int,
                py == y as int,
                self.wf_basic(),
                self.shape_ok(),
                self.board == pre.board,
                self.history == pre.history,
                self.zorbist_cache == pre.zorbist_cache,
                self.winner_cache == pre.winner_cache,
                self.evaluate_cache == pre.evaluate_cache,
                self.valuable_moves_cache == pre.valuable_moves_cache,
                self.patterns == pre.patterns,
                self.size == pre.size,
                forall|a: int, b: int|
                    in_range(self.sz(), a, b) && !near(px, py, a, b) ==> self.cell_scored(a, b),
                forall|a: int, b: int|
                    in_range(self.sz(), a, b) && cell_at(self.grid(), self.sz(), a, b) != 0
                        ==> self.cell_scored(a, b),
                self.cell_scored(px, py),
                forall|a: int, b: int|
                    in_range(self.sz(), a, b) && (exists|dd: int, sg2: int|
                        0 <= dd < d && (sg2 == 1 || sg2 == -1) && #[trigger] ray_hit(
                            px,
                            py,
                            a,
                            b,
                            dd,
                            sg2,
                            5,
                        )) ==> self.cell_scored(a, b),
            decreases 4 - d,
        {
            let (dxv, dyv) = dir_step(d);
            let mut si: usize = 0;
            while si < 2
                invariant
                    d < 4,
                    si <= 2,
                    x < size,
                    y < size,
                    size == self.size,
                    px == x as int,
                    py == y as int,
                    dxv as int == dir_dx(d as int),
                    dyv as int == dir_dy(d as int),
                    self.wf_basic(),
                    self.shape_ok(),
                    self.board == pre.board,
                    self.history == pre.history,
                    self.zorbist_cache == pre.zorbist_cache,
                    self.winner_cache == pre.winner_cache,
                    self.evaluate_cache == pre.evaluate_cache,
                    self.valuable_moves_cache == pre.valuable_moves_cache,
                    self.patterns == pre.patterns,
                    self.size == pre.size,
                    forall|a: int, b: int|
                        in_range(self.sz(), a, b) && !near(px, py, a, b) ==> self.cell_scored(a, b),
                    forall|a: int, b: int|
                        in_range(self.sz(), a, b) && cell_at(self.grid(), self.sz(), a, b) != 0
                            ==> self.cell_scored(a, b),
                    self.cell_scored(px, py),
                    forall|a: int, b: int|
                        in_range(self.sz(), a, b) && (exists|dd: int, sg2: int|
                            0 <= dd < d && (sg2 == 1 || sg2 == -1) && #[trigger] ray_hit(
                                px,
                                py,
                                a,
                                b,
                                dd,
                                sg2,
                                5,
                            )) ==> self.cell_scored(a, b),
                    forall|a: int, b: int|
                        in_range(self.sz(), a, b) && si >= 1 && #[trigger] ray_hit(
                            px,
                            py,
                            a,
                            b,
                            d as int,
                            1,
                            5,
                        ) ==> self.cell_scored(a, b),
                    forall|a: int, b: int|
                        in_range(self.sz(), a, b) && si >= 2 && #[trigger] ray_hit(
                            px,
                            py,
                            a,
                            b,
                            d as int,
                            -1,
                            5,
                        ) ==> self.cell_scored(a, b),
                decreases 2 - si,
            {
                let sg: i64 = if si == 0 {
                    1
                } else {
                    -1
                };
                let ghost sgn = sg as int;
                let mut step: usize = 1;
                let mut stopped = false;
                while step <= 5 && !stopped
                    invariant
                        d < 4,
                        si < 2,
                        1 <= step <= 6,
                        x < size,
                        y < size,
                        size == self.size,
                        px == x as int,
                        py == y as int,
                        dxv as int == dir_dx(d as int),
                        dyv as int == dir_dy(d as int),
                        sgn == sg as int,
                        sg == 1 || sg == -1,
                        self.wf_basic(),
                        self.shape_ok(),
                        self.board == pre.board,
                        self.history == pre.history,
                        self.zorbist_cache == pre.zorbist_cache,
                        self.winner_cache == pre.winner_cache,
                        self.evaluate_cache == pre.evaluate_cache,
                        self.valuable_moves_cache == pre.valuable_moves_cache,
                        self.patterns == pre.patterns,
                        self.size == pre.size,
                        forall|a: int, b: int|
                            in_range(self.sz(), a, b) && !near(px, py, a, b) ==> self.cell_scored(
                                a,
                                b,
                            ),
                        forall|a: int, b: int|
                            in_range(self.sz(), a, b) && cell_at(self.grid(), self.sz(), a, b) != 0
                                ==> self.cell_scored(a, b),
                        self.cell_scored(px, py),
                        forall|a: int, b: int|
                            in_range(self.sz(), a, b) && (exists|dd: int, sg2: int|
                                0 <= dd < d && (sg2 == 1 || sg2 == -1) && #[trigger] ray_hit(
                                    px,
                                    py,
                                    a,
                                    b,
                                    dd,
                                    sg2,
                                    5,
                                )) ==> self.cell_scored(a, b),
                        forall|a: int, b: int|
                            in_range(self.sz(), a, b) && si >= 1 && #[trigger] ray_hit(
                                px,
                                py,
                                a,
                                b,
                                d as int,
                                1,
                                5,
                            ) ==> self.cell_scored(a, b),
                        forall|a: int, b: int|
                            in_range(self.sz(), a, b) && #[trigger] ray_hit(
                                px,
                                py,
                                a,
                                b,
                                d as int,
                                sgn,
                                step - 1,
                            ) ==> self.cell_scored(a, b),
                        stopped ==> forall|k: int|
                            step <= k <= 5 ==> !in_range(
                                size as int,
                                px + sgn * (#[trigger] (k * dir_dx(d as int))),
                                py + sgn * (k * dir_dy(d as int)),
                            ),
                    decreases 6 - step,
                {
                    proof {
                        assert(-5 <= (step as int) * dir_dx(d as int) <= 5 && -5 <= (step as int)
                            * dir_dy(d as int) <= 5 && -5 <= sg as int * ((step as int) * dir_dx(
                            d as int,
                        )) <= 5 && -5 <= sg as int * ((step as int) * dir_dy(d as int)) <= 5)
                            by (nonlinear_arith)
                            requires
                                sg == 1 || sg == -1,
                                1 <= step <= 5,
                                -1 <= dir_dx(d as int) <= 1,
                                -1 <= dir_dy(d as int) <= 1,
                        ;
                    }
                    let nx: i64 = x as i64 + sg * ((step as i64) * dxv);
                    let ny: i64 = y as i64 + sg * ((step as i64) * dyv);
                    if nx < 0 || ny < 0 || nx >= size as i64 || ny >= size as i64 {
                        stopped = true;
                        proof {
                            lemma_ray_oob(size as int, px, py, d as int, sgn, step as int);
                            assert forall|a: int, b: int|
                                in_range(self.sz(), a, b) && #[trigger] ray_hit(
                                    px,
                                    py,
                                    a,
                                    b,
                                    d as int,
                                    sgn,
                                    step as int,
                                ) implies self.cell_scored(a, b) by {
                                let k = choose|k: int|
                                    1 <= k <= step as int && a == px + sgn * (#[trigger] (k
                                        * dir_dx(d as int))) && b == py + sgn * (k * dir_dy(
                                        d as int,
                                    ));
                                if k <= step - 1 {
                                    assert(ray_hit(px, py, a, b, d as int, sgn, step - 1));
                                } else {
                                    assert(!in_range(
                                        self.sz(),
                                        px + sgn * (k * dir_dx(d as int)),
                                        py + sgn * (k * dir_dy(d as int)),
                                    ));
                                    assert(false);
                                }
                            }
                        }
                    } else {
                        if self.cell(nx, ny) == 0 {
                            let ghost before = *self;
                            self.calc_point_inner(nx as usize, ny as usize);
                            proof {
                                lemma_scored_preserved(before, *self, nx as int, ny as int);
                            }
                        }
                        proof {
                            assert forall|a: int, b: int|
                                in_range(self.sz(), a, b) && #[trigger] ray_hit(
                                    px,
                                    py,
                                    a,
                                    b,
                                    d as int,
                                    sgn,
                                    step as int,
                                ) implies self.cell_scored(a, b) by {
                                let k = choose|k: int|
                                    1 <= k <= step as int && a == px + sgn * (#[trigger] (k
                                        * dir_dx(d as int))) && b == py + sgn * (k * dir_dy(
                                        d as int,
                                    ));
                                if k <= step - 1 {
                                    assert(ray_hit(px, py, a, b, d as int, sgn, step - 1));
                                } else {
                                    assert(a == nx as int && b == ny as int);
                                    if cell_at(self.grid(), self.sz(), a, b) != 0 {
                                        assert(self.cell_scored(a, b));
                                    }
                                }
                            }
                        }
                    }
                    step = step + 1;
                }
                proof {
                    assert forall|a: int, b: int|
                        in_range(self.sz(), a, b) && #[trigger] ray_hit(
                            px,
                            py,
                            a,
                            b,
                            d as int,
                            sgn,
                            5,
                        ) implies self.cell_scored(a, b) by {
                        let k = choose|k: int|
                            1 <= k <= 5 && a == px + sgn * (#[trigger] (k * dir_dx(d as int))) && b
                                == py + sgn * (k * dir_dy(d as int));
                        if k <= step - 1 {
                            assert(ray_hit(px, py, a, b, d as int, sgn, step - 1));
                        } else {
                            assert(stopped);
                            assert(!in_range(
                                self.sz(),
                                px + sgn * (k * dir_dx(d as int)),
                                py + sgn * (k * dir_dy(d as int)),
                            ));
                        }
                    }
                }
                si = si + 1;
            }
            proof {
                assert forall|a: int, b: int|
                    in_range(self.sz(), a, b) && (exists|dd: int, sg2: int|
                        0 <= dd < d + 1 && (sg2 == 1 || sg2 == -1) && #[trigger] ray_hit(
                            px,
                            py,
                            a,
                            b,
                            dd,
                            sg2,
                            5,
                        )) implies self.cell_scored(a, b) by {
                    let (dd, sg2) = choose|dd: int, sg2: int|
                        0 <= dd < d + 1 && (sg2 == 1 || sg2 == -1) && #[trigger] ray_hit(
                            px,
                            py,
                            a,
                            b,
                            dd,
                            sg2,
                            5,
                        );
                    if dd < d {
                        assert(exists|dd3: int, sg3: int|
                            0 <= dd3 < d && (sg3 == 1 || sg3 == -1) && #[trigger] ray_hit(
                                px,
                                py,
                                a,
                                b,
                                dd3,
                                sg3,
                                5,
                            ));
                    }
                }
            }
            d = d + 1;
        }
        proof {
            assert forall|a: int, b: int| in_range(self.sz(), a, b) implies self.cell_scored(
                a,
                b,
            ) by {
                if near(px, py, a, b) {
                    let dd = choose|dd: int| 0 <= dd < 4 && #[trigger] on_line(px, py, a, b, dd);
                    let k = choose|k: int|
                        -5 <= k <= 5 && px == a + #[trigger] (k * dir_dx(dd)) && py == b + k
                            * dir_dy(dd);
                    if k == 0 {
                        assert(k * dir_dx(dd) == 0 && k * dir_dy(dd) == 0) by (nonlinear_arith)
                            requires
                                k == 0,
                        ;
                        assert(a == px && b == py);
                    } else {
                        let kk = if k > 0 {
                            k
                        } else {
                            -k
                        };
                        let sg2: int = if k > 0 {
                            -1
                        } else {
                            1
                        };
                        assert(a == px + sg2 * (kk * dir_dx(dd)) && b == py + sg2 * (kk * dir_dy(
                            dd,
                        ))) by (nonlinear_arith)
                            requires
                                px == a + k * dir_dx(dd),
                                py == b + k * dir_dy(dd),
                                k != 0,
                                kk == if k > 0 {
                                    k
                                } else {
                                    -k
                                },
                                sg2 == if k > 0 {
                                    -1int
                                } else {
                                    1int
                                },
                        ;
                        assert(ray_hit(px, py, a, b, dd, sg2, 5));
                        assert(exists|dd3: int, sg3: int|
                            0 <= dd3 < 4 && (sg3 == 1 || sg3 == -1) && #[trigger] ray_hit(
                                px,
                                py,
                                a,
                                b,
                                dd3,
                                sg3,
                                5,
                            ));
                    }
                }
            }
        }
    }
}

/// Rebuilding one cell's scores keeps every other cell's faithfulness.
proof fn lemma_scored_preserved(before: Board, after: Board, cx: int, cy: int)
    requires
        before.wf_basic(),
        in_range(before.sz(), cx, cy),
        after.sz() == before.sz(),
        after.board == before.board,
        after.black_scores@ == before.black_scores@.update(
            gidx(before.sz(), cx, cy),
            cell_score(before.grid(), before.sz(), -1, cx, cy) as i64,
        ),
        after.white_scores@ == before.white_scores@.update(
            gidx(before.sz(), cx, cy),
            cell_score(before.grid(), before.sz(), 1, cx, cy) as i64,
        ),
        cell_at(before.grid(), before.sz(), cx, cy) == 0,
    ensures
        forall|a: int, b: int|
            in_range(after.sz(), a, b) && before.cell_scored(a, b) && !(a == cx && b == cy)
                ==> after.cell_scored(a, b),
        after.cell_scored(cx, cy),
{
    lemma_gidx_bound(before.sz(), cx, cy);
    crate::patterns::lemma_cell_score_bound(before.grid(), before.sz(), -1, cx, cy);
    crate::patterns::lemma_cell_score_bound(before.grid(), before.sz(), 1, cx, cy);
    assert forall|a: int, b: int|
        in_range(after.sz(), a, b) && before.cell_scored(a, b) && !(a == cx && b
            == cy) implies after.cell_scored(a, b) by {
        lemma_gidx_bound(before.sz(), a, b);
        if gidx(before.sz(), a, b) == gidx(before.sz(), cx, cy) {
            lemma_gidx_inj(before.sz(), a, b, cx, cy);
        }
    }
}

/// What a successful placement of `role` at (x, y) does to the position:
/// the cell takes the role's stone, the move is appended to the history,
/// and the fingerprint is toggled by the (cell, role) key. The score
/// matrices follow from `wf`: they are a function of the new grid.
pub open spec fn put_applied(pre: Board, post: Board, x: int, y: int, role: Role) -> bool {
    &&& post.sz() == pre.sz()
    &&& post.grid() == pre.grid().update(gidx(pre.sz(), x, y), role.to_int_spec() as i32)
    &&& post.spec_history() == pre.spec_history().push((x as usize, y as usize, role))
    &&& post.zkeys() == pre.zkeys()
    &&& post.fingerprint() == pre.fingerprint() ^ pre.key_at(x, y, role)
}

/// What a successful reversal does to the position: the last move's cell is
/// emptied, the move is popped, and the fingerprint is toggled by the same
/// key that the matching placement used.
pub open spec fn undo_applied(pre: Board, post: Board) -> bool {
    let m = pre.spec_history().last();
    &&& post.sz() == pre.sz()
    &&& post.grid() == pre.grid().update(gidx(pre.sz(), m.0 as int, m.1 as int), 0i32)
    &&& post.spec_history() == pre.spec_history().drop_last()
    &&& post.zkeys() == pre.zkeys()
    &&& post.fingerprint() == pre.fingerprint() ^ pre.key_at(m.0 as int, m.1 as int, m.2)
}

impl Board {
    /// Place a stone of `role` at (x, y). An out-of-range or occupied cell
    /// is rejected without any change; otherwise the stone is placed, the
    /// history and fingerprint follow, and every affected score is
    /// recomputed.
    pub fn put(&mut self, x: usize, y: usize, role: Role) -> (r: bool)
        requires
            old(self).wf(),
        ensures
            final(self).wf(),
            r == ((x as int) < old(self).sz() && (y as int) < old(self).sz() && cell_at(
                old(self).grid(),
                old(self).sz(),
                x as int,
                y as int,
            ) == 0),
            r ==> put_applied(*old(self), *final(self), x as int, y as int, role),
            !r ==> *final(self) == *old(self),
    {
        if x >= self.size || y >= self.size {
            return false;
        }
        let i = self.grid_index(x, y);
        if self.board[i] != 0 {
            return false;
        }
        let ghost pre = *self;
        let ghost px = x as int;
        let ghost py = y as int;
        let rv = role.to_int();
        self.board.set(i, rv);
        self.history.push((x, y, role));
        self.zorbist_cache.toggle_piece(x, y, rv);
        self.black_scores.set(i, 0);
        self.white_scores.set(i, 0);
        let size = self.size;
        self.shape_cache.mark_neighbors_dirty(role, x, y, size);
        let opp = role.opponent();
        self.shape_cache.mark_neighbors_dirty(opp, x, y, size);
        proof {
            lemma_flip_ok(pre, *self, px, py, role.to_int_spec() as i32);
        }
        self.recalc_scores(x, y);
        proof {
            assert(self.grid() =~= pre.grid().update(gidx(pre.sz(), px, py), role.to_int_spec() as i32));
        }
        true
    }

    /// Take back the last move, if there is one: its cell is emptied, the
    /// fingerprint toggles back, and every affected score is recomputed,
    /// which restores the evaluator exactly as it was before the matching
    /// placement.
    pub fn undo(&mut self) -> (r: bool)
        requires
            old(self).wf(),
        ensures
            final(self).wf(),
            r == (old(self).spec_history().len() > 0),
            r ==> undo_applied(*old(self), *final(self)),
            !r ==> *final(self) == *old(self),
    {
        if self.history.len() == 0 {
            return false;
        }
        let ghost pre = *self;
        let m = self.history[self.history.len() - 1];
        let (x, y, role) = m;
        self.history.pop();
        proof {
            assert(pre.history@[pre.history@.len() - 1] == m);
            assert(self.history@ =~= pre.history@.drop_last());
            assert(in_range(pre.sz(), x as int, y as int) && cell_at(
                pre.grid(),
                pre.sz(),
                x as int,
                y as int,
            ) == role.to_int_spec());
        }
        let i = self.grid_index(x, y);
        self.board.set(i, 0);
        let rv = role.to_int();
        self.zorbist_cache.toggle_piece(x, y, rv);
        let size = self.size;
        self.shape_cache.mark_neighbors_dirty(role, x, y, size);
        let opp = role.opponent();
        self.shape_cache.mark_neighbors_dirty(opp, x, y, size);
        proof {
            lemma_unflip_ok(pre, *self, x as int, y as int);
        }
        self.recalc_scores(x, y);
        proof {
            assert(self.grid() =~= pre.grid().update(
                gidx(pre.sz(), x as int, y as int),
                0i32,
            ));
        }
        true
    }
}

/// After a placement at the empty cell (x, y), with both roles' dirty marks
/// spread and the placed cell's scores zeroed, the board is ready for the
/// neighborhood recomputation: history, clean cache entries and far scores
/// are all faithful to the new grid.
proof fn lemma_flip_ok(pre: Board, post: Board, x: int, y: int, v: i32)
    requires
        pre.wf(),
        in_range(pre.sz(), x, y),
        cell_at(pre.grid(), pre.sz(), x, y) == 0,
        v == -1 || v == 1,
        post.size == pre.size,
        post.board@ == pre.board@.update(gidx(pre.sz(), x, y), v),
        post.history@ == pre.history@.push((x as usize, y as usize, Role::Black)) || post.history@
            == pre.history@.push((x as usize, y as usize, Role::White)),
        post.history@.last().2.to_int_spec() == v as int,
        post.black_scores@ == pre.black_scores@.update(gidx(pre.sz(), x, y), 0i64),
        post.white_scores@ == pre.white_scores@.update(gidx(pre.sz(), x, y), 0i64),
        post.patterns == pre.patterns,
        post.zorbist_cache.wf(),
        post.zorbist_cache.spec_size() == pre.zorbist_cache.spec_size(),
        post.winner_cache == pre.winner_cache,
        post.evaluate_cache == pre.evaluate_cache,
        post.valuable_moves_cache == pre.valuable_moves_cache,
        post.shape_cache.wf(),
        post.shape_cache.spec_size() == pre.shape_cache.spec_size(),
        forall|s: int, d: int, a: int, b: int|
            post.shape_cache.entry(s, d, a, b) == pre.shape_cache.entry(s, d, a, b),
        forall|s: int, d: int, a: int, b: int|
            0 <= s < 2 && 0 <= d < 4 && in_range(pre.sz(), a, b) && pre.shape_cache.is_dirty(
                s,
                d,
                a,
                b,
            ) ==> post.shape_cache.is_dirty(s, d, a, b),
        forall|s: int, a: int, b: int|
            0 <= s < 2 && in_range(pre.sz(), a, b) && near(x, y, a, b) ==> all_dirs_dirty(
                post.shape_cache,
                s,
                a,
                b,
            ),
    ensures
        post.wf_basic(),
        post.shape_ok(),
        forall|a: int, b: int|
            in_range(post.sz(), a, b) && !near(x, y, a, b) ==> post.cell_scored(a, b),
        forall|a: int, b: int|
            in_range(post.sz(), a, b) && cell_at(post.grid(), post.sz(), a, b) != 0
                ==> post.cell_scored(a, b),
    {
    let sz = pre.sz();
    lemma_gidx_bound(sz, x, y);
    assert(same_but(pre.grid(), post.grid(), sz, x, y)) by {
        assert forall|a: int, b: int|
            in_range(sz, a, b) && !(a == x && b == y) implies cell_at(pre.grid(), sz, a, b)
                == cell_at(post.grid(), sz, a, b) by {
            lemma_gidx_bound(sz, a, b);
            if gidx(sz, a, b) == gidx(sz, x, y) {
                lemma_gidx_inj(sz, a, b, x, y);
            }
        }
    }
    // history
    let h = post.history@;
    assert forall|i: int| 0 <= i < h.len() implies {
        let m = #[trigger] h[i];
        in_range(sz, m.0 as int, m.1 as int) && cell_at(post.grid(), sz, m.0 as int, m.1 as int)
            == m.2.to_int_spec()
    } by {
        if i < h.len() - 1 {
            assert(h[i] == pre.history@[i]);
            let m = pre.history@[i];
            assert(cell_at(pre.grid(), sz, m.0 as int, m.1 as int) == m.2.to_int_spec());
            assert(m.2.to_int_spec() != 0);
            if m.0 as int == x && m.1 as int == y {
                assert(cell_at(pre.grid(), sz, x, y) == 0);
                assert(false);
            }
            lemma_gidx_bound(sz, m.0 as int, m.1 as int);
            if gidx(sz, m.0 as int, m.1 as int) == gidx(sz, x, y) {
                lemma_gidx_inj(sz, m.0 as int, m.1 as int, x, y);
            }
        } else {
            assert(h[i] == h.last());
            assert(h[i].0 == x as usize && h[i].1 == y as usize);
            assert(cell_at(post.grid(), sz, x, y) == v as int);
        }
    }
    assert forall|i: int, j: int| 0 <= i < j < h.len() implies !((#[trigger] h[i]).0 == (
    #[trigger] h[j]).0 && h[i].1 == h[j].1) by {
        if j < h.len() - 1 {
            assert(h[i] == pre.history@[i] && h[j] == pre.history@[j]);
        } else {
            assert(h[i] == pre.history@[i]);
            let m = pre.history@[i];
            assert(cell_at(pre.grid(), sz, m.0 as int, m.1 as int) == m.2.to_int_spec());
            assert(m.2.to_int_spec() != 0);
            if m.0 == x as usize && m.1 == y as usize {
                assert(cell_at(pre.grid(), sz, x, y) == 0);
                assert(false);
            }
        }
    }
    assert forall|a: int, b: int|
        in_range(sz, a, b) && cell_at(post.grid(), sz, a, b) != 0 implies exists|i: int|
        0 <= i < h.len() && (#[trigger] h[i]).0 as int == a && h[i].1 as int == b by {
        if a == x && b == y {
            assert(h[h.len() - 1].0 as int == a && h[h.len() - 1].1 as int == b);
        } else {
            assert(cell_at(pre.grid(), sz, a, b) == cell_at(post.grid(), sz, a, b));
            let i = choose|i: int|
                0 <= i < pre.history@.len() && (#[trigger] pre.history@[i]).0 as int == a
                    && pre.history@[i].1 as int == b;
            assert(h[i] == pre.history@[i]);
            assert(0 <= i < h.len() && h[i].0 as int == a && h[i].1 as int == b);
        }
    }
    assert(post.history_ok());
    // shape cache entries still clean are still exact
    lemma_shape_ok_after_marks(pre, post, x, y);
    // far scores and occupied-cell scores
    assert forall|a: int, b: int|
        in_range(sz, a, b) && !near(x, y, a, b) implies post.cell_scored(a, b) by {
        assert(pre.cell_scored(a, b));
        lemma_gidx_bound(sz, a, b);
        if gidx(sz, a, b) == gidx(sz, x, y) {
            lemma_gidx_inj(sz, a, b, x, y);
            assert(near(x, y, a, b)) by {
                lemma_near_self(x, y);
            }
        }
        assert(cell_at(pre.grid(), sz, a, b) == cell_at(post.grid(), sz, a, b));
        crate::patterns::lemma_cell_local(pre.grid(), post.grid(), sz, -1, x, y, a, b);
        crate::patterns::lemma_cell_local(pre.grid(), post.grid(), sz, 1, x, y, a, b);
    }
    assert forall|a: int, b: int|
        in_range(sz, a, b) && cell_at(post.grid(), sz, a, b) != 0 implies post.cell_scored(
        a,
        b,
    ) by {
        lemma_gidx_bound(sz, a, b);
        if a == x && b == y {
            assert(post.black_scores@[gidx(sz, a, b)] == 0i64);
            assert(post.white_scores@[gidx(sz, a, b)] == 0i64);
        } else {
            if gidx(sz, a, b) == gidx(sz, x, y) {
                lemma_gidx_inj(sz, a, b, x, y);
            }
            assert(cell_at(pre.grid(), sz, a, b) == cell_at(post.grid(), sz, a, b));
            assert(pre.cell_scored(a, b));
            assert(pre.black_scores@[gidx(sz, a, b)] == 0i64 && pre.white_scores@[gidx(sz, a, b)]
                == 0i64);
        }
    }
}

/// A cell lies in its own five-step neighborhood.
proof fn lemma_near_self(x: int, y: int)
    ensures
        near(x, y, x, y),
{
    assert(x == x + 0 * dir_dx(0) && y == y + 0 * dir_dy(0)) by (nonlinear_arith);
    assert(on_line(x, y, x, y, 0));
}

/// After the last move's cell is emptied and both roles' dirty marks are
/// spread, the board is ready for the neighborhood recomputation.
proof fn lemma_unflip_ok(pre: Board, post: Board, x: int, y: int)
    requires
        pre.wf(),
        pre.spec_history().len() > 0,
        pre.spec_history().last().0 as int == x,
        pre.spec_history().last().1 as int == y,
        in_range(pre.sz(), x, y),
        post.size == pre.size,
        post.board@ == pre.board@.update(gidx(pre.sz(), x, y), 0i32),
        post.history@ == pre.history@.drop_last(),
        post.black_scores == pre.black_scores,
        post.white_scores == pre.white_scores,
        post.patterns == pre.patterns,
        post.zorbist_cache.wf(),
        post.zorbist_cache.spec_size() == pre.zorbist_cache.spec_size(),
        post.winner_cache == pre.winner_cache,
        post.evaluate_cache == pre.evaluate_cache,
        post.valuable_moves_cache == pre.valuable_moves_cache,
        post.shape_cache.wf(),
        post.shape_cache.spec_size() == pre.shape_cache.spec_size(),
        forall|s: int, d: int, a: int, b: int|
            post.shape_cache.entry(s, d, a, b) == pre.shape_cache.entry(s, d, a, b),
        forall|s: int, d: int, a: int, b: int|
            0 <= s < 2 && 0 <= d < 4 && in_range(pre.sz(), a, b) && pre.shape_cache.is_dirty(
                s,
                d,
                a,
                b,
            ) ==> post.shape_cache.is_dirty(s, d, a, b),
        forall|s: int, a: int, b: int|
            0 <= s < 2 && in_range(pre.sz(), a, b) && near(x, y, a, b) ==> all_dirs_dirty(
                post.shape_cache,
                s,
                a,
                b,
            ),
    ensures
        post.wf_basic(),
        post.shape_ok(),
        forall|a: int, b: int|
            in_range(post.sz(), a, b) && !near(x, y, a, b) ==> post.cell_scored(a, b),
        forall|a: int, b: int|
            in_range(post.sz(), a, b) && cell_at(post.grid(), post.sz(), a, b) != 0
                ==> post.cell_scored(a, b),
{
    let sz = pre.sz();
    lemma_gidx_bound(sz, x, y);
    assert(same_but(pre.grid(), post.grid(), sz, x, y)) by {
        assert forall|a: int, b: int|
            in_range(sz, a, b) && !(a == x && b == y) implies cell_at(pre.grid(), sz, a, b)
                == cell_at(post.grid(), sz, a, b) by {
            lemma_gidx_bound(sz, a, b);
            if gidx(sz, a, b) == gidx(sz, x, y) {
                lemma_gidx_inj(sz, a, b, x, y);
            }
        }
    }
    let h = post.history@;
    let n = pre.history@.len();
    assert forall|i: int| 0 <= i < h.len() implies {
        let m = #[trigger] h[i];
        in_range(sz, m.0 as int, m.1 as int) && cell_at(post.grid(), sz, m.0 as int, m.1 as int)
            == m.2.to_int_spec()
    } by {
        assert(h[i] == pre.history@[i]);
        let m = pre.history@[i];
        assert(cell_at(pre.grid(), sz, m.0 as int, m.1 as int) == m.2.to_int_spec());
        assert(!(pre.history@[i].0 == pre.history@[n - 1].0 && pre.history@[i].1 == pre.history@[n
            - 1].1));
        lemma_gidx_bound(sz, m.0 as int, m.1 as int);
        if gidx(sz, m.0 as int, m.1 as int) == gidx(sz, x, y) {
            lemma_gidx_inj(sz, m.0 as int, m.1 as int, x, y);
        }
    }
    assert forall|i: int, j: int| 0 <= i < j < h.len() implies !((#[trigger] h[i]).0 == (
    #[trigger] h[j]).0 && h[i].1 == h[j].1) by {
        assert(h[i] == pre.history@[i] && h[j] == pre.history@[j]);
    }
    assert forall|a: int, b: int|
        in_range(sz, a, b) && cell_at(post.grid(), sz, a, b) != 0 implies exists|i: int|
        0 <= i < h.len() && (#[trigger] h[i]).0 as int == a && h[i].1 as int == b by {
        lemma_gidx_bound(sz, a, b);
        assert(!(a == x && b == y)) by {
            if a == x && b == y {
                assert(cell_at(post.grid(), sz, x, y) == 0);
            }
        }
        if gidx(sz, a, b) == gidx(sz, x, y) {
            lemma_gidx_inj(sz, a, b, x, y);
        }
        assert(cell_at(pre.grid(), sz, a, b) == cell_at(post.grid(), sz, a, b));
        let i = choose|i: int|
            0 <= i < pre.history@.len() && (#[trigger] pre.history@[i]).0 as int == a
                && pre.history@[i].1 as int == b;
        assert(i != n - 1);
        assert(h[i] == pre.history@[i]);
        assert(0 <= i < h.len() && h[i].0 as int == a && h[i].1 as int == b);
    }
    assert(post.history_ok());
    lemma_shape_ok_after_marks(pre, post, x, y);
    assert forall|a: int, b: int|
        in_range(sz, a, b) && !near(x, y, a, b) implies post.cell_scored(a, b) by {
        assert(pre.cell_scored(a, b));
        lemma_gidx_bound(sz, a, b);
        if a == x && b == y {
            lemma_near_self(x, y);
        }
        assert(cell_at(pre.grid(), sz, a, b) == cell_at(post.grid(), sz, a, b));
        crate::patterns::lemma_cell_local(pre.grid(), post.grid(), sz, -1, x, y, a, b);
        crate::patterns::lemma_cell_local(pre.grid(), post.grid(), sz, 1, x, y, a, b);
    }
    assert forall|a: int, b: int|
        in_range(sz, a, b) && cell_at(post.grid(), sz, a, b) != 0 implies post.cell_scored(
        a,
        b,
    ) by {
        lemma_gidx_bound(sz, a, b);
        assert(!(a == x && b == y)) by {
            if a == x && b == y {
                assert(cell_at(post.grid(), sz, x, y) == 0);
            }
        }
        if gidx(sz, a, b) == gidx(sz, x, y) {
            lemma_gidx_inj(sz, a, b, x, y);
        }
        assert(cell_at(pre.grid(), sz, a, b) == cell_at(post.grid(), sz, a, b));
        assert(pre.cell_scored(a, b));
    }
}

impl Board {
    /// A fresh `size` by `size` board: empty grid, empty history, zero
    /// fingerprint, and score matrices already faithful to the empty grid.
    pub fn new(size: usize) -> (r: Board)
        requires
            1 <= size <= 1024,
        ensures
            r.wf(),
            r.sz() == size,
            r.spec_history() == Seq::<(usize, usize, Role)>::empty(),
            r.fingerprint() == 0,
            forall|a: int, b: int|
                in_range(size as int, a, b) ==> cell_at(r.grid(), size as int, a, b) == 0,
    {
        proof {
            assert((size as int) * (size as int) <= 1024 * 1024) by (nonlinear_arith)
                requires
                    size <= 1024,
            ;
        }
        let n = size * size;
        let mut board: Vec<i32> = Vec::new();
        let mut black_scores: Vec<i64> = Vec::new();
        let mut white_scores: Vec<i64> = Vec::new();
        let mut i: usize = 0;
        while i < n
            invariant
                i <= n,
                board@.len() == i,
                black_scores@.len() == i,
                white_scores@.len() == i,
                forall|j: int| 0 <= j < i ==> board@[j] == 0i32,
                forall|j: int| 0 <= j < i ==> black_scores@[j] == 0i64,
                forall|j: int| 0 <= j < i ==> white_scores@[j] == 0i64,
            decreases n - i,
        {
            board.push(0);
            black_scores.push(0);
            white_scores.push(0);
            i = i + 1;
        }
        let mut b = Board {
            size,
            board,
            history: Vec::new(),
            zorbist_cache: ZobristCache::new(size),
            winner_cache: Cache::new(CacheConfig::default()),
            evaluate_cache: Cache::new(CacheConfig::default()),
            valuable_moves_cache: Cache::new(CacheConfig::default()),
            black_scores,
            white_scores,
            patterns: build_pattern_table(),
            shape_cache: ShapeCache::new(size),
        };
        proof {
            assert forall|a: int, b2: int| in_range(b.sz(), a, b2) implies cell_at(
                b.grid(),
                b.sz(),
                a,
                b2,
            ) == 0 by {
                lemma_gidx_bound(b.sz(), a, b2);
            }
            assert(b.wf_basic());
            assert(b.shape_ok());
        }
        let mut x: usize = 0;
        while x < size
            invariant
                x <= size,
                size == b.size,
                b.wf_basic(),
                b.shape_ok(),
                b.spec_history() == Seq::<(usize, usize, Role)>::empty(),
                b.fingerprint() == 0,
                b.evaluate_cache.smap() == Map::<u64, EvalEntry>::empty(),
                b.valuable_moves_cache.smap() == Map::<u64, MovesEntry>::empty(),
                forall|a: int, b2: int|
                    in_range(b.sz(), a, b2) ==> cell_at(b.grid(), b.sz(), a, b2) == 0,
                forall|a: int, b2: int|
                    in_range(b.sz(), a, b2) && a < x ==> b.cell_scored(a, b2),
            decreases size - x,
        {
            let mut y: usize = 0;
            while y < size
                invariant
                    x < size,
                    y <= size,
                    size == b.size,
                    b.wf_basic(),
                    b.shape_ok(),
                    b.spec_history() == Seq::<(usize, usize, Role)>::empty(),
                    b.fingerprint() == 0,
                    b.evaluate_cache.smap() == Map::<u64, EvalEntry>::empty(),
                    b.valuable_moves_cache.smap() == Map::<u64, MovesEntry>::empty(),
                    forall|a: int, b2: int|
                        in_range(b.sz(), a, b2) ==> cell_at(b.grid(), b.sz(), a, b2) == 0,
                    forall|a: int, b2: int|
                        in_range(b.sz(), a, b2) && a < x ==> b.cell_scored(a, b2),
                    forall|b2: int| 0 <= b2 < y ==> b.cell_scored(x as int, b2),
                decreases size - y,
            {
                let ghost before = b;
                b.calc_point_inner(x, y);
                proof {
                    lemma_scored_preserved(before, b, x as int, y as int);
                }
                y = y + 1;
            }
            x = x + 1;
        }
        proof {
            assert(b.scores_ok());
            assert(b.eval_cache_ok());
            assert(b.moves_cache_ok());
        }
        b
    }

    /// The board's side length.
    pub fn side(&self) -> (r: usize)
        ensures
            r as int == self.sz(),
    {
        self.size
    }

    /// How many moves the history holds.
    pub fn history_len(&self) -> (r: usize)
        ensures
            r == self.spec_history().len(),
    {
        self.history.len()
    }

    /// The current position fingerprint.
    pub fn hash(&self) -> (r: u64)
        ensures
            r == self.fingerprint(),
    {
        self.zorbist_cache.get_hash()
    }

    /// The stored aggregate score of `role` at (x, y).
    pub fn get_role_score(&self, role: Role, x: usize, y: usize) -> (r: i64)
        requires
            self.wf_basic(),
            (x as int) < self.sz(),
            (y as int) < self.sz(),
        ensures
            r == self.scores_of(role)[gidx(self.sz(), x as int, y as int)],
            self.wf() ==> r as int == stored_cell_spec(
                self.grid(),
                self.sz(),
                role.to_int_spec(),
                x as int,
                y as int,
            ),
    {
        proof {
            if self.wf() {
                assert(self.cell_scored(x as int, y as int));
            }
        }
        let i = self.grid_index(x, y);
        match role {
            Role::Black => self.black_scores[i],
            Role::White => self.white_scores[i],
        }
    }

    /// Override the stored aggregate score of `role` at (x, y). This is a
    /// diagnostic hook: it deliberately detaches the score matrix from the
    /// grid, so afterwards only the structural invariant still holds and
    /// only the move generator remains callable.
    pub fn set_role_score(&mut self, role: Role, x: usize, y: usize, v: i64)
        requires
            old(self).wf_basic(),
            (x as int) < old(self).sz(),
            (y as int) < old(self).sz(),
        ensures
            final(self).wf_basic(),
            final(self).sz() == old(self).sz(),
            final(self).grid() == old(self).grid(),
            final(self).spec_history() == old(self).spec_history(),
            final(self).fingerprint() == old(self).fingerprint(),
            final(self).scores_of(role) == old(self).scores_of(role).update(
                gidx(old(self).sz(), x as int, y as int),
                v,
            ),
            final(self).scores_of(role.opponent_spec()) == old(self).scores_of(
                role.opponent_spec(),
            ),
    {
        let ghost pre = *self;
        let i = self.grid_index(x, y);
        match role {
            Role::Black => self.black_scores.set(i, v),
            Role::White => self.white_scores.set(i, v),
        }
        proof {
            lemma_history_transfer(pre, *self);
        }
    }
}

/// Whether the grid has no empty cell left.
pub open spec fn board_full(g: Seq<i32>, size: int) -> bool {
    forall|a: int, b: int| in_range(size, a, b) ==> cell_at(g, size, a, b) != 0
}

/// A five starts on its own first cell.
proof fn lemma_five_from_start(g: Seq<i32>, size: int, rv: int, x: int, y: int, d: int)
    requires
        five_from(g, size, rv, x, y, d),
    ensures
        cell_at(g, size, x, y) == rv,
{
    assert(0 * dir_dx(d) == 0 && 0 * dir_dy(d) == 0) by (nonlinear_arith);
    assert(cell_at(g, size, x + 0 * dir_dx(d), y + 0 * dir_dy(d)) == rv);
}

/// `wf` carries over to a board that differs only in its memo caches,
/// provided the new caches are structurally sound and content-faithful.
proof fn lemma_wf_caches_only(pre: Board, post: Board)
    requires
        pre.wf(),
        post.size == pre.size,
        post.board == pre.board,
        post.history == pre.history,
        post.zorbist_cache == pre.zorbist_cache,
        post.black_scores == pre.black_scores,
        post.white_scores == pre.white_scores,
        post.patterns == pre.patterns,
        post.shape_cache == pre.shape_cache,
        post.winner_cache.wf(),
        post.evaluate_cache.wf(),
        post.valuable_moves_cache.wf(),
        post.eval_cache_ok(),
        post.moves_cache_ok(),
    ensures
        post.wf(),
{
    lemma_history_transfer(pre, post);
    assert forall|s: int, d: int, a: int, b: int|
        0 <= s < 2 && 0 <= d < 4 && in_range(post.sz(), a, b) && !post.shape_cache.is_dirty(
            s,
            d,
            a,
            b,
        ) implies #[trigger] post.shape_cache.entry(s, d, a, b) == (
        shape_id_of(dir_best(post.grid(), post.sz(), slot_role_val(s), a, b, d).0),
        dir_sum(post.grid(), post.sz(), slot_role_val(s), a, b, d) as i64,
    ) by {
        assert(!pre.shape_cache.is_dirty(s, d, a, b));
        assert(pre.shape_cache.entry(s, d, a, b) == (
            shape_id_of(dir_best(pre.grid(), pre.sz(), slot_role_val(s), a, b, d).0),
            dir_sum(pre.grid(), pre.sz(), slot_role_val(s), a, b, d) as i64,
        ));
    }
    assert forall|a: int, b: int| in_range(post.sz(), a, b) implies post.cell_scored(a, b) by {
        assert(pre.cell_scored(a, b));
    }
}

impl Board {
    /// Whether five cells of value `v` run from (x, y) along direction `d`.
    fn verify_five(&self, x: usize, y: usize, d: usize, v: i32) -> (r: bool)
        requires
            self.wf_basic(),
            d < 4,
            v == 1 || v == -1,
        ensures
            r == five_from(self.grid(), self.sz(), v as int, x as int, y as int, d as int),
    {
        if x >= self.size || y >= self.size {
            proof {
                if five_from(self.grid(), self.sz(), v as int, x as int, y as int, d as int) {
                    lemma_five_from_start(
                        self.grid(),
                        self.sz(),
                        v as int,
                        x as int,
                        y as int,
                        d as int,
                    );
                }
            }
            return false;
        }
        let (dxv, dyv) = dir_step(d);
        let mut k: usize = 0;
        while k < 5
            invariant
                self.wf_basic(),
                x < self.size,
                y < self.size,
                d < 4,
                k <= 5,
                dxv as int == dir_dx(d as int),
                dyv as int == dir_dy(d as int),
                forall|k2: int|
                    0 <= k2 < k ==> cell_at(
                        self.grid(),
                        self.sz(),
                        (x as int) + #[trigger] (k2 * dir_dx(d as int)),
                        (y as int) + k2 * dir_dy(d as int),
                    ) == v as int,
            decreases 5 - k,
        {
            proof {
                assert(-5 <= (k as int) * dir_dx(d as int) <= 5 && -5 <= (k as int) * dir_dy(
                    d as int,
                ) <= 5) by (nonlinear_arith)
                    requires
                        0 <= k <= 5,
                        -1 <= dir_dx(d as int) <= 1,
                        -1 <= dir_dy(d as int) <= 1,
                ;
            }
            let cx: i64 = x as i64 + (k as i64) * dxv;
            let cy: i64 = y as i64 + (k as i64) * dyv;
            if self.cell(cx, cy) != v {
                return false;
            }
            k = k + 1;
        }
        true
    }

    /// The winner of the position: 1 when white holds a five in a row, -1
    /// when black does, 0 when neither does. When both sides hold one (a
    /// position no real game reaches, though placement allows it), the scan
    /// reports the first it finds. Memoized per fingerprint; a hit is
    /// replayed against the live grid before it is trusted, so a
    /// fingerprint collision can never misreport a winner.
    pub fn get_winner(&mut self) -> (r: i32)
        requires
            old(self).wf(),
        ensures
            final(self).wf(),
            pos_eq(*final(self), *old(self)),
            r == 1 || r == 0 || r == -1,
            r != 0 ==> has_five(old(self).grid(), old(self).sz(), r as int),
            r == 0 ==> !has_five(old(self).grid(), old(self).sz(), 1) && !has_five(
                old(self).grid(),
                old(self).sz(),
                -1,
            ),
            has_five(old(self).grid(), old(self).sz(), 1) && !has_five(
                old(self).grid(),
                old(self).sz(),
                -1,
            ) ==> r == 1,
            has_five(old(self).grid(), old(self).sz(), -1) && !has_five(
                old(self).grid(),
                old(self).sz(),
                1,
            ) ==> r == -1,
    {
        let ghost pre = *self;
        let h = self.hash();
        let mut cached: Option<WinnerEntry> = None;
        match self.winner_cache.get(&h) {
            Some(e) => {
                cached = Some(
                    WinnerEntry { winner: e.winner, x: e.x, y: e.y, dir: e.dir },
                );
            },
            None => {},
        }
        match cached {
            Some(e) => {
                if (e.winner == 1 || e.winner == -1) && e.dir < 4 && self.verify_five(
                    e.x,
                    e.y,
                    e.dir,
                    e.winner,
                ) {
                    return e.winner;
                }
            },
            None => {},
        }
        let size = self.size;
        let mut i: usize = 0;
        while i < size
            invariant
                i <= size,
                size == self.size,
                self.wf(),
                *self == pre,
                pre == *old(self),
                h == self.fingerprint(),
                forall|a: int, b: int, d: int|
                    0 <= d < 4 && in_range(self.sz(), a, b) && a < i && cell_at(
                        self.grid(),
                        self.sz(),
                        a,
                        b,
                    ) != 0 ==> !five_from(
                        self.grid(),
                        self.sz(),
                        cell_at(self.grid(), self.sz(), a, b),
                        a,
                        b,
                        d,
                    ),
            decreases size - i,
        {
            let mut j: usize = 0;
            while j < size
                invariant
                    i < size,
                    j <= size,
                    size == self.size,
                    self.wf(),
                    *self == pre,
                    pre == *old(self),
                pre == *old(self),
                    h == self.fingerprint(),
                    forall|a: int, b: int, d: int|
                        0 <= d < 4 && in_range(self.sz(), a, b) && a < i && cell_at(
                            self.grid(),
                            self.sz(),
                            a,
                            b,
                        ) != 0 ==> !five_from(
                            self.grid(),
                            self.sz(),
                            cell_at(self.grid(), self.sz(), a, b),
                            a,
                            b,
                            d,
                        ),
                    forall|b: int, d: int|
                        0 <= d < 4 && in_range(self.sz(), i as int, b) && b < j && cell_at(
                            self.grid(),
                            self.sz(),
                            i as int,
                            b,
                        ) != 0 ==> !five_from(
                            self.grid(),
                            self.sz(),
                            cell_at(self.grid(), self.sz(), i as int, b),
                            i as int,
                            b,
                            d,
                        ),
                decreases size - j,
            {
                let c = self.get_cell(i, j);
                if c != 0 {
                    let mut d: usize = 0;
                    while d < 4
                        invariant
                            i < size,
                            j < size,
                            d <= 4,
                            size == self.size,
                            self.wf(),
                            *self == pre,
                            pre == *old(self),
                    pre == *old(self),
                pre == *old(self),
                            h == self.fingerprint(),
                            c as int == cell_at(self.grid(), self.sz(), i as int, j as int),
                            c == 1 || c == -1,
                            forall|d2: int|
                                0 <= d2 < d ==> !five_from(
                                    self.grid(),
                                    self.sz(),
                                    c as int,
                                    i as int,
                                    j as int,
                                    d2,
                                ),
                        decreases 4 - d,
                    {
                        if self.verify_five(i, j, d, c) {
                            let ghost mid = *self;
                            self.winner_cache.put(h, WinnerEntry { winner: c, x: i, y: j, dir: d });
                            proof {
                                lemma_wf_caches_only(mid, *self);
                                assert(has_five(pre.grid(), pre.sz(), c as int));
                            }
                            return c;
                        }
                        d = d + 1;
                    }
                }
                j = j + 1;
            }
            i = i + 1;
        }
        proof {
            assert forall|rv: int| rv == 1 || rv == -1 implies !has_five(
                self.grid(),
                self.sz(),
                rv,
            ) by {
                if has_five(self.grid(), self.sz(), rv) {
                    let (a, b, d) = choose|a: int, b: int, d: int|
                        0 <= d < 4 && #[trigger] five_from(self.grid(), self.sz(), rv, a, b, d);
                    lemma_five_from_start(self.grid(), self.sz(), rv, a, b, d);
                    assert(in_range(self.sz(), a, b));
                    assert(!five_from(
                        self.grid(),
                        self.sz(),
                        cell_at(self.grid(), self.sz(), a, b),
                        a,
                        b,
                        d,
                    ));
                }
            }
        }
        0
    }

    /// Whether the game is over: someone holds a five in a row, or no empty
    /// cell is left to play.
    pub fn is_game_over(&mut self) -> (r: bool)
        requires
            old(self).wf(),
        ensures
            final(self).wf(),
            pos_eq(*final(self), *old(self)),
            r == (has_five(old(self).grid(), old(self).sz(), 1) || has_five(
                old(self).grid(),
                old(self).sz(),
                -1,
            ) || board_full(old(self).grid(), old(self).sz())),
    {
        let ghost pre = *self;
        let w = self.get_winner();
        if w != 0 {
            return true;
        }
        let size = self.size;
        let mut i: usize = 0;
        while i < size
            invariant
                i <= size,
                size == self.size,
                self.wf(),
                pos_eq(*self, pre),
                pre == *old(self),
                w == 0,
                !has_five(old(self).grid(), old(self).sz(), 1),
                !has_five(old(self).grid(), old(self).sz(), -1),
                forall|a: int, b: int|
                    in_range(self.sz(), a, b) && a < i ==> cell_at(self.grid(), self.sz(), a, b)
                        != 0,
            decreases size - i,
        {
            let mut j: usize = 0;
            while j < size
                invariant
                    i < size,
                    j <= size,
                    size == self.size,
                    self.wf(),
                    pos_eq(*self, pre),
                    pre == *old(self),
                    w == 0,
                    !has_five(old(self).grid(), old(self).sz(), 1),
                    !has_five(old(self).grid(), old(self).sz(), -1),
                    forall|a: int, b: int|
                        in_range(self.sz(), a, b) && a < i ==> cell_at(self.grid(), self.sz(), a, b)
                            != 0,
                    forall|b: int|
                        in_range(self.sz(), i as int, b) && b < j ==> cell_at(
                            self.grid(),
                            self.sz(),
                            i as int,
                            b,
                        ) != 0,
                decreases size - j,
            {
                if self.get_cell(i, j) == 0 {
                    proof {
                        assert(cell_at(old(self).grid(), old(self).sz(), i as int, j as int) == 0);
                        assert(!board_full(old(self).grid(), old(self).sz()));
                        assert(w == 0);
                        assert(!has_five(old(self).grid(), old(self).sz(), 1));
                        assert(!has_five(old(self).grid(), old(self).sz(), -1));
                    }
                    return false;
                }
                j = j + 1;
            }
            i = i + 1;
        }
        true
    }
}

/// Largest magnitude a board evaluation can take: every cell at the top of
/// the per-cell score range.
pub const EVAL_LIMIT: i64 = 521666560000000;

/// Row sums of stored scores are nonnegative and bounded.
proof fn lemma_row_sum_bound(g: Seq<i32>, size: int, rv: int, x: int, n: int)
    requires
        0 <= n,
    ensures
        0 <= row_sum(g, size, rv, x, n) <= n * (CELL_SCORE_MAX as int),
    decreases n,
{
    if n > 0 {
        lemma_row_sum_bound(g, size, rv, x, n - 1);
        crate::patterns::lemma_cell_score_bound(g, size, rv, x, n - 1);
    }
}

/// Whole-board sums of stored scores are nonnegative and bounded.
proof fn lemma_rows_sum_bound(g: Seq<i32>, size: int, rv: int, n: int)
    requires
        0 <= n <= 1024,
        0 <= size <= 1024,
    ensures
        0 <= rows_sum(g, size, rv, n) <= n * 1024 * (CELL_SCORE_MAX as int),
    decreases n,
{
    if n > 0 {
        lemma_rows_sum_bound(g, size, rv, n - 1);
        lemma_row_sum_bound(g, size, rv, n - 1, size);
        assert(row_sum(g, size, rv, n - 1, size) <= 1024 * (CELL_SCORE_MAX as int))
            by (nonlinear_arith)
            requires
                row_sum(g, size, rv, n - 1, size) <= size * (CELL_SCORE_MAX as int),
                0 <= size <= 1024,
        ;
    }
}

/// The evaluation of any grid stays within `EVAL_LIMIT`.
pub proof fn lemma_eval_bound(g: Seq<i32>, size: int, role: Role)
    requires
        0 <= size <= 1024,
    ensures
        -(EVAL_LIMIT as int) <= eval_of_grid(g, size, role) <= EVAL_LIMIT as int,
{
    lemma_rows_sum_bound(g, size, 1, size);
    lemma_rows_sum_bound(g, size, -1, size);
    assert(size * 1024 * (CELL_SCORE_MAX as int) <= EVAL_LIMIT as int) by (nonlinear_arith)
        requires
            0 <= size <= 1024,
    ;
}

/// Copies a grid snapshot.
fn copy_grid(v: &Vec<i32>) -> (r: Vec<i32>)
    ensures
        r@ == v@,
{
    let mut r: Vec<i32> = Vec::new();
    let mut i: usize = 0;
    while i < v.len()
        invariant
            i <= v@.len(),
            r@.len() == i,
            forall|j: int| 0 <= j < i ==> r@[j] == v@[j],
        decreases v@.len() - i,
    {
        r.push(v[i]);
        i = i + 1;
    }
    proof {
        assert(r@ =~= v@);
    }
    r
}

/// Whether two grid snapshots are identical.
fn grids_equal(a: &Vec<i32>, b: &Vec<i32>) -> (r: bool)
    ensures
        r == (a@ == b@),
{
    if a.len() != b.len() {
        proof {
            assert(a@ != b@);
        }
        return false;
    }
    let mut i: usize = 0;
    while i < a.len()
        invariant
            a@.len() == b@.len(),
            i <= a@.len(),
            forall|j: int| 0 <= j < i ==> a@[j] == b@[j],
        decreases a@.len() - i,
    {
        if a[i] != b[i] {
            proof {
                assert(a@[i as int] != b@[i as int]);
            }
            return false;
        }
        i = i + 1;
    }
    proof {
        assert(a@ =~= b@);
    }
    true
}

impl Board {
    /// The difference between the two roles' total stored scores, signed
    /// for `role`.
    fn evaluate_internal(&self, role: Role) -> (r: i64)
        requires
            self.wf(),
        ensures
            r as int == eval_of_grid(self.grid(), self.sz(), role),
            -EVAL_LIMIT <= r <= EVAL_LIMIT,
    {
        let ghost g = self.grid();
        let ghost sz = self.sz();
        let size = self.size;
        let mut bt: i64 = 0;
        let mut wt: i64 = 0;
        let mut x: usize = 0;
        while x < size
            invariant
                x <= size,
                size == self.size,
                self.wf(),
                g == self.grid(),
                sz == self.sz(),
                bt as int == rows_sum(g, sz, -1, x as int),
                wt as int == rows_sum(g, sz, 1, x as int),
                0 <= bt as int <= (x as int) * 1024 * (CELL_SCORE_MAX as int),
                0 <= wt as int <= (x as int) * 1024 * (CELL_SCORE_MAX as int),
            decreases size - x,
        {
            let mut rb: i64 = 0;
            let mut rw: i64 = 0;
            let mut y: usize = 0;
            while y < size
                invariant
                    x < size,
                    y <= size,
                    size == self.size,
                    self.wf(),
                    g == self.grid(),
                    sz == self.sz(),
                    rb as int == row_sum(g, sz, -1, x as int, y as int),
                    rw as int == row_sum(g, sz, 1, x as int, y as int),
                    0 <= rb as int <= (y as int) * (CELL_SCORE_MAX as int),
                    0 <= rw as int <= (y as int) * (CELL_SCORE_MAX as int),
                decreases size - y,
            {
                proof {
                    assert(self.cell_scored(x as int, y as int));
                    crate::patterns::lemma_cell_score_bound(g, sz, -1, x as int, y as int);
                    crate::patterns::lemma_cell_score_bound(g, sz, 1, x as int, y as int);
                }
                let i = self.grid_index(x, y);
                rb = rb + self.black_scores[i];
                rw = rw + self.white_scores[i];
                y = y + 1;
            }
            proof {
                lemma_rows_sum_bound(g, sz, -1, x as int);
                lemma_rows_sum_bound(g, sz, 1, x as int);
                lemma_row_sum_bound(g, sz, -1, x as int, sz);
                lemma_row_sum_bound(g, sz, 1, x as int, sz);
                assert((x as int) * 1024 * (CELL_SCORE_MAX as int) + 1024 * (CELL_SCORE_MAX as int)
                    == ((x as int) + 1) * 1024 * (CELL_SCORE_MAX as int) && row_sum(
                    g,
                    sz,
                    -1,
                    x as int,
                    sz,
                ) <= 1024 * (CELL_SCORE_MAX as int) && row_sum(g, sz, 1, x as int, sz) <= 1024 * (
                CELL_SCORE_MAX as int)) by (nonlinear_arith)
                    requires
                        row_sum(g, sz, -1, x as int, sz) <= sz * (CELL_SCORE_MAX as int),
                        row_sum(g, sz, 1, x as int, sz) <= sz * (CELL_SCORE_MAX as int),
                        0 <= sz <= 1024,
                ;
            }
            bt = bt + rb;
            wt = wt + rw;
            x = x + 1;
        }
        proof {
            lemma_eval_bound(g, sz, role);
            assert((size as int) * 1024 * (CELL_SCORE_MAX as int) <= EVAL_LIMIT as int)
                by (nonlinear_arith)
                requires
                    0 <= size <= 1024,
            ;
        }
        if role == Role::Black {
            bt - wt
        } else {
            wt - bt
        }
    }

    /// The board evaluation for `role`: the winner's extremal sentinel when
    /// the position is won, otherwise the difference between the two roles'
    /// total scores. Memoized per fingerprint; a hit is accepted only when
    /// the stored grid matches the live one, so a fingerprint collision can
    /// never hand back a foreign position's value.
    pub fn evaluate(&mut self, role: Role) -> (r: i64)
        requires
            old(self).wf(),
        ensures
            final(self).wf(),
            pos_eq(*final(self), *old(self)),
            -EVAL_LIMIT <= r <= EVAL_LIMIT,
            ({
                let g = old(self).grid();
                let sz = old(self).sz();
                let rv = role.to_int_spec();
                &&& (has_five(g, sz, rv) && !has_five(g, sz, -rv)) ==> r == 10000000
                &&& (has_five(g, sz, -rv) && !has_five(g, sz, rv)) ==> r == -10000000
                &&& (has_five(g, sz, rv) && has_five(g, sz, -rv)) ==> (r == 10000000 || r
                    == -10000000)
                &&& (!has_five(g, sz, rv) && !has_five(g, sz, -rv)) ==> r as int == eval_of_grid(
                    g,
                    sz,
                    role,
                )
            }),
    {
        let ghost pre = *self;
        let h = self.hash();
        let mut hit: Option<i64> = None;
        match self.evaluate_cache.get(&h) {
            Some(e) => {
                if e.role == role && grids_equal(&e.grid, &self.board) {
                    proof {
                        assert(self.evaluate_cache.smap().contains_key(h));
                        assert(eval_entry_ok(self.evaluate_cache.smap()[h], self.sz()));
                    }
                    hit = Some(e.score);
                }
            },
            None => {},
        }
        match hit {
            Some(sc) => {
                proof {
                    lemma_eval_bound(self.grid(), self.sz(), role);
                }
                return sc;
            },
            None => {},
        }
        let winner = self.get_winner();
        let rv = role.to_int();
        if winner == rv {
            return 10000000;
        }
        if winner == -rv {
            return -10000000;
        }
        let score = self.evaluate_internal(role);
        let snapshot = copy_grid(&self.board);
        let ghost mid = *self;
        self.evaluate_cache.put(h, EvalEntry { grid: snapshot, role, score });
        proof {
            assert forall|k: u64|
                #[trigger] self.evaluate_cache.smap().contains_key(k) implies eval_entry_ok(
                self.evaluate_cache.smap()[k],
                self.sz(),
            ) by {
                if k == h {
                    if mid.evaluate_cache.spec_enabled() {
                        assert(self.evaluate_cache.smap()[k].grid@ == mid.grid());
                    } else {
                        assert(mid.evaluate_cache.smap().contains_key(k));
                        assert(self.evaluate_cache.smap()[k] == mid.evaluate_cache.smap()[k]);
                    }
                } else {
                    assert(mid.evaluate_cache.smap().contains_key(k));
                    assert(self.evaluate_cache.smap()[k] == mid.evaluate_cache.smap()[k]);
                }
            }
            lemma_wf_caches_only(mid, *self);
        }
        score
    }
}

impl Board {
    /// The larger of the two stored scores at a cell.
    pub closed spec fn stored_combined(self, a: int, b: int) -> int {
        let bs = self.black_scores@[gidx(self.sz(), a, b)] as int;
        let ws = self.white_scores@[gidx(self.sz(), a, b)] as int;
        if bs >= ws {
            bs
        } else {
            ws
        }
    }

    /// Whether a cell passes the move filters against the stored scores.
    pub closed spec fn stored_pass(self, o3: bool, o4: bool, a: int, b: int) -> bool {
        &&& cell_at(self.grid(), self.sz(), a, b) == 0
        &&& (o4 ==> self.stored_combined(a, b) >= 1000000)
        &&& (o3 ==> self.stored_combined(a, b) >= 250000)
    }

    /// The move ordering: larger stored combined score first, position
    /// breaking ties, so the list is a single deterministic sequence.
    pub closed spec fn sbefore(self, m1: (usize, usize), m2: (usize, usize)) -> bool {
        ||| self.stored_combined(m1.0 as int, m1.1 as int) > self.stored_combined(
            m2.0 as int,
            m2.1 as int,
        )
        ||| (self.stored_combined(m1.0 as int, m1.1 as int) == self.stored_combined(
            m2.0 as int,
            m2.1 as int,
        ) && gidx(self.sz(), m1.0 as int, m1.1 as int) < gidx(self.sz(), m2.0 as int, m2.1 as int))
    }

    /// Whether `ms` is exactly the move list that the stored scores and the
    /// filters demand: all passing cells, each once, in order.
    pub closed spec fn stored_moves_props(self, o3: bool, o4: bool, ms: Seq<(usize, usize)>) -> bool {
        &&& forall|i: int|
            0 <= i < ms.len() ==> in_range(self.sz(), (#[trigger] ms[i]).0 as int, ms[i].1 as int)
                && self.stored_pass(o3, o4, ms[i].0 as int, ms[i].1 as int)
        &&& forall|a: usize, b: usize|
            (a as int) < self.sz() && (b as int) < self.sz() && self.stored_pass(
                o3,
                o4,
                a as int,
                b as int,
            ) ==> ms.contains((a, b))
        &&& forall|i: int, j: int| 0 <= i < j < ms.len() ==> ms[i] != ms[j]
        &&& forall|i: int, j: int| 0 <= i < j < ms.len() ==> self.sbefore(#[trigger] ms[i], #[trigger] ms[j])
    }

    /// The combined stored score of (x, y), as the move generator reads it.
    fn combined_at(&self, x: usize, y: usize) -> (r: i64)
        requires
            self.wf_basic(),
            (x as int) < self.sz(),
            (y as int) < self.sz(),
        ensures
            r as int == self.stored_combined(x as int, y as int),
    {
        let i = self.grid_index(x, y);
        let bs = self.black_scores[i];
        let ws = self.white_scores[i];
        if bs >= ws {
            bs
        } else {
            ws
        }
    }

    /// Inserts the cell (x, y) at its place in the ordered list. Every cell
    /// already listed sits at a smaller grid position.
    fn insert_sorted(&self, out: &mut Vec<(usize, usize)>, x: usize, y: usize)
        requires
            self.wf_basic(),
            (x as int) < self.sz(),
            (y as int) < self.sz(),
            forall|i: int|
                0 <= i < old(out)@.len() ==> in_range(
                    self.sz(),
                    (#[trigger] old(out)@[i]).0 as int,
                    old(out)@[i].1 as int,
                ) && gidx(self.sz(), old(out)@[i].0 as int, old(out)@[i].1 as int) < gidx(
                    self.sz(),
                    x as int,
                    y as int,
                ),
            forall|i: int, j: int|
                0 <= i < j < old(out)@.len() ==> self.sbefore(
                    #[trigger] old(out)@[i],
                    #[trigger] old(out)@[j],
                ),
        ensures
            final(out)@.len() == old(out)@.len() + 1,
            final(out)@.contains((x, y)),
            forall|m: (usize, usize)| old(out)@.contains(m) ==> final(out)@.contains(m),
            forall|m: (usize, usize)|
                final(out)@.contains(m) ==> old(out)@.contains(m) || m == (x, y),
            forall|i: int, j: int|
                0 <= i < j < final(out)@.len() ==> self.sbefore(
                    #[trigger] final(out)@[i],
                    #[trigger] final(out)@[j],
                ),
    {
        let e = (x, y);
        let ce = self.combined_at(x, y);
        let n = out.len();
        let mut p: usize = 0;
        let mut found = false;
        while p < n && !found
            invariant
                p <= n,
                n == out@.len(),
                (x as int) < self.sz(),
                (y as int) < self.sz(),
                self.wf_basic(),
                e == (x, y),
                ce as int == self.stored_combined(x as int, y as int),
                forall|i: int|
                    0 <= i < out@.len() ==> in_range(
                        self.sz(),
                        (#[trigger] out@[i]).0 as int,
                        out@[i].1 as int,
                    ) && gidx(self.sz(), out@[i].0 as int, out@[i].1 as int) < gidx(
                        self.sz(),
                        x as int,
                        y as int,
                    ),
                forall|i: int, j: int|
                    0 <= i < j < out@.len() ==> self.sbefore(#[trigger] out@[i], #[trigger] out@[j]),
                forall|i: int| 0 <= i < p ==> self.sbefore(#[trigger] out@[i], e),
                found ==> p < n && self.sbefore(e, out@[p as int]),
            decreases n - p + (if found { 0int } else { 1int }),
        {
            let m = out[p];
            let cm = self.combined_at(m.0, m.1);
            if cm >= ce {
                proof {
                    assert(self.sbefore(out@[p as int], e));
                }
                p = p + 1;
            } else {
                found = true;
                proof {
                    assert(self.sbefore(e, out@[p as int]));
                }
            }
        }
        let ghost pre = out@;
        out.insert(p, e);
        proof {
            pre.insert_ensures(p as int, e);
            assert forall|m: (usize, usize)| pre.contains(m) implies out@.contains(m) by {
                let i = choose|i: int| 0 <= i < pre.len() && pre[i] == m;
                if i < p {
                    assert(out@[i] == m);
                } else {
                    assert(out@[i + 1] == m);
                }
            }
            assert forall|m: (usize, usize)| out@.contains(m) implies pre.contains(m) || m == (
                x,
                y,
            ) by {
                let i = choose|i: int| 0 <= i < out@.len() && out@[i] == m;
                if i < p {
                    assert(pre[i] == m);
                } else if i > p {
                    assert(pre[i - 1] == m);
                }
            }
            assert(out@[p as int] == e);
            assert(out@.contains((x, y)));
            assert forall|i: int, j: int| 0 <= i < j < out@.len() implies self.sbefore(
                #[trigger] out@[i],
                #[trigger] out@[j],
            ) by {
                if j < p {
                    assert(out@[i] == pre[i] && out@[j] == pre[j]);
                } else if i > p {
                    assert(out@[i] == pre[i - 1] && out@[j] == pre[j - 1]);
                } else if i < p && j == p {
                    assert(out@[i] == pre[i]);
                    assert(self.sbefore(pre[i], e));
                } else if i < p && j > p {
                    assert(out@[i] == pre[i] && out@[j] == pre[j - 1]);
                } else {
                    assert(i == p && j > p);
                    assert(out@[j] == pre[j - 1]);
                    assert(j - 1 >= p);
                    assert(p < pre.len());
                    assert(found);
                    assert(self.sbefore(e, pre[p as int]));
                    if j - 1 > p {
                        assert(self.sbefore(pre[p as int], pre[j - 1]));
                    }
                }
            }
        }
    }

    /// Generates the candidate moves for `role`: every empty cell,
    /// annotated with the larger of the two sides' stored scores there;
    /// under `only_four` (`only_three`) only cells where either side
    /// reaches the four (three) threshold; ordered by that score
    /// descending, ties broken by grid position ascending. The `depth`
    /// parameter does not change the list; it only keys the memo of
    /// `get_valuable_moves`.
    pub fn get_moves(&self, role: Role, depth: i32, only_three: bool, only_four: bool) -> (r: Vec<
        (usize, usize),
    >)
        requires
            self.wf_basic(),
        ensures
            self.stored_moves_props(only_three, only_four, r@),
            self.wf() ==> moves_props(self.grid(), self.sz(), only_three, only_four, r@),
    {
        let size = self.size;
        let mut out: Vec<(usize, usize)> = Vec::new();
        let mut x: usize = 0;
        while x < size
            invariant
                x <= size,
                size == self.size,
                self.wf_basic(),
                forall|i: int|
                    0 <= i < out@.len() ==> in_range(
                        self.sz(),
                        (#[trigger] out@[i]).0 as int,
                        out@[i].1 as int,
                    ) && self.stored_pass(only_three, only_four, out@[i].0 as int, out@[i].1 as int)
                        && gidx(self.sz(), out@[i].0 as int, out@[i].1 as int) < gidx(
                        self.sz(),
                        x as int,
                        0,
                    ),
                forall|a: usize, b: usize|
                    (a as int) < x as int && (b as int) < self.sz() && self.stored_pass(
                        only_three,
                        only_four,
                        a as int,
                        b as int,
                    ) ==> out@.contains((a, b)),
                forall|i: int, j: int|
                    0 <= i < j < out@.len() ==> self.sbefore(#[trigger] out@[i], #[trigger] out@[j]),
            decreases size - x,
        {
            let mut y: usize = 0;
            while y < size
                invariant
                    x < size,
                    y <= size,
                    size == self.size,
                    self.wf_basic(),
                    forall|i: int|
                        0 <= i < out@.len() ==> in_range(
                            self.sz(),
                            (#[trigger] out@[i]).0 as int,
                            out@[i].1 as int,
                        ) && self.stored_pass(
                            only_three,
                            only_four,
                            out@[i].0 as int,
                            out@[i].1 as int,
                        ) && gidx(self.sz(), out@[i].0 as int, out@[i].1 as int) < gidx(
                            self.sz(),
                            x as int,
                            y as int,
                        ),
                    forall|a: usize, b: usize|
                        ((a as int) < x as int || (a as int == x as int && (b as int) < y as int))
                            && (a as int) < self.sz() && (b as int) < self.sz()
                            && self.stored_pass(only_three, only_four, a as int, b as int)
                            ==> out@.contains((a, b)),
                    forall|i: int, j: int|
                        0 <= i < j < out@.len() ==> self.sbefore(
                            #[trigger] out@[i],
                            #[trigger] out@[j],
                        ),
                decreases size - y,
            {
                proof {
                    lemma_gidx_bound(self.sz(), x as int, y as int);
                }
                let mut pass = self.get_cell(x, y) == 0;
                if pass && only_four {
                    pass = self.combined_at(x, y) >= 1000000;
                }
                if pass && only_three {
                    pass = self.combined_at(x, y) >= 250000;
                }
                proof {
                    assert(pass == self.stored_pass(only_three, only_four, x as int, y as int));
                }
                let ghost pre_out = out@;
                if pass {
                    self.insert_sorted(&mut out, x, y);
                }
                proof {
                    assert forall|i: int|
                        0 <= i < out@.len() implies in_range(
                        self.sz(),
                        (#[trigger] out@[i]).0 as int,
                        out@[i].1 as int,
                    ) && self.stored_pass(only_three, only_four, out@[i].0 as int, out@[i].1 as int)
                        && gidx(self.sz(), out@[i].0 as int, out@[i].1 as int) < gidx(
                        self.sz(),
                        x as int,
                        y as int + 1,
                    ) by {
                        let m = out@[i];
                        assert(out@.contains(m));
                        if pass {
                            if m == (x, y) {
                            } else {
                                assert(pre_out.contains(m));
                                let j = choose|j: int| 0 <= j < pre_out.len() && pre_out[j] == m;
                            }
                        }
                    }
                    assert forall|a: usize, b: usize|
                        ((a as int) < x as int || (a as int == x as int && (b as int) < y as int
                            + 1)) && (a as int) < self.sz() && (b as int) < self.sz()
                            && self.stored_pass(
                            only_three,
                            only_four,
                            a as int,
                            b as int,
                        ) implies out@.contains((a, b)) by {
                        if a as int == x as int && b as int == y as int {
                            assert(pass);
                        } else {
                            assert(pre_out.contains((a, b)));
                        }
                    }
                }
                y = y + 1;
            }
            proof {
                assert((x as int) * (size as int) + (size as int) == ((x as int) + 1) * (
                size as int)) by (nonlinear_arith);
                assert(gidx(self.sz(), x as int, size as int) == gidx(self.sz(), x as int + 1, 0));
            }
            x = x + 1;
        }
        proof {
            assert forall|i: int, j: int| 0 <= i < j < out@.len() implies out@[i] != out@[j] by {
                assert(self.sbefore(out@[i], out@[j]));
                if out@[i] == out@[j] {
                    assert(false);
                }
            }
            if self.wf() {
                lemma_moves_bridge(*self, only_three, only_four, out@);
            }
        }
        out
    }
}

/// Under full well-formedness, a list faithful to the stored scores is
/// faithful to the grid model: stored and modeled scores coincide on empty
/// cells.
proof fn lemma_moves_bridge(b: Board, o3: bool, o4: bool, ms: Seq<(usize, usize)>)
    requires
        b.wf(),
        b.stored_moves_props(o3, o4, ms),
    ensures
        moves_props(b.grid(), b.sz(), o3, o4, ms),
{
    let g = b.grid();
    let sz = b.sz();
    assert forall|a: int, b2: int|
        in_range(sz, a, b2) && cell_at(g, sz, a, b2) == 0 implies b.stored_combined(a, b2)
            == combined_score(g, sz, a, b2) by {
        assert(b.cell_scored(a, b2));
    }
    assert forall|i: int|
        0 <= i < ms.len() implies in_range(sz, (#[trigger] ms[i]).0 as int, ms[i].1 as int)
            && move_pass(g, sz, o3, o4, ms[i].0 as int, ms[i].1 as int) by {
        assert(b.stored_pass(o3, o4, ms[i].0 as int, ms[i].1 as int));
    }
    assert forall|a: usize, b2: usize|
        (a as int) < sz && (b2 as int) < sz && move_pass(
            g,
            sz,
            o3,
            o4,
            a as int,
            b2 as int,
        ) implies ms.contains((a, b2)) by {
        assert(b.stored_pass(o3, o4, a as int, b2 as int));
    }
    assert forall|i: int, j: int|
        0 <= i < j < ms.len() implies (combined_score(g, sz, (#[trigger] ms[i]).0 as int, ms[i].1 as int)
            > combined_score(g, sz, (#[trigger] ms[j]).0 as int, ms[j].1 as int) || (
        combined_score(g, sz, ms[i].0 as int, ms[i].1 as int) == combined_score(
            g,
            sz,
            ms[j].0 as int,
            ms[j].1 as int,
        ) && gidx(sz, ms[i].0 as int, ms[i].1 as int) < gidx(sz, ms[j].0 as int, ms[j].1 as int)))
        by {
        assert(b.sbefore(ms[i], ms[j]));
        assert(b.stored_pass(o3, o4, ms[i].0 as int, ms[i].1 as int));
        assert(b.stored_pass(o3, o4, ms[j].0 as int, ms[j].1 as int));
    }
}

/// A placement followed immediately by its reversal restores the position
/// exactly: grid, history, fingerprint and both score matrices are bit for
/// bit what they were. The grid and history return by construction, the
/// fingerprint because toggling a key is self-inverse, and the score
/// matrices because well-formedness pins them to the grid.
pub proof fn lemma_put_undo_restores(pre: Board, mid: Board, post: Board, x: int, y: int, role: Role)
    requires
        pre.wf(),
        mid.wf(),
        post.wf(),
        in_range(pre.sz(), x, y),
        cell_at(pre.grid(), pre.sz(), x, y) == 0,
        put_applied(pre, mid, x, y, role),
        undo_applied(mid, post),
    ensures
        pos_eq(post, pre),
{
    let sz = pre.sz();
    lemma_gidx_bound(sz, x, y);
    assert(mid.spec_history().last() == (x as usize, y as usize, role));
    assert(post.spec_history() =~= pre.spec_history());
    assert(post.grid() =~= pre.grid());
    let k = pre.key_at(x, y, role);
    assert(mid.key_at(x, y, role) == k) by {
        crate::zobrist_cache::lemma_key_of_eq(
            pre.zorbist_cache,
            mid.zorbist_cache,
            x,
            y,
            role.to_int_spec(),
        );
    }
    assert(post.fingerprint() == (pre.fingerprint() ^ k) ^ k);
    crate::zobrist_cache::lemma_toggle_self_inverse(pre.fingerprint(), k);
    assert forall|a: int, b: int| in_range(sz, a, b) implies post.black_scores@[gidx(sz, a, b)]
        == pre.black_scores@[gidx(sz, a, b)] && post.white_scores@[gidx(sz, a, b)]
        == pre.white_scores@[gidx(sz, a, b)] by {
        assert(post.cell_scored(a, b));
        assert(pre.cell_scored(a, b));
    }
    assert forall|i: int|
        0 <= i < pre.black_scores@.len() implies post.black_scores@[i] == pre.black_scores@[i]
            && post.white_scores@[i] == pre.white_scores@[i] by {
        let a = i / sz;
        let b = i % sz;
        assert(0 <= b < sz && a * sz + b == i && 0 <= a < sz) by (nonlinear_arith)
            requires
                0 <= i < sz * sz,
                a == i / sz,
                b == i % sz,
                1 <= sz,
        ;
        assert(gidx(sz, a, b) == i);
        assert(in_range(sz, a, b));
    }
    assert(post.black_scores@ =~= pre.black_scores@);
    assert(post.white_scores@ =~= pre.white_scores@);
}

impl Board {
    /// Copies a move list.
    fn copy_moves(v: &Vec<(usize, usize)>) -> (r: Vec<(usize, usize)>)
        ensures
            r@ == v@,
    {
        let mut r: Vec<(usize, usize)> = Vec::new();
        let mut i: usize = 0;
        while i < v.len()
            invariant
                i <= v@.len(),
                r@.len() == i,
                forall|j: int| 0 <= j < i ==> r@[j] == v@[j],
            decreases v@.len() - i,
        {
            r.push(v[i]);
            i = i + 1;
        }
        proof {
            assert(r@ =~= v@);
        }
        r
    }

    /// The memoized form of `get_moves`, keyed by fingerprint, role, depth
    /// and the two filter flags. A hit is accepted only when the stored
    /// grid matches the live one, so a fingerprint collision can never hand
    /// back a foreign position's moves.
    pub fn get_valuable_moves(
        &mut self,
        role: Role,
        depth: i32,
        only_three: bool,
        only_four: bool,
    ) -> (r: Vec<(usize, usize)>)
        requires
            old(self).wf(),
        ensures
            final(self).wf(),
            pos_eq(*final(self), *old(self)),
            moves_props(old(self).grid(), old(self).sz(), only_three, only_four, r@),
    {
        let ghost pre = *self;
        let h = self.hash();
        let mut hit: Option<Vec<(usize, usize)>> = None;
        match self.valuable_moves_cache.get(&h) {
            Some(e) => {
                if e.role == role && e.depth == depth && e.only_three == only_three
                    && e.only_four == only_four && grids_equal(&e.grid, &self.board) {
                    proof {
                        assert(self.valuable_moves_cache.smap().contains_key(h));
                        assert(moves_entry_ok(self.valuable_moves_cache.smap()[h], self.sz()));
                    }
                    hit = Some(Self::copy_moves(&e.moves));
                }
            },
            None => {},
        }
        match hit {
            Some(ms) => {
                return ms;
            },
            None => {},
        }
        let moves = self.get_moves(role, depth, only_three, only_four);
        let snapshot = copy_grid(&self.board);
        let stored = Self::copy_moves(&moves);
        let ghost mid = *self;
        self.valuable_moves_cache.put(
            h,
            MovesEntry { grid: snapshot, role, depth, only_three, only_four, moves: stored },
        );
        proof {
            assert forall|k: u64|
                #[trigger] self.valuable_moves_cache.smap().contains_key(k) implies moves_entry_ok(
                self.valuable_moves_cache.smap()[k],
                self.sz(),
            ) by {
                if k == h {
                    if mid.valuable_moves_cache.spec_enabled() {
                        assert(self.valuable_moves_cache.smap()[k].grid@ == mid.grid());
                        assert(self.valuable_moves_cache.smap()[k].moves@ == moves@);
                    } else {
                        assert(mid.valuable_moves_cache.smap().contains_key(k));
                        assert(self.valuable_moves_cache.smap()[k]
                            == mid.valuable_moves_cache.smap()[k]);
                    }
                } else {
                    assert(mid.valuable_moves_cache.smap().contains_key(k));
                    assert(self.valuable_moves_cache.smap()[k]
                        == mid.valuable_moves_cache.smap()[k]);
                }
            }
            lemma_wf_caches_only(mid, *self);
        }
        moves
    }

    /// The value a stone takes when the sides are swapped.
    pub open spec fn flip_val(v: int) -> int {
        if v == 1 {
            -1
        } else if v == -1 {
            1
        } else {
            v
        }
    }

    /// A fresh board holding the same moves with the roles swapped: the
    /// probe for "what if the opponent had moved first". Its fingerprint
    /// keys are fresh, so its hashes share nothing with this board's.
    pub fn reverse(&self) -> (r: Board)
        requires
            self.wf(),
        ensures
            r.wf(),
            r.sz() == self.sz(),
            r.spec_history().len() == self.spec_history().len(),
            forall|i: int|
                0 <= i < self.spec_history().len() ==> #[trigger] r.spec_history()[i] == (
                    self.spec_history()[i].0,
                    self.spec_history()[i].1,
                    self.spec_history()[i].2.opponent_spec(),
                ),
            forall|a: int, b: int|
                in_range(self.sz(), a, b) ==> cell_at(r.grid(), r.sz(), a, b) == Self::flip_val(
                    cell_at(self.grid(), self.sz(), a, b),
                ),
    {
        let mut nb = Board::new(self.size);
        let n = self.history.len();
        let mut i: usize = 0;
        while i < n
            invariant
                i <= n,
                n == self.spec_history().len(),
                self.wf(),
                nb.wf(),
                nb.sz() == self.sz(),
                nb.spec_history().len() == i,
                forall|j: int|
                    0 <= j < i ==> #[trigger] nb.spec_history()[j] == (
                        self.spec_history()[j].0,
                        self.spec_history()[j].1,
                        self.spec_history()[j].2.opponent_spec(),
                    ),
            decreases n - i,
        {
            let (x, y, role) = self.history[i];
            proof {
                assert(self.history@[i as int] == (x, y, role));
                assert(in_range(self.sz(), x as int, y as int));
                if cell_at(nb.grid(), nb.sz(), x as int, y as int) != 0 {
                    let j = choose|j: int|
                        0 <= j < nb.history@.len() && (#[trigger] nb.history@[j]).0 as int
                            == x as int && nb.history@[j].1 as int == y as int;
                    assert(nb.spec_history()[j].0 == self.spec_history()[j].0
                        && nb.spec_history()[j].1 == self.spec_history()[j].1);
                    assert(!(self.history@[j].0 == self.history@[i as int].0 && self.history@[j].1
                        == self.history@[i as int].1));
                    assert(false);
                }
            }
            let opp = role.opponent();
            let ghost nb_pre = nb;
            let ok = nb.put(x, y, opp);
            proof {
                assert(ok);
                assert(nb.spec_history() == nb_pre.spec_history().push((x, y, opp)));
                assert forall|j: int| 0 <= j < i + 1 implies #[trigger] nb.spec_history()[j] == (
                    self.spec_history()[j].0,
                    self.spec_history()[j].1,
                    self.spec_history()[j].2.opponent_spec(),
                ) by {
                    if j < i {
                        assert(nb.spec_history()[j] == nb_pre.spec_history()[j]);
                    }
                }
            }
            i = i + 1;
        }
        proof {
            assert forall|a: int, b: int| in_range(self.sz(), a, b) implies cell_at(
                nb.grid(),
                nb.sz(),
                a,
                b,
            ) == Self::flip_val(cell_at(self.grid(), self.sz(), a, b)) by {
                let cv = cell_at(self.grid(), self.sz(), a, b);
                let nv = cell_at(nb.grid(), nb.sz(), a, b);
                if cv != 0 {
                    let j = choose|j: int|
                        0 <= j < self.history@.len() && (#[trigger] self.history@[j]).0 as int == a
                            && self.history@[j].1 as int == b;
                    assert(cell_at(self.grid(), self.sz(), a, b)
                        == self.history@[j].2.to_int_spec());
                    assert(nb.spec_history()[j] == (
                        self.spec_history()[j].0,
                        self.spec_history()[j].1,
                        self.spec_history()[j].2.opponent_spec(),
                    ));
                    assert(cell_at(nb.grid(), nb.sz(), a, b) == nb.history@[j].2.to_int_spec());
                } else {
                    if nv != 0 {
                        let j = choose|j: int|
                            0 <= j < nb.history@.len() && (#[trigger] nb.history@[j]).0 as int == a
                                && nb.history@[j].1 as int == b;
                        assert(nb.spec_history()[j] == (
                            self.spec_history()[j].0,
                            self.spec_history()[j].1,
                            self.spec_history()[j].2.opponent_spec(),
                        ));
                        assert(cell_at(self.grid(), self.sz(), a, b)
                            == self.history@[j].2.to_int_spec());
                        assert(false);
                    }
                }
            }
        }
        nb
    }
}

/// Whether a five in a row of value `rv` covers (x, y) along direction `d`.
pub open spec fn five_cover(g: Seq<i32>, size: int, rv: int, x: int, y: int, d: int) -> bool {
    exists|s: int|
        -4 <= s <= 0 && five_from(
            g,
            size,
            rv,
            x + #[trigger] (s * dir_dx(d)),
            y + s * dir_dy(d),
            d,
        )
}

/// Whether a five in a row of value `rv` passes through (x, y).
pub open spec fn five_through(g: Seq<i32>, size: int, rv: int, x: int, y: int) -> bool {
    exists|d: int| 0 <= d < 4 && #[trigger] five_cover(g, size, rv, x, y, d)
}

/// On a grid that differs from a five-free grid in one cell, any five of
/// that cell's value passes through the changed cell.
proof fn lemma_five_only_through(g: Seq<i32>, g2: Seq<i32>, size: int, x: int, y: int, rv: int)
    requires
        same_but(g, g2, size, x, y),
        has_five(g2, size, rv),
        !has_five(g, size, rv),
    ensures
        cell_at(g2, size, x, y) == rv,
        five_through(g2, size, rv, x, y),
{
    let (a, b, d) = choose|a: int, b: int, d: int|
        0 <= d < 4 && #[trigger] five_from(g2, size, rv, a, b, d);
    if forall|k: int|
        0 <= k < 5 ==> !(a + #[trigger] (k * dir_dx(d)) == x && b + k * dir_dy(d) == y) {
        assert forall|k: int| 0 <= k < 5 implies cell_at(
            g,
            size,
            a + #[trigger] (k * dir_dx(d)),
            b + k * dir_dy(d),
        ) == rv by {
            let ca = a + k * dir_dx(d);
            let cb = b + k * dir_dy(d);
            assert(cell_at(g2, size, ca, cb) == rv);
            if !in_range(size, ca, cb) {
                assert(cell_at(g2, size, ca, cb) == 2);
            }
        }
        assert(five_from(g, size, rv, a, b, d));
        assert(false);
    }
    let k = choose|k: int|
        0 <= k < 5 && a + #[trigger] (k * dir_dx(d)) == x && b + k * dir_dy(d) == y;
    assert(cell_at(g2, size, x, y) == rv);
    let s = -k;
    assert(x + s * dir_dx(d) == a && y + s * dir_dy(d) == b) by (nonlinear_arith)
        requires
            a + k * dir_dx(d) == x,
            b + k * dir_dy(d) == y,
            s == -k,
    ;
    assert(five_cover(g2, size, rv, x, y, d));
}

impl Board {
    /// Whether the stone of `role` at (x, y) sits on a five in a row.
    fn check_five(&self, x: usize, y: usize, role: Role) -> (r: bool)
        requires
            self.wf_basic(),
            (x as int) < self.sz(),
            (y as int) < self.sz(),
            cell_at(self.grid(), self.sz(), x as int, y as int) == role.to_int_spec(),
        ensures
            r == five_through(
                self.grid(),
                self.sz(),
                role.to_int_spec(),
                x as int,
                y as int,
            ),
    {
        let rv = role.to_int();
        let ghost g = self.grid();
        let ghost sz = self.sz();
        let mut d: usize = 0;
        while d < 4
            invariant
                d <= 4,
                self.wf_basic(),
                (x as int) < self.sz(),
                (y as int) < self.sz(),
                g == self.grid(),
                sz == self.sz(),
                rv as int == role.to_int_spec(),
                cell_at(g, sz, x as int, y as int) == rv as int,
                forall|d2: int| 0 <= d2 < d ==> !five_cover(g, sz, rv as int, x as int, y as int, d2),
            decreases 4 - d,
        {
            let (dxv, dyv) = dir_step(d);
            let mut f: usize = 0;
            let mut stop = false;
            while f < 4 && !stop
                invariant
                    d < 4,
                    f <= 4,
                    self.wf_basic(),
                    (x as int) < self.sz(),
                    (y as int) < self.sz(),
                    g == self.grid(),
                    sz == self.sz(),
                    dxv as int == dir_dx(d as int),
                    dyv as int == dir_dy(d as int),
                    forall|k: int|
                        1 <= k <= f ==> cell_at(
                            g,
                            sz,
                            (x as int) + #[trigger] (k * dir_dx(d as int)),
                            (y as int) + k * dir_dy(d as int),
                        ) == rv as int,
                    stop ==> cell_at(
                        g,
                        sz,
                        (x as int) + ((f + 1) as int) * dir_dx(d as int),
                        (y as int) + ((f + 1) as int) * dir_dy(d as int),
                    ) != rv as int,
                decreases 4 - f + (if stop { 0int } else { 1int }),
            {
                proof {
                    assert(-5 <= ((f + 1) as int) * dir_dx(d as int) <= 5 && -5 <= ((f + 1) as int)
                        * dir_dy(d as int) <= 5) by (nonlinear_arith)
                        requires
                            f <= 4,
                            -1 <= dir_dx(d as int) <= 1,
                            -1 <= dir_dy(d as int) <= 1,
                    ;
                }
                let cx: i64 = x as i64 + (f as i64 + 1) * dxv;
                let cy: i64 = y as i64 + (f as i64 + 1) * dyv;
                if self.cell(cx, cy) == rv {
                    f = f + 1;
                } else {
                    stop = true;
                }
            }
            let mut b: usize = 0;
            let mut stopb = false;
            while b < 4 && !stopb
                invariant
                    d < 4,
                    b <= 4,
                    self.wf_basic(),
                    (x as int) < self.sz(),
                    (y as int) < self.sz(),
                    g == self.grid(),
                    sz == self.sz(),
                    dxv as int == dir_dx(d as int),
                    dyv as int == dir_dy(d as int),
                    forall|k: int|
                        -(b as int) <= k <= -1 ==> cell_at(
                            g,
                            sz,
                            (x as int) + #[trigger] (k * dir_dx(d as int)),
                            (y as int) + k * dir_dy(d as int),
                        ) == rv as int,
                    stopb ==> cell_at(
                        g,
                        sz,
                        (x as int) + (-((b + 1) as int)) * dir_dx(d as int),
                        (y as int) + (-((b + 1) as int)) * dir_dy(d as int),
                    ) != rv as int,
                decreases 4 - b + (if stopb { 0int } else { 1int }),
            {
                proof {
                    assert(-5 <= (-((b + 1) as int)) * dir_dx(d as int) <= 5 && -5 <= (-((b
                        + 1) as int)) * dir_dy(d as int) <= 5) by (nonlinear_arith)
                        requires
                            b <= 4,
                            -1 <= dir_dx(d as int) <= 1,
                            -1 <= dir_dy(d as int) <= 1,
                    ;
                }
                let cx: i64 = x as i64 + (-(b as i64 + 1)) * dxv;
                let cy: i64 = y as i64 + (-(b as i64 + 1)) * dyv;
                if self.cell(cx, cy) == rv {
                    b = b + 1;
                } else {
                    stopb = true;
                }
            }
            if f + b >= 4 {
                proof {
                    let s = -(b as int);
                    assert forall|k: int| 0 <= k < 5 implies cell_at(
                        g,
                        sz,
                        (x as int) + s * dir_dx(d as int) + #[trigger] (k * dir_dx(d as int)),
                        (y as int) + s * dir_dy(d as int) + k * dir_dy(d as int),
                    ) == rv as int by {
                        let k2 = s + k;
                        assert(s * dir_dx(d as int) + k * dir_dx(d as int) == k2 * dir_dx(
                            d as int,
                        ) && s * dir_dy(d as int) + k * dir_dy(d as int) == k2 * dir_dy(d as int))
                            by (nonlinear_arith)
                            requires
                                k2 == s + k,
                        ;
                        assert(0 * dir_dx(d as int) == 0 && 0 * dir_dy(d as int) == 0)
                            by (nonlinear_arith);
                        assert(-(b as int) <= k2 <= f as int);
                    }
                    assert(five_from(
                        g,
                        sz,
                        rv as int,
                        (x as int) + s * dir_dx(d as int),
                        (y as int) + s * dir_dy(d as int),
                        d as int,
                    ));
                    assert(five_cover(g, sz, rv as int, x as int, y as int, d as int));
                }
                return true;
            }
            proof {
                if five_cover(g, sz, rv as int, x as int, y as int, d as int) {
                    let s = choose|s: int|
                        -4 <= s <= 0 && five_from(
                            g,
                            sz,
                            rv as int,
                            (x as int) + #[trigger] (s * dir_dx(d as int)),
                            (y as int) + s * dir_dy(d as int),
                            d as int,
                        );
                    assert forall|k2: int| s <= k2 <= s + 4 implies cell_at(
                        g,
                        sz,
                        (x as int) + #[trigger] (k2 * dir_dx(d as int)),
                        (y as int) + k2 * dir_dy(d as int),
                    ) == rv as int by {
                        let k = k2 - s;
                        assert(s * dir_dx(d as int) + k * dir_dx(d as int) == k2 * dir_dx(
                            d as int,
                        ) && s * dir_dy(d as int) + k * dir_dy(d as int) == k2 * dir_dy(d as int))
                            by (nonlinear_arith)
                            requires
                                k2 == s + k,
                        ;
                        assert(cell_at(
                            g,
                            sz,
                            (x as int) + s * dir_dx(d as int) + (k * dir_dx(d as int)),
                            (y as int) + s * dir_dy(d as int) + k * dir_dy(d as int),
                        ) == rv as int);
                    }
                    assert((f as int) < s + 4) by {
                        if f as int >= s + 4 {
                            assert(f + b >= 4);
                        }
                    }
                    assert(!stop ==> f == 4);
                    assert(stop);
                    assert(((f + 1) as int) <= s + 4);
                    assert(cell_at(
                        g,
                        sz,
                        (x as int) + ((f + 1) as int) * dir_dx(d as int),
                        (y as int) + ((f + 1) as int) * dir_dy(d as int),
                    ) == rv as int);
                    assert(false);
                }
            }
            d = d + 1;
        }
        false
    }
}

/// The threat level the opponent of `role` would gain by playing the empty
/// cell (a, b): the block-now sentinel when that play makes five, otherwise
/// the opponent's evaluation gain.
pub open spec fn threat_spec(g: Seq<i32>, size: int, role: Role, a: int, b: int) -> int {
    let opp = role.opponent_spec();
    let g2 = g.update(gidx(size, a, b), opp.to_int_spec() as i32);
    if five_through(g2, size, opp.to_int_spec(), a, b) {
        10000000
    } else {
        eval_of_grid(g2, size, opp) - eval_of_grid(g, size, opp)
    }
}

impl Board {
    /// Inserts a threat into the list ordered by level descending, grid
    /// position ascending. Every listed cell sits at a smaller position.
    fn insert_threat(
        &self,
        out: &mut Vec<(usize, usize, i64)>,
        x: usize,
        y: usize,
        t: i64,
    )
        requires
            self.wf_basic(),
            (x as int) < self.sz(),
            (y as int) < self.sz(),
            forall|i: int|
                0 <= i < old(out)@.len() ==> in_range(
                    self.sz(),
                    (#[trigger] old(out)@[i]).0 as int,
                    old(out)@[i].1 as int,
                ) && gidx(self.sz(), old(out)@[i].0 as int, old(out)@[i].1 as int) < gidx(
                    self.sz(),
                    x as int,
                    y as int,
                ),
            forall|i: int, j: int|
                0 <= i < j < old(out)@.len() ==> (#[trigger] old(out)@[i]).2 >= (#[trigger] old(
                    out,
                )@[j]).2,
        ensures
            final(out)@.len() == old(out)@.len() + 1,
            final(out)@.contains((x, y, t)),
            forall|m: (usize, usize, i64)| old(out)@.contains(m) ==> final(out)@.contains(m),
            forall|m: (usize, usize, i64)|
                final(out)@.contains(m) ==> old(out)@.contains(m) || m == (x, y, t),
            forall|i: int, j: int|
                0 <= i < j < final(out)@.len() ==> (#[trigger] final(out)@[i]).2 >= (
                #[trigger] final(out)@[j]).2,
            forall|i: int|
                0 <= i < final(out)@.len() ==> in_range(
                    self.sz(),
                    (#[trigger] final(out)@[i]).0 as int,
                    final(out)@[i].1 as int,
                ) && gidx(self.sz(), final(out)@[i].0 as int, final(out)@[i].1 as int) <= gidx(
                    self.sz(),
                    x as int,
                    y as int,
                ),
    {
        let e = (x, y, t);
        let n = out.len();
        let mut p: usize = 0;
        let mut found = false;
        while p < n && !found
            invariant
                p <= n,
                n == out@.len(),
                e == (x, y, t),
                forall|i: int| 0 <= i < p ==> (#[trigger] out@[i]).2 >= t,
                forall|i: int, j: int|
                    0 <= i < j < out@.len() ==> (#[trigger] out@[i]).2 >= (#[trigger] out@[j]).2,
                found ==> p < n && out@[p as int].2 < t,
            decreases n - p + (if found { 0int } else { 1int }),
        {
            let m = out[p];
            if m.2 >= t {
                p = p + 1;
            } else {
                found = true;
            }
        }
        let ghost pre = out@;
        out.insert(p, e);
        proof {
            pre.insert_ensures(p as int, e);
            assert forall|m: (usize, usize, i64)| pre.contains(m) implies out@.contains(m) by {
                let i = choose|i: int| 0 <= i < pre.len() && pre[i] == m;
                if i < p {
                    assert(out@[i] == m);
                } else {
                    assert(out@[i + 1] == m);
                }
            }
            assert forall|m: (usize, usize, i64)| out@.contains(m) implies pre.contains(m) || m
                == e by {
                let i = choose|i: int| 0 <= i < out@.len() && out@[i] == m;
                if i < p {
                    assert(pre[i] == m);
                } else if i > p {
                    assert(pre[i - 1] == m);
                }
            }
            assert(out@[p as int] == e);
            assert(out@.contains(e));
            assert forall|i: int, j: int| 0 <= i < j < out@.len() implies (#[trigger] out@[i]).2
                >= (#[trigger] out@[j]).2 by {
                if j < p {
                    assert(out@[i] == pre[i] && out@[j] == pre[j]);
                } else if i > p {
                    assert(out@[i] == pre[i - 1] && out@[j] == pre[j - 1]);
                } else if i < p && j == p {
                    assert(out@[i] == pre[i]);
                } else if i < p && j > p {
                    assert(out@[i] == pre[i] && out@[j] == pre[j - 1]);
                } else {
                    assert(i == p && j > p);
                    assert(out@[j] == pre[j - 1]);
                    assert(found && pre[p as int].2 < t);
                    if j - 1 > p {
                        assert(pre[p as int].2 >= pre[j - 1].2);
                    }
                }
            }
            assert forall|i: int|
                0 <= i < out@.len() implies in_range(
                self.sz(),
                (#[trigger] out@[i]).0 as int,
                out@[i].1 as int,
            ) && gidx(self.sz(), out@[i].0 as int, out@[i].1 as int) <= gidx(
                self.sz(),
                x as int,
                y as int,
            ) by {
                if i < p {
                    assert(out@[i] == pre[i]);
                } else if i > p {
                    assert(out@[i] == pre[i - 1]);
                }
            }
        }
    }

    /// Every empty cell where the opponent of `role`, moving there, would
    /// make a five or lift its evaluation by at least the critical margin;
    /// each with its threat level, ordered by level descending. The board
    /// is probed by placing and taking back each candidate, and comes back
    /// exactly as it was. On a board someone has already won the evaluation
    /// gains degenerate to differences of sentinels, so the exact threat
    /// values and the completeness of the list are stated for undecided
    /// boards; the rest of the contract holds regardless.
    pub fn find_critical_threats(&mut self, role: Role) -> (r: Vec<(usize, usize, i64)>)
        requires
            old(self).wf(),
        ensures
            final(self).wf(),
            pos_eq(*final(self), *old(self)),
            forall|i: int|
                0 <= i < r@.len() ==> {
                    let m = #[trigger] r@[i];
                    &&& in_range(old(self).sz(), m.0 as int, m.1 as int)
                    &&& cell_at(old(self).grid(), old(self).sz(), m.0 as int, m.1 as int) == 0
                    &&& (m.2 == 10000000 || m.2 >= 500000)
                },
            !has_five(old(self).grid(), old(self).sz(), 1) && !has_five(
                old(self).grid(),
                old(self).sz(),
                -1,
            ) ==> forall|i: int|
                0 <= i < r@.len() ==> (#[trigger] r@[i]).2 as int == threat_spec(
                    old(self).grid(),
                    old(self).sz(),
                    role,
                    r@[i].0 as int,
                    r@[i].1 as int,
                ),
            !has_five(old(self).grid(), old(self).sz(), 1) && !has_five(
                old(self).grid(),
                old(self).sz(),
                -1,
            ) ==> forall|a: usize, b: usize|
                (a as int) < old(self).sz() && (b as int) < old(self).sz() && cell_at(
                    old(self).grid(),
                    old(self).sz(),
                    a as int,
                    b as int,
                ) == 0 && (threat_spec(old(self).grid(), old(self).sz(), role, a as int, b as int)
                    == 10000000 || threat_spec(
                    old(self).grid(),
                    old(self).sz(),
                    role,
                    a as int,
                    b as int,
                ) >= 500000) ==> r@.contains(
                    (a, b, threat_spec(
                        old(self).grid(),
                        old(self).sz(),
                        role,
                        a as int,
                        b as int,
                    ) as i64),
                ),
            forall|i: int, j: int| 0 <= i < j < r@.len() ==> (#[trigger] r@[i]).2 >= (#[trigger] r@[j]).2,
    {
        let ghost orig = *old(self);
        let ghost clean = !has_five(orig.grid(), orig.sz(), 1) && !has_five(
            orig.grid(),
            orig.sz(),
            -1,
        );
        let opponent = role.opponent();
        let baseline = self.evaluate(opponent);
        let size = self.size;
        let mut threats: Vec<(usize, usize, i64)> = Vec::new();
        let mut x: usize = 0;
        while x < size
            invariant
                x <= size,
                size == self.size,
                orig == *old(self),
                self.wf(),
                pos_eq(*self, orig),
                role.opponent_spec() == opponent,
                clean == (!has_five(orig.grid(), orig.sz(), 1) && !has_five(
                    orig.grid(),
                    orig.sz(),
                    -1,
                )),
                clean ==> baseline as int == eval_of_grid(orig.grid(), orig.sz(), opponent),
                -EVAL_LIMIT <= baseline <= EVAL_LIMIT,
                forall|i: int|
                    0 <= i < threats@.len() ==> {
                        let m = #[trigger] threats@[i];
                        &&& in_range(orig.sz(), m.0 as int, m.1 as int)
                        &&& cell_at(orig.grid(), orig.sz(), m.0 as int, m.1 as int) == 0
                        &&& (m.2 == 10000000 || m.2 >= 500000)
                        &&& gidx(orig.sz(), m.0 as int, m.1 as int) < gidx(orig.sz(), x as int, 0)
                    },
                clean ==> forall|i: int|
                    0 <= i < threats@.len() ==> (#[trigger] threats@[i]).2 as int == threat_spec(
                        orig.grid(),
                        orig.sz(),
                        role,
                        threats@[i].0 as int,
                        threats@[i].1 as int,
                    ),
                clean ==> forall|a: usize, b: usize|
                    (a as int) < x as int && (b as int) < orig.sz() && cell_at(
                        orig.grid(),
                        orig.sz(),
                        a as int,
                        b as int,
                    ) == 0 && (threat_spec(orig.grid(), orig.sz(), role, a as int, b as int)
                        == 10000000 || threat_spec(orig.grid(), orig.sz(), role, a as int, b as int)
                        >= 500000) ==> threats@.contains(
                        (a, b, threat_spec(orig.grid(), orig.sz(), role, a as int, b as int) as i64),
                    ),
                forall|i: int, j: int|
                    0 <= i < j < threats@.len() ==> (#[trigger] threats@[i]).2 >= (
                    #[trigger] threats@[j]).2,
            decreases size - x,
        {
            let mut y: usize = 0;
            while y < size
                invariant
                    x < size,
                    y <= size,
                    size == self.size,
                    orig == *old(self),
                    self.wf(),
                    pos_eq(*self, orig),
                    role.opponent_spec() == opponent,
                    clean == (!has_five(orig.grid(), orig.sz(), 1) && !has_five(
                        orig.grid(),
                        orig.sz(),
                        -1,
                    )),
                    clean ==> baseline as int == eval_of_grid(orig.grid(), orig.sz(), opponent),
                    -EVAL_LIMIT <= baseline <= EVAL_LIMIT,
                    forall|i: int|
                        0 <= i < threats@.len() ==> {
                            let m = #[trigger] threats@[i];
                            &&& in_range(orig.sz(), m.0 as int, m.1 as int)
                            &&& cell_at(orig.grid(), orig.sz(), m.0 as int, m.1 as int) == 0
                            &&& (m.2 == 10000000 || m.2 >= 500000)
                            &&& gidx(orig.sz(), m.0 as int, m.1 as int) < gidx(
                                orig.sz(),
                                x as int,
                                y as int,
                            )
                        },
                    clean ==> forall|i: int|
                        0 <= i < threats@.len() ==> (#[trigger] threats@[i]).2 as int
                            == threat_spec(
                            orig.grid(),
                            orig.sz(),
                            role,
                            threats@[i].0 as int,
                            threats@[i].1 as int,
                        ),
                    clean ==> forall|a: usize, b: usize|
                        ((a as int) < x as int || (a as int == x as int && (b as int) < y as int))
                            && (a as int) < orig.sz() && (b as int) < orig.sz() && cell_at(
                            orig.grid(),
                            orig.sz(),
                            a as int,
                            b as int,
                        ) == 0 && (threat_spec(orig.grid(), orig.sz(), role, a as int, b as int)
                            == 10000000 || threat_spec(
                            orig.grid(),
                            orig.sz(),
                            role,
                            a as int,
                            b as int,
                        ) >= 500000) ==> threats@.contains(
                            (a, b, threat_spec(
                                orig.grid(),
                                orig.sz(),
                                role,
                                a as int,
                                b as int,
                            ) as i64),
                        ),
                    forall|i: int, j: int|
                        0 <= i < j < threats@.len() ==> (#[trigger] threats@[i]).2 >= (
                        #[trigger] threats@[j]).2,
                decreases size - y,
            {
                proof {
                    lemma_gidx_bound(orig.sz(), x as int, y as int);
                }
                let ghost tv = threat_spec(orig.grid(), orig.sz(), role, x as int, y as int);
                if self.get_cell(x, y) == 0 {
                    let ghost cur = *self;
                    let ok = self.put(x, y, opponent);
                    proof {
                        assert(ok);
                        assert(self.grid() == cur.grid().update(
                            gidx(orig.sz(), x as int, y as int),
                            opponent.to_int_spec() as i32,
                        ));
                    }
                    let ghost mid = *self;
                    let fives = self.check_five(x, y, opponent);
                    let mut t: i64 = 0;
                    let mut keep = false;
                    if fives {
                        t = 10000000;
                        keep = true;
                        proof {
                            assert(tv == 10000000);
                        }
                    } else {
                        proof {
                            assert(same_but(cur.grid(), mid.grid(), orig.sz(), x as int, y as int))
                                by {
                                assert forall|a: int, b: int|
                                    in_range(orig.sz(), a, b) && !(a == x as int && b
                                        == y as int) implies cell_at(cur.grid(), orig.sz(), a, b)
                                    == cell_at(mid.grid(), orig.sz(), a, b) by {
                                    lemma_gidx_bound(orig.sz(), a, b);
                                    if gidx(orig.sz(), a, b) == gidx(
                                        orig.sz(),
                                        x as int,
                                        y as int,
                                    ) {
                                        lemma_gidx_inj(orig.sz(), a, b, x as int, y as int);
                                    }
                                }
                            }
                            if clean {
                                if has_five(mid.grid(), mid.sz(), opponent.to_int_spec()) {
                                    lemma_five_only_through(
                                        cur.grid(),
                                        mid.grid(),
                                        orig.sz(),
                                        x as int,
                                        y as int,
                                        opponent.to_int_spec(),
                                    );
                                }
                                if has_five(mid.grid(), mid.sz(), role.to_int_spec()) {
                                    lemma_five_only_through(
                                        cur.grid(),
                                        mid.grid(),
                                        orig.sz(),
                                        x as int,
                                        y as int,
                                        role.to_int_spec(),
                                    );
                                    assert(cell_at(mid.grid(), mid.sz(), x as int, y as int)
                                        == role.to_int_spec());
                                }
                            }
                        }
                        let after = self.evaluate(opponent);
                        let gain = after - baseline;
                        proof {
                            if clean {
                                assert(tv == (after as int) - (baseline as int));
                            }
                        }
                        if gain >= 500000 {
                            t = gain;
                            keep = true;
                        }
                    }
                    let ghost mid2 = *self;
                    let undone = self.undo();
                    proof {
                        assert(undone);
                        assert(pos_eq(mid2, mid));
                        assert(undo_applied(mid2, *self));
                        assert(mid2.spec_history().last() == (x, y, opponent));
                        assert(self.grid() =~= cur.grid());
                        assert(self.spec_history() =~= cur.spec_history());
                        assert(self.fingerprint() == cur.fingerprint()) by {
                            crate::zobrist_cache::lemma_key_of_eq(
                                mid2.zorbist_cache,
                                cur.zorbist_cache,
                                x as int,
                                y as int,
                                opponent.to_int_spec(),
                            );
                            crate::zobrist_cache::lemma_toggle_self_inverse(
                                cur.fingerprint(),
                                cur.key_at(x as int, y as int, opponent),
                            );
                        }
                        assert forall|a: int, b: int|
                            in_range(orig.sz(), a, b) implies self.black_scores@[gidx(
                            orig.sz(),
                            a,
                            b,
                        )] == cur.black_scores@[gidx(orig.sz(), a, b)] && self.white_scores@[gidx(
                            orig.sz(),
                            a,
                            b,
                        )] == cur.white_scores@[gidx(orig.sz(), a, b)] by {
                            assert(self.cell_scored(a, b));
                            assert(cur.cell_scored(a, b));
                        }
                        assert forall|i: int|
                            0 <= i < cur.black_scores@.len() implies self.black_scores@[i]
                            == cur.black_scores@[i] && self.white_scores@[i]
                            == cur.white_scores@[i] by {
                            let a = i / orig.sz();
                            let b = i % orig.sz();
                            assert(0 <= b < orig.sz() && a * orig.sz() + b == i && 0 <= a
                                < orig.sz()) by (nonlinear_arith)
                                requires
                                    0 <= i < orig.sz() * orig.sz(),
                                    a == i / orig.sz(),
                                    b == i % orig.sz(),
                                    1 <= orig.sz(),
                            ;
                            assert(gidx(orig.sz(), a, b) == i);
                            assert(in_range(orig.sz(), a, b));
                        }
                        assert(self.black_scores@ =~= cur.black_scores@);
                        assert(self.white_scores@ =~= cur.white_scores@);
                        assert(pos_eq(*self, orig));
                    }
                    if keep {
                        proof {
                            if clean {
                                assert(t as int == tv);
                            }
                        }
                        self.insert_threat(&mut threats, x, y, t);
                    }
                }
                proof {
                    if clean {
                        assert forall|a: usize, b: usize|
                            ((a as int) < x as int || (a as int == x as int && (b as int)
                                < y as int + 1)) && (a as int) < orig.sz() && (b as int)
                                < orig.sz() && cell_at(orig.grid(), orig.sz(), a as int, b as int)
                                == 0 && (threat_spec(
                                orig.grid(),
                                orig.sz(),
                                role,
                                a as int,
                                b as int,
                            ) == 10000000 || threat_spec(
                                orig.grid(),
                                orig.sz(),
                                role,
                                a as int,
                                b as int,
                            ) >= 500000) implies threats@.contains(
                            (a, b, threat_spec(
                                orig.grid(),
                                orig.sz(),
                                role,
                                a as int,
                                b as int,
                            ) as i64),
                        ) by {}
                    }
                    assert forall|i: int|
                        0 <= i < threats@.len() implies {
                        let m = #[trigger] threats@[i];
                        &&& in_range(orig.sz(), m.0 as int, m.1 as int)
                        &&& cell_at(orig.grid(), orig.sz(), m.0 as int, m.1 as int) == 0
                        &&& (m.2 == 10000000 || m.2 >= 500000)
                        &&& gidx(orig.sz(), m.0 as int, m.1 as int) < gidx(
                            orig.sz(),
                            x as int,
                            y as int + 1,
                        )
                    } by {
                        let m = threats@[i];
                        assert(threats@.contains(m));
                    }
                    if clean {
                        assert forall|i: int|
                            0 <= i < threats@.len() implies (#[trigger] threats@[i]).2 as int
                            == threat_spec(
                            orig.grid(),
                            orig.sz(),
                            role,
                            threats@[i].0 as int,
                            threats@[i].1 as int,
                        ) by {
                            let m = threats@[i];
                            assert(threats@.contains(m));
                        }
                    }
                }
                y = y + 1;
            }
            proof {
                assert((x as int) * (size as int) + (size as int) == ((x as int) + 1) * (
                size as int)) by (nonlinear_arith);
                assert(gidx(orig.sz(), x as int, size as int) == gidx(orig.sz(), x as int + 1, 0));
            }
            x = x + 1;
        }
        threats
    }
}

/// Whether some cell passes the move filters: the candidate list the move
/// generator builds is nonempty exactly then. Kept opaque so that callers
/// can carry the fact without unfolding the scoring model.
#[verifier::opaque]
pub open spec fn has_candidate(g: Seq<i32>, size: int, o3: bool, o4: bool) -> bool {
    exists|a: int, b: int| in_range(size, a, b) && #[trigger] move_pass(g, size, o3, o4, a, b)
}

/// On a board with an empty cell left, the unfiltered move filter passes
/// some cell: full-width move generation never comes back empty.
pub proof fn lemma_not_full_has_candidate(g: Seq<i32>, size: int)
    requires
        !board_full(g, size),
    ensures
        has_candidate(g, size, false, false),
{
    reveal(crate::board::has_candidate);
    let (a, b) = choose|a: int, b: int| in_range(size, a, b) && cell_at(g, size, a, b) == 0;
    assert(move_pass(g, size, false, false, a, b));
}

/// Two boards with the same size and the same fingerprint key table agree
/// on every (cell, role) key: placements and reversals, which keep the key
/// table, never change what any stone would toggle.
pub proof fn lemma_keys_stable(a: Board, b: Board, x: int, y: int, role: Role)
    requires
        a.wf(),
        b.wf(),
        a.sz() == b.sz(),
        a.zkeys() == b.zkeys(),
    ensures
        a.key_at(x, y, role) == b.key_at(x, y, role),
{
    crate::zobrist_cache::lemma_key_of_eq(
        a.zorbist_cache,
        b.zorbist_cache,
        x,
        y,
        role.to_int_spec(),
    );
}

/// Facts every caller of a well-formed board may use: structural
/// well-formedness, the size bounds, and that a board without history is a
/// board without stones.
pub proof fn lemma_board_facts(b: Board)
    requires
        b.wf(),
    ensures
        b.wf_basic(),
        1 <= b.sz() <= 1024,
        b.grid().len() == b.sz() * b.sz(),
        b.spec_history().len() == 0 ==> forall|a: int, c: int|
            in_range(b.sz(), a, c) ==> cell_at(b.grid(), b.sz(), a, c) == 0,
{
    if b.spec_history().len() == 0 {
        assert forall|a: int, c: int| in_range(b.sz(), a, c) implies cell_at(
            b.grid(),
            b.sz(),
            a,
            c,
        ) == 0 by {
            if cell_at(b.grid(), b.sz(), a, c) != 0 {
                let i = choose|i: int|
                    0 <= i < b.history@.len() && (#[trigger] b.history@[i]).0 as int == a
                        && b.history@[i].1 as int == c;
                assert(false);
            }
        }
    }
}

/// A placement, any amount of position-preserving work, and the matching
/// reversal restore the position exactly. This is the guarantee the search
/// leans on: every recursive frame that applies a move gives the caller its
/// board back bit for bit.
pub proof fn lemma_probe_restores(
    cur: Board,
    mid: Board,
    mid2: Board,
    post: Board,
    x: int,
    y: int,
    role: Role,
)
    requires
        cur.wf(),
        mid.wf(),
        mid2.wf(),
        post.wf(),
        in_range(cur.sz(), x, y),
        cell_at(cur.grid(), cur.sz(), x, y) == 0,
        put_applied(cur, mid, x, y, role),
        pos_eq(mid2, mid),
        undo_applied(mid2, post),
    ensures
        pos_eq(post, cur),
{
    let sz = cur.sz();
    lemma_gidx_bound(sz, x, y);
    assert(mid2.spec_history().last() == (x as usize, y as usize, role));
    assert(post.spec_history() =~= cur.spec_history());
    assert(post.grid() =~= cur.grid());
    let k = cur.key_at(x, y, role);
    assert(mid2.key_at(x, y, role) == k) by {
        crate::zobrist_cache::lemma_key_of_eq(
            cur.zorbist_cache,
            mid.zorbist_cache,
            x,
            y,
            role.to_int_spec(),
        );
        crate::zobrist_cache::lemma_key_of_eq(
            mid.zorbist_cache,
            mid2.zorbist_cache,
            x,
            y,
            role.to_int_spec(),
        );
    }
    assert(post.fingerprint() == (cur.fingerprint() ^ k) ^ k);
    crate::zobrist_cache::lemma_toggle_self_inverse(cur.fingerprint(), k);
    assert forall|a: int, b: int| in_range(sz, a, b) implies post.black_scores@[gidx(sz, a, b)]
        == cur.black_scores@[gidx(sz, a, b)] && post.white_scores@[gidx(sz, a, b)]
        == cur.white_scores@[gidx(sz, a, b)] by {
        assert(post.cell_scored(a, b));
        assert(cur.cell_scored(a, b));
    }
    assert forall|i: int|
        0 <= i < cur.black_scores@.len() implies post.black_scores@[i] == cur.black_scores@[i]
            && post.white_scores@[i] == cur.white_scores@[i] by {
        let a = i / sz;
        let b = i % sz;
        assert(0 <= b < sz && a * sz + b == i && 0 <= a < sz) by (nonlinear_arith)
            requires
                0 <= i < sz * sz,
                a == i / sz,
                b == i % sz,
                1 <= sz,
        ;
        assert(gidx(sz, a, b) == i);
        assert(in_range(sz, a, b));
    }
    assert(post.black_scores@ =~= cur.black_scores@);
    assert(post.white_scores@ =~= cur.white_scores@);
}

} // verus!
