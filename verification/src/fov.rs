//! Field of view: which cells a player sees from where it stands.
//!
//! Distance is Chebyshev distance, so the cells in reach form a square around
//! the origin and diagonals count as one step. Sight is cast along rays, one
//! towards each cell of the square's rim. The ray towards the offset
//! `(dx, dy)`, `n` steps away, passes the cells
//! `origin + (round(dx * k / n), round(dy * k / n))` for `k` from 1 to `n`,
//! where halves round away from zero. A ray lights the cells that it passes up
//! to and including the first one that holds an occluder, so an occluder is
//! seen and hides what lies behind it on the ray. A cell is visible if it is
//! the origin or a ray lights it. One recomputation walks each ray once, a
//! number of steps that grows with the square of the radius.

use crate::ecs::{EntityID, EntityMap, EntityView, Point};
use crate::fx::CellSet;
use vstd::arithmetic::div_mod::{
    lemma_div_is_ordered, lemma_fundamental_div_mod, lemma_fundamental_div_mod_converse,
    lemma_mod_bound,
};
use vstd::prelude::*;

verus! {

/// The radius of sight that a player gets when it is bound to a connection.
pub const DEFAULT_FOV_RADIUS: i32 = 20;

/// How far beyond the radius of sight the box reaches whose entities are
/// sent to a player whether it sees them or not.
pub const FOV_NETWORK_MARGIN: i32 = 5;

/// The absolute value of `v`.
pub open spec fn abs(v: int) -> int {
    if v < 0 {
        -v
    } else {
        v
    }
}

/// The Chebyshev length of the offset `(dx, dy)`.
pub open spec fn chebyshev(dx: int, dy: int) -> int {
    if abs(dx) >= abs(dy) {
        abs(dx)
    } else {
        abs(dy)
    }
}

/// The integer nearest to `a / n`, halves rounded away from zero.
pub open spec fn round_div(a: int, n: int) -> int
    recommends
        n > 0,
{
    if a >= 0 {
        (2 * a + n) / (2 * n)
    } else {
        -((2 * (-a) + n) / (2 * n))
    }
}

/// The `k`-th cell of the ray from `origin` to the cell at offset `(dx, dy)`.
pub open spec fn ray_cell(origin: Point, dx: int, dy: int, k: int) -> (int, int) {
    let n = chebyshev(dx, dy);
    (origin.x + round_div(dx * k, n), origin.y + round_div(dy * k, n))
}

/// Whether `c` is a cell of the grid that holds an occluder.
pub open spec fn occupied(occluders: Set<(i32, i32)>, c: (int, int)) -> bool {
    &&& i32::MIN <= c.0 <= i32::MAX
    &&& i32::MIN <= c.1 <= i32::MAX
    &&& occluders.contains((c.0 as i32, c.1 as i32))
}

/// Whether none of the cells before the `k`-th on the ray towards the offset
/// `(dx, dy)` holds an occluder.
pub open spec fn ray_clear(
    origin: Point,
    occluders: Set<(i32, i32)>,
    dx: int,
    dy: int,
    k: int,
) -> bool {
    forall|j: int| 1 <= j < k ==> !occupied(occluders, #[trigger] ray_cell(origin, dx, dy, j))
}

/// Whether `cell` is the `k`-th cell of the ray towards the offset `target`.
pub open spec fn on_ray(origin: Point, target: (int, int), k: int, cell: (i32, i32)) -> bool {
    ray_cell(origin, target.0, target.1, k) == (cell.0 as int, cell.1 as int)
}

/// Whether the ray towards the offset `target` lights `cell`: the ray passes
/// the cell, and no cell before it on the ray holds an occluder.
pub open spec fn ray_lights(
    origin: Point,
    occluders: Set<(i32, i32)>,
    target: (int, int),
    cell: (i32, i32),
) -> bool {
    exists|k: int|
        1 <= k <= chebyshev(target.0, target.1) && #[trigger] on_ray(origin, target, k, cell)
            && ray_clear(origin, occluders, target.0, target.1, k)
}

/// Whether `cell` is seen from `origin` with sight of `radius`: it is the
/// origin, or the ray towards some cell of the rim lights it.
pub open spec fn is_visible(
    origin: Point,
    occluders: Set<(i32, i32)>,
    radius: int,
    cell: (i32, i32),
) -> bool {
    (cell.0 == origin.x && cell.1 == origin.y) || exists|target: (int, int)|
        chebyshev(target.0, target.1) == radius && #[trigger] ray_lights(
            origin,
            occluders,
            target,
            cell,
        )
}

/// The cells seen from `origin` with sight of `radius`.
pub open spec fn visible_cells(origin: Point, occluders: Set<(i32, i32)>, radius: int) -> Set<
    (i32, i32),
> {
    Set::new(|c: (i32, i32)| is_visible(origin, occluders, radius, c))
}

/// The cells on which an entity stands that blocks sight.
pub open spec fn occluders(entities: Map<u32, EntityView>) -> Set<(i32, i32)> {
    Set::new(
        |c: (i32, i32)|
            exists|id: u32|
                #![trigger entities[id]]
                entities.contains_key(id) && entities[id].entity_type.spec_blocks_sight()
                    && entities[id].position == (Point { x: c.0, y: c.1 }),
    )
}

/// A step of a ray moves no further along an axis than the target lies.
proof fn lemma_ray_offset_bounded(d: int, k: int, n: int)
    requires
        1 <= k <= n,
        abs(d) <= n,
    ensures
        abs(d * k) <= n * n,
        abs(round_div(d * k, n)) <= abs(d),
{
    let a = abs(d * k);
    assert(a == abs(d) * k && a <= abs(d) * n && a <= n * n) by (nonlinear_arith)
        requires
            a == abs(d * k),
            1 <= k <= n,
            abs(d) <= n,
    ;
    let x = 2 * a + n;
    let m = 2 * n;
    let q = x / m;
    lemma_fundamental_div_mod(x, m);
    lemma_mod_bound(x, m);
    assert(q <= abs(d)) by (nonlinear_arith)
        requires
            x == m * q + x % m,
            0 <= x % m < m,
            x == 2 * a + n,
            m == 2 * n,
            a <= abs(d) * n,
            n >= 1,
            abs(d) >= 0,
    ;
    assert(q >= 0) by (nonlinear_arith)
        requires
            x == m * q + x % m,
            0 <= x % m < m,
            x >= 0,
            m > 0,
    ;
    if d * k >= 0 {
        assert(round_div(d * k, n) == q);
    } else {
        assert(round_div(d * k, n) == -q);
    }
}

/// The integer nearest to `a / n`, halves rounded away from zero.
fn rounded_quotient(a: i64, n: i64) -> (q: i64)
    requires
        0 < n <= 0x7fff_ffff,
        -0x4000_0000_0000_0000 <= a <= 0x4000_0000_0000_0000,
        2 * abs(a as int) + n <= i64::MAX,
    ensures
        q == round_div(a as int, n as int),
{
    if a >= 0 {
        (2 * a + n) / (2 * n)
    } else {
        let p: i64 = (2 * (-a) + n) / (2 * n);
        proof {
            let x = 2 * (-(a as int)) + n;
            let m = 2 * (n as int);
            lemma_fundamental_div_mod(x, m);
            lemma_mod_bound(x, m);
            assert(0 <= x / m <= x) by (nonlinear_arith)
                requires
                    x == m * (x / m) + x % m,
                    0 <= x % m < m,
                    x >= 0,
                    m >= 2,
            ;
        }
        -p
    }
}

/// Whether `cell` is one of the cells before the `k`-th on the ray towards
/// the offset `target`.
spec fn passed_before(origin: Point, target: (int, int), k: int, cell: (i32, i32)) -> bool {
    exists|j: int| 1 <= j < k && #[trigger] on_ray(origin, target, j, cell)
}

/// Casts the ray towards the offset `(dx, dy)` and adds to `visible` the
/// cells that it lights.
fn cast_ray(origin: Point, occ: &CellSet, visible: &mut CellSet, dx: i64, dy: i64)
    requires
        -0x7fff_ffff <= dx <= 0x7fff_ffff,
        -0x7fff_ffff <= dy <= 0x7fff_ffff,
    ensures
        forall|c: (i32, i32)|
            final(visible)@.contains(c) <==> (old(visible)@.contains(c) || ray_lights(
                origin,
                occ@,
                (dx as int, dy as int),
                c,
            )),
{
    let adx: i64 = if dx < 0 {
        -dx
    } else {
        dx
    };
    let ady: i64 = if dy < 0 {
        -dy
    } else {
        dy
    };
    let n: i64 = if adx >= ady {
        adx
    } else {
        ady
    };
    let ghost target = (dx as int, dy as int);
    let mut k: i64 = 1;
    while k <= n
        invariant
            1 <= k <= n + 1,
            n == chebyshev(dx as int, dy as int),
            0 <= n <= 0x7fff_ffff,
            target == (dx as int, dy as int),
            ray_clear(origin, occ@, dx as int, dy as int, k as int),
            forall|c: (i32, i32)|
                visible@.contains(c) <==> (old(visible)@.contains(c) || passed_before(
                    origin,
                    target,
                    k as int,
                    c,
                )),
        decreases n + 1 - k,
    {
        proof {
            lemma_ray_offset_bounded(dx as int, k as int, n as int);
            lemma_ray_offset_bounded(dy as int, k as int, n as int);
            assert(n * n <= 0x3fff_ffff_0000_0001) by (nonlinear_arith)
                requires
                    0 <= n <= 0x7fff_ffff,
            ;
        }
        let cx: i64 = origin.x as i64 + rounded_quotient(dx * k, n);
        let cy: i64 = origin.y as i64 + rounded_quotient(dy * k, n);
        assert((cx as int, cy as int) == ray_cell(origin, dx as int, dy as int, k as int));
        let ghost before = visible@;
        let mut stopped = false;
        if -0x8000_0000 <= cx && cx <= 0x7fff_ffff && -0x8000_0000 <= cy && cy <= 0x7fff_ffff {
            let cell = (cx as i32, cy as i32);
            visible.insert(cell);
            stopped = occ.contains(&cell);
        }
        proof {
            assert(stopped == occupied(occ@, ray_cell(origin, dx as int, dy as int, k as int)));
            assert forall|c: (i32, i32)|
                visible@.contains(c) <==> (old(visible)@.contains(c) || passed_before(
                    origin,
                    target,
                    k + 1,
                    c,
                )) by {
                if passed_before(origin, target, k as int, c) {
                    let j = choose|j: int| 1 <= j < k && #[trigger] on_ray(origin, target, j, c);
                    assert(1 <= j < k + 1 && on_ray(origin, target, j, c));
                }
                if passed_before(origin, target, k + 1, c) {
                    let j = choose|j: int|
                        1 <= j < k + 1 && #[trigger] on_ray(origin, target, j, c);
                    if j < k {
                        assert(passed_before(origin, target, k as int, c));
                    }
                }
                if on_ray(origin, target, k as int, c) {
                    assert(1 <= k < k + 1 && on_ray(origin, target, k as int, c));
                }
            }
        }
        if stopped {
            proof {
                assert forall|c: (i32, i32)|
                    ray_lights(origin, occ@, target, c) <==> passed_before(
                        origin,
                        target,
                        k + 1,
                        c,
                    ) by {
                    if ray_lights(origin, occ@, target, c) {
                        let j = choose|j: int|
                            1 <= j <= n && #[trigger] on_ray(origin, target, j, c) && ray_clear(
                                origin,
                                occ@,
                                target.0,
                                target.1,
                                j,
                            );
                        if j > k {
                            assert(occupied(occ@, ray_cell(origin, target.0, target.1, k as int)));
                        }
                        assert(1 <= j < k + 1 && on_ray(origin, target, j, c));
                    }
                    if passed_before(origin, target, k + 1, c) {
                        let j = choose|j: int|
                            1 <= j < k + 1 && #[trigger] on_ray(origin, target, j, c);
                        assert(ray_clear(origin, occ@, target.0, target.1, j));
                        assert(1 <= j <= n && on_ray(origin, target, j, c));
                    }
                }
            }
            return ;
        }
        k += 1;
    }
    proof {
        assert forall|c: (i32, i32)|
            ray_lights(origin, occ@, target, c) <==> passed_before(origin, target, n + 1, c) by {
            if ray_lights(origin, occ@, target, c) {
                let j = choose|j: int|
                    1 <= j <= n && #[trigger] on_ray(origin, target, j, c) && ray_clear(
                        origin,
                        occ@,
                        target.0,
                        target.1,
                        j,
                    );
                assert(1 <= j < n + 1 && on_ray(origin, target, j, c));
            }
            if passed_before(origin, target, n + 1, c) {
                let j = choose|j: int| 1 <= j < n + 1 && #[trigger] on_ray(origin, target, j, c);
                assert(ray_clear(origin, occ@, target.0, target.1, j));
                assert(1 <= j <= n && on_ray(origin, target, j, c));
            }
        }
    }
}

/// The cells on which an entity of `entities` stands that blocks sight.
pub fn collect_occluders(entities: &EntityMap) -> (occ: CellSet)
    ensures
        occ@ == occluders(entities@),
{
    let ids = entities.ids();
    let mut occ = CellSet::new();
    let mut i: usize = 0;
    while i < ids.len()
        invariant
            i <= ids.len(),
            forall|id: EntityID| ids@.contains(id) <==> entities@.contains_key(id.0),
            forall|c: (i32, i32)|
                occ@.contains(c) <==> exists|j: int|
                    #![trigger ids[j]]
                    0 <= j < i && entities@[ids[j].0].entity_type.spec_blocks_sight()
                        && entities@[ids[j].0].position == (Point { x: c.0, y: c.1 }),
        decreases ids.len() - i,
    {
        let id = ids[i];
        assert(ids@.contains(id));
        let ghost before = occ@;
        match entities.get(&id) {
            Some(e) => {
                if e.entity_type.blocks_sight() {
                    let cell = (e.position.x, e.position.y);
                    occ.insert(cell);
                    proof {
                        assert forall|c: (i32, i32)|
                            occ@.contains(c) <==> exists|j: int|
                                #![trigger ids[j]]
                                0 <= j < i + 1 && entities@[ids[j].0].entity_type.spec_blocks_sight()
                                    && entities@[ids[j].0].position == (Point { x: c.0, y: c.1 }) by {
                            if occ@.contains(c) {
                                if before.contains(c) {
                                    let j = choose|j: int|
                                        #![trigger ids[j]]
                                        0 <= j < i
                                            && entities@[ids[j].0].entity_type.spec_blocks_sight()
                                            && entities@[ids[j].0].position == (Point {
                                            x: c.0,
                                            y: c.1,
                                        });
                                    assert(0 <= j < i + 1 && ids[j] == ids[j]);
                                } else {
                                    assert(c == cell);
                                    assert(ids[i as int] == id);
                                }
                            }
                            if exists|j: int|
                                #![trigger ids[j]]
                                0 <= j < i + 1 && entities@[ids[j].0].entity_type.spec_blocks_sight()
                                    && entities@[ids[j].0].position == (Point { x: c.0, y: c.1 }) {
                                let j = choose|j: int|
                                    #![trigger ids[j]]
                                    0 <= j < i + 1
                                        && entities@[ids[j].0].entity_type.spec_blocks_sight()
                                        && entities@[ids[j].0].position == (Point {
                                        x: c.0,
                                        y: c.1,
                                    });
                                if j < i {
                                    assert(before.contains(c));
                                } else {
                                    assert(c == cell);
                                }
                            }
                        }
                    }
                } else {
                    proof {
                        assert forall|c: (i32, i32)|
                            occ@.contains(c) <==> exists|j: int|
                                #![trigger ids[j]]
                                0 <= j < i + 1 && entities@[ids[j].0].entity_type.spec_blocks_sight()
                                    && entities@[ids[j].0].position == (Point { x: c.0, y: c.1 }) by {
                            if occ@.contains(c) {
                                let j = choose|j: int|
                                    #![trigger ids[j]]
                                    0 <= j < i && entities@[ids[j].0].entity_type.spec_blocks_sight()
                                        && entities@[ids[j].0].position == (Point {
                                        x: c.0,
                                        y: c.1,
                                    });
                                assert(0 <= j < i + 1 && ids[j] == ids[j]);
                            }
                        }
                    }
                }
            },
            None => {},
        }
        i += 1;
    }
    proof {
        assert forall|c: (i32, i32)| occ@.contains(c) <==> occluders(entities@).contains(c) by {
            if occ@.contains(c) {
                let j = choose|j: int|
                    #![trigger ids[j]]
                    0 <= j < i && entities@[ids[j].0].entity_type.spec_blocks_sight()
                        && entities@[ids[j].0].position == (Point { x: c.0, y: c.1 });
                assert(ids@.contains(ids[j]));
                let ghost key = ids[j].0;
                assert(entities@.contains_key(key) && entities@[key].entity_type.spec_blocks_sight());
            }
            if occluders(entities@).contains(c) {
                let key = choose|id: u32|
                    #![trigger entities@[id]]
                    entities@.contains_key(id) && entities@[id].entity_type.spec_blocks_sight()
                        && entities@[id].position == (Point { x: c.0, y: c.1 });
                assert(ids@.contains(EntityID(key)));
                let j = choose|j: int| 0 <= j < ids@.len() && ids@[j] == EntityID(key);
                assert(ids[j].0 == key);
            }
        }
        assert(occ@ =~= occluders(entities@));
    }
    occ
}

/// A symmetry of the grid that keeps one cell, the origin, in place.
pub enum Reflection {
    /// Swaps left and right.
    MirrorX,
    /// Swaps up and down.
    MirrorY,
    /// Swaps the two axes.
    Transpose,
}

/// The image of the offset `t` under `m`.
pub open spec fn reflect_offset(m: Reflection, t: (int, int)) -> (int, int) {
    match m {
        Reflection::MirrorX => (-t.0, t.1),
        Reflection::MirrorY => (t.0, -t.1),
        Reflection::Transpose => (t.1, t.0),
    }
}

/// The image of `c` under `m` about `origin`.
pub open spec fn reflect(origin: Point, m: Reflection, c: (int, int)) -> (int, int) {
    let t = reflect_offset(m, (c.0 - origin.x, c.1 - origin.y));
    (origin.x + t.0, origin.y + t.1)
}

/// Whether `m` about `origin` maps the occluders onto themselves: of two
/// cells of the grid that are images of each other, both hold an occluder or
/// neither does.
pub open spec fn symmetric_layout(origin: Point, occ: Set<(i32, i32)>, m: Reflection) -> bool {
    forall|a: (i32, i32), b: (i32, i32)|
        #![trigger occ.contains(a), occ.contains(b)]
        reflect(origin, m, (a.0 as int, a.1 as int)) == (b.0 as int, b.1 as int) ==> (occ.contains(
            a,
        ) <==> occ.contains(b))
}

/// Rounding commutes with negation.
proof fn lemma_round_div_odd(a: int, n: int)
    requires
        n > 0,
    ensures
        round_div(-a, n) == -round_div(a, n),
{
    if a == 0 {
        lemma_fundamental_div_mod(n, 2 * n);
        lemma_mod_bound(n, 2 * n);
        let q = n / (2 * n);
        assert(q == 0) by (nonlinear_arith)
            requires
                n == (2 * n) * q + n % (2 * n),
                0 <= n % (2 * n) < 2 * n,
                n > 0,
        ;
    }
}

/// Along a ray each axis moves one way only: an earlier step lies between
/// the origin and a later one.
proof fn lemma_ray_monotone(d: int, j: int, k: int, n: int)
    requires
        1 <= j <= k <= n,
        abs(d) <= n,
    ensures
        d >= 0 ==> 0 <= round_div(d * j, n) <= round_div(d * k, n),
        d <= 0 ==> round_div(d * k, n) <= round_div(d * j, n) <= 0,
{
    let aj = abs(d) * j;
    let ak = abs(d) * k;
    assert(0 <= aj <= ak) by (nonlinear_arith)
        requires
            aj == abs(d) * j,
            ak == abs(d) * k,
            1 <= j <= k,
            abs(d) >= 0,
    ;
    assert(d >= 0 ==> d * j == aj && d * k == ak) by (nonlinear_arith)
        requires
            aj == abs(d) * j,
            ak == abs(d) * k,
    ;
    assert(d <= 0 ==> d * j == -aj && d * k == -ak) by (nonlinear_arith)
        requires
            aj == abs(d) * j,
            ak == abs(d) * k,
    ;
    lemma_div_is_ordered(2 * aj + n, 2 * ak + n, 2 * n);
    lemma_div_is_ordered(0, 2 * aj + n, 2 * n);
    assert(0int / (2 * n) == 0) by (nonlinear_arith)
        requires
            n >= 1,
    ;
    lemma_round_div_odd(aj, n);
    lemma_round_div_odd(ak, n);
}

/// The ray towards the image of an offset passes the images of the cells
/// that the ray towards the offset passes.
proof fn lemma_ray_reflects(origin: Point, m: Reflection, target: (int, int), k: int)
    requires
        1 <= k <= chebyshev(target.0, target.1),
    ensures
        ({
            let image = reflect_offset(m, target);
            &&& chebyshev(image.0, image.1) == chebyshev(target.0, target.1)
            &&& ray_cell(origin, image.0, image.1, k) == reflect(
                origin,
                m,
                ray_cell(origin, target.0, target.1, k),
            )
        }),
{
    let n = chebyshev(target.0, target.1);
    assert((-target.0) * k == -(target.0 * k)) by (nonlinear_arith);
    assert((-target.1) * k == -(target.1 * k)) by (nonlinear_arith);
    lemma_round_div_odd(target.0 * k, n);
    lemma_round_div_odd(target.1 * k, n);
}

/// One direction of the symmetry of sight: where a ray lights a cell, the
/// image of the ray lights the image of the cell.
proof fn lemma_lights_reflects(
    origin: Point,
    occ: Set<(i32, i32)>,
    m: Reflection,
    target: (int, int),
    c: (i32, i32),
    rc: (i32, i32),
)
    requires
        reflect(origin, m, (c.0 as int, c.1 as int)) == (rc.0 as int, rc.1 as int),
        symmetric_layout(origin, occ, m),
        ray_lights(origin, occ, target, c),
    ensures
        ray_lights(origin, occ, reflect_offset(m, target), rc),
        chebyshev(reflect_offset(m, target).0, reflect_offset(m, target).1) == chebyshev(
            target.0,
            target.1,
        ),
{
    let n = chebyshev(target.0, target.1);
    let image = reflect_offset(m, target);
    let k = choose|k: int|
        1 <= k <= n && #[trigger] on_ray(origin, target, k, c) && ray_clear(
            origin,
            occ,
            target.0,
            target.1,
            k,
        );
    lemma_ray_reflects(origin, m, target, k);
    assert(on_ray(origin, image, k, rc));
    assert forall|j: int| 1 <= j < k implies !occupied(
        occ,
        #[trigger] ray_cell(origin, image.0, image.1, j),
    ) by {
        lemma_ray_reflects(origin, m, target, j);
        lemma_ray_monotone(target.0, j, k, n);
        lemma_ray_monotone(target.1, j, k, n);
        let there = ray_cell(origin, target.0, target.1, j);
        let here = ray_cell(origin, image.0, image.1, j);
        if occupied(occ, here) {
            let a = (here.0 as i32, here.1 as i32);
            let b = (there.0 as i32, there.1 as i32);
            assert(reflect(origin, m, (a.0 as int, a.1 as int)) == (b.0 as int, b.1 as int));
            assert(occ.contains(a) <==> occ.contains(b));
            assert(occupied(occ, there));
        }
    }
    assert(1 <= k <= chebyshev(image.0, image.1) && on_ray(origin, image, k, rc) && ray_clear(
        origin,
        occ,
        image.0,
        image.1,
        k,
    ));
}

/// Sight is symmetric: where a symmetry about the origin maps the occluders
/// onto themselves, a cell is visible exactly if its image is.
pub proof fn lemma_visibility_symmetric(
    origin: Point,
    occ: Set<(i32, i32)>,
    radius: int,
    m: Reflection,
    c: (i32, i32),
    rc: (i32, i32),
)
    requires
        reflect(origin, m, (c.0 as int, c.1 as int)) == (rc.0 as int, rc.1 as int),
        symmetric_layout(origin, occ, m),
    ensures
        is_visible(origin, occ, radius, c) == is_visible(origin, occ, radius, rc),
        visible_cells(origin, occ, radius).contains(c) == visible_cells(
            origin,
            occ,
            radius,
        ).contains(rc),
{
    if is_visible(origin, occ, radius, c) && !(c.0 == origin.x && c.1 == origin.y) {
        let target = choose|target: (int, int)|
            chebyshev(target.0, target.1) == radius && #[trigger] ray_lights(
                origin,
                occ,
                target,
                c,
            );
        lemma_lights_reflects(origin, occ, m, target, c, rc);
    }
    if is_visible(origin, occ, radius, rc) && !(rc.0 == origin.x && rc.1 == origin.y) {
        let target = choose|target: (int, int)|
            chebyshev(target.0, target.1) == radius && #[trigger] ray_lights(
                origin,
                occ,
                target,
                rc,
            );
        assert(reflect(origin, m, (rc.0 as int, rc.1 as int)) == (c.0 as int, c.1 as int));
        lemma_lights_reflects(origin, occ, m, target, rc, c);
    }
}

/// The origin is visible, whatever the radius and the occluders.
pub proof fn lemma_origin_visible(origin: Point, occ: Set<(i32, i32)>, radius: int)
    ensures
        visible_cells(origin, occ, radius).contains((origin.x, origin.y)),
{
}

/// Nothing beyond the radius is visible.
pub proof fn lemma_visible_within_radius(
    origin: Point,
    occ: Set<(i32, i32)>,
    radius: int,
    c: (i32, i32),
)
    requires
        visible_cells(origin, occ, radius).contains(c),
        c != (origin.x, origin.y),
    ensures
        abs(c.0 - origin.x) <= radius,
        abs(c.1 - origin.y) <= radius,
{
    let target = choose|target: (int, int)|
        chebyshev(target.0, target.1) == radius && #[trigger] ray_lights(origin, occ, target, c);
    let k = choose|k: int|
        1 <= k <= radius && #[trigger] on_ray(origin, target, k, c) && ray_clear(
            origin,
            occ,
            target.0,
            target.1,
            k,
        );
    lemma_ray_offset_bounded(target.0, k, radius);
    lemma_ray_offset_bounded(target.1, k, radius);
}

/// A ray towards the rim moves one cell per step along the axis on which the
/// rim cell lies furthest out.
proof fn lemma_ray_major_step(d: int, k: int, n: int)
    requires
        1 <= k <= n,
        abs(d) == n,
    ensures
        d > 0 ==> round_div(d * k, n) == k,
        d < 0 ==> round_div(d * k, n) == -k,
{
    assert(d > 0 ==> d * k == n * k) by (nonlinear_arith)
        requires
            abs(d) == n,
    ;
    assert(d < 0 ==> d * k == -(n * k)) by (nonlinear_arith)
        requires
            abs(d) == n,
    ;
    assert(n * k >= 1) by (nonlinear_arith)
        requires
            1 <= k <= n,
    ;
    assert(2 * (n * k) + n == k * (2 * n) + n) by (nonlinear_arith);
    lemma_fundamental_div_mod_converse(2 * (n * k) + n, 2 * n, k, n);
}

/// The cell `d` steps from `origin` along a row (`horizontal`) or a column.
pub open spec fn along(origin: Point, horizontal: bool, d: int) -> (int, int) {
    if horizontal {
        (origin.x + d, origin.y + 0)
    } else {
        (origin.x + 0, origin.y + d)
    }
}

/// An occluder hides what stands behind it in its row or column: with an
/// occluder `a` steps from the origin along an axis, no cell further out on
/// the same side of that axis is visible.
pub proof fn lemma_shadow_on_axis(
    origin: Point,
    occ: Set<(i32, i32)>,
    radius: int,
    horizontal: bool,
    a: int,
    b: int,
    c: (i32, i32),
)
    requires
        0 < a < b || b < a < 0,
        occupied(occ, along(origin, horizontal, a)),
        along(origin, horizontal, b) == (c.0 as int, c.1 as int),
    ensures
        !is_visible(origin, occ, radius, c),
        !visible_cells(origin, occ, radius).contains(c),
{
    if is_visible(origin, occ, radius, c) {
        let t = choose|t: (int, int)|
            chebyshev(t.0, t.1) == radius && #[trigger] ray_lights(origin, occ, t, c);
        let n = radius;
        let k = choose|k: int|
            1 <= k <= n && #[trigger] on_ray(origin, t, k, c) && ray_clear(
                origin,
                occ,
                t.0,
                t.1,
                k,
            );
        let (major, minor) = if horizontal {
            (t.0, t.1)
        } else {
            (t.1, t.0)
        };
        assert(round_div(major * k, n) == b && round_div(minor * k, n) == 0);
        if abs(minor) == n {
            lemma_ray_major_step(minor, k, n);
        }
        assert(abs(major) == n);
        lemma_ray_major_step(major, k, n);
        let j = abs(a);
        assert(1 <= j < k);
        lemma_ray_major_step(major, j, n);
        lemma_ray_monotone(minor, j, k, n);
        assert(ray_cell(origin, t.0, t.1, j) == along(origin, horizontal, a));
    }
}

/// For a step count `m` within the radius `n`, every offset `y` of at most
/// `m` is met at step `m` by a ray towards some rim offset.
proof fn lemma_rim_offset_exists(y: int, m: int, n: int) -> (t: int)
    requires
        1 <= m <= n,
        abs(y) <= m,
    ensures
        abs(t) <= n,
        round_div(t * m, n) == y,
{
    let a = abs(y);
    // The rim offset for `a`: the integer nearest to `a * n / m`.
    let x = 2 * (a * n) + m;
    let q = x / (2 * m);
    lemma_fundamental_div_mod(x, 2 * m);
    lemma_mod_bound(x, 2 * m);
    assert(a * n >= 0 && a * n <= m * n) by (nonlinear_arith)
        requires
            0 <= a <= m,
            n >= 1,
    ;
    assert(0 <= q <= n) by (nonlinear_arith)
        requires
            x == (2 * m) * q + x % (2 * m),
            0 <= x % (2 * m) < 2 * m,
            x == 2 * (a * n) + m,
            0 <= a * n <= m * n,
            m >= 1,
    ;
    // Going back: the integer nearest to `q * m / n` is `a`.
    let back = 2 * (q * m) + n;
    assert(q * m >= 0) by (nonlinear_arith)
        requires
            q >= 0,
            m >= 1,
    ;
    if m == n {
        assert(x == a * (2 * m) + m) by (nonlinear_arith)
            requires
                x == 2 * (a * n) + m,
                m == n,
        ;
        lemma_fundamental_div_mod_converse(x, 2 * m, a, m);
        assert(back == a * (2 * n) + n) by (nonlinear_arith)
            requires
                back == 2 * (q * m) + n,
                q == a,
                m == n,
        ;
        lemma_fundamental_div_mod_converse(back, 2 * n, a, n);
    } else {
        let rem = back - a * (2 * n);
        assert(0 <= rem < 2 * n) by (nonlinear_arith)
            requires
                rem == 2 * (q * m) + n - a * (2 * n),
                x == (2 * m) * q + x % (2 * m),
                0 <= x % (2 * m) < 2 * m,
                x == 2 * (a * n) + m,
                1 <= m < n,
        ;
        lemma_fundamental_div_mod_converse(back, 2 * n, a, rem);
    }
    assert(round_div(q * m, n) == a);
    if y >= 0 {
        q
    } else {
        assert((-q) * m == -(q * m)) by (nonlinear_arith);
        lemma_round_div_odd(q * m, n);
        -q
    }
}

/// On open ground everything within the radius is visible: without
/// occluders, each cell of the square around the origin is seen.
pub proof fn lemma_open_ground_visible(
    origin: Point,
    occ: Set<(i32, i32)>,
    radius: int,
    c: (i32, i32),
)
    requires
        forall|cell: (i32, i32)| !occ.contains(cell),
        abs(c.0 - origin.x) <= radius,
        abs(c.1 - origin.y) <= radius,
    ensures
        is_visible(origin, occ, radius, c),
        visible_cells(origin, occ, radius).contains(c),
{
    let x = c.0 - origin.x;
    let y = c.1 - origin.y;
    let m = chebyshev(x, y);
    let n = radius;
    if m >= 1 {
        let target = if abs(x) == m {
            let side = lemma_rim_offset_exists(y, m, n);
            let front = if x > 0 {
                n
            } else {
                -n
            };
            lemma_ray_major_step(front, m, n);
            (front, side)
        } else {
            let side = lemma_rim_offset_exists(x, m, n);
            let front = if y > 0 {
                n
            } else {
                -n
            };
            lemma_ray_major_step(front, m, n);
            (side, front)
        };
        assert(chebyshev(target.0, target.1) == n);
        assert(on_ray(origin, target, m, c));
        assert(ray_clear(origin, occ, target.0, target.1, m));
        assert(ray_lights(origin, occ, target, c));
    }
}

/// What a player sees: the radius of its sight and the cells seen at the last
/// recomputation.
#[derive(Debug, PartialEq, Eq)]
pub struct PlayerFov {
    pub fov_radius: i32,
    pub current_fov: CellSet,
}

/// What a player sees, as mathematical values.
pub struct PlayerFovView {
    pub radius: int,
    pub visible: Set<(i32, i32)>,
}

impl View for PlayerFov {
    type V = PlayerFovView;

    open spec fn view(&self) -> PlayerFovView {
        PlayerFovView { radius: self.fov_radius as int, visible: self.current_fov@ }
    }
}

/// What a player with sight of `radius` sees from `origin` among `entities`.
pub open spec fn fresh_fov(entities: Map<u32, EntityView>, origin: Point, radius: int) -> PlayerFovView {
    PlayerFovView { radius, visible: visible_cells(origin, occluders(entities), radius) }
}

/// Whether `c` is lit by the ray towards a cell of the rim that comes, row
/// by row, before the cell at offset `(col, row)`.
spec fn lit_before(
    origin: Point,
    occ: Set<(i32, i32)>,
    radius: int,
    row: int,
    col: int,
    c: (i32, i32),
) -> bool {
    exists|target: (int, int)|
        chebyshev(target.0, target.1) == radius && (target.1 < row || (target.1 == row && target.0
            < col)) && #[trigger] ray_lights(origin, occ, target, c)
}

impl PlayerFov {
    /// A record with sight of `fov_radius` that has seen nothing yet.
    pub fn new(fov_radius: i32) -> (fov: Self)
        ensures
            fov.fov_radius == fov_radius,
            fov.current_fov@ == Set::<(i32, i32)>::empty(),
    {
        PlayerFov { fov_radius, current_fov: CellSet::new() }
    }

    /// Replaces the visible cells by those seen from `origin` among
    /// `entities`. What was visible before plays no part.
    pub fn recompute(&mut self, origin: Point, entities: &EntityMap)
        ensures
            final(self).fov_radius == old(self).fov_radius,
            final(self).current_fov@ == visible_cells(
                origin,
                occluders(entities@),
                old(self).fov_radius as int,
            ),
            final(self)@ == fresh_fov(entities@, origin, old(self).fov_radius as int),
            final(self).current_fov@.contains((origin.x, origin.y)),
    {
        let occ = collect_occluders(entities);
        let r: i64 = self.fov_radius as i64;
        let mut visible = CellSet::new();
        visible.insert((origin.x, origin.y));
        let ghost home = (origin.x, origin.y);
        let mut dy: i64 = -r;
        assert forall|c: (i32, i32)|
            visible@.contains(c) <==> (c == home || lit_before(
                origin,
                occ@,
                r as int,
                dy as int,
                -r as int,
                c,
            )) by {}
        while dy <= r
            invariant
                r == self.fov_radius,
                home == (origin.x, origin.y),
                -r <= dy,
                dy <= r + 1 || r < 0,
                forall|c: (i32, i32)|
                    visible@.contains(c) <==> (c == home || lit_before(
                        origin,
                        occ@,
                        r as int,
                        dy as int,
                        -r as int,
                        c,
                    )),
            decreases r + 1 - dy,
        {
            let on_rim_row = dy == r || dy == -r;
            let mut dx: i64 = -r;
            while dx <= r
                invariant
                    r == self.fov_radius,
                    home == (origin.x, origin.y),
                    0 <= r,
                    -r <= dy <= r,
                    -r <= dx <= r + 1,
                    on_rim_row == (dy == r || dy == -r),
                    forall|c: (i32, i32)|
                        visible@.contains(c) <==> (c == home || lit_before(
                            origin,
                            occ@,
                            r as int,
                            dy as int,
                            dx as int,
                            c,
                        )),
                decreases r + 1 - dx,
            {
                let ghost before = visible@;
                let ghost here = (dx as int, dy as int);
                let on_rim = on_rim_row || dx == r || dx == -r;
                assert(on_rim == (chebyshev(dx as int, dy as int) == r));
                if on_rim {
                    cast_ray(origin, &occ, &mut visible, dx, dy);
                }
                assert forall|c: (i32, i32)|
                    visible@.contains(c) <==> (c == home || lit_before(
                        origin,
                        occ@,
                        r as int,
                        dy as int,
                        dx + 1,
                        c,
                    )) by {
                    assert(before.contains(c) <==> (c == home || lit_before(
                        origin,
                        occ@,
                        r as int,
                        dy as int,
                        dx as int,
                        c,
                    )));
                    if lit_before(origin, occ@, r as int, dy as int, dx as int, c) {
                        let t = choose|t: (int, int)|
                            chebyshev(t.0, t.1) == r && (t.1 < dy || (t.1 == dy && t.0 < dx))
                                && #[trigger] ray_lights(origin, occ@, t, c);
                        assert(chebyshev(t.0, t.1) == r && (t.1 < dy || (t.1 == dy && t.0 < dx
                            + 1)) && ray_lights(origin, occ@, t, c));
                    }
                    if lit_before(origin, occ@, r as int, dy as int, dx + 1, c) {
                        let t = choose|t: (int, int)|
                            chebyshev(t.0, t.1) == r && (t.1 < dy || (t.1 == dy && t.0 < dx + 1))
                                && #[trigger] ray_lights(origin, occ@, t, c);
                        if t != here {
                            assert(chebyshev(t.0, t.1) == r && (t.1 < dy || (t.1 == dy && t.0
                                < dx)) && ray_lights(origin, occ@, t, c));
                        }
                    }
                    if on_rim && ray_lights(origin, occ@, here, c) {
                        assert(chebyshev(here.0, here.1) == r && (here.1 < dy || (here.1 == dy
                            && here.0 < dx + 1)) && ray_lights(origin, occ@, here, c));
                    }
                }
                dx += 1;
            }
            assert forall|c: (i32, i32)|
                visible@.contains(c) <==> (c == home || lit_before(
                    origin,
                    occ@,
                    r as int,
                    dy + 1,
                    -r as int,
                    c,
                )) by {
                if lit_before(origin, occ@, r as int, dy as int, r + 1, c) {
                    let t = choose|t: (int, int)|
                        chebyshev(t.0, t.1) == r && (t.1 < dy || (t.1 == dy && t.0 < r + 1))
                            && #[trigger] ray_lights(origin, occ@, t, c);
                    assert(chebyshev(t.0, t.1) == r && (t.1 < dy + 1 || (t.1 == dy + 1 && t.0
                        < -r)) && ray_lights(origin, occ@, t, c));
                }
                if lit_before(origin, occ@, r as int, dy + 1, -r as int, c) {
                    let t = choose|t: (int, int)|
                        chebyshev(t.0, t.1) == r && (t.1 < dy + 1 || (t.1 == dy + 1 && t.0 < -r))
                            && #[trigger] ray_lights(origin, occ@, t, c);
                    assert(chebyshev(t.0, t.1) == r && (t.1 < dy || (t.1 == dy && t.0 < r + 1))
                        && ray_lights(origin, occ@, t, c));
                }
            }
            dy += 1;
        }
        assert forall|c: (i32, i32)|
            visible@.contains(c) <==> is_visible(origin, occ@, r as int, c) by {
            if lit_before(origin, occ@, r as int, dy as int, -r as int, c) {
                let t = choose|t: (int, int)|
                    chebyshev(t.0, t.1) == r && (t.1 < dy || (t.1 == dy && t.0 < -r))
                        && #[trigger] ray_lights(origin, occ@, t, c);
                assert(chebyshev(t.0, t.1) == r && ray_lights(origin, occ@, t, c));
            }
            if is_visible(origin, occ@, r as int, c) && c != home {
                let t = choose|t: (int, int)|
                    chebyshev(t.0, t.1) == r && #[trigger] ray_lights(origin, occ@, t, c);
                assert(chebyshev(t.0, t.1) == r && (t.1 < dy || (t.1 == dy && t.0 < -r))
                    && ray_lights(origin, occ@, t, c));
            }
        }
        assert(visible@ =~= visible_cells(origin, occ@, r as int));
        self.current_fov = visible;
    }
}

} // verus!
