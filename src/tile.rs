//! Tile planning and composition: tile ids, zoom gating, clipping in tile
//! space, and the outcome of a tile request.
use vstd::prelude::*;
use crate::config::{LayerGroupCfg, WyrmCfg};
use crate::error::{Error, ErrorModel};
use crate::layer::{in_zoom, layer_spec, LayerDef, LayerModel, ZOOM_MAX};
use crate::text::{parse_u32, parse_u32_spec, substring};

verus! {

/// Number of tiles along each axis at a zoom level.
pub open spec fn grid_size(z: nat) -> nat
    decreases z,
{
    if z == 0 { 1 } else { 2 * grid_size((z - 1) as nat) }
}

proof fn lemma_grid_size_grows(a: nat, b: nat)
    requires
        a <= b,
    ensures
        grid_size(a) <= grid_size(b),
    decreases b - a,
{
    if a < b {
        lemma_grid_size_grows(a, (b - 1) as nat);
    }
}

/// Whether `(x, y, z)` addresses a tile.
pub open spec fn valid_tile(x: u32, y: u32, z: u32) -> bool {
    z <= ZOOM_MAX && x < grid_size(z as nat) && y < grid_size(z as nat)
}

/// Tile address: zoom level and column / row within that zoom's grid
#[derive(Clone, Copy, Debug, PartialEq, Eq, Structural)]
pub struct TileId {
    x: u32,
    y: u32,
    z: u32,
}

impl TileId {
    pub closed spec fn spec_x(&self) -> u32 {
        self.x
    }

    pub closed spec fn spec_y(&self) -> u32 {
        self.y
    }

    pub closed spec fn spec_z(&self) -> u32 {
        self.z
    }

    /// Tiles always have a valid address.
    pub open spec fn wf(&self) -> bool {
        valid_tile(self.spec_x(), self.spec_y(), self.spec_z())
    }

    /// Create a tile id; an address outside the zoom level's grid is refused
    pub fn new(x: u32, y: u32, z: u32) -> (r: Result<TileId, Error>)
        ensures
            match r {
                Ok(t) => valid_tile(x, y, z) && t.spec_x() == x && t.spec_y() == y && t.spec_z() == z,
                Err(e) => !valid_tile(x, y, z) && e == Error::InvalidTileId,
            },
    {
        if z > ZOOM_MAX {
            return Err(Error::InvalidTileId);
        }
        let mut size: u64 = 1;
        let mut i: u32 = 0;
        while i < z
            invariant
                i <= z <= ZOOM_MAX,
                size == grid_size(i as nat),
            decreases z - i,
        {
            proof {
                lemma_grid_size_grows(i as nat, 29);
                reveal_with_fuel(grid_size, 30);
            }
            size = size * 2;
            i = i + 1;
        }
        if (x as u64) < size && (y as u64) < size {
            Ok(TileId { x, y, z })
        } else {
            Err(Error::InvalidTileId)
        }
    }

    /// Get the column
    pub fn x(&self) -> (r: u32)
        ensures
            r == self.spec_x(),
    {
        self.x
    }

    /// Get the row
    pub fn y(&self) -> (r: u32)
        ensures
            r == self.spec_y(),
    {
        self.y
    }

    /// Get the zoom level
    pub fn z(&self) -> (r: u32)
        ensures
            r == self.spec_z(),
    {
        self.z
    }
}

/// Address of a tile route `{z}/{x}/{y}.mvt`, from its three path segments.
pub open spec fn route_spec(z: Seq<char>, x: Seq<char>, tail: Seq<char>) -> Option<(u32, u32, u32)> {
    let suffix = seq!['.', 'm', 'v', 't'];
    if tail.len() >= 4 && tail.skip(tail.len() - 4) == suffix {
        match (parse_u32_spec(z), parse_u32_spec(x), parse_u32_spec(tail.take(tail.len() - 4))) {
            (Some(zz), Some(xx), Some(yy)) => if valid_tile(xx, yy, zz) { Some((xx, yy, zz)) } else { None },
            _ => None,
        }
    } else {
        None
    }
}

impl TileId {
    /// Tile id of a route `{z}/{x}/{y}.mvt`; a malformed or invalid address
    /// is refused
    pub fn from_route(z: &str, x: &str, tail: &str) -> (r: Result<TileId, Error>)
        ensures
            match r {
                Ok(t) => route_spec(z@, x@, tail@) == Some((t.spec_x(), t.spec_y(), t.spec_z())),
                Err(e) => route_spec(z@, x@, tail@) is None && e == Error::InvalidTileId,
            },
    {
        let len = tail.unicode_len();
        if len < 4 {
            return Err(Error::InvalidTileId);
        }
        let suffix = substring(tail, len - 4, len);
        proof {
            reveal_strlit(".mvt");
            assert(suffix@ =~= tail@.skip(len - 4));
        }
        if suffix != String::from_str(".mvt") {
            proof {
                assert(".mvt"@ =~= seq!['.', 'm', 'v', 't']);
            }
            return Err(Error::InvalidTileId);
        }
        proof {
            assert(".mvt"@ =~= seq!['.', 'm', 'v', 't']);
        }
        let y = substring(tail, 0, len - 4);
        proof {
            assert(y@ =~= tail@.take(len - 4));
        }
        match (parse_u32(z), parse_u32(x), parse_u32(y.as_str())) {
            (Some(zz), Some(xx), Some(yy)) => TileId::new(xx, yy, zz),
            _ => Err(Error::InvalidTileId),
        }
    }
}

/// A point in tile space: units of the tile extent, origin at the tile's
/// top-left corner
#[derive(Clone, Copy, Debug, PartialEq, Eq, Structural)]
pub struct TilePt {
    pub x: i32,
    pub y: i32,
}

/// Axis-aligned box in tile space; both edges are inside
#[derive(Clone, Copy, Debug, PartialEq, Eq, Structural)]
pub struct TileBox {
    pub x_min: i64,
    pub y_min: i64,
    pub x_max: i64,
    pub y_max: i64,
}

pub open spec fn inside(p: TilePt, b: TileBox) -> bool {
    b.x_min <= p.x <= b.x_max && b.y_min <= p.y <= b.y_max
}

/// The point of the segment from `p0` to `p1` at parameter `k / d` lies in
/// the box.
pub open spec fn seg_point_in(p0: TilePt, p1: TilePt, b: TileBox, k: int, d: int) -> bool {
    &&& d > 0 && 0 <= k <= d
    &&& axis_ok(p0.x as int, p1.x - p0.x, b.x_min as int, b.x_max as int, k, d)
    &&& axis_ok(p0.y as int, p1.y - p0.y, b.y_min as int, b.y_max as int, k, d)
}

/// On one axis, `p + (k / d) * delta` lies between `lo` and `hi`.
pub open spec fn axis_ok(p: int, delta: int, lo: int, hi: int, k: int, d: int) -> bool {
    d * lo <= d * p + k * delta <= d * hi
}

/// Whether the segment has a point in the box.
pub open spec fn seg_meets(p0: TilePt, p1: TilePt, b: TileBox) -> bool {
    exists|k: int, d: int| #[trigger] seg_point_in(p0, p1, b, k, d)
}

/// `a / b <= c / d`, for positive `b` and `d`.
pub open spec fn frac_le(a: int, b: int, c: int, d: int) -> bool {
    a * d <= c * b
}

/// `k / d` lies in the interval `[ln / ld, un / ud]`.
pub open spec fn in_range(ln: int, ld: int, un: int, ud: int, k: int, d: int) -> bool {
    frac_le(ln, ld, k, d) && frac_le(k, d, un, ud)
}

proof fn lemma_frac_trans(a: int, b: int, k: int, d: int, c: int, e: int)
    requires
        b > 0,
        d > 0,
        e > 0,
        frac_le(a, b, k, d),
        frac_le(k, d, c, e),
    ensures
        frac_le(a, b, c, e),
{
    assert(a * d * e <= k * b * e) by (nonlinear_arith)
        requires a * d <= k * b, e > 0;
    assert(k * e * b <= c * d * b) by (nonlinear_arith)
        requires k * e <= c * d, b > 0;
    assert(a * e * d <= c * b * d) by (nonlinear_arith)
        requires a * d * e <= k * b * e, k * e * b <= c * d * b;
    assert(a * e <= c * b) by (nonlinear_arith)
        requires a * e * d <= c * b * d, d > 0;
}

/// Bound on the numerators of the parameter interval.
pub open spec fn num_bound() -> int {
    0x4_0000_0000_0000_0000
}

/// Bound on the denominators of the parameter interval.
pub open spec fn den_bound() -> int {
    0x4_0000_0000
}

proof fn lemma_product_fits(n: int, d: int)
    requires
        frac_ok(n, d),
    ensures
        -0x10_0000_0000_0000_0000_0000_0000 <= n * d <= 0x10_0000_0000_0000_0000_0000_0000,
{
    let nb = num_bound();
    let db = den_bound();
    assert(nb * db == 0x10_0000_0000_0000_0000_0000_0000);
    if n >= 0 {
        assert(n * d <= nb * d) by (nonlinear_arith) requires n <= nb, d > 0;
        assert(nb * d <= nb * db) by (nonlinear_arith) requires d <= db, nb > 0;
        assert(0 <= n * d) by (nonlinear_arith) requires n >= 0, d > 0;
    } else {
        assert(-n * d <= nb * d) by (nonlinear_arith) requires -n <= nb, d > 0;
        assert(nb * d <= nb * db) by (nonlinear_arith) requires d <= db, nb > 0;
        assert(n * d <= 0) by (nonlinear_arith) requires n < 0, d > 0;
        assert(-n * d == -(n * d)) by (nonlinear_arith);
    }
}

pub open spec fn frac_ok(n: int, d: int) -> bool {
    -num_bound() <= n <= num_bound() && 0 < d <= den_bound()
}

proof fn lemma_axis_bounds(p: int, delta: int, lo: int, hi: int, k: int, d: int, l: (int, int), u: (int, int))
    requires
        d > 0,
        delta > 0 ==> l == (lo - p, delta) && u == (hi - p, delta),
        delta < 0 ==> l == (p - hi, -delta) && u == (p - lo, -delta),
        delta != 0,
    ensures
        axis_ok(p, delta, lo, hi, k, d) <==> in_range(l.0, l.1, u.0, u.1, k, d),
{
    if delta > 0 {
        assert((lo - p) * d == d * lo - d * p) by (nonlinear_arith);
        assert((hi - p) * d == d * hi - d * p) by (nonlinear_arith);
        assert(k * delta == k * delta);
    } else {
        let e = -delta;
        assert(k * delta == -(k * e)) by (nonlinear_arith) requires e == -delta;
        assert((p - hi) * d == d * p - d * hi) by (nonlinear_arith);
        assert((p - lo) * d == d * p - d * lo) by (nonlinear_arith);
    }
}

/// Narrow the parameter interval `[ln / ld, un / ud]` to the parameters at
/// which the segment from `p` to `q` lies between `lo` and `hi` on one axis;
/// none when no parameter is left on that axis.
fn clip_axis(ln: i128, ld: i128, un: i128, ud: i128, p: i32, q: i32, lo: i64, hi: i64) -> (r: Option<(i128, i128, i128, i128)>)
    requires
        frac_ok(ln as int, ld as int),
        frac_ok(un as int, ud as int),
    ensures
        match r {
            Some((ln2, ld2, un2, ud2)) => frac_ok(ln2 as int, ld2 as int) && frac_ok(un2 as int, ud2 as int)
                && forall|k: int, d: int| d > 0 ==> (#[trigger] in_range(ln2 as int, ld2 as int, un2 as int, ud2 as int, k, d)
                    <==> (in_range(ln as int, ld as int, un as int, ud as int, k, d)
                        && axis_ok(p as int, q - p, lo as int, hi as int, k, d))),
            None => forall|k: int, d: int| d > 0 ==> !(#[trigger] in_range(ln as int, ld as int, un as int, ud as int, k, d)
                && axis_ok(p as int, q - p, lo as int, hi as int, k, d)),
        },
{
    let delta = q as i128 - p as i128;
    if delta == 0 {
        if (p as i64) < lo || (p as i64) > hi {
            proof {
                assert forall|k: int, d: int| d > 0 implies !(#[trigger] in_range(ln as int, ld as int, un as int, ud as int, k, d)
                    && axis_ok(p as int, q - p, lo as int, hi as int, k, d)) by {
                    if axis_ok(p as int, q - p, lo as int, hi as int, k, d) {
                        assert(k * (q - p) == 0) by (nonlinear_arith) requires q - p == 0;
                        assert(lo <= p <= hi) by (nonlinear_arith)
                            requires d > 0, d * lo <= d * p, d * p <= d * hi;
                    }
                }
            }
            return None;
        }
        proof {
            assert forall|k: int, d: int| d > 0 implies #[trigger] axis_ok(p as int, q - p, lo as int, hi as int, k, d) by {
                assert(k * (q - p) == 0) by (nonlinear_arith) requires q - p == 0;
                assert(d * lo <= d * p && d * p <= d * hi) by (nonlinear_arith)
                    requires d > 0, lo <= p, p <= hi;
            }
        }
        return Some((ln, ld, un, ud));
    }
    let (l_n, l_d, u_n, u_d) = if delta > 0 {
        (lo as i128 - p as i128, delta, hi as i128 - p as i128, delta)
    } else {
        (p as i128 - hi as i128, -delta, p as i128 - lo as i128, -delta)
    };
    proof {
        assert(frac_ok(l_n as int, l_d as int) && frac_ok(u_n as int, u_d as int));
        lemma_product_fits(l_n as int, ld as int);
        lemma_product_fits(ln as int, l_d as int);
        lemma_product_fits(un as int, u_d as int);
        lemma_product_fits(u_n as int, ud as int);
    }
    // the larger lower end, and the smaller upper end
    let lower_first = l_n * ld <= ln * l_d;
    let (ln2, ld2) = if lower_first { (ln, ld) } else { (l_n, l_d) };
    let upper_first = un * u_d <= u_n * ud;
    let (un2, ud2) = if upper_first { (un, ud) } else { (u_n, u_d) };
    proof {
        assert forall|k: int, d: int| d > 0 implies (#[trigger] in_range(ln2 as int, ld2 as int, un2 as int, ud2 as int, k, d)
            <==> (in_range(ln as int, ld as int, un as int, ud as int, k, d)
                && axis_ok(p as int, q - p, lo as int, hi as int, k, d))) by {
            lemma_axis_bounds(p as int, q - p, lo as int, hi as int, k, d, (l_n as int, l_d as int), (u_n as int, u_d as int));
            if lower_first {
                if frac_le(ln as int, ld as int, k, d) {
                    lemma_frac_trans(l_n as int, l_d as int, ln as int, ld as int, k, d);
                }
            } else {
                if frac_le(l_n as int, l_d as int, k, d) {
                    lemma_frac_trans(ln as int, ld as int, l_n as int, l_d as int, k, d);
                }
            }
            if upper_first {
                if frac_le(k, d, un as int, ud as int) {
                    lemma_frac_trans(k, d, un as int, ud as int, u_n as int, u_d as int);
                }
            } else {
                if frac_le(k, d, u_n as int, u_d as int) {
                    lemma_frac_trans(k, d, u_n as int, u_d as int, un as int, ud as int);
                }
            }
        }
    }
    Some((ln2, ld2, un2, ud2))
}

/// Clip box of a tile: the tile extended by the edge extent on each side.
pub open spec fn clip_box_spec(tile_extent: u32, edge_extent: u32) -> TileBox {
    TileBox {
        x_min: -(edge_extent as int) as i64,
        y_min: -(edge_extent as int) as i64,
        x_max: (tile_extent + edge_extent) as i64,
        y_max: (tile_extent + edge_extent) as i64,
    }
}

/// Clip box of a tile: the tile extended by the edge extent on each side
pub fn clip_box(tile_extent: u32, edge_extent: u32) -> (r: TileBox)
    ensures
        r == clip_box_spec(tile_extent, edge_extent),
{
    let e = edge_extent as i64;
    let t = tile_extent as i64;
    TileBox { x_min: -e, y_min: -e, x_max: t + e, y_max: t + e }
}

/// Whether a point lies in the box
pub fn point_inside(p: TilePt, b: TileBox) -> (r: bool)
    ensures
        r == inside(p, b),
{
    b.x_min <= p.x as i64 && p.x as i64 <= b.x_max && b.y_min <= p.y as i64 && p.y as i64 <= b.y_max
}

/// Whether the segment has a point in the box
pub fn segment_meets(p0: TilePt, p1: TilePt, b: TileBox) -> (r: bool)
    ensures
        r == seg_meets(p0, p1, b),
{
    proof {
        assert forall|k: int, d: int| d > 0 implies (#[trigger] in_range(0, 1, 1, 1, k, d) <==> 0 <= k <= d) by {}
    }
    let (ln, ld, un, ud) = match clip_axis(0, 1, 1, 1, p0.x, p1.x, b.x_min, b.x_max) {
        Some(x) => x,
        None => {
            proof {
                assert forall|k: int, d: int| !#[trigger] seg_point_in(p0, p1, b, k, d) by {
                    if d > 0 {
                        assert(!(in_range(0, 1, 1, 1, k, d) && axis_ok(p0.x as int, p1.x - p0.x, b.x_min as int, b.x_max as int, k, d)));
                    }
                }
            }
            return false;
        },
    };
    let (ln, ld, un, ud) = match clip_axis(ln, ld, un, ud, p0.y, p1.y, b.y_min, b.y_max) {
        Some(y) => y,
        None => {
            proof {
                assert forall|k: int, d: int| !#[trigger] seg_point_in(p0, p1, b, k, d) by {
                    if d > 0 {
                        assert(in_range(0, 1, 1, 1, k, d) && axis_ok(p0.x as int, p1.x - p0.x, b.x_min as int, b.x_max as int, k, d)
                            ==> in_range(ln as int, ld as int, un as int, ud as int, k, d));
                    }
                }
            }
            return false;
        },
    };
    proof {
        lemma_product_fits(ln as int, ud as int);
        lemma_product_fits(un as int, ld as int);
    }
    let r = ln * ud <= un * ld;
    proof {
        assert forall|k: int, d: int| d > 0 implies (#[trigger] seg_point_in(p0, p1, b, k, d)
            <==> in_range(ln as int, ld as int, un as int, ud as int, k, d)) by {
            assert(in_range(0, 1, 1, 1, k, d) <==> 0 <= k <= d);
        }
        if r {
            assert(frac_le(ln as int, ld as int, ln as int, ld as int));
            assert(in_range(ln as int, ld as int, un as int, ud as int, ln as int, ld as int));
            assert(seg_point_in(p0, p1, b, ln as int, ld as int));
        } else {
            assert forall|k: int, d: int| !#[trigger] seg_point_in(p0, p1, b, k, d) by {
                if seg_point_in(p0, p1, b, k, d) {
                    assert(in_range(ln as int, ld as int, un as int, ud as int, k, d));
                    lemma_frac_trans(ln as int, ld as int, k, d, un as int, ud as int);
                }
            }
        }
    }
    r
}

/// The points that lie in the box, in order.
pub open spec fn points_in(pts: Seq<TilePt>, b: TileBox) -> Seq<TilePt>
    decreases pts.len(),
{
    if pts.len() == 0 {
        Seq::empty()
    } else {
        let r = points_in(pts.drop_last(), b);
        if inside(pts.last(), b) { r.push(pts.last()) } else { r }
    }
}

/// Runs after the first `n` segments of a line, and whether the last of them
/// met the box.
pub open spec fn runs_upto(pts: Seq<TilePt>, b: TileBox, n: nat) -> (Seq<Seq<TilePt>>, bool)
    decreases n,
{
    if n == 0 || n >= pts.len() {
        (Seq::empty(), false)
    } else {
        let (rs, connected) = runs_upto(pts, b, (n - 1) as nat);
        let p0 = pts[n - 1];
        let p1 = pts[n as int];
        if seg_meets(p0, p1, b) {
            if connected && rs.len() > 0 {
                (rs.update(rs.len() - 1, rs.last().push(p1)), true)
            } else {
                (rs.push(seq![p0, p1]), true)
            }
        } else {
            (rs, false)
        }
    }
}

/// Maximal runs of consecutive segments that meet the box: each run is one
/// sub-linestring.
pub open spec fn line_runs(pts: Seq<TilePt>, b: TileBox) -> Seq<Seq<TilePt>> {
    if pts.len() < 2 {
        Seq::empty()
    } else {
        runs_upto(pts, b, (pts.len() - 1) as nat).0
    }
}

pub open spec fn tile_pts_view(v: Seq<Vec<TilePt>>) -> Seq<Seq<TilePt>> {
    v.map_values(|p: Vec<TilePt>| p@)
}

/// Encode points: those in the box
pub fn encode_points(pts: &Vec<TilePt>, b: TileBox) -> (r: Vec<TilePt>)
    ensures
        r@ == points_in(pts@, b),
{
    let mut out: Vec<TilePt> = Vec::new();
    let mut i: usize = 0;
    while i < pts.len()
        invariant
            i <= pts@.len(),
            out@ == points_in(pts@.take(i as int), b),
        decreases pts@.len() - i,
    {
        proof {
            assert(pts@.take(i + 1).drop_last() =~= pts@.take(i as int));
        }
        if point_inside(pts[i], b) {
            out.push(pts[i]);
        }
        i = i + 1;
    }
    assert(pts@.take(i as int) =~= pts@);
    out
}

/// Encode a linestring: split at the box edges into runs of segments that
/// meet the box
pub fn encode_linestring(pts: &Vec<TilePt>, b: TileBox) -> (r: Vec<Vec<TilePt>>)
    ensures
        tile_pts_view(r@) == line_runs(pts@, b),
{
    let mut out: Vec<Vec<TilePt>> = Vec::new();
    if pts.len() < 2 {
        assert(tile_pts_view(out@) =~= Seq::<Seq<TilePt>>::empty());
        return out;
    }
    let mut connected = false;
    let mut n: usize = 1;
    assert(tile_pts_view(out@) =~= Seq::<Seq<TilePt>>::empty());
    while n < pts.len()
        invariant
            1 <= n <= pts@.len(),
            (tile_pts_view(out@), connected) == runs_upto(pts@, b, (n - 1) as nat),
        decreases pts@.len() - n,
    {
        let p0 = pts[n - 1];
        let p1 = pts[n];
        let ghost before = tile_pts_view(out@);
        if segment_meets(p0, p1, b) {
            if connected && out.len() > 0 {
                let last = out.len() - 1;
                let mut run = out.swap_remove(last);
                run.push(p1);
                out.push(run);
                proof {
                    assert(tile_pts_view(out@) =~= before.update(before.len() - 1, before.last().push(p1)));
                }
            } else {
                let mut run: Vec<TilePt> = Vec::new();
                run.push(p0);
                run.push(p1);
                out.push(run);
                proof {
                    assert(run@ =~= seq![p0, p1]);
                    assert(tile_pts_view(out@) =~= before.push(seq![p0, p1]));
                }
            }
            connected = true;
        } else {
            connected = false;
        }
        n = n + 1;
    }
    out
}

/// Ring points for encoding: the closing point is left out, as the close is
/// implicit.
pub open spec fn ring_points(pts: Seq<TilePt>) -> Seq<TilePt> {
    if pts.len() > 0 && pts[0] == pts.last() { pts.drop_last() } else { pts }
}

/// The rings to encode: each ring, without its closing point; the encoder
/// clips them to the box.
pub open spec fn polygon_rings(rings: Seq<Seq<TilePt>>) -> Seq<Seq<TilePt>> {
    rings.map_values(|r: Seq<TilePt>| ring_points(r))
}

/// Encode polygon rings: every ring, each without its closing point
pub fn encode_polygon(rings: &Vec<Vec<TilePt>>) -> (r: Vec<Vec<TilePt>>)
    ensures
        tile_pts_view(r@) == polygon_rings(tile_pts_view(rings@)),
{
    let ghost rv = tile_pts_view(rings@);
    let mut out: Vec<Vec<TilePt>> = Vec::new();
    let mut i: usize = 0;
    while i < rings.len()
        invariant
            i <= rings@.len(),
            rv == tile_pts_view(rings@),
            tile_pts_view(out@) == polygon_rings(rv.take(i as int)),
        decreases rings@.len() - i,
    {
        let ring = &rings[i];
        let mut pts = ring.clone();
        let n = pts.len();
        if n > 0 && pts[0] == pts[n - 1] {
            pts.pop();
        }
        let ghost before = tile_pts_view(out@);
        out.push(pts);
        proof {
            assert(pts@ =~= ring_points(ring@));
            assert(tile_pts_view(out@) =~= before.push(pts@));
            assert(polygon_rings(rv.take(i + 1)) =~= polygon_rings(rv.take(i as int)).push(ring_points(rv[i as int])));
        }
        i = i + 1;
    }
    assert(rv.take(i as int) =~= rv);
    out
}

} // verus!

verus! {

/// Model of a layer group: its name and layer rules.
pub struct GroupModel {
    pub name: Seq<char>,
    pub layers: Seq<LayerModel>,
}

/// Layer rules of a group's layer configurations; the first failing layer
/// gives the error.
pub open spec fn layers_spec(cfgs: Seq<crate::config::LayerCfg>) -> Result<Seq<LayerModel>, ErrorModel>
    decreases cfgs.len(),
{
    if cfgs.len() == 0 {
        Ok(Seq::empty())
    } else {
        match layers_spec(cfgs.drop_last()) {
            Err(e) => Err(e),
            Ok(ls) => match layer_spec(&cfgs.last()) {
                Err(e) => Err(e),
                Ok(l) => Ok(ls.push(l)),
            },
        }
    }
}

/// Layer groups of the group configurations; the first failing layer gives
/// the error.
pub open spec fn groups_spec(cfgs: Seq<LayerGroupCfg>) -> Result<Seq<GroupModel>, ErrorModel>
    decreases cfgs.len(),
{
    if cfgs.len() == 0 {
        Ok(Seq::empty())
    } else {
        match groups_spec(cfgs.drop_last()) {
            Err(e) => Err(e),
            Ok(gs) => match layers_spec(cfgs.last().layer@) {
                Err(e) => Err(e),
                Ok(ls) => Ok(gs.push(GroupModel { name: cfgs.last().name@, layers: ls })),
            },
        }
    }
}

/// Group of layers for making tiles
pub struct LayerGroup {
    name: String,
    layers: Vec<LayerDef>,
}

pub open spec fn layer_defs_view(v: Seq<LayerDef>) -> Seq<LayerModel> {
    v.map_values(|l: LayerDef| l@)
}

impl View for LayerGroup {
    type V = GroupModel;

    closed spec fn view(&self) -> GroupModel {
        GroupModel { name: self.name@, layers: layer_defs_view(self.layers@) }
    }
}

impl LayerGroup {
    /// Create a layer group from its configuration
    pub fn from_cfg(group: &LayerGroupCfg) -> (r: Result<LayerGroup, Error>)
        ensures
            match r {
                Ok(g) => layers_spec(group.layer@) == Ok::<Seq<LayerModel>, ErrorModel>(g@.layers)
                    && g@.name == group.name@,
                Err(e) => layers_spec(group.layer@) == Err::<Seq<LayerModel>, ErrorModel>(e@),
            },
    {
        let mut layers: Vec<LayerDef> = Vec::new();
        let mut i: usize = 0;
        assert(group.layer@.take(0) =~= Seq::<crate::config::LayerCfg>::empty());
        assert(layer_defs_view(layers@) =~= Seq::<LayerModel>::empty());
        while i < group.layer.len()
            invariant
                i <= group.layer@.len(),
                layers_spec(group.layer@.take(i as int)) == Ok::<Seq<LayerModel>, ErrorModel>(layer_defs_view(layers@)),
            decreases group.layer@.len() - i,
        {
            proof {
                assert(group.layer@.take(i + 1).drop_last() =~= group.layer@.take(i as int));
                assert(group.layer@.take(i + 1).last() == group.layer@[i as int]);
            }
            match LayerDef::from_cfg(&group.layer[i]) {
                Ok(l) => {
                    let ghost before = layers@;
                    layers.push(l);
                    proof {
                        assert(layer_defs_view(layers@) =~= layer_defs_view(before).push(l@));
                    }
                },
                Err(e) => {
                    proof {
                        lemma_layers_err_stays(group.layer@, i + 1);
                    }
                    return Err(e);
                },
            }
            i = i + 1;
        }
        assert(group.layer@.take(i as int) =~= group.layer@);
        Ok(LayerGroup { name: group.name.clone(), layers })
    }

    /// Get the group name
    pub fn name(&self) -> (r: &String)
        ensures
            r@ == self@.name,
    {
        &self.name
    }

    /// Get the layer rules
    pub fn layers(&self) -> (r: &Vec<LayerDef>)
        ensures
            layer_defs_view(r@) == self@.layers,
    {
        &self.layers
    }
}

proof fn lemma_layers_err_stays(cfgs: Seq<crate::config::LayerCfg>, k: int)
    requires
        0 <= k <= cfgs.len(),
        layers_spec(cfgs.take(k)) is Err,
    ensures
        layers_spec(cfgs) == layers_spec(cfgs.take(k)),
    decreases cfgs.len() - k,
{
    if k < cfgs.len() {
        assert(cfgs.take(k + 1).drop_last() =~= cfgs.take(k));
        lemma_layers_err_stays(cfgs, k + 1);
    } else {
        assert(cfgs.take(k) =~= cfgs);
    }
}

proof fn lemma_groups_err_stays(cfgs: Seq<LayerGroupCfg>, k: int)
    requires
        0 <= k <= cfgs.len(),
        groups_spec(cfgs.take(k)) is Err,
    ensures
        groups_spec(cfgs) == groups_spec(cfgs.take(k)),
    decreases cfgs.len() - k,
{
    if k < cfgs.len() {
        assert(cfgs.take(k + 1).drop_last() =~= cfgs.take(k));
        lemma_groups_err_stays(cfgs, k + 1);
    } else {
        assert(cfgs.take(k) =~= cfgs);
    }
}

/// Index of the first group with the name, or -1.
pub open spec fn find_group(groups: Seq<GroupModel>, name: Seq<char>) -> int
    decreases groups.len(),
{
    if groups.len() == 0 {
        -1
    } else if groups[0].name == name {
        0
    } else {
        let r = find_group(groups.drop_first(), name);
        if r < 0 { -1 } else { r + 1 }
    }
}

/// Indices of the layers whose zoom range holds the zoom level, in order.
pub open spec fn zoom_layers(layers: Seq<LayerModel>, z: u32) -> Seq<usize>
    decreases layers.len(),
{
    if layers.len() == 0 {
        Seq::empty()
    } else {
        let r = zoom_layers(layers.drop_last(), z);
        if in_zoom(layers.last(), z) { r.push((layers.len() - 1) as usize) } else { r }
    }
}

/// Plan of one tile: the group, the layers in zoom, and the clip box
#[derive(Debug)]
pub struct TilePlan {
    pub group: usize,
    pub tid: TileId,
    pub tile_extent: u32,
    pub clip: TileBox,
    pub layers: Vec<usize>,
}

/// Tile fetcher: layer groups and tile geometry settings
pub struct Wyrm {
    tile_extent: u32,
    edge_extent: u32,
    groups: Vec<LayerGroup>,
}

pub open spec fn groups_view(v: Seq<LayerGroup>) -> Seq<GroupModel> {
    v.map_values(|g: LayerGroup| g@)
}

impl Wyrm {
    pub closed spec fn spec_groups(&self) -> Seq<GroupModel> {
        groups_view(self.groups@)
    }

    pub closed spec fn spec_tile_extent(&self) -> u32 {
        self.tile_extent
    }

    pub closed spec fn spec_edge_extent(&self) -> u32 {
        self.edge_extent
    }

    /// Create a tile fetcher from the configuration
    pub fn from_cfg(cfg: &WyrmCfg) -> (r: Result<Wyrm, Error>)
        ensures
            match r {
                Ok(w) => groups_spec(cfg.layer_group@) == Ok::<Seq<GroupModel>, ErrorModel>(w.spec_groups())
                    && w.spec_tile_extent() == cfg.tile_extent && w.spec_edge_extent() == cfg.edge_extent,
                Err(e) => groups_spec(cfg.layer_group@) == Err::<Seq<GroupModel>, ErrorModel>(e@),
            },
    {
        let mut groups: Vec<LayerGroup> = Vec::new();
        let mut i: usize = 0;
        assert(cfg.layer_group@.take(0) =~= Seq::<LayerGroupCfg>::empty());
        assert(groups_view(groups@) =~= Seq::<GroupModel>::empty());
        while i < cfg.layer_group.len()
            invariant
                i <= cfg.layer_group@.len(),
                groups_spec(cfg.layer_group@.take(i as int)) == Ok::<Seq<GroupModel>, ErrorModel>(groups_view(groups@)),
            decreases cfg.layer_group@.len() - i,
        {
            proof {
                assert(cfg.layer_group@.take(i + 1).drop_last() =~= cfg.layer_group@.take(i as int));
                assert(cfg.layer_group@.take(i + 1).last() == cfg.layer_group@[i as int]);
            }
            match LayerGroup::from_cfg(&cfg.layer_group[i]) {
                Ok(g) => {
                    let ghost before = groups@;
                    groups.push(g);
                    proof {
                        assert(groups_view(groups@) =~= groups_view(before).push(g@));
                    }
                },
                Err(e) => {
                    proof {
                        lemma_groups_err_stays(cfg.layer_group@, i + 1);
                    }
                    return Err(e);
                },
            }
            i = i + 1;
        }
        assert(cfg.layer_group@.take(i as int) =~= cfg.layer_group@);
        Ok(Wyrm { tile_extent: cfg.tile_extent, edge_extent: cfg.edge_extent, groups })
    }

    /// Get the layer groups
    pub fn groups(&self) -> (r: &Vec<LayerGroup>)
        ensures
            groups_view(r@) == self.spec_groups(),
    {
        &self.groups
    }

    /// Get the tile extent
    pub fn tile_extent(&self) -> (r: u32)
        ensures
            r == self.spec_tile_extent(),
    {
        self.tile_extent
    }

    /// Get the edge extent
    pub fn edge_extent(&self) -> (r: u32)
        ensures
            r == self.spec_edge_extent(),
    {
        self.edge_extent
    }

    /// Plan a tile of a group: the layers whose zoom range holds the tile's
    /// zoom, and the clip box; an unknown group name is refused
    pub fn plan_tile(&self, group_name: &str, tid: TileId) -> (r: Result<TilePlan, Error>)
        ensures
            ({
                let g = find_group(self.spec_groups(), group_name@);
                match r {
                    Ok(p) => 0 <= g < self.spec_groups().len() && p.group == g && p.tid == tid
                        && p.tile_extent == self.spec_tile_extent()
                        && p.clip == clip_box_spec(self.spec_tile_extent(), self.spec_edge_extent())
                        && p.layers@ == zoom_layers(self.spec_groups()[g].layers, tid.spec_z()),
                    Err(e) => g < 0 && e == Error::UnknownGroupName,
                }
            }),
    {
        let name = String::from_str(group_name);
        let ghost gs = self.spec_groups();
        let mut i: usize = 0;
        assert(gs.skip(0) =~= gs);
        while i < self.groups.len()
            invariant
                i <= self.groups@.len(),
                gs == self.spec_groups(),
                name@ == group_name@,
                find_group(gs, group_name@) == if find_group(gs.skip(i as int), group_name@) < 0 {
                    -1
                } else {
                    find_group(gs.skip(i as int), group_name@) + i
                },
            decreases self.groups@.len() - i,
        {
            proof {
                assert(gs.skip(i as int)[0] == self.groups@[i as int]@);
                assert(gs.skip(i as int).drop_first() =~= gs.skip(i + 1));
            }
            if self.groups[i].name == name {
                let layers = zoom_layer_indices(&self.groups[i].layers, tid.z());
                let clip = clip_box(self.tile_extent, self.edge_extent);
                return Ok(TilePlan { group: i, tid, tile_extent: self.tile_extent, clip, layers });
            }
            i = i + 1;
        }
        Err(Error::UnknownGroupName)
    }
}

/// Indices of the layers whose zoom range holds the zoom level
pub fn zoom_layer_indices(layers: &Vec<LayerDef>, z: u32) -> (r: Vec<usize>)
    ensures
        r@ == zoom_layers(layer_defs_view(layers@), z),
{
    let ghost lv = layer_defs_view(layers@);
    let mut out: Vec<usize> = Vec::new();
    let mut i: usize = 0;
    assert(lv.take(0) =~= Seq::<LayerModel>::empty());
    while i < layers.len()
        invariant
            i <= layers@.len(),
            lv == layer_defs_view(layers@),
            out@ == zoom_layers(lv.take(i as int), z),
        decreases layers@.len() - i,
    {
        proof {
            assert(lv.take(i + 1).drop_last() =~= lv.take(i as int));
            assert(lv.take(i + 1).last() == layers@[i as int]@);
        }
        if layers[i].check_zoom(z) {
            out.push(i);
        }
        i = i + 1;
    }
    assert(lv.take(i as int) =~= lv);
    out
}

/// Indices of the layers with features, in order.
pub open spec fn nonempty_layers(counts: Seq<usize>) -> Seq<usize>
    decreases counts.len(),
{
    if counts.len() == 0 {
        Seq::empty()
    } else {
        let r = nonempty_layers(counts.drop_last());
        if counts.last() > 0 { r.push((counts.len() - 1) as usize) } else { r }
    }
}

/// Layers kept in a tile, from the number of features each produced: those
/// with features; a tile without any is empty.
pub open spec fn finish_spec(counts: Seq<usize>) -> Result<Seq<usize>, ErrorModel> {
    if nonempty_layers(counts).len() == 0 {
        Err(ErrorModel::TileEmpty)
    } else {
        Ok(nonempty_layers(counts))
    }
}

/// Layers to keep in a tile, from the number of features each produced
pub fn finish_tile(counts: &Vec<usize>) -> (r: Result<Vec<usize>, Error>)
    ensures
        match r {
            Ok(v) => finish_spec(counts@) == Ok::<Seq<usize>, ErrorModel>(v@),
            Err(e) => finish_spec(counts@) == Err::<Seq<usize>, ErrorModel>(e@),
        },
{
    let mut out: Vec<usize> = Vec::new();
    let mut i: usize = 0;
    assert(counts@.take(0) =~= Seq::<usize>::empty());
    while i < counts.len()
        invariant
            i <= counts@.len(),
            out@ == nonempty_layers(counts@.take(i as int)),
        decreases counts@.len() - i,
    {
        proof {
            assert(counts@.take(i + 1).drop_last() =~= counts@.take(i as int));
        }
        if counts[i] > 0 {
            out.push(i);
        }
        i = i + 1;
    }
    assert(counts@.take(i as int) =~= counts@);
    if out.len() == 0 {
        Err(Error::TileEmpty)
    } else {
        Ok(out)
    }
}

/// Outcome of a tile request at the boundary
#[derive(Clone, Copy, Debug, PartialEq, Eq, Structural)]
pub enum Outcome {
    /// Tile bytes
    Tile,
    /// Well-formed request, tile without features
    Empty,
    /// Unknown group or malformed tile id
    NotFound,
    /// Any other failure
    InternalError,
}

pub open spec fn outcome_spec(e: ErrorModel) -> Outcome {
    match e {
        ErrorModel::TileEmpty => Outcome::Empty,
        ErrorModel::UnknownGroupName => Outcome::NotFound,
        ErrorModel::InvalidTileId => Outcome::NotFound,
        _ => Outcome::InternalError,
    }
}

pub open spec fn status_spec(o: Outcome) -> u16 {
    match o {
        Outcome::Tile => 200,
        Outcome::Empty => 204,
        Outcome::NotFound => 404,
        Outcome::InternalError => 500,
    }
}

impl Outcome {
    /// Outcome of a failed request
    pub fn of_error(e: &Error) -> (r: Outcome)
        ensures
            r == outcome_spec(e@),
    {
        match e {
            Error::TileEmpty => Outcome::Empty,
            Error::UnknownGroupName => Outcome::NotFound,
            Error::InvalidTileId => Outcome::NotFound,
            _ => Outcome::InternalError,
        }
    }

    /// HTTP status code of the outcome
    pub fn status(&self) -> (r: u16)
        ensures
            r == status_spec(*self),
    {
        match self {
            Outcome::Tile => 200,
            Outcome::Empty => 204,
            Outcome::NotFound => 404,
            Outcome::InternalError => 500,
        }
    }
}

/// A layer contributes to a tile exactly when its zoom range holds the
/// tile's zoom level.
pub proof fn lemma_zoom_gating(layers: Seq<LayerModel>, z: u32, i: int)
    requires
        0 <= i < layers.len(),
        layers.len() <= usize::MAX,
    ensures
        zoom_layers(layers, z).contains(i as usize) <==> in_zoom(layers[i], z),
    decreases layers.len(),
{
    lemma_zoom_layers_below(layers, z);
    let prev = layers.drop_last();
    if i < layers.len() - 1 {
        assert(prev[i] == layers[i]);
        lemma_zoom_gating(prev, z, i);
        let r = zoom_layers(prev, z);
        if in_zoom(layers.last(), z) {
            assert(zoom_layers(layers, z) == r.push((layers.len() - 1) as usize));
            if zoom_layers(layers, z).contains(i as usize) {
                let k = choose|k: int| 0 <= k < zoom_layers(layers, z).len() && zoom_layers(layers, z)[k] == i as usize;
                if k < r.len() {
                    assert(r[k] == i as usize);
                }
            }
            if r.contains(i as usize) {
                let k = choose|k: int| 0 <= k < r.len() && r[k] == i as usize;
                assert(zoom_layers(layers, z)[k] == i as usize);
            }
        }
    } else {
        let r = zoom_layers(prev, z);
        lemma_zoom_layers_below(prev, z);
        if in_zoom(layers.last(), z) {
            assert(zoom_layers(layers, z)[r.len() as int] == i as usize);
        } else {
            if r.contains(i as usize) {
                let k = choose|k: int| 0 <= k < r.len() && r[k] == i as usize;
                assert(r[k] < prev.len());
            }
        }
    }
}

proof fn lemma_zoom_layers_below(layers: Seq<LayerModel>, z: u32)
    requires
        layers.len() <= usize::MAX,
    ensures
        forall|k: int| 0 <= k < zoom_layers(layers, z).len() ==> (#[trigger] zoom_layers(layers, z)[k]) < layers.len(),
    decreases layers.len(),
{
    if layers.len() > 0 {
        let prev = layers.drop_last();
        lemma_zoom_layers_below(prev, z);
        let r = zoom_layers(prev, z);
        assert forall|k: int| 0 <= k < zoom_layers(layers, z).len() implies (#[trigger] zoom_layers(layers, z)[k]) < layers.len() by {
            if k < r.len() {
                assert(zoom_layers(layers, z)[k] == r[k]);
            }
        }
    }
}

/// An unknown group and a tile whose layers all came out empty end in
/// different outcomes: not found, and tile-empty.
pub proof fn lemma_empty_vs_missing(groups: Seq<GroupModel>, name: Seq<char>, counts: Seq<usize>)
    requires
        forall|i: int| 0 <= i < groups.len() ==> (#[trigger] groups[i]).name != name,
        forall|i: int| 0 <= i < counts.len() ==> #[trigger] counts[i] == 0,
    ensures
        find_group(groups, name) < 0,
        finish_spec(counts) == Err::<Seq<usize>, ErrorModel>(ErrorModel::TileEmpty),
        status_spec(outcome_spec(ErrorModel::UnknownGroupName)) == 404,
        status_spec(outcome_spec(ErrorModel::TileEmpty)) == 204,
    decreases groups.len() + counts.len(),
{
    if groups.len() > 0 {
        assert forall|i: int| 0 <= i < groups.drop_first().len() implies (#[trigger] groups.drop_first()[i]).name != name by {
            assert(groups.drop_first()[i] == groups[i + 1]);
        }
        lemma_empty_vs_missing(groups.drop_first(), name, counts);
        assert(groups[0].name != name);
    } else if counts.len() > 0 {
        assert forall|i: int| 0 <= i < counts.drop_last().len() implies #[trigger] counts.drop_last()[i] == 0 by {
            assert(counts.drop_last()[i] == counts[i]);
        }
        lemma_empty_vs_missing(groups, name, counts.drop_last());
        assert(counts.last() == counts[counts.len() - 1]);
    }
}

} // verus!
