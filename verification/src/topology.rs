//! Triangle index lists of the engine's generated meshes: bands of quads
//! between concentric rings, a square grid, and a fan around a center.

use crate::mesh::{self, all_below};
use vstd::prelude::*;

verus! {

/// The two triangles of cell `i` of band `r` between ring `r` and ring
/// `r + 1`, with `seg` vertices per ring.
pub open spec fn band_cell(seg: int, r: int, i: int) -> Seq<u32> {
    let curr = (r * seg + i) as u32;
    let next = (r * seg + (i + 1) % seg) as u32;
    let curr_outer = ((r + 1) * seg + i) as u32;
    let next_outer = ((r + 1) * seg + (i + 1) % seg) as u32;
    seq![curr, curr_outer, next, next, curr_outer, next_outer]
}

/// The first `i` cells of band `r`.
pub open spec fn band_row(seg: int, r: int, i: nat) -> Seq<u32>
    decreases i,
{
    if i == 0 {
        Seq::empty()
    } else {
        band_row(seg, r, (i - 1) as nat) + band_cell(seg, r, i - 1)
    }
}

/// The triangles of the first `r` bands.
pub open spec fn band_rows(seg: int, r: nat) -> Seq<u32>
    decreases r,
{
    if r == 0 {
        Seq::empty()
    } else {
        band_rows(seg, (r - 1) as nat) + band_row(seg, r - 1, seg as nat)
    }
}

proof fn lemma_band_cell(seg: int, rings: int, r: int, i: int)
    requires
        0 <= r < rings,
        0 <= i < seg,
        (rings + 1) * seg <= 0x1_0000_0000,
    ensures
        all_below(band_cell(seg, r, i), (rings + 1) * seg),
{
    assert((r + 1) * seg + seg <= (rings + 1) * seg) by (nonlinear_arith)
        requires
            0 <= r < rings,
            0 <= seg,
    ;
    assert(r * seg + seg == (r + 1) * seg) by (nonlinear_arith);
    assert(0 <= r * seg) by (nonlinear_arith)
        requires
            0 <= r,
            0 <= seg,
    ;
    assert(0 <= (i + 1) % seg < seg);
}

proof fn lemma_band_row(seg: int, rings: int, r: int, i: nat)
    requires
        0 <= r < rings,
        i <= seg,
        (rings + 1) * seg <= 0x1_0000_0000,
    ensures
        all_below(band_row(seg, r, i), (rings + 1) * seg),
        band_row(seg, r, i).len() == 6 * i,
    decreases i,
{
    if i > 0 {
        lemma_band_row(seg, rings, r, (i - 1) as nat);
        lemma_band_cell(seg, rings, r, i - 1);
    }
}

proof fn lemma_band_rows(seg: int, rings: int, r: nat)
    requires
        r <= rings,
        0 <= seg,
        (rings + 1) * seg <= 0x1_0000_0000,
    ensures
        all_below(band_rows(seg, r), (rings + 1) * seg),
        band_rows(seg, r).len() == 6 * seg * r,
    decreases r,
{
    if r > 0 {
        lemma_band_rows(seg, rings, (r - 1) as nat);
        lemma_band_row(seg, rings, r - 1, seg as nat);
        assert(band_rows(seg, r).len() == band_rows(seg, (r - 1) as nat).len() + band_row(seg, r - 1, seg as nat).len());
        assert(6 * seg * (r - 1) + 6 * seg == 6 * seg * r) by (nonlinear_arith);
    } else {
        assert(6 * seg * r == 0) by (nonlinear_arith)
            requires
                r == 0,
        ;
    }
}

/// Entry `j` of cell `i` of band `r` stands at index `6 * seg * r + 6 * i + j`
/// of the triangle list.
proof fn lemma_band_at(seg: int, rings: int, r: int, i: int, j: int)
    requires
        seg >= 1,
        0 <= r < rings,
        0 <= i < seg,
        0 <= j < 6,
        (rings + 1) * seg <= 0x1_0000_0000,
    ensures
        band_rows(seg, rings as nat)[6 * seg * r + 6 * i + j] == band_cell(seg, r, i)[j],
{
    let f = |m: nat| band_rows(seg, m);
    assert forall|m: nat| (r + 1) as nat <= m < rings as nat implies #[trigger] f(m + 1).len() >= f(
        m,
    ).len() && (forall|k: int| 0 <= k < f(m).len() ==> #[trigger] f(m + 1)[k] == f(m)[k]) by {
        assert(f(m + 1) == f(m) + band_row(seg, m as int, seg as nat));
    }
    mesh::lemma_grows_by_append(f, (r + 1) as nat, rings as nat);
    let g = |m: nat| band_row(seg, r, m);
    assert forall|m: nat| (i + 1) as nat <= m < seg as nat implies #[trigger] g(m + 1).len() >= g(
        m,
    ).len() && (forall|k: int| 0 <= k < g(m).len() ==> #[trigger] g(m + 1)[k] == g(m)[k]) by {
        assert(g(m + 1) == g(m) + band_cell(seg, r, m as int));
    }
    mesh::lemma_grows_by_append(g, (i + 1) as nat, seg as nat);
    lemma_band_rows(seg, rings, r as nat);
    lemma_band_row(seg, rings, r, i as nat);
    lemma_band_row(seg, rings, r, seg as nat);
    let x = band_rows(seg, r as nat);
    let y = band_row(seg, r, seg as nat);
    let p = band_row(seg, r, i as nat);
    let c = band_cell(seg, r, i);
    assert(f((r + 1) as nat) == x + y);
    assert(g((i + 1) as nat) == p + c);
    let q = 6 * i + j;
    assert((p + c)[q] == c[j]);
    assert(y[q] == c[j]);
    assert((x + y)[6 * seg * r + q] == y[q]);
}

/// The triangles of a ring mesh in closed form, all wound the same way.
/// Vertex `i` of ring `r` is `c = r * segments + i`; its neighbour on the
/// same ring is `n = c - i + (i + 1) % segments`. Cell `c` of the bands
/// (indices `6c .. 6c + 6`) is the triangle `(c, c + segments, n)` followed
/// by `(n, c + segments, n + segments)`.
pub proof fn lemma_ring_band_triangles_closed_form(segments: nat, rings: nat)
    requires
        segments >= 1,
        (rings + 1) * segments <= 0x1_0000_0000,
    ensures
        band_rows(segments as int, rings).len() == 6 * segments * rings,
        forall|k: int|
            #![trigger band_rows(segments as int, rings)[k]]
            0 <= k < 6 * segments * rings ==> {
                let c = k / 6;
                let i = c % (segments as int);
                let n = c - i + (i + 1) % (segments as int);
                band_rows(segments as int, rings)[k] == if k % 6 == 0 {
                    c
                } else if k % 6 == 1 || k % 6 == 4 {
                    c + segments
                } else if k % 6 == 5 {
                    n + segments
                } else {
                    n
                }
            },
{
    let s = segments as int;
    let rg = rings as int;
    let t = band_rows(s, rings);
    lemma_band_rows(s, rg, rings);
    assert forall|k: int| #![trigger t[k]] 0 <= k < 6 * s * rg implies {
        let c = k / 6;
        let i = c % s;
        let n = c - i + (i + 1) % s;
        t[k] == if k % 6 == 0 {
            c
        } else if k % 6 == 1 || k % 6 == 4 {
            c + s
        } else if k % 6 == 5 {
            n + s
        } else {
            n
        }
    } by {
        vstd::arithmetic::div_mod::lemma_fundamental_div_mod(k, 6);
        let c = k / 6;
        let j = k % 6;
        vstd::arithmetic::div_mod::lemma_fundamental_div_mod(c, s);
        vstd::arithmetic::div_mod::lemma_mod_pos_bound(c, s);
        let r = c / s;
        let i = c % s;
        assert(0 <= r < rg) by (nonlinear_arith)
            requires
                c == s * r + i,
                0 <= i < s,
                0 <= c,
                6 * c <= k,
                k < 6 * s * rg,
        ;
        lemma_band_at(s, rg, r, i, j);
        assert(6 * s * r + 6 * i + j == k) by (nonlinear_arith)
            requires
                k == 6 * c + j,
                c == s * r + i,
        ;
        assert(r * s == s * r) by (nonlinear_arith);
        assert((r + 1) * s == s * r + s) by (nonlinear_arith);
        assert((r + 2) * s <= (rg + 1) * s) by (nonlinear_arith)
            requires
                r + 2 <= rg + 1,
                0 <= s,
        ;
        assert((r + 2) * s == s * r + 2 * s) by (nonlinear_arith);
        assert(0 <= (i + 1) % s < s);
        let n = c - i + (i + 1) % s;
        let cell = band_cell(s, r, i);
        assert(cell[0] == c as u32 && cell[1] == (c + s) as u32 && cell[2] == n as u32 && cell[3]
            == n as u32 && cell[4] == (c + s) as u32 && cell[5] == (n + s) as u32);
    }
}

/// Triangles of a mesh of `rings + 1` concentric rings of `segments`
/// vertices each (ring `r` holds vertices `r * segments ..`): each cell
/// between two rings gives two triangles, wrapping around each ring.
pub fn ring_band_triangles(segments: u32, rings: u32) -> (tris: Vec<u32>)
    requires
        rings == 0 || (rings + 1) * segments <= 0x1_0000_0000,
    ensures
        tris@ == band_rows(segments as int, rings as nat),
        tris@.len() == 6 * segments * rings,
        all_below(tris@, (rings + 1) * segments),
{
    let ghost seg = segments as int;
    let ghost rg = rings as int;
    let mut triangles: Vec<u32> = Vec::new();
    let mut r: u32 = 0;
    while r < rings
        invariant
            seg == segments as int,
            rg == rings as int,
            r <= rings,
            rings == 0 || (rings + 1) * segments <= 0x1_0000_0000,
            triangles@ == band_rows(seg, r as nat),
        decreases rings - r,
    {
        let mut i: u32 = 0;
        while i < segments
            invariant
                seg == segments as int,
                rg == rings as int,
                r < rings,
                i <= segments,
                (rings + 1) * segments <= 0x1_0000_0000,
                triangles@ == band_rows(seg, r as nat) + band_row(seg, r as int, i as nat),
            decreases segments - i,
        {
            proof {
                assert((r + 1) * seg + seg <= (rg + 1) * seg) by (nonlinear_arith)
                    requires
                        0 <= r < rg,
                        0 <= seg,
                ;
                assert(r * seg + seg == (r + 1) * seg) by (nonlinear_arith);
                assert(0 <= r * seg) by (nonlinear_arith)
                    requires
                        0 <= r,
                        0 <= seg,
                ;
                assert((i + 1) % (segments as int) < segments);
            }
            let ring_start = r * segments;
            let next_ring_start = (r + 1) * segments;
            let next = (i + 1) % segments;
            let ghost before = triangles@;
            triangles.push(ring_start + i);
            triangles.push(next_ring_start + i);
            triangles.push(ring_start + next);
            triangles.push(ring_start + next);
            triangles.push(next_ring_start + i);
            triangles.push(next_ring_start + next);
            assert(triangles@ =~= before + band_cell(seg, r as int, i as int));
            i = i + 1;
        }
        r = r + 1;
    }
    proof {
        if rings > 0 {
            lemma_band_rows(seg, rg, rg as nat);
        }
    }
    triangles
}

/// The two triangles of grid cell `(x, y)` in a grid of `d + 1` by `d + 1`
/// vertices stored row by row.
pub open spec fn grid_cell(d: int, y: int, x: int) -> Seq<u32> {
    let curr = y * (d + 1) + x;
    let right = curr + 1;
    let up = curr + (d + 1);
    let up_right = up + 1;
    seq![curr as u32, right as u32, up as u32, right as u32, up_right as u32, up as u32]
}

/// The first `x` cells of grid row `y`.
pub open spec fn grid_row(d: int, y: int, x: nat) -> Seq<u32>
    decreases x,
{
    if x == 0 {
        Seq::empty()
    } else {
        grid_row(d, y, (x - 1) as nat) + grid_cell(d, y, x - 1)
    }
}

/// The triangles of the first `y` grid rows.
pub open spec fn grid_rows(d: int, y: nat) -> Seq<u32>
    decreases y,
{
    if y == 0 {
        Seq::empty()
    } else {
        grid_rows(d, (y - 1) as nat) + grid_row(d, y - 1, d as nat)
    }
}

proof fn lemma_grid_cell(d: int, y: int, x: int)
    requires
        0 <= y < d,
        0 <= x < d,
    ensures
        all_below(grid_cell(d, y, x), (d + 1) * (d + 1)),
        0 <= y * (d + 1) + x,
        y * (d + 1) + (d + 1) == (y + 1) * (d + 1),
        (y + 1) * (d + 1) + x + 1 < (d + 1) * (d + 1),
{
    assert((y + 1) * (d + 1) + x + 1 < (d + 1) * (d + 1)) by (nonlinear_arith)
        requires
            0 <= y < d,
            0 <= x < d,
    ;
    assert(y * (d + 1) + (d + 1) == (y + 1) * (d + 1)) by (nonlinear_arith);
    assert(0 <= y * (d + 1)) by (nonlinear_arith)
        requires
            0 <= y,
            0 <= d,
    ;
}

proof fn lemma_grid_row(d: int, y: int, x: nat)
    requires
        0 <= y < d,
        x <= d,
    ensures
        all_below(grid_row(d, y, x), (d + 1) * (d + 1)),
        grid_row(d, y, x).len() == 6 * x,
    decreases x,
{
    if x > 0 {
        lemma_grid_row(d, y, (x - 1) as nat);
        lemma_grid_cell(d, y, x - 1);
    }
}

proof fn lemma_grid_rows(d: int, y: nat)
    requires
        y <= d,
    ensures
        all_below(grid_rows(d, y), (d + 1) * (d + 1)),
        grid_rows(d, y).len() == 6 * d * y,
    decreases y,
{
    if y > 0 {
        lemma_grid_rows(d, (y - 1) as nat);
        lemma_grid_row(d, y - 1, d as nat);
        assert(grid_rows(d, y).len() == grid_rows(d, (y - 1) as nat).len() + grid_row(d, y - 1, d as nat).len());
        assert(6 * d * (y - 1) + 6 * d == 6 * d * y) by (nonlinear_arith);
    } else {
        assert(6 * d * y == 0) by (nonlinear_arith)
            requires
                y == 0,
        ;
    }
}

/// Triangles of a square grid of `divisions + 1` by `divisions + 1`
/// vertices stored row by row: two triangles per cell.
pub fn grid_triangles(divisions: u32) -> (tris: Vec<u32>)
    requires
        (divisions + 1) * (divisions + 1) <= 0x1_0000_0000,
    ensures
        tris@ == grid_rows(divisions as int, divisions as nat),
        tris@.len() == 6 * divisions * divisions,
        all_below(tris@, (divisions + 1) * (divisions + 1)),
{
    let ghost d = divisions as int;
    let mut triangles: Vec<u32> = Vec::new();
    assert(divisions + 1 <= 0x1_0000) by (nonlinear_arith)
        requires
            (divisions + 1) * (divisions + 1) <= 0x1_0000_0000,
            0 <= divisions,
    ;
    let verts_per_row = divisions + 1;
    let mut y: u32 = 0;
    while y < divisions
        invariant
            d == divisions as int,
            verts_per_row == divisions + 1,
            y <= divisions,
            (divisions + 1) * (divisions + 1) <= 0x1_0000_0000,
            triangles@ == grid_rows(d, y as nat),
        decreases divisions - y,
    {
        let mut x: u32 = 0;
        while x < divisions
            invariant
                d == divisions as int,
                verts_per_row == divisions + 1,
                y < divisions,
                x <= divisions,
                (divisions + 1) * (divisions + 1) <= 0x1_0000_0000,
                triangles@ == grid_rows(d, y as nat) + grid_row(d, y as int, x as nat),
            decreases divisions - x,
        {
            proof {
                lemma_grid_cell(d, y as int, x as int);
            }
            let curr = y * verts_per_row + x;
            let right = curr + 1;
            let up = curr + verts_per_row;
            let up_right = up + 1;
            let ghost before = triangles@;
            triangles.push(curr);
            triangles.push(right);
            triangles.push(up);
            triangles.push(right);
            triangles.push(up_right);
            triangles.push(up);
            assert(triangles@ =~= before + grid_cell(d, y as int, x as int));
            x = x + 1;
        }
        y = y + 1;
    }
    proof {
        lemma_grid_rows(d, d as nat);
    }
    triangles
}

/// The first `i` triangles of a fan from vertex 0 to a rim of `rim`
/// vertices numbered from 1, closing back to the first rim vertex.
pub open spec fn fan(rim: int, i: nat) -> Seq<u32>
    decreases i,
{
    if i == 0 {
        Seq::empty()
    } else {
        fan(rim, (i - 1) as nat) + seq![0u32, i as u32, (1 + (i as int) % rim) as u32]
    }
}

/// Triangles of a fan: vertex 0 is the center and vertices `1..=rim` the
/// rim in order; triangle `i` joins the center to rim vertices `i` and
/// `i + 1`, the last one wrapping to the first rim vertex.
pub fn fan_triangles(rim: u32) -> (tris: Vec<u32>)
    ensures
        tris@ == fan(rim as int, rim as nat),
        tris@.len() == 3 * rim,
        all_below(tris@, rim + 1),
{
    let center_idx = 0u32;
    let perimeter_start = 1u32;
    let mut triangles: Vec<u32> = Vec::new();
    let mut i: u32 = 0;
    while i < rim
        invariant
            i <= rim,
            center_idx == 0,
            perimeter_start == 1,
            triangles@ == fan(rim as int, i as nat),
            triangles@.len() == 3 * i,
            all_below(triangles@, rim + 1),
        decreases rim - i,
    {
        assert((i + 1) % (rim as int) < rim);
        let v0 = center_idx;
        let v1 = perimeter_start + i;
        let v2 = perimeter_start + ((i + 1) % rim);
        triangles.push(v0);
        triangles.push(v1);
        triangles.push(v2);
        assert(triangles@ =~= fan(rim as int, (i + 1) as nat));
        i = i + 1;
    }
    triangles
}

/// The jitter of vertex `j` of ring `i` of a blob mesh made with `seed`,
/// in thousandths: `i * 1103515245 + j * 12345 + seed` taken modulo 2^32,
/// then modulo 1000.
pub open spec fn blob_jitter(i: u32, j: u32, seed: u32) -> u32 {
    (((i as int) * 1103515245 + (j as int) * 12345 + seed as int) % 0x1_0000_0000 % 1000) as u32
}

/// The jitter of vertex `j` of ring `i` of a blob mesh, in thousandths
/// (see `blob_jitter`); the mesh scales the vertex's radius by it.
pub fn blob_jitter_permille(i: u32, j: u32, seed: u32) -> (p: u32)
    ensures
        p == blob_jitter(i, j, seed),
        p < 1000,
{
    let a = i.wrapping_mul(1103515245);
    let b = j.wrapping_mul(12345);
    let s = a.wrapping_add(b).wrapping_add(seed);
    proof {
        let m: int = 0x1_0000_0000;
        let x = (i as int) * 1103515245;
        let y = (j as int) * 12345;
        assert(a == x % m);
        assert(b == y % m);
        vstd::arithmetic::div_mod::lemma_add_mod_noop(x, y, m);
        let ab = (a as int + b as int) % m;
        assert(a.wrapping_add(b) == ab);
        vstd::arithmetic::div_mod::lemma_add_mod_noop(x + y, seed as int, m);
        vstd::arithmetic::div_mod::lemma_mod_twice(x + y, m);
        vstd::arithmetic::div_mod::lemma_small_mod(seed as nat, m as nat);
        assert(s == (ab + seed as int) % m);
        assert((ab + seed as int) % m == (x + y + seed as int) % m);
    }
    s % 1000
}

/// Line `k` of a line index list: indices `2k` and `2k + 1`.
pub open spec fn pair_at(w: Seq<u32>, k: int) -> (u32, u32) {
    (w[2 * k], w[2 * k + 1])
}

/// Whether the line index list `w` draws a line joining the two vertices
/// of `e`, in either direction.
pub open spec fn draws_edge(w: Seq<u32>, e: (u32, u32)) -> bool {
    exists|k: int| 0 <= k < w.len() / 2 && mesh::same_edge(#[trigger] pair_at(w, k), e)
}

/// Whether some triangle of the index list `t` has an edge joining the two
/// vertices of `e`.
pub open spec fn has_tri_edge(t: Seq<u32>, e: (u32, u32)) -> bool {
    exists|j: int|
        0 <= j < mesh::tri_edges(t).len() && mesh::same_edge(#[trigger] mesh::tri_edges(t)[j], e)
}

/// Whether cell `i` of band `r` of a ring wireframe draws `e`.
pub open spec fn wire_cell_has(seg: int, rd: int, r: int, i: int, e: (u32, u32)) -> bool {
    let curr = (r * seg + i) as u32;
    let next = (r * seg + (i + 1) % seg) as u32;
    let curr_outer = ((r + 1) * seg + i) as u32;
    let next_outer = ((r + 1) * seg + (i + 1) % seg) as u32;
    ||| mesh::same_edge((curr, next), e)
    ||| mesh::same_edge((curr, curr_outer), e)
    ||| mesh::same_edge((next, curr_outer), e)
    ||| (r == rd - 1 && mesh::same_edge((curr_outer, next_outer), e))
}

/// Whether one of the two triangles of cell `i` of band `r` has edge `e`.
pub open spec fn tri_cell_has(seg: int, r: int, i: int, e: (u32, u32)) -> bool {
    let curr = (r * seg + i) as u32;
    let next = (r * seg + (i + 1) % seg) as u32;
    let curr_outer = ((r + 1) * seg + i) as u32;
    let next_outer = ((r + 1) * seg + (i + 1) % seg) as u32;
    ||| mesh::same_edge((curr, curr_outer), e)
    ||| mesh::same_edge((curr_outer, next), e)
    ||| mesh::same_edge((next, curr), e)
    ||| mesh::same_edge((next, curr_outer), e)
    ||| mesh::same_edge((curr_outer, next_outer), e)
    ||| mesh::same_edge((next_outer, next), e)
}

proof fn lemma_draws_concat(x: Seq<u32>, y: Seq<u32>, e: (u32, u32))
    requires
        x.len() % 2 == 0,
    ensures
        draws_edge(x + y, e) <==> draws_edge(x, e) || draws_edge(y, e),
{
    let h = x.len() / 2;
    assert(x.len() == 2 * h);
    assert((x + y).len() / 2 == h + y.len() / 2);
    if draws_edge(x + y, e) {
        let k = choose|k: int| 0 <= k < (x + y).len() / 2 && mesh::same_edge(#[trigger] pair_at(x + y, k), e);
        if k < h {
            assert(pair_at(x + y, k) == pair_at(x, k));
        } else {
            assert(pair_at(x + y, k) == pair_at(y, k - h));
        }
    }
    if draws_edge(x, e) {
        let k = choose|k: int| 0 <= k < x.len() / 2 && mesh::same_edge(#[trigger] pair_at(x, k), e);
        assert(pair_at(x + y, k) == pair_at(x, k));
    }
    if draws_edge(y, e) {
        let k = choose|k: int| 0 <= k < y.len() / 2 && mesh::same_edge(#[trigger] pair_at(y, k), e);
        assert(pair_at(x + y, k + h) == pair_at(y, k));
    }
}

proof fn lemma_draws_cell(seg: int, rd: int, r: int, i: int, e: (u32, u32))
    ensures
        draws_edge(mesh::ring_cell(seg, rd, r, i), e) <==> wire_cell_has(seg, rd, r, i, e),
        mesh::ring_cell(seg, rd, r, i).len() % 2 == 0,
{
    let c = mesh::ring_cell(seg, rd, r, i);
    assert(pair_at(c, 0) == pair_at(c, 0));
    assert(pair_at(c, 1) == pair_at(c, 1));
    assert(pair_at(c, 2) == pair_at(c, 2));
    if r == rd - 1 {
        assert(pair_at(c, 3) == pair_at(c, 3));
    }
    if draws_edge(c, e) {
        let k = choose|k: int| 0 <= k < c.len() / 2 && mesh::same_edge(#[trigger] pair_at(c, k), e);
        assert(k == 0 || k == 1 || k == 2 || k == 3);
    }
}

proof fn lemma_draws_band(seg: int, rd: int, r: int, n: nat, e: (u32, u32))
    ensures
        draws_edge(mesh::ring_band(seg, rd, r, n), e) <==> exists|i: int|
            0 <= i < n && #[trigger] wire_cell_has(seg, rd, r, i, e),
        mesh::ring_band(seg, rd, r, n).len() % 2 == 0,
    decreases n,
{
    if n == 0 {
        assert(!draws_edge(mesh::ring_band(seg, rd, r, n), e));
    } else {
        let m = (n - 1) as nat;
        lemma_draws_band(seg, rd, r, m, e);
        lemma_draws_cell(seg, rd, r, m as int, e);
        lemma_draws_concat(mesh::ring_band(seg, rd, r, m), mesh::ring_cell(seg, rd, r, m as int), e);
        if exists|i: int| 0 <= i < n && #[trigger] wire_cell_has(seg, rd, r, i, e) {
            let i = choose|i: int| 0 <= i < n && #[trigger] wire_cell_has(seg, rd, r, i, e);
            if i < m {
                assert(exists|i2: int| 0 <= i2 < m && #[trigger] wire_cell_has(seg, rd, r, i2, e));
            }
        }
    }
}

proof fn lemma_draws_bands(seg: int, rd: int, big_r: nat, e: (u32, u32))
    requires
        seg >= 0,
    ensures
        draws_edge(mesh::ring_bands(seg, rd, big_r), e) <==> exists|r: int, i: int|
            0 <= r < big_r && 0 <= i < seg && #[trigger] wire_cell_has(seg, rd, r, i, e),
        mesh::ring_bands(seg, rd, big_r).len() % 2 == 0,
    decreases big_r,
{
    if big_r == 0 {
        assert(!draws_edge(mesh::ring_bands(seg, rd, big_r), e));
    } else {
        let m = (big_r - 1) as nat;
        lemma_draws_bands(seg, rd, m, e);
        lemma_draws_band(seg, rd, m as int, seg as nat, e);
        lemma_draws_concat(mesh::ring_bands(seg, rd, m), mesh::ring_band(seg, rd, m as int, seg as nat), e);
        if exists|r: int, i: int| 0 <= r < big_r && 0 <= i < seg && #[trigger] wire_cell_has(seg, rd, r, i, e) {
            let (r, i) = choose|r: int, i: int|
                0 <= r < big_r && 0 <= i < seg && #[trigger] wire_cell_has(seg, rd, r, i, e);
            if r < m {
                assert(exists|r2: int, i2: int|
                    0 <= r2 < m && 0 <= i2 < seg && #[trigger] wire_cell_has(seg, rd, r2, i2, e));
            } else {
                assert(exists|i2: int| 0 <= i2 < seg as nat && #[trigger] wire_cell_has(seg, rd, m as int, i2, e));
            }
        }
        if exists|i: int| 0 <= i < seg as nat && #[trigger] wire_cell_has(seg, rd, m as int, i, e) {
            let i = choose|i: int| 0 <= i < seg as nat && #[trigger] wire_cell_has(seg, rd, m as int, i, e);
            assert(exists|r2: int, i2: int|
                0 <= r2 < big_r && 0 <= i2 < seg && #[trigger] wire_cell_has(seg, rd, r2, i2, e));
        }
        if exists|r: int, i: int| 0 <= r < m && 0 <= i < seg && #[trigger] wire_cell_has(seg, rd, r, i, e) {
            let (r, i) = choose|r: int, i: int|
                0 <= r < m && 0 <= i < seg && #[trigger] wire_cell_has(seg, rd, r, i, e);
            assert(exists|r2: int, i2: int|
                0 <= r2 < big_r && 0 <= i2 < seg && #[trigger] wire_cell_has(seg, rd, r2, i2, e));
        }
    }
}

/// The edges of the first `n` triangles of `x + y` are those of `x`.
proof fn lemma_tri_edges_prefix(x: Seq<u32>, y: Seq<u32>, n: nat)
    requires
        3 * n <= x.len(),
    ensures
        mesh::tri_edges_upto(x + y, n) == mesh::tri_edges_upto(x, n),
    decreases n,
{
    if n > 0 {
        lemma_tri_edges_prefix(x, y, (n - 1) as nat);
        let b = 3 * (n - 1);
        assert((x + y)[b] == x[b]);
        assert((x + y)[b + 1] == x[b + 1]);
        assert((x + y)[b + 2] == x[b + 2]);
    }
}

/// Past a whole number of triangles, the triangles of `x + y` are those of `y`.
proof fn lemma_tri_edges_suffix(x: Seq<u32>, y: Seq<u32>, m: nat)
    requires
        x.len() % 3 == 0,
        3 * m <= y.len(),
    ensures
        mesh::tri_edges_upto(x + y, (x.len() / 3 + m) as nat) == mesh::tri_edges(x)
            + mesh::tri_edges_upto(y, m),
    decreases m,
{
    let q = x.len() / 3;
    if m == 0 {
        lemma_tri_edges_prefix(x, y, q as nat);
        assert(mesh::tri_edges_upto(y, 0) =~= Seq::<(u32, u32)>::empty());
        assert(mesh::tri_edges(x) + Seq::<(u32, u32)>::empty() =~= mesh::tri_edges(x));
    } else {
        lemma_tri_edges_suffix(x, y, (m - 1) as nat);
        let b = 3 * (q + m - 1);
        let c = 3 * (m - 1);
        assert(b == x.len() + c);
        assert((x + y)[b] == y[c]);
        assert((x + y)[b + 1] == y[c + 1]);
        assert((x + y)[b + 2] == y[c + 2]);
        assert(mesh::tri_edges_upto(x + y, (q + m) as nat) =~= mesh::tri_edges(x)
            + mesh::tri_edges_upto(y, m));
    }
}

proof fn lemma_has_tri_concat(x: Seq<u32>, y: Seq<u32>, e: (u32, u32))
    requires
        x.len() % 3 == 0,
        y.len() % 3 == 0,
    ensures
        has_tri_edge(x + y, e) <==> has_tri_edge(x, e) || has_tri_edge(y, e),
{
    let q = x.len() / 3;
    let p = y.len() / 3;
    assert((x + y).len() / 3 == q + p);
    lemma_tri_edges_suffix(x, y, p as nat);
    let tx = mesh::tri_edges(x);
    let ty = mesh::tri_edges(y);
    let txy = mesh::tri_edges(x + y);
    assert(txy == tx + ty);
    if has_tri_edge(x + y, e) {
        let j = choose|j: int| 0 <= j < txy.len() && mesh::same_edge(#[trigger] txy[j], e);
        if j < tx.len() {
            assert(txy[j] == tx[j]);
        } else {
            assert(txy[j] == ty[j - tx.len()]);
        }
    }
    if has_tri_edge(x, e) {
        let j = choose|j: int| 0 <= j < tx.len() && mesh::same_edge(#[trigger] tx[j], e);
        assert(txy[j] == tx[j]);
    }
    if has_tri_edge(y, e) {
        let j = choose|j: int| 0 <= j < ty.len() && mesh::same_edge(#[trigger] ty[j], e);
        assert(txy[j + tx.len()] == ty[j]);
    }
}

proof fn lemma_has_tri_cell(seg: int, r: int, i: int, e: (u32, u32))
    ensures
        has_tri_edge(band_cell(seg, r, i), e) <==> tri_cell_has(seg, r, i, e),
        band_cell(seg, r, i).len() == 6,
{
    let c = band_cell(seg, r, i);
    let t0 = mesh::tri_edges_upto(c, 0);
    let t1 = mesh::tri_edges_upto(c, 1);
    assert(t1 == t0 + seq![(c[0], c[1]), (c[1], c[2]), (c[2], c[0])]);
    let te = mesh::tri_edges(c);
    assert(te == t1 + seq![(c[3], c[4]), (c[4], c[5]), (c[5], c[3])]);
    assert(te.len() == 6);
    assert(te[0] == te[0] && te[1] == te[1] && te[2] == te[2]);
    assert(te[3] == te[3] && te[4] == te[4] && te[5] == te[5]);
    if has_tri_edge(c, e) {
        let j = choose|j: int| 0 <= j < te.len() && mesh::same_edge(#[trigger] te[j], e);
        assert(j == 0 || j == 1 || j == 2 || j == 3 || j == 4 || j == 5);
    }
}

proof fn lemma_has_tri_row(seg: int, r: int, n: nat, e: (u32, u32))
    ensures
        has_tri_edge(band_row(seg, r, n), e) <==> exists|i: int|
            0 <= i < n && #[trigger] tri_cell_has(seg, r, i, e),
        band_row(seg, r, n).len() % 3 == 0,
    decreases n,
{
    if n == 0 {
        assert(mesh::tri_edges(band_row(seg, r, n)).len() == 0);
    } else {
        let m = (n - 1) as nat;
        lemma_has_tri_row(seg, r, m, e);
        lemma_has_tri_cell(seg, r, m as int, e);
        lemma_has_tri_concat(band_row(seg, r, m), band_cell(seg, r, m as int), e);
        if exists|i: int| 0 <= i < n && #[trigger] tri_cell_has(seg, r, i, e) {
            let i = choose|i: int| 0 <= i < n && #[trigger] tri_cell_has(seg, r, i, e);
            if i < m {
                assert(exists|i2: int| 0 <= i2 < m && #[trigger] tri_cell_has(seg, r, i2, e));
            }
        }
    }
}

proof fn lemma_has_tri_rows(seg: int, big_r: nat, e: (u32, u32))
    requires
        seg >= 0,
    ensures
        has_tri_edge(band_rows(seg, big_r), e) <==> exists|r: int, i: int|
            0 <= r < big_r && 0 <= i < seg && #[trigger] tri_cell_has(seg, r, i, e),
        band_rows(seg, big_r).len() % 3 == 0,
    decreases big_r,
{
    if big_r == 0 {
        assert(mesh::tri_edges(band_rows(seg, big_r)).len() == 0);
    } else {
        let m = (big_r - 1) as nat;
        lemma_has_tri_rows(seg, m, e);
        lemma_has_tri_row(seg, m as int, seg as nat, e);
        lemma_has_tri_concat(band_rows(seg, m), band_row(seg, m as int, seg as nat), e);
        if exists|r: int, i: int| 0 <= r < big_r && 0 <= i < seg && #[trigger] tri_cell_has(seg, r, i, e) {
            let (r, i) = choose|r: int, i: int|
                0 <= r < big_r && 0 <= i < seg && #[trigger] tri_cell_has(seg, r, i, e);
            if r < m {
                assert(exists|r2: int, i2: int|
                    0 <= r2 < m && 0 <= i2 < seg && #[trigger] tri_cell_has(seg, r2, i2, e));
            } else {
                assert(exists|i2: int| 0 <= i2 < seg as nat && #[trigger] tri_cell_has(seg, m as int, i2, e));
            }
        }
        if exists|i: int| 0 <= i < seg as nat && #[trigger] tri_cell_has(seg, m as int, i, e) {
            let i = choose|i: int| 0 <= i < seg as nat && #[trigger] tri_cell_has(seg, m as int, i, e);
            assert(exists|r2: int, i2: int|
                0 <= r2 < big_r && 0 <= i2 < seg && #[trigger] tri_cell_has(seg, r2, i2, e));
        }
        if exists|r: int, i: int| 0 <= r < m && 0 <= i < seg && #[trigger] tri_cell_has(seg, r, i, e) {
            let (r, i) = choose|r: int, i: int|
                0 <= r < m && 0 <= i < seg && #[trigger] tri_cell_has(seg, r, i, e);
            assert(exists|r2: int, i2: int|
                0 <= r2 < big_r && 0 <= i2 < seg && #[trigger] tri_cell_has(seg, r2, i2, e));
        }
    }
}

/// The wireframe of a ring mesh draws exactly the edges of the mesh's
/// triangles: every line it draws joins two vertices that a triangle edge
/// joins, and every triangle edge is drawn.
pub proof fn lemma_ring_wireframe_draws_mesh_edges(segments: nat, radial_divisions: nat)
    requires
        segments >= 1,
        radial_divisions >= 1,
    ensures
        forall|e: (u32, u32)|
            #[trigger] draws_edge(mesh::ring_wireframe(segments, radial_divisions), e) <==> has_tri_edge(
                band_rows(segments as int, radial_divisions),
                e,
            ),
{
    let seg = segments as int;
    let rd = radial_divisions as int;
    assert forall|e: (u32, u32)|
        #[trigger] draws_edge(mesh::ring_wireframe(segments, radial_divisions), e) <==> has_tri_edge(
            band_rows(seg, radial_divisions),
            e,
        ) by {
        lemma_draws_bands(seg, rd, radial_divisions, e);
        lemma_has_tri_rows(seg, radial_divisions, e);
        if exists|r: int, i: int| 0 <= r < rd && 0 <= i < seg && #[trigger] wire_cell_has(seg, rd, r, i, e) {
            let (r, i) = choose|r: int, i: int|
                0 <= r < rd && 0 <= i < seg && #[trigger] wire_cell_has(seg, rd, r, i, e);
            assert(tri_cell_has(seg, r, i, e));
        }
        if exists|r: int, i: int| 0 <= r < rd && 0 <= i < seg && #[trigger] tri_cell_has(seg, r, i, e) {
            let (r, i) = choose|r: int, i: int|
                0 <= r < rd && 0 <= i < seg && #[trigger] tri_cell_has(seg, r, i, e);
            let curr = (r * seg + i) as u32;
            let next = (r * seg + (i + 1) % seg) as u32;
            let curr_outer = ((r + 1) * seg + i) as u32;
            let next_outer = ((r + 1) * seg + (i + 1) % seg) as u32;
            if mesh::same_edge((curr_outer, next_outer), e) && r < rd - 1 {
                assert(wire_cell_has(seg, rd, r + 1, i, e));
            } else if mesh::same_edge((next_outer, next), e) {
                let i2 = (i + 1) % seg;
                assert(0 <= i2 < seg);
                assert(wire_cell_has(seg, rd, r, i2, e));
            } else {
                assert(wire_cell_has(seg, rd, r, i, e));
            }
        }
    }
}

/// The line at which a ring wireframe draws edge `k` of cell `i` of band
/// `r`: inner (0), radial (1), diagonal (2), or outer (3, last band only).
spec fn ring_line_slot(seg: int, rd: int, r: int, i: int, k: int) -> int {
    if r < rd - 1 {
        3 * (r * seg + i) + k
    } else {
        3 * (rd - 1) * seg + 4 * i + k
    }
}

/// The line of a ring wireframe that joins vertices `a` and `b`, read back
/// from the rings and positions of the two vertices.
spec fn ring_line_of(seg: int, rd: int, a: int, b: int) -> int {
    let lo = if a <= b { a } else { b };
    let hi = if a <= b { b } else { a };
    let rl = lo / seg;
    let il = lo % seg;
    let rh = hi / seg;
    let ih = hi % seg;
    if rl == rh {
        let i = if ih == il + 1 { il } else { seg - 1 };
        if rl < rd {
            ring_line_slot(seg, rd, rl, i, 0)
        } else {
            ring_line_slot(seg, rd, rd - 1, i, 3)
        }
    } else if ih == il {
        ring_line_slot(seg, rd, rl, il, 1)
    } else {
        ring_line_slot(seg, rd, rl, ih, 2)
    }
}

proof fn lemma_pair_at_concat(x: Seq<u32>, y: Seq<u32>, p: int)
    requires
        x.len() % 2 == 0,
        y.len() % 2 == 0,
        0 <= p < (x.len() + y.len()) / 2,
    ensures
        p < x.len() / 2 ==> pair_at(x + y, p) == pair_at(x, p),
        p >= x.len() / 2 ==> pair_at(x + y, p) == pair_at(y, p - x.len() / 2),
{
    let w = x + y;
    assert(w[2 * p] == if 2 * p < x.len() { x[2 * p] } else { y[2 * p - x.len()] });
    assert(w[2 * p + 1] == if 2 * p + 1 < x.len() { x[2 * p + 1] } else { y[2 * p + 1 - x.len()] });
}

proof fn lemma_line_cell(seg: int, rd: int, r: int, i: int)
    requires
        seg >= 3,
        0 <= r < rd,
        0 <= i < seg,
        (rd + 1) * seg <= 0x1_0000_0000,
    ensures
        forall|k: int|
            0 <= k < mesh::ring_cell(seg, rd, r, i).len() / 2 ==> ring_line_of(
                seg,
                rd,
                (#[trigger] pair_at(mesh::ring_cell(seg, rd, r, i), k)).0 as int,
                pair_at(mesh::ring_cell(seg, rd, r, i), k).1 as int,
            ) == ring_line_slot(seg, rd, r, i, k),
{
    let i1 = (i + 1) % seg;
    let c = r * seg + i;
    let n = r * seg + i1;
    let co = (r + 1) * seg + i;
    let no = (r + 1) * seg + i1;
    assert(0 <= r * seg) by (nonlinear_arith)
        requires
            0 <= r,
            0 <= seg,
    ;
    assert((r + 1) * seg == r * seg + seg) by (nonlinear_arith);
    assert((r + 2) * seg <= (rd + 1) * seg) by (nonlinear_arith)
        requires
            r + 2 <= rd + 1,
            seg >= 0,
    ;
    assert((r + 2) * seg == r * seg + 2 * seg) by (nonlinear_arith);
    assert(0 <= i1 < seg);
    if i + 1 < seg {
        vstd::arithmetic::div_mod::lemma_fundamental_div_mod_converse(i + 1, seg, 0, i + 1);
    } else {
        vstd::arithmetic::div_mod::lemma_fundamental_div_mod_converse(i + 1, seg, 1, 0);
    }
    vstd::arithmetic::div_mod::lemma_fundamental_div_mod_converse(c, seg, r, i);
    vstd::arithmetic::div_mod::lemma_fundamental_div_mod_converse(n, seg, r, i1);
    vstd::arithmetic::div_mod::lemma_fundamental_div_mod_converse(co, seg, r + 1, i);
    vstd::arithmetic::div_mod::lemma_fundamental_div_mod_converse(no, seg, r + 1, i1);
    let cell = mesh::ring_cell(seg, rd, r, i);
    assert(pair_at(cell, 0) == (c as u32, n as u32));
    assert(pair_at(cell, 1) == (c as u32, co as u32));
    assert(pair_at(cell, 2) == (n as u32, co as u32));
    if r == rd - 1 {
        assert(pair_at(cell, 3) == (co as u32, no as u32));
    }
    assert(ring_line_of(seg, rd, c, n) == ring_line_slot(seg, rd, r, i, 0));
    assert(ring_line_of(seg, rd, c, co) == ring_line_slot(seg, rd, r, i, 1));
    assert(ring_line_of(seg, rd, n, co) == ring_line_slot(seg, rd, r, i, 2));
    if r == rd - 1 {
        assert(ring_line_of(seg, rd, co, no) == ring_line_slot(seg, rd, r, i, 3));
    }
    assert forall|k: int| 0 <= k < cell.len() / 2 implies ring_line_of(
        seg,
        rd,
        (#[trigger] pair_at(cell, k)).0 as int,
        pair_at(cell, k).1 as int,
    ) == ring_line_slot(seg, rd, r, i, k) by {
        assert(k == 0 || k == 1 || k == 2 || (k == 3 && r == rd - 1));
    }
}

proof fn lemma_line_band(seg: int, rd: int, r: int, n: nat)
    requires
        seg >= 3,
        0 <= r < rd,
        n <= seg,
        (rd + 1) * seg <= 0x1_0000_0000,
    ensures
        mesh::ring_band(seg, rd, r, n).len() == 2 * (if r == rd - 1 { 4 * n } else { 3 * n }),
        forall|p: int|
            0 <= p < mesh::ring_band(seg, rd, r, n).len() / 2 ==> ring_line_of(
                seg,
                rd,
                (#[trigger] pair_at(mesh::ring_band(seg, rd, r, n), p)).0 as int,
                pair_at(mesh::ring_band(seg, rd, r, n), p).1 as int,
            ) == ring_line_slot(seg, rd, r, 0, 0) + p,
    decreases n,
{
    if n > 0 {
        let m = (n - 1) as nat;
        lemma_line_band(seg, rd, r, m);
        lemma_line_cell(seg, rd, r, m as int);
        lemma_ring_cell_len(seg, rd, r, m as int);
        let x = mesh::ring_band(seg, rd, r, m);
        let y = mesh::ring_cell(seg, rd, r, m as int);
        let w = if r == rd - 1 { 4int } else { 3int };
        assert(x.len() / 2 == w * m);
        assert forall|p: int| 0 <= p < (x + y).len() / 2 implies ring_line_of(
            seg,
            rd,
            (#[trigger] pair_at(x + y, p)).0 as int,
            pair_at(x + y, p).1 as int,
        ) == ring_line_slot(seg, rd, r, 0, 0) + p by {
            lemma_pair_at_concat(x, y, p);
            if p >= x.len() / 2 {
                assert(pair_at(y, p - w * m) == pair_at(y, p - w * m));
            } else {
                assert(pair_at(x, p) == pair_at(x, p));
            }
        }
    }
}

proof fn lemma_ring_cell_len(seg: int, rd: int, r: int, i: int)
    ensures
        mesh::ring_cell(seg, rd, r, i).len() == if r == rd - 1 { 8int } else { 6int },
{
}

proof fn lemma_line_bands(seg: int, rd: int, big_r: nat)
    requires
        seg >= 3,
        big_r <= rd,
        (rd + 1) * seg <= 0x1_0000_0000,
    ensures
        forall|p: int|
            0 <= p < mesh::ring_bands(seg, rd, big_r).len() / 2 ==> ring_line_of(
                seg,
                rd,
                (#[trigger] pair_at(mesh::ring_bands(seg, rd, big_r), p)).0 as int,
                pair_at(mesh::ring_bands(seg, rd, big_r), p).1 as int,
            ) == p,
        mesh::ring_bands(seg, rd, big_r).len() % 2 == 0,
    decreases big_r,
{
    if big_r > 0 {
        let m = (big_r - 1) as nat;
        lemma_line_bands(seg, rd, m);
        lemma_line_band(seg, rd, m as int, seg as nat);
        mesh::lemma_ring_bands(seg, rd, m);
        let x = mesh::ring_bands(seg, rd, m);
        let y = mesh::ring_band(seg, rd, m as int, seg as nat);
        assert(x.len() == 6 * seg * m);
        let h = 3 * seg * m;
        assert(6 * seg * m == 2 * h) by (nonlinear_arith)
            requires
                h == 3 * seg * m,
        ;
        assert(x.len() / 2 == h);
        assert(y.len() / 2 == if m == rd - 1 { 4 * seg } else { 3 * seg });
        assert(ring_line_slot(seg, rd, m as int, 0, 0) == 3 * seg * m) by (nonlinear_arith)
            requires
                m < rd,
        ;
        assert forall|p: int| 0 <= p < (x + y).len() / 2 implies ring_line_of(
            seg,
            rd,
            (#[trigger] pair_at(x + y, p)).0 as int,
            pair_at(x + y, p).1 as int,
        ) == p by {
            lemma_pair_at_concat(x, y, p);
            if p >= x.len() / 2 {
                assert(0 <= p - h < y.len() / 2);
                assert(pair_at(y, p - h) == pair_at(y, p - h));
            } else {
                assert(pair_at(x, p) == pair_at(x, p));
            }
        }
    }
}

/// No two lines of a ring wireframe join the same two vertices: each edge
/// of the ring mesh is listed once.
pub proof fn lemma_ring_wireframe_lines_distinct(segments: nat, radial_divisions: nat)
    requires
        segments >= 3,
        (radial_divisions + 1) * segments <= 0x1_0000_0000,
    ensures
        forall|p: int, q: int|
            0 <= p < q < mesh::ring_wireframe(segments, radial_divisions).len() / 2 ==> !mesh::same_edge(
                #[trigger] pair_at(mesh::ring_wireframe(segments, radial_divisions), p),
                #[trigger] pair_at(mesh::ring_wireframe(segments, radial_divisions), q),
            ),
{
    let seg = segments as int;
    let rd = radial_divisions as int;
    lemma_line_bands(seg, rd, radial_divisions);
    let w = mesh::ring_wireframe(segments, radial_divisions);
    assert forall|p: int, q: int| 0 <= p < q < w.len() / 2 implies !mesh::same_edge(
        #[trigger] pair_at(w, p),
        #[trigger] pair_at(w, q),
    ) by {
        let a = pair_at(w, p);
        let b = pair_at(w, q);
        assert(ring_line_of(seg, rd, a.0 as int, a.1 as int) == p);
        assert(ring_line_of(seg, rd, b.0 as int, b.1 as int) == q);
        assert(ring_line_of(seg, rd, b.1 as int, b.0 as int) == q);
    }
}

} // verus!
