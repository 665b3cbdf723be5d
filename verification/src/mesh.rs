//! Index topology of the engine's ring and radial meshes: wireframe line
//! lists, and the boundary edges of a triangle list.

use vstd::prelude::*;

verus! {

/// Every index in `s` is below `bound`.
pub open spec fn all_below(s: Seq<u32>, bound: int) -> bool {
    forall|k: int| 0 <= k < s.len() ==> s[k] < bound
}

/// The line indices for cell `i` of ring band `r` in a ring mesh with `seg`
/// vertices per ring and `rd` bands: inner, radial and diagonal edges, plus the
/// outer edge on the last band.
pub open spec fn ring_cell(seg: int, rd: int, r: int, i: int) -> Seq<u32> {
    let curr = (r * seg + i) as u32;
    let next = (r * seg + (i + 1) % seg) as u32;
    let curr_outer = ((r + 1) * seg + i) as u32;
    let next_outer = ((r + 1) * seg + (i + 1) % seg) as u32;
    seq![curr, next, curr, curr_outer, next, curr_outer] + if r == rd - 1 {
        seq![curr_outer, next_outer]
    } else {
        Seq::<u32>::empty()
    }
}

/// The first `i` cells of ring band `r`.
pub open spec fn ring_band(seg: int, rd: int, r: int, i: nat) -> Seq<u32>
    decreases i,
{
    if i == 0 {
        Seq::empty()
    } else {
        ring_band(seg, rd, r, (i - 1) as nat) + ring_cell(seg, rd, r, i - 1)
    }
}

/// The first `r` bands of a ring wireframe.
pub open spec fn ring_bands(seg: int, rd: int, r: nat) -> Seq<u32>
    decreases r,
{
    if r == 0 {
        Seq::empty()
    } else {
        ring_bands(seg, rd, (r - 1) as nat) + ring_band(seg, rd, r - 1, seg as nat)
    }
}

/// The line index list of a ring mesh with `seg` segments and `rd` radial divisions.
pub open spec fn ring_wireframe(seg: nat, rd: nat) -> Seq<u32> {
    ring_bands(seg as int, rd as int, rd)
}

proof fn lemma_ring_cell(seg: int, rd: int, r: int, i: int)
    requires
        0 <= r < rd,
        0 <= i < seg,
        (rd + 1) * seg <= 0x1_0000_0000,
    ensures
        all_below(ring_cell(seg, rd, r, i), (rd + 1) * seg),
        ring_cell(seg, rd, r, i).len() == if r == rd - 1 { 8int } else { 6int },
{
    assert((r + 1) * seg + seg <= (rd + 1) * seg) by (nonlinear_arith)
        requires
            0 <= r < rd,
            0 <= seg,
    ;
    assert(r * seg + seg == (r + 1) * seg) by (nonlinear_arith);
    assert(0 <= r * seg) by (nonlinear_arith)
        requires
            0 <= r,
            0 <= seg,
    ;
    assert(0 <= (i + 1) % seg < seg);
}

proof fn lemma_ring_band(seg: int, rd: int, r: int, i: nat)
    requires
        0 <= r < rd,
        i <= seg,
        (rd + 1) * seg <= 0x1_0000_0000,
    ensures
        all_below(ring_band(seg, rd, r, i), (rd + 1) * seg),
        ring_band(seg, rd, r, i).len() == (if r == rd - 1 { 8int } else { 6int }) * i,
    decreases i,
{
    if i > 0 {
        lemma_ring_band(seg, rd, r, (i - 1) as nat);
        lemma_ring_cell(seg, rd, r, i - 1);
        assert((if r == rd - 1 { 8int } else { 6int }) * (i - 1) + (if r == rd - 1 { 8int } else { 6int })
            == (if r == rd - 1 { 8int } else { 6int }) * i) by (nonlinear_arith);
    }
}

pub(crate) proof fn lemma_ring_bands(seg: int, rd: int, r: nat)
    requires
        r <= rd,
        0 <= seg,
        (rd + 1) * seg <= 0x1_0000_0000,
    ensures
        all_below(ring_bands(seg, rd, r), (rd + 1) * seg),
        r < rd ==> ring_bands(seg, rd, r).len() == 6 * seg * r,
        r == rd && rd > 0 ==> ring_bands(seg, rd, r).len() == 6 * seg * rd + 2 * seg,
    decreases r,
{
    if r > 0 {
        lemma_ring_bands(seg, rd, (r - 1) as nat);
        lemma_ring_band(seg, rd, r - 1, seg as nat);
        if r - 1 == rd - 1 {
            assert(6 * seg * (r - 1) + 8 * seg == 6 * seg * rd + 2 * seg) by (nonlinear_arith)
                requires
                    r == rd,
            ;
        } else {
            assert(6 * seg * (r - 1) + 6 * seg == 6 * seg * r) by (nonlinear_arith);
        }
    }
}

/// Line indices of the wireframe of a ring mesh with `segments` vertices per
/// ring and `radial_divisions` bands: for each cell its inner, radial and
/// diagonal edge, and on the last band its outer edge.
pub fn create_ring_wireframe(segments: u32, radial_divisions: u32) -> (lines: Vec<u32>)
    requires
        radial_divisions == 0 || (radial_divisions + 1) * segments <= 0x1_0000_0000,
    ensures
        lines@ == ring_wireframe(segments as nat, radial_divisions as nat),
        lines@.len() == if radial_divisions == 0 {
            0
        } else {
            6 * segments * radial_divisions + 2 * segments
        },
        lines@.len() % 2 == 0,
        all_below(lines@, (radial_divisions + 1) * segments),
{
    let ghost seg = segments as int;
    let ghost rd = radial_divisions as int;
    let mut line_indices: Vec<u32> = Vec::new();
    let verts_per_ring = segments;
    let mut r: u32 = 0;
    while r < radial_divisions
        invariant
            seg == segments as int,
            rd == radial_divisions as int,
            verts_per_ring == segments,
            r <= radial_divisions,
            radial_divisions == 0 || (radial_divisions + 1) * segments <= 0x1_0000_0000,
            line_indices@ == ring_bands(seg, rd, r as nat),
        decreases radial_divisions - r,
    {
        let mut i: u32 = 0;
        while i < segments
            invariant
                seg == segments as int,
                rd == radial_divisions as int,
                verts_per_ring == segments,
                r < radial_divisions,
                i <= segments,
                (radial_divisions + 1) * segments <= 0x1_0000_0000,
                line_indices@ == ring_bands(seg, rd, r as nat) + ring_band(seg, rd, r as int, i as nat),
            decreases segments - i,
        {
            proof {
                assert((r + 1) * seg + seg <= (rd + 1) * seg) by (nonlinear_arith)
                    requires
                        0 <= r < rd,
                        0 <= seg,
                ;
                assert(r * seg + seg == (r + 1) * seg) by (nonlinear_arith);
                assert(0 <= r * seg) by (nonlinear_arith)
                    requires
                        0 <= r,
                        0 <= seg,
                ;
                assert((i + 1) % (segments as int) < segments);
            }
            let curr = r * verts_per_ring + i;
            let next = r * verts_per_ring + (i + 1) % segments;
            let curr_outer = (r + 1) * verts_per_ring + i;
            let next_outer = (r + 1) * verts_per_ring + (i + 1) % segments;
            let ghost before = line_indices@;

            // Inner edge
            line_indices.push(curr);
            line_indices.push(next);

            // Radial edge
            line_indices.push(curr);
            line_indices.push(curr_outer);

            // Diagonal edge
            line_indices.push(next);
            line_indices.push(curr_outer);

            // Outer edge (only on last ring)
            if r == radial_divisions - 1 {
                line_indices.push(curr_outer);
                line_indices.push(next_outer);
            }
            assert(line_indices@ =~= before + ring_cell(seg, rd, r as int, i as int));
            i = i + 1;
        }
        assert(ring_bands(seg, rd, (r + 1) as nat) == ring_bands(seg, rd, r as nat) + ring_band(
            seg,
            rd,
            r as int,
            seg as nat,
        ));
        r = r + 1;
    }
    proof {
        if radial_divisions > 0 {
            lemma_ring_bands(seg, rd, rd as nat);
            assert(6 * seg * rd + 2 * seg == 2 * (3 * seg * rd + seg)) by (nonlinear_arith);
        } else {
            assert(line_indices@ =~= Seq::<u32>::empty());
        }
    }
    line_indices
}

/// The line indices for vertex `i` of ring `r` in a radial mesh with `seg`
/// vertices per ring and `rings` + 1 rings: the circumferential line, and the
/// radial line to the next ring unless `r` is the last ring.
pub open spec fn radial_cell(seg: int, rings: int, r: int, i: int) -> Seq<u32> {
    let ring_start = r * seg;
    seq![(ring_start + i) as u32, (ring_start + (i + 1) % seg) as u32] + if r < rings {
        seq![(ring_start + i) as u32, ((r + 1) * seg + i) as u32]
    } else {
        Seq::<u32>::empty()
    }
}

/// The first `i` vertices' lines of ring `r`.
pub open spec fn radial_ring(seg: int, rings: int, r: int, i: nat) -> Seq<u32>
    decreases i,
{
    if i == 0 {
        Seq::empty()
    } else {
        radial_ring(seg, rings, r, (i - 1) as nat) + radial_cell(seg, rings, r, i - 1)
    }
}

/// The lines of the first `r` rings.
pub open spec fn radial_rings(seg: int, rings: int, r: nat) -> Seq<u32>
    decreases r,
{
    if r == 0 {
        Seq::empty()
    } else {
        radial_rings(seg, rings, (r - 1) as nat) + radial_ring(seg, rings, r - 1, seg as nat)
    }
}

/// The line index list of a radial mesh with `seg` segments and `rings` + 1 rings.
pub open spec fn radial_wireframe(seg: nat, rings: nat) -> Seq<u32> {
    radial_rings(seg as int, rings as int, rings + 1)
}

proof fn lemma_radial_cell(seg: int, rings: int, r: int, i: int)
    requires
        0 <= r <= rings,
        0 <= i < seg,
        (rings + 1) * seg <= 0x1_0000_0000,
    ensures
        all_below(radial_cell(seg, rings, r, i), (rings + 1) * seg),
        radial_cell(seg, rings, r, i).len() == if r < rings { 4int } else { 2int },
{
    assert(r * seg + seg <= (rings + 1) * seg) by (nonlinear_arith)
        requires
            0 <= r <= rings,
            0 <= seg,
    ;
    assert(r < rings ==> (r + 1) * seg + seg <= (rings + 1) * seg) by (nonlinear_arith)
        requires
            0 <= r,
            0 <= seg,
    ;
    assert(r * seg + seg == (r + 1) * seg) by (nonlinear_arith);
    assert(0 <= r * seg) by (nonlinear_arith)
        requires
            0 <= r,
            0 <= seg,
    ;
    assert(0 <= (i + 1) % seg < seg);
}

proof fn lemma_radial_ring(seg: int, rings: int, r: int, i: nat)
    requires
        0 <= r <= rings,
        i <= seg,
        (rings + 1) * seg <= 0x1_0000_0000,
    ensures
        all_below(radial_ring(seg, rings, r, i), (rings + 1) * seg),
        radial_ring(seg, rings, r, i).len() == (if r < rings { 4int } else { 2int }) * i,
    decreases i,
{
    if i > 0 {
        lemma_radial_ring(seg, rings, r, (i - 1) as nat);
        lemma_radial_cell(seg, rings, r, i - 1);
        assert((if r < rings { 4int } else { 2int }) * (i - 1) + (if r < rings { 4int } else { 2int })
            == (if r < rings { 4int } else { 2int }) * i) by (nonlinear_arith);
    }
}

proof fn lemma_radial_rings(seg: int, rings: int, r: nat)
    requires
        r <= rings + 1,
        0 <= seg,
        0 <= rings,
        (rings + 1) * seg <= 0x1_0000_0000,
    ensures
        all_below(radial_rings(seg, rings, r), (rings + 1) * seg),
        r <= rings ==> radial_rings(seg, rings, r).len() == 4 * seg * r,
        r == rings + 1 ==> radial_rings(seg, rings, r).len() == 2 * seg * (2 * rings + 1),
    decreases r,
{
    if r > 0 {
        lemma_radial_rings(seg, rings, (r - 1) as nat);
        lemma_radial_ring(seg, rings, r - 1, seg as nat);
        if r - 1 == rings {
            assert(4 * seg * (r - 1) + 2 * seg == 2 * seg * (2 * rings + 1)) by (nonlinear_arith)
                requires
                    r - 1 == rings,
            ;
        } else {
            assert(4 * seg * (r - 1) + 4 * seg == 4 * seg * r) by (nonlinear_arith);
            assert(radial_ring(seg, rings, r - 1, seg as nat).len() == 4 * seg);
            assert(radial_rings(seg, rings, r).len() == radial_rings(seg, rings, (r - 1) as nat).len()
                + radial_ring(seg, rings, r - 1, seg as nat).len());
        }
    } else {
        assert(4 * seg * r == 0) by (nonlinear_arith)
            requires
                r == 0,
        ;
    }
}

/// Line indices of the wireframe of a radial mesh (ellipse, star, blob) with
/// `segments` vertices per ring and `rings` + 1 rings: each ring's
/// circumferential lines, and radial lines from every ring but the last to the next.
pub fn create_radial_wireframe(segments: u32, rings: u32) -> (lines: Vec<u32>)
    requires
        (rings + 1) * segments <= 0x1_0000_0000,
    ensures
        lines@ == radial_wireframe(segments as nat, rings as nat),
        lines@.len() == 2 * segments * (2 * rings + 1),
        lines@.len() % 2 == 0,
        all_below(lines@, (rings + 1) * segments),
{
    let ghost seg = segments as int;
    let ghost rg = rings as int;
    let mut line_indices: Vec<u32> = Vec::new();
    let mut rr: u64 = 0;
    while rr <= rings as u64
        invariant
            seg == segments as int,
            rg == rings as int,
            rr <= rings as u64 + 1,
            (rings + 1) * segments <= 0x1_0000_0000,
            line_indices@ == radial_rings(seg, rg, rr as nat),
        decreases rings as u64 + 1 - rr,
    {
        let r = rr as u32;
        proof {
            assert(r * seg <= 0xffff_ffff) by (nonlinear_arith)
                requires
                    0 <= r <= rg,
                    0 <= seg,
                    (rg + 1) * seg <= 0x1_0000_0000,
            ;
        }
        let ring_start = r * segments;
        let mut i: u32 = 0;
        while i < segments
            invariant
                seg == segments as int,
                rg == rings as int,
                r as u64 == rr,
                rr <= rings as u64,
                r <= rings,
                i <= segments,
                ring_start == r * segments,
                (rings + 1) * segments <= 0x1_0000_0000,
                line_indices@ == radial_rings(seg, rg, r as nat) + radial_ring(seg, rg, r as int, i as nat),
            decreases segments - i,
        {
            proof {
                assert(r * seg + seg <= (rg + 1) * seg) by (nonlinear_arith)
                    requires
                        0 <= r <= rg,
                        0 <= seg,
                ;
                assert(r < rg ==> (r + 1) * seg + seg <= (rg + 1) * seg) by (nonlinear_arith)
                    requires
                        0 <= r,
                        0 <= seg,
                ;
                assert(r * seg + seg == (r + 1) * seg) by (nonlinear_arith);
                assert((i + 1) % (segments as int) < segments);
            }
            let next = (i + 1) % segments;
            let ghost before = line_indices@;

            // Circumferential line
            line_indices.push(ring_start + i);
            line_indices.push(ring_start + next);

            // Radial line to next ring (if not last ring)
            if r < rings {
                let next_ring_start = (r + 1) * segments;
                line_indices.push(ring_start + i);
                line_indices.push(next_ring_start + i);
            }
            assert(line_indices@ =~= before + radial_cell(seg, rg, r as int, i as int));
            i = i + 1;
        }
        assert(radial_rings(seg, rg, (r + 1) as nat) == radial_rings(seg, rg, r as nat) + radial_ring(
            seg,
            rg,
            r as int,
            seg as nat,
        ));
        rr = rr + 1;
    }
    proof {
        lemma_radial_rings(seg, rg, (rg + 1) as nat);
        assert(2 * seg * (2 * rg + 1) == 2 * (seg * (2 * rg + 1))) by (nonlinear_arith);
    }
    line_indices
}

/// A sequence built by appending keeps what it had: if each step from `a`
/// to `b` only appends, `f(a)` is a prefix of `f(b)`.
pub(crate) proof fn lemma_grows_by_append(f: spec_fn(nat) -> Seq<u32>, a: nat, b: nat)
    requires
        a <= b,
        forall|m: nat|
            a <= m < b ==> #[trigger] f(m + 1).len() >= f(m).len() && (forall|k: int|
                0 <= k < f(m).len() ==> #[trigger] f(m + 1)[k] == f(m)[k]),
    ensures
        f(a).len() <= f(b).len(),
        forall|k: int| 0 <= k < f(a).len() ==> #[trigger] f(b)[k] == f(a)[k],
    decreases b - a,
{
    if a < b {
        let m = (b - 1) as nat;
        lemma_grows_by_append(f, a, m);
        assert(f(m + 1).len() >= f(m).len());
    }
}

/// Entry `j` of cell `i` of band `r` stands at index
/// `6 * seg * r + w * i + j` of the ring wireframe, `w` being 6 below the
/// last band and 8 on it.
proof fn lemma_ring_at(seg: int, rd: int, r: int, i: int, j: int)
    requires
        seg >= 1,
        0 <= r < rd,
        0 <= i < seg,
        0 <= j < (if r == rd - 1 { 8int } else { 6int }),
        (rd + 1) * seg <= 0x1_0000_0000,
    ensures
        ring_wireframe(seg as nat, rd as nat)[6 * seg * r + (if r == rd - 1 { 8int } else { 6int }) * i + j]
            == ring_cell(seg, rd, r, i)[j],
{
    let ww = if r == rd - 1 { 8int } else { 6int };
    let f = |m: nat| ring_bands(seg, rd, m);
    assert forall|m: nat| (r + 1) as nat <= m < rd as nat implies #[trigger] f(m + 1).len() >= f(
        m,
    ).len() && (forall|k: int| 0 <= k < f(m).len() ==> #[trigger] f(m + 1)[k] == f(m)[k]) by {
        assert(f(m + 1) == f(m) + ring_band(seg, rd, m as int, seg as nat));
    }
    lemma_grows_by_append(f, (r + 1) as nat, rd as nat);
    let g = |m: nat| ring_band(seg, rd, r, m);
    assert forall|m: nat| (i + 1) as nat <= m < seg as nat implies #[trigger] g(m + 1).len() >= g(
        m,
    ).len() && (forall|k: int| 0 <= k < g(m).len() ==> #[trigger] g(m + 1)[k] == g(m)[k]) by {
        assert(g(m + 1) == g(m) + ring_cell(seg, rd, r, m as int));
    }
    lemma_grows_by_append(g, (i + 1) as nat, seg as nat);
    lemma_ring_bands(seg, rd, r as nat);
    lemma_ring_band(seg, rd, r, i as nat);
    lemma_ring_band(seg, rd, r, seg as nat);
    lemma_ring_cell(seg, rd, r, i);
    let x = ring_bands(seg, rd, r as nat);
    let y = ring_band(seg, rd, r, seg as nat);
    let p = ring_band(seg, rd, r, i as nat);
    let c = ring_cell(seg, rd, r, i);
    assert(f((r + 1) as nat) == x + y);
    assert(g((i + 1) as nat) == p + c);
    let q = ww * i + j;
    assert(p.len() == ww * i);
    assert((p + c)[q] == c[j]);
    assert(ww * i + ww <= ww * seg) by (nonlinear_arith)
        requires
            i + 1 <= seg,
            ww >= 0,
    ;
    assert(y.len() == ww * seg);
    assert(y[q] == c[j]);
    assert(x.len() == 6 * seg * r);
    assert((x + y)[6 * seg * r + q] == y[q]);
}

/// The lines of the ring wireframe in closed form. Vertex `i` of ring `r` is
/// `c = r * segments + i`, its neighbour on the same ring
/// `n = c - i + (i + 1) % segments`. Below the last band, cell `c` (indices
/// `6c .. 6c + 6`) draws the inner line `c`–`n`, the radial line
/// `c`–`c + segments` and the diagonal `n`–`c + segments`; a cell of the
/// last band (8 indices each) draws the same three and then the outer line
/// `c + segments`–`n + segments`.
pub proof fn lemma_ring_wireframe_lines(segments: nat, radial_divisions: nat)
    requires
        segments >= 1,
        radial_divisions >= 1,
        (radial_divisions + 1) * segments <= 0x1_0000_0000,
    ensures
        ring_wireframe(segments, radial_divisions).len() == 6 * segments * (radial_divisions - 1) + 8
            * segments,
        forall|k: int|
            #![trigger ring_wireframe(segments, radial_divisions)[k]]
            0 <= k < 6 * segments * (radial_divisions - 1) ==> {
                let c = k / 6;
                let i = c % (segments as int);
                let n = c - i + (i + 1) % (segments as int);
                ring_wireframe(segments, radial_divisions)[k] == if k % 6 == 0 || k % 6 == 2 {
                    c
                } else if k % 6 == 1 || k % 6 == 4 {
                    n
                } else {
                    c + segments
                }
            },
        forall|k: int|
            #![trigger ring_wireframe(segments, radial_divisions)[k]]
            6 * segments * (radial_divisions - 1) <= k < 6 * segments * (radial_divisions - 1) + 8
                * segments ==> {
                let m = k - 6 * segments * (radial_divisions - 1);
                let i = m / 8;
                let c = (radial_divisions - 1) * segments + i;
                let n = (radial_divisions - 1) * segments + (i + 1) % (segments as int);
                ring_wireframe(segments, radial_divisions)[k] == if m % 8 == 0 || m % 8 == 2 {
                    c
                } else if m % 8 == 1 || m % 8 == 4 {
                    n
                } else if m % 8 == 7 {
                    n + segments
                } else {
                    c + segments
                }
            },
{
    let s = segments as int;
    let rd = radial_divisions as int;
    let w = ring_wireframe(segments, radial_divisions);
    lemma_ring_bands(s, rd, rd as nat);
    assert(6 * s * rd + 2 * s == 6 * s * (rd - 1) + 8 * s) by (nonlinear_arith);
    assert forall|k: int| #![trigger w[k]] 0 <= k < 6 * s * (rd - 1) implies {
        let c = k / 6;
        let i = c % s;
        let n = c - i + (i + 1) % s;
        w[k] == if k % 6 == 0 || k % 6 == 2 {
            c
        } else if k % 6 == 1 || k % 6 == 4 {
            n
        } else {
            c + s
        }
    } by {
        vstd::arithmetic::div_mod::lemma_fundamental_div_mod(k, 6);
        let c = k / 6;
        let j = k % 6;
        vstd::arithmetic::div_mod::lemma_fundamental_div_mod(c, s);
        vstd::arithmetic::div_mod::lemma_mod_pos_bound(c, s);
        let r = c / s;
        let i = c % s;
        assert(0 <= r < rd - 1) by (nonlinear_arith)
            requires
                c == s * r + i,
                0 <= i < s,
                0 <= c,
                6 * c <= k,
                k < 6 * s * (rd - 1),
        ;
        lemma_ring_at(s, rd, r, i, j);
        assert(6 * s * r + 6 * i + j == k) by (nonlinear_arith)
            requires
                k == 6 * c + j,
                c == s * r + i,
        ;
        assert(r * s == s * r) by (nonlinear_arith);
        assert((r + 1) * s == s * r + s) by (nonlinear_arith);
        assert((r + 2) * s <= (rd + 1) * s) by (nonlinear_arith)
            requires
                r + 2 <= rd + 1,
                0 <= s,
        ;
        assert((r + 2) * s == s * r + 2 * s) by (nonlinear_arith);
        assert(0 <= (i + 1) % s < s);
        let n = c - i + (i + 1) % s;
        let cell = ring_cell(s, rd, r, i);
        assert(cell[0] == c as u32 && cell[1] == n as u32 && cell[2] == c as u32 && cell[3] == (c
            + s) as u32 && cell[4] == n as u32 && cell[5] == (c + s) as u32);
    }
    assert forall|k: int| #![trigger w[k]] 6 * s * (rd - 1) <= k < 6 * s * (rd - 1) + 8 * s implies {
        let m = k - 6 * s * (rd - 1);
        let i = m / 8;
        let c = (rd - 1) * s + i;
        let n = (rd - 1) * s + (i + 1) % s;
        w[k] == if m % 8 == 0 || m % 8 == 2 {
            c
        } else if m % 8 == 1 || m % 8 == 4 {
            n
        } else if m % 8 == 7 {
            n + s
        } else {
            c + s
        }
    } by {
        let m = k - 6 * s * (rd - 1);
        vstd::arithmetic::div_mod::lemma_fundamental_div_mod(m, 8);
        let i = m / 8;
        let j = m % 8;
        assert(0 <= i < s);
        let r = rd - 1;
        lemma_ring_at(s, rd, r, i, j);
        assert(0 <= r * s) by (nonlinear_arith)
            requires
                0 <= r,
                0 <= s,
        ;
        assert((r + 1) * s == r * s + s) by (nonlinear_arith);
        assert((r + 2) * s == r * s + 2 * s) by (nonlinear_arith);
        assert(0 <= (i + 1) % s < s);
        let c = r * s + i;
        let n = r * s + (i + 1) % s;
        let cell = ring_cell(s, rd, r, i);
        assert(cell[0] == c as u32 && cell[1] == n as u32 && cell[2] == c as u32 && cell[3] == (c
            + s) as u32 && cell[4] == n as u32 && cell[5] == (c + s) as u32 && cell[6] == (c + s) as u32
            && cell[7] == (n + s) as u32);
    }
}

/// Entry `j` of the lines of vertex `i` of ring `r` stands at index
/// `4 * seg * r + w * i + j` of the radial wireframe, `w` being 4 below the
/// last ring and 2 on it.
proof fn lemma_radial_at(seg: int, rings: int, r: int, i: int, j: int)
    requires
        seg >= 1,
        0 <= r <= rings,
        0 <= i < seg,
        0 <= j < (if r < rings { 4int } else { 2int }),
        (rings + 1) * seg <= 0x1_0000_0000,
    ensures
        radial_wireframe(seg as nat, rings as nat)[4 * seg * r + (if r < rings { 4int } else { 2int }) * i
            + j] == radial_cell(seg, rings, r, i)[j],
{
    let ww = if r < rings { 4int } else { 2int };
    let f = |m: nat| radial_rings(seg, rings, m);
    assert forall|m: nat| (r + 1) as nat <= m < (rings + 1) as nat implies #[trigger] f(m + 1).len()
        >= f(m).len() && (forall|k: int| 0 <= k < f(m).len() ==> #[trigger] f(m + 1)[k] == f(m)[k]) by {
        assert(f(m + 1) == f(m) + radial_ring(seg, rings, m as int, seg as nat));
    }
    lemma_grows_by_append(f, (r + 1) as nat, (rings + 1) as nat);
    let g = |m: nat| radial_ring(seg, rings, r, m);
    assert forall|m: nat| (i + 1) as nat <= m < seg as nat implies #[trigger] g(m + 1).len() >= g(
        m,
    ).len() && (forall|k: int| 0 <= k < g(m).len() ==> #[trigger] g(m + 1)[k] == g(m)[k]) by {
        assert(g(m + 1) == g(m) + radial_cell(seg, rings, r, m as int));
    }
    lemma_grows_by_append(g, (i + 1) as nat, seg as nat);
    lemma_radial_rings(seg, rings, r as nat);
    lemma_radial_ring(seg, rings, r, i as nat);
    lemma_radial_ring(seg, rings, r, seg as nat);
    lemma_radial_cell(seg, rings, r, i);
    let x = radial_rings(seg, rings, r as nat);
    let y = radial_ring(seg, rings, r, seg as nat);
    let p = radial_ring(seg, rings, r, i as nat);
    let c = radial_cell(seg, rings, r, i);
    assert(f((r + 1) as nat) == x + y);
    assert(g((i + 1) as nat) == p + c);
    let q = ww * i + j;
    assert(p.len() == ww * i);
    assert((p + c)[q] == c[j]);
    assert(ww * i + ww <= ww * seg) by (nonlinear_arith)
        requires
            i + 1 <= seg,
            ww >= 0,
    ;
    assert(y.len() == ww * seg);
    assert(y[q] == c[j]);
    assert(x.len() == 4 * seg * r);
    assert((x + y)[4 * seg * r + q] == y[q]);
}

/// The lines of the radial wireframe in closed form. Vertex `i` of ring `r`
/// is `c = r * segments + i`. Below the last ring, lines `2c` and `2c + 1`
/// (indices `4c .. 4c + 4`) join `c` to its neighbour on the same ring,
/// `c - i + (i + 1) % segments`, and `c` to the same position on the next
/// ring, `c + segments`. On the last ring only the neighbour lines follow.
pub proof fn lemma_radial_wireframe_lines(segments: nat, rings: nat)
    requires
        segments >= 1,
        (rings + 1) * segments <= 0x1_0000_0000,
    ensures
        radial_wireframe(segments, rings).len() == 4 * segments * rings + 2 * segments,
        forall|k: int|
            #![trigger radial_wireframe(segments, rings)[k]]
            0 <= k < 4 * segments * rings ==> {
                let c = k / 4;
                let i = c % (segments as int);
                radial_wireframe(segments, rings)[k] == if k % 4 == 1 {
                    c - i + (i + 1) % (segments as int)
                } else if k % 4 == 3 {
                    c + segments
                } else {
                    c
                }
            },
        forall|k: int|
            #![trigger radial_wireframe(segments, rings)[k]]
            4 * segments * rings <= k < 4 * segments * rings + 2 * segments ==> {
                let m = k - 4 * segments * rings;
                let i = m / 2;
                radial_wireframe(segments, rings)[k] == rings * segments + if m % 2 == 0 {
                    i
                } else {
                    (i + 1) % (segments as int)
                }
            },
{
    let s = segments as int;
    let rg = rings as int;
    let w = radial_wireframe(segments, rings);
    lemma_radial_rings(s, rg, (rg + 1) as nat);
    assert(2 * s * (2 * rg + 1) == 4 * s * rg + 2 * s) by (nonlinear_arith);
    assert forall|k: int| #![trigger w[k]] 0 <= k < 4 * s * rg implies {
        let c = k / 4;
        let i = c % s;
        w[k] == if k % 4 == 1 {
            c - i + (i + 1) % s
        } else if k % 4 == 3 {
            c + s
        } else {
            c
        }
    } by {
        vstd::arithmetic::div_mod::lemma_fundamental_div_mod(k, 4);
        let c = k / 4;
        let j = k % 4;
        vstd::arithmetic::div_mod::lemma_fundamental_div_mod(c, s);
        vstd::arithmetic::div_mod::lemma_mod_pos_bound(c, s);
        let r = c / s;
        let i = c % s;
        assert(0 <= r < rg) by (nonlinear_arith)
            requires
                c == s * r + i,
                0 <= i < s,
                0 <= c,
                4 * c <= k,
                k < 4 * s * rg,
        ;
        lemma_radial_at(s, rg, r, i, j);
        assert(4 * s * r + 4 * i + j == k) by (nonlinear_arith)
            requires
                k == 4 * c + j,
                c == s * r + i,
        ;
        assert(r * s == s * r) by (nonlinear_arith);
        assert((r + 1) * s == s * r + s) by (nonlinear_arith);
        assert((r + 2) * s <= (rg + 1) * s) by (nonlinear_arith)
            requires
                r + 2 <= rg + 1,
                0 <= s,
        ;
        assert((r + 2) * s == s * r + 2 * s) by (nonlinear_arith);
        assert(0 <= (i + 1) % s < s);
        let cell = radial_cell(s, rg, r, i);
        assert(cell[0] == c as u32 && cell[1] == (c - i + (i + 1) % s) as u32 && cell[2] == c as u32
            && cell[3] == (c + s) as u32);
    }
    assert forall|k: int| #![trigger w[k]] 4 * s * rg <= k < 4 * s * rg + 2 * s implies {
        let m = k - 4 * s * rg;
        let i = m / 2;
        w[k] == rg * s + if m % 2 == 0 {
            i
        } else {
            (i + 1) % s
        }
    } by {
        let m = k - 4 * s * rg;
        vstd::arithmetic::div_mod::lemma_fundamental_div_mod(m, 2);
        let i = m / 2;
        let j = m % 2;
        assert(0 <= i < s);
        lemma_radial_at(s, rg, rg, i, j);
        assert(0 <= rg * s) by (nonlinear_arith)
            requires
                0 <= rg,
                0 <= s,
        ;
        assert(rg * s + s <= (rg + 1) * s) by (nonlinear_arith);
        assert(0 <= (i + 1) % s < s);
        let cell = radial_cell(s, rg, rg, i);
        assert(cell[0] == (rg * s + i) as u32 && cell[1] == (rg * s + (i + 1) % s) as u32);
    }
}

/// The directed edges of the first `t` triangles of `tris`, three per
/// triangle in winding order: `(a, b)`, `(b, c)`, `(c, a)`.
pub open spec fn tri_edges_upto(tris: Seq<u32>, t: nat) -> Seq<(u32, u32)>
    decreases t,
{
    if t == 0 {
        Seq::empty()
    } else {
        let b = 3 * (t - 1);
        tri_edges_upto(tris, (t - 1) as nat) + seq![
            (tris[b], tris[b + 1]),
            (tris[b + 1], tris[b + 2]),
            (tris[b + 2], tris[b]),
        ]
    }
}

/// The directed edges of every complete triangle of `tris`; a trailing
/// partial triangle is ignored.
pub open spec fn tri_edges(tris: Seq<u32>) -> Seq<(u32, u32)> {
    tri_edges_upto(tris, tris.len() / 3)
}

/// Whether two directed edges join the same two vertices.
pub open spec fn same_edge(e1: (u32, u32), e2: (u32, u32)) -> bool {
    (e1.0 == e2.0 && e1.1 == e2.1) || (e1.0 == e2.1 && e1.1 == e2.0)
}

/// How many edges of `es` join the same two vertices as `e`.
pub open spec fn edge_multiplicity(es: Seq<(u32, u32)>, e: (u32, u32)) -> nat
    decreases es.len(),
{
    if es.len() == 0 {
        0
    } else {
        edge_multiplicity(es.drop_last(), e) + if same_edge(es.last(), e) {
            1nat
        } else {
            0nat
        }
    }
}

/// The edges of `es`, in order, that no other edge of `all` duplicates.
pub open spec fn unique_edges(es: Seq<(u32, u32)>, all: Seq<(u32, u32)>) -> Seq<(u32, u32)>
    decreases es.len(),
{
    if es.len() == 0 {
        Seq::empty()
    } else {
        unique_edges(es.drop_last(), all) + if edge_multiplicity(all, es.last()) == 1 {
            seq![es.last()]
        } else {
            Seq::<(u32, u32)>::empty()
        }
    }
}

/// The boundary edges of a triangle list: the directed edges, in the order
/// and winding in which the triangles give them, that belong to exactly one
/// triangle.
pub open spec fn boundary_edges(tris: Seq<u32>) -> Seq<(u32, u32)> {
    unique_edges(tri_edges(tris), tri_edges(tris))
}

/// The hash key of the vertex pair of an edge, independent of its direction.
pub open spec fn edge_code(e: (u32, u32)) -> u64 {
    if e.0 < e.1 {
        (e.0 as int * 0x1_0000_0000 + e.1 as int) as u64
    } else {
        (e.1 as int * 0x1_0000_0000 + e.0 as int) as u64
    }
}

proof fn lemma_edge_code(e1: (u32, u32), e2: (u32, u32))
    ensures
        (edge_code(e1) == edge_code(e2)) == same_edge(e1, e2),
{
    let (a1, b1) = if e1.0 < e1.1 { (e1.0 as int, e1.1 as int) } else { (e1.1 as int, e1.0 as int) };
    let (a2, b2) = if e2.0 < e2.1 { (e2.0 as int, e2.1 as int) } else { (e2.1 as int, e2.0 as int) };
    assert(a1 * 0x1_0000_0000 + b1 == a2 * 0x1_0000_0000 + b2 ==> a1 == a2 && b1 == b2) by (nonlinear_arith)
        requires
            0 <= b1 < 0x1_0000_0000,
            0 <= b2 < 0x1_0000_0000,
            0 <= a1 < 0x1_0000_0000,
            0 <= a2 < 0x1_0000_0000,
    ;
    assert(0 <= a1 * 0x1_0000_0000 + b1 <= 0xffff_ffff_ffff_ffff) by (nonlinear_arith)
        requires
            0 <= b1 < 0x1_0000_0000,
            0 <= a1 < 0x1_0000_0000,
    ;
    assert(0 <= a2 * 0x1_0000_0000 + b2 <= 0xffff_ffff_ffff_ffff) by (nonlinear_arith)
        requires
            0 <= b2 < 0x1_0000_0000,
            0 <= a2 < 0x1_0000_0000,
    ;
}

fn edge_code_exec(a: u32, b: u32) -> (c: u64)
    ensures
        c == edge_code((a, b)),
{
    proof {
        assert(a as int * 0x1_0000_0000 + b as int <= 0xffff_ffff_ffff_ffff) by (nonlinear_arith)
            requires
                a <= 0xffff_ffff,
                b <= 0xffff_ffff,
        ;
        assert(b as int * 0x1_0000_0000 + a as int <= 0xffff_ffff_ffff_ffff) by (nonlinear_arith)
            requires
                a <= 0xffff_ffff,
                b <= 0xffff_ffff,
        ;
    }
    if a < b {
        (a as u64) * 0x1_0000_0000 + (b as u64)
    } else {
        (b as u64) * 0x1_0000_0000 + (a as u64)
    }
}

proof fn lemma_edge_multiplicity_bound(es: Seq<(u32, u32)>, e: (u32, u32))
    ensures
        edge_multiplicity(es, e) <= es.len(),
    decreases es.len(),
{
    if es.len() > 0 {
        lemma_edge_multiplicity_bound(es.drop_last(), e);
    }
}

proof fn lemma_edge_multiplicity_pos(es: Seq<(u32, u32)>, i: int)
    requires
        0 <= i < es.len(),
    ensures
        edge_multiplicity(es, es[i]) >= 1,
    decreases es.len(),
{
    if i < es.len() - 1 {
        lemma_edge_multiplicity_pos(es.drop_last(), i);
        assert(es.drop_last()[i] == es[i]);
    }
}

/// Membership in `unique_edges`: exactly the edges of `es` of multiplicity one in `all`.
proof fn lemma_unique_edges_members(es: Seq<(u32, u32)>, all: Seq<(u32, u32)>)
    ensures
        forall|k: int|
            0 <= k < unique_edges(es, all).len() ==> es.contains(#[trigger] unique_edges(es, all)[k])
                && edge_multiplicity(all, unique_edges(es, all)[k]) == 1,
        forall|i: int|
            0 <= i < es.len() && edge_multiplicity(all, #[trigger] es[i]) == 1 ==> unique_edges(
                es,
                all,
            ).contains(es[i]),
    decreases es.len(),
{
    if es.len() > 0 {
        let p = es.drop_last();
        lemma_unique_edges_members(p, all);
        let u = unique_edges(es, all);
        let up = unique_edges(p, all);
        assert forall|k: int| 0 <= k < u.len() implies es.contains(#[trigger] u[k])
            && edge_multiplicity(all, u[k]) == 1 by {
            if k < up.len() {
                assert(u[k] == up[k]);
                let j = choose|j: int| 0 <= j < p.len() && p[j] == up[k];
                assert(es[j] == p[j]);
            } else {
                assert(u[k] == es.last());
                assert(es[es.len() - 1] == es.last());
            }
        }
        assert forall|i: int|
            0 <= i < es.len() && edge_multiplicity(all, #[trigger] es[i]) == 1 implies u.contains(
            es[i],
        ) by {
            if i < es.len() - 1 {
                assert(p[i] == es[i]);
                let k = choose|k: int| 0 <= k < up.len() && up[k] == p[i];
                assert(u[k] == up[k]);
            } else {
                assert(u[up.len() as int] == es.last());
            }
        }
    }
}

/// Boundary edges of a triangle list: the directed edges that belong to
/// exactly one triangle, with the winding of that triangle, in the order in
/// which the triangles give them. A trailing partial triangle is ignored.
pub fn compute_boundary_edges_from_triangles(triangles: &[u32]) -> (edges: Vec<(u32, u32)>)
    ensures
        edges@ == boundary_edges(triangles@),
        forall|k: int|
            0 <= k < edges@.len() ==> tri_edges(triangles@).contains(#[trigger] edges@[k])
                && edge_multiplicity(tri_edges(triangles@), edges@[k]) == 1,
        forall|i: int|
            0 <= i < tri_edges(triangles@).len() && edge_multiplicity(
                tri_edges(triangles@),
                #[trigger] tri_edges(triangles@)[i],
            ) == 1 ==> edges@.contains(tri_edges(triangles@)[i]),
{
    broadcast use vstd::std_specs::hash::group_hash_axioms;

    let ghost tris = triangles@;
    let len = triangles.len();
    let n3 = len / 3;
    let mut all: Vec<(u32, u32)> = Vec::new();
    let mut t: usize = 0;
    while t < n3
        invariant
            tris == triangles@,
            n3 == triangles@.len() / 3,
            n3 == len / 3,
            len == triangles@.len(),
            t <= n3,
            all@ == tri_edges_upto(tris, t as nat),
            all@.len() == 3 * t,
        decreases n3 - t,
    {
        assert(3 * t + 3 <= len);
        let b = 3 * t;
        let a0 = triangles[b];
        let a1 = triangles[b + 1];
        let a2 = triangles[b + 2];
        all.push((a0, a1));
        all.push((a1, a2));
        all.push((a2, a0));
        assert(all@ =~= tri_edges_upto(tris, (t + 1) as nat));
        t = t + 1;
    }
    let ghost es = all@;
    let m = all.len();
    let mut counts: std::collections::HashMap<u64, usize> = std::collections::HashMap::new();
    let mut j: usize = 0;
    while j < m
        invariant
            es == all@,
            m == all.len(),
            j <= m,
            forall|e: (u32, u32)|
                #![trigger edge_code(e)]
                counts@.contains_key(edge_code(e)) == (edge_multiplicity(es.take(j as int), e) > 0),
            forall|e: (u32, u32)|
                #![trigger edge_code(e)]
                counts@.contains_key(edge_code(e)) ==> counts@[edge_code(e)] == edge_multiplicity(
                    es.take(j as int),
                    e,
                ),
        decreases m - j,
    {
        let (a, b) = all[j];
        let key = edge_code_exec(a, b);
        let ghost prev = counts@;
        proof {
            assert(es.take(j + 1).drop_last() =~= es.take(j as int));
            assert(es.take(j + 1).last() == es[j as int]);
            lemma_edge_multiplicity_bound(es.take(j as int), (a, b));
        }
        let c: usize = match counts.get(&key) {
            Some(c) => *c,
            None => 0,
        };
        proof {
            if prev.contains_key(key) {
                assert(c == edge_multiplicity(es.take(j as int), (a, b)));
            } else {
                assert(edge_multiplicity(es.take(j as int), (a, b)) == 0);
            }
        }
        counts.insert(key, c + 1);
        proof {
            assert forall|e: (u32, u32)|
                #![trigger edge_code(e)]
                counts@.contains_key(edge_code(e)) == (edge_multiplicity(es.take(j + 1), e) > 0)
                    && (counts@.contains_key(edge_code(e)) ==> counts@[edge_code(e)]
                    == edge_multiplicity(es.take(j + 1), e)) by {
                lemma_edge_code((a, b), e);
                lemma_edge_code(e, (a, b));
                if edge_code(e) == key {
                    assert(same_edge(es[j as int], e));
                    assert(edge_multiplicity(es.take(j as int), e) == edge_multiplicity(
                        es.take(j as int),
                        (a, b),
                    )) by {
                        lemma_same_edge_multiplicity(es.take(j as int), e, (a, b));
                    }
                } else {
                    assert(!same_edge(es[j as int], e));
                }
            }
        }
        j = j + 1;
    }
    assert(es.take(m as int) =~= es);
    let mut result: Vec<(u32, u32)> = Vec::new();
    let mut k: usize = 0;
    while k < m
        invariant
            es == all@,
            m == all.len(),
            k <= m,
            forall|e: (u32, u32)|
                #![trigger edge_code(e)]
                counts@.contains_key(edge_code(e)) == (edge_multiplicity(es, e) > 0),
            forall|e: (u32, u32)|
                #![trigger edge_code(e)]
                counts@.contains_key(edge_code(e)) ==> counts@[edge_code(e)] == edge_multiplicity(
                    es,
                    e,
                ),
            result@ == unique_edges(es.take(k as int), es),
        decreases m - k,
    {
        let (a, b) = all[k];
        let key = edge_code_exec(a, b);
        proof {
            assert(es.take(k + 1).drop_last() =~= es.take(k as int));
            assert(es.take(k + 1).last() == es[k as int]);
        }
        let once = match counts.get(&key) {
            Some(c) => *c == 1,
            None => false,
        };
        if once {
            result.push((a, b));
        }
        proof {
            assert(once == (edge_multiplicity(es, (a, b)) == 1));
            assert(result@ =~= unique_edges(es.take(k + 1), es));
        }
        k = k + 1;
    }
    proof {
        lemma_unique_edges_members(es, es);
    }
    result
}

/// The edges of `es`, in order, that no earlier edge duplicates:
/// the first edge between each pair of joined vertices, with the winding
/// of the triangle that first gives it.
pub open spec fn first_edges(es: Seq<(u32, u32)>) -> Seq<(u32, u32)>
    decreases es.len(),
{
    if es.len() == 0 {
        Seq::empty()
    } else {
        first_edges(es.drop_last()) + if edge_multiplicity(es.drop_last(), es.last()) == 0 {
            seq![es.last()]
        } else {
            Seq::<(u32, u32)>::empty()
        }
    }
}

/// The edges of every complete triangle, three per triangle in winding order.
fn triangle_edge_list(triangles: &[u32]) -> (all: Vec<(u32, u32)>)
    ensures
        all@ == tri_edges(triangles@),
{
    let ghost tris = triangles@;
    let len = triangles.len();
    let n3 = len / 3;
    let mut all: Vec<(u32, u32)> = Vec::new();
    let mut t: usize = 0;
    while t < n3
        invariant
            tris == triangles@,
            n3 == triangles@.len() / 3,
            len == triangles@.len(),
            t <= n3,
            all@ == tri_edges_upto(tris, t as nat),
        decreases n3 - t,
    {
        assert(3 * t + 3 <= len);
        let b = 3 * t;
        let a0 = triangles[b];
        let a1 = triangles[b + 1];
        let a2 = triangles[b + 2];
        all.push((a0, a1));
        all.push((a1, a2));
        all.push((a2, a0));
        assert(all@ =~= tri_edges_upto(tris, (t + 1) as nat));
        t = t + 1;
    }
    all
}

/// The distance-constraint edges of a soft body: every edge of the
/// complete triangles, once per pair of joined vertices, in the order and
/// winding in which the triangles first give it.
pub fn constraint_edges(triangles: &[u32]) -> (edges: Vec<(u32, u32)>)
    ensures
        edges@ == first_edges(tri_edges(triangles@)),
{
    broadcast use vstd::std_specs::hash::group_hash_axioms;

    let all = triangle_edge_list(triangles);
    let ghost es = all@;
    let m = all.len();
    let mut seen: std::collections::HashSet<u64> = std::collections::HashSet::new();
    let mut result: Vec<(u32, u32)> = Vec::new();
    let mut k: usize = 0;
    while k < m
        invariant
            es == all@,
            m == all.len(),
            k <= m,
            forall|e: (u32, u32)|
                #![trigger edge_code(e)]
                seen@.contains(edge_code(e)) == (edge_multiplicity(es.take(k as int), e) > 0),
            result@ == first_edges(es.take(k as int)),
        decreases m - k,
    {
        let (a, b) = all[k];
        let key = edge_code_exec(a, b);
        proof {
            assert(es.take(k + 1).drop_last() =~= es.take(k as int));
            assert(es.take(k + 1).last() == es[k as int]);
        }
        let fresh = seen.insert(key);
        if fresh {
            result.push((a, b));
        }
        proof {
            assert(result@ =~= first_edges(es.take(k + 1)));
            assert forall|e: (u32, u32)|
                #![trigger edge_code(e)]
                seen@.contains(edge_code(e)) == (edge_multiplicity(es.take(k + 1), e) > 0) by {
                lemma_edge_code((a, b), e);
                if edge_code(e) == key {
                    assert(same_edge(es[k as int], e));
                } else {
                    assert(!same_edge(es[k as int], e));
                }
            }
        }
        k = k + 1;
    }
    assert(es.take(m as int) =~= es);
    result
}

/// The constraint edges list each pair of joined vertices once, and every
/// triangle edge has its pair among them.
pub proof fn lemma_constraint_edges_cover(tris: Seq<u32>)
    ensures
        forall|i: int, j: int|
            0 <= i < j < first_edges(tri_edges(tris)).len() ==> !same_edge(
                #[trigger] first_edges(tri_edges(tris))[i],
                #[trigger] first_edges(tri_edges(tris))[j],
            ),
        forall|i: int|
            0 <= i < tri_edges(tris).len() ==> exists|k: int|
                0 <= k < first_edges(tri_edges(tris)).len() && same_edge(
                    #[trigger] tri_edges(tris)[i],
                    #[trigger] first_edges(tri_edges(tris))[k],
                ),
{
    lemma_first_edges(tri_edges(tris));
}

proof fn lemma_first_edges(es: Seq<(u32, u32)>)
    ensures
        forall|i: int, j: int|
            0 <= i < j < first_edges(es).len() ==> !same_edge(
                #[trigger] first_edges(es)[i],
                #[trigger] first_edges(es)[j],
            ),
        forall|i: int|
            0 <= i < es.len() ==> exists|k: int|
                0 <= k < first_edges(es).len() && same_edge(#[trigger] es[i], #[trigger] first_edges(es)[k]),
        forall|k: int| 0 <= k < first_edges(es).len() ==> edge_multiplicity(es, #[trigger] first_edges(es)[k]) > 0,
    decreases es.len(),
{
    if es.len() > 0 {
        let p = es.drop_last();
        let e = es.last();
        lemma_first_edges(p);
        let fp = first_edges(p);
        let f = first_edges(es);
        assert forall|k: int| 0 <= k < f.len() implies edge_multiplicity(es, #[trigger] f[k]) > 0 by {
            if k < fp.len() {
                assert(f[k] == fp[k]);
            } else {
                assert(f[k] == e);
            }
        }
        assert forall|i: int, j: int| 0 <= i < j < f.len() implies !same_edge(#[trigger] f[i], #[trigger] f[j]) by {
            if j < fp.len() {
                assert(f[i] == fp[i] && f[j] == fp[j]);
            } else {
                assert(f[i] == fp[i]);
                assert(f[j] == e);
                assert(edge_multiplicity(p, e) == 0);
                if same_edge(fp[i], e) {
                    lemma_same_edge_multiplicity(p, fp[i], e);
                }
            }
        }
        assert forall|i: int| 0 <= i < es.len() implies exists|k: int|
            0 <= k < f.len() && same_edge(#[trigger] es[i], #[trigger] f[k]) by {
            if i < p.len() {
                assert(es[i] == p[i]);
                let k = choose|k: int| 0 <= k < fp.len() && same_edge(#[trigger] p[i], #[trigger] fp[k]);
                assert(f[k] == fp[k]);
            } else {
                assert(es[i] == e);
                if edge_multiplicity(p, e) == 0 {
                    assert(f[fp.len() as int] == e);
                    assert(same_edge(es[i], f[fp.len() as int]));
                } else {
                    lemma_multiplicity_witness(p, e);
                    let q = choose|q: int| 0 <= q < p.len() && same_edge(#[trigger] p[q], e);
                    let k = choose|k: int| 0 <= k < fp.len() && same_edge(#[trigger] p[q], #[trigger] fp[k]);
                    assert(f[k] == fp[k]);
                    assert(same_edge(es[i], f[k]));
                }
            }
        }
    }
}

/// A positive multiplicity has a witness.
proof fn lemma_multiplicity_witness(es: Seq<(u32, u32)>, e: (u32, u32))
    requires
        edge_multiplicity(es, e) > 0,
    ensures
        exists|q: int| 0 <= q < es.len() && same_edge(#[trigger] es[q], e),
    decreases es.len(),
{
    if same_edge(es.last(), e) {
        assert(same_edge(es[es.len() - 1], e));
    } else {
        lemma_multiplicity_witness(es.drop_last(), e);
        let q = choose|q: int| 0 <= q < es.drop_last().len() && same_edge(#[trigger] es.drop_last()[q], e);
        assert(es[q] == es.drop_last()[q]);
    }
}

/// Edges that join the same vertices have the same multiplicity.
proof fn lemma_same_edge_multiplicity(es: Seq<(u32, u32)>, e1: (u32, u32), e2: (u32, u32))
    requires
        same_edge(e1, e2),
    ensures
        edge_multiplicity(es, e1) == edge_multiplicity(es, e2),
    decreases es.len(),
{
    if es.len() > 0 {
        lemma_same_edge_multiplicity(es.drop_last(), e1, e2);
    }
}

proof fn lemma_unique_edges_multiplicity(es: Seq<(u32, u32)>, all: Seq<(u32, u32)>, e: (u32, u32))
    ensures
        edge_multiplicity(unique_edges(es, all), e) <= edge_multiplicity(es, e),
    decreases es.len(),
{
    if es.len() > 0 {
        let p = es.drop_last();
        lemma_unique_edges_multiplicity(p, all, e);
        let up = unique_edges(p, all);
        if edge_multiplicity(all, es.last()) == 1 {
            assert((up + seq![es.last()]).drop_last() =~= up);
        } else {
            assert(up + Seq::<(u32, u32)>::empty() =~= up);
        }
    }
}

/// Two positions holding edges that join the vertices of `e` make its multiplicity at least two.
proof fn lemma_two_positions(es: Seq<(u32, u32)>, e: (u32, u32), i: int, j: int)
    requires
        0 <= i < j < es.len(),
        same_edge(es[i], e),
        same_edge(es[j], e),
    ensures
        edge_multiplicity(es, e) >= 2,
    decreases es.len(),
{
    if j < es.len() - 1 {
        assert(es.drop_last()[i] == es[i]);
        assert(es.drop_last()[j] == es[j]);
        lemma_two_positions(es.drop_last(), e, i, j);
    } else {
        lemma_multiplicity_at(es.drop_last(), e, i);
        assert(es.drop_last()[i] == es[i]);
    }
}

proof fn lemma_multiplicity_at(es: Seq<(u32, u32)>, e: (u32, u32), i: int)
    requires
        0 <= i < es.len(),
        same_edge(es[i], e),
    ensures
        edge_multiplicity(es, e) >= 1,
    decreases es.len(),
{
    if i < es.len() - 1 {
        assert(es.drop_last()[i] == es[i]);
        lemma_multiplicity_at(es.drop_last(), e, i);
    }
}

/// Each boundary edge is listed once: no two entries of the boundary join
/// the same two vertices.
pub proof fn lemma_boundary_edges_distinct(tris: Seq<u32>)
    ensures
        forall|i: int, j: int|
            0 <= i < j < boundary_edges(tris).len() ==> !same_edge(
                #[trigger] boundary_edges(tris)[i],
                #[trigger] boundary_edges(tris)[j],
            ),
{
    let es = tri_edges(tris);
    let b = boundary_edges(tris);
    lemma_unique_edges_members(es, es);
    assert forall|i: int, j: int| 0 <= i < j < b.len() implies !same_edge(
        #[trigger] b[i],
        #[trigger] b[j],
    ) by {
        if same_edge(b[i], b[j]) {
            let e = b[i];
            lemma_two_positions(b, e, i, j);
            lemma_unique_edges_multiplicity(es, es, e);
        }
    }
}

} // verus!
