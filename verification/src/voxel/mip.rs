use vstd::prelude::*;
use crate::voxel::grid::{linear_index, lemma_linear_index, lemma_linear_index_injective};

verus! {

/// The value of cell `(x, y, z)` of a `w × h × d` volume, or 0 outside it.
pub open spec fn cell_or_zero(data: Seq<u8>, w: int, h: int, d: int, x: int, y: int, z: int) -> u8 {
    if 0 <= x < w && 0 <= y < h && 0 <= z < d {
        data[linear_index(w, h, x, y, z)]
    } else {
        0u8
    }
}

/// Cell `(dx, dy, dz)` of the block `(mx, my, mz)` of size `s`.
pub open spec fn block_cell(data: Seq<u8>, w: int, h: int, d: int, s: int, mx: int, my: int, mz: int, dx: int, dy: int, dz: int) -> u8 {
    cell_or_zero(data, w, h, d, mx * s + dx, my * s + dy, mz * s + dz)
}

/// `m` is the largest value in block `(mx, my, mz)`, cells outside the
/// volume counting as 0.
pub open spec fn is_block_max(data: Seq<u8>, w: int, h: int, d: int, s: int, mx: int, my: int, mz: int, m: u8) -> bool {
    &&& forall|dx: int, dy: int, dz: int|
        #![trigger block_cell(data, w, h, d, s, mx, my, mz, dx, dy, dz)]
        0 <= dx < s && 0 <= dy < s && 0 <= dz < s ==> block_cell(data, w, h, d, s, mx, my, mz, dx, dy, dz) <= m
    &&& m == 0 || exists|dx: int, dy: int, dz: int|
        #![trigger block_cell(data, w, h, d, s, mx, my, mz, dx, dy, dz)]
        0 <= dx < s && 0 <= dy < s && 0 <= dz < s && block_cell(data, w, h, d, s, mx, my, mz, dx, dy, dz) == m
}

/// Blocks of size `s` needed to cover a length `n` (rounded up).
pub open spec fn block_count(n: int, s: int) -> int {
    (n + s - 1) / s
}

proof fn lemma_block_count(n: int, s: int, k: int)
    requires
        n >= 0,
        s > 0,
        0 <= k < block_count(n, s),
    ensures
        k * s < n,
        k * s + s <= n + s - 1,
        0 <= block_count(n, s) <= n,
{
    crate::voxel::cluster_graph::lemma_cluster_count(n, s, k);
    let m = n + s - 1;
    vstd::arithmetic::div_mod::lemma_fundamental_div_mod(m, s);
    vstd::arithmetic::div_mod::lemma_mod_bound(m, s);
    let q = m / s;
    assert(k * s + s <= q * s) by (nonlinear_arith)
        requires k < q, s > 0;
    assert(q * s == s * q) by (nonlinear_arith);
    assert(s * q <= n + s - 1);
    if q >= 1 {
        assert(q - 1 <= s * (q - 1)) by (nonlinear_arith)
            requires q >= 1, s >= 1;
        assert(s * (q - 1) == s * q - s) by (nonlinear_arith);
    }
}

/// Largest value of block `(mx, my, mz)`.
fn block_max(data: &[u8], width: u32, height: u32, depth: u32, stride: u32, mx: u32, my: u32, mz: u32) -> (r: u8)
    requires
        stride > 0,
        width * height <= u32::MAX,
        width * height * depth <= u32::MAX,
        data@.len() >= width * height * depth,
        mx * stride + stride <= width + stride - 1,
        my * stride + stride <= height + stride - 1,
        mz * stride + stride <= depth + stride - 1,
        width + stride <= u32::MAX,
        height + stride <= u32::MAX,
        depth + stride <= u32::MAX,
    ensures
        is_block_max(data@, width as int, height as int, depth as int, stride as int, mx as int, my as int, mz as int, r),
{
    let ghost (w, h, d, s) = (width as int, height as int, depth as int, stride as int);
    let mut max_val: u8 = 0;
    let ghost mut wit: (int, int, int) = (0, 0, 0);
    let mut dz: u32 = 0;
    while dz < stride
        invariant
            stride > 0,
            (w, h, d, s) == (width as int, height as int, depth as int, stride as int),
            width * height <= u32::MAX,
            width * height * depth <= u32::MAX,
            data@.len() >= width * height * depth,
            mx * stride + stride <= width + stride - 1,
            my * stride + stride <= height + stride - 1,
            mz * stride + stride <= depth + stride - 1,
            width + stride <= u32::MAX, height + stride <= u32::MAX, depth + stride <= u32::MAX,
            dz <= stride,
            forall|ax: int, ay: int, az: int|
                #![trigger block_cell(data@, w, h, d, s, mx as int, my as int, mz as int, ax, ay, az)]
                0 <= ax < s && 0 <= ay < s && 0 <= az < dz ==> block_cell(data@, w, h, d, s, mx as int, my as int, mz as int, ax, ay, az) <= max_val,
            max_val == 0 || (0 <= wit.0 < s && 0 <= wit.1 < s && 0 <= wit.2 < s && block_cell(data@, w, h, d, s, mx as int, my as int, mz as int, wit.0, wit.1, wit.2) == max_val),
        decreases stride - dz,
    {
        let mut dy: u32 = 0;
        while dy < stride
            invariant
                stride > 0,
                (w, h, d, s) == (width as int, height as int, depth as int, stride as int),
                width * height <= u32::MAX,
                width * height * depth <= u32::MAX,
                data@.len() >= width * height * depth,
                mx * stride + stride <= width + stride - 1,
                my * stride + stride <= height + stride - 1,
                mz * stride + stride <= depth + stride - 1,
                width + stride <= u32::MAX, height + stride <= u32::MAX, depth + stride <= u32::MAX,
                dz < stride,
                dy <= stride,
                forall|ax: int, ay: int, az: int|
                    #![trigger block_cell(data@, w, h, d, s, mx as int, my as int, mz as int, ax, ay, az)]
                    0 <= ax < s && 0 <= ay < s && 0 <= az <= dz && (az < dz || ay < dy) ==> block_cell(data@, w, h, d, s, mx as int, my as int, mz as int, ax, ay, az) <= max_val,
                max_val == 0 || (0 <= wit.0 < s && 0 <= wit.1 < s && 0 <= wit.2 < s && block_cell(data@, w, h, d, s, mx as int, my as int, mz as int, wit.0, wit.1, wit.2) == max_val),
            decreases stride - dy,
        {
            let mut dx: u32 = 0;
            while dx < stride
                invariant
                    stride > 0,
                    (w, h, d, s) == (width as int, height as int, depth as int, stride as int),
                    width * height <= u32::MAX,
                    width * height * depth <= u32::MAX,
                    data@.len() >= width * height * depth,
                    mx * stride + stride <= width + stride - 1,
                    my * stride + stride <= height + stride - 1,
                    mz * stride + stride <= depth + stride - 1,
                    width + stride <= u32::MAX, height + stride <= u32::MAX, depth + stride <= u32::MAX,
                    dz < stride,
                    dy < stride,
                    dx <= stride,
                    forall|ax: int, ay: int, az: int|
                        #![trigger block_cell(data@, w, h, d, s, mx as int, my as int, mz as int, ax, ay, az)]
                        0 <= ax < s && 0 <= ay < s && 0 <= az <= dz && (az < dz || ay < dy || (ay == dy && ax < dx)) ==> block_cell(data@, w, h, d, s, mx as int, my as int, mz as int, ax, ay, az) <= max_val,
                    max_val == 0 || (0 <= wit.0 < s && 0 <= wit.1 < s && 0 <= wit.2 < s && block_cell(data@, w, h, d, s, mx as int, my as int, mz as int, wit.0, wit.1, wit.2) == max_val),
                decreases stride - dx,
            {
                let x = mx * stride + dx;
                let y = my * stride + dy;
                let z = mz * stride + dz;
                if x < width && y < height && z < depth {
                    proof {
                        lemma_linear_index(w, h, d, x as int, y as int, z as int);
                        assert(z * height * width + y * width + x < width * height * depth) by {
                            assert(width * height * depth == w * h * d);
                        }
                        assert(z * height <= z * height * width) by (nonlinear_arith)
                            requires width >= 1;
                        assert(z * height * width + y * width <= z * height * width + y * width + x);
                    }
                    let idx = (z * height * width + y * width + x) as usize;
                    let v = data[idx];
                    if v > max_val {
                        max_val = v;
                        proof {
                            wit = (dx as int, dy as int, dz as int);
                        }
                    }
                }
                dx = dx + 1;
            }
            dy = dy + 1;
        }
        dz = dz + 1;
    }
    max_val
}

/// Builds one MIP level from a `width × height × depth` volume by taking the
/// maximum over each `stride`³ block (cells outside the volume count as 0).
/// Returns the level's data and its dimensions (each rounded up).
pub fn generate_mip(data: &[u8], width: u32, height: u32, depth: u32, stride: u32) -> (r: (Vec<u8>, u32, u32, u32))
    requires
        stride > 0,
        width + stride <= u32::MAX,
        height + stride <= u32::MAX,
        depth + stride <= u32::MAX,
        block_count(width as int, stride as int) * block_count(height as int, stride as int) <= u32::MAX,
        width * height * depth <= u32::MAX,
        data@.len() >= width * height * depth,
    ensures
        r.1 == block_count(width as int, stride as int),
        r.2 == block_count(height as int, stride as int),
        r.3 == block_count(depth as int, stride as int),
        r.0@.len() == r.1 * r.2 * r.3,
        is_mip_level(data@, width as int, height as int, depth as int, stride as int, r.0@),
        forall|mx: int, my: int, mz: int|
            #![trigger r.0@[linear_index(r.1 as int, r.2 as int, mx, my, mz)]]
            0 <= mx < r.1 && 0 <= my < r.2 && 0 <= mz < r.3 ==> is_block_max(
                data@,
                width as int,
                height as int,
                depth as int,
                stride as int,
                mx,
                my,
                mz,
                r.0@[linear_index(r.1 as int, r.2 as int, mx, my, mz)],
            ),
{
    let mw = (width + stride - 1) / stride;
    let mh = (height + stride - 1) / stride;
    let md = (depth + stride - 1) / stride;
    let ghost (w, h, d, s) = (width as int, height as int, depth as int, stride as int);
    if depth == 0 {
        proof {
            assert(md == 0) by (nonlinear_arith)
                requires md == (stride - 1) / (stride as int), stride > 0;
            assert(mw * mh * md == 0);
        }
        return (Vec::new(), mw, mh, md);
    }
    proof {
        assert(width * height <= width * height * depth) by (nonlinear_arith)
            requires depth >= 1;
        if mw > 0 { lemma_block_count(w, s, 0); }
        if mh > 0 { lemma_block_count(h, s, 0); }
        if md > 0 { lemma_block_count(d, s, 0); }
        assert(mw <= width) by {
            if mw > 0 { lemma_block_count(w, s, mw - 1); }
        }
        assert(mh <= height) by {
            if mh > 0 { lemma_block_count(h, s, mh - 1); }
        }
        assert(md <= depth) by {
            if md > 0 { lemma_block_count(d, s, md - 1); }
        }
        assert(mw * mh <= width * height) by (nonlinear_arith)
            requires mw <= width, mh <= height;
        assert(mw * mh * md <= width * height * depth) by (nonlinear_arith)
            requires mw * mh <= width * height, md <= depth;
    }
    let mut mip: Vec<u8> = vec![0u8; (mw * mh * md) as usize];
    let ghost (mwi, mhi, mdi) = (mw as int, mh as int, md as int);
    let mut mz: u32 = 0;
    while mz < md
        invariant
            stride > 0,
            (w, h, d, s) == (width as int, height as int, depth as int, stride as int),
            (mwi, mhi, mdi) == (mw as int, mh as int, md as int),
            mw == block_count(w, s), mh == block_count(h, s), md == block_count(d, s),
            width + stride <= u32::MAX, height + stride <= u32::MAX, depth + stride <= u32::MAX,
            width * height <= u32::MAX,
            width * height * depth <= u32::MAX,
            data@.len() >= width * height * depth,
            mw * mh * md <= u32::MAX,
            mip@.len() == mw * mh * md,
            mz <= md,
            forall|ax: int, ay: int, az: int|
                #![trigger mip@[linear_index(mwi, mhi, ax, ay, az)]]
                0 <= ax < mw && 0 <= ay < mh && 0 <= az < mz ==> is_block_max(data@, w, h, d, s, ax, ay, az, mip@[linear_index(mwi, mhi, ax, ay, az)]),
        decreases md - mz,
    {
        let mut my: u32 = 0;
        while my < mh
            invariant
                stride > 0,
                (w, h, d, s) == (width as int, height as int, depth as int, stride as int),
                (mwi, mhi, mdi) == (mw as int, mh as int, md as int),
                mw == block_count(w, s), mh == block_count(h, s), md == block_count(d, s),
                width + stride <= u32::MAX, height + stride <= u32::MAX, depth + stride <= u32::MAX,
                width * height <= u32::MAX,
                width * height * depth <= u32::MAX,
                data@.len() >= width * height * depth,
                mw * mh * md <= u32::MAX,
                mip@.len() == mw * mh * md,
                mz < md,
                my <= mh,
                forall|ax: int, ay: int, az: int|
                    #![trigger mip@[linear_index(mwi, mhi, ax, ay, az)]]
                    0 <= ax < mw && 0 <= ay < mh && 0 <= az <= mz && (az < mz || ay < my) ==> is_block_max(data@, w, h, d, s, ax, ay, az, mip@[linear_index(mwi, mhi, ax, ay, az)]),
            decreases mh - my,
        {
            let mut mx: u32 = 0;
            while mx < mw
                invariant
                    stride > 0,
                    (w, h, d, s) == (width as int, height as int, depth as int, stride as int),
                    (mwi, mhi, mdi) == (mw as int, mh as int, md as int),
                    mw == block_count(w, s), mh == block_count(h, s), md == block_count(d, s),
                    width + stride <= u32::MAX, height + stride <= u32::MAX, depth + stride <= u32::MAX,
                    width * height <= u32::MAX,
                    width * height * depth <= u32::MAX,
                    data@.len() >= width * height * depth,
                    mw * mh * md <= u32::MAX,
                    mip@.len() == mw * mh * md,
                    mz < md,
                    my < mh,
                    mx <= mw,
                    forall|ax: int, ay: int, az: int|
                        #![trigger mip@[linear_index(mwi, mhi, ax, ay, az)]]
                        0 <= ax < mw && 0 <= ay < mh && 0 <= az <= mz && (az < mz || ay < my || (ay == my && ax < mx)) ==> is_block_max(data@, w, h, d, s, ax, ay, az, mip@[linear_index(mwi, mhi, ax, ay, az)]),
                decreases mw - mx,
            {
                proof {
                    lemma_block_count(w, s, mx as int);
                    lemma_block_count(h, s, my as int);
                    lemma_block_count(d, s, mz as int);
                }
                let m = block_max(data, width, height, depth, stride, mx, my, mz);
                proof {
                    lemma_linear_index(mwi, mhi, mdi, mx as int, my as int, mz as int);
                    assert(mw * mh * md == mwi * mhi * mdi);
                    assert(mz * mh <= mz * mh * mw) by (nonlinear_arith)
                        requires mw >= 1;
                }
                let mi = (mz * mh * mw + my * mw + mx) as usize;
                let ghost pm = mip@;
                mip.set(mi, m);
                proof {
                    assert forall|ax: int, ay: int, az: int|
                        #![trigger mip@[linear_index(mwi, mhi, ax, ay, az)]]
                        0 <= ax < mw && 0 <= ay < mh && 0 <= az <= mz && (az < mz || ay < my || (ay == my && ax < mx + 1)) implies is_block_max(data@, w, h, d, s, ax, ay, az, mip@[linear_index(mwi, mhi, ax, ay, az)]) by {
                        lemma_linear_index(mwi, mhi, mdi, ax, ay, az);
                        if !(ax == mx && ay == my && az == mz) {
                            if linear_index(mwi, mhi, ax, ay, az) == mi {
                                lemma_linear_index_injective(mwi, mhi, mdi, ax, ay, az, mx as int, my as int, mz as int);
                            }
                            assert(pm[linear_index(mwi, mhi, ax, ay, az)] == mip@[linear_index(mwi, mhi, ax, ay, az)]);
                        }
                    }
                }
                mx = mx + 1;
            }
            my = my + 1;
        }
        mz = mz + 1;
    }
    (mip, mw, mh, md)
}

/// With stride 1 a level is the volume itself: it has the volume's
/// dimensions, and the maximum of each one-cell block is that cell.
pub proof fn lemma_stride_one_is_identity(data: Seq<u8>, w: int, h: int, d: int, x: int, y: int, z: int, m: u8)
    requires
        w >= 0 && h >= 0 && d >= 0,
        0 <= x < w && 0 <= y < h && 0 <= z < d,
        is_block_max(data, w, h, d, 1, x, y, z, m),
    ensures
        block_count(w, 1) == w && block_count(h, 1) == h && block_count(d, 1) == d,
        m == data[linear_index(w, h, x, y, z)],
{
    assert(block_cell(data, w, h, d, 1, x, y, z, 0, 0, 0) == data[linear_index(w, h, x, y, z)]);
    if m != 0 {
        let (dx, dy, dz) = choose|dx: int, dy: int, dz: int|
            #![trigger block_cell(data, w, h, d, 1, x, y, z, dx, dy, dz)]
            0 <= dx < 1 && 0 <= dy < 1 && 0 <= dz < 1 && block_cell(data, w, h, d, 1, x, y, z, dx, dy, dz) == m;
        assert(dx == 0 && dy == 0 && dz == 0);
    }
}

/// `m` is the level of stride `s` of the `w × h × d` volume `data`: one
/// value per block, the block's maximum.
pub open spec fn is_mip_level(data: Seq<u8>, w: int, h: int, d: int, s: int, m: Seq<u8>) -> bool {
    let (mw, mh, md) = (block_count(w, s), block_count(h, s), block_count(d, s));
    &&& m.len() == mw * mh * md
    &&& forall|mx: int, my: int, mz: int|
        #![trigger m[linear_index(mw, mh, mx, my, mz)]]
        0 <= mx < mw && 0 <= my < mh && 0 <= mz < md ==> is_block_max(data, w, h, d, s, mx, my, mz, m[linear_index(mw, mh, mx, my, mz)])
}

proof fn lemma_halve_twice(n: int)
    requires
        n >= 0,
    ensures
        block_count(block_count(n, 2), 2) == block_count(n, 4),
        2 * block_count(n, 2) >= n,
        block_count(n, 2) >= 0,
{
    assert(((n + 1) / 2 + 1) / 2 == (n + 3) / 4) by (nonlinear_arith)
        requires n >= 0;
    assert(2 * ((n + 1) / 2) >= n) by (nonlinear_arith)
        requires n >= 0;
}

/// One block of a stride-2 level of a stride-2 level has the maximum of
/// the stride-4 block it covers.
proof fn lemma_block_of_blocks(
    data: Seq<u8>,
    w: int,
    h: int,
    d: int,
    m1: Seq<u8>,
    mx: int,
    my: int,
    mz: int,
    v: u8,
)
    requires
        w >= 0 && h >= 0 && d >= 0,
        is_mip_level(data, w, h, d, 2, m1),
        is_block_max(m1, block_count(w, 2), block_count(h, 2), block_count(d, 2), 2, mx, my, mz, v),
    ensures
        is_block_max(data, w, h, d, 4, mx, my, mz, v),
{
    let (w1, h1, d1) = (block_count(w, 2), block_count(h, 2), block_count(d, 2));
    lemma_halve_twice(w);
    lemma_halve_twice(h);
    lemma_halve_twice(d);
    assert forall|dx: int, dy: int, dz: int|
        #![trigger block_cell(data, w, h, d, 4, mx, my, mz, dx, dy, dz)]
        0 <= dx < 4 && 0 <= dy < 4 && 0 <= dz < 4 implies block_cell(data, w, h, d, 4, mx, my, mz, dx, dy, dz) <= v by {
        let (qx, qy, qz) = (dx / 2, dy / 2, dz / 2);
        let (rx, ry, rz) = (dx % 2, dy % 2, dz % 2);
        let (cx, cy, cz) = (mx * 2 + qx, my * 2 + qy, mz * 2 + qz);
        assert(block_cell(m1, w1, h1, d1, 2, mx, my, mz, qx, qy, qz) <= v);
        assert(cx * 2 + rx == mx * 4 + dx && cy * 2 + ry == my * 4 + dy && cz * 2 + rz == mz * 4 + dz);
        if 0 <= cx < w1 && 0 <= cy < h1 && 0 <= cz < d1 {
            let c = m1[linear_index(w1, h1, cx, cy, cz)];
            assert(is_block_max(data, w, h, d, 2, cx, cy, cz, c));
            assert(block_cell(data, w, h, d, 2, cx, cy, cz, rx, ry, rz) <= c);
        } else {
            assert(!(0 <= mx * 4 + dx < w && 0 <= my * 4 + dy < h && 0 <= mz * 4 + dz < d));
        }
    }
    if v != 0 {
        let (qx, qy, qz) = choose|qx: int, qy: int, qz: int|
            #![trigger block_cell(m1, w1, h1, d1, 2, mx, my, mz, qx, qy, qz)]
            0 <= qx < 2 && 0 <= qy < 2 && 0 <= qz < 2 && block_cell(m1, w1, h1, d1, 2, mx, my, mz, qx, qy, qz) == v;
        let (cx, cy, cz) = (mx * 2 + qx, my * 2 + qy, mz * 2 + qz);
        assert(0 <= cx < w1 && 0 <= cy < h1 && 0 <= cz < d1);
        let c = m1[linear_index(w1, h1, cx, cy, cz)];
        assert(c == v);
        assert(is_block_max(data, w, h, d, 2, cx, cy, cz, c));
        let (rx, ry, rz) = choose|rx: int, ry: int, rz: int|
            #![trigger block_cell(data, w, h, d, 2, cx, cy, cz, rx, ry, rz)]
            0 <= rx < 2 && 0 <= ry < 2 && 0 <= rz < 2 && block_cell(data, w, h, d, 2, cx, cy, cz, rx, ry, rz) == c;
        let (dx, dy, dz) = (qx * 2 + rx, qy * 2 + ry, qz * 2 + rz);
        assert(cx * 2 + rx == mx * 4 + dx && cy * 2 + ry == my * 4 + dy && cz * 2 + rz == mz * 4 + dz);
        assert(block_cell(data, w, h, d, 4, mx, my, mz, dx, dy, dz) == v);
    }
}

/// Two levels of stride 2 make the level of stride 4: taking the maximum
/// over 2³ blocks twice gives the maximum over 4³ blocks.
pub proof fn lemma_mip_levels_compose(data: Seq<u8>, w: int, h: int, d: int, m1: Seq<u8>, m2: Seq<u8>)
    requires
        w >= 0 && h >= 0 && d >= 0,
        is_mip_level(data, w, h, d, 2, m1),
        is_mip_level(m1, block_count(w, 2), block_count(h, 2), block_count(d, 2), 2, m2),
    ensures
        is_mip_level(data, w, h, d, 4, m2),
{
    let (w1, h1, d1) = (block_count(w, 2), block_count(h, 2), block_count(d, 2));
    lemma_halve_twice(w);
    lemma_halve_twice(h);
    lemma_halve_twice(d);
    let (w2, h2, d2) = (block_count(w, 4), block_count(h, 4), block_count(d, 4));
    assert forall|mx: int, my: int, mz: int|
        #![trigger m2[linear_index(w2, h2, mx, my, mz)]]
        0 <= mx < w2 && 0 <= my < h2 && 0 <= mz < d2 implies is_block_max(data, w, h, d, 4, mx, my, mz, m2[linear_index(w2, h2, mx, my, mz)]) by {
        lemma_block_of_blocks(data, w, h, d, m1, mx, my, mz, m2[linear_index(w2, h2, mx, my, mz)]);
    }
}

} // verus!
