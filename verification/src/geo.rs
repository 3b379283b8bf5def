//! Tile arithmetic: quadkeys, tile ranges, boxes and projection names.
use crate::number::Real;
use crate::raster;
use crate::raster::{BandGrid, ClassGrid};
use crate::text;
use crate::text::push_decimal;
use vstd::arithmetic::div_mod::*;
use vstd::arithmetic::power2::*;
use vstd::bits::*;
use vstd::prelude::*;
use vstd::string::*;

verus! {

// ─── Quadkeys ───────────────────────────────────────────────────────────────

/// Quadkey of the tile (x, y) at zoom z: the low z bits of y and x interleaved.
pub open spec fn quadkey(x: nat, y: nat, z: nat) -> nat
    decreases z,
{
    if z == 0 {
        0
    } else {
        quadkey(x / 2, y / 2, (z - 1) as nat) * 4 + 2 * (y % 2) + x % 2
    }
}

/// A quadkey at zoom z is below 4 to the power z.
pub proof fn quadkey_bound(x: nat, y: nat, z: nat)
    ensures
        quadkey(x, y, z) < pow2(2 * z),
    decreases z,
{
    if z == 0 {
        lemma2_to64();
    } else {
        quadkey_bound(x / 2, y / 2, (z - 1) as nat);
        lemma_pow2_unfold(2 * z);
        lemma_pow2_unfold((2 * z - 1) as nat);
    }
}

/// The quadkey of a tile without its last digit is that of the tile above it.
pub proof fn quadkey_parent(x: nat, y: nat, z: nat)
    requires
        z > 0,
    ensures
        quadkey(x, y, z) / 4 == quadkey(x / 2, y / 2, (z - 1) as nat),
{
}

/// Tiles of a zoom level with the same quadkey are the same tile.
pub proof fn quadkey_injective(x1: nat, y1: nat, x2: nat, y2: nat, z: nat)
    requires
        x1 < pow2(z),
        y1 < pow2(z),
        x2 < pow2(z),
        y2 < pow2(z),
        quadkey(x1, y1, z) == quadkey(x2, y2, z),
    ensures
        x1 == x2,
        y1 == y2,
    decreases z,
{
    if z == 0 {
        lemma2_to64();
    } else {
        lemma_pow2_unfold(z);
        let a = quadkey(x1 / 2, y1 / 2, (z - 1) as nat);
        let b = quadkey(x2 / 2, y2 / 2, (z - 1) as nat);
        assert(a == b && y1 % 2 == y2 % 2 && x1 % 2 == x2 % 2);
        quadkey_injective(x1 / 2, y1 / 2, x2 / 2, y2 / 2, (z - 1) as nat);
    }
}

/// Digit `i` of a quadkey, in base 4 and counted from the last, is made of bit `i` of y
/// and bit `i` of x, that of y counting twice; there are no more digits than levels.
pub proof fn quadkey_interleaves_bits(x: nat, y: nat, z: nat, i: nat)
    ensures
        i < z ==> quadkey(x, y, z) / pow2(2 * i) % 4 == 2 * (y / pow2(i) % 2) + x / pow2(i) % 2,
        i >= z ==> quadkey(x, y, z) / pow2(2 * i) == 0,
    decreases z,
{
    lemma2_to64();
    lemma_pow2_pos(2 * i);
    if i >= z {
        quadkey_bound(x, y, z);
        if 2 * z < 2 * i {
            lemma_pow2_strictly_increases(2 * z, 2 * i);
        }
        lemma_basic_div(quadkey(x, y, z) as int, pow2(2 * i) as int);
    } else if i == 0 {
        assert(quadkey(x, y, z) / pow2(0) == quadkey(x, y, z));
        assert(x / pow2(0) == x && y / pow2(0) == y);
    } else {
        let j = (i - 1) as nat;
        let key = quadkey(x, y, z);
        quadkey_interleaves_bits(x / 2, y / 2, (z - 1) as nat, j);
        quadkey_parent(x, y, z);
        lemma_pow2_pos(j);
        lemma_pow2_pos(2 * j);
        lemma_pow2_unfold(i);
        lemma_pow2_unfold(2 * i);
        lemma_pow2_unfold((2 * i - 1) as nat);
        lemma_div_denominator(key as int, 4, pow2(2 * j) as int);
        assert(pow2(2 * i) == 4 * pow2(2 * j));
        lemma_div_denominator(x as int, 2, pow2(j) as int);
        lemma_div_denominator(y as int, 2, pow2(j) as int);
    }
}

/// Halving a tile coordinate and shifting it agree.
proof fn lemma_div_pow2_step(x: nat, i: nat)
    ensures
        (x / pow2(i)) / 2 == x / pow2(i + 1),
{
    lemma_pow2_pos(i);
    lemma_pow2_unfold(i + 1);
    lemma_div_denominator(x as int, pow2(i) as int, 2);
    assert(pow2(i) * 2 == pow2(i + 1));
}

/// Quadkey of the tile (x, y) at zoom z.
pub fn tile_to_quadkey(x: u32, y: u32, z: u8) -> (qk: u64)
    requires
        z <= 32,
    ensures
        qk == quadkey(x as nat, y as nat, z as nat),
{
    let mut qk: u64 = 0;
    let mut i: u8 = z;
    proof {
        lemma2_to64();
        lemma_pow2_pos(z as nat);
    }
    while i > 0
        invariant
            i <= z <= 32,
            qk == quadkey(x as nat / pow2(i as nat), y as nat / pow2(i as nat), (z - i) as nat),
        decreases i,
    {
        i -= 1;
        let ghost xi = x as nat / pow2(i as nat);
        let ghost yi = y as nat / pow2(i as nat);
        let mask: u32 = 1u32 << i;
        proof {
            let s = i as u32;
            lemma_u32_shr_is_div(x, s);
            lemma_u32_shr_is_div(y, s);
            assert((x & (1u32 << s) != 0) == ((x >> s) % 2 == 1)) by (bit_vector)
                requires
                    s < 32,
            ;
            assert((y & (1u32 << s) != 0) == ((y >> s) % 2 == 1)) by (bit_vector)
                requires
                    s < 32,
            ;
            assert(mask == 1u32 << s);
            lemma_div_pow2_step(x as nat, i as nat);
            lemma_div_pow2_step(y as nat, i as nat);
            quadkey_bound(xi / 2, yi / 2, (z - i - 1) as nat);
            lemma2_to64();
            lemma2_to64_rest();
            let n = (2 * (z - i - 1)) as nat;
            if n < 62 {
                lemma_pow2_strictly_increases(n, 62);
            }
        }
        let hi: u64 = if y & mask != 0 {
            2
        } else {
            0
        };
        let lo: u64 = if x & mask != 0 {
            1
        } else {
            0
        };
        qk = qk * 4 + hi + lo;
    }
    proof {
        lemma2_to64();
        assert(x as nat / pow2(0) == x as nat);
        assert(y as nat / pow2(0) == y as nat);
    }
    qk
}

/// Tile coordinate `x` moved down `levels` zoom levels, kept to 32 bits.
pub open spec fn shifted(x: nat, levels: nat) -> nat {
    (x * pow2(levels)) % 0x1_0000_0000
}

/// Quadkeys at zoom `qz` of the tile (x, y) at zoom z: its ancestor's, or those of
/// all its descendants, row by row.
pub open spec fn covering_keys(z: nat, x: nat, y: nat, qz: nat) -> Seq<u64> {
    if qz <= z {
        let n = pow2((z - qz) as nat);
        seq![quadkey(x / n, y / n, qz) as u64]
    } else {
        let levels = (qz - z) as nat;
        let n = pow2(levels);
        Seq::new(
            n * n,
            |i: int|
                quadkey(
                    shifted(x, levels) + (i % n as int) as nat,
                    shifted(y, levels) + (i / n as int) as nat,
                    qz,
                ) as u64,
        )
    }
}

/// The tile (x, y) at zoom z and the tile (tx, ty) at zoom qz share ground: one of
/// them lies within the other.
pub open spec fn nested(z: nat, x: nat, y: nat, qz: nat, tx: nat, ty: nat) -> bool {
    if qz <= z {
        x / pow2((z - qz) as nat) == tx && y / pow2((z - qz) as nat) == ty
    } else {
        tx / pow2((qz - z) as nat) == x && ty / pow2((qz - z) as nat) == y
    }
}

/// Shifting a 32-bit word left multiplies it, dropping what leaves the word.
pub proof fn lemma_shl_shifted(x: u32, d: u8)
    requires
        d < 16,
    ensures
        (x << d) == shifted(x as nat, d as nat),
{
    let xw = x as u64;
    let dw = d as u64;
    let narrow = x << d;
    let wide = xw << dw;
    lemma_pow2_strictly_increases(d as nat, 16);
    lemma2_to64();
    assert(xw * pow2(d as nat) <= 0xffff_ffff * 0x10000) by (nonlinear_arith)
        requires
            xw <= 0xffff_ffff,
            pow2(d as nat) <= 0x10000,
    ;
    lemma_u64_shl_is_mul(xw, dw);
    assert((x << d) as u64 == ((x as u64) << (d as u64)) % 0x1_0000_0000) by (bit_vector)
        requires
            d < 16,
    ;
    assert(narrow as u64 == wide % 0x1_0000_0000);
}

/// All quadkeys at zoom `qz` that cover the tile (z, x, y).
pub fn tile_to_covering_quadkeys(z: u8, x: u32, y: u32, qz: u8) -> (qks: Vec<u64>)
    requires
        qz <= 32,
        qz <= z ==> z - qz < 32,
        qz > z ==> qz - z < 16 && shifted(x as nat, (qz - z) as nat) + pow2((qz - z) as nat)
            <= u32::MAX && shifted(y as nat, (qz - z) as nat) + pow2((qz - z) as nat) <= u32::MAX,
    ensures
        qks@ == covering_keys(z as nat, x as nat, y as nat, qz as nat),
{
    if qz <= z {
        let diff: u8 = z - qz;
        proof {
            lemma_u32_shr_is_div(x, diff as u32);
            lemma_u32_shr_is_div(y, diff as u32);
            assert(x >> diff == x >> (diff as u32)) by (bit_vector);
            assert(y >> diff == y >> (diff as u32)) by (bit_vector);
        }
        let qx: u32 = x >> diff;
        let qy: u32 = y >> diff;
        let qk: u64 = tile_to_quadkey(qx, qy, qz);
        let mut qks: Vec<u64> = Vec::new();
        qks.push(qk);
        assert(qks@ =~= covering_keys(z as nat, x as nat, y as nat, qz as nat));
        qks
    } else {
        let diff: u8 = qz - z;
        let min_qx: u32 = x << diff;
        let min_qy: u32 = y << diff;
        let count: u32 = 1u32 << diff;
        proof {
            lemma_shl_shifted(x, diff);
            lemma_shl_shifted(y, diff);
            lemma_shl_shifted(1, diff);
            lemma2_to64();
            lemma_pow2_strictly_increases(diff as nat, 16);
            lemma_small_mod(pow2(diff as nat), 0x1_0000_0000);
            lemma_pow2_pos(diff as nat);
        }
        let ghost n = count as int;
        let ghost want = covering_keys(z as nat, x as nat, y as nat, qz as nat);
        let mut qks: Vec<u64> = Vec::new();
        let mut r: u32 = 0;
        assert(0 * n == 0) by (nonlinear_arith);
        while r < count
            invariant
                qz <= 32,
                z < qz,
                r <= count,
                n == count > 0,
                n == pow2((qz - z) as nat),
                min_qx == shifted(x as nat, (qz - z) as nat),
                min_qy == shifted(y as nat, (qz - z) as nat),
                min_qx + count <= u32::MAX,
                min_qy + count <= u32::MAX,
                want == covering_keys(z as nat, x as nat, y as nat, qz as nat),
                want.len() == n * n,
                qks@.len() == r * n,
                r * n <= n * n,
                forall|i: int| 0 <= i < qks@.len() ==> qks@[i] == want[i],
            decreases count - r,
        {
            let mut c: u32 = 0;
            while c < count
                invariant
                    qz <= 32,
                    z < qz,
                    r < count,
                    c <= count,
                    n == count > 0,
                    n == pow2((qz - z) as nat),
                    min_qx == shifted(x as nat, (qz - z) as nat),
                    min_qy == shifted(y as nat, (qz - z) as nat),
                    min_qx + count <= u32::MAX,
                    min_qy + count <= u32::MAX,
                    want == covering_keys(z as nat, x as nat, y as nat, qz as nat),
                    want.len() == n * n,
                    qks@.len() == r * n + c,
                    forall|i: int| 0 <= i < qks@.len() ==> qks@[i] == want[i],
                decreases count - c,
            {
                let qk: u64 = tile_to_quadkey(min_qx + c, min_qy + r, qz);
                proof {
                    let i = r * n + c;
                    assert(i < n * n) by (nonlinear_arith)
                        requires
                            i == r * n + c,
                            0 <= r < n,
                            0 <= c < n,
                    ;
                    lemma_fundamental_div_mod_converse(i, n, r as int, c as int);
                    assert(want[i] == qk);
                }
                qks.push(qk);
                c += 1;
            }
            assert((r + 1) * n == r * n + n) by (nonlinear_arith);
            assert((r + 1) * n <= n * n) by (nonlinear_arith)
                requires
                    r < n,
                    n > 0,
            ;
            r += 1;
        }
        assert(qks@ =~= want);
        qks
    }
}

/// Dividing by a power of two and then by another is dividing by their product.
proof fn lemma_child_range(t: nat, x: nat, n: nat)
    requires
        n > 0,
    ensures
        t / n == x <==> x * n <= t < x * n + n,
{
    lemma_fundamental_div_mod(t as int, n as int);
    assert(n * (t / n) == (t / n) * n) by (nonlinear_arith);
    if x * n <= t < x * n + n {
        lemma_fundamental_div_mod_converse(t as int, n as int, x as int, t - x * n);
    }
}

/// The covering keys of a tile are the keys of exactly the tiles of that zoom level
/// that share ground with it.
pub proof fn covering_is_exact(z: nat, x: nat, y: nat, qz: nat, tx: nat, ty: nat)
    requires
        z <= 32,
        qz <= 32,
        x < pow2(z),
        y < pow2(z),
        tx < pow2(qz),
        ty < pow2(qz),
    ensures
        covering_keys(z, x, y, qz).contains(quadkey(tx, ty, qz) as u64) <==> nested(
            z,
            x,
            y,
            qz,
            tx,
            ty,
        ),
{
    let want = covering_keys(z, x, y, qz);
    let key = quadkey(tx, ty, qz) as u64;
    lemma_key_fits(tx, ty, qz);
    if qz <= z {
        let n = pow2((z - qz) as nat);
        lemma_pow2_pos((z - qz) as nat);
        lemma_pow2_adds(qz, (z - qz) as nat);
        lemma_ancestor_bound(x, qz, (z - qz) as nat);
        lemma_ancestor_bound(y, qz, (z - qz) as nat);
        lemma_key_fits(x / n, y / n, qz);
        if want.contains(key) {
            assert(want[0] == key);
            quadkey_injective(x / n, y / n, tx, ty, qz);
        } else {
            assert(want[0] != key);
        }
    } else {
        let d = (qz - z) as nat;
        let n = pow2(d);
        lemma_pow2_pos(d);
        lemma_pow2_adds(z, d);
        lemma_descendant_bound(x, z, d);
        lemma_descendant_bound(y, z, d);
        if want.contains(key) {
            let i = choose|i: int| 0 <= i < want.len() && want[i] == key;
            let c = (i % n as int) as nat;
            let r = (i / n as int) as nat;
            lemma_fundamental_div_mod(i, n as int);
            assert(r < n) by (nonlinear_arith)
                requires
                    i == n * r + c,
                    0 <= c,
                    i < n * n,
                    n > 0,
            ;
            lemma_key_fits(x * n + c, y * n + r, qz);
            quadkey_injective(x * n + c, y * n + r, tx, ty, qz);
            lemma_child_range(tx, x, n);
            lemma_child_range(ty, y, n);
        }
        if nested(z, x, y, qz, tx, ty) {
            lemma_child_range(tx, x, n);
            lemma_child_range(ty, y, n);
            let c = tx - x * n;
            let r = ty - y * n;
            let i = r * n + c;
            assert(0 <= i < n * n) by (nonlinear_arith)
                requires
                    i == r * n + c,
                    0 <= r < n,
                    0 <= c < n,
            ;
            lemma_fundamental_div_mod_converse(i, n as int, r, c);
            assert(want[i] == key);
        }
    }
}

/// The keys that cover a tile, in terms of ground. At a zoom level no finer than the
/// tile's there is one key, of the tile whose ground holds it. At a finer one, `n` times
/// as fine, there is a key for each of the `n` by `n` tiles on its ground, row by row.
pub proof fn covering_by_ground(z: nat, x: nat, y: nat, qz: nat, r: nat, c: nat)
    requires
        qz <= 32,
        qz > z ==> x < pow2(z) && y < pow2(z),
    ensures
        qz <= z ==> exists|tx: nat, ty: nat|
            {
                &&& covering_keys(z, x, y, qz) == seq![#[trigger] quadkey(tx, ty, qz) as u64]
                &&& tx * pow2((z - qz) as nat) <= x < (tx + 1) * pow2((z - qz) as nat)
                &&& ty * pow2((z - qz) as nat) <= y < (ty + 1) * pow2((z - qz) as nat)
            },
        qz > z ==> {
            let n = pow2((qz - z) as nat);
            &&& covering_keys(z, x, y, qz).len() == n * n
            &&& r < n && c < n ==> covering_keys(z, x, y, qz)[(r * n + c) as int] == quadkey(
                x * n + c,
                y * n + r,
                qz,
            )
        },
{
    let want = covering_keys(z, x, y, qz);
    if qz <= z {
        let n = pow2((z - qz) as nat);
        lemma_pow2_pos((z - qz) as nat);
        lemma_child_range(x, x / n, n);
        lemma_child_range(y, y / n, n);
        let (tx, ty) = (x / n, y / n);
        assert((tx + 1) * n == tx * n + n) by (nonlinear_arith);
        assert((ty + 1) * n == ty * n + n) by (nonlinear_arith);
        assert(want == seq![quadkey(tx, ty, qz) as u64]);
    } else {
        let d = (qz - z) as nat;
        let n = pow2(d);
        lemma_pow2_pos(d);
        lemma_descendant_bound(x, z, d);
        lemma_descendant_bound(y, z, d);
        if r < n && c < n {
            let i = (r * n + c) as int;
            assert(0 <= i < n * n) by (nonlinear_arith)
                requires
                    i == r * n + c,
                    0 <= r < n,
                    0 <= c < n,
            ;
            lemma_fundamental_div_mod_converse(i, n as int, r as int, c as int);
            lemma_key_fits(x * n + c, y * n + r, qz);
        }
    }
}

/// The keys that cover a tile name each tile of their zoom level once, and only tiles that
/// share ground with it: of a coarser level the one that holds it, of a finer level those
/// that it holds.
pub proof fn covering_names_tiles(z: nat, x: nat, y: nat, qz: nat, tx: nat, ty: nat)
    requires
        z <= 32,
        qz <= 32,
        x < pow2(z),
        y < pow2(z),
        tx < pow2(qz),
        ty < pow2(qz),
    ensures
        covering_keys(z, x, y, qz).no_duplicates(),
        qz <= z ==> (covering_keys(z, x, y, qz).contains(quadkey(tx, ty, qz) as u64) <==> {
            &&& tx * pow2((z - qz) as nat) <= x < (tx + 1) * pow2((z - qz) as nat)
            &&& ty * pow2((z - qz) as nat) <= y < (ty + 1) * pow2((z - qz) as nat)
        }),
        qz > z ==> (covering_keys(z, x, y, qz).contains(quadkey(tx, ty, qz) as u64) <==> {
            &&& x * pow2((qz - z) as nat) <= tx < (x + 1) * pow2((qz - z) as nat)
            &&& y * pow2((qz - z) as nat) <= ty < (y + 1) * pow2((qz - z) as nat)
        }),
{
    covering_is_exact(z, x, y, qz, tx, ty);
    let want = covering_keys(z, x, y, qz);
    if qz <= z {
        let n = pow2((z - qz) as nat);
        lemma_pow2_pos((z - qz) as nat);
        lemma_child_range(x, tx, n);
        lemma_child_range(y, ty, n);
        assert((tx + 1) * n == tx * n + n) by (nonlinear_arith);
        assert((ty + 1) * n == ty * n + n) by (nonlinear_arith);
    } else {
        let d = (qz - z) as nat;
        let n = pow2(d);
        lemma_pow2_pos(d);
        lemma_child_range(tx, x, n);
        lemma_child_range(ty, y, n);
        assert((x + 1) * n == x * n + n) by (nonlinear_arith);
        assert((y + 1) * n == y * n + n) by (nonlinear_arith);
        lemma_descendant_bound(x, z, d);
        lemma_descendant_bound(y, z, d);
        assert forall|i: int, j: int| 0 <= i < j < want.len() implies want[i] != want[j] by {
            let (a, b) = (lemma_place_in_square(i, n as int), lemma_place_in_square(j, n as int));
            let (ac, ar) = (a.0 as nat, a.1 as nat);
            let (bc, br) = (b.0 as nat, b.1 as nat);
            lemma_key_fits(x * n + ac, y * n + ar, qz);
            lemma_key_fits(x * n + bc, y * n + br, qz);
            if want[i] == want[j] {
                quadkey_injective(x * n + ac, y * n + ar, x * n + bc, y * n + br, qz);
            }
        }
    }
}

/// Column and row of a position in a square of side `n`, taken row by row.
proof fn lemma_place_in_square(i: int, n: int) -> (place: (int, int))
    requires
        n > 0,
        0 <= i < n * n,
    ensures
        place == (i % n, i / n),
        0 <= place.0 < n,
        0 <= place.1 < n,
        i == place.1 * n + place.0,
{
    let (c, r) = (i % n, i / n);
    lemma_fundamental_div_mod(i, n);
    assert(n * r == r * n) by (nonlinear_arith);
    assert(0 <= r < n) by (nonlinear_arith)
        requires
            i == r * n + c,
            0 <= c < n,
            0 <= i < n * n,
            n > 0,
    ;
    (c, r)
}

/// A quadkey of a zoom level up to 32 fits a 64-bit word.
pub proof fn lemma_key_fits(x: nat, y: nat, z: nat)
    requires
        z <= 32,
    ensures
        quadkey(x, y, z) <= u64::MAX,
        (quadkey(x, y, z) as u64) as nat == quadkey(x, y, z),
{
    quadkey_bound(x, y, z);
    lemma2_to64();
    lemma2_to64_rest();
    if z < 32 {
        lemma_pow2_strictly_increases(2 * z, 64);
    }
}

/// A tile's ancestor is a tile of its own zoom level.
proof fn lemma_ancestor_bound(x: nat, qz: nat, d: nat)
    requires
        x < pow2(qz + d),
    ensures
        x / pow2(d) < pow2(qz),
{
    lemma_pow2_pos(d);
    lemma_pow2_adds(qz, d);
    assert(pow2(d) * pow2(qz) == pow2(qz + d)) by (nonlinear_arith)
        requires
            pow2(qz) * pow2(d) == pow2(qz + d),
    ;
    lemma_div_multiples_vanish(pow2(qz) as int, pow2(d) as int);
    lemma_multiply_divide_lt(x as int, pow2(d) as int, pow2(qz) as int);
}

/// A valid tile's descendants stay within the zoom level, so no bit is dropped.
pub proof fn lemma_descendant_bound(x: nat, z: nat, d: nat)
    requires
        x < pow2(z),
        z + d <= 32,
    ensures
        x * pow2(d) + pow2(d) <= pow2(z + d),
        shifted(x, d) == x * pow2(d),
{
    lemma_pow2_pos(d);
    lemma_pow2_adds(z, d);
    lemma2_to64();
    assert(x * pow2(d) + pow2(d) <= pow2(z) * pow2(d)) by (nonlinear_arith)
        requires
            x + 1 <= pow2(z),
    ;
    if z + d < 32 {
        lemma_pow2_strictly_increases(z + d, 32);
    }
    lemma_small_mod(x * pow2(d), 0x1_0000_0000);
}

// ─── Tile ranges ────────────────────────────────────────────────────────────

/// A rectangle of tiles of one zoom level, bounds inclusive.
#[derive(Debug, Clone, Copy, PartialEq, Eq, Structural)]
pub struct TileRange {
    pub x_min: u32,
    pub y_min: u32,
    pub x_max: u32,
    pub y_max: u32,
}

impl TileRange {
    /// Number of columns.
    pub open spec fn width(self) -> nat {
        if self.x_min <= self.x_max {
            (self.x_max - self.x_min + 1) as nat
        } else {
            0
        }
    }

    /// Number of rows.
    pub open spec fn height(self) -> nat {
        if self.y_min <= self.y_max {
            (self.y_max - self.y_min + 1) as nat
        } else {
            0
        }
    }

    /// Number of tiles.
    pub open spec fn area(self) -> nat {
        self.width() * self.height()
    }

    /// Whether a tile lies in the rectangle.
    pub open spec fn has(self, x: int, y: int) -> bool {
        self.x_min <= x <= self.x_max && self.y_min <= y <= self.y_max
    }

    /// All tiles of the rectangle, column by column.
    pub open spec fn tile_list(self) -> Seq<(u32, u32)> {
        let h = self.height() as int;
        Seq::new(
            self.area(),
            |i: int| ((self.x_min + i / h) as u32, (self.y_min + i % h) as u32),
        )
    }

    /// The quadkeys of the rectangle's tiles, column by column.
    pub open spec fn keys(self, qz: nat) -> Seq<u64> {
        self.tile_list().map_values(
            |t: (u32, u32)| quadkey(t.0 as nat, t.1 as nat, qz) as u64,
        )
    }

    /// All tiles of the rectangle, column by column.
    pub fn tiles(&self) -> (list: Vec<(u32, u32)>)
        ensures
            list@ == self.tile_list(),
    {
        let mut list: Vec<(u32, u32)> = Vec::new();
        let ghost want = self.tile_list();
        let ghost h = self.height() as int;
        if self.x_min > self.x_max || self.y_min > self.y_max {
            assert(self.width() * self.height() == 0) by (nonlinear_arith)
                requires
                    self.width() == 0 || self.height() == 0,
            ;
            assert(list@ =~= want);
            return list;
        }
        let w: u64 = self.x_max as u64 - self.x_min as u64 + 1;
        let rows: u64 = self.y_max as u64 - self.y_min as u64 + 1;
        let mut a: u64 = 0;
        assert(0 * h == 0) by (nonlinear_arith);
        while a < w
            invariant
                a <= w,
                self.x_min <= self.x_max,
                self.y_min <= self.y_max,
                w == self.width(),
                rows == h,
                h == self.height() > 0,
                want == self.tile_list(),
                want.len() == w * h,
                list@.len() == a * h,
                a * h <= w * h,
                forall|i: int| 0 <= i < list@.len() ==> list@[i] == want[i],
            decreases w - a,
        {
            let x: u32 = (self.x_min as u64 + a) as u32;
            let mut b: u64 = 0;
            while b < rows
                invariant
                    a < w,
                    b <= rows,
                    x == self.x_min + a,
                    self.x_min <= self.x_max,
                    self.y_min <= self.y_max,
                    w == self.width(),
                    rows == h,
                    h == self.height() > 0,
                    want == self.tile_list(),
                    want.len() == w * h,
                    list@.len() == a * h + b,
                    forall|i: int| 0 <= i < list@.len() ==> list@[i] == want[i],
                decreases rows - b,
            {
                let y: u32 = (self.y_min as u64 + b) as u32;
                proof {
                    let i = a * h + b;
                    assert(i < w * h) by (nonlinear_arith)
                        requires
                            i == a * h + b,
                            0 <= a < w,
                            0 <= b < h,
                    ;
                    lemma_fundamental_div_mod_converse(i, h, a as int, b as int);
                    assert(want[i] == (x, y));
                }
                list.push((x, y));
                b += 1;
            }
            assert((a + 1) * h == a * h + h) by (nonlinear_arith);
            assert((a + 1) * h <= w * h) by (nonlinear_arith)
                requires
                    a < w,
                    h > 0,
            ;
            a += 1;
        }
        assert(list@ =~= want);
        list
    }
}

/// A tile is listed exactly when it lies in the rectangle, and it is listed once.
pub proof fn tile_list_is_exact(range: TileRange)
    ensures
        range.tile_list().no_duplicates(),
        forall|x: u32, y: u32|
            #[trigger] range.tile_list().contains((x, y)) <==> range.has(x as int, y as int),
{
    let list = range.tile_list();
    let h = range.height() as int;
    assert forall|i: int|
        #![trigger list[i]]
        0 <= i < list.len() implies h > 0 && 0 <= i / h < range.width() && 0 <= i % h < h && i == (i
        / h) * h + i % h by {
        if h == 0 {
            assert(range.width() * 0 == 0) by (nonlinear_arith);
        } else {
            lemma_fundamental_div_mod(i, h);
            assert(h * (i / h) == (i / h) * h) by (nonlinear_arith);
            let q = i / h;
            assert(0 <= q < range.width()) by (nonlinear_arith)
                requires
                    i == q * h + i % h,
                    0 <= i % h < h,
                    0 <= i < range.width() * h,
                    h > 0,
            ;
        }
    }
    assert forall|i: int, j: int| 0 <= i < j < list.len() implies list[i] != list[j] by {
        if list[i] == list[j] {
            assert(i / h == j / h && i % h == j % h);
        }
    }
    assert forall|x: u32, y: u32| #[trigger]
        list.contains((x, y)) implies range.has(x as int, y as int) by {
        let i = choose|i: int| 0 <= i < list.len() && list[i] == (x, y);
        assert(0 <= i / h < range.width() && 0 <= i % h < h);
    }
    assert forall|x: u32, y: u32| range.has(x as int, y as int) implies #[trigger] list.contains(
        (x, y),
    ) by {
        let a = x - range.x_min;
        let b = y - range.y_min;
        let i = a * h + b;
        assert(0 <= i < range.width() * h) by (nonlinear_arith)
            requires
                i == a * h + b,
                0 <= a < range.width(),
                0 <= b < h,
        ;
        lemma_fundamental_div_mod_converse(i, h, a, b);
        assert(list[i] == (x, y));
    }
}

/// The tiles of a rectangle are listed from west to east and in each column from north
/// to south, and a tile is listed exactly when it is within the bounds on both axes.
pub proof fn tiles_by_bounds(range: TileRange)
    ensures
        forall|i: int, j: int|
            0 <= i < j < range.tile_list().len() ==> (#[trigger] range.tile_list()[i]).0 < (
            #[trigger] range.tile_list()[j]).0 || (range.tile_list()[i].0 == range.tile_list()[j].0
                && range.tile_list()[i].1 < range.tile_list()[j].1),
        forall|x: u32, y: u32|
            #[trigger] range.tile_list().contains((x, y)) <==> range.x_min <= x && x <= range.x_max
                && range.y_min <= y && y <= range.y_max,
        range.x_min <= range.x_max && range.y_min <= range.y_max ==> range.tile_list().len() == (
        range.x_max - range.x_min + 1) * (range.y_max - range.y_min + 1),
        range.x_min > range.x_max || range.y_min > range.y_max ==> range.tile_list().len() == 0,
{
    tile_list_is_exact(range);
    let list = range.tile_list();
    let h = range.height() as int;
    if range.x_min > range.x_max || range.y_min > range.y_max {
        assert(range.width() * range.height() == 0) by (nonlinear_arith)
            requires
                range.width() == 0 || range.height() == 0,
        ;
    }
    assert forall|i: int, j: int| 0 <= i < j < list.len() implies (#[trigger] list[i]).0 < (
    #[trigger] list[j]).0 || (list[i].0 == list[j].0 && list[i].1 < list[j].1) by {
        lemma_fundamental_div_mod(i, h);
        lemma_fundamental_div_mod(j, h);
        lemma_div_is_ordered(i, j, h);
        assert(list.contains((list[i].0, list[i].1)));
        assert(list.contains((list[j].0, list[j].1)));
        assert(h * (i / h) == (i / h) * h) by (nonlinear_arith);
        assert(h * (j / h) == (j / h) * h) by (nonlinear_arith);
        assert(0 <= i / h && j / h < range.width()) by (nonlinear_arith)
            requires
                i == h * (i / h) + i % h,
                j == h * (j / h) + j % h,
                0 <= i % h < h,
                0 <= j % h < h,
                0 <= i,
                j < range.width() * h,
                h > 0,
        ;
    }
}

/// The quadkeys at zoom `qz` of the tiles in a rectangle, column by column.
pub fn bbox_to_quadkeys(range: TileRange, qz: u8) -> (qks: Vec<u64>)
    requires
        qz <= 32,
    ensures
        qks@ == range.keys(qz as nat),
{
    let tiles = range.tiles();
    let mut qks: Vec<u64> = Vec::new();
    for i in 0..tiles.len()
        invariant
            qz <= 32,
            tiles@ == range.tile_list(),
            qks@.len() == i,
            forall|j: int| 0 <= j < i ==> qks@[j] == range.keys(qz as nat)[j],
    {
        let (x, y): (u32, u32) = tiles[i];
        let qk: u64 = tile_to_quadkey(x, y, qz);
        qks.push(qk);
    }
    assert(qks@ =~= range.keys(qz as nat));
    qks
}

/// The keys of a rectangle are those of its tiles, in their order.
pub proof fn keys_follow_tiles(range: TileRange, qz: nat, i: int)
    requires
        qz <= 32,
        0 <= i < range.tile_list().len(),
    ensures
        range.keys(qz).len() == range.tile_list().len(),
        range.keys(qz)[i] == quadkey(
            range.tile_list()[i].0 as nat,
            range.tile_list()[i].1 as nat,
            qz,
        ),
{
    lemma_key_fits(range.tile_list()[i].0 as nat, range.tile_list()[i].1 as nat, qz);
}

/// The keys of a rectangle are the keys of exactly its tiles, each once.
pub proof fn range_keys_are_exact(range: TileRange, qz: nat)
    requires
        qz <= 32,
        range.x_max < pow2(qz),
        range.y_max < pow2(qz),
    ensures
        range.keys(qz).no_duplicates(),
        forall|x: u32, y: u32|
            x < pow2(qz) && y < pow2(qz) ==> (#[trigger] range.keys(qz).contains(
                quadkey(x as nat, y as nat, qz) as u64,
            ) <==> range.has(x as int, y as int)),
{
    tile_list_is_exact(range);
    let list = range.tile_list();
    let keys = range.keys(qz);
    assert forall|i: int| 0 <= i < list.len() implies range.has(
        #[trigger] list[i].0 as int,
        list[i].1 as int,
    ) by {
        assert(list.contains((list[i].0, list[i].1)));
    }
    assert forall|i: int, j: int| 0 <= i < j < keys.len() implies keys[i] != keys[j] by {
        let (a, b) = (list[i], list[j]);
        assert(a != b);
        lemma_key_fits(a.0 as nat, a.1 as nat, qz);
        lemma_key_fits(b.0 as nat, b.1 as nat, qz);
        if keys[i] == keys[j] {
            quadkey_injective(a.0 as nat, a.1 as nat, b.0 as nat, b.1 as nat, qz);
        }
    }
    assert forall|x: u32, y: u32| x < pow2(qz) && y < pow2(qz) implies (
    #[trigger] keys.contains(quadkey(x as nat, y as nat, qz) as u64) <==> range.has(
        x as int,
        y as int,
    )) by {
        let key = quadkey(x as nat, y as nat, qz) as u64;
        lemma_key_fits(x as nat, y as nat, qz);
        if keys.contains(key) {
            let i = choose|i: int| 0 <= i < keys.len() && keys[i] == key;
            let a = list[i];
            lemma_key_fits(a.0 as nat, a.1 as nat, qz);
            quadkey_injective(a.0 as nat, a.1 as nat, x as nat, y as nat, qz);
        }
        if range.has(x as int, y as int) {
            assert(list.contains((x, y)));
            let i = choose|i: int| 0 <= i < list.len() && list[i] == (x, y);
            assert(keys[i] == key);
        }
    }
}

// ─── Boxes ──────────────────────────────────────────────────────────────────

/// The largest finite number.
pub const REAL_MAX: u64 = 0x7FEF_FFFF_FFFF_FFFF;

/// The smallest finite number.
pub const REAL_MIN: u64 = 0xFFEF_FFFF_FFFF_FFFF;

/// Axis-aligned bounding box.
#[derive(Debug, Clone, Copy, PartialEq, Eq, Structural)]
pub struct Bbox {
    pub x_min: Real,
    pub y_min: Real,
    pub x_max: Real,
    pub y_max: Real,
}

/// North-up affine transform without rotation.
#[derive(Debug, Clone, Copy, PartialEq, Eq, Structural)]
pub struct Affine {
    /// West edge of pixel (0, 0).
    pub origin_x: Real,
    /// North edge of pixel (0, 0).
    pub origin_y: Real,
    /// Pixel width, positive.
    pub pixel_width: Real,
    /// Pixel height, positive; y decreases going down.
    pub pixel_height: Real,
}

/// The box that a sequence of points spans.
pub open spec fn envelope_of(points: Seq<(Real, Real)>) -> Bbox
    decreases points.len(),
{
    if points.len() == 0 {
        Bbox {
            x_min: Real { bits: REAL_MAX },
            y_min: Real { bits: REAL_MAX },
            x_max: Real { bits: REAL_MIN },
            y_max: Real { bits: REAL_MIN },
        }
    } else {
        let b = envelope_of(points.drop_last());
        let p = points.last();
        Bbox {
            x_min: b.x_min.smaller(p.0),
            y_min: b.y_min.smaller(p.1),
            x_max: b.x_max.larger(p.0),
            y_max: b.y_max.larger(p.1),
        }
    }
}

/// The box that projected corners span; a coordinate that is not a number is left out.
pub fn envelope(points: &Vec<(Real, Real)>) -> (b: Bbox)
    ensures
        b == envelope_of(points@),
{
    let mut b = Bbox {
        x_min: Real::from_bits(REAL_MAX),
        y_min: Real::from_bits(REAL_MAX),
        x_max: Real::from_bits(REAL_MIN),
        y_max: Real::from_bits(REAL_MIN),
    };
    assert(points@.take(0) =~= Seq::<(Real, Real)>::empty());
    for i in 0..points.len()
        invariant
            b == envelope_of(points@.take(i as int)),
    {
        let (x, y): (Real, Real) = points[i];
        assert(points@.take(i + 1).drop_last() =~= points@.take(i as int));
        b = Bbox {
            x_min: b.x_min.min(&x),
            y_min: b.y_min.min(&y),
            x_max: b.x_max.max(&x),
            y_max: b.y_max.max(&y),
        };
    }
    assert(points@.take(points@.len() as int) =~= points@);
    b
}

/// A finite number.
pub open spec fn is_finite(r: Real) -> bool {
    r.magnitude() < crate::number::INFINITE
}

/// A number is finite when its bit pattern, without the sign, is below that of infinity.
pub proof fn finite_by_bits(r: Real)
    ensures
        is_finite(r) <==> r.bits % 0x8000_0000_0000_0000 < 0x7FF0_0000_0000_0000,
{
}

/// The envelope of no points lets any finite number in: its lower bounds are not below, and
/// its upper bounds not above, any of them.
pub proof fn envelope_of_nothing(r: Real)
    requires
        r.bits % 0x8000_0000_0000_0000 < 0x7FF0_0000_0000_0000,
    ensures
        r.at_most(envelope_of(Seq::empty()).x_min),
        r.at_most(envelope_of(Seq::empty()).y_min),
        envelope_of(Seq::empty()).x_max.at_most(r),
        envelope_of(Seq::empty()).y_max.at_most(r),
        is_finite(envelope_of(Seq::empty()).x_min) && is_finite(envelope_of(Seq::empty()).x_max),
        is_finite(envelope_of(Seq::empty()).y_min) && is_finite(envelope_of(Seq::empty()).y_max),
{
}

/// The envelope encloses every point with finite coordinates.
pub proof fn envelope_encloses(points: Seq<(Real, Real)>, i: int)
    requires
        0 <= i < points.len(),
        is_finite(points[i].0),
        is_finite(points[i].1),
    ensures
        envelope_of(points).x_min.at_most(points[i].0),
        points[i].0.at_most(envelope_of(points).x_max),
        envelope_of(points).y_min.at_most(points[i].1),
        points[i].1.at_most(envelope_of(points).y_max),
    decreases points.len(),
{
    lemma_envelope_numbers(points.drop_last());
    if i < points.len() - 1 {
        envelope_encloses(points.drop_last(), i);
    }
}

/// The envelope encloses every coordinate that is a number, and one that is not a number
/// changes nothing.
pub proof fn envelope_takes_numbers(points: Seq<(Real, Real)>, i: int, x: Real, y: Real)
    requires
        0 <= i < points.len(),
    ensures
        !points[i].0.nan() ==> envelope_of(points).x_min.at_most(points[i].0) && points[i].0.at_most(
            envelope_of(points).x_max,
        ),
        !points[i].1.nan() ==> envelope_of(points).y_min.at_most(points[i].1) && points[i].1.at_most(
            envelope_of(points).y_max,
        ),
        x.nan() ==> {
            &&& envelope_of(points.push((x, y))).x_min == envelope_of(points).x_min
            &&& envelope_of(points.push((x, y))).x_max == envelope_of(points).x_max
        },
        y.nan() ==> {
            &&& envelope_of(points.push((x, y))).y_min == envelope_of(points).y_min
            &&& envelope_of(points.push((x, y))).y_max == envelope_of(points).y_max
        },
    decreases points.len(),
{
    lemma_envelope_numbers(points);
    lemma_envelope_numbers(points.drop_last());
    assert(points.push((x, y)).drop_last() =~= points);
    if i < points.len() - 1 {
        envelope_takes_numbers(points.drop_last(), i, x, y);
    }
}

/// Each bound of the envelope is reached: it is the coordinate of one of the points, where
/// there is a point with finite coordinates. So no smaller box encloses the points.
pub proof fn envelope_is_tight(points: Seq<(Real, Real)>, i: int)
    requires
        0 <= i < points.len(),
        is_finite(points[i].0),
        is_finite(points[i].1),
    ensures
        exists|k: int| 0 <= k < points.len() && envelope_of(points).x_min == (#[trigger] points[k]).0,
        exists|k: int| 0 <= k < points.len() && envelope_of(points).x_max == (#[trigger] points[k]).0,
        exists|k: int| 0 <= k < points.len() && envelope_of(points).y_min == (#[trigger] points[k]).1,
        exists|k: int| 0 <= k < points.len() && envelope_of(points).y_max == (#[trigger] points[k]).1,
{
    lemma_envelope_bounds(points);
    envelope_encloses(points, i);
    assert(points[i].0.rank() <= Real { bits: REAL_MAX }.rank());
    if envelope_of(points).x_min.bits == REAL_MAX {
        assert(points[i].0 == envelope_of(points).x_min);
    }
    if envelope_of(points).y_min.bits == REAL_MAX {
        assert(points[i].1 == envelope_of(points).y_min);
    }
    if envelope_of(points).x_max.bits == REAL_MIN {
        assert(points[i].0 == envelope_of(points).x_max);
    }
    if envelope_of(points).y_max.bits == REAL_MIN {
        assert(points[i].1 == envelope_of(points).y_max);
    }
}

/// Each bound of the envelope is where it starts from or the coordinate of a point.
proof fn lemma_envelope_bounds(points: Seq<(Real, Real)>)
    ensures
        envelope_of(points).x_min.bits == REAL_MAX || exists|k: int|
            0 <= k < points.len() && envelope_of(points).x_min == (#[trigger] points[k]).0,
        envelope_of(points).x_max.bits == REAL_MIN || exists|k: int|
            0 <= k < points.len() && envelope_of(points).x_max == (#[trigger] points[k]).0,
        envelope_of(points).y_min.bits == REAL_MAX || exists|k: int|
            0 <= k < points.len() && envelope_of(points).y_min == (#[trigger] points[k]).1,
        envelope_of(points).y_max.bits == REAL_MIN || exists|k: int|
            0 <= k < points.len() && envelope_of(points).y_max == (#[trigger] points[k]).1,
    decreases points.len(),
{
    if points.len() > 0 {
        let less = points.drop_last();
        lemma_envelope_bounds(less);
        let b = envelope_of(less);
        let e = envelope_of(points);
        let last = points[points.len() - 1];
        assert(forall|k: int| 0 <= k < less.len() ==> points[k] == #[trigger] less[k]);
        assert(e.x_min == b.x_min || e.x_min == last.0);
        assert(e.x_max == b.x_max || e.x_max == last.0);
        assert(e.y_min == b.y_min || e.y_min == last.1);
        assert(e.y_max == b.y_max || e.y_max == last.1);
    }
}

/// The bounds of an envelope are numbers.
proof fn lemma_envelope_numbers(points: Seq<(Real, Real)>)
    ensures
        !envelope_of(points).x_min.nan(),
        !envelope_of(points).y_min.nan(),
        !envelope_of(points).x_max.nan(),
        !envelope_of(points).y_max.nan(),
    decreases points.len(),
{
    if points.len() > 0 {
        lemma_envelope_numbers(points.drop_last());
    }
}

// ─── Resampling ─────────────────────────────────────────────────────────────

/// The class at a column and row, 0 outside the raster.
pub open spec fn class_sample(src: ClassGrid, col: int, row: int) -> u8 {
    if 0 <= row < src.rows() && 0 <= col < src.cols() {
        src.at(row, col)
    } else {
        0
    }
}

/// Nearest-neighbour sample at a rounded column and row.
pub fn nn_sample_u8(src: &ClassGrid, col: usize, row: usize) -> (v: u8)
    ensures
        v == class_sample(*src, col as int, row as int),
        row < src.rows() && col < src.cols() ==> v == src.at(row as int, col as int),
        row >= src.rows() || col >= src.cols() ==> v == 0,
{
    let (h, w) = src.dim();
    if row < h && col < w {
        src.get(row, col)
    } else {
        0
    }
}

/// Warp a class raster: each output pixel, row by row, takes the class of the source
/// pixel (column, row) that `grid` names for it, or 0 where it names none.
pub fn warp_scl_with_grid(
    src: &ClassGrid,
    grid: &Vec<Option<(usize, usize)>>,
    output_size: u32,
) -> (dst: ClassGrid)
    requires
        raster::fits2(output_size as nat, output_size as nat, 1),
        grid@.len() >= output_size * output_size,
    ensures
        dst.rows() == output_size,
        dst.cols() == output_size,
        forall|r: int, c: int|
            0 <= r < output_size && 0 <= c < output_size ==> #[trigger] dst.at(r, c) == match grid@[r
                * output_size + c] {
                Some(p) => class_sample(*src, p.0 as int, p.1 as int),
                None => 0,
            },
        forall|r: int, c: int|
            0 <= r < output_size && 0 <= c < output_size ==> #[trigger] dst.at(r, c) == match grid@[r
                * output_size + c] {
                Some((col, row)) if row < src.rows() && col < src.cols() => src.at(
                    row as int,
                    col as int,
                ),
                _ => 0,
            },
{
    let n: usize = output_size as usize;
    let mut dst = ClassGrid::filled(n, n, 0);
    for row in 0..n
        invariant
            n == output_size,
            grid@.len() == grid.len(),
            dst.rows() == n,
            dst.cols() == n,
            grid@.len() >= n * n,
            forall|r: int, c: int|
                0 <= r < row && 0 <= c < n ==> #[trigger] dst.at(r, c) == match grid@[r * n + c] {
                    Some(p) => class_sample(*src, p.0 as int, p.1 as int),
                    None => 0,
                },
            forall|r: int, c: int| row <= r < n && 0 <= c < n ==> #[trigger] dst.at(r, c) == 0,
    {
        for col in 0..n
            invariant
                n == output_size,
                grid@.len() == grid.len(),
                row < n,
                dst.rows() == n,
                dst.cols() == n,
                grid@.len() >= n * n,
                forall|r: int, c: int|
                    (0 <= r < row && 0 <= c < n) || (r == row && 0 <= c < col) ==> #[trigger] dst.at(
                        r,
                        c,
                    ) == match grid@[r * n + c] {
                        Some(p) => class_sample(*src, p.0 as int, p.1 as int),
                        None => 0,
                    },
                forall|r: int, c: int|
                    (row < r < n && 0 <= c < n) || (r == row && col <= c < n) ==> #[trigger] dst.at(
                        r,
                        c,
                    ) == 0,
        {
            assert(row * n + col < n * n) by (nonlinear_arith)
                requires
                    0 <= row < n,
                    0 <= col < n,
            ;
            assert(row * n <= row * n + col);
            assert(row * n >= 0) by (nonlinear_arith);
            if let Some(p) = grid[row * n + col] {
                let v: u8 = nn_sample_u8(src, p.0, p.1);
                dst.set(row, col, v);
            }
        }
    }
    dst
}

/// The four pixels around a sample: top left, top right, bottom left, bottom right.
#[derive(Debug, Clone, Copy, PartialEq, Eq, Structural)]
pub struct Neighbours {
    pub v00: u16,
    pub v01: u16,
    pub v10: u16,
    pub v11: u16,
}

/// The pixel below or right of another one, which at the edge is that pixel itself.
pub open spec fn next_inside(i: int, len: int) -> int {
    if i + 1 < len {
        i + 1
    } else {
        len - 1
    }
}

/// The pixels around a sample whose top left one is at (col, row); all without data
/// outside the raster.
pub open spec fn neighbours_at(src: BandGrid, col: int, row: int) -> Neighbours {
    if 0 <= row < src.rows() && 0 <= col < src.cols() {
        let r1 = next_inside(row, src.rows() as int);
        let c1 = next_inside(col, src.cols() as int);
        Neighbours {
            v00: src.at(row, col),
            v01: src.at(row, c1),
            v10: src.at(r1, col),
            v11: src.at(r1, c1),
        }
    } else {
        Neighbours { v00: 0, v01: 0, v10: 0, v11: 0 }
    }
}

impl Neighbours {
    /// The pixels around a sample whose top left one is at (col, row).
    pub fn sample(src: &BandGrid, col: usize, row: usize) -> (v: Self)
        ensures
            v == neighbours_at(*src, col as int, row as int),
            row + 1 < src.rows() && col + 1 < src.cols() ==> {
                &&& v.v00 == src.at(row as int, col as int)
                &&& v.v01 == src.at(row as int, col + 1)
                &&& v.v10 == src.at(row + 1, col as int)
                &&& v.v11 == src.at(row + 1, col + 1)
            },
    {
        let (h, w) = src.dim();
        if row >= h || col >= w {
            return Neighbours { v00: 0, v01: 0, v10: 0, v11: 0 };
        }
        let r1: usize = if row < h - 1 {
            row + 1
        } else {
            h - 1
        };
        let c1: usize = if col < w - 1 {
            col + 1
        } else {
            w - 1
        };
        Neighbours {
            v00: src.get(row, col),
            v01: src.get(row, c1),
            v10: src.get(r1, col),
            v11: src.get(r1, c1),
        }
    }

    /// The pixels that hold data and so take part in the interpolation, in order.
    pub fn weighted(&self) -> (r: [bool; 4])
        ensures
            r@ == seq![self.v00 != 0, self.v01 != 0, self.v10 != 0, self.v11 != 0],
    {
        let r = [self.v00 != 0, self.v01 != 0, self.v10 != 0, self.v11 != 0];
        assert(r@ =~= seq![self.v00 != 0, self.v01 != 0, self.v10 != 0, self.v11 != 0]);
        r
    }
}

/// Inside the raster the four pixels are adjacent: the one at (`col`, `row`), the next in
/// its row, the next in its column and the one diagonally between these. In the last
/// column the pixel stands for the one right of it, in the last row for the one below it.
/// Outside the raster there is no data.
pub proof fn neighbours_are_adjacent(src: BandGrid, col: int, row: int)
    requires
        0 <= col,
        0 <= row,
    ensures
        ({
            let v = neighbours_at(src, col, row);
            let inside = row < src.rows() && col < src.cols();
            let right = col + 1 < src.cols();
            let below = row + 1 < src.rows();
            &&& inside ==> v.v00 == src.at(row, col)
            &&& inside && right ==> v.v01 == src.at(row, col + 1)
            &&& inside && !right ==> v.v01 == src.at(row, col)
            &&& inside && below ==> v.v10 == src.at(row + 1, col)
            &&& inside && !below ==> v.v10 == src.at(row, col)
            &&& inside && right && below ==> v.v11 == src.at(row + 1, col + 1)
            &&& inside && !right && below ==> v.v11 == src.at(row + 1, col)
            &&& inside && right && !below ==> v.v11 == src.at(row, col + 1)
            &&& inside && !right && !below ==> v.v11 == src.at(row, col)
            &&& !inside ==> v.v00 == 0 && v.v01 == 0 && v.v10 == 0 && v.v11 == 0
        }),
{
}

/// The pixels around a sample move with it: those right of one sample are those left of the
/// next, and those below it are those above the sample in the next row.
pub proof fn neighbours_overlap(src: BandGrid, col: int, row: int)
    requires
        0 <= col,
        0 <= row,
    ensures
        row < src.rows() && col + 1 < src.cols() ==> {
            &&& neighbours_at(src, col, row).v01 == neighbours_at(src, col + 1, row).v00
            &&& neighbours_at(src, col, row).v11 == neighbours_at(src, col + 1, row).v10
        },
        row + 1 < src.rows() && col < src.cols() ==> {
            &&& neighbours_at(src, col, row).v10 == neighbours_at(src, col, row + 1).v00
            &&& neighbours_at(src, col, row).v11 == neighbours_at(src, col, row + 1).v01
        },
{
}

/// For each output pixel, row by row, the source pixels to interpolate between: those
/// around the position (column, row) that `grid` names, or none that hold data.
pub fn neighbours_with_grid(src: &BandGrid, grid: &Vec<Option<(usize, usize)>>) -> (out: Vec<
    Neighbours,
>)
    ensures
        out@.len() == grid@.len(),
        forall|i: int|
            0 <= i < grid@.len() ==> #[trigger] out@[i] == match grid@[i] {
                Some(p) => neighbours_at(*src, p.0 as int, p.1 as int),
                None => (Neighbours { v00: 0, v01: 0, v10: 0, v11: 0 }),
            },
{
    let mut out: Vec<Neighbours> = Vec::new();
    for i in 0..grid.len()
        invariant
            out@.len() == i,
            forall|j: int|
                0 <= j < i ==> #[trigger] out@[j] == match grid@[j] {
                    Some(p) => neighbours_at(*src, p.0 as int, p.1 as int),
                    None => (Neighbours { v00: 0, v01: 0, v10: 0, v11: 0 }),
                },
    {
        let v = match grid[i] {
            Some(p) => Neighbours::sample(src, p.0, p.1),
            None => Neighbours { v00: 0, v01: 0, v10: 0, v11: 0 },
        };
        out.push(v);
    }
    out
}

// ─── Projections ────────────────────────────────────────────────────────────

/// An EPSG code that is not a UTM zone.
#[derive(Debug, Clone, Copy, PartialEq, Eq, Structural)]
pub struct UnsupportedEpsg {
    pub epsg: u32,
}

impl UnsupportedEpsg {
    /// The message to report.
    pub fn message(&self) -> (text: String)
        ensures
            text@ == "unsupported EPSG "@ + text::decimal(self.epsg as nat)
                + ": only UTM zones 1–60 N/S are supported"@,
    {
        let mut text = "unsupported EPSG ".to_owned();
        push_decimal(&mut text, self.epsg as u64);
        text.append(": only UTM zones 1–60 N/S are supported");
        text
    }
}

/// A northern UTM zone.
pub open spec fn is_utm_north(epsg: int) -> bool {
    32601 <= epsg <= 32660
}

/// A southern UTM zone.
pub open spec fn is_utm_south(epsg: int) -> bool {
    32701 <= epsg <= 32760
}

/// The codes of the 60 northern zones follow 32600, those of the 60 southern ones 32700,
/// in the order of the zones.
pub proof fn utm_codes(epsg: int)
    ensures
        is_utm_north(epsg) <==> 1 <= epsg - 32600 <= 60,
        is_utm_south(epsg) <==> 1 <= epsg - 32700 <= 60,
        !(is_utm_north(epsg) && is_utm_south(epsg)),
{
}

/// The proj4 string of a UTM zone given by its EPSG code.
pub fn epsg_to_proj_string(epsg: u32) -> (r: Result<String, UnsupportedEpsg>)
    ensures
        is_utm_north(epsg as int) ==> r is Ok && r->Ok_0@ == "+proj=utm +zone="@ + text::decimal(
            (epsg - 32600) as nat,
        ) + " +datum=WGS84 +units=m +no_defs"@,
        is_utm_south(epsg as int) ==> r is Ok && r->Ok_0@ == "+proj=utm +zone="@ + text::decimal(
            (epsg - 32700) as nat,
        ) + " +south +datum=WGS84 +units=m +no_defs"@,
        !is_utm_north(epsg as int) && !is_utm_south(epsg as int) ==> r == Err::<
            String,
            UnsupportedEpsg,
        >(UnsupportedEpsg { epsg }),
{
    let mut out = "+proj=utm +zone=".to_owned();
    if epsg >= 32601 && epsg <= 32660 {
        push_decimal(&mut out, (epsg - 32600) as u64);
        out.append(" +datum=WGS84 +units=m +no_defs");
        Ok(out)
    } else if epsg >= 32701 && epsg <= 32760 {
        push_decimal(&mut out, (epsg - 32700) as u64);
        out.append(" +south +datum=WGS84 +units=m +no_defs");
        Ok(out)
    } else {
        Err(UnsupportedEpsg { epsg })
    }
}

} // verus!
