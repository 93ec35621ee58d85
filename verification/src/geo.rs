//! Spatial partitioning: geohash cells over a bounding box.
//!
//! Coordinates are integers in microdegrees (one millionth of a degree),
//! longitude in `[-180_000_000, 180_000_000]` and latitude in
//! `[-90_000_000, 90_000_000]`. A geohash of precision `p` carries `5 * p`
//! bits, alternating longitude and latitude and starting with longitude,
//! so the world is a grid of `2^lon_bits x 2^lat_bits` cells; a cell is
//! named by its column `ix`, its row `iy`, and its precision, and its
//! geocode is the base-32 encoding of the interleaved bits.

use vstd::prelude::*;
use vstd::arithmetic::power2::pow2;

use crate::error::StitchError;

verus! {

/// Westernmost longitude, in microdegrees.
pub const LON_MIN_MICRO: i64 = -180_000_000;

/// Easternmost longitude, in microdegrees.
pub const LON_MAX_MICRO: i64 = 180_000_000;

/// Southernmost latitude, in microdegrees.
pub const LAT_MIN_MICRO: i64 = -90_000_000;

/// Northernmost latitude, in microdegrees.
pub const LAT_MAX_MICRO: i64 = 90_000_000;

/// Smallest supported geohash precision.
pub const MIN_PRECISION: u8 = 1;

/// Largest supported geohash precision.
pub const MAX_PRECISION: u8 = 12;

/// A requested bounding box, in microdegrees.
#[derive(Clone, Copy)]
pub struct BoundingBox {
    /// Minimum longitude.
    pub min_lon: i64,
    /// Maximum longitude.
    pub max_lon: i64,
    /// Minimum latitude.
    pub min_lat: i64,
    /// Maximum latitude.
    pub max_lat: i64,
}

/// Whether a bounding box is non-empty on both axes and lies within the
/// world range.
pub open spec fn spec_bbox_valid(b: BoundingBox) -> bool {
    &&& b.min_lon < b.max_lon
    &&& b.min_lat < b.max_lat
    &&& LON_MIN_MICRO <= b.min_lon
    &&& b.max_lon <= LON_MAX_MICRO
    &&& LAT_MIN_MICRO <= b.min_lat
    &&& b.max_lat <= LAT_MAX_MICRO
}

/// One partition cell.
pub struct GeoWindow {
    /// Column of the cell in the longitude direction.
    pub ix: u32,
    /// Row of the cell in the latitude direction.
    pub iy: u32,
    /// Geohash precision of the cell.
    pub precision: u8,
    /// The cell's geocode: the geohash of its center.
    pub geocode: Vec<u8>,
}

/// The mathematical model of a `GeoWindow`.
pub struct WindowModel {
    /// Model of `GeoWindow::ix`.
    pub ix: u32,
    /// Model of `GeoWindow::iy`.
    pub iy: u32,
    /// Model of `GeoWindow::precision`.
    pub precision: u8,
    /// Model of `GeoWindow::geocode`.
    pub geocode: Seq<u8>,
}

impl View for GeoWindow {
    type V = WindowModel;

    open spec fn view(&self) -> WindowModel {
        WindowModel { ix: self.ix, iy: self.iy, precision: self.precision, geocode: self.geocode@ }
    }
}

impl DeepView for GeoWindow {
    type V = WindowModel;

    open spec fn deep_view(&self) -> WindowModel {
        self@
    }
}

/// Whether a precision is supported.
pub open spec fn spec_valid_precision(p: int) -> bool {
    MIN_PRECISION <= p <= MAX_PRECISION
}

/// Number of longitude bits in a geohash of precision `p`.
pub open spec fn spec_lon_bits(p: int) -> nat {
    ((5 * p + 1) / 2) as nat
}

/// Number of latitude bits in a geohash of precision `p`.
pub open spec fn spec_lat_bits(p: int) -> nat {
    ((5 * p) / 2) as nat
}

/// Bit `n` of `x`, counting from the least significant.
pub open spec fn spec_bit_of(x: u32, n: int) -> int {
    if n >= 0 {
        ((x as int) / (pow2(n as nat) as int)) % 2
    } else {
        0
    }
}

/// Bit `j` of a cell's interleaved geohash bit stream, most significant
/// first: even positions walk the column bits, odd positions the row
/// bits.
pub open spec fn spec_stream_bit(ix: u32, iy: u32, p: int, j: int) -> int {
    if j % 2 == 0 {
        spec_bit_of(ix, spec_lon_bits(p) - 1 - j / 2)
    } else {
        spec_bit_of(iy, spec_lat_bits(p) - 1 - (j - 1) / 2)
    }
}

/// Digit `k` of a cell's geohash: five consecutive stream bits.
pub open spec fn spec_digit(ix: u32, iy: u32, p: int, k: int) -> int {
    16 * spec_stream_bit(ix, iy, p, 5 * k) + 8 * spec_stream_bit(ix, iy, p, 5 * k + 1) + 4
        * spec_stream_bit(ix, iy, p, 5 * k + 2) + 2 * spec_stream_bit(ix, iy, p, 5 * k + 3)
        + spec_stream_bit(ix, iy, p, 5 * k + 4)
}

/// The geohash alphabet: digit `d` as its base-32 character byte.
pub open spec fn spec_base32_char(d: int) -> u8 {
    if d == 0 {
        48u8
    } else if d == 1 {
        49u8
    } else if d == 2 {
        50u8
    } else if d == 3 {
        51u8
    } else if d == 4 {
        52u8
    } else if d == 5 {
        53u8
    } else if d == 6 {
        54u8
    } else if d == 7 {
        55u8
    } else if d == 8 {
        56u8
    } else if d == 9 {
        57u8
    } else if d == 10 {
        98u8
    } else if d == 11 {
        99u8
    } else if d == 12 {
        100u8
    } else if d == 13 {
        101u8
    } else if d == 14 {
        102u8
    } else if d == 15 {
        103u8
    } else if d == 16 {
        104u8
    } else if d == 17 {
        106u8
    } else if d == 18 {
        107u8
    } else if d == 19 {
        109u8
    } else if d == 20 {
        110u8
    } else if d == 21 {
        112u8
    } else if d == 22 {
        113u8
    } else if d == 23 {
        114u8
    } else if d == 24 {
        115u8
    } else if d == 25 {
        116u8
    } else if d == 26 {
        117u8
    } else if d == 27 {
        118u8
    } else if d == 28 {
        119u8
    } else if d == 29 {
        120u8
    } else if d == 30 {
        121u8
    } else {
        122u8
    }
}

/// The geocode of the cell `(ix, iy)` at precision `p`.
pub open spec fn spec_geocode(ix: u32, iy: u32, p: int) -> Seq<u8> {
    Seq::new(p as nat, |k: int| spec_base32_char(spec_digit(ix, iy, p, k)))
}

/// Digit `d` as its base-32 character byte.
fn base32_char(d: u32) -> (r: u8)
    requires
        d < 32,
    ensures
        r == spec_base32_char(d as int),
{
    if d < 10 {
        48u8 + (d as u8)
    } else if d == 10 {
        98u8
    } else if d == 11 {
        99u8
    } else if d == 12 {
        100u8
    } else if d == 13 {
        101u8
    } else if d == 14 {
        102u8
    } else if d == 15 {
        103u8
    } else if d == 16 {
        104u8
    } else if d == 17 {
        106u8
    } else if d == 18 {
        107u8
    } else if d == 19 {
        109u8
    } else if d == 20 {
        110u8
    } else if d == 21 {
        112u8
    } else if d == 22 {
        113u8
    } else if d == 23 {
        114u8
    } else if d == 24 {
        115u8
    } else if d == 25 {
        116u8
    } else if d == 26 {
        117u8
    } else if d == 27 {
        118u8
    } else if d == 28 {
        119u8
    } else if d == 29 {
        120u8
    } else if d == 30 {
        121u8
    } else {
        122u8
    }
}

/// Bit `j` of the interleaved geohash bit stream of the cell `(ix, iy)`.
fn stream_bit(ix: u32, iy: u32, precision: u8, j: usize) -> (r: u32)
    requires
        spec_valid_precision(precision as int),
        j < 5 * precision as usize,
    ensures
        r as int == spec_stream_bit(ix, iy, precision as int, j as int),
        r <= 1,
{
    let total: usize = 5 * precision as usize;
    let lb: usize = (total + 1) / 2;
    let lt: usize = total / 2;
    if j % 2 == 0 {
        let shift: usize = lb - 1 - j / 2;
        proof {
            assert(shift == spec_lon_bits(precision as int) - 1 - (j as int) / 2);
            assert(shift < 32);
            vstd::bits::lemma_u32_shr_is_div(ix, shift as u32);
            assert((ix >> (shift as u32)) & 1 == (ix >> (shift as u32)) % 2) by (bit_vector);
        }
        (ix >> (shift as u32)) & 1
    } else {
        let shift: usize = lt - 1 - (j - 1) / 2;
        proof {
            assert(shift == spec_lat_bits(precision as int) - 1 - ((j as int) - 1) / 2);
            assert(shift < 32);
            vstd::bits::lemma_u32_shr_is_div(iy, shift as u32);
            assert((iy >> (shift as u32)) & 1 == (iy >> (shift as u32)) % 2) by (bit_vector);
        }
        (iy >> (shift as u32)) & 1
    }
}

/// The geocode of the cell `(ix, iy)` at precision `precision`: the
/// base-32 encoding of the interleaved column and row bits.
pub fn encode_geohash(ix: u32, iy: u32, precision: u8) -> (r: Vec<u8>)
    requires
        spec_valid_precision(precision as int),
    ensures
        r@ == spec_geocode(ix, iy, precision as int),
        r@.len() == precision,
{
    let mut r: Vec<u8> = Vec::new();
    let mut k: usize = 0;
    while k < precision as usize
        invariant
            spec_valid_precision(precision as int),
            0 <= k <= precision,
            r@.len() == k,
            forall|k2: int| 0 <= k2 < k ==> r@[k2] == spec_base32_char(
                spec_digit(ix, iy, precision as int, k2),
            ),
        decreases precision as usize - k,
    {
        let b0: u32 = stream_bit(ix, iy, precision, 5 * k);
        let b1: u32 = stream_bit(ix, iy, precision, 5 * k + 1);
        let b2: u32 = stream_bit(ix, iy, precision, 5 * k + 2);
        let b3: u32 = stream_bit(ix, iy, precision, 5 * k + 3);
        let b4: u32 = stream_bit(ix, iy, precision, 5 * k + 4);
        let d: u32 = 16 * b0 + 8 * b1 + 4 * b2 + 2 * b3 + b4;
        proof {
            assert(d as int == spec_digit(ix, iy, precision as int, k as int));
        }
        r.push(base32_char(d));
        k = k + 1;
    }
    proof {
        assert(r@ =~= spec_geocode(ix, iy, precision as int));
    }
    r
}

/// A longitude bound, scaled by `2^(lon_bits + 1)` so that cell centers
/// become integers: the center of column `ix` is
/// `-180_000_000 + (2 * ix + 1) * 360_000_000 / 2^(lon_bits + 1)`
/// microdegrees, so `center >= lon` exactly when
/// `spec_lon_center_scaled(ix) >= spec_lon_scaled(lon, p)`.
pub open spec fn spec_lon_scaled(lon: int, p: int) -> int {
    (lon + 180_000_000) * pow2(spec_lon_bits(p) + 1)
}

/// A column's center longitude, under the same scale.
pub open spec fn spec_lon_center_scaled(ix: int) -> int {
    (2 * ix + 1) * 360_000_000
}

/// A latitude bound, scaled by `2^(lat_bits + 1)`; the center of row `iy`
/// is `-90_000_000 + (2 * iy + 1) * 180_000_000 / 2^(lat_bits + 1)`
/// microdegrees.
pub open spec fn spec_lat_scaled(lat: int, p: int) -> int {
    (lat + 90_000_000) * pow2(spec_lat_bits(p) + 1)
}

/// A row's center latitude, under the same scale.
pub open spec fn spec_lat_center_scaled(iy: int) -> int {
    (2 * iy + 1) * 180_000_000
}

/// The first column whose center longitude is at or beyond `min_lon`.
pub open spec fn spec_lon_ix_lo(min_lon: int, p: int) -> int {
    let t = spec_lon_scaled(min_lon, p);
    let q = t / 720_000_000;
    if spec_lon_center_scaled(q) >= t {
        q
    } else {
        q + 1
    }
}

/// The last column whose center longitude is at or before `max_lon`.
pub open spec fn spec_lon_ix_hi(max_lon: int, p: int) -> int {
    let t = spec_lon_scaled(max_lon, p);
    let q = t / 720_000_000;
    if spec_lon_center_scaled(q) <= t {
        q
    } else {
        q - 1
    }
}

/// The first row whose center latitude is at or beyond `min_lat`.
pub open spec fn spec_lat_iy_lo(min_lat: int, p: int) -> int {
    let t = spec_lat_scaled(min_lat, p);
    let q = t / 360_000_000;
    if spec_lat_center_scaled(q) >= t {
        q
    } else {
        q + 1
    }
}

/// The last row whose center latitude is at or before `max_lat`.
pub open spec fn spec_lat_iy_hi(max_lat: int, p: int) -> int {
    let t = spec_lat_scaled(max_lat, p);
    let q = t / 360_000_000;
    if spec_lat_center_scaled(q) <= t {
        q
    } else {
        q - 1
    }
}

/// A column's center longitude clears the minimum bound exactly when the
/// column is at or beyond the first column.
pub proof fn lemma_lon_lo_exact(min_lon: int, p: int, ix: int)
    requires
        min_lon + 180_000_000 >= 0,
    ensures
        ix >= spec_lon_ix_lo(min_lon, p) <==> spec_lon_center_scaled(ix) >= spec_lon_scaled(min_lon, p),
{
    let t = spec_lon_scaled(min_lon, p);
    assert(t >= 0) by {
        vstd::arithmetic::mul::lemma_mul_nonnegative(min_lon + 180_000_000, pow2(spec_lon_bits(p) + 1) as int);
    }
    let q = t / 720_000_000;
    vstd::arithmetic::div_mod::lemma_fundamental_div_mod(t, 720_000_000);
    vstd::arithmetic::div_mod::lemma_mod_bound(t, 720_000_000);
}

/// A column's center longitude stays within the maximum bound exactly
/// when the column is at or before the last column.
pub proof fn lemma_lon_hi_exact(max_lon: int, p: int, ix: int)
    requires
        max_lon + 180_000_000 >= 0,
    ensures
        ix <= spec_lon_ix_hi(max_lon, p) <==> spec_lon_center_scaled(ix) <= spec_lon_scaled(max_lon, p),
{
    let t = spec_lon_scaled(max_lon, p);
    assert(t >= 0) by {
        vstd::arithmetic::mul::lemma_mul_nonnegative(max_lon + 180_000_000, pow2(spec_lon_bits(p) + 1) as int);
    }
    let q = t / 720_000_000;
    vstd::arithmetic::div_mod::lemma_fundamental_div_mod(t, 720_000_000);
    vstd::arithmetic::div_mod::lemma_mod_bound(t, 720_000_000);
}

/// A row's center latitude clears the minimum bound exactly when the row
/// is at or beyond the first row.
pub proof fn lemma_lat_lo_exact(min_lat: int, p: int, iy: int)
    requires
        min_lat + 90_000_000 >= 0,
    ensures
        iy >= spec_lat_iy_lo(min_lat, p) <==> spec_lat_center_scaled(iy) >= spec_lat_scaled(min_lat, p),
{
    let t = spec_lat_scaled(min_lat, p);
    assert(t >= 0) by {
        vstd::arithmetic::mul::lemma_mul_nonnegative(min_lat + 90_000_000, pow2(spec_lat_bits(p) + 1) as int);
    }
    let q = t / 360_000_000;
    vstd::arithmetic::div_mod::lemma_fundamental_div_mod(t, 360_000_000);
    vstd::arithmetic::div_mod::lemma_mod_bound(t, 360_000_000);
}

/// A row's center latitude stays within the maximum bound exactly when
/// the row is at or before the last row.
pub proof fn lemma_lat_hi_exact(max_lat: int, p: int, iy: int)
    requires
        max_lat + 90_000_000 >= 0,
    ensures
        iy <= spec_lat_iy_hi(max_lat, p) <==> spec_lat_center_scaled(iy) <= spec_lat_scaled(max_lat, p),
{
    let t = spec_lat_scaled(max_lat, p);
    assert(t >= 0) by {
        vstd::arithmetic::mul::lemma_mul_nonnegative(max_lat + 90_000_000, pow2(spec_lat_bits(p) + 1) as int);
    }
    let q = t / 360_000_000;
    vstd::arithmetic::div_mod::lemma_fundamental_div_mod(t, 360_000_000);
    vstd::arithmetic::div_mod::lemma_mod_bound(t, 360_000_000);
}

/// A cell is produced by the partitioner exactly when its center lies
/// within the box on both axes; with the partitioner's contract, this
/// says the produced windows are exactly the cells whose centers fall in
/// the box, contiguous and without overlap.
pub proof fn lemma_cell_in_box_exact(b: BoundingBox, p: int, ix: int, iy: int)
    requires
        spec_bbox_valid(b),
    ensures
        (spec_lon_ix_lo(b.min_lon as int, p) <= ix <= spec_lon_ix_hi(b.max_lon as int, p)
            && spec_lat_iy_lo(b.min_lat as int, p) <= iy <= spec_lat_iy_hi(b.max_lat as int, p)) <==> (
        spec_lon_scaled(b.min_lon as int, p) <= spec_lon_center_scaled(ix) <= spec_lon_scaled(
            b.max_lon as int,
            p,
        ) && spec_lat_scaled(b.min_lat as int, p) <= spec_lat_center_scaled(iy) <= spec_lat_scaled(
            b.max_lat as int,
            p,
        )),
{
    lemma_lon_lo_exact(b.min_lon as int, p, ix);
    lemma_lon_hi_exact(b.max_lon as int, p, ix);
    lemma_lat_lo_exact(b.min_lat as int, p, iy);
    lemma_lat_hi_exact(b.max_lat as int, p, iy);
}

/// Two distinct positions of a row-major enumeration name two distinct
/// cells: the produced windows never overlap.
pub proof fn lemma_row_major_distinct(cx: int, k1: int, k2: int)
    requires
        cx > 0,
        0 <= k1 < k2,
    ensures
        !(k1 % cx == k2 % cx && k1 / cx == k2 / cx),
{
    vstd::arithmetic::div_mod::lemma_fundamental_div_mod(k1, cx);
    vstd::arithmetic::div_mod::lemma_fundamental_div_mod(k2, cx);
}

/// The last column lies inside the grid.
proof fn lemma_lon_hi_bound(max_lon: int, p: int)
    requires
        -180_000_000 <= max_lon <= 180_000_000,
    ensures
        spec_lon_ix_hi(max_lon, p) < pow2(spec_lon_bits(p)),
{
    let n = spec_lon_bits(p);
    let t = spec_lon_scaled(max_lon, p);
    vstd::arithmetic::power2::lemma_pow2_adds(n, 1);
    vstd::arithmetic::power2::lemma_pow2_pos(n);
    assert(pow2(1) == 2) by {
        vstd::arithmetic::power2::lemma2_to64();
    }
    assert(t <= 720_000_000 * pow2(n)) by (nonlinear_arith)
        requires
            t == (max_lon + 180_000_000) * pow2(n + 1),
            max_lon + 180_000_000 <= 360_000_000,
            pow2(n + 1) == pow2(n) * 2,
            pow2(n) >= 1,
    ;
    let q = t / 720_000_000;
    vstd::arithmetic::div_mod::lemma_fundamental_div_mod(t, 720_000_000);
    vstd::arithmetic::div_mod::lemma_mod_bound(t, 720_000_000);
    assert(720_000_000 * q <= t);
    assert(q <= pow2(n));
}

/// The last row lies inside the grid.
proof fn lemma_lat_hi_bound(max_lat: int, p: int)
    requires
        -90_000_000 <= max_lat <= 90_000_000,
    ensures
        spec_lat_iy_hi(max_lat, p) < pow2(spec_lat_bits(p)),
{
    let n = spec_lat_bits(p);
    let t = spec_lat_scaled(max_lat, p);
    vstd::arithmetic::power2::lemma_pow2_adds(n, 1);
    vstd::arithmetic::power2::lemma_pow2_pos(n);
    assert(pow2(1) == 2) by {
        vstd::arithmetic::power2::lemma2_to64();
    }
    assert(t <= 360_000_000 * pow2(n)) by (nonlinear_arith)
        requires
            t == (max_lat + 90_000_000) * pow2(n + 1),
            max_lat + 90_000_000 <= 180_000_000,
            pow2(n + 1) == pow2(n) * 2,
            pow2(n) >= 1,
    ;
    let q = t / 360_000_000;
    vstd::arithmetic::div_mod::lemma_fundamental_div_mod(t, 360_000_000);
    vstd::arithmetic::div_mod::lemma_mod_bound(t, 360_000_000);
    assert(360_000_000 * q <= t);
    assert(q <= pow2(n));
}

/// The first column whose center longitude is at or beyond `min_lon`.
fn lon_ix_lo(min_lon: i64, precision: u8) -> (r: i64)
    requires
        spec_valid_precision(precision as int),
        -180_000_000 <= min_lon <= 180_000_000,
    ensures
        r as int == spec_lon_ix_lo(min_lon as int, precision as int),
        0 <= r <= 0x1_0000_0000,
{
    let t: u64 = lon_scaled(min_lon, precision);
    let q: u64 = t / 720_000_000;
    if q * 720_000_000 + 360_000_000 >= t {
        q as i64
    } else {
        q as i64 + 1
    }
}

/// The last column whose center longitude is at or before `max_lon`.
fn lon_ix_hi(max_lon: i64, precision: u8) -> (r: i64)
    requires
        spec_valid_precision(precision as int),
        -180_000_000 <= max_lon <= 180_000_000,
    ensures
        r as int == spec_lon_ix_hi(max_lon as int, precision as int),
        -1 <= r <= 0x1_0000_0000,
{
    let t: u64 = lon_scaled(max_lon, precision);
    let q: u64 = t / 720_000_000;
    if q * 720_000_000 + 360_000_000 <= t {
        q as i64
    } else {
        q as i64 - 1
    }
}

/// The first row whose center latitude is at or beyond `min_lat`.
fn lat_iy_lo(min_lat: i64, precision: u8) -> (r: i64)
    requires
        spec_valid_precision(precision as int),
        -90_000_000 <= min_lat <= 90_000_000,
    ensures
        r as int == spec_lat_iy_lo(min_lat as int, precision as int),
        0 <= r <= 0x1_0000_0000,
{
    let t: u64 = lat_scaled(min_lat, precision);
    let q: u64 = t / 360_000_000;
    if q * 360_000_000 + 180_000_000 >= t {
        q as i64
    } else {
        q as i64 + 1
    }
}

/// The last row whose center latitude is at or before `max_lat`.
fn lat_iy_hi(max_lat: i64, precision: u8) -> (r: i64)
    requires
        spec_valid_precision(precision as int),
        -90_000_000 <= max_lat <= 90_000_000,
    ensures
        r as int == spec_lat_iy_hi(max_lat as int, precision as int),
        -1 <= r <= 0x1_0000_0000,
{
    let t: u64 = lat_scaled(max_lat, precision);
    let q: u64 = t / 360_000_000;
    if q * 360_000_000 + 180_000_000 <= t {
        q as i64
    } else {
        q as i64 - 1
    }
}

/// A longitude bound under the grid scale.
fn lon_scaled(lon: i64, precision: u8) -> (r: u64)
    requires
        spec_valid_precision(precision as int),
        -180_000_000 <= lon <= 180_000_000,
    ensures
        r as int == spec_lon_scaled(lon as int, precision as int),
        r <= 0x8000_0000u64 * 360_000_000,
{
    let total: u64 = 5 * precision as u64;
    let shift: u64 = (total + 1) / 2 + 1;
    proof {
        assert(shift == spec_lon_bits(precision as int) + 1);
        assert(shift <= 31);
        vstd::bits::lemma_u64_pow2_no_overflow(shift as nat);
        vstd::bits::lemma_u64_shl_is_mul(1u64, shift);
        assert(pow2(shift as nat) <= pow2(31)) by {
            if (shift as nat) < 31 {
                vstd::arithmetic::power2::lemma_pow2_strictly_increases(shift as nat, 31);
            }
        }
        assert(pow2(31) == 0x8000_0000) by {
            vstd::arithmetic::power2::lemma2_to64();
        }
    }
    let m: u64 = 1u64 << shift;
    let a: u64 = (lon + 180_000_000) as u64;
    proof {
        assert(a * m <= 360_000_000 * 0x8000_0000u64) by (nonlinear_arith)
            requires
                0 <= a <= 360_000_000u64,
                0 <= m <= 0x8000_0000u64,
        ;
    }
    a * m
}

/// A latitude bound under the grid scale.
fn lat_scaled(lat: i64, precision: u8) -> (r: u64)
    requires
        spec_valid_precision(precision as int),
        -90_000_000 <= lat <= 90_000_000,
    ensures
        r as int == spec_lat_scaled(lat as int, precision as int),
        r <= 0x8000_0000u64 * 180_000_000,
{
    let total: u64 = 5 * precision as u64;
    let shift: u64 = total / 2 + 1;
    proof {
        assert(shift == spec_lat_bits(precision as int) + 1);
        assert(shift <= 31);
        vstd::bits::lemma_u64_pow2_no_overflow(shift as nat);
        vstd::bits::lemma_u64_shl_is_mul(1u64, shift);
        assert(pow2(shift as nat) <= pow2(31)) by {
            if (shift as nat) < 31 {
                vstd::arithmetic::power2::lemma_pow2_strictly_increases(shift as nat, 31);
            }
        }
        assert(pow2(31) == 0x8000_0000) by {
            vstd::arithmetic::power2::lemma2_to64();
        }
    }
    let m: u64 = 1u64 << shift;
    let a: u64 = (lat + 90_000_000) as u64;
    proof {
        assert(a * m <= 180_000_000 * 0x8000_0000u64) by (nonlinear_arith)
            requires
                0 <= a <= 180_000_000u64,
                0 <= m <= 0x8000_0000u64,
        ;
    }
    a * m
}

/// What the partitioner produces over a valid box: one window per cell
/// of the rectangle of grid cells whose centers fall in the box, row-major
/// (north by row, east by column within a row), each carrying its
/// geocode.
pub open spec fn spec_partition_post(b: BoundingBox, precision: u8, ws: Seq<WindowModel>) -> bool {
    let p = precision as int;
    let lo_x = spec_lon_ix_lo(b.min_lon as int, p);
    let hi_x = spec_lon_ix_hi(b.max_lon as int, p);
    let lo_y = spec_lat_iy_lo(b.min_lat as int, p);
    let hi_y = spec_lat_iy_hi(b.max_lat as int, p);
    let cx = if hi_x >= lo_x {
        hi_x - lo_x + 1
    } else {
        0
    };
    let cy = if hi_y >= lo_y {
        hi_y - lo_y + 1
    } else {
        0
    };
    &&& ws.len() == cx * cy
    &&& forall|k: int| 0 <= k < ws.len() ==> {
        let w = #[trigger] ws[k];
        &&& w.precision == precision
        &&& w.ix as int == lo_x + k % cx
        &&& w.iy as int == lo_y + k / cx
        &&& w.geocode == spec_geocode(w.ix, w.iy, p)
    }
}

/// Divide a bounding box into geohash cells at the given precision.
///
/// Produces every cell whose center lies within (or on the boundary of)
/// the box, row-major: north by row, then east by column within a row.
/// Each window carries its geocode, the geohash of its center. Fails
/// with `InvalidBounds` exactly when the box is empty on an axis or
/// outside the world range. The result is a function of the inputs
/// alone, so a re-run over the same box yields the same sequence
/// (`lemma_partition_deterministic`).
pub fn partition(bbox: &BoundingBox, precision: u8) -> (r: Result<Vec<GeoWindow>, StitchError>)
    requires
        spec_valid_precision(precision as int),
    ensures
        match r {
            Ok(ws) => spec_bbox_valid(*bbox) && spec_partition_post(*bbox, precision, ws.deep_view()),
            Err(e) => e is InvalidBounds && !spec_bbox_valid(*bbox),
        },
{
    if !(bbox.min_lon < bbox.max_lon && bbox.min_lat < bbox.max_lat && -180_000_000
        <= bbox.min_lon && bbox.max_lon <= 180_000_000 && -90_000_000 <= bbox.min_lat
        && bbox.max_lat <= 90_000_000) {
        return Err(StitchError::InvalidBounds);
    }
    let lo_x: i64 = lon_ix_lo(bbox.min_lon, precision);
    let hi_x: i64 = lon_ix_hi(bbox.max_lon, precision);
    let lo_y: i64 = lat_iy_lo(bbox.min_lat, precision);
    let hi_y: i64 = lat_iy_hi(bbox.max_lat, precision);
    let mut ws: Vec<GeoWindow> = Vec::new();
    if hi_x < lo_x || hi_y < lo_y {
        proof {
            assert(ws.deep_view() =~= Seq::<WindowModel>::empty());
        }
        return Ok(ws);
    }
    proof {
        lemma_lon_hi_bound(bbox.max_lon as int, precision as int);
        lemma_lat_hi_bound(bbox.max_lat as int, precision as int);
        assert(pow2(spec_lon_bits(precision as int)) <= pow2(30)) by {
            if spec_lon_bits(precision as int) < 30 {
                vstd::arithmetic::power2::lemma_pow2_strictly_increases(
                    spec_lon_bits(precision as int),
                    30,
                );
            }
        }
        assert(pow2(spec_lat_bits(precision as int)) <= pow2(30)) by {
            if spec_lat_bits(precision as int) < 30 {
                vstd::arithmetic::power2::lemma_pow2_strictly_increases(
                    spec_lat_bits(precision as int),
                    30,
                );
            }
        }
        assert(pow2(30) == 0x4000_0000) by {
            vstd::arithmetic::power2::lemma2_to64();
        }
    }
    let cx: i64 = hi_x - lo_x + 1;
    let ghost cxg: int = cx as int;
    let mut iy: i64 = lo_y;
    while iy <= hi_y
        invariant
            spec_valid_precision(precision as int),
            lo_x == spec_lon_ix_lo(bbox.min_lon as int, precision as int),
            hi_x == spec_lon_ix_hi(bbox.max_lon as int, precision as int),
            lo_y == spec_lat_iy_lo(bbox.min_lat as int, precision as int),
            hi_y == spec_lat_iy_hi(bbox.max_lat as int, precision as int),
            0 <= lo_x <= hi_x < 0x4000_0000,
            0 <= lo_y <= hi_y < 0x4000_0000,
            cx == hi_x - lo_x + 1,
            cxg == cx as int,
            lo_y <= iy <= hi_y + 1,
            ws.deep_view().len() == (iy - lo_y) * cxg,
            forall|k: int| 0 <= k < ws.deep_view().len() ==> {
                let w = #[trigger] ws.deep_view()[k];
                &&& w.precision == precision
                &&& w.ix as int == lo_x + k % cxg
                &&& w.iy as int == lo_y + k / cxg
                &&& w.geocode == spec_geocode(w.ix, w.iy, precision as int)
            },
        decreases hi_y + 1 - iy,
    {
        let mut ix: i64 = lo_x;
        while ix <= hi_x
            invariant
                spec_valid_precision(precision as int),
                0 <= lo_x <= hi_x < 0x4000_0000,
                0 <= lo_y <= hi_y < 0x4000_0000,
                cx == hi_x - lo_x + 1,
                cxg == cx as int,
                lo_y <= iy <= hi_y,
                lo_x <= ix <= hi_x + 1,
                ws.deep_view().len() == (iy - lo_y) * cxg + (ix - lo_x),
                forall|k: int| 0 <= k < ws.deep_view().len() ==> {
                    let w = #[trigger] ws.deep_view()[k];
                    &&& w.precision == precision
                    &&& w.ix as int == lo_x + k % cxg
                    &&& w.iy as int == lo_y + k / cxg
                    &&& w.geocode == spec_geocode(w.ix, w.iy, precision as int)
                },
            decreases hi_x + 1 - ix,
        {
            proof {
                assert((iy - lo_y) * cxg >= 0) by (nonlinear_arith)
                    requires
                        iy - lo_y >= 0,
                        cxg > 0,
                ;
                assert((iy - lo_y) * cxg <= (hi_y - lo_y) * cxg) by (nonlinear_arith)
                    requires
                        iy - lo_y <= hi_y - lo_y,
                        cxg > 0,
                ;
            }
            let geocode = encode_geohash(ix as u32, iy as u32, precision);
            let w = GeoWindow { ix: ix as u32, iy: iy as u32, precision, geocode };
            let ghost ws0: Seq<WindowModel> = ws.deep_view();
            let ghost k: int = ws.deep_view().len() as int;
            ws.push(w);
            proof {
                vstd::arithmetic::div_mod::lemma_fundamental_div_mod_converse(
                    k,
                    cxg,
                    iy - lo_y,
                    ix - lo_x,
                );
                assert(ws.deep_view().len() == k + 1);
                assert(ws.deep_view()[k] == w@);
                assert(forall|k2: int| 0 <= k2 < k ==> #[trigger] ws.deep_view()[k2] == ws0[k2]);
            }
            ix = ix + 1;
        }
        proof {
            assert((iy - lo_y) * cxg + cxg == (iy + 1 - lo_y) * cxg) by (nonlinear_arith);
        }
        iy = iy + 1;
    }
    proof {
        assert((hi_y + 1 - lo_y) * cxg == cxg * (hi_y + 1 - lo_y)) by (nonlinear_arith);
    }
    Ok(ws)
}

/// A produced window's cell indices lie in the produced rectangle.
proof fn lemma_post_window_in_rectangle(b: BoundingBox, precision: u8, ws: Seq<WindowModel>, k: int)
    requires
        spec_partition_post(b, precision, ws),
        0 <= k < ws.len(),
    ensures
        spec_lon_ix_lo(b.min_lon as int, precision as int) <= ws[k].ix as int <= spec_lon_ix_hi(
            b.max_lon as int,
            precision as int,
        ),
        spec_lat_iy_lo(b.min_lat as int, precision as int) <= ws[k].iy as int <= spec_lat_iy_hi(
            b.max_lat as int,
            precision as int,
        ),
{
    let p = precision as int;
    let lo_x = spec_lon_ix_lo(b.min_lon as int, p);
    let hi_x = spec_lon_ix_hi(b.max_lon as int, p);
    let lo_y = spec_lat_iy_lo(b.min_lat as int, p);
    let hi_y = spec_lat_iy_hi(b.max_lat as int, p);
    let cx = if hi_x >= lo_x {
        hi_x - lo_x + 1
    } else {
        0
    };
    let cy = if hi_y >= lo_y {
        hi_y - lo_y + 1
    } else {
        0
    };
    assert(cx >= 1 && cy >= 1) by (nonlinear_arith)
        requires
            cx * cy > k >= 0,
            cx >= 0,
            cy >= 0,
    ;
    vstd::arithmetic::div_mod::lemma_fundamental_div_mod(k, cx);
    vstd::arithmetic::div_mod::lemma_mod_bound(k, cx);
    let q = k / cx;
    assert(q >= 0 && q < cy) by (nonlinear_arith)
        requires
            0 <= k < cx * cy,
            cx >= 1,
            k == cx * q + k % cx,
            0 <= k % cx < cx,
    ;
}

/// Every produced window's center lies within the box on each axis, under
/// the grid scale that makes centers integers.
pub proof fn lemma_partition_centers_in_box(
    b: BoundingBox,
    precision: u8,
    ws: Seq<WindowModel>,
    k: int,
)
    requires
        spec_bbox_valid(b),
        spec_partition_post(b, precision, ws),
        0 <= k < ws.len(),
    ensures
        spec_lon_scaled(b.min_lon as int, precision as int) <= spec_lon_center_scaled(
            ws[k].ix as int,
        ) <= spec_lon_scaled(b.max_lon as int, precision as int),
        spec_lat_scaled(b.min_lat as int, precision as int) <= spec_lat_center_scaled(
            ws[k].iy as int,
        ) <= spec_lat_scaled(b.max_lat as int, precision as int),
{
    lemma_post_window_in_rectangle(b, precision, ws, k);
    lemma_cell_in_box_exact(b, precision as int, ws[k].ix as int, ws[k].iy as int);
}

/// Two produced windows never name the same cell: the partition is
/// non-overlapping.
pub proof fn lemma_partition_disjoint(
    b: BoundingBox,
    precision: u8,
    ws: Seq<WindowModel>,
    k1: int,
    k2: int,
)
    requires
        spec_partition_post(b, precision, ws),
        0 <= k1 < k2 < ws.len(),
    ensures
        ws[k1].ix != ws[k2].ix || ws[k1].iy != ws[k2].iy,
{
    let p = precision as int;
    let lo_x = spec_lon_ix_lo(b.min_lon as int, p);
    let hi_x = spec_lon_ix_hi(b.max_lon as int, p);
    let cx = if hi_x >= lo_x {
        hi_x - lo_x + 1
    } else {
        0
    };
    let cy = {
        let lo_y = spec_lat_iy_lo(b.min_lat as int, p);
        let hi_y = spec_lat_iy_hi(b.max_lat as int, p);
        if hi_y >= lo_y {
            hi_y - lo_y + 1
        } else {
            0
        }
    };
    assert(cx >= 1) by (nonlinear_arith)
        requires
            cx * cy > k1 >= 0,
            cx >= 0,
            cy >= 0,
    ;
    lemma_row_major_distinct(cx, k1, k2);
}

/// The geohash alphabet is injective over the 32 digits.
proof fn lemma_base32_injective(d1: int, d2: int)
    requires
        0 <= d1 < 32,
        0 <= d2 < 32,
        spec_base32_char(d1) == spec_base32_char(d2),
    ensures
        d1 == d2,
{
}

/// A value below `2^n` is determined by its low `n` bits.
proof fn lemma_bits_determine(x1: u32, x2: u32, n: nat)
    requires
        x1 < pow2(n),
        x2 < pow2(n),
        forall|j: int| 0 <= j < n ==> #[trigger] spec_bit_of(x1, j) == spec_bit_of(x2, j),
    ensures
        x1 == x2,
    decreases n,
{
    vstd::arithmetic::power2::lemma2_to64();
    if n == 0 {
        assert(pow2(0) == 1);
    } else {
        let xi1 = x1 as int;
        let xi2 = x2 as int;
        let half = pow2((n - 1) as nat) as int;
        assert(pow2(n) == 2 * half) by {
            vstd::arithmetic::power2::lemma_pow2_adds(1, (n - 1) as nat);
        }
        vstd::arithmetic::power2::lemma_pow2_pos((n - 1) as nat);
        let y1: u32 = (xi1 / 2) as u32;
        let y2: u32 = (xi2 / 2) as u32;
        assert(y1 < half && y2 < half) by {
            vstd::arithmetic::div_mod::lemma_fundamental_div_mod_converse(
                2 * half - 1,
                2,
                half - 1,
                1,
            );
            vstd::arithmetic::div_mod::lemma_div_is_ordered(xi1, 2 * half - 1, 2);
            vstd::arithmetic::div_mod::lemma_div_is_ordered(xi2, 2 * half - 1, 2);
        }
        assert forall|j: int| 0 <= j < n - 1 implies #[trigger] spec_bit_of(y1, j) == spec_bit_of(
            y2,
            j,
        ) by {
            assert(spec_bit_of(x1, j + 1) == spec_bit_of(x2, j + 1));
            assert(pow2((j + 1) as nat) == 2 * pow2(j as nat)) by {
                vstd::arithmetic::power2::lemma_pow2_adds(1, j as nat);
            }
            vstd::arithmetic::power2::lemma_pow2_pos(j as nat);
            vstd::arithmetic::div_mod::lemma_div_denominator(xi1, 2, pow2(j as nat) as int);
            vstd::arithmetic::div_mod::lemma_div_denominator(xi2, 2, pow2(j as nat) as int);
        }
        lemma_bits_determine(y1, y2, (n - 1) as nat);
        assert(y1 as int == xi1 / 2);
        assert(y2 as int == xi2 / 2);
        assert(spec_bit_of(x1, 0) == spec_bit_of(x2, 0));
        assert(pow2(0) == 1);
        assert(xi1 / 1 == xi1);
        assert(xi2 / 1 == xi2);
        assert(xi1 % 2 == xi2 % 2);
        vstd::arithmetic::div_mod::lemma_fundamental_div_mod(xi1, 2);
        vstd::arithmetic::div_mod::lemma_fundamental_div_mod(xi2, 2);
    }
}

/// A stream bit is zero or one.
proof fn lemma_stream_bit_range(ix: u32, iy: u32, p: int, j: int)
    ensures
        0 <= spec_stream_bit(ix, iy, p, j) <= 1,
{
}

/// A geohash digit names one of the 32 alphabet characters.
proof fn lemma_digit_range(ix: u32, iy: u32, p: int, k: int)
    ensures
        0 <= spec_digit(ix, iy, p, k) < 32,
{
    lemma_stream_bit_range(ix, iy, p, 5 * k);
    lemma_stream_bit_range(ix, iy, p, 5 * k + 1);
    lemma_stream_bit_range(ix, iy, p, 5 * k + 2);
    lemma_stream_bit_range(ix, iy, p, 5 * k + 3);
    lemma_stream_bit_range(ix, iy, p, 5 * k + 4);
}

/// Two distinct cells of the same precision have distinct geocodes: the
/// geohash encoding is injective over the grid.
#[verifier::rlimit(60)]
pub proof fn lemma_geocode_injective(ix1: u32, iy1: u32, ix2: u32, iy2: u32, p: int)
    requires
        spec_valid_precision(p),
        ix1 < pow2(spec_lon_bits(p)),
        ix2 < pow2(spec_lon_bits(p)),
        iy1 < pow2(spec_lat_bits(p)),
        iy2 < pow2(spec_lat_bits(p)),
        spec_geocode(ix1, iy1, p) == spec_geocode(ix2, iy2, p),
    ensures
        ix1 == ix2,
        iy1 == iy2,
{
    let lb = spec_lon_bits(p);
    let lt = spec_lat_bits(p);
    assert forall|k: int| 0 <= k < p implies #[trigger] spec_digit(ix1, iy1, p, k) == spec_digit(
        ix2,
        iy2,
        p,
        k,
    ) by {
        assert(spec_geocode(ix1, iy1, p)[k] == spec_geocode(ix2, iy2, p)[k]);
        assert(spec_geocode(ix1, iy1, p)[k] == spec_base32_char(spec_digit(ix1, iy1, p, k)));
        assert(spec_geocode(ix2, iy2, p)[k] == spec_base32_char(spec_digit(ix2, iy2, p, k)));
        lemma_digit_range(ix1, iy1, p, k);
        lemma_digit_range(ix2, iy2, p, k);
        lemma_base32_injective(spec_digit(ix1, iy1, p, k), spec_digit(ix2, iy2, p, k));
    }
    assert forall|j: int| 0 <= j < 5 * p implies #[trigger] spec_stream_bit(ix1, iy1, p, j)
        == spec_stream_bit(ix2, iy2, p, j) by {
        let k = j / 5;
        let m = j % 5;
        vstd::arithmetic::div_mod::lemma_fundamental_div_mod(j, 5);
        vstd::arithmetic::div_mod::lemma_mod_bound(j, 5);
        assert(0 <= k < p) by {
            vstd::arithmetic::div_mod::lemma_div_is_ordered(0, j, 5);
            if k >= p {
                assert(j >= 5 * p);
            }
        }
        assert(spec_digit(ix1, iy1, p, k) == spec_digit(ix2, iy2, p, k));
    }
    assert forall|n: int| 0 <= n < lb implies #[trigger] spec_bit_of(ix1, n) == spec_bit_of(
        ix2,
        n,
    ) by {
        let j = 2 * (lb - 1 - n);
        assert(0 <= j < 5 * p);
        assert(spec_stream_bit(ix1, iy1, p, j) == spec_stream_bit(ix2, iy2, p, j));
        assert(j % 2 == 0 && j / 2 == lb - 1 - n);
    }
    assert forall|n: int| 0 <= n < lt implies #[trigger] spec_bit_of(iy1, n) == spec_bit_of(
        iy2,
        n,
    ) by {
        let j = 2 * (lt - 1 - n) + 1;
        assert(0 <= j < 5 * p);
        assert(spec_stream_bit(ix1, iy1, p, j) == spec_stream_bit(ix2, iy2, p, j));
        assert(j % 2 == 1 && (j - 1) / 2 == lt - 1 - n);
    }
    lemma_bits_determine(ix1, ix2, lb);
    lemma_bits_determine(iy1, iy2, lt);
}

/// Two produced windows carry distinct geocodes: a cell's geocode names
/// it uniquely, so a result collection keyed by geocode holds at most
/// one entry per produced window.
pub proof fn lemma_partition_geocodes_distinct(
    b: BoundingBox,
    precision: u8,
    ws: Seq<WindowModel>,
    k1: int,
    k2: int,
)
    requires
        spec_bbox_valid(b),
        spec_valid_precision(precision as int),
        spec_partition_post(b, precision, ws),
        0 <= k1 < k2 < ws.len(),
    ensures
        ws[k1].geocode != ws[k2].geocode,
{
    let p = precision as int;
    lemma_partition_disjoint(b, precision, ws, k1, k2);
    lemma_post_window_in_rectangle(b, precision, ws, k1);
    lemma_post_window_in_rectangle(b, precision, ws, k2);
    lemma_lon_hi_bound(b.max_lon as int, p);
    lemma_lat_hi_bound(b.max_lat as int, p);
    if ws[k1].geocode == ws[k2].geocode {
        lemma_geocode_injective(ws[k1].ix, ws[k1].iy, ws[k2].ix, ws[k2].iy, p);
        assert(false);
    }
}

/// The partition is a function of the box and the precision alone: any
/// two produced sequences over the same inputs are equal, so a re-run
/// yields an identical ordered sequence.
pub proof fn lemma_partition_deterministic(
    b: BoundingBox,
    precision: u8,
    ws1: Seq<WindowModel>,
    ws2: Seq<WindowModel>,
)
    requires
        spec_partition_post(b, precision, ws1),
        spec_partition_post(b, precision, ws2),
    ensures
        ws1 == ws2,
{
    assert(ws1.len() == ws2.len());
    assert forall|k: int| 0 <= k < ws1.len() implies ws1[k] == ws2[k] by {
        assert(ws1[k].ix as int == ws2[k].ix as int);
        assert(ws1[k].iy as int == ws2[k].iy as int);
        assert(ws1[k].ix == ws2[k].ix);
        assert(ws1[k].iy == ws2[k].iy);
        assert(ws1[k].geocode == ws2[k].geocode);
        assert(ws1[k].precision == ws2[k].precision);
    }
    assert(ws1 =~= ws2);
}

} // verus!
