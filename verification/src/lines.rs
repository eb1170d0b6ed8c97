//! The beam line buffer: endpoints of every unbroken beam, grouped by stress
//! band, for a renderer that draws one coloured segment per band.
//!
//! The stress band of a beam (0 = relaxed .. 3 = near breaking) is measured on
//! floating-point node positions by the caller. Given the bands, `fill_lines`
//! is a stable counting sort: it counts the unbroken beams of each band, gives
//! each band a contiguous region in that order, and writes every unbroken
//! beam's endpoint pair, as global node numbers, into its band's region, cars
//! and beams in their own order.

use vstd::prelude::*;
use crate::layout::STRESS_BANDS;
use crate::structure::Beams;

verus! {

/// The endpoint pairs, shifted by `off`, of beams `0 .. i` that are unbroken
/// and in band `k`.
pub open spec fn car_lines(
    a: Seq<u32>,
    b: Seq<u32>,
    broken: Seq<bool>,
    band: Seq<usize>,
    off: int,
    k: int,
    i: int,
) -> Seq<u32>
    decreases i,
{
    if i <= 0 {
        seq![]
    } else {
        car_lines(a, b, broken, band, off, k, i - 1) + if !broken[i - 1] && band[i - 1] == k {
            seq![(a[i - 1] + off) as u32, (b[i - 1] + off) as u32]
        } else {
            seq![]
        }
    }
}

/// Band `k`'s lines of all beams of car `c`.
pub open spec fn car_band<S>(
    cars: Seq<&Beams<S>>,
    offsets: Seq<usize>,
    bands: Seq<Vec<usize>>,
    k: int,
    c: int,
    i: int,
) -> Seq<u32> {
    car_lines(cars[c].a@, cars[c].b@, cars[c].broken@, bands[c]@, offsets[c] as int, k, i)
}

/// Band `k`'s lines of cars `0 .. c`, car by car.
pub open spec fn band_lines<S>(
    cars: Seq<&Beams<S>>,
    offsets: Seq<usize>,
    bands: Seq<Vec<usize>>,
    k: int,
    c: int,
) -> Seq<u32>
    decreases c,
{
    if c <= 0 {
        seq![]
    } else {
        band_lines(cars, offsets, bands, k, c - 1) + car_band(
            cars,
            offsets,
            bands,
            k,
            c - 1,
            cars[c - 1].a.len() as int,
        )
    }
}

/// The whole line list: band 0, then 1, 2 and 3.
pub open spec fn all_lines<S>(cars: Seq<&Beams<S>>, offsets: Seq<usize>, bands: Seq<Vec<usize>>) -> Seq<
    u32,
> {
    let n = cars.len() as int;
    band_lines(cars, offsets, bands, 0, n) + band_lines(cars, offsets, bands, 1, n) + band_lines(
        cars,
        offsets,
        bands,
        2,
        n,
    ) + band_lines(cars, offsets, bands, 3, n)
}

/// Beams of cars `0 .. c`.
pub open spec fn beam_total<S>(cars: Seq<&Beams<S>>, c: int) -> nat
    decreases c,
{
    if c <= 0 {
        0
    } else {
        beam_total(cars, c - 1) + cars[c - 1].a.len() as nat
    }
}

/// The inputs line up: one offset and one band list per car, one band per
/// beam, every band below 4, and every shifted endpoint fits in a `u32`.
pub open spec fn lines_input_ok<S>(
    cars: Seq<&Beams<S>>,
    offsets: Seq<usize>,
    bands: Seq<Vec<usize>>,
) -> bool {
    &&& offsets.len() == cars.len()
    &&& bands.len() == cars.len()
    &&& forall|c: int|
        0 <= c < cars.len() ==> {
            let car = #[trigger] cars[c];
            &&& car.b.len() == car.a.len()
            &&& car.broken.len() == car.a.len()
            &&& bands[c].len() == car.a.len()
        }
    &&& forall|c: int, i: int|
        0 <= c < cars.len() && 0 <= i < bands[c].len() ==> #[trigger] bands[c]@[i] < STRESS_BANDS
    &&& forall|c: int, i: int|
        0 <= c < cars.len() && 0 <= i < cars[c].a.len() ==> #[trigger] cars[c].a@[i] + offsets[c]
            <= u32::MAX && cars[c].b@[i] + offsets[c] <= u32::MAX
}

proof fn lemma_car_lines_mono(
    a: Seq<u32>,
    b: Seq<u32>,
    broken: Seq<bool>,
    band: Seq<usize>,
    off: int,
    k: int,
    i: int,
    j: int,
)
    requires
        0 <= i <= j,
    ensures
        car_lines(a, b, broken, band, off, k, i).len() <= car_lines(a, b, broken, band, off, k, j).len(),
    decreases j - i,
{
    if i < j {
        lemma_car_lines_mono(a, b, broken, band, off, k, i, j - 1);
    }
}

proof fn lemma_car_lines_sum(
    a: Seq<u32>,
    b: Seq<u32>,
    broken: Seq<bool>,
    band: Seq<usize>,
    off: int,
    i: int,
)
    requires
        0 <= i <= band.len(),
        forall|j: int| 0 <= j < band.len() ==> band[j] < STRESS_BANDS,
    ensures
        car_lines(a, b, broken, band, off, 0, i).len() + car_lines(a, b, broken, band, off, 1, i).len()
            + car_lines(a, b, broken, band, off, 2, i).len() + car_lines(a, b, broken, band, off, 3, i).len()
            <= 2 * i,
    decreases i,
{
    if i > 0 {
        lemma_car_lines_sum(a, b, broken, band, off, i - 1);
    }
}

proof fn lemma_band_lines_mono<S>(
    cars: Seq<&Beams<S>>,
    offsets: Seq<usize>,
    bands: Seq<Vec<usize>>,
    k: int,
    c: int,
    d: int,
)
    requires
        0 <= c <= d,
    ensures
        band_lines(cars, offsets, bands, k, c).len() <= band_lines(cars, offsets, bands, k, d).len(),
    decreases d - c,
{
    if c < d {
        lemma_band_lines_mono(cars, offsets, bands, k, c, d - 1);
    }
}

proof fn lemma_band_lines_sum<S>(
    cars: Seq<&Beams<S>>,
    offsets: Seq<usize>,
    bands: Seq<Vec<usize>>,
    c: int,
)
    requires
        lines_input_ok(cars, offsets, bands),
        0 <= c <= cars.len(),
    ensures
        band_lines(cars, offsets, bands, 0, c).len() + band_lines(cars, offsets, bands, 1, c).len()
            + band_lines(cars, offsets, bands, 2, c).len() + band_lines(cars, offsets, bands, 3, c).len()
            <= 2 * beam_total(cars, c),
    decreases c,
{
    if c > 0 {
        lemma_band_lines_sum(cars, offsets, bands, c - 1);
        let car = cars[c - 1];
        assert(bands[c - 1].len() == car.a.len());
        assert forall|j: int| 0 <= j < bands[c - 1]@.len() implies #[trigger] bands[c - 1]@[j] < STRESS_BANDS by {
            assert(bands[c - 1]@[j] < STRESS_BANDS);
        }
        lemma_car_lines_sum(
            car.a@,
            car.b@,
            car.broken@,
            bands[c - 1]@,
            offsets[c - 1] as int,
            car.a.len() as int,
        );
    }
}

/// Per-band sizes of the filled line buffer.
pub struct LineBands {
    /// Valid indices in the line buffer (two per unbroken beam).
    pub line_count: usize,
    /// Indices per band, in band order; they sum to `line_count`.
    pub bands: [usize; 4],
}

proof fn lemma_update_outside(s: Seq<u32>, lo: int, hi: int, p: int, v: u32)
    requires
        0 <= lo <= hi <= s.len(),
        0 <= p < s.len(),
        p < lo || p >= hi,
    ensures
        s.update(p, v).subrange(lo, hi) == s.subrange(lo, hi),
{
    assert(s.update(p, v).subrange(lo, hi) =~= s.subrange(lo, hi));
}

/// Fill `line_buf` with the endpoint pairs (global node numbers: local node
/// plus the car's node offset) of every unbroken beam, grouped by band
/// (band 0 first), and within a band car by car and beam by beam. Returns the
/// number of valid indices and the number in each band.
#[verifier::spinoff_prover]
#[verifier::rlimit(40)]
pub fn fill_lines<S>(
    line_buf: &mut Vec<u32>,
    cars: &Vec<&Beams<S>>,
    offsets: &Vec<usize>,
    bands: &Vec<Vec<usize>>,
) -> (r: LineBands)
    requires
        lines_input_ok(cars@, offsets@, bands@),
        2 * beam_total(cars@, cars.len() as int) <= old(line_buf).len(),
    ensures
        final(line_buf).len() == old(line_buf).len(),
        r.line_count == all_lines(cars@, offsets@, bands@).len(),
        final(line_buf)@.take(r.line_count as int) == all_lines(cars@, offsets@, bands@),
        forall|k: int|
            0 <= k < 4 ==> #[trigger] r.bands@[k] == band_lines(cars@, offsets@, bands@, k, cars.len() as int).len(),
        r.line_count == r.bands@[0] + r.bands@[1] + r.bands@[2] + r.bands@[3],
        forall|k: int| 0 <= k < 4 ==> #[trigger] r.bands@[k] == 2 * band_beam_count(cars@, bands@, k, cars.len() as int),
        forall|j: int| r.line_count <= j < final(line_buf).len() ==> final(line_buf)@[j] == old(line_buf)@[j],
{
    let n = cars.len();
    let ghost gn = n as int;
    let ghost (cs, os, bs) = (cars@, offsets@, bands@);
    proof {
        lemma_band_lines_sum(cs, os, bs, gn);
    }
    // Pass 1: count the unbroken beams of each band.
    let mut counts: Vec<usize> = Vec::new();
    counts.push(0);
    counts.push(0);
    counts.push(0);
    counts.push(0);
    let mut c: usize = 0;
    while c < n
        invariant
            n == cars.len(),
            gn == n,
            cs == cars@ && os == offsets@ && bs == bands@,
            lines_input_ok(cs, os, bs),
            c <= n,
            counts.len() == 4,
            forall|k: int| 0 <= k < 4 ==> 2 * #[trigger] counts@[k] == band_lines(cs, os, bs, k, c as int).len(),
            band_lines(cs, os, bs, 0, gn).len() + band_lines(cs, os, bs, 1, gn).len()
                + band_lines(cs, os, bs, 2, gn).len() + band_lines(cs, os, bs, 3, gn).len()
                <= 2 * beam_total(cs, gn),
            2 * beam_total(cs, gn) <= usize::MAX,
        decreases n - c,
    {
        let car = cars[c];
        let m = car.a.len();
        let mut i: usize = 0;
        proof {
            assert(cs[c as int] == car);
        }
        while i < m
            invariant
                n == cars.len(),
                gn == n,
                cs == cars@ && os == offsets@ && bs == bands@,
                lines_input_ok(cs, os, bs),
                c < n,
                car == cs[c as int],
                m == car.a.len(),
                i <= m,
                counts.len() == 4,
                forall|k: int|
                    0 <= k < 4 ==> 2 * #[trigger] counts@[k] == band_lines(cs, os, bs, k, c as int).len()
                        + car_band(cs, os, bs, k, c as int, i as int).len(),
                band_lines(cs, os, bs, 0, gn).len() + band_lines(cs, os, bs, 1, gn).len()
                    + band_lines(cs, os, bs, 2, gn).len() + band_lines(cs, os, bs, 3, gn).len()
                    <= 2 * beam_total(cs, gn),
                2 * beam_total(cs, gn) <= usize::MAX,
            decreases m - i,
        {
            proof {
                assert(car.broken.len() == m && bands[c as int].len() == m);
            }
            if !car.broken[i] {
                let k = bands[c][i];
                proof {
                    assert(bs[c as int]@[i as int] < STRESS_BANDS);
                    lemma_car_lines_mono(car.a@, car.b@, car.broken@, bs[c as int]@, os[c as int] as int, k as int, i + 1, m as int);
                    lemma_band_lines_mono(cs, os, bs, k as int, c + 1, gn);
                }
                let v = counts[k] + 1;
                counts.set(k, v);
            }
            i = i + 1;
        }
        c = c + 1;
    }
    // Band start cursors.
    let mut start: Vec<usize> = Vec::new();
    start.push(0);
    start.push(counts[0]);
    start.push(counts[0] + counts[1]);
    start.push(counts[0] + counts[1] + counts[2]);
    start.push(counts[0] + counts[1] + counts[2] + counts[3]);
    let acc = start[4];
    let ghost blen = line_buf.len();
    // Pass 2: place each unbroken beam's endpoints in its band's region.
    let mut cursor: Vec<usize> = start.clone();
    let mut c: usize = 0;
    while c < n
        invariant
            n == cars.len(),
            gn == n,
            cs == cars@ && os == offsets@ && bs == bands@,
            lines_input_ok(cs, os, bs),
            c <= n,
            counts.len() == 4,
            start.len() == 5,
            cursor.len() == 5,
            start@[0] == 0,
            forall|k: int| 0 <= k < 4 ==> start@[k + 1] == start@[k] + #[trigger] counts@[k],
            forall|k: int| 0 <= k < 4 ==> 2 * #[trigger] counts@[k] == band_lines(cs, os, bs, k, gn).len(),
            acc == start@[4],
            2 * acc <= line_buf.len(),
            line_buf.len() == blen,
            forall|j: int| 2 * acc <= j < blen ==> line_buf@[j] == old(line_buf)@[j],
            forall|k: int| 0 <= k < 4 ==> #[trigger] cursor@[k] >= start@[k] && 2 * (cursor@[k] - start@[k])
                == band_lines(cs, os, bs, k, c as int).len(),
            forall|k: int|
                0 <= k < 4 ==> line_buf@.subrange(2 * start@[k], 2 * #[trigger] cursor@[k]) == band_lines(
                    cs,
                    os,
                    bs,
                    k,
                    c as int,
                ),
        decreases n - c,
    {
        let car = cars[c];
        let m = car.a.len();
        let off = offsets[c] as u32;
        let mut i: usize = 0;
        proof {
            assert(cs[c as int] == car);
        }
        while i < m
            invariant
                n == cars.len(),
                gn == n,
                cs == cars@ && os == offsets@ && bs == bands@,
                lines_input_ok(cs, os, bs),
                c < n,
                car == cs[c as int],
                m == car.a.len(),
                off == os[c as int] as u32,
                i <= m,
                counts.len() == 4,
                start.len() == 5,
                cursor.len() == 5,
                start@[0] == 0,
                forall|k: int| 0 <= k < 4 ==> start@[k + 1] == start@[k] + #[trigger] counts@[k],
                forall|k: int| 0 <= k < 4 ==> 2 * #[trigger] counts@[k] == band_lines(cs, os, bs, k, gn).len(),
                acc == start@[4],
                2 * acc <= line_buf.len(),
                line_buf.len() == blen,
                forall|j: int| 2 * acc <= j < blen ==> line_buf@[j] == old(line_buf)@[j],
                forall|k: int| 0 <= k < 4 ==> #[trigger] cursor@[k] >= start@[k] && 2 * (cursor@[k] - start@[k])
                    == band_lines(cs, os, bs, k, c as int).len() + car_band(cs, os, bs, k, c as int, i as int).len(),
                forall|k: int|
                    0 <= k < 4 ==> line_buf@.subrange(2 * start@[k], 2 * #[trigger] cursor@[k]) == band_lines(
                        cs,
                        os,
                        bs,
                        k,
                        c as int,
                    ) + car_band(cs, os, bs, k, c as int, i as int),
            decreases m - i,
        {
            proof {
                assert(car.broken.len() == m && bands[c as int].len() == m && car.b.len() == m);
            }
            if !car.broken[i] {
                let kk = bands[c][i];
                proof {
                    assert(bs[c as int]@[i as int] < STRESS_BANDS);
                    assert(cs[c as int].a@[i as int] + os[c as int] <= u32::MAX);
                    assert forall|k: int| 0 <= k < 4 implies #[trigger] cursor@[k] <= start@[k + 1] by {
                        lemma_car_lines_mono(car.a@, car.b@, car.broken@, bs[c as int]@, os[c as int] as int, k, i as int, m as int);
                        lemma_band_lines_mono(cs, os, bs, k, c + 1, gn);
                        assert(start@[k + 1] == start@[k] + counts@[k]);
                        assert(band_lines(cs, os, bs, k, c + 1) == band_lines(cs, os, bs, k, c as int) + car_band(cs, os, bs, k, c as int, m as int));
                    }
                    lemma_car_lines_mono(car.a@, car.b@, car.broken@, bs[c as int]@, os[c as int] as int, kk as int, i + 1, m as int);
                    lemma_band_lines_mono(cs, os, bs, kk as int, c + 1, gn);
                    assert(start@[1] == start@[0] + counts@[0]);
                    assert(start@[2] == start@[1] + counts@[1]);
                    assert(start@[3] == start@[2] + counts@[2]);
                    assert(start@[4] == start@[3] + counts@[3]);
                }
                let p = cursor[kk] * 2;
                let x = car.a[i] + off;
                let y = car.b[i] + off;
                let ghost before = line_buf@;
                line_buf.set(p, x);
                line_buf.set(p + 1, y);
                let nc = cursor[kk] + 1;
                cursor.set(kk, nc);
                proof {
                    let kki = kk as int;
                    assert(nc <= start@[kki + 1] && start@[kki + 1] <= acc);
                    assert forall|j: int| 2 * acc <= j < blen implies line_buf@[j] == old(line_buf)@[j] by {
                        assert(line_buf@[j] == before[j]);
                    }
                    assert forall|k: int|
                        0 <= k < 4 implies line_buf@.subrange(2 * start@[k], 2 * #[trigger] cursor@[k])
                        == band_lines(cs, os, bs, k, c as int) + car_band(cs, os, bs, k, c as int, i + 1) by {
                        if k == kki {
                            assert(line_buf@.subrange(2 * start@[k], 2 * cursor@[k]) =~= before.subrange(
                                2 * start@[k],
                                p as int,
                            ) + seq![x, y]);
                        } else {
                            assert(car_band(cs, os, bs, k, c as int, i + 1) == car_band(cs, os, bs, k, c as int, i as int));
                            lemma_update_outside(before, 2 * start@[k], 2 * cursor@[k], p as int, x);
                            lemma_update_outside(before.update(p as int, x), 2 * start@[k], 2 * cursor@[k], p + 1, y);
                        }
                    }
                }
            }
            i = i + 1;
        }
        c = c + 1;
    }
    proof {
        let all = all_lines(cs, os, bs);
        let b0 = band_lines(cs, os, bs, 0, gn);
        let b1 = band_lines(cs, os, bs, 1, gn);
        let b2 = band_lines(cs, os, bs, 2, gn);
        let b3 = band_lines(cs, os, bs, 3, gn);
        let buf = line_buf@;
        assert(start@[1] == start@[0] + counts@[0]);
        assert(start@[2] == start@[1] + counts@[1]);
        assert(start@[3] == start@[2] + counts@[2]);
        assert(start@[4] == start@[3] + counts@[3]);
        assert(cursor@[0] >= start@[0] && cursor@[1] >= start@[1] && cursor@[2] >= start@[2] && cursor@[3] >= start@[3]);
        assert(2 * counts@[0] == b0.len() && 2 * counts@[1] == b1.len() && 2 * counts@[2] == b2.len() && 2 * counts@[3] == b3.len());
        assert(line_buf@.subrange(2 * start@[0], 2 * cursor@[0]) == b0);
        assert(line_buf@.subrange(2 * start@[1], 2 * cursor@[1]) == b1);
        assert(line_buf@.subrange(2 * start@[2], 2 * cursor@[2]) == b2);
        assert(line_buf@.subrange(2 * start@[3], 2 * cursor@[3]) == b3);
        assert(buf.subrange(0, 2 * start@[1]) == b0);
        assert(buf.subrange(2 * start@[1], 2 * start@[2]) == b1);
        assert(buf.subrange(2 * start@[2], 2 * start@[3]) == b2);
        assert(buf.subrange(2 * start@[3], 2 * start@[4]) == b3);
        assert(buf.take(2 * acc) =~= b0 + b1 + b2 + b3);
    }
    proof {
        lemma_band_lines_count(cs, os, bs, 0, gn);
        lemma_band_lines_count(cs, os, bs, 1, gn);
        lemma_band_lines_count(cs, os, bs, 2, gn);
        lemma_band_lines_count(cs, os, bs, 3, gn);
    }
    let bands_out: [usize; 4] = [counts[0] * 2, counts[1] * 2, counts[2] * 2, counts[3] * 2];
    LineBands { line_count: acc * 2, bands: bands_out }
}

/// Unbroken beams among beams `0 .. i` of `broken`.
pub open spec fn unbroken_upto(broken: Seq<bool>, i: int) -> nat
    decreases i,
{
    if i <= 0 {
        0
    } else {
        unbroken_upto(broken, i - 1) + if broken[i - 1] { 0nat } else { 1nat }
    }
}

/// Unbroken beams of cars `0 .. c`.
pub open spec fn unbroken_total<S>(cars: Seq<&Beams<S>>, c: int) -> nat
    decreases c,
{
    if c <= 0 {
        0
    } else {
        unbroken_total(cars, c - 1) + unbroken_upto(cars[c - 1].broken@, cars[c - 1].a.len() as int)
    }
}

proof fn lemma_car_lines_exact(
    a: Seq<u32>,
    b: Seq<u32>,
    broken: Seq<bool>,
    band: Seq<usize>,
    off: int,
    i: int,
)
    requires
        0 <= i <= band.len(),
        forall|j: int| 0 <= j < band.len() ==> #[trigger] band[j] < STRESS_BANDS,
    ensures
        car_lines(a, b, broken, band, off, 0, i).len() + car_lines(a, b, broken, band, off, 1, i).len()
            + car_lines(a, b, broken, band, off, 2, i).len() + car_lines(a, b, broken, band, off, 3, i).len()
            == 2 * unbroken_upto(broken, i),
    decreases i,
{
    if i > 0 {
        lemma_car_lines_exact(a, b, broken, band, off, i - 1);
        assert(band[i - 1] < STRESS_BANDS);
    }
}

/// Broken beams vanish, unbroken beams appear once: the line list holds two
/// indices for every unbroken beam of every car and nothing else.
pub proof fn lemma_lines_count<S>(cars: Seq<&Beams<S>>, offsets: Seq<usize>, bands: Seq<Vec<usize>>, c: int)
    requires
        lines_input_ok(cars, offsets, bands),
        0 <= c <= cars.len(),
    ensures
        band_lines(cars, offsets, bands, 0, c).len() + band_lines(cars, offsets, bands, 1, c).len()
            + band_lines(cars, offsets, bands, 2, c).len() + band_lines(cars, offsets, bands, 3, c).len()
            == 2 * unbroken_total(cars, c),
        c == cars.len() ==> all_lines(cars, offsets, bands).len() == 2 * unbroken_total(cars, c),
    decreases c,
{
    if c > 0 {
        lemma_lines_count(cars, offsets, bands, c - 1);
        let car = cars[c - 1];
        assert(bands[c - 1].len() == car.a.len());
        assert forall|j: int| 0 <= j < bands[c - 1]@.len() implies #[trigger] bands[c - 1]@[j] < STRESS_BANDS by {
            assert(bands[c - 1]@[j] < STRESS_BANDS);
        }
        lemma_car_lines_exact(car.a@, car.b@, car.broken@, bands[c - 1]@, offsets[c - 1] as int, car.a.len() as int);
    }
}

/// The numbers `0 .. i`, in order.
pub open spec fn upto(i: int) -> Seq<int> {
    Seq::new(i as nat, |j: int| j)
}

/// Whether beam `j` is unbroken and in band `k`.
pub open spec fn in_band(broken: Seq<bool>, band: Seq<usize>, k: int) -> spec_fn(int) -> bool {
    |j: int| !broken[j] && band[j] as int == k
}

/// The beams among `0 .. i` that are unbroken and in band `k`, in beam order.
pub open spec fn band_beams(broken: Seq<bool>, band: Seq<usize>, k: int, i: int) -> Seq<int> {
    upto(i).filter(in_band(broken, band, k))
}

/// Unbroken beams in band `k` over cars `0 .. c`.
pub open spec fn band_beam_count<S>(cars: Seq<&Beams<S>>, bands: Seq<Vec<usize>>, k: int, c: int) -> nat
    decreases c,
{
    if c <= 0 {
        0
    } else {
        band_beam_count(cars, bands, k, c - 1) + band_beams(
            cars[c - 1].broken@,
            bands[c - 1]@,
            k,
            cars[c - 1].a.len() as int,
        ).len()
    }
}

/// A car's lines of band `k` are exactly the endpoint pairs, shifted by the
/// car's offset, of its unbroken beams whose band is `k`, in beam order: two
/// entries per such beam, and nothing for any other beam.
pub proof fn lemma_car_lines_are_band_beams(
    a: Seq<u32>,
    b: Seq<u32>,
    broken: Seq<bool>,
    band: Seq<usize>,
    off: int,
    k: int,
    i: int,
)
    requires
        0 <= i,
        i <= a.len(),
        i <= b.len(),
        i <= broken.len(),
        i <= band.len(),
    ensures
        car_lines(a, b, broken, band, off, k, i).len() == 2 * band_beams(broken, band, k, i).len(),
        forall|m: int|
            0 <= m < band_beams(broken, band, k, i).len() ==> {
                let j = #[trigger] band_beams(broken, band, k, i)[m];
                &&& 0 <= j < i
                &&& !broken[j] && band[j] as int == k
                &&& car_lines(a, b, broken, band, off, k, i)[2 * m] == (a[j] + off) as u32
                &&& car_lines(a, b, broken, band, off, k, i)[2 * m + 1] == (b[j] + off) as u32
            },
        forall|j: int|
            0 <= j < i && !broken[j] && band[j] as int == k ==> #[trigger] band_beams(broken, band, k, i).contains(j),
    decreases i,
{
    let pred = in_band(broken, band, k);
    if i == 0 {
        assert(upto(0) =~= Seq::<int>::empty());
        assert(upto(0).filter(pred) =~= Seq::<int>::empty()) by {
            reveal(Seq::filter);
        }
    } else {
        lemma_car_lines_are_band_beams(a, b, broken, band, off, k, i - 1);
        assert(upto(i) =~= upto(i - 1).push(i - 1));
        upto(i - 1).lemma_filter_push(i - 1, pred);
        let prev = band_beams(broken, band, k, i - 1);
        let cur = band_beams(broken, band, k, i);
        let lp = car_lines(a, b, broken, band, off, k, i - 1);
        let lc = car_lines(a, b, broken, band, off, k, i);
        if pred(i - 1) {
            assert(cur == prev.push(i - 1));
            assert(lc == lp + seq![(a[i - 1] + off) as u32, (b[i - 1] + off) as u32]);
            assert forall|m: int| 0 <= m < cur.len() implies {
                let j = #[trigger] cur[m];
                &&& 0 <= j < i
                &&& !broken[j] && band[j] as int == k
                &&& lc[2 * m] == (a[j] + off) as u32
                &&& lc[2 * m + 1] == (b[j] + off) as u32
            } by {
                if m < prev.len() {
                    assert(cur[m] == prev[m]);
                }
            }
            assert forall|j: int| 0 <= j < i && !broken[j] && band[j] as int == k implies #[trigger] cur.contains(j) by {
                if j == i - 1 {
                    assert(cur[prev.len() as int] == j);
                } else {
                    assert(prev.contains(j));
                    let w = choose|w: int| 0 <= w < prev.len() && prev[w] == j;
                    assert(cur[w] == j);
                }
            }
        } else {
            assert(cur == prev);
            assert(lc == lp);
        }
    }
}

/// The lines of band `k` over cars `0 .. c` hold two entries per unbroken
/// beam in band `k` of those cars.
pub proof fn lemma_band_lines_count<S>(
    cars: Seq<&Beams<S>>,
    offsets: Seq<usize>,
    bands: Seq<Vec<usize>>,
    k: int,
    c: int,
)
    requires
        lines_input_ok(cars, offsets, bands),
        0 <= c <= cars.len(),
    ensures
        band_lines(cars, offsets, bands, k, c).len() == 2 * band_beam_count(cars, bands, k, c),
    decreases c,
{
    if c > 0 {
        lemma_band_lines_count(cars, offsets, bands, k, c - 1);
        let car = cars[c - 1];
        assert(car.b.len() == car.a.len() && car.broken.len() == car.a.len() && bands[c - 1].len() == car.a.len());
        lemma_car_lines_are_band_beams(
            car.a@,
            car.b@,
            car.broken@,
            bands[c - 1]@,
            offsets[c - 1] as int,
            k,
            car.a.len() as int,
        );
    }
}

} // verus!
