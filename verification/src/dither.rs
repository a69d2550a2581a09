//! The ditherer: maps every pixel to a palette index in a single
//! left-to-right, top-to-bottom pass, diffusing each pixel's quantization
//! error to its not-yet-visited neighbors.
//!
//! The filter distributes sixteenths of the residual to the right,
//! below-left, below and below-right neighbors.  On even rows the shares
//! are 7, 3, 5 and 1; on odd rows the two lower diagonal shares swap to
//! 7, 1, 5 and 3, so the diffusion pattern alternates by row parity and
//! avoids directional artifacts.  Shares falling outside the image are
//! dropped, not renormalized.  Error cells are clamped to [-1020, 1020]
//! on accumulation.

use vstd::prelude::*;
use vstd::pervasive::VecAdditionalExecFns;
use vstd::arithmetic::div_mod::lemma_div_is_ordered;

use crate::color::Color;
use crate::color::clamp_spec;
use crate::color::clamp_i32;
use crate::palette::nearest_in;
use crate::palette::nearest_index;
use crate::palette::no_duplicates;
use crate::palette::lemma_nearest_exact;
use crate::palette::lemma_nearest_min;

verus! {

/// Accumulated quantization error for one pixel, per channel.
#[derive(Clone, Copy, PartialEq, Eq, Structural)]
pub struct ErrCell {
    pub r: i32,
    pub g: i32,
    pub b: i32,
    pub a: i32,
}

/// A cell holding no error.
pub open spec fn zero_cell() -> ErrCell {
    ErrCell { r: 0, g: 0, b: 0, a: 0 }
}

/// An empty error buffer: one zero cell per pixel.
pub open spec fn zero_errs(n: int) -> Seq<ErrCell> {
    Seq::new(n as nat, |i: int| zero_cell())
}

/// Every channel of every cell stays within the clamp bounds.
pub open spec fn cells_bounded(errs: Seq<ErrCell>) -> bool {
    forall|j: int|
        0 <= j < errs.len() ==> -1020 <= (#[trigger] errs[j]).r <= 1020 && -1020 <= errs[j].g
            <= 1020 && -1020 <= errs[j].b <= 1020 && -1020 <= errs[j].a <= 1020
}

/// Sixteenths of the residual handed to each neighbor: slot 0 is right,
/// 1 below-left, 2 below, 3 below-right.
pub open spec fn weight(par: int, slot: int) -> int {
    if slot == 0 {
        7
    } else if slot == 1 {
        if par == 0 {
            3
        } else {
            1
        }
    } else if slot == 2 {
        5
    } else {
        if par == 0 {
            1
        } else {
            3
        }
    }
}

/// The pixel's working color: its own color plus the carried-in error,
/// clamped per channel to the representable range.
pub open spec fn working_color(c: Color, e: ErrCell) -> Color {
    Color {
        r: clamp_spec(c.r + e.r, 0, 255) as u8,
        g: clamp_spec(c.g + e.g, 0, 255) as u8,
        b: clamp_spec(c.b + e.b, 0, 255) as u8,
        a: clamp_spec(c.a + e.a, 0, 255) as u8,
    }
}

/// One neighbor's share of a residual channel: the weighted sixteenth,
/// rounded toward zero.
pub open spec fn share(res: int, wgt: int) -> int {
    if res >= 0 {
        (res * wgt) / 16
    } else {
        -(((-res) * wgt) / 16)
    }
}

/// Adds one pixel's residual shares into a neighbor cell, clamping each
/// channel.
pub open spec fn diffuse_cell(e: ErrCell, rr: int, rg: int, rb: int, ra: int, wgt: int) -> ErrCell {
    ErrCell {
        r: clamp_spec(e.r + share(rr, wgt), -1020, 1020) as i32,
        g: clamp_spec(e.g + share(rg, wgt), -1020, 1020) as i32,
        b: clamp_spec(e.b + share(rb, wgt), -1020, 1020) as i32,
        a: clamp_spec(e.a + share(ra, wgt), -1020, 1020) as i32,
    }
}

/// Processes pixel `i`: picks the nearest palette entry to the working
/// color and diffuses the residual to the in-bounds neighbors that are
/// still unvisited.
pub open spec fn dither_step(
    s: Seq<Color>,
    pal: Seq<Color>,
    w: int,
    i: int,
    errs: Seq<ErrCell>,
) -> (int, Seq<ErrCell>) {
    let n = s.len() as int;
    let wc = working_color(s[i], errs[i]);
    let idx = nearest_in(pal, wc);
    let q = pal[idx];
    let rr = wc.r - q.r;
    let rg = wc.g - q.g;
    let rb = wc.b - q.b;
    let ra = wc.a - q.a;
    let x = i % w;
    let par = (i / w) % 2;
    let e1 = if x + 1 < w && i + 1 < n {
        errs.update(i + 1, diffuse_cell(errs[i + 1], rr, rg, rb, ra, weight(par, 0)))
    } else {
        errs
    };
    let e2 = if x >= 1 && i + w - 1 < n {
        e1.update(i + w - 1, diffuse_cell(e1[i + w - 1], rr, rg, rb, ra, weight(par, 1)))
    } else {
        e1
    };
    let e3 = if i + w < n {
        e2.update(i + w, diffuse_cell(e2[i + w], rr, rg, rb, ra, weight(par, 2)))
    } else {
        e2
    };
    let e4 = if x + 1 < w && i + w + 1 < n {
        e3.update(i + w + 1, diffuse_cell(e3[i + w + 1], rr, rg, rb, ra, weight(par, 3)))
    } else {
        e3
    };
    (idx, e4)
}

/// The palette indices emitted from pixel `i` on, given the error carried
/// so far.
pub open spec fn dither_from(
    s: Seq<Color>,
    pal: Seq<Color>,
    w: int,
    i: int,
    errs: Seq<ErrCell>,
) -> Seq<int>
    decreases s.len() - i,
{
    if i < 0 || i >= s.len() {
        Seq::empty()
    } else {
        let step = dither_step(s, pal, w, i, errs);
        seq![step.0] + dither_from(s, pal, w, i + 1, step.1)
    }
}

/// The full index stream for an image of row length `w`.
pub open spec fn dither_spec(s: Seq<Color>, pal: Seq<Color>, w: int) -> Seq<int> {
    dither_from(s, pal, w, 0, zero_errs(s.len() as int))
}

/// The ditherer emits exactly one index per remaining pixel.
pub proof fn lemma_dither_from_len(s: Seq<Color>, pal: Seq<Color>, w: int, i: int, errs: Seq<ErrCell>)
    requires
        0 <= i <= s.len(),
    ensures
        dither_from(s, pal, w, i, errs).len() == s.len() - i,
    decreases s.len() - i,
{
    if i < s.len() {
        let step = dither_step(s, pal, w, i, errs);
        lemma_dither_from_len(s, pal, w, i + 1, step.1);
    }
}

/// The index stream is exactly one index per pixel.
pub proof fn lemma_index_stream_length(s: Seq<Color>, pal: Seq<Color>, w: int)
    ensures
        dither_spec(s, pal, w).len() == s.len(),
{
    lemma_dither_from_len(s, pal, w, 0, zero_errs(s.len() as int));
}

/// Every emitted index is a valid offset into the palette.
pub proof fn lemma_dither_from_range(
    s: Seq<Color>,
    pal: Seq<Color>,
    w: int,
    i: int,
    errs: Seq<ErrCell>,
)
    requires
        0 <= i <= s.len(),
        pal.len() >= 1,
    ensures
        forall|t: int|
            0 <= t < dither_from(s, pal, w, i, errs).len() ==> 0 <= #[trigger] dither_from(
                s,
                pal,
                w,
                i,
                errs,
            )[t] < pal.len(),
    decreases s.len() - i,
{
    if i < s.len() {
        let step = dither_step(s, pal, w, i, errs);
        lemma_nearest_min(pal, working_color(s[i], errs[i]));
        lemma_dither_from_range(s, pal, w, i + 1, step.1);
        let me = dither_from(s, pal, w, i, errs);
        let rest = dither_from(s, pal, w, i + 1, step.1);
        assert(me == seq![step.0] + rest);
        assert forall|t: int| 0 <= t < me.len() implies 0 <= #[trigger] me[t] < pal.len() by {
            if t == 0 {
                assert(me[0] == step.0);
            } else {
                assert(me[t] == rest[t - 1]);
            }
        }
    }
}

/// An index vector seen as a sequence of mathematical integers.
pub open spec fn idx_int(v: Seq<u8>) -> Seq<int> {
    v.map_values(|x: u8| x as int)
}

/// Computes one neighbor's share of a residual channel.
fn share_i32(res: i32, wgt: u32) -> (out: i32)
    requires
        -255 <= res <= 255,
        wgt <= 7,
    ensures
        out == share(res as int, wgt as int),
        -112 <= out <= 112,
{
    let m: u32 = if res >= 0 {
        res as u32
    } else {
        (-res) as u32
    };
    proof {
        assert(m * wgt <= 1785) by (nonlinear_arith)
            requires
                m <= 255,
                wgt <= 7,
        ;
        lemma_div_is_ordered((m * wgt) as int, 1785, 16);
    }
    let sh: u32 = m * wgt / 16;
    if res >= 0 {
        sh as i32
    } else {
        -(sh as i32)
    }
}

/// Adds a pixel's residual shares into one neighbor cell.
fn diffuse(cell: ErrCell, rr: i32, rg: i32, rb: i32, ra: i32, wgt: u32) -> (out: ErrCell)
    requires
        -1020 <= cell.r <= 1020,
        -1020 <= cell.g <= 1020,
        -1020 <= cell.b <= 1020,
        -1020 <= cell.a <= 1020,
        -255 <= rr <= 255,
        -255 <= rg <= 255,
        -255 <= rb <= 255,
        -255 <= ra <= 255,
        wgt <= 7,
    ensures
        out == diffuse_cell(cell, rr as int, rg as int, rb as int, ra as int, wgt as int),
        -1020 <= out.r <= 1020,
        -1020 <= out.g <= 1020,
        -1020 <= out.b <= 1020,
        -1020 <= out.a <= 1020,
{
    let sr = share_i32(rr, wgt);
    let sg = share_i32(rg, wgt);
    let sb = share_i32(rb, wgt);
    let sa = share_i32(ra, wgt);
    ErrCell {
        r: clamp_i32(cell.r + sr, -1020, 1020),
        g: clamp_i32(cell.g + sg, -1020, 1020),
        b: clamp_i32(cell.b + sb, -1020, 1020),
        a: clamp_i32(cell.a + sa, -1020, 1020),
    }
}

/// Walks the image row-major, emitting one palette index per pixel and
/// diffusing each pixel's quantization error forward.  An empty palette
/// would leave pixels with no representative, so it is excluded here and
/// ruled out by the palette builder's guarantee of at least one entry.
#[verifier::rlimit(100)]
pub fn dither(samples: &Vec<Color>, pal: &Vec<Color>, width: usize) -> (idx: Vec<u8>)
    requires
        1 <= pal@.len() <= 256,
        width >= 1,
        samples@.len() + width <= usize::MAX,
    ensures
        idx@.len() == samples@.len(),
        idx_int(idx@) == dither_spec(samples@, pal@, width as int),
        forall|i: int| 0 <= i < idx@.len() ==> #[trigger] idx@[i] < pal@.len(),
{
    let n = samples.len();
    let ghost sv = samples@;
    let ghost wv = width as int;
    let mut errs: Vec<ErrCell> = Vec::new();
    while errs.len() < n
        invariant
            errs@.len() <= n,
            forall|j: int| 0 <= j < errs@.len() ==> #[trigger] errs@[j] == zero_cell(),
        decreases n - errs@.len(),
    {
        errs.push(ErrCell { r: 0, g: 0, b: 0, a: 0 });
    }
    proof {
        assert(errs@ =~= zero_errs(n as int));
    }
    let mut out: Vec<u8> = Vec::new();
    let mut i: usize = 0;
    while i < n
        invariant
            0 <= i <= n == sv.len(),
            sv == samples@,
            wv == width as int,
            1 <= pal@.len() <= 256,
            width >= 1,
            n + width <= usize::MAX,
            errs@.len() == n,
            out@.len() == i,
            cells_bounded(errs@),
            forall|j: int| 0 <= j < i ==> #[trigger] out@[j] < pal@.len(),
            dither_spec(sv, pal@, wv) == idx_int(out@) + dither_from(sv, pal@, wv, i as int, errs@),
        decreases n - i,
    {
        let ghost errs0 = errs@;
        let ghost out0 = out@;
        let e = errs[i];
        let c = samples[i];
        let wr = clamp_i32(c.r as i32 + e.r, 0, 255);
        let wg = clamp_i32(c.g as i32 + e.g, 0, 255);
        let wb = clamp_i32(c.b as i32 + e.b, 0, 255);
        let wa = clamp_i32(c.a as i32 + e.a, 0, 255);
        let wc = Color { r: wr as u8, g: wg as u8, b: wb as u8, a: wa as u8 };
        proof {
            assert(wc == working_color(sv[i as int], errs0[i as int]));
        }
        let best = nearest_index(pal, wc);
        out.push(best as u8);
        let q = pal[best];
        let rr = wr - q.r as i32;
        let rg = wg - q.g as i32;
        let rb = wb - q.b as i32;
        let ra = wa - q.a as i32;
        let x = i % width;
        let par = (i / width) % 2;
        let w_bl: u32 = if par == 0 {
            3
        } else {
            1
        };
        let w_br: u32 = if par == 0 {
            1
        } else {
            3
        };
        let ghost pari = (i as int / wv) % 2;
        proof {
            assert(pari == par as int);
            assert(weight(pari, 0) == 7);
            assert(weight(pari, 1) == w_bl as int);
            assert(weight(pari, 2) == 5);
            assert(weight(pari, 3) == w_br as int);
        }
        if x + 1 < width && i + 1 < n {
            let cell = diffuse(errs[i + 1], rr, rg, rb, ra, 7);
            errs.set(i + 1, cell);
        }
        let ghost e1 = errs@;
        if x >= 1 && i + width - 1 < n {
            let cell = diffuse(errs[i + width - 1], rr, rg, rb, ra, w_bl);
            errs.set(i + width - 1, cell);
        }
        let ghost e2 = errs@;
        if i + width < n {
            let cell = diffuse(errs[i + width], rr, rg, rb, ra, 5);
            errs.set(i + width, cell);
        }
        let ghost e3 = errs@;
        if x + 1 < width && i + width + 1 < n {
            let cell = diffuse(errs[i + width + 1], rr, rg, rb, ra, w_br);
            errs.set(i + width + 1, cell);
        }
        proof {
            let step = dither_step(sv, pal@, wv, i as int, errs0);
            assert(step.0 == best as int);
            assert(e1 =~= (if (i as int % wv) + 1 < wv && i as int + 1 < sv.len() {
                errs0.update(
                    i as int + 1,
                    diffuse_cell(
                        errs0[i as int + 1],
                        rr as int,
                        rg as int,
                        rb as int,
                        ra as int,
                        weight(pari, 0),
                    ),
                )
            } else {
                errs0
            }));
            assert(e2 =~= (if (i as int % wv) >= 1 && i as int + wv - 1 < sv.len() {
                e1.update(
                    i as int + wv - 1,
                    diffuse_cell(
                        e1[i as int + wv - 1],
                        rr as int,
                        rg as int,
                        rb as int,
                        ra as int,
                        weight(pari, 1),
                    ),
                )
            } else {
                e1
            }));
            assert(e3 =~= (if i as int + wv < sv.len() {
                e2.update(
                    i as int + wv,
                    diffuse_cell(
                        e2[i as int + wv],
                        rr as int,
                        rg as int,
                        rb as int,
                        ra as int,
                        weight(pari, 2),
                    ),
                )
            } else {
                e2
            }));
            assert(errs@ =~= (if (i as int % wv) + 1 < wv && i as int + wv + 1 < sv.len() {
                e3.update(
                    i as int + wv + 1,
                    diffuse_cell(
                        e3[i as int + wv + 1],
                        rr as int,
                        rg as int,
                        rb as int,
                        ra as int,
                        weight(pari, 3),
                    ),
                )
            } else {
                e3
            }));
            assert(step.1 == errs@);
            assert(dither_from(sv, pal@, wv, i as int, errs0) == seq![step.0] + dither_from(
                sv,
                pal@,
                wv,
                i as int + 1,
                errs@,
            ));
            assert(idx_int(out@) =~= idx_int(out0).push(best as int));
            assert(idx_int(out0).push(best as int) + dither_from(sv, pal@, wv, i as int + 1, errs@)
                =~= idx_int(out0) + (seq![step.0] + dither_from(
                sv,
                pal@,
                wv,
                i as int + 1,
                errs@,
            )));
        }
        i = i + 1;
    }
    proof {
        assert(dither_from(sv, pal@, wv, n as int, errs@) =~= Seq::<int>::empty());
        assert(idx_int(out@) + Seq::<int>::empty() =~= idx_int(out@));
    }
    out
}

/// The pixels of `s` flattened to RGBA bytes, row-major.
pub open spec fn rgba_of(s: Seq<Color>) -> Seq<u8>
    decreases s.len(),
{
    if s.len() == 0 {
        Seq::empty()
    } else {
        rgba_of(s.drop_last()) + seq![s.last().r, s.last().g, s.last().b, s.last().a]
    }
}

/// The quantized image body: every index replaced by its palette color,
/// flattened to RGBA bytes.
pub open spec fn expand_spec(pal: Seq<Color>, idx: Seq<int>) -> Seq<u8> {
    rgba_of(idx.map_values(|j: int| pal[j]))
}

/// Expands an index stream back to RGBA bytes through the palette.
pub fn expand_palette(pal: &Vec<Color>, idx: &Vec<u8>) -> (out: Vec<u8>)
    requires
        forall|i: int| 0 <= i < idx@.len() ==> (#[trigger] idx@[i]) < pal@.len(),
    ensures
        out@ == expand_spec(pal@, idx_int(idx@)),
        out@.len() == 4 * idx@.len(),
{
    let ghost f = |j: int| pal@[j];
    let mut out: Vec<u8> = Vec::new();
    let mut i: usize = 0;
    proof {
        assert(idx_int(idx@.take(0)).map_values(f) =~= Seq::<Color>::empty());
    }
    while i < idx.len()
        invariant
            0 <= i <= idx@.len(),
            f == (|j: int| pal@[j]),
            forall|t: int| 0 <= t < idx@.len() ==> (#[trigger] idx@[t]) < pal@.len(),
            out@ == rgba_of(idx_int(idx@.take(i as int)).map_values(f)),
            out@.len() == 4 * i,
        decreases idx@.len() - i,
    {
        let c = pal[idx[i] as usize];
        out.push(c.r);
        out.push(c.g);
        out.push(c.b);
        out.push(c.a);
        proof {
            let m1 = idx_int(idx@.take(i as int + 1)).map_values(f);
            let m0 = idx_int(idx@.take(i as int)).map_values(f);
            assert(m1.drop_last() =~= m0);
            assert(m1.last() == pal@[idx@[i as int] as int]);
            assert(out@ =~= rgba_of(m0) + seq![c.r, c.g, c.b, c.a]);
        }
        i = i + 1;
    }
    proof {
        assert(idx@.take(idx@.len() as int) =~= idx@);
    }
    out
}

/// When every pixel's exact color is in a duplicate-free palette and no
/// error has accumulated yet, dithering picks the exact entry for every
/// pixel and diffuses nothing.
pub proof fn lemma_dither_from_exact(
    s: Seq<Color>,
    pal: Seq<Color>,
    w: int,
    i: int,
    errs: Seq<ErrCell>,
)
    requires
        w >= 1,
        no_duplicates(pal),
        0 <= i <= s.len(),
        errs.len() == s.len(),
        forall|t: int| i <= t < s.len() ==> pal.contains(#[trigger] s[t]),
        forall|j: int| i <= j < s.len() ==> #[trigger] errs[j] == zero_cell(),
    ensures
        forall|t: int|
            0 <= t < dither_from(s, pal, w, i, errs).len() ==> 0 <= #[trigger] dither_from(
                s,
                pal,
                w,
                i,
                errs,
            )[t] < pal.len() && pal[dither_from(s, pal, w, i, errs)[t]] == s[i + t],
    decreases s.len() - i,
{
    if i < s.len() {
        let n = s.len() as int;
        let step = dither_step(s, pal, w, i, errs);
        assert(errs[i] == zero_cell());
        let wc = working_color(s[i], errs[i]);
        assert(wc == s[i]);
        assert(pal.contains(s[i]));
        let w0 = choose|w0: int| 0 <= w0 < pal.len() && pal[w0] == s[i];
        lemma_nearest_exact(pal, s[i], w0);
        assert(step.0 == w0);
        assert(pal[step.0] == s[i]);
        assert(forall|wg: int| share(0, wg) == 0);
        assert(forall|e: ErrCell, wg: int|
            #[trigger] diffuse_cell(e, 0, 0, 0, 0, wg) == ErrCell {
                r: clamp_spec(e.r + 0, -1020, 1020) as i32,
                g: clamp_spec(e.g + 0, -1020, 1020) as i32,
                b: clamp_spec(e.b + 0, -1020, 1020) as i32,
                a: clamp_spec(e.a + 0, -1020, 1020) as i32,
            });
        assert(forall|wg: int| #[trigger] diffuse_cell(zero_cell(), 0, 0, 0, 0, wg) == zero_cell());
        assert(forall|j: int| i + 1 <= j < s.len() ==> #[trigger] step.1[j] == zero_cell());
        assert(step.1.len() == s.len());
        lemma_dither_from_exact(s, pal, w, i + 1, step.1);
        let me = dither_from(s, pal, w, i, errs);
        let rest = dither_from(s, pal, w, i + 1, step.1);
        assert(me == seq![step.0] + rest);
        assert forall|t: int|
            0 <= t < me.len() implies 0 <= #[trigger] me[t] < pal.len() && pal[me[t]] == s[i
            + t] by {
            if t == 0 {
                assert(me[0] == step.0);
            } else {
                assert(me[t] == rest[t - 1]);
            }
        }
    }
}

/// Lossless round trip: when the palette budget covers every distinct
/// input color, the palette reproduces the distinct colors exactly and
/// dithering introduces zero error, so expanding the index stream gives
/// back the original pixels byte for byte.
pub proof fn lemma_exact_roundtrip(s: Seq<Color>, k: int, w: int)
    requires
        k >= 1,
        w >= 1,
        s.len() >= 1,
        crate::palette::distinct_seq(s).len() <= k,
    ensures
        forall|t: int|
            0 <= t < s.len() ==> crate::palette::build_palette_spec(s, k)[#[trigger] dither_spec(
                s,
                crate::palette::build_palette_spec(s, k),
                w,
            )[t]] == s[t],
        expand_spec(
            crate::palette::build_palette_spec(s, k),
            dither_spec(s, crate::palette::build_palette_spec(s, k), w),
        ) == rgba_of(s),
{
    let pal = crate::palette::build_palette_spec(s, k);
    crate::palette::lemma_palette_exact(s, k);
    crate::palette::lemma_distinct_seq(s);
    let z = zero_errs(s.len() as int);
    assert(forall|j: int| 0 <= j < s.len() ==> #[trigger] z[j] == zero_cell());
    lemma_dither_from_exact(s, pal, w, 0, z);
    lemma_dither_from_len(s, pal, w, 0, z);
    let idx = dither_spec(s, pal, w);
    assert(forall|t: int| 0 <= t < s.len() ==> pal[#[trigger] idx[t]] == s[0 + t]);
    assert(idx.map_values(|j: int| pal[j]) =~= s);
}

} // verus!
