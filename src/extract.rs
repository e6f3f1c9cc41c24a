use vstd::prelude::*;

use crate::color::{color_wf, is_isqrt, isqrt, prefer_saturated, saturation, skin_like, Color};
use crate::gradient::{live, merged, reduce_gradients};
use crate::rank::{rank_order, ranked, ranks_before, same_colors, sort_by_weight};
use crate::rank::lemma_ranked_unique;
use crate::working::{
    accumulate, all_wf, has_hex, hex_count, hexes_unique, lemma_count_witness, lemma_weight_le_sum,
    pixel_hex, weight_sum, working_set,
};

verus! {

/// The largest pixel count whose weights the saturation preference can scale
/// without overflowing an `i64`.
pub const MAX_PIXELS: u64 = 70921738076545;

/// Settings of one extraction.
#[derive(Clone, Copy, Debug)]
pub struct Options {
    /// Most colors returned; at least 1.
    pub count: usize,
    /// Bucket size of the quantizer; at least 1.
    pub delta: u8,
    /// Merge colors one bucket apart on one channel.
    pub reduce_gradients: bool,
    /// Scale weights by the saturation score.
    pub favor_saturated: bool,
    /// Take the square root of the weight of skin-like colors.
    pub neglect_yellow_skin: bool,
}

impl Default for Options {
    fn default() -> (o: Self)
        ensures
            o.count == 10,
            o.delta == 16,
            o.reduce_gradients,
            !o.favor_saturated,
            !o.neglect_yellow_skin,
    {
        Options {
            count: 10,
            delta: 16,
            reduce_gradients: true,
            favor_saturated: false,
            neglect_yellow_skin: false,
        }
    }
}

/// Why an extraction was refused.
#[derive(Clone, Copy, Debug, PartialEq, Eq, Structural)]
pub enum ExtractError {
    /// The buffer does not hold exactly three samples per pixel.
    InvalidBuffer,
    /// The bucket size or the count is zero.
    InvalidOption,
}

/// The weight of `c` after the optional adjustments is `w`.
pub open spec fn adjusted(c: Color, w: int, favor_saturated: bool, neglect_yellow_skin: bool) -> bool {
    let scaled = if favor_saturated {
        saturation(c.r as int, c.g as int, c.b as int) * c.weight
    } else {
        c.weight as int
    };
    if neglect_yellow_skin && skin_like(c.r as int, c.g as int, c.b as int) {
        is_isqrt(w, scaled)
    } else {
        w == scaled
    }
}

/// The first `count` colors of `s` in rank order.
pub open spec fn top(s: Seq<Color>, count: int) -> Seq<Color> {
    let r = rank_order(s);
    r.take(if r.len() < count { r.len() as int } else { count })
}

/// The colors left of the working set `w` once the gradient merge, if
/// enabled, has run over it in rank order.
pub open spec fn survivors_of(w: Seq<Color>, delta: int, reduce: bool) -> Seq<Color> {
    if reduce {
        live(merged(rank_order(w), delta))
    } else {
        w
    }
}

/// The palette of a buffer of `npix` pixels before reweighting.
pub open spec fn ranked_palette(p: Seq<u8>, npix: int, opts: Options) -> Seq<Color> {
    top(
        survivors_of(working_set(p, npix, opts.delta as int), opts.delta as int, opts.reduce_gradients),
        opts.count as int,
    )
}

/// Ranks a set of colors with unique keys and keeps the first `count`.
pub fn rank_and_truncate(colors: &Vec<Color>, count: usize) -> (res: Vec<Color>)
    requires
        hexes_unique(colors@),
    ensures
        res@ == top(colors@, count as int),
        ranked(res@),
        res@.len() == if colors@.len() < count {
            colors@.len() as int
        } else {
            count as int
        },
        forall|j: int| 0 <= j < res@.len() ==> colors@.contains(#[trigger] res@[j]),
        forall|i: int|
            0 <= i < colors@.len() ==> res@.contains(#[trigger] colors@[i]) || (res@.len()
                == count && (count == 0 || ranks_before(res@[count - 1], colors@[i]))),
        colors@.len() <= count ==> same_colors(res@, colors@) && weight_sum(res@) == weight_sum(
            colors@,
        ),
{
    broadcast use vstd::seq_lib::group_to_multiset_ensures;

    let mut res: Vec<Color> = sort_by_weight(colors);
    let ghost sorted = res@;
    res.truncate(count);
    proof {
        assert(res@ =~= sorted.take(res@.len() as int));
        assert forall|j: int| 0 <= j < res@.len() implies colors@.contains(#[trigger] res@[j]) by {
            assert(sorted[j] == res@[j]);
            vstd::seq_lib::to_multiset_contains(sorted, res@[j]);
            vstd::seq_lib::to_multiset_contains(colors@, res@[j]);
        }
        assert forall|i: int| 0 <= i < colors@.len() implies res@.contains(#[trigger] colors@[i])
            || (res@.len() == count && (count == 0 || ranks_before(res@[count - 1], colors@[i]))) by {
            assert(colors@.contains(colors@[i]));
            vstd::seq_lib::to_multiset_contains(colors@, colors@[i]);
            vstd::seq_lib::to_multiset_contains(sorted, colors@[i]);
            let m = choose|m: int| 0 <= m < sorted.len() && sorted[m] == colors@[i];
            if m < res@.len() {
                assert(res@[m] == colors@[i]);
            } else {
                assert(res@.len() == count);
                if count > 0 && count - 1 < m {
                    assert(res@[count - 1] == sorted[count - 1]);
                    assert(ranks_before(sorted[count - 1], sorted[m]));
                }
            }
        }
        if colors@.len() <= count {
            assert(res@ =~= sorted);
        }
    }
    res
}

/// Applies the enabled reweightings to each color, in place.
pub fn adjust_weights(colors: &mut Vec<Color>, favor_saturated: bool, neglect_yellow_skin: bool)
    requires
        all_wf(old(colors)@),
        favor_saturated ==> forall|j: int|
            0 <= j < old(colors)@.len() ==> (#[trigger] old(colors)@[j]).weight <= MAX_PIXELS,
    ensures
        final(colors)@.len() == old(colors)@.len(),
        all_wf(final(colors)@),
        forall|j: int|
            0 <= j < final(colors)@.len() ==> {
                &&& (#[trigger] final(colors)@[j]).r == old(colors)@[j].r
                &&& final(colors)@[j].g == old(colors)@[j].g
                &&& final(colors)@[j].b == old(colors)@[j].b
                &&& final(colors)@[j].hex == old(colors)@[j].hex
                &&& adjusted(old(colors)@[j], final(colors)@[j].weight as int, favor_saturated, neglect_yellow_skin)
            },
{
    let ghost start = colors@;
    let n: usize = colors.len();
    let mut i: usize = 0;
    while i < n
        invariant
            n == colors@.len() == start.len(),
            i <= n,
            all_wf(start),
            favor_saturated ==> forall|j: int|
                0 <= j < start.len() ==> (#[trigger] start[j]).weight <= MAX_PIXELS,
            forall|j: int| i <= j < n ==> colors@[j] == start[j],
            forall|j: int|
                0 <= j < i ==> {
                    &&& color_wf(#[trigger] colors@[j])
                    &&& colors@[j].r == start[j].r
                    &&& colors@[j].g == start[j].g
                    &&& colors@[j].b == start[j].b
                    &&& colors@[j].hex == start[j].hex
                    &&& adjusted(start[j], colors@[j].weight as int, favor_saturated, neglect_yellow_skin)
                },
        decreases n - i,
    {
        let mut c: Color = colors[i];
        assert(color_wf(start[i as int]));
        if favor_saturated {
            let s: i32 = prefer_saturated(&c);
            assert(0 <= s as i64 * c.weight <= 130050 * MAX_PIXELS) by (nonlinear_arith)
                requires
                    0 <= s <= 130050,
                    0 <= c.weight <= MAX_PIXELS,
            ;
            c.weight = s as i64 * c.weight;
        }
        if neglect_yellow_skin && c.r > c.b && c.r - c.b < 70 {
            let m: i32 = (c.r + c.b) / 2 - c.g;
            if -10 < m && m < 10 {
                c.weight = isqrt(c.weight);
            }
        }
        colors.set(i, c);
        i = i + 1;
    }
    proof {
        assert forall|j: int| 0 <= j < colors@.len() implies color_wf(#[trigger] colors@[j]) by {}
    }
}

/// Extracts the ranked palette of a `width` by `height` buffer of
/// interleaved RGB samples, row by row.
///
/// The palette is in rank order before reweighting; the reweightings change
/// weights in place and do not sort again, so with either of them enabled the
/// weights need not be descending. With the saturation preference enabled the
/// buffer is bounded so that the scaled weights fit in an `i64`.
pub fn extract(pixels: &Vec<u8>, width: usize, height: usize, opts: &Options) -> (r: Result<Vec<Color>, ExtractError>)
    requires
        opts.favor_saturated ==> pixels@.len() <= 3 * MAX_PIXELS,
    ensures
        pixels@.len() != 3 * width * height <==> r == Err::<Vec<Color>, ExtractError>(ExtractError::InvalidBuffer),
        pixels@.len() == 3 * width * height && (opts.delta == 0 || opts.count == 0) <==> r == Err::<Vec<Color>, ExtractError>(ExtractError::InvalidOption),
        match r {
            Ok(v) => {
                let p = ranked_palette(pixels@, width * height, *opts);
                &&& v@.len() == p.len()
                &&& forall|j: int| 0 <= j < v@.len() ==> {
                    &&& (#[trigger] v@[j]).r == p[j].r
                    &&& v@[j].g == p[j].g
                    &&& v@[j].b == p[j].b
                    &&& v@[j].hex == p[j].hex
                    &&& adjusted(p[j], v@[j].weight as int, opts.favor_saturated, opts.neglect_yellow_skin)
                }
                &&& v@.len() <= opts.count
                &&& v@.len() == vstd::math::min(opts.count as int, survivors_of(working_set(pixels@, width * height, opts.delta as int), opts.delta as int, opts.reduce_gradients).len() as int)
                &&& all_wf(v@)
                &&& hexes_unique(v@)
                &&& forall|j: int| 0 <= j < v@.len() ==> exists|k: int| 0 <= k < width * height && #[trigger] v@[j].hex as int == pixel_hex(pixels@, k, opts.delta as int)
                &&& !opts.favor_saturated && !opts.neglect_yellow_skin ==> ranked(v@)
                &&& !opts.favor_saturated && !opts.neglect_yellow_skin && v@.len() < opts.count ==> weight_sum(v@) == width * height
                &&& !opts.reduce_gradients && !opts.favor_saturated && !opts.neglect_yellow_skin ==> forall|j: int| 0 <= j < v@.len() ==> #[trigger] v@[j].weight == hex_count(pixels@, width * height, v@[j].hex as int, opts.delta as int)
            },
            Err(_) => true,
        },
{
    let len: usize = pixels.len();
    let npix: usize = match width.checked_mul(height) {
        Some(wh) => wh,
        None => {
            assert(3 * width * height > usize::MAX) by (nonlinear_arith)
                requires
                    width * height > usize::MAX,
            ;
            return Err(ExtractError::InvalidBuffer);
        },
    };
    assert(3 * width * height == 3 * (width * height)) by (nonlinear_arith);
    if npix > len / 3 || len != 3 * npix {
        return Err(ExtractError::InvalidBuffer);
    }
    if opts.delta == 0 || opts.count == 0 {
        return Err(ExtractError::InvalidOption);
    }
    let working: Vec<Color> = accumulate(pixels, npix, opts.delta);
    let ghost reduce = opts.reduce_gradients;
    let survivors: Vec<Color> = if opts.reduce_gradients {
        let by_weight: Vec<Color> = sort_by_weight(&working);
        proof {
            assert forall|j: int| 0 <= j < by_weight@.len() implies (
            #[trigger] by_weight@[j]).weight >= 1 by {
                assert(working@.contains(by_weight@[j]));
            }
        }
        reduce_gradients(&by_weight, opts.delta)
    } else {
        working
    };
    proof {
        assert(weight_sum(survivors@) == npix);
        assert(npix <= i64::MAX);
        assert forall|j: int| 0 <= j < survivors@.len() implies has_hex(
            working@,
            #[trigger] survivors@[j].hex as int,
        ) by {
            if !reduce {
                assert(working@[j].hex == survivors@[j].hex);
            }
        }
    }
    let mut palette: Vec<Color> = rank_and_truncate(&survivors, opts.count);
    proof {
        lemma_ranked_unique(palette@, survivors@);
        assert forall|j: int| 0 <= j < palette@.len() implies (#[trigger] palette@[j]).weight
            <= npix && color_wf(palette@[j]) && has_hex(working@, palette@[j].hex as int)
            by {
            assert(survivors@.contains(palette@[j]));
            let q = choose|q: int| 0 <= q < survivors@.len() && survivors@[q] == palette@[j];
            lemma_weight_le_sum(survivors@, q);
            assert(has_hex(working@, survivors@[q].hex as int));
        }
    }
    let ghost before_adjust = palette@;
    proof {
        assert(before_adjust == ranked_palette(pixels@, npix as int, *opts));
    }
    adjust_weights(&mut palette, opts.favor_saturated, opts.neglect_yellow_skin);
    proof {
        let v = palette@;
        assert forall|a: int, b: int| 0 <= a < v.len() && 0 <= b < v.len() && a != b implies v[a].hex
            != v[b].hex by {
            assert(before_adjust[a].hex != before_adjust[b].hex);
        }
        assert forall|j: int| 0 <= j < v.len() implies exists|k: int|
            0 <= k < width * height && #[trigger] v[j].hex as int == pixel_hex(
                pixels@,
                k,
                opts.delta as int,
            ) by {
            assert(has_hex(working@, before_adjust[j].hex as int));
            let q = choose|q: int| 0 <= q < working@.len() && working@[q].hex == before_adjust[j].hex as int;
            lemma_count_witness(pixels@, npix as int, working@[q].hex as int, opts.delta as int);
        }
        if !opts.favor_saturated && !opts.neglect_yellow_skin {
            assert forall|j: int| 0 <= j < v.len() implies v[j] == before_adjust[j] by {}
            assert(v =~= before_adjust);
            if !reduce {
                assert forall|j: int| 0 <= j < v.len() implies #[trigger] v[j].weight == hex_count(
                    pixels@,
                    width * height,
                    v[j].hex as int,
                    opts.delta as int,
                ) by {
                    assert(survivors@.contains(v[j]));
                }
            }
        }
    }
    Ok(palette)
}

} // verus!
