use vstd::prelude::*;

use crate::color::{color_wf, hex_of, quantized, round, Color};

verus! {

/// Total weight of a sequence of colors.
pub open spec fn weight_sum(s: Seq<Color>) -> int
    decreases s.len(),
{
    if s.len() == 0 {
        0
    } else {
        weight_sum(s.drop_last()) + s.last().weight
    }
}

/// Every color of the sequence is well formed.
pub open spec fn all_wf(s: Seq<Color>) -> bool {
    forall|i: int| 0 <= i < s.len() ==> color_wf(#[trigger] s[i])
}

/// No two colors of the sequence share a key.
pub open spec fn hexes_unique(s: Seq<Color>) -> bool {
    forall|i: int, j: int| 0 <= i < s.len() && 0 <= j < s.len() && i != j ==> s[i].hex != s[j].hex
}

/// The sequence is strictly ascending by key.
pub open spec fn ascending_by_hex(s: Seq<Color>) -> bool {
    forall|i: int, j: int| 0 <= i < j < s.len() ==> s[i].hex < s[j].hex
}

/// Some color of the sequence has the key.
pub open spec fn has_hex(s: Seq<Color>, h: int) -> bool {
    exists|j: int| 0 <= j < s.len() && s[j].hex == h
}

/// The key of pixel `i` after quantizing its three samples.
pub open spec fn pixel_hex(p: Seq<u8>, i: int, delta: int) -> int {
    hex_of(
        quantized(p[3 * i] as int, delta),
        quantized(p[3 * i + 1] as int, delta),
        quantized(p[3 * i + 2] as int, delta),
    )
}

/// How many of the first `n` pixels quantize to the key `h`.
pub open spec fn hex_count(p: Seq<u8>, n: int, h: int, delta: int) -> int
    decreases n,
{
    if n <= 0 {
        0
    } else {
        hex_count(p, n - 1, h, delta) + if pixel_hex(p, n - 1, delta) == h {
            1int
        } else {
            0int
        }
    }
}

/// `w` is the working set of the first `npix` pixels: well formed, ascending
/// by key, one color per key that some pixel quantizes to, weighted by the
/// number of such pixels.
pub open spec fn is_working_set(w: Seq<Color>, p: Seq<u8>, npix: int, delta: int) -> bool {
    &&& all_wf(w)
    &&& ascending_by_hex(w)
    &&& forall|j: int|
        0 <= j < w.len() ==> (#[trigger] w[j]).weight == hex_count(p, npix, w[j].hex as int, delta)
            && w[j].weight >= 1
    &&& forall|k: int| 0 <= k < npix ==> has_hex(w, #[trigger] pixel_hex(p, k, delta))
}

/// The working set of the first `npix` pixels.
pub open spec fn working_set(p: Seq<u8>, npix: int, delta: int) -> Seq<Color> {
    choose|w: Seq<Color>| is_working_set(w, p, npix, delta)
}

/// A key determines the channels it was made from.
pub proof fn lemma_hex_determines_channels(c1: Color, c2: Color)
    requires
        color_wf(c1),
        color_wf(c2),
        c1.hex == c2.hex,
    ensures
        c1.r == c2.r && c1.g == c2.g && c1.b == c2.b,
{
    let x = c1.hex as int;
    vstd::arithmetic::div_mod::lemma_fundamental_div_mod_converse(x, 65536, c1.r as int, c1.g * 256 + c1.b);
    vstd::arithmetic::div_mod::lemma_fundamental_div_mod_converse(x, 65536, c2.r as int, c2.g * 256 + c2.b);
    let y = c1.g * 256 + c1.b;
    vstd::arithmetic::div_mod::lemma_fundamental_div_mod_converse(y, 256, c1.g as int, c1.b as int);
    vstd::arithmetic::div_mod::lemma_fundamental_div_mod_converse(y, 256, c2.g as int, c2.b as int);
}

/// Two ascending sequences with the same keys have them at the same places.
pub proof fn lemma_ascending_same_keys(w1: Seq<Color>, w2: Seq<Color>)
    requires
        ascending_by_hex(w1),
        ascending_by_hex(w2),
        forall|j: int| 0 <= j < w1.len() ==> has_hex(w2, #[trigger] w1[j].hex as int),
        forall|j: int| 0 <= j < w2.len() ==> has_hex(w1, #[trigger] w2[j].hex as int),
    ensures
        w1.len() == w2.len(),
        forall|j: int| 0 <= j < w1.len() ==> #[trigger] w1[j].hex == w2[j].hex,
    decreases w1.len() + w2.len(),
{
    if w1.len() > 0 && w2.len() > 0 {
        assert(w1[0].hex == w2[0].hex) by {
            assert(has_hex(w2, w1[0].hex as int));
            assert(has_hex(w1, w2[0].hex as int));
            let i = choose|i: int| 0 <= i < w1.len() && w1[i].hex == w2[0].hex as int;
            let j = choose|j: int| 0 <= j < w2.len() && w2[j].hex == w1[0].hex as int;
            if i > 0 {
                assert(w1[0].hex < w1[i].hex);
            }
            if j > 0 {
                assert(w2[0].hex < w2[j].hex);
            }
        }
        let t1 = w1.subrange(1, w1.len() as int);
        let t2 = w2.subrange(1, w2.len() as int);
        assert forall|j: int| 0 <= j < t1.len() implies has_hex(t2, #[trigger] t1[j].hex as int) by {
            assert(t1[j] == w1[j + 1]);
            assert(w1[0].hex < w1[j + 1].hex);
            assert(has_hex(w2, w1[j + 1].hex as int));
            let q = choose|q: int| 0 <= q < w2.len() && w2[q].hex == w1[j + 1].hex as int;
            assert(q != 0);
            assert(t2[q - 1] == w2[q]);
        }
        assert forall|j: int| 0 <= j < t2.len() implies has_hex(t1, #[trigger] t2[j].hex as int) by {
            assert(t2[j] == w2[j + 1]);
            assert(w2[0].hex < w2[j + 1].hex);
            assert(has_hex(w1, w2[j + 1].hex as int));
            let q = choose|q: int| 0 <= q < w1.len() && w1[q].hex == w2[j + 1].hex as int;
            assert(q != 0);
            assert(t1[q - 1] == w1[q]);
        }
        lemma_ascending_same_keys(t1, t2);
        assert forall|j: int| 0 <= j < w1.len() implies #[trigger] w1[j].hex == w2[j].hex by {
            if j > 0 {
                assert(t1[j - 1] == w1[j] && t2[j - 1] == w2[j]);
            }
        }
    } else if w1.len() > 0 {
        assert(has_hex(w2, w1[0].hex as int));
    } else if w2.len() > 0 {
        assert(has_hex(w1, w2[0].hex as int));
    }
}

/// A buffer has one working set.
pub proof fn lemma_working_set_unique(w1: Seq<Color>, w2: Seq<Color>, p: Seq<u8>, npix: int, delta: int)
    requires
        is_working_set(w1, p, npix, delta),
        is_working_set(w2, p, npix, delta),
    ensures
        w1 == w2,
{
    assert forall|j: int| 0 <= j < w1.len() implies has_hex(w2, #[trigger] w1[j].hex as int) by {
        lemma_count_witness(p, npix, w1[j].hex as int, delta);
        let k = choose|k: int| 0 <= k < npix && pixel_hex(p, k, delta) == w1[j].hex;
        assert(has_hex(w2, pixel_hex(p, k, delta)));
    }
    assert forall|j: int| 0 <= j < w2.len() implies has_hex(w1, #[trigger] w2[j].hex as int) by {
        lemma_count_witness(p, npix, w2[j].hex as int, delta);
        let k = choose|k: int| 0 <= k < npix && pixel_hex(p, k, delta) == w2[j].hex;
        assert(has_hex(w1, pixel_hex(p, k, delta)));
    }
    lemma_ascending_same_keys(w1, w2);
    assert forall|j: int| 0 <= j < w1.len() implies w1[j] == w2[j] by {
        assert(w1[j].hex == w2[j].hex);
        lemma_hex_determines_channels(w1[j], w2[j]);
    }
    assert(w1 =~= w2);
}

pub proof fn lemma_weight_sum_concat(s: Seq<Color>, t: Seq<Color>)
    ensures
        weight_sum(s + t) == weight_sum(s) + weight_sum(t),
    decreases t.len(),
{
    if t.len() == 0 {
        assert(s + t =~= s);
    } else {
        lemma_weight_sum_concat(s, t.drop_last());
        assert((s + t).drop_last() =~= s + t.drop_last());
    }
}

pub proof fn lemma_weight_sum_update(s: Seq<Color>, i: int, c: Color)
    requires
        0 <= i < s.len(),
    ensures
        weight_sum(s.update(i, c)) == weight_sum(s) - s[i].weight + c.weight,
{
    let u = s.update(i, c);
    assert(s =~= s.subrange(0, i) + seq![s[i]] + s.subrange(i + 1, s.len() as int));
    assert(u =~= s.subrange(0, i) + seq![c] + s.subrange(i + 1, s.len() as int));
    lemma_weight_sum_concat(s.subrange(0, i) + seq![s[i]], s.subrange(i + 1, s.len() as int));
    lemma_weight_sum_concat(s.subrange(0, i), seq![s[i]]);
    lemma_weight_sum_concat(s.subrange(0, i) + seq![c], s.subrange(i + 1, s.len() as int));
    lemma_weight_sum_concat(s.subrange(0, i), seq![c]);
    assert(seq![c].drop_last() =~= Seq::<Color>::empty());
    assert(seq![s[i]].drop_last() =~= Seq::<Color>::empty());
}

pub proof fn lemma_weight_sum_insert(s: Seq<Color>, i: int, c: Color)
    requires
        0 <= i <= s.len(),
    ensures
        weight_sum(s.insert(i, c)) == weight_sum(s) + c.weight,
{
    assert(s =~= s.subrange(0, i) + s.subrange(i, s.len() as int));
    assert(s.insert(i, c) =~= s.subrange(0, i) + seq![c] + s.subrange(i, s.len() as int));
    lemma_weight_sum_concat(s.subrange(0, i), s.subrange(i, s.len() as int));
    lemma_weight_sum_concat(s.subrange(0, i) + seq![c], s.subrange(i, s.len() as int));
    lemma_weight_sum_concat(s.subrange(0, i), seq![c]);
    assert(seq![c].drop_last() =~= Seq::<Color>::empty());
    assert(weight_sum(seq![c]) == weight_sum(seq![c].drop_last()) + c.weight);
}

/// Each weight of a sequence of non-negative weights is at most their total.
pub proof fn lemma_weight_le_sum(s: Seq<Color>, j: int)
    requires
        0 <= j < s.len(),
        forall|i: int| 0 <= i < s.len() ==> (#[trigger] s[i]).weight >= 0,
    ensures
        0 <= s[j].weight <= weight_sum(s),
    decreases s.len(),
{
    lemma_weight_sum_nonneg(s.drop_last());
    if j < s.len() - 1 {
        assert(s.drop_last()[j] == s[j]);
        lemma_weight_le_sum(s.drop_last(), j);
    }
}

pub proof fn lemma_weight_sum_nonneg(s: Seq<Color>)
    requires
        forall|i: int| 0 <= i < s.len() ==> (#[trigger] s[i]).weight >= 0,
    ensures
        weight_sum(s) >= 0,
    decreases s.len(),
{
    if s.len() > 0 {
        assert forall|i: int| 0 <= i < s.drop_last().len() implies (
        #[trigger] s.drop_last()[i]).weight >= 0 by {
            assert(s.drop_last()[i] == s[i]);
        }
        lemma_weight_sum_nonneg(s.drop_last());
    }
}

/// Binary search for a key in a set ascending by key: `Ok` with its place,
/// or `Err` with the place where it would be inserted.
pub fn search_hex(v: &Vec<Color>, hex: i32) -> (r: Result<usize, usize>)
    requires
        ascending_by_hex(v@),
    ensures
        match r {
            Ok(i) => i < v@.len() && v@[i as int].hex == hex,
            Err(i) => i <= v@.len() && (forall|j: int| 0 <= j < i ==> v@[j].hex < hex) && (
            forall|j: int| i <= j < v@.len() ==> v@[j].hex > hex),
        },
{
    let mut lo: usize = 0;
    let mut hi: usize = v.len();
    while lo < hi
        invariant
            lo <= hi <= v@.len(),
            ascending_by_hex(v@),
            forall|j: int| 0 <= j < lo ==> v@[j].hex < hex,
            forall|j: int| hi <= j < v@.len() ==> v@[j].hex > hex,
        decreases hi - lo,
    {
        let mid: usize = lo + (hi - lo) / 2;
        let h: i32 = v[mid].hex;
        if h == hex {
            return Ok(mid);
        } else if h < hex {
            lo = mid + 1;
        } else {
            hi = mid;
        }
    }
    Err(lo)
}

/// Builds the working set of a buffer of `npix` pixels: one color per
/// distinct quantized key, ascending by key, each weighted by the number of
/// pixels that quantize to it.
#[verifier::rlimit(100)]
pub fn accumulate(pixels: &Vec<u8>, npix: usize, delta: u8) -> (colors: Vec<Color>)
    requires
        pixels@.len() == 3 * npix,
        delta >= 1,
    ensures
        all_wf(colors@),
        ascending_by_hex(colors@),
        hexes_unique(colors@),
        forall|j: int|
            0 <= j < colors@.len() ==> colors@[j].weight == hex_count(
                pixels@,
                npix as int,
                #[trigger] colors@[j].hex as int,
                delta as int,
            ) && colors@[j].weight >= 1,
        forall|k: int| 0 <= k < npix ==> has_hex(colors@, #[trigger] pixel_hex(pixels@, k, delta as int)),
        weight_sum(colors@) == npix,
        colors@ == working_set(pixels@, npix as int, delta as int),
{
    let mut colors: Vec<Color> = Vec::new();
    let len: usize = pixels.len();
    let mut i: usize = 0;
    while i < npix
        invariant
            len == pixels@.len(),
            pixels@.len() == 3 * npix,
            delta >= 1,
            i <= npix,
            all_wf(colors@),
            ascending_by_hex(colors@),
            forall|j: int|
                0 <= j < colors@.len() ==> colors@[j].weight == hex_count(
                    pixels@,
                    i as int,
                    #[trigger] colors@[j].hex as int,
                    delta as int,
                ) && 1 <= colors@[j].weight <= i,
            forall|k: int| 0 <= k < i ==> has_hex(colors@, #[trigger] pixel_hex(pixels@, k, delta as int)),
            weight_sum(colors@) == i,
        decreases npix - i,
    {
        let r: i32 = round(pixels[3 * i], delta);
        let g: i32 = round(pixels[3 * i + 1], delta);
        let b: i32 = round(pixels[3 * i + 2], delta);
        assert(r << 16 == r * 65536 && g << 8 == g * 256) by (bit_vector)
            requires
                0 <= r <= 255,
                0 <= g <= 255,
        ;
        let hex: i32 = (r << 16) + (g << 8) + b;
        assert(hex as int == pixel_hex(pixels@, i as int, delta as int));
        let ghost before = colors@;
        match search_hex(&colors, hex) {
            Ok(j) => {
                let mut c: Color = colors[j];
                c.weight = c.weight + 1;
                colors.set(j, c);
                proof {
                    lemma_weight_sum_update(before, j as int, c);
                    assert forall|m: int| 0 <= m < colors@.len() implies colors@[m].weight
                        == hex_count(
                        pixels@,
                        i + 1,
                        #[trigger] colors@[m].hex as int,
                        delta as int,
                    ) && 1 <= colors@[m].weight <= i + 1 by {
                        lemma_count_step(pixels@, i as int, colors@[m].hex as int, delta as int);
                        if m != j {
                            assert(colors@[m] == before[m]);
                            assert(before[m].hex != hex);
                        }
                    }
                    assert forall|k: int| 0 <= k < i + 1 implies has_hex(
                        colors@,
                        #[trigger] pixel_hex(pixels@, k, delta as int),
                    ) by {
                        if k < i {
                            let w = choose|w: int|
                                0 <= w < before.len() && before[w].hex == pixel_hex(
                                    pixels@,
                                    k,
                                    delta as int,
                                );
                            assert(colors@[w].hex == before[w].hex);
                        } else {
                            assert(colors@[j as int].hex == hex);
                        }
                    }
                }
            },
            Err(j) => {
                let c = Color { r, g, b, hex, weight: 1 };
                colors.insert(j, c);
                proof {
                    lemma_weight_sum_insert(before, j as int, c);
                    assert forall|m: int| 0 <= m < colors@.len() implies colors@[m].weight
                        == hex_count(
                        pixels@,
                        i + 1,
                        #[trigger] colors@[m].hex as int,
                        delta as int,
                    ) && 1 <= colors@[m].weight <= i + 1 by {
                        lemma_count_step(pixels@, i as int, colors@[m].hex as int, delta as int);
                        if m < j {
                            assert(colors@[m] == before[m]);
                        } else if m > j {
                            assert(colors@[m] == before[m - 1]);
                        } else {
                            assert(hex_count(pixels@, i as int, hex as int, delta as int) == 0)
                                by {
                                if hex_count(pixels@, i as int, hex as int, delta as int) != 0 {
                                    lemma_count_witness(pixels@, i as int, hex as int, delta as int);
                                    let k = choose|k: int|
                                        0 <= k < i && pixel_hex(pixels@, k, delta as int) == hex;
                                    assert(has_hex(before, pixel_hex(pixels@, k, delta as int)));
                                }
                            }
                        }
                    }
                    assert forall|k: int| 0 <= k < i + 1 implies has_hex(
                        colors@,
                        #[trigger] pixel_hex(pixels@, k, delta as int),
                    ) by {
                        if k < i {
                            let w = choose|w: int|
                                0 <= w < before.len() && before[w].hex == pixel_hex(
                                    pixels@,
                                    k,
                                    delta as int,
                                );
                            if w < j {
                                assert(colors@[w] == before[w]);
                            } else {
                                assert(colors@[w + 1] == before[w]);
                            }
                        } else {
                            assert(colors@[j as int].hex == hex);
                        }
                    }
                }
            },
        }
        i = i + 1;
    }
    proof {
        assert(is_working_set(colors@, pixels@, npix as int, delta as int));
        let w = working_set(pixels@, npix as int, delta as int);
        lemma_working_set_unique(colors@, w, pixels@, npix as int, delta as int);
    }
    colors
}

pub proof fn lemma_count_step(p: Seq<u8>, n: int, h: int, delta: int)
    requires
        n >= 0,
    ensures
        hex_count(p, n + 1, h, delta) == hex_count(p, n, h, delta) + if pixel_hex(p, n, delta)
            == h {
            1int
        } else {
            0int
        },
{
}

/// A key counted among the first `n` pixels belongs to one of them.
pub proof fn lemma_count_witness(p: Seq<u8>, n: int, h: int, delta: int)
    requires
        hex_count(p, n, h, delta) != 0,
    ensures
        exists|k: int| 0 <= k < n && pixel_hex(p, k, delta) == h,
    decreases n,
{
    if n > 0 && pixel_hex(p, n - 1, delta) != h {
        lemma_count_witness(p, n - 1, h, delta);
    }
}

} // verus!
