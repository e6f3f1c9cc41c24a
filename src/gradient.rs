use vstd::prelude::*;

use std::collections::HashMap;

use crate::color::{color_wf, Color};
use crate::working::{
    all_wf, has_hex, hexes_unique, lemma_weight_le_sum, lemma_weight_sum_update, weight_sum,
};

verus! {

broadcast use vstd::std_specs::hash::group_hash_axioms;

/// A neighbor key that may be looked at (`ok`) and is already resolved in `m`.
pub open spec fn probe(m: Map<i32, i32>, ok: bool, h: int) -> bool {
    ok && m.contains_key(h as i32)
}

/// The resolution that the first resolved neighbor of `c` gives, in the order
/// red-minus, green-minus, blue-minus, red-plus, green-plus, blue-plus, or the
/// key of `c` itself when none is resolved. A shift that leaves `[0, 255]` is
/// not looked at.
pub open spec fn adjacent_of(c: Color, m: Map<i32, i32>, delta: int) -> i32 {
    let h = c.hex as int;
    if probe(m, c.r >= delta, h - delta * 65536) {
        m[(h - delta * 65536) as i32]
    } else if probe(m, c.g >= delta, h - delta * 256) {
        m[(h - delta * 256) as i32]
    } else if probe(m, c.b >= delta, h - delta) {
        m[(h - delta) as i32]
    } else if probe(m, c.r + delta <= 255, h + delta * 65536) {
        m[(h + delta * 65536) as i32]
    } else if probe(m, c.g + delta <= 255, h + delta * 256) {
        m[(h + delta * 256) as i32]
    } else if probe(m, c.b + delta <= 255, h + delta) {
        m[(h + delta) as i32]
    } else {
        c.hex
    }
}

/// None of the six axis neighbors of `c` is a key of `s`.
pub open spec fn isolated(s: Seq<Color>, c: Color, delta: int) -> bool {
    let h = c.hex as int;
    &&& !(c.r >= delta && has_hex(s, h - delta * 65536))
    &&& !(c.g >= delta && has_hex(s, h - delta * 256))
    &&& !(c.b >= delta && has_hex(s, h - delta))
    &&& !(c.r + delta <= 255 && has_hex(s, h + delta * 65536))
    &&& !(c.g + delta <= 255 && has_hex(s, h + delta * 256))
    &&& !(c.b + delta <= 255 && has_hex(s, h + delta))
}

/// No color of `s` has a neighbor in `s`.
pub open spec fn no_neighbors(s: Seq<Color>, delta: int) -> bool {
    forall|i: int| 0 <= i < s.len() ==> isolated(s, #[trigger] s[i], delta)
}

/// Total weight of scheduled transfers.
pub open spec fn transfer_sum(o: Seq<(i32, i64)>) -> int
    decreases o.len(),
{
    if o.len() == 0 {
        0
    } else {
        transfer_sum(o.drop_last()) + o.last().1
    }
}

/// The resolution map after visiting the first `k` colors of `s` in order:
/// a color whose key is not yet resolved resolves as `adjacent_of` says.
pub open spec fn resolve_map(s: Seq<Color>, delta: int, k: int) -> Map<i32, i32>
    decreases k,
{
    if k <= 0 || k > s.len() {
        Map::empty()
    } else {
        let m = resolve_map(s, delta, k - 1);
        let c = s[k - 1];
        if m.contains_key(c.hex) {
            m
        } else {
            m.insert(c.hex, adjacent_of(c, m, delta))
        }
    }
}

/// The key that color `j` of `s` resolves to.
pub open spec fn resolution(s: Seq<Color>, delta: int, j: int) -> i32 {
    resolve_map(s, delta, j + 1)[s[j].hex]
}

/// The transfers scheduled while visiting the first `k` colors: one
/// `(target key, weight)` for each color that resolves elsewhere.
pub open spec fn transfers(s: Seq<Color>, delta: int, k: int) -> Seq<(i32, i64)>
    decreases k,
{
    if k <= 0 || k > s.len() {
        Seq::empty()
    } else {
        let o = transfers(s, delta, k - 1);
        if resolution(s, delta, k - 1) != s[k - 1].hex {
            o.push((resolution(s, delta, k - 1), s[k - 1].weight))
        } else {
            o
        }
    }
}

/// Total weight that the transfers in `o` send to the key `h`.
pub open spec fn inflow(o: Seq<(i32, i64)>, h: i32) -> int
    decreases o.len(),
{
    if o.len() == 0 {
        0
    } else {
        inflow(o.drop_last(), h) + if o.last().0 == h {
            o.last().1 as int
        } else {
            0int
        }
    }
}

/// The weight color `j` keeps for itself: none if it resolves elsewhere.
pub open spec fn kept_weight(s: Seq<Color>, delta: int, j: int) -> int {
    if resolution(s, delta, j) != s[j].hex {
        0
    } else {
        s[j].weight as int
    }
}

/// `c` with another weight.
pub open spec fn with_weight(c: Color, w: int) -> Color {
    Color { r: c.r, g: c.g, b: c.b, hex: c.hex, weight: w as i64 }
}

/// Every color of `s` after all transfers are applied.
pub open spec fn merged(s: Seq<Color>, delta: int) -> Seq<Color> {
    Seq::new(
        s.len(),
        |j: int|
            with_weight(s[j], kept_weight(s, delta, j) + inflow(transfers(s, delta, s.len() as int), s[j].hex)),
    )
}

/// The colors of `t` whose weight is positive, in order.
pub open spec fn live(t: Seq<Color>) -> Seq<Color>
    decreases t.len(),
{
    if t.len() == 0 {
        t
    } else if t.last().weight > 0 {
        live(t.drop_last()).push(t.last())
    } else {
        live(t.drop_last())
    }
}

/// A resolved key keeps its resolution as more colors are visited.
pub proof fn lemma_resolution_stable(s: Seq<Color>, delta: int, k: int, k2: int, key: i32)
    requires
        0 <= k <= k2 <= s.len(),
        resolve_map(s, delta, k).contains_key(key),
    ensures
        resolve_map(s, delta, k2).contains_key(key),
        resolve_map(s, delta, k2)[key] == resolve_map(s, delta, k)[key],
    decreases k2 - k,
{
    if k < k2 {
        lemma_resolution_stable(s, delta, k, k2 - 1, key);
    }
}

/// Every key of `t` is a key of `s`.
pub open spec fn hexes_from(t: Seq<Color>, s: Seq<Color>) -> bool {
    forall|j: int| 0 <= j < t.len() ==> has_hex(s, #[trigger] t[j].hex as int)
}

/// Looks up the resolution of the first resolved axis neighbor of `c`.
pub fn find_adjacent(c: &Color, gradients: &HashMap<i32, i32>, delta: u8) -> (r: i32)
    requires
        color_wf(*c),
    ensures
        r == adjacent_of(*c, gradients@, delta as int),
{
    let delta: i32 = delta as i32;
    if c.r >= delta {
        let hex: i32 = c.hex - delta * 65536;
        if let Some(g) = gradients.get(&hex) {
            return *g;
        }
    }
    if c.g >= delta {
        let hex: i32 = c.hex - delta * 256;
        if let Some(g) = gradients.get(&hex) {
            return *g;
        }
    }
    if c.b >= delta {
        let hex: i32 = c.hex - delta;
        if let Some(g) = gradients.get(&hex) {
            return *g;
        }
    }
    if c.r + delta <= 255 {
        let hex: i32 = c.hex + delta * 65536;
        if let Some(g) = gradients.get(&hex) {
            return *g;
        }
    }
    if c.g + delta <= 255 {
        let hex: i32 = c.hex + delta * 256;
        if let Some(g) = gradients.get(&hex) {
            return *g;
        }
    }
    if c.b + delta <= 255 {
        let hex: i32 = c.hex + delta;
        if let Some(g) = gradients.get(&hex) {
            return *g;
        }
    }
    c.hex
}

/// With every resolved key a key of `s`, an isolated color resolves to itself.
proof fn lemma_isolated_resolves_to_self(s: Seq<Color>, c: Color, m: Map<i32, i32>, delta: int)
    requires
        color_wf(c),
        1 <= delta <= 255,
        isolated(s, c, delta),
        forall|k: i32| m.contains_key(k) ==> has_hex(s, k as int),
    ensures
        adjacent_of(c, m, delta) == c.hex,
{
    let h = c.hex as int;
    assert(c.r >= delta ==> !m.contains_key((h - delta * 65536) as i32));
    assert(c.g >= delta ==> !m.contains_key((h - delta * 256) as i32));
    assert(c.b >= delta ==> !m.contains_key((h - delta) as i32));
    assert(c.r + delta <= 255 ==> !m.contains_key((h + delta * 65536) as i32));
    assert(c.g + delta <= 255 ==> !m.contains_key((h + delta * 256) as i32));
    assert(c.b + delta <= 255 ==> !m.contains_key((h + delta) as i32));
}

proof fn lemma_transfer_sum_nonneg(o: Seq<(i32, i64)>)
    requires
        forall|t: int| 0 <= t < o.len() ==> (#[trigger] o[t]).1 >= 0,
    ensures
        transfer_sum(o) >= 0,
    decreases o.len(),
{
    if o.len() > 0 {
        assert forall|t: int| 0 <= t < o.drop_last().len() implies (
        #[trigger] o.drop_last()[t]).1 >= 0 by {
            assert(o.drop_last()[t] == o[t]);
        }
        lemma_transfer_sum_nonneg(o.drop_last());
    }
}

/// Index of the color with the given key; the key must be present.
fn position_of(v: &Vec<Color>, hex: i32) -> (j: usize)
    requires
        has_hex(v@, hex as int),
    ensures
        j < v@.len(),
        v@[j as int].hex == hex,
{
    let mut j: usize = 0;
    while j < v.len()
        invariant
            j <= v@.len(),
            has_hex(v@, hex as int),
            forall|q: int| 0 <= q < j ==> v@[q].hex != hex,
        decreases v@.len() - j,
    {
        if v[j].hex == hex {
            return j;
        }
        j = j + 1;
    }
    j
}

/// Merges each color into the dominant resolution of its first resolved
/// neighbor, visiting colors in the order given (heaviest first in the
/// pipeline), then drops the colors whose weight went to the others.
#[verifier::rlimit(60)]
pub fn reduce_gradients(colors: &Vec<Color>, delta: u8) -> (res: Vec<Color>)
    requires
        delta >= 1,
        all_wf(colors@),
        hexes_unique(colors@),
        forall|j: int| 0 <= j < colors@.len() ==> (#[trigger] colors@[j]).weight >= 1,
        weight_sum(colors@) <= i64::MAX,
    ensures
        all_wf(res@),
        hexes_unique(res@),
        forall|j: int| 0 <= j < res@.len() ==> (#[trigger] res@[j]).weight >= 1,
        hexes_from(res@, colors@),
        weight_sum(res@) == weight_sum(colors@),
        no_neighbors(colors@, delta as int) ==> res@ == colors@,
        res@ == live(merged(colors@, delta as int)),
{
    let n: usize = colors.len();
    let ghost total = weight_sum(colors@);
    let ghost lone = no_neighbors(colors@, delta as int);
    let mut work: Vec<Color> = Vec::new();
    let mut i: usize = 0;
    while i < n
        invariant
            n == colors@.len(),
            i <= n,
            work@ == colors@.take(i as int),
        decreases n - i,
    {
        work.push(colors[i]);
        proof {
            assert(colors@.take(i + 1) =~= colors@.take(i as int).push(colors@[i as int]));
        }
        i = i + 1;
    }
    proof {
        assert(colors@.take(n as int) =~= colors@);
    }
    let mut gradients: HashMap<i32, i32> = HashMap::new();
    let mut ops: Vec<(i32, i64)> = Vec::new();
    i = 0;
    while i < n
        invariant
            n == colors@.len() == work@.len(),
            i <= n,
            delta >= 1,
            all_wf(colors@),
            hexes_unique(colors@),
            forall|j: int| 0 <= j < colors@.len() ==> (#[trigger] colors@[j]).weight >= 1,
            total == weight_sum(colors@),
            lone == no_neighbors(colors@, delta as int),
            forall|j: int|
                0 <= j < n ==> {
                    &&& (#[trigger] work@[j]).r == colors@[j].r
                    &&& work@[j].g == colors@[j].g
                    &&& work@[j].b == colors@[j].b
                    &&& work@[j].hex == colors@[j].hex
                    &&& (work@[j].weight == colors@[j].weight || (j < i && work@[j].weight
                        == 0))
                },
            forall|k: i32|
                #[trigger] gradients@.contains_key(k) ==> has_hex(colors@, k as int) && has_hex(
                    colors@,
                    gradients@[k] as int,
                ),
            forall|t: int|
                0 <= t < ops@.len() ==> has_hex(colors@, (#[trigger] ops@[t]).0 as int)
                    && ops@[t].1 >= 1,
            weight_sum(work@) + transfer_sum(ops@) == total,
            lone ==> ops@.len() == 0 && work@ == colors@ && forall|k: i32|
                #[trigger] gradients@.contains_key(k) ==> gradients@[k] == k,
            gradients@ == resolve_map(colors@, delta as int, i as int),
            ops@ == transfers(colors@, delta as int, i as int),
            forall|j: int|
                0 <= j < i ==> (#[trigger] work@[j]).weight == kept_weight(colors@, delta as int, j),
        decreases n - i,
    {
        let c: Color = work[i];
        assert(color_wf(colors@[i as int]));
        let ghost m0 = gradients@;
        let hex: i32 = match gradients.get(&c.hex) {
            Some(g) => {
                proof {
                    assert(c.hex == colors@[i as int].hex);
                }
                *g
            },
            None => {
                let h: i32 = find_adjacent(&c, &gradients, delta);
                proof {
                    if lone {
                        assert(isolated(colors@, colors@[i as int], delta as int));
                        lemma_isolated_resolves_to_self(colors@, c, gradients@, delta as int);
                    }
                    let h0 = c.hex as int;
                    let d = delta as int;
                    // A resolution other than the key itself is the value of a resolved neighbor.
                    if h != c.hex {
                        if probe(gradients@, c.r >= d, h0 - d * 65536) {
                        } else if probe(gradients@, c.g >= d, h0 - d * 256) {
                        } else if probe(gradients@, c.b >= d, h0 - d) {
                        } else if probe(gradients@, c.r + d <= 255, h0 + d * 65536) {
                        } else if probe(gradients@, c.g + d <= 255, h0 + d * 256) {
                        } else if probe(gradients@, c.b + d <= 255, h0 + d) {
                        }
                    }
                    assert(has_hex(colors@, c.hex as int)) by {
                        assert(colors@[i as int].hex == c.hex);
                    }
                    assert(has_hex(colors@, h as int));
                }
                gradients.insert(c.hex, h);
                h
            },
        };
        proof {
            assert(resolve_map(colors@, delta as int, i + 1) == gradients@);
            assert(resolution(colors@, delta as int, i as int) == hex);
            assert forall|j: int| 0 <= j < i implies resolution(colors@, delta as int, j)
                == resolve_map(colors@, delta as int, i + 1)[colors@[j].hex] by {
                lemma_resolution_stable(colors@, delta as int, j + 1, i + 1, colors@[j].hex);
            }
        }
        if hex != c.hex {
            let ghost before_work = work@;
            let ghost before_ops = ops@;
            ops.push((hex, c.weight));
            let mut z: Color = c;
            z.weight = 0;
            work.set(i, z);
            proof {
                lemma_weight_sum_update(before_work, i as int, z);
                assert(ops@.drop_last() =~= before_ops);
            }
        }
        i = i + 1;
    }
    let ghost all_ops = ops@;
    while ops.len() > 0
        invariant
            all_ops == transfers(colors@, delta as int, n as int),
            forall|j: int|
                0 <= j < n ==> (#[trigger] work@[j]).weight + inflow(ops@, work@[j].hex)
                    == kept_weight(colors@, delta as int, j) + inflow(all_ops, colors@[j].hex),
            n == colors@.len() == work@.len(),
            all_wf(colors@),
            hexes_unique(colors@),
            forall|j: int| 0 <= j < colors@.len() ==> (#[trigger] colors@[j]).weight >= 1,
            total == weight_sum(colors@),
            total <= i64::MAX,
            forall|j: int|
                0 <= j < n ==> {
                    &&& (#[trigger] work@[j]).r == colors@[j].r
                    &&& work@[j].g == colors@[j].g
                    &&& work@[j].b == colors@[j].b
                    &&& work@[j].hex == colors@[j].hex
                    &&& work@[j].weight >= 0
                },
            forall|t: int|
                0 <= t < ops@.len() ==> has_hex(colors@, (#[trigger] ops@[t]).0 as int)
                    && ops@[t].1 >= 1,
            weight_sum(work@) + transfer_sum(ops@) == total,
            lone ==> ops@.len() == 0 && work@ == colors@,
        decreases ops@.len(),
    {
        let ghost before_ops = ops@;
        let op = ops.pop();
        match op {
            Some((hex, w)) => {
                proof {
                    assert(before_ops.drop_last() =~= ops@);
                    assert(before_ops.last() == (hex, w));
                    assert(has_hex(colors@, hex as int)) by {
                        assert(before_ops[before_ops.len() - 1] == (hex, w));
                    }
                    let q = choose|q: int| 0 <= q < colors@.len() && colors@[q].hex == hex as int;
                    assert(work@[q].hex == hex);
                    assert(has_hex(work@, hex as int));
                }
                let j: usize = position_of(&work, hex);
                proof {
                    assert forall|t: int| 0 <= t < ops@.len() implies (#[trigger] ops@[t]).1 >= 0 by {
                        assert(ops@[t] == before_ops[t]);
                    }
                    lemma_transfer_sum_nonneg(ops@);
                    assert forall|q: int| 0 <= q < work@.len() implies (
                    #[trigger] work@[q]).weight >= 0 by {}
                    lemma_weight_le_sum(work@, j as int);
                }
                let mut c: Color = work[j];
                c.weight = c.weight + w;
                let ghost before_work = work@;
                work.set(j, c);
                proof {
                    lemma_weight_sum_update(before_work, j as int, c);
                    assert forall|q: int| 0 <= q < n implies (#[trigger] work@[q]).weight + inflow(
                        ops@,
                        work@[q].hex,
                    ) == kept_weight(colors@, delta as int, q) + inflow(all_ops, colors@[q].hex) by {
                        assert(inflow(before_ops, before_work[q].hex) == inflow(ops@, before_work[q].hex)
                            + if hex == before_work[q].hex {
                            w as int
                        } else {
                            0int
                        });
                        if q != j {
                            assert(colors@[q].hex != colors@[j as int].hex);
                        }
                    }
                }
            },
            None => {},
        }
    }
    proof {
        assert forall|j: int| 0 <= j < n implies #[trigger] work@[j] == merged(colors@, delta as int)[j] by {
            assert(inflow(ops@, work@[j].hex) == 0);
        }
        assert(work@ =~= merged(colors@, delta as int));
    }
    let mut res: Vec<Color> = Vec::new();
    let ghost mut idx: Seq<int> = Seq::empty();
    i = 0;
    while i < n
        invariant
            n == colors@.len() == work@.len(),
            i <= n,
            all_wf(colors@),
            hexes_unique(colors@),
            forall|j: int| 0 <= j < colors@.len() ==> (#[trigger] colors@[j]).weight >= 1,
            forall|j: int|
                0 <= j < n ==> {
                    &&& (#[trigger] work@[j]).r == colors@[j].r
                    &&& work@[j].g == colors@[j].g
                    &&& work@[j].b == colors@[j].b
                    &&& work@[j].hex == colors@[j].hex
                    &&& work@[j].weight >= 0
                },
            idx.len() == res@.len(),
            forall|a: int| 0 <= a < idx.len() ==> 0 <= #[trigger] idx[a] < i && res@[a] == work@[idx[a]] && res@[a].weight >= 1,
            forall|a: int, b: int| 0 <= a < b < idx.len() ==> idx[a] < idx[b],
            weight_sum(res@) == weight_sum(work@.take(i as int)),
            lone ==> work@ == colors@ && res@ == work@.take(i as int),
            work@ == merged(colors@, delta as int),
            res@ == live(work@.take(i as int)),
        decreases n - i,
    {
        let c: Color = work[i];
        proof {
            assert(work@.take(i + 1) =~= work@.take(i as int).push(c));
            assert(work@.take(i + 1).drop_last() =~= work@.take(i as int));
            assert(work@.take(i + 1).last() == c);
        }
        if c.weight > 0 {
            let ghost before = res@;
            res.push(c);
            proof {
                idx = idx.push(i as int);
                assert(res@.drop_last() =~= before);
                if lone {
                    assert(res@ =~= work@.take(i + 1));
                }
            }
        } else {
            proof {
                if lone {
                    assert(c == colors@[i as int]);
                }
            }
        }
        i = i + 1;
    }
    proof {
        assert(work@.take(n as int) =~= work@);
        assert forall|j: int| 0 <= j < res@.len() implies (#[trigger] res@[j]).weight >= 1 by {
            assert(res@[j] == work@[idx[j]]);
        }
        assert forall|j: int| 0 <= j < res@.len() implies color_wf(#[trigger] res@[j]) by {
            assert(color_wf(colors@[idx[j]]));
        }
        assert forall|a: int, b: int|
            0 <= a < res@.len() && 0 <= b < res@.len() && a != b implies res@[a].hex
            != res@[b].hex by {
            assert(idx[a] != idx[b]) by {
                if a < b {
                    assert(idx[a] < idx[b]);
                } else {
                    assert(idx[b] < idx[a]);
                }
            }
            assert(colors@[idx[a]].hex != colors@[idx[b]].hex);
        }
        assert forall|j: int| 0 <= j < res@.len() implies has_hex(
            colors@,
            #[trigger] res@[j].hex as int,
        ) by {
            assert(colors@[idx[j]].hex == res@[j].hex);
        }
    }
    res
}

} // verus!
