//! The palette builder: reduces a sample sequence to at most K
//! representative colors by weighted iterative clustering.
//!
//! Seeding is deterministic: the initial centroids are the first K distinct
//! colors of the input, in order of first appearance.  Refinement then
//! alternates nearest-centroid assignment and weighted-mean recomputation
//! until the assignment stops changing, with at most sixteen assignment
//! passes in all.  Clusters left empty by the final assignment are dropped.

use vstd::prelude::*;
use vstd::pervasive::VecAdditionalExecFns;
use vstd::arithmetic::div_mod::lemma_div_by_multiple;
use vstd::arithmetic::div_mod::lemma_div_is_ordered;
use vstd::arithmetic::div_mod::lemma_div_multiples_vanish;
use vstd::set_lib::lemma_int_range;
use vstd::set_lib::lemma_len_subset;
use vstd::set_lib::lemma_map_size_bound;
use vstd::set_lib::set_int_range;

use crate::color::Color;
use crate::color::color_dist;
use crate::color::dist;
use crate::color::lemma_dist_properties;

verus! {

/// Index of the palette entry nearest to `c` under the distance metric;
/// the earliest index wins ties.
pub open spec fn nearest_in(pal: Seq<Color>, c: Color) -> int
    decreases pal.len(),
{
    if pal.len() <= 1 {
        0
    } else {
        let rest = nearest_in(pal.drop_last(), c);
        if dist(pal.last(), c) < dist(pal[rest], c) {
            pal.len() - 1
        } else {
            rest
        }
    }
}

/// No two palette entries are equal.
pub open spec fn no_duplicates(pal: Seq<Color>) -> bool {
    forall|p: int, q: int| 0 <= p < q < pal.len() ==> pal[p] != pal[q]
}

/// The nearest index is in range and minimizes the distance; among entries
/// of minimal distance it is the earliest.
pub proof fn lemma_nearest_min(pal: Seq<Color>, c: Color)
    requires
        pal.len() >= 1,
    ensures
        0 <= nearest_in(pal, c) < pal.len(),
        forall|j: int|
            0 <= j < pal.len() ==> dist(pal[nearest_in(pal, c)], c) <= dist(#[trigger] pal[j], c),
        forall|j: int|
            0 <= j < nearest_in(pal, c) ==> dist(pal[nearest_in(pal, c)], c) < dist(
                #[trigger] pal[j],
                c,
            ),
    decreases pal.len(),
{
    if pal.len() > 1 {
        lemma_nearest_min(pal.drop_last(), c);
        assert(forall|j: int| 0 <= j < pal.len() - 1 ==> pal.drop_last()[j] == #[trigger] pal[j]);
    }
}

/// When the palette has no duplicates and holds `c` at position `i`, the
/// nearest entry to `c` is exactly position `i`, at distance zero.
pub proof fn lemma_nearest_exact(pal: Seq<Color>, c: Color, i: int)
    requires
        0 <= i < pal.len(),
        pal[i] == c,
        no_duplicates(pal),
    ensures
        nearest_in(pal, c) == i,
        dist(pal[nearest_in(pal, c)], c) == 0,
{
    lemma_nearest_min(pal, c);
    let n = nearest_in(pal, c);
    lemma_dist_properties(pal[i], c);
    lemma_dist_properties(pal[n], c);
    assert(dist(pal[n], c) <= dist(pal[i], c));
    assert(pal[n] == c);
    if n != i {
        assert(pal[n] == pal[i]);
        assert(false);
    }
}

/// Finds the palette entry nearest to `c`; the earliest index wins ties.
pub fn nearest_index(pal: &Vec<Color>, c: Color) -> (idx: usize)
    requires
        pal@.len() >= 1,
    ensures
        idx == nearest_in(pal@, c),
        idx < pal@.len(),
{
    let mut best: usize = 0;
    let mut best_d: u32 = color_dist(pal[0], c);
    let mut i: usize = 1;
    while i < pal.len()
        invariant
            1 <= i <= pal@.len(),
            best < i,
            best == nearest_in(pal@.take(i as int), c),
            best_d == dist(pal@[best as int], c),
        decreases pal@.len() - i,
    {
        let d = color_dist(pal[i], c);
        proof {
            assert(pal@.take(i as int + 1).drop_last() =~= pal@.take(i as int));
            assert(pal@.take(i as int + 1).last() == pal@[i as int]);
        }
        if d < best_d {
            best = i;
            best_d = d;
        }
        i = i + 1;
    }
    proof {
        assert(pal@.take(pal@.len() as int) =~= pal@);
    }
    best
}

/// The distinct colors of `s`, in order of first appearance.
pub open spec fn distinct_seq(s: Seq<Color>) -> Seq<Color>
    decreases s.len(),
{
    if s.len() == 0 {
        Seq::empty()
    } else {
        let d = distinct_seq(s.drop_last());
        if d.contains(s.last()) {
            d
        } else {
            d.push(s.last())
        }
    }
}

/// Basic shape of the distinct-color sequence: it is no longer than the
/// input, has no duplicates, covers every input color, and draws every
/// entry from the input.
pub proof fn lemma_distinct_seq(s: Seq<Color>)
    ensures
        distinct_seq(s).len() <= s.len(),
        s.len() >= 1 ==> distinct_seq(s).len() >= 1,
        no_duplicates(distinct_seq(s)),
        forall|i: int| 0 <= i < s.len() ==> distinct_seq(s).contains(#[trigger] s[i]),
        forall|j: int| 0 <= j < distinct_seq(s).len() ==> s.contains(#[trigger] distinct_seq(s)[j]),
    decreases s.len(),
{
    if s.len() > 0 {
        let t = s.drop_last();
        let d = distinct_seq(t);
        lemma_distinct_seq(t);
        assert(forall|i: int| 0 <= i < t.len() ==> t[i] == #[trigger] s[i]);
        assert forall|i: int| 0 <= i < s.len() implies distinct_seq(s).contains(#[trigger] s[i]) by {
            if i < s.len() - 1 {
                assert(d.contains(s[i]));
                let w = choose|w: int| 0 <= w < d.len() && d[w] == s[i];
                assert(distinct_seq(s)[w] == s[i]);
            } else {
                if d.contains(s.last()) {
                    let w = choose|w: int| 0 <= w < d.len() && d[w] == s.last();
                    assert(distinct_seq(s)[w] == s[i]);
                } else {
                    assert(distinct_seq(s).last() == s[i]);
                }
            }
        }
        assert forall|j: int|
            0 <= j < distinct_seq(s).len() implies s.contains(
            #[trigger] distinct_seq(s)[j],
        ) by {
            if j < d.len() {
                assert(t.contains(d[j]));
                let w = choose|w: int| 0 <= w < t.len() && t[w] == d[j];
                assert(s[w] == distinct_seq(s)[j]);
            } else {
                assert(distinct_seq(s)[j] == s.last());
                assert(s[s.len() - 1] == s.last());
            }
        }
        if !d.contains(s.last()) {
            assert forall|p: int, q: int|
                0 <= p < q < distinct_seq(s).len() implies distinct_seq(s)[p] != distinct_seq(
                s,
            )[q] by {
                if q == distinct_seq(s).len() - 1 {
                    assert(distinct_seq(s)[p] == d[p]);
                    if d[p] == s.last() {
                        assert(d.contains(s.last()));
                    }
                }
            }
        }
    }
}

/// The distinct colors of a prefix form a prefix of the distinct colors of
/// the whole sequence.
pub proof fn lemma_distinct_prefix(s: Seq<Color>, i: int)
    requires
        0 <= i <= s.len(),
    ensures
        distinct_seq(s.take(i)).len() <= distinct_seq(s).len(),
        forall|j: int|
            0 <= j < distinct_seq(s.take(i)).len() ==> distinct_seq(s.take(i))[j]
                == #[trigger] distinct_seq(s)[j],
    decreases s.len() - i,
{
    if i == s.len() {
        assert(s.take(i) =~= s);
    } else {
        lemma_distinct_prefix(s, i + 1);
        assert(s.take(i + 1).drop_last() =~= s.take(i));
        assert(s.take(i + 1).last() == s[i]);
    }
}

/// The deterministic seed palette: the first `k` distinct colors of `s`.
pub open spec fn seeds_spec(s: Seq<Color>, k: int) -> Seq<Color> {
    let d = distinct_seq(s);
    if d.len() <= k {
        d
    } else {
        d.take(k)
    }
}

/// Reports whether `v` holds `c`.
fn contains_color(v: &Vec<Color>, c: Color) -> (out: bool)
    ensures
        out == v@.contains(c),
{
    let mut i: usize = 0;
    while i < v.len()
        invariant
            0 <= i <= v@.len(),
            forall|j: int| 0 <= j < i ==> v@[j] != c,
        decreases v@.len() - i,
    {
        if v[i] == c {
            return true;
        }
        i = i + 1;
    }
    false
}

/// Collects the seed centroids: the first `k` distinct colors of the
/// samples, in order of first appearance.
fn seed_palette(samples: &Vec<Color>, k: usize) -> (seeds: Vec<Color>)
    requires
        k >= 1,
    ensures
        seeds@ == seeds_spec(samples@, k as int),
        seeds@.len() <= k,
{
    let mut seeds: Vec<Color> = Vec::new();
    let mut i: usize = 0;
    proof {
        assert(samples@.take(0) =~= Seq::<Color>::empty());
    }
    while i < samples.len()
        invariant
            0 <= i <= samples@.len(),
            seeds@.len() <= k,
            seeds@ == seeds_spec(samples@.take(i as int), k as int),
        decreases samples@.len() - i,
    {
        let ghost pre = samples@.take(i as int);
        let ghost post = samples@.take(i as int + 1);
        proof {
            assert(post.drop_last() =~= pre);
            assert(post.last() == samples@[i as int]);
            lemma_distinct_seq(pre);
        }
        if seeds.len() < k {
            let c = samples[i];
            if !contains_color(&seeds, c) {
                seeds.push(c);
            }
        } else {
            proof {
                // Once k seeds exist the distinct prefix is at least k long,
                // and growing the input only extends it past position k.
                lemma_distinct_prefix(post, i as int);
                assert(post.take(i as int) =~= pre);
                assert(seeds@ =~= distinct_seq(post).take(k as int));
            }
        }
        i = i + 1;
    }
    proof {
        assert(samples@.take(samples@.len() as int) =~= samples@);
    }
    seeds
}

/// An assignment vector seen as a sequence of mathematical integers.
pub open spec fn a_int(a: Seq<usize>) -> Seq<int> {
    a.map_values(|x: usize| x as int)
}

/// Per-sample nearest-centroid assignment.
pub open spec fn assign_spec(s: Seq<Color>, cents: Seq<Color>) -> Seq<int> {
    s.map_values(|c: Color| nearest_in(cents, c))
}

/// How many samples the assignment sends to cluster `j`.
pub open spec fn cluster_count(a: Seq<int>, j: int) -> nat
    decreases a.len(),
{
    if a.len() == 0 {
        0
    } else {
        cluster_count(a.drop_last(), j) + (if a.last() == j {
            1nat
        } else {
            0nat
        })
    }
}

/// Channel selector: 0 is red, 1 green, 2 blue, anything else alpha.
pub open spec fn channel(c: Color, ch: int) -> u8 {
    if ch == 0 {
        c.r
    } else if ch == 1 {
        c.g
    } else if ch == 2 {
        c.b
    } else {
        c.a
    }
}

/// Sum of one channel over the samples assigned to cluster `j`.
pub open spec fn cluster_sum(s: Seq<Color>, a: Seq<int>, j: int, ch: int) -> int
    decreases s.len(),
{
    if s.len() == 0 {
        0
    } else {
        cluster_sum(s.drop_last(), a.drop_last(), j, ch) + (if a.last() == j {
            channel(s.last(), ch) as int
        } else {
            0
        })
    }
}

/// A cluster holds no more samples than the assignment is long.
pub proof fn lemma_count_le_len(a: Seq<int>, j: int)
    ensures
        cluster_count(a, j) <= a.len(),
    decreases a.len(),
{
    if a.len() > 0 {
        lemma_count_le_len(a.drop_last(), j);
    }
}

/// A cluster is inhabited exactly when some assignment entry names it.
pub proof fn lemma_count_pos(a: Seq<int>, j: int)
    ensures
        cluster_count(a, j) > 0 <==> exists|i: int| 0 <= i < a.len() && a[i] == j,
    decreases a.len(),
{
    if a.len() > 0 {
        lemma_count_pos(a.drop_last(), j);
        if a.last() == j {
            assert(a[a.len() - 1] == j);
        } else {
            if cluster_count(a, j) > 0 {
                let i = choose|i: int| 0 <= i < a.len() - 1 && a.drop_last()[i] == j;
                assert(a[i] == j);
            }
            if exists|i: int| 0 <= i < a.len() && a[i] == j {
                let i = choose|i: int| 0 <= i < a.len() && a[i] == j;
                assert(i < a.len() - 1 && a.drop_last()[i] == j);
            }
        }
    }
}

/// Channel sums lie between zero and 255 per assigned sample.
pub proof fn lemma_cluster_sum_bound(s: Seq<Color>, a: Seq<int>, j: int, ch: int)
    requires
        s.len() == a.len(),
    ensures
        0 <= cluster_sum(s, a, j, ch) <= 255 * cluster_count(a, j),
    decreases s.len(),
{
    if s.len() > 0 {
        lemma_cluster_sum_bound(s.drop_last(), a.drop_last(), j, ch);
    }
}

/// When every sample of cluster `j` has color `col`, the channel sums are
/// exactly the count times the channel of `col`.
pub proof fn lemma_cluster_sum_constant(s: Seq<Color>, a: Seq<int>, j: int, ch: int, col: Color)
    requires
        s.len() == a.len(),
        forall|i: int| 0 <= i < s.len() && a[i] == j ==> #[trigger] s[i] == col,
    ensures
        cluster_sum(s, a, j, ch) == cluster_count(a, j) * channel(col, ch),
    decreases s.len(),
{
    if s.len() > 0 {
        assert(forall|i: int|
            0 <= i < s.len() - 1 && a.drop_last()[i] == j ==> #[trigger] s.drop_last()[i] == col);
        lemma_cluster_sum_constant(s.drop_last(), a.drop_last(), j, ch, col);
        if a.last() == j {
            assert(s[s.len() - 1] == col);
            assert(s.last() == col);
            assert(cluster_count(a, j) == cluster_count(a.drop_last(), j) + 1);
            assert(cluster_sum(s, a, j, ch) == cluster_sum(s.drop_last(), a.drop_last(), j, ch)
                + channel(col, ch));
            let n0 = cluster_count(a.drop_last(), j) as int;
            let v = channel(col, ch) as int;
            assert((n0 + 1) * v == n0 * v + v) by (nonlinear_arith);
            assert(cluster_sum(s, a, j, ch) == n0 * v + v);
            assert(cluster_count(a, j) * channel(col, ch) == (n0 + 1) * v);
            assert(cluster_sum(s, a, j, ch) == cluster_count(a, j) * channel(col, ch));
        } else {
            assert(cluster_count(a, j) == cluster_count(a.drop_last(), j));
            assert(cluster_sum(s, a, j, ch) == cluster_sum(s.drop_last(), a.drop_last(), j, ch));
            assert(cluster_sum(s, a, j, ch) == cluster_count(a, j) * channel(col, ch));
        }
    } else {
        assert(cluster_count(a, j) == 0);
        assert(cluster_sum(s, a, j, ch) == 0);
        assert(cluster_sum(s, a, j, ch) == cluster_count(a, j) * channel(col, ch));
    }
}

/// The weighted mean of cluster `j`: each channel is the floor of its sum
/// divided by the sample count.  Meaningful only for inhabited clusters.
pub open spec fn mean_color(s: Seq<Color>, a: Seq<int>, j: int) -> Color {
    let n = cluster_count(a, j) as int;
    Color {
        r: (cluster_sum(s, a, j, 0) / n) as u8,
        g: (cluster_sum(s, a, j, 1) / n) as u8,
        b: (cluster_sum(s, a, j, 2) / n) as u8,
        a: (cluster_sum(s, a, j, 3) / n) as u8,
    }
}

/// One centroid-recomputation step: inhabited clusters move to their
/// weighted mean, empty clusters keep their old centroid.
pub open spec fn recompute_spec(s: Seq<Color>, a: Seq<int>, cents: Seq<Color>) -> Seq<Color> {
    Seq::new(
        cents.len(),
        |j: int|
            if cluster_count(a, j) > 0 {
                mean_color(s, a, j)
            } else {
                cents[j]
            },
    )
}

/// Alternates recomputation and reassignment until the assignment stops
/// changing or the fuel runs out.
pub open spec fn iterate_spec(s: Seq<Color>, cents: Seq<Color>, a: Seq<int>, fuel: nat) -> (
    Seq<Color>,
    Seq<int>,
)
    decreases fuel,
{
    if fuel == 0 {
        (cents, a)
    } else {
        let nc = recompute_spec(s, a, cents);
        let na = assign_spec(s, nc);
        if na == a {
            (nc, na)
        } else {
            iterate_spec(s, nc, na, (fuel - 1) as nat)
        }
    }
}

/// Refinement keeps the centroid count and leaves the assignment
/// consistent with the centroids.
pub proof fn lemma_iterate_props(s: Seq<Color>, cents: Seq<Color>, a: Seq<int>, fuel: nat)
    requires
        a == assign_spec(s, cents),
    ensures
        iterate_spec(s, cents, a, fuel).0.len() == cents.len(),
        iterate_spec(s, cents, a, fuel).1 == assign_spec(s, iterate_spec(s, cents, a, fuel).0),
    decreases fuel,
{
    if fuel > 0 {
        let nc = recompute_spec(s, a, cents);
        let na = assign_spec(s, nc);
        if na != a {
            lemma_iterate_props(s, nc, na, (fuel - 1) as nat);
        }
    }
}

/// Drops the centroids of clusters that the final assignment left empty,
/// keeping the rest in order.
pub open spec fn drop_empty_spec(cents: Seq<Color>, a: Seq<int>) -> Seq<Color>
    decreases cents.len(),
{
    if cents.len() == 0 {
        Seq::empty()
    } else {
        let prefix = drop_empty_spec(cents.drop_last(), a);
        if cluster_count(a, cents.len() - 1) > 0 {
            prefix.push(cents.last())
        } else {
            prefix
        }
    }
}

/// Dropping empty clusters never lengthens the palette.
pub proof fn lemma_drop_empty_len(cents: Seq<Color>, a: Seq<int>)
    ensures
        drop_empty_spec(cents, a).len() <= cents.len(),
    decreases cents.len(),
{
    if cents.len() > 0 {
        lemma_drop_empty_len(cents.drop_last(), a);
    }
}

/// An inhabited cluster guarantees a nonempty palette.
pub proof fn lemma_drop_empty_pos(cents: Seq<Color>, a: Seq<int>, j: int)
    requires
        0 <= j < cents.len(),
        cluster_count(a, j) > 0,
    ensures
        drop_empty_spec(cents, a).len() >= 1,
    decreases cents.len(),
{
    if j < cents.len() - 1 {
        lemma_drop_empty_pos(cents.drop_last(), a, j);
    }
}

/// When every cluster is inhabited, nothing is dropped.
pub proof fn lemma_drop_empty_all(cents: Seq<Color>, a: Seq<int>)
    requires
        forall|j: int| 0 <= j < cents.len() ==> cluster_count(a, j) > 0,
    ensures
        drop_empty_spec(cents, a) == cents,
    decreases cents.len(),
{
    if cents.len() > 0 {
        lemma_drop_empty_all(cents.drop_last(), a);
        assert(drop_empty_spec(cents, a) =~= cents);
    }
}

/// The centroids and assignment that refinement settles on: deterministic
/// seeding followed by at most sixteen assignment passes.
pub open spec fn refined_state(s: Seq<Color>, k: int) -> (Seq<Color>, Seq<int>) {
    let seeds = seeds_spec(s, k);
    iterate_spec(s, seeds, assign_spec(s, seeds), 15)
}

/// The whole palette construction: deterministic seeding, iterative
/// refinement with at most sixteen assignment passes, then dropping the
/// clusters that ended up empty.
pub open spec fn build_palette_spec(s: Seq<Color>, k: int) -> Seq<Color> {
    if s.len() == 0 {
        Seq::empty()
    } else {
        drop_empty_spec(refined_state(s, k).0, refined_state(s, k).1)
    }
}

/// Running totals for one cluster: sample count and per-channel sums.
#[derive(Clone, Copy)]
struct Acc {
    n: u128,
    r: u128,
    g: u128,
    b: u128,
    a: u128,
}

/// Assigns every sample to its nearest centroid.
fn assign(samples: &Vec<Color>, cents: &Vec<Color>) -> (asg: Vec<usize>)
    requires
        cents@.len() >= 1,
    ensures
        asg@.len() == samples@.len(),
        a_int(asg@) == assign_spec(samples@, cents@),
        forall|i: int| 0 <= i < asg@.len() ==> #[trigger] asg@[i] < cents@.len(),
{
    let mut asg: Vec<usize> = Vec::new();
    let mut i: usize = 0;
    while i < samples.len()
        invariant
            i == asg@.len() <= samples@.len(),
            cents@.len() >= 1,
            forall|j: int|
                0 <= j < i ==> #[trigger] asg@[j] == nearest_in(cents@, samples@[j]) && asg@[j]
                    < cents@.len(),
        decreases samples@.len() - i,
    {
        let idx = nearest_index(cents, samples[i]);
        asg.push(idx);
        i = i + 1;
    }
    proof {
        assert(a_int(asg@) =~= assign_spec(samples@, cents@));
    }
    asg
}

/// Recomputes every centroid as the weighted mean of its cluster; empty
/// clusters keep their previous centroid.
fn recompute(samples: &Vec<Color>, asg: &Vec<usize>, cents: &Vec<Color>) -> (nc: Vec<Color>)
    requires
        asg@.len() == samples@.len(),
        forall|i: int| 0 <= i < asg@.len() ==> #[trigger] asg@[i] < cents@.len(),
    ensures
        nc@.len() == cents@.len(),
        nc@ == recompute_spec(samples@, a_int(asg@), cents@),
{
    let kk = cents.len();
    let mut accs: Vec<Acc> = Vec::new();
    while accs.len() < kk
        invariant
            accs@.len() <= kk,
            forall|j: int|
                0 <= j < accs@.len() ==> (#[trigger] accs@[j]).n == 0 && accs@[j].r == 0
                    && accs@[j].g == 0 && accs@[j].b == 0 && accs@[j].a == 0,
        decreases kk - accs@.len(),
    {
        accs.push(Acc { n: 0, r: 0, g: 0, b: 0, a: 0 });
    }
    let ghost av = a_int(asg@);
    let ghost sv = samples@;
    proof {
        assert(sv.take(0) =~= Seq::<Color>::empty());
        assert(av.take(0) =~= Seq::<int>::empty());
    }
    let mut i: usize = 0;
    while i < samples.len()
        invariant
            0 <= i <= sv.len(),
            accs@.len() == kk == cents@.len(),
            sv == samples@,
            av == a_int(asg@),
            av.len() == sv.len(),
            forall|t: int| 0 <= t < av.len() ==> 0 <= #[trigger] av[t] < kk,
            forall|j: int|
                0 <= j < kk ==> {
                    let acc = #[trigger] accs@[j];
                    acc.n == cluster_count(av.take(i as int), j) && acc.r == cluster_sum(
                        sv.take(i as int),
                        av.take(i as int),
                        j,
                        0,
                    ) && acc.g == cluster_sum(sv.take(i as int), av.take(i as int), j, 1) && acc.b
                        == cluster_sum(sv.take(i as int), av.take(i as int), j, 2) && acc.a
                        == cluster_sum(sv.take(i as int), av.take(i as int), j, 3)
                },
        decreases sv.len() - i,
    {
        proof {
            assert(a_int(asg@)[i as int] == asg@[i as int] as int);
            assert(av[i as int] < kk);
        }
        let j = asg[i];
        let c = samples[i];
        let mut acc = accs[j];
        proof {
            assert(av[i as int] == j as int);
            lemma_count_le_len(av.take(i as int), j as int);
            lemma_cluster_sum_bound(sv.take(i as int), av.take(i as int), j as int, 0);
            lemma_cluster_sum_bound(sv.take(i as int), av.take(i as int), j as int, 1);
            lemma_cluster_sum_bound(sv.take(i as int), av.take(i as int), j as int, 2);
            lemma_cluster_sum_bound(sv.take(i as int), av.take(i as int), j as int, 3);
            assert(cluster_count(av.take(i as int), j as int) <= i);
            assert(acc.r <= 255 * (i as int)) by (nonlinear_arith)
                requires
                    acc.r <= 255 * cluster_count(av.take(i as int), j as int),
                    cluster_count(av.take(i as int), j as int) <= i,
            ;
            assert(acc.g <= 255 * (i as int)) by (nonlinear_arith)
                requires
                    acc.g <= 255 * cluster_count(av.take(i as int), j as int),
                    cluster_count(av.take(i as int), j as int) <= i,
            ;
            assert(acc.b <= 255 * (i as int)) by (nonlinear_arith)
                requires
                    acc.b <= 255 * cluster_count(av.take(i as int), j as int),
                    cluster_count(av.take(i as int), j as int) <= i,
            ;
            assert(acc.a <= 255 * (i as int)) by (nonlinear_arith)
                requires
                    acc.a <= 255 * cluster_count(av.take(i as int), j as int),
                    cluster_count(av.take(i as int), j as int) <= i,
            ;
        }
        acc.n = acc.n + 1;
        acc.r = acc.r + c.r as u128;
        acc.g = acc.g + c.g as u128;
        acc.b = acc.b + c.b as u128;
        acc.a = acc.a + c.a as u128;
        accs.set(j, acc);
        proof {
            assert(sv.take(i as int + 1).drop_last() =~= sv.take(i as int));
            assert(av.take(i as int + 1).drop_last() =~= av.take(i as int));
            assert(sv.take(i as int + 1).last() == sv[i as int]);
            assert(av.take(i as int + 1).last() == av[i as int]);
        }
        i = i + 1;
    }
    proof {
        assert(sv.take(sv.len() as int) =~= sv);
        assert(av.take(av.len() as int) =~= av);
    }
    let mut nc: Vec<Color> = Vec::new();
    let mut j: usize = 0;
    while j < kk
        invariant
            0 <= j <= kk,
            nc@.len() == j,
            accs@.len() == kk == cents@.len(),
            sv == samples@,
            av == a_int(asg@),
            av.len() == sv.len(),
            forall|t: int|
                0 <= t < kk ==> {
                    let acc = #[trigger] accs@[t];
                    acc.n == cluster_count(av, t) && acc.r == cluster_sum(sv, av, t, 0) && acc.g
                        == cluster_sum(sv, av, t, 1) && acc.b == cluster_sum(sv, av, t, 2) && acc.a
                        == cluster_sum(sv, av, t, 3)
                },
            forall|t: int| 0 <= t < j ==> #[trigger] nc@[t] == recompute_spec(sv, av, cents@)[t],
        decreases kk - j,
    {
        let acc = accs[j];
        if acc.n > 0 {
            proof {
                lemma_cluster_sum_bound(sv, av, j as int, 0);
                lemma_cluster_sum_bound(sv, av, j as int, 1);
                lemma_cluster_sum_bound(sv, av, j as int, 2);
                lemma_cluster_sum_bound(sv, av, j as int, 3);
                lemma_div_is_ordered(acc.r as int, 255 * acc.n, acc.n as int);
                lemma_div_is_ordered(acc.g as int, 255 * acc.n, acc.n as int);
                lemma_div_is_ordered(acc.b as int, 255 * acc.n, acc.n as int);
                lemma_div_is_ordered(acc.a as int, 255 * acc.n, acc.n as int);
                lemma_div_by_multiple(255, acc.n as int);
                assert(255 * (acc.n as int) == (255int) * (acc.n as int));
                assert((255int) * (acc.n as int) == ((acc.n as int)) * 255) by (nonlinear_arith);
            }
            let cr = (acc.r / acc.n) as u8;
            let cg = (acc.g / acc.n) as u8;
            let cb = (acc.b / acc.n) as u8;
            let ca = (acc.a / acc.n) as u8;
            nc.push(Color { r: cr, g: cg, b: cb, a: ca });
            proof {
                assert(nc@[j as int] == mean_color(sv, av, j as int));
            }
        } else {
            nc.push(cents[j]);
        }
        j = j + 1;
    }
    proof {
        assert(nc@ =~= recompute_spec(sv, av, cents@));
    }
    nc
}

/// Reports whether two assignment vectors are identical.
fn same_assignment(x: &Vec<usize>, y: &Vec<usize>) -> (out: bool)
    ensures
        out == (x@ == y@),
{
    if x.len() != y.len() {
        proof {
            assert(x@.len() != y@.len());
        }
        return false;
    }
    let mut i: usize = 0;
    while i < x.len()
        invariant
            0 <= i <= x@.len(),
            x@.len() == y@.len(),
            forall|j: int| 0 <= j < i ==> #[trigger] x@[j] == y@[j],
        decreases x@.len() - i,
    {
        if x[i] != y[i] {
            return false;
        }
        i = i + 1;
    }
    proof {
        assert(x@ =~= y@);
    }
    true
}

/// Reports whether the assignment sends any sample to cluster `j`.
fn cluster_used(asg: &Vec<usize>, j: usize) -> (out: bool)
    ensures
        out == (cluster_count(a_int(asg@), j as int) > 0),
{
    proof {
        lemma_count_pos(a_int(asg@), j as int);
    }
    let mut i: usize = 0;
    while i < asg.len()
        invariant
            0 <= i <= asg@.len(),
            forall|t: int| 0 <= t < i ==> #[trigger] asg@[t] != j,
        decreases asg@.len() - i,
    {
        if asg[i] == j {
            proof {
                lemma_count_pos(a_int(asg@), j as int);
                assert(a_int(asg@)[i as int] == j as int);
            }
            return true;
        }
        i = i + 1;
    }
    proof {
        assert(forall|t: int| 0 <= t < a_int(asg@).len() ==> #[trigger] a_int(asg@)[t] != j as int);
    }
    false
}

/// Builds the palette: at most `k` colors clustered from the samples, in a
/// deterministic order; a nonempty input always yields at least one entry.
pub fn build_palette(samples: &Vec<Color>, k: usize) -> (pal: Vec<Color>)
    requires
        k >= 1,
    ensures
        pal@ == build_palette_spec(samples@, k as int),
        pal@.len() <= k,
        pal@.len() <= distinct_seq(samples@).len(),
        samples@.len() >= 1 ==> pal@.len() >= 1,
{
    proof {
        lemma_build_palette_len(samples@, k as int);
        lemma_palette_le_distinct(samples@, k as int);
    }
    if samples.len() == 0 {
        let pal: Vec<Color> = Vec::new();
        return pal;
    }
    proof {
        lemma_distinct_seq(samples@);
    }
    let mut cents = seed_palette(samples, k);
    let ghost seeds0 = cents@;
    let mut asg = assign(samples, &cents);
    let ghost a0 = a_int(asg@);
    let mut rounds: usize = 0;
    let mut done = false;
    while rounds < 15 && !done
        invariant
            rounds <= 15,
            1 <= cents@.len() <= k,
            asg@.len() == samples@.len(),
            forall|i: int| 0 <= i < asg@.len() ==> #[trigger] asg@[i] < cents@.len(),
            a_int(asg@) == assign_spec(samples@, cents@),
            done ==> iterate_spec(samples@, seeds0, a0, 15) == (cents@, a_int(asg@)),
            !done ==> iterate_spec(samples@, seeds0, a0, 15) == iterate_spec(
                samples@,
                cents@,
                a_int(asg@),
                (15 - rounds) as nat,
            ),
        decreases 15 - rounds,
    {
        let ghost old_cents = cents@;
        let ghost old_a = a_int(asg@);
        let nc = recompute(samples, &asg, &cents);
        let na = assign(samples, &nc);
        let eq = same_assignment(&na, &asg);
        proof {
            let fuel = (15 - rounds) as nat;
            assert(iterate_spec(samples@, old_cents, old_a, fuel) == (if a_int(na@) == old_a {
                (nc@, a_int(na@))
            } else {
                iterate_spec(samples@, nc@, a_int(na@), (fuel - 1) as nat)
            }));
            if eq {
                assert(na@ =~= asg@);
                assert(a_int(na@) == old_a);
            } else {
                if a_int(na@) == old_a {
                    assert forall|t: int| 0 <= t < na@.len() implies #[trigger] na@[t]
                        == asg@[t] by {
                        assert(a_int(na@)[t] == a_int(asg@)[t]);
                    }
                    assert(na@ =~= asg@);
                }
            }
        }
        if eq {
            done = true;
        }
        cents = nc;
        asg = na;
        rounds = rounds + 1;
    }
    proof {
        assert(iterate_spec(samples@, seeds0, a0, 15) == (cents@, a_int(asg@)));
    }
    let ghost av = a_int(asg@);
    let mut pal: Vec<Color> = Vec::new();
    let mut j: usize = 0;
    proof {
        assert(cents@.take(0) =~= Seq::<Color>::empty());
    }
    while j < cents.len()
        invariant
            0 <= j <= cents@.len(),
            av == a_int(asg@),
            pal@ == drop_empty_spec(cents@.take(j as int), av),
            pal@.len() <= j,
        decreases cents@.len() - j,
    {
        proof {
            assert(cents@.take(j as int + 1).drop_last() =~= cents@.take(j as int));
            assert(cents@.take(j as int + 1).last() == cents@[j as int]);
        }
        if cluster_used(&asg, j) {
            pal.push(cents[j]);
        }
        j = j + 1;
    }
    proof {
        assert(cents@.take(cents@.len() as int) =~= cents@);
    }
    pal
}

/// The palette never exceeds `k` entries and a nonempty input always
/// yields at least one.
pub proof fn lemma_build_palette_len(s: Seq<Color>, k: int)
    requires
        k >= 1,
    ensures
        build_palette_spec(s, k).len() <= k,
        s.len() >= 1 ==> build_palette_spec(s, k).len() >= 1,
{
    if s.len() >= 1 {
        let seeds = seeds_spec(s, k);
        let a0 = assign_spec(s, seeds);
        let fin = iterate_spec(s, seeds, a0, 15);
        lemma_distinct_seq(s);
        assert(seeds.len() >= 1);
        assert(seeds.len() <= k);
        lemma_iterate_props(s, seeds, a0, 15);
        lemma_drop_empty_len(fin.0, fin.1);
        lemma_nearest_min(fin.0, s[0]);
        assert(fin.1[0] == nearest_in(fin.0, s[0]));
        lemma_count_pos(fin.1, fin.1[0]);
        lemma_drop_empty_pos(fin.0, fin.1, fin.1[0]);
    }
}

/// The clusters that the assignment inhabits, among the first `len`.
spec fn used_clusters(a: Seq<int>, len: int) -> Set<int> {
    set_int_range(0, len).filter(|j: int| cluster_count(a, j) > 0)
}

/// The palette is exactly one entry per inhabited cluster.
proof fn lemma_drop_empty_card(cents: Seq<Color>, a: Seq<int>)
    ensures
        used_clusters(a, cents.len() as int).finite(),
        drop_empty_spec(cents, a).len() == used_clusters(a, cents.len() as int).len(),
    decreases cents.len(),
{
    broadcast use vstd::set::group_set_axioms;

    let len = cents.len() as int;
    lemma_int_range(0, len);
    set_int_range(0, len).lemma_len_filter(|j: int| cluster_count(a, j) > 0);
    if cents.len() == 0 {
        assert(used_clusters(a, 0) =~= Set::<int>::empty());
    } else {
        lemma_drop_empty_card(cents.drop_last(), a);
        let prev = used_clusters(a, len - 1);
        if cluster_count(a, len - 1) > 0 {
            assert(used_clusters(a, len) =~= prev.insert(len - 1));
            assert(!prev.contains(len - 1));
        } else {
            assert(used_clusters(a, len) =~= prev);
        }
    }
}

/// The palette never holds more entries than the input has distinct
/// colors: samples of one color always share a cluster, so the inhabited
/// clusters are at most the distinct colors.
pub proof fn lemma_palette_le_distinct(s: Seq<Color>, k: int)
    requires
        k >= 1,
    ensures
        build_palette_spec(s, k).len() <= distinct_seq(s).len(),
{
    broadcast use vstd::set::group_set_axioms;
    broadcast use vstd::seq_lib::seq_to_set_is_finite;

    if s.len() > 0 {
        let seeds = seeds_spec(s, k);
        let a0 = assign_spec(s, seeds);
        let fin = iterate_spec(s, seeds, a0, 15);
        lemma_iterate_props(s, seeds, a0, 15);
        let c = fin.0;
        let a = fin.1;
        lemma_drop_empty_card(c, a);
        let len = c.len() as int;
        let used = used_clusters(a, len);
        let f = |col: Color| nearest_in(c, col);
        let dom = s.to_set();
        let img = dom.map(f);
        assert forall|j: int| used.contains(j) implies img.contains(j) by {
            lemma_count_pos(a, j);
            let i = choose|i: int| 0 <= i < a.len() && a[i] == j;
            assert(a[i] == nearest_in(c, s[i]));
            assert(dom.contains(s[i]) && j == f(s[i]));
        }
        dom.lemma_map_finite(f);
        lemma_len_subset(used, img);
        lemma_map_size_bound(dom, img, f);
        let d = distinct_seq(s);
        lemma_distinct_seq(s);
        assert(d.to_set() =~= dom);
        assert(d.no_duplicates());
        d.unique_seq_to_set();
    }
}

/// The budget is met exactly whenever the input has at least `k`
/// distinct colors and the settled assignment leaves no cluster empty.
/// The construction itself allows fewer entries: an emptied cluster is
/// dropped, never re-seeded, so a palette below the budget is possible
/// when refinement abandons a cluster.
pub proof fn lemma_budget_met_when_clusters_survive(s: Seq<Color>, k: int)
    requires
        1 <= k <= distinct_seq(s).len(),
        forall|j: int| 0 <= j < k ==> cluster_count(refined_state(s, k).1, j) > 0,
    ensures
        build_palette_spec(s, k).len() == k,
{
    lemma_distinct_seq(s);
    assert(s.len() >= 1);
    let seeds = seeds_spec(s, k);
    assert(seeds.len() == k);
    let a0 = assign_spec(s, seeds);
    lemma_iterate_props(s, seeds, a0, 15);
    let fin = refined_state(s, k);
    assert(fin.0.len() == k);
    lemma_drop_empty_all(fin.0, fin.1);
}

/// When `k` is at least the number of distinct input colors, the palette
/// is exactly the distinct input colors, in order of first appearance:
/// seeding already places every distinct color, the first refinement pass
/// leaves every centroid and every assignment unchanged, and no cluster
/// is empty.
pub proof fn lemma_palette_exact(s: Seq<Color>, k: int)
    requires
        k >= 1,
        s.len() >= 1,
        distinct_seq(s).len() <= k,
    ensures
        build_palette_spec(s, k) == distinct_seq(s),
{
    let d = distinct_seq(s);
    lemma_distinct_seq(s);
    assert(seeds_spec(s, k) == d);
    let a0 = assign_spec(s, d);
    assert forall|i: int|
        0 <= i < s.len() implies 0 <= #[trigger] a0[i] < d.len() && d[a0[i]] == s[i] by {
        assert(d.contains(s[i]));
        let w = choose|w: int| 0 <= w < d.len() && d[w] == s[i];
        lemma_nearest_exact(d, s[i], w);
        assert(a0[i] == nearest_in(d, s[i]));
    }
    assert forall|j: int| 0 <= j < d.len() implies cluster_count(a0, j) > 0 by {
        assert(s.contains(d[j]));
        let i = choose|i: int| 0 <= i < s.len() && s[i] == d[j];
        lemma_nearest_exact(d, s[i], j);
        assert(a0[i] == j);
        lemma_count_pos(a0, j);
    }
    let nc = recompute_spec(s, a0, d);
    assert forall|j: int| 0 <= j < d.len() implies #[trigger] nc[j] == d[j] by {
        assert forall|i: int| 0 <= i < s.len() && a0[i] == j implies #[trigger] s[i] == d[j] by {
            assert(d[a0[i]] == s[i]);
        }
        let n = cluster_count(a0, j) as int;
        lemma_cluster_sum_constant(s, a0, j, 0, d[j]);
        lemma_cluster_sum_constant(s, a0, j, 1, d[j]);
        lemma_cluster_sum_constant(s, a0, j, 2, d[j]);
        lemma_cluster_sum_constant(s, a0, j, 3, d[j]);
        lemma_div_multiples_vanish(channel(d[j], 0) as int, n);
        lemma_div_multiples_vanish(channel(d[j], 1) as int, n);
        lemma_div_multiples_vanish(channel(d[j], 2) as int, n);
        lemma_div_multiples_vanish(channel(d[j], 3) as int, n);
        assert(mean_color(s, a0, j) == d[j]);
    }
    assert(nc =~= d);
    assert(assign_spec(s, nc) == a0);
    assert(iterate_spec(s, d, a0, 15) == (nc, a0));
    lemma_drop_empty_all(d, a0);
}

} // verus!
