//! The order of the swatches: a greedy nearest-neighbour path through the
//! perceptual points, then light neutrals moved to the end by lightness.
use vstd::prelude::*;
use crate::color::{hex_to_rgb, parse_code, ParseError};
use crate::contrast::{channel_stats, sat_den, spread, total};
use vstd::utf8::encode_utf8;

verus! {

/// A point of the perceptual colour space, in fixed-point units.
pub type Coord = (i32, i32, i32);

/// Squared Euclidean distance.
pub open spec fn dist2(a: Coord, b: Coord) -> int {
    (a.0 - b.0) * (a.0 - b.0) + (a.1 - b.1) * (a.1 - b.1) + (a.2 - b.2) * (a.2 - b.2)
}

/// `j` is the unvisited point nearest to point `cur`, the first one in index
/// order among equally near points; `seen` holds the visited indices.
pub open spec fn is_nearest(pts: Seq<Coord>, seen: Seq<usize>, cur: usize, j: usize) -> bool {
    &&& j < pts.len()
    &&& !seen.contains(j)
    &&& forall|i: usize|
        #![trigger seen.contains(i)]
        i < pts.len() && !seen.contains(i) ==> dist2(pts[cur as int], pts[j as int]) <= dist2(
            pts[cur as int],
            pts[i as int],
        )
    &&& forall|i: usize|
        #![trigger seen.contains(i)]
        i < j && !seen.contains(i) ==> dist2(pts[cur as int], pts[j as int]) < dist2(
            pts[cur as int],
            pts[i as int],
        )
}

/// `p` is the greedy nearest-neighbour path over `pts`: it starts at index 0
/// and each next index is the nearest one not yet on the path.
pub open spec fn is_greedy_path(pts: Seq<Coord>, p: Seq<usize>) -> bool {
    if pts.len() == 0 {
        p.len() == 0
    } else {
        &&& p.len() == pts.len()
        &&& p[0] == 0
        &&& forall|k: int|
            #![trigger p[k]]
            1 <= k < p.len() ==> is_nearest(pts, p.take(k), p[k - 1], p[k])
    }
}

/// `p` holds every index below `n` exactly once.
pub open spec fn is_permutation(p: Seq<usize>, n: nat) -> bool {
    &&& p.len() == n
    &&& p.no_duplicates()
    &&& forall|k: int| 0 <= k < p.len() ==> #[trigger] p[k] < n
}

pub open spec fn index_range(n: nat) -> Set<usize> {
    Set::new(|i: usize| i < n)
}

proof fn lemma_index_range_len(n: nat)
    requires
        n <= usize::MAX + 1,
    ensures
        index_range(n).finite(),
        index_range(n).len() == n,
    decreases n,
{
    if n == 0 {
        assert(index_range(n) =~= Set::empty());
    } else {
        lemma_index_range_len((n - 1) as nat);
        assert(index_range(n) =~= index_range((n - 1) as nat).insert((n - 1) as usize));
    }
}

/// A sequence of distinct indices below `n` that is shorter than `n` misses
/// one of them.
proof fn lemma_some_index_missing(p: Seq<usize>, n: nat)
    requires
        n <= usize::MAX + 1,
        p.no_duplicates(),
        p.len() < n,
        forall|k: int| 0 <= k < p.len() ==> #[trigger] p[k] < n,
    ensures
        exists|i: usize| i < n && !p.contains(i),
{
    if forall|i: usize| i < n ==> p.contains(i) {
        lemma_index_range_len(n);
        p.unique_seq_to_set();
        assert(index_range(n).subset_of(p.to_set()));
        vstd::set_lib::lemma_len_subset(index_range(n), p.to_set());
    }
}

/// A permutation of the indices below `n` holds each of them.
pub proof fn lemma_permutation_covers(p: Seq<usize>, n: nat)
    requires
        is_permutation(p, n),
        n <= usize::MAX + 1,
    ensures
        p.to_set() == index_range(n),
{
    assert forall|i: usize| i < n implies p.contains(i) by {
        if !p.contains(i) {
            lemma_index_range_len(n);
            p.unique_seq_to_set();
            assert(p.to_set().subset_of(index_range(n).remove(i)));
            vstd::set_lib::lemma_len_subset(p.to_set(), index_range(n).remove(i));
        }
    }
    assert(p.to_set() =~= index_range(n));
}

fn distance2(a: Coord, b: Coord) -> (r: i128)
    ensures
        r == dist2(a, b),
{
    let dx = a.0 as i128 - b.0 as i128;
    let dy = a.1 as i128 - b.1 as i128;
    let dz = a.2 as i128 - b.2 as i128;
    assert(0 <= dx * dx <= 0x1_0000_0000_0000_0000) by (nonlinear_arith)
        requires
            -0x1_0000_0000 <= dx <= 0x1_0000_0000,
    ;
    assert(0 <= dy * dy <= 0x1_0000_0000_0000_0000) by (nonlinear_arith)
        requires
            -0x1_0000_0000 <= dy <= 0x1_0000_0000,
    ;
    assert(0 <= dz * dz <= 0x1_0000_0000_0000_0000) by (nonlinear_arith)
        requires
            -0x1_0000_0000 <= dz <= 0x1_0000_0000,
    ;
    dx * dx + dy * dy + dz * dz
}

/// The greedy nearest-neighbour path over `pts`, starting at index 0. It is
/// a quadratic-time heuristic for a short path through all points, not the
/// shortest one.
pub fn nearest_path(pts: &Vec<Coord>) -> (r: Vec<usize>)
    ensures
        is_greedy_path(pts@, r@),
        is_permutation(r@, pts@.len()),
{
    let n = pts.len();
    let mut path: Vec<usize> = Vec::new();
    if n == 0 {
        return path;
    }
    let mut visited: Vec<bool> = Vec::new();
    let mut v: usize = 0;
    while v < n
        invariant
            v <= n,
            visited@.len() == v,
            forall|i: int| 0 <= i < v ==> visited@[i] == (i == 0),
        decreases n - v,
    {
        visited.push(v == 0);
        v += 1;
    }
    path.push(0);
    assert forall|i: int| 0 <= i < n implies visited@[i] == path@.contains(i as usize) by {
        if i == 0 {
            assert(path@[0] == 0);
        }
    }
    let mut cur: usize = 0;
    let mut step: usize = 1;
    while step < n
        invariant
            n == pts@.len(),
            1 <= step <= n,
            path@.len() == step,
            path@[0] == 0,
            cur == path@[step - 1],
            visited@.len() == n,
            forall|i: int| 0 <= i < n ==> visited@[i] == path@.contains(i as usize),
            path@.no_duplicates(),
            forall|k: int| 0 <= k < path@.len() ==> #[trigger] path@[k] < n,
            forall|k: int|
                #![trigger path@[k]]
                1 <= k < path@.len() ==> is_nearest(pts@, path@.take(k), path@[k - 1], path@[k]),
        decreases n - step,
    {
        proof {
            lemma_some_index_missing(path@, n as nat);
        }
        let mut best: Option<usize> = None;
        let mut best_d: i128 = 0;
        let mut i: usize = 0;
        while i < n
            invariant
                n == pts@.len(),
                i <= n,
                visited@.len() == n,
                cur < n,
                forall|x: int| 0 <= x < n ==> visited@[x] == path@.contains(x as usize),
                exists|x: usize| x < n && !path@.contains(x),
                match best {
                    Some(j) => {
                        &&& j < i
                        &&& !path@.contains(j)
                        &&& best_d == dist2(pts@[cur as int], pts@[j as int])
                        &&& forall|x: usize|
                            #![trigger path@.contains(x)]
                            x < i && !path@.contains(x) ==> best_d <= dist2(
                                pts@[cur as int],
                                pts@[x as int],
                            )
                        &&& forall|x: usize|
                            #![trigger path@.contains(x)]
                            x < j && !path@.contains(x) ==> best_d < dist2(
                                pts@[cur as int],
                                pts@[x as int],
                            )
                    },
                    None => forall|x: usize| x < i ==> #[trigger] path@.contains(x),
                },
            decreases n - i,
        {
            if !visited[i] {
                let d = distance2(pts[cur], pts[i]);
                let closer = match best {
                    None => true,
                    Some(_) => d < best_d,
                };
                if closer {
                    best = Some(i);
                    best_d = d;
                }
            }
            i += 1;
        }
        let j = match best {
            Some(j) => j,
            None => {
                proof {
                    let x = choose|x: usize| x < n && !path@.contains(x);
                    assert(path@.contains(x));
                }
                0
            },
        };
        let ghost old_path = path@;
        proof {
            vstd::seq_lib::lemma_no_dup_in_concat(path@, seq![j]);
        }
        assert(old_path.push(j) =~= old_path + seq![j]);
        path.push(j);
        visited.set(j, true);
        assert(path@.take(step as int) =~= old_path);
        assert forall|k: int|
            #![trigger path@[k]]
            1 <= k < path@.len() implies is_nearest(pts@, path@.take(k), path@[k - 1], path@[k]) by {
            if k < step {
                assert(path@.take(k) =~= old_path.take(k));
            }
        }
        assert forall|x: int| 0 <= x < n implies visited@[x] == path@.contains(x as usize) by {
            if x == j {
                assert(path@[step as int] == j);
            } else if visited@[x] {
                let w = choose|w: int| 0 <= w < old_path.len() && old_path[w] == x as usize;
                assert(path@[w] == x as usize);
            } else {
                assert(!old_path.contains(x as usize));
                if path@.contains(x as usize) {
                    let w = choose|w: int| 0 <= w < path@.len() && path@[w] == x as usize;
                    assert(old_path[w] == x as usize);
                }
            }
        }
        cur = j;
        step += 1;
    }
    path
}

proof fn lemma_nearest_unique(pts: Seq<Coord>, seen: Seq<usize>, cur: usize, ja: usize, jb: usize)
    requires
        is_nearest(pts, seen, cur, ja),
        is_nearest(pts, seen, cur, jb),
    ensures
        ja == jb,
{
    assert(!seen.contains(ja) && !seen.contains(jb));
}

proof fn lemma_greedy_prefix(pts: Seq<Coord>, pa: Seq<usize>, pb: Seq<usize>, k: int)
    requires
        pts.len() > 0,
        is_greedy_path(pts, pa),
        is_greedy_path(pts, pb),
        1 <= k <= pa.len(),
    ensures
        pa.take(k) == pb.take(k),
    decreases k,
{
    if k == 1 {
        assert(pa.take(1) =~= pb.take(1));
    } else {
        let j = k - 1;
        lemma_greedy_prefix(pts, pa, pb, j);
        assert(pa[j - 1] == pa.take(j)[j - 1]);
        assert(pb[j - 1] == pb.take(j)[j - 1]);
        assert(is_nearest(pts, pa.take(j), pa[j - 1], pa[j]));
        assert(is_nearest(pts, pb.take(j), pb[j - 1], pb[j]));
        lemma_nearest_unique(pts, pa.take(j), pa[j - 1], pa[j], pb[j]);
        assert(pa.take(k) =~= pa.take(j).push(pa[j]));
        assert(pb.take(k) =~= pb.take(j).push(pb[j]));
    }
}

/// The greedy path is determined by the points: two greedy paths over the
/// same points are equal.
pub proof fn lemma_greedy_path_unique(pts: Seq<Coord>, pa: Seq<usize>, pb: Seq<usize>)
    requires
        is_greedy_path(pts, pa),
        is_greedy_path(pts, pb),
    ensures
        pa == pb,
{
    if pts.len() > 0 {
        lemma_greedy_prefix(pts, pa, pb, pa.len() as int);
        assert(pa =~= pa.take(pa.len() as int));
        assert(pb =~= pb.take(pb.len() as int));
    } else {
        assert(pa =~= pb);
    }
}

/// The greedy nearest-neighbour path over `pts`.
pub open spec fn greedy_path(pts: Seq<Coord>) -> Seq<usize> {
    choose|p: Seq<usize>| is_greedy_path(pts, p)
}

// Light neutrals: saturation below 5% and lightness above 75%.
pub const NEUTRAL_SATURATION_PER_MILLE: i64 = 50;
pub const LIGHT_NEUTRAL_PER_MILLE: i64 = 750;
/// Number of ordering classes: class 0 for most colours, then one class per
/// lightness percent of the light neutrals.
pub const CLASS_COUNT: u8 = 102;

/// Nearly gray and bright.
pub open spec fn is_light_neutral(c: (u8, u8, u8)) -> bool {
    1000 * spread(c) < NEUTRAL_SATURATION_PER_MILLE * sat_den(c) && 1000 * total(c)
        > LIGHT_NEUTRAL_PER_MILLE * 510
}

/// HSL lightness in percent, rounded to the nearest, halves up.
pub open spec fn lightness_percent(c: (u8, u8, u8)) -> int {
    (20 * total(c) + 51) / 102
}

/// The class that orders a colour: 0 for all but light neutrals, which come
/// after them by lightness.
pub open spec fn order_class(c: (u8, u8, u8)) -> nat {
    if is_light_neutral(c) {
        (1 + lightness_percent(c)) as nat
    } else {
        0
    }
}

pub open spec fn class_at(colors: Seq<(u8, u8, u8)>, i: usize) -> nat {
    order_class(colors[i as int])
}

/// The indices of `p` in class `c`, in their order in `p`.
pub open spec fn in_class(colors: Seq<(u8, u8, u8)>, p: Seq<usize>, c: nat) -> Seq<usize>
    decreases p.len(),
{
    if p.len() == 0 {
        seq![]
    } else {
        let q = in_class(colors, p.drop_last(), c);
        if class_at(colors, p.last()) == c {
            q.push(p.last())
        } else {
            q
        }
    }
}

/// The indices of `p` in the classes below `c`, by class, and within a class
/// in their order in `p`.
pub open spec fn grouped(colors: Seq<(u8, u8, u8)>, p: Seq<usize>, c: nat) -> Seq<usize>
    decreases c,
{
    if c == 0 {
        seq![]
    } else {
        grouped(colors, p, (c - 1) as nat) + in_class(colors, p, (c - 1) as nat)
    }
}

/// `p` stably sorted by class.
pub open spec fn refined(colors: Seq<(u8, u8, u8)>, p: Seq<usize>) -> Seq<usize> {
    grouped(colors, p, CLASS_COUNT as nat)
}

/// The number of entries of `p` whose class is below `c`.
pub open spec fn count_below(colors: Seq<(u8, u8, u8)>, p: Seq<usize>, c: nat) -> nat
    decreases p.len(),
{
    if p.len() == 0 {
        0
    } else {
        count_below(colors, p.drop_last(), c) + if class_at(colors, p.last()) < c {
            1nat
        } else {
            0nat
        }
    }
}

proof fn lemma_in_class_members(colors: Seq<(u8, u8, u8)>, p: Seq<usize>, c: nat)
    ensures
        forall|k: int|
            0 <= k < in_class(colors, p, c).len() ==> class_at(colors, #[trigger] in_class(
                colors,
                p,
                c,
            )[k]) == c && p.contains(in_class(colors, p, c)[k]),
        p.no_duplicates() ==> in_class(colors, p, c).no_duplicates(),
    decreases p.len(),
{
    if p.len() > 0 {
        let q = p.drop_last();
        lemma_in_class_members(colors, q, c);
        assert forall|k: int| 0 <= k < q.len() implies p.contains(#[trigger] q[k]) by {
            assert(p[k] == q[k]);
        }
        if p.no_duplicates() {
            assert(!q.contains(p.last())) by {
                if q.contains(p.last()) {
                    let w = choose|w: int| 0 <= w < q.len() && q[w] == p.last();
                    assert(p[w] == p[p.len() - 1]);
                }
            }
            assert(q.no_duplicates()) by {
                assert forall|a: int, b: int|
                    0 <= a < q.len() && 0 <= b < q.len() && a != b implies q[a] != q[b] by {
                    assert(q[a] == p[a] && q[b] == p[b]);
                }
            }
        }
        if class_at(colors, p.last()) == c {
            let r = in_class(colors, p, c);
            assert(r =~= in_class(colors, q, c).push(p.last()));
            assert(p.contains(p.last())) by {
                assert(p[p.len() - 1] == p.last());
            }
        }
    }
}

proof fn lemma_count_step(colors: Seq<(u8, u8, u8)>, p: Seq<usize>, c: nat)
    ensures
        count_below(colors, p, c + 1) == count_below(colors, p, c) + in_class(colors, p, c).len(),
    decreases p.len(),
{
    if p.len() > 0 {
        lemma_count_step(colors, p.drop_last(), c);
    }
}

proof fn lemma_count_all(colors: Seq<(u8, u8, u8)>, p: Seq<usize>, c: nat)
    requires
        forall|k: int| 0 <= k < p.len() ==> class_at(colors, #[trigger] p[k]) < c,
    ensures
        count_below(colors, p, c) == p.len(),
    decreases p.len(),
{
    if p.len() > 0 {
        let q = p.drop_last();
        assert forall|k: int| 0 <= k < q.len() implies class_at(colors, #[trigger] q[k]) < c by {
            assert(q[k] == p[k]);
        }
        lemma_count_all(colors, q, c);
        assert(class_at(colors, p[p.len() - 1]) < c);
    }
}

proof fn lemma_grouped_facts(colors: Seq<(u8, u8, u8)>, p: Seq<usize>, c: nat)
    ensures
        grouped(colors, p, c).len() == count_below(colors, p, c),
        forall|k: int|
            0 <= k < grouped(colors, p, c).len() ==> class_at(colors, #[trigger] grouped(
                colors,
                p,
                c,
            )[k]) < c && p.contains(grouped(colors, p, c)[k]),
        forall|a: int, b: int|
            0 <= a < b < grouped(colors, p, c).len() ==> class_at(colors, #[trigger] grouped(
                colors,
                p,
                c,
            )[a]) <= class_at(colors, #[trigger] grouped(colors, p, c)[b]),
        p.no_duplicates() ==> grouped(colors, p, c).no_duplicates(),
    decreases c,
{
    if c == 0 {
        lemma_count_zero(colors, p);
    } else {
        let c1 = (c - 1) as nat;
        let g = grouped(colors, p, c1);
        let s = in_class(colors, p, c1);
        lemma_grouped_facts(colors, p, c1);
        lemma_in_class_members(colors, p, c1);
        lemma_count_step(colors, p, c1);
        let h = grouped(colors, p, c);
        assert(h == g + s);
        assert forall|k: int| 0 <= k < h.len() implies class_at(colors, #[trigger] h[k]) < c
            && p.contains(h[k]) by {
            if k < g.len() {
                assert(h[k] == g[k]);
            } else {
                assert(h[k] == s[k - g.len()]);
            }
        }
        assert forall|a: int, b: int| 0 <= a < b < h.len() implies class_at(
            colors,
            #[trigger] h[a],
        ) <= class_at(colors, #[trigger] h[b]) by {
            if b < g.len() {
                assert(h[a] == g[a] && h[b] == g[b]);
            } else if a < g.len() {
                assert(h[a] == g[a] && h[b] == s[b - g.len()]);
            } else {
                assert(h[a] == s[a - g.len()] && h[b] == s[b - g.len()]);
            }
        }
        if p.no_duplicates() {
            assert forall|i: int, j: int| 0 <= i < g.len() && 0 <= j < s.len() implies g[i]
                != s[j] by {
                assert(class_at(colors, g[i]) < c1);
                assert(class_at(colors, s[j]) == c1);
            }
            vstd::seq_lib::lemma_no_dup_in_concat(g, s);
        }
    }
}

proof fn lemma_count_zero(colors: Seq<(u8, u8, u8)>, p: Seq<usize>)
    ensures
        count_below(colors, p, 0) == 0,
    decreases p.len(),
{
    if p.len() > 0 {
        lemma_count_zero(colors, p.drop_last());
    }
}

/// Refining a path by class keeps every index exactly once, puts classes in
/// ascending order, and so puts the light neutrals after all other colours,
/// in ascending lightness.
pub proof fn lemma_refined_sorted_permutation(colors: Seq<(u8, u8, u8)>, p: Seq<usize>)
    requires
        is_permutation(p, colors.len()),
    ensures
        is_permutation(refined(colors, p), colors.len()),
        forall|a: int, b: int|
            0 <= a < b < refined(colors, p).len() ==> class_at(colors, #[trigger] refined(
                colors,
                p,
            )[a]) <= class_at(colors, #[trigger] refined(colors, p)[b]),
        forall|a: int, b: int|
            0 <= a < b < refined(colors, p).len() && is_light_neutral(
                colors[refined(colors, p)[a] as int],
            ) ==> is_light_neutral(colors[#[trigger] refined(colors, p)[b] as int])
                && lightness_percent(colors[#[trigger] refined(colors, p)[a] as int])
                <= lightness_percent(colors[refined(colors, p)[b] as int]),
{
    let r = refined(colors, p);
    lemma_grouped_facts(colors, p, CLASS_COUNT as nat);
    assert forall|k: int| 0 <= k < p.len() implies class_at(colors, #[trigger] p[k])
        < CLASS_COUNT by {
        lemma_percent_range(colors[p[k] as int]);
    }
    lemma_count_all(colors, p, CLASS_COUNT as nat);
    assert forall|k: int| 0 <= k < r.len() implies #[trigger] r[k] < colors.len() by {
        let w = choose|w: int| 0 <= w < p.len() && p[w] == r[k];
    }
}

proof fn lemma_percent_range(c: (u8, u8, u8))
    ensures
        0 <= lightness_percent(c) <= 100,
        order_class(c) < CLASS_COUNT,
{
    crate::contrast::lemma_channel_facts(c);
}

/// The ordering class of a colour.
pub fn class_of(c: (u8, u8, u8)) -> (r: u8)
    ensures
        r as nat == order_class(c),
{
    proof {
        lemma_percent_range(c);
        crate::contrast::lemma_channel_facts(c);
    }
    let (l, d, den) = channel_stats(c);
    let t = d + 2 * l;
    if 1000 * d < NEUTRAL_SATURATION_PER_MILLE * den && 1000 * t > LIGHT_NEUTRAL_PER_MILLE * 510 {
        (1 + (20 * t + 51) / 102) as u8
    } else {
        0
    }
}

/// Stably sorts `path` by the ordering class of each entry's colour: most
/// colours keep their order at the front, light neutrals follow by lightness.
pub fn refine_order(path: &Vec<usize>, colors: &Vec<(u8, u8, u8)>) -> (r: Vec<usize>)
    requires
        forall|k: int| 0 <= k < path@.len() ==> #[trigger] path@[k] < colors@.len(),
    ensures
        r@ == refined(colors@, path@),
{
    let n = path.len();
    let mut classes: Vec<u8> = Vec::new();
    let mut j: usize = 0;
    while j < n
        invariant
            n == path@.len(),
            j <= n,
            classes@.len() == j,
            forall|k: int| 0 <= k < path@.len() ==> #[trigger] path@[k] < colors@.len(),
            forall|k: int| 0 <= k < j ==> classes@[k] as nat == class_at(colors@, path@[k]),
        decreases n - j,
    {
        classes.push(class_of(colors[path[j]]));
        j += 1;
    }
    let mut out: Vec<usize> = Vec::new();
    let mut c: u8 = 0;
    while c < CLASS_COUNT
        invariant
            n == path@.len(),
            classes@.len() == n,
            c <= CLASS_COUNT,
            forall|k: int| 0 <= k < n ==> classes@[k] as nat == class_at(colors@, path@[k]),
            out@ == grouped(colors@, path@, c as nat),
        decreases CLASS_COUNT - c,
    {
        let mut j: usize = 0;
        while j < n
            invariant
                n == path@.len(),
                classes@.len() == n,
                j <= n,
                c < CLASS_COUNT,
                forall|k: int| 0 <= k < n ==> classes@[k] as nat == class_at(colors@, path@[k]),
                out@ == grouped(colors@, path@, c as nat) + in_class(
                    colors@,
                    path@.take(j as int),
                    c as nat,
                ),
            decreases n - j,
        {
            assert(path@.take(j + 1).drop_last() =~= path@.take(j as int));
            assert(path@.take(j + 1).last() == path@[j as int]);
            if classes[j] == c {
                out.push(path[j]);
            }
            proof {
                let g = grouped(colors@, path@, c as nat);
                let q = in_class(colors@, path@.take(j as int), c as nat);
                if classes@[j as int] == c {
                    assert(out@ =~= g + q.push(path@[j as int]));
                } else {
                    assert(out@ =~= g + q);
                }
            }
            j += 1;
        }
        assert(path@.take(n as int) =~= path@);
        c += 1;
    }
    out
}

/// The order in which the swatches are laid out: the greedy
/// nearest-neighbour path over the perceptual points, stably sorted so that
/// light neutrals come last, by lightness. `pts[i]` and `colors[i]` describe
/// entry `i`.
pub fn sequence(pts: &Vec<Coord>, colors: &Vec<(u8, u8, u8)>) -> (r: Vec<usize>)
    requires
        pts@.len() == colors@.len(),
    ensures
        r@ == refined(colors@, greedy_path(pts@)),
        is_permutation(r@, pts@.len()),
        forall|a: int, b: int|
            0 <= a < b < r@.len() ==> class_at(colors@, #[trigger] r@[a]) <= class_at(
                colors@,
                #[trigger] r@[b],
            ),
{
    let path = nearest_path(pts);
    proof {
        lemma_greedy_path_unique(pts@, path@, greedy_path(pts@));
        lemma_refined_sorted_permutation(colors@, path@);
    }
    refine_order(&path, colors)
}

/// A named colour: a name and its hex code.
#[derive(Debug, Clone, PartialEq, Eq)]
pub struct ColorEntry {
    pub name: String,
    pub hex: String,
}

/// The colour that an entry's hex code gives, or why it gives none.
pub open spec fn entry_color(e: ColorEntry) -> Result<(u8, u8, u8), ParseError> {
    parse_code(encode_utf8(e.hex@))
}

/// The colours of entries whose codes all read.
pub open spec fn entry_rgbs(entries: Seq<ColorEntry>) -> Seq<(u8, u8, u8)> {
    entries.map_values(|e: ColorEntry| entry_color(e)->Ok_0)
}

/// Reads the colour of every entry. The first entry whose code does not
/// read is reported with its index.
pub fn entry_colors(entries: &Vec<ColorEntry>) -> (r: Result<Vec<(u8, u8, u8)>, (usize, ParseError)>)
    ensures
        match r {
            Ok(v) => v@ == entry_rgbs(entries@) && forall|i: int|
                0 <= i < entries@.len() ==> #[trigger] entry_color(entries@[i]) is Ok,
            Err((k, e)) => k < entries@.len() && entry_color(entries@[k as int]) == Err::<
                (u8, u8, u8),
                ParseError,
            >(e) && forall|i: int| 0 <= i < k ==> #[trigger] entry_color(entries@[i]) is Ok,
        },
{
    let mut out: Vec<(u8, u8, u8)> = Vec::new();
    let mut i: usize = 0;
    while i < entries.len()
        invariant
            i <= entries@.len(),
            out@ == entry_rgbs(entries@).take(i as int),
            forall|j: int| 0 <= j < i ==> #[trigger] entry_color(entries@[j]) is Ok,
        decreases entries@.len() - i,
    {
        let code = entries[i].hex.as_str();
        match hex_to_rgb(code) {
            Ok(c) => {
                out.push(c);
                assert(out@ =~= entry_rgbs(entries@).take(i + 1));
            },
            Err(e) => {
                return Err((i, e));
            },
        }
        i += 1;
    }
    assert(out@ =~= entry_rgbs(entries@));
    Ok(out)
}

/// The entries in swatch order: see `sequence`. `pts[i]` is the perceptual
/// point of entry `i`. Fails, with its index, on the first entry whose code
/// does not read.
pub fn sort_colors(entries: &Vec<ColorEntry>, pts: &Vec<Coord>) -> (r: Result<
    Vec<ColorEntry>,
    (usize, ParseError),
>)
    requires
        pts@.len() == entries@.len(),
    ensures
        match r {
            Ok(v) => v@ == refined(entry_rgbs(entries@), greedy_path(pts@)).map_values(
                |i: usize| entries@[i as int],
            ) && forall|i: int| 0 <= i < entries@.len() ==> #[trigger] entry_color(entries@[i]) is Ok,
            Err((k, e)) => k < entries@.len() && entry_color(entries@[k as int]) == Err::<
                (u8, u8, u8),
                ParseError,
            >(e) && forall|i: int| 0 <= i < k ==> #[trigger] entry_color(entries@[i]) is Ok,
        },
{
    let colors = match entry_colors(entries) {
        Ok(colors) => colors,
        Err(err) => return Err(err),
    };
    let order = sequence(pts, &colors);
    let ghost target = order@.map_values(|i: usize| entries@[i as int]);
    let mut out: Vec<ColorEntry> = Vec::new();
    let mut k: usize = 0;
    while k < order.len()
        invariant
            k <= order@.len(),
            is_permutation(order@, entries@.len()),
            target == order@.map_values(|i: usize| entries@[i as int]),
            out@ == target.take(k as int),
        decreases order@.len() - k,
    {
        let e = &entries[order[k]];
        let copy = ColorEntry { name: e.name.clone(), hex: e.hex.clone() };
        out.push(copy);
        assert(out@ =~= target.take(k + 1));
        k += 1;
    }
    assert(out@ =~= target);
    Ok(out)
}

} // verus!
