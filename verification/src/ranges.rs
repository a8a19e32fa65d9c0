//! Half-open byte ranges: what it means for ranges to cover a source, and how
//! ranges follow from cut points.

use vstd::arithmetic::div_mod::{lemma_fundamental_div_mod, lemma_fundamental_div_mod_converse};
use vstd::prelude::*;

verus! {

/// Executable ranges as pairs of mathematical integers.
pub open spec fn int_ranges(ranges: Seq<(usize, usize)>) -> Seq<(int, int)> {
    ranges.map_values(|r: (usize, usize)| (r.0 as int, r.1 as int))
}

/// Executable offsets as mathematical integers.
pub open spec fn int_offsets(offsets: Seq<usize>) -> Seq<int> {
    offsets.map_values(|x: usize| x as int)
}

/// The ranges are non-empty, in order, without gap or overlap, and together
/// they make up `[from, to)`.
pub open spec fn tiles(ranges: Seq<(int, int)>, from: int, to: int) -> bool {
    &&& forall|i: int| 0 <= i < ranges.len() ==> (#[trigger] ranges[i]).0 < ranges[i].1
    &&& forall|i: int, j: int|
        0 <= i && j == i + 1 && j < ranges.len() ==> (#[trigger] ranges[i]).1 == (
        #[trigger] ranges[j]).0
    &&& if ranges.len() == 0 {
        from == to
    } else {
        ranges[0].0 == from && ranges.last().1 == to
    }
}

/// Every range but the last ends at an offset with the given property.
pub open spec fn inner_ends(ranges: Seq<(int, int)>, aligned: spec_fn(int) -> bool) -> bool {
    forall|i: int| 0 <= i < ranges.len() - 1 ==> aligned((#[trigger] ranges[i]).1)
}

/// Ranges in front of a tiling extend it.
pub proof fn lemma_tiles_cons(start: int, end: int, rest: Seq<(int, int)>, to: int)
    requires
        start < end,
        tiles(rest, end, to),
    ensures
        tiles(seq![(start, end)] + rest, start, to),
{
    let all = seq![(start, end)] + rest;
    assert forall|i: int, j: int| 0 <= i && j == i + 1 && j < all.len() implies (
    #[trigger] all[i]).1 == (#[trigger] all[j]).0 by {
        assert(all[j] == rest[j - 1]);
        if i > 0 {
            assert(all[i] == rest[i - 1]);
            assert(rest[i - 1].1 == rest[j - 1].0);
        }
    }
    assert forall|i: int| 0 <= i < all.len() implies (#[trigger] all[i]).0 < all[i].1 by {
        if i > 0 {
            assert(all[i] == rest[i - 1]);
        }
    }
    if rest.len() > 0 {
        assert(all.last() == rest.last());
    }
}

/// A tiling reaches no further back than where it starts.
pub proof fn lemma_tiles_ordered(ranges: Seq<(int, int)>, from: int, to: int)
    requires
        tiles(ranges, from, to),
    ensures
        from <= to,
        forall|i: int|
            0 <= i < ranges.len() ==> from <= (#[trigger] ranges[i]).0 && ranges[i].1 <= to,
    decreases ranges.len(),
{
    if ranges.len() > 0 {
        let rest = ranges.drop_first();
        assert forall|i: int| 0 <= i < rest.len() implies (#[trigger] rest[i]).0 < rest[i].1 by {
            assert(rest[i] == ranges[i + 1]);
        }
        assert forall|i: int, j: int| 0 <= i && j == i + 1 && j < rest.len() implies (
        #[trigger] rest[i]).1 == (#[trigger] rest[j]).0 by {
            assert(rest[i] == ranges[i + 1]);
            assert(rest[j] == ranges[j + 1]);
        }
        if rest.len() > 0 {
            assert(rest[0] == ranges[1]);
            assert(ranges[0].1 == ranges[1].0);
            assert(rest.last() == ranges.last());
        }
        lemma_tiles_ordered(rest, ranges[0].1, to);
        assert forall|i: int| 0 <= i < ranges.len() implies from <= (#[trigger] ranges[i]).0
            && ranges[i].1 <= to by {
            if i > 0 {
                assert(ranges[i] == rest[i - 1]);
            }
        }
    }
}

/// Law: in a tiling every byte lies in exactly one range.
pub proof fn law_tiling_is_exact_cover(ranges: Seq<(int, int)>, from: int, to: int, byte: int)
    requires
        tiles(ranges, from, to),
        from <= byte < to,
    ensures
        exists|i: int|
            0 <= i < ranges.len() && (#[trigger] ranges[i]).0 <= byte < ranges[i].1 && (forall|
                j: int,
            |
                0 <= j < ranges.len() && (#[trigger] ranges[j]).0 <= byte < ranges[j].1 ==> j == i),
    decreases ranges.len(),
{
    let rest = ranges.drop_first();
    assert forall|i: int| 0 <= i < rest.len() implies rest[i] == ranges[i + 1] by {}
    if rest.len() > 0 {
        assert(ranges[0].1 == ranges[1].0);
        assert(rest.last() == ranges.last());
    }
    assert(tiles(rest, ranges[0].1, to)) by {
        assert forall|i: int, j: int| 0 <= i && j == i + 1 && j < rest.len() implies (
        #[trigger] rest[i]).1 == (#[trigger] rest[j]).0 by {
            assert(ranges[i + 1].1 == ranges[j + 1].0);
        }
        assert forall|i: int| 0 <= i < rest.len() implies (#[trigger] rest[i]).0 < rest[i].1 by {
            assert(ranges[i + 1].0 < ranges[i + 1].1);
        }
    }
    lemma_tiles_ordered(rest, ranges[0].1, to);
    if byte < ranges[0].1 {
        assert forall|j: int|
            0 <= j < ranges.len() && (#[trigger] ranges[j]).0 <= byte < ranges[j].1 implies j
            == 0 by {
            if j > 0 {
                assert(ranges[j] == rest[j - 1]);
            }
        }
        assert(ranges[0].0 <= byte < ranges[0].1);
    } else {
        law_tiling_is_exact_cover(rest, ranges[0].1, to, byte);
        let k = choose|i: int|
            0 <= i < rest.len() && (#[trigger] rest[i]).0 <= byte < rest[i].1 && (forall|j: int|
                0 <= j < rest.len() && (#[trigger] rest[j]).0 <= byte < rest[j].1 ==> j == i);
        assert forall|j: int|
            0 <= j < ranges.len() && (#[trigger] ranges[j]).0 <= byte < ranges[j].1 implies j == k
            + 1 by {
            if j > 0 {
                assert(ranges[j] == rest[j - 1]);
                assert(rest[j - 1].0 <= byte < rest[j - 1].1);
            }
        }
        assert(ranges[k + 1] == rest[k]);
    }
}

/// The ideal position of cut `i` of `n` in `len` bytes.
pub open spec fn ideal_target(len: int, n: int, i: int) -> int {
    (len * i) / n
}

/// The cut points for targets `i..n`, given the cut before them: a target
/// that an earlier cut has passed is skipped, any other is moved by `cut`.
pub open spec fn cut_points(
    len: int,
    n: int,
    i: int,
    last: int,
    cut: spec_fn(int) -> int,
) -> Seq<int>
    decreases n - i,
{
    if i >= n {
        Seq::empty()
    } else if ideal_target(len, n, i) <= last {
        cut_points(len, n, i + 1, last, cut)
    } else {
        seq![cut(ideal_target(len, n, i))] + cut_points(
            len,
            n,
            i + 1,
            cut(ideal_target(len, n, i)),
            cut,
        )
    }
}

/// The ranges between `start`, the cut points and `len`, empty ones left out.
pub open spec fn ranges_between(len: int, start: int, cuts: Seq<int>) -> Seq<(int, int)>
    decreases cuts.len(),
{
    if cuts.len() == 0 {
        if start < len {
            seq![(start, len)]
        } else {
            Seq::empty()
        }
    } else if cuts[0] > start {
        seq![(start, cuts[0])] + ranges_between(len, cuts[0], cuts.drop_first())
    } else {
        ranges_between(len, cuts[0], cuts.drop_first())
    }
}

/// At most `n` ranges over `len` bytes, cut near the ideal targets.
pub open spec fn partition(len: int, n: int, cut: spec_fn(int) -> int) -> Seq<(int, int)> {
    if len == 0 || n == 0 {
        Seq::empty()
    } else {
        ranges_between(len, 0, cut_points(len, n, 1, 0, cut))
    }
}

/// `cut` moves a target forward, and not past the end.
pub open spec fn cuts_forward(len: int, cut: spec_fn(int) -> int) -> bool {
    forall|t: int| 0 < t < len ==> t <= #[trigger] cut(t) <= len
}

/// Targets lie inside the source and grow with their index.
pub proof fn lemma_ideal_target(len: int, n: int, i: int)
    requires
        0 < len,
        0 < n,
        0 <= i <= n,
    ensures
        0 <= ideal_target(len, n, i) <= len,
        i < n ==> ideal_target(len, n, i) < len,
        i < n ==> ideal_target(len, n, i) <= ideal_target(len, n, i + 1),
        i < n && len <= n ==> ideal_target(len, n, i + 1) <= ideal_target(len, n, i) + 1,
        i == n ==> ideal_target(len, n, i) == len,
{
    let a = len * i;
    let q = a / n;
    let r = a % n;
    lemma_fundamental_div_mod(a, n);
    assert(a >= 0) by (nonlinear_arith)
        requires
            a == len * i,
            len > 0,
            i >= 0,
    ;
    assert(q >= 0) by (nonlinear_arith)
        requires
            a == n * q + r,
            a >= 0,
            0 <= r < n,
            n > 0,
    ;
    if i < n {
        assert(a <= len * n - len) by (nonlinear_arith)
            requires
                a == len * i,
                i <= n - 1,
                len > 0,
        ;
        assert(q < len) by (nonlinear_arith)
            requires
                a == n * q + r,
                a < len * n,
                0 <= r < n,
                n > 0,
        ;
        let b = len * (i + 1);
        assert(b == a + len) by (nonlinear_arith)
            requires
                b == len * (i + 1),
                a == len * i,
        ;
        lemma_fundamental_div_mod(b, n);
        assert(b / n >= q) by (nonlinear_arith)
            requires
                b == a + len,
                b == n * (b / n) + b % n,
                a == n * q + r,
                len > 0,
                n > 0,
                0 <= r,
                0 <= b % n < n,
        ;
        if len <= n {
            assert(b / n <= q + 1) by (nonlinear_arith)
                requires
                    b == a + len,
                    len <= n,
                    b == n * (b / n) + b % n,
                    a == n * q + r,
                    n > 0,
                    0 <= r < n,
                    0 <= b % n < n,
            ;
        }
    } else {
        assert(a == len * n + 0) by (nonlinear_arith)
            requires
                a == len * i,
                i == n,
        ;
        lemma_fundamental_div_mod_converse(a, n, len, 0);
    }
}

/// Ranges between cut points that all lie past `start`.
proof fn lemma_ranges_between(
    len: int,
    n: int,
    i: int,
    last: int,
    cut: spec_fn(int) -> int,
    aligned: spec_fn(int) -> bool,
)
    requires
        0 < len,
        0 < n,
        1 <= i <= n,
        0 <= last <= len,
        cuts_forward(len, cut),
        forall|t: int| 0 < t < len && #[trigger] cut(t) < len ==> aligned(cut(t)),
    ensures
        tiles(ranges_between(len, last, cut_points(len, n, i, last, cut)), last, len),
        inner_ends(ranges_between(len, last, cut_points(len, n, i, last, cut)), aligned),
        ranges_between(len, last, cut_points(len, n, i, last, cut)).len() <= n - i + 1,
    decreases n - i,
{
    if i < n {
        lemma_ideal_target(len, n, i);
        let t = ideal_target(len, n, i);
        if t <= last {
            lemma_ranges_between(len, n, i + 1, last, cut, aligned);
        } else {
            let c = cut(t);
            lemma_ranges_between(len, n, i + 1, c, cut, aligned);
            let rest_cuts = cut_points(len, n, i + 1, c, cut);
            let cuts = cut_points(len, n, i, last, cut);
            assert(cuts.drop_first() =~= rest_cuts);
            assert(cuts[0] == c);
            let rest = ranges_between(len, c, rest_cuts);
            let all = ranges_between(len, last, cuts);
            assert(all == seq![(last, c)] + rest);
            lemma_tiles_cons(last, c, rest, len);
            assert forall|k: int| 0 <= k < all.len() - 1 implies aligned((#[trigger] all[k]).1) by {
                if k > 0 {
                    assert(all[k] == rest[k - 1]);
                } else {
                    assert(all[1] == rest[0]);
                    lemma_tiles_ordered(rest, c, len);
                }
            }
        }
    }
}

/// Law: a partition covers the source exactly, has at most as many ranges as
/// were asked for, and every range but the last ends at a cut point.
pub proof fn law_partition_covers(
    len: int,
    n: int,
    cut: spec_fn(int) -> int,
    aligned: spec_fn(int) -> bool,
)
    requires
        0 <= len,
        0 < n,
        cuts_forward(len, cut),
        forall|t: int| 0 < t < len && #[trigger] cut(t) < len ==> aligned(cut(t)),
    ensures
        tiles(partition(len, n, cut), 0, len),
        inner_ends(partition(len, n, cut), aligned),
        partition(len, n, cut).len() <= n,
{
    if len > 0 {
        lemma_ranges_between(len, n, 1, 0, cut, aligned);
    }
}

proof fn lemma_cap_at_len(len: int, n: int, i: int, last: int, cut: spec_fn(int) -> int)
    requires
        0 < len <= n,
        0 <= i <= n,
        0 <= last,
        cuts_forward(len, cut),
    ensures
        cut_points(len, n, i, last, cut) == cut_points(
            len,
            len,
            ideal_target(len, n, i),
            last,
            cut,
        ),
    decreases n - i,
{
    lemma_ideal_target(len, n, i);
    let t = ideal_target(len, n, i);
    if i < n {
        assert(ideal_target(len, len, t) == t) by {
            lemma_fundamental_div_mod_converse(len * t, len, t, 0);
        }
        if t <= last {
            lemma_cap_at_len(len, n, i + 1, last, cut);
        } else {
            lemma_cap_at_len(len, n, i + 1, cut(t), cut);
        }
    }
}

/// Law: asking for more partitions than there are bytes asks for no more than
/// one per byte.
pub proof fn law_partition_caps_at_len(len: int, n: int, cut: spec_fn(int) -> int)
    requires
        0 < len <= n,
        cuts_forward(len, cut),
    ensures
        partition(len, n, cut) == partition(len, len, cut),
{
    lemma_cap_at_len(len, n, 1, 0, cut);
    lemma_ideal_target(len, n, 0);
    assert(ideal_target(len, n, 0) == 0) by {
        lemma_fundamental_div_mod_converse(len * 0, n, 0, 0);
    }
    assert(ideal_target(len, len, 0) == 0) by {
        lemma_fundamental_div_mod_converse(len * 0, len, 0, 0);
    }
    assert(cut_points(len, len, 0, 0, cut) == cut_points(len, len, 1, 0, cut));
}

/// Once a cut has reached the end there are no further cut points.
pub proof fn lemma_no_points_past_end(len: int, n: int, i: int, cut: spec_fn(int) -> int)
    requires
        0 < len,
        1 <= i <= n,
    ensures
        cut_points(len, n, i, len, cut) == Seq::<int>::empty(),
    decreases n - i,
{
    if i < n {
        lemma_ideal_target(len, n, i);
        lemma_no_points_past_end(len, n, i + 1, cut);
    }
}

/// As [`cut_points`], where finding a cut may fail and where the rest of the
/// source may be a single record.
pub open spec fn framed_points<E>(
    len: int,
    n: int,
    i: int,
    last: int,
    cut: spec_fn(int, int) -> Result<Option<int>, E>,
) -> Result<Seq<int>, E>
    decreases n - i,
{
    if i >= n {
        Ok(Seq::empty())
    } else if ideal_target(len, n, i) <= last {
        framed_points(len, n, i + 1, last, cut)
    } else {
        match cut(last, ideal_target(len, n, i)) {
            Err(e) => Err(e),
            Ok(None) => Ok(seq![len]),
            Ok(Some(b)) => prepend(seq![b], framed_points(len, n, i + 1, b, cut)),
        }
    }
}

/// Cut points in front of the outcome of the later ones.
pub open spec fn prepend<E>(front: Seq<int>, rest: Result<Seq<int>, E>) -> Result<Seq<int>, E> {
    match rest {
        Ok(points) => Ok(front + points),
        Err(e) => Err(e),
    }
}

/// At most `n` ranges over `len` bytes, and no more than one per byte, cut
/// where `cut` puts the boundary after each ideal target, given the last one.
pub open spec fn framed_partition<E>(
    len: int,
    n: int,
    cut: spec_fn(int, int) -> Result<Option<int>, E>,
) -> Result<Seq<(int, int)>, E> {
    if len == 0 || n == 0 {
        Ok(Seq::empty())
    } else {
        match framed_points(len, if n < len { n } else { len }, 1, 0, cut) {
            Ok(points) => Ok(ranges_between(len, 0, points)),
            Err(e) => Err(e),
        }
    }
}

proof fn lemma_framed_points<E>(
    len: int,
    n: int,
    i: int,
    last: int,
    cut: spec_fn(int, int) -> Result<Option<int>, E>,
    aligned: spec_fn(int) -> bool,
)
    requires
        0 < len,
        0 < n,
        1 <= i <= n,
        0 <= last <= len,
        forall|l: int, t: int|
            0 <= l < t < len ==> (#[trigger] cut(l, t) matches Ok(Some(b)) ==> t < b <= len
                && aligned(b)),
    ensures
        framed_points(len, n, i, last, cut) matches Ok(points) ==> {
            &&& tiles(ranges_between(len, last, points), last, len)
            &&& inner_ends(ranges_between(len, last, points), aligned)
            &&& ranges_between(len, last, points).len() <= n - i + 1
        },
    decreases n - i,
{
    if i < n {
        lemma_ideal_target(len, n, i);
        let t = ideal_target(len, n, i);
        if t <= last {
            lemma_framed_points(len, n, i + 1, last, cut, aligned);
        } else {
            match cut(last, t) {
                Ok(Some(b)) => {
                    lemma_framed_points(len, n, i + 1, b, cut, aligned);
                    if let Ok(rest_points) = framed_points(len, n, i + 1, b, cut) {
                        let points = seq![b] + rest_points;
                        assert(points.drop_first() =~= rest_points);
                        let rest = ranges_between(len, b, rest_points);
                        let all = ranges_between(len, last, points);
                        assert(all == seq![(last, b)] + rest);
                        lemma_tiles_cons(last, b, rest, len);
                        assert forall|k: int| 0 <= k < all.len() - 1 implies aligned(
                            (#[trigger] all[k]).1,
                        ) by {
                            if k > 0 {
                                assert(all[k] == rest[k - 1]);
                            }
                        }
                    }
                },
                Ok(None) => {
                    let points = seq![len];
                    assert(points.drop_first() =~= Seq::empty());
                    assert(ranges_between(len, len, Seq::empty()) =~= Seq::empty());
                    assert(ranges_between(len, last, points) =~= seq![(last, len)]);
                },
                Err(_) => {},
            }
        }
    }
}

/// Law: where finding the cuts succeeds, the ranges cover the source exactly,
/// are at most as many as asked for, and every one but the last ends at a
/// boundary that `cut` gave.
pub proof fn law_framed_partition_covers<E>(
    len: int,
    n: int,
    cut: spec_fn(int, int) -> Result<Option<int>, E>,
    aligned: spec_fn(int) -> bool,
)
    requires
        0 <= len,
        0 < n,
        forall|l: int, t: int|
            0 <= l < t < len ==> (#[trigger] cut(l, t) matches Ok(Some(b)) ==> t < b <= len
                && aligned(b)),
    ensures
        framed_partition(len, n, cut) matches Ok(ranges) ==> {
            &&& tiles(ranges, 0, len)
            &&& inner_ends(ranges, aligned)
            &&& ranges.len() <= n
        },
{
    if len > 0 {
        let capped = if n < len {
            n
        } else {
            len
        };
        lemma_framed_points(len, capped, 1, 0, cut, aligned);
    }
}

/// Position `i / n` of the way through `len`, rounded down, without overflow.
pub fn proportional_target(len: usize, i: usize, n: usize) -> (r: usize)
    requires
        0 < len,
        i < n,
    ensures
        r == ideal_target(len as int, n as int, i as int),
        r < len,
{
    proof {
        lemma_ideal_target(len as int, n as int, i as int);
        assert((len as u128) * (i as u128) <= 0xffff_ffff_ffff_ffffu128 * 0xffff_ffff_ffff_ffffu128)
            by (nonlinear_arith)
            requires
                0 <= len as u128 <= 0xffff_ffff_ffff_ffffu128,
                0 <= i as u128 <= 0xffff_ffff_ffff_ffffu128,
        ;
    }
    ((len as u128) * (i as u128) / (n as u128)) as usize
}

/// Contiguous ranges between the given cut points, from 0 to `file_len`.
pub fn ranges_from_boundaries(file_len: usize, boundaries: &[usize]) -> (r: Vec<(usize, usize)>)
    ensures
        int_ranges(r@) == ranges_between(file_len as int, 0, int_offsets(boundaries@)),
{
    let mut partitions: Vec<(usize, usize)> = Vec::new();
    let mut prev: usize = 0;
    let mut k: usize = 0;
    let ghost cuts = int_offsets(boundaries@);
    proof {
        assert(cuts.skip(0) =~= cuts);
        assert(int_ranges(partitions@) =~= Seq::empty());
        assert(int_ranges(partitions@) + ranges_between(file_len as int, 0, cuts)
            =~= ranges_between(file_len as int, 0, cuts));
    }
    while k < boundaries.len()
        invariant
            k <= boundaries@.len(),
            cuts == int_offsets(boundaries@),
            int_ranges(partitions@) + ranges_between(
                file_len as int,
                prev as int,
                cuts.skip(k as int),
            ) == ranges_between(file_len as int, 0, cuts),
        decreases boundaries@.len() - k,
    {
        let b: usize = boundaries[k];
        let ghost before = partitions@;
        let ghost rest = cuts.skip(k as int);
        proof {
            assert(rest[0] == b);
            assert(rest.drop_first() =~= cuts.skip(k + 1));
        }
        if b > prev {
            partitions.push((prev, b));
            proof {
                assert(int_ranges(partitions@) =~= int_ranges(before) + seq![
                    (prev as int, b as int),
                ]);
                assert(int_ranges(before) + (seq![(prev as int, b as int)] + ranges_between(
                    file_len as int,
                    b as int,
                    cuts.skip(k + 1),
                )) =~= int_ranges(partitions@) + ranges_between(
                    file_len as int,
                    b as int,
                    cuts.skip(k + 1),
                ));
            }
        }
        prev = b;
        k = k + 1;
    }
    let ghost before = partitions@;
    if prev < file_len {
        partitions.push((prev, file_len));
    }
    proof {
        assert(cuts.skip(k as int) =~= Seq::<int>::empty());
        assert(int_ranges(partitions@) =~= int_ranges(before) + ranges_between(
            file_len as int,
            prev as int,
            cuts.skip(k as int),
        ));
    }
    partitions
}

} // verus!
