//! What binning guarantees: every peak lands in exactly one bin, bins are separated by at
//! least one uncovered base, and the bins depend only on which peaks are binned, not on
//! their order.
use crate::ordering::{
    lemma_arrange_by_ranking_permutes, lemma_ranking_bounds, lemma_ranking_of_sorted,
    lemma_ranking_sorted, ranking,
};
use crate::peaks::{
    all_valid, binned, by_start, continuous, starts, step, sweep, BinView, PeakView,
};
use vstd::prelude::*;
use vstd::seq_lib::lemma_multiset_commutative;

verus! {

/// The members of all bins, bin after bin.
pub open spec fn members(bins: Seq<BinView>) -> Seq<PeakView>
    decreases bins.len(),
{
    if bins.len() == 0 {
        seq![]
    } else {
        members(bins.drop_last()) + bins.last().peaks
    }
}

/// The sweep keeps every peak, in order: its bins hold the input bin after bin.
pub proof fn lemma_sweep_members(s: Seq<PeakView>)
    ensures
        members(sweep(s)) == s,
    decreases s.len(),
{
    if s.len() > 0 {
        let rest = s.drop_last();
        let p = s.last();
        lemma_sweep_members(rest);
        let bins = sweep(rest);
        if bins.len() > 0 && continuous(
            bins.last().start as int,
            bins.last().end as int,
            p.start as int,
            p.end as int,
        ) {
            let updated = bins.update(bins.len() - 1, bins.last().insert(p));
            assert(updated.drop_last() =~= bins.drop_last());
            assert(members(bins) == members(bins.drop_last()) + bins.last().peaks);
        } else {
            let pushed = bins.push(BinView::single(p));
            assert(pushed.drop_last() =~= bins);
        }
        assert(rest.push(p) =~= s);
    }
}

/// The peaks in order of start are in ascending order of start.
pub proof fn lemma_by_start_sorted(s: Seq<PeakView>)
    requires
        s.len() <= usize::MAX,
    ensures
        by_start(s).len() == s.len(),
        forall|i: int, j: int|
            0 <= i <= j < s.len() ==> (#[trigger] by_start(s)[i]).start <= (#[trigger] by_start(
                s,
            )[j]).start,
{
    let keys = starts(s);
    lemma_ranking_bounds(keys);
    lemma_ranking_sorted(keys);
    let order = ranking(keys);
    assert forall|i: int, j: int| 0 <= i <= j < s.len() implies (#[trigger] by_start(s)[i]).start
        <= (#[trigger] by_start(s)[j]).start by {
        assert(keys[order[i] as int] <= keys[order[j] as int]);
    }
}

/// Binning is idempotent: binning the members of the bins of `s` again, bin after bin, gives
/// the same bins with the same members in the same order.
pub proof fn lemma_rebinning_members(s: Seq<PeakView>)
    requires
        s.len() <= usize::MAX,
    ensures
        binned(members(binned(s))) == binned(s),
{
    let t = by_start(s);
    lemma_by_start_sorted(s);
    lemma_sweep_members(t);
    assert(members(binned(s)) == t);
    let keys = starts(t);
    assert forall|i: int, j: int| 0 <= i <= j < keys.len() implies keys[i] <= keys[j] by {
        assert(t[i].start <= t[j].start);
    }
    lemma_ranking_of_sorted(keys);
    assert(by_start(t) =~= t);
}

/// Binning keeps every peak: each peak of the input is a member of exactly one bin, as
/// often as it occurs in the input.
pub proof fn lemma_binning_keeps_every_peak(s: Seq<PeakView>)
    requires
        s.len() <= usize::MAX,
    ensures
        members(binned(s)).to_multiset() == s.to_multiset(),
{
    lemma_sweep_members(by_start(s));
    lemma_arrange_by_ranking_permutes(s, starts(s));
}

proof fn lemma_sweep_separated(t: Seq<PeakView>)
    requires
        all_valid(t),
        forall|i: int, j: int| 0 <= i <= j < t.len() ==> (#[trigger] t[i]).start <= (#[trigger] t[j]).start,
    ensures
        forall|i: int|
            0 <= i < sweep(t).len() - 1 ==> (#[trigger] sweep(t)[i]).end + 1 < sweep(t)[i + 1].start,
        t.len() > 0 ==> sweep(t).len() > 0 && sweep(t).last().start <= t.last().start,
    decreases t.len(),
{
    if t.len() > 0 {
        let rest = t.drop_last();
        let p = t.last();
        assert(p == t[t.len() - 1]);
        assert(p.valid());
        lemma_sweep_separated(rest);
        let bins = sweep(rest);
        if rest.len() > 0 {
            assert(rest.last() == t[t.len() - 2]);
        }
        if bins.len() > 0 && continuous(
            bins.last().start as int,
            bins.last().end as int,
            p.start as int,
            p.end as int,
        ) {
            let updated = bins.update(bins.len() - 1, bins.last().insert(p));
            assert forall|i: int| 0 <= i < updated.len() - 1 implies (#[trigger] updated[i]).end + 1
                < updated[i + 1].start by {
                assert(updated[i] == bins[i]);
                assert(bins[i].end + 1 < bins[i + 1].start);
            }
        } else {
            let pushed = bins.push(BinView::single(p));
            assert forall|i: int| 0 <= i < pushed.len() - 1 implies (#[trigger] pushed[i]).end + 1
                < pushed[i + 1].start by {
                if i < bins.len() - 1 {
                    assert(bins[i].end + 1 < bins[i + 1].start);
                }
            }
        }
    }
}

/// Bins cannot be merged: between one bin and the next lies at least one base that no
/// member covers.
pub proof fn lemma_bins_separated(s: Seq<PeakView>)
    requires
        s.len() <= usize::MAX,
        all_valid(s),
    ensures
        forall|i: int|
            0 <= i < binned(s).len() - 1 ==> (#[trigger] binned(s)[i]).end + 1 < binned(s)[i
                + 1].start,
{
    let t = by_start(s);
    lemma_by_start_sorted(s);
    lemma_ranking_bounds(starts(s));
    assert forall|i: int| 0 <= i < t.len() implies (#[trigger] t[i]).valid() by {
        assert(t[i] == s[ranking(starts(s))[i] as int]);
    }
    lemma_sweep_separated(t);
}

/// The peaks are in ascending order of start.
pub open spec fn sorted_by_start(t: Seq<PeakView>) -> bool {
    forall|i: int, j: int| 0 <= i <= j < t.len() ==> (#[trigger] t[i]).start <= (#[trigger] t[j]).start
}

/// Two sequences of bins agree up to the order of members within each bin: the same number
/// of bins, and bin by bin the same extent and the same members.
pub open spec fn bins_equiv(x: Seq<BinView>, y: Seq<BinView>) -> bool {
    &&& x.len() == y.len()
    &&& forall|i: int|
        0 <= i < x.len() ==> (#[trigger] x[i]).start == y[i].start && x[i].end == y[i].end
            && x[i].peaks.to_multiset() == y[i].peaks.to_multiset()
}

/// The greatest end coordinate of a sequence of peaks, or 0 for none.
pub open spec fn max_end(b: Seq<PeakView>) -> u64
    decreases b.len(),
{
    if b.len() == 0 {
        0
    } else {
        let m = max_end(b.drop_last());
        if b.last().end > m {
            b.last().end
        } else {
            m
        }
    }
}

/// The bins after a run of peaks that all start at the same coordinate: the run joins the
/// last bin if its start is continuous with that bin, and forms a new bin otherwise.
pub open spec fn absorb_run(bins: Seq<BinView>, run: Seq<PeakView>) -> Seq<BinView> {
    let start = run[0].start;
    let end = max_end(run);
    if bins.len() > 0 && start <= bins.last().end + 1 {
        bins.update(
            bins.len() - 1,
            BinView {
                start: bins.last().start,
                end: if end > bins.last().end {
                    end
                } else {
                    bins.last().end
                },
                peaks: bins.last().peaks + run,
            },
        )
    } else {
        bins.push(BinView { start, end, peaks: run })
    }
}

proof fn lemma_max_end_bounds(b: Seq<PeakView>)
    ensures
        forall|i: int| 0 <= i < b.len() ==> (#[trigger] b[i]).end <= max_end(b),
        b.len() > 0 ==> exists|i: int| 0 <= i < b.len() && (#[trigger] b[i]).end == max_end(b),
    decreases b.len(),
{
    if b.len() > 0 {
        let rest = b.drop_last();
        lemma_max_end_bounds(rest);
        assert forall|i: int| 0 <= i < b.len() implies (#[trigger] b[i]).end <= max_end(b) by {
            if i < rest.len() {
                assert(b[i] == rest[i]);
            }
        }
        if b.last().end > max_end(rest) || rest.len() == 0 {
            assert(b[b.len() - 1].end == max_end(b));
        } else {
            let k = choose|k: int| 0 <= k < rest.len() && (#[trigger] rest[k]).end == max_end(rest);
            assert(b[k] == rest[k]);
        }
    }
}

proof fn lemma_max_end_permutation(b: Seq<PeakView>, c: Seq<PeakView>)
    requires
        b.to_multiset() == c.to_multiset(),
    ensures
        max_end(b) == max_end(c),
{
    broadcast use vstd::seq_lib::group_to_multiset_ensures;

    lemma_max_end_bounds(b);
    lemma_max_end_bounds(c);
    vstd::seq_lib::to_multiset_len(b);
    vstd::seq_lib::to_multiset_len(c);
    if b.len() > 0 {
        let i = choose|i: int| 0 <= i < b.len() && (#[trigger] b[i]).end == max_end(b);
        let k = choose|k: int| 0 <= k < c.len() && (#[trigger] c[k]).end == max_end(c);
        assert(b.to_multiset().count(b[i]) > 0);
        assert(c.contains(b[i]));
        assert(c.to_multiset().count(c[k]) > 0);
        assert(b.contains(c[k]));
    }
}

proof fn lemma_step_equiv(x: Seq<BinView>, y: Seq<BinView>, p: PeakView)
    requires
        bins_equiv(x, y),
    ensures
        bins_equiv(step(x, p), step(y, p)),
{
    broadcast use vstd::seq_lib::group_to_multiset_ensures;

    if x.len() > 0 {
        assert(x.last() == x[x.len() - 1]);
        assert(y.last() == y[y.len() - 1]);
    }
    let sx = step(x, p);
    let sy = step(y, p);
    assert forall|i: int| 0 <= i < sx.len() implies (#[trigger] sx[i]).start == sy[i].start
        && sx[i].end == sy[i].end && sx[i].peaks.to_multiset() == sy[i].peaks.to_multiset() by {
        if i < x.len() {
            assert(x[i].start == y[i].start);
        }
    }
}

/// Sweeping a run of peaks that all start at the coordinate `start`, after bins whose last
/// one starts no later, is the same as absorbing the whole run at once.
proof fn lemma_sweep_run(a: Seq<PeakView>, run: Seq<PeakView>, start: u64)
    requires
        run.len() > 0,
        all_valid(run),
        forall|i: int| 0 <= i < run.len() ==> (#[trigger] run[i]).start == start,
        sweep(a).len() > 0 ==> sweep(a).last().start <= start,
    ensures
        sweep(a + run) == absorb_run(sweep(a), run),
    decreases run.len(),
{
    let bins = sweep(a);
    let b = run.last();
    assert(run[run.len() - 1] == b);
    assert(b.valid());
    assert((a + run).drop_last() =~= a + run.drop_last());
    assert((a + run).last() == b);
    if run.len() == 1 {
        assert(a + run.drop_last() =~= a);
        assert(max_end(run.drop_last()) == 0);
        assert(run[0] == b);
        if bins.len() > 0 && b.start <= bins.last().end + 1 {
            assert(bins.last().peaks.push(b) =~= bins.last().peaks + run);
        } else {
            assert(seq![b] =~= run);
        }
    } else {
        let front = run.drop_last();
        assert(front[0] == run[0]);
        lemma_sweep_run(a, front, start);
        lemma_max_end_bounds(front);
        assert(front[0].start == start && front[0].valid());
        let r = absorb_run(bins, front);
        assert(r.last().end >= start);
        assert(r.last().start <= start);
        if bins.len() > 0 && start <= bins.last().end + 1 {
            assert(r.last().peaks.push(b) =~= bins.last().peaks + run);
        } else {
            assert(front.push(b) =~= run);
        }
    }
}

proof fn lemma_equiv_trans(x: Seq<BinView>, y: Seq<BinView>, z: Seq<BinView>)
    requires
        bins_equiv(x, y),
        bins_equiv(y, z),
    ensures
        bins_equiv(x, z),
{
    assert forall|i: int| 0 <= i < x.len() implies (#[trigger] x[i]).start == z[i].start && x[i].end
        == z[i].end && x[i].peaks.to_multiset() == z[i].peaks.to_multiset() by {
        assert(y[i].start == z[i].start);
    }
}

/// Removing a peak keeps the order of start and the validity of the others.
proof fn lemma_remove_sorted(t: Seq<PeakView>, j: int)
    requires
        sorted_by_start(t),
        all_valid(t),
        0 <= j < t.len(),
    ensures
        sorted_by_start(t.remove(j)),
        all_valid(t.remove(j)),
{
    let rest = t.remove(j);
    assert forall|i: int, k: int| 0 <= i <= k < rest.len() implies (#[trigger] rest[i]).start
        <= (#[trigger] rest[k]).start by {
        let ii = if i < j {
            i
        } else {
            i + 1
        };
        let kk = if k < j {
            k
        } else {
            k + 1
        };
        assert(rest[i] == t[ii] && rest[k] == t[kk]);
    }
    assert forall|i: int| 0 <= i < rest.len() implies (#[trigger] rest[i]).valid() by {
        if i < j {
            assert(rest[i] == t[i]);
        } else {
            assert(rest[i] == t[i + 1]);
        }
    }
}

/// Moving a peak to the end, past peaks that all start where it starts, changes the bins
/// only up to the order of members within a bin.
proof fn lemma_move_to_end(t: Seq<PeakView>, j: int)
    requires
        sorted_by_start(t),
        all_valid(t),
        0 <= j < t.len(),
        forall|i: int| j <= i < t.len() ==> (#[trigger] t[i]).start == t[j].start,
    ensures
        bins_equiv(sweep(t), sweep(t.remove(j).push(t[j]))),
{
    let n = t.len() as int;
    let start = t[j].start;
    let a = t.subrange(0, j);
    let run = t.subrange(j, n);
    let moved = run.drop_first().push(run[0]);
    assert forall|i: int| 0 <= i < run.len() implies (#[trigger] run[i]).start == start
        && run[i].valid() by {
        assert(run[i] == t[j + i]);
    }
    assert forall|i: int| 0 <= i < moved.len() implies (#[trigger] moved[i]).start == start
        && moved[i].valid() by {
        if i < run.len() - 1 {
            assert(moved[i] == run[i + 1]);
        } else {
            assert(moved[i] == run[0]);
        }
    }
    assert forall|i: int| 0 <= i < a.len() implies (#[trigger] a[i]).valid() by {
        assert(a[i] == t[i]);
    }
    assert forall|i: int, k: int| 0 <= i <= k < a.len() implies (#[trigger] a[i]).start
        <= (#[trigger] a[k]).start by {
        assert(a[i] == t[i] && a[k] == t[k]);
    }
    lemma_sweep_separated(a);
    if a.len() > 0 {
        assert(a.last() == t[j - 1]);
        assert(t[j - 1].start <= t[j].start);
    }
    assert(t =~= a + run);
    assert(t.remove(j).push(t[j]) =~= a + moved);
    lemma_sweep_run(a, run, start);
    assert(moved[0].start == start);
    lemma_sweep_run(a, moved, start);
    assert(run =~= seq![run[0]] + run.drop_first());
    lemma_multiset_commutative(seq![run[0]], run.drop_first());
    lemma_multiset_commutative(run.drop_first(), seq![run[0]]);
    assert(moved =~= run.drop_first() + seq![run[0]]);
    assert(moved.to_multiset() =~= run.to_multiset());
    lemma_max_end_permutation(run, moved);
    let bins = sweep(a);
    if bins.len() > 0 {
        lemma_multiset_commutative(bins.last().peaks, run);
        lemma_multiset_commutative(bins.last().peaks, moved);
    }
    let x = absorb_run(bins, run);
    let y = absorb_run(bins, moved);
    assert forall|i: int| 0 <= i < x.len() implies (#[trigger] x[i]).start == y[i].start && x[i].end
        == y[i].end && x[i].peaks.to_multiset() == y[i].peaks.to_multiset() by {
    }
}

/// Two arrangements in order of start of the same valid peaks give the same bins, up to
/// the order of members within each bin.
proof fn lemma_sweep_equiv(t: Seq<PeakView>, u: Seq<PeakView>)
    requires
        sorted_by_start(t),
        sorted_by_start(u),
        all_valid(t),
        t.to_multiset() == u.to_multiset(),
    ensures
        bins_equiv(sweep(t), sweep(u)),
    decreases t.len(),
{
    vstd::seq_lib::to_multiset_len(t);
    vstd::seq_lib::to_multiset_len(u);
    if t.len() == 0 {
        assert(u =~= t);
        return;
    }
    let n = t.len() as int;
    let y = u.last();
    assert(u[n - 1] == y);
    vstd::seq_lib::to_multiset_contains(u, y);
    vstd::seq_lib::to_multiset_contains(t, y);
    let j = choose|j: int| 0 <= j < n && t[j] == y;
    let x = t[n - 1];
    vstd::seq_lib::to_multiset_contains(t, x);
    vstd::seq_lib::to_multiset_contains(u, x);
    let k = choose|k: int| 0 <= k < n && u[k] == x;
    assert(x.start <= y.start);
    assert(y.start <= x.start);
    assert forall|i: int| j <= i < n implies (#[trigger] t[i]).start == t[j].start by {
        assert(t[j].start <= t[i].start);
        assert(t[i].start <= t[n - 1].start);
    }
    lemma_move_to_end(t, j);
    let rest = t.remove(j);
    let u_rest = u.drop_last();
    lemma_remove_sorted(t, j);
    vstd::seq_lib::to_multiset_remove(t, j);
    assert(u =~= u_rest.push(y));
    vstd::seq_lib::to_multiset_build(u_rest, y);
    assert(u_rest.to_multiset() =~= u.to_multiset().remove(y)) by {
        broadcast use vstd::multiset::group_multiset_axioms;

    }
    assert forall|i: int, k: int| 0 <= i <= k < u_rest.len() implies (#[trigger] u_rest[i]).start
        <= (#[trigger] u_rest[k]).start by {
        assert(u_rest[i] == u[i] && u_rest[k] == u[k]);
    }
    lemma_sweep_equiv(rest, u_rest);
    lemma_step_equiv(sweep(rest), sweep(u_rest), y);
    let t2 = rest.push(y);
    assert(t2.drop_last() =~= rest);
    assert(sweep(t2) == step(sweep(rest), y));
    assert(sweep(u) == step(sweep(u_rest), y));
    lemma_equiv_trans(sweep(t), sweep(t2), sweep(u));
}

/// Binning does not depend on the order of its input: inputs holding the same peaks give
/// the same bins, with the same extents and the same members, up to the order of the
/// members within a bin.
pub proof fn lemma_binning_order_independent(s: Seq<PeakView>, u: Seq<PeakView>)
    requires
        s.len() <= usize::MAX,
        all_valid(s),
        s.to_multiset() == u.to_multiset(),
    ensures
        bins_equiv(binned(s), binned(u)),
{
    broadcast use vstd::seq_lib::group_to_multiset_ensures;

    vstd::seq_lib::to_multiset_len(s);
    vstd::seq_lib::to_multiset_len(u);
    assert forall|i: int| 0 <= i < u.len() implies (#[trigger] u[i]).valid() by {
        assert(u.to_multiset().count(u[i]) > 0);
        assert(s.contains(u[i]));
    }
    let t = by_start(s);
    let v = by_start(u);
    lemma_by_start_sorted(s);
    lemma_by_start_sorted(u);
    lemma_arrange_by_ranking_permutes(s, starts(s));
    lemma_arrange_by_ranking_permutes(u, starts(u));
    lemma_ranking_bounds(starts(s));
    assert forall|i: int| 0 <= i < t.len() implies (#[trigger] t[i]).valid() by {
        assert(t[i] == s[ranking(starts(s))[i] as int]);
    }
    lemma_sweep_equiv(t, v);
}

} // verus!
