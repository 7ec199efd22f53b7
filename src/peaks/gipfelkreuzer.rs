//! The Gipfelkreuzer consensus peak algorithm: iterative clustering of peaks by summit
//! proximity, with consensus coordinates taken as medians.
use crate::ordering::{arrange, rank_by_key, ranking, sort_values, value_order};
use crate::peaks::{
    all_valid, binned, peak_views, starts, BinView, PeakBin, PeakData, PeakView,
};
use vstd::prelude::*;
use vstd::seq_lib::lemma_sorted_unique;

verus! {

broadcast use vstd::seq_lib::group_to_multiset_ensures;

/// The median of a non-empty sequence of values: with the values in ascending order and
/// `mid = ceil(n / 2) - 1`, the value at `mid` for an odd count, and the truncated mean of
/// the values at `mid` and `mid + 1` for an even count.
pub open spec fn median(s: Seq<u64>) -> int
    recommends
        s.len() > 0,
{
    let t = s.sort_by(value_order());
    let n = s.len() as int;
    let mid = (n + 1) / 2 - 1;
    if n % 2 == 0 {
        (t[mid] + t[mid + 1]) / 2
    } else {
        t[mid] as int
    }
}

/// Returns the median of the values.
///
/// The values must not be empty; an empty collection aborts the program.
pub fn u64_median(values: Vec<u64>) -> (r: u64)
    requires
        values@.len() > 0,
    ensures
        r == median(values@),
{
    if values.len() == 0 {
        // Only callers that ignore the precondition get here: stop loudly instead of answering.
        let none: Option<u64> = None;
        return none.expect("The median of an empty collection cannot be calculated.");
    }
    let ghost original = values@;
    let mut values = values;
    sort_values(&mut values);
    proof {
        original.lemma_sort_by_ensures(value_order());
        crate::ordering::lemma_value_order_total();
        lemma_sorted_unique(values@, original.sort_by(value_order()), value_order());
        assert(values@.to_multiset().len() == original.to_multiset().len());
    }
    let n = values.len();
    let mid = (n - 1) / 2;
    assert(mid == (n as int + 1) / 2 - 1);
    if n % 2 == 0 {
        let low = values[mid];
        let high = values[mid + 1];
        assert(value_order()(values@[mid as int], values@[mid + 1]));
        low + (high - low) / 2
    } else {
        values[mid]
    }
}

/// The number of values that are at most `y`.
pub open spec fn count_at_most(s: Seq<u64>, y: int) -> nat
    decreases s.len(),
{
    if s.len() == 0 {
        0
    } else {
        count_at_most(s.drop_last(), y) + if s.last() <= y {
            1nat
        } else {
            0nat
        }
    }
}

proof fn lemma_count_concat(a: Seq<u64>, b: Seq<u64>, y: int)
    ensures
        count_at_most(a + b, y) == count_at_most(a, y) + count_at_most(b, y),
    decreases b.len(),
{
    if b.len() == 0 {
        assert(a + b =~= a);
    } else {
        assert((a + b).drop_last() =~= a + b.drop_last());
        lemma_count_concat(a, b.drop_last(), y);
    }
}

proof fn lemma_count_at_most_len(s: Seq<u64>, y: int)
    ensures
        count_at_most(s, y) <= s.len(),
    decreases s.len(),
{
    if s.len() > 0 {
        lemma_count_at_most_len(s.drop_last(), y);
    }
}

proof fn lemma_count_all(s: Seq<u64>, y: int)
    requires
        forall|i: int| 0 <= i < s.len() ==> s[i] <= y,
    ensures
        count_at_most(s, y) == s.len(),
    decreases s.len(),
{
    if s.len() > 0 {
        lemma_count_all(s.drop_last(), y);
    }
}

proof fn lemma_count_none(s: Seq<u64>, y: int)
    requires
        forall|i: int| 0 <= i < s.len() ==> s[i] > y,
    ensures
        count_at_most(s, y) == 0,
    decreases s.len(),
{
    if s.len() > 0 {
        lemma_count_none(s.drop_last(), y);
    }
}

proof fn lemma_count_permutation(s: Seq<u64>, t: Seq<u64>, y: int)
    requires
        s.to_multiset() == t.to_multiset(),
    ensures
        count_at_most(s, y) == count_at_most(t, y),
    decreases s.len(),
{
    broadcast use vstd::multiset::group_multiset_axioms;

    if s.len() == 0 {
        assert(t.to_multiset().len() == 0);
        assert(t =~= s);
    } else {
        let x = s.last();
        let rest = s.drop_last();
        assert(s =~= rest.push(x));
        assert(s.to_multiset() == rest.to_multiset().insert(x));
        assert(t.to_multiset().count(x) > 0);
        assert(t.contains(x));
        let i = choose|i: int| 0 <= i < t.len() && t[i] == x;
        let t2 = t.remove(i);
        assert(t2.to_multiset() == t.to_multiset().remove(x));
        assert(rest.to_multiset() =~= t2.to_multiset());
        lemma_count_permutation(rest, t2, y);
        let front = t.subrange(0, i);
        let back = t.subrange(i + 1, t.len() as int);
        assert(t =~= front + seq![x] + back);
        assert(t2 =~= front + back);
        lemma_count_concat(front + seq![x], back, y);
        lemma_count_concat(front, seq![x], y);
        lemma_count_concat(front, back, y);
        assert(seq![x].drop_last() =~= Seq::<u64>::empty());
        lemma_count_concat(rest, seq![x], y);
        assert(rest + seq![x] =~= s);
    }
}

proof fn lemma_count_pointwise(a: Seq<u64>, b: Seq<u64>, y: int)
    requires
        a.len() == b.len(),
        forall|i: int| 0 <= i < a.len() ==> a[i] <= b[i],
    ensures
        count_at_most(a, y) >= count_at_most(b, y),
    decreases a.len(),
{
    if a.len() > 0 {
        lemma_count_pointwise(a.drop_last(), b.drop_last(), y);
    }
}

/// Order statistics are monotone: where every value of `a` is at most the value of `b` at
/// the same position, the `k`-th smallest of `a` is at most the `k`-th smallest of `b`.
proof fn lemma_order_statistic_monotone(a: Seq<u64>, b: Seq<u64>, k: int)
    requires
        a.len() == b.len(),
        forall|i: int| 0 <= i < a.len() ==> a[i] <= b[i],
        0 <= k < a.len(),
    ensures
        a.sort_by(value_order())[k] <= b.sort_by(value_order())[k],
{
    let sa = a.sort_by(value_order());
    let sb = b.sort_by(value_order());
    a.lemma_sort_by_ensures(value_order());
    b.lemma_sort_by_ensures(value_order());
    assert(sa.len() == a.len()) by {
        assert(sa.to_multiset().len() == a.to_multiset().len());
    }
    assert(sb.len() == b.len()) by {
        assert(sb.to_multiset().len() == b.to_multiset().len());
    }
    let y = sb[k] as int;
    let n = a.len() as int;
    // At least k + 1 values of `b` are at most y.
    let head = sb.subrange(0, k + 1);
    assert forall|i: int| 0 <= i < k + 1 implies head[i] <= y by {
        if i < k {
            assert(value_order()(sb[i], sb[k]));
        }
    }
    lemma_count_all(head, y);
    lemma_count_concat(sb.subrange(0, k + 1), sb.subrange(k + 1, n), y);
    assert(sb =~= sb.subrange(0, k + 1) + sb.subrange(k + 1, n));
    lemma_count_permutation(sb, b, y);
    lemma_count_pointwise(a, b, y);
    lemma_count_permutation(sa, a, y);
    if sa[k] > y {
        let tail = sa.subrange(k, n);
        assert forall|i: int| 0 <= i < n - k implies tail[i] > y by {
            if i > 0 {
                assert(value_order()(sa[k], sa[k + i]));
            }
        }
        lemma_count_none(tail, y);
        lemma_count_at_most_len(sa.subrange(0, k), y);
        lemma_count_concat(sa.subrange(0, k), sa.subrange(k, n), y);
        assert(sa =~= sa.subrange(0, k) + sa.subrange(k, n));
    }
}

/// Medians are monotone: where every value of `a` is at most the value of `b` at the same
/// position, the median of `a` is at most the median of `b`.
pub proof fn lemma_median_monotone(a: Seq<u64>, b: Seq<u64>)
    requires
        a.len() == b.len(),
        a.len() > 0,
        forall|i: int| 0 <= i < a.len() ==> a[i] <= b[i],
    ensures
        median(a) <= median(b),
{
    let n = a.len() as int;
    let mid = (n + 1) / 2 - 1;
    lemma_order_statistic_monotone(a, b, mid);
    if n % 2 == 0 {
        lemma_order_statistic_monotone(a, b, mid + 1);
    }
}

/// The end coordinates of a sequence of peaks.
pub open spec fn ends(s: Seq<PeakView>) -> Seq<u64> {
    s.map_values(|p: PeakView| p.end)
}

/// The summits of a sequence of peaks.
pub open spec fn summits(s: Seq<PeakView>) -> Seq<u64> {
    s.map_values(|p: PeakView| p.summit)
}

/// The consensus peak of a non-empty group of peaks: the identifier of the first peak, and
/// the medians of the starts, of the ends and of the summits.
pub open spec fn consensus_of(m: Seq<PeakView>) -> PeakView {
    PeakView {
        id: m[0].id,
        start: median(starts(m)) as u64,
        end: median(ends(m)) as u64,
        summit: median(summits(m)) as u64,
    }
}

/// The summit of the consensus of `c` lies within the consensus region of `m`.
pub open spec fn absorbs(m: Seq<PeakView>, c: Seq<PeakView>) -> bool {
    consensus_of(m).start <= consensus_of(c).summit <= consensus_of(m).end
}

/// A median of values that all lie in `[lo, hi]` lies there too.
proof fn lemma_median_bounds(s: Seq<u64>, lo: u64, hi: u64)
    requires
        s.len() > 0,
        forall|i: int| 0 <= i < s.len() ==> lo <= #[trigger] s[i] <= hi,
    ensures
        lo <= median(s) <= hi,
{
    let low = Seq::new(s.len(), |i: int| lo);
    let high = Seq::new(s.len(), |i: int| hi);
    lemma_median_monotone(low, s);
    lemma_median_monotone(s, high);
    lemma_median_constant(lo, s.len());
    lemma_median_constant(hi, s.len());
}

proof fn lemma_median_constant(v: u64, n: nat)
    requires
        n > 0,
    ensures
        median(Seq::new(n, |i: int| v)) == v,
{
    let s = Seq::new(n, |i: int| v);
    s.lemma_sort_by_ensures(value_order());
    let t = s.sort_by(value_order());
    assert(t.len() == n) by {
        assert(t.to_multiset().len() == s.to_multiset().len());
    }
    assert forall|i: int| 0 <= i < n implies t[i] == v by {
        assert(t.to_multiset().count(t[i]) > 0);
        assert(s.contains(t[i]));
    }
}

/// The consensus of valid peaks is a valid peak.
pub proof fn lemma_consensus_valid(m: Seq<PeakView>)
    requires
        m.len() > 0,
        all_valid(m),
    ensures
        consensus_of(m).valid(),
        consensus_of(m).start == median(starts(m)),
        consensus_of(m).end == median(ends(m)),
        consensus_of(m).summit == median(summits(m)),
{
    assert forall|i: int| 0 <= i < m.len() implies starts(m)[i] <= summits(m)[i] && summits(m)[i]
        <= ends(m)[i] by {
        assert(m[i].valid());
    }
    lemma_median_monotone(starts(m), summits(m));
    lemma_median_monotone(summits(m), ends(m));
    lemma_median_bounds(starts(m), 0, u64::MAX);
    lemma_median_bounds(ends(m), 0, u64::MAX);
    lemma_median_bounds(summits(m), 0, u64::MAX);
}

/// The consensus of a single peak is that peak.
pub proof fn lemma_consensus_single(p: PeakView)
    ensures
        consensus_of(seq![p]) == p,
{
    assert(starts(seq![p]) =~= Seq::new(1, |i: int| p.start));
    assert(ends(seq![p]) =~= Seq::new(1, |i: int| p.end));
    assert(summits(seq![p]) =~= Seq::new(1, |i: int| p.summit));
    lemma_median_constant(p.start, 1);
    lemma_median_constant(p.end, 1);
    lemma_median_constant(p.summit, 1);
}

/// Computes the consensus peak of a non-empty group of valid peaks.
fn consensus_from(members: &Vec<PeakData>) -> (r: PeakData)
    requires
        members@.len() > 0,
    ensures
        r@ == consensus_of(peak_views(members@)),
{
    let ghost m = peak_views(members@);
    let n = members.len();
    let mut start_values: Vec<u64> = Vec::with_capacity(n);
    let mut end_values: Vec<u64> = Vec::with_capacity(n);
    let mut summit_values: Vec<u64> = Vec::with_capacity(n);
    let mut i: usize = 0;
    while i < n
        invariant
            n == members@.len(),
            m == peak_views(members@),
            i <= n,
            start_values@ == starts(m).subrange(0, i as int),
            end_values@ == ends(m).subrange(0, i as int),
            summit_values@ == summits(m).subrange(0, i as int),
            forall|k: int| 0 <= k < i ==> (#[trigger] m[k]).valid(),
        decreases n - i,
    {
        start_values.push(members[i].start());
        end_values.push(members[i].end());
        summit_values.push(members[i].summit());
        i = i + 1;
        proof {
            assert(start_values@ =~= starts(m).subrange(0, i as int));
            assert(end_values@ =~= ends(m).subrange(0, i as int));
            assert(summit_values@ =~= summits(m).subrange(0, i as int));
        }
    }
    proof {
        assert(start_values@ =~= starts(m));
        assert(end_values@ =~= ends(m));
        assert(summit_values@ =~= summits(m));
        lemma_consensus_valid(m);
    }
    let id = members[0].id();
    let start = u64_median(start_values);
    let end = u64_median(end_values);
    let summit = u64_median(summit_values);
    PeakData::from_valid(id, start, end, summit)
}

/// The member groups of a sequence of aggregators.
pub open spec fn member_groups(s: Seq<ConsensusPeakAggregator>) -> Seq<Seq<PeakView>> {
    s.map_values(|a: ConsensusPeakAggregator| a@)
}

/// A group of raw peaks merged into one consensus peak.
///
/// The group is never empty, and the consensus peak always holds the identifier of the
/// first member and the medians of the members' starts, ends and summits.
#[derive(Debug, PartialEq)]
pub struct ConsensusPeakAggregator {
    peaks: Vec<PeakData>,
    consensus_peak: PeakData,
}

impl View for ConsensusPeakAggregator {
    type V = Seq<PeakView>;

    closed spec fn view(&self) -> Seq<PeakView> {
        peak_views(self.peaks@)
    }
}

impl ConsensusPeakAggregator {
    #[verifier::type_invariant]
    spec fn well_formed(self) -> bool {
        &&& self.peaks@.len() > 0
        &&& all_valid(peak_views(self.peaks@))
        &&& self.consensus_peak@ == consensus_of(peak_views(self.peaks@))
    }

    /// An aggregator holding a single peak.
    pub fn new(peak: PeakData) -> (r: Self)
        ensures
            r@ == seq![peak@],
    {
        // The getter brings the validity of the peak into the proof.
        let _ = peak.start();
        let peaks = vec![peak];
        proof {
            assert(peak_views(peaks@) =~= seq![peak@]);
            lemma_consensus_single(peak@);
        }
        Self { peaks, consensus_peak: peak }
    }

    /// The consensus peak of the members.
    pub fn consensus_peak(&self) -> (r: PeakData)
        ensures
            r@ == consensus_of(self@),
    {
        proof {
            use_type_invariant(self);
        }
        self.consensus_peak
    }

    /// The identifier of the consensus peak.
    pub fn id(&self) -> (r: usize)
        ensures
            r == consensus_of(self@).id,
    {
        proof {
            use_type_invariant(self);
        }
        self.consensus_peak.id()
    }

    /// The summit of the consensus peak.
    pub fn summit(&self) -> (r: u64)
        ensures
            r == consensus_of(self@).summit,
    {
        proof {
            use_type_invariant(self);
        }
        self.consensus_peak.summit()
    }

    /// The length of the consensus peak.
    pub fn length(&self) -> (r: u128)
        ensures
            r == consensus_of(self@).length(),
    {
        proof {
            use_type_invariant(self);
        }
        self.consensus_peak.length()
    }

    /// The distance from the start to the end of the consensus peak: its length less one.
    fn span(&self) -> (r: u64)
        ensures
            r == consensus_of(self@).end - consensus_of(self@).start,
    {
        proof {
            use_type_invariant(self);
        }
        self.consensus_peak.end() - self.consensus_peak.start()
    }

    /// The number of raw peaks merged into this consensus peak.
    pub fn number_aggregated_peaks(&self) -> (r: usize)
        ensures
            r == self@.len(),
    {
        self.peaks.len()
    }

    /// An aggregator with the same members.
    fn duplicate(&self) -> (r: Self)
        ensures
            r@ == self@,
    {
        proof {
            use_type_invariant(self);
        }
        let mut peaks: Vec<PeakData> = Vec::with_capacity(self.peaks.len());
        let mut i: usize = 0;
        while i < self.peaks.len()
            invariant
                i <= self.peaks@.len(),
                peaks@ == self.peaks@.subrange(0, i as int),
            decreases self.peaks@.len() - i,
        {
            peaks.push(self.peaks[i]);
            i = i + 1;
            proof {
                assert(peaks@ =~= self.peaks@.subrange(0, i as int));
            }
        }
        proof {
            assert(peaks@ =~= self.peaks@);
        }
        Self { peaks, consensus_peak: self.consensus_peak }
    }

    /// Whether the summit of `other`'s consensus lies within this consensus region.
    fn absorbs(&self, other: &Self) -> (r: bool)
        ensures
            r == absorbs(self@, other@),
    {
        proof {
            use_type_invariant(self);
            use_type_invariant(other);
        }
        let summit = other.consensus_peak.summit();
        summit <= self.consensus_peak.end() && summit >= self.consensus_peak.start()
    }

    /// Adds the members of `other` after this aggregator's members, and updates the consensus.
    fn absorb(&mut self, other: &Self)
        ensures
            final(self)@ == old(self)@ + other@,
    {
        proof {
            use_type_invariant(&*self);
            use_type_invariant(other);
        }
        let ghost before = self@;
        // Take the aggregator out behind a valid placeholder, so that the invariant holds
        // throughout.
        let mut this = Self::new(self.consensus_peak);
        std::mem::swap(&mut this, self);
        let mut peaks = this.peaks;
        let mut i: usize = 0;
        while i < other.peaks.len()
            invariant
                i <= other.peaks@.len(),
                peak_views(peaks@) == before + other@.subrange(0, i as int),
                all_valid(before),
                all_valid(other@),
                before.len() > 0,
            decreases other.peaks@.len() - i,
        {
            let ghost prior = peaks@;
            peaks.push(other.peaks[i]);
            proof {
                assert(peaks@ == prior.push(other.peaks@[i as int]));
                assert(other@[i as int] == other.peaks@[i as int]@);
                assert(peak_views(peaks@) =~= peak_views(prior).push(other@[i as int]));
                assert(other@.subrange(0, i + 1) =~= other@.subrange(0, i as int).push(
                    other@[i as int],
                ));
                assert(peak_views(peaks@) =~= before + other@.subrange(0, i + 1));
            }
            i = i + 1;
        }
        proof {
            assert(other@.subrange(0, other@.len() as int) =~= other@);
            let m = peak_views(peaks@);
            assert forall|k: int| 0 <= k < m.len() implies (#[trigger] m[k]).valid() by {
                if k < before.len() {
                    assert(m[k] == before[k]);
                } else {
                    assert(m[k] == other@[k - before.len()]);
                }
            }
        }
        let consensus_peak = consensus_from(&peaks);
        *self = Self { peaks, consensus_peak };
    }

    /// Merges `peak` into this aggregator if the summit of its consensus lies within this
    /// consensus region: its members are appended and the consensus is recomputed. Otherwise
    /// `peak` is handed back and nothing changes.
    pub fn try_aggregate(&mut self, peak: ConsensusPeakAggregator) -> (r: Option<
        ConsensusPeakAggregator,
    >)
        ensures
            absorbs(old(self)@, peak@) ==> r is None && final(self)@ == old(self)@ + peak@,
            !absorbs(old(self)@, peak@) ==> r == Some(peak) && final(self)@ == old(self)@,
    {
        if self.absorbs(&peak) {
            self.absorb(&peak);
            None
        } else {
            Some(peak)
        }
    }
}

impl Clone for ConsensusPeakAggregator {
    fn clone(&self) -> (r: Self) {
        self.duplicate()
    }
}

impl From<PeakData> for ConsensusPeakAggregator {
    fn from(peak: PeakData) -> (r: ConsensusPeakAggregator) {
        ConsensusPeakAggregator::new(peak)
    }
}

impl vstd::std_specs::convert::FromSpecImpl<PeakData> for ConsensusPeakAggregator {
    open spec fn obeys_from_spec() -> bool {
        false
    }

    open spec fn from_spec(peak: PeakData) -> ConsensusPeakAggregator {
        arbitrary()
    }
}

impl From<ConsensusPeakAggregator> for PeakData {
    fn from(aggregator: ConsensusPeakAggregator) -> (r: PeakData) {
        aggregator.consensus_peak()
    }
}

impl vstd::std_specs::convert::FromSpecImpl<ConsensusPeakAggregator> for PeakData {
    open spec fn obeys_from_spec() -> bool {
        false
    }

    open spec fn from_spec(aggregator: ConsensusPeakAggregator) -> PeakData {
        arbitrary()
    }
}

/// One scan of a reduction pass: starting from `seed`, each candidate in turn is merged
/// into the growing group if it is absorbed by the group as it stands at that moment, and
/// is kept aside otherwise. The result is the final group and the candidates kept aside.
pub open spec fn scan(seed: Seq<PeakView>, cands: Seq<Seq<PeakView>>) -> (Seq<PeakView>, Seq<
    Seq<PeakView>,
>)
    decreases cands.len(),
{
    if cands.len() == 0 {
        (seed, seq![])
    } else {
        let before = scan(seed, cands.drop_last());
        let c = cands.last();
        if absorbs(before.0, c) {
            (before.0 + c, before.1)
        } else {
            (before.0, before.1.push(c))
        }
    }
}

proof fn lemma_scan_kept(seed: Seq<PeakView>, cands: Seq<Seq<PeakView>>)
    ensures
        scan(seed, cands).1.len() <= cands.len(),
    decreases cands.len(),
{
    if cands.len() > 0 {
        lemma_scan_kept(seed, cands.drop_last());
    }
}

#[via_fn]
proof fn lemma_rounds_decreases(cands: Seq<Seq<PeakView>>) {
    if cands.len() > 0 {
        lemma_scan_kept(cands[0], cands.drop_first());
    }
}

/// The groups of a reduction pass over candidates in their order: the first candidate seeds
/// a group that scans the rest, and the candidates it kept aside go through the same again.
pub open spec fn rounds(cands: Seq<Seq<PeakView>>) -> Seq<Seq<PeakView>>
    decreases cands.len() via lemma_rounds_decreases
{
    if cands.len() == 0 {
        seq![]
    } else {
        let first = scan(cands[0], cands.drop_first());
        seq![first.0] + rounds(first.1)
    }
}

/// The lengths of the consensus peaks of groups, each less one.
pub open spec fn spans(groups: Seq<Seq<PeakView>>) -> Seq<u64> {
    groups.map_values(|m: Seq<PeakView>| (consensus_of(m).end - consensus_of(m).start) as u64)
}

/// One reduction pass: the groups ordered by the length of their consensus peaks (equal
/// lengths in their given order), then merged by [`rounds`].
pub open spec fn reduce(groups: Seq<Seq<PeakView>>) -> Seq<Seq<PeakView>> {
    rounds(arrange(groups, ranking(spans(groups))))
}

/// Further reduction passes, at most `k` of them, stopping after the first pass that leaves
/// the number of groups unchanged.
pub open spec fn converge(groups: Seq<Seq<PeakView>>, k: nat) -> Seq<Seq<PeakView>>
    decreases k,
{
    if k == 0 {
        groups
    } else {
        let next = reduce(groups);
        if next.len() == groups.len() {
            next
        } else {
            converge(next, (k - 1) as nat)
        }
    }
}

/// Each peak as a group of its own.
pub open spec fn singletons(s: Seq<PeakView>) -> Seq<Seq<PeakView>> {
    s.map_values(|p: PeakView| seq![p])
}

/// The consensus peaks of the groups that hold at least `min` peaks, in order.
pub open spec fn supported(groups: Seq<Seq<PeakView>>, min: nat) -> Seq<PeakView>
    decreases groups.len(),
{
    if groups.len() == 0 {
        seq![]
    } else {
        let rest = supported(groups.drop_last(), min);
        if groups.last().len() >= min {
            rest.push(consensus_of(groups.last()))
        } else {
            rest
        }
    }
}

/// The Gipfelkreuzer consensus peaks of the peaks of one bin: one reduction pass over the
/// peaks, up to `max_iterations` further passes, then the groups of at least `min` peaks.
pub open spec fn bin_consensus(peaks: Seq<PeakView>, max_iterations: nat, min: nat) -> Seq<
    PeakView,
> {
    supported(converge(reduce(singletons(peaks)), max_iterations), min)
}

/// The consensus peaks of all bins, bin after bin.
pub open spec fn all_consensus(bins: Seq<BinView>, max_iterations: nat, min: nat) -> Seq<PeakView>
    decreases bins.len(),
{
    if bins.len() == 0 {
        seq![]
    } else {
        all_consensus(bins.drop_last(), max_iterations, min) + bin_consensus(
            bins.last().peaks,
            max_iterations,
            min,
        )
    }
}

/// One reduction pass over the aggregators.
fn reduce_pass(aggs: Vec<ConsensusPeakAggregator>) -> (r: Vec<ConsensusPeakAggregator>)
    ensures
        member_groups(r@) == reduce(member_groups(aggs@)),
{
    let ghost groups = member_groups(aggs@);
    let n = aggs.len();
    let mut keys: Vec<u64> = Vec::with_capacity(n);
    let mut i: usize = 0;
    while i < n
        invariant
            n == aggs@.len(),
            groups == member_groups(aggs@),
            i <= n,
            keys@ == spans(groups).subrange(0, i as int),
        decreases n - i,
    {
        keys.push(aggs[i].span());
        i = i + 1;
        proof {
            assert(keys@ =~= spans(groups).subrange(0, i as int));
        }
    }
    proof {
        assert(keys@ =~= spans(groups));
    }
    let mut remaining = rank_by_key(&keys);
    let ghost cands = arrange(groups, remaining@);
    let mut out: Vec<ConsensusPeakAggregator> = Vec::new();
    proof {
        assert(member_groups(out@) + rounds(cands) =~= reduce(groups));
    }
    while remaining.len() > 0
        invariant
            n == aggs@.len(),
            groups == member_groups(aggs@),
            forall|k: int| 0 <= k < remaining@.len() ==> (#[trigger] remaining@[k]) < n,
            member_groups(out@) + rounds(arrange(groups, remaining@)) == reduce(groups),
        decreases remaining@.len(),
    {
        let ghost current = arrange(groups, remaining@);
        let mut agg = aggs[remaining[0]].duplicate();
        let mut kept: Vec<usize> = Vec::new();
        let mut j: usize = 1;
        proof {
            assert(current.drop_first().subrange(0, 0) =~= Seq::<Seq<PeakView>>::empty());
            assert(arrange(groups, kept@) =~= Seq::<Seq<PeakView>>::empty());
        }
        while j < remaining.len()
            invariant
                n == aggs@.len(),
                groups == member_groups(aggs@),
                current == arrange(groups, remaining@),
                forall|k: int| 0 <= k < remaining@.len() ==> (#[trigger] remaining@[k]) < n,
                forall|k: int| 0 <= k < kept@.len() ==> (#[trigger] kept@[k]) < n,
                1 <= j <= remaining@.len(),
                kept@.len() < j,
                agg@ == scan(current[0], current.drop_first().subrange(0, j - 1)).0,
                arrange(groups, kept@) == scan(current[0], current.drop_first().subrange(0, j - 1)).1,
            decreases remaining@.len() - j,
        {
            let idx = remaining[j];
            proof {
                let part = current.drop_first().subrange(0, j as int);
                assert(part.drop_last() =~= current.drop_first().subrange(0, j - 1));
                assert(part.last() == aggs@[idx as int]@);
            }
            if agg.absorbs(&aggs[idx]) {
                agg.absorb(&aggs[idx]);
            } else {
                let ghost prior = kept@;
                kept.push(idx);
                proof {
                    assert(arrange(groups, kept@) =~= arrange(groups, prior).push(groups[idx as int]));
                }
            }
            j = j + 1;
        }
        proof {
            assert(current.drop_first().subrange(0, j - 1) =~= current.drop_first());
            assert(current[0] == aggs@[remaining@[0] as int]@);
            assert(arrange(groups, remaining@).len() > 0);
        }
        let ghost prior_out = out@;
        out.push(agg);
        proof {
            assert(member_groups(out@) =~= member_groups(prior_out).push(agg@));
            assert(member_groups(out@) + rounds(arrange(groups, kept@)) =~= member_groups(prior_out)
                + rounds(current));
        }
        remaining = kept;
    }
    proof {
        assert(arrange(groups, remaining@) =~= Seq::<Seq<PeakView>>::empty());
        assert(member_groups(out@) + Seq::<Seq<PeakView>>::empty() =~= member_groups(out@));
    }
    out
}

/// The consensus peaks of one bin, by the Gipfelkreuzer algorithm.
fn bin_to_consensus_peaks(
    peak_bin: &PeakBin,
    max_iterations: usize,
    min_peaks_per_consensus: usize,
) -> (r: Vec<PeakData>)
    ensures
        peak_views(r@) == bin_consensus(
            peak_bin@.peaks,
            max_iterations as nat,
            min_peaks_per_consensus as nat,
        ),
{
    let peaks = peak_bin.peaks();
    let ghost views = peak_bin@.peaks;
    let mut aggs: Vec<ConsensusPeakAggregator> = Vec::with_capacity(peaks.len());
    let mut i: usize = 0;
    while i < peaks.len()
        invariant
            peak_views(peaks@) == views,
            i <= peaks@.len(),
            member_groups(aggs@) == singletons(views).subrange(0, i as int),
        decreases peaks@.len() - i,
    {
        let ghost prior = aggs@;
        aggs.push(ConsensusPeakAggregator::new(peaks[i]));
        i = i + 1;
        proof {
            assert(member_groups(aggs@) =~= member_groups(prior).push(seq![peaks@[i - 1]@]));
            assert(member_groups(aggs@) =~= singletons(views).subrange(0, i as int));
        }
    }
    proof {
        assert(singletons(views).subrange(0, i as int) =~= singletons(views));
    }
    let mut consensus = reduce_pass(aggs);
    let ghost target = converge(member_groups(consensus@), max_iterations as nat);
    let mut k: usize = 0;
    let mut converged = false;
    while k < max_iterations && !converged
        invariant
            k <= max_iterations,
            converged ==> member_groups(consensus@) == target,
            !converged ==> converge(member_groups(consensus@), (max_iterations - k) as nat)
                == target,
        decreases max_iterations - k,
    {
        let previous_length = consensus.len();
        consensus = reduce_pass(consensus);
        if consensus.len() == previous_length {
            converged = true;
        }
        k = k + 1;
    }
    proof {
        if !converged {
            assert(k == max_iterations);
        }
    }
    let mut result: Vec<PeakData> = Vec::new();
    let mut j: usize = 0;
    while j < consensus.len()
        invariant
            j <= consensus@.len(),
            member_groups(consensus@) == target,
            peak_views(result@) == supported(
                member_groups(consensus@).subrange(0, j as int),
                min_peaks_per_consensus as nat,
            ),
        decreases consensus@.len() - j,
    {
        let ghost groups = member_groups(consensus@).subrange(0, j + 1);
        proof {
            assert(groups.drop_last() =~= member_groups(consensus@).subrange(0, j as int));
            assert(groups.last() == consensus@[j as int]@);
        }
        if consensus[j].number_aggregated_peaks() >= min_peaks_per_consensus {
            let ghost prior = result@;
            result.push(consensus[j].consensus_peak());
            proof {
                assert(peak_views(result@) =~= peak_views(prior).push(consensus_of(groups.last())));
            }
        }
        j = j + 1;
    }
    proof {
        assert(member_groups(consensus@).subrange(0, j as int) =~= target);
    }
    result
}

/// The Gipfelkreuzer consensus peaks of all bins, bin after bin.
pub(crate) fn bins_to_consensus_peaks(
    bins: &Vec<PeakBin>,
    max_iterations: usize,
    min_peaks_per_consensus: usize,
) -> (r: Vec<PeakData>)
    ensures
        peak_views(r@) == all_consensus(
            crate::peaks::bin_views(bins@),
            max_iterations as nat,
            min_peaks_per_consensus as nat,
        ),
{
    let ghost all = crate::peaks::bin_views(bins@);
    let mut result: Vec<PeakData> = Vec::new();
    let mut b: usize = 0;
    while b < bins.len()
        invariant
            b <= bins@.len(),
            all == crate::peaks::bin_views(bins@),
            peak_views(result@) == all_consensus(
                all.subrange(0, b as int),
                max_iterations as nat,
                min_peaks_per_consensus as nat,
            ),
        decreases bins@.len() - b,
    {
        let part = bin_to_consensus_peaks(&bins[b], max_iterations, min_peaks_per_consensus);
        let ghost prior = peak_views(result@);
        let mut i: usize = 0;
        while i < part.len()
            invariant
                i <= part@.len(),
                peak_views(result@) == prior + peak_views(part@).subrange(0, i as int),
            decreases part@.len() - i,
        {
            let ghost before = result@;
            result.push(part[i]);
            proof {
                assert(peak_views(result@) =~= peak_views(before).push(part@[i as int]@));
                assert(peak_views(part@).subrange(0, i + 1) =~= peak_views(part@).subrange(
                    0,
                    i as int,
                ).push(part@[i as int]@));
            }
            i = i + 1;
        }
        proof {
            let done = all.subrange(0, b + 1);
            assert(done.drop_last() =~= all.subrange(0, b as int));
            assert(done.last() == bins@[b as int]@);
            assert(peak_views(part@).subrange(0, i as int) =~= peak_views(part@));
        }
        b = b + 1;
    }
    proof {
        assert(all.subrange(0, b as int) =~= all);
    }
    result
}

/// Creates consensus peaks by the Gipfelkreuzer algorithm.
///
/// The peaks are binned; within each bin, one reduction pass clusters the peaks by summit
/// proximity, up to `max_iterations` further passes follow until the number of consensus
/// peaks stops changing, and consensus peaks of fewer than `min_peaks_per_consensus` raw
/// peaks are dropped.
pub fn consensus_peaks(
    peaks: Vec<PeakData>,
    max_iterations: usize,
    min_peaks_per_consensus: usize,
) -> (r: Vec<PeakData>)
    ensures
        peak_views(r@) == all_consensus(
            binned(peak_views(peaks@)),
            max_iterations as nat,
            min_peaks_per_consensus as nat,
        ),
{
    let bins = PeakBin::bin_peaks(peaks);
    bins_to_consensus_peaks(&bins, max_iterations, min_peaks_per_consensus)
}

/// With no further passes allowed, the consensus of a bin comes from exactly one reduction
/// pass over its peaks.
pub proof fn lemma_no_iterations_single_pass(peaks: Seq<PeakView>, min: nat)
    ensures
        bin_consensus(peaks, 0, min) == supported(reduce(singletons(peaks)), min),
{
}

} // verus!
