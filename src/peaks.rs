//! Genomic peaks and their binning into runs of overlapping or adjacent regions.
use crate::error::{ApplicationError, ApplicationErrorType};
use crate::ordering::{arrange, rank_by_key, ranking};
use crate::text::push_decimal;
use vstd::prelude::*;

pub mod binning;
pub mod gipfelkreuzer;
pub mod harmoniser;
pub mod simple;

verus! {

/// The mathematical content of a peak.
pub struct PeakView {
    pub id: usize,
    pub start: u64,
    pub end: u64,
    pub summit: u64,
}

impl PeakView {
    /// The region is not empty and holds the summit.
    pub open spec fn valid(self) -> bool {
        self.start <= self.summit <= self.end
    }

    /// The number of bases of the region, both ends included.
    pub open spec fn length(self) -> int {
        self.end - self.start + 1
    }
}

/// Two inclusive ranges overlap or touch: no base lies between them.
pub open spec fn continuous(a_start: int, a_end: int, b_start: int, b_end: int) -> bool {
    b_start <= a_end + 1 && b_end + 1 >= a_start
}

/// The views of a sequence of peaks.
pub open spec fn peak_views(s: Seq<PeakData>) -> Seq<PeakView> {
    s.map_values(|p: PeakData| p@)
}

/// Every peak of the sequence is valid.
pub open spec fn all_valid(s: Seq<PeakView>) -> bool {
    forall|i: int| 0 <= i < s.len() ==> (#[trigger] s[i]).valid()
}

/// A peak region on genomic data: an identifier, an inclusive region and its summit.
///
/// The summit always lies within the region.
#[derive(Clone, Copy, PartialEq, Eq, Debug, Structural)]
pub struct PeakData {
    id: usize,
    start: u64,
    end: u64,
    summit: u64,
}

impl View for PeakData {
    type V = PeakView;

    closed spec fn view(&self) -> PeakView {
        PeakView { id: self.id, start: self.start, end: self.end, summit: self.summit }
    }
}

impl PeakData {
    #[verifier::type_invariant]
    spec fn well_formed(self) -> bool {
        self.start <= self.summit <= self.end
    }

    /// Creates a new peak region.
    ///
    /// Fails with `InvalidInterval` if `start > end`, and with `SummitOutOfRange` if the
    /// summit lies outside of `[start, end]`.
    pub fn new(id: usize, start: u64, end: u64, summit: u64) -> (r: Result<Self, ApplicationError>)
        ensures
            r is Ok <==> start <= summit <= end,
            r is Ok ==> r->Ok_0@ == (PeakView { id, start, end, summit }),
            start > end ==> r is Err && r->Err_0.kind() == ApplicationErrorType::InvalidInterval,
            start <= end && !(start <= summit <= end) ==> r is Err && r->Err_0.kind()
                == ApplicationErrorType::SummitOutOfRange,
    {
        if start > end {
            let mut message = String::from_str("The end coordinate ");
            push_decimal(&mut message, end);
            message.append(" of peak ");
            push_decimal(&mut message, id as u64);
            message.append(" is smaller than the start coordinate ");
            push_decimal(&mut message, start);
            message.append(".");
            return Err(ApplicationError::new(ApplicationErrorType::InvalidInterval, message.as_str()));
        }
        if summit < start || summit > end {
            let mut message = String::from_str("The summit ");
            push_decimal(&mut message, summit);
            message.append(" of peak ");
            push_decimal(&mut message, id as u64);
            message.append(" is not within the peak region [");
            push_decimal(&mut message, start);
            message.append(", ");
            push_decimal(&mut message, end);
            message.append("].");
            return Err(ApplicationError::new(ApplicationErrorType::SummitOutOfRange, message.as_str()));
        }
        Ok(Self { id, start, end, summit })
    }

    /// Creates a peak from values already known to be valid.
    pub(crate) fn from_valid(id: usize, start: u64, end: u64, summit: u64) -> (r: Self)
        requires
            start <= summit <= end,
        ensures
            r@ == (PeakView { id, start, end, summit }),
    {
        Self { id, start, end, summit }
    }

    /// The identifier of the peak.
    pub fn id(&self) -> (r: usize)
        ensures
            r == self@.id,
            self@.valid(),
    {
        proof {
            use_type_invariant(self);
        }
        self.id
    }

    /// The start coordinate of the region.
    pub fn start(&self) -> (r: u64)
        ensures
            r == self@.start,
            self@.valid(),
    {
        proof {
            use_type_invariant(self);
        }
        self.start
    }

    /// The end coordinate of the region (inclusive).
    pub fn end(&self) -> (r: u64)
        ensures
            r == self@.end,
            self@.valid(),
    {
        proof {
            use_type_invariant(self);
        }
        self.end
    }

    /// The coordinate of the summit.
    pub fn summit(&self) -> (r: u64)
        ensures
            r == self@.summit,
            self@.valid(),
    {
        proof {
            use_type_invariant(self);
        }
        self.summit
    }

    /// The number of bases of the region, both ends included.
    pub fn length(&self) -> (r: u128)
        ensures
            r == self@.length(),
            r >= 1,
    {
        proof {
            use_type_invariant(self);
        }
        self.end as u128 - self.start as u128 + 1
    }
}

/// Returns true if both ranges are either overlapping or directly adjacent.
///
/// Both ranges must be valid; an invalid one aborts the program.
pub fn is_continuous_range(a_start: u64, a_end: u64, b_start: u64, b_end: u64) -> (r: bool)
    requires
        a_start <= a_end,
        b_start <= b_end,
    ensures
        r == continuous(a_start as int, a_end as int, b_start as int, b_end as int),
{
    if a_start > a_end || b_start > b_end {
        // Only callers that ignore the precondition get here: stop loudly instead of answering.
        let invalid: Option<bool> = None;
        return invalid.expect("Invalid ranges while comparing for continuity.");
    }
    (b_start <= a_end || b_start - a_end == 1) && (a_start <= b_end || a_start - b_end == 1)
}

/// The mathematical content of a bin: its extent and its members in order of insertion.
pub struct BinView {
    pub start: u64,
    pub end: u64,
    pub peaks: Seq<PeakView>,
}

impl BinView {
    /// A bin holding a single peak.
    pub open spec fn single(p: PeakView) -> BinView {
        BinView { start: p.start, end: p.end, peaks: seq![p] }
    }

    /// The bin extended by a peak: the extent grows to cover it and it joins the members.
    pub open spec fn insert(self, p: PeakView) -> BinView {
        BinView {
            start: if p.start < self.start {
                p.start
            } else {
                self.start
            },
            end: if p.end > self.end {
                p.end
            } else {
                self.end
            },
            peaks: self.peaks.push(p),
        }
    }

    /// The bin holds valid peaks, and its extent runs from the least start to the greatest end.
    pub open spec fn wf(self) -> bool {
        &&& self.peaks.len() > 0
        &&& all_valid(self.peaks)
        &&& self.start <= self.end
        &&& forall|i: int|
            0 <= i < self.peaks.len() ==> self.start <= (#[trigger] self.peaks[i]).start
                && self.peaks[i].end <= self.end
        &&& exists|i: int| 0 <= i < self.peaks.len() && (#[trigger] self.peaks[i]).start == self.start
        &&& exists|i: int| 0 <= i < self.peaks.len() && (#[trigger] self.peaks[i]).end == self.end
    }
}

/// The views of a sequence of bins.
pub open spec fn bin_views(s: Seq<PeakBin>) -> Seq<BinView> {
    s.map_values(|b: PeakBin| b@)
}

/// One step of the sweep: the peak joins the last bin if it is continuous with that bin's
/// extent, and opens a new bin otherwise.
pub open spec fn step(bins: Seq<BinView>, p: PeakView) -> Seq<BinView> {
    if bins.len() > 0 && continuous(
        bins.last().start as int,
        bins.last().end as int,
        p.start as int,
        p.end as int,
    ) {
        bins.update(bins.len() - 1, bins.last().insert(p))
    } else {
        bins.push(BinView::single(p))
    }
}

/// Bins of a sequence of peaks taken in its order: each peak joins the current bin if it
/// is continuous with that bin's extent, and opens a new bin otherwise.
pub open spec fn sweep(s: Seq<PeakView>) -> Seq<BinView>
    decreases s.len(),
{
    if s.len() == 0 {
        seq![]
    } else {
        step(sweep(s.drop_last()), s.last())
    }
}

/// The start coordinates of a sequence of peaks.
pub open spec fn starts(s: Seq<PeakView>) -> Seq<u64> {
    s.map_values(|p: PeakView| p.start)
}

/// The peaks in ascending order of start; peaks with equal starts keep their order.
pub open spec fn by_start(s: Seq<PeakView>) -> Seq<PeakView> {
    arrange(s, ranking(starts(s)))
}

/// The bins of a collection of peaks: the sweep over the peaks in order of start.
pub open spec fn binned(s: Seq<PeakView>) -> Seq<BinView> {
    sweep(by_start(s))
}

/// A bin of overlapping or adjacent peaks.
#[derive(Debug)]
pub struct PeakBin {
    start: u64,
    end: u64,
    peaks: Vec<PeakData>,
}

impl View for PeakBin {
    type V = BinView;

    closed spec fn view(&self) -> BinView {
        BinView { start: self.start, end: self.end, peaks: peak_views(self.peaks@) }
    }
}

impl PeakBin {
    #[verifier::type_invariant]
    spec fn well_formed(self) -> bool {
        self@.wf()
    }

    /// Creates a new bin holding a single peak.
    pub fn new(peak_data: PeakData) -> (r: Self)
        ensures
            r@ == BinView::single(peak_data@),
    {
        let start = peak_data.start();
        let end = peak_data.end();
        let peaks = vec![peak_data];
        proof {
            let v = peak_views(peaks@);
            assert(v =~= seq![peak_data@]);
            assert(v[0].start == start);
            assert(v[0].end == end);
            assert(all_valid(v));
            assert((BinView { start, end, peaks: v }).wf());
        }
        Self { start, end, peaks }
    }

    /// Adds a peak to the bin, whether or not it is continuous with it.
    pub fn insert(&mut self, peak_data: PeakData)
        ensures
            final(self)@ == old(self)@.insert(peak_data@),
    {
        proof {
            use_type_invariant(&*self);
        }
        let p_start = peak_data.start();
        let p_end = peak_data.end();
        let ghost old_view = self@;
        // Take the bin out behind a valid placeholder, so that the invariant holds throughout.
        let mut this = PeakBin::new(peak_data);
        std::mem::swap(&mut this, self);
        let start = if p_start < this.start {
            p_start
        } else {
            this.start
        };
        let end = if p_end > this.end {
            p_end
        } else {
            this.end
        };
        let mut peaks = this.peaks;
        peaks.push(peak_data);
        proof {
            let v = old_view.insert(peak_data@);
            assert(peak_views(peaks@) =~= v.peaks);
            let n = old_view.peaks.len();
            assert(v.peaks[n as int] == peak_data@);
            assert forall|i: int| 0 <= i < v.peaks.len() implies (#[trigger] v.peaks[i]).valid()
                && start <= v.peaks[i].start && v.peaks[i].end <= end by {
                if i < n {
                    assert(v.peaks[i] == old_view.peaks[i]);
                }
            }
            if p_start < old_view.start {
                assert(v.peaks[n as int].start == start);
            } else {
                let k = choose|k: int| 0 <= k < n && (#[trigger] old_view.peaks[k]).start == old_view.start;
                assert(v.peaks[k] == old_view.peaks[k]);
            }
            if p_end > old_view.end {
                assert(v.peaks[n as int].end == end);
            } else {
                let k = choose|k: int| 0 <= k < n && (#[trigger] old_view.peaks[k]).end == old_view.end;
                assert(v.peaks[k] == old_view.peaks[k]);
            }
        }
        *self = Self { start, end, peaks };
    }

    /// Inserts the peak if it overlaps or is adjacent to the bin; otherwise hands it back.
    pub fn try_insert(&mut self, peak_data: PeakData) -> (r: Option<PeakData>)
        ensures
            continuous(
                old(self)@.start as int,
                old(self)@.end as int,
                peak_data@.start as int,
                peak_data@.end as int,
            ) ==> r is None && final(self)@ == old(self)@.insert(peak_data@),
            !continuous(
                old(self)@.start as int,
                old(self)@.end as int,
                peak_data@.start as int,
                peak_data@.end as int,
            ) ==> r == Some(peak_data) && final(self)@ == old(self)@,
    {
        proof {
            use_type_invariant(&*self);
        }
        let p_start = peak_data.start();
        let p_end = peak_data.end();
        if is_continuous_range(self.start, self.end, p_start, p_end) {
            self.insert(peak_data);
            None
        } else {
            Some(peak_data)
        }
    }

    /// The least start coordinate of the members.
    pub fn start(&self) -> (r: u64)
        ensures
            r == self@.start,
            self@.wf(),
    {
        proof {
            use_type_invariant(self);
        }
        self.start
    }

    /// The greatest end coordinate of the members.
    pub fn end(&self) -> (r: u64)
        ensures
            r == self@.end,
            self@.wf(),
    {
        proof {
            use_type_invariant(self);
        }
        self.end
    }

    /// The members, in order of insertion.
    pub fn peaks(&self) -> (r: &Vec<PeakData>)
        ensures
            peak_views(r@) == self@.peaks,
            self@.wf(),
    {
        proof {
            use_type_invariant(self);
        }
        &self.peaks
    }

    /// The members, in order of insertion.
    pub fn into_peaks(self) -> (r: Vec<PeakData>)
        ensures
            peak_views(r@) == self@.peaks,
    {
        self.peaks
    }

    /// Groups peaks into bins of overlapping or adjacent peaks.
    ///
    /// The peaks are taken in ascending order of start (equal starts in their given order);
    /// each joins the current bin if it is continuous with its extent, and opens a new bin
    /// otherwise.
    pub fn bin_peaks(peaks: Vec<PeakData>) -> (r: Vec<PeakBin>)
        ensures
            bin_views(r@) == binned(peak_views(peaks@)),
    {
        let n = peaks.len();
        let ghost views = peak_views(peaks@);
        let mut keys: Vec<u64> = Vec::with_capacity(n);
        let mut i: usize = 0;
        while i < n
            invariant
                n == peaks@.len(),
                views == peak_views(peaks@),
                i <= n,
                keys@ == starts(views).subrange(0, i as int),
            decreases n - i,
        {
            keys.push(peaks[i].start());
            i = i + 1;
            proof {
                assert(keys@ =~= starts(views).subrange(0, i as int));
            }
        }
        proof {
            assert(keys@ =~= starts(views));
        }
        let order = rank_by_key(&keys);
        let ghost sorted = by_start(views);
        assert(sorted == arrange(views, order@));
        assert(sorted.len() == n);
        let mut bins: Vec<PeakBin> = Vec::new();
        if n == 0 {
            proof {
                assert(sorted =~= seq![]);
                assert(bin_views(bins@) =~= seq![]);
            }
            return bins;
        }
        let mut current = PeakBin::new(peaks[order[0]]);
        proof {
            assert(sorted.subrange(0, 1).drop_last() =~= seq![]);
            assert(sweep(seq![]) =~= Seq::<BinView>::empty());
            assert(sorted.subrange(0, 1).last() == peaks@[order@[0] as int]@);
            assert(bin_views(bins@).push(current@) =~= sweep(sorted.subrange(0, 1)));
        }
        let mut j: usize = 1;
        while j < n
            invariant
                n == peaks@.len(),
                n == order@.len(),
                views == peak_views(peaks@),
                sorted == arrange(views, order@),
                forall|k: int| 0 <= k < n ==> (#[trigger] order@[k]) < n,
                1 <= j <= n,
                bin_views(bins@).push(current@) == sweep(sorted.subrange(0, j as int)),
            decreases n - j,
        {
            let p = peaks[order[j]];
            let ghost before = bin_views(bins@).push(current@);
            proof {
                assert(sorted.subrange(0, j + 1).drop_last() =~= sorted.subrange(0, j as int));
                assert(sorted[j as int] == p@);
            }
            match current.try_insert(p) {
                None => {
                    proof {
                        assert(bin_views(bins@).push(current@) =~= before.update(
                            before.len() - 1,
                            before.last().insert(p@),
                        ));
                    }
                },
                Some(p) => {
                    bins.push(current);
                    current = PeakBin::new(p);
                    proof {
                        assert(bin_views(bins@) =~= before);
                        assert(bin_views(bins@).push(current@) =~= before.push(BinView::single(p@)));
                    }
                },
            }
            j = j + 1;
        }
        bins.push(current);
        proof {
            assert(sorted.subrange(0, n as int) =~= sorted);
        }
        bins
    }
}

impl From<PeakBin> for Vec<PeakData> {
    fn from(bin: PeakBin) -> (r: Vec<PeakData>) {
        bin.into_peaks()
    }
}

impl vstd::std_specs::convert::FromSpecImpl<PeakBin> for Vec<PeakData> {
    open spec fn obeys_from_spec() -> bool {
        false
    }

    open spec fn from_spec(bin: PeakBin) -> Vec<PeakData> {
        arbitrary()
    }
}

/// The integer midpoint of `[a, b]`, rounded down.
pub open spec fn midpoint(a: u64, b: u64) -> u64 {
    ((a + b) / 2) as u64
}

/// Computes the integer midpoint of `a` and `b`, rounded down, without overflow.
pub fn range_midpoint(a: u64, b: u64) -> (r: u64)
    ensures
        r == midpoint(a, b),
        a <= b ==> a <= r <= b,
{
    if a <= b {
        a + (b - a) / 2
    } else {
        b + (a - b) / 2
    }
}

/// One peak per bin spanning the bin's extent, with the bin's position as identifier and
/// the midpoint of the extent as summit.
pub open spec fn extent_peaks(bins: Seq<BinView>) -> Seq<PeakView> {
    Seq::new(
        bins.len(),
        |i: int|
            PeakView {
                id: i as usize,
                start: bins[i].start,
                end: bins[i].end,
                summit: midpoint(bins[i].start, bins[i].end),
            },
    )
}

/// The bins that hold at least `min` peaks, in order.
pub open spec fn large_bins(bins: Seq<BinView>, min: nat) -> Seq<BinView>
    decreases bins.len(),
{
    if bins.len() == 0 {
        seq![]
    } else {
        let rest = large_bins(bins.drop_last(), min);
        if bins.last().peaks.len() >= min {
            rest.push(bins.last())
        } else {
            rest
        }
    }
}

/// No bin is empty, so a minimum of no peaks keeps every bin.
pub proof fn lemma_large_bins_zero(bins: Seq<BinView>)
    ensures
        large_bins(bins, 0) == bins,
    decreases bins.len(),
{
    if bins.len() > 0 {
        lemma_large_bins_zero(bins.drop_last());
        assert(bins.drop_last().push(bins.last()) =~= bins);
    }
}

/// One peak per bin of at least `min` peaks, spanning the bin's extent, numbered in order,
/// with the midpoint of the extent as summit. `context` names the algorithm in error messages.
pub(crate) fn bins_to_extent_peaks(bins: &Vec<PeakBin>, min: usize, context: &str) -> (r: Result<
    Vec<PeakData>,
    ApplicationError,
>)
    ensures
        r is Ok,
        r is Ok ==> peak_views(r->Ok_0@) == extent_peaks(large_bins(bin_views(bins@), min as nat)),
{
    let ghost all = bin_views(bins@);
    let mut merged_peaks: Vec<PeakData> = Vec::new();
    let mut b: usize = 0;
    while b < bins.len()
        invariant
            b <= bins@.len(),
            all == bin_views(bins@),
            peak_views(merged_peaks@) == extent_peaks(large_bins(all.subrange(0, b as int), min as nat)),
            merged_peaks@.len() <= b,
        decreases bins@.len() - b,
    {
        let ghost done = all.subrange(0, b + 1);
        proof {
            assert(done.drop_last() =~= all.subrange(0, b as int));
            assert(done.last() == bins@[b as int]@);
        }
        let bin = &bins[b];
        let members = bin.peaks().len();
        proof {
            assert(members == done.last().peaks.len());
        }
        if members >= min {
            let bin_index = merged_peaks.len();
            let start = bin.start();
            let end = bin.end();
            let summit = range_midpoint(start, end);
            match PeakData::new(bin_index, start, end, summit) {
                Ok(peak) => {
                    let ghost prior = merged_peaks@;
                    merged_peaks.push(peak);
                    proof {
                        let lb = large_bins(all.subrange(0, b as int), min as nat);
                        assert(large_bins(done, min as nat) == lb.push(done.last()));
                        assert(peak_views(prior) == extent_peaks(lb));
                        assert(peak_views(prior).len() == prior.len());
                        assert(extent_peaks(lb).len() == lb.len());
                        assert(prior.len() == lb.len());
                        assert(peak_views(merged_peaks@) =~= peak_views(prior).push(peak@));
                        assert(extent_peaks(lb.push(done.last())) =~= extent_peaks(lb).push(
                            peak@,
                        ));
                    }
                },
                Err(err) => {
                    let mut message = String::from_str("Failed to create a ");
                    message.append(context);
                    message.append(" consensus peak from peak bin ");
                    push_decimal(&mut message, bin_index as u64);
                    message.append(".");
                    return Err(err.chain(message.as_str()));
                },
            }
        }
        b = b + 1;
    }
    proof {
        assert(all.subrange(0, b as int) =~= all);
    }
    Ok(merged_peaks)
}

/// The bins of a collection of peaks, ready for consensus peak generation.
pub struct PeakMerger {
    bins: Vec<PeakBin>,
}

impl View for PeakMerger {
    type V = Seq<BinView>;

    closed spec fn view(&self) -> Seq<BinView> {
        bin_views(self.bins@)
    }
}

impl PeakMerger {
    /// Bins the peaks.
    pub fn new(peaks: Vec<PeakData>) -> (r: Self)
        ensures
            r@ == binned(peak_views(peaks@)),
    {
        Self { bins: PeakBin::bin_peaks(peaks) }
    }

    /// The bins, in the order of the sweep.
    pub fn bins(&self) -> (r: &Vec<PeakBin>)
        ensures
            bin_views(r@) == self@,
    {
        &self.bins
    }

    /// The Gipfelkreuzer consensus peaks of all bins, without a minimum of raw peaks.
    pub fn consensus_peaks(self, max_iterations: usize) -> (r: Vec<PeakData>)
        ensures
            peak_views(r@) == gipfelkreuzer::all_consensus(self@, max_iterations as nat, 0),
    {
        gipfelkreuzer::bins_to_consensus_peaks(&self.bins, max_iterations, 0)
    }
}

} // verus!
