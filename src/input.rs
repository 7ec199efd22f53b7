//! Reading peaks from lines of BED text: fields separated by spaces or tabs, the chromosome
//! in field 1, start and end in fields 2 and 3, and the summit offset from the start in
//! field 10 (as in narrowPeak), where `-1` marks a missing summit.
use crate::error::{ApplicationError, ApplicationErrorType};
use crate::peaks::{midpoint, range_midpoint, PeakData, PeakView};
use crate::text::push_decimal;
use vstd::prelude::*;

verus! {

/// Fields are separated by spaces and tabs.
pub open spec fn is_separator(b: u8) -> bool {
    b == 32 || b == 9
}

/// The fields of a line: its maximal runs of bytes other than spaces and tabs.
pub open spec fn fields_of(s: Seq<u8>) -> Seq<Seq<u8>>
    decreases s.len(),
{
    if s.len() == 0 {
        seq![]
    } else {
        let before = fields_of(s.drop_last());
        let b = s.last();
        if is_separator(b) {
            before
        } else if s.len() >= 2 && !is_separator(s[s.len() - 2]) {
            before.update(before.len() - 1, before.last().push(b))
        } else {
            before.push(seq![b])
        }
    }
}

/// A decimal digit.
pub open spec fn is_digit(b: u8) -> bool {
    48 <= b <= 57
}

/// The value of a sequence of decimal digits, most significant first.
pub open spec fn digits_value(s: Seq<u8>) -> int
    decreases s.len(),
{
    if s.len() == 0 {
        0
    } else {
        digits_value(s.drop_last()) * 10 + (s.last() - 48)
    }
}

/// The digits of an unsigned number: the text without an optional leading `+`.
pub open spec fn unsigned_digits(s: Seq<u8>) -> Seq<u8> {
    if s.len() > 0 && s[0] == 43 {
        s.drop_first()
    } else {
        s
    }
}

/// The text is an unsigned decimal number that fits in 64 bits: an optional `+`, then one
/// or more digits.
pub open spec fn parses_u64(s: Seq<u8>) -> bool {
    let d = unsigned_digits(s);
    &&& d.len() > 0
    &&& forall|i: int| 0 <= i < d.len() ==> is_digit(#[trigger] d[i])
    &&& digits_value(d) <= u64::MAX
}

/// The value of an unsigned decimal number.
pub open spec fn u64_value(s: Seq<u8>) -> int {
    digits_value(unsigned_digits(s))
}

/// The field that marks a missing summit.
pub open spec fn missing_summit() -> Seq<u8> {
    seq![45u8, 49u8]
}

/// What a line of BED text holds.
pub enum LineContent {
    /// A blank line or a comment, which holds no peak.
    Skipped,
    /// A line that cannot be read, with the kind of the error.
    Invalid(ApplicationErrorType),
    /// A peak on the named chromosome.
    Peak(Seq<u8>, PeakView),
}

/// What line `index` (counted from 0) of BED text holds.
///
/// A line without fields, or whose first field starts with `#`, is skipped. A line of fewer
/// than three fields, or whose start, end or summit offset is no unsigned 64-bit number, or
/// whose summit offset added to the start does not fit in 64 bits, is invalid input data.
/// Without a tenth field, or with `-1` there, the summit is the midpoint of the region. The
/// peak takes the line's index as identifier, and fails as [`PeakData::new`] does.
pub open spec fn line_content(line: Seq<u8>, index: usize) -> LineContent {
    let f = fields_of(line);
    if f.len() == 0 || f[0][0] == 35 {
        LineContent::Skipped
    } else if f.len() < 3 || !parses_u64(f[1]) || !parses_u64(f[2]) {
        LineContent::Invalid(ApplicationErrorType::InputDataError)
    } else {
        let start = u64_value(f[1]);
        let end = u64_value(f[2]);
        let has_summit = f.len() >= 10 && f[9] != missing_summit();
        if has_summit && (!parses_u64(f[9]) || start + u64_value(f[9]) > u64::MAX) {
            LineContent::Invalid(ApplicationErrorType::InputDataError)
        } else {
            let summit = if has_summit {
                start + u64_value(f[9])
            } else {
                midpoint(start as u64, end as u64) as int
            };
            if start > end {
                LineContent::Invalid(ApplicationErrorType::InvalidInterval)
            } else if !(start <= summit <= end) {
                LineContent::Invalid(ApplicationErrorType::SummitOutOfRange)
            } else {
                LineContent::Peak(
                    f[0],
                    PeakView {
                        id: index,
                        start: start as u64,
                        end: end as u64,
                        summit: summit as u64,
                    },
                )
            }
        }
    }
}

/// A peak read from a line of BED text, with the name of its chromosome.
pub struct BedRecord {
    pub chromosome: Vec<u8>,
    pub peak: PeakData,
}

/// The texts of byte ranges of a line.
pub open spec fn range_texts(line: Seq<u8>, ranges: Seq<(usize, usize)>) -> Seq<Seq<u8>> {
    ranges.map_values(|r: (usize, usize)| line.subrange(r.0 as int, r.1 as int))
}

/// The byte ranges of the fields of a line.
fn split_fields(line: &[u8]) -> (r: Vec<(usize, usize)>)
    ensures
        range_texts(line@, r@) == fields_of(line@),
        forall|k: int| 0 <= k < r@.len() ==> (#[trigger] r@[k]).0 < r@[k].1 <= line@.len(),
{
    let mut ranges: Vec<(usize, usize)> = Vec::new();
    let mut i: usize = 0;
    while i < line.len()
        invariant
            i <= line@.len(),
            range_texts(line@, ranges@) == fields_of(line@.subrange(0, i as int)),
            forall|k: int| 0 <= k < ranges@.len() ==> (#[trigger] ranges@[k]).0 < ranges@[k].1 <= i,
            i > 0 && !is_separator(line@[i - 1]) ==> ranges@.len() > 0 && ranges@.last().1 == i,
        decreases line@.len() - i,
    {
        let b = line[i];
        let ghost prefix = line@.subrange(0, i + 1);
        proof {
            assert(prefix.drop_last() =~= line@.subrange(0, i as int));
            assert(prefix.last() == b);
        }
        if b == 32 || b == 9 {
        } else if i > 0 && line[i - 1] != 32 && line[i - 1] != 9 {
            let last = ranges.len() - 1;
            let from = ranges[last].0;
            let ghost before = ranges@;
            ranges.set(last, (from, i + 1));
            proof {
                assert(prefix[prefix.len() - 2] == line@[i - 1]);
                assert(line@.subrange(from as int, i + 1) =~= line@.subrange(from as int, i as int).push(b));
                assert(range_texts(line@, ranges@) =~= range_texts(line@, before).update(
                    last as int,
                    range_texts(line@, before)[last as int].push(b),
                ));
            }
        } else {
            let ghost before = ranges@;
            ranges.push((i, i + 1));
            proof {
                if i > 0 {
                    assert(prefix[prefix.len() - 2] == line@[i - 1]);
                }
                assert(line@.subrange(i as int, i + 1) =~= seq![b]);
                assert(range_texts(line@, ranges@) =~= range_texts(line@, before).push(seq![b]));
            }
        }
        i = i + 1;
    }
    proof {
        assert(line@.subrange(0, i as int) =~= line@);
    }
    ranges
}

proof fn lemma_digits_value_grows(s: Seq<u8>, k: int)
    requires
        0 <= k <= s.len(),
        forall|i: int| 0 <= i < s.len() ==> is_digit(#[trigger] s[i]),
    ensures
        digits_value(s.subrange(0, k)) <= digits_value(s),
        digits_value(s.subrange(0, k)) >= 0,
    decreases s.len(),
{
    if k < s.len() {
        assert(is_digit(s[s.len() - 1]));
        assert(s.drop_last().subrange(0, k) =~= s.subrange(0, k));
        lemma_digits_value_grows(s.drop_last(), k);
    } else {
        assert(s.subrange(0, k) =~= s);
        if s.len() > 0 {
            assert(is_digit(s[s.len() - 1]));
            lemma_digits_value_grows(s.drop_last(), k - 1);
            assert(s.drop_last().subrange(0, k - 1) =~= s.drop_last());
        }
    }
}

/// Parses the bytes `from..to` of the line as an unsigned decimal number.
fn parse_u64(line: &[u8], from: usize, to: usize) -> (r: Option<u64>)
    requires
        from <= to <= line@.len(),
    ensures
        r is Some <==> parses_u64(line@.subrange(from as int, to as int)),
        r is Some ==> r->0 == u64_value(line@.subrange(from as int, to as int)),
{
    let ghost text = line@.subrange(from as int, to as int);
    let mut i = from;
    if i < to && line[i] == 43 {
        i = i + 1;
    }
    let digits_start = i;
    let ghost digits = line@.subrange(digits_start as int, to as int);
    proof {
        assert(unsigned_digits(text) =~= digits);
    }
    if i == to {
        return None;
    }
    let mut value: u64 = 0;
    while i < to
        invariant
            from <= digits_start <= i <= to <= line@.len(),
            digits == line@.subrange(digits_start as int, to as int),
            unsigned_digits(line@.subrange(from as int, to as int)) == digits,
            forall|k: int| 0 <= k < i - digits_start ==> is_digit(#[trigger] digits[k]),
            value == digits_value(digits.subrange(0, i - digits_start)),
        decreases to - i,
    {
        let b = line[i];
        proof {
            assert(digits[i - digits_start] == b);
        }
        if b < 48 || b > 57 {
            proof {
                assert(!is_digit(digits[i - digits_start]));
            }
            return None;
        }
        let d = (b - 48) as u64;
        let ghost next = digits.subrange(0, i + 1 - digits_start);
        proof {
            assert(next.drop_last() =~= digits.subrange(0, i - digits_start));
            assert(next.last() == b);
            assert(digits_value(next) == value * 10 + d);
        }
        if value > (u64::MAX - d) / 10 {
            proof {
                assert(value * 10 + d > u64::MAX) by (nonlinear_arith)
                    requires
                        value > (u64::MAX - d) / 10,
                        d <= 9,
                ;
                if forall|k: int| 0 <= k < digits.len() ==> is_digit(#[trigger] digits[k]) {
                    lemma_digits_value_grows(digits, i + 1 - digits_start);
                }
            }
            return None;
        }
        proof {
            assert(value * 10 + d <= u64::MAX) by (nonlinear_arith)
                requires
                    value <= (u64::MAX - d) / 10,
                    d <= 9,
            ;
        }
        value = value * 10 + d;
        i = i + 1;
    }
    proof {
        assert(digits.subrange(0, i - digits_start) =~= digits);
    }
    Some(value)
}

/// Appends "Line <n>" to the message, with the line counted from 1.
fn push_line_number(message: &mut String, line_index: usize) {
    message.append("Line ");
    if line_index as u64 == u64::MAX {
        push_decimal(message, line_index as u64);
        message.append(" (counted from 0)");
    } else {
        push_decimal(message, line_index as u64 + 1);
    }
}

fn invalid_line(line_index: usize, problem: &str) -> (r: ApplicationError)
    ensures
        r.kind() == ApplicationErrorType::InputDataError,
{
    let mut message = String::new();
    push_line_number(&mut message, line_index);
    message.append(problem);
    ApplicationError::new(ApplicationErrorType::InputDataError, message.as_str())
}

/// Reads line `line_index` (counted from 0) of BED text.
///
/// Returns `None` for a blank line or a comment, and the peak with its chromosome otherwise;
/// fails where the line cannot be read as a peak (see [`line_content`]).
pub fn parse_bed_line(line: &[u8], line_index: usize) -> (r: Result<
    Option<BedRecord>,
    ApplicationError,
>)
    ensures
        line_content(line@, line_index) is Skipped <==> (r is Ok && r->Ok_0 is None),
        line_content(line@, line_index) is Invalid <==> r is Err,
        line_content(line@, line_index) is Invalid ==> r->Err_0.kind() == line_content(
            line@,
            line_index,
        )->Invalid_0,
        line_content(line@, line_index) is Peak ==> r is Ok && r->Ok_0 is Some
            && r->Ok_0->Some_0.chromosome@ == line_content(line@, line_index)->Peak_0
            && r->Ok_0->Some_0.peak@ == line_content(line@, line_index)->Peak_1,
{
    let ranges = split_fields(line);
    let ghost f = fields_of(line@);
    proof {
        assert(f.len() == ranges@.len());
        if ranges@.len() > 0 {
            assert(f[0] == line@.subrange(ranges@[0].0 as int, ranges@[0].1 as int));
        }
    }
    if ranges.len() == 0 || line[ranges[0].0] == 35 {
        return Ok(None);
    }
    if ranges.len() < 3 {
        return Err(invalid_line(line_index, " does not contain the minimally required fields."));
    }
    proof {
        assert(f[1] == line@.subrange(ranges@[1].0 as int, ranges@[1].1 as int));
        assert(f[2] == line@.subrange(ranges@[2].0 as int, ranges@[2].1 as int));
    }
    let start = match parse_u64(line, ranges[1].0, ranges[1].1) {
        Some(v) => v,
        None => {
            return Err(invalid_line(line_index, ": the start coordinate is not a number."));
        },
    };
    let end = match parse_u64(line, ranges[2].0, ranges[2].1) {
        Some(v) => v,
        None => {
            return Err(invalid_line(line_index, ": the end coordinate is not a number."));
        },
    };
    let has_summit = if ranges.len() >= 10 {
        let (from, to) = ranges[9];
        proof {
            assert(f[9] == line@.subrange(from as int, to as int));
            if to - from == 2 && line@[from as int] == 45 && line@[from + 1] == 49 {
                assert(f[9] =~= missing_summit());
            } else if to - from == 2 {
                assert(f[9][0] == line@[from as int]);
                assert(f[9][1] == line@[from + 1]);
                assert(f[9] != missing_summit());
            } else {
                assert(f[9].len() != missing_summit().len());
            }
        }
        !(to - from == 2 && line[from] == 45 && line[from + 1] == 49)
    } else {
        false
    };
    let summit = if has_summit {
        let (from, to) = ranges[9];
        let offset = match parse_u64(line, from, to) {
            Some(v) => v,
            None => {
                return Err(invalid_line(line_index, ": the summit offset is not a number."));
            },
        };
        match start.checked_add(offset) {
            Some(v) => v,
            None => {
                return Err(invalid_line(line_index, ": the summit lies beyond the coordinate range."));
            },
        }
    } else {
        range_midpoint(start, end)
    };
    let peak = match PeakData::new(line_index, start, end, summit) {
        Ok(p) => p,
        Err(err) => {
            let mut message = String::new();
            push_line_number(&mut message, line_index);
            message.append(" contains invalid data.");
            return Err(err.chain(message.as_str()));
        },
    };
    let (from, to) = ranges[0];
    let mut chromosome: Vec<u8> = Vec::with_capacity(to - from);
    let mut k = from;
    while k < to
        invariant
            from <= k <= to <= line@.len(),
            chromosome@ == line@.subrange(from as int, k as int),
        decreases to - k,
    {
        chromosome.push(line[k]);
        k = k + 1;
        proof {
            assert(chromosome@ =~= line@.subrange(from as int, k as int));
        }
    }
    Ok(Some(BedRecord { chromosome, peak }))
}

} // verus!
