//! BED record lines for consensus peaks.
use crate::peaks::{PeakData, PeakView};
use crate::text::{decimal, push_decimal};
use vstd::prelude::*;

verus! {

/// The prefix of the name of a consensus peak.
pub open spec fn name_prefix() -> Seq<char> {
    seq!['c', 'o', 'n', 's', 'e', 'n', 's', 'u', 's', '_']
}

/// The text of field `k` (counted from 0) of the BED record of a peak: chromosome, start,
/// end, name, then fillers, with the strand `.` in field 5 and the summit in field 9.
pub open spec fn field_text(peak: PeakView, chromosome: Seq<char>, k: int) -> Seq<char> {
    if k == 0 {
        chromosome
    } else if k == 1 {
        decimal(peak.start as nat)
    } else if k == 2 {
        decimal(peak.end as nat)
    } else if k == 3 {
        name_prefix() + decimal(peak.id as nat)
    } else if k == 5 {
        seq!['.']
    } else if k == 9 {
        decimal(peak.summit as nat)
    } else {
        seq!['0']
    }
}

/// What follows field `k` of a record of `fields` fields: a tab, or a line break after the
/// last one.
pub open spec fn field_separator(k: int, fields: int) -> Seq<char> {
    if k < fields - 1 {
        seq!['\t']
    } else {
        seq!['\n']
    }
}

/// The first `n` fields of the BED record of a peak, each with its separator.
pub open spec fn record_prefix(peak: PeakView, chromosome: Seq<char>, fields: int, n: int) -> Seq<
    char,
>
    decreases n,
{
    if n <= 0 {
        seq![]
    } else {
        record_prefix(peak, chromosome, fields, n - 1) + field_text(peak, chromosome, n - 1)
            + field_separator(n - 1, fields)
    }
}

/// The BED record line of a peak with `fields` fields.
pub open spec fn bed_record(peak: PeakView, chromosome: Seq<char>, fields: int) -> Seq<char> {
    record_prefix(peak, chromosome, fields, fields)
}

/// Creates a BED record line of a peak on the given chromosome, with `fields` fields
/// separated by tabs and ended by a line break: chromosome, start, end, the name
/// `consensus_<id>`, and fillers, with the strand `.` in field 6 and the summit in field 10.
/// No fields give an empty line.
pub fn peak_to_bed_record_line(peak: &PeakData, chromosome: &str, fields: usize) -> (r: String)
    ensures
        r@ == bed_record(peak@, chromosome@, fields as int),
{
    let mut bed_record = String::new();
    let mut field_index: usize = 0;
    while field_index < fields
        invariant
            field_index <= fields,
            bed_record@ == record_prefix(peak@, chromosome@, fields as int, field_index as int),
        decreases fields - field_index,
    {
        let ghost before = bed_record@;
        proof {
            reveal_strlit("consensus_");
            reveal_strlit(".");
            reveal_strlit("0");
            reveal_strlit("\t");
            reveal_strlit("\n");
            assert("consensus_"@ =~= name_prefix());
            assert("."@ =~= seq!['.']);
            assert("0"@ =~= seq!['0']);
            assert("\t"@ =~= seq!['\t']);
            assert("\n"@ =~= seq!['\n']);
        }
        if field_index == 0 {
            bed_record.append(chromosome);
        } else if field_index == 1 {
            push_decimal(&mut bed_record, peak.start());
        } else if field_index == 2 {
            push_decimal(&mut bed_record, peak.end());
        } else if field_index == 3 {
            bed_record.append("consensus_");
            push_decimal(&mut bed_record, peak.id() as u64);
            proof {
                assert(bed_record@ =~= before + field_text(peak@, chromosome@, 3));
            }
        } else if field_index == 5 {
            bed_record.append(".");
        } else if field_index == 9 {
            push_decimal(&mut bed_record, peak.summit());
        } else {
            bed_record.append("0");
        }
        proof {
            assert(bed_record@ =~= before + field_text(peak@, chromosome@, field_index as int));
        }
        if field_index < fields - 1 {
            bed_record.append("\t");
        } else {
            bed_record.append("\n");
        }
        proof {
            assert(bed_record@ =~= record_prefix(
                peak@,
                chromosome@,
                fields as int,
                field_index + 1,
            ));
        }
        field_index = field_index + 1;
    }
    bed_record
}

} // verus!
