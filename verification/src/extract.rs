//! Field extraction from per-sample report files.
//!
//! A detail report is line-oriented: fixed one-based line numbers carry
//! labeled tab-delimited fields.  A summary file is tab-separated with a
//! strict three-column schema.  Every label mismatch or garbled value is
//! fatal; only a wholly absent optional line or row is skipped.

use vstd::prelude::*;

use crate::errors::MyError;
use crate::keys::{sample_number, sample_number_spec};
use crate::strutil::{
    all_digits, digits_value, find_sub, first_occur, lemma_first_occur_bounds, parse_u32,
    parses_to_u32, str_eq, str_prefix,
};

verus! {

// ---------------------------------------------------------------------------
// Records
// ---------------------------------------------------------------------------

/// A quality flag of a summary row, parsed from the literal tokens
/// `PASS`, `FAIL` and `WARN`.
#[derive(Debug, Clone, Copy, PartialEq, Eq, Structural)]
pub enum Flag {
    Pass,
    Fail,
    Warn,
}

/// One row of a per-sample summary file.
#[derive(Debug, PartialEq, Eq)]
pub struct Summary {
    pub flag: Flag,
    pub test: String,
    pub filename: String,
}

/// The record extracted from one per-sample detail report.
#[derive(Debug, Clone, Copy, PartialEq, Eq, Structural)]
pub struct SampleMetadata {
    pub sample_name: u16,
    pub total_sequences: u32,
    pub sequences_flagged_as_poor_quality: u32,
    pub sequence_start: u32,
    pub sequence_end: u32,
    pub percent_gc: u8,
}

impl SampleMetadata {
    /// Builds a record from its fields.
    pub fn new(
        sample_name: u16,
        total_sequences: u32,
        sequences_flagged_as_poor_quality: u32,
        sequence_start: u32,
        sequence_end: u32,
        percent_gc: u8,
    ) -> (r: Self)
        ensures
            r == (SampleMetadata {
                sample_name,
                total_sequences,
                sequences_flagged_as_poor_quality,
                sequence_start,
                sequence_end,
                percent_gc,
            }),
    {
        Self {
            sample_name,
            total_sequences,
            sequences_flagged_as_poor_quality,
            sequence_start,
            sequence_end,
            percent_gc,
        }
    }
}

// ---------------------------------------------------------------------------
// Tab-delimited fields
// ---------------------------------------------------------------------------

/// The tab-delimited second field of a line: the text between the first
/// tab and the following tab or the end of the line.
pub open spec fn second_field(line: Seq<char>) -> Option<Seq<char>> {
    match first_occur(line, "\t"@) {
        None => None,
        Some(i) => {
            let rest = line.skip(i + "\t"@.len() as int);
            match first_occur(rest, "\t"@) {
                None => Some(rest),
                Some(j) => Some(rest.take(j)),
            }
        },
    }
}

/// Extracts the tab-delimited second field of a line.
fn second_field_of(line: &str) -> (r: Option<String>)
    ensures
        match r {
            Some(v) => second_field(line@) == Some(v@),
            None => second_field(line@) is None,
        },
{
    proof {
        reveal_strlit("\t");
    }
    let n = line.unicode_len();
    let i = match find_sub(line, "\t") {
        Some(i) => i,
        None => {
            return None;
        },
    };
    proof {
        lemma_first_occur_bounds(line@, "\t"@);
    }
    let t = "\t".unicode_len();
    let rest = line.substring_char(i + t, n);
    proof {
        assert(rest@ =~= line@.skip(i + "\t"@.len() as int));
    }
    let rn = rest.unicode_len();
    match find_sub(rest, "\t") {
        None => Some(String::from_str(rest)),
        Some(j) => {
            proof {
                lemma_first_occur_bounds(rest@, "\t"@);
            }
            let v = rest.substring_char(0, j);
            proof {
                assert(v@ =~= rest@.take(j as int));
            }
            Some(String::from_str(v))
        },
    }
}

// ---------------------------------------------------------------------------
// Positional-line extraction for the detail report
// ---------------------------------------------------------------------------

/// The labeled value at line index `idx`: absent when the report is too
/// short, an error when the label or the tab-delimited value is missing.
pub open spec fn line_value(lines: Seq<Seq<char>>, idx: int, label: Seq<char>) -> Result<
    Option<Seq<char>>,
    MyError,
> {
    if lines.len() <= idx {
        Ok(None)
    } else if !label.is_prefix_of(lines[idx]) {
        Err(MyError::InvalidBasicStatistics)
    } else {
        match second_field(lines[idx]) {
            None => Err(MyError::InvalidBasicStatistics),
            Some(v) => Ok(Some(v)),
        }
    }
}

/// The view of an optional owned string.
pub open spec fn view_opt_string(r: Option<String>) -> Option<Seq<char>> {
    match r {
        None => None,
        Some(s) => Some(s@),
    }
}

/// The view of a fallible optional owned string.
pub open spec fn view_res_opt_string(r: Result<Option<String>, MyError>) -> Result<
    Option<Seq<char>>,
    MyError,
> {
    match r {
        Ok(o) => Ok(view_opt_string(o)),
        Err(e) => Err(e),
    }
}

/// Extracts the labeled value at line index `idx`.
fn line_value_of(lines: &Vec<String>, idx: usize, label: &str) -> (r: Result<
    Option<String>,
    MyError,
>)
    ensures
        view_res_opt_string(r) == line_value(lines.deep_view(), idx as int, label@),
{
    if idx >= lines.len() {
        return Ok(None);
    }
    let line = &lines[idx];
    proof {
        assert(lines.deep_view()[idx as int] == lines@[idx as int]@);
    }
    if !str_prefix(line.as_str(), label) {
        return Err(MyError::InvalidBasicStatistics);
    }
    match second_field_of(line.as_str()) {
        None => Err(MyError::InvalidBasicStatistics),
        Some(v) => Ok(Some(v)),
    }
}

/// The strictly parsed numeric value at line index `idx`, bounded by
/// `max`; zero when the report is too short.
pub open spec fn num_value(lines: Seq<Seq<char>>, idx: int, label: Seq<char>, max: nat) -> Result<
    nat,
    MyError,
> {
    match line_value(lines, idx, label) {
        Err(e) => Err(e),
        Ok(None) => Ok(0),
        Ok(Some(v)) => if v.len() > 0 && all_digits(v) && digits_value(v) <= max {
            Ok(digits_value(v))
        } else {
            Err(MyError::InvalidBasicStatistics)
        },
    }
}

/// Extracts the numeric value at line index `idx` as a `u32`.
fn num_value_u32(lines: &Vec<String>, idx: usize, label: &str) -> (r: Result<u32, MyError>)
    ensures
        match r {
            Ok(v) => num_value(lines.deep_view(), idx as int, label@, u32::MAX as nat) == Ok::<
                nat,
                MyError,
            >(v as nat),
            Err(e) => num_value(lines.deep_view(), idx as int, label@, u32::MAX as nat) == Err::<
                nat,
                MyError,
            >(e),
        },
{
    match line_value_of(lines, idx, label) {
        Err(e) => Err(e),
        Ok(None) => Ok(0),
        Ok(Some(v)) => match parse_u32(v.as_str()) {
            Some(x) => Ok(x),
            None => Err(MyError::InvalidBasicStatistics),
        },
    }
}

/// Extracts the numeric value at line index `idx` as a `u8`.
fn num_value_u8(lines: &Vec<String>, idx: usize, label: &str) -> (r: Result<u8, MyError>)
    ensures
        match r {
            Ok(v) => num_value(lines.deep_view(), idx as int, label@, u8::MAX as nat) == Ok::<
                nat,
                MyError,
            >(v as nat),
            Err(e) => num_value(lines.deep_view(), idx as int, label@, u8::MAX as nat) == Err::<
                nat,
                MyError,
            >(e),
        },
{
    match line_value_of(lines, idx, label) {
        Err(e) => Err(e),
        Ok(None) => Ok(0),
        Ok(Some(v)) => match parse_u32(v.as_str()) {
            Some(x) => {
                if x <= u8::MAX as u32 {
                    Ok(x as u8)
                } else {
                    Err(MyError::InvalidBasicStatistics)
                }
            },
            None => Err(MyError::InvalidBasicStatistics),
        },
    }
}

/// The sample number carried by the `Filename` line: the name's `Sample`
/// fragment, strictly parsed; zero when the report is too short.
pub open spec fn sample_field_value(lines: Seq<Seq<char>>, idx: int) -> Result<u16, MyError> {
    match line_value(lines, idx, "Filename"@) {
        Err(e) => Err(e),
        Ok(None) => Ok(0),
        Ok(Some(fname)) => match sample_number_spec(fname) {
            None => Err(MyError::InvalidFileName),
            Some(v) => Ok(v),
        },
    }
}

/// Extracts the sample number from the `Filename` line.
fn sample_field_of(lines: &Vec<String>, idx: usize) -> (r: Result<u16, MyError>)
    ensures
        r == sample_field_value(lines.deep_view(), idx as int),
{
    match line_value_of(lines, idx, "Filename") {
        Err(e) => Err(e),
        Ok(None) => Ok(0),
        Ok(Some(fname)) => sample_number(fname.as_str()),
    }
}

/// The two strictly parsed halves of a `min-max` sequence-length value:
/// the text before the first dash and the text between the first dash
/// and the following dash or the end.
pub open spec fn seq_len_parts(v: Seq<char>) -> Option<(nat, nat)> {
    match first_occur(v, "-"@) {
        None => None,
        Some(i) => {
            let a = v.take(i);
            let rest = v.skip(i + "-"@.len() as int);
            let b = match first_occur(rest, "-"@) {
                None => rest,
                Some(j) => rest.take(j),
            };
            if parses_to_u32(a) && parses_to_u32(b) {
                Some((digits_value(a), digits_value(b)))
            } else {
                None
            }
        },
    }
}

/// The sequence-length range at line index `idx`; zeroes when the report
/// is too short.
pub open spec fn seq_len_value(lines: Seq<Seq<char>>, idx: int, label: Seq<char>) -> Result<
    (nat, nat),
    MyError,
> {
    match line_value(lines, idx, label) {
        Err(e) => Err(e),
        Ok(None) => Ok((0, 0)),
        Ok(Some(v)) => match seq_len_parts(v) {
            None => Err(MyError::InvalidBasicStatistics),
            Some(p) => Ok(p),
        },
    }
}

/// Extracts the `min-max` sequence-length range at line index `idx`.
fn seq_len_of(lines: &Vec<String>, idx: usize, label: &str) -> (r: Result<(u32, u32), MyError>)
    ensures
        match r {
            Ok(p) => seq_len_value(lines.deep_view(), idx as int, label@) == Ok::<
                (nat, nat),
                MyError,
            >((p.0 as nat, p.1 as nat)),
            Err(e) => seq_len_value(lines.deep_view(), idx as int, label@) == Err::<
                (nat, nat),
                MyError,
            >(e),
        },
{
    let v = match line_value_of(lines, idx, label) {
        Err(e) => {
            return Err(e);
        },
        Ok(None) => {
            return Ok((0, 0));
        },
        Ok(Some(v)) => v,
    };
    proof {
        reveal_strlit("-");
    }
    let vs = v.as_str();
    let n = vs.unicode_len();
    let i = match find_sub(vs, "-") {
        Some(i) => i,
        None => {
            return Err(MyError::InvalidBasicStatistics);
        },
    };
    proof {
        lemma_first_occur_bounds(vs@, "-"@);
    }
    let d = "-".unicode_len();
    let a = vs.substring_char(0, i);
    let rest = vs.substring_char(i + d, n);
    proof {
        assert(a@ =~= vs@.take(i as int));
        assert(rest@ =~= vs@.skip(i + "-"@.len() as int));
    }
    let rn = rest.unicode_len();
    let b = match find_sub(rest, "-") {
        None => rest,
        Some(j) => {
            proof {
                lemma_first_occur_bounds(rest@, "-"@);
            }
            let b = rest.substring_char(0, j);
            proof {
                assert(b@ =~= rest@.take(j as int));
            }
            b
        },
    };
    let av = match parse_u32(a) {
        Some(x) => x,
        None => {
            return Err(MyError::InvalidBasicStatistics);
        },
    };
    let bv = match parse_u32(b) {
        Some(x) => x,
        None => {
            return Err(MyError::InvalidBasicStatistics);
        },
    };
    Ok((av, bv))
}

/// The record extracted from the lines of a detail report, by fixed
/// one-based line positions: line 4 carries the file name, line 7 the
/// total sequence count, line 8 the poor-quality count, line 9 the
/// sequence-length range, and line 10 the GC percentage.
pub open spec fn spec_parse_fastqc(lines: Seq<Seq<char>>) -> Result<SampleMetadata, MyError> {
    match sample_field_value(lines, 3) {
        Err(e) => Err(e),
        Ok(num) => match num_value(lines, 6, "Total Sequences"@, u32::MAX as nat) {
            Err(e) => Err(e),
            Ok(total) => match num_value(
                lines,
                7,
                "Sequences flagged as poor quality"@,
                u32::MAX as nat,
            ) {
                Err(e) => Err(e),
                Ok(poor) => match seq_len_value(lines, 8, "Sequence length"@) {
                    Err(e) => Err(e),
                    Ok(range) => match num_value(lines, 9, "%GC"@, u8::MAX as nat) {
                        Err(e) => Err(e),
                        Ok(gc) => Ok(
                            SampleMetadata {
                                sample_name: num,
                                total_sequences: total as u32,
                                sequences_flagged_as_poor_quality: poor as u32,
                                sequence_start: range.0 as u32,
                                sequence_end: range.1 as u32,
                                percent_gc: gc as u8,
                            },
                        ),
                    },
                },
            },
        },
    }
}

/// Parses the lines of one detail report into a metadata record.
pub fn parse_fastqc_data_txt_file(lines: &Vec<String>) -> (r: Result<SampleMetadata, MyError>)
    ensures
        r == spec_parse_fastqc(lines.deep_view()),
{
    let num = match sample_field_of(lines, 3) {
        Err(e) => {
            return Err(e);
        },
        Ok(v) => v,
    };
    let total = match num_value_u32(lines, 6, "Total Sequences") {
        Err(e) => {
            return Err(e);
        },
        Ok(v) => v,
    };
    let poor = match num_value_u32(lines, 7, "Sequences flagged as poor quality") {
        Err(e) => {
            return Err(e);
        },
        Ok(v) => v,
    };
    let range = match seq_len_of(lines, 8, "Sequence length") {
        Err(e) => {
            return Err(e);
        },
        Ok(v) => v,
    };
    let gc = match num_value_u8(lines, 9, "%GC") {
        Err(e) => {
            return Err(e);
        },
        Ok(v) => v,
    };
    Ok(SampleMetadata::new(num, total, poor, range.0, range.1, gc))
}

// ---------------------------------------------------------------------------
// Scanning for a labeled line
// ---------------------------------------------------------------------------

/// The strictly parsed value of the first `Total Sequences` line, if any.
pub open spec fn spec_total_sequences(lines: Seq<Seq<char>>) -> Result<Option<u32>, MyError>
    decreases lines.len(),
{
    if lines.len() == 0 {
        Ok(None)
    } else if "Total Sequences"@.is_prefix_of(lines[0]) {
        match second_field(lines[0]) {
            None => Err(MyError::InvalidBasicStatistics),
            Some(v) => if parses_to_u32(v) {
                Ok(Some(digits_value(v) as u32))
            } else {
                Err(MyError::InvalidBasicStatistics)
            },
        }
    } else {
        spec_total_sequences(lines.drop_first())
    }
}

/// Scans the lines of a detail report for the first `Total Sequences`
/// line and strictly parses its tab-delimited value; a report without
/// such a line yields nothing and is skipped by the caller.
pub fn total_sequences_from_lines(lines: &Vec<String>) -> (r: Result<Option<u32>, MyError>)
    ensures
        r == spec_total_sequences(lines.deep_view()),
{
    let ghost dv = lines.deep_view();
    proof {
        assert(dv.skip(0) =~= dv);
    }
    let n = lines.len();
    let mut k: usize = 0;
    while k < n
        invariant
            0 <= k <= n,
            n == lines.len(),
            dv == lines.deep_view(),
            dv.len() == n,
            spec_total_sequences(dv.skip(k as int)) == spec_total_sequences(dv),
        decreases n - k,
    {
        proof {
            assert(dv.skip(k as int)[0] == dv[k as int]);
            assert(lines.deep_view()[k as int] == lines@[k as int]@);
        }
        let line = &lines[k];
        if str_prefix(line.as_str(), "Total Sequences") {
            match second_field_of(line.as_str()) {
                None => {
                    return Err(MyError::InvalidBasicStatistics);
                },
                Some(v) => {
                    match parse_u32(v.as_str()) {
                        Some(x) => {
                            return Ok(Some(x));
                        },
                        None => {
                            return Err(MyError::InvalidBasicStatistics);
                        },
                    }
                },
            }
        }
        proof {
            assert(dv.skip(k as int).drop_first() =~= dv.skip(k as int + 1));
        }
        k += 1;
    }
    proof {
        assert(dv.skip(n as int).len() == 0);
    }
    Ok(None)
}

// ---------------------------------------------------------------------------
// Tabular extraction for the summary file
// ---------------------------------------------------------------------------

/// All tab-separated fields of a line, in order.
pub open spec fn split_fields(line: Seq<char>) -> Seq<Seq<char>>
    decreases line.len(),
    when true
    via split_fields_decreases
{
    match first_occur(line, "\t"@) {
        None => seq![line],
        Some(i) => seq![line.take(i)] + split_fields(line.skip(i + "\t"@.len() as int)),
    }
}

#[via_fn]
proof fn split_fields_decreases(line: Seq<char>) {
    reveal_strlit("\t");
    lemma_first_occur_bounds(line, "\t"@);
}

/// Splits a line into its tab-separated fields.
pub fn split_tab_fields(line: &str) -> (r: Vec<String>)
    ensures
        r.deep_view() == split_fields(line@),
{
    proof {
        reveal_strlit("\t");
    }
    let n = line.unicode_len();
    let mut out: Vec<String> = Vec::new();
    let mut start: usize = 0;
    proof {
        assert(line@.skip(0) =~= line@);
        assert(out.deep_view() =~~= Seq::<Seq<char>>::empty());
        assert(out.deep_view() + split_fields(line@.skip(0)) =~~= split_fields(line@));
    }
    loop
        invariant
            0 <= start <= n,
            n == line@.len(),
            out.deep_view() + split_fields(line@.skip(start as int)) =~~= split_fields(line@),
        decreases n - start,
    {
        proof {
            reveal_strlit("\t");
        }
        let rest = line.substring_char(start, n);
        proof {
            assert(rest@ =~= line@.skip(start as int));
        }
        match find_sub(rest, "\t") {
            None => {
                out.push(String::from_str(rest));
                proof {
                    assert(split_fields(rest@) =~~= seq![rest@]);
                    assert(out.deep_view() =~~= split_fields(line@));
                }
                return out;
            },
            Some(i) => {
                proof {
                    lemma_first_occur_bounds(rest@, "\t"@);
                }
                let f = rest.substring_char(0, i);
                proof {
                    assert(f@ =~= rest@.take(i as int));
                    vstd::seq_lib::lemma_seq_skip_of_skip(line@, start as int, i + 1);
                    assert(rest@.skip(i + 1) =~= line@.skip(start + i + 1));
                }
                out.push(String::from_str(f));
                start = start + i + 1;
            },
        }
    }
}

/// The flag named by a summary token.
pub open spec fn flag_of_token(t: Seq<char>) -> Option<Flag> {
    if t == "PASS"@ {
        Some(Flag::Pass)
    } else if t == "FAIL"@ {
        Some(Flag::Fail)
    } else if t == "WARN"@ {
        Some(Flag::Warn)
    } else {
        None
    }
}

/// One strictly parsed summary row: exactly three tab-separated columns,
/// the first a quality-flag token.
pub open spec fn spec_parse_summary_row(line: Seq<char>) -> Result<
    (Flag, Seq<char>, Seq<char>),
    MyError,
> {
    let f = split_fields(line);
    if f.len() != 3 {
        Err(MyError::InvalidSchema)
    } else {
        match flag_of_token(f[0]) {
            None => Err(MyError::InvalidSchema),
            Some(fl) => Ok((fl, f[1], f[2])),
        }
    }
}

/// Parses one summary row against the strict three-column schema.
pub fn parse_summary_row(line: &str) -> (r: Result<Summary, MyError>)
    ensures
        match r {
            Ok(s) => spec_parse_summary_row(line@) == Ok::<_, MyError>((s.flag, s.test@, s.filename@)),
            Err(e) => spec_parse_summary_row(line@) == Err::<(Flag, Seq<char>, Seq<char>), _>(e),
        },
{
    let mut fields = split_tab_fields(line);
    if fields.len() != 3 {
        return Err(MyError::InvalidSchema);
    }
    let filename = match fields.pop() {
        Some(s) => s,
        None => {
            return Err(MyError::InvalidSchema);
        },
    };
    let test = match fields.pop() {
        Some(s) => s,
        None => {
            return Err(MyError::InvalidSchema);
        },
    };
    let token = match fields.pop() {
        Some(s) => s,
        None => {
            return Err(MyError::InvalidSchema);
        },
    };
    proof {
        assert(token@ == split_fields(line@)[0]);
        assert(test@ == split_fields(line@)[1]);
        assert(filename@ == split_fields(line@)[2]);
    }
    let flag = if str_eq(token.as_str(), "PASS") {
        Flag::Pass
    } else if str_eq(token.as_str(), "FAIL") {
        Flag::Fail
    } else if str_eq(token.as_str(), "WARN") {
        Flag::Warn
    } else {
        return Err(MyError::InvalidSchema);
    };
    Ok(Summary { flag, test, filename })
}

/// The flag of the first summary row whose test name is
/// `Per base sequence quality`, scanning rows in order; any malformed row
/// seen before a match is fatal, and a file without a match yields
/// nothing, so its sample is skipped by the caller.
pub open spec fn spec_flag_from_summary(lines: Seq<Seq<char>>) -> Result<Option<Flag>, MyError>
    decreases lines.len(),
{
    if lines.len() == 0 {
        Ok(None)
    } else {
        match spec_parse_summary_row(lines[0]) {
            Err(e) => Err(e),
            Ok(row) => if row.1 == "Per base sequence quality"@ {
                Ok(Some(row.0))
            } else {
                spec_flag_from_summary(lines.drop_first())
            },
        }
    }
}

/// Scans summary rows for the per-base sequence-quality test.
pub fn flag_from_summary_lines(lines: &Vec<String>) -> (r: Result<Option<Flag>, MyError>)
    ensures
        r == spec_flag_from_summary(lines.deep_view()),
{
    let ghost dv = lines.deep_view();
    proof {
        assert(dv.skip(0) =~= dv);
    }
    let n = lines.len();
    let mut k: usize = 0;
    while k < n
        invariant
            0 <= k <= n,
            n == lines.len(),
            dv == lines.deep_view(),
            dv.len() == n,
            spec_flag_from_summary(dv.skip(k as int)) == spec_flag_from_summary(dv),
        decreases n - k,
    {
        proof {
            assert(dv.skip(k as int)[0] == dv[k as int]);
            assert(lines.deep_view()[k as int] == lines@[k as int]@);
        }
        let line = &lines[k];
        match parse_summary_row(line.as_str()) {
            Err(e) => {
                return Err(e);
            },
            Ok(row) => {
                if str_eq(row.test.as_str(), "Per base sequence quality") {
                    return Ok(Some(row.flag));
                }
            },
        }
        proof {
            assert(dv.skip(k as int).drop_first() =~= dv.skip(k as int + 1));
        }
        k += 1;
    }
    proof {
        assert(dv.skip(n as int).len() == 0);
    }
    Ok(None)
}

// ---------------------------------------------------------------------------
// Ordering metadata records
// ---------------------------------------------------------------------------

/// The records are ordered by ascending sample number.
pub open spec fn sorted_by_sample(s: Seq<SampleMetadata>) -> bool {
    forall|i: int, j: int| 0 <= i < j < s.len() ==> s[i].sample_name <= s[j].sample_name
}

/// Inserts a record into a sequence ordered by sample number, keeping
/// the order.
pub fn insert_sorted(reads: &mut Vec<SampleMetadata>, m: SampleMetadata)
    requires
        sorted_by_sample(old(reads)@),
    ensures
        sorted_by_sample(final(reads)@),
        exists|p: int|
            0 <= p <= old(reads)@.len() && final(reads)@ == old(reads)@.insert(p, m),
{
    let n = reads.len();
    let mut p: usize = 0;
    while p < n && reads[p].sample_name <= m.sample_name
        invariant
            0 <= p <= n,
            n == reads.len(),
            *reads == *old(reads),
            forall|i: int| 0 <= i < p ==> reads@[i].sample_name <= m.sample_name,
        decreases n - p,
    {
        p += 1;
    }
    reads.insert(p, m);
    proof {
        let s = old(reads)@.insert(p as int, m);
        old(reads)@.insert_ensures(p as int, m);
        assert(final(reads)@ == s);
        assert forall|i: int, j: int| 0 <= i < j < s.len() implies s[i].sample_name
            <= s[j].sample_name by {
            if i > p {
                assert(s[i] == old(reads)@[i - 1]);
            }
            if j > p {
                assert(s[j] == old(reads)@[j - 1]);
                assert(old(reads)@[p as int].sample_name <= old(reads)@[j - 1].sample_name);
            }
        }
    }
}

} // verus!
