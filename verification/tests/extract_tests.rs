use fastqc_report::errors::MyError;
use fastqc_report::extract::{
    flag_from_summary_lines, insert_sorted, parse_fastqc_data_txt_file, parse_summary_row,
    split_tab_fields, total_sequences_from_lines, Flag, SampleMetadata,
};

fn detail_lines() -> Vec<String> {
    vec![
        "##FastQC\t0.11.9".to_string(),
        ">>Basic Statistics\tpass".to_string(),
        "#Measure\tValue".to_string(),
        "Filename\tSample1_S1_L001_R1_001.fastq.gz".to_string(),
        "File type\tConventional base calls".to_string(),
        "Encoding\tSanger / Illumina 1.9".to_string(),
        "Total Sequences\t15000".to_string(),
        "Sequences flagged as poor quality\t7".to_string(),
        "Sequence length\t35-76".to_string(),
        "%GC\t48".to_string(),
    ]
}

#[test]
fn detail_report_extracts_all_fields() {
    let m = parse_fastqc_data_txt_file(&detail_lines()).unwrap();
    assert_eq!(m.sample_name, 1);
    assert_eq!(m.total_sequences, 15000);
    assert_eq!(m.sequences_flagged_as_poor_quality, 7);
    assert_eq!(m.sequence_start, 35);
    assert_eq!(m.sequence_end, 76);
    assert_eq!(m.percent_gc, 48);
}

#[test]
fn detail_report_label_mismatch_is_fatal() {
    let mut lines = detail_lines();
    lines[6] = "Total Reads\t15000".to_string();
    assert_eq!(
        parse_fastqc_data_txt_file(&lines),
        Err(MyError::InvalidBasicStatistics)
    );
}

#[test]
fn detail_report_garbled_number_is_fatal() {
    let mut lines = detail_lines();
    lines[6] = "Total Sequences\tmany".to_string();
    assert_eq!(
        parse_fastqc_data_txt_file(&lines),
        Err(MyError::InvalidBasicStatistics)
    );
}

#[test]
fn detail_report_missing_tab_is_fatal() {
    let mut lines = detail_lines();
    lines[9] = "%GC".to_string();
    assert_eq!(
        parse_fastqc_data_txt_file(&lines),
        Err(MyError::InvalidBasicStatistics)
    );
}

#[test]
fn detail_report_bad_length_range_is_fatal() {
    let mut lines = detail_lines();
    lines[8] = "Sequence length\t76".to_string();
    assert_eq!(
        parse_fastqc_data_txt_file(&lines),
        Err(MyError::InvalidBasicStatistics)
    );
}

#[test]
fn detail_report_non_numeric_sample_is_fatal() {
    let mut lines = detail_lines();
    lines[3] = "Filename\tSampleName_S1_L001_R1_001.fastq.gz".to_string();
    assert_eq!(
        parse_fastqc_data_txt_file(&lines),
        Err(MyError::InvalidFileName)
    );
}

#[test]
fn short_detail_report_leaves_fields_zero() {
    let lines = vec!["##FastQC\t0.11.9".to_string()];
    let m = parse_fastqc_data_txt_file(&lines).unwrap();
    assert_eq!(m.sample_name, 0);
    assert_eq!(m.total_sequences, 0);
    assert_eq!(m.sequence_start, 0);
    assert_eq!(m.sequence_end, 0);
}

#[test]
fn total_sequences_found_by_scan() {
    let lines = vec![
        "##FastQC\t0.11.9".to_string(),
        "Total Sequences\t15000".to_string(),
        "%GC\t48".to_string(),
    ];
    assert_eq!(total_sequences_from_lines(&lines), Ok(Some(15000)));
}

#[test]
fn total_sequences_absent_is_skipped() {
    let lines = vec!["##FastQC\t0.11.9".to_string()];
    assert_eq!(total_sequences_from_lines(&lines), Ok(None));
}

#[test]
fn total_sequences_garbled_is_fatal() {
    let lines = vec!["Total Sequences\tlots".to_string()];
    assert_eq!(
        total_sequences_from_lines(&lines),
        Err(MyError::InvalidBasicStatistics)
    );
}

#[test]
fn split_fields_keeps_all_columns() {
    assert_eq!(split_tab_fields("a\tb\tc"), vec!["a", "b", "c"]);
    assert_eq!(split_tab_fields("a"), vec!["a"]);
    assert_eq!(split_tab_fields(""), vec![""]);
    assert_eq!(split_tab_fields("a\t\tc"), vec!["a", "", "c"]);
}

#[test]
fn summary_row_parses_three_columns() {
    let row = parse_summary_row("PASS\tPer base sequence quality\tf.fastq").unwrap();
    assert_eq!(row.flag, Flag::Pass);
    assert_eq!(row.test, "Per base sequence quality".to_string());
    assert_eq!(row.filename, "f.fastq".to_string());
}

#[test]
fn summary_row_rejects_extra_columns() {
    assert_eq!(
        parse_summary_row("PASS\tPer base sequence quality\tf.fastq\textra"),
        Err(MyError::InvalidSchema)
    );
    assert_eq!(
        parse_summary_row("PASS\tPer base sequence quality"),
        Err(MyError::InvalidSchema)
    );
}

#[test]
fn summary_row_rejects_unknown_flag() {
    assert_eq!(
        parse_summary_row("MAYBE\tPer base sequence quality\tf.fastq"),
        Err(MyError::InvalidSchema)
    );
}

#[test]
fn summary_scan_returns_first_matching_row() {
    let lines = vec![
        "PASS\tPer base sequence quality\tf.fastq".to_string(),
        "WARN\tPer base N content\tf.fastq".to_string(),
    ];
    assert_eq!(flag_from_summary_lines(&lines), Ok(Some(Flag::Pass)));
}

#[test]
fn summary_scan_keeps_row_order() {
    let lines = vec![
        "WARN\tPer base N content\tf.fastq".to_string(),
        "FAIL\tPer base sequence quality\tf.fastq".to_string(),
        "PASS\tPer base sequence quality\tf.fastq".to_string(),
    ];
    assert_eq!(flag_from_summary_lines(&lines), Ok(Some(Flag::Fail)));
}

#[test]
fn summary_scan_without_match_is_skipped() {
    let lines = vec!["WARN\tPer base N content\tf.fastq".to_string()];
    assert_eq!(flag_from_summary_lines(&lines), Ok(None));
}

#[test]
fn summary_scan_bad_row_before_match_is_fatal() {
    let lines = vec![
        "PASS\ttoo\tmany\tcolumns".to_string(),
        "PASS\tPer base sequence quality\tf.fastq".to_string(),
    ];
    assert_eq!(flag_from_summary_lines(&lines), Err(MyError::InvalidSchema));
}

#[test]
fn summary_scan_parses_warn_token() {
    let lines = vec!["WARN\tPer base sequence quality\tf.fastq".to_string()];
    assert_eq!(flag_from_summary_lines(&lines), Ok(Some(Flag::Warn)));
}

fn meta(n: u16) -> SampleMetadata {
    SampleMetadata::new(n, 100, 0, 35, 76, 48)
}

#[test]
fn metadata_constructor_keeps_fields() {
    let m = SampleMetadata::new(3, 15000, 7, 35, 76, 48);
    assert_eq!(m.sample_name, 3);
    assert_eq!(m.total_sequences, 15000);
    assert_eq!(m.sequences_flagged_as_poor_quality, 7);
    assert_eq!(m.sequence_start, 35);
    assert_eq!(m.sequence_end, 76);
    assert_eq!(m.percent_gc, 48);
}

#[test]
fn records_stay_ordered_by_sample_number() {
    let mut reads: Vec<SampleMetadata> = Vec::new();
    insert_sorted(&mut reads, meta(5));
    insert_sorted(&mut reads, meta(1));
    insert_sorted(&mut reads, meta(12));
    insert_sorted(&mut reads, meta(3));
    let nums: Vec<u16> = reads.iter().map(|m| m.sample_name).collect();
    assert_eq!(nums, vec![1, 3, 5, 12]);
}
