use fastqc_report::errors::MyError;
use fastqc_report::keys::{
    dirname, read_number_from_dir, remove_zero_pad_from_dir, sample_name, sample_name_parts,
    sample_num, sample_number, zero_pad_dir,
};

#[test]
fn sample_name_is_name() {
    assert_eq!(
        sample_name("SampleName_S1_L001_R1_001.fastq.gz"),
        Ok("Name".to_string())
    );
}

#[test]
fn sample_name_is_one() {
    assert_eq!(
        sample_name("Sample1_S1_L001_R1_001.fastq.gz"),
        Ok("1".to_string())
    );
}

#[test]
fn sample_name_is_one_padded() {
    assert_eq!(
        sample_name("Sample01_S1_L001_R1_001.fastq.gz"),
        Ok("01".to_string())
    );
}

#[test]
fn sample_name_is_missing() {
    assert_eq!(
        sample_name("Sample_S1_L001_R1_001.fastq.gz"),
        Err(MyError::InvalidFileName)
    );
}

#[test]
fn sample_name_not_standard() {
    assert_eq!(sample_name("Sample123"), Err(MyError::InvalidFileName));
}

#[test]
fn zero_pad_test() {
    assert_eq!(
        zero_pad_dir("Sample1_test".to_string()),
        Ok("Sample01_test".to_string())
    );
}

#[test]
fn remove_zero_pad_test() {
    assert_eq!(
        remove_zero_pad_from_dir("Sample01_test".to_string()),
        Ok("Sample1_test".to_string())
    );
}

#[test]
fn numeric_key_extraction_fails_without_digits() {
    assert_eq!(
        sample_number("SampleName_S1_L001_R1_001.fastq.gz"),
        Err(MyError::InvalidFileName)
    );
}

#[test]
fn numeric_key_extraction_succeeds() {
    assert_eq!(sample_number("Sample1_S1_L001_R1_001.fastq.gz"), Ok(1));
    assert_eq!(sample_number("Sample01_S1_L001_R1_001.fastq.gz"), Ok(1));
    assert_eq!(sample_number("Sample12_S1_L001_R1_001.fastq.gz"), Ok(12));
}

#[test]
fn pad_full_vendor_name() {
    assert_eq!(
        zero_pad_dir("Sample1_S1_L001_R1_001.fastq.gz".to_string()),
        Ok("Sample01_S1_L001_R1_001.fastq.gz".to_string())
    );
}

#[test]
fn pad_is_identity_at_ten_and_above() {
    assert_eq!(
        zero_pad_dir("Sample10_test".to_string()),
        Ok("Sample10_test".to_string())
    );
    assert_eq!(
        zero_pad_dir("Sample123_a_b".to_string()),
        Ok("Sample123_a_b".to_string())
    );
}

#[test]
fn pad_rewrites_extra_zeros_below_ten() {
    assert_eq!(
        zero_pad_dir("Sample007_x".to_string()),
        Ok("Sample07_x".to_string())
    );
}

#[test]
fn unpad_keeps_numbers_at_ten_and_above() {
    assert_eq!(
        remove_zero_pad_from_dir("Sample0012_x".to_string()),
        Ok("Sample0012_x".to_string())
    );
}

#[test]
fn pad_after_unpad_matches_pad() {
    for k in ["Sample01_test", "Sample1_test", "Sample007_x", "Sample42_y"] {
        let unpadded = remove_zero_pad_from_dir(k.to_string()).unwrap();
        assert_eq!(
            zero_pad_dir(unpadded),
            zero_pad_dir(k.to_string()),
            "failed for {k}"
        );
    }
}

#[test]
fn pad_fails_without_marker_or_underscore() {
    assert_eq!(
        zero_pad_dir("NoMarker_1".to_string()),
        Err(MyError::InvalidFileName)
    );
    assert_eq!(
        zero_pad_dir("Sample123".to_string()),
        Err(MyError::InvalidFileName)
    );
    assert_eq!(
        zero_pad_dir("Sample_x".to_string()),
        Err(MyError::InvalidFileName)
    );
    assert_eq!(
        zero_pad_dir("SampleName_x".to_string()),
        Err(MyError::InvalidFileName)
    );
}

#[test]
fn name_parts_split_at_first_underscore_after_marker() {
    assert_eq!(
        sample_name_parts("Sample12_34_x"),
        Ok(("12".to_string(), "34_x".to_string()))
    );
    assert_eq!(
        sample_name_parts("Sample123"),
        Err(MyError::InvalidFileName)
    );
}

#[test]
fn sample_num_parses_strictly() {
    assert_eq!(sample_num("12"), Ok(12));
    assert_eq!(sample_num("007"), Ok(7));
    assert_eq!(sample_num(""), Err(MyError::InvalidFileName));
    assert_eq!(sample_num("12a"), Err(MyError::InvalidFileName));
    assert_eq!(sample_num("99999999999"), Err(MyError::InvalidFileName));
}

#[test]
fn dirname_strips_report_suffix() {
    assert_eq!(dirname("Sample1_test_fastqc"), "Sample1_test".to_string());
    assert_eq!(dirname("Sample1_test"), "Sample1_test".to_string());
}

#[test]
fn read_number_is_last_character_before_marker() {
    assert_eq!(
        read_number_from_dir("Sample1_S1_L001_R1_001_fastqc"),
        Some('1')
    );
    assert_eq!(
        read_number_from_dir("Sample1_S1_L001_R2_001_fastqc"),
        Some('2')
    );
    assert_eq!(read_number_from_dir(""), None);
}
