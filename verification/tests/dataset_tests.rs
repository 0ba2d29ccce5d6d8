use fastqc_report::dataset::{
    add_summary_flag, add_total_sequences, join_datasets, Dataset, LengthChange,
};
use fastqc_report::errors::MyError;
use fastqc_report::extract::Flag;

#[test]
fn joined_record_computes_delta() {
    let lc = LengthChange::new("Sample01_X".to_string(), 100, 80).unwrap();
    assert_eq!(lc.name, "Sample1_X".to_string());
    assert_eq!(lc.before, 100);
    assert_eq!(lc.after, 80);
    assert_eq!(lc.change, 20);
}

#[test]
fn joined_record_rejects_underflow() {
    match LengthChange::new("Sample01_X".to_string(), 80, 100) {
        Err(e) => assert_eq!(e, MyError::RangeError),
        Ok(_) => panic!("underflow accepted"),
    }
}

#[test]
fn joined_record_rejects_bad_key() {
    match LengthChange::new("bogus".to_string(), 100, 80) {
        Err(e) => assert_eq!(e, MyError::InvalidFileName),
        Ok(_) => panic!("bad key accepted"),
    }
}

#[test]
fn dataset_insert_and_get() {
    let mut ds: Dataset<u32> = Dataset::new();
    assert_eq!(ds.len(), 0);
    ds.insert("Sample02_Y".to_string(), 2);
    ds.insert("Sample01_X".to_string(), 1);
    assert_eq!(ds.len(), 2);
    assert_eq!(ds.get("Sample01_X"), Some(1));
    assert_eq!(ds.get("Sample02_Y"), Some(2));
    assert_eq!(ds.get("Sample03_Z"), None);
}

#[test]
fn dataset_keeps_keys_ascending() {
    let mut ds: Dataset<u32> = Dataset::new();
    ds.insert("Sample03_c".to_string(), 3);
    ds.insert("Sample01_a".to_string(), 1);
    ds.insert("Sample02_b".to_string(), 2);
    assert_eq!(ds.key_at(0), "Sample01_a".to_string());
    assert_eq!(ds.key_at(1), "Sample02_b".to_string());
    assert_eq!(ds.key_at(2), "Sample03_c".to_string());
}

#[test]
fn dataset_insert_overwrites_existing_key() {
    let mut ds: Dataset<u32> = Dataset::new();
    ds.insert("Sample01_a".to_string(), 1);
    ds.insert("Sample01_a".to_string(), 9);
    assert_eq!(ds.len(), 1);
    assert_eq!(ds.get("Sample01_a"), Some(9));
}

#[test]
fn join_keeps_only_matched_keys() {
    let mut before: Dataset<u32> = Dataset::new();
    before.insert("Sample01_A".to_string(), 1);
    before.insert("Sample02_B".to_string(), 2);
    before.insert("Sample03_C".to_string(), 3);
    let mut after: Dataset<u32> = Dataset::new();
    after.insert("Sample02_B".to_string(), 1);
    after.insert("Sample03_C".to_string(), 2);
    after.insert("Sample04_D".to_string(), 1);
    let joined = join_datasets(&before, &after).unwrap();
    assert_eq!(joined.len(), 2);
    assert_eq!(joined[0].name, "Sample2_B".to_string());
    assert_eq!(joined[1].name, "Sample3_C".to_string());
}

#[test]
fn join_single_match_scenario() {
    let mut before: Dataset<u32> = Dataset::new();
    before.insert("Sample01_X".to_string(), 100);
    let mut after: Dataset<u32> = Dataset::new();
    after.insert("Sample01_X".to_string(), 80);
    after.insert("Sample02_Y".to_string(), 50);
    let joined = join_datasets(&before, &after).unwrap();
    assert_eq!(joined.len(), 1);
    assert_eq!(joined[0].name, "Sample1_X".to_string());
    assert_eq!(joined[0].before, 100);
    assert_eq!(joined[0].after, 80);
    assert_eq!(joined[0].change, 20);
}

#[test]
fn join_of_disjoint_datasets_is_empty() {
    let mut before: Dataset<u32> = Dataset::new();
    before.insert("Sample01_A".to_string(), 1);
    let mut after: Dataset<u32> = Dataset::new();
    after.insert("Sample02_B".to_string(), 2);
    let joined = join_datasets(&before, &after).unwrap();
    assert_eq!(joined.len(), 0);
}

#[test]
fn join_underflow_is_a_range_error() {
    let mut before: Dataset<u32> = Dataset::new();
    before.insert("Sample01_A".to_string(), 10);
    let mut after: Dataset<u32> = Dataset::new();
    after.insert("Sample01_A".to_string(), 20);
    assert!(matches!(
        join_datasets(&before, &after),
        Err(MyError::RangeError)
    ));
}

#[test]
fn swapped_join_negates_deltas_on_matched_keys() {
    let mut before: Dataset<u32> = Dataset::new();
    before.insert("Sample01_A".to_string(), 70);
    before.insert("Sample02_B".to_string(), 50);
    let mut after: Dataset<u32> = Dataset::new();
    after.insert("Sample01_A".to_string(), 70);
    after.insert("Sample02_B".to_string(), 50);
    let fwd = join_datasets(&before, &after).unwrap();
    let bwd = join_datasets(&after, &before).unwrap();
    assert_eq!(fwd.len(), bwd.len());
    for (f, b) in fwd.iter().zip(bwd.iter()) {
        assert_eq!(f.name, b.name);
        assert_eq!(f.before, b.after);
        assert_eq!(f.after, b.before);
        assert_eq!(i64::from(f.change), -i64::from(b.change));
    }
}

#[test]
fn builder_adds_total_sequences_under_padded_key() {
    let mut ds: Dataset<u32> = Dataset::new();
    let lines = vec![
        "##FastQC\t0.11.9".to_string(),
        "Total Sequences\t15000".to_string(),
    ];
    let added = add_total_sequences(&mut ds, "Sample3_paired_R1".to_string(), &lines).unwrap();
    assert!(added);
    assert_eq!(ds.get("Sample03_R1"), Some(15000));
}

#[test]
fn builder_collapses_each_paired_marker_once() {
    let mut ds: Dataset<u32> = Dataset::new();
    let lines = vec!["Total Sequences\t10".to_string()];
    add_total_sequences(&mut ds, "Sample1_paired_paired_x".to_string(), &lines).unwrap();
    assert_eq!(ds.get("Sample01_paired_x"), Some(10));
}

#[test]
fn builder_skips_report_without_total() {
    let mut ds: Dataset<u32> = Dataset::new();
    let lines = vec!["##FastQC\t0.11.9".to_string()];
    let added = add_total_sequences(&mut ds, "Sample3_R1".to_string(), &lines).unwrap();
    assert!(!added);
    assert_eq!(ds.len(), 0);
}

#[test]
fn builder_rejects_bad_directory_name() {
    let mut ds: Dataset<u32> = Dataset::new();
    let lines = vec!["Total Sequences\t15000".to_string()];
    assert_eq!(
        add_total_sequences(&mut ds, "NotASample".to_string(), &lines),
        Err(MyError::InvalidFileName)
    );
    assert_eq!(ds.len(), 0);
}

#[test]
fn builder_adds_summary_flag_under_padded_key() {
    let mut ds: Dataset<Flag> = Dataset::new();
    let lines = vec![
        "WARN\tPer base N content\tf.fastq".to_string(),
        "PASS\tPer base sequence quality\tf.fastq".to_string(),
    ];
    let added = add_summary_flag(&mut ds, "Sample1_test".to_string(), &lines).unwrap();
    assert!(added);
    assert_eq!(ds.get("Sample01_test"), Some(Flag::Pass));
}

#[test]
fn builder_skips_summary_without_quality_row() {
    let mut ds: Dataset<Flag> = Dataset::new();
    let lines = vec!["WARN\tPer base N content\tf.fastq".to_string()];
    let added = add_summary_flag(&mut ds, "Sample1_test".to_string(), &lines).unwrap();
    assert!(!added);
    assert_eq!(ds.len(), 0);
}
