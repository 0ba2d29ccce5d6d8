use fastqc_report::errors::MyError;

#[test]
fn error_messages_name_each_failure() {
    assert_eq!(MyError::Io.message(), "error reading line");
    assert_eq!(
        MyError::InvalidBasicStatistics.message(),
        "could not get basic statistic"
    );
    assert_eq!(MyError::InvalidFileName.message(), "invalid filename");
    assert_eq!(
        MyError::InvalidSchema.message(),
        "summary row does not match the schema"
    );
    assert_eq!(
        MyError::RangeError.message(),
        "post-trim count exceeds pre-trim count"
    );
}

#[test]
fn errors_compare_by_kind() {
    assert_eq!(MyError::Io, MyError::Io);
    assert_ne!(MyError::Io, MyError::InvalidFileName);
}
