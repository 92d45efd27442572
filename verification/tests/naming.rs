use kvs::naming::{segment_file_id, segment_file_name};

#[test]
fn file_names_are_the_id_in_decimal_with_the_extension() {
    assert_eq!(segment_file_name(0), b"0.log".to_vec());
    assert_eq!(segment_file_name(7), b"7.log".to_vec());
    assert_eq!(segment_file_name(10), b"10.log".to_vec());
    assert_eq!(segment_file_name(1203), b"1203.log".to_vec());
    assert_eq!(segment_file_name(u64::MAX), b"18446744073709551615.log".to_vec());
}

#[test]
fn file_names_give_their_id_back() {
    let ids = vec![0u64, 1, 9, 10, 11, 99, 100, 101, 65535, 1 << 32, u64::MAX - 1, u64::MAX];
    for id in ids {
        assert_eq!(segment_file_id(&segment_file_name(id)), Some(id));
    }
}

#[test]
fn segment_file_id_reads_decimal_names() {
    assert_eq!(segment_file_id(b"0.log"), Some(0));
    assert_eq!(segment_file_id(b"42.log"), Some(42));
    assert_eq!(segment_file_id(b"18446744073709551615.log"), Some(u64::MAX));
}

#[test]
fn segment_file_id_rejects_other_names() {
    assert_eq!(segment_file_id(b""), None);
    assert_eq!(segment_file_id(b".log"), None);
    assert_eq!(segment_file_id(b"log"), None);
    assert_eq!(segment_file_id(b"1.lo"), None);
    assert_eq!(segment_file_id(b"1.txt"), None);
    assert_eq!(segment_file_id(b"1.LOG"), None);
    assert_eq!(segment_file_id(b"1log"), None);
    assert_eq!(segment_file_id(b"1.log.bak"), None);
    assert_eq!(segment_file_id(b"a.log"), None);
    assert_eq!(segment_file_id(b"1a.log"), None);
    assert_eq!(segment_file_id(b"-1.log"), None);
    assert_eq!(segment_file_id(b"+1.log"), None);
    assert_eq!(segment_file_id(b" 1.log"), None);
    assert_eq!(segment_file_id(b"1/.log"), None);
    assert_eq!(segment_file_id(b"1:.log"), None);
}

#[test]
fn segment_file_id_rejects_leading_zeros() {
    assert_eq!(segment_file_id(b"00.log"), None);
    assert_eq!(segment_file_id(b"01.log"), None);
    assert_eq!(segment_file_id(b"007.log"), None);
}

#[test]
fn segment_file_id_rejects_numbers_that_are_too_large() {
    assert_eq!(segment_file_id(b"18446744073709551616.log"), None);
    assert_eq!(segment_file_id(b"18446744073709551620.log"), None);
    assert_eq!(segment_file_id(b"28446744073709551615.log"), None);
    assert_eq!(segment_file_id(b"184467440737095516150.log"), None);
    assert_eq!(segment_file_id(b"99999999999999999999999999.log"), None);
}
