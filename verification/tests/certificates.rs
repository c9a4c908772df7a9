use consensus::optimistic_compiler::OptimisticCompiler;
use consensus::types::Digest;

#[test]
fn certificate_bytes_are_mark_era_index() {
    let cert = OptimisticCompiler::make_recovery_cert(0x0102030405060708, 0xfffefdfcfbfaf9f8);
    let mut expected: Vec<u8> = vec![2; 16];
    expected.extend([1, 2, 3, 4, 5, 6, 7, 8]);
    expected.extend([0xff, 0xfe, 0xfd, 0xfc, 0xfb, 0xfa, 0xf9, 0xf8]);
    assert_eq!(cert.0.to_vec(), expected);
}

#[test]
fn certificate_bytes_at_the_bounds() {
    assert_eq!(OptimisticCompiler::make_recovery_cert(0, 0).0[16..], [0u8; 16]);
    assert_eq!(OptimisticCompiler::make_recovery_cert(u64::MAX, u64::MAX).0[16..], [255u8; 16]);
    assert_eq!(OptimisticCompiler::make_recovery_cert(1, 256).0[23], 1);
    assert_eq!(OptimisticCompiler::make_recovery_cert(1, 256).0[30], 1);
}

#[test]
fn certificates_are_recognised() {
    for (era, index) in [(0, 0), (7, 11), (u64::MAX, 1)] {
        let cert = OptimisticCompiler::make_recovery_cert(era, index);
        assert!(OptimisticCompiler::is_certificate(&cert.0));
    }
}

#[test]
fn certificates_are_distinct() {
    let cert = OptimisticCompiler::make_recovery_cert(3, 4);
    assert_ne!(cert, OptimisticCompiler::make_recovery_cert(4, 3));
    assert_ne!(cert, OptimisticCompiler::make_recovery_cert(3, 5));
    assert_eq!(cert, OptimisticCompiler::make_recovery_cert(3, 4));
}

#[test]
fn every_byte_of_the_mark_counts() {
    for i in 0..16 {
        let mut bytes = [2u8; 32];
        bytes[i] = 3;
        assert!(!OptimisticCompiler::is_certificate(&bytes));
    }
    for i in 16..32 {
        let mut bytes = [2u8; 32];
        bytes[i] = 3;
        assert!(OptimisticCompiler::is_certificate(&bytes));
    }
}

#[test]
fn only_the_mark_is_read() {
    assert!(OptimisticCompiler::is_certificate(&[2; 16]));
    assert!(!OptimisticCompiler::is_certificate(&[2, 1]));
}

#[test]
fn digests_compare_by_bytes() {
    let mut other = [9u8; 32];
    assert!(Digest([9; 32]).same_as(&Digest(other)));
    other[31] = 8;
    assert!(!Digest([9; 32]).same_as(&Digest(other)));
}
