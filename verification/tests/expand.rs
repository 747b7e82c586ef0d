use cigar_utils::expand::expand_cigar_operations;
use cigar_utils::{CigarElement, CigarOp};

#[test]
fn test_expand_cigar_all_match() {
    let reference = b"ACGT";
    let seq = b"ACGT";
    let cigar = "4M";
    let result = expand_cigar_operations(0, cigar, reference, seq).unwrap();
    assert_eq!(result.len(), 1);
    assert_eq!(result[0].op, CigarOp::Equal);
    assert_eq!(result[0].length, 4);
}

#[test]
fn test_expand_cigar_all_mismatch() {
    let reference = b"ACGT";
    let seq = b"TGCA";
    let cigar = "4M";
    let result = expand_cigar_operations(0, cigar, reference, seq).unwrap();
    assert_eq!(result.len(), 1);
    assert_eq!(result[0].op, CigarOp::Diff);
    assert_eq!(result[0].length, 4);
}

#[test]
fn test_expand_cigar_mixed_match_mismatch() {
    let reference = b"ACGT";
    let seq = b"AGGT";
    let cigar = "4M";
    let result = expand_cigar_operations(0, cigar, reference, seq).unwrap();
    // A==A, C!=G, G==G, T==T
    assert_eq!(result.len(), 3);
    assert_eq!(result[0].op, CigarOp::Equal);
    assert_eq!(result[0].length, 1);
    assert_eq!(result[1].op, CigarOp::Diff);
    assert_eq!(result[1].length, 1);
    assert_eq!(result[2].op, CigarOp::Equal);
    assert_eq!(result[2].length, 2);
}

#[test]
fn test_expand_cigar_with_insertion_and_deletion() {
    let reference = b"ACGT";
    let seq = b"ACGTT";
    let cigar = "4M1I";
    let result = expand_cigar_operations(0, cigar, reference, seq).unwrap();
    // 4M should be all match, 1I is insertion
    assert_eq!(result.len(), 2);
    assert_eq!(result[0].op, CigarOp::Equal);
    assert_eq!(result[0].length, 4);
    assert_eq!(result[1].op, CigarOp::Insertion);
    assert_eq!(result[1].length, 1);
}

#[test]
fn test_expand_cigar_with_softclip() {
    let reference = b"ACGT";
    let seq = b"AACGT";
    let cigar = "1S4M";
    let result = expand_cigar_operations(0, cigar, reference, seq).unwrap();
    assert_eq!(result.len(), 2);
    assert_eq!(result[0].op, CigarOp::SoftClip);
    assert_eq!(result[0].length, 1);
    assert_eq!(result[1].op, CigarOp::Equal);
    assert_eq!(result[1].length, 4);
}

#[test]
fn test_expand_cigar_with_right_softclip() {
    let reference = b"ACGT";
    let seq = b"ACGTT";
    let cigar = "4M1S";
    let result = expand_cigar_operations(0, cigar, reference, seq).unwrap();
    assert_eq!(result.len(), 2);
    assert_eq!(result[0].op, CigarOp::Equal);
    assert_eq!(result[0].length, 4);
    assert_eq!(result[1].op, CigarOp::SoftClip);
    assert_eq!(result[1].length, 1);
}

#[test]
fn test_expand_cigar_with_hardclip() {
    let reference = b"ACGT";
    let seq = b"ACGT"; // Hard clipped base is not present in sequence
    let cigar = "1H4M";
    let result = expand_cigar_operations(0, cigar, reference, seq).unwrap();
    assert_eq!(result.len(), 2);
    assert_eq!(result[0].op, CigarOp::HardClip);
    assert_eq!(result[0].length, 1);
    assert_eq!(result[1].op, CigarOp::Equal);
    assert_eq!(result[1].length, 4);
}

#[test]
fn test_expand_cigar_with_right_hardclip() {
    let reference = b"ACGT";
    let seq = b"ACGT"; // Only first base present, rest hard clipped
    let cigar = "4M1H";
    let result = expand_cigar_operations(0, cigar, reference, seq).unwrap();
    assert_eq!(result.len(), 2);
    assert_eq!(result[0].op, CigarOp::Equal);
    assert_eq!(result[0].length, 4);
    assert_eq!(result[1].op, CigarOp::HardClip);
    assert_eq!(result[1].length, 1);
}

#[test]
fn test_expand_cigar_renders_runs() {
    let reference = b"ACGT";
    let seq = b"AGGT";
    let cigar = "4M";
    let expanded = expand_cigar_operations(0, cigar, reference, seq).unwrap();
    assert_eq!(CigarElement::cigar_string(expanded), "1=1X2=");
}

#[test]
fn test_expand_cigar_decode_error() {
    let reference = b"ACGT";
    let seq = b"ACGT";
    let cigar = "2M2Q";
    let result = expand_cigar_operations(0, cigar, reference, seq);
    assert!(matches!(
        result,
        Err(cigar_utils::error::CigarError::InvalidCharacter('Q'))
    ));
}

#[test]
fn test_expand_cigar_run_lengths_partition_match() {
    // k mismatching positions: the mismatch runs sum to k, all runs sum to
    // the operation's length, and runs alternate
    let reference = b"AAAAAAAA";
    let seq = b"ATTAATAA";
    let cigar = "8M";
    let result = expand_cigar_operations(0, cigar, reference, seq).unwrap();
    let total: u32 = result.iter().map(|e| e.length).sum();
    let mismatch: u32 = result
        .iter()
        .filter(|e| e.op == CigarOp::Diff)
        .map(|e| e.length)
        .sum();
    assert_eq!(total, 8);
    assert_eq!(mismatch, 3);
    for w in result.windows(2) {
        assert!(w[0].op != w[1].op);
    }
    for e in &result {
        assert!(e.length >= 1);
        assert!(e.op == CigarOp::Equal || e.op == CigarOp::Diff);
    }
}
