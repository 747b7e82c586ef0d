use cigar_utils::augmented_cigar::{AugmentedCigarElement, AugmentedCigarIterator};
use cigar_utils::error::CigarError;
use cigar_utils::{CigarIterator, CigarOp};

fn collect_records(
    mut iter: AugmentedCigarIterator,
) -> Vec<Result<AugmentedCigarElement, CigarError<()>>> {
    let mut elems: Vec<Result<AugmentedCigarElement, CigarError<()>>> = Vec::new();
    while let Some(x) = iter.next() {
        elems.push(x);
    }
    elems
}

#[test]
fn test_augmented_cigar_iterator_basic() {
    let cigar = "3M2I4D";
    let iter = AugmentedCigarIterator::from_parts(CigarIterator::new(cigar), 0, 100);
    let elems = collect_records(iter);
    assert_eq!(elems.len(), 3);
    // 3M
    assert!(matches!(elems[0], Ok(ref e)
        if e.length == 3 && e.op == CigarOp::Match && e.read_position == 0 && e.reference_position == 100));
    // 2I
    assert!(matches!(elems[1], Ok(ref e)
        if e.length == 2 && e.op == CigarOp::Insertion && e.read_position == 3 && e.reference_position == 103));
    // 4D
    assert!(matches!(elems[2], Ok(ref e)
        if e.length == 4 && e.op == CigarOp::Deletion && e.read_position == 5 && e.reference_position == 103));
}

#[test]
fn test_augmented_cigar_iterator_positions() {
    let cigar = "2M1I2D1M";
    let iter = AugmentedCigarIterator::from_parts(CigarIterator::new(cigar), 0, 50);
    let elems = collect_records(iter);
    assert_eq!(elems.len(), 4);
    assert!(matches!(elems[0], Ok(ref e)
        if e.length == 2 && e.op == CigarOp::Match && e.read_position == 0 && e.reference_position == 50));
    assert!(matches!(elems[1], Ok(ref e)
        if e.length == 1 && e.op == CigarOp::Insertion && e.read_position == 2 && e.reference_position == 52));
    assert!(matches!(elems[2], Ok(ref e)
        if e.length == 2 && e.op == CigarOp::Deletion && e.read_position == 3 && e.reference_position == 52));
    assert!(matches!(elems[3], Ok(ref e)
        if e.length == 1 && e.op == CigarOp::Match && e.read_position == 3 && e.reference_position == 54));
}

#[test]
fn test_augmented_cigar_iterator_error_propagation() {
    let cigar = "2M1Z";
    let iter = AugmentedCigarIterator::from_parts(CigarIterator::new(cigar), 0, 0);
    let elems = collect_records(iter);
    assert_eq!(elems.len(), 2);
    assert!(matches!(elems[0], Ok(ref e) if e.length == 2 && e.op == CigarOp::Match));
    assert!(matches!(elems[1], Err(CigarError::InvalidCharacter('Z'))));
}

#[test]
fn test_augmented_cigar_iterator_from_str() {
    let cigar = "1M2I";
    let iter = AugmentedCigarIterator::new(cigar, 0, 10);
    let elems = collect_records(iter);
    assert_eq!(elems.len(), 2);
    assert!(matches!(elems[0], Ok(ref e)
        if e.length == 1 && e.op == CigarOp::Match && e.read_position == 0 && e.reference_position == 10));
    assert!(matches!(elems[1], Ok(ref e)
        if e.length == 2 && e.op == CigarOp::Insertion && e.read_position == 1 && e.reference_position == 11));
}

#[test]
fn test_augmented_cigar_iterator_chrom_and_error_no_advance() {
    // an error advances no cursor: the record after it keeps its positions
    let cigar = "1M1Z1M";
    let iter = AugmentedCigarIterator::new(cigar, 7, 20);
    let elems = collect_records(iter);
    assert_eq!(elems.len(), 3);
    assert!(matches!(elems[0], Ok(ref e)
        if e.chrom_id == 7 && e.read_position == 0 && e.reference_position == 20));
    assert!(matches!(elems[1], Err(CigarError::InvalidCharacter('Z'))));
    assert!(matches!(elems[2], Ok(ref e)
        if e.chrom_id == 7 && e.read_position == 1 && e.reference_position == 21));
}

#[test]
fn test_augmented_record_order_and_grouping() {
    let a = AugmentedCigarElement {
        length: 1,
        op: CigarOp::Match,
        read_position: 0,
        reference_position: 100,
        chrom_id: 1,
    };
    let mut b = a;
    b.read_position = 5;
    // the read position is not part of the grouping key
    assert!(a.in_same_group(&b));
    assert!(a.le(&b) && b.le(&a));
    let mut c = a;
    c.chrom_id = 2;
    assert!(!a.in_same_group(&c));
    assert!(a.le(&c) && !c.le(&a));
    let mut d = a;
    d.op = CigarOp::Insertion;
    assert!(a.le(&d) && !d.le(&a));
}
