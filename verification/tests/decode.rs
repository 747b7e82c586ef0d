use cigar_utils::error::CigarError;
use cigar_utils::{CigarElement, CigarIterator, CigarOp};

fn collect_elems(cigar: &str) -> Vec<Result<CigarElement, CigarError<()>>> {
    let mut iter = CigarIterator::new(cigar);
    let mut elems: Vec<Result<CigarElement, CigarError<()>>> = Vec::new();
    while let Some(x) = iter.next() {
        elems.push(x);
    }
    elems
}

#[test]
fn test_cigar_iterator_basic() {
    let cigar = "10M5I3D";
    let elems = collect_elems(cigar);
    assert_eq!(elems.len(), 3);
    assert!(matches!(elems[0], Ok(ref e) if e.length == 10 && matches!(e.op, CigarOp::Match)));
    assert!(matches!(elems[1], Ok(ref e) if e.length == 5 && matches!(e.op, CigarOp::Insertion)));
    assert!(matches!(elems[2], Ok(ref e) if e.length == 3 && matches!(e.op, CigarOp::Deletion)));
}

#[test]
fn test_cigar_iterator_all_ops() {
    let cigar = "1M2I3D4N5S6H7P8=9X";
    let expected = [
        (1, CigarOp::Match),
        (2, CigarOp::Insertion),
        (3, CigarOp::Deletion),
        (4, CigarOp::Skip),
        (5, CigarOp::SoftClip),
        (6, CigarOp::HardClip),
        (7, CigarOp::Padding),
        (8, CigarOp::Equal),
        (9, CigarOp::Diff),
    ];
    for (i, elem) in collect_elems(cigar).into_iter().enumerate() {
        match elem {
            Ok(e) => {
                assert_eq!(e.length, expected[i].0);
                assert!(std::mem::discriminant(&e.op) == std::mem::discriminant(&expected[i].1));
            }
            Err(_) => panic!("Unexpected error at index {}", i),
        }
    }
}

#[test]
fn test_cigar_iterator_invalid_char() {
    let cigar = "5M2Z";
    let elems = collect_elems(cigar);
    assert!(matches!(elems[0], Ok(_)));
    assert!(matches!(elems[1], Err(CigarError::InvalidCharacter('Z'))));
}

#[test]
fn test_cigar_iterator_missing_count() {
    let cigar = "M5I";
    let elems = collect_elems(cigar);
    assert!(matches!(elems[0], Err(CigarError::MissingCount('M'))));
    assert!(matches!(elems[1], Ok(ref e) if e.length == 5 && matches!(e.op, CigarOp::Insertion)));
}

#[test]
fn test_cigar_iterator_missing_operation() {
    let cigar = "5M3";
    let elems = collect_elems(cigar);
    assert_eq!(elems.len(), 2);
    assert!(matches!(elems[0], Ok(ref e) if e.length == 5 && matches!(e.op, CigarOp::Match)));
    assert!(matches!(elems[1], Err(CigarError::MissingOperation(3))));
}

#[test]
fn test_cigar_iterator_stops_after_single_error() {
    let elems = collect_elems("2M1Z");
    assert_eq!(elems.len(), 2);
    assert!(matches!(elems[0], Ok(ref e) if e.length == 2 && matches!(e.op, CigarOp::Match)));
    assert!(matches!(elems[1], Err(CigarError::InvalidCharacter('Z'))));
}

#[test]
fn test_cigar_string_renders_elements() {
    let elements = vec![
        CigarElement::new(10, CigarOp::Match),
        CigarElement::new(5, CigarOp::Insertion),
        CigarElement::new(3, CigarOp::Deletion),
    ];
    assert_eq!(CigarElement::cigar_string(elements), "10M5I3D");
}

#[test]
fn test_cigar_string_zero_length_and_all_codes() {
    let elements = vec![
        CigarElement::new(0, CigarOp::Match),
        CigarElement::new(100, CigarOp::Skip),
        CigarElement::new(7, CigarOp::Equal),
        CigarElement::new(2, CigarOp::Diff),
        CigarElement::new(1, CigarOp::SoftClip),
        CigarElement::new(4, CigarOp::HardClip),
        CigarElement::new(9, CigarOp::Padding),
    ];
    assert_eq!(CigarElement::cigar_string(elements), "0M100N7=2X1S4H9P");
}

#[test]
fn test_decode_then_render_round_trip() {
    let cigar = "12M1I30D4N5S6H7P8=9X";
    let mut tokens: Vec<CigarElement> = Vec::new();
    for elem in collect_elems(cigar) {
        tokens.push(elem.expect("well-formed token"));
    }
    assert_eq!(CigarElement::cigar_string(tokens), cigar);
}

#[test]
fn test_cigar_iterator_empty_string() {
    let elems = collect_elems("");
    assert!(elems.is_empty());
}

#[test]
fn test_cigar_iterator_largest_count() {
    let elems = collect_elems("4294967295M");
    assert_eq!(elems.len(), 1);
    assert!(matches!(elems[0], Ok(ref e) if e.length == u32::MAX && matches!(e.op, CigarOp::Match)));
}

#[test]
fn test_op_u8_round_trip() {
    let ops = [
        CigarOp::Match,
        CigarOp::Insertion,
        CigarOp::Deletion,
        CigarOp::Skip,
        CigarOp::SoftClip,
        CigarOp::HardClip,
        CigarOp::Padding,
        CigarOp::Equal,
        CigarOp::Diff,
    ];
    for (i, op) in ops.iter().enumerate() {
        assert_eq!(op.as_u8() as usize, i);
        assert_eq!(CigarOp::from_u8(op.as_u8()), Ok(*op));
    }
    assert_eq!(CigarOp::from_u8(9), Err(9));
    assert_eq!(CigarOp::code(CigarOp::Equal), '=');
}

#[test]
fn test_cigar_iterator_leading_star_is_invalid() {
    // a character that is neither digit, letter nor operation code is
    // invalid, not a missing count
    let elems = collect_elems("*1M");
    assert!(matches!(elems[0], Err(CigarError::InvalidCharacter('*'))));
    assert!(matches!(elems[1], Ok(ref e) if e.length == 1 && matches!(e.op, CigarOp::Match)));
}

#[test]
fn test_cigar_iterator_leading_code_is_missing_count() {
    let elems = collect_elems("=2X");
    assert!(matches!(elems[0], Err(CigarError::MissingCount('='))));
    assert!(matches!(elems[1], Ok(ref e) if e.length == 2 && matches!(e.op, CigarOp::Diff)));
}
