use cigar_utils::collated::CollatedAugmentedCigarIterator;
use cigar_utils::error::CigarError;
use cigar_utils::CigarOp;

#[test]
fn test_collated_augmented_cigar_iterator_basic() {
    let cigars = vec![
        std::io::Result::Ok(("2M1I".to_string(), 1, 100)),
        std::io::Result::Ok(("1D2M".to_string(), 1, 102)),
    ];
    let mut collated = CollatedAugmentedCigarIterator::new(cigars);
    let mut results = Vec::new();
    while let Some(Ok((elem, count))) = collated.next() {
        results.push((elem, count));
    }
    println!("{:?}", results);
    // Should be sorted by reference_position
    let positions: Vec<_> = results.iter().map(|(e, _)| e.reference_position).collect();
    assert!(positions.windows(2).all(|w| w[0] <= w[1]));
    assert_eq!(results.len(), 4);
    // Check the actual elements
    assert_eq!(results[0].0.reference_position, 100); // 2M from first
    assert_eq!(results[1].0.reference_position, 102); // 1I from first and 1D from second (same pos)
    assert_eq!(results[1].0.op, CigarOp::Insertion);
    assert_eq!(results[2].0.reference_position, 102);
    assert_eq!(results[2].0.op, CigarOp::Deletion);
    assert_eq!(results[3].0.reference_position, 103); // 2M from second
}

#[test]
fn test_collated_augmented_cigar_iterator_error() {
    let cigars = vec![
        std::io::Result::Ok(("2M1Z".to_string(), 1, 100)), // Invalid op 'Z'
        std::io::Result::Ok(("1M".to_string(), 1, 101)),
    ];
    let mut collated = CollatedAugmentedCigarIterator::new(cigars);
    let mut saw_error = false;
    while let Some(res) = collated.next() {
        match res {
            Ok(_) => {}
            Err(CigarError::InvalidCharacter('Z')) => {
                saw_error = true;
                break;
            }
            Err(_) => {}
        }
    }
    assert!(saw_error);
}

#[test]
fn test_collated_augmented_cigar_iterator_chrom_id_collation() {
    let cigars = vec![
        std::io::Result::Ok(("1M".to_string(), 1, 100)),
        std::io::Result::Ok(("1M".to_string(), 1, 100)),
        std::io::Result::Ok(("1M".to_string(), 1, 101)),
        std::io::Result::Ok(("1M".to_string(), 2, 100)),
        std::io::Result::Ok(("1M".to_string(), 2, 101)),
    ];
    let mut collated = CollatedAugmentedCigarIterator::new(cigars);
    let mut results = Vec::new();
    while let Some(Ok((elem, count))) = collated.next() {
        results.push((elem.chrom_id, elem.reference_position, count));
    }
    // Should have two chrom_id values at each position
    assert_eq!(results.len(), 4);
    assert_eq!(results[0], (1, 100, 2));
    assert_eq!(results[1], (1, 101, 1));
    assert_eq!(results[2], (2, 100, 1));
    assert_eq!(results[3], (2, 101, 1));
}

#[test]
fn test_collated_augmented_cigar_iterator_chrom_id_grouping() {
    let cigars = vec![
        std::io::Result::Ok(("1M".to_string(), 1, 100)),
        std::io::Result::Ok(("1M".to_string(), 1, 100)),
        std::io::Result::Ok(("1M".to_string(), 2, 100)),
        std::io::Result::Ok(("1M".to_string(), 2, 100)),
    ];
    let mut collated = CollatedAugmentedCigarIterator::new(cigars);
    let mut results = Vec::new();
    while let Some(Ok((elem, count))) = collated.next() {
        results.push((elem.chrom_id, elem.reference_position, count));
    }
    // Should group by chrom_id and reference_position
    assert_eq!(results.len(), 2);
    assert_eq!(results[0], (1, 100, 2));
    assert_eq!(results[1], (2, 100, 2));
}

#[test]
fn test_collated_augmented_cigar_iterator_multiple_same_position() {
    let cigars = vec![
        std::io::Result::Ok(("1M".to_string(), 1, 100)),
        std::io::Result::Ok(("1M".to_string(), 1, 100)),
        std::io::Result::Ok(("1M".to_string(), 1, 100)),
    ];
    let mut collated = CollatedAugmentedCigarIterator::new(cigars);
    let mut results = Vec::new();
    while let Some(Ok((elem, count))) = collated.next() {
        results.push((elem, count));
    }
    // All three should be collated at position 100
    assert_eq!(results.len(), 1);
    assert_eq!(results[0].0.reference_position, 100);
    assert_eq!(results[0].1, 3);
}

#[test]
fn test_collated_empty_source() {
    let cigars: Vec<Result<(String, u32, u32), std::io::Error>> = Vec::new();
    let mut collated = CollatedAugmentedCigarIterator::new(cigars);
    assert!(collated.next().is_none());
    assert!(collated.next().is_none());
}

#[test]
fn test_collated_empty_cigar_item() {
    // an item with an empty operation string contributes nothing
    let cigars: Vec<Result<(String, u32, u32), std::io::Error>> = vec![
        Ok(("".to_string(), 1, 100)),
        Ok(("1M".to_string(), 1, 101)),
    ];
    let mut collated = CollatedAugmentedCigarIterator::new(cigars);
    let mut results = Vec::new();
    while let Some(res) = collated.next() {
        results.push(res.expect("no errors expected"));
    }
    assert_eq!(results.len(), 1);
    assert_eq!(results[0].0.reference_position, 101);
    assert_eq!(results[0].1, 1);
}

#[test]
fn test_collated_scenario_counts() {
    // two alignments on one chromosome: four outputs, each counting one record
    let cigars = vec![
        std::io::Result::Ok(("2M1I".to_string(), 1, 100)),
        std::io::Result::Ok(("1D2M".to_string(), 1, 102)),
    ];
    let mut collated = CollatedAugmentedCigarIterator::new(cigars);
    let mut results = Vec::new();
    while let Some(Ok((elem, count))) = collated.next() {
        results.push((elem.length, elem.op, elem.reference_position, count));
    }
    assert_eq!(
        results,
        vec![
            (2, CigarOp::Match, 100, 1),
            (1, CigarOp::Insertion, 102, 1),
            (1, CigarOp::Deletion, 102, 1),
            (2, CigarOp::Match, 103, 1),
        ]
    );
}

#[test]
fn test_collated_external_error_surfaces() {
    let cigars: Vec<Result<(String, u32, u32), std::io::Error>> = vec![
        Ok(("1M".to_string(), 1, 100)),
        Err(std::io::Error::new(std::io::ErrorKind::Other, "bad read")),
        Ok(("1M".to_string(), 1, 101)),
    ];
    let mut collated = CollatedAugmentedCigarIterator::new(cigars);
    let mut externals = 0;
    let mut oks = Vec::new();
    while let Some(res) = collated.next() {
        match res {
            Ok((elem, count)) => oks.push((elem.reference_position, count)),
            Err(CigarError::External(_)) => externals += 1,
            Err(e) => panic!("unexpected decode error: {:?}", e),
        }
    }
    assert_eq!(externals, 1);
    assert_eq!(oks, vec![(100, 1), (101, 1)]);
}

#[test]
fn test_collated_decode_error_then_continues() {
    // a failing item contributes its error and no records; the collation
    // continues with the items after it
    let cigars: Vec<Result<(String, u32, u32), std::io::Error>> = vec![
        Ok(("1M1Z".to_string(), 1, 100)),
        Ok(("1M".to_string(), 1, 101)),
    ];
    let mut collated = CollatedAugmentedCigarIterator::new(cigars);
    let mut errors = 0;
    let mut oks = Vec::new();
    while let Some(res) = collated.next() {
        match res {
            Ok((elem, count)) => oks.push((elem.reference_position, count)),
            Err(CigarError::InvalidCharacter('Z')) => errors += 1,
            Err(e) => panic!("unexpected error: {:?}", e),
        }
    }
    assert_eq!(errors, 1);
    assert_eq!(oks, vec![(101, 1)]);
}

#[test]
fn test_collated_failing_item_admits_no_records() {
    // every decode error of a failing item surfaces, in order, and neither
    // its pre-error nor its post-error records are admitted
    let cigars: Vec<Result<(String, u32, u32), std::io::Error>> = vec![
        Ok(("1M1Z2Q3M".to_string(), 1, 100)),
        Ok(("1M".to_string(), 1, 105)),
    ];
    let mut collated = CollatedAugmentedCigarIterator::new(cigars);
    let mut outputs = Vec::new();
    while let Some(res) = collated.next() {
        match res {
            Ok((elem, count)) => outputs.push(Ok((elem.reference_position, count))),
            Err(CigarError::InvalidCharacter(c)) => outputs.push(Err(c)),
            Err(e) => panic!("unexpected error: {:?}", e),
        }
    }
    assert_eq!(outputs, vec![Err('Z'), Err('Q'), Ok((105, 1))]);
}
