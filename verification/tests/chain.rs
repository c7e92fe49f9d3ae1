use segchain::{Chain, SegError, Segment};

#[test]
fn chain_test_create_chain() {
    let chain = Chain::new().unwrap();
    assert_eq!(chain.len(), 0);
}

#[test]
fn chain_push_accepts_segments_in_order() -> Result<(), SegError> {
    let mut chain = Chain::new()?;
    assert_eq!(chain.push(Segment::new(1, 5)?), Ok(()));
    assert_eq!(chain.push(Segment::new(1, 5)?), Ok(()));
    assert_eq!(chain.push(Segment::new(10, 15)?), Ok(()));
    assert_eq!(chain.len(), 3);
    assert_eq!(chain.bounds(), vec![(1, 5), (1, 5), (10, 15)]);
    assert!(chain.contains(3));
    assert!(chain.contains(10));
    assert!(!chain.contains(7));
    let mut other = Chain::default();
    assert!(chain != other);
    other.push(Segment::new(1, 5)?)?;
    other.push(Segment::new(1, 5)?)?;
    other.push(Segment::new(10, 15)?)?;
    assert_eq!(chain, other);
    Ok(())
}

#[test]
fn chain_push_refuses_a_segment_that_compares_less() -> Result<(), SegError> {
    let mut chain = Chain::new()?;
    chain.push(Segment::new(10, 15)?)?;
    assert_eq!(chain.push(Segment::new(1, 5)?), Err(SegError::OutOfOrder));
    assert_eq!(chain.push(Segment::new(10, 14)?), Err(SegError::OutOfOrder));
    assert_eq!(chain.len(), 1);
    assert_eq!(chain.bounds(), vec![(10, 15)]);
    assert_eq!(chain.push(Segment::new(10, 16)?), Ok(()));
    assert_eq!(chain.bounds(), vec![(10, 15), (10, 16)]);
    Ok(())
}
