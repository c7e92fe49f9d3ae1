use segchain::{SChain, Seg, SegError, SegT, Segment};

fn seg(start: u32, end: u32) -> Result<Segment, SegError> {
    Segment::new(start, end)
}

fn chain_of(pairs: &[(u32, u32)]) -> Result<SChain, SegError> {
    let mut chain = SChain::new();
    for &(s, e) in pairs {
        chain.push(seg(s, e)?)?;
    }
    Ok(chain)
}

#[test]
fn test_create_segtp() {
    let segtp = Segment::new(1, 5).unwrap();
    assert_eq!(segtp.start(), Some(1));
    assert_eq!(segtp.end(), Some(5));

    let segtp_macro = seg(1, 5).unwrap();
    assert_eq!(segtp, segtp_macro);
}

#[test]
fn test_create_invalid_segtp() {
    assert!(Segment::new(5, 1).is_err());
}

#[test]
fn test_intersect() {
    let segtp1 = Segment::new(1, 5).unwrap();
    let segtp2 = Segment::new(3, 7).unwrap();
    let segtp3 = Segment::new(6, 10).unwrap();
    let segtp4 = Segment::new(0, 3).unwrap();
    let segtp5 = Segment::new(7, 9).unwrap();

    assert_eq!(Segment::intersect(&segtp1, &segtp2), Some(Segment::new(3, 5).unwrap()));
    assert_eq!(segtp1.intersect(&segtp3), None);
    assert_eq!(segtp1.intersect(&segtp4), Some(Segment::new(1, 3).unwrap()));
    assert_eq!(segtp1.intersect(&segtp5), None);
}

#[test]
fn segment_test_eq() {
    let s1 = seg(1, 10);
    let s1 = match s1 {
        Ok(x) => x,
        Err(_) => panic!("fail"),
    };
    let s2 = seg(1, 10);
    let s2 = match s2 {
        Ok(x) => x,
        Err(_) => panic!("fail"),
    };
    assert_eq!(s1, s2);
}

#[test]
fn segment_test_lt() {
    let s1 = seg(1, 10);
    let s1 = match s1 {
        Ok(x) => x,
        Err(_) => panic!("fail"),
    };
    let s2 = seg(2, 10);
    let s2 = match s2 {
        Ok(x) => x,
        Err(_) => panic!("fail"),
    };
    assert!(s1 < s2);

    let s1 = seg(1, 10);
    let s1 = match s1 {
        Ok(x) => x,
        Err(_) => panic!("fail"),
    };
    let s2 = seg(2, 9);
    let s2 = match s2 {
        Ok(x) => x,
        Err(_) => panic!("fail"),
    };
    assert!(s1 < s2);

    let s1 = seg(1, 10);
    let s1 = match s1 {
        Ok(x) => x,
        Err(_) => panic!("fail"),
    };
    let s2 = seg(1, 9);
    let s2 = match s2 {
        Ok(x) => x,
        Err(_) => panic!("fail"),
    };
    assert!(s1 > s2);
}

#[test]
fn segment_test_overlap_seg() -> Result<(), SegError> {
    let s1 = seg(1, 10)?;
    let s2 = seg(5, 15)?;
    assert!(s1.overlap(&s2));

    let s2 = seg(10, 15)?;
    assert!(s1.overlap(&s2));

    let s2 = seg(11, 15)?;
    assert!(!s1.overlap(&s2));
    Ok(())
}

#[test]
fn segment_test_overlap_schain() -> Result<(), SegError> {
    let s1 = seg(1, 10)?;
    let mut c2 = SChain::new();
    c2.push(seg(1, 4)?)?;
    c2.push(seg(5, 11)?)?;
    c2.push(seg(15, 24)?)?;

    assert!(s1.overlap(&c2));

    let mut c2 = SChain::new();
    c2.push(seg(11, 13)?)?;
    c2.push(seg(15, 24)?)?;

    assert!(!s1.overlap(&c2));

    let mut c2 = SChain::new();
    c2.push(seg(10, 13)?)?;
    c2.push(seg(15, 24)?)?;

    assert!(s1.overlap(&c2));

    let mut c2 = SChain::new();
    c2.push(seg(10, 13)?)?;
    c2.push(seg(18, 24)?)?;

    let s1 = seg(14, 17)?;
    assert!(s1.overlap(&c2));
    Ok(())
}

#[test]
fn segment_test_strict_overlap_seg() -> Result<(), SegError> {
    let s1 = seg(1, 10)?;
    let s2 = seg(5, 15)?;
    assert!(s1.strict_overlap(&s2));

    let s2 = seg(10, 15)?;
    assert!(s1.strict_overlap(&s2));

    let s2 = seg(11, 15)?;
    assert!(!s1.strict_overlap(&s2));
    Ok(())
}

#[test]
fn segment_test_strict_overlap_schain() -> Result<(), SegError> {
    let s1 = seg(1, 10)?;
    let mut c2 = SChain::new();
    c2.push(seg(1, 4)?)?;
    c2.push(seg(5, 11)?)?;
    c2.push(seg(15, 24)?)?;

    assert!(s1.strict_overlap(&c2));

    let mut c2 = SChain::new();
    c2.push(seg(11, 13)?)?;
    c2.push(seg(15, 24)?)?;

    assert!(!s1.strict_overlap(&c2));

    let mut c2 = SChain::new();
    c2.push(seg(10, 13)?)?;
    c2.push(seg(15, 24)?)?;

    assert!(s1.strict_overlap(&c2));

    let mut c2 = SChain::new();
    c2.push(seg(10, 13)?)?;
    c2.push(seg(18, 24)?)?;

    let s1 = seg(14, 17)?;
    assert!(!s1.strict_overlap(&c2));
    Ok(())
}

#[test]
fn segment_contains_exactly_its_closed_range() {
    let s = seg(3, 7).unwrap();
    assert!(!s.contains(2));
    assert!(s.contains(3));
    assert!(s.contains(5));
    assert!(s.contains(7));
    assert!(!s.contains(8));
    let point = seg(9, 9).unwrap();
    assert!(point.contains(9));
    assert!(!point.contains(8));
    assert!(!point.contains(10));
}

#[test]
fn segment_new_reports_invalid_range() {
    assert_eq!(Segment::new(5, 1), Err(SegError::InvalidRange));
    assert_eq!(Segment::new(1, 0), Err(SegError::InvalidRange));
    assert_eq!(Segment::new(u32::MAX, 0), Err(SegError::InvalidRange));
    assert_eq!(Segment::new(4, 4).map(|s| s.bounds()), Ok((4, 4)));
}

#[test]
fn segment_set_start_and_set_end() {
    let mut s = seg(5, 10).unwrap();
    assert_eq!(Segment::set_start(&mut s, 2), Ok(()));
    assert_eq!(s.bounds(), (2, 10));
    assert_eq!(Segment::set_start(&mut s, 10), Ok(()));
    assert_eq!(s.bounds(), (10, 10));
    assert_eq!(Segment::set_start(&mut s, 11), Err(SegError::InvalidRange));
    assert_eq!(s.bounds(), (10, 10));

    let mut s = seg(5, 10).unwrap();
    assert_eq!(Segment::set_end(&mut s, 20), Ok(()));
    assert_eq!(s.bounds(), (5, 20));
    assert_eq!(Segment::set_end(&mut s, 5), Ok(()));
    assert_eq!(s.bounds(), (5, 5));
    assert_eq!(Segment::set_end(&mut s, 4), Err(SegError::InvalidRange));
    assert_eq!(s.bounds(), (5, 5));

    let mut s = seg(5, 10).unwrap();
    assert_eq!(Seg::set_start(&mut s, 7), Ok(()));
    assert_eq!(Seg::set_end(&mut s, 8), Ok(()));
    assert_eq!(s.bounds(), (7, 8));
    assert_eq!(Seg::set_start(&mut s, 9), Err(SegError::InvalidRange));
    assert_eq!(Seg::set_end(&mut s, 6), Err(SegError::InvalidRange));
    assert_eq!(s.bounds(), (7, 8));
}

#[test]
fn segment_slen_counts_positions() {
    assert_eq!(seg(1, 5).unwrap().slen(), 5);
    assert_eq!(seg(7, 7).unwrap().slen(), 1);
    assert_eq!(seg(0, 0).unwrap().slen(), 1);
    assert_eq!(seg(5, u32::MAX).unwrap().slen(), u32::MAX - 4);
    assert_eq!(seg(1, u32::MAX).unwrap().slen(), u32::MAX);
    assert_eq!(seg(0, u32::MAX).unwrap().slen(), u32::MAX);
}

#[test]
fn segment_default_is_the_vacant_one() {
    let d = Segment::default();
    assert!(d.empty());
    assert_eq!(d.start(), None);
    assert_eq!(d.end(), None);
    assert_eq!(d.bounds(), (u32::MAX, u32::MAX));
    assert_eq!(seg(u32::MAX, u32::MAX).unwrap(), d);
    let s = seg(3, u32::MAX).unwrap();
    assert!(!s.empty());
    assert_eq!(s.start(), Some(3));
    assert_eq!(s.end(), Some(u32::MAX));
}

#[test]
fn segment_into_pair() {
    let pair: (u32, u32) = seg(4, 9).unwrap().into();
    assert_eq!(pair, (4, 9));
    assert_eq!(<(u32, u32)>::from(seg(0, 1).unwrap()), (0, 1));
}

#[test]
fn segment_intersect_is_symmetric() {
    let cases = [((1, 5), (3, 7)), ((1, 5), (6, 10)), ((0, 3), (3, 3)), ((2, 9), (4, 5))];
    for ((a0, a1), (b0, b1)) in cases {
        let a = seg(a0, a1).unwrap();
        let b = seg(b0, b1).unwrap();
        assert_eq!(a.intersect(&b), b.intersect(&a));
    }
    assert_eq!(seg(0, 3).unwrap().intersect(&seg(3, 3).unwrap()), Some(seg(3, 3).unwrap()));
    assert_eq!(seg(2, 9).unwrap().intersect(&seg(4, 5).unwrap()), Some(seg(4, 5).unwrap()));
}

#[test]
fn segment_intersect_with_itself() {
    for (s, e) in [(1, 5), (0, 0), (7, u32::MAX), (u32::MAX, u32::MAX)] {
        let a = seg(s, e).unwrap();
        assert_eq!(a.intersect(&a), Some(a));
    }
}

#[test]
fn segment_union_spans_overlapping_segments() {
    let a = seg(1, 5).unwrap();
    assert_eq!(a.union(&seg(3, 9).unwrap()), Some(seg(1, 9).unwrap()));
    assert_eq!(a.union(&seg(5, 6).unwrap()), Some(seg(1, 6).unwrap()));
    assert_eq!(a.union(&seg(2, 3).unwrap()), Some(seg(1, 5).unwrap()));
    assert_eq!(a.union(&seg(0, 1).unwrap()), Some(seg(0, 5).unwrap()));
    assert_eq!(a.union(&seg(6, 9).unwrap()), None);
    assert_eq!(a.union(&seg(0, 0).unwrap()), None);
}

#[test]
fn segment_overlap_ignores_a_vacant_operand() {
    let vacant = Segment::default();
    let s = seg(3, u32::MAX).unwrap();
    assert!(!s.overlap(&vacant));
    assert!(!s.strict_overlap(&vacant));
    assert_eq!(s.union(&vacant), None);
    assert!(vacant.overlap(&s));
}

#[test]
fn segment_against_chain() -> Result<(), SegError> {
    let chain = chain_of(&[(1, 5), (10, 15), (20, 25)])?;
    let s = seg(3, 14)?;
    let shared = s.intersect(&chain);
    assert_eq!(shared.map(|c| c.bounds()), Some(vec![(3, 5), (10, 14)]));
    assert!(seg(6, 9)?.intersect(&chain).is_none());
    assert!(s.union(&chain).is_none());
    assert!(seg(16, 18)?.overlap(&chain));
    assert!(!seg(16, 18)?.strict_overlap(&chain));
    assert!(!seg(26, 30)?.overlap(&chain));
    assert!(!s.overlap(&SChain::new()));
    assert!(!s.strict_overlap(&SChain::new()));
    Ok(())
}
