use splitscreen::frame::Frame;

#[test]
fn new_frames_are_black() {
    let f = Frame::new(4, 3);
    assert_eq!(f.width, 4);
    assert_eq!(f.height, 3);
    assert_eq!(f.data.len(), 4 * 3 * 3);
    assert!(f.data.iter().all(|&b| b == 0));
}

#[test]
fn from_raw_checks_the_length() {
    assert!(Frame::from_raw(2, 2, vec![0; 12]).is_some());
    assert!(Frame::from_raw(2, 2, vec![0; 11]).is_none());
    assert!(Frame::from_raw(2, 2, vec![0; 13]).is_none());
}

#[test]
fn fill_rect_touches_exactly_the_rectangle() {
    let mut f = Frame::new(4, 4);
    f.fill_rect(1, 1, 2, 2, (10, 20, 30));
    for y in 0..4 {
        for x in 0..4 {
            let expect = if (1..3).contains(&x) && (1..3).contains(&y) {
                (10, 20, 30)
            } else {
                (0, 0, 0)
            };
            assert_eq!(f.get_px(x, y), expect);
        }
    }
}

#[test]
fn copy_from_places_the_source() {
    let mut dst = Frame::new(4, 4);
    let src = Frame::from_raw(2, 1, vec![1, 2, 3, 4, 5, 6]).unwrap();
    dst.copy_from(&src, 2, 3);
    assert_eq!(dst.get_px(2, 3), (1, 2, 3));
    assert_eq!(dst.get_px(3, 3), (4, 5, 6));
    assert_eq!(dst.get_px(1, 3), (0, 0, 0));
    assert_eq!(dst.get_px(2, 2), (0, 0, 0));
}

#[test]
fn desaturate_uses_integer_luma() {
    let mut f = Frame::from_raw(1, 1, vec![100, 150, 200]).unwrap();
    f.desaturate_rect(0, 0, 1, 1);
    // (2989*100 + 5870*150 + 1140*200) / 10000 = 140
    assert_eq!(f.get_px(0, 0), (140, 140, 140));
}

#[test]
fn desaturate_leaves_the_rest() {
    let mut f = Frame::new(3, 1);
    f.fill_rect(0, 0, 3, 1, (200, 100, 50));
    f.desaturate_rect(1, 0, 1, 1);
    assert_eq!(f.get_px(0, 0), (200, 100, 50));
    // (2989*200 + 5870*100 + 1140*50) / 10000 = 124
    assert_eq!(f.get_px(1, 0), (124, 124, 124));
    assert_eq!(f.get_px(2, 0), (200, 100, 50));
}
