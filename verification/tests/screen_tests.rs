use boulder_dash::screen::Screen;

#[test]
fn new_dimensions() {
    let s = Screen::new(10, 5, 7);
    assert_eq!(s.w, 10);
    assert_eq!(s.h, 5);
    assert_eq!(s.scr.len(), 50);
    assert!(s.scr.iter().all(|&c| c == 7));
}

#[test]
fn reset_reinitializes() {
    let mut s = Screen::new(10, 5, 7);
    s.reset(4, 3, 9);
    assert_eq!(s.w, 4);
    assert_eq!(s.h, 3);
    assert_eq!(s.scr.len(), 12);
    assert!(s.scr.iter().all(|&c| c == 9));
}

#[test]
fn put_writes_one_cell() {
    let mut s = Screen::new(10, 5, 0);
    s.put(2, 1, 5);
    assert_eq!(s.scr[1 * 10 + 2], 5);
    let untouched = s.scr.iter().enumerate().filter(|&(i, _)| i != 12).all(|(_, &c)| c == 0);
    assert!(untouched);
}

#[test]
fn get_reads_with_offset() {
    let mut s = Screen::new(10, 5, 0);
    s.put(2, 1, 5);
    assert_eq!(s.get(12, 0, 99), 5);
    assert_eq!(s.get(13, -1, 99), 5);
    assert_eq!(s.get(10, 2, 99), 5);
}

#[test]
fn get_out_of_bounds_gives_default() {
    let s = Screen::new(10, 5, 1);
    assert_eq!(s.get(1000, 0, 42), 42);
    assert_eq!(s.get(0, -1, 77), 77);
    assert_eq!(s.get(49, 1, 13), 13);
    assert_eq!(s.get(49, 0, 13), 1);
}

#[test]
fn hline_writes_row_segment() {
    let mut s = Screen::new(10, 5, 0);
    s.hline(1, 2, 5, 8);
    for x in 0..10 {
        let expect = if (2..5).contains(&x) { 8 } else { 0 };
        assert_eq!(s.scr[1 * 10 + x], expect);
    }
    assert_eq!(s.scr[0], 0);
    assert_eq!(s.scr[2 * 10 + 3], 0);
}

#[test]
fn vline_writes_column_segment() {
    let mut s = Screen::new(10, 5, 0);
    s.vline(3, 1, 4, 6);
    for y in 0..5 {
        let expect = if (1..4).contains(&y) { 6 } else { 0 };
        assert_eq!(s.scr[y * 10 + 3], expect);
    }
    assert_eq!(s.scr[1 * 10 + 2], 0);
}

#[test]
fn hline_empty_when_reversed() {
    let mut s = Screen::new(10, 5, 3);
    s.hline(1, 5, 2, 8);
    assert!(s.scr.iter().all(|&c| c == 3));
}
