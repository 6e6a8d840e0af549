use ore_board::SetMinMax;

#[test]
fn setmin_keeps_the_smaller() {
    let mut x: i64 = 5;
    assert!(x.setmin(3));
    assert_eq!(x, 3);
    assert!(!x.setmin(3));
    assert!(!x.setmin(9));
    assert_eq!(x, 3);
}

#[test]
fn setmax_keeps_the_larger() {
    let mut x: usize = 5;
    assert!(x.setmax(8));
    assert_eq!(x, 8);
    assert!(!x.setmax(8));
    assert!(!x.setmax(1));
    assert_eq!(x, 8);
    let mut y: i32 = -1;
    assert!(y.setmax(0));
    let mut z: u64 = 10;
    assert!(z.setmin(0));
    assert_eq!((y, z), (0, 0));
}
