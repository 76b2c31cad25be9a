use spyglass::geometry::Rectangle;

#[test]
fn test_from_tuple() {
    let rect = Rectangle::from_tuple((8, 16));
    assert_eq!(rect.width, 8);
    assert_eq!(rect.height, 16);
    assert_eq!(rect, Rectangle { width: 8, height: 16 });
}

#[test]
fn test_from_termsize_leaves_a_row_for_the_prompt() {
    let rect = Rectangle::from_termsize(80, 24);
    assert_eq!(rect, Rectangle { width: 80, height: 23 });
    assert_eq!(Rectangle::from_termsize(0, 1), Rectangle { width: 0, height: 0 });
    assert_eq!(Rectangle::from_termsize(65535, 65535), Rectangle { width: 65535, height: 65534 });
}

#[test]
fn test_fits_cell() {
    assert!(Rectangle::from_tuple((4, 8)).fits_cell());
    assert!(Rectangle::from_tuple((8, 16)).fits_cell());
    assert!(Rectangle::from_tuple((4, 4)).fits_cell());
    assert!(Rectangle::from_tuple((1, 1)).fits_cell());
    assert!(Rectangle::from_tuple((128, 1)).fits_cell());
    assert!(Rectangle::from_tuple((1, 128)).fits_cell());
    assert!(!Rectangle::from_tuple((0, 8)).fits_cell());
    assert!(!Rectangle::from_tuple((4, 0)).fits_cell());
    assert!(!Rectangle::from_tuple((8, 17)).fits_cell());
    assert!(!Rectangle::from_tuple((129, 1)).fits_cell());
    assert!(!Rectangle::from_tuple((16, 16)).fits_cell());
    assert!(!Rectangle::from_tuple((65536, 65536)).fits_cell());
}

#[test]
fn test_positions() {
    assert_eq!(Rectangle::from_tuple((4, 8)).positions(), 32);
    assert_eq!(Rectangle::from_tuple((8, 16)).positions(), 128);
    assert_eq!(Rectangle::from_tuple((4, 4)).positions(), 16);
    assert_eq!(Rectangle::from_tuple((1, 1)).positions(), 1);
}

#[test]
fn test_in_pixels() {
    let screen = Rectangle::from_termsize(80, 24);
    let cell = Rectangle::from_tuple((4, 8));
    assert_eq!(screen.in_pixels(&cell), Some(Rectangle { width: 320, height: 184 }));
    let wide = Rectangle::from_tuple((0x4000_0000, 1));
    assert_eq!(wide.in_pixels(&cell), None);
    let high = Rectangle::from_tuple((1, 0x2000_0000));
    assert_eq!(high.in_pixels(&cell), None);
    let edge = Rectangle::from_tuple((0x3fff_ffff, 0x1fff_ffff));
    assert_eq!(
        edge.in_pixels(&cell),
        Some(Rectangle { width: 0xffff_fffc, height: 0xffff_fff8 })
    );
}
