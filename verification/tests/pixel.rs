use spyglass::pixel::{position_count, PixelBlock, Rgba};

fn shade(value: u8) -> Rgba {
    Rgba { r: value, g: value, b: value, a: 255 }
}

fn ramp(width: u32, height: u32) -> PixelBlock {
    let pixels: Vec<Rgba> = (0..width * height).map(|i| shade(i as u8)).collect();
    PixelBlock::new(width, height, pixels).unwrap()
}

#[test]
fn test_channels_by_index() {
    let pixel = Rgba { r: 1, g: 2, b: 3, a: 4 };
    assert_eq!(pixel.get_channel(0), 1);
    assert_eq!(pixel.get_channel(1), 2);
    assert_eq!(pixel.get_channel(2), 3);
    let colour = pixel.to_rgb();
    assert_eq!((colour.r, colour.g, colour.b), (1, 2, 3));
}

#[test]
fn test_new_wants_one_pixel_for_each_position() {
    assert!(PixelBlock::new(4, 8, vec![shade(0); 32]).is_some());
    assert!(PixelBlock::new(4, 8, vec![shade(0); 31]).is_none());
    assert!(PixelBlock::new(4, 8, vec![shade(0); 33]).is_none());
    assert!(PixelBlock::new(0, 8, vec![]).is_some());
    assert!(PixelBlock::new(0, 0, vec![shade(0)]).is_none());
    let block = PixelBlock::new(2, 1, vec![shade(7), shade(9)]).unwrap();
    assert_eq!(block.width, 2);
    assert_eq!(block.height, 1);
    assert_eq!(block.pixels, vec![shade(7), shade(9)]);
    assert!(block.is_well_formed());
}

#[test]
fn test_is_well_formed() {
    let broken = PixelBlock { width: 2, height: 2, pixels: vec![shade(0); 3] };
    assert!(!broken.is_well_formed());
    let whole = PixelBlock { width: 2, height: 2, pixels: vec![shade(0); 4] };
    assert!(whole.is_well_formed());
}

#[test]
fn test_position_count() {
    assert_eq!(position_count(4, 8), 32);
    assert_eq!(position_count(0, 8), 0);
    assert_eq!(position_count(0xffff_ffff, 0xffff_ffff), 0xffff_fffe_0000_0001);
}

#[test]
fn test_get_pixel_is_row_major() {
    let block = ramp(4, 8);
    assert_eq!(block.get_pixel(0, 0), shade(0));
    assert_eq!(block.get_pixel(3, 0), shade(3));
    assert_eq!(block.get_pixel(0, 1), shade(4));
    assert_eq!(block.get_pixel(3, 7), shade(31));
}

#[test]
fn test_sub_block() {
    let image = ramp(6, 4);
    let part = image.sub_block(2, 1, 3, 2);
    assert_eq!(part.width, 3);
    assert_eq!(part.height, 2);
    assert_eq!(
        part.pixels,
        vec![shade(8), shade(9), shade(10), shade(14), shade(15), shade(16)]
    );
    let whole = image.sub_block(0, 0, 6, 4);
    assert_eq!(whole, image);
    let nothing = image.sub_block(6, 4, 0, 0);
    assert_eq!(nothing.pixels, vec![]);
    let column = image.sub_block(5, 0, 1, 4);
    assert_eq!(column.pixels, vec![shade(5), shade(11), shade(17), shade(23)]);
}
