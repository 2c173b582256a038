use remda::color::RGBInt;

#[test]
fn a_colour_holds_its_channels() {
    let color = RGBInt::new(1, 2, 3);
    assert_eq!(color.r, 1);
    assert_eq!(color.g, 2);
    assert_eq!(color.b, 3);
}

#[test]
fn the_default_colour_is_black() {
    assert_eq!(RGBInt::default(), RGBInt::new(0, 0, 0));
}
