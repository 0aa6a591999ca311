use fractal::color::Color;
use fractal::color::RGB;
use fractal::color::snow;
use fractal::rex::XpColor;

#[test]
fn new() {
    assert_eq!(Color::new(1).0, 1);
    assert_eq!(Color::new(u32::MIN).0, u32::MIN);
    assert_eq!(Color::new(u32::MAX).0, u32::MAX);
}

#[test]
fn default() {
    assert_eq!(Color::default(), (0, 0, 0).into());
}

#[test]
fn from_rgb() {
    assert_eq!(Color::from_rgb(255, 0, 0).0, 0xFF0000);
    assert_eq!(Color::from_rgb(0, 255, 0).0, 0x00FF00);
    assert_eq!(Color::from_rgb(0, 0, 255).0, 0x0000FF);
}

#[test]
fn r() {
    assert_eq!(Color::new(0x336123).r(), 0x33);
}

#[test]
fn g() {
    assert_eq!(Color::new(0x336123).g(), 0x61);
}

#[test]
fn b() {
    assert_eq!(Color::new(0x336123).b(), 0x23);
}

#[test]
fn tuple() {
    assert_eq!(Color::new(0x336123).tuple(), (0x33, 0x61, 0x23));
}

#[test]
fn from() {
    assert_eq!(Color::from(7i32).0, 7);
    assert_eq!(Color::from(7u32).0, 7);
    assert_eq!(Color::from(7u64).0, 7);
}

#[test]
fn named_colors() {
    assert_eq!(snow(), (255, 250, 250).into());
}

#[test]
fn from_negative_reinterprets() {
    assert_eq!(Color::from(-1i32).0, u32::MAX);
}

#[test]
fn from_u64_truncates() {
    assert_eq!(Color::from(0x1_0000_0001u64).0, 1);
}

#[test]
fn rgb_construction() {
    assert_eq!(RGB::new(), RGB { r: 0, g: 0, b: 0 });
    assert_eq!(RGB::default(), RGB::new());
    let c = RGB::from_u8(10, 20, 30);
    assert_eq!((c.r, c.g, c.b), (10, 20, 30));
    let xp = c.to_xp();
    assert_eq!((xp.r, xp.g, xp.b), (10, 20, 30));
    assert_eq!(RGB::from_xp(XpColor::new(10, 20, 30)), c);
}

#[test]
fn rgb_greyscale() {
    // Bright colors saturate every channel.
    assert_eq!(
        RGB::from_u8(200, 200, 200).to_greyscale(),
        RGB::from_u8(255, 255, 255)
    );
    // The weights sum to one: for (1, 1, 1) the level is exactly
    // (2126 + 7152 + 722) * 255 / 10000 = 255.
    assert_eq!(RGB::from_u8(1, 1, 1).to_greyscale(), RGB::from_u8(255, 255, 255));
    assert_eq!(RGB::from_u8(0, 0, 0).to_greyscale(), RGB::from_u8(0, 0, 0));
    // Exactly one unit of blue alone: 722 * 255 / 10000 = 18.
    assert_eq!(RGB::from_u8(0, 0, 1).to_greyscale(), RGB::from_u8(18, 18, 18));
}
