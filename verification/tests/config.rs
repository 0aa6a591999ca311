use fractal::color::Color;
use fractal::config::Backend;
use fractal::config::FullscreenType;
use fractal::config::ModuleConfig;
use fractal::config::NumSamples;
use fractal::config::WindowSetup;
use fractal::console::Tile;
use fractal::geometry::Point;
use fractal::geometry::PointSet;
use fractal::parsing::DiceParseError;
use fractal::parsing::DiceType;

#[test]
fn num_samples_from_u32() {
    assert_eq!(NumSamples::from_u32(0), Some(NumSamples::Zero));
    assert_eq!(NumSamples::from_u32(1), Some(NumSamples::One));
    assert_eq!(NumSamples::from_u32(2), Some(NumSamples::Two));
    assert_eq!(NumSamples::from_u32(4), Some(NumSamples::Four));
    assert_eq!(NumSamples::from_u32(8), Some(NumSamples::Eight));
    assert_eq!(NumSamples::from_u32(16), Some(NumSamples::Sixteen));
    assert_eq!(NumSamples::from_u32(3), None);
    assert_eq!(NumSamples::from_u32(32), None);
}

#[test]
fn backend_version_switching() {
    let gl = Backend::default();
    assert_eq!(gl, Backend::OpenGL { major: 3, minor: 2 });
    assert_eq!(gl.version(4, 5), Backend::OpenGL { major: 4, minor: 5 });
    assert_eq!(gl.gles(), Backend::OpenGLES { major: 3, minor: 2 });
    assert_eq!(gl.gles().gl(), gl);
    assert_eq!(gl.gl(), gl);
    let es = Backend::OpenGLES { major: 3, minor: 1 };
    assert_eq!(es.version(2, 0), Backend::OpenGLES { major: 2, minor: 0 });
    assert_eq!(es.gles(), es);
}

#[test]
fn module_config_builders() {
    let m = ModuleConfig::default();
    assert!(m.gamepad && m.audio);
    let m = m.gamepad(false);
    assert!(!m.gamepad && m.audio);
    let m = m.audio(false);
    assert!(!m.gamepad && !m.audio);
}

#[test]
fn window_setup_default() {
    let w = WindowSetup::default();
    assert_eq!(w.title, "A good game");
    assert_eq!(w.samples, NumSamples::Zero);
    assert!(w.vsync);
    assert_eq!(w.icon, "");
    assert!(w.srgb);
    let _ = FullscreenType::Windowed;
}

#[test]
fn dice_type_construction() {
    assert_eq!(
        DiceType::new(3, 6, -2),
        DiceType { n_dice: 3, die_type: 6, bonus: -2 }
    );
    assert_eq!(DiceType::default(), DiceType::new(1, 4, 0));
    assert_eq!(DiceParseError.message(), "Invalid dice string");
}

#[test]
fn tile_holds_its_fields() {
    let t = Tile { glyph: 64, fg: Color::new(0xFFFFFF), bg: Color::new(0) };
    assert_eq!(t.glyph, 64);
    assert_eq!(t.fg.tuple(), (255, 255, 255));
    assert_eq!(t.bg.tuple(), (0, 0, 0));
}

#[test]
fn point_set_deduplicates() {
    let mut s = PointSet::new();
    assert_eq!(s.len(), 0);
    s.insert(Point::new(1, 2));
    s.insert(Point::new(1, 2));
    s.insert(Point::new(3, 4));
    assert_eq!(s.len(), 2);
    assert!(s.contains(Point::new(1, 2)));
    assert!(!s.contains(Point::new(2, 1)));
    let v = s.into_vec();
    assert_eq!(v.len(), 2);
}
