use dalbrack::color::{blend, Color};

#[test]
fn blend_with_itself_is_identity() {
    let colors = [
        Color::RGB(0, 0, 0),
        Color::RGB(255, 255, 255),
        Color::RGB(178, 111, 45),
        Color::RGB(42, 42, 55),
        Color::RGB(1, 200, 3),
    ];
    for c in colors {
        for p in [0u32, 13, 50, 60, 100] {
            assert_eq!(blend(c, c, p), c, "{c:?} at {p}%");
        }
    }
}

#[test]
fn blend_red_and_blue() {
    assert_eq!(blend(Color::RGB(255, 0, 0), Color::RGB(0, 0, 255), 50), Color::RGB(128, 0, 128));
}

#[test]
fn blend_black_and_white() {
    assert_eq!(blend(Color::RGB(0, 0, 0), Color::RGB(255, 255, 255), 50), Color::RGB(128, 128, 128));
}

#[test]
fn blend_weights_are_full_at_the_ends() {
    let a = Color::RGB(178, 111, 45);
    let b = Color::RGB(0, 80, 200);
    assert_eq!(blend(a, b, 100), a);
    assert_eq!(blend(a, b, 0), b);
}
