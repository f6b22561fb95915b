use qrism::builder::qr::QR;
use qrism::builder::QRBuilder;
use qrism::mask::MaskingPattern;
use qrism::metadata::{Color, ECLevel, Version};

fn hello() -> QR {
    QRBuilder::new("Hello, world!".as_bytes())
        .version(Version::Normal(1))
        .ec_level(ECLevel::L)
        .mask(MaskingPattern::new(0))
        .build()
        .unwrap()
}

#[test]
fn render_text_has_quiet_zone_and_finders() {
    let qr = hello();
    let text = qr.to_str(1);
    let rows: Vec<&str> = text.split('\n').collect();
    assert_eq!(rows.len(), 29 + 1);
    assert_eq!(rows[29], "");
    assert!(rows.iter().take(29).all(|r| r.chars().count() == 29));
    assert!(rows[0].chars().all(|c| c == '█'));
    // The finder's outer ring is dark, the ring inside it light.
    let row4: Vec<char> = rows[4].chars().collect();
    assert_eq!(&row4[..4], &['█', '█', '█', '█']);
    assert_eq!(&row4[4..11], &[' ', ' ', ' ', ' ', ' ', ' ', ' ']);
    assert_eq!(row4[11], '█');
    let row5: Vec<char> = rows[5].chars().collect();
    assert_eq!(&row5[4..7], &[' ', '█', '█']);
}

#[test]
fn render_text_scales_modules() {
    let qr = hello();
    let text = qr.to_str(2);
    let rows: Vec<&str> = text.split('\n').collect();
    assert_eq!(rows.len(), 58 + 1);
    assert!(rows.iter().take(58).all(|r| r.chars().count() == 58));
    assert_eq!(rows[8], rows[9]);
    assert_eq!(qr.to_str(0), "");
}

#[test]
fn render_gray_levels() {
    let qr = hello();
    let px = qr.to_gray_pixels(1);
    assert_eq!(px.len(), 29 * 29);
    assert_eq!(px[0], 255);
    assert_eq!(px[4 * 29 + 4], 0);
    assert_eq!(px[5 * 29 + 5], 255);
    let px3 = qr.to_gray_pixels(3);
    assert_eq!(px3.len(), 87 * 87);
    assert_eq!(px3[12 * 87 + 12], 0);
    assert_eq!(px3[14 * 87 + 14], 0);
    assert_eq!(px3[15 * 87 + 15], 255);
    assert!(qr.to_gray_pixels(0).is_empty());
}

#[test]
fn render_rgb_levels() {
    let qr = hello();
    let px = qr.to_rgb_pixels(1);
    assert_eq!(px.len(), 3 * 29 * 29);
    assert_eq!(&px[0..3], &[255, 255, 255]);
    let k = 3 * (4 * 29 + 4);
    assert_eq!(&px[k..k + 3], &[0, 0, 0]);
}

#[test]
fn render_colour_symbol() {
    let qr = QRBuilder::new("Hello, colourful world!".as_bytes())
        .version(Version::Normal(3))
        .ec_level(ECLevel::M)
        .high_capacity(true)
        .build()
        .unwrap();
    let w = qr.width();
    let side = w + 8;
    let rgb = qr.to_rgb_pixels(1);
    let gray = qr.to_gray_pixels(1);
    for r in 0..w {
        for c in 0..w {
            let clr = qr.get(r as i32, c as i32).color();
            let p = (r + 4) * side + c + 4;
            let bits = clr.bits();
            let expect = [
                if bits & 4 != 0 { 255 } else { 0 },
                if bits & 2 != 0 { 255 } else { 0 },
                if bits & 1 != 0 { 255 } else { 0 },
            ];
            assert_eq!(&rgb[3 * p..3 * p + 3], &expect);
            let level = if clr == Color::White { 255 } else { bits * 35 };
            assert_eq!(gray[p], level);
        }
    }
}
