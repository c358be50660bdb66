use ruling_pen::color::{alpha_blend, rgb2u32, rgb_u8_from_u32, rgb_u8_to_u32, Color, CHANNEL_MAX};
use ruling_pen::dictionary::Dictionary;

#[test]
fn packs_channels_in_rgb_order() {
    assert_eq!(rgb_u8_to_u32(0x12, 0x34, 0x56), 0x0012_3456);
    assert_eq!(rgb2u32(255, 0, 128), 0x00ff_0080);
    assert_eq!(rgb_u8_to_u32(0, 0, 0), 0);
    assert_eq!(rgb_u8_to_u32(255, 255, 255), 0x00ff_ffff);
}

#[test]
fn unpacks_channels_and_ignores_top_byte() {
    assert_eq!(rgb_u8_from_u32(0x0012_3456), (0x12, 0x34, 0x56));
    assert_eq!(rgb_u8_from_u32(0xab12_3456), (0x12, 0x34, 0x56));
}

#[test]
fn color_round_trip_resets_alpha() {
    let mut r: u32 = 0;
    while r < 256 {
        let mut g: u32 = 0;
        while g < 256 {
            let mut b: u32 = 0;
            while b < 256 {
                let c = Color::new(r as u8, g as u8, b as u8, 17);
                let p = c.as_u32();
                let back = Color::from_u32(p);
                assert_eq!(back.as_u32(), p);
                assert_eq!((back.r, back.g, back.b), (c.r, c.g, c.b));
                assert_eq!(back.a, CHANNEL_MAX);
                assert_ne!(back, c);
                b += 15;
            }
            g += 17;
        }
        r += 5;
    }
}

#[test]
fn opaque_blend_replaces_and_transparent_keeps() {
    let dst = Color::new(100, 20, 30, 255);
    let src = Color::new(200, 50, 0, 255);
    assert_eq!(alpha_blend(&dst, &src), src);
    let clear = Color::new(200, 50, 0, 0);
    assert_eq!(alpha_blend(&dst, &clear), Color::new(100, 20, 30, 0));
}

#[test]
fn half_transparent_blend_mixes() {
    let dst = Color::new(100, 0, 255, 255);
    let src = Color::new(200, 255, 0, 128);
    // (100 * 127 + 200 * 128) / 255 = 150, 255 * 128 / 255 = 128, 255 * 127 / 255 = 127
    assert_eq!(alpha_blend(&dst, &src), Color::new(150, 128, 127, 128));
}

#[test]
fn dictionary_holds_its_words() {
    let d = Dictionary::new();
    assert_eq!(d.dictionary.len(), 21);
    assert_eq!(d.dictionary[0], "aaaarrrrgggghhhh");
    assert_eq!(d.dictionary[20], "abbey");
}
