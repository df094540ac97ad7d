use rmenu::icon::{
    decode_icon, has_known_ext, icon_candidates, icon_dirs_from, icon_is_path, theme_order, unpremultiply, IconData,
};

#[test]
fn known_extensions_are_recognised() {
    assert!(has_known_ext("firefox.png"));
    assert!(has_known_ext("a.jpeg") && has_known_ext("b.webp") && has_known_ext("c.svg"));
    assert!(!has_known_ext("firefox"));
    assert!(!has_known_ext("archive.tar"));
    assert!(!has_known_ext("png"), "the extension needs its dot");
}

#[test]
fn themes_are_searched_preferred_first_then_by_name() {
    let subdirs: Vec<String> = ["zed", "hicolor", "Breeze", "GNOME", "abc"].iter().map(|s| s.to_string()).collect();
    assert_eq!(theme_order(Some("GNOME"), &subdirs), vec!["GNOME", "Adwaita", "hicolor", "Breeze", "abc", "zed"]);
    assert_eq!(theme_order(Some("hicolor"), &Vec::new()), vec!["hicolor", "Adwaita"]);
    assert_eq!(theme_order(None, &Vec::new()), vec!["Adwaita", "hicolor"]);
}

#[test]
fn candidates_follow_the_lookup_order() {
    let themes = vec!["hicolor".to_string()];
    let c = icon_candidates("/usr/share/icons", &themes, "fcitx-wbpy");
    assert_eq!(c.len(), 9 * 7 * 5 + 1 + 5);
    assert_eq!(c[0], "/usr/share/icons/hicolor/48x48/apps/fcitx-wbpy.png");
    assert_eq!(c[1], "/usr/share/icons/hicolor/48x48/apps/fcitx-wbpy.svg");
    assert_eq!(c[5], "/usr/share/icons/hicolor/48x48/mimetypes/fcitx-wbpy.png");
    assert_eq!(c[35], "/usr/share/icons/hicolor/64x64/apps/fcitx-wbpy.png");
    assert_eq!(c[315], "/usr/share/icons/hicolor/scalable/apps/fcitx-wbpy.svg");
    assert_eq!(c[316], "/usr/share/icons/fcitx-wbpy.png");
    assert_eq!(c[320], "/usr/share/icons/fcitx-wbpy.webp");
}

#[test]
fn a_file_name_icon_is_looked_up_as_is() {
    let themes = vec!["Adwaita".to_string(), "hicolor".to_string()];
    let c = icon_candidates("/usr/share/pixmaps", &themes, "app.svg");
    assert_eq!(c.len(), 2 * (9 * 7 + 1) + 5);
    assert_eq!(c[0], "/usr/share/pixmaps/Adwaita/48x48/apps/app.svg");
    assert_eq!(c[63], "/usr/share/pixmaps/app.svg");
    assert_eq!(c[64], "/usr/share/pixmaps/hicolor/48x48/apps/app.svg");
    assert_eq!(c[128], "/usr/share/pixmaps/app.svg.png");
}

#[test]
fn icon_dirs_follow_the_icon_theme_spec() {
    let d = icon_dirs_from(None, Some("/home/u".into()), Some("/usr/share".into()));
    assert_eq!(
        d,
        vec![
            "/home/u/.local/share/icons",
            "/usr/share/icons",
            "/usr/local/share/icons",
            "/usr/share/icons",
            "/usr/share/pixmaps",
        ]
    );
}

#[test]
fn rendered_pixels_lose_their_premultiplied_alpha() {
    let data = [100u8, 50, 0, 200, 9, 9, 9, 0, 255, 255, 255, 255, 1];
    assert_eq!(unpremultiply(&data), vec![127, 63, 0, 200, 0, 0, 0, 0, 255, 255, 255, 255]);
}

fn png_bytes() -> Vec<u8> {
    let img = image::RgbaImage::from_raw(2, 1, vec![255, 0, 0, 255, 0, 0, 255, 128]).expect("2x1 image");
    let mut out = std::io::Cursor::new(Vec::new());
    img.write_to(&mut out, image::ImageFormat::Png).expect("png encodes");
    out.into_inner()
}

const SVG: &str = r#"<svg xmlns="http://www.w3.org/2000/svg" width="4" height="2"><rect width="4" height="2" fill="red"/></svg>"#;

#[test]
fn icon_decoding_prefers_raster_then_svg_by_name() {
    match decode_icon(&png_bytes(), "a.svg") {
        IconData::Raster(w, h, px) => {
            assert_eq!((w, h), (2, 1));
            assert_eq!(px, vec![255, 0, 0, 255, 0, 0, 255, 128]);
        }
        _ => panic!("png bytes are a raster image whatever the name"),
    }
    assert!(matches!(decode_icon(SVG.as_bytes(), "/i/a.svg"), IconData::Svg(_)));
    assert!(matches!(decode_icon(SVG.as_bytes(), "/i/a.png"), IconData::Nothing));
    assert!(matches!(decode_icon(b"not an image", "/i/a.svg"), IconData::Nothing));
}

#[test]
fn icon_specs_with_a_slash_are_paths() {
    assert!(icon_is_path("/usr/share/pixmaps/x.png"));
    assert!(icon_is_path("icons/x"));
    assert!(!icon_is_path("firefox"));
}
