use rmenu::font::{
    cache_text, font_plan, load_faces, parse_spec, query_family, read_cache_text, system_chain, weight_of, FontPlan,
    FontSpec,
};
use std::path::PathBuf;

fn px(spec: &FontSpec) -> Option<f32> {
    spec.size.as_ref().map(|z| {
        let n: f32 = z.number.parse().expect("a size token is a number");
        if z.px {
            n
        } else {
            n * 96.0 / 72.0
        }
    })
}

fn chars(s: &str) -> Vec<char> {
    s.chars().collect()
}

#[test]
fn parse_family_spec_extracts_name_weight_size() {
    let s = parse_spec("SourceCodePro medium 13");
    assert_eq!(s.family, "SourceCodePro");
    assert_eq!(s.weight, 500);
    assert_eq!(px(&s), Some(13.0 * 96.0 / 72.0));
}

#[test]
fn px_suffix_is_absolute_pixels_not_points() {
    assert_eq!(px(&parse_spec("monospace 12px")), Some(12.0));
    assert_eq!(px(&parse_spec("monospace 12")), Some(16.0));
}

#[test]
fn parse_family_plain_and_multiword() {
    let s = parse_spec("monospace");
    assert_eq!(s.family, "monospace");
    assert_eq!(s.weight, 400);
    assert_eq!(px(&s), None);
    let s = parse_spec("Source Code Pro bold 12.5");
    assert_eq!(s.family, "Source Code Pro");
    assert_eq!(s.weight, 700);
    assert_eq!(px(&s), Some(12.5 * 96.0 / 72.0));
}

#[test]
fn unknown_style_word_stays_in_family() {
    assert_eq!(parse_spec("Fira Code Extra").family, "Fira Code Extra");
}

#[test]
fn only_the_first_number_is_the_size() {
    let s = parse_spec("Noto 10 Sans 12 PX");
    assert_eq!(s.family, "Noto Sans 12 PX");
    assert_eq!(px(&s), Some(10.0 * 96.0 / 72.0));
    let s = parse_spec("Mono 1e1PX");
    assert_eq!(px(&s), Some(10.0));
    let s = parse_spec("Mono .5 x.5");
    assert_eq!(s.family, "Mono x.5");
    assert_eq!(s.size.as_ref().map(|z| z.number.as_str()), Some(".5"));
}

#[test]
fn style_words_name_fontdb_weights() {
    let w = |s: &str| weight_of(&chars(s));
    assert_eq!(w("Thin"), Some(100));
    assert_eq!(w("light"), Some(300));
    assert_eq!(w("Regular"), Some(400));
    assert_eq!(w("SemiBold"), Some(600));
    assert_eq!(w("heavy"), Some(800));
    assert_eq!(w("BLACK"), Some(900));
    assert_eq!(w("italic"), None);
}

#[test]
fn font_cache_round_trips_and_invalidates_on_key_change() {
    let key = vec![("/usr/share/fonts".to_string(), 1_700_000_000u64, 123_456_789u32)];
    let chain = vec![("/usr/share/fonts/a.ttf".to_string(), 3u32)];
    let text = cache_text(&key, &chain).expect("cacheable");
    assert_eq!(read_cache_text(&text, &key), Some(chain));
    let stale = vec![("/usr/share/fonts".to_string(), 1_600_000_000u64, 0u32)];
    assert_eq!(read_cache_text(&text, &stale), None);
}

#[test]
fn font_cache_text_format() {
    let key = vec![("/d".to_string(), 5u64, 7u32), ("/e".to_string(), 0u64, 0u32)];
    let chain = vec![("/d/a b.ttc".to_string(), 0u32), ("/e/x\ty.otf".to_string(), 12u32)];
    let text = cache_text(&key, &chain).expect("cacheable");
    assert_eq!(text, "rmenu-font-cache v1\nd\t/d\t5\t7\nd\t/e\t0\t0\nf\t0\t/d/a b.ttc\nf\t12\t/e/x\ty.otf\n");
    assert_eq!(read_cache_text(&text, &key), Some(chain));
    assert_eq!(read_cache_text(&text, &key[..1].to_vec()), None, "fewer key dirs");
    assert_eq!(read_cache_text(&text, &Vec::new()), None);
}

#[test]
fn nothing_to_cache_or_unreadable_paths_write_nothing() {
    let key = vec![("/d".to_string(), 5u64, 7u32)];
    assert_eq!(cache_text(&key, &Vec::new()), None);
    assert_eq!(cache_text(&key, &vec![("/bad\npath".to_string(), 0u32)]), None);
}

#[test]
fn malformed_cache_text_is_refused() {
    let key = vec![("/d".to_string(), 5u64, 7u32)];
    assert_eq!(read_cache_text("", &key), None);
    assert_eq!(read_cache_text("rmenu-font-cache v2\nd\t/d\t5\t7\nf\t0\t/a\n", &key), None);
    assert_eq!(read_cache_text("rmenu-font-cache v1\nd\t/d\t5\t7\n", &key), None, "empty chain");
    assert_eq!(read_cache_text("rmenu-font-cache v1\nd\t/d\t5\t7\nf\tx\t/a\n", &key), None);
    assert_eq!(
        read_cache_text("rmenu-font-cache v1\nd\t/d\t5\t7\nf\t+2\t/a\n", &key),
        Some(vec![("/a".to_string(), 2u32)]),
        "u32::from_str accepts a leading plus"
    );
}

#[test]
fn query_family_finds_a_face_exactly_when_the_family_is_loaded() {
    let mut db = fontdb::Database::new();
    assert!(query_family(&db, "DejaVu Sans", 400).is_none());
    db.load_system_fonts();
    let families: Vec<String> =
        db.faces().filter_map(|f| f.families.first().map(|(n, _)| n.clone())).collect();
    for name in &families {
        assert!(query_family(&db, name, 700).is_some());
        assert!(query_family(&db, name, 400).is_some());
    }
    assert!(query_family(&db, "No Such Family 0x7f", 400).is_none());
}

#[test]
fn font_plan_picks_file_family_or_chain() {
    let chain = vec![(PathBuf::from("/f/a.ttc"), 2), (PathBuf::from("/f/b.ttf"), 0)];
    match font_plan(Some("  /x/y.ttf \n"), true, Vec::new()) {
        FontPlan::File(f) => assert_eq!(f, "/x/y.ttf"),
        _ => panic!("a readable -f file is used as is"),
    }
    match font_plan(Some(" Noto Sans Mono bold 12 "), false, chain.clone()) {
        FontPlan::Family(f, fb) => {
            assert_eq!(f, "Noto Sans Mono bold 12");
            assert_eq!(fb, chain);
        }
        _ => panic!("a family spec falls back on the whole chain"),
    }
    match font_plan(None, false, chain.clone()) {
        FontPlan::Chain(h, fb) => {
            assert_eq!(h, chain[0]);
            assert_eq!(fb, chain[1..].to_vec());
        }
        _ => panic!("no spec takes the chain's head"),
    }
    assert!(matches!(font_plan(None, false, Vec::new()), FontPlan::NoFont));
}

#[test]
fn load_faces_needs_a_primary_and_skips_bad_fallbacks() {
    assert!(load_faces(vec![1, 2, 3], 0, Vec::new()).is_none());
    let mut db = fontdb::Database::new();
    db.load_system_fonts();
    let Some(face) = db.faces().next() else { return };
    let (bytes, index) = db.with_face_data(face.id, |d, i| (d.to_vec(), i)).expect("face data");
    let (_, rest) = load_faces(
        bytes.clone(),
        index,
        vec![(vec![0u8; 10], 0), (bytes.clone(), index), (Vec::new(), 0)],
    )
    .expect("a system face parses");
    assert_eq!(rest.len(), 1);
    assert!(load_faces(vec![0u8; 10], 0, vec![(bytes, index)]).is_none());
}

#[test]
fn system_chain_holds_only_file_faces_of_the_database() {
    let empty = fontdb::Database::new();
    assert!(system_chain(&empty).is_empty());
    let mut db = fontdb::Database::new();
    db.load_system_fonts();
    let chain = system_chain(&db);
    let files: Vec<(PathBuf, u32)> = db
        .faces()
        .filter_map(|f| match &f.source {
            fontdb::Source::File(p) => Some((p.clone(), f.index)),
            _ => None,
        })
        .collect();
    if !files.is_empty() {
        assert!(!chain.is_empty());
    }
    for e in &chain {
        assert!(files.contains(e));
    }
}

#[test]
fn chain_takes_one_cjk_face_only() {
    // CJK families are alternates, usually faces of one large collection: the
    // chain never holds more than one large face (over 8 MB of font data).
    let mut db = fontdb::Database::new();
    db.load_system_fonts();
    let chain = system_chain(&db);
    let size_of = |(p, i): &(PathBuf, u32)| {
        db.faces()
            .find(|f| {
                f.index == *i
                    && matches!(&f.source, fontdb::Source::File(q) | fontdb::Source::SharedFile(q, _) if q == p)
            })
            .and_then(|f| db.with_face_data(f.id, |d, _| d.len()))
            .unwrap_or(0)
    };
    let big = chain.iter().filter(|e| size_of(e) > 8_000_000).count();
    assert!(big <= 1, "at most one large (CJK) face in chain: {chain:?}");
}
