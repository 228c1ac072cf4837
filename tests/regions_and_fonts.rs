use justlatex::font::{patch_font, FontError};
use justlatex::svg::{decode_font, decode_fonts, embedded_fonts, split_svgs, SvgError};
use justlatex::region::{collect_regions, GlyphBox, PageRegion, Region, RegionError};

fn gbox(page: u32, h: i32, v: i32, width: i32, height: i32, depth: i32) -> GlyphBox {
    GlyphBox { page, h, v, width, height, depth }
}

#[test]
fn regions_fold_extent_and_baseline() {
    let mut seen = Vec::new();
    let boxes = vec![gbox(1, 10, 100, 50, 8, 2), gbox(1, 0, 200, 70, 5, 1)];
    let r = collect_regions(&mut seen, &boxes, 0, true).unwrap();
    assert_eq!(
        r,
        vec![PageRegion {
            page: 1,
            region: Region { x_min: 0, x_max: 70, y_min: 92, y_max: 201, baseline: 200, baseline_width: 70 },
        }]
    );
    assert_eq!(seen.len(), 2);
}

#[test]
fn narrower_box_keeps_baseline() {
    let mut seen = Vec::new();
    let boxes = vec![gbox(1, 10, 100, 50, 8, 2), gbox(1, 0, 300, 20, 5, 1)];
    let r = collect_regions(&mut seen, &boxes, 0, true).unwrap();
    assert_eq!(r[0].region.baseline, 100);
    assert_eq!(r[0].region.baseline_width, 50);
    assert_eq!(r[0].region.y_max, 301);
}

#[test]
fn repeated_box_counts_once() {
    let b = gbox(1, 10, 100, 50, 8, 2);
    let mut seen = Vec::new();
    let once = collect_regions(&mut seen, &vec![b], 0, true).unwrap();
    let mut seen2 = Vec::new();
    let twice = collect_regions(&mut seen2, &vec![b, b], 0, true).unwrap();
    assert_eq!(once, twice);
    assert_eq!(seen2, vec![b]);
}

#[test]
fn box_seen_by_an_earlier_fragment_is_skipped() {
    let b = gbox(1, 10, 100, 50, 8, 2);
    let mut seen = vec![b];
    assert_eq!(collect_regions(&mut seen, &vec![b], 0, true), Err(RegionError::NoBoxes));
}

#[test]
fn zero_area_box_is_ignored() {
    let mut seen = Vec::new();
    let boxes = vec![gbox(1, 10, 100, 50000, 8000, 2000), gbox(1, -1000, 5000, 0, 900, 900)];
    let r = collect_regions(&mut seen, &boxes, 4295, true).unwrap();
    assert_eq!(r[0].region.x_min, 10);
    assert_eq!(r[0].region.y_max, 2100);
    assert_eq!(seen.len(), 1);
    let mut seen2 = Vec::new();
    let only_small = vec![gbox(1, 0, 0, 1, 1, 0)];
    assert_eq!(collect_regions(&mut seen2, &only_small, 4295, false), Err(RegionError::NoBoxes));
}

#[test]
fn inline_math_on_two_pages_fails() {
    let mut seen = Vec::new();
    let boxes = vec![gbox(1, 10, 100, 50, 8, 2), gbox(2, 10, 100, 50, 8, 2)];
    assert_eq!(collect_regions(&mut seen, &boxes, 0, true), Err(RegionError::SpansPages));
}

#[test]
fn display_math_on_two_pages_gives_two_ordered_regions() {
    let mut seen = Vec::new();
    let boxes = vec![gbox(2, 5, 50, 40, 4, 1), gbox(1, 10, 100, 50, 8, 2)];
    let r = collect_regions(&mut seen, &boxes, 0, false).unwrap();
    assert_eq!(r.len(), 2);
    assert_eq!(r[0].page, 1);
    assert_eq!(r[1].page, 2);
    assert_eq!(r[1].region, Region { x_min: 5, x_max: 45, y_min: 46, y_max: 51, baseline: 50, baseline_width: 40 });
}

#[test]
fn no_boxes_fails() {
    let mut seen = Vec::new();
    assert_eq!(collect_regions(&mut seen, &vec![], 0, false), Err(RegionError::NoBoxes));
}

/// A font with one table, `name`, holding one Windows-platform family record.
fn small_font(tag: &[u8; 4], format: u16) -> Vec<u8> {
    let mut f = vec![0, 1, 0, 0, 0, 1, 0, 0, 0, 0, 0, 0];
    f.extend_from_slice(tag);
    f.extend_from_slice(&[0, 0, 0, 0]);
    f.extend_from_slice(&28u32.to_be_bytes());
    f.extend_from_slice(&20u32.to_be_bytes());
    f.extend_from_slice(&format.to_be_bytes());
    f.extend_from_slice(&[0, 1, 0, 18]);
    f.extend_from_slice(&[0, 3, 0, 1, 4, 9, 0, 1, 0, 2, 0, 0]);
    f.extend_from_slice(b"AB");
    f
}

#[test]
fn patch_font_adds_missing_records() {
    let font = small_font(b"name", 0);
    let patched = patch_font(&font, "Fam").unwrap();
    let mut expected = font.clone();
    expected[20..24].copy_from_slice(&48u32.to_be_bytes());
    expected[24..28].copy_from_slice(&47u32.to_be_bytes());
    expected.extend_from_slice(&[0, 0, 0, 3, 0, 42]);
    expected.extend_from_slice(&[0, 3, 0, 1, 4, 9, 0, 1, 0, 2, 0, 0]);
    expected.extend_from_slice(&[0, 1, 0, 0, 0, 0, 0, 1, 0, 3, 0, 2]);
    expected.extend_from_slice(&[0, 1, 0, 0, 0, 0, 0, 6, 0, 3, 0, 2]);
    expected.extend_from_slice(b"ABFam");
    assert_eq!(patched, expected);
}

#[test]
fn patching_twice_changes_nothing() {
    let once = patch_font(&small_font(b"name", 0), "Fam").unwrap();
    let twice = patch_font(&once, "Fam").unwrap();
    assert_eq!(once, twice);
    assert_eq!(u16::from_be_bytes([twice[48 + 2], twice[48 + 3]]), 3);
}

#[test]
fn patch_font_errors() {
    assert_eq!(patch_font(&small_font(b"head", 0), "F"), Err(FontError::MissingNameTable));
    assert_eq!(patch_font(&small_font(b"name", 1), "F"), Err(FontError::UnsupportedNameTableVersion));
    assert_eq!(patch_font(&[0, 1, 0], "F"), Err(FontError::Truncated));
    let mut cut = small_font(b"name", 0);
    cut.truncate(40);
    assert_eq!(patch_font(&cut, "F"), Err(FontError::Truncated));
}

#[test]
fn split_svgs_cuts_before_each_declaration() {
    let a = "<?xml version='1.0'?><svg>a</svg>\n";
    let b = "<?xml version='1.0'?><svg>b</svg>";
    let stream = format!("{a}{b}");
    let parts = split_svgs(stream.as_bytes()).unwrap();
    assert_eq!(parts, vec![a.as_bytes(), b.as_bytes()]);
    let one = split_svgs(b.as_bytes()).unwrap();
    assert_eq!(one, vec![b.as_bytes()]);
}

#[test]
fn decode_font_patches_the_decoded_font() {
    let font = small_font(b"name", 0);
    let payload = base64::encode(&font);
    assert_eq!(decode_font("Fam", &payload).unwrap(), patch_font(&font, "Fam").unwrap());
    assert_ne!(decode_font("Fam", &payload).unwrap(), font);
    assert_eq!(decode_font("Fam", "not base64!"), Err(SvgError::Base64));
    assert_eq!(decode_font("Fäm", &payload), Err(SvgError::Family));
    let head = base64::encode(small_font(b"head", 0));
    assert_eq!(decode_font("Fam", &head), Err(SvgError::Font(FontError::MissingNameTable)));
}

#[test]
fn too_long_family_is_refused() {
    let family = "F".repeat(70000);
    assert_eq!(patch_font(&small_font(b"name", 0), &family), Err(FontError::TooLarge));
}

#[test]
fn malformed_svg_stream_fails() {
    assert_eq!(split_svgs(b"<?xml version='1.0'?><svg></g>"), Err(SvgError::Xml));
}

#[test]
fn fonts_embedded_in_cdata_are_found_and_patched() {
    let font = small_font(b"name", 0);
    let payload = base64::encode(&font);
    let svg = format!(
        "<?xml version='1.0'?><svg><style><![CDATA[@font-face{{font-family:cmr10;src:url(data:application/x-font-ttf;base64,{payload}) format('truetype');}}]]></style></svg>"
    );
    let fonts = embedded_fonts(svg.as_bytes()).unwrap();
    assert_eq!(fonts, vec![patch_font(&font, "cmr10").unwrap()]);
    assert_eq!(embedded_fonts(b"<?xml version='1.0'?><svg/>").unwrap(), Vec::<Vec<u8>>::new());
}

#[test]
fn decode_fonts_needs_three_groups() {
    let faces = vec![vec!["F".to_string(), "ttf".to_string()]];
    assert_eq!(decode_fonts(&faces), Err(SvgError::Pattern));
}

#[test]
fn two_documents_split_at_their_declarations() {
    let bytes = b"<?xml version='1.0'?><svg/><?xml version='1.0'?><svg/>";
    let parts = split_svgs(bytes).unwrap();
    assert_eq!(parts, vec![&bytes[0..27], &bytes[27..54]]);
    assert_eq!(split_svgs(b"<svg/>").unwrap(), Vec::<&[u8]>::new());
}

#[test]
fn a_bad_embedded_font_fails_the_parse() {
    let svg = "<?xml version='1.0'?><svg><style><![CDATA[@font-face{font-family:cmr10;src:url(data:application/x-font-ttf;base64,AAAB) format('truetype');}]]></style></svg>";
    assert_eq!(embedded_fonts(svg.as_bytes()), Err(SvgError::Font(FontError::Truncated)));
}
