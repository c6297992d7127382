use reader_core::geometry::{ContentRect, NormalizedRect, PageGeometry, normalize_rect, NORM_ONE};
use reader_core::text_layer::{
    extract_all_character_bounds, extract_text_bounds, page_text, point_to_content,
    point_tolerances, snap_to_word_start, text_near_point_result, PageChar,
};

fn sample_page() -> PageGeometry {
    PageGeometry { left: 0, bottom: 0, width: 500000, height: 1000000 }
}

#[test]
fn normalize_rect_flips_and_scales() {
    let g = sample_page();
    let r = ContentRect { left: 100000, top: 900000, right: 200000, bottom: 800000 };
    let n = normalize_rect(&g, &r);
    assert_eq!(n, NormalizedRect { left: 200000, top: 100000, right: 400000, bottom: 200000 });
}

#[test]
fn normalize_rect_always_ordered_and_clamped() {
    let g = sample_page();
    // Inverted and out-of-page bounds still give an ordered rectangle in the
    // unit square.
    let r = ContentRect { left: 600000, top: -50000, right: -10000, bottom: 2000000 };
    let n = normalize_rect(&g, &r);
    assert!(n.left <= n.right && n.right <= NORM_ONE);
    assert!(n.top <= n.bottom && n.bottom <= NORM_ONE);
}

fn ch(code: Option<char>, bounds: Option<ContentRect>) -> PageChar {
    PageChar { code, bounds }
}

fn small_bounds(x: i64) -> ContentRect {
    ContentRect { left: x, top: 500000, right: x + 10000, bottom: 480000 }
}

#[test]
fn extractions_agree_on_shared_indices() {
    let g = sample_page();
    let chars = vec![
        ch(Some('a'), Some(small_bounds(0))),
        ch(Some(' '), Some(small_bounds(10000))),
        ch(None, Some(small_bounds(20000))),
        ch(Some('b'), None),
        ch(Some('c'), Some(small_bounds(30000))),
    ];
    let all = extract_all_character_bounds(&chars, &g);
    assert_eq!(all.len(), chars.len());
    let zero = NormalizedRect { left: 0, top: 0, right: 0, bottom: 0 };
    assert_eq!(all[1], zero);
    assert_eq!(all[2], zero);
    assert_eq!(all[3], zero);
    let range = extract_text_bounds(&chars, &g, 0, 5);
    assert_eq!(range.len(), 2);
    assert_eq!(range[0], all[0]);
    assert_eq!(range[1], all[4]);
}

#[test]
fn text_bounds_empty_on_bad_range() {
    let g = sample_page();
    let chars = vec![ch(Some('a'), Some(small_bounds(0)))];
    assert!(extract_text_bounds(&chars, &g, 3, 2).is_empty());
    assert!(extract_text_bounds(&chars, &g, 1, 5).is_empty());
    assert!(extract_text_bounds(&chars, &g, 0, 0).is_empty());
    // Clipped end is fine.
    assert_eq!(extract_text_bounds(&chars, &g, 0, 99).len(), 1);
}

#[test]
fn page_text_skips_codeless_slots() {
    let chars = vec![
        ch(Some('h'), None),
        ch(None, None),
        ch(Some('i'), Some(small_bounds(0))),
    ];
    assert_eq!(page_text(&chars), "hi".to_string());
}

#[test]
fn snap_stops_after_bounded_lookback() {
    let mut chars = Vec::new();
    for _ in 0..40 {
        chars.push(ch(Some('x'), None));
    }
    // A pick at the end walks back 32 characters at most.
    assert_eq!(snap_to_word_start(&chars, 39), 7);
    let text = text_near_point_result(&chars, Some(39));
    assert_eq!(text.chars().count(), 33);
}

#[test]
fn snap_stops_at_word_boundary() {
    let chars = vec![
        ch(Some('a'), None),
        ch(Some(' '), None),
        ch(Some('b'), None),
        ch(Some('c'), None),
    ];
    assert_eq!(snap_to_word_start(&chars, 3), 2);
    assert_eq!(text_near_point_result(&chars, Some(3)), "bc".to_string());
    assert_eq!(text_near_point_result(&chars, None), "".to_string());
    // An index past the end is pulled onto the last slot first.
    assert_eq!(text_near_point_result(&chars, Some(99)), "bc".to_string());
}

#[test]
fn tolerance_schedule_doubles_four_times() {
    assert_eq!(point_tolerances(), vec![6000i64, 12000, 24000, 48000]);
}

#[test]
fn point_maps_into_content_space() {
    let g = PageGeometry { left: 0, bottom: 0, width: 1000000, height: 2000000 };
    let (x, y) = point_to_content(&g, 500000, 250000);
    assert_eq!(x, 500000);
    assert_eq!(y, 1500000);
    // Out-of-range normalized input is clamped first.
    let (x2, y2) = point_to_content(&g, -5, 2000000);
    assert_eq!(x2, 0);
    assert_eq!(y2, 0);
}
