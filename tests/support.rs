use map_tool::geojson::{next_page, GeoJSONLinks};
use map_tool::ui::UI;

fn link(rel: &str, href: &str) -> GeoJSONLinks {
    GeoJSONLinks { href: href.to_string(), rel: rel.to_string() }
}

#[test]
fn new_reporter_starts_at_epoch() {
    assert_eq!(UI::new().last_print_time, 0);
}

#[test]
fn reports_are_throttled() {
    let mut ui = UI::new();
    assert!(ui.should_print(1_000));
    assert_eq!(ui.last_print_time, 1_000);
    assert!(!ui.should_print(1_199));
    assert_eq!(ui.last_print_time, 1_000);
    assert!(ui.should_print(1_200));
    assert_eq!(ui.last_print_time, 1_200);
    // A clock that went backwards does not hold reports back.
    assert!(ui.should_print(900));
    assert_eq!(ui.last_print_time, 900);
}

#[test]
fn first_next_link_is_followed() {
    let links = Some(vec![link("self", "a"), link("next", "b"), link("next", "c")]);
    assert_eq!(next_page(&links, 1), Some("b".to_string()));
    assert_eq!(next_page(&links, 9), Some("b".to_string()));
}

#[test]
fn paging_stops_at_limit_or_without_next() {
    let links = Some(vec![link("next", "b")]);
    assert_eq!(next_page(&links, 10), None);
    assert_eq!(next_page(&Some(vec![link("prev", "a")]), 1), None);
    assert_eq!(next_page(&None, 1), None);
}
