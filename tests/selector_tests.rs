use pixel_editor::label::get_display_text;
use pixel_editor::{Color, ColorSelector, ToolSelector};

#[test]
fn color_selector_selects_matching_color() {
    let red = Color::new(255, 0, 0, 255);
    let mut s = ColorSelector::new(vec![Color::black(), Color::white(), Color::gray()]);
    assert_eq!(s.selected_color(), Some(Color::black()));
    s.set_selected_color(Color::gray());
    assert_eq!(s.selected_color(), Some(Color::gray()));
    s.set_selected_color(red);
    assert_eq!(s.selected_color(), Some(Color::gray()));
    s.select(1);
    assert_eq!(s.selected_color(), Some(Color::white()));
    s.select(3);
    assert_eq!(s.selected_color(), Some(Color::white()));
}

#[test]
fn empty_color_selector_has_no_selection() {
    let mut s = ColorSelector::new(vec![]);
    s.set_selected_color(Color::black());
    assert_eq!(s.selected_color(), None);
}

#[test]
fn tool_selector_selects_by_position() {
    let mut s = ToolSelector::new(vec!["Pencil".to_string(), "Paintbrush".to_string()]);
    assert_eq!(s.selected_label(), Some("Pencil".to_string()));
    s.select(1);
    assert_eq!(s.selected_label(), Some("Paintbrush".to_string()));
    s.select(2);
    assert_eq!(s.selected_label(), Some("Paintbrush".to_string()));
    assert_eq!(ToolSelector::new(vec![]).selected_label(), None);
}

#[test]
fn display_text_drops_identifier() {
    assert_eq!(get_display_text("Open##file"), "Open");
    assert_eq!(get_display_text("a##b##c"), "a##b");
    assert_eq!(get_display_text("plain"), "plain");
    assert_eq!(get_display_text("###"), "#");
    assert_eq!(get_display_text("##"), "");
    assert_eq!(get_display_text("é##x"), "é");
    assert_eq!(get_display_text(""), "");
}
