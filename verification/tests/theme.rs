//! Colours.

use tomte::theme::{Theme, WindowAppearance};

#[test]
fn class_colors_are_distinct_per_severity() {
    let t = Theme::dark();
    assert_eq!(t.class_color("conflict"), t.conflict);
    assert_eq!(t.class_color("destination_drift"), t.drift);
    assert_eq!(t.class_color("remote_ahead"), t.accent);
    assert_eq!(t.class_color("in_sync"), t.ok);
}

#[test]
fn windows_look_as_the_system_does() {
    assert_eq!(Theme::for_appearance(WindowAppearance::Dark), Theme::dark());
    assert_eq!(
        Theme::for_appearance(WindowAppearance::VibrantDark),
        Theme::dark()
    );
    assert_eq!(
        Theme::for_appearance(WindowAppearance::Light),
        Theme::light()
    );
    assert_eq!(Theme::light().bg, 0xffffff);
    assert_eq!(Theme::dark().bg, 0x0d1117);
}
