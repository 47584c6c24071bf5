use cstylegen::combinator::combine_path;

#[test]
fn combine_path_without_prefix() {
    assert_eq!(combine_path("", "accentColor"), "accentcolor");
}

#[test]
fn combine_path_with_prefix() {
    assert_eq!(combine_path("tabs", "dividerLine"), "tabs.dividerline");
}

#[test]
fn combine_path_drops_dashes_and_underscores() {
    assert_eq!(combine_path("splits.header", "focused-Border_x"), "splits.header.focusedborderx");
}

#[test]
fn combine_path_keeps_non_ascii() {
    assert_eq!(combine_path("a", "ÄbC"), "a.Äbc");
}

#[test]
fn combine_path_empty_name() {
    assert_eq!(combine_path("a.b", ""), "a.b.");
    assert_eq!(combine_path("", "--"), "");
}
