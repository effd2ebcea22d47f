use pd_patch::editor::{
    apply_completion, install, event, log_path, sort_patch, token_at_cursor, AutocompleteAction,
    CableStyle, Flags, GhostRole, NodeAreaBody, PatchCanvasResponse, PortEnd, PortHighlight,
};

#[test]
fn flags_default() {
    let f = Flags::default();
    assert!(f.snap_to_grid);
    assert_eq!(f.cable_style, CableStyle::Bezier);
    assert!(f.show_grid);
    assert!(f.direct_cables);
    assert!(!f.show_cursor);
    assert!(!f.show_cursor_preview);
    assert!(!f.grid_connect);
    assert!(f.live_sort);
    assert_eq!(CableStyle::default(), CableStyle::Bezier);
}

#[test]
fn small_types() {
    let body = NodeAreaBody::default();
    assert!(!body.clicked_label && !body.commit_edit && !body.cancel_edit);
    let _ = PatchCanvasResponse::default();
    let a = AutocompleteAction { applied: true, dismiss_popup: false };
    assert!(a.applied);
    assert_ne!(PortEnd::Outlet { node: 1, idx: 0 }, PortEnd::Inlet { node: 1, idx: 0 });
    assert_ne!(GhostRole::Anchor, GhostRole::Stub);
    assert_ne!(PortHighlight::Idle, PortHighlight::Hovered);
    install();
    event("started");
    assert_eq!(log_path(), "crash.log");
}

#[test]
fn sort_only_with_two_nodes() {
    assert!(!sort_patch(0));
    assert!(!sort_patch(1));
    assert!(sort_patch(2));
}

#[test]
fn token_around_cursor() {
    assert_eq!(token_at_cursor("osc~ 440", 2), (0, 4, "osc~"));
    assert_eq!(token_at_cursor("osc~ 440", 6), (5, 8, "440"));
    assert_eq!(token_at_cursor("osc~ 440", 4), (0, 4, "osc~"));
    assert_eq!(token_at_cursor("osc~ 440", 99), (5, 8, "440"));
    assert_eq!(token_at_cursor("a  b", 2), (2, 2, ""));
    assert_eq!(token_at_cursor("", 0), (0, 0, ""));
}

#[test]
fn token_offsets_are_bytes() {
    assert_eq!(token_at_cursor("\u{e9}\u{e9}", 4), (0, 4, "\u{e9}\u{e9}"));
    assert_eq!(token_at_cursor("\u{e9}a", 2), (0, 3, "\u{e9}a"));
    assert_eq!(token_at_cursor("\u{e9} b", 3), (3, 4, "b"));
    assert_eq!(token_at_cursor("x \u{e9}", 99), (2, 4, "\u{e9}"));
}

#[test]
fn completion_offsets_are_bytes() {
    let mut b = String::from("\u{e9}t 1");
    apply_completion(&mut b, 0, 3, "osc~");
    // Byte 3 of "osc~ 1" is '~', so a space is inserted after the name.
    assert_eq!(b, "osc~  1");

    let mut b = String::from("x \u{e9}");
    apply_completion(&mut b, 2, 4, "in");
    assert_eq!(b, "x in ");
}

#[test]
fn completion_adds_space_when_needed() {
    let mut b = String::from("Os");
    apply_completion(&mut b, 0, 2, "osc~");
    assert_eq!(b, "osc~ ");

    let mut b = String::from("Os 440");
    apply_completion(&mut b, 0, 2, "osc~");
    // Position 2 of "osc~ 440" is 'c', so a space is inserted after the name.
    assert_eq!(b, "osc~  440");

    let mut b = String::from("me  x");
    apply_completion(&mut b, 0, 2, "me");
    assert_eq!(b, "me  x");
}
