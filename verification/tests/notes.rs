use architext_viewer::models::{Note, NoteTarget};
use architext_viewer::notes::{build_note, format_when, notes_for_target, to_base36, trim_text};

fn note(id: &str, kind: &str, target_id: &str, updated: &str) -> Note {
    Note {
        id: id.into(),
        target: NoteTarget { kind: kind.into(), id: target_id.into() },
        category: "note".into(),
        body: "body".into(),
        author: None,
        created_at: "2026-01-01T00:00:00.000Z".into(),
        updated_at: updated.into(),
    }
}

#[test]
fn notes_for_target_filters_by_kind_and_id() {
    let notes = vec![
        note("note-a", "node", "svc", "2026-01-02T00:00:00.000Z"),
        note("note-b", "node", "other", "2026-01-03T00:00:00.000Z"),
        note("note-c", "flow", "svc", "2026-01-04T00:00:00.000Z"),
    ];
    let mine = notes_for_target(&notes, "node", "svc");
    assert_eq!(mine.len(), 1);
    assert_eq!(mine[0].id, "note-a");
}

#[test]
fn notes_for_target_sorts_newest_first() {
    let notes = vec![
        note("note-old", "node", "svc", "2026-01-01T00:00:00.000Z"),
        note("note-new", "node", "svc", "2026-03-01T00:00:00.000Z"),
        note("note-mid", "node", "svc", "2026-02-01T00:00:00.000Z"),
    ];
    let mine = notes_for_target(&notes, "node", "svc");
    let ids: Vec<&str> = mine.iter().map(|n| n.id.as_str()).collect();
    assert_eq!(ids, vec!["note-new", "note-mid", "note-old"]);
}

#[test]
fn notes_of_equal_time_keep_document_order() {
    let notes = vec![
        note("note-1", "view", "v", "2026-01-01T00:00:00.000Z"),
        note("note-2", "view", "v", "2026-05-01T00:00:00.000Z"),
        note("note-3", "view", "v", "2026-01-01T00:00:00.000Z"),
        note("note-4", "view", "v", "2026-01-01T00:00:00.0"),
    ];
    let ids: Vec<&str> =
        notes_for_target(&notes, "view", "v").iter().map(|n| n.id.as_str()).collect();
    assert_eq!(ids, vec!["note-2", "note-1", "note-3", "note-4"]);
}

#[test]
fn build_note_trims_body_and_emits_no_author() {
    let note = build_note(
        "note-x".into(),
        "node".into(),
        "svc".into(),
        "caveat".into(),
        "  hello  ".into(),
        "2026-01-01T00:00:00.000Z".into(),
        "2026-01-02T00:00:00.000Z".into(),
    );
    assert_eq!(note.body, "hello");
    assert_eq!(note.author, None);
    assert_eq!(note.target.kind, "node");
    assert_eq!(note.category, "caveat");
}

#[test]
fn trim_matches_str_trim_on_unicode_white_space() {
    for s in ["", "   ", "\t\n x y \r\n", "\u{3000}note\u{2009}", "a", " a b ", "\u{85}z\u{a0}"] {
        assert_eq!(trim_text(s), s.trim(), "{s:?}");
    }
}

#[test]
fn base36_renders_lowercase_alnum() {
    assert_eq!(to_base36(0), "0");
    assert_eq!(to_base36(35), "z");
    assert_eq!(to_base36(36), "10");
    let s = to_base36(1_750_000_000_000);
    assert!(s.chars().all(|c| c.is_ascii_lowercase() || c.is_ascii_digit()));
    let id = format!("note-{s}");
    assert!(id.starts_with("note-"));
    assert_eq!(to_base36(u64::MAX), "3w5e11264sgsf");
}

#[test]
fn format_when_shows_date_prefix_or_raw() {
    assert_eq!(format_when("2026-06-18T12:34:56.000Z"), "2026-06-18");
    assert_eq!(format_when("not-a-date"), "not-a-date");
    assert_eq!(format_when("2026-06-1"), "2026-06-1", "too short");
    assert_eq!(format_when("2026/06/18T00"), "2026/06/18T00", "no dash at the fifth byte");
    assert_eq!(format_when("2026-06-1é"), "2026-06-1é", "ten bytes end inside a character");
}
