use lg_desktop::fingerprint::compute_hash;
use lg_desktop::ocr::{Geometry, TextElement};
use lg_desktop::snapshot::Snapshot;
use lg_desktop::state::PersistedState;

fn geom() -> Geometry {
    Geometry { x: 0, y: 0, w: 100, h: 100 }
}

fn element(text: &str) -> TextElement {
    TextElement { text: text.to_string(), x: 1, y: 2, w: 3, h: 4, confidence: 9000 }
}

/// One run over `windows` (id, capture bytes), against `previous`.
fn run(previous: PersistedState, windows: &[(&str, Option<&[u8]>)], changes_only: bool)
    -> (lg_desktop::snapshot::SnapshotResult, PersistedState) {
    let mut snap = Snapshot::new(previous);
    for (id, bytes) in windows {
        let id = id.to_string();
        let fp = bytes.map(|b| compute_hash(&Some(b.to_vec())));
        let (text, elements) = if snap.needs_text(&id, &fp) {
            (format!("text of {id}"), vec![element(&id)])
        } else {
            (String::new(), Vec::new())
        };
        snap.add_window(id.clone(), format!("title {id}"), geom(), fp, text, elements);
    }
    snap.finish("2024-02-29T00:00:00Z".to_string(), [1920, 1080], "0x1".to_string(), changes_only)
}

#[test]
fn second_run_on_unchanged_desktop_sees_no_change() {
    let windows: [(&str, Option<&[u8]>); 2] = [("0x1", Some(b"aaa")), ("0x2", Some(b"bbb"))];
    let (first, state) = run(PersistedState::new(), &windows, false);
    assert_eq!(first.changes_since_last, vec!["0x1", "0x2"]);
    assert_eq!(first.windows[0].ocr_text, "text of 0x1");
    let (second, _) = run(state, &windows, false);
    assert!(second.changes_since_last.is_empty());
    assert_eq!(second.windows.len(), 2);
    for w in &second.windows {
        assert!(!w.changed);
        assert_eq!(w.ocr_text, "");
        assert!(w.elements.is_empty());
    }
}

#[test]
fn fingerprints_follow_bytes_only() {
    let a = compute_hash(&Some(b"pixels-0".to_vec()));
    let b = compute_hash(&Some(b"pixels-1".to_vec()));
    let c = compute_hash(&Some(b"pixels-0".to_vec()));
    assert_ne!(a, b);
    assert_eq!(a, c);
    assert_eq!(a.len(), 64);
    assert_eq!(
        compute_hash(&Some(Vec::new())),
        "e3b0c44298fc1c149afbf4c8996fb92427ae41e4649b934ca495991b7852b855"
    );
    assert_eq!(compute_hash(&None), "");
}

#[test]
fn corrupt_state_gives_empty_mapping_and_all_changed() {
    let state = PersistedState::recover(None);
    assert!(state.windows.is_empty());
    let windows: [(&str, Option<&[u8]>); 2] = [("0x1", Some(b"aaa")), ("0x2", Some(b"bbb"))];
    let (result, _) = run(state, &windows, false);
    assert_eq!(result.changes_since_last, vec!["0x1", "0x2"]);
    assert!(result.windows.iter().all(|w| w.changed));
}

#[test]
fn reduced_output_keeps_changed_windows_only() {
    let before: [(&str, Option<&[u8]>); 3] =
        [("0x1", Some(b"a")), ("0x2", Some(b"b")), ("0x3", Some(b"c"))];
    let after: [(&str, Option<&[u8]>); 3] =
        [("0x1", Some(b"a")), ("0x2", Some(b"B")), ("0x3", None)];
    let (_, state) = run(PersistedState::new(), &before, false);
    let (full, _) = run(state.clone(), &after, false);
    let (reduced, next) = run(state, &after, true);
    assert_eq!(full.changes_since_last, vec!["0x2", "0x3"]);
    assert_eq!(reduced.changes_since_last, full.changes_since_last);
    let ids: Vec<&str> = reduced.windows.iter().map(|w| w.id.as_str()).collect();
    assert_eq!(ids, vec!["0x2", "0x3"]);
    assert_eq!(full.windows.len(), 3);
    // A failed capture is changed but has no text and no new fingerprint.
    assert_eq!(reduced.windows[1].ocr_text, "");
    let ids: Vec<&str> = next.windows.iter().map(|(id, _)| id.as_str()).collect();
    assert_eq!(ids, vec!["0x1", "0x2"]);
    assert_eq!(reduced.desktop_size, [1920, 1080]);
}

#[test]
fn state_lookup_and_insert() {
    let mut s = PersistedState::new();
    s.insert("0x1".to_string(), "h1".to_string());
    s.insert("0x2".to_string(), "h2".to_string());
    assert_eq!(s.get(&"0x2".to_string()), Some("h2".to_string()));
    assert_eq!(s.get(&"0x3".to_string()), None);
    let kept = PersistedState::recover(Some(s.clone()));
    assert_eq!(kept.windows.len(), 2);
}

#[test]
fn test_geometry_copy() {
    let g = Geometry { x: 10, y: 20, w: 100, h: 200 };
    let g2 = g; // Copy
    assert_eq!(g.x, g2.x);
    assert_eq!(g.w, g2.w);
}
