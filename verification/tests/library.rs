use bruin::catalog::Catalog;
use bruin::codec::{parse_frontmatter, serialize_frontmatter};
use bruin::export::html_escape;
use bruin::note::{compute_word_count, preview_of, Note};
use bruin::reconcile::{full_reconcile, reconcile, FailedSyncOp, SyncAction};
use bruin::tags::{extract_tags, get_parent_tag};
use bruin::vault::{is_icloud_placeholder, is_markdown_leaf, Vault, VaultFile};
use bruin::watcher::{classify_event, DebounceQueue, WatchDecision, WatchEventKind};
use bruin::controller::{trigger_sync, SyncState};
use bruin::reconcile::resync_notes;
use sha2::Digest;

fn sample_note(id: &str, title: &str, content: &str) -> Note {
    Note {
        id: id.to_string(),
        title: title.to_string(),
        content: content.to_string(),
        created_at: "2024-01-01T00:00:00+00:00".to_string(),
        updated_at: "2024-01-02T00:00:00+00:00".to_string(),
        is_trashed: false,
        is_pinned: false,
        word_count: compute_word_count(content),
        file_path: None,
        sync_hash: None,
        tags: extract_tags(content),
        state: "draft".to_string(),
        workspace_id: None,
        version: 1,
    }
}

#[test]
fn test_extract_tags() {
    let content = "Hello #rust and #work/projects are great\n```\n#not_a_tag\n```\n#another";
    let tags = extract_tags(content);
    assert_eq!(tags, vec!["another", "rust", "work/projects"]);
}

#[test]
fn test_get_parent_tag() {
    assert_eq!(get_parent_tag("work/projects"), Some("work".to_string()));
    assert_eq!(get_parent_tag("simple"), None);
}

#[test]
fn round_trip_preserves_fields() {
    let mut n = sample_note("abc-123", "A \"quoted\" title", "hello #foo\nbody text");
    n.is_pinned = true;
    let text = serialize_frontmatter(&n);
    let (fm, body) = parse_frontmatter(&text).expect("parses");
    assert_eq!(fm.id.as_deref(), Some("abc-123"));
    assert_eq!(fm.title.as_deref(), Some("A \"quoted\" title"));
    assert_eq!(fm.tags, vec!["foo".to_string()]);
    assert_eq!(fm.created_at.as_deref(), Some("2024-01-01T00:00:00+00:00"));
    assert_eq!(fm.updated_at.as_deref(), Some("2024-01-02T00:00:00+00:00"));
    assert!(fm.is_pinned);
    assert_eq!(body, "hello #foo\nbody text");
}

#[test]
fn round_trip_empty_tags_and_body() {
    let mut n = sample_note("x", "t", "");
    n.tags = Vec::new();
    let text = serialize_frontmatter(&n);
    let (fm, body) = parse_frontmatter(&text).expect("parses");
    assert_eq!(fm.id.as_deref(), Some("x"));
    assert!(fm.tags.is_empty());
    assert_eq!(body, "");
}

#[test]
fn parse_without_header_is_all_body() {
    let (fm, body) = parse_frontmatter("just some text").expect("ok");
    assert!(fm.id.is_none());
    assert!(fm.title.is_none());
    assert!(fm.tags.is_empty());
    assert!(!fm.is_pinned);
    assert_eq!(body, "just some text");
}

#[test]
fn parse_unclosed_header_is_malformed() {
    let err = parse_frontmatter("---\nid: \"x\"\nno closing").unwrap_err();
    assert_eq!(err.kind, bruin::ErrorKind::Malformed);
}

#[test]
fn decision_table() {
    let mut file = sample_note("n1", "T", "b");
    file.sync_hash = Some("h1".to_string());
    // absent catalog record: import
    assert_eq!(reconcile(None, &file), SyncAction::Import);
    // equal fingerprints: skip
    let mut db = sample_note("n1", "T", "b");
    db.sync_hash = Some("h1".to_string());
    assert_eq!(reconcile(Some(&db), &file), SyncAction::Skip);
    // catalog without fingerprint: export
    db.sync_hash = None;
    assert_eq!(reconcile(Some(&db), &file), SyncAction::Export);
    // vault without fingerprint: import
    db.sync_hash = Some("h1".to_string());
    let mut bare = sample_note("n1", "T", "b");
    bare.sync_hash = None;
    assert_eq!(reconcile(Some(&db), &bare), SyncAction::Import);
    // divergent fingerprints: last write wins, catalog winning ties
    db.sync_hash = Some("h2".to_string());
    db.updated_at = "2024-01-03T00:00:00+00:00".to_string();
    assert_eq!(reconcile(Some(&db), &file), SyncAction::Export);
    db.updated_at = "2024-01-01T00:00:00+00:00".to_string();
    assert_eq!(reconcile(Some(&db), &file), SyncAction::Import);
}

#[test]
fn sweep_create_then_export_then_settles() {
    // a catalog note with no file is exported; the next sweep does nothing
    let mut catalog = Catalog::new();
    let mut vault = Vault::new();
    let n = sample_note("id-1", "A", "hello #foo");
    let hash = bruin::crypto::compute_sync_hash("A", "hello #foo");
    catalog.upsert_from_file(&n, hash);
    let now = "2024-01-05T00:00:00+00:00";
    let r1 = full_reconcile(&mut catalog, &mut vault, Vec::new(), now);
    assert_eq!(r1.files_synced, 1);
    assert!(vault.read("id-1.md").is_some());
    let r2 = full_reconcile(&mut catalog, &mut vault, Vec::new(), now);
    assert_eq!(r2.files_synced, 0);
    assert!(r2.imported_note_ids.is_empty());
    assert!(r2.failures.is_empty());
}

#[test]
fn sweep_imports_external_edit() {
    // a vault file the catalog has never seen is imported
    let mut catalog = Catalog::new();
    let mut vault = Vault::new();
    let n = sample_note("id-9", "A", "world");
    vault.write("id-9.md".to_string(), serialize_frontmatter(&n));
    let r = full_reconcile(&mut catalog, &mut vault, Vec::new(), "2024-01-05T00:00:00+00:00");
    assert_eq!(r.imported_note_ids, vec!["id-9".to_string()]);
    let got = catalog.fetch_note("id-9").expect("imported");
    assert_eq!(got.content, "world");
    assert_eq!(got.title, "A");
    // the stored fingerprint matches a recomputation from the file fields
    assert_eq!(
        got.sync_hash.as_deref(),
        Some(bruin::crypto::compute_sync_hash("A", "world").as_str())
    );
}

#[test]
fn divergent_edit_latest_writer_wins() {
    let mut catalog = Catalog::new();
    let mut vault = Vault::new();
    let mut db = sample_note("id-2", "T", "C");
    db.updated_at = "2024-01-09T00:00:00+00:00".to_string();
    let hash = bruin::crypto::compute_sync_hash("T", "C");
    catalog.upsert_from_file(&db, hash);
    let mut filed = sample_note("id-2", "T", "V");
    filed.updated_at = "2024-01-08T00:00:00+00:00".to_string();
    vault.write("id-2.md".to_string(), serialize_frontmatter(&filed));
    full_reconcile(&mut catalog, &mut vault, Vec::new(), "2024-01-10T00:00:00+00:00");
    // the catalog was newer: its body lands in the vault
    let text = vault.read("id-2.md").expect("file");
    let (_, body) = parse_frontmatter(&text).expect("parses");
    assert_eq!(body, "C");
}

#[test]
fn three_failures_cap_the_retry() {
    // an op that failed three times is returned verbatim and not retried
    let mut catalog = Catalog::new();
    let mut vault = Vault::new();
    let op = FailedSyncOp {
        note_id: "gone".to_string(),
        operation: "export".to_string(),
        error: "disk full".to_string(),
        retry_count: 3,
    };
    let r = full_reconcile(&mut catalog, &mut vault, vec![op], "2024-01-05T00:00:00+00:00");
    assert_eq!(r.failures.len(), 1);
    assert_eq!(r.failures[0].note_id, "gone");
    assert_eq!(r.failures[0].retry_count, 3);
    assert_eq!(r.failures[0].error, "disk full");
}

#[test]
fn failed_import_retry_comes_back_with_higher_count() {
    let mut catalog = Catalog::new();
    let mut vault = Vault::new();
    vault.write("bad.md".to_string(), "---\nid: \"bad\"\nno closing".to_string());
    let op = FailedSyncOp {
        note_id: "bad".to_string(),
        operation: "import".to_string(),
        error: "old".to_string(),
        retry_count: 1,
    };
    let r = full_reconcile(&mut catalog, &mut vault, vec![op], "2024-01-05T00:00:00+00:00");
    assert_eq!(r.failures.len(), 1);
    assert_eq!(r.failures[0].retry_count, 2);
}

#[test]
fn placeholder_files_are_never_opened() {
    assert!(is_icloud_placeholder(".X.md.icloud"));
    assert!(!is_icloud_placeholder("X.md"));
    assert!(!is_markdown_leaf(".X.md.icloud"));
    // enumeration skips the placeholder entirely
    let mut vault = Vault::new();
    vault.files.push(VaultFile {
        name: ".X.md.icloud".to_string(),
        text: "stub".to_string(),
    });
    vault.write("real.md".to_string(), "body".to_string());
    let names = vault.list_markdown();
    assert_eq!(names, vec!["real.md".to_string()]);
}

#[test]
fn watcher_classification() {
    assert_eq!(
        classify_event(WatchEventKind::Create, ".X.md.icloud"),
        WatchDecision::Ignore
    );
    assert_eq!(
        classify_event(WatchEventKind::Modify, "a.md"),
        WatchDecision::Changed
    );
    assert_eq!(
        classify_event(WatchEventKind::Remove, "a.md"),
        WatchDecision::Removed
    );
    assert_eq!(
        classify_event(WatchEventKind::Create, ".bruin-sync-trigger"),
        WatchDecision::FullSweepRequested
    );
    assert_eq!(
        classify_event(WatchEventKind::Create, "notes.txt"),
        WatchDecision::Ignore
    );
}

#[test]
fn debounce_collapses_bursts() {
    // many events on one path within the window flush exactly once
    let mut q = DebounceQueue::new();
    q.record("a.md".to_string(), 100);
    q.record("a.md".to_string(), 200);
    q.record("a.md".to_string(), 300);
    q.record("b.md".to_string(), 300);
    let ready = q.take_ready(900, 500);
    assert_eq!(ready.len(), 2);
    assert!(ready.contains(&"a.md".to_string()));
    assert!(ready.contains(&"b.md".to_string()));
    let again = q.take_ready(2000, 500);
    assert!(again.is_empty());
}

#[test]
fn state_machine_transitions() {
    let mut catalog = Catalog::new();
    let n = sample_note("s1", "T", "b");
    let hash = bruin::crypto::compute_sync_hash("T", "b");
    catalog.upsert_from_file(&n, hash);
    let now = "2024-02-01T00:00:00+00:00";
    // draft -> review -> published -> review -> draft all succeed
    assert_eq!(catalog.set_note_state("s1", "review", now).unwrap().state, "review");
    assert_eq!(catalog.set_note_state("s1", "published", now).unwrap().state, "published");
    assert_eq!(catalog.set_note_state("s1", "review", now).unwrap().state, "review");
    assert_eq!(catalog.set_note_state("s1", "draft", now).unwrap().state, "draft");
    // draft -> published is refused
    let err = catalog.set_note_state("s1", "published", now).unwrap_err();
    assert_eq!(err.kind, bruin::ErrorKind::Malformed);
    // an unknown note is not found
    let err = catalog.set_note_state("nope", "review", now).unwrap_err();
    assert_eq!(err.kind, bruin::ErrorKind::NotFound);
}

#[test]
fn preview_cuts_on_character_boundary() {
    // 199 ascii bytes then a two-byte character: the preview stops before it
    let mut body = "x".repeat(199);
    body.push('é');
    body.push_str("tail");
    let p = preview_of(&body);
    assert_eq!(p, "x".repeat(199));
    let short = preview_of("tiny");
    assert_eq!(short, "tiny");
}

#[test]
fn word_count_counts_tokens() {
    assert_eq!(compute_word_count("one  two\nthree"), 3);
    assert_eq!(compute_word_count(""), 0);
    assert_eq!(compute_word_count("   "), 0);
}

#[test]
fn fingerprint_is_sha256_hex() {
    // SHA-256("Ahello #foo"), title then body with no separator
    let h = bruin::crypto::compute_sync_hash("A", "hello #foo");
    let mut hasher = sha2::Sha256::new();
    hasher.update("A".as_bytes());
    hasher.update("hello #foo".as_bytes());
    assert_eq!(h, hex::encode(hasher.finalize()));
}

#[test]
fn html_escape_replaces_reserved() {
    assert_eq!(html_escape("a<b&\"c\">"), "a&lt;b&amp;&quot;c&quot;&gt;");
    // rendering goes through the real markdown renderer
    let n = sample_note("h1", "T<am>", "# Heading");
    let page = bruin::export::export_note_html(&n);
    assert!(page.contains("T&lt;am&gt;"));
    assert!(page.contains("<h1>Heading</h1>"));
}

#[test]
fn wiki_links_resolve_against_titles() {
    let mut catalog = Catalog::new();
    let a = sample_note("a", "Alpha", "x");
    let b = sample_note("b", "Beta", "see [[Alpha]] and [[Missing]] and [[Alpha]]");
    catalog.upsert_from_file(&a, bruin::crypto::compute_sync_hash("Alpha", "x"));
    catalog.upsert_from_file(
        &b,
        bruin::crypto::compute_sync_hash("Beta", "see [[Alpha]] and [[Missing]] and [[Alpha]]"),
    );
    let from_b: Vec<_> = catalog.links.iter().filter(|e| e.source == "b").collect();
    assert_eq!(from_b.len(), 1);
    assert_eq!(from_b[0].target, "a");
    assert_eq!(from_b[0].link_type, "wiki_link");
}

#[test]
fn word_count_uses_unicode_whitespace() {
    // a form feed separates tokens, exactly as split_whitespace sees it
    let s = format!("a{}b", char::from_u32(0x0C).unwrap());
    assert_eq!(compute_word_count(&s), s.split_whitespace().count() as u64);
    assert_eq!(compute_word_count(&s), 2);
    // so does a no-break space
    let nbsp = format!("x{}y", char::from_u32(0xA0).unwrap());
    assert_eq!(compute_word_count(&nbsp), nbsp.split_whitespace().count() as u64);
    assert_eq!(compute_word_count(&nbsp), 2);
}

#[test]
fn controller_gates_on_availability() {
    let mut state = SyncState::default();
    let mut catalog = Catalog::new();
    let mut vault = Vault::new();
    let now = "2024-03-01T00:00:00+00:00";
    // an unavailable vault refuses the run and changes nothing
    let err = trigger_sync(&mut state, &mut catalog, &mut vault, false, now).unwrap_err();
    assert_eq!(err.kind, bruin::ErrorKind::Unavailable);
    assert!(!state.is_syncing);
    assert!(state.last_sync.is_none());
    // an available vault runs the sweep and publishes the outcome
    let n = sample_note("c1", "T", "b");
    catalog.upsert_from_file(&n, bruin::crypto::compute_sync_hash("T", "b"));
    let imported = trigger_sync(&mut state, &mut catalog, &mut vault, true, now).unwrap();
    assert!(imported.is_empty());
    assert!(!state.is_syncing);
    assert_eq!(state.last_sync.as_deref(), Some(now));
    assert_eq!(state.current_phase, "idle");
    assert!(state.retry_queue.is_empty());
    assert_eq!(state.files_synced, 1);
    assert!(vault.read("c1.md").is_some());
}

#[test]
fn resync_rewrites_listed_files() {
    let mut catalog = Catalog::new();
    let mut vault = Vault::new();
    let n = sample_note("r1", "T", "body #tag");
    catalog.upsert_from_file(&n, bruin::crypto::compute_sync_hash("T", "body #tag"));
    resync_notes(&mut catalog, &mut vault, &vec!["r1".to_string(), "missing".to_string()]);
    let text = vault.read("r1.md").expect("written");
    let stored = catalog.fetch_note("r1").expect("present");
    assert_eq!(text, serialize_frontmatter(&stored));
    assert!(vault.read("missing.md").is_none());
}

#[test]
fn fingerprint_is_64_lowercase_hex() {
    let h = bruin::crypto::compute_sync_hash("t", "c");
    assert_eq!(h.len(), 64);
    assert!(h.chars().all(|c| c.is_ascii_hexdigit() && !c.is_ascii_uppercase()));
}
