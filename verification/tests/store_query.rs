use cluster_notes::clock::{now_rfc3339, rfc3339_instant_of};
use cluster_notes::codec::{encode, NoteMeta};
use cluster_notes::draft::{parse_tags, parse_title_and_tags};
use cluster_notes::store::{SaveError, SortMode, Store};

fn meta(id: &str, title: &str, tags: &[&str], created: &str) -> NoteMeta {
    NoteMeta {
        id: id.to_string(),
        title: title.to_string(),
        tags: tags.iter().map(|t| t.to_string()).collect(),
        created_at: created.to_string(),
        updated_at: created.to_string(),
    }
}

fn file_of(m: &NoteMeta, body: &str) -> (String, String) {
    (format!("notes/{}.md", m.id), encode(m, body))
}

fn store_of(files: Vec<(String, String)>) -> Store {
    Store::load_store(&files, Vec::new())
}

#[test]
fn parse_tags_dedups_and_sorts() {
    assert_eq!(parse_tags("[a, b, a]"), vec!["a".to_string(), "b".to_string()]);
    assert_eq!(parse_tags("b, a"), vec!["a".to_string(), "b".to_string()]);
    assert_eq!(parse_tags(""), Vec::<String>::new());
    assert_eq!(parse_tags("[ , , ]"), Vec::<String>::new());
}

#[test]
fn title_first_heading_wins_and_tags_parse() {
    let (title, tags) = parse_title_and_tags("# First\n# Second\nTAGS: [x, y]\n");
    assert_eq!(title, "First");
    assert_eq!(tags, vec!["x".to_string(), "y".to_string()]);
}

#[test]
fn last_tags_line_wins() {
    let (_, tags) = parse_title_and_tags("# T\ntags: a\ntags: b, c\n");
    assert_eq!(tags, vec!["b".to_string(), "c".to_string()]);
}

#[test]
fn no_heading_means_no_title() {
    let (title, tags) = parse_title_and_tags("just text\n#missing space\n");
    assert_eq!(title, "");
    assert!(tags.is_empty());
}

#[test]
fn load_collects_diagnostics_for_bad_files() {
    let good = file_of(&meta("2024-01-15-001", "Ok", &[], "2024-01-15T08:00:00+00:00"), "fine");
    let bad = ("notes/broken.md".to_string(), "no frontmatter here".to_string());
    let s = store_of(vec![good, bad]);
    assert_eq!(s.notes.len(), 1);
    assert_eq!(s.diagnostics.len(), 1);
    assert!(s.diagnostics[0].contains("notes/broken.md"));
}

#[test]
fn load_excludes_duplicate_identifiers() {
    let a = file_of(&meta("dup-001", "A", &[], "2024-01-15T08:00:00+00:00"), "a");
    let b = file_of(&meta("dup-001", "B", &[], "2024-01-15T09:00:00+00:00"), "b");
    let s = store_of(vec![a, b]);
    assert_eq!(s.notes.len(), 1);
    assert_eq!(s.diagnostics.len(), 1);
}

#[test]
fn recent_sort_orders_by_instant_not_text() {
    // Lexicographically "...T10:00:00+05:00" > "...T09:00:00+00:00", but as
    // an instant it is 05:00Z, the earlier of the two.
    let early = file_of(
        &meta("a-001", "Early", &[], "2024-01-01T10:00:00+05:00"),
        "x",
    );
    let late = file_of(&meta("a-002", "Late", &[], "2024-01-01T09:00:00+00:00"), "y");
    let s = store_of(vec![early, late]);
    assert_eq!(s.notes[0].meta.title, "Late");
    assert_eq!(s.notes[1].meta.title, "Early");
}

#[test]
fn unparsable_timestamps_fall_back_to_text_order() {
    let a = file_of(&meta("a-001", "A", &[], "zzz"), "x");
    let b = file_of(&meta("a-002", "B", &[], "aaa"), "y");
    let s = store_of(vec![a, b]);
    assert_eq!(s.notes[0].meta.created_at, "zzz");
    assert_eq!(s.notes[1].meta.created_at, "aaa");
}

#[test]
fn title_sort_is_ascending() {
    let a = file_of(&meta("a-001", "Zebra", &[], "2024-01-01T00:00:00+00:00"), "x");
    let b = file_of(&meta("a-002", "Apple", &[], "2024-01-02T00:00:00+00:00"), "y");
    let mut s = store_of(vec![a, b]);
    s.set_sort_mode(SortMode::Title);
    assert_eq!(s.notes[0].meta.title, "Apple");
    assert_eq!(s.notes[1].meta.title, "Zebra");
}

#[test]
fn save_new_note_allocates_id_and_location() {
    let mut s = store_of(Vec::new());
    let plan = s
        .plan_save("# Hello, World!\ntags: [b, a]\nBody", None, "2024-01-15T10:00:00+00:00")
        .expect("plan");
    assert_eq!(plan.meta.id, "2024-01-15-001");
    assert_eq!(plan.meta.title, "Hello, World!");
    assert_eq!(plan.meta.tags, vec!["a".to_string(), "b".to_string()]);
    assert_eq!(plan.location, "notes/2024-01-15-hello-world.md");
    assert!(plan.rename_from.is_none());
    assert!(plan.is_new);
    let text = plan.file_text();
    s.commit_save(plan);
    assert_eq!(s.notes.len(), 1);
    assert!(text.starts_with("---\nid: 2024-01-15-001\ntitle: Hello, World!\n"));
}

#[test]
fn empty_title_rejected_and_store_untouched() {
    let a = file_of(&meta("a-001", "Kept", &[], "2024-01-01T00:00:00+00:00"), "x");
    let s = store_of(vec![a]);
    let r = s.plan_save("no heading here\ntags: [q]\n", None, "2024-01-15T10:00:00+00:00");
    assert!(matches!(r, Err(SaveError::EmptyTitle)));
    assert_eq!(s.notes.len(), 1);
    assert_eq!(s.notes[0].meta.title, "Kept");
    assert_eq!(s.notes[0].body, "x\n");
}

#[test]
fn saving_same_draft_twice_only_moves_updated_at() {
    let mut s = store_of(Vec::new());
    let draft = "# Stable\ntags: [t]\ncontent";
    let p = s.plan_save(draft, None, "2024-01-15T10:00:00+00:00").expect("plan");
    let id = p.meta.id.clone();
    s.commit_save(p);

    let p1 = s
        .plan_save(draft, Some(&id), "2024-01-15T11:00:00+00:00")
        .expect("plan1");
    let (t1, tags1, body1, loc1, created1) = (
        p1.meta.title.clone(),
        p1.meta.tags.clone(),
        p1.body.clone(),
        p1.location.clone(),
        p1.meta.created_at.clone(),
    );
    s.commit_save(p1);

    let p2 = s
        .plan_save(draft, Some(&id), "2024-01-15T12:00:00+00:00")
        .expect("plan2");
    assert_eq!(p2.meta.title, t1);
    assert_eq!(p2.meta.tags, tags1);
    assert_eq!(p2.body, body1);
    assert_eq!(p2.location, loc1);
    assert_eq!(p2.meta.created_at, created1);
    assert_eq!(p2.meta.updated_at, "2024-01-15T12:00:00+00:00");
}

#[test]
fn retitling_plans_a_rename_and_keeps_store_on_failure() {
    let a = file_of(&meta("2024-01-01-001", "Old Name", &[], "2024-01-01T00:00:00+00:00"), "x");
    let mut s = store_of(vec![a]);
    let plan = s
        .plan_save("# New Name\nbody", Some("2024-01-01-001"), "2024-01-02T00:00:00+00:00")
        .expect("plan");
    assert_eq!(plan.location, "notes/2024-01-01-new-name.md");
    assert_eq!(plan.rename_from, Some("notes/2024-01-01-001.md".to_string()));
    // The rename failed: the plan is dropped uncommitted, and the store
    // still describes the old file.
    assert_eq!(s.notes[0].meta.title, "Old Name");
    assert_eq!(s.notes[0].location, "notes/2024-01-01-001.md");
}

#[test]
fn retitle_commit_moves_location() {
    let a = file_of(&meta("2024-01-01-001", "Old Name", &[], "2024-01-01T00:00:00+00:00"), "x");
    let mut s = store_of(vec![a]);
    let plan = s
        .plan_save("# New Name\nbody", Some("2024-01-01-001"), "2024-01-02T00:00:00+00:00")
        .expect("plan");
    s.commit_save(plan);
    assert_eq!(s.notes.len(), 1);
    assert_eq!(s.notes[0].meta.title, "New Name");
    assert_eq!(s.notes[0].location, "notes/2024-01-01-new-name.md");
    assert_eq!(s.notes[0].meta.created_at, "2024-01-01T00:00:00+00:00");
}

#[test]
fn delete_removes_note_and_keeps_rest() {
    let a = file_of(&meta("a-001", "A", &[], "2024-01-01T00:00:00+00:00"), "x");
    let b = file_of(&meta("a-002", "B", &[], "2024-01-02T00:00:00+00:00"), "y");
    let mut s = store_of(vec![a, b]);
    assert_eq!(s.location_of_id("a-001"), Some("notes/a-001.md".to_string()));
    s.commit_delete("a-001");
    assert_eq!(s.notes.len(), 1);
    assert_eq!(s.notes[0].meta.id, "a-002");
    assert_eq!(s.location_of_id("a-001"), None);
}

#[test]
fn get_body_finds_by_id() {
    let a = file_of(&meta("a-001", "A", &[], "2024-01-01T00:00:00+00:00"), "the body");
    let s = store_of(vec![a]);
    assert_eq!(s.get_body("a-001"), Some("the body\n".to_string()));
    assert_eq!(s.get_body("missing"), None);
}

#[test]
fn backlinks_exclude_self_reference() {
    let alpha = file_of(
        &meta("a-001", "Alpha", &[], "2024-01-01T00:00:00+00:00"),
        "I mention [[Alpha]] myself.",
    );
    let beta = file_of(
        &meta("a-002", "Beta", &[], "2024-01-02T00:00:00+00:00"),
        "See [[Alpha]] for details.",
    );
    let gamma = file_of(
        &meta("a-003", "Gamma", &[], "2024-01-03T00:00:00+00:00"),
        "No references here.",
    );
    let s = store_of(vec![alpha, beta, gamma]);
    let links = s.backlinks("Alpha");
    assert_eq!(links, vec!["Beta".to_string()]);
}

#[test]
fn tag_cloud_counts_occurrences() {
    let a = file_of(&meta("a-001", "A", &["a", "b"], "2024-01-01T00:00:00+00:00"), "x");
    let b = file_of(&meta("a-002", "B", &["b"], "2024-01-02T00:00:00+00:00"), "y");
    let s = store_of(vec![a, b]);
    let cloud = s.tag_cloud();
    assert_eq!(
        cloud,
        vec![("a".to_string(), 1u64), ("b".to_string(), 2u64)]
    );
}

#[test]
fn dedup_scenario_from_loaded_note_draft() {
    // A loaded file may carry repeated tags; re-saving its draft with a
    // tags line deduplicates them.
    let a = file_of(&meta("a-001", "A", &["a", "b", "a"], "2024-01-01T00:00:00+00:00"), "x");
    let mut s = store_of(vec![a]);
    assert_eq!(s.notes[0].meta.tags, vec!["a", "b", "a"]);
    let plan = s
        .plan_save("# A\ntags: [a, b, a]\n", Some("a-001"), "2024-01-02T00:00:00+00:00")
        .expect("plan");
    s.commit_save(plan);
    assert_eq!(s.notes[0].meta.tags, vec!["a".to_string(), "b".to_string()]);
}

#[test]
fn clock_wrappers_behave() {
    let now = now_rfc3339();
    assert!(!now.is_empty());
    assert!(!now.contains('\n'));
    assert!(rfc3339_instant_of(&now).is_some());
    let early = rfc3339_instant_of("2024-01-01T10:00:00+05:00").expect("parse");
    let late = rfc3339_instant_of("2024-01-01T09:00:00+00:00").expect("parse");
    assert!(early < late);
    assert_eq!(rfc3339_instant_of("not a time"), None);
}

#[test]
fn save_flow_with_real_clock() {
    let mut s = store_of(Vec::new());
    let now = now_rfc3339();
    let plan = s.plan_save("# Clock Note\nbody", None, &now).expect("plan");
    assert_eq!(plan.meta.created_at, now);
    s.commit_save(plan);
    assert_eq!(s.notes.len(), 1);
    assert_eq!(s.notes[0].meta.title, "Clock Note");
}

#[test]
fn list_gives_summaries_in_order() {
    let a = file_of(&meta("a-001", "Older", &["t"], "2024-01-01T00:00:00+00:00"), "x");
    let b = file_of(&meta("a-002", "Newer", &[], "2024-01-02T00:00:00+00:00"), "y");
    let s = store_of(vec![a, b]);
    let l = s.list();
    assert_eq!(l.len(), 2);
    assert_eq!(l[0].id, "a-002");
    assert_eq!(l[0].title, "Newer");
    assert_eq!(l[1].id, "a-001");
    assert_eq!(l[1].tags, vec!["t".to_string()]);
    assert_eq!(l[1].created_at, "2024-01-01T00:00:00+00:00");
}
