use record_history::aggregate::{new_aggregator, process_step, update_change_record_entry,
    ChangeInstant, ChangeType, DeltaWork};
use record_history::errors::HistoryError;
use record_history::filter::{screen_delta, DeltaKind, RawStatus};
use record_history::output::{assemble, PathOutput};
use record_history::walk::{walk_decision, CommitMeta, WalkAction, WalkConfig};

fn added(path: &str, new_bytes: &[u8]) -> DeltaWork {
    DeltaWork::Added { path: String::from(path), new_bytes: new_bytes.to_vec() }
}

fn deleted(path: &str, old_bytes: &[u8]) -> DeltaWork {
    DeltaWork::Deleted { path: String::from(path), old_bytes: old_bytes.to_vec() }
}

fn modified(path: &str, old_bytes: &[u8], new_bytes: &[u8]) -> DeltaWork {
    DeltaWork::Modified {
        path: String::from(path),
        old_bytes: old_bytes.to_vec(),
        new_bytes: new_bytes.to_vec(),
    }
}

fn entry<'a>(out: &'a [PathOutput], path: &str, key: &str)
    -> &'a record_history::output::RenderedRecord {
    let p = out.iter().find(|p| p.path == path).expect("path missing");
    &p.entries.iter().find(|e| e.0 == key).expect("key missing").1
}

#[test]
fn lifecycle_three_commits() {
    // data.json: [{"id":"x","v":1}] at the root, then x changes and y
    // appears, then x disappears; the walk visits newest first and stops
    // at the root.
    let c1 = br#"[{"id":"x","v":1}]"#;
    let c2 = br#"[{"id":"x","v":2},{"id":"y","v":1}]"#;
    let c3 = br#"[{"id":"y","v":1}]"#;
    let mut agg = new_aggregator(String::from("id"));
    process_step(&mut agg, String::from("c3"), 300, vec![modified("data.json", c2, c3)])
        .unwrap();
    process_step(&mut agg, String::from("c2"), 200, vec![modified("data.json", c1, c2)])
        .unwrap();
    let out = assemble(agg).unwrap();
    let x = entry(&out, "data.json", "x");
    assert_eq!(x.added.len(), 0);
    assert_eq!(x.modified.len(), 1);
    assert_eq!(x.modified[0].commit, "c2");
    assert_eq!(x.removed.len(), 1);
    assert_eq!(x.removed[0].commit, "c3");
    let y = entry(&out, "data.json", "y");
    assert_eq!(y.added.len(), 1);
    assert_eq!(y.added[0].commit, "c2");
    assert_eq!(y.removed.len(), 0);
    assert_eq!(y.modified.len(), 0);
}

#[test]
fn record_added_once_has_one_added_instant() {
    let mut agg = new_aggregator(String::from("id"));
    process_step(
        &mut agg,
        String::from("c9"),
        0,
        vec![added("a.json", br#"[{"id":"only","v":1}]"#)],
    )
    .unwrap();
    process_step(&mut agg, String::from("c8"), 0, vec![]).unwrap();
    let out = assemble(agg).unwrap();
    let r = entry(&out, "a.json", "only");
    assert_eq!(r.added.len(), 1);
    assert_eq!(r.added[0].commit, "c9");
    assert_eq!(r.added[0].timestamp, "1970-01-01T00:00:00+00:00");
    assert_eq!(r.removed.len(), 0);
    assert_eq!(r.modified.len(), 0);
}

#[test]
fn unchanged_delete_gives_one_removed_and_no_modified() {
    let content = br#"[{"id":"k","v":{"a":1,"b":[1,2]}}]"#;
    let mut agg = new_aggregator(String::from("id"));
    process_step(&mut agg, String::from("c5"), 500, vec![deleted("d.json", content)])
        .unwrap();
    let out = assemble(agg).unwrap();
    let r = entry(&out, "d.json", "k");
    assert_eq!(r.removed.len(), 1);
    assert_eq!(r.removed[0].commit, "c5");
    assert_eq!(r.added.len(), 0);
    assert_eq!(r.modified.len(), 0);
}

#[test]
fn equal_content_modification_yields_no_event() {
    // The same mapping with its keys in another order is no change.
    let old_side = br#"[{"id":"k","a":1,"b":2}]"#;
    let new_side = br#"[{"b":2,"a":1,"id":"k"}]"#;
    let mut agg = new_aggregator(String::from("id"));
    process_step(
        &mut agg,
        String::from("c4"),
        400,
        vec![modified("e.json", old_side, new_side)],
    )
    .unwrap();
    let out = assemble(agg).unwrap();
    let p = out.iter().find(|p| p.path == "e.json").expect("path missing");
    assert_eq!(p.entries.len(), 0);
}

#[test]
fn events_come_out_oldest_first() {
    let v1 = br#"[{"id":"x","v":1}]"#;
    let v2 = br#"[{"id":"x","v":2}]"#;
    let v3 = br#"[{"id":"x","v":3}]"#;
    let mut agg = new_aggregator(String::from("id"));
    process_step(&mut agg, String::from("c3"), 3, vec![modified("f.json", v2, v3)]).unwrap();
    process_step(&mut agg, String::from("c2"), 2, vec![modified("f.json", v1, v2)]).unwrap();
    let out = assemble(agg).unwrap();
    let r = entry(&out, "f.json", "x");
    assert_eq!(r.modified.len(), 2);
    assert_eq!(r.modified[0].commit, "c2");
    assert_eq!(r.modified[1].commit, "c3");
}

#[test]
fn output_keys_are_sorted() {
    let content = br#"[{"id":"zebra"},{"id":"alpha"},{"id":"mid"}]"#;
    let mut agg = new_aggregator(String::from("id"));
    process_step(&mut agg, String::from("c1"), 1, vec![added("g.json", content)]).unwrap();
    let out = assemble(agg).unwrap();
    let p = out.iter().find(|p| p.path == "g.json").unwrap();
    let keys: Vec<&str> = p.entries.iter().map(|e| e.0.as_str()).collect();
    assert_eq!(keys, vec!["alpha", "mid", "zebra"]);
}

#[test]
fn content_fault_names_commit_and_path() {
    let mut agg = new_aggregator(String::from("id"));
    let r = process_step(
        &mut agg,
        String::from("cbad"),
        7,
        vec![added("h.json", br#"{"not":"an array"}"#)],
    );
    match r {
        Err(HistoryError::ContentFormat { commit, path }) => {
            assert_eq!(commit, "cbad");
            assert_eq!(path, "h.json");
        },
        _ => panic!("expected a content-format error"),
    }
}

#[test]
fn out_of_range_timestamp_is_an_error() {
    let mut agg = new_aggregator(String::from("id"));
    process_step(
        &mut agg,
        String::from("cfar"),
        i64::MAX,
        vec![added("i.json", br#"[{"id":"x"}]"#)],
    )
    .unwrap();
    match assemble(agg) {
        Err(HistoryError::TimestampOutOfRange { commit, .. }) => {
            assert_eq!(commit, "cfar");
        },
        _ => panic!("expected a timestamp error"),
    }
}

#[test]
fn update_change_record_entry_appends_per_kind() {
    let mut tl: Vec<(String, record_history::aggregate::ChangeRecord)> = Vec::new();
    let inst = ChangeInstant { commit: String::from("c"), timestamp: 1 };
    update_change_record_entry(&mut tl, String::from("k"), inst, ChangeType::Added);
    let inst2 = ChangeInstant { commit: String::from("d"), timestamp: 2 };
    update_change_record_entry(&mut tl, String::from("k"), inst2, ChangeType::Modified);
    assert_eq!(tl.len(), 1);
    assert_eq!(tl[0].0, "k");
    assert_eq!(tl[0].1.added.len(), 1);
    assert_eq!(tl[0].1.added[0].commit, "c");
    assert_eq!(tl[0].1.modified.len(), 1);
    assert_eq!(tl[0].1.modified[0].commit, "d");
    assert_eq!(tl[0].1.removed.len(), 0);
}

#[test]
fn screening_filters_and_validates() {
    let commit = String::from("c0");
    let pattern = String::from("**/*.json");
    match screen_delta(&commit, &pattern, String::from("a/b.json"), String::from("a/b.json"),
        RawStatus::Modified) {
        Ok(Some(DeltaKind::Modified)) => {},
        _ => panic!("expected a selected modified delta"),
    }
    match screen_delta(&commit, &pattern, String::from("a/b.txt"), String::from("a/b.txt"),
        RawStatus::Modified) {
        Ok(None) => {},
        _ => panic!("expected the path to be filtered out"),
    }
    match screen_delta(&commit, &pattern, String::from("a.json"), String::from("b.json"),
        RawStatus::Modified) {
        Err(HistoryError::SchemaViolation { old_path, new_path, .. }) => {
            assert_eq!(old_path, "a.json");
            assert_eq!(new_path, "b.json");
        },
        _ => panic!("expected a schema violation"),
    }
    match screen_delta(&commit, &pattern, String::from("a.json"), String::from("a.json"),
        RawStatus::Renamed) {
        Err(HistoryError::UnsupportedDeltaStatus { path, .. }) => {
            assert_eq!(path, "a.json");
        },
        _ => panic!("expected an unsupported status"),
    }
}

fn meta(id: &str, name: &str, email: &str, has_parent: bool) -> CommitMeta {
    CommitMeta {
        id: String::from(id),
        author_name: String::from(name),
        author_email: String::from(email),
        has_parent,
    }
}

fn config(authors: Vec<&str>, ignore: Vec<&str>, until: Option<&str>) -> WalkConfig {
    WalkConfig {
        include_authors: authors.into_iter().map(String::from).collect(),
        ignore_revs: ignore.into_iter().map(String::from).collect(),
        until: until.map(String::from),
    }
}

#[test]
fn ignored_commit_is_skipped() {
    let m = meta("abc", "ann", "ann@x", true);
    let c = config(vec![], vec!["abc"], None);
    assert_eq!(walk_decision(&m, &c), WalkAction::Skip);
}

#[test]
fn until_boundary_stops_before_its_own_diff() {
    let m = meta("abc", "ann", "ann@x", true);
    let at_boundary = config(vec![], vec![], Some("abc"));
    assert_eq!(walk_decision(&m, &at_boundary), WalkAction::Stop);
    let newer = config(vec![], vec![], Some("zzz"));
    assert_eq!(walk_decision(&m, &newer), WalkAction::Process);
}

#[test]
fn ignored_boundary_is_skipped_not_stopped() {
    // An ignored commit that is also the stop boundary is skipped: the
    // walk continues past it.
    let m = meta("abc", "ann", "ann@x", true);
    let c = config(vec![], vec!["abc"], Some("abc"));
    assert_eq!(walk_decision(&m, &c), WalkAction::Skip);
}

#[test]
fn author_filter_skips_non_matching_commits() {
    let m = meta("abc", "ann", "ann@x", true);
    let by_name = config(vec!["ann"], vec![], None);
    assert_eq!(walk_decision(&m, &by_name), WalkAction::Process);
    let by_email = config(vec!["ann@x"], vec![], None);
    assert_eq!(walk_decision(&m, &by_email), WalkAction::Process);
    let other = config(vec!["bob"], vec![], None);
    assert_eq!(walk_decision(&m, &other), WalkAction::Skip);
    let none_set = config(vec![], vec![], None);
    assert_eq!(walk_decision(&m, &none_set), WalkAction::Process);
}

#[test]
fn root_commit_stops_the_walk() {
    let m = meta("abc", "ann", "ann@x", false);
    let c = config(vec![], vec![], None);
    assert_eq!(walk_decision(&m, &c), WalkAction::Stop);
}

#[test]
fn author_filter_never_changes_a_step() {
    // The same deltas folded with any author configuration give the same
    // events: the step function takes no author input at all.
    let bytes = br#"[{"id":"x","v":1}]"#;
    let mut a = new_aggregator(String::from("id"));
    let mut b = new_aggregator(String::from("id"));
    process_step(&mut a, String::from("c1"), 1, vec![added("p.json", bytes)]).unwrap();
    process_step(&mut b, String::from("c1"), 1, vec![added("p.json", bytes)]).unwrap();
    let oa = assemble(a).unwrap();
    let ob = assemble(b).unwrap();
    assert_eq!(oa.len(), ob.len());
    let ra = entry(&oa, "p.json", "x");
    let rb = entry(&ob, "p.json", "x");
    assert_eq!(ra.added.len(), rb.added.len());
    assert_eq!(ra.added[0].commit, rb.added[0].commit);
    assert_eq!(ra.added[0].timestamp, rb.added[0].timestamp);
}
