use wptfyi::landings::{
    extract_sync_points, filter_backouts, is_backout, split_lines, sync_point_from_entry,
    GeckoSyncPoint, GitHubPr, HgLogEntry, LandingData, SyncData,
};

fn commit(node: &str, desc: &str, push_date: i64) -> HgLogEntry {
    HgLogEntry { node: node.to_owned(), desc: desc.to_owned(), push_date }
}

#[test]
fn split_lines_handles_line_endings() {
    let lines = split_lines("a\r\nb\nc");
    assert_eq!(lines, vec!["a", "b", "c"]);
    assert_eq!(split_lines(""), Vec::<String>::new());
    assert_eq!(split_lines("x\n"), vec!["x"]);
    assert_eq!(split_lines("x\r"), vec!["x\r"]);
}

#[test]
fn backout_notices_are_recognized() {
    assert!(is_backout("Backed out 3 changesets (bug 1) for failures"));
    assert!(is_backout("Backed out 1 changeset (bug 2)"));
    assert!(!is_backout("Bug 3 - Update web-platform-tests to abcdef"));
    assert!(!is_backout("Backed out changesets"));
}

#[test]
fn update_commit_parses_revision() {
    let entry = commit(
        "f00dcafe0123",
        "Bug 1 - Update web-platform-tests to 0123456789abcdef, a=testonly",
        1700000000,
    );
    let point = sync_point_from_entry(&entry).unwrap();
    assert_eq!(point.wpt_rev, "0123456789abcdef");
    assert_eq!(point.push_date, 1700000000);
}

#[test]
fn malformed_commit_message_is_an_error() {
    let entry = commit("f00dcafe0123", "Bug 1 - something unrelated", 1);
    let err = sync_point_from_entry(&entry).unwrap_err();
    assert!(matches!(err, wptfyi::error::Error::BadCommitMessage));
}

#[test]
fn backed_out_commits_are_dropped() {
    let landed = commit(
        "aaaabbbbccccddddeeeeffff0000111122223333",
        "Bug 1 - Update web-platform-tests to 1111222233334444, a=testonly",
        10,
    );
    let backout = commit(
        "9999888877776666555544443333222211110000",
        "Backed out 1 changeset (bug 1) for test failures\n\
         Backed out changeset aaaabbbbccccddddeeeeffff0000111122223333 (bug 1)",
        11,
    );
    let survivor = commit(
        "0123456701234567012345670123456701234567",
        "Bug 2 - Update web-platform-tests to 5555666677778888, a=testonly",
        12,
    );
    // The log lists newest first: the backout precedes the commit it undoes.
    let kept = filter_backouts(vec![backout.clone(), landed, survivor]);
    assert_eq!(kept.len(), 1);
    assert_eq!(kept[0].node, "0123456701234567012345670123456701234567");

    let points = extract_sync_points(vec![
        commit(
            "9999888877776666555544443333222211110000",
            "Backed out 1 changeset (bug 1) for test failures\n\
             Backed out changeset aaaabbbbccccddddeeeeffff0000111122223333 (bug 1)",
            11,
        ),
        commit(
            "aaaabbbbccccddddeeeeffff0000111122223333",
            "Bug 1 - Update web-platform-tests to 1111222233334444, a=testonly",
            10,
        ),
        commit(
            "0123456701234567012345670123456701234567",
            "Bug 2 - Update web-platform-tests to 5555666677778888, a=testonly",
            12,
        ),
    ]);
    assert_eq!(points.len(), 1);
    assert_eq!(points[0].wpt_rev, "5555666677778888");
}

#[test]
fn unrelated_commits_survive_a_backout() {
    let backout = commit(
        "9999888877776666555544443333222211110000",
        "Backed out 1 changeset (bug 1)\n\
         Backed out changeset ffffffffffffffffffffffffffffffffffffffff (bug 1)",
        11,
    );
    let other = commit(
        "aaaabbbbccccddddeeeeffff0000111122223333",
        "Bug 1 - Update web-platform-tests to 1111222233334444, a=testonly",
        10,
    );
    let kept = filter_backouts(vec![backout, other]);
    assert_eq!(kept.len(), 1);
    assert_eq!(kept[0].node, "aaaabbbbccccddddeeeeffff0000111122223333");
}

#[test]
fn landing_history_missing_and_insert() {
    let mut history = LandingData::new(SyncData::new());
    let p1 = GeckoSyncPoint { wpt_rev: "abc".to_owned(), push_date: 1 };
    let p2 = GeckoSyncPoint { wpt_rev: "def".to_owned(), push_date: 2 };
    let missing = history.missing(&vec![p1.clone(), p2.clone()]);
    assert_eq!(missing.len(), 2);
    history.insert(p1, GitHubPr { number: 7, closed_at: 5 });
    let missing = history.missing(&vec![
        GeckoSyncPoint { wpt_rev: "abc".to_owned(), push_date: 1 },
        GeckoSyncPoint { wpt_rev: "def".to_owned(), push_date: 2 },
    ]);
    assert_eq!(missing.len(), 1);
    assert_eq!(missing[0].wpt_rev, "def");
    assert_eq!(history.sync_data.landings.len(), 1);
    assert_eq!(history.sync_data.landings[0].wpt_pr, 7);
    assert_eq!(history.sync_data.landings[0].wpt_merge_time, 5);
    assert_eq!(history.sync_data.landings[0].gecko_push_time, 1);
}
