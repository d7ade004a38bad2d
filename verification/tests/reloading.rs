use roster_sync::hub::Hub;
use roster_sync::reload::{read_contents, Reloader, SourceFile};
use roster_sync::roster::parse;
use roster_sync::roster_set::{clone_set, parse_all, same_texts};
use roster_sync::table::Table;
use roster_sync::watch::{
    on_notification, team_path_indices, ChangeEvent, ChangeKind, WatchStep, SETTLE_MILLIS,
};

fn file(name: &str, content: Option<&str>) -> SourceFile {
    SourceFile { name: name.to_string(), content: content.map(|c| c.to_string()) }
}

fn event(kind: ChangeKind, names: &[Option<&str>]) -> ChangeEvent {
    ChangeEvent { kind, file_names: names.iter().map(|n| n.map(|s| s.to_string())).collect() }
}

#[test]
fn the_settle_delay_is_150_ms() {
    assert_eq!(SETTLE_MILLIS, 150);
}

#[test]
fn the_end_of_the_notifications_stops_the_loop() {
    assert_eq!(on_notification(None), WatchStep::Stop);
}

#[test]
fn changes_to_other_files_are_ignored() {
    for kind in [
        ChangeKind::Created,
        ChangeKind::Modified,
        ChangeKind::Removed,
        ChangeKind::Any,
        ChangeKind::Other,
    ] {
        let e = event(kind, &[Some("notes.txt"), None, Some("Team.txt")]);
        assert_eq!(on_notification(Some(&e)), WatchStep::Ignore);
        let none = event(kind, &[]);
        assert_eq!(on_notification(Some(&none)), WatchStep::Ignore);
    }
}

#[test]
fn changes_to_roster_files_settle() {
    for kind in [ChangeKind::Created, ChangeKind::Modified, ChangeKind::Any] {
        let e = event(kind, &[Some("notes.txt"), Some("team.txt")]);
        assert_eq!(on_notification(Some(&e)), WatchStep::Settle);
    }
    let other = event(ChangeKind::Other, &[Some("team.txt")]);
    assert_eq!(on_notification(Some(&other)), WatchStep::Ignore);
}

#[test]
fn a_removal_rearms_the_roster_files_among_its_paths() {
    let e = event(
        ChangeKind::Removed,
        &[Some("a.txt"), Some("team.txt"), None, Some("old-team.txt"), Some("b")],
    );
    assert_eq!(on_notification(Some(&e)), WatchStep::Rearm(vec![1, 3]));
    assert_eq!(team_path_indices(&e.file_names), vec![1, 3]);
    assert_eq!(team_path_indices(&vec![]), Vec::<usize>::new());
}

#[test]
fn a_file_that_is_removed_and_made_anew_is_reloaded() {
    let mut reloader = Reloader::new();
    assert!(reloader.reload(&vec![file("team.txt", Some("a\n"))]).is_some());
    let gone = event(ChangeKind::Removed, &[Some("team.txt")]);
    assert_eq!(on_notification(Some(&gone)), WatchStep::Rearm(vec![0]));
    let back = event(ChangeKind::Created, &[Some("team.txt")]);
    assert_eq!(on_notification(Some(&back)), WatchStep::Settle);
    let set = reloader.reload(&vec![file("team.txt", Some("b\n"))]).unwrap();
    assert_eq!(set.get("team"), Some(&parse("b\n")));
}

#[test]
fn contents_are_kept_by_identifier() {
    let files = vec![
        file("team.txt", Some("a")),
        file("other-team.txt", None),
        file("team2.txt", Some("b")),
        file("team.md", Some("c")),
    ];
    let texts = read_contents(&files);
    assert_eq!(texts.len(), 2);
    assert_eq!(texts.get("team"), Some(&"c".to_string()));
    assert_eq!(texts.get("team2"), Some(&"b".to_string()));
    assert_eq!(texts.get("other-team"), None);
    assert_eq!(texts.get("team.txt"), None);
}

#[test]
fn the_first_reload_publishes() {
    let mut reloader = Reloader::new();
    let set = reloader
        .reload(&vec![file("team.txt", Some("pikachu\ncharizard:Sparky\n"))])
        .unwrap();
    assert_eq!(set.len(), 1);
    assert_eq!(set.get("team"), Some(&parse("pikachu\ncharizard:Sparky\n")));
    let mut empty = Reloader::new();
    let none = empty.reload(&vec![]).unwrap();
    assert_eq!(none.len(), 0);
}

#[test]
fn the_same_content_publishes_nothing() {
    let mut reloader = Reloader::new();
    let files = vec![file("team.txt", Some("a\nb\n")), file("team2.txt", Some("c\n"))];
    assert!(reloader.reload(&files).is_some());
    assert!(reloader.reload(&files).is_none());
    assert!(reloader.reload(&files).is_none());
    let swapped = vec![file("team2.txt", Some("c\n")), file("team.txt", Some("a\nb\n"))];
    assert!(reloader.reload(&swapped).is_none());
}

#[test]
fn two_writes_in_one_window_publish_once() {
    let mut reloader = Reloader::new();
    assert!(reloader.reload(&vec![file("team.txt", Some("old\n"))]).is_some());
    let first = event(ChangeKind::Modified, &[Some("team.txt")]);
    let second = event(ChangeKind::Modified, &[Some("team.txt")]);
    let settled = vec![file("team.txt", Some("final\n"))];
    let mut published = Vec::new();
    for e in [&first, &second] {
        assert_eq!(on_notification(Some(e)), WatchStep::Settle);
        if let Some(set) = reloader.reload(&settled) {
            published.push(set);
        }
    }
    assert_eq!(published.len(), 1);
    assert_eq!(published[0].get("team"), Some(&parse("final\n")));
}

#[test]
fn any_change_of_content_publishes() {
    let mut reloader = Reloader::new();
    assert!(reloader.reload(&vec![file("team.txt", Some("a\n"))]).is_some());
    let white = reloader.reload(&vec![file("team.txt", Some("a\n\n"))]).unwrap();
    assert_eq!(white.get("team"), Some(&parse("a\n")));
    let more = reloader
        .reload(&vec![file("team.txt", Some("a\n\n")), file("team2.txt", Some(""))])
        .unwrap();
    assert_eq!(more.len(), 2);
    let fewer = reloader.reload(&vec![file("team2.txt", Some(""))]).unwrap();
    assert_eq!(fewer.len(), 1);
    assert!(fewer.get("team").is_none());
}

#[test]
fn a_file_that_cannot_be_read_is_left_out() {
    let mut reloader = Reloader::new();
    let set = reloader
        .reload(&vec![file("team.txt", None), file("team2.txt", Some("x\n"))])
        .unwrap();
    assert_eq!(set.len(), 1);
    assert!(set.get("team").is_none());
    assert_eq!(set.get("team2"), Some(&parse("x\n")));
}

#[test]
fn settle_publishes_on_the_hub() {
    let mut hub = Hub::new(Table::new());
    let mut reloader = Reloader::new();
    let id = hub.subscribe();
    let files = vec![file("team.txt", Some("a\n"))];
    assert!(reloader.settle(&mut hub, &files));
    assert!(!reloader.settle(&mut hub, &files));
    assert_eq!(hub.current().get("team"), Some(&parse("a\n")));
    assert!(hub.is_attached(id));
}

#[test]
fn tables_replace_by_identifier() {
    let mut t: Table<String> = Table::new();
    assert_eq!(t.len(), 0);
    assert!(t.entry(0).is_none());
    t.insert("a".to_string(), "1".to_string());
    t.insert("b".to_string(), "2".to_string());
    t.insert("a".to_string(), "3".to_string());
    assert_eq!(t.len(), 2);
    assert_eq!(t.get("a"), Some(&"3".to_string()));
    assert_eq!(t.get("b"), Some(&"2".to_string()));
    assert_eq!(t.get("c"), None);
    assert_eq!(t.entry(0), Some((&"a".to_string(), &"3".to_string())));
    assert_eq!(t.entry(1), Some((&"b".to_string(), &"2".to_string())));
    assert_eq!(t.entry(2), None);
}

#[test]
fn texts_are_compared_by_identifier() {
    let mut a: Table<String> = Table::new();
    let mut b: Table<String> = Table::new();
    assert!(same_texts(&a, &b));
    a.insert("x".to_string(), "1".to_string());
    assert!(!same_texts(&a, &b));
    assert!(!same_texts(&b, &a));
    b.insert("y".to_string(), "2".to_string());
    assert!(!same_texts(&a, &b));
    a.insert("y".to_string(), "2".to_string());
    b.insert("x".to_string(), "1".to_string());
    assert!(same_texts(&a, &b));
    b.insert("x".to_string(), "one".to_string());
    assert!(!same_texts(&a, &b));
}

#[test]
fn roster_sets_are_parsed_and_copied() {
    let mut texts: Table<String> = Table::new();
    texts.insert("team".to_string(), "a\nb:B\n".to_string());
    texts.insert("team2".to_string(), "".to_string());
    let set = parse_all(&texts);
    assert_eq!(set.len(), 2);
    assert_eq!(set.get("team"), Some(&parse("a\nb:B\n")));
    assert_eq!(set.get("team2"), Some(&parse("")));
    let copy = clone_set(&set);
    assert_eq!(copy.len(), 2);
    assert_eq!(copy.entry(0), set.entry(0));
    assert_eq!(copy.entry(1), set.entry(1));
}
