use roster_sync::assets::{asset_path, content_type};
use roster_sync::discovery::{is_team_file, team_files, team_id, DirItem};

fn item(name: &str, is_file: bool) -> DirItem {
    DirItem { name: name.to_string(), is_file }
}

#[test]
fn team_files_are_the_regular_files_with_team_in_their_name() {
    let listing = vec![
        item("team.txt", true),
        item("notes.txt", true),
        item("teams", false),
        item("my-team-2.md", true),
        item("Team.txt", true),
        item("steam", true),
        item("te am.txt", true),
    ];
    assert_eq!(team_files(&listing), vec!["team.txt", "my-team-2.md", "steam"]);
    assert_eq!(team_files(&vec![]), Vec::<String>::new());
}

#[test]
fn the_team_mark_is_case_sensitive() {
    assert!(is_team_file("team.txt"));
    assert!(is_team_file("xxteamxx"));
    assert!(is_team_file("team"));
    assert!(!is_team_file("TEAM.txt"));
    assert!(!is_team_file("Team"));
    assert!(!is_team_file("tea"));
    assert!(!is_team_file(""));
    assert!(!is_team_file("t.eam"));
}

#[test]
fn the_identifier_drops_the_last_extension_only() {
    assert_eq!(team_id("team.txt"), "team");
    assert_eq!(team_id("team"), "team");
    assert_eq!(team_id("my.team.txt"), "my.team");
    assert_eq!(team_id("team."), "team");
    assert_eq!(team_id(".team"), "");
    assert_eq!(team_id("team.tar.gz"), "team.tar");
    assert_eq!(team_id(""), "");
}

#[test]
fn content_type_goes_by_the_extension() {
    assert_eq!(content_type("index.html"), "text/html; charset=utf-8");
    assert_eq!(content_type("app.js"), "text/javascript; charset=utf-8");
    assert_eq!(content_type("style.css"), "text/css; charset=utf-8");
    assert_eq!(content_type("logo.svg"), "image/svg+xml");
    assert_eq!(content_type("sprite.png"), "image/png");
    assert_eq!(content_type("photo.jpg"), "image/jpeg");
    assert_eq!(content_type("photo.jpeg"), "image/jpeg");
    assert_eq!(content_type("font.woff2"), "font/woff2");
    assert_eq!(content_type("data.bin"), "application/octet-stream");
}

#[test]
fn content_type_reads_the_last_extension() {
    assert_eq!(content_type("a.html.png"), "image/png");
    assert_eq!(content_type("dir.css/file.js"), "text/javascript; charset=utf-8");
    assert_eq!(content_type("html"), "text/html; charset=utf-8");
    assert_eq!(content_type(".css"), "text/css; charset=utf-8");
    assert_eq!(content_type("index.HTML"), "application/octet-stream");
    assert_eq!(content_type("index.html."), "application/octet-stream");
    assert_eq!(content_type(""), "application/octet-stream");
    assert_eq!(content_type("file.htm"), "application/octet-stream");
    assert_eq!(content_type("file.woff"), "application/octet-stream");
}

#[test]
fn the_empty_path_names_the_index_page() {
    assert_eq!(asset_path(""), "index.html");
    assert_eq!(asset_path("app.js"), "app.js");
    assert_eq!(asset_path("/"), "/");
    assert_eq!(content_type(asset_path("")), "text/html; charset=utf-8");
}
