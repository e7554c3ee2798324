use vidl::scan::list_videos;
use vidl::scan::parse_filename;
use vidl::scan::watched_destination;
use vidl::scan::ScanEntry;

fn file(name: &str, dir: &str) -> ScanEntry {
    ScanEntry { name: name.to_string(), path: format!("{}/{}", dir, name), is_file: true }
}

fn subdir(name: &str, dir: &str) -> ScanEntry {
    ScanEntry { name: name.to_string(), path: format!("{}/{}", dir, name), is_file: false }
}

#[test]
fn parse_splits_channel_and_title() {
    let r = parse_filename("Foo__1Bar.mp4");
    assert_eq!(r, Some(("Foo".to_string(), "Bar.mp4".to_string())));
}

#[test]
fn parse_skips_hidden() {
    assert_eq!(parse_filename(".hidden__1x.mp4"), None);
}

#[test]
fn parse_skips_no_delimiter() {
    assert_eq!(parse_filename("NoDelim.mp4"), None);
    assert_eq!(parse_filename(""), None);
    assert_eq!(parse_filename("_x_y"), None);
}

#[test]
fn parse_splits_at_first_delimiter() {
    let r = parse_filename("a__1b__2c");
    assert_eq!(r, Some(("a".to_string(), "b__2c".to_string())));
}

#[test]
fn parse_allows_empty_channel_and_title() {
    assert_eq!(parse_filename("__1X.mp4"), Some(("".to_string(), "X.mp4".to_string())));
    assert_eq!(parse_filename("a__b"), Some(("a".to_string(), "".to_string())));
}

#[test]
fn parse_skips_delimiter_without_separator() {
    assert_eq!(parse_filename("ab__"), None);
}

#[test]
fn scan_groups_and_skips() {
    // Root holds Foo__1Bar.mp4, Foo__2Baz.mp4, .hidden__1x.mp4, NoDelim.mp4:
    // one channel "Foo" with "Bar.mp4" then "Baz.mp4", nothing else.
    let entries = vec![
        file("Foo__2Baz.mp4", "/root"),
        file("Foo__1Bar.mp4", "/root"),
        file(".hidden__1x.mp4", "/root"),
        file("NoDelim.mp4", "/root"),
    ];
    let data = list_videos(&entries);
    assert_eq!(data.channels.len(), 1);
    assert_eq!(data.channels[0].name, "Foo");
    let titles: Vec<&str> =
        data.channels[0].videos.iter().map(|v| v.title.as_str()).collect();
    assert_eq!(titles, vec!["Bar.mp4", "Baz.mp4"]);
    let list = data.channel_list("");
    assert_eq!(list, vec!["Foo".to_string()]);
}

#[test]
fn scan_search_matches_title_not_name() {
    let entries = vec![
        file("Foo__2Baz.mp4", "/root"),
        file("Foo__1Bar.mp4", "/root"),
        file(".hidden__1x.mp4", "/root"),
        file("NoDelim.mp4", "/root"),
    ];
    let data = list_videos(&entries);
    assert_eq!(data.channel_list("baz"), vec!["Foo".to_string()]);
}

#[test]
fn scan_skips_directories() {
    let entries = vec![
        file("Foo__1Bar.mp4", "/root"),
        subdir("watched", "/root"),
        subdir("Other__1Dir.mp4", "/root"),
    ];
    let data = list_videos(&entries);
    assert_eq!(data.channels.len(), 1);
    assert_eq!(data.channels[0].name, "Foo");
}

#[test]
fn scan_sorts_each_channel_by_location() {
    let entries = vec![
        file("Chan__3zz.mp4", "/root"),
        file("Chan__1aa.mp4", "/root"),
        file("Chan__2mm.mp4", "/root"),
    ];
    let data = list_videos(&entries);
    assert_eq!(data.channels.len(), 1);
    let locs: Vec<&str> =
        data.channels[0].videos.iter().map(|v| v.location.as_str()).collect();
    assert_eq!(
        locs,
        vec!["/root/Chan__1aa.mp4", "/root/Chan__2mm.mp4", "/root/Chan__3zz.mp4"]
    );
}

#[test]
fn scan_of_nothing_is_empty() {
    let entries: Vec<ScanEntry> = vec![];
    let data = list_videos(&entries);
    assert_eq!(data.channels.len(), 0);
    assert!(data.channel_list("").is_empty());
}

#[test]
fn scan_two_channels_sorted() {
    let entries = vec![file("A__1x.mp4", "/root"), file("B__1x.mp4", "/root")];
    let data = list_videos(&entries);
    assert_eq!(
        data.channel_list(""),
        vec!["A".to_string(), "B".to_string()]
    );
}

#[test]
fn watched_destination_is_sibling_subdirectory() {
    assert_eq!(
        watched_destination("/root/Foo__1Bar.mp4"),
        Some("/root/watched/Foo__1Bar.mp4".to_string())
    );
    assert_eq!(
        watched_destination("/a/b/c.mp4"),
        Some("/a/b/watched/c.mp4".to_string())
    );
}

#[test]
fn watched_destination_without_parent_is_none() {
    assert_eq!(watched_destination("bare-filename.mp4"), None);
    assert_eq!(watched_destination(""), None);
}
