use vidl::data::Channel;
use vidl::data::Data;
use vidl::data::Video;
use vidl::scan::list_videos;
use vidl::scan::watched_destination;
use vidl::scan::ScanEntry;

fn video(title: &str, location: &str) -> Video {
    Video { title: title.to_string(), location: location.to_string() }
}

fn channel(name: &str, videos: Vec<Video>) -> Channel {
    Channel { name: name.to_string(), videos }
}

fn sample() -> Data {
    Data {
        channels: vec![
            channel(
                "gamma",
                vec![video("Evening News", "/v/gamma__1en.mp4")],
            ),
            channel(
                "Alpha",
                vec![
                    video("zeta cut", "/v/Alpha__2z.mp4"),
                    video("Morning Show", "/v/Alpha__1m.mp4"),
                ],
            ),
            channel("beta", vec![video("quiet hour", "/v/beta__1q.mp4")]),
        ],
    }
}

#[test]
fn channel_list_empty_search_lists_all_sorted_ci() {
    let data = sample();
    assert_eq!(
        data.channel_list(""),
        vec!["Alpha".to_string(), "beta".to_string(), "gamma".to_string()]
    );
}

#[test]
fn channel_list_matches_name_case_insensitively() {
    let data = sample();
    assert_eq!(data.channel_list("ALPHA"), vec!["Alpha".to_string()]);
    assert_eq!(data.channel_list("BeT"), vec!["beta".to_string()]);
    assert!(data.channel_list("delta").is_empty());
}

#[test]
fn channel_list_matches_video_title_case_insensitively() {
    let data = sample();
    assert_eq!(data.channel_list("MORNING"), vec!["Alpha".to_string()]);
    assert_eq!(data.channel_list("news"), vec!["gamma".to_string()]);
}

#[test]
fn channel_list_no_duplicate_for_double_match() {
    // "bar" matches the channel name and a video title; the name appears once.
    let data = Data {
        channels: vec![channel("Bar", vec![video("bar.mp4", "/v/Bar__1bar.mp4")])],
    };
    assert_eq!(data.channel_list("bar"), vec!["Bar".to_string()]);
}

#[test]
fn list_videos_empty_search_lists_all_sorted_ci() {
    let data = sample();
    assert_eq!(
        data.list_videos("Alpha", ""),
        vec!["Morning Show".to_string(), "zeta cut".to_string()]
    );
}

#[test]
fn list_videos_unknown_channel_is_empty() {
    let data = sample();
    assert!(data.list_videos("nonexistent", "").is_empty());
    assert!(data.list_videos("nonexistent", "anything").is_empty());
}

#[test]
fn list_videos_filters_by_title() {
    let data = sample();
    assert_eq!(data.list_videos("Alpha", "zeta"), vec!["zeta cut".to_string()]);
    assert!(data.list_videos("Alpha", "news").is_empty());
}

#[test]
fn list_videos_channel_name_match_surfaces_all() {
    // A search that matches the channel name brings up every video of the
    // channel, titles included that do not match themselves.
    let data = sample();
    assert_eq!(
        data.list_videos("Alpha", "alph"),
        vec!["Morning Show".to_string(), "zeta cut".to_string()]
    );
}

#[test]
fn get_video_exact_title_only() {
    let data = sample();
    let v = data.get_video("Alpha", "Morning Show").expect("video should be found");
    assert_eq!(v.location, "/v/Alpha__1m.mp4");
    assert!(data.get_video("Alpha", "morning show").is_none());
    assert!(data.get_video("Alpha", "Evening News").is_none());
    assert!(data.get_video("delta", "Morning Show").is_none());
}

#[test]
fn get_video_first_match_wins_on_duplicate_titles() {
    let data = Data {
        channels: vec![channel(
            "C",
            vec![video("same", "/v/C__1a.mp4"), video("same", "/v/C__2b.mp4")],
        )],
    };
    let v = data.get_video("C", "same").expect("video should be found");
    assert_eq!(v.location, "/v/C__1a.mp4");
    assert_eq!(data.list_videos("C", "").len(), 2);
}

#[test]
fn sort_videos_orders_by_location() {
    let mut data = Data {
        channels: vec![channel(
            "C",
            vec![
                video("late", "/v/C__3z.mp4"),
                video("early", "/v/C__1a.mp4"),
                video("middle", "/v/C__2m.mp4"),
            ],
        )],
    };
    data.sort_videos();
    let locs: Vec<&str> =
        data.channels[0].videos.iter().map(|v| v.location.as_str()).collect();
    assert_eq!(locs, vec!["/v/C__1a.mp4", "/v/C__2m.mp4", "/v/C__3z.mp4"]);
    let titles: Vec<&str> =
        data.channels[0].videos.iter().map(|v| v.title.as_str()).collect();
    assert_eq!(titles, vec!["early", "middle", "late"]);
}

#[test]
fn remove_video_drops_exactly_the_first_match() {
    let mut data = sample();
    assert!(data.remove_video("Alpha", "zeta cut"));
    assert_eq!(data.list_videos("Alpha", ""), vec!["Morning Show".to_string()]);
    assert!(data.get_video("Alpha", "zeta cut").is_none());
    assert!(!data.remove_video("Alpha", "zeta cut"));
    assert_eq!(data.channels.len(), 3);
}

#[test]
fn remove_video_unknown_is_noop() {
    let mut data = sample();
    assert!(!data.remove_video("delta", "zeta cut"));
    assert!(!data.remove_video("Alpha", "no such title"));
    assert_eq!(data.channel_list("").len(), 3);
}

#[test]
fn mark_watched_workflow_in_memory() {
    // Scan, pick "Bar.mp4" in "Foo", compute the move destination under the
    // pre-existing watched subdirectory, and drop the entry from the catalog.
    let entries = vec![
        ScanEntry {
            name: "Foo__1Bar.mp4".to_string(),
            path: "/root/Foo__1Bar.mp4".to_string(),
            is_file: true,
        },
        ScanEntry {
            name: "Foo__2Baz.mp4".to_string(),
            path: "/root/Foo__2Baz.mp4".to_string(),
            is_file: true,
        },
        ScanEntry { name: "watched".to_string(), path: "/root/watched".to_string(), is_file: false },
    ];
    let mut data = list_videos(&entries);
    let v = data.get_video("Foo", "Bar.mp4").expect("video should be found");
    let dest = watched_destination(&v.location).expect("path should have a parent");
    assert_eq!(dest, "/root/watched/Foo__1Bar.mp4");
    assert!(data.remove_video("Foo", "Bar.mp4"));
    assert_eq!(data.list_videos("Foo", ""), vec!["Baz.mp4".to_string()]);
    assert!(data.get_video("Foo", "Bar.mp4").is_none());
}
