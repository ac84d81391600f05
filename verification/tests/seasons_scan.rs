use episode_renamer::scan::{
    collect_media_files, directory_size_from_events, is_video_file, label_with_size,
    sort_entries_by_size_desc, FileInfo, ScanEvent, ScanOutcome, SizeOutcome, SizedEntry,
};
use episode_renamer::seasons::{
    group_by_season_boundary, group_by_year, group_fixed_chunks, premiered_year_of,
    select_jikan_anime, select_tvmaze_show, titles_with_default, Aired, JikanEpisode,
    JikanSearchAnime, TVMazeEpisode, TVMazeSearchResponse, TVMazeShow, year_of_date,
};

fn titles(n: u32) -> Vec<String> {
    (1..=n).map(|i| format!("Episode {}", i)).collect()
}

#[test]
fn chunking_cuts_every_twelve_episodes() {
    let seasons = group_fixed_chunks(&titles(25));
    assert_eq!(seasons.len(), 3);
    assert_eq!(
        (seasons[0].season, seasons[0].start_episode, seasons[0].end_episode),
        (1, 1, 12)
    );
    assert_eq!(
        (seasons[1].season, seasons[1].start_episode, seasons[1].end_episode),
        (2, 13, 24)
    );
    assert_eq!(
        (seasons[2].season, seasons[2].start_episode, seasons[2].end_episode),
        (3, 25, 25)
    );
    assert_eq!(seasons[0].titles.len(), 12);
    assert_eq!(seasons[2].titles, vec!["Episode 25".to_string()]);
}

#[test]
fn chunking_of_nothing_yields_one_empty_season() {
    let seasons = group_fixed_chunks(&Vec::new());
    assert_eq!(seasons.len(), 1);
    assert_eq!(
        (seasons[0].season, seasons[0].start_episode, seasons[0].end_episode),
        (1, 1, 0)
    );
    assert!(seasons[0].titles.is_empty());
}

fn tvmaze_ep(season: i32, number: i32, name: Option<&str>) -> TVMazeEpisode {
    TVMazeEpisode {
        season,
        number,
        name: name.map(|s| s.to_string()),
        airdate: None,
    }
}

#[test]
fn boundary_grouping_closes_on_season_change() {
    let eps = vec![
        tvmaze_ep(1, 1, Some("a")),
        tvmaze_ep(1, 2, Some("b")),
        tvmaze_ep(2, 1, None),
    ];
    let seasons = group_by_season_boundary(&eps);
    assert_eq!(seasons.len(), 2);
    assert_eq!(
        (seasons[0].season, seasons[0].start_episode, seasons[0].end_episode),
        (1, 1, 2)
    );
    assert_eq!(seasons[0].titles, vec!["a".to_string(), "b".to_string()]);
    assert_eq!(
        (seasons[1].season, seasons[1].start_episode, seasons[1].end_episode),
        (2, 3, 3)
    );
    assert_eq!(seasons[1].titles, vec!["Unknown Title".to_string()]);
}

#[test]
fn boundary_grouping_of_nothing_is_empty() {
    assert!(group_by_season_boundary(&Vec::new()).is_empty());
}

fn jikan_ep(title: &str, aired: Option<&str>) -> JikanEpisode {
    JikanEpisode {
        title: Some(title.to_string()),
        aired: aired.map(|s| s.to_string()),
    }
}

#[test]
fn year_buckets_come_back_sorted() {
    // Input deliberately out of year order.
    let eps = vec![
        jikan_ep("c", Some("2021-01-01")),
        jikan_ep("a", Some("2020-01-01")),
        jikan_ep("b", Some("2020-06-01")),
    ];
    let seasons = group_by_year(&eps);
    assert_eq!(seasons.len(), 2);
    assert_eq!(seasons[0].season, 2020);
    assert_eq!(seasons[0].titles, vec!["a".to_string(), "b".to_string()]);
    assert_eq!((seasons[0].start_episode, seasons[0].end_episode), (2, 3));
    assert_eq!(seasons[1].season, 2021);
    assert_eq!(seasons[1].titles, vec!["c".to_string()]);
    assert_eq!((seasons[1].start_episode, seasons[1].end_episode), (1, 1));
}

#[test]
fn unreadable_dates_bucket_under_year_zero() {
    let eps = vec![
        jikan_ep("a", None),
        jikan_ep("b", Some("2020-01-01")),
        jikan_ep("c", Some("sometime")),
    ];
    let seasons = group_by_year(&eps);
    assert_eq!(seasons.len(), 2);
    assert_eq!(seasons[0].season, 0);
    assert_eq!(seasons[0].titles, vec!["a".to_string(), "c".to_string()]);
    assert_eq!(seasons[1].season, 2020);
}

#[test]
fn year_prefix_parsing() {
    assert_eq!(year_of_date("2020-01-01"), 2020);
    assert_eq!(year_of_date("600-01-01"), 600);
    assert_eq!(year_of_date("20X0-01-01"), 0);
    assert_eq!(year_of_date("-01-01"), 0);
    assert_eq!(year_of_date(""), 0);
}

#[test]
fn missing_titles_get_a_stand_in() {
    let eps = vec![
        JikanEpisode { title: None, aired: None },
        jikan_ep("named", None),
    ];
    let out = titles_with_default(&eps);
    assert_eq!(out, vec!["Unknown Title".to_string(), "named".to_string()]);
}

fn tvmaze_hit(id: i32, premiered: Option<&str>) -> TVMazeSearchResponse {
    TVMazeSearchResponse {
        show: TVMazeShow {
            id,
            name: format!("show {}", id),
            premiered: premiered.map(|s| s.to_string()),
        },
    }
}

#[test]
fn tvmaze_selection_honours_the_year() {
    let hits = vec![
        tvmaze_hit(1, Some("2019-05-01")),
        tvmaze_hit(2, None),
        tvmaze_hit(3, Some("2021-02-01")),
    ];
    assert_eq!(select_tvmaze_show(&hits, Some(2021)), Some(2));
    assert_eq!(select_tvmaze_show(&hits, Some(1999)), None);
    assert_eq!(select_tvmaze_show(&hits, None), Some(0));
    assert_eq!(select_tvmaze_show(&Vec::new(), None), None);
}

#[test]
fn jikan_selection_honours_the_year() {
    let hits = vec![
        JikanSearchAnime {
            mal_id: 7,
            title: "one".to_string(),
            aired: Aired { from: Some("2019-05-01".to_string()) },
        },
        JikanSearchAnime {
            mal_id: 8,
            title: "two".to_string(),
            aired: Aired { from: Some("2021-01-01".to_string()) },
        },
    ];
    assert_eq!(select_jikan_anime(&hits, Some(2021)), Some(1));
    assert_eq!(select_jikan_anime(&hits, None), Some(0));
}

#[test]
fn premiere_year_is_the_date_prefix() {
    assert_eq!(
        premiered_year_of(&Some("2020-01-01".to_string())),
        Some("2020".to_string())
    );
    assert_eq!(premiered_year_of(&None), None);
}

#[test]
fn video_extensions_ignore_case() {
    assert!(is_video_file("a.mkv"));
    assert!(is_video_file("a.MKV"));
    assert!(is_video_file("b.Mp4"));
    assert!(is_video_file("c.webm"));
    assert!(is_video_file("d.m4v"));
    assert!(!is_video_file("a.txt"));
    assert!(!is_video_file("noext"));
    assert!(!is_video_file(".mp4"));
    assert!(!is_video_file("a.mkv.part"));
}

fn found(path: &str, name: &str, is_dir: bool, size: u64) -> ScanEvent {
    ScanEvent::Found {
        path: path.to_string(),
        name: name.to_string(),
        is_dir,
        size,
    }
}

#[test]
fn cancellation_yields_no_partial_file_list() {
    let events = vec![
        found("/v/a.mkv", "a.mkv", false, 10),
        ScanEvent::Cancelled,
        found("/v/b.mkv", "b.mkv", false, 10),
    ];
    assert!(matches!(collect_media_files(&events), ScanOutcome::Cancelled));
    assert!(matches!(
        directory_size_from_events(&events),
        SizeOutcome::Cancelled
    ));
}

#[test]
fn scan_skips_failed_reads_but_keeps_the_rest() {
    let events = vec![
        found("/v/a.mkv", "a.mkv", false, 10),
        ScanEvent::ReadFailed,
        found("/v/sub", "sub", true, 0),
        found("/v/sub/b?.mkv", "b?.mkv", false, 20),
        found("/v/notes.txt", "notes.txt", false, 5),
    ];
    match collect_media_files(&events) {
        ScanOutcome::Completed(files) => {
            assert_eq!(files.len(), 2);
            assert_eq!(files[0].name, "a.mkv");
            assert_eq!(files[0].path, "/v/a.mkv");
            assert!(files[0].is_video);
            assert!(!files[0].is_dir);
            // The question mark is not allowed in a file name; handing the
            // name back unsanitised would fail this.
            assert_eq!(files[1].name, "b.mkv");
        },
        ScanOutcome::Cancelled => panic!("nothing was cancelled"),
    }
}

#[test]
fn directory_size_sums_files_only() {
    let events = vec![
        found("/v/a.mkv", "a.mkv", false, 10),
        found("/v/sub", "sub", true, 4096),
        found("/v/b.txt", "b.txt", false, 32),
    ];
    match directory_size_from_events(&events) {
        SizeOutcome::Completed(total) => assert_eq!(total, 42),
        SizeOutcome::Cancelled => panic!("nothing was cancelled"),
    }
}

fn entry(name: &str, size: u64) -> SizedEntry {
    SizedEntry {
        info: FileInfo {
            path: format!("/v/{}", name),
            is_dir: false,
            is_video: true,
            name: name.to_string(),
        },
        size,
    }
}

#[test]
fn size_report_sorts_largest_first() {
    let entries = vec![entry("small", 5), entry("huge", 99999999999), entry("mid", 2048)];
    let sorted = sort_entries_by_size_desc(&entries);
    assert_eq!(sorted.len(), 3);
    assert_eq!(sorted[0].info.name, "huge");
    assert_eq!(sorted[1].info.name, "mid");
    assert_eq!(sorted[2].info.name, "small");
    let labelled = label_with_size(&sorted[1].info, sorted[1].size);
    assert_eq!(labelled.name, "mid - 2.00 KB");
    assert_eq!(labelled.path, "/v/mid");
}
