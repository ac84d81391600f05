use std::collections::HashSet;

use episode_renamer::renumber::{
    find_min_episode_number, renumber_plan, renumber_preview, shift_episode_in_name,
    RenumberError,
};
use episode_renamer::replace::{replace_in_name, search_replace_plan, search_replace_preview};
use episode_renamer::titles::{
    append_extensions, episode_names_in, final_file_name, generate_new_names,
};

fn episode_names(n: u32) -> Vec<String> {
    (1..=n).map(|e| format!("Show S01E{:02}.mkv", e)).collect()
}

#[test]
fn renumber_up_goes_highest_first_without_collisions() {
    let names = episode_names(10);
    let plan = renumber_plan(&names, 1).unwrap();
    assert_eq!(plan.len(), 10);
    assert_eq!(plan[0].old_name, "Show S01E10.mkv");
    assert_eq!(plan[0].new_name, "Show S01E11.mkv");
    assert_eq!(plan[9].old_name, "Show S01E01.mkv");
    assert_eq!(plan[9].new_name, "Show S01E02.mkv");
    // Replaying the plan in order never targets a name still in use.
    let mut existing: HashSet<String> = names.iter().cloned().collect();
    for pair in &plan {
        assert!(existing.contains(&pair.old_name));
        assert!(!existing.contains(&pair.new_name));
        existing.remove(&pair.old_name);
        existing.insert(pair.new_name.clone());
    }
}

#[test]
fn renumber_down_from_one_is_rejected_before_any_rename() {
    let names = episode_names(10);
    match renumber_plan(&names, -1) {
        Err(RenumberError::EpisodeUnderflow { minimum }) => assert_eq!(minimum, 1),
        _ => panic!("a shift below episode one must be refused"),
    }
}

#[test]
fn renumber_down_goes_lowest_first() {
    let names = vec![
        "Show S01E03.mkv".to_string(),
        "Show S01E02.mkv".to_string(),
        "Show S01E04.mkv".to_string(),
    ];
    let plan = renumber_plan(&names, -1).unwrap();
    assert_eq!(plan[0].old_name, "Show S01E02.mkv");
    assert_eq!(plan[0].new_name, "Show S01E01.mkv");
    assert_eq!(plan[2].old_name, "Show S01E04.mkv");
}

#[test]
fn renumber_without_tagged_files_is_rejected() {
    let names = vec!["readme.txt".to_string(), "cover.jpg".to_string()];
    assert!(matches!(renumber_plan(&names, 1), Err(RenumberError::NoTaggedFiles)));
    assert!(find_min_episode_number(&names).is_none());
}

#[test]
fn renumber_preview_keeps_untagged_names() {
    let names = vec!["Show S01E05.mkv".to_string(), "notes.txt".to_string()];
    let out = renumber_preview(&names, 2).unwrap();
    assert_eq!(out, vec!["Show S01E07.mkv".to_string(), "notes.txt".to_string()]);
}

#[test]
fn shift_episode_keeps_width() {
    assert_eq!(
        shift_episode_in_name("Show S01E08.mkv", 3).unwrap(),
        "Show S01E11.mkv"
    );
    assert!(shift_episode_in_name("untagged.mkv", 3).is_none());
    assert!(shift_episode_in_name("Show S01E02.mkv", -5).is_none());
}

#[test]
fn search_replace_is_case_sensitive() {
    let names = vec!["aXbx.mp4".to_string()];
    let out = search_replace_preview(&names, "x", "y").unwrap();
    assert_eq!(out, vec!["aXby.mp4".to_string()]);
}

#[test]
fn search_replace_rejects_empty_target() {
    let names = vec!["aXbx.mp4".to_string()];
    assert!(search_replace_preview(&names, "", "y").is_err());
    assert!(search_replace_plan(&names, "", "y").is_err());
}

#[test]
fn search_replace_plan_skips_unchanged_names() {
    let names = vec!["alpha.mp4".to_string(), "beta.mp4".to_string()];
    let plan = search_replace_plan(&names, "alpha", "gamma").unwrap();
    assert_eq!(plan.len(), 1);
    assert_eq!(plan[0].old_name, "alpha.mp4");
    assert_eq!(plan[0].new_name, "gamma.mp4");
}

#[test]
fn replace_scans_left_to_right_without_overlap() {
    assert_eq!(replace_in_name("aaa", "aa", "b"), "ba");
    assert_eq!(replace_in_name("abcabc", "abc", ""), "");
    assert_eq!(replace_in_name("hello", "ll", "LL"), "heLLo");
}

#[test]
fn titles_go_to_files_in_order() {
    let names = vec![
        "A S01E01.mkv".to_string(),
        "B S01E02.mkv".to_string(),
        "C S01E03.mkv".to_string(),
    ];
    let titles = vec!["Alpha".to_string(), "".to_string()];
    let out = generate_new_names(&names, &titles);
    assert_eq!(
        out,
        vec![
            "A S01E01 - Alpha".to_string(),
            "B S01E02".to_string(),
            "C S01E03".to_string(),
        ]
    );
}

#[test]
fn untagged_files_consume_no_title() {
    let names = vec!["skip.txt".to_string(), "A S01E01.mkv".to_string()];
    let titles = vec!["Alpha".to_string()];
    let out = generate_new_names(&names, &titles);
    assert_eq!(out, vec!["A S01E01 - Alpha".to_string()]);
}

#[test]
fn blank_titles_strip_the_old_one() {
    let names = vec!["A S01E01 - Old.mkv".to_string()];
    let titles = vec!["   ".to_string()];
    let out = generate_new_names(&names, &titles);
    assert_eq!(out, vec!["A S01E01".to_string()]);
}

#[test]
fn final_name_is_sanitised_with_extension() {
    // The characters a file system refuses are removed, so handing the name
    // back unchanged would fail this.
    assert_eq!(final_file_name("a/b: S01E01", "mp4"), "ab S01E01.mp4");
    assert_eq!(final_file_name("plain S01E01", "mkv"), "plain S01E01.mkv");
}

#[test]
fn episode_titles_are_read_back() {
    let names = vec![
        "X S01E01 - Tit le.mkv".to_string(),
        "X S01E02.mkv".to_string(),
        "notes.txt".to_string(),
        "X S01E03 - - Twice.mkv".to_string(),
    ];
    let out = episode_names_in(&names);
    assert_eq!(
        out,
        vec!["Tit le".to_string(), "".to_string(), "Twice".to_string()]
    );
}

#[test]
fn preview_pairs_names_with_extensions() {
    let names = vec!["A S01E01".to_string(), "B S01E02".to_string()];
    let exts = vec!["mkv".to_string(), "mp4".to_string(), "avi".to_string()];
    let out = append_extensions(&names, &exts);
    assert_eq!(out, vec!["A S01E01.mkv".to_string(), "B S01E02.mp4".to_string()]);
}
