use episode_renamer::pattern::{parse, rewrite, strip_old_suffix};
use episode_renamer::scan::format_size;

#[test]
fn parse_finds_two_digit_tag() {
    let tag = parse("Show S01E02.mkv").unwrap();
    assert_eq!(tag.season, 1);
    assert_eq!(tag.episode, 2);
    assert_eq!(tag.season_width, 2);
    assert_eq!(tag.episode_width, 2);
    assert_eq!(tag.start, 5);
}

#[test]
fn parse_finds_three_digit_tag() {
    let tag = parse("S001E002.mp4").unwrap();
    assert_eq!(tag.season, 1);
    assert_eq!(tag.episode, 2);
    assert_eq!(tag.season_width, 3);
    assert_eq!(tag.episode_width, 3);
    assert_eq!(tag.start, 0);
}

#[test]
fn parse_episode_field_is_greedy() {
    // Three digits follow the E, so the field takes all three.
    let tag = parse("Show S01E0234.mkv").unwrap();
    assert_eq!(tag.episode, 23);
    assert_eq!(tag.episode_width, 3);
}

#[test]
fn parse_takes_first_occurrence() {
    let tag = parse("S9 S01E05.mkv").unwrap();
    assert_eq!(tag.start, 3);
    assert_eq!(tag.season, 1);
    assert_eq!(tag.episode, 5);
}

#[test]
fn parse_rejects_untagged_names() {
    assert!(parse("Show.mkv").is_none());
    assert!(parse("S1E02.mkv").is_none());
    assert!(parse("S01X02.mkv").is_none());
    assert!(parse("").is_none());
}

#[test]
fn rewrite_preserves_width_and_surroundings() {
    let name = "Show S01E09 - Pilot.mkv";
    let tag = parse(name).unwrap();
    let out = rewrite(name, &tag, 1, 10);
    assert_eq!(out, "Show S01E10 - Pilot.mkv");
    // The rewritten name parses back at the same place with the new number.
    let tag2 = parse(&out).unwrap();
    assert_eq!(tag2.start, tag.start);
    assert_eq!(tag2.season_width, 2);
    assert_eq!(tag2.episode_width, 2);
    assert_eq!(tag2.episode, 10);
}

#[test]
fn rewrite_keeps_three_digit_width() {
    let name = "S002E010.mkv";
    let tag = parse(name).unwrap();
    let out = rewrite(name, &tag, 2, 11);
    assert_eq!(out, "S002E011.mkv");
}

#[test]
fn rewrite_grows_width_when_number_needs_it() {
    let name = "Show S01E99.mkv";
    let tag = parse(name).unwrap();
    let out = rewrite(name, &tag, 1, 100);
    assert_eq!(out, "Show S01E100.mkv");
}

#[test]
fn strip_old_suffix_keeps_name_through_tag() {
    let name = "Show S01E02 - Old Title.mkv";
    let tag = parse(name).unwrap();
    assert_eq!(strip_old_suffix(name, &tag), "Show S01E02");
}

#[test]
fn format_size_picks_unit_and_rounds() {
    assert_eq!(format_size(1073741824), "1.00 GB");
    assert_eq!(format_size(1572864), "1.50 MB");
    assert_eq!(format_size(1536), "1.50 KB");
    assert_eq!(format_size(500), "0.49 KB");
    assert_eq!(format_size(0), "0.00 KB");
}
