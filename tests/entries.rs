use unzipper::path::{join_from, normalize, split_components, strip};
use unzipper::unzipper::{chars_of, string_of};
use unzipper::{EntryAction, Extraction, Unzipper, UnzipperStats};

fn chars(s: &str) -> Vec<char> {
    s.chars().collect()
}

fn text(v: &[char]) -> String {
    v.iter().collect()
}

fn run(strip: u8, entries: &[(&str, bool)]) -> (Vec<EntryAction>, UnzipperStats) {
    let mut run = Extraction::new(strip);
    let mut actions = Vec::new();
    for (name, is_dir) in entries {
        let action = run.plan(name, *is_dir);
        assert!(run.record(&action));
        actions.push(action);
    }
    (actions, run.finish())
}

#[test]
fn directory_and_file_without_strip() {
    let (actions, stats) = run(0, &[("a/", true), ("a/b.txt", false)]);
    assert_eq!(
        actions,
        vec![
            EntryAction::CreateDir("a/".to_string()),
            EntryAction::WriteFile("a/b.txt".to_string()),
        ]
    );
    assert_eq!(stats, UnzipperStats { dirs: 1, files: 1 });
}

#[test]
fn directory_and_file_strip_one() {
    let (actions, stats) = run(1, &[("a/", true), ("a/b.txt", false)]);
    assert_eq!(
        actions,
        vec![
            EntryAction::CreateDir(".".to_string()),
            EntryAction::WriteFile("./b.txt".to_string()),
        ]
    );
    assert_eq!(stats, UnzipperStats { dirs: 1, files: 1 });
}

#[test]
fn backslash_name_normalizes_before_strip() {
    let run = Extraction::new(0);
    assert_eq!(run.plan("dir\\file.txt", false), EntryAction::WriteFile("dir/file.txt".to_string()));
    let run = Extraction::new(1);
    assert_eq!(run.plan("dir\\file.txt", false), EntryAction::WriteFile("./file.txt".to_string()));
}

#[test]
fn backslash_and_slash_names_agree() {
    for strip in 0..4u8 {
        let run = Extraction::new(strip);
        assert_eq!(run.plan("x\\y\\z.bin", false), run.plan("x/y/z.bin", false));
        assert_eq!(run.plan("x\\y\\", true), run.plan("x/y/", true));
    }
}

#[test]
fn mixed_separators_read_as_backslash_delimited() {
    let run = Extraction::new(0);
    assert_eq!(run.plan("a\\b/c", false), EntryAction::WriteFile("a/b/c".to_string()));
}

#[test]
fn strip_zero_keeps_path() {
    let run = Extraction::new(0);
    assert_eq!(run.plan("./x//y/", true), EntryAction::CreateDir("./x//y/".to_string()));
    assert_eq!(run.plan("", false), EntryAction::WriteFile(String::new()));
    assert_eq!(strip(chars("/abs/../p"), 0), Some(chars("/abs/../p")));
}

#[test]
fn strip_more_than_components_skips() {
    let run = Extraction::new(4);
    assert_eq!(run.plan("a/b/c", false), EntryAction::Skip);
    let run = Extraction::new(1);
    assert_eq!(run.plan("", false), EntryAction::Skip);
}

#[test]
fn strip_leaves_remaining_components_in_order() {
    assert_eq!(Extraction::new(3).plan("a/b/c", false), EntryAction::WriteFile(".".to_string()));
    assert_eq!(Extraction::new(2).plan("a/b/c", false), EntryAction::WriteFile("./c".to_string()));
    assert_eq!(Extraction::new(1).plan("a/b/c", false), EntryAction::WriteFile("./b/c".to_string()));
    assert_eq!(
        Extraction::new(1).plan("a//./b/../c/", true),
        EntryAction::CreateDir("./b/../c".to_string())
    );
}

#[test]
fn strip_counts_root_and_leading_dot() {
    assert_eq!(Extraction::new(1).plan("/abs/x", false), EntryAction::WriteFile("./abs/x".to_string()));
    assert_eq!(Extraction::new(1).plan("./top/x", false), EntryAction::WriteFile("./top/x".to_string()));
    assert_eq!(Extraction::new(2).plan("./top/x", false), EntryAction::WriteFile("./x".to_string()));
}

#[test]
fn skipped_entries_are_not_counted() {
    let (actions, stats) = run(2, &[("top/", true), ("top/a/", true), ("top/a/f", false), ("g", false)]);
    assert_eq!(
        actions,
        vec![
            EntryAction::Skip,
            EntryAction::CreateDir(".".to_string()),
            EntryAction::WriteFile("./f".to_string()),
            EntryAction::Skip,
        ]
    );
    assert_eq!(stats, UnzipperStats { dirs: 1, files: 1 });
}

#[test]
fn counter_stops_at_largest_value() {
    let mut run = Extraction::new(0);
    let dir = EntryAction::CreateDir("d".to_string());
    for _ in 0..u16::MAX {
        assert!(run.record(&dir));
    }
    assert!(!run.record(&dir));
    assert!(run.record(&EntryAction::WriteFile("f".to_string())));
    assert!(run.record(&EntryAction::Skip));
    assert_eq!(run.finish(), UnzipperStats { dirs: u16::MAX, files: 1 });
}

#[test]
fn builder_sets_strip_count() {
    let unzipper = Unzipper::new(vec![1u8, 2], "out").strip_components(1);
    let (source, outdir, run) = unzipper.into_parts();
    assert_eq!(source, vec![1u8, 2]);
    assert_eq!(outdir, "out");
    assert_eq!(run.plan("a/b", false), EntryAction::WriteFile("./b".to_string()));
    let (_, _, run) = Unzipper::new((), "o").into_parts();
    assert_eq!(run.plan("a/b", false), EntryAction::WriteFile("a/b".to_string()));
    assert_eq!(run.finish(), UnzipperStats { dirs: 0, files: 0 });
}

#[test]
fn path_pieces() {
    assert_eq!(normalize(&chars("a\\b\\c")), chars("a/b/c"));
    let comps = split_components(&chars("/x//./y/../z/"));
    let comps: Vec<String> = comps.iter().map(|c| text(c)).collect();
    assert_eq!(comps, vec!["/", "x", "y", "..", "z"]);
    let comps = split_components(&chars("./."));
    assert_eq!(comps, vec![vec!['.']]);
    let comps = split_components(&chars("p/q/r"));
    assert_eq!(join_from(&comps, 1), chars("./q/r"));
    assert_eq!(join_from(&comps, 3), chars("."));
    assert_eq!(strip(chars("p"), 2), None);
}

#[test]
fn text_conversions() {
    assert_eq!(chars_of("hé/ß"), vec!['h', 'é', '/', 'ß']);
    assert_eq!(string_of(&vec!['ü', '\\', 'x']), "ü\\x".to_string());
    assert_eq!(string_of(&Vec::new()), String::new());
}
