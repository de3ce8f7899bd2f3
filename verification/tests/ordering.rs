//! Orders, marks, keys and colors of the file tree.

use helix_views::git::{GitStatus, GitStatuses};
use helix_views::keys::{bindings, info, lookup, Action, KeyCode, KeyEvent, Lookup};
use helix_views::ls_colors::{parse_style, EntryType, LsColors};
use helix_views::names::{parse_path, TreePath};
use helix_views::order::{entry_cmp, natural_cmp, path_cmp, FileTreeSort, Group};
use helix_views::scrollbar::scrollbar_thumb;
use helix_views::status::{FileChange, StatusOptions};
use helix_views::style::{Color, Modifier, Style, UnderlineStyle};
use std::cmp::Ordering;

fn path(text: &str) -> TreePath {
    parse_path(text.as_bytes())
}

fn key(c: char) -> KeyEvent {
    KeyEvent::plain(KeyCode::Char(c))
}

#[test]
fn directories_show_the_strongest_status_below() {
    let root = path("/workspace");
    let below = |text: &str| root.join_path(&path(text));
    let statuses = GitStatuses::new(
        &root,
        &vec![
            FileChange::Untracked {
                path: below("src/new.rs"),
            },
            FileChange::Modified {
                path: below("src/deep/lib.rs"),
            },
            FileChange::Deleted {
                path: below("src/deep/gone.rs"),
            },
            FileChange::Added {
                path: below("docs/guide.md"),
            },
            FileChange::Ignored {
                path: below("target"),
            },
            FileChange::Modified {
                path: path("/elsewhere/file"),
            },
        ],
    );
    let status = |text: &str, is_dir| statuses.status(&path(text), is_dir);
    assert_eq!(status("src/new.rs", false), Some(GitStatus::Created));
    assert_eq!(status("src/deep", true), Some(GitStatus::Deleted));
    assert_eq!(status("src", true), Some(GitStatus::Deleted));
    assert_eq!(status("", true), Some(GitStatus::Deleted));
    assert_eq!(status("docs", true), Some(GitStatus::Created));
    assert_eq!(status("README.md", false), None);
    assert!(statuses.is_ignored(&path("target/debug/hx")));
    assert!(!statuses.is_ignored(&path("targets")));
    assert_eq!(status("target", true), None);
}

#[test]
fn renamed_files_show_where_they_went() {
    let root = path("/workspace");
    let change = FileChange::Renamed {
        from_path: path("/workspace/old.rs"),
        to_path: path("/workspace/src/new.rs"),
    };
    assert_eq!(change.path().text(), "/workspace/src/new.rs");
    let conflict = FileChange::Conflict {
        path: path("/workspace/src/both.rs"),
    };
    let statuses = GitStatuses::new(&root, &vec![change, conflict]);
    assert_eq!(
        statuses.status(&path("src"), true),
        Some(GitStatus::Conflict)
    );
    assert_eq!(statuses.status(&path("old.rs"), false), None);
    assert!(statuses.status(&path("src/new.rs"), false).is_some());
    assert_eq!(
        GitStatuses::default().status(&path("src"), true),
        None,
        "without changes there are no marks"
    );
    assert!(!StatusOptions::default().staged && !StatusOptions::default().ignored);
}

#[test]
fn sequences_resolve() {
    assert!(matches!(lookup(&[key('j')]), Lookup::Action(Action::Down)));
    assert!(matches!(lookup(&[key('z')]), Lookup::Prefix));
    assert!(matches!(
        lookup(&[key('z'), key('c')]),
        Lookup::Action(Action::AlignCenter)
    ));
    assert!(matches!(lookup(&[key('z'), key('x')]), Lookup::Unbound));
    assert!(matches!(lookup(&[key(' ')]), Lookup::Unbound));
}

#[test]
fn every_sequence_is_bound_once() {
    let table = bindings();
    let sequences: Vec<_> = table
        .iter()
        .flat_map(|binding| binding.keys.iter())
        .collect();
    for (i, keys) in sequences.iter().enumerate() {
        assert!(
            !sequences[i + 1..].contains(keys),
            "{keys:?} is bound twice"
        );
    }
}

#[test]
fn help_lists_the_keys() {
    let all = info(&[]);
    let first = all.text.lines().next().unwrap();
    assert!(first.starts_with("j, down "), "{first}");
    assert!(first.ends_with("  Move down"), "{first}");
    let view = info(&[key('z')]);
    assert_eq!(view.title, "View");
    assert!(view.text.starts_with("z, c"), "{}", view.text);
}

fn modifier(set: impl Fn(&mut Modifier)) -> Modifier {
    let mut modifier = Modifier::empty();
    set(&mut modifier);
    modifier
}

#[test]
fn styles_keep_the_foreground_and_safe_modifiers() {
    assert_eq!(
        parse_style("01;38;2;69;133;136"),
        Style::default()
            .fg(Color::Rgb(69, 133, 136))
            .add_modifier(modifier(|modifier| modifier.bold = true))
    );
    assert_eq!(
        parse_style("0;38;2;235;219;178;48;2;40;40;40"),
        Style::default().fg(Color::Rgb(235, 219, 178))
    );
    assert_eq!(
        parse_style("7;8;5;34"),
        Style::default().fg(Color::Indexed(4))
    );
    assert_eq!(
        parse_style("38;5;208"),
        Style::default().fg(Color::Indexed(208))
    );
    assert_eq!(parse_style("92"), Style::default().fg(Color::Indexed(10)));
    assert_eq!(
        parse_style("1;0;3"),
        Style::default().add_modifier(modifier(|modifier| modifier.italic = true))
    );
    assert_eq!(parse_style("38;2;1"), Style::default());
}

#[test]
fn underlines_are_kept() {
    assert_eq!(
        parse_style("4;31"),
        Style::default()
            .fg(Color::Indexed(1))
            .underline_style(UnderlineStyle::Line)
    );
    // a plain style patches nothing
    let style = parse_style("01;31");
    assert_eq!(style.patch(Style::default()), style);
}

#[test]
fn the_longest_pattern_wins_and_types_apply_by_kind() {
    let colors =
        LsColors::parse("di=34:fi=37:ex=32:ln=36:*.md=33:*README.md=31:*.tar.gz=35:bogus:*.md=93");
    let fg = |name, entry_type| {
        colors
            .style(name, entry_type, None)
            .and_then(|style| style.fg)
    };
    assert_eq!(fg("guide.md", EntryType::File), Some(Color::Indexed(11)));
    assert_eq!(fg("README.md", EntryType::File), Some(Color::Indexed(1)));
    assert_eq!(fg("x.tar.gz", EntryType::File), Some(Color::Indexed(5)));
    assert_eq!(fg("x.gz", EntryType::File), Some(Color::Indexed(7)));
    // Directories never match patterns, and patterns are case sensitive.
    assert_eq!(fg("docs.md", EntryType::Directory), Some(Color::Indexed(4)));
    assert_eq!(fg("GUIDE.MD", EntryType::File), Some(Color::Indexed(7)));
    assert_eq!(fg("run.md", EntryType::Executable), Some(Color::Indexed(2)));
    assert_eq!(fg("broken", EntryType::Orphan), Some(Color::Indexed(6)));
    assert_eq!(fg("pipe", EntryType::Fifo), None);
    assert!(colors.colors_executables());
}

#[test]
fn unreadable_rules_change_nothing() {
    let style = |spec: &str, name: &str, entry_type| {
        LsColors::parse(spec)
            .style(name, entry_type, None)
            .and_then(|style| style.fg)
    };
    for spec in ["di=34", "bogus:di=34::=31", "di=34:", ":=:di=34:x"] {
        assert_eq!(
            style(spec, "a", EntryType::Directory),
            Some(Color::Indexed(4))
        );
        assert_eq!(style(spec, "a", EntryType::File), None);
    }
    // the later rule counts
    let spec = "*.md=33:di=31:*.md=93:di=34";
    assert_eq!(
        style(spec, "a.md", EntryType::File),
        Some(Color::Indexed(11))
    );
    assert_eq!(
        style(spec, "a", EntryType::Directory),
        Some(Color::Indexed(4))
    );
}

#[test]
fn case_only_matters_between_the_same_names() {
    for (a, b) in [("Alpha", "beta"), ("x10Y", "X9z"), ("a", "B")] {
        let order = natural_cmp(a, b);
        assert_ne!(order, Ordering::Equal);
        assert_eq!(natural_cmp(&a.to_uppercase(), b), order);
        assert_eq!(natural_cmp(a, &b.to_lowercase()), order);
    }
    assert_eq!(natural_cmp("README", "readme"), Ordering::Less);
}

#[test]
fn only_the_same_paths_tie() {
    let sort = FileTreeSort::DirectoriesFirst;
    let order = |a: &str, b: &str| path_cmp(sort, &path(a), false, &path(b), false);
    assert_eq!(order("src/é", "src/é"), Ordering::Equal);
    assert_ne!(order("src/é", "src/É"), Ordering::Equal);
    assert_ne!(order("a", "a/b"), Ordering::Equal);
    assert_ne!(order("A/b", "a/b"), Ordering::Equal);
}

#[test]
fn links_can_take_their_targets_color() {
    let colors = LsColors::parse("ln=target:di=34");
    let style = colors.style("dir-link", EntryType::Link, Some(EntryType::Directory));
    assert_eq!(style.and_then(|style| style.fg), Some(Color::Indexed(4)));
}

#[test]
fn the_environment_gives_rules() {
    assert!(LsColors::from_environment(None, None).is_none());
    assert!(LsColors::from_environment(Some("  "), None).is_none());
    let colors = LsColors::from_environment(Some("di=34"), Some("di=31")).unwrap();
    assert_eq!(
        colors
            .style("src", EntryType::Directory, None)
            .and_then(|style| style.fg),
        Some(Color::Indexed(1))
    );
    assert!(LsColors::gnu()
        .style("src", EntryType::Directory, None)
        .is_some());
}

fn sorted<'a>(names: &[&'a str]) -> Vec<&'a str> {
    let mut names = names.to_vec();
    names.sort_by(|a, b| natural_cmp(a, b));
    names
}

#[test]
fn names_sort_naturally() {
    assert_eq!(
        sorted(&[
            "file10.txt",
            "file2.txt",
            "file02.txt",
            ".env",
            "file-link",
            "File1"
        ]),
        [
            ".env",
            "File1",
            "file2.txt",
            "file02.txt",
            "file10.txt",
            "file-link"
        ]
    );
    assert_eq!(sorted(&["b", "B", "a"]), ["a", "B", "b"]);
    assert_eq!(
        sorted(&["v99999999999999999999999", "v100000000000000000000000"]),
        ["v99999999999999999999999", "v100000000000000000000000"]
    );
    assert_eq!(
        sorted(&["Ärger", "zebra", "apfel"]),
        ["apfel", "zebra", "Ärger"]
    );
}

#[test]
fn directories_come_first_unless_alphabetical() {
    let entries = [
        ("gamma.txt", Group::File),
        ("broken", Group::Other),
        ("delta", Group::Directory),
        ("alpha.txt", Group::File),
        ("beta", Group::Directory),
    ];
    let order = |sort| {
        let mut entries = entries.to_vec();
        entries.sort_by(|a, b| entry_cmp(sort, *a, *b));
        entries
            .into_iter()
            .map(|(name, _)| name)
            .collect::<Vec<_>>()
    };
    assert_eq!(
        order(FileTreeSort::DirectoriesFirst),
        ["beta", "delta", "alpha.txt", "gamma.txt", "broken"]
    );
    assert_eq!(
        order(FileTreeSort::Alphabetical),
        ["alpha.txt", "beta", "broken", "delta", "gamma.txt"]
    );
}

#[test]
fn paths_sort_in_tree_order() {
    let sort = FileTreeSort::DirectoriesFirst;
    let order =
        |a: &str, a_dir, b: &str, b_dir| path_cmp(sort, &path(a), a_dir, &path(b), b_dir);
    assert_eq!(order("src", true, "src/main.rs", false), Ordering::Less);
    // `z/a.rs` is inside a directory, so it comes before the file `a.rs`.
    assert_eq!(order("z/a.rs", false, "a.rs", false), Ordering::Less);
    assert_eq!(order("src/b.rs", false, "src/a", true), Ordering::Greater);
    assert_eq!(order("src/a.rs", false, "src/a.rs", false), Ordering::Equal);
    assert_eq!(
        path_cmp(
            FileTreeSort::Alphabetical,
            &path("z/a.rs"),
            false,
            &path("a.rs"),
            false
        ),
        Ordering::Greater
    );
}

#[test]
fn tree_order_is_transitive() {
    let sort = FileTreeSort::DirectoriesFirst;
    let entries = [
        ("b", true),
        ("b/x", true),
        ("b/x/1", false),
        ("b/x/10", false),
        ("b/a", false),
        ("c", true),
        ("A", false),
        ("a", false),
    ];
    for (i, &(a, a_dir)) in entries.iter().enumerate() {
        for (k, &(b, b_dir)) in entries.iter().enumerate() {
            assert_eq!(
                path_cmp(sort, &path(a), a_dir, &path(b), b_dir),
                i.cmp(&k),
                "{} {}",
                a,
                b
            );
        }
    }
}

#[test]
fn thumb_spans_the_visible_share() {
    assert_eq!(scrollbar_thumb(10, 10, 0), None);
    assert_eq!(scrollbar_thumb(20, 10, 0), Some(0..5));
    assert_eq!(scrollbar_thumb(20, 10, 10), Some(5..10));
    assert_eq!(scrollbar_thumb(1000, 10, 0), Some(0..1));
    assert_eq!(scrollbar_thumb(1000, 10, 990), Some(9..10));
    assert_eq!(
        scrollbar_thumb(usize::MAX, 2, usize::MAX - 2),
        Some(1..2)
    );
}

#[test]
fn paths_are_made_of_parts() {
    assert_eq!(path("/a//b/./c/").text(), "/a/b/c");
    assert_eq!(path("a/b").parent().unwrap().text(), "a");
    assert!(path("/a/b").starts_with(&path("/a")));
    assert!(!path("/ab").starts_with(&path("/a")));
    assert_eq!(path("/a/b").strip_prefix(&path("/a")).unwrap().text(), "b");
    assert!(path("/a/b").strip_prefix(&path("/c")).is_none());
    assert_eq!(path("a").join(&b"b".to_vec()).text(), "a/b");
    assert_eq!(path("/a").join_path(&path("/c")).text(), "/c");
    // bytes that are no UTF-8 stay in the path, and are replaced in its text
    assert_eq!(parse_path(b"a\xff").bytes(), b"a\xff");
    assert_eq!(parse_path(b"a\xff").text(), "a\u{fffd}");
}
