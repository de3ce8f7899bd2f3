//! The file tree: its entries and rows, what is in view, searching, and the panel.

use helix_views::arena::{Children, Kind, LinkTarget, NodeId};
use helix_views::git::GitStatuses;
use helix_views::keys::Action;
use helix_views::marks::BufferMarks;
use helix_views::names::{parse_path, TreePath};
use helix_views::order::FileTreeSort;
use helix_views::rect::Rect;
use helix_views::render::{natural_width, FileTreeSide, Scene};
use helix_views::rows::{Row, Rows};
use helix_views::search::{Candidates, Direction, Matching, MAX_QUERY};
use helix_views::status::FileChange;
use helix_views::surface::Surface;
use helix_views::theme::{Styles, Theme};
use helix_views::tree::{Entry, Reveal, Tree};
use helix_views::viewport::{
    align, capacity, clamp, is_visible, max_start, pinned, reveal_row, thumb, Align,
};
use helix_views::workspace::{Origin, Workspace};

const FILE: Kind = Kind::File { executable: false };

fn path(text: &str) -> TreePath {
    parse_path(text.as_bytes())
}

fn file(name: &str) -> Entry {
    Entry::new(name.as_bytes().to_vec(), FILE)
}

fn dir(name: &str) -> Entry {
    Entry::new(name.as_bytes().to_vec(), Kind::Directory)
}

/// A directory whose only entries are the directories `run`, nested in that order.
fn run(name: &str, run: &[&str]) -> Entry {
    let only_child = run.iter().rev().fold(None, |only_child, name| {
        Some(Box::new(Entry {
            only_child,
            ..dir(name)
        }))
    });
    Entry {
        only_child,
        ..dir(name)
    }
}

fn names(tree: &Tree, id: NodeId) -> Vec<String> {
    tree.children(id)
        .iter()
        .map(|id| String::from_utf8_lossy(&tree.node(*id).name).into_owned())
        .collect()
}

fn tree_with(entries: Vec<Entry>) -> Tree {
    let mut tree = Tree::new(b"root".to_vec(), FileTreeSort::DirectoriesFirst);
    let root = tree.root();
    tree.apply_listing(root, Some(entries));
    tree
}

fn find(tree: &Tree, text: &str) -> Option<NodeId> {
    tree.find(&path(text))
}

#[test]
fn listings_are_sorted_and_keep_ids() {
    let mut tree = tree_with(vec![file("b.txt"), dir("src"), file("a.txt")]);
    let root = tree.root();
    assert_eq!(names(&tree, root), ["src", "a.txt", "b.txt"]);
    let src = find(&tree, "src").unwrap();

    tree.apply_listing(root, Some(vec![dir("src"), file("c.txt")]));
    assert_eq!(names(&tree, root), ["src", "c.txt"]);
    assert_eq!(find(&tree, "src"), Some(src));
    assert_eq!(find(&tree, "a.txt"), None);
}

#[test]
fn expanding_requests_listings() {
    let mut tree = tree_with(vec![dir("src")]);
    assert_eq!(tree.take_listing_requests(), [tree.root()]);
    let src = find(&tree, "src").unwrap();
    tree.expand(src);
    tree.expand(src);
    assert_eq!(tree.take_listing_requests(), [src]);
    tree.apply_listing(src, Some(vec![file("main.rs")]));
    assert_eq!(
        tree.path(find(&tree, "src/main.rs").unwrap()).text(),
        "src/main.rs"
    );
    // A directory that is collapsed and expanded again is listed afresh.
    tree.collapse(src);
    tree.expand(src);
    assert_eq!(tree.take_listing_requests(), [src]);
}

#[test]
fn collapsed_directories_hold_their_run() {
    let mut tree = tree_with(vec![run("src", &["main", "java"]), file("README.md")]);
    let java = find(&tree, "src/main/java").unwrap();
    let src = find(&tree, "src").unwrap();
    assert_eq!(tree.only_directory_child(src), find(&tree, "src/main"));
    assert!(!tree.node(java).expanded);

    // The run stays as long as the probe finds it, keeping its ids.
    let root = tree.root();
    tree.apply_listing(root, Some(vec![run("src", &["main", "java"])]));
    assert_eq!(find(&tree, "src/main/java"), Some(java));

    // A file in `src/main` ends the run.
    tree.apply_listing(root, Some(vec![run("src", &["main"])]));
    assert_eq!(find(&tree, "src/main/java"), None);
    assert!(find(&tree, "src/main").is_some());
}

#[test]
fn collapsing_forgets_everything_but_the_run() {
    let mut tree = tree_with(vec![dir("outer")]);
    let outer = find(&tree, "outer").unwrap();
    tree.expand(outer);
    tree.apply_listing(outer, Some(vec![dir("inner"), file("a.txt")]));
    let inner = find(&tree, "outer/inner").unwrap();
    tree.expand(inner);
    tree.apply_listing(inner, Some(vec![file("b.txt")]));

    tree.collapse(outer);
    assert!(!tree.node(outer).expanded);
    assert!(!tree.contains(inner));
    assert!(tree.children(outer).is_empty());

    tree.expand(outer);
    tree.apply_listing(outer, Some(vec![dir("inner")]));
    let inner = find(&tree, "outer/inner").unwrap();
    tree.expand(inner);
    tree.apply_listing(inner, Some(vec![file("b.txt")]));
    tree.collapse(outer);
    // `outer` holds only `inner`, a run: kept, but collapsed and without its contents.
    assert_eq!(find(&tree, "outer/inner"), Some(inner));
    assert!(!tree.node(inner).expanded);
    assert!(tree.children(inner).is_empty());
}

#[test]
fn unreadable_directories_stay_expandable() {
    let mut tree = tree_with(vec![dir("locked")]);
    let locked = find(&tree, "locked").unwrap();
    tree.expand(locked);
    tree.apply_listing(locked, None);
    assert!(matches!(tree.node(locked).children, Children::Unreadable));
    assert!(tree.node(locked).expanded);
    tree.apply_listing(locked, Some(vec![file("inside.txt")]));
    assert_eq!(names(&tree, locked), ["inside.txt"]);
}

#[test]
fn reveal_expands_what_is_listed() {
    let mut tree = tree_with(vec![dir("outer"), file("anchor.txt")]);
    let outer = find(&tree, "outer").unwrap();
    tree.take_listing_requests();

    assert_eq!(
        tree.reveal_path(&path("outer/inner/a.txt")),
        Reveal::Unlisted(outer)
    );
    assert_eq!(tree.take_listing_requests(), [outer]);
    tree.apply_listing(outer, Some(vec![dir("inner")]));
    let Reveal::Unlisted(inner) = tree.reveal_path(&path("outer/inner/a.txt")) else {
        panic!("`inner` is not listed yet");
    };
    tree.apply_listing(inner, Some(vec![file("a.txt")]));
    let a = find(&tree, "outer/inner/a.txt").unwrap();
    assert_eq!(
        tree.reveal_path(&path("outer/inner/a.txt")),
        Reveal::Found(a)
    );
    assert_eq!(tree.reveal_path(&path("outer/missing")), Reveal::Missing);
    assert_eq!(tree.reveal_path(&path("")), Reveal::Found(tree.root()));
}

#[test]
fn refreshed_files_keep_their_ids() {
    let mut tree = tree_with(vec![file("a.txt")]);
    let a = find(&tree, "a.txt").unwrap();
    let root = tree.root();
    tree.apply_listing(
        root,
        Some(vec![Entry::new(
            b"a.txt".to_vec(),
            Kind::Link(LinkTarget::File),
        )]),
    );
    assert_eq!(find(&tree, "a.txt"), Some(a));
    assert_eq!(tree.node(a).kind, Kind::Link(LinkTarget::File));
}

#[test]
fn replaced_kinds_get_new_nodes() {
    let mut tree = tree_with(vec![dir("thing")]);
    let thing = find(&tree, "thing").unwrap();
    let root = tree.root();
    tree.apply_listing(root, Some(vec![file("thing")]));
    let new = find(&tree, "thing").unwrap();
    assert_ne!(new, thing);
    assert!(tree.node(new).kind.is_file());
}

#[test]
fn only_fitting_listings_are_accepted() {
    let tree = tree_with(vec![dir("src"), file("a")]);
    let (root, a) = (tree.root(), find(&tree, "a").unwrap());
    assert!(tree.accepts(root, &None));
    assert!(tree.accepts(root, &Some(vec![file("x"), dir("y")])));
    assert!(!tree.accepts(root, &Some(vec![file("x"), dir("x")])));
    assert!(tree.accepts(a, &None));
    let mut left = tree_with(vec![dir("src")]);
    let src = find(&left, "src").unwrap();
    let root = left.root();
    left.apply_listing(root, None);
    assert!(!left.accepts(src, &None));
}

#[test]
fn unlisted_entries_are_gone() {
    let mut tree = tree_with(vec![run("src", &["main", "java"]), dir("docs"), file("a")]);
    let known = ["src", "src/main", "src/main/java", "docs", "a"].map(|p| find(&tree, p).unwrap());
    let root = tree.root();
    // A run that leads elsewhere has new nodes past the ones it shares.
    tree.apply_listing(root, Some(vec![run("src", &["main", "rust", "core"]), dir("a")]));
    assert_eq!(find(&tree, "src"), Some(known[0]));
    assert_eq!(find(&tree, "src/main"), Some(known[1]));
    for gone in &known[2..] {
        assert!(!tree.contains(*gone));
    }
    for new in ["src/main/rust", "src/main/rust/core", "a"] {
        assert!(!known.contains(&find(&tree, new).unwrap()));
    }
}

#[test]
fn a_late_listing_is_merged_into_what_is_there() {
    let mut workspace = workspace();
    let a = find(&workspace.tree, "a").unwrap();
    // What was a directory when it was read is a file by now.
    let listings = vec![(path("a"), Some(vec![file("late")]))];
    assert!(workspace.apply_listings(workspace.generation, listings));
    assert_eq!(names(&workspace.tree, a), ["late"]);
    assert!(find(&workspace.tree, "a/late").is_some());
    assert_eq!(workspace.tree.reveal_path(&path("a/late")), Reveal::Missing);

    let listings = vec![(path("a"), None), (path("nowhere"), None)];
    assert!(workspace.apply_listings(workspace.generation, listings));
    assert!(matches!(workspace.tree.node(a).children, Children::Unreadable));
    assert!(find(&workspace.tree, "a/late").is_none());
    assert!(!workspace.tree.node(a).expanded);
}

#[test]
fn directories_are_sorted_anew() {
    let mut tree = tree_with(vec![file("a"), dir("b"), file("c")]);
    let root = tree.root();
    assert_eq!(names(&tree, root), ["b", "a", "c"]);
    tree.set_sort(FileTreeSort::Alphabetical);
    assert_eq!(names(&tree, root), ["a", "b", "c"]);
    let b = find(&tree, "b").unwrap();
    assert!(tree.is_within(b, root) && !tree.is_within(root, b));
    assert_eq!(tree.loaded_directories(), [root]);
    assert_eq!(tree.expanded_directories(), [root]);
    // a listing that is outdated is asked for again
    tree.take_listing_requests();
    tree.invalidate(&path(""));
    assert_eq!(tree.take_listing_requests(), [root]);
}

fn labels(rows: &Rows) -> Vec<&str> {
    rows.iter().map(|row| row.label.as_str()).collect()
}

#[test]
fn runs_become_one_row() {
    let mut tree = tree_with(vec![
        run("src", &["main", "java", "app"]),
        dir("docs"),
        file("README.md"),
    ]);
    let rows = Rows::build(&tree, true);
    assert_eq!(
        labels(&rows),
        ["root", "docs", "src/main/java/app", "README.md"]
    );
    let app = find(&tree, "src/main/java/app").unwrap();
    let main = find(&tree, "src/main").unwrap();
    assert_eq!(rows.row(2).node, app);
    assert_eq!(rows.row(2).path.text(), "src/main/java/app");
    assert_eq!(rows.index_of(main), Some(2));

    let rows = Rows::build(&tree, false);
    assert_eq!(labels(&rows), ["root", "docs", "src", "README.md"]);

    // Expanding the run shows the last directory's entries one level down.
    for text in ["src", "src/main", "src/main/java", "src/main/java/app"] {
        let id = find(&tree, text).unwrap();
        tree.expand(id);
    }
    tree.apply_listing(app, Some(vec![file("Foo.java")]));
    let rows = Rows::build(&tree, true);
    assert_eq!(
        labels(&rows),
        ["root", "docs", "src/main/java/app", "Foo.java", "README.md"]
    );
    assert_eq!(rows.row(3).depth, 1);
    assert_eq!(rows.row(3).path.text(), "src/main/java/app/Foo.java");
}

#[test]
fn guides_follow_presented_rows() {
    let mut tree = tree_with(vec![dir("a"), dir("b"), file("c")]);
    let a = find(&tree, "a").unwrap();
    tree.expand(a);
    tree.apply_listing(a, Some(vec![dir("x"), file("y")]));
    let x = find(&tree, "a/x").unwrap();
    tree.expand(x);
    tree.apply_listing(x, Some(vec![file("deep")]));
    let rows = Rows::build(&tree, true);
    assert_eq!(labels(&rows), ["root", "a", "x", "deep", "y", "b", "c"]);
    let lasts: Vec<_> = rows.iter().map(|row| row.last).collect();
    assert_eq!(lasts, [true, false, false, true, true, false, true]);
    // `deep` sits under `a` (which has later siblings) and `x` (which has `y` after it).
    assert_eq!(rows.lanes(3), [true, true]);
    assert_eq!(rows.lanes(4), [true]);
    assert_eq!(rows.ancestors(3), [0, 1, 2]);
    assert!(rows.lanes(5).is_empty());
    assert_eq!(rows.len(), 7);
    assert_eq!(rows.get(6).map(|row| row.label.as_str()), Some("c"));
    assert!(rows.get(7).is_none());
    assert_eq!(Rows::default().len(), 0);
}

#[test]
fn control_characters_are_replaced() {
    let tree = tree_with(vec![file("evil\u{1b}[2Jname")]);
    let rows = Rows::build(&tree, true);
    assert_eq!(rows.row(1).label, "evil?[2Jname");
    assert_eq!(rows.row(1).path.text(), "evil\u{1b}[2Jname");
}

/// root, `alpha` (expanded, 2 files), `beta`, then `tail-00`..`tail-{tails}`.
fn fixture(tails: usize) -> Rows {
    let mut entries = vec![dir("alpha"), dir("beta")];
    entries.extend((0..tails).map(|i| file(&format!("tail-{i:02}"))));
    let mut tree: Tree = tree_with(entries);
    let alpha = find(&tree, "alpha").unwrap();
    tree.expand(alpha);
    tree.apply_listing(alpha, Some(vec![file("a-0"), file("a-1")]));
    Rows::build(&tree, true)
}

#[test]
fn ancestors_are_pinned_when_they_fit() {
    let rows = fixture(4);
    // 0 root, 1 alpha, 2 a-0, 3 a-1, 4 beta, 5.. tails
    assert_eq!(pinned(&rows, 0, 5), Vec::<usize>::new());
    assert_eq!(pinned(&rows, 2, 5), [0, 1]);
    assert_eq!(pinned(&rows, 4, 5), [0]);
    assert_eq!(pinned(&rows, 2, 2), Vec::<usize>::new());
    assert_eq!(capacity(&rows, 2, 5), 3);
}

#[test]
fn the_last_row_ends_at_the_bottom() {
    let rows = fixture(4); // 9 rows
    assert_eq!(max_start(&rows, 5), 5);
    assert_eq!(pinned(&rows, 5, 5), [0]);
    assert_eq!(max_start(&rows, 20), 0);
    assert_eq!(clamp(&rows, 8, 5), 5);
}

#[test]
fn revealing_moves_as_little_as_possible() {
    let rows = fixture(10); // 15 rows
    assert_eq!(reveal_row(&rows, 0, 6, 3, 0), 0);
    // Row 7 is below the six visible rows. Starting at `a-1` (3) pins root and `alpha`,
    // leaving room for rows 3..7 only; starting at `beta` (4) pins just the root.
    assert_eq!(reveal_row(&rows, 0, 6, 7, 0), 4);
    assert!(!is_visible(&rows, 3, 6, 7));
    assert!(is_visible(&rows, 4, 6, 7));
    assert_eq!(reveal_row(&rows, 8, 6, 5, 0), 5);
    // With scrolloff, one row stays visible past the target.
    assert_eq!(reveal_row(&rows, 0, 6, 7, 1), 4);
    assert_eq!(reveal_row(&rows, 8, 6, 8, 1), 7);
}

#[test]
fn revealed_rows_are_visible_below_pinned_ones() {
    let mut tree = tree_with(vec![dir("a"), file("w"), file("x"), file("y"), file("z")]);
    let a = find(&tree, "a").unwrap();
    tree.expand(a);
    tree.apply_listing(a, Some(vec![dir("b")]));
    let b = find(&tree, "a/b").unwrap();
    tree.expand(b);
    tree.apply_listing(b, Some(vec![file("c")]));
    let rows = Rows::build(&tree, false);
    assert_eq!(labels(&rows), ["root", "a", "b", "c", "w", "x", "y", "z"]);
    // starting one row above `w` pins three directories, which leaves no room for it
    assert!(!is_visible(&rows, 3, 4, 4));
    assert_eq!(reveal_row(&rows, 4, 4, 4, 1), 4);
    for start in 0..8 {
        for target in 0..8 {
            for scrolloff in 0..3 {
                let revealed = reveal_row(&rows, start, 4, target, scrolloff);
                assert!(is_visible(&rows, revealed, 4, target));
            }
        }
    }
}

#[test]
fn aligning_puts_the_row_in_place() {
    let rows = fixture(10);
    assert_eq!(align(&rows, 6, 8, Align::Top), 8);
    assert_eq!(align(&rows, 6, 8, Align::Bottom), 4);
    assert_eq!(align(&rows, 6, 8, Align::Center), 6);
    assert_eq!(align(&rows, 6, 14, Align::Top), max_start(&rows, 6));
}

#[test]
fn thumb_spans_the_rail() {
    let rows = fixture(10);
    let max = max_start(&rows, 6);
    assert_eq!(thumb(&rows, 0, 6), Some(0..3));
    assert_eq!(thumb(&rows, max, 6).map(|thumb| thumb.end), Some(6));
    assert_eq!(thumb(&rows, 0, 20), None);
}

/// In tree order: docs/guide.md, helix-core/src/lib.rs, helix-core/src/movement.rs,
/// helix-term/src/ui/markdown.rs, helix-term/src/main.rs, README.md
fn candidates() -> Candidates {
    let paths = [
        "README.md",
        "helix-core/src/movement.rs",
        "helix-term/src/main.rs",
        "helix-term/src/ui/markdown.rs",
        "helix-core/src/lib.rs",
        "docs/guide.md",
    ];
    Candidates::new(
        paths.into_iter().map(path).collect(),
        FileTreeSort::DirectoriesFirst,
    )
}

/// Where searching `md` from `from` lands, and whether it wrapped.
fn search(from: &str, is_dir: bool, direction: Direction) -> Option<(String, bool)> {
    candidates()
        .find("md", &path(from), is_dir, direction)
        .map(|hit| (hit.path.text(), hit.wrapped))
}

#[test]
fn searching_goes_in_tree_order() {
    let hit = |path: &str, wrapped| Some((path.to_owned(), wrapped));
    // `md` matches guide.md, markdown.rs (m…d) and README.md.
    assert_eq!(
        search("helix-core/src/lib.rs", false, Direction::Forward),
        hit("helix-term/src/ui/markdown.rs", false)
    );
    assert_eq!(
        search("helix-term", true, Direction::Forward),
        hit("helix-term/src/ui/markdown.rs", false)
    );
    assert_eq!(
        search("README.md", false, Direction::Forward),
        hit("docs/guide.md", true)
    );
    assert_eq!(
        search("helix-term/src/ui/markdown.rs", false, Direction::Backward),
        hit("docs/guide.md", false)
    );
    assert_eq!(
        search("", true, Direction::Backward),
        hit("README.md", true)
    );
}

#[test]
fn searches_go_to_the_next_match() {
    let files = candidates();
    let hit = |matches: [bool; 6], from: &str, direction| {
        files
            .hit(&matches.to_vec(), &path(from), false, direction)
            .map(|hit| (hit.path.text(), hit.wrapped))
    };
    let ends = [true, false, false, false, false, true];
    assert_eq!(
        hit(ends, "docs/guide.md", Direction::Forward),
        Some(("README.md".to_owned(), false))
    );
    assert_eq!(
        hit(ends, "docs/guide.md", Direction::Backward),
        Some(("README.md".to_owned(), true))
    );
    assert_eq!(hit([false; 6], "README.md", Direction::Forward), None);
}

#[test]
fn matching_tells_the_matched_characters() {
    let matching = Matching::new("main").unwrap();
    assert_eq!(
        matching.indices("helix-term/src/main.rs"),
        Some(vec![15, 16, 17, 18])
    );
    assert_eq!(matching.indices("helix-term/src/lib.rs"), None);
    assert!(Matching::new(" ").is_none());
    assert!(candidates()
        .find("", &path(""), true, Direction::Forward)
        .is_none());
    assert!(candidates().contains(&path("README.md")));
    assert!(!candidates().contains(&path("target")));
}

/// root, `docs`, `src/main` (a run), `a`, `b`
fn workspace() -> Workspace {
    let mut workspace = Workspace::new(path("/root"), 1, FileTreeSort::DirectoriesFirst, true);
    let root = workspace.tree.root();
    workspace.tree.apply_listing(
        root,
        Some(vec![
            run("src", &["main"]),
            dir("docs"),
            file("a"),
            file("b"),
        ]),
    );
    workspace.rebuild_rows();
    workspace.height = 10;
    workspace
}

fn cursor_label(workspace: &Workspace) -> &str {
    let index = workspace.rows.index_of(workspace.cursor).unwrap();
    &workspace.rows.row(index).label
}

fn cursor_wraps_around() {
    let mut workspace = workspace();
    workspace.navigate(Action::Up);
    assert_eq!(cursor_label(&workspace), "b");
    workspace.navigate(Action::Down);
    assert_eq!(cursor_label(&workspace), "root");
    workspace.navigate(Action::PageDown);
    assert_eq!(cursor_label(&workspace), "b");
    workspace.navigate(Action::HalfPageUp);
    assert_eq!(cursor_label(&workspace), "root");
}

fn run_expands_and_collapses() {
    let mut workspace = workspace();
    let src = find(&workspace.tree, "src").unwrap();
    let main = find(&workspace.tree, "src/main").unwrap();
    workspace.cursor = main;
    workspace.navigate(Action::Expand);
    assert!(workspace.tree.node(src).expanded && workspace.tree.node(main).expanded);
    workspace
        .tree
        .apply_listing(main, Some(vec![file("lib.rs")]));
    workspace.rebuild_rows();
    assert_eq!(
        labels(&workspace.rows),
        ["root", "docs", "src/main", "lib.rs", "a", "b"]
    );

    workspace.navigate(Action::Collapse);
    assert!(!workspace.tree.node(src).expanded && !workspace.tree.node(main).expanded);
    workspace.rebuild_rows();
    assert_eq!(cursor_label(&workspace), "src/main");
}

fn rebuilding_keeps_the_cursor() {
    let mut workspace = workspace();
    let docs = find(&workspace.tree, "docs").unwrap();
    workspace.tree.expand(docs);
    workspace
        .tree
        .apply_listing(docs, Some(vec![file("guide.md")]));
    workspace.rebuild_rows();
    workspace.cursor = find(&workspace.tree, "docs/guide.md").unwrap();

    // Collapsing `docs` hides the cursor's row: it moves to `docs`.
    workspace.tree.collapse(docs);
    workspace.rebuild_rows();
    assert_eq!(workspace.cursor, docs);
}

#[test]
fn mod_the_cursor_wraps_around() {
    cursor_wraps_around();
}

#[test]
fn workspace_the_cursor_wraps_around() {
    cursor_wraps_around();
}

#[test]
fn mod_a_run_expands_and_collapses_as_one() {
    run_expands_and_collapses();
}

#[test]
fn workspace_a_run_expands_and_collapses_as_one() {
    run_expands_and_collapses();
}

#[test]
fn mod_rebuilding_keeps_the_cursor_on_a_shown_row() {
    rebuilding_keeps_the_cursor();
}

#[test]
fn workspace_rebuilding_keeps_the_cursor_on_a_shown_row() {
    rebuilding_keeps_the_cursor();
}

/// Starts a search at the root, then expands `docs` and moves the cursor into it, as a match
/// would.
fn searched_into_docs() -> Workspace {
    let mut workspace = workspace();
    let root = workspace.tree.root();
    workspace.search.origin = Some(Origin {
        cursor: root,
        path: path(""),
        is_dir: true,
        start: 0,
        expanded: workspace.tree.expanded_directories(),
    });
    let docs = find(&workspace.tree, "docs").unwrap();
    workspace.tree.expand(docs);
    workspace
        .tree
        .apply_listing(docs, Some(vec![file("guide.md")]));
    workspace.cursor = find(&workspace.tree, "docs/guide.md").unwrap();
    workspace
}

#[test]
fn a_cancelled_search_goes_back_where_it_started() {
    let mut workspace = searched_into_docs();
    workspace.finish_search(false);
    let docs = find(&workspace.tree, "docs").unwrap();
    assert!(!workspace.tree.node(docs).expanded);
    assert!(find(&workspace.tree, "docs/guide.md").is_none());
    assert!(matches!(workspace.tree.node(docs).children, Children::Unloaded));
    assert_eq!(workspace.cursor, workspace.tree.root());
}

#[test]
fn a_finished_search_keeps_the_way_to_its_match() {
    let mut workspace = searched_into_docs();
    let src = find(&workspace.tree, "src").unwrap();
    workspace.tree.expand(src);
    workspace.finish_search(true);
    let docs = find(&workspace.tree, "docs").unwrap();
    assert!(workspace.tree.node(docs).expanded);
    assert!(!workspace.tree.node(src).expanded);
    assert_eq!(
        workspace.cursor,
        find(&workspace.tree, "docs/guide.md").unwrap()
    );
}

#[test]
fn every_matching_file_in_view_is_highlighted() {
    let mut workspace = searched_into_docs();
    workspace.rebuild_rows();
    let paths = ["a", "b", "docs/guide.md"].map(path).into_iter().collect();
    workspace.search.candidates = Some(Candidates::new(paths, FileTreeSort::DirectoriesFirst));
    let (search, rows) = (&workspace.search, &workspace.rows);
    assert_eq!(
        labels(rows),
        ["root", "docs", "guide.md", "src/main", "a", "b"]
    );
    let matches = |query: &str, from, to| -> Vec<(usize, Vec<usize>)> {
        search
            .matches(query, rows, from, to)
            .into_iter()
            .map(|matched| (matched.index, matched.chars))
            .collect()
    };

    // Matched characters in the directory leave the label as it is.
    assert_eq!(
        matches("docguide", 0, rows.len()),
        [(2, vec![0, 1, 2, 3, 4])]
    );
    assert_eq!(matches("a", 0, rows.len()), [(4, vec![0])]);
    assert_eq!(matches("a", 0, 4), []);
    assert_eq!(matches("", 0, rows.len()), []);
}

/// The test workspace with ten more files, drawn four rows high.
#[test]
fn the_longest_queries_match() {
    let name = "a".repeat(MAX_QUERY);
    let path_of = |text: &str| Candidates::new(vec![path(text)], FileTreeSort::Alphabetical);
    let find = |text: &str| {
        path_of(text)
            .find(&name, &path(""), true, Direction::Forward)
            .is_some()
    };
    assert!(find(&name));
    assert!(find(&format!("b/{name}")));
    assert!(!find(&name[1..]));
    let matching = Matching::new(&name).unwrap();
    assert_eq!(matching.indices(&name).map(|found| found.len()), Some(MAX_QUERY));
}

#[test]
fn the_cursor_goes_there_and_back() {
    let mut workspace = workspace();
    for start in 0..workspace.rows.len() {
        workspace.cursor = workspace.rows.row(start).node;
        for (there, back) in [(Action::Down, Action::Up), (Action::Up, Action::Down)] {
            workspace.navigate(there);
            workspace.navigate(back);
            assert_eq!(workspace.rows.index_of(workspace.cursor), Some(start));
        }
    }
}

#[test]
fn new_entries_are_named_where_they_go() {
    let mut workspace = workspace();
    let root = workspace.tree.root();
    assert!(workspace.input_row().is_none() && workspace.edit_row().is_none());
    // a file goes after the two directories, a directory before them
    workspace.act(Action::NewFile);
    let input = workspace.input_row().unwrap();
    assert_eq!((input.dir, input.at), (root, 2));
    workspace.edit.as_mut().unwrap().line = "new/".to_owned();
    let row = workspace.edit_row().unwrap();
    assert_eq!((row.index, row.name.as_str(), row.directory), (3, "new/", true));
    assert_eq!(workspace.cursor_row(), Some(3));
    workspace.edit = None;
    assert_eq!(workspace.cursor_row(), Some(0));
    workspace.act(Action::NewDirectory);
    let input = workspace.input_row().unwrap();
    assert_eq!((input.dir, input.at), (root, 0));
    assert_eq!(workspace.input(), Some(1));
    // a renamed entry is typed in its own row
    workspace.edit = None;
    workspace.cursor = find(&workspace.tree, "a").unwrap();
    workspace.act(Action::Rename);
    assert!(workspace.input_row().is_none());
    let row = workspace.edit_row().unwrap();
    assert_eq!((row.index, row.name.as_str(), row.directory), (3, "a", false));
    // below an expanded directory the rows of the entries before it are passed too
    workspace.edit = None;
    let docs = find(&workspace.tree, "docs").unwrap();
    workspace.tree.expand(docs);
    let entries = vec![dir("api"), dir("book"), file("guide.md")];
    workspace.tree.apply_listing(docs, Some(entries));
    let api = find(&workspace.tree, "docs/api").unwrap();
    workspace.tree.expand(api);
    workspace.tree.apply_listing(api, Some(vec![file("index.md")]));
    workspace.rebuild_rows();
    workspace.cursor = docs;
    workspace.act(Action::NewFile);
    // root, docs, api, index.md, book
    assert_eq!(workspace.input(), Some(5));
    assert_eq!(workspace.edit_row().unwrap().depth, 1);
    workspace.tree.apply_listing(root, Some(Vec::new()));
    assert!(workspace.input_row().is_none());
}

#[test]
fn updates_keep_the_cursor() {
    let mut workspace = workspace();
    let docs = find(&workspace.tree, "docs").unwrap();
    workspace.tree.expand(docs);
    workspace.tree.apply_listing(docs, Some(vec![file("guide.md")]));
    workspace.rebuild_rows();
    let guide = find(&workspace.tree, "docs/guide.md").unwrap();
    workspace.cursor = guide;
    workspace.start = 2;
    workspace.dirty = true;
    let updated = workspace.update(FileTreeSort::Alphabetical, true);
    assert!(updated.rebuilt);
    assert_eq!(workspace.cursor, guide);
    assert_eq!(workspace.start, workspace.rows.index_of(guide).unwrap());
    workspace.tree.collapse(docs);
    workspace.dirty = true;
    workspace.update(FileTreeSort::Alphabetical, true);
    assert_eq!(workspace.cursor, docs);
    for index in 0..workspace.rows.len() {
        let node = workspace.rows.row(index).node;
        assert_eq!(workspace.rows.index_of(node), Some(index));
    }
}

#[test]
fn new_workspaces_list_their_root() {
    let mut workspace = Workspace::new(path("/w"), 1, FileTreeSort::DirectoriesFirst, true);
    let root = workspace.tree.root();
    let node = workspace.tree.node(root);
    assert!(node.expanded && !node.listed && node.kind == Kind::Directory);
    assert!(matches!(node.children, Children::Unloaded));
    assert_eq!(workspace.rows_area, Rect::default());
    assert!(!workspace.git.is_ignored(&path("")) && workspace.drawn_start == 0);
    let updated = workspace.update(FileTreeSort::DirectoriesFirst, true);
    assert_eq!(updated.dirs, [path("")]);
}

fn scrollable() -> Workspace {
    let mut workspace = workspace();
    let root = workspace.tree.root();
    let mut entries: Vec<_> = (0..10).map(|i| file(&format!("f{i}"))).collect();
    entries.extend(["a", "b"].map(file));
    workspace.tree.apply_listing(root, Some(entries));
    workspace.rebuild_rows();
    workspace.rows_area = Rect::new(0, 5, 20, 4);
    workspace
}

#[test]
fn rows_are_found_below_the_pinned_ones() {
    let mut workspace = scrollable();
    assert_eq!(workspace.row_at(5), Some(0));
    assert_eq!(workspace.row_at(9), None);
    // Scrolled down, the root row is pinned and inert.
    workspace.drawn_start = 3;
    assert_eq!(workspace.row_at(5), None);
    assert_eq!(workspace.row_at(6), Some(3));
}

#[test]
fn the_thumb_drags_and_the_track_pages() {
    let mut workspace = scrollable();
    let rows = workspace.rows.len();
    assert_eq!(workspace.thumb(), Some(5..7));
    // Dragging the thumb to the bottom shows the last rows.
    workspace.drag_thumb(8, 0);
    assert_eq!(workspace.start, max_start(&workspace.rows, 4));
    workspace.drawn_start = workspace.start;
    assert_eq!(workspace.thumb().map(|thumb| thumb.end), Some(9));
    // Pressing the track above the thumb goes a page up.
    let before = workspace.start;
    workspace.page_towards(5);
    assert!(workspace.start < before);
    assert!(rows > 4);
}

#[test]
fn the_wheel_stops_at_both_ends() {
    let mut workspace = scrollable();
    workspace.scroll(3, true);
    assert_eq!(workspace.start, 3);
    workspace.scroll(100, true);
    assert_eq!(workspace.start, max_start(&workspace.rows, 4));
    workspace.scroll(100, false);
    assert_eq!(workspace.start, 0);
}

fn lines(surface: &Surface) -> Vec<String> {
    let area = surface.area;
    (area.top()..area.bottom())
        .map(|y| {
            (area.left()..area.right())
                .map(|x| surface.symbol(x, y).to_string())
                .collect()
        })
        .collect()
}

/// root: `docs/guide.md` (expanded, modified), `src/main` (a run), `README.md` (focused,
/// changed in git).
fn render(width: u16, height: u16, icons: bool, side: FileTreeSide) -> Vec<String> {
    let mut tree = tree_with(vec![run("src", &["main"]), dir("docs"), file("README.md")]);
    let docs = find(&tree, "docs").unwrap();
    tree.expand(docs);
    tree.apply_listing(docs, Some(vec![file("guide.md")]));
    let rows = Rows::build(&tree, true);
    let git = GitStatuses::new(
        &path("/root"),
        &vec![FileChange::Modified {
            path: path("/root/README.md"),
        }],
    );
    let marks = BufferMarks {
        open: vec![path("README.md")],
        focused: Some(path("README.md")),
        modified: vec![path("docs/guide.md")],
    };
    let styles = Styles::new(&Theme { scopes: Vec::new() });
    let area = Rect::new(0, 0, width, height);
    let mut surface = Surface::empty(area);
    let texts: Vec<String> = ["\u{f0645}", "\u{f115}", "\u{f15b}", "\u{f114}", "\u{f48a}"]
        .map(String::from)
        .to_vec();
    Scene {
        tree: &tree,
        rows: &rows,
        git: &git,
        marks: &marks,
        palette: None,
        styles: &styles,
        cursor: Some(1),
        start: 0,
        icons: icons.then_some(&texts),
        guides: true,
        side,
    }
    .render(area, &mut surface);
    lines(&surface)
}

#[test]
fn rows_look_like_eza() {
    assert_eq!(
        render(20, 6, false, FileTreeSide::Left),
        [
            "▍ root            +│",
            " >├─▾ docs        +│",
            "  │   └── guide.md+│",
            "  ├─▸ src/main     │",
            "▍ └─* README.md    │",
            "                   │",
        ]
    );
    // Docked right, with icons: the rail is on the left, its thumb covers the top row.
    assert_eq!(
        render(20, 2, true, FileTreeSide::Right),
        [
            "┃▍ \u{f0645} root          +",
            "│ >├─▾ \u{f115} docs      +",
        ]
    );
}

#[test]
fn cut_labels_keep_the_unsaved_mark() {
    assert_eq!(
        render(16, 3, false, FileTreeSide::Left)[2],
        "  │   └── gui…+│"
    );
}

#[test]
fn natural_width_counts_every_column() {
    let tree = tree_with(vec![dir("docs"), file("README.md")]);
    let rows = Rows::build(&tree, true);
    // `▍ root+`
    let root: &Row = rows.row(0);
    assert_eq!(natural_width(root, true, false), 7);
    // `▍ ├── README.md+` with ` icon ` instead of the single space
    assert_eq!(natural_width(rows.row(2), false, false), 16);
    assert_eq!(natural_width(rows.row(2), false, true), 18);
}
