//! The file tree panel: keys, edits and gestures, over files that are made up.

use helix_views::arena::{Kind, LinkTarget};
use helix_views::edit::{Edit, EditEvent, EditKind, Placement};
use helix_views::file_ops::{
    copy_plan, delete, destination, next_move, plan_place, CopyPlan, MoveError, MoveEvent,
    MoveState, PlacePlan,
};
use helix_views::git::GitStatuses;
use helix_views::keys::{Action, KeyCode, KeyEvent};
use helix_views::listing::{kind, list, probe, FileType, Found, ListOptions};
use helix_views::marks::{Buffer, BufferMarks};
use helix_views::mouse::{MouseButton, MouseEvent, MouseEventKind, MouseOutcome};
use helix_views::names::{parse_path, TreePath};
use helix_views::order::FileTreeSort;
use helix_views::panel::{
    Desk, FileTree, Gesture, KeyOutcome, RunOutcome, TreeOptions, Visibility, MAX_WIDTH,
    MIN_EDITOR_WIDTH, MIN_EDIT_WIDTH, MIN_WIDTH,
};
use helix_views::panel_draw::Look;
use helix_views::panel_run::{edit_area, LsColorsSource, Palette, PromptArea};
use helix_views::rect::Rect;
use helix_views::render::FileTreeSide;
use helix_views::search::{Candidates, Direction};
use helix_views::surface::Surface;
use helix_views::theme::{Styles, Theme};
use helix_views::tree::Entry;
use helix_views::watch::{difference, is_change, Changes, FileEvent, Watched, DEBOUNCE};
use helix_views::workspace::{Focus, GitRefresh};
use helix_views::workspace_edit::{focus_after_open, planned, Acted, OpenAction, Submitted};
use helix_views::workspace_search::Notice;
use helix_views::workspace_update::Updated;

const OPTIONS: TreeOptions = TreeOptions {
    sort: FileTreeSort::DirectoriesFirst,
    flatten_dirs: true,
};
const SCROLLOFF: usize = 5;

fn path(text: &str) -> TreePath {
    parse_path(text.as_bytes())
}

/// The panel in an editor whose working directory `/w` holds `files`.
struct Panel {
    tree: FileTree,
    files: Vec<String>,
}

impl Panel {
    /// The panel, focused while the buffer of the first file is shown.
    fn new(files: &[&str]) -> Panel {
        let mut panel = Panel {
            tree: FileTree::new(),
            files: files.iter().map(|file| file.to_string()).collect(),
        };
        let desk = panel.desk();
        let updates = panel.tree.toggle_focus(&desk, OPTIONS);
        panel.settle(updates.created);
        panel.settle(updates.updated);
        panel
    }

    fn desk(&self) -> Desk {
        let focused = path("/w").join_path(&path(&self.files[0]));
        Desk {
            root: path("/w"),
            buffers: vec![Buffer {
                path: Some(focused.clone()),
                modified: false,
            }],
            focused: Some(focused),
        }
    }

    /// The entries of the directory at `dir`. Names that end with a slash are directories.
    fn entries(&self, dir: &str) -> Vec<Entry> {
        let mut entries: Vec<Entry> = Vec::new();
        for file in &self.files {
            let below = match dir {
                "" => Some(file.as_str()),
                dir => file
                    .strip_prefix(dir)
                    .and_then(|rest| rest.strip_prefix('/')),
            };
            let Some(below) = below.filter(|below| !below.is_empty()) else {
                continue;
            };
            let (name, kind) = match below.split_once('/') {
                Some((name, _)) => (name, Kind::Directory),
                None => (below, Kind::File { executable: false }),
            };
            if !entries.iter().any(|entry| entry.name == name.as_bytes()) {
                entries.push(Entry::new(name.as_bytes().to_vec(), kind));
            }
        }
        entries
    }

    /// Lists the directories that are asked for until there are no more.
    fn settle(&mut self, updated: Option<Updated>) {
        let mut updated = updated;
        while let Some(dirs) = updated.map(|updated| updated.dirs) {
            if dirs.is_empty() {
                break;
            }
            let listings = dirs
                .into_iter()
                .map(|dir| {
                    let entries = self.entries(&dir.text());
                    (dir, Some(entries))
                })
                .collect();
            let generation = self.tree.last_generation;
            updated = self.tree.apply_listings(generation, listings, OPTIONS);
        }
        let updated = self.tree.update(OPTIONS, SCROLLOFF);
        assert!(updated.is_none_or(|updated| updated.dirs.is_empty()));
    }

    fn update(&mut self) {
        let updated = self.tree.update(OPTIONS, SCROLLOFF);
        self.settle(updated);
    }

    /// Runs the action that `key` is bound to.
    fn press(&mut self, key: char) -> Acted {
        let KeyOutcome::Run(action) = self.tree.handle_key(plain(key)) else {
            panic!("{key} runs an action");
        };
        self.run(action)
    }

    fn run(&mut self, action: Action) -> Acted {
        let RunOutcome::Acted(acted) = self.tree.run(action, false) else {
            panic!("{action:?} acts on the tree");
        };
        self.update();
        acted
    }

    /// The file that the action opens, relative to the working directory.
    fn opened(&mut self) -> Option<String> {
        match self.run(Action::Open) {
            Acted::Open { path: file, how } => {
                assert_eq!(how, OpenAction::Replace);
                Some(file.strip_prefix(&path("/w")).unwrap().text())
            }
            Acted::Nothing => None,
        }
    }

    /// Finishes the edit with `line`.
    fn submit(&mut self, line: &str) -> Submitted {
        let edit = self.tree.workspace.as_mut().unwrap().edit.as_mut();
        edit.expect("something is typed").line = line.to_owned();
        let event = match self.tree.handle_key(KeyEvent::plain(KeyCode::Enter)) {
            KeyOutcome::Edit(event) => event,
            outcome => panic!("{outcome:?} is not for the edit"),
        };
        assert_eq!(event, EditEvent::Submit);
        let submitted = self.tree.handle_edit(event).expect("the edit is finished");
        self.update();
        submitted
    }

    /// Carries out a move of the entry at `from` to `to`.
    fn moved(&mut self, from: &TreePath, to: &TreePath) {
        let from = from.text();
        let to = to.strip_prefix(&path("/w")).unwrap().text();
        for file in &mut self.files {
            if *file == from || file.starts_with(&format!("{from}/")) {
                file.replace_range(..from.len(), &to);
            }
        }
    }

    fn finished(&mut self, from: Option<&TreePath>, to: &TreePath, is_file: bool) {
        let workspace = self.tree.workspace.as_mut().unwrap();
        let focus = workspace.finished(from, to, is_file);
        self.tree.refocus(focus);
        self.update();
    }

    fn cursor(&self) -> String {
        let workspace = self.tree.workspace.as_ref().unwrap();
        let row = workspace.rows.index_of(workspace.cursor).unwrap();
        workspace.rows.row(row).path.text()
    }

    /// The line the edit starts with.
    fn line(&self) -> &str {
        let edit = self.tree.workspace.as_ref().unwrap().edit.as_ref();
        &edit.expect("something is typed").line
    }
}

fn plain(key: char) -> KeyEvent {
    KeyEvent::plain(KeyCode::Char(key))
}

#[test]
fn moving_up_from_the_top_wraps_around() {
    let mut panel = Panel::new(&["a.txt", "b.txt"]);
    assert_eq!(panel.cursor(), "a.txt");
    // From `a.txt` up to the root, then around to the last row.
    panel.press('k');
    panel.press('k');
    assert_eq!(panel.opened().as_deref(), Some("b.txt"));
}

#[test]
fn other_keys_go_back_to_the_editor() {
    let mut panel = Panel::new(&["a.txt"]);
    assert!(panel.tree.is_focused() && panel.tree.is_presented());
    assert!(matches!(
        panel.tree.handle_key(plain('i')),
        KeyOutcome::Ignored
    ));
    panel.tree.unfocus();
    assert!(!panel.tree.is_focused() && !panel.tree.is_presented());
}

#[test]
fn renaming_keeps_the_buffer_on_its_file() {
    let mut panel = Panel::new(&["a.txt"]);
    panel.press('r');
    assert_eq!(panel.line(), "a.txt");
    let Submitted::Rename {
        path: entry,
        from,
        to,
    } = panel.submit("b.txt")
    else {
        panic!("the entry is renamed");
    };
    assert_eq!(
        [entry.text(), from.text(), to.text()],
        ["a.txt", "/w/a.txt", "/w/b.txt"]
    );
    panel.moved(&entry, &to);
    panel.finished(Some(&entry), &to, true);
    assert_eq!(panel.cursor(), "b.txt");

    panel.press('R');
    assert_eq!(panel.line(), "b.txt");
    let Submitted::Move {
        path: entry, to, ..
    } = panel.submit("sub/c.txt")
    else {
        panic!("the entry is moved");
    };
    assert_eq!(to.text(), "/w/sub/c.txt");
    panel.moved(&entry, &to);
    panel.finished(Some(&entry), &to, true);
    assert_eq!(panel.cursor(), "sub/c.txt");
}

#[test]
fn renaming_a_directory_moves_the_buffers_in_it() {
    let mut panel = Panel::new(&["dir/x.txt"]);
    // Up from `x.txt` to its directory.
    panel.press('k');
    panel.press('r');
    let Submitted::Rename {
        path: entry, to, ..
    } = panel.submit("moved")
    else {
        panic!("the directory is renamed");
    };
    assert_eq!((entry.text(), to.text()), ("dir".into(), "/w/moved".into()));
    panel.moved(&entry, &to);
    panel.finished(Some(&entry), &to, false);
    assert_eq!(panel.cursor(), "moved");
    assert_eq!(panel.files, ["moved/x.txt"]);
}

#[test]
fn creating_opens_new_files() {
    let mut panel = Panel::new(&["src/a.txt"]);
    // Next to the file under the cursor.
    panel.press('a');
    let Submitted::Create { to, directory } = panel.submit("new.txt") else {
        panic!("a file is created");
    };
    assert_eq!((to.text(), directory), ("/w/src/new.txt".into(), false));
    panel.files.push("src/new.txt".into());
    panel.finished(None, &to, true);
    assert!(!panel.tree.is_focused(), "the focus goes with the file");

    panel.tree.refocus(Focus::Keep);
    panel.press('A');
    let Submitted::Create { to, directory } = panel.submit("dir") else {
        panic!("a directory is created");
    };
    assert_eq!((to.text(), directory), ("/w/src/dir".into(), true));
    panel.files.push("src/dir/".into());
    panel.finished(None, &to, false);
    assert_eq!(panel.cursor(), "src/dir");
    // The cursor went to the new directory, so this goes in it.
    panel.press('a');
    let Submitted::Create { to, directory } = panel.submit("deep/") else {
        panic!("a directory is created");
    };
    assert_eq!((to.text(), directory), ("/w/src/dir/deep".into(), true));
}

#[test]
fn deleting_asks_and_closes_the_buffer() {
    let mut panel = Panel::new(&["a.txt", "b.txt"]);
    panel.press('d');
    assert!(matches!(panel.submit("n"), Submitted::Done));
    panel.press('d');
    let Submitted::Delete { target, .. } = panel.submit("y") else {
        panic!("the entry is deleted");
    };
    assert_eq!(target.text(), "/w/a.txt");
    // the cursor leaves the entry before it is gone
    assert_eq!(panel.cursor(), "b.txt");
    let buffers = vec![
        Buffer {
            path: Some(path("/w/b.txt")),
            modified: true,
        },
        Buffer {
            path: Some(path("/w/a.txt")),
            modified: false,
        },
        Buffer {
            path: None,
            modified: true,
        },
    ];
    assert_eq!(delete(&buffers, &target), Ok(vec![1]));
    panel.files.remove(0);
    panel.tree.workspace.as_mut().unwrap().deleted(&path("a.txt"));
    panel.update();
    let rows = &panel.tree.workspace.as_ref().unwrap().rows;
    assert_eq!(rows.len(), 2);
}

#[test]
fn modified_buffers_are_not_deleted() {
    let buffers = vec![
        Buffer {
            path: Some(path("/w/dir/saved.txt")),
            modified: false,
        },
        Buffer {
            path: Some(path("/w/dir/a.txt")),
            modified: true,
        },
    ];
    assert_eq!(delete(&buffers, &path("/w/dir/a.txt")), Err(1));
    assert_eq!(delete(&buffers, &path("/w/dir")), Err(1));
    assert_eq!(delete(&buffers, &path("/w/dir/saved.txt")), Ok(vec![0]));
    assert_eq!(delete(&buffers, &path("/w/other")), Ok(vec![]));
}

#[test]
fn searching_goes_through_the_tree() {
    let mut panel = Panel::new(&["src/alpha.rs", "src/beta.rs", "docs/beta.md"]);
    assert!(matches!(
        panel.tree.handle_key(plain('/')),
        KeyOutcome::Run(Action::Search)
    ));
    assert!(matches!(
        panel.tree.run(Action::Search, false),
        RunOutcome::Done
    ));
    let candidates = || {
        Candidates::new(
            ["src/alpha.rs", "src/beta.rs", "docs/beta.md"]
                .map(path)
                .to_vec(),
            FileTreeSort::DirectoriesFirst,
        )
    };
    let find = |panel: &mut Panel, incremental| {
        let from = panel.cursor();
        let hit = candidates().find("beta", &path(&from), false, Direction::Forward);
        let workspace = panel.tree.workspace.as_mut().unwrap();
        let notice = workspace.found(hit, incremental);
        panel.update();
        notice
    };
    // The first match after `src/alpha.rs`, then the next one, wrapping around.
    assert_eq!(find(&mut panel, true), Notice::Nothing);
    assert_eq!(panel.cursor(), "src/beta.rs");
    assert!(matches!(panel.submit("beta"), Submitted::Done));
    assert_eq!(panel.opened().as_deref(), Some("src/beta.rs"));

    assert!(matches!(
        panel.tree.run(Action::NextMatch, false),
        RunOutcome::Find(Direction::Forward)
    ));
    assert_eq!(find(&mut panel, false), Notice::Wrapped);
    assert_eq!(panel.cursor(), "docs/beta.md");
    assert_eq!(panel.opened().as_deref(), Some("docs/beta.md"));
    let workspace = panel.tree.workspace.as_mut().unwrap();
    assert_eq!(workspace.found(None, false), Notice::NoMoreMatches);
    assert_eq!(workspace.search.query, "beta");
}

#[test]
fn backslashes_separate_where_they_do() {
    let root = path("/w");
    let plan = |kind: EditKind, line: &str, backslash: bool| {
        planned(&root, &Edit::new(kind, line.to_owned()), backslash)
    };
    let mut panel = Panel::new(&["a.txt"]);
    let workspace = panel.tree.workspace.as_mut().unwrap();
    assert_eq!(workspace.backslash, std::path::is_separator('\\'));
    let node = workspace.cursor;
    let rename = || EditKind::Rename { node, path: path("a.txt") };
    assert!(matches!(plan(rename(), "b\\c", true), Submitted::NotAName { .. }));
    let Submitted::Rename { to, .. } = plan(rename(), "b\\c", false) else {
        panic!("not a rename")
    };
    assert_eq!(to, path("/w/b\\c"));
    let create = || EditKind::Create { dir: node, dir_path: path("sub"), directory: false };
    for (line, backslash, wanted, directory) in [
        ("x\\y\\", true, "/w/sub/x/y", true),
        ("x\\y\\", false, "/w/sub/x\\y\\", false),
        ("x/y/", true, "/w/sub/x/y", true),
        ("\\x", true, "/x", false),
    ] {
        let Submitted::Create { to, directory: made } = plan(create(), line, backslash) else {
            panic!("nothing created")
        };
        assert_eq!((to, made), (path(wanted), directory));
    }
    let moved = EditKind::Move { path: path("a.txt"), absolute: false };
    let Submitted::Move { to, .. } = plan(moved, "d\\..\\e", true) else {
        panic!("not a move")
    };
    assert_eq!(to, path("/w/d/../e"));
}

#[test]
fn frames_are_drawn_and_found_again() {
    let mut panel = Panel::new(&["src/deep/a.txt", "b.txt", "c.txt", "d.txt", "e.txt"]);
    let area = Rect::new(2, 1, 18, 4);
    let screen = Rect::new(0, 0, 60, 8);
    let marks = BufferMarks::new(&Vec::new(), &None, &path("/w"));
    let styles = Styles::new(&Theme { scopes: Vec::new() });
    let look = Look {
        marks: &marks,
        palette: None,
        styles: &styles,
        icons: None,
        guides: true,
        side: FileTreeSide::Left,
    };
    let mut surface = Surface::empty(screen);
    let mut empty = FileTree::new();
    assert!(empty.prepare(OPTIONS, 4).is_none());
    assert_eq!(empty.render(area, 0, &look, &mut surface), None);
    assert_eq!(empty.area, None);

    let prepared = panel.tree.prepare(OPTIONS, area.height).unwrap();
    assert!(prepared.updated.dirs.is_empty());
    assert_eq!(panel.tree.render(area, prepared.start, &look, &mut surface), None);
    let workspace = panel.tree.workspace.as_ref().unwrap();
    assert_eq!(panel.tree.area, Some(area));
    assert_eq!(workspace.rows_area, Rect::new(2, 1, 17, 4));
    assert_eq!(workspace.drawn_start, prepared.start);
    let rail: Vec<&str> = (1..5).map(|y| surface.symbol(19, y)).collect();
    assert!(rail.iter().all(|symbol| ["┃", "│"].contains(symbol)));
    assert!(workspace.row_at(4).is_some());

    // a renamed entry is typed in place of its label, with room to type in
    panel.press('r');
    let prepared = panel.tree.prepare(OPTIONS, area.height).unwrap();
    let typed = panel.tree.render(area, prepared.start, &look, &mut surface).unwrap();
    let workspace = panel.tree.workspace.as_ref().unwrap();
    let row = workspace.edit_row().unwrap();
    let line = (1..5).find(|y| workspace.row_at(*y) == Some(row.index)).unwrap();
    let label = workspace.rows.row(row.index).label.chars().next().unwrap();
    assert_eq!(surface.symbol(typed.x, typed.y), label.to_string());
    assert_eq!((typed.y, typed.width, typed.height), (line, MIN_EDIT_WIDTH, 1));
    assert_eq!(panel.tree.prompt_area(Some(typed)), PromptArea::Row(typed));
}

#[test]
fn names_are_checked() {
    let mut panel = Panel::new(&["a.txt"]);
    panel.press('r');
    assert!(matches!(
        panel.submit("b/c.txt"),
        Submitted::NotAName { line } if line == "b/c.txt"
    ));
    panel.press('r');
    assert!(matches!(panel.submit("  "), Submitted::Done));
    // escape cancels
    panel.press('r');
    let outcome = panel.tree.handle_key(KeyEvent::plain(KeyCode::Esc));
    assert!(matches!(outcome, KeyOutcome::Edit(EditEvent::Cancel)));
    assert!(panel.tree.handle_paste());
    assert!(panel.tree.handle_edit(EditEvent::Cancel).is_none());
    assert!(!panel.tree.handle_paste());
}

#[test]
fn edits_tell_what_they_are_for() {
    let edit = |kind, line: &str| Edit::new(kind, line.to_owned());
    let rename = edit(
        EditKind::Move {
            path: path("a"),
            absolute: true,
        },
        "/w/a",
    );
    assert_eq!(rename.placement(), Placement::CommandLine);
    assert_eq!(
        rename.handle_event(KeyEvent::plain(KeyCode::Enter)),
        EditEvent::Submit
    );
    assert_eq!(rename.handle_event(KeyEvent::control('c')), EditEvent::Cancel);
    assert_eq!(rename.handle_event(plain('x')), EditEvent::Continue);
    assert!(!rename.prompt().is_empty());
    assert_eq!(
        edit(EditKind::Search, "").placement(),
        Placement::CommandLine
    );
}

#[test]
fn sequences_wait_for_their_keys() {
    let mut panel = Panel::new(&["a.txt"]);
    assert!(matches!(
        panel.tree.handle_key(plain('z')),
        KeyOutcome::Pending
    ));
    assert!(matches!(
        panel.tree.handle_key(plain('c')),
        KeyOutcome::Run(Action::AlignCenter)
    ));
    panel.tree.handle_key(plain('z'));
    assert!(matches!(
        panel.tree.handle_key(plain('x')),
        KeyOutcome::Cancelled
    ));
    assert!(panel.tree.pending.is_empty());
}

#[test]
fn the_panel_leaves_room_for_the_editor() {
    let mut panel = Panel::new(&["a-name-that-is-wider-than-the-narrowest-panel.txt"]);
    let main = Rect::new(0, 0, 100, 30);
    let area = panel
        .tree
        .layout(main, FileTreeSide::Left, false)
        .expect("the panel fits");
    // `  └── ` and the mark at the end around the name, and the rail
    let width = "a-name-that-is-wider-than-the-narrowest-panel.txt".len() as u16 + 6 + 1 + 1;
    assert_eq!(area, Rect::new(0, 0, width, 29));
    let area = panel.tree.layout(main, FileTreeSide::Right, false);
    assert_eq!(area, Some(Rect::new(100 - width, 0, width, 29)));

    // the width is limited
    panel.tree.run(Action::Shrink, false);
    assert_eq!(panel.tree.width, Some(width - 1));
    for _ in 0..100 {
        panel.tree.run(Action::Shrink, false);
    }
    assert_eq!(panel.tree.width, Some(MIN_WIDTH));
    for _ in 0..100 {
        panel.tree.run(Action::Grow, false);
    }
    assert_eq!(panel.tree.width, Some(MAX_WIDTH));
    panel.tree.run(Action::Fit, false);
    assert_eq!(panel.tree.width, Some(width));
    assert_eq!(panel.tree.fitted_width(true), width + 2);

    // where it does not fit it is not shown, and lets go of the focus
    let narrow = Rect::new(0, 0, width + MIN_EDITOR_WIDTH - 1, 30);
    assert_eq!(panel.tree.layout(narrow, FileTreeSide::Left, false), None);
    assert!(!panel.tree.is_focused());
}

#[test]
fn the_panel_stays_while_it_is_toggled_on() {
    let mut panel = Panel::new(&["a.txt"]);
    let desk = panel.desk();
    panel.tree.unfocus();
    assert!(!panel.tree.is_presented());
    // an existing workspace is kept
    assert!(panel.tree.toggle(&desk, OPTIONS).is_none());
    assert_eq!(panel.tree.visibility, Visibility::Always);
    assert!(panel.tree.is_presented() && !panel.tree.is_focused());
    panel.tree.toggle(&desk, OPTIONS);
    assert!(!panel.tree.is_presented());
    panel.tree.show(&desk, OPTIONS);
    assert!(panel.tree.is_presented());
    assert_eq!(panel.tree.last_generation, 1);
}

#[test]
fn edits_are_typed_in_their_row() {
    assert_eq!(
        edit_area(Rect::new(5, 3, 20, 1), 80),
        Rect::new(5, 3, MIN_EDIT_WIDTH, 1)
    );
    assert_eq!(
        edit_area(Rect::new(5, 3, 60, 1), 80),
        Rect::new(5, 3, 60, 1)
    );
    // no further than the screen
    assert_eq!(
        edit_area(Rect::new(70, 3, 5, 1), 80),
        Rect::new(70, 3, 10, 1)
    );
    let mut panel = Panel::new(&["a.txt"]);
    let row = Some(Rect::new(0, 1, 30, 1));
    assert_eq!(panel.tree.prompt_area(row), PromptArea::Hidden);
    panel.press('r');
    assert_eq!(panel.tree.prompt_area(row), PromptArea::Row(row.unwrap()));
    assert_eq!(panel.tree.prompt_area(None), PromptArea::Hidden);
    panel.submit("");
    panel.run(Action::Move);
    assert_eq!(panel.tree.prompt_area(row), PromptArea::CommandLine);
}

fn mouse(kind: MouseEventKind, column: u16, row: u16) -> MouseEvent {
    MouseEvent { kind, column, row }
}

const DOWN: MouseEventKind = MouseEventKind::Down(MouseButton::Left);
const DRAG: MouseEventKind = MouseEventKind::Drag(MouseButton::Left);
const UP: MouseEventKind = MouseEventKind::Up(MouseButton::Left);

/// The panel with a directory and 20 files, drawn 10 rows high.
fn drawn() -> Panel {
    let mut files: Vec<String> = (0..20).map(|i| format!("file-{i:02}")).collect();
    files.push("dir/inside".into());
    let files: Vec<&str> = files.iter().map(String::as_str).collect();
    let mut panel = Panel::new(&files);
    let main = Rect::new(0, 0, 100, 11);
    let area = panel.tree.layout(main, FileTreeSide::Left, false).unwrap();
    panel.tree.area = Some(area);
    let workspace = panel.tree.workspace.as_mut().unwrap();
    workspace.start = 0;
    workspace.rows_area = area;
    workspace.height = 10;
    workspace.drawn_start = workspace.frame(10);
    panel
}

#[test]
fn clicks_open_files_and_toggle_directories() {
    let mut panel = drawn();
    let width = panel.tree.area.unwrap().width;
    let mut click = |column, row| {
        panel
            .tree
            .handle_mouse(mouse(DOWN, column, row), FileTreeSide::Left, 3, OPTIONS)
    };
    // the root always stays open
    assert!(matches!(click(3, 0), MouseOutcome::Consumed));
    let MouseOutcome::Toggled(updated) = click(3, 1) else {
        panic!("the directory is expanded");
    };
    let dirs: Vec<_> = updated.dirs.iter().map(TreePath::text).collect();
    assert_eq!(dirs, ["dir"]);
    assert!(matches!(click(width + 5, 2), MouseOutcome::Ignored));
    let mut panel = drawn();
    let outcome = panel.tree.handle_mouse(
        mouse(DOWN, 3, 4),
        FileTreeSide::Left,
        3,
        OPTIONS,
    );
    let MouseOutcome::Open(file) = outcome else {
        panic!("{outcome:?} opens no file");
    };
    assert_eq!(file.text(), "/w/file-02");
    // other buttons and hovering do nothing
    for kind in [
        MouseEventKind::Down(MouseButton::Right),
        MouseEventKind::Moved,
    ] {
        let outcome =
            panel
                .tree
                .handle_mouse(mouse(kind, 3, 4), FileTreeSide::Left, 3, OPTIONS);
        assert!(matches!(outcome, MouseOutcome::Consumed), "{outcome:?}");
    }
}

#[test]
fn the_wheel_scrolls_the_rows() {
    let mut panel = drawn();
    let mut wheel = |kind| {
        panel
            .tree
            .handle_mouse(mouse(kind, 3, 4), FileTreeSide::Left, 3, OPTIONS);
        panel.tree.workspace.as_ref().unwrap().start
    };
    assert_eq!(wheel(MouseEventKind::ScrollDown), 3);
    assert_eq!(wheel(MouseEventKind::ScrollDown), 6);
    assert_eq!(wheel(MouseEventKind::ScrollUp), 3);
    assert_eq!(wheel(MouseEventKind::ScrollUp), 0);
    assert_eq!(wheel(MouseEventKind::ScrollUp), 0);
}

#[test]
fn dragging_the_rail_scrolls_or_resizes() {
    let mut panel = drawn();
    let rail = panel.tree.area.unwrap().width - 1;
    let mut event = |kind, column, row| {
        panel
            .tree
            .handle_mouse(mouse(kind, column, row), FileTreeSide::Left, 3, OPTIONS);
        (
            panel.tree.gesture,
            panel.tree.workspace.as_ref().unwrap().start,
            panel.tree.width.unwrap(),
        )
    };
    // the thumb, down the rail
    let (gesture, _, _) = event(DOWN, rail, 1);
    assert_eq!(
        gesture,
        Some(Gesture::ThumbPressed {
            column: rail,
            row: 1,
            grab: 1
        })
    );
    assert_eq!(gesture.and_then(Gesture::origin), Some((rail, 1)));
    let (gesture, start, _) = event(DRAG, rail, 5);
    assert_eq!(gesture, Some(Gesture::Scrolling { grab: 1 }));
    assert!(start > 0);
    assert_eq!(gesture.and_then(Gesture::origin), None);
    let (gesture, _, _) = event(UP, rail, 5);
    assert_eq!(gesture, None);

    // and sideways
    let mut panel = drawn();
    let mut event = |kind, column, row| {
        panel
            .tree
            .handle_mouse(mouse(kind, column, row), FileTreeSide::Left, 3, OPTIONS);
        (panel.tree.gesture, panel.tree.width.unwrap())
    };
    event(DOWN, rail, 1);
    let (gesture, width) = event(DRAG, rail + 4, 1);
    assert_eq!(gesture, Some(Gesture::Resizing));
    assert_eq!(width, rail + 5);
}

#[test]
fn colors_are_read_once() {
    let mut palette = Palette::new();
    let spec = LsColorsSource::Spec("di=34".to_owned());
    assert!(palette.get(&spec, None, None).is_some());
    assert!(palette
        .get(&LsColorsSource::Environment(false), Some("di=34"), None)
        .is_none());
    assert!(palette
        .get(&LsColorsSource::Environment(true), Some("di=34"), None)
        .is_some());
    // for the same source the variables are not read again
    assert!(palette
        .get(&LsColorsSource::Environment(true), None, None)
        .is_some());
}

#[test]
fn results_of_other_workspaces_are_dropped() {
    let mut panel = Panel::new(&["a.txt"]);
    let other = panel.tree.last_generation + 1;
    let listings = vec![(path(""), Some(Vec::new()))];
    assert!(panel.tree.apply_listings(other, listings, OPTIONS).is_none());
    assert_eq!(panel.tree.workspace.as_ref().unwrap().rows.len(), 2);
    assert!(!panel.tree.apply_git(other, GitStatuses::default()));
}

#[test]
fn git_is_asked_once_at_a_time() {
    let mut panel = Panel::new(&["a.txt"]);
    let generation = panel.tree.last_generation;
    let workspace = panel.tree.workspace.as_mut().unwrap();
    workspace.git_refresh = GitRefresh::Idle;
    assert!(workspace.refresh_git());
    // while git runs, asking makes it run once more
    assert!(!workspace.refresh_git());
    assert!(!workspace.refresh_git());
    assert!(workspace.apply_git(generation, GitStatuses::default()));
    assert!(!workspace.apply_git(generation, GitStatuses::default()));
    assert_eq!(workspace.git_refresh, GitRefresh::Idle);
}

#[test]
fn watching_follows_the_tree() {
    let panel = Panel::new(&["src/a.txt", "docs/b.txt"]);
    let workspace = panel.tree.workspace.as_ref().unwrap();
    let texts = |paths: &[TreePath]| -> Vec<String> { paths.iter().map(TreePath::text).collect() };
    let dirs = workspace.watched_directories(Some(path("/w/.git")));
    let mut shown = texts(&dirs);
    shown.sort();
    assert_eq!(shown, ["/w", "/w/.git", "/w/src"]);

    let mut watched = Watched::new();
    let (stopped, started) = watched.watch(dirs);
    assert_eq!((stopped.len(), started.len()), (0, 3));
    let (stopped, started) = watched.watch(vec![path("/w"), path("/w/docs")]);
    assert_eq!(texts(&started), ["/w/docs"]);
    assert_eq!(stopped.len(), 2);
    assert_eq!(
        texts(&difference(
            &vec![path("a"), path("b")],
            &vec![path("b"), path("c")]
        )),
        ["a"]
    );
}

#[test]
fn changes_wait_for_more() {
    assert!(is_change(FileEvent::FinishedWrite) && is_change(FileEvent::Other));
    assert!(!is_change(FileEvent::Access));
    let mut changes = Changes::new(3);
    assert_eq!(changes.handle_event(path("/w/a"), None, 5), 5 + DEBOUNCE);
    // the first change tells when they are due
    assert_eq!(
        changes.handle_event(path("/w/b"), Some(5 + DEBOUNCE), 60),
        5 + DEBOUNCE
    );
    changes.handle_event(path("/w/a"), Some(5 + DEBOUNCE), 61);
    let paths = changes.finish_debounce();
    assert_eq!(paths.len(), 2, "each path is told once");
    assert!(changes.finish_debounce().is_empty());
    assert_eq!(changes.generation, 3);
}

fn found(name: &str, file_type: FileType) -> Found {
    Found {
        name: name.as_bytes().to_vec(),
        file_type: Some(file_type),
        target: None,
        executable: false,
        only_child: None,
    }
}

const LISTING: ListOptions = ListOptions {
    sort: FileTreeSort::DirectoriesFirst,
    executables: true,
};

fn vcs() -> Vec<Vec<u8>> {
    vec![b".git".to_vec()]
}

#[test]
fn listings_classify_and_probe_entries() {
    // `src` holds only `main`, which holds only `java`
    let java = probe(&vec![found("java", FileType::Directory)], &vcs());
    assert_eq!(java, Some(0));
    let main = Entry {
        only_child: Some(Box::new(Entry::new(b"java".to_vec(), Kind::Directory))),
        ..Entry::new(b"main".to_vec(), Kind::Directory)
    };
    assert_eq!(probe(&vec![found("guide.md", FileType::File)], &vcs()), None);
    assert_eq!(
        probe(
            &vec![
                found(".git", FileType::Directory),
                found("main", FileType::Directory)
            ],
            &vcs()
        ),
        Some(1)
    );
    let src = Found {
        only_child: Some(Box::new(main)),
        ..found("src", FileType::Directory)
    };
    let kept: Vec<Vec<u8>> = ["src", "docs", "file10.txt", "file2.txt"]
        .map(|name| name.as_bytes().to_vec())
        .to_vec();
    let entries = list(
        vec![
            src,
            found("docs", FileType::Directory),
            found(".git", FileType::Directory),
            found("file10.txt", FileType::File),
            found("file2.txt", FileType::File),
        ],
        &vcs(),
        &kept,
        LISTING,
    );
    let names: Vec<_> = entries
        .iter()
        .map(|entry| String::from_utf8_lossy(&entry.name).into_owned())
        .collect();
    assert_eq!(names, ["docs", "src", "file2.txt", "file10.txt"]);
    assert!(entries[0].only_child.is_none());
    let main = entries[1].only_child.as_deref().unwrap();
    assert_eq!(main.name, b"main");
    assert_eq!(
        main.only_child.as_deref().map(|java| java.name.as_slice()),
        Some(b"java".as_slice())
    );
    assert_eq!(entries[2].kind, Kind::File { executable: false });
}

#[test]
fn listings_tell_what_git_ignores() {
    let kept = vec![b"src".to_vec(), b".gitignore".to_vec()];
    let entries = list(
        vec![
            found(".git", FileType::Directory),
            found(".gitignore", FileType::File),
            found("target", FileType::Directory),
            found("src", FileType::Directory),
        ],
        &vcs(),
        &kept,
        LISTING,
    );
    let ignored: Vec<_> = entries
        .iter()
        .map(|entry| {
            let name = String::from_utf8_lossy(&entry.name).into_owned();
            (name, entry.ignored)
        })
        .collect();
    assert_eq!(
        ignored,
        [
            ("src".to_owned(), false),
            ("target".to_owned(), true),
            (".gitignore".to_owned(), false),
        ]
    );
}

#[test]
fn links_are_classified_by_target() {
    let link = |name: &str, target| Found {
        target,
        ..found(name, FileType::Link)
    };
    let script = Found {
        executable: true,
        ..found("script", FileType::File)
    };
    let names = ["adir", "script", "dir-link", "file-link", "broken-link"];
    let kept: Vec<Vec<u8>> = names.map(|name| name.as_bytes().to_vec()).to_vec();
    let entries = list(
        vec![
            found("adir", FileType::Directory),
            script,
            link("dir-link", Some(FileType::Directory)),
            link("file-link", Some(FileType::File)),
            link("broken-link", None),
        ],
        &vcs(),
        &kept,
        LISTING,
    );
    let kinds: Vec<_> = entries
        .iter()
        .map(|entry| {
            let name = String::from_utf8_lossy(&entry.name).into_owned();
            (name, entry.kind)
        })
        .collect();
    assert_eq!(
        kinds,
        [
            ("adir".to_owned(), Kind::Directory),
            ("dir-link".to_owned(), Kind::Link(LinkTarget::Directory)),
            ("file-link".to_owned(), Kind::Link(LinkTarget::File)),
            ("script".to_owned(), Kind::File { executable: true }),
            ("broken-link".to_owned(), Kind::Link(LinkTarget::Broken)),
        ]
    );
    assert_eq!(kind(FileType::Other, None, false), None);
}

#[test]
fn entries_go_where_they_are_moved() {
    let to = |to: &str, into_directory, is_dir| {
        destination(&path("/w/a.txt"), &path(to), into_directory, is_dir).map(|to| to.text())
    };
    assert_eq!(to("/w/b.txt", true, false).as_deref(), Some("/w/b.txt"));
    assert_eq!(to("/w/dir", true, true).as_deref(), Some("/w/dir/a.txt"));
    assert_eq!(to("/w/dir", false, true).as_deref(), Some("/w/dir"));

    let (a, b) = (path("/w/a"), path("/w/b"));
    assert!(matches!(plan_place(Some(&a), &a, true), PlacePlan::Stay));
    assert!(matches!(plan_place(Some(&a), &b, true), PlacePlan::Refuse));
    assert!(matches!(plan_place(Some(&a), &b, false), PlacePlan::Place));
    assert!(matches!(plan_place(None, &b, true), PlacePlan::Refuse));
    assert_eq!(focus_after_open(true), Focus::Release);
    assert_eq!(focus_after_open(false), Focus::Keep);
}

/// The states that a move goes through.
fn states(events: &[MoveEvent]) -> Vec<MoveState> {
    let mut states = vec![MoveState::Rename];
    for event in events {
        states.push(next_move(states[states.len() - 1], *event));
    }
    states
}

#[test]
fn moves_lose_nothing() {
    // on one file system
    assert_eq!(
        states(&[MoveEvent::Done]),
        [MoveState::Rename, MoveState::Moved]
    );
    assert_eq!(
        states(&[MoveEvent::Failed]),
        [MoveState::Rename, MoveState::Failed(MoveError::Step)]
    );
    // to another one, where nothing is at the destination
    assert_eq!(
        states(&[
            MoveEvent::CrossesDevices,
            MoveEvent::Failed,
            MoveEvent::Done,
            MoveEvent::Done
        ]),
        [
            MoveState::Rename,
            MoveState::Check,
            MoveState::Copy,
            MoveState::Remove,
            MoveState::Moved
        ]
    );
    // an existing destination is refused
    assert_eq!(
        states(&[MoveEvent::CrossesDevices, MoveEvent::Done]).last(),
        Some(&MoveState::Failed(MoveError::AlreadyExists))
    );
    // a failed copy leaves the source untouched
    assert_eq!(
        states(&[
            MoveEvent::CrossesDevices,
            MoveEvent::Failed,
            MoveEvent::Failed,
            MoveEvent::Done
        ]),
        [
            MoveState::Rename,
            MoveState::Check,
            MoveState::Copy,
            MoveState::Undo,
            MoveState::Failed(MoveError::Copy)
        ]
    );
    assert!(matches!(copy_plan(FileType::Link), CopyPlan::Link));
    assert!(matches!(copy_plan(FileType::Directory), CopyPlan::Directory));
    assert!(matches!(copy_plan(FileType::File), CopyPlan::File));
}

#[test]
fn directories_show_unsaved_files() {
    let buffers = vec![
        Buffer {
            path: Some(path("/w/src/deep/a.rs")),
            modified: true,
        },
        Buffer {
            path: Some(path("/w/b.rs")),
            modified: false,
        },
        Buffer {
            path: Some(path("/elsewhere/c.rs")),
            modified: true,
        },
    ];
    let marks = BufferMarks::new(&buffers, &Some(path("/w/b.rs")), &path("/w"));
    assert!(marks.is_open(&path("b.rs")) && marks.is_open(&path("src/deep/a.rs")));
    assert!(marks.is_focused(&path("b.rs")) && !marks.is_focused(&path("src/deep/a.rs")));
    for dir in ["", "src", "src/deep", "src/deep/a.rs"] {
        assert!(marks.is_modified(&path(dir)), "{dir}");
    }
    assert!(!marks.is_modified(&path("b.rs")) && !marks.is_modified(&path("docs")));
}
