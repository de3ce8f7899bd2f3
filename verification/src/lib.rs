//! The logic behind a text editor's views.
use vstd::prelude::*;

pub mod arena;
pub mod breadcrumbs;
pub mod captures;
pub mod changes;
pub mod chars;
pub mod config;
pub mod edit;
pub mod edits;
pub mod file_ops;
pub mod fold;
pub mod fold_brackets;
pub mod fold_commands;
pub mod fold_rows;
pub mod fold_selection;
pub mod fold_toggle;
pub mod folds;
pub mod git;
pub mod keys;
pub mod languages;
pub mod listing;
pub mod ls_colors;
pub mod marks;
pub mod mouse;
pub mod names;
pub mod order;
pub mod overlays;
pub mod panel;
pub mod panel_draw;
pub mod panel_run;
pub mod pieces;
pub mod rainbow;
pub mod rect;
pub mod render;
pub mod rows;
pub mod scene;
pub mod scopes;
pub mod scrollbar;
pub mod search;
pub mod selection;
pub mod seqs;
pub mod shape;
pub mod smooth_scroll;
pub mod sorting;
pub mod status;
pub mod status_elements;
pub mod statusline;
pub mod style;
pub mod surface;
pub mod syntax_tree;
pub mod text;
pub mod theme;
pub mod trail;
pub mod tree;
pub mod tree_print;
pub mod view_animation;
pub mod view_scroll;
pub mod viewport;
pub mod watch;
pub mod width;
pub mod workspace;
pub mod workspace_edit;
pub mod workspace_mouse;
pub mod workspace_refresh;
pub mod workspace_rows;
pub mod workspace_search;
pub mod workspace_update;

verus! {

} // verus!
