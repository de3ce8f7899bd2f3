# helix_views

The logic behind a text editor's views, written in Verus: what is computed and decided is proved to
be what the contracts say.

- Folding: `fold*`, `changes`, `selection`, `text`. Which text a fold hides, how folds nest, how
  they follow edits and the cursor, and which visual rows are left.
- Syntax: `syntax_tree`, `captures`, `edits`, `rainbow`, `overlays`, `breadcrumbs`, `languages`,
  `scopes`, `tree_print`. What is read out of syntax trees and query matches.
- Statusline: `statusline`, `status_elements`, `trail`, `pieces`, `theme`, `style`, `surface`.
- Smooth scrolling: `smooth_scroll`, `view_scroll`, `view_animation`.
- File tree: `arena`, `shape`, `tree`, `rows`, `viewport`, `order`, `listing`, `search`, `git`,
  `marks`, `ls_colors`, `render`, `scene`, `watch`, `file_ops`, `edit`, `keys`, `workspace*`,
  `panel*`, `mouse`.
- Configuration: `config`.

`src/` is the library. Its public proof functions named `law_..` state what holds of several
functions together. Contracts of calls into ropey, slotmap, nucleo, globset, regex-cursor,
unicode-segmentation, unicode-width and std are not proved; they stand next to the calls, each with
what it claims.

`app/` is ordinary Rust around it: files, watching, threads, grammars, configuration files and the
floating-point easing of smooth scrolling. Verus does not see it.

`tests/` runs the library.

`kstring` stands in Cargo.toml for its version only: tree-house brings it in, and later versions need
a newer compiler.
