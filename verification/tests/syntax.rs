//! What is read off syntax trees: foldable regions, breadcrumbs, captures, edits and highlights.

use helix_views::breadcrumbs::{
    breadcrumbs, flatten_breadcrumb_text, BreadcrumbMatch, BreadcrumbPart,
    MAX_BREADCRUMB_SEGMENT_LEN,
};
use helix_views::captures::{capture_nodes, CapturedNode, NodeBytes};
use helix_views::changes::{Assoc, ChangeSet, Operation};
use helix_views::edits::{generate_edits, InputEdit, Point};
use helix_views::fold_rows::row_lines;
use helix_views::folds::Folds;
use helix_views::languages::{
    longest_match, FileType, InjectionMarker, Language, LanguageConfiguration, Loader, LoaderError,
};
use helix_views::overlays::{Highlight, HighlightEvent, OverlayHighlighter, OverlayHighlights};
use helix_views::rainbow::{rainbow_highlights, RainbowCapture, RainbowMatch};
use helix_views::scopes::best_scope;
use helix_views::selection::Selection;
use helix_views::syntax_tree::{
    char_at_byte, child_for_byte_range, descendant_for_byte_range, matching_opener, regions,
    SyntaxNode, SyntaxTree,
};
use helix_views::text::line_end_char_index;
use helix_views::tree_print::{format_anonymous_node_kind, pretty_print_tree};
use ropey::Rope;

/// Reads a text with its syntax tree marked in it: `⟨kind:text⟩` is a named node, `⟪text⟫` a token
/// that is its own kind. A kind may follow `field=`, and end with `!` where the node is foldable or
/// with `+` where it is extra.
fn parse(marked: &str) -> (Rope, SyntaxTree) {
    let mut text = String::new();
    let mut tree = SyntaxTree {
        nodes: vec![node("source_file", true, 0, None)],
        folds: Vec::new(),
    };
    let mut open = vec![0];
    let mut chars = marked.chars();
    while let Some(c) = chars.next() {
        match c {
            '⟨' | '⟪' => {
                let id = tree.nodes.len();
                let parent = open[open.len() - 1];
                let start = text.len();
                let mut new = node("", c == '⟨', start, Some(parent));
                if c == '⟨' {
                    let label: String = chars.by_ref().take_while(|c| *c != ':').collect();
                    let kind = match label.split_once('=') {
                        Some((field, kind)) => {
                            new.field = Some(field.to_owned());
                            kind
                        }
                        None => &label,
                    };
                    if kind.ends_with('!') {
                        tree.folds.push((id, id));
                    }
                    new.extra = kind.ends_with('+');
                    new.kind = kind.trim_end_matches(['!', '+']).to_owned();
                }
                tree.nodes.push(new);
                tree.nodes[parent].children.push(id);
                open.push(id);
            }
            '⟩' | '⟫' => {
                let id = open.pop().unwrap();
                let node = &mut tree.nodes[id];
                node.end_byte = text.len() as u32;
                if !node.visible {
                    node.kind = text[node.start_byte as usize..].to_owned();
                }
            }
            c => text.push(c),
        }
    }
    tree.nodes[0].end_byte = text.len() as u32;
    (Rope::from(text), tree)
}

fn node(kind: &str, visible: bool, start: usize, parent: Option<usize>) -> SyntaxNode {
    SyntaxNode {
        kind: kind.to_owned(),
        field: None,
        visible,
        extra: false,
        start_byte: start as u32,
        end_byte: start as u32,
        parent,
        children: Vec::new(),
    }
}

/// Renders `text` with `folds` closed, drawing fold cells as `…`.
fn render(text: &Rope, folds: &Folds) -> String {
    let text = text.slice(..);
    let mut rendered = String::new();
    let mut pos = 0;
    for fold in folds.outermost() {
        rendered.extend(text.slice(pos..fold.start).chars());
        rendered.push('…');
        pos = fold.end;
    }
    rendered.extend(text.slice(pos..).chars());
    rendered
}

/// Renders the text with every foldable region closed.
fn fold_all(marked: &str) -> String {
    let (text, tree) = parse(marked);
    let mut folds = Folds::default();
    folds.close_all(text.slice(..), &tree, Selection::point(0));
    render(&text, &folds)
}

/// Renders the row of every foldable region with only that region closed.
fn region_rows(marked: &str) -> Vec<String> {
    let (text, tree) = parse(marked);
    let slice = text.slice(..);
    regions(&tree, slice, 0..text.len_chars())
        .into_iter()
        .map(|region| {
            let (first, last) = row_lines(&[region], slice, region.header_line(slice));
            let mut row: String = slice.slice(text.line_to_char(first)..region.start).into();
            row.push('…');
            row.extend(
                slice
                    .slice(region.end..line_end_char_index(slice, last))
                    .chars(),
            );
            row.trim().to_owned()
        })
        .collect()
}

#[test]
fn rust_regions() {
    let source = "\
use std::io::⟨use_list!:⟪{⟫
    self,
    Read,
⟪}⟫⟩;

⟨function_item:fn next(&mut self) -> Option<char> ⟨block!:⟪{⟫
    ⟨if_expression:if self.done() ⟨block!:⟪{⟫
        None
    ⟪}⟫⟩ else ⟨block!:⟪{⟫
        self.src
            .chars()
            .next()
    ⟪}⟫⟩⟩
⟪}⟫⟩⟩

⟨function_item:fn f() ⟨block!:⟪{⟫
    ⟨call_expression:g⟨arguments!:⟪(⟫
        || ⟨block!:⟪{⟫
            1
⟪}⟫⟩⟪)⟫⟩⟩ ⟪}⟫⟩⟩
";
    assert_eq!(
        region_rows(source),
        [
            "use std::io::{…};",
            "fn next(&mut self) -> Option<char> {…}",
            "if self.done() {…} else {",
            "} else {…}",
            // brackets pull up only when the tree pairs them: the closure's `}` does not
            // close the function's `{`
            "fn f() {…",
            "g(… }",
            "|| {…}) }",
        ]
    );
}

#[test]
fn toggle() {
    let (text, tree) = parse(
        "⟨impl_item:impl A ⟨declaration_list!:⟪{⟫\n    \
         ⟨function_item:fn f() ⟨block!:⟪{⟫\n        1\n    ⟪}⟫⟩⟩\n⟪}⟫⟩⟩\n",
    );
    let source = "impl A {\n    fn f() {\n        1\n    }\n}\n";
    assert_eq!(text, source);
    let slice = text.slice(..);
    let mut folds = Folds::default();
    let toggle = |folds: &mut Folds, pos, recursive| {
        let selection = folds.toggle(slice, &tree, Selection::point(pos), recursive);
        (render(&text, folds), selection.primary().head)
    };
    // the cursor inside the body moves onto the fold cell
    assert_eq!(
        toggle(&mut folds, 30, false),
        ("impl A {\n    fn f() {…}\n}\n".into(), 21)
    );
    assert_eq!(toggle(&mut folds, 0, false), ("impl A {…}\n".into(), 0));
    // opening the impl leaves `fn f` closed
    assert_eq!(
        toggle(&mut folds, 0, false).0,
        "impl A {\n    fn f() {…}\n}\n"
    );
    // recursively closing the impl closes `fn f` too, and reopening it opens both
    assert_eq!(toggle(&mut folds, 0, true).0, "impl A {…}\n");
    assert_eq!(folds.closed().len(), 2);
    assert_eq!(toggle(&mut folds, 0, true).0, source);
}

#[test]
fn trailing_comments() {
    // comments at the header's indentation or left of it stay visible
    assert_eq!(
        fold_all(
            "⟨function_definition!:def f():\n    ⟨block:x = 1\n    ⟨comment+:# todo⟩\n\n\
             ⟨comment+:# helpers⟩⟩⟩\n⟨function_definition!:def g():\n    ⟨block:pass⟩⟩\n"
        ),
        "def f():…\n\n# helpers\ndef g():…\n"
    );
    assert_eq!(
        fold_all(
            "⟨block_mapping_pair!:on:\n  ⟨block_node:⟨block_mapping:push:\n    branches: [main]⟩\n\
             ⟨comment+:# about jobs⟩⟩⟩\n\
             ⟨block_mapping_pair!:jobs:\n  ⟨block_node:test:\n    runs-on: ubuntu⟩⟩\n"
        ),
        "on:…\n# about jobs\njobs:…\n"
    );
}

#[test]
fn brackets_are_paired_by_the_tree() {
    let (text, tree) = parse("⟨list:⟪[⟫⟨tuple:⟪(⟫a⟪)⟫⟩ ⟪]⟫⟩");
    let slice = text.slice(..);
    let token = |kind: &str| tree.nodes.iter().position(|node| node.kind == kind).unwrap();
    assert_eq!(
        matching_opener(slice, &tree, token("]")),
        Some(token("["))
    );
    assert_eq!(
        matching_opener(slice, &tree, token(")")),
        Some(token("("))
    );
    assert_eq!(matching_opener(slice, &tree, token("[")), None);
    // the smallest node that covers the bytes
    assert_eq!(descendant_for_byte_range(&tree, 0, 2, 3), Some(token("tuple")));
    assert_eq!(descendant_for_byte_range(&tree, 0, 0, 6), Some(token("list")));
    assert_eq!(descendant_for_byte_range(&tree, 0, 3, 2), None);
    // an empty node covers the empty range that it lies at
    let (_, gaps) = parse("⟨list:a⟨gap:⟩b⟩");
    assert_eq!(descendant_for_byte_range(&gaps, 0, 1, 1), Some(2));
    assert_eq!(descendant_for_byte_range(&gaps, 0, 1, 2), Some(1));
    // the child that covers the bytes, and none where they reach past every one
    assert_eq!(child_for_byte_range(&tree, 0, 2..3), Some(token("list")));
    assert_eq!(
        child_for_byte_range(&tree, token("list"), 2..3),
        Some(token("tuple"))
    );
    assert_eq!(child_for_byte_range(&tree, token("list"), 0..6), None);
    // bytes in the middle of a char belong to it
    let text = Rope::from("aäb");
    assert_eq!(
        [0, 1, 2, 3, 4].map(|byte| char_at_byte(text.slice(..), byte)),
        [0, 1, 1, 2, 3]
    );
}

#[test]
fn test_pretty_print() {
    let print = |marked: &str, start: u32, end: u32| {
        let (_, tree) = parse(marked);
        let node = descendant_for_byte_range(&tree, 0, start, end).unwrap();
        pretty_print_tree(&tree, node)
    };
    assert_eq!(
        print("⟨line_comment:⟪//⟫ Hello⟩", 0, 8),
        "(line_comment \"//\")"
    );

    // A large tree should be indented with fields:
    let source = "⟨function_item:⟪fn⟫ ⟨name=identifier:main⟩\
        ⟨parameters=parameters:⟪(⟫⟪)⟫⟩ ⟨body=block:⟪{⟫
            ⟨expression_statement:⟨macro_invocation:⟨macro=identifier:println⟩⟪!⟫\
        ⟨token_tree:⟪(⟫⟨string_literal:⟪\"⟫⟨string_content:Hello, World!⟩⟪\"⟫⟩⟪)⟫⟩⟩⟪;⟫⟩
        ⟪}⟫⟩⟩";
    let len = parse(source).0.len_bytes() as u32;
    assert_eq!(
        print(source, 0, len),
        [
            "(function_item \"fn\"\n",
            "  name: (identifier)\n",
            "  parameters: (parameters \"(\" \")\")\n",
            "  body: (block \"{\"\n",
            "    (expression_statement\n",
            "      (macro_invocation\n",
            "        macro: (identifier) \"!\"\n",
            "        (token_tree \"(\"\n",
            "          (string_literal \"\\\"\"\n",
            "            (string_content) \"\\\"\") \")\")) \";\") \"}\"))",
        ]
        .concat()
    );

    // Selecting a token should print just that token:
    let source = "⟨function_item:⟪fn⟫ ⟨name=identifier:main⟩\
        ⟨parameters=parameters:⟪(⟫⟪)⟫⟩ ⟨body=block:⟪{⟫⟪}⟫⟩⟩";
    assert_eq!(print(source, 0, 1), r#""fn""#);

    // A node inside of the tree is printed without its own field:
    let source = "⟨call:⟨function=path:⟨name=identifier:f⟩⟪::⟫⟩⟨arguments=list:⟪(⟫⟪)⟫⟩⟩";
    assert_eq!(print(source, 0, 3), "(path\n  name: (identifier) \"::\")");

    // Error nodes are printed as errors:
    assert_eq!(print("⟨ERROR:⟪}⟫⟪{⟫⟩", 0, 2), "(ERROR \"}\" \"{\")");

    // Fields broken under unnamed nodes are determined correctly.
    let source = "⟨singleton_method:⟪def⟫ ⟨object=self:self⟩⟪.⟫⟨name=identifier:method_name⟩
          ⟨body=body_statement:⟨true:true⟩⟩
        ⟪end⟫⟩";
    let len = parse(source).0.len_bytes() as u32;
    assert_eq!(
        print(source, 0, len),
        [
            "(singleton_method \"def\"\n",
            "  object: (self) \".\"\n",
            "  name: (identifier)\n",
            "  body: (body_statement\n",
            "    (true)) \"end\")"
        ]
        .concat()
    );
}

#[test]
fn quotes_of_tokens_are_escaped() {
    assert_eq!(format_anonymous_node_kind("\""), "\\\"");
    assert_eq!(format_anonymous_node_kind("+="), "+=");
}

#[test]
fn test_textobject_queries() {
    // two comments on lines of their own
    let comments = || {
        vec![vec![
            NodeBytes { start: 1, end: 18 },
            NodeBytes { start: 18, end: 37 },
        ]]
    };
    let matches = capture_nodes(comments());
    assert_eq!(matches[0].byte_range(), 1..37);
    assert!(matches!(matches[0], CapturedNode::Grouped(_)));
    // a query may capture a single node, or none at all
    let matches = capture_nodes(vec![vec![NodeBytes { start: 3, end: 5 }], Vec::new()]);
    assert_eq!(matches.len(), 1);
    assert!(matches!(matches[0], CapturedNode::Single(_)));
    assert_eq!((matches[0].start_byte(), matches[0].end_byte()), (3, 5));
}

/// The changes, each of which replaces the chars from one index to another.
fn changes(len: usize, changes: &[(usize, usize, Option<&str>)]) -> ChangeSet {
    let mut operations = Vec::new();
    let mut last = 0;
    for &(from, to, insert) in changes {
        operations.push(Operation::Retain(from - last));
        if let Some(insert) = insert {
            operations.push(Operation::Insert(insert.to_owned()));
        }
        if to > from {
            operations.push(Operation::Delete(to - from));
        }
        last = to;
    }
    operations.push(Operation::Retain(len - last));
    ChangeSet::from_operations(operations)
}

fn edit(start_byte: u32, old_end_byte: u32, new_end_byte: u32) -> InputEdit {
    let zero = Point { row: 0, col: 0 };
    InputEdit {
        start_byte,
        old_end_byte,
        new_end_byte,
        start_point: zero,
        old_end_point: zero,
        new_end_point: zero,
    }
}

#[test]
fn test_input_edits() {
    let doc = Rope::from("hello world!\ntest 123");
    let edits = generate_edits(
        doc.slice(..),
        &changes(21, &[(6, 11, Some("test")), (12, 17, None)]),
    );
    assert_eq!(edits, [edit(6, 11, 10), edit(12, 17, 12)]);

    // Testing with the official example from tree-sitter
    let mut doc = Rope::from("fn test() {}");
    let edits = generate_edits(doc.slice(..), &changes(12, &[(8, 8, Some("a: u32"))]));
    doc.insert(8, "a: u32");

    assert_eq!(doc, "fn test(a: u32) {}");
    assert_eq!(edits, [edit(8, 8, 14)]);
}

#[test]
fn edits_are_counted_in_bytes() {
    let doc = Rope::from("äöü");
    // each edit is told in the text that the ones before it left
    let edits = generate_edits(doc.slice(..), &changes(3, &[(1, 2, Some("€"))]));
    assert_eq!(edits, [edit(2, 4, 5)]);
    assert!(generate_edits(doc.slice(..), &changes(3, &[])).is_empty());
}

#[test]
fn positions_follow_changes() {
    // `abcdef` becomes `aXYdef`
    let set = changes(6, &[(1, 3, Some("XY"))]);
    assert_eq!(set.map_pos(0, Assoc::Before), 0);
    assert_eq!(set.map_pos(1, Assoc::Before), 1);
    assert_eq!(set.map_pos(5, Assoc::After), 5);
    assert_eq!(set.changed_ranges(), [(1, 3)]);
    assert!(!set.is_empty() && changes(0, &[]).changes().len() == 1);
    // an insertion at a position goes before or after it
    let set = changes(4, &[(2, 2, Some("xyz"))]);
    assert_eq!(set.map_pos(2, Assoc::Before), 2);
    assert_eq!(set.map_pos(2, Assoc::After), 5);
}

/// Reads a text with its breadcrumbs marked in it: `«…»` is a node, `‹scope:text›` a part of it.
fn parse_breadcrumbs(marked: &str) -> (String, Vec<BreadcrumbMatch>) {
    let mut text = String::new();
    let mut matches: Vec<BreadcrumbMatch> = Vec::new();
    let mut open = Vec::new();
    let mut part: Option<(String, u32)> = None;
    let mut chars = marked.chars();
    while let Some(c) = chars.next() {
        match c {
            '«' => {
                open.push((matches.len(), text.len() as u32));
                matches.push(BreadcrumbMatch {
                    node: None,
                    parts: Vec::new(),
                });
            }
            '»' => {
                let (index, start) = open.pop().unwrap();
                matches[index].node = Some((start, text.len() as u32));
            }
            '‹' => {
                let scope = chars.by_ref().take_while(|c| *c != ':').collect();
                part = Some((scope, text.len() as u32));
            }
            '›' => {
                let (scope, start) = part.take().unwrap();
                let (index, _) = open[open.len() - 1];
                matches[index].parts.push(BreadcrumbPart {
                    scope,
                    start,
                    end: text.len() as u32,
                });
            }
            c => text.push(c),
        }
    }
    (text, matches)
}

/// Asserts the breadcrumbs around the first occurrence of `cursor`, each written as its
/// `scope:text` segments.
fn assert_breadcrumbs(marked: &str, cursor: &str, expected: &[&str]) {
    let (text, matches) = parse_breadcrumbs(marked);
    let pos = text.find(cursor).unwrap() as u32;
    let text = Rope::from(text);
    let crumbs: Vec<_> = breadcrumbs(text.slice(..), &matches, pos)
        .iter()
        .map(|breadcrumb| {
            let segments: Vec<_> = breadcrumb
                .segments
                .iter()
                .map(|segment| format!("{}:{}", segment.scope, segment.text))
                .collect();
            segments.join(" ")
        })
        .collect();
    assert_eq!(expected, crumbs);
}

#[test]
fn test_breadcrumbs() {
    let source = "\
«‹keyword:mod› ‹namespace:editor› {
    «‹keyword:impl› ‹type:Cache› {
        «‹keyword:pub› ‹keyword.function:fn› ‹function:get›(&self) -> Option<V> {
            None
        }»
    }»
}»
«‹keyword.function:fn› ‹function:main›() {}»
";
    let trail = [
        "keyword:mod namespace:editor",
        "keyword:impl type:Cache",
        "keyword:pub keyword.function:fn function:get",
    ];
    assert_breadcrumbs(source, "None", &trail);
    assert_breadcrumbs(source, "mod", &trail[..1]);
    // The node ends before the line break after its closing brace.
    assert_breadcrumbs(source, "\nfn main", &[]);
    assert_breadcrumbs(source, "main", &["keyword.function:fn function:main"]);
}

#[test]
fn test_breadcrumbs_injections() {
    let source = "\
«# ‹markup.heading:Usage›

«## ‹markup.heading:Example›

```rust
«‹keyword.function:fn› ‹function:main›() {
    let x = 1;
}»
```

»»«# ‹markup.heading:License›
»";
    assert_breadcrumbs(
        source,
        "let",
        &[
            "markup.heading:Usage",
            "markup.heading:Example",
            "keyword.function:fn function:main",
        ],
    );
    assert_breadcrumbs(source, "License", &["markup.heading:License"]);
}

#[test]
fn test_breadcrumb_queries() {
    let cases: &[(&str, &str, &[&str])] = &[
        (
            "«‹function:greet›() {\n  echo hi\n}»\n",
            "echo",
            &["function:greet"],
        ),
        (
            "«‹keyword:class› ‹type:Inner›:\n\t«‹keyword.control:func› ‹function:run›():\n\t\tpass»»\n",
            "pass",
            &[
                "keyword:class type:Inner",
                "keyword.control:func function:run",
            ],
        ),
        (
            "«‹keyword:type› ‹type:Server› ‹keyword:struct› {\n\tname string\n}»\n",
            "name",
            &["keyword:type type:Server keyword:struct"],
        ),
        (
            "«‹keyword.function:function› ‹function:greet›() {\n  return 1;\n}»\n",
            "return",
            &["keyword.function:function function:greet"],
        ),
        (
            "«‹keyword.function:function› ‹function:greet›()\n  return 1\nend»\n",
            "return",
            &["keyword.function:function function:greet"],
        ),
        (
            "«‹keyword:class› ‹type:Shape›:\n    «‹keyword.function:def› ‹function:area›(self):\n        pass»»\n",
            "pass",
            &[
                "keyword:class type:Shape",
                "keyword.function:def function:area",
            ],
        ),
        (
            "«‹keyword:object› ‹type:Main› {\n  «‹keyword.function:def› ‹function:run›(): Unit = {\n    println(1)\n  }»\n}»\n",
            "println",
            &[
                "keyword:object type:Main",
                "keyword.function:def function:run",
            ],
        ),
        (
            "«(‹keyword:define› (‹function:square› x)\n  (* x x))»\n",
            "(* x",
            &["keyword:define function:square"],
        ),
        (
            "«(‹keyword:define› ‹name:pi› 3.14)»\n",
            "3.14",
            &["keyword:define name:pi"],
        ),
        (
            "«= ‹markup.heading:Intro›\n\nSome text\n»",
            "Some",
            &["markup.heading:Intro"],
        ),
        (
            "«const ‹type:Point› = ‹keyword:struct› {\n    «‹keyword.function:fn› ‹function:len›() void {\n        return;\n    }»\n}»;\n",
            "return",
            &[
                "type:Point keyword:struct",
                "keyword.function:fn function:len",
            ],
        ),
    ];
    for (source, cursor, expected) in cases {
        assert_breadcrumbs(source, cursor, expected);
    }
}

/// Captures that span lines, as formatted by each language's usual formatter.
#[test]
fn test_breadcrumbs_multiline_captures() {
    // rustfmt
    let source = "\
«‹keyword:impl›<F> ‹type:From<
    Box<dyn Fn(&str) -> Result<(), Error> + Send + Sync>,
>› ‹keyword:for› ‹type:Handler<F>›
{
    «‹keyword.function:fn› ‹function:from›() {}»
}»

«‹keyword:impl›<A, B> ‹type:Pair›
    ‹keyword:for› ‹type:(
        VeryLongTypeName<A>,
        AnotherVeryLongTypeName<B>,
    )›
{
    «‹keyword.function:fn› ‹function:first›() {}»
}»

«‹keyword:impl› ‹type:Buffer<{ N + 1 }>› {
    «‹keyword.function:fn› ‹function:len›() {}»
}»

«‹keyword:impl›<T> ‹type:Marker› ‹keyword:for› ‹type:(T,)› {
    «‹keyword.function:fn› ‹function:mark›() {}»
}»
";
    assert_breadcrumbs(
        source,
        "fn from",
        &[
            "keyword:impl type:From<Box<dyn Fn(&str) -> Result<(), Error> + Send + Sync>> keyword:for type:Handler<F>",
            "keyword.function:fn function:from",
        ],
    );
    assert_breadcrumbs(
        source,
        "fn first",
        &[
            "keyword:impl type:Pair keyword:for type:(VeryLongTypeName<A>, AnotherVeryLongTypeName<B>)",
            "keyword.function:fn function:first",
        ],
    );
    assert_breadcrumbs(
        source,
        "fn len",
        &[
            "keyword:impl type:Buffer<{ N + 1 }>",
            "keyword.function:fn function:len",
        ],
    );
    assert_breadcrumbs(
        source,
        "fn mark",
        &[
            "keyword:impl type:Marker keyword:for type:(T,)",
            "keyword.function:fn function:mark",
        ],
    );

    // GNU style
    let source = "\
«static ‹type.builtin:struct point› ‹type.builtin:*›
‹function:make_point› (int x, int y)
{
  return 0;
}»
";
    assert_breadcrumbs(
        source,
        "return",
        &["type.builtin:struct point type.builtin:* function:make_point"],
    );

    // clang-format
    let source = "\
template <typename T>
«‹type:typename std::enable_if<std::is_integral<T>::value,
                        T>::type›
‹function:clamp›(T value) {
  return value;
}»

«‹type:std::function<void(int,
                   int)>›
‹function:make_handler›() {
  return {};
}»

«‹type:std::array<int, (sizeof(Word) >
                 4)>›
‹function:widen›() {
  return widened;
}»
";
    assert_breadcrumbs(
        source,
        "return value",
        &["type:typename std::enable_if<std::is_integral<T>::value, T>::type function:clamp"],
    );
    assert_breadcrumbs(
        source,
        "return {}",
        &["type:std::function<void(int, int)> function:make_handler"],
    );
    assert_breadcrumbs(
        source,
        "widened",
        &["type:std::array<int, (sizeof(Word) > 4)> function:widen"],
    );

    // google-java-format
    let source = "\
«‹keyword:class› ‹type:Index› {
  «public static ‹type:Map<
          String, List<Integer>>›
      ‹function:build›(Corpus corpus) {
    return null;
  }»
}»
";
    assert_breadcrumbs(
        source,
        "return",
        &[
            "keyword:class type:Index",
            "type:Map<String, List<Integer>> function:build",
        ],
    );

    // gofmt
    let source = "\
«‹keyword.function:func› (c ‹type:*Cache[
\tK,
\tV,
]›) ‹function:Get›(key K) V {
\treturn c.items[key]
}»
";
    assert_breadcrumbs(
        source,
        "return",
        &["keyword.function:func type:*Cache[K, V] function:Get"],
    );
}

#[test]
fn test_flatten_breadcrumb_text() {
    let flatten = |text: &str| flatten_breadcrumb_text(Rope::from_str(text).slice(..));

    assert_eq!(
        flatten("  Cache<\r\n    K,\r\n    V,\r\n>\n"),
        "Cache<K, V>"
    );
    assert_eq!(flatten("Tree\n  a"), "Tree a");
    assert_eq!(flatten("(a ->\n  b)"), "(a -> b)");
    // Haskell instance heads as ormolu and fourmolu format them.
    assert_eq!(flatten("( Text,\n      Int\n    )"), "(Text, Int)");
    assert_eq!(flatten("( Text\n        , Int\n        )"), "(Text, Int)");
    // Whitespace inside parentheses and square brackets is dropped...
    assert_eq!(flatten("( Text, [ Int ] )"), "(Text, [Int])");
    // ...but angle brackets may be comparisons and braces are spaced by convention.
    assert_eq!(
        flatten("Foo<{ N < 4 }, (N > 0)>"),
        "Foo<{ N < 4 }, (N > 0)>"
    );
    // A trailing comma is only dropped when a formatter put the bracket on its own line.
    assert_eq!(flatten("(T,)"), "(T,)");

    let max = "x".repeat(MAX_BREADCRUMB_SEGMENT_LEN);
    assert_eq!(flatten(&max), max);
    assert_eq!(flatten(&format!("{max}y")), format!("{max}…"));
    assert_eq!(flatten(&format!("{max}\n  y")), format!("{max}…"));
}

#[test]
fn the_longest_scope_wins() {
    let names: Vec<String> = ["function", "function.builtin", "keyword"]
        .map(String::from)
        .to_vec();
    assert_eq!(best_scope("function.builtin.static", &names), Some(1));
    assert_eq!(best_scope("function.method", &names), Some(0));
    assert_eq!(best_scope("variable", &names), None);
}

fn language(
    id: &str,
    file_types: Vec<FileType>,
    shebangs: &[&str],
    injection_regex: Option<&str>,
) -> LanguageConfiguration {
    LanguageConfiguration {
        language_id: id.to_owned(),
        scope: format!("source.{id}"),
        file_types,
        shebangs: shebangs.iter().map(|shebang| shebang.to_string()).collect(),
        injection_regex: injection_regex.map(String::from),
        grammar: None,
    }
}

#[test]
fn grammars_are_named_after_their_language() {
    let mut config = language("jsx", Vec::new(), &[], None);
    assert_eq!(config.parser_name(), "jsx");
    config.grammar = Some("javascript".to_owned());
    assert_eq!(config.parser_name(), "javascript");
}

fn loader() -> Loader {
    let extension = |text: &str| FileType::Extension(text.to_owned());
    let glob = |text: &str| FileType::Glob(text.to_owned());
    let loader = Loader::new(vec![
        language("rust", vec![extension("rs")], &[], Some("rust|rs")),
        language(
            "bash",
            vec![extension("sh"), glob("*.bashrc"), glob("*/PKGBUILD")],
            &["sh", "bash"],
            Some("(shell|bash|sh)$"),
        ),
        language("json", vec![glob("*.config.json"), extension("json")], &[], None),
        language("tsconfig", vec![glob("*/tsconfig.config.json")], &[], None),
    ]);
    let Ok(loader) = loader else {
        panic!("the globs are fine");
    };
    loader
}

#[test]
fn languages_are_found_by_what_names_them() {
    let loader = loader();
    assert_eq!(loader.language_for_name("bash"), Some(Language(1)));
    assert_eq!(loader.language_for_name("fish"), None);
    assert_eq!(loader.language_for_scope("source.json"), Some(Language(2)));
    assert_eq!(loader.language(Language(0)).language_id, "rust");
    assert_eq!(loader.languages().len(), 4);
    assert_eq!(loader.language_for_extension("sh"), Some(Language(1)));
    assert_eq!(loader.language_for_extension("exe"), None);
    assert_eq!(loader.language_for_path("/home/user/.bashrc"), Some(Language(1)));
    assert_eq!(loader.language_for_path("/build/PKGBUILD"), Some(Language(1)));
    // of several globs the longest one tells
    assert_eq!(
        loader.language_for_path("/x/tsconfig.config.json"),
        Some(Language(3))
    );
    assert_eq!(loader.language_for_path("/x/eslint.config.json"), Some(Language(2)));
    // an extension tells where no glob does
    assert_eq!(loader.language_for_filename("main.rs"), Some(Language(0)));
    assert_eq!(loader.language_for_filename("main"), None);
    assert_eq!(loader.language_for_filename("src/a.b.rs"), Some(Language(0)));
    assert_eq!(loader.language_for_filename("src.rs/main"), None);
    assert_eq!(loader.language_for_filename("src/.rs"), None);
    assert_eq!(loader.language_for_filename("src/..rs"), Some(Language(0)));
}

#[test]
fn languages_are_found_in_texts() {
    let loader = loader();
    let shebang = |text: &str| loader.language_for_shebang(Rope::from(text).slice(..));
    assert_eq!(shebang("#!/bin/bash -e\necho\n"), Some(Language(1)));
    assert_eq!(shebang("#!/usr/bin/env bash\n"), Some(Language(1)));
    assert_eq!(shebang("#!/usr/bin/env python\n"), None);
    assert_eq!(shebang("echo\n"), None);
    assert_eq!(loader.language_for_shebang_marker("sh"), Some(Language(1)));
    // the longest match of an injection tells
    let injected = |text: &str| loader.language_for_match(Rope::from(text).slice(..));
    assert_eq!(injected("rust"), Some(Language(0)));
    assert_eq!(injected("shell"), Some(Language(1)));
    assert_eq!(injected("markdown"), None);
}

#[test]
fn languages_are_found_by_their_markers() {
    let loader = loader();
    let (bash, file, env) = (
        Rope::from("shell"),
        Rope::from("/x/main.rs"),
        Rope::from("sh"),
    );
    let marked = |marker| loader.language_for_marker(marker);
    assert_eq!(marked(InjectionMarker::Name("json")), Some(Language(2)));
    assert_eq!(
        marked(InjectionMarker::Match(bash.slice(..))),
        Some(Language(1))
    );
    assert_eq!(
        marked(InjectionMarker::Filename(file.slice(..))),
        Some(Language(0))
    );
    assert_eq!(
        marked(InjectionMarker::Shebang(env.slice(..))),
        Some(Language(1))
    );
    // the first of the longest matches, the last of the longest globs
    assert_eq!(longest_match(&vec![0, 3, 5, 5]), Some(Language(2)));
    assert_eq!(longest_match(&vec![0, 0]), None);
    assert_eq!(loader.language_of_globs(&vec![0, 1]), Some(Language(1)));
    assert_eq!(loader.language_of_globs(&vec![0, 2]), Some(Language(2)));
    assert_eq!(loader.language_of_globs(&vec![]), None);
}

#[test]
fn broken_globs_are_told() {
    let broken = Loader::new(vec![language(
        "broken",
        vec![FileType::Glob("a[".to_owned())],
        &[],
        None,
    )]);
    assert!(matches!(broken, Err(LoaderError::Glob(_))));
}

#[test]
fn scopes_are_kept() {
    let mut loader = loader();
    assert!(loader.scopes().is_empty());
    loader.set_scopes(vec!["keyword".to_owned()]);
    assert_eq!(loader.scopes(), &["keyword"]);
    assert_eq!(loader.languages().len(), 4);
}

fn ranges(highlights: OverlayHighlights) -> Vec<(u32, std::ops::Range<usize>)> {
    match highlights {
        OverlayHighlights::Homogeneous { highlight, ranges } => ranges
            .into_iter()
            .map(|range| (highlight.0, range))
            .collect(),
        OverlayHighlights::Heterogenous { highlights } => highlights
            .into_iter()
            .map(|(highlight, range)| (highlight.0, range))
            .collect(),
    }
}

#[test]
fn brackets_are_colored_by_their_depth() {
    // `((a))`, each pair a scope of its own
    let text = Rope::from("((a))");
    let found = |capture, start, end, node, parent| RainbowMatch {
        capture,
        start,
        end,
        node,
        parent,
        include_children: false,
    };
    let matches = vec![
        found(RainbowCapture::Scope, 0, 5, 1, Some(0)),
        found(RainbowCapture::Bracket, 0, 1, 2, Some(1)),
        found(RainbowCapture::Scope, 1, 4, 3, Some(1)),
        found(RainbowCapture::Bracket, 1, 2, 4, Some(3)),
        found(RainbowCapture::Bracket, 3, 4, 5, Some(3)),
        found(RainbowCapture::Bracket, 4, 5, 6, Some(1)),
    ];
    assert_eq!(
        ranges(rainbow_highlights(text.slice(..), 3, &matches)),
        [(0, 0..1), (1, 1..2), (1, 3..4), (0, 4..5)]
    );
    // the colors start over
    assert_eq!(
        ranges(rainbow_highlights(text.slice(..), 1, &matches)),
        [(0, 0..1), (0, 1..2), (0, 3..4), (0, 4..5)]
    );
}

#[test]
fn segments_are_cut_off_at_their_longest() {
    let flatten = |text: &str| flatten_breadcrumb_text(Rope::from_str(text).slice(..));
    let almost = "x".repeat(511);
    // a char of two bytes no longer fits
    assert_eq!(flatten(&format!("{almost}é")), format!("{almost}…"));
    assert_eq!(flatten(&format!("{almost}y")), format!("{almost}y"));
    // padding before a dropped comma goes with it
    assert_eq!(flatten("(a ,\n)"), "(a)");
    assert_eq!(flatten("(a , b)"), "(a , b)");
}

#[test]
fn highlights_are_those_of_all_ranges() {
    let spans = [
        vec![(1, 0..3), (2, 3..5), (3, 9..10)],
        vec![(4, 2..9)],
        vec![(5, 5..6), (6, 7..12)],
    ];
    let overlays = spans.iter().map(|spans| OverlayHighlights::Heterogenous {
        highlights: spans
            .iter()
            .map(|(highlight, range)| (Highlight(*highlight), range.clone()))
            .collect(),
    });
    let mut highlighter = OverlayHighlighter::new(overlays.collect());
    let mut changes = Vec::new();
    while highlighter.next_event_offset() < usize::MAX {
        let pos = highlighter.next_event_offset();
        changes.push(pos);
        let (_, highlights) = highlighter.advance();
        let active: Vec<u32> = highlights.iter().map(|highlight| highlight.0).collect();
        let covering: Vec<u32> = spans
            .iter()
            .filter_map(|spans| spans.iter().find(|(_, range)| range.contains(&pos)))
            .map(|(highlight, _)| *highlight)
            .collect();
        assert_eq!(active, covering, "at {}", pos);
    }
    assert_eq!(changes, [0, 2, 3, 5, 6, 7, 9, 10, 12]);
}

#[test]
fn overlays_are_merged_in_order() {
    let mut highlighter = OverlayHighlighter::new(vec![
        OverlayHighlights::Homogeneous {
            highlight: Highlight(1),
            ranges: vec![2..6],
        },
        OverlayHighlights::single(Highlight(2), 4..8),
    ]);
    let mut events = Vec::new();
    while highlighter.next_event_offset() < usize::MAX {
        let offset = highlighter.next_event_offset();
        let (event, highlights) = highlighter.advance();
        let highlights: Vec<_> = highlights.iter().map(|highlight| highlight.0).collect();
        assert_eq!(event, HighlightEvent::Refresh);
        events.push((offset, highlights));
    }
    assert_eq!(
        events,
        [
            (2, vec![1]),
            (4, vec![1, 2]),
            (6, vec![2]),
            (8, vec![]),
        ]
    );
}
