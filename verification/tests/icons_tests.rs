use crossterm::style::{Colored, Stylize};
use git_log_pretty::colors::{hex_to_rgb, Color};
use git_log_pretty::icons::{
    build_tree, flatten_tree, get_file_icons, layout, print_tree, row_spans, Child, Icon,
    TreeNode, TreeRow,
};
use git_log_pretty::style::{Span, Style, Theme};

const GRAY: Color = Color::Rgb { r: 128, g: 128, b: 128 };

fn strings(items: &[&str]) -> Vec<String> {
    items.iter().map(|s| s.to_string()).collect()
}

fn file(name: &str) -> Child {
    Child { name: name.to_string(), node: TreeNode { is_file: true, children: Vec::new() } }
}

fn dir(name: &str, children: Vec<Child>) -> Child {
    Child { name: name.to_string(), node: TreeNode { is_file: false, children } }
}

fn root(children: Vec<Child>) -> TreeNode {
    TreeNode { is_file: false, children }
}

fn collapsed(paths: &[&str]) -> TreeNode {
    let mut tree = build_tree(&strings(paths));
    flatten_tree(&mut tree);
    tree
}

fn row(guides: &[bool], last: bool, name: &str, is_file: bool) -> TreeRow {
    TreeRow { guides: guides.to_vec(), last, name: name.to_string(), is_file }
}

fn icon_of(name: &str, theme: devicons::Theme) -> devicons::FileIcon {
    devicons::icon_for_file(name, &Some(theme))
}

#[test]
fn a_new_node_has_no_children() {
    assert_eq!(TreeNode::new(true), TreeNode { is_file: true, children: Vec::new() });
    assert_eq!(TreeNode::new(false), TreeNode { is_file: false, children: Vec::new() });
}

#[test]
fn no_paths_give_an_empty_root() {
    assert_eq!(build_tree(&[]), root(vec![]));
}

#[test]
fn a_path_gives_a_directory_for_each_segment_but_the_last() {
    assert_eq!(
        build_tree(&strings(&["a/b/c/file.txt"])),
        root(vec![dir("a", vec![dir("b", vec![dir("c", vec![file("file.txt")])])])])
    );
}

#[test]
fn children_are_kept_in_order_of_name() {
    assert_eq!(
        build_tree(&strings(&["src/main.rs", "Cargo.toml", "src/lib.rs", "README.md", "a.txt"])),
        root(vec![
            file("Cargo.toml"),
            file("README.md"),
            file("a.txt"),
            dir("src", vec![file("lib.rs"), file("main.rs")]),
        ])
    );
}

#[test]
fn a_path_entered_twice_changes_nothing() {
    assert_eq!(
        build_tree(&strings(&["a/b.txt", "a/b.txt", "a/b.txt"])),
        build_tree(&strings(&["a/b.txt"]))
    );
}

#[test]
fn the_order_of_the_paths_does_not_matter() {
    let one = ["src/a.rs", "src/b/c.rs", "docs/x.md", "z.txt", "src/b/d/e.rs"];
    let two = ["src/b/d/e.rs", "z.txt", "src/b/c.rs", "src/a.rs", "docs/x.md"];
    let three = ["docs/x.md", "src/b/c.rs", "src/b/d/e.rs", "src/a.rs", "z.txt"];
    assert_eq!(build_tree(&strings(&one)), build_tree(&strings(&two)));
    assert_eq!(build_tree(&strings(&one)), build_tree(&strings(&three)));
}

#[test]
fn the_first_path_through_a_name_decides_its_kind() {
    let file_first = build_tree(&strings(&["a", "a/b"]));
    let dir_first = build_tree(&strings(&["a/b", "a"]));
    assert!(file_first.children[0].node.is_file);
    assert!(!dir_first.children[0].node.is_file);
    assert_eq!(file_first.children[0].node.children, vec![file("b")]);
    assert_eq!(dir_first.children[0].node.children, vec![file("b")]);
}

#[test]
fn empty_segments_are_names_too() {
    assert_eq!(build_tree(&strings(&[""])), root(vec![file("")]));
    assert_eq!(
        build_tree(&strings(&["a//b"])),
        root(vec![dir("a", vec![dir("", vec![file("b")])])])
    );
}

#[test]
fn a_chain_of_single_directories_collapses_to_one() {
    assert_eq!(
        collapsed(&["a/b/c/file.txt"]),
        root(vec![dir("a/b/c", vec![file("file.txt")])])
    );
}

#[test]
fn a_directory_with_two_children_does_not_collapse() {
    assert_eq!(
        collapsed(&["a/file1.txt", "a/sub/file2.txt"]),
        root(vec![dir("a", vec![file("file1.txt"), dir("sub", vec![file("file2.txt")])])])
    );
}

#[test]
fn a_directory_with_one_file_does_not_collapse() {
    assert_eq!(collapsed(&["a/file.txt"]), root(vec![dir("a", vec![file("file.txt")])]));
    let mut empty_dir = root(vec![dir("a", vec![])]);
    flatten_tree(&mut empty_dir);
    assert_eq!(empty_dir, root(vec![dir("a", vec![])]));
}

#[test]
fn the_root_itself_does_not_collapse() {
    assert_eq!(
        collapsed(&["only/x.txt", "only/y.txt"]),
        root(vec![dir("only", vec![file("x.txt"), file("y.txt")])])
    );
}

#[test]
fn chains_collapse_at_every_depth() {
    assert_eq!(
        collapsed(&["top/a/b/one.txt", "top/c/d/e/two.txt", "top/f.txt"]),
        root(vec![dir(
            "top",
            vec![
                dir("a/b", vec![file("one.txt")]),
                dir("c/d/e", vec![file("two.txt")]),
                file("f.txt"),
            ]
        )])
    );
}

#[test]
fn children_are_in_order_of_their_new_names() {
    assert_eq!(
        collapsed(&["a/b/x.txt", "a.txt"]),
        root(vec![file("a.txt"), dir("a/b", vec![file("x.txt")])])
    );
    assert_eq!(
        build_tree(&strings(&["a/b/x.txt", "a.txt"])),
        root(vec![dir("a", vec![dir("b", vec![file("x.txt")])]), file("a.txt")])
    );
}

#[test]
fn collapsing_twice_is_collapsing_once() {
    let lists: [&[&str]; 4] = [
        &["a/b/c/file.txt"],
        &["a/file1.txt", "a/sub/file2.txt"],
        &["top/a/b/one.txt", "top/c/d/e/two.txt", "top/f.txt", "a/b/x.txt", "a.txt"],
        &[],
    ];
    for paths in lists {
        let once = collapsed(paths);
        let mut twice = collapsed(paths);
        flatten_tree(&mut twice);
        assert_eq!(once, twice);
    }
}

fn names_are_apart(node: &TreeNode) -> bool {
    node.children.windows(2).all(|pair| pair[0].name < pair[1].name)
        && node.children.iter().all(|child| names_are_apart(&child.node))
}

fn files_are_leaves(node: &TreeNode) -> bool {
    node.children.iter().all(|child| {
        (!child.node.is_file || child.node.children.is_empty()) && files_are_leaves(&child.node)
    })
}

fn count_below(node: &TreeNode) -> usize {
    node.children.iter().map(|child| 1 + count_below(&child.node)).sum()
}

#[test]
fn no_name_occurs_twice_among_siblings() {
    let paths = ["a/b/x.txt", "a.txt", "a/b/y.txt", "c/d/e/f.txt", "c/d.txt", "c.d/e.txt"];
    assert!(names_are_apart(&build_tree(&strings(&paths))));
    assert!(names_are_apart(&collapsed(&paths)));
}

#[test]
fn files_have_no_children() {
    let paths = ["a/b/x.txt", "a.txt", "a/b/y.txt", "c/d/e/f.txt", "c/d.txt"];
    assert!(files_are_leaves(&build_tree(&strings(&paths))));
    assert!(files_are_leaves(&collapsed(&paths)));
    assert!(!files_are_leaves(&build_tree(&strings(&["a", "a/b"]))));
}

#[test]
fn the_layout_has_one_row_for_each_node() {
    let paths = ["a/b/x.txt", "a.txt", "a/b/y.txt", "c/d/e/f.txt", "c/d.txt"];
    let tree = build_tree(&strings(&paths));
    assert_eq!(layout(&tree).len(), count_below(&tree));
    assert_eq!(layout(&tree).len(), 10);
    let tree = collapsed(&paths);
    assert_eq!(layout(&tree).len(), count_below(&tree));
    assert_eq!(layout(&tree).len(), 8);
}

#[test]
fn a_file_with_children_is_no_directory() {
    let mut tree = build_tree(&strings(&["a", "a/b/c.txt"]));
    flatten_tree(&mut tree);
    assert_eq!(
        tree,
        root(vec![Child {
            name: "a".to_string(),
            node: TreeNode { is_file: true, children: vec![dir("b", vec![file("c.txt")])] },
        }])
    );
}

#[test]
fn rows_come_depth_first_with_their_guides() {
    let tree = root(vec![
        dir("a", vec![file("x"), dir("b", vec![file("y")])]),
        file("z"),
    ]);
    assert_eq!(
        layout(&tree),
        vec![
            row(&[], false, "a", false),
            row(&[true], false, "x", true),
            row(&[true], true, "b", false),
            row(&[true, false], true, "y", true),
            row(&[], true, "z", true),
        ]
    );
}

#[test]
fn an_empty_tree_has_no_rows() {
    assert_eq!(layout(&root(vec![])), Vec::<TreeRow>::new());
}

#[test]
fn the_line_of_a_file_has_branch_name_and_icon() {
    let icon = Icon { glyph: "*".to_string(), color: "#ff00aa".to_string() };
    assert_eq!(
        row_spans(&row(&[], true, "readme.md", true), &Some(icon)),
        vec![
            Span::new("    ", Style::Plain),
            Span::new("└── ", Style::Foreground(GRAY)),
            Span::new(" ", Style::Plain),
            Span::new("readme.md", Style::Foreground(Color::White)),
            Span::new(" ", Style::Plain),
            Span::new("*", Style::Foreground(Color::Rgb { r: 255, g: 0, b: 170 })),
        ]
    );
}

#[test]
fn the_line_of_a_directory_is_gray_without_icon() {
    assert_eq!(
        row_spans(&row(&[], false, "src/core", false), &None),
        vec![
            Span::new("    ", Style::Plain),
            Span::new("├── ", Style::Foreground(GRAY)),
            Span::new(" ", Style::Plain),
            Span::new("src/core", Style::Foreground(GRAY)),
        ]
    );
}

#[test]
fn the_indentation_follows_the_guides() {
    assert_eq!(
        row_spans(&row(&[true, false], true, "d", false), &None),
        vec![
            Span::new("    ", Style::Plain),
            Span::new("│", Style::Foreground(GRAY)),
            Span::new("    ", Style::Plain),
            Span::new(" ", Style::Plain),
            Span::new("    ", Style::Plain),
            Span::new("└── ", Style::Foreground(GRAY)),
            Span::new(" ", Style::Plain),
            Span::new("d", Style::Foreground(GRAY)),
        ]
    );
}

#[test]
fn a_file_name_is_split_at_its_last_slash() {
    let icon = Icon { glyph: "i".to_string(), color: "bad".to_string() };
    assert_eq!(
        row_spans(&row(&[], true, "a/b/file.txt", true), &Some(icon)),
        vec![
            Span::new("    ", Style::Plain),
            Span::new("└── ", Style::Foreground(GRAY)),
            Span::new(" ", Style::Plain),
            Span::new("a/b/", Style::Foreground(GRAY)),
            Span::new("file.txt", Style::Foreground(Color::White)),
            Span::new(" ", Style::Plain),
            Span::new("i", Style::Foreground(Color::White)),
        ]
    );
}

#[test]
fn no_files_render_as_nothing() {
    assert_eq!(get_file_icons(&[], &Some(Theme::Dark)), "");
    let mut lines: Vec<String> = Vec::new();
    print_tree(&root(vec![]), &Some(Theme::Dark), &mut lines);
    assert_eq!(lines, Vec::<String>::new());
}

#[test]
fn a_single_file_renders_as_one_line() {
    Colored::set_ansi_color_disabled(false);
    let out = get_file_icons(&strings(&["readme.md"]), &Some(Theme::Dark));
    let icon = icon_of("readme.md", devicons::Theme::Dark);
    assert_eq!(out.lines().count(), 1);
    assert!(out.contains("└── "));
    assert!(out.contains("readme.md"));
    assert!(out.contains(icon.icon));
    let gray = crossterm::style::Color::Rgb { r: 128, g: 128, b: 128 };
    let tint = match hex_to_rgb(icon.color) {
        Color::Rgb { r, g, b } => crossterm::style::Color::Rgb { r, g, b },
        _ => crossterm::style::Color::White,
    };
    let expected = format!(
        "    {} {} {}",
        "└── ".with(gray),
        "readme.md".with(crossterm::style::Color::White),
        icon.icon.to_string().with(tint)
    );
    assert_eq!(out, expected);
}

#[test]
fn the_theme_picks_the_icon_colors() {
    Colored::set_ansi_color_disabled(false);
    let dark = icon_of("file.txt", devicons::Theme::Dark);
    let light = icon_of("file.txt", devicons::Theme::Light);
    assert_ne!(dark.color, light.color);
    let on_dark = get_file_icons(&strings(&["file.txt"]), &Some(Theme::Dark));
    let on_light = get_file_icons(&strings(&["file.txt"]), &Some(Theme::Light));
    assert_ne!(on_dark, on_light);
    assert_eq!(get_file_icons(&strings(&["file.txt"]), &None), on_dark);
}

#[test]
fn a_tree_renders_one_line_for_each_node() {
    Colored::set_ansi_color_disabled(false);
    let paths = strings(&["a/b/c/file.txt", "a/b/d.txt", "e.txt"]);
    let out = get_file_icons(&paths, &Some(Theme::Dark));
    let lines: Vec<&str> = out.lines().collect();
    assert_eq!(lines.len(), 5);
    assert!(lines[0].contains("├── ") && lines[0].contains("a/b"));
    assert!(lines[1].contains("├── ") && lines[1].contains("c"));
    assert!(lines[2].contains("└── ") && lines[2].contains("file.txt"));
    assert!(lines[3].contains("└── ") && lines[3].contains("d.txt"));
    assert!(lines[4].contains("└── ") && lines[4].contains("e.txt"));
    assert!(lines[1].contains("│"));
    assert!(lines[2].contains("│"));
    assert!(!lines[4].contains("│"));
}

#[test]
fn lines_are_appended_to_what_is_there() {
    let mut lines = vec!["first".to_string()];
    print_tree(&build_tree(&strings(&["x/y.txt"])), &Some(Theme::Dark), &mut lines);
    assert_eq!(lines.len(), 3);
    assert_eq!(lines[0], "first");
    assert!(lines[1].contains("x"));
    assert!(lines[2].contains("y.txt"));
}

#[test]
fn every_icon_looked_up_is_one_glyph_with_a_hex_color() {
    for name in ["readme.md", "main.rs", "Cargo.toml", "no_extension", ".gitignore", "x.unknown"] {
        for theme in [devicons::Theme::Dark, devicons::Theme::Light] {
            let icon = devicons::icon_for_file(name, &Some(theme));
            assert_eq!(icon.icon.to_string().chars().count(), 1);
            assert_ne!(hex_to_rgb(icon.color), Color::White);
            assert!(icon.color.starts_with('#') && icon.color.len() == 7);
        }
    }
}
