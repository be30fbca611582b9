//! The changed-file tree: built from paths, collapsed, and rendered as lines.

use vstd::prelude::*;
use vstd::string::StrSliceExecFns;
use crate::build_laws::lemma_build_well_formed;
use crate::collapse_laws::{lemma_collapse_keeps_names_apart, lemma_collapse_shape};
use crate::colors::{hex_color, hex_to_rgb, is_hex_color, Color};
use crate::style::{is_painting, paint_line, plain, runs, tinted, Run, Span, Style, Theme};
use crate::text::{chars_of, join_lines, join_with_newlines, name_lt, split_path, views};
use crate::tree_laws::{is_deep_keyed, is_ordered, well_formed};
use crate::tree_model::{
    build, collapse, collapse_first, find_from, insert_path, is_collapsed, joined, leaf, place,
    rows, rows_first, slot_from, Row, Tree,
};

verus! {

/// One path segment's node. `children` is kept in order of name.
#[derive(Debug, PartialEq, Eq)]
pub struct TreeNode {
    pub is_file: bool,
    pub children: Vec<Child>,
}

/// A named child of a node.
#[derive(Debug, PartialEq, Eq)]
pub struct Child {
    pub name: String,
    pub node: TreeNode,
}

impl View for TreeNode {
    type V = Tree;

    open spec fn view(&self) -> Tree {
        model_of(*self)
    }
}

/// The tree that a node stands for.
pub open spec fn model_of(node: TreeNode) -> Tree
    decreases node, 1int, 0int,
{
    Tree { is_file: node.is_file, children: models_first(node, node.children@.len() as int) }
}

/// The first `n` children of a node with what they stand for.
pub open spec fn models_first(node: TreeNode, n: int) -> Seq<(Seq<char>, Tree)>
    decreases node, 0int, n,
{
    if n <= 0 || n > node.children@.len() {
        Seq::empty()
    } else {
        models_first(node, n - 1).push(
            (node.children@[n - 1].name@, model_of(node.children@[n - 1].node)),
        )
    }
}

/// The children of a node as the model has them.
pub open spec fn kids(children: Seq<Child>) -> Seq<(Seq<char>, Tree)> {
    Seq::new(children.len(), |i: int| (children[i].name@, children[i].node@))
}

proof fn lemma_models_first(node: TreeNode, n: int)
    requires
        0 <= n <= node.children@.len(),
    ensures
        models_first(node, n) == kids(node.children@).take(n),
    decreases n,
{
    if n > 0 {
        lemma_models_first(node, n - 1);
    }
    assert(models_first(node, n) =~= kids(node.children@).take(n));
}

/// The model of a node holds the node's flag and the models of its children.
pub proof fn lemma_view(node: TreeNode)
    ensures
        node@.is_file == node.is_file,
        node@.children == kids(node.children@),
{
    lemma_models_first(node, node.children@.len() as int);
    assert(kids(node.children@).take(node.children@.len() as int) =~= kids(node.children@));
}

impl TreeNode {
    /// A node without children.
    pub fn new(is_file: bool) -> (node: TreeNode)
        ensures
            node@ == leaf(is_file),
    {
        let node = TreeNode { is_file, children: Vec::new() };
        proof {
            lemma_view(node);
        }
        assert(node@.children =~= Seq::empty());
        node
    }
}

fn find_child(children: &Vec<Child>, name: &String) -> (i: usize)
    ensures
        i <= children.len(),
        i == find_from(kids(children@), name@, 0),
        i < children.len() ==> children[i as int].name@ == name@,
{
    let mut i: usize = 0;
    while i < children.len()
        invariant
            i <= children.len(),
            find_from(kids(children@), name@, 0) == find_from(kids(children@), name@, i as int),
        decreases children.len() - i,
    {
        if children[i].name == *name {
            return i;
        }
        i += 1;
    }
    i
}

fn find_slot(children: &Vec<Child>, name: &String) -> (i: usize)
    ensures
        i <= children.len(),
        i == slot_from(kids(children@), name@, 0),
{
    let mut i: usize = 0;
    while i < children.len()
        invariant
            i <= children.len(),
            slot_from(kids(children@), name@, 0) == slot_from(kids(children@), name@, i as int),
        decreases children.len() - i,
    {
        if name_lt(name.as_str(), children[i].name.as_str()) {
            return i;
        }
        i += 1;
    }
    i
}

fn insert_segments(node: &mut TreeNode, segments: &Vec<String>, at: usize)
    requires
        at <= segments.len(),
    ensures
        (*final(node))@ == insert_path((*old(node))@, views(segments@).skip(at as int)),
    decreases segments.len() - at,
{
    if at == segments.len() {
        return;
    }
    let ghost before = (*node)@;
    let ghost path = views(segments@).skip(at as int);
    assert(path[0] == segments[at as int]@);
    assert(path.drop_first() =~= views(segments@).skip(at + 1));
    proof {
        lemma_view(*node);
    }
    let i = find_child(&node.children, &segments[at]);
    if i < node.children.len() {
        let ghost kids_before = node.children@;
        insert_segments(&mut node.children[i].node, segments, at + 1);
        proof {
            lemma_view(*node);
            assert(node.children@.len() == kids_before.len());
            assert(node.children@[i as int].name == kids_before[i as int].name);
            assert(node.children@[i as int].node@ == insert_path(
                kids_before[i as int].node@,
                path.drop_first(),
            ));
            assert(forall|k: int|
                0 <= k < kids_before.len() && k != i ==> node.children@[k] == kids_before[k]);
        }
        assert((*node)@.children =~= before.children.update(
            i as int,
            (path[0], insert_path(before.children[i as int].1, path.drop_first())),
        ));
    } else {
        let mut child = TreeNode::new(at + 1 == segments.len());
        insert_segments(&mut child, segments, at + 1);
        let j = find_slot(&node.children, &segments[at]);
        node.children.insert(j, Child { name: segments[at].clone(), node: child });
        proof {
            lemma_view(*node);
        }
        assert((*node)@.children =~= place(before.children, path[0], child@));
    }
}

/// Builds the tree of `files`: each path is split at `/` and entered segment
/// by segment, in the order given.
pub fn build_tree(files: &[String]) -> (root: TreeNode)
    ensures
        root@ == build(views(files@)),
        well_formed(root@),
{
    let mut root = TreeNode::new(false);
    let mut i: usize = 0;
    assert(views(files@).take(0) =~= Seq::empty());
    while i < files.len()
        invariant
            i <= files.len(),
            root@ == build(views(files@).take(i as int)),
        decreases files.len() - i,
    {
        let parts = split_path(files[i].as_str());
        assert(views(parts@).skip(0) =~= views(parts@));
        insert_segments(&mut root, &parts, 0);
        proof {
            let done = views(files@).take(i + 1);
            assert(done.drop_last() =~= views(files@).take(i as int));
            assert(done.last() == files@[i as int]@);
        }
        i += 1;
    }
    assert(views(files@).take(i as int) =~= views(files@));
    proof {
        lemma_build_well_formed(views(files@));
    }
    root
}

/// Merges every chain of single directories below `node` into one node,
/// named by the joined names: children first, then the node's own children,
/// which end in order of their new names. No chain is left below the node.
/// Where no two children of a node began with the same segment, as in a tree
/// built from paths, no name occurs twice among the children of a node
/// afterwards.
pub fn flatten_tree(node: &mut TreeNode)
    ensures
        (*final(node))@ == collapse((*old(node))@),
        is_collapsed((*final(node))@),
        is_ordered((*final(node))@),
        is_deep_keyed((*old(node))@) ==> is_deep_keyed((*final(node))@) && well_formed(
            (*final(node))@,
        ),
    decreases *old(node),
{
    let ghost before: TreeNode = *node;
    let mut pending: Vec<Child> = Vec::new();
    std::mem::swap(&mut pending, &mut node.children);
    let mut done: Vec<Child> = Vec::new();
    proof {
        lemma_view(before);
        assert(kids(done@) =~= collapse_first(before@, 0));
    }
    for child in it: pending
        invariant
            it.seq() == before.children@,
            before == *old(node),
            before@.children == kids(before.children@),
            kids(done@) == collapse_first(before@, it.index()),
            node.is_file == before.is_file,
    {
        let ghost k = it.index();
        let Child { name, node: mut sub } = child;
        assert(child == before.children@[k]);
        assert(decreases_to!(before => before.children));
        assert(decreases_to!(before.children => before.children[k]));
        assert(decreases_to!(before.children[k] => before.children[k].node));
        flatten_tree(&mut sub);
        let entry = if !sub.is_file && sub.children.len() == 1 && !sub.children[0].node.is_file {
            proof {
                lemma_view(sub);
                reveal_strlit("/");
            }
            let only = sub.children.pop().unwrap();
            let mut long = name;
            long.append("/");
            long.append(only.name.as_str());
            assert(long@ =~= joined(child.name@, only.name@));
            Child { name: long, node: only.node }
        } else {
            proof {
                lemma_view(sub);
            }
            Child { name, node: sub }
        };
        let j = find_slot(&done, &entry.name);
        let ghost placed = kids(done@);
        done.insert(j, entry);
        assert(kids(done@) =~= place(placed, entry.name@, entry.node@));
    }
    node.children = done;
    proof {
        lemma_view(*node);
        lemma_collapse_shape(before@);
        if is_deep_keyed(before@) {
            lemma_collapse_keeps_names_apart(before@);
        }
    }
}

/// The glyph that stands for a kind of file, and the glyph's color as a hex
/// string.
#[derive(Clone, Debug, PartialEq, Eq)]
pub struct Icon {
    pub glyph: String,
    pub color: String,
}

/// What an `Icon` stands for.
pub struct IconView {
    pub glyph: Seq<char>,
    pub color: Seq<char>,
}

impl View for Icon {
    type V = IconView;

    open spec fn view(&self) -> IconView {
        IconView { glyph: self.glyph@, color: self.color@ }
    }
}

/// One line of the rendered tree before styling.
#[derive(Clone, Debug, PartialEq, Eq)]
pub struct TreeRow {
    pub guides: Vec<bool>,
    pub last: bool,
    pub name: String,
    pub is_file: bool,
}

impl View for TreeRow {
    type V = Row;

    open spec fn view(&self) -> Row {
        Row { guides: self.guides@, last: self.last, name: self.name@, is_file: self.is_file }
    }
}

/// The rows that a sequence of `TreeRow`s stands for.
pub open spec fn row_views(v: Seq<TreeRow>) -> Seq<Row> {
    Seq::new(v.len(), |i: int| v[i]@)
}

fn copy_guides(guides: &Vec<bool>) -> (out: Vec<bool>)
    ensures
        out@ == guides@,
{
    let mut out: Vec<bool> = Vec::new();
    let mut i: usize = 0;
    while i < guides.len()
        invariant
            i <= guides.len(),
            out@ == guides@.take(i as int),
        decreases guides.len() - i,
    {
        out.push(guides[i]);
        assert(out@ =~= guides@.take(i + 1));
        i += 1;
    }
    assert(guides@.take(i as int) =~= guides@);
    out
}

fn layout_into(node: &TreeNode, guides: &Vec<bool>, out: &mut Vec<TreeRow>)
    ensures
        row_views(final(out)@) == row_views(old(out)@) + rows(node@, guides@),
    decreases node,
{
    let n = node.children.len();
    let mut i: usize = 0;
    proof {
        lemma_view(*node);
        assert(row_views(out@) =~= row_views(old(out)@) + rows_first(node@, guides@, 0));
    }
    while i < n
        invariant
            i <= n,
            n == node.children.len(),
            node@.children == kids(node.children@),
            row_views(out@) == row_views(old(out)@) + rows_first(node@, guides@, i as int),
        decreases n - i,
    {
        let child = &node.children[i];
        let last = i + 1 == n;
        let ghost so_far = row_views(out@);
        let row = TreeRow {
            guides: copy_guides(guides),
            last,
            name: child.name.clone(),
            is_file: child.node.is_file,
        };
        proof {
            lemma_view(child.node);
        }
        let ghost this = row@;
        out.push(row);
        assert(row_views(out@) =~= so_far.push(this));
        let mut deeper = copy_guides(guides);
        deeper.push(!last);
        layout_into(&child.node, &deeper, out);
        assert(row_views(out@) =~= row_views(old(out)@) + rows_first(node@, guides@, i + 1));
        i += 1;
    }
}

/// Lays the tree out as rows: the nodes below `node`, depth-first, each node
/// before its children.
pub fn layout(node: &TreeNode) -> (out: Vec<TreeRow>)
    ensures
        row_views(out@) == rows(node@, Seq::empty()),
{
    let mut out: Vec<TreeRow> = Vec::new();
    let guides: Vec<bool> = Vec::new();
    layout_into(node, &guides, &mut out);
    assert(row_views(out@) =~= rows(node@, Seq::empty()));
    out
}

/// The gray of the tree's lines and of directory names.
pub open spec fn gray() -> Color {
    Color::Rgb { r: 128, g: 128, b: 128 }
}

/// The indentation of a row: four blanks, then for each ancestor a vertical
/// connector where siblings of the ancestor are still to come, a blank where
/// none are, and four blanks more.
pub open spec fn indent(guides: Seq<bool>) -> Seq<Run>
    decreases guides.len(),
{
    if guides.len() == 0 {
        seq![plain("    "@)]
    } else {
        indent(guides.drop_last()) + seq![
            if guides.last() {
                tinted(gray(), "│"@)
            } else {
                plain(" "@)
            },
            plain("    "@),
        ]
    }
}

/// The branch glyph before a name: a corner for the last of its siblings, a
/// tee for the others.
pub open spec fn branch(last: bool) -> Seq<char> {
    if last {
        "└── "@
    } else {
        "├── "@
    }
}

/// The index of the last `/` in `name`, or -1 where it has none.
pub open spec fn last_slash(name: Seq<char>) -> int
    decreases name.len(),
{
    if name.len() == 0 {
        -1
    } else if name.last() == '/' {
        name.len() - 1
    } else {
        last_slash(name.drop_last())
    }
}

/// A name as it is shown. A directory's name is gray. A file's name is white,
/// but for what stands before its last `/`, that `/` included, which is gray.
pub open spec fn name_runs(name: Seq<char>, is_file: bool) -> Seq<Run> {
    if !is_file {
        seq![tinted(gray(), name)]
    } else if last_slash(name) >= 0 {
        seq![
            tinted(gray(), name.take(last_slash(name) + 1)),
            tinted(Color::White, name.skip(last_slash(name) + 1)),
        ]
    } else {
        seq![tinted(Color::White, name)]
    }
}

/// What follows a name: a blank and the icon's glyph in the icon's color, or
/// nothing where there is no icon.
pub open spec fn icon_runs(icon: Option<IconView>) -> Seq<Run> {
    match icon {
        Some(icon) => seq![plain(" "@), tinted(hex_color(icon.color), icon.glyph)],
        None => Seq::empty(),
    }
}

/// The line of a row: indentation, gray branch glyph, a blank, the name, and
/// the icon if there is one.
pub open spec fn row_runs(row: Row, icon: Option<IconView>) -> Seq<Run> {
    indent(row.guides) + seq![tinted(gray(), branch(row.last)), plain(" "@)] + name_runs(
        row.name,
        row.is_file,
    ) + icon_runs(icon)
}

/// The view of an icon that may be missing.
pub open spec fn icon_view(icon: Option<Icon>) -> Option<IconView> {
    match icon {
        Some(icon) => Some(icon@),
        None => None,
    }
}

/// What every icon is: a glyph of one character, and a color of six hex
/// digits after a `#`.
pub open spec fn is_icon(icon: IconView) -> bool {
    icon.glyph.len() == 1 && icon.color.len() == 7 && icon.color[0] == '#' && is_hex_color(
        icon.color,
    )
}

/// Whether `line` may be the painted line of `row`: the painting of the
/// row's line, with some icon where the row is a file's and with none where
/// it is a directory's.
pub open spec fn is_row_line(row: Row, line: Seq<char>) -> bool {
    if row.is_file {
        exists|icon: IconView|
            is_icon(icon) && is_painting(#[trigger] row_runs(row, Some(icon)), line)
    } else {
        is_painting(row_runs(row, None), line)
    }
}

/// Whether `lines` may be the painted lines of `rows`, one for each row.
pub open spec fn is_rendering(rows: Seq<Row>, lines: Seq<Seq<char>>) -> bool {
    &&& lines.len() == rows.len()
    &&& forall|i: int| 0 <= i < rows.len() ==> is_row_line(rows[i], #[trigger] lines[i])
}

fn find_last_slash(name: &str) -> (at: Option<usize>)
    ensures
        at is None <==> last_slash(name@) < 0,
        at matches Some(k) ==> k == last_slash(name@) && k < name@.len(),
{
    let chars = chars_of(name);
    let mut i: usize = chars.len();
    assert(name@.take(i as int) =~= name@);
    while i > 0
        invariant
            chars@ == name@,
            i <= chars.len(),
            last_slash(name@) == last_slash(name@.take(i as int)),
        decreases i,
    {
        let ghost head = name@.take(i as int);
        assert(head.last() == chars[i - 1]);
        assert(head.drop_last() =~= name@.take(i - 1));
        if chars[i - 1] == '/' {
            return Some(i - 1);
        }
        i -= 1;
    }
    None
}

/// The spans of a row's line, with the icon to show after the name, if any.
pub fn row_spans(row: &TreeRow, icon: &Option<Icon>) -> (line: Vec<Span>)
    ensures
        runs(line@) == row_runs(row@, icon_view(*icon)),
{
    let dim = Color::Rgb { r: 128, g: 128, b: 128 };
    let mut line: Vec<Span> = Vec::new();
    line.push(Span::new("    ", Style::Plain));
    let mut i: usize = 0;
    assert(row.guides@.take(0) =~= Seq::empty());
    assert(runs(line@) =~= indent(row.guides@.take(0)));
    while i < row.guides.len()
        invariant
            i <= row.guides.len(),
            dim == gray(),
            runs(line@) == indent(row.guides@.take(i as int)),
        decreases row.guides.len() - i,
    {
        let ghost upto = row.guides@.take(i + 1);
        assert(upto.drop_last() =~= row.guides@.take(i as int));
        assert(upto.last() == row.guides@[i as int]);
        if row.guides[i] {
            line.push(Span::new("│", Style::Foreground(dim)));
        } else {
            line.push(Span::new(" ", Style::Plain));
        }
        line.push(Span::new("    ", Style::Plain));
        assert(runs(line@) =~= indent(upto));
        i += 1;
    }
    assert(row.guides@.take(i as int) =~= row.guides@);
    let ghost lead = runs(line@);
    if row.last {
        line.push(Span::new("└── ", Style::Foreground(dim)));
    } else {
        line.push(Span::new("├── ", Style::Foreground(dim)));
    }
    line.push(Span::new(" ", Style::Plain));
    assert(runs(line@) =~= lead + seq![tinted(gray(), branch(row.last)), plain(" "@)]);
    let ghost stem = runs(line@);
    if !row.is_file {
        line.push(Span::new(row.name.as_str(), Style::Foreground(dim)));
    } else {
        match find_last_slash(row.name.as_str()) {
            Some(k) => {
                let total = row.name.as_str().unicode_len();
                let dir = row.name.as_str().substring_char(0, k + 1);
                let file = row.name.as_str().substring_char(k + 1, total);
                assert(dir@ =~= row.name@.take(k + 1));
                assert(file@ =~= row.name@.skip(k + 1));
                line.push(Span::new(dir, Style::Foreground(dim)));
                line.push(Span::new(file, Style::Foreground(Color::White)));
            },
            None => {
                line.push(Span::new(row.name.as_str(), Style::Foreground(Color::White)));
            },
        }
    }
    assert(runs(line@) =~= stem + name_runs(row.name@, row.is_file));
    let ghost named = runs(line@);
    match icon {
        Some(icon) => {
            line.push(Span::new(" ", Style::Plain));
            line.push(
                Span::new(
                    icon.glyph.as_str(),
                    Style::Foreground(hex_to_rgb(icon.color.as_str())),
                ),
            );
        },
        None => {},
    }
    assert(runs(line@) =~= named + icon_runs(icon_view(*icon)));
    line
}

/// The icon of the file `name` for a background, by `icon_for_file` of
/// `devicons`; without a theme that function takes the dark one. Every icon
/// that it knows is one character with a color of six hex digits after a
/// `#`. Which of them it gives also depends on what the working directory
/// holds, so that is not stated.
#[verifier::external_body]
fn lookup_icon(name: &str, theme: &Option<Theme>) -> (icon: Icon)
    ensures
        is_icon(icon@),
{
    let hint = match theme {
        Some(Theme::Light) => Some(devicons::Theme::Light),
        Some(Theme::Dark) => Some(devicons::Theme::Dark),
        None => None,
    };
    let found = devicons::icon_for_file(name, &hint);
    Icon { glyph: found.icon.to_string(), color: found.color.to_string() }
}

/// Renders the tree below `node` and appends its lines to `result`: one line
/// for each node, depth-first, each node before its children. The icons are
/// looked up for the file names, one by one.
pub fn print_tree(node: &TreeNode, theme: &Option<Theme>, result: &mut Vec<String>)
    ensures
        exists|lines: Seq<Seq<char>>|
            is_rendering(rows(node@, Seq::empty()), lines) && views(final(result)@) == views(
                old(result)@,
            ) + lines,
{
    let rows = layout(node);
    let ghost start = views(result@);
    let ghost mut lines: Seq<Seq<char>> = Seq::empty();
    let mut i: usize = 0;
    assert(views(result@) =~= start + lines);
    while i < rows.len()
        invariant
            i <= rows.len(),
            lines.len() == i,
            views(result@) == start + lines,
            forall|k: int| 0 <= k < i ==> is_row_line(rows@[k]@, #[trigger] lines[k]),
        decreases rows.len() - i,
    {
        let row = &rows[i];
        let icon = if row.is_file {
            Some(lookup_icon(row.name.as_str(), theme))
        } else {
            None
        };
        let spans = row_spans(row, &icon);
        let painted = paint_line(&spans);
        proof {
            if row.is_file {
                assert(is_painting(row_runs(row@, Some(icon.unwrap()@)), painted@));
            }
            assert(is_row_line(row@, painted@));
            lines = lines.push(painted@);
        }
        let ghost shown = views(result@);
        result.push(painted);
        assert(views(result@) =~= shown.push(painted@));
        assert(views(result@) =~= start + lines);
        i += 1;
    }
    assert(is_rendering(row_views(rows@), lines));
}

/// Whether `out` may be the tree view of the files `paths`: the painted
/// lines of their collapsed tree, put together with line feeds.
pub open spec fn is_tree_text(paths: Seq<Seq<char>>, out: Seq<char>) -> bool {
    exists|lines: Seq<Seq<char>>|
        is_rendering(rows(collapse(build(paths)), Seq::empty()), lines) && out == join_lines(
            lines,
        )
}

/// The tree view of a list of changed files, as one text: the files' tree is
/// built, chains of single directories are collapsed, and the lines of the
/// rendered tree are put together with line feeds. No files give the empty
/// text.
pub fn get_file_icons(files: &[String], theme: &Option<Theme>) -> (out: String)
    ensures
        files@.len() == 0 ==> out@ == Seq::<char>::empty(),
        is_tree_text(views(files@), out@),
{
    let mut root = build_tree(files);
    flatten_tree(&mut root);
    let mut result: Vec<String> = Vec::new();
    print_tree(&root, theme, &mut result);
    let out = join_with_newlines(&result);
    proof {
        let lines = views(result@);
        assert(is_rendering(rows(collapse(build(views(files@))), Seq::empty()), lines) && out@
            == join_lines(lines));
    }
    out
}

} // verus!
