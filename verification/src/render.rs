//! The diagram: one line for each node that is shown, each node before its
//! children, with the branches drawn in front of it.

use crate::arena::{arena_children, arena_items, children_of, next_sibling, node};
use crate::context::Context;
use crate::node::Node;
use crate::shape::{linked, Shape};
use crate::text::{decimal, decimal_width, push_decimal, push_spaces, spaces};
use crate::ui::{connector, connector_glyph, continuation, continuation_glyph};
use indextree::{Arena, NodeId};
use vstd::prelude::*;
use vstd::string::StringExecFns;

verus! {

/// One line of the diagram before it is laid out: what is drawn in front of
/// the node, the node, and how deep it stands.
pub struct Row {
    pub prefix: Seq<char>,
    pub node: Node,
    pub depth: nat,
}

/// The rows of a subtree at `depth` whose lines start with `inherited`:
/// none where that depth is not shown; else the node's own row, then its
/// children's, which inherit one glyph more.
pub open spec fn subtree_rows(
    shape: Shape,
    last: bool,
    inherited: Seq<char>,
    depth: nat,
    ctx: Context,
) -> Seq<Row>
    decreases shape,
{
    if !ctx.shows(depth) {
        Seq::empty()
    } else {
        let link = shape.node.is_symlink();
        seq![Row { prefix: inherited + connector(link, last), node: shape.node, depth }]
            + forest_rows(shape.children, inherited + continuation(link, last), depth + 1, ctx)
    }
}

/// The rows of a whole group of siblings: only the last of them is drawn as
/// the last.
pub open spec fn forest_rows(trees: Seq<Shape>, inherited: Seq<char>, depth: nat, ctx: Context) -> Seq<
    Row,
>
    decreases trees,
{
    if trees.len() == 0 {
        Seq::empty()
    } else {
        inner_rows(trees.drop_last(), inherited, depth, ctx) + subtree_rows(
            trees.last(),
            true,
            inherited,
            depth,
            ctx,
        )
    }
}

/// The rows of siblings that all have another sibling below them.
pub open spec fn inner_rows(trees: Seq<Shape>, inherited: Seq<char>, depth: nat, ctx: Context) -> Seq<
    Row,
>
    decreases trees,
{
    if trees.len() == 0 {
        Seq::empty()
    } else {
        inner_rows(trees.drop_last(), inherited, depth, ctx) + subtree_rows(
            trees.last(),
            false,
            inherited,
            depth,
            ctx,
        )
    }
}

/// The rows of a tree: the root without anything in front of it, then the
/// rows of what is below.
pub open spec fn rows(shape: Shape, ctx: Context) -> Seq<Row> {
    seq![Row { prefix: Seq::empty(), node: shape.node, depth: 0 }] + forest_rows(
        shape.children,
        Seq::empty(),
        1,
        ctx,
    )
}

/// A size as it is shown.
pub open spec fn size_label(bytes: u64) -> Seq<char> {
    decimal(bytes as nat) + " B"@
}

/// The left column: the size flush right in `width` digits, or blanks of the
/// same length where there is none.
pub open spec fn size_column(size: Option<u64>, width: nat) -> Seq<char> {
    match size {
        Some(bytes) => {
            let digits = decimal(bytes as nat).len();
            spaces(
                if width > digits {
                    (width - digits) as nat
                } else {
                    0
                },
            ) + size_label(bytes)
        },
        None => spaces(width + 2),
    }
}

/// One line with its line break. With sizes on the left: the size column, a
/// blank, the branches, the name. Else the branches and the name, followed by
/// the size in brackets where one is shown.
pub open spec fn line_text(node: Node, prefix: Seq<char>, ctx: Context, width: nat) -> Seq<char> {
    if ctx.sizes_left() {
        size_column(node.size, width) + " "@ + prefix + node.entry.name@ + "\n"@
    } else {
        match node.size {
            Some(bytes) if !ctx.suppress_size => prefix + node.entry.name@ + " ("@ + size_label(
                bytes,
            ) + ")"@ + "\n"@,
            _ => prefix + node.entry.name@ + "\n"@,
        }
    }
}

/// The lines of `rows`, one after the other.
pub open spec fn rows_text(rows: Seq<Row>, ctx: Context, width: nat) -> Seq<char>
    decreases rows.len(),
{
    if rows.len() == 0 {
        Seq::empty()
    } else {
        rows_text(rows.drop_last(), ctx, width) + line_text(
            rows.last().node,
            rows.last().prefix,
            ctx,
            width,
        )
    }
}

/// How many digits the size column has: as many as the root's size.
pub open spec fn column_width(shape: Shape) -> nat {
    match shape.node.size {
        Some(bytes) => decimal(bytes as nat).len(),
        None => 0,
    }
}

/// The whole diagram as text.
pub open spec fn diagram(shape: Shape, ctx: Context) -> Seq<char> {
    rows_text(rows(shape, ctx), ctx, column_width(shape))
}

/// The text of two runs of rows is the text of the first, then of the second.
pub proof fn lemma_rows_text_concat(a: Seq<Row>, b: Seq<Row>, ctx: Context, width: nat)
    ensures
        rows_text(a + b, ctx, width) == rows_text(a, ctx, width) + rows_text(b, ctx, width),
    decreases b.len(),
{
    if b.len() == 0 {
        assert(a + b == a);
    } else {
        assert((a + b).drop_last() == a + b.drop_last());
        assert((a + b).last() == b.last());
        lemma_rows_text_concat(a, b.drop_last(), ctx, width);
    }
}

/// Below a level that is not shown, nothing is shown.
pub proof fn lemma_hidden_rows(trees: Seq<Shape>, inherited: Seq<char>, depth: nat, ctx: Context)
    requires
        !ctx.shows(depth),
    ensures
        forest_rows(trees, inherited, depth, ctx) == Seq::<Row>::empty(),
        inner_rows(trees, inherited, depth, ctx) == Seq::<Row>::empty(),
    decreases trees.len(),
{
    if trees.len() > 0 {
        lemma_hidden_rows(trees.drop_last(), inherited, depth, ctx);
        assert(Seq::<Row>::empty() + Seq::<Row>::empty() == Seq::<Row>::empty());
        assert(subtree_rows(trees.last(), false, inherited, depth, ctx) == Seq::<Row>::empty());
        assert(subtree_rows(trees.last(), true, inherited, depth, ctx) == Seq::<Row>::empty());
    }
}

/// How many more levels are shown below a node whose children stand at
/// `depth`, where the levels are limited.
pub open spec fn levels_left(ctx: Context, depth: nat) -> Option<usize> {
    match ctx.level {
        Some(level) => Some(
            if depth <= level {
                (level - depth + 1) as usize
            } else {
                0
            },
        ),
        None => None,
    }
}

fn write_line(out: &mut String, data: &Node, prefix: &str, ctx: &Context, width: usize)
    requires
        width <= 20,
    ensures
        final(out)@ == old(out)@ + line_text(*data, prefix@, *ctx, width as nat),
{
    let ghost start = out@;
    if ctx.size_left && !ctx.suppress_size {
        match data.size {
            Some(bytes) => {
                let digits = decimal_width(bytes);
                let pad = if width > digits {
                    width - digits
                } else {
                    0
                };
                push_spaces(out, pad);
                push_decimal(out, bytes);
                out.append(" B");
            },
            None => {
                push_spaces(out, width + 2);
            },
        }
        assert(out@ =~= start + size_column(data.size, width as nat));
        out.append(" ");
        out.append(prefix);
        out.append(data.entry.name.as_str());
        out.append("\n");
        assert(out@ =~= start + line_text(*data, prefix@, *ctx, width as nat));
    } else {
        out.append(prefix);
        out.append(data.entry.name.as_str());
        match data.size {
            Some(bytes) if !ctx.suppress_size => {
                out.append(" (");
                push_decimal(out, bytes);
                out.append(" B");
                out.append(")");
            },
            _ => {},
        }
        out.append("\n");
        assert(out@ =~= start + line_text(*data, prefix@, *ctx, width as nat));
    }
}

/// Writes the rows of the children of `parent`, which stand at `depth`.
fn write_forest(
    arena: &Arena<Node>,
    parent: NodeId,
    inherited: &String,
    budget: Option<usize>,
    ctx: &Context,
    width: usize,
    out: &mut String,
    Ghost(shape): Ghost<Shape>,
    Ghost(depth): Ghost<nat>,
)
    requires
        linked(arena_items(*arena), arena_children(*arena), parent, shape),
        depth >= 1,
        budget == levels_left(*ctx, depth),
        width <= 20,
    ensures
        final(out)@ == old(out)@ + rows_text(
            forest_rows(shape.children, inherited@, depth, *ctx),
            *ctx,
            width as nat,
        ),
    decreases shape,
{
    let ghost start = out@;
    let ghost trees = shape.children;
    let below = match budget {
        Some(levels) => {
            if levels == 0 {
                proof {
                    lemma_hidden_rows(trees, inherited@, depth, *ctx);
                    assert(start + Seq::<char>::empty() == start);
                }
                return ;
            }
            Some(levels - 1)
        },
        None => None,
    };
    assert(ctx.shows(depth));
    assert(below == levels_left(*ctx, depth + 1));
    let ids = children_of(arena, parent);
    let mut i: usize = 0;
    assert(trees.take(0) == Seq::<Shape>::empty());
    assert(start + Seq::<char>::empty() == start);
    while i < ids.len()
        invariant
            i <= ids.len(),
            ids@ == arena_children(*arena)[parent],
            trees == shape.children,
            linked(arena_items(*arena), arena_children(*arena), parent, shape),
            ctx.shows(depth),
            depth >= 1,
            below == levels_left(*ctx, depth + 1),
            width <= 20,
            out@ == start + rows_text(
                if i == trees.len() {
                    forest_rows(trees, inherited@, depth, *ctx)
                } else {
                    inner_rows(trees.take(i as int), inherited@, depth, *ctx)
                },
                *ctx,
                width as nat,
            ),
        decreases ids.len() - i,
    {
        let id = ids[i];
        let ghost tree = trees[i as int];
        let ghost done = inner_rows(trees.take(i as int), inherited@, depth, *ctx);
        assert(linked(arena_items(*arena), arena_children(*arena), id, tree));
        let last = next_sibling(arena, id).is_none();
        assert(last == (i + 1 == ids.len())) by {
            assert(arena_children(*arena)[parent][i as int] == id);
        }
        let data = node(arena, id);
        let link = data.is_symlink();
        let mut prefix = inherited.clone();
        prefix.append(connector_glyph(link, last));
        write_line(out, data, prefix.as_str(), ctx, width);
        let mut deeper = inherited.clone();
        deeper.append(continuation_glyph(link, last));
        write_forest(arena, id, &deeper, below, ctx, width, out, Ghost(tree), Ghost(depth + 1));
        proof {
            let row = Row { prefix: prefix@, node: *data, depth };
            let under = forest_rows(tree.children, deeper@, depth + 1, *ctx);
            let added = subtree_rows(tree, last, inherited@, depth, *ctx);
            assert(added == seq![row] + under);
            lemma_rows_text_concat(seq![row], under, *ctx, width as nat);
            assert(seq![row].drop_last() == Seq::<Row>::empty());
            assert(rows_text(seq![row], *ctx, width as nat) == line_text(
                *data,
                prefix@,
                *ctx,
                width as nat,
            )) by {
                assert(rows_text(seq![row].drop_last(), *ctx, width as nat) == Seq::<char>::empty());
                assert(Seq::<char>::empty() + line_text(*data, prefix@, *ctx, width as nat)
                    == line_text(*data, prefix@, *ctx, width as nat));
            }
            lemma_rows_text_concat(done, added, *ctx, width as nat);
            assert(out@ == start + rows_text(done + added, *ctx, width as nat));
            if last {
                assert(trees.drop_last() == trees.take(i as int));
                assert(trees.last() == tree);
            } else {
                assert(trees.take(i + 1).drop_last() == trees.take(i as int));
                assert(trees.take(i + 1).last() == tree);
            }
        }
        i += 1;
    }
}

/// Writes the diagram of the tree that the arena holds below `root`.
pub(crate) fn write_tree(arena: &Arena<Node>, root: NodeId, ctx: &Context, Ghost(shape): Ghost<Shape>) -> (text:
    String)
    requires
        linked(arena_items(*arena), arena_children(*arena), root, shape),
    ensures
        text@ == diagram(shape, *ctx),
{
    let data = node(arena, root);
    let width = match data.size {
        Some(bytes) => decimal_width(bytes),
        None => 0,
    };
    let mut out = String::new();
    let inherited = String::new();
    write_line(&mut out, data, inherited.as_str(), ctx, width);
    write_forest(arena, root, &inherited, ctx.level, ctx, width, &mut out, Ghost(shape), Ghost(1));
    proof {
        let row = Row { prefix: Seq::empty(), node: shape.node, depth: 0 };
        let under = forest_rows(shape.children, Seq::empty(), 1, *ctx);
        lemma_rows_text_concat(seq![row], under, *ctx, width as nat);
        assert(seq![row].drop_last() == Seq::<Row>::empty());
        assert(rows_text(seq![row].drop_last(), *ctx, width as nat) == Seq::<char>::empty());
        assert(Seq::<char>::empty() + line_text(*data, Seq::empty(), *ctx, width as nat)
            == line_text(*data, Seq::empty(), *ctx, width as nat));
        assert(Seq::<char>::empty() + line_text(*data, Seq::empty(), *ctx, width as nat)
            + rows_text(under, *ctx, width as nat) == line_text(
            *data,
            Seq::empty(),
            *ctx,
            width as nat,
        ) + rows_text(under, *ctx, width as nat));
    }
    out
}

} // verus!
