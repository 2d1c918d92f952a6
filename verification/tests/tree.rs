use indextree::Arena;
use usage_tree::collect::Collector;
use usage_tree::context::{Context, SortKey};
use usage_tree::error::Error;
use usage_tree::node::{Entry, FileKind, Inode, Node};
use usage_tree::tree::Tree;

fn entry(path: &str, depth: usize, kind: FileKind, bytes: u64) -> Entry {
    let (parent, name) = match path.rfind('/') {
        Some(0) if path.len() == 1 => (None, path.to_string()),
        Some(0) => (Some("/".to_string()), path[1..].to_string()),
        Some(at) => (Some(path[..at].to_string()), path[at + 1..].to_string()),
        None => (None, path.to_string()),
    };
    Entry { path: path.to_string(), parent, name, depth, kind, bytes, inode: None }
}

fn dir(path: &str, depth: usize) -> Entry {
    entry(path, depth, FileKind::Directory, 0)
}

fn file(path: &str, depth: usize, bytes: u64) -> Entry {
    entry(path, depth, FileKind::File, bytes)
}

fn linked(path: &str, depth: usize, bytes: u64, dev: u64, ino: u64, nlink: u64) -> Entry {
    let mut made = file(path, depth, bytes);
    made.inode = Some(Inode { dev, ino, nlink });
    made
}

fn sizes(tree: &Tree) -> Vec<(String, Option<u64>)> {
    tree.nodes().iter().map(|node| (node.entry.name.clone(), node.size)).collect()
}

fn named(name: &str, size: Option<u64>) -> (String, Option<u64>) {
    (name.to_string(), size)
}

#[test]
fn empty_directory_is_pruned() {
    let mut ctx = Context::new();
    ctx.prune = true;
    let tree = Tree::init(ctx, vec![dir("/r", 0), dir("/r/empty", 1), file("/r/a.txt", 1, 10)])
        .unwrap();
    assert_eq!(tree.render(), "r (10 B)\n\u{2514}\u{2500} a.txt (10 B)\n");
    assert_eq!(sizes(&tree), vec![named("r", Some(10)), named("a.txt", Some(10))]);
}

#[test]
fn empty_directory_stays_without_pruning() {
    let tree = Tree::init(
        Context::new(),
        vec![dir("/r", 0), dir("/r/empty", 1), file("/r/a.txt", 1, 10)],
    )
    .unwrap();
    assert_eq!(
        tree.render(),
        "r (10 B)\n\u{251C}\u{2500} empty\n\u{2514}\u{2500} a.txt (10 B)\n"
    );
    assert_eq!(
        sizes(&tree),
        vec![named("r", Some(10)), named("empty", None), named("a.txt", Some(10))]
    );
}

#[test]
fn directories_first_then_names_ascending() {
    let mut ctx = Context::new();
    ctx.sort = Some(SortKey::Name);
    ctx.dirs_first = true;
    let tree = Tree::init(
        ctx,
        vec![
            dir("/r", 0),
            file("/r/a0.txt", 1, 3),
            dir("/r/dir", 1),
            file("/r/dir/b.txt", 2, 7),
            file("/r/dir/a.txt", 2, 5),
        ],
    )
    .unwrap();
    assert_eq!(
        tree.render(),
        "r (15 B)\n\
         \u{251C}\u{2500} dir (12 B)\n\
         \u{2502}  \u{251C}\u{2500} a.txt (5 B)\n\
         \u{2502}  \u{2514}\u{2500} b.txt (7 B)\n\
         \u{2514}\u{2500} a0.txt (3 B)\n"
    );
    assert_eq!(
        sizes(&tree),
        vec![
            named("r", Some(15)),
            named("dir", Some(12)),
            named("a.txt", Some(5)),
            named("b.txt", Some(7)),
            named("a0.txt", Some(3)),
        ]
    );
}

#[test]
fn children_may_come_before_their_directory() {
    let tree = Tree::init(
        Context::new(),
        vec![
            file("/r/dir/b.txt", 2, 7),
            file("/r/top.txt", 1, 1),
            file("/r/dir/a.txt", 2, 5),
            dir("/r/dir", 1),
            dir("/r", 0),
        ],
    )
    .unwrap();
    assert_eq!(
        tree.render(),
        "r (13 B)\n\
         \u{251C}\u{2500} top.txt (1 B)\n\
         \u{2514}\u{2500} dir (12 B)\n\
         \u{0020}  \u{251C}\u{2500} b.txt (7 B)\n\
         \u{0020}  \u{2514}\u{2500} a.txt (5 B)\n"
    );
}

#[test]
fn without_a_key_siblings_keep_the_order_of_discovery() {
    let tree = Tree::init(
        Context::new(),
        vec![dir("/r", 0), file("/r/z", 1, 1), file("/r/a", 1, 2), file("/r/m", 1, 3)],
    )
    .unwrap();
    assert_eq!(
        sizes(&tree),
        vec![named("r", Some(6)), named("z", Some(1)), named("a", Some(2)), named("m", Some(3))]
    );
}

#[test]
fn sorted_by_size_largest_first() {
    let mut ctx = Context::new();
    ctx.sort = Some(SortKey::Size);
    let tree = Tree::init(
        ctx,
        vec![
            dir("/r", 0),
            file("/r/small", 1, 1),
            dir("/r/d", 1),
            file("/r/d/x", 2, 4),
            file("/r/d/y", 2, 4),
            file("/r/big", 1, 9),
        ],
    )
    .unwrap();
    assert_eq!(
        sizes(&tree),
        vec![
            named("r", Some(18)),
            named("big", Some(9)),
            named("d", Some(8)),
            named("x", Some(4)),
            named("y", Some(4)),
            named("small", Some(1)),
        ]
    );
}

#[test]
fn sorted_by_size_smallest_first() {
    let mut ctx = Context::new();
    ctx.sort = Some(SortKey::SizeReverse);
    let tree = Tree::init(
        ctx,
        vec![dir("/r", 0), file("/r/b", 1, 5), file("/r/a", 1, 5), file("/r/c", 1, 2)],
    )
    .unwrap();
    assert_eq!(
        sizes(&tree),
        vec![named("r", Some(12)), named("c", Some(2)), named("b", Some(5)), named("a", Some(5))]
    );
}

#[test]
fn names_are_ordered_byte_by_byte() {
    let mut ctx = Context::new();
    ctx.sort = Some(SortKey::Name);
    let tree = Tree::init(
        ctx,
        vec![
            dir("/r", 0),
            file("/r/b", 1, 1),
            file("/r/ab", 1, 1),
            file("/r/a", 1, 1),
            file("/r/B", 1, 1),
            file("/r/\u{e9}", 1, 1),
        ],
    )
    .unwrap();
    assert_eq!(
        sizes(&tree),
        vec![
            named("r", Some(5)),
            named("B", Some(1)),
            named("a", Some(1)),
            named("ab", Some(1)),
            named("b", Some(1)),
            named("\u{e9}", Some(1)),
        ]
    );
}

#[test]
fn hard_links_are_counted_once() {
    let tree = Tree::init(
        Context::new(),
        vec![
            dir("/r", 0),
            linked("/r/one", 1, 8, 1, 77, 3),
            linked("/r/two", 1, 8, 1, 77, 3),
            linked("/r/three", 1, 8, 1, 77, 3),
            linked("/r/other", 1, 2, 2, 77, 2),
        ],
    )
    .unwrap();
    assert_eq!(
        sizes(&tree),
        vec![named("r", Some(10)), named("one", Some(8)), named("other", Some(2))]
    );
}

#[test]
fn files_with_one_name_are_all_kept() {
    let tree = Tree::init(
        Context::new(),
        vec![dir("/r", 0), linked("/r/one", 1, 8, 1, 77, 1), linked("/r/two", 1, 8, 1, 77, 1)],
    )
    .unwrap();
    assert_eq!(
        sizes(&tree),
        vec![named("r", Some(16)), named("one", Some(8)), named("two", Some(8))]
    );
}

#[test]
fn a_walk_without_root_fails() {
    let result = Tree::init(Context::new(), vec![file("/r/a", 1, 1), dir("/r/d", 1)]);
    assert_eq!(result.err(), Some(Error::MissingRoot));
    let nothing = Tree::init(Context::new(), vec![]);
    assert_eq!(nothing.err(), Some(Error::MissingRoot));
}

#[test]
fn a_file_at_depth_zero_is_no_root() {
    let result = Tree::init(Context::new(), vec![file("/r", 0, 1)]);
    assert_eq!(result.err(), Some(Error::MissingRoot));
    let mut bare = file("/r", 0, 1);
    bare.parent = None;
    assert_eq!(Tree::init(Context::new(), vec![bare]).err(), Some(Error::ExpectedParent));
}

#[test]
fn an_entry_without_parent_fails() {
    let mut orphan = file("/r/a", 1, 1);
    orphan.parent = None;
    let result = Tree::init(Context::new(), vec![dir("/r", 0), orphan]);
    assert_eq!(result.err(), Some(Error::ExpectedParent));
}

#[test]
fn a_missing_parent_is_reported_before_a_missing_root() {
    let mut orphan = dir("/r/d", 1);
    orphan.parent = None;
    assert_eq!(Tree::init(Context::new(), vec![orphan]).err(), Some(Error::ExpectedParent));
}

#[test]
fn a_repeated_hard_link_needs_no_parent() {
    let mut again = linked("/r/two", 1, 8, 1, 77, 2);
    again.parent = None;
    let tree =
        Tree::init(Context::new(), vec![dir("/r", 0), linked("/r/one", 1, 8, 1, 77, 2), again])
            .unwrap();
    assert_eq!(sizes(&tree), vec![named("r", Some(8)), named("one", Some(8))]);
}

#[test]
fn the_root_needs_no_parent() {
    let mut root = dir("/", 0);
    root.parent = None;
    let tree = Tree::init(Context::new(), vec![root, file("/a", 1, 4)]).unwrap();
    assert_eq!(tree.render(), "/ (4 B)\n\u{2514}\u{2500} a (4 B)\n");
}

#[test]
fn the_last_root_wins() {
    let tree = Tree::init(
        Context::new(),
        vec![dir("/old", 0), file("/old/a", 1, 1), dir("/new", 0), file("/new/b", 1, 2)],
    )
    .unwrap();
    assert_eq!(sizes(&tree), vec![named("new", Some(2)), named("b", Some(2))]);
}

#[test]
fn entries_of_unseen_directories_are_left_out() {
    let tree = Tree::init(
        Context::new(),
        vec![dir("/r", 0), file("/r/hidden/a", 2, 5), file("/r/b", 1, 1)],
    )
    .unwrap();
    assert_eq!(sizes(&tree), vec![named("r", Some(1)), named("b", Some(1))]);
}

#[test]
fn a_directory_seen_twice_gets_its_children_once() {
    let tree = Tree::init(
        Context::new(),
        vec![dir("/r", 0), dir("/r/d", 1), dir("/r/d", 1), file("/r/d/a", 2, 3)],
    )
    .unwrap();
    assert_eq!(
        sizes(&tree),
        vec![named("r", Some(3)), named("d", Some(3)), named("a", Some(3)), named("d", None)]
    );
}

#[test]
fn only_files_have_a_size_of_their_own() {
    let tree = Tree::init(
        Context::new(),
        vec![
            entry("/r", 0, FileKind::Directory, 4096),
            entry("/r/d", 1, FileKind::Directory, 4096),
            entry("/r/l", 1, FileKind::Symlink, 9),
            file("/r/f", 1, 2),
        ],
    )
    .unwrap();
    assert_eq!(
        sizes(&tree),
        vec![named("r", Some(2)), named("d", None), named("l", None), named("f", Some(2))]
    );
}

#[test]
fn files_of_no_bytes_leave_their_directory_without_size() {
    let tree = Tree::init(Context::new(), vec![dir("/r", 0), file("/r/zero", 1, 0)]).unwrap();
    assert_eq!(sizes(&tree), vec![named("r", None), named("zero", Some(0))]);
    assert_eq!(tree.render(), "r\n\u{2514}\u{2500} zero (0 B)\n");
}

#[test]
fn a_sum_too_large_is_held_at_the_largest_size() {
    let tree = Tree::init(
        Context::new(),
        vec![dir("/r", 0), file("/r/a", 1, u64::MAX), file("/r/b", 1, 5)],
    )
    .unwrap();
    assert_eq!(tree.nodes()[0].size, Some(u64::MAX));
    assert_eq!(
        tree.render(),
        "r (18446744073709551615 B)\n\
         \u{251C}\u{2500} a (18446744073709551615 B)\n\
         \u{2514}\u{2500} b (5 B)\n"
    );
}

#[test]
fn sizes_add_up_through_all_levels() {
    let tree = Tree::init(
        Context::new(),
        vec![
            dir("/r", 0),
            dir("/r/a", 1),
            dir("/r/a/b", 2),
            dir("/r/a/b/c", 3),
            file("/r/a/b/c/f", 4, 100),
            file("/r/a/b/g", 3, 20),
            file("/r/a/h", 2, 3),
            dir("/r/e", 1),
        ],
    )
    .unwrap();
    assert_eq!(
        sizes(&tree),
        vec![
            named("r", Some(123)),
            named("a", Some(123)),
            named("b", Some(120)),
            named("c", Some(100)),
            named("f", Some(100)),
            named("g", Some(20)),
            named("h", Some(3)),
            named("e", None),
        ]
    );
}

fn deep() -> Vec<Entry> {
    vec![
        dir("/r", 0),
        dir("/r/a", 1),
        dir("/r/a/b", 2),
        file("/r/a/b/f", 3, 1),
        file("/r/a/g", 2, 2),
        dir("/r/c", 1),
        file("/r/c/h", 2, 4),
    ]
}

#[test]
fn the_whole_tree_is_drawn_without_a_limit() {
    let tree = Tree::init(Context::new(), deep()).unwrap();
    assert_eq!(
        tree.render(),
        "r (7 B)\n\
         \u{251C}\u{2500} a (3 B)\n\
         \u{2502}  \u{251C}\u{2500} b (1 B)\n\
         \u{2502}  \u{2502}  \u{2514}\u{2500} f (1 B)\n\
         \u{2502}  \u{2514}\u{2500} g (2 B)\n\
         \u{2514}\u{2500} c (4 B)\n\
         \u{0020}  \u{2514}\u{2500} h (4 B)\n"
    );
    assert_eq!(tree.level(), usize::MAX);
}

#[test]
fn nothing_below_the_limit_is_drawn() {
    let mut ctx = Context::new();
    ctx.level = Some(2);
    let tree = Tree::init(ctx, deep()).unwrap();
    assert_eq!(
        tree.render(),
        "r (7 B)\n\
         \u{251C}\u{2500} a (3 B)\n\
         \u{2502}  \u{251C}\u{2500} b (1 B)\n\
         \u{2502}  \u{2514}\u{2500} g (2 B)\n\
         \u{2514}\u{2500} c (4 B)\n\
         \u{0020}  \u{2514}\u{2500} h (4 B)\n"
    );
    assert_eq!(tree.level(), 2);
    assert_eq!(tree.nodes().len(), 7);
}

#[test]
fn a_limit_of_one_shows_the_first_level() {
    let mut ctx = Context::new();
    ctx.level = Some(1);
    let tree = Tree::init(ctx, deep()).unwrap();
    assert_eq!(tree.render(), "r (7 B)\n\u{251C}\u{2500} a (3 B)\n\u{2514}\u{2500} c (4 B)\n");
}

#[test]
fn a_limit_of_zero_shows_the_root_alone() {
    let mut ctx = Context::new();
    ctx.level = Some(0);
    let tree = Tree::init(ctx, deep()).unwrap();
    assert_eq!(tree.render(), "r (7 B)\n");
}

#[test]
fn sizes_stand_left_in_a_column() {
    let mut ctx = Context::new();
    ctx.size_left = true;
    let tree = Tree::init(
        ctx,
        vec![dir("/r", 0), dir("/r/e", 1), file("/r/a", 1, 5), file("/r/b", 1, 120)],
    )
    .unwrap();
    assert_eq!(
        tree.render(),
        "125 B r\n\
         \u{0020}     \u{251C}\u{2500} e\n\
         \u{0020} 5 B \u{251C}\u{2500} a\n\
         120 B \u{2514}\u{2500} b\n"
    );
}

#[test]
fn sizes_can_be_left_out() {
    let mut ctx = Context::new();
    ctx.size_left = true;
    ctx.suppress_size = true;
    let tree = Tree::init(ctx, vec![dir("/r", 0), file("/r/a", 1, 5)]).unwrap();
    assert_eq!(tree.render(), "r\n\u{2514}\u{2500} a\n");
    assert_eq!(tree.nodes()[0].size, Some(5));
}

#[test]
fn symbolic_links_have_glyphs_of_their_own() {
    let tree = Tree::init(
        Context::new(),
        vec![
            dir("/r", 0),
            entry("/r/l", 1, FileKind::Symlink, 0),
            entry("/r/m", 1, FileKind::Symlink, 0),
        ],
    )
    .unwrap();
    assert_eq!(tree.render(), "r\n\u{251C}\u{2504} l\n\u{2514}\u{2504} m\n");
}

#[test]
fn pruning_reaches_directories_that_hold_only_empty_ones() {
    let mut ctx = Context::new();
    ctx.prune = true;
    let tree = Tree::init(
        ctx,
        vec![
            dir("/r", 0),
            dir("/r/a", 1),
            dir("/r/a/b", 2),
            dir("/r/a/b/c", 3),
            dir("/r/d", 1),
            dir("/r/d/e", 2),
            file("/r/d/e/f", 3, 1),
            entry("/r/d/l", 2, FileKind::Symlink, 0),
            dir("/r/d/g", 2),
        ],
    )
    .unwrap();
    assert_eq!(
        sizes(&tree),
        vec![
            named("r", Some(1)),
            named("d", Some(1)),
            named("e", Some(1)),
            named("f", Some(1)),
            named("l", None),
        ]
    );
}

#[test]
fn pruning_twice_is_pruning_once() {
    let mut tree = Tree::init(
        Context::new(),
        vec![
            dir("/r", 0),
            dir("/r/a", 1),
            dir("/r/a/b", 2),
            file("/r/c", 1, 1),
            dir("/r/d", 1),
        ],
    )
    .unwrap();
    assert_eq!(tree.nodes().len(), 5);
    tree.prune();
    let once = tree.render();
    assert_eq!(once, "r (1 B)\n\u{2514}\u{2500} c (1 B)\n");
    assert_eq!(tree.nodes().len(), 2);
    tree.prune();
    assert_eq!(tree.render(), once);
    assert_eq!(tree.nodes().len(), 2);
}

#[test]
fn pruning_leaves_a_root_without_files() {
    let mut ctx = Context::new();
    ctx.prune = true;
    let tree = Tree::init(ctx, vec![dir("/r", 0), dir("/r/a", 1)]).unwrap();
    assert_eq!(tree.render(), "r\n");
    assert_eq!(tree.nodes().len(), 1);
}

#[test]
fn rendering_again_gives_the_same_text() {
    let mut ctx = Context::new();
    ctx.sort = Some(SortKey::Name);
    let tree = Tree::init(ctx, deep()).unwrap();
    let first = tree.render();
    assert_eq!(tree.render(), first);
    assert_eq!(tree.render().into_bytes(), first.into_bytes());
}

#[test]
fn nodes_come_each_before_its_children() {
    let tree = Tree::init(Context::new(), deep()).unwrap();
    let paths: Vec<&str> = tree.nodes().iter().map(|node| node.entry.path.as_str()).collect();
    assert_eq!(paths, vec!["/r", "/r/a", "/r/a/b", "/r/a/b/f", "/r/a/g", "/r/c", "/r/c/h"]);
    let depths: Vec<usize> = tree.nodes().iter().map(|node| node.entry.depth).collect();
    assert_eq!(depths, vec![0, 1, 2, 3, 2, 1, 2]);
}

#[test]
fn a_tree_is_made_of_an_arena() {
    let mut arena = Arena::new();
    let root = arena.new_node(Node { entry: dir("/r", 0), size: Some(3) });
    let a = arena.new_node(Node::new(file("/r/a", 1, 1)));
    let d = arena.new_node(Node { entry: dir("/r/d", 1), size: Some(2) });
    let b = arena.new_node(Node::new(file("/r/d/b", 2, 2)));
    root.append(a, &mut arena);
    root.append(d, &mut arena);
    d.append(b, &mut arena);
    let mut ctx = Context::new();
    ctx.level = Some(5);
    let tree = Tree::new(arena, root, ctx);
    assert_eq!(
        tree.render(),
        "r (3 B)\n\
         \u{251C}\u{2500} a (1 B)\n\
         \u{2514}\u{2500} d (2 B)\n\
         \u{0020}  \u{2514}\u{2500} b (2 B)\n"
    );
    assert_eq!(tree.context().level, Some(5));
    assert_eq!(tree.level(), 5);
    assert_eq!(tree.inner().count(), 4);
}

#[test]
fn pruning_takes_nodes_out_of_the_arena() {
    let mut ctx = Context::new();
    ctx.prune = true;
    let tree =
        Tree::init(ctx, vec![dir("/r", 0), dir("/r/a", 1), dir("/r/a/b", 2), file("/r/f", 1, 1)])
            .unwrap();
    let live = tree.inner().iter().filter(|node| !node.is_removed()).count();
    assert_eq!(live, 2);
}

#[test]
fn a_collector_takes_entries_one_by_one() {
    let mut collector = Collector::new();
    assert_eq!(collector.observe(file("/r/a", 1, 4)), Ok(()));
    assert_eq!(collector.observe(dir("/r", 0)), Ok(()));
    let mut orphan = file("/r/b", 1, 1);
    orphan.parent = None;
    assert_eq!(collector.observe(orphan), Err(Error::ExpectedParent));
    assert_eq!(collector.observe(file("/r/c", 1, 2)), Ok(()));
    let tree = collector.finish(Context::new()).unwrap();
    assert_eq!(sizes(&tree), vec![named("r", Some(6)), named("a", Some(4)), named("c", Some(2))]);
}

#[test]
fn a_collector_without_root_makes_no_tree() {
    let mut collector = Collector::new();
    assert_eq!(collector.observe(file("/r/a", 1, 4)), Ok(()));
    assert_eq!(collector.finish(Context::new()).err(), Some(Error::MissingRoot));
    assert_eq!(Collector::new().finish(Context::new()).err(), Some(Error::MissingRoot));
}

#[test]
fn a_fresh_node_has_a_size_only_as_a_file() {
    assert_eq!(Node::new(file("/f", 1, 9)).size, Some(9));
    assert_eq!(Node::new(dir("/d", 1)).size, None);
    assert_eq!(Node::new(entry("/l", 1, FileKind::Symlink, 9)).size, None);
    assert!(Node::new(dir("/d", 1)).is_dir());
    assert!(!Node::new(file("/f", 1, 9)).is_dir());
    assert!(Node::new(entry("/l", 1, FileKind::Symlink, 9)).is_symlink());
    assert!(!Node::new(dir("/d", 1)).is_symlink());
}

#[test]
fn errors_say_what_went_wrong() {
    assert_eq!(Error::MissingRoot.message(), "Failed to compute root node");
    assert_eq!(Error::ExpectedParent.message(), "Expected ancestor node");
}

#[test]
fn a_new_context_limits_nothing() {
    let ctx = Context::new();
    assert_eq!(ctx.level, None);
    assert!(!ctx.prune && !ctx.dirs_first && !ctx.size_left && !ctx.suppress_size);
    assert_eq!(ctx.sort, None);
}
