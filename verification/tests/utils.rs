use usage_tree::order::{precedes, Order};
use usage_tree::context::SortKey;
use usage_tree::node::{Entry, FileKind, Node};
use usage_tree::text::{decimal_width, push_decimal, push_spaces};
use usage_tree::ui::{connector_glyph, continuation_glyph};
use usage_tree::utils::{num_integral, uniq};

#[test]
fn uniq_keeps_the_first_of_equal_items() {
    assert_eq!(uniq(vec![3, 1, 3, 2, 1, 3]), vec![3, 1, 2]);
    assert_eq!(uniq(vec!["b", "a", "b"]), vec!["b", "a"]);
    assert_eq!(uniq(vec!["x".to_string(), "x".to_string()]), vec!["x".to_string()]);
}

#[test]
fn uniq_leaves_unique_items_alone() {
    assert_eq!(uniq(vec![5, 4, 3]), vec![5, 4, 3]);
    assert_eq!(uniq(Vec::<u8>::new()), Vec::<u8>::new());
    assert_eq!(uniq(vec![7]), vec![7]);
}

#[test]
fn uniq_twice_is_uniq_once() {
    let once = uniq(vec![2, 2, 9, 2, 9, 1]);
    assert_eq!(uniq(once.clone()), once);
    assert_eq!(once, vec![2, 9, 1]);
}

#[test]
fn num_integral_counts_digits() {
    assert_eq!(num_integral(0), 0);
    assert_eq!(num_integral(1), 1);
    assert_eq!(num_integral(9), 1);
    assert_eq!(num_integral(10), 2);
    assert_eq!(num_integral(99), 2);
    assert_eq!(num_integral(100), 3);
    assert_eq!(num_integral(123_456), 6);
    assert_eq!(num_integral(u64::MAX), 20);
}

#[test]
fn numbers_are_written_in_decimal() {
    let mut text = String::from("n=");
    push_decimal(&mut text, 0);
    text.push(',');
    push_decimal(&mut text, 7);
    text.push(',');
    push_decimal(&mut text, 1050);
    text.push(',');
    push_decimal(&mut text, u64::MAX);
    assert_eq!(text, "n=0,7,1050,18446744073709551615");
    assert_eq!(decimal_width(0), 1);
    assert_eq!(decimal_width(1050), 4);
    assert_eq!(decimal_width(u64::MAX), 20);
}

#[test]
fn blanks_are_written() {
    let mut text = String::from("a");
    push_spaces(&mut text, 0);
    text.push('b');
    push_spaces(&mut text, 3);
    text.push('c');
    assert_eq!(text, "ab   c");
}

#[test]
fn glyphs_tell_last_from_inner_and_links_from_the_rest() {
    assert_eq!(connector_glyph(false, false), "\u{251C}\u{2500} ");
    assert_eq!(connector_glyph(false, true), "\u{2514}\u{2500} ");
    assert_eq!(connector_glyph(true, false), "\u{251C}\u{2504} ");
    assert_eq!(connector_glyph(true, true), "\u{2514}\u{2504} ");
    assert_eq!(continuation_glyph(false, false), "\u{2502}  ");
    assert_eq!(continuation_glyph(true, false), "\u{2506}  ");
    assert_eq!(continuation_glyph(false, true), "   ");
    assert_eq!(continuation_glyph(true, true), "   ");
}

fn node(name: &str, kind: FileKind, size: Option<u64>) -> Node {
    Node {
        entry: Entry {
            path: format!("/r/{name}"),
            parent: Some("/r".to_string()),
            name: name.to_string(),
            depth: 1,
            kind,
            bytes: 0,
            inode: None,
        },
        size,
    }
}

#[test]
fn precedence_follows_the_key() {
    let a = node("a", FileKind::File, Some(1));
    let b = node("b", FileKind::File, Some(2));
    let by_name = Order { key: Some(SortKey::Name), dirs_first: false };
    assert!(precedes(&a, &b, &by_name));
    assert!(!precedes(&b, &a, &by_name));
    assert!(!precedes(&a, &a, &by_name));
    assert!(precedes(&a, &node("aa", FileKind::File, None), &by_name));
    let by_size = Order { key: Some(SortKey::Size), dirs_first: false };
    assert!(precedes(&b, &a, &by_size));
    assert!(!precedes(&a, &b, &by_size));
    let by_size_reverse = Order { key: Some(SortKey::SizeReverse), dirs_first: false };
    assert!(precedes(&a, &b, &by_size_reverse));
    assert!(!precedes(&b, &a, &by_size_reverse));
    let unsorted = Order { key: None, dirs_first: false };
    assert!(!precedes(&a, &b, &unsorted));
    assert!(!precedes(&b, &a, &unsorted));
}

#[test]
fn directories_come_first_where_asked() {
    let d = node("z", FileKind::Directory, None);
    let f = node("a", FileKind::File, Some(9));
    let first = Order { key: Some(SortKey::Name), dirs_first: true };
    assert!(precedes(&d, &f, &first));
    assert!(!precedes(&f, &d, &first));
    let only = Order { key: None, dirs_first: true };
    assert!(precedes(&d, &f, &only));
    assert!(!precedes(&f, &d, &only));
    assert!(!precedes(&d, &d, &only));
    let mixed = Order { key: Some(SortKey::Name), dirs_first: false };
    assert!(precedes(&f, &d, &mixed));
}
