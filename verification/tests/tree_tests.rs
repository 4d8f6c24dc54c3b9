use treecmd::tree::{listing_weight_checked, DirDesc, Entry, FsNode, Tree};
use treecmd::FileSizeFormat;

fn file(name: &str, size: u64) -> FsNode {
    FsNode::File { name: name.to_string(), size }
}

fn dir(name: &str, items: Vec<FsNode>) -> FsNode {
    FsNode::Dir { name: name.to_string(), listing: Some(items) }
}

fn sample_listing() -> Option<Vec<FsNode>> {
    Some(vec![file("a.txt", 1000), dir("sub", vec![file("b.txt", 2000)])])
}

#[test]
fn aggregate_sums_children_recursively() {
    let listing = sample_listing();
    let tree = Tree::explore("root".to_string(), &listing);
    assert_eq!(tree.root.size, 3000);
    assert_eq!(tree.root.entries.len(), 2);
    match &tree.root.entries[1] {
        Entry::Dir(sub) => {
            assert_eq!(sub.size, 2000);
            assert_eq!(sub.entries.len(), 1);
        },
        Entry::File(_) => panic!("second child should be a directory"),
    }
}

#[test]
fn leaf_carries_reported_size() {
    let listing = Some(vec![file("data.bin", 4096)]);
    let tree = Tree::explore("root".to_string(), &listing);
    match &tree.root.entries[0] {
        Entry::File(f) => {
            assert_eq!(f.size, 4096);
            assert_eq!(f.path, "root/data.bin");
        },
        Entry::Dir(_) => panic!("child should be a file"),
    }
}

#[test]
fn skipped_item_leaves_no_trace() {
    let listing = Some(vec![FsNode::Skipped, file("ok.txt", 700)]);
    let tree = Tree::explore("root".to_string(), &listing);
    assert_eq!(tree.root.entries.len(), 1);
    assert_eq!(tree.root.size, 700);
    match &tree.root.entries[0] {
        Entry::File(f) => assert_eq!(f.path, "root/ok.txt"),
        Entry::Dir(_) => panic!("surviving child should be the readable file"),
    }
}

#[test]
fn unknown_metadata_degrades_to_zero_size_file() {
    let listing = Some(vec![FsNode::Unknown { name: "odd".to_string() }, file("ok.txt", 5)]);
    let tree = Tree::explore("root".to_string(), &listing);
    assert_eq!(tree.root.entries.len(), 2);
    assert_eq!(tree.root.size, 5);
    match &tree.root.entries[0] {
        Entry::File(f) => {
            assert_eq!(f.size, 0);
            assert_eq!(f.path, "root/odd");
        },
        Entry::Dir(_) => panic!("degraded child should be a file"),
    }
}

#[test]
fn unreadable_directory_degrades_to_empty() {
    let listing = Some(vec![FsNode::Dir { name: "locked".to_string(), listing: None }]);
    let tree = Tree::explore("root".to_string(), &listing);
    assert_eq!(tree.root.size, 0);
    match &tree.root.entries[0] {
        Entry::Dir(d) => {
            assert_eq!(d.size, 0);
            assert_eq!(d.entries.len(), 0);
        },
        Entry::File(_) => panic!("child should still appear as a directory"),
    }
}

#[test]
fn unreadable_root_still_yields_a_tree() {
    let listing: Option<Vec<FsNode>> = None;
    let tree = Tree::explore("root".to_string(), &listing);
    assert_eq!(tree.root.size, 0);
    assert_eq!(tree.root.entries.len(), 0);
    let lines = tree.print(false, FileSizeFormat::Byte, 0);
    assert_eq!(lines, vec!["root (0B)"]);
}

#[test]
fn end_to_end_render() {
    let listing = sample_listing();
    let tree = Tree::explore("root".to_string(), &listing);
    let lines = tree.print(false, FileSizeFormat::Byte, 0);
    let expected = vec![
        "root (3000B)",
        "\u{251c}\u{2500}a.txt (1000B)",
        "\u{2514}\u{2500}sub (2000B)",
        "  \u{2514}\u{2500}b.txt (2000B)",
    ];
    assert_eq!(lines, expected);
}

#[test]
fn root_name_is_final_path_component() {
    let listing = Some(vec![file("x", 1)]);
    let tree = Tree::explore("/tmp/scans/demo".to_string(), &listing);
    let lines = tree.print(true, FileSizeFormat::Kilo, 0);
    assert_eq!(lines[0], "demo");
}

#[test]
fn connector_marks_only_last_child() {
    let listing = Some(vec![file("one", 1), file("two", 2), file("three", 3)]);
    let tree = Tree::explore("root".to_string(), &listing);
    let lines = tree.print(true, FileSizeFormat::Kilo, 0);
    assert_eq!(lines.len(), 4);
    let tee = "\u{251c}\u{2500}";
    let corner = "\u{2514}\u{2500}";
    assert!(lines[1].starts_with(tee));
    assert!(lines[2].starts_with(tee));
    assert!(lines[3].starts_with(corner));
    assert_eq!(lines.iter().filter(|l| l.starts_with(corner)).count(), 1);
}

#[test]
fn continuation_bar_only_under_not_last_child() {
    let listing = Some(vec![
        dir("first", vec![file("deep1", 1)]),
        dir("second", vec![file("deep2", 2)]),
    ]);
    let tree = Tree::explore("root".to_string(), &listing);
    let lines = tree.print(true, FileSizeFormat::Kilo, 0);
    let bar = "\u{2502} ";
    assert_eq!(lines.len(), 5);
    assert!(lines[2].starts_with(bar), "descendant of a not-last child draws the bar");
    assert!(lines[4].starts_with("  "), "descendant of the last child gets blanks");
    assert!(!lines[4].contains(bar));
}

#[test]
fn unit_selection_changes_suffix() {
    let listing = Some(vec![file("big", 2_500_000)]);
    let tree = Tree::explore("root".to_string(), &listing);
    let kilo = tree.print(false, FileSizeFormat::Kilo, 0);
    let mega = tree.print(false, FileSizeFormat::Mega, 0);
    assert!(kilo[1].ends_with("(2500KB)"));
    assert!(mega[1].ends_with("(2MB)"));
}

#[test]
fn depth_limit_prints_root_and_direct_children_only() {
    let listing = Some(vec![
        file("top.txt", 1),
        dir("a", vec![dir("b", vec![file("c.txt", 2)])]),
    ]);
    let tree = Tree::explore("root".to_string(), &listing);
    let unlimited = tree.print(true, FileSizeFormat::Kilo, 0);
    assert_eq!(unlimited.len(), 5);
    let limited = tree.print(true, FileSizeFormat::Kilo, 1);
    assert_eq!(limited.len(), 3);
    assert_eq!(limited[0], "root");
    assert!(limited[1].ends_with("top.txt"));
    assert!(limited[2].ends_with("a"));
}

#[test]
fn hide_size_suppresses_every_suffix() {
    let listing = sample_listing();
    let tree = Tree::explore("root".to_string(), &listing);
    let hidden_kilo = tree.print(true, FileSizeFormat::Kilo, 0);
    let hidden_tera = tree.print(true, FileSizeFormat::Tera, 0);
    assert_eq!(hidden_kilo, hidden_tera);
    for line in &hidden_kilo {
        assert!(!line.contains('('));
        assert!(!line.contains(')'));
    }
}

#[test]
fn listing_weight_totals_every_file() {
    let listing = sample_listing();
    assert_eq!(listing_weight_checked(&listing), Some(3000));
    let empty: Option<Vec<FsNode>> = None;
    assert_eq!(listing_weight_checked(&empty), Some(0));
}

#[test]
fn listing_weight_reports_overflow() {
    let listing = Some(vec![file("huge", u64::MAX), file("straw", 1)]);
    assert_eq!(listing_weight_checked(&listing), None);
}

#[test]
fn entry_size_reads_either_variant() {
    let listing = sample_listing();
    let tree = Tree::explore("root".to_string(), &listing);
    assert_eq!(tree.root.entries[0].size(), 1000);
    assert_eq!(tree.root.entries[1].size(), 2000);
}

#[test]
fn from_fs_drops_only_skipped_items() {
    assert!(Entry::from_fs("root", &FsNode::Skipped).is_none());
    match Entry::from_fs("root", &file("a", 9)) {
        Some(Entry::File(f)) => {
            assert_eq!(f.path, "root/a");
            assert_eq!(f.size, 9);
        },
        _ => panic!("a readable file must survive the scan"),
    }
}

#[test]
fn dir_desc_renders_like_tree_root() {
    let listing = sample_listing();
    let d = DirDesc::new("root".to_string(), &listing);
    let tree = Tree::explore("root".to_string(), &listing);
    assert_eq!(
        d.print(false, FileSizeFormat::Byte, 0),
        tree.print(false, FileSizeFormat::Byte, 0)
    );
}

#[test]
fn depth_limit_of_two_cuts_below_grandchildren() {
    let listing = Some(vec![dir(
        "a",
        vec![dir("b", vec![file("c.txt", 2)]), file("d.txt", 3)],
    )]);
    let tree = Tree::explore("root".to_string(), &listing);
    let limited = tree.print(true, FileSizeFormat::Kilo, 2);
    assert_eq!(limited.len(), 4);
    assert!(limited[1].ends_with("a"));
    assert!(limited[2].ends_with("b"));
    assert!(limited[3].ends_with("d.txt"));
}

#[test]
fn degraded_items_inside_subdirectory_count_zero() {
    let listing = Some(vec![dir(
        "sub",
        vec![
            FsNode::Unknown { name: "mystery".to_string() },
            FsNode::Skipped,
            file("real.dat", 42),
        ],
    )]);
    let tree = Tree::explore("root".to_string(), &listing);
    assert_eq!(tree.root.size, 42);
    match &tree.root.entries[0] {
        Entry::Dir(sub) => {
            assert_eq!(sub.size, 42);
            assert_eq!(sub.entries.len(), 2);
        },
        Entry::File(_) => panic!("child should be a directory"),
    }
}

#[test]
fn name_after_trailing_slash_is_empty() {
    let listing = Some(vec![file("x", 1)]);
    let tree = Tree::explore("ends/in/slash/".to_string(), &listing);
    let lines = tree.print(true, FileSizeFormat::Kilo, 0);
    assert_eq!(lines[0], "");
}
