use cargo_swoop::iter::{DirIter, DirIterItem, WalkError};
use cargo_swoop::tree::FsNode;
use cargo_swoop::{find_crates, Args, Context};

fn file(name: &str, size: u64) -> FsNode {
    FsNode::File { name: name.to_string(), size }
}

fn dir(name: &str, entries: Vec<FsNode>) -> FsNode {
    FsNode::Dir { name: name.to_string(), entries }
}

fn symlink(name: &str) -> FsNode {
    FsNode::Symlink { name: name.to_string() }
}

fn other(name: &str) -> FsNode {
    FsNode::Other { name: name.to_string() }
}

fn args(follow_symlinks: bool) -> Args {
    Args { search_dir: None, follow_symlinks, show_empty: false }
}

fn scan(entries: Vec<FsNode>) -> Context {
    let mut ctx = Context::new();
    find_crates(&mut ctx, &args(false), "root".to_string(), entries).unwrap();
    ctx
}

#[test]
fn crate_with_sized_target() {
    let ctx = scan(vec![dir(
        "a",
        vec![
            file("Cargo.toml", 120),
            dir("target", vec![file("file1", 100), file("file2", 924)]),
        ],
    )]);
    assert_eq!(ctx.crates.len(), 1);
    assert_eq!(ctx.crates[0].path, "root/a");
    assert_eq!(ctx.crates[0].target_dir_size, Some(1024));
}

#[test]
fn crate_without_target_has_no_size() {
    let ctx = scan(vec![dir("b", vec![file("Cargo.toml", 120)])]);
    assert_eq!(ctx.crates.len(), 1);
    assert_eq!(ctx.crates[0].path, "root/b");
    assert_eq!(ctx.crates[0].target_dir_size, None);
}

#[test]
fn empty_target_counts_as_zero_bytes() {
    let ctx = scan(vec![dir("c", vec![file("Cargo.toml", 1), dir("target", vec![])])]);
    assert_eq!(ctx.crates.len(), 1);
    assert_eq!(ctx.crates[0].target_dir_size, Some(0));
}

#[test]
fn no_manifest_no_records() {
    let ctx = scan(vec![dir("x", vec![file("readme.md", 5)]), file("notes.txt", 9)]);
    assert!(ctx.crates.is_empty());
}

#[test]
fn manifest_order_does_not_matter() {
    let ctx = scan(vec![dir(
        "a",
        vec![dir("target", vec![file("f", 7)]), file("Cargo.toml", 1)],
    )]);
    assert_eq!(ctx.crates.len(), 1);
    assert_eq!(ctx.crates[0].path, "root/a");
    assert_eq!(ctx.crates[0].target_dir_size, Some(7));
}

#[test]
fn manifest_inside_target_not_discovered() {
    let ctx = scan(vec![dir(
        "a",
        vec![
            file("Cargo.toml", 1),
            dir("target", vec![file("Cargo.toml", 10), file("f", 90)]),
        ],
    )]);
    assert_eq!(ctx.crates.len(), 1);
    assert_eq!(ctx.crates[0].path, "root/a");
    assert_eq!(ctx.crates[0].target_dir_size, Some(100));
}

#[test]
fn target_dir_sums_nested_files() {
    let ctx = scan(vec![dir(
        "a",
        vec![
            file("Cargo.toml", 1),
            dir(
                "target",
                vec![file("top", 1), dir("debug", vec![file("deep", 2), dir("deps", vec![file("deeper", 4)])])],
            ),
        ],
    )]);
    assert_eq!(ctx.crates[0].target_dir_size, Some(7));
}

#[test]
fn hidden_directories_never_entered() {
    let ctx = scan(vec![
        dir(".git", vec![file("Cargo.toml", 3)]),
        dir(".config", vec![dir("p", vec![file("Cargo.toml", 3)])]),
    ]);
    assert!(ctx.crates.is_empty());
}

#[test]
fn nested_projects_both_discovered() {
    let ctx = scan(vec![dir(
        "a",
        vec![file("Cargo.toml", 1), dir("sub", vec![file("Cargo.toml", 2)])],
    )]);
    assert_eq!(ctx.crates.len(), 2);
    let paths: Vec<&str> = ctx.crates.iter().map(|c| c.path.as_str()).collect();
    assert!(paths.contains(&"root/a"));
    assert!(paths.contains(&"root/a/sub"));
}

#[test]
fn discovery_is_idempotent() {
    let tree = || {
        vec![
            dir("a", vec![file("Cargo.toml", 1), dir("target", vec![file("f", 10)])]),
            dir("b", vec![file("Cargo.toml", 1)]),
            dir("c", vec![dir("d", vec![file("Cargo.toml", 1)])]),
        ]
    };
    let first = scan(tree());
    let second = scan(tree());
    assert_eq!(first.crates, second.crates);
}

#[test]
fn symlinks_skipped_when_not_followed() {
    let ctx = scan(vec![dir(
        "a",
        vec![symlink("link"), file("Cargo.toml", 1), other("socket"), dir("target", vec![file("f", 5)])],
    )]);
    assert_eq!(ctx.crates.len(), 1);
    assert_eq!(ctx.crates[0].target_dir_size, Some(5));
}

#[test]
fn following_symlinks_fails_on_symlink() {
    let mut ctx = Context::new();
    let r = find_crates(
        &mut ctx,
        &args(true),
        "root".to_string(),
        vec![dir("a", vec![symlink("link"), file("Cargo.toml", 1)])],
    );
    assert_eq!(r, Err(WalkError::FollowSymlinksUnsupported));
}

#[test]
fn following_symlinks_succeeds_without_symlinks() {
    let mut ctx = Context::new();
    let r = find_crates(
        &mut ctx,
        &args(true),
        "root".to_string(),
        vec![dir("a", vec![file("Cargo.toml", 1)])],
    );
    assert!(r.is_ok());
    assert_eq!(ctx.crates.len(), 1);
}

#[test]
fn walker_reports_events_in_entry_order() {
    let mut it: DirIter<u8> = DirIter::new(
        "r".to_string(),
        vec![file("a", 3), other("sock"), dir("d", vec![file("b", 4)])],
        0,
    );
    match it.next().unwrap().unwrap() {
        DirIterItem::File { name, size } => {
            assert_eq!(name, "a");
            assert_eq!(size, 3);
        },
        _ => panic!("expected the file first"),
    }
    let node = match it.next().unwrap().unwrap() {
        DirIterItem::Dir(node) => node,
        _ => panic!("expected the directory next"),
    };
    match node {
        FsNode::Dir { name, entries } => {
            assert_eq!(name, "d");
            it.enter_dir("r/d".to_string(), entries, 1);
        },
        _ => panic!("the reported entry is a directory"),
    }
    assert_eq!(it.current_dir().path, "r/d");
    match it.next().unwrap().unwrap() {
        DirIterItem::File { name, size } => {
            assert_eq!(name, "b");
            assert_eq!(size, 4);
        },
        _ => panic!("expected the inner file"),
    }
    match it.next().unwrap().unwrap() {
        DirIterItem::FinishedDir(frame) => {
            assert_eq!(frame.path, "r/d");
            assert_eq!(frame.data, 1);
        },
        _ => panic!("expected the inner directory to finish"),
    }
    match it.next().unwrap().unwrap() {
        DirIterItem::FinishedDir(frame) => {
            assert_eq!(frame.path, "r");
            assert_eq!(frame.data, 0);
        },
        _ => panic!("expected the root to finish"),
    }
    assert!(it.next().unwrap().is_none());
}

#[test]
fn walker_skips_symlink_silently_by_default() {
    let mut it: DirIter<u8> = DirIter::new("r".to_string(), vec![symlink("s"), file("a", 1)], 0);
    match it.next().unwrap().unwrap() {
        DirIterItem::File { name, .. } => assert_eq!(name, "a"),
        _ => panic!("the symlink is skipped"),
    }
}

#[test]
fn walker_errors_on_symlink_when_following() {
    let mut it: DirIter<u8> =
        DirIter::new("r".to_string(), vec![symlink("s"), file("a", 1)], 0).follow_symlinks(true);
    assert!(matches!(it.next(), Err(WalkError::FollowSymlinksUnsupported)));
}
