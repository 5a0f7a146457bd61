use sphinx::dir_tree::{is_dir, sort_by_name, sorted_subdirectories, Directory, Entry};
use sphinx::explorer::{explorer_tree, print_tree, Block, UNFOLDED_ABOVE};
use sphinx::walk::{dir_walk, root_name, ScanError, Step, Walk, MAX_DEPTH};
use std::cmp::Ordering;

fn entry(parent: &str, name: &str, is_dir: bool) -> Entry {
    Entry { name: name.to_string(), path: format!("{}/{}", parent, name), is_dir }
}

fn dir(parent: &str, name: &str) -> Entry {
    entry(parent, name, true)
}

fn file(parent: &str, name: &str) -> Entry {
    entry(parent, name, false)
}

/// Runs a walk to its end against a file system given as a function.
fn walk_over(
    root: &str,
    max_depth: u32,
    fs: &dyn Fn(&str) -> Option<Vec<Entry>>,
) -> (Result<Directory, ScanError>, Vec<String>) {
    let mut read: Vec<String> = Vec::new();
    let mut walk = Walk::new(root, max_depth);
    loop {
        let path = walk.wanted().to_string();
        let listing = fs(&path);
        read.push(path);
        match dir_walk(walk, listing) {
            Step::Read(next) => walk = next,
            Step::Done(tree) => return (Ok(tree), read),
            Step::Failed(e) => return (Err(e), read),
        }
    }
}

/// `R` holds `a/`, `b/` and `z.txt`; `a` holds `deep/`, which holds more.
fn small_fs(path: &str) -> Option<Vec<Entry>> {
    match path {
        "R" => Some(vec![file("R", "z.txt"), dir("R", "b"), dir("R", "a")]),
        "R/a" => Some(vec![dir("R/a", "deep"), file("R/a", "notes.md")]),
        "R/a/deep" => Some(vec![dir("R/a/deep", "deeper")]),
        "R/a/deep/deeper" => Some(vec![dir("R/a/deep/deeper", "deepest")]),
        "R/a/deep/deeper/deepest" => Some(vec![dir("R/a/deep/deeper/deepest", "abyss")]),
        "R/a/deep/deeper/deepest/abyss" => Some(vec![]),
        "R/b" => Some(vec![]),
        _ => None,
    }
}

fn leaf(name: &str, path: &str, depth: u32) -> Directory {
    Directory { name: name.to_string(), entries: vec![], depth, path: path.to_string() }
}

fn max_depth_of(tree: &Directory) -> u32 {
    tree.entries.iter().map(max_depth_of).max().unwrap_or(tree.depth).max(tree.depth)
}

fn sorted_everywhere(tree: &Directory) -> bool {
    tree.entries.windows(2).all(|w| w[0].name.as_bytes() <= w[1].name.as_bytes())
        && tree.entries.iter().all(sorted_everywhere)
}

fn depths_count_from(tree: &Directory, depth: u32) -> bool {
    tree.depth == depth && tree.entries.iter().all(|c| depths_count_from(c, depth + 1))
}

#[test]
fn is_dir_is_true_of_what_is_left_out() {
    assert!(is_dir(&file("R", "z.txt")));
    assert!(!is_dir(&dir("R", "a")));
}

#[test]
fn sort_by_name_compares_names_by_bytes() {
    assert_eq!(sort_by_name(&dir("R", "a"), &dir("R", "b")), Ordering::Less);
    assert_eq!(sort_by_name(&dir("R", "b"), &dir("R", "a")), Ordering::Greater);
    assert_eq!(sort_by_name(&dir("R", "a"), &file("S", "a")), Ordering::Equal);
    assert_eq!(sort_by_name(&dir("R", "B"), &dir("R", "a")), Ordering::Less);
    assert_eq!(sort_by_name(&dir("R", "ab"), &dir("R", "a")), Ordering::Greater);
    assert_eq!(sort_by_name(&dir("R", "é"), &dir("R", "z")), Ordering::Greater);
}

#[test]
fn sort_by_name_agrees_with_string_order() {
    let names = ["", "a", "A", "ab", "b", "zz", "é", "日本", "a b", "a-b", "_x", "10", "9"];
    for a in names {
        for b in names {
            assert_eq!(sort_by_name(&dir("R", a), &dir("R", b)), a.cmp(b), "{:?} against {:?}", a, b);
        }
    }
}

#[test]
fn sorted_subdirectories_drops_files_and_sorts() {
    let listing = vec![
        dir("R", "src"),
        file("R", "Cargo.toml"),
        dir("R", "Docs"),
        dir("R", "app"),
        file("R", "a.txt"),
        dir("R", "tests"),
    ];
    let row = sorted_subdirectories(&listing);
    let names: Vec<&str> = row.iter().map(|e| e.name.as_str()).collect();
    assert_eq!(names, vec!["Docs", "app", "src", "tests"]);
    assert!(row.iter().all(|e| e.is_dir));
    assert_eq!(row[1], dir("R", "app"));
}

#[test]
fn sorted_subdirectories_keeps_the_first_of_two_with_one_name_first() {
    let listing = vec![
        Entry { name: "x".to_string(), path: "second/x".to_string(), is_dir: true },
        Entry { name: "a".to_string(), path: "R/a".to_string(), is_dir: true },
        Entry { name: "x".to_string(), path: "first/x".to_string(), is_dir: true },
    ];
    let row = sorted_subdirectories(&listing);
    let paths: Vec<&str> = row.iter().map(|e| e.path.as_str()).collect();
    assert_eq!(paths, vec!["R/a", "second/x", "first/x"]);
}

#[test]
fn sorted_subdirectories_of_nothing_is_nothing() {
    assert!(sorted_subdirectories(&vec![]).is_empty());
    assert!(sorted_subdirectories(&vec![file("R", "only.txt")]).is_empty());
}

#[test]
fn scan_of_root_with_two_directories_and_a_file() {
    let (tree, _) = walk_over("R", 1, &small_fs);
    let tree = tree.unwrap();
    assert_eq!(tree.name, "R");
    assert_eq!(tree.path, "R");
    assert_eq!(tree.depth, 0);
    assert_eq!(tree.entries, vec![leaf("a", "R/a", 1), leaf("b", "R/b", 1)]);
}

#[test]
fn scan_with_default_depth_cuts_below_the_third_level() {
    assert_eq!(MAX_DEPTH, 3);
    let (tree, read) = walk_over("R", MAX_DEPTH, &small_fs);
    let tree = tree.unwrap();
    let expected = Directory {
        name: "R".to_string(),
        path: "R".to_string(),
        depth: 0,
        entries: vec![
            Directory {
                name: "a".to_string(),
                path: "R/a".to_string(),
                depth: 1,
                entries: vec![Directory {
                    name: "deep".to_string(),
                    path: "R/a/deep".to_string(),
                    depth: 2,
                    entries: vec![leaf("deeper", "R/a/deep/deeper", 3)],
                }],
            },
            leaf("b", "R/b", 1),
        ],
    };
    assert_eq!(tree, expected);
    assert_eq!(read, vec!["R", "R/a", "R/a/deep", "R/a/deep/deeper", "R/b"]);
}

#[test]
fn scan_never_goes_deeper_than_asked() {
    for max_depth in 0..7u32 {
        let (tree, _) = walk_over("R", max_depth, &small_fs);
        let tree = tree.unwrap();
        assert_eq!(max_depth_of(&tree), max_depth.min(5));
        assert!(depths_count_from(&tree, 0));
        assert!(sorted_everywhere(&tree));
    }
}

#[test]
fn scan_with_depth_zero_is_the_root_alone() {
    let (tree, read) = walk_over("R", 0, &small_fs);
    assert_eq!(tree.unwrap(), leaf("R", "R", 0));
    assert_eq!(read, vec!["R"]);
}

#[test]
fn scan_twice_gives_equal_trees() {
    let (first, _) = walk_over("R", MAX_DEPTH, &small_fs);
    let (second, _) = walk_over("R", MAX_DEPTH, &small_fs);
    assert_eq!(first.unwrap(), second.unwrap());
}

#[test]
fn scan_of_unreadable_root_fails() {
    let (tree, read) = walk_over("nowhere", MAX_DEPTH, &small_fs);
    assert_eq!(tree, Err(ScanError::RootUnreadable));
    assert_eq!(read, vec!["nowhere"]);
}

#[test]
fn scan_skips_a_directory_that_cannot_be_read() {
    let fs = |path: &str| match path {
        "R" => Some(vec![dir("R", "locked"), dir("R", "open"), dir("R", "gone")]),
        "R/open" => Some(vec![dir("R/open", "inner")]),
        "R/open/inner" => Some(vec![]),
        _ => None,
    };
    let (tree, read) = walk_over("R", MAX_DEPTH, &fs);
    let tree = tree.unwrap();
    assert_eq!(
        tree.entries,
        vec![Directory {
            name: "open".to_string(),
            path: "R/open".to_string(),
            depth: 1,
            entries: vec![leaf("inner", "R/open/inner", 2)],
        }]
    );
    assert_eq!(read, vec!["R", "R/gone", "R/locked", "R/open", "R/open/inner"]);
}

#[test]
fn walk_names_the_root_by_its_last_component() {
    let fs = |path: &str| if path == "home/me/code" { Some(vec![]) } else { None };
    let (tree, _) = walk_over("home/me/code", MAX_DEPTH, &fs);
    let tree = tree.unwrap();
    assert_eq!(tree.name, "code");
    assert_eq!(tree.path, "home/me/code");
}

#[test]
fn walk_names_a_root_without_components_by_a_dot() {
    let fs = |path: &str| if path == "/" { Some(vec![]) } else { None };
    let (tree, _) = walk_over("/", MAX_DEPTH, &fs);
    let tree = tree.unwrap();
    assert_eq!(tree.name, ".");
    assert_eq!(tree.path, "/");
}

#[test]
fn root_name_falls_back_to_a_dot() {
    assert_eq!(root_name(Some("code".to_string())), "code");
    assert_eq!(root_name(None), ".");
}

#[test]
fn walk_says_what_it_waits_for() {
    let walk = Walk::new("R", 2);
    assert_eq!(walk.wanted(), "R");
    assert_eq!(walk.depth(), 0);
    assert_eq!(walk.max_depth(), 2);
    match dir_walk(walk, small_fs("R")) {
        Step::Read(next) => {
            assert_eq!(next.wanted(), "R/a");
            assert_eq!(next.depth(), 1);
            assert_eq!(next.max_depth(), 2);
        }
        _ => panic!("the walk has a directory to read"),
    }
}

#[test]
fn walk_started_by_name_keeps_the_name() {
    let walk = Walk::start("shown".to_string(), "some/where".to_string(), 1);
    match dir_walk(walk, Some(vec![])) {
        Step::Done(tree) => assert_eq!(tree, leaf("shown", "some/where", 0)),
        _ => panic!("an empty root ends the walk"),
    }
}

#[test]
fn print_tree_draws_one_line_for_each_directory() {
    let (tree, _) = walk_over("R", MAX_DEPTH, &small_fs);
    let text = print_tree("R", &tree.unwrap());
    assert_eq!(
        text,
        vec![
            "R",
            "├── a",
            "│   └── deep",
            "│       └── deeper",
            "└── b",
        ]
    );
}

#[test]
fn print_tree_of_a_leaf_is_the_heading() {
    let text = print_tree("some heading", &leaf("R", "R", 0));
    assert_eq!(text, vec!["some heading"]);
}

#[test]
fn print_tree_joins_every_entry_but_the_last_with_a_tee() {
    let tree = Directory {
        name: "R".to_string(),
        path: "R".to_string(),
        depth: 0,
        entries: vec![
            Directory {
                name: "a".to_string(),
                path: "R/a".to_string(),
                depth: 1,
                entries: vec![leaf("x", "R/a/x", 2), leaf("y", "R/a/y", 2)],
            },
            leaf("b", "R/b", 1),
            Directory {
                name: "c".to_string(),
                path: "R/c".to_string(),
                depth: 1,
                entries: vec![leaf("z", "R/c/z", 2)],
            },
        ],
    };
    assert_eq!(
        print_tree(".", &tree),
        vec![
            ".",
            "├── a",
            "│   ├── x",
            "│   └── y",
            "├── b",
            "└── c",
            "    └── z",
        ]
    );
}

#[test]
fn clone_of_a_tree_is_equal_to_it() {
    let (tree, _) = walk_over("R", MAX_DEPTH, &small_fs);
    let tree = tree.unwrap();
    assert_eq!(tree.clone(), tree);
    let e = dir("R", "a");
    assert_eq!(e.clone(), e);
}

#[test]
fn explorer_tree_groups_runs_of_leaves() {
    let branch = |name: &str| Directory {
        name: name.to_string(),
        path: format!("R/{}", name),
        depth: 1,
        entries: vec![leaf("x", "x", 2)],
    };
    let row = |entries: Vec<Directory>| Directory {
        name: "R".to_string(),
        path: "R".to_string(),
        depth: 0,
        entries,
    };
    assert_eq!(explorer_tree(&row(vec![])), vec![]);
    assert_eq!(
        explorer_tree(&row(vec![leaf("a", "a", 1), leaf("b", "b", 1)])),
        vec![Block::Leaves { from: 0, to: 2 }]
    );
    assert_eq!(
        explorer_tree(&row(vec![branch("a"), branch("b")])),
        vec![Block::Branch { index: 0, count: 1 }, Block::Branch { index: 1, count: 2 }]
    );
    assert_eq!(
        explorer_tree(&row(vec![
            leaf("a", "a", 1),
            leaf("b", "b", 1),
            branch("c"),
            branch("d"),
            leaf("e", "e", 1),
            branch("f"),
            leaf("g", "g", 1),
            leaf("h", "h", 1),
            leaf("i", "i", 1),
        ])),
        vec![
            Block::Leaves { from: 0, to: 2 },
            Block::Branch { index: 2, count: 1 },
            Block::Branch { index: 3, count: 2 },
            Block::Leaves { from: 4, to: 5 },
            Block::Branch { index: 5, count: 3 },
            Block::Leaves { from: 6, to: 9 },
        ]
    );
    assert_eq!(UNFOLDED_ABOVE, 2);
}

#[test]
fn walk_names_the_root_by_a_stretch_of_its_path() {
    for root in ["R", "home/me/code", "a/b/", "x/./y", "./z", "日本/語"] {
        let fs = |path: &str| if path == root { Some(vec![]) } else { None };
        let (tree, _) = walk_over(root, MAX_DEPTH, &fs);
        let name = tree.unwrap().name;
        assert!(!name.is_empty() && root.contains(&name), "{:?} names {:?}", root, name);
    }
    let fs = |path: &str| if path == "a/.." { Some(vec![]) } else { None };
    assert_eq!(walk_over("a/..", MAX_DEPTH, &fs).0.unwrap().name, ".");
}
