use tree_cli::file_iterator::{FileItem, FileMeta};
use tree_cli::glob::GlobPattern;
use tree_cli::tree::{Config, DirSummary, DirTree};

fn scenario_config(max_level: usize, inc: Option<&str>, exc: Option<&str>) -> Config {
    Config {
        colorful: false,
        show_all: false,
        size: false,
        max_level,
        include_glob: inc.map(|p| GlobPattern::new(p).unwrap()),
        exclude_glob: exc.map(|p| GlobPattern::new(p).unwrap()),
    }
}

/// Runs the whole pipeline over an in-memory directory table mapping each
/// directory path to its raw listing, and returns the printed lines and
/// the summary.
fn run_tree(
    config: Config,
    dirs: &[(&str, Vec<(&str, FileMeta)>)],
) -> (Vec<String>, DirSummary) {
    let mut tree = DirTree::new(config);
    let root = FileItem::new(".".to_string(), ".".to_string(), FileMeta::Dir, 0, true);
    let mut walker = tree.make_walker(root);
    let mut filter = tree.make_filter();
    let mut lines = Vec::new();

    while let Some(item) = walker.pop_next() {
        if walker.should_expand(&item) {
            let mut children = Vec::new();
            for (path, listing) in dirs {
                if *path == item.path {
                    for (name, meta) in listing {
                        let child_path = format!("{}/{}", item.path, name);
                        children.push(FileItem::new(
                            name.to_string(),
                            child_path,
                            *meta,
                            0,
                            false,
                        ));
                    }
                }
            }
            walker.push_dir(&item, children);
        }
        for emitted in filter.process(item) {
            let segments = tree.process_entry(&emitted);
            let mut text = String::new();
            for seg in segments.iter() {
                text.push_str(&seg.text);
            }
            lines.push(text);
        }
    }

    (lines, tree.finish())
}

fn file_of(size: u64) -> FileMeta {
    FileMeta::File { size, executable: false }
}

#[test]
fn test_scenario_plain_tree() {
    // one file and one empty subdirectory, no pattern: both are listed
    let dirs = vec![
        (".", vec![("a.txt", file_of(5)), ("sub", FileMeta::Dir)]),
        ("./sub", vec![]),
    ];
    let (lines, summary) = run_tree(scenario_config(usize::MAX, None, None), &dirs);

    assert_eq!(lines, vec![".", "├── a.txt", "└── sub"]);
    assert_eq!(summary.num_folders, 1);
    assert_eq!(summary.num_files, 1);
}

#[test]
fn test_scenario_everything_filtered() {
    // the same tree under an include pattern nothing matches: the
    // subdirectory is elided and the file is excluded
    let dirs = vec![
        (".", vec![("a.txt", file_of(5)), ("sub", FileMeta::Dir)]),
        ("./sub", vec![]),
    ];
    let (lines, summary) = run_tree(scenario_config(usize::MAX, Some("*.rs"), None), &dirs);

    assert!(lines.is_empty());
    assert_eq!(summary.num_folders, 0);
    assert_eq!(summary.num_files, 0);
}

#[test]
fn test_scenario_deep_chain_kept() {
    // a single matching file keeps its whole ancestor chain, each
    // directory emitted exactly once and before the file
    let dirs = vec![
        (".", vec![("x", FileMeta::Dir)]),
        ("./x", vec![("y", FileMeta::Dir)]),
        ("./x/y", vec![("z", FileMeta::Dir)]),
        ("./x/y/z", vec![("file.rs", file_of(7))]),
    ];
    let (lines, summary) = run_tree(scenario_config(usize::MAX, Some("*.rs"), None), &dirs);

    assert_eq!(
        lines,
        vec![
            ".",
            "└── x",
            "    └── y",
            "        └── z",
            "            └── file.rs",
        ]
    );
    assert_eq!(summary.num_folders, 3);
    assert_eq!(summary.num_files, 1);
}

#[test]
fn test_scenario_depth_limit() {
    // three levels deep but a depth limit of one: only the root and its
    // immediate children appear
    let dirs = vec![
        (".", vec![("a", FileMeta::Dir), ("f.txt", file_of(3))]),
        ("./a", vec![("b", FileMeta::Dir)]),
        ("./a/b", vec![("c.txt", file_of(3))]),
    ];
    let (lines, summary) = run_tree(scenario_config(1, None, None), &dirs);

    assert_eq!(lines, vec![".", "├── a", "└── f.txt"]);
    assert_eq!(summary.num_folders, 1);
    assert_eq!(summary.num_files, 1);

    // with elision active the unexpanded directory has no visible file
    // beneath it and disappears too; grandchildren still never appear
    let (lines, _) = run_tree(scenario_config(1, Some("*.txt"), None), &dirs);
    assert_eq!(lines, vec![".", "└── f.txt"]);
    assert!(lines.iter().all(|l| !l.contains('b') && !l.contains("c.txt")));
}

#[test]
fn test_scenario_exclude_pattern() {
    let dirs = vec![
        (
            ".",
            vec![
                ("file1.txt", file_of(1)),
                ("file2.rs", file_of(2)),
                ("test.md", file_of(3)),
            ],
        ),
    ];
    let (lines, summary) = run_tree(scenario_config(usize::MAX, None, Some("*.txt")), &dirs);

    assert_eq!(lines, vec![".", "├── file2.rs", "└── test.md"]);
    assert_eq!(summary.num_folders, 0);
    assert_eq!(summary.num_files, 2);
}

#[test]
fn test_scenario_exclude_with_include() {
    let dirs = vec![
        (
            ".",
            vec![
                ("file1.txt", file_of(1)),
                ("file2.rs", file_of(2)),
                ("file3.md", file_of(3)),
                ("file4.py", file_of(4)),
            ],
        ),
    ];
    let (lines, summary) = run_tree(
        scenario_config(usize::MAX, Some("*.rs"), Some("*.py")),
        &dirs,
    );

    assert_eq!(lines, vec![".", "└── file2.rs"]);
    assert_eq!(summary.num_files, 1);
}

#[test]
fn test_scenario_hidden_files() {
    let dirs = vec![(".", vec![(".hidden", file_of(2)), ("normal.txt", file_of(2))])];

    let (lines, _) = run_tree(scenario_config(usize::MAX, None, None), &dirs);
    assert_eq!(lines, vec![".", "└── normal.txt"]);

    let mut config = scenario_config(usize::MAX, None, None);
    config.show_all = true;
    let (lines, _) = run_tree(config, &dirs);
    assert_eq!(lines, vec![".", "├── .hidden", "└── normal.txt"]);
}

#[test]
fn test_scenario_size_annotation() {
    let dirs = vec![(".", vec![("large.txt", file_of(2048)), ("small.txt", file_of(5))])];
    let mut config = scenario_config(usize::MAX, None, None);
    config.size = true;

    let (lines, _) = run_tree(config, &dirs);
    assert_eq!(lines, vec![".", "├── large.txt [2.0KB]", "└── small.txt [5B]"]);
}

#[test]
fn test_scenario_unreadable_entry() {
    // an entry whose metadata failed is still listed, marked, counted as
    // a file, and never expanded
    let dirs = vec![(".", vec![("ghost", FileMeta::Error), ("sub", FileMeta::Dir)]), (
        "./sub",
        vec![],
    )];
    let (lines, summary) = run_tree(scenario_config(usize::MAX, None, None), &dirs);

    assert_eq!(lines, vec![".", "├── ghost [Error File]", "└── sub"]);
    assert_eq!(summary.num_folders, 1);
    assert_eq!(summary.num_files, 1);
}

/// Runs the same traversal through the bundled session.
fn run_session(
    config: Config,
    dirs: &[(&str, Vec<(&str, FileMeta)>)],
) -> (Vec<String>, DirSummary) {
    let root = FileItem::new(".".to_string(), ".".to_string(), FileMeta::Dir, 7, false);
    let mut session = DirTree::new(config).print_folders(root);
    let mut lines = Vec::new();
    loop {
        let result = session.step();
        for line in &result.lines {
            let mut text = String::new();
            for seg in line.iter() {
                text.push_str(&seg.text);
            }
            lines.push(text);
        }
        if let Some(dir_path) = result.read_dir {
            let mut children = Vec::new();
            for (path, listing) in dirs {
                if *path == dir_path {
                    for (name, meta) in listing {
                        let child_path = format!("{}/{}", dir_path, name);
                        children.push(FileItem::new(
                            name.to_string(),
                            child_path,
                            *meta,
                            0,
                            false,
                        ));
                    }
                }
            }
            session.supply_children(children);
        }
        if result.done {
            break;
        }
    }
    (lines, session.finish())
}

#[test]
fn test_session_plain_tree() {
    let dirs = vec![
        (".", vec![("a.txt", file_of(5)), ("sub", FileMeta::Dir)]),
        ("./sub", vec![]),
    ];
    let (lines, summary) = run_session(scenario_config(usize::MAX, None, None), &dirs);

    assert_eq!(lines, vec![".", "├── a.txt", "└── sub"]);
    assert_eq!(summary.num_folders, 1);
    assert_eq!(summary.num_files, 1);
}

#[test]
fn test_session_deep_chain() {
    let dirs = vec![
        (".", vec![("x", FileMeta::Dir)]),
        ("./x", vec![("y", FileMeta::Dir)]),
        ("./x/y", vec![("z", FileMeta::Dir)]),
        ("./x/y/z", vec![("file.rs", file_of(7))]),
    ];
    let (lines, summary) = run_session(scenario_config(usize::MAX, Some("*.rs"), None), &dirs);

    assert_eq!(
        lines,
        vec![
            ".",
            "└── x",
            "    └── y",
            "        └── z",
            "            └── file.rs",
        ]
    );
    assert_eq!(summary.num_folders, 3);
    assert_eq!(summary.num_files, 1);
}

#[test]
fn test_session_ignores_unrequested_children() {
    let dirs = vec![(".", vec![("a.txt", file_of(5))])];
    let root = FileItem::new(".".to_string(), ".".to_string(), FileMeta::Dir, 0, true);
    let mut session = DirTree::new(scenario_config(usize::MAX, None, None)).print_folders(root);

    // nothing was requested yet, so a listing is dropped on the floor
    let had = session.supply_children(vec![FileItem::new(
        "stray".to_string(),
        "stray".to_string(),
        file_of(1),
        0,
        false,
    )]);
    assert!(!had);

    let (lines, _) = {
        let mut lines = Vec::new();
        loop {
            let result = session.step();
            for line in &result.lines {
                let mut text = String::new();
                for seg in line.iter() {
                    text.push_str(&seg.text);
                }
                lines.push(text);
            }
            if let Some(dir_path) = result.read_dir {
                let mut children = Vec::new();
                for (path, listing) in &dirs {
                    if *path == dir_path {
                        for (name, meta) in listing {
                            children.push(FileItem::new(
                                name.to_string(),
                                format!("{}/{}", dir_path, name),
                                *meta,
                                0,
                                false,
                            ));
                        }
                    }
                }
                session.supply_children(children);
            }
            if result.done {
                break;
            }
        }
        (lines, session.finish())
    };
    assert_eq!(lines, vec![".", "└── a.txt"]);
}
