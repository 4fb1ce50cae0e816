use tree_cli::file_iterator::{FileItem, FileMeta};
use tree_cli::tree::{Config, DirSummary, DirTree, Style};

fn plain_config() -> Config {
    Config {
        colorful: false,
        show_all: false,
        size: false,
        max_level: usize::MAX,
        include_glob: None,
        exclude_glob: None,
    }
}

#[test]
fn test_config_creation() {
    let config = Config {
        colorful: true,
        show_all: false,
        size: false,
        max_level: 3,
        include_glob: None,
        exclude_glob: None,
    };
    assert!(config.colorful);
    assert!(!config.show_all);
    assert!(!config.size);
    assert_eq!(config.max_level, 3);
    assert!(config.include_glob.is_none());
    assert!(config.exclude_glob.is_none());
}

#[test]
fn test_dir_summary_init() {
    let summary = DirSummary::init();
    assert_eq!(summary.num_folders, 0);
    assert_eq!(summary.num_files, 0);
}

#[test]
fn test_cal_symbol_switch_logic() {
    let tree = DirTree::new(plain_config());
    let mut symbol_switch_list: Vec<bool> = Vec::new();

    let level = 1;
    let is_last = true;
    tree.cal_symbol_switch(&mut symbol_switch_list, level, is_last);

    assert_eq!(symbol_switch_list.len(), 1);
    assert!(!symbol_switch_list[0]);
}

#[test]
fn test_cal_symbol_switch_truncates() {
    let tree = DirTree::new(plain_config());
    let mut list = vec![true, true, true];
    // an entry back at level one drops the deeper states
    tree.cal_symbol_switch(&mut list, 1, false);
    assert_eq!(list, vec![true]);
    // and the root entry at level zero clears them all
    tree.cal_symbol_switch(&mut list, 0, true);
    assert!(list.is_empty());
}

#[test]
fn test_process_entry_error_marker() {
    let mut tree = DirTree::new(plain_config());
    let entry = FileItem::new("broken".to_string(), "broken".to_string(), FileMeta::Error, 0, true);
    let segs = tree.process_entry(&entry);
    assert_eq!(segs.len(), 2);
    assert_eq!(segs[0].text, "");
    assert!(segs[0].style == Style::Plain);
    assert_eq!(segs[1].text, "broken [Error File]");
    assert!(segs[1].style == Style::Plain);
}

#[test]
fn test_process_entry_styles() {
    let mut tree = DirTree::new(plain_config());

    let dir = FileItem::new("sub".to_string(), "./sub".to_string(), FileMeta::Dir, 0, true);
    let segs = tree.process_entry(&dir);
    assert!(segs[1].style == Style::Directory);

    let exe = FileItem::new(
        "run.sh".to_string(),
        "./run.sh".to_string(),
        FileMeta::File { size: 10, executable: true },
        1,
        false,
    );
    let segs = tree.process_entry(&exe);
    assert_eq!(segs[0].text, "├── ");
    assert!(segs[1].style == Style::Executable);

    let plain = FileItem::new(
        "a.txt".to_string(),
        "./a.txt".to_string(),
        FileMeta::File { size: 10, executable: false },
        1,
        true,
    );
    let segs = tree.process_entry(&plain);
    assert_eq!(segs[0].text, "└── ");
    assert!(segs[1].style == Style::Plain);
    // size annotation is off, so the line ends with the name
    assert_eq!(segs.len(), 2);

    let link = FileItem::new("ln".to_string(), "./ln".to_string(), FileMeta::Other, 1, true);
    let segs = tree.process_entry(&link);
    assert!(segs[1].style == Style::Plain);
}

#[test]
fn test_process_entry_size_note() {
    let mut config = plain_config();
    config.size = true;
    let mut tree = DirTree::new(config);

    let file = FileItem::new(
        "large.txt".to_string(),
        "./large.txt".to_string(),
        FileMeta::File { size: 2048, executable: false },
        0,
        true,
    );
    let segs = tree.process_entry(&file);
    assert_eq!(segs.len(), 3);
    assert_eq!(segs[2].text, " [2.0KB]");
    assert!(segs[2].style == Style::SizeNote);

    // directories carry no size note even when sizes are on
    let dir = FileItem::new("sub".to_string(), "./sub".to_string(), FileMeta::Dir, 0, true);
    let segs = tree.process_entry(&dir);
    assert_eq!(segs.len(), 2);
}

#[test]
fn test_finish_counts() {
    let mut tree = DirTree::new(plain_config());
    let root = FileItem::new(".".to_string(), ".".to_string(), FileMeta::Dir, 0, true);
    let sub = FileItem::new("sub".to_string(), "./sub".to_string(), FileMeta::Dir, 1, true);
    let file = FileItem::new(
        "a.txt".to_string(),
        "./a.txt".to_string(),
        FileMeta::File { size: 1, executable: false },
        1,
        false,
    );
    tree.process_entry(&root);
    tree.process_entry(&file);
    tree.process_entry(&sub);
    let summary = tree.finish();
    // the root directory itself is not counted as a subdirectory
    assert_eq!(summary.num_folders, 1);
    assert_eq!(summary.num_files, 1);
}

#[test]
fn test_finish_without_entries() {
    let tree = DirTree::new(plain_config());
    let summary = tree.finish();
    assert_eq!(summary.num_folders, 0);
    assert_eq!(summary.num_files, 0);
}
