use tree_cli::file_iterator::{FileItem, FileIterator, FileMeta};
use tree_cli::glob::GlobPattern;
use tree_cli::tree::Config;

fn walker_config(
    max_level: usize,
    show_all: bool,
    inc: Option<&str>,
    exc: Option<&str>,
) -> Config {
    Config {
        colorful: false,
        show_all,
        size: false,
        max_level,
        include_glob: inc.map(|p| GlobPattern::new(p).unwrap()),
        exclude_glob: exc.map(|p| GlobPattern::new(p).unwrap()),
    }
}

fn root_item() -> FileItem {
    FileItem::new("root".to_string(), "root".to_string(), FileMeta::Dir, 0, true)
}

fn child(name: &str, meta: FileMeta) -> FileItem {
    FileItem::new(name.to_string(), name.to_string(), meta, 0, false)
}

fn plain_file() -> FileMeta {
    FileMeta::File { size: 8, executable: false }
}

#[test]
fn test_file_item_creation() {
    let item = FileItem::new("path".to_string(), "/test/path".to_string(), FileMeta::Error, 1, true);

    assert_eq!(item.file_name, "path");
    assert_eq!(item.path, "/test/path");
    assert_eq!(item.level, 1);
    assert!(item.is_last);
}

#[test]
fn test_file_item_is_dir() {
    let dir_item = FileItem::new("test_dir".to_string(), "test_dir".to_string(), FileMeta::Dir, 0, true);
    assert!(dir_item.is_dir());

    let file_item = FileItem::new(
        "test_file.txt".to_string(),
        "test_file.txt".to_string(),
        plain_file(),
        0,
        true,
    );
    assert!(!file_item.is_dir());

    // a node whose metadata could not be read never counts as a directory
    let error_item = FileItem::new("odd".to_string(), "odd".to_string(), FileMeta::Error, 0, true);
    assert!(!error_item.is_dir());
}

#[test]
fn test_file_iterator_new() {
    let config = walker_config(2, false, None, None);
    let mut iterator = FileIterator::new(root_item(), &config);

    let first = iterator.pop_next().expect("the fresh walker holds the root");
    assert_eq!(first.file_name, "root");
    assert_eq!(first.level, 0);
    assert!(first.is_last);
    assert!(iterator.pop_next().is_none());
}

#[test]
fn test_is_glob_included() {
    let config = walker_config(2, false, None, None);
    let iterator = FileIterator::new(root_item(), &config);

    assert!(iterator.is_glob_included("any_file.txt"));
    assert!(iterator.is_glob_included("test.rs"));
}

#[test]
fn test_is_included_hidden_files() {
    let config = walker_config(2, false, None, None);
    let iterator = FileIterator::new(root_item(), &config);

    assert!(!iterator.is_included(".hidden", false));
    assert!(!iterator.is_included(".hidden_dir", true));
    assert!(iterator.is_included("normal.txt", false));
    assert!(iterator.is_included("normal_dir", true));

    let config = walker_config(2, true, None, None);
    let iterator = FileIterator::new(root_item(), &config);

    assert!(iterator.is_included(".hidden", false));
    assert!(iterator.is_included(".hidden_dir", true));
}

#[test]
fn test_include_pattern_restricts_files_only() {
    let config = walker_config(2, false, Some("*.rs"), None);
    let iterator = FileIterator::new(root_item(), &config);

    assert!(iterator.is_included("main.rs", false));
    assert!(!iterator.is_included("readme.txt", false));
    // directories are never shut out by the include pattern
    assert!(iterator.is_included("src", true));
}

#[test]
fn test_exclude_pattern_wins_over_include() {
    let config = walker_config(2, false, Some("*"), Some("*.rs"));
    let iterator = FileIterator::new(root_item(), &config);

    assert!(!iterator.is_included("main.rs", false));
    assert!(iterator.is_included("notes.txt", false));

    let config = walker_config(2, false, None, Some("*.txt"));
    let iterator = FileIterator::new(root_item(), &config);
    assert!(!iterator.is_included("notes.txt", false));
    assert!(iterator.is_included("main.rs", false));
}

#[test]
fn test_file_iterator_single_directory() {
    // depth limit zero: the root is emitted but never expanded
    let config = walker_config(0, false, None, None);
    let mut iterator = FileIterator::new(root_item(), &config);

    let mut items = Vec::new();
    while let Some(item) = iterator.pop_next() {
        assert!(!iterator.should_expand(&item));
        items.push(item);
    }

    assert_eq!(items.len(), 1);
    assert!(items[0].is_dir());
}

#[test]
fn test_file_iterator_with_subdirectories() {
    let config = walker_config(1, false, None, None);
    let mut iterator = FileIterator::new(root_item(), &config);

    let mut items = Vec::new();
    while let Some(item) = iterator.pop_next() {
        if iterator.should_expand(&item) {
            let children = vec![
                child("subdir1", FileMeta::Dir),
                child("subdir2", FileMeta::Dir),
                child("file1.txt", plain_file()),
            ];
            iterator.push_dir(&item, children);
        }
        items.push(item);
    }

    assert!(items.len() > 1);

    let file_names: Vec<String> = items.iter().map(|i| i.file_name.clone()).collect();
    assert!(file_names.contains(&"subdir1".to_string()));
    assert!(file_names.contains(&"subdir2".to_string()));
}

#[test]
fn test_push_dir_sorts_and_marks_last() {
    let config = walker_config(5, false, None, None);
    let mut iterator = FileIterator::new(root_item(), &config);
    let root = iterator.pop_next().unwrap();
    assert!(iterator.should_expand(&root));

    let children = vec![
        child("zeta", FileMeta::Dir),
        child("alpha.txt", plain_file()),
        child(".hidden", plain_file()),
        child("mid", FileMeta::Dir),
    ];
    iterator.push_dir(&root, children);

    let mut popped = Vec::new();
    while let Some(item) = iterator.pop_next() {
        popped.push(item);
    }

    // hidden names are gone; the rest pop in ascending name order
    let names: Vec<&str> = popped.iter().map(|i| i.file_name.as_str()).collect();
    assert_eq!(names, vec!["alpha.txt", "mid", "zeta"]);
    // every child sits one level below the root
    assert!(popped.iter().all(|i| i.level == 1));
    // only the name-wise last sibling carries the flag
    let flags: Vec<bool> = popped.iter().map(|i| i.is_last).collect();
    assert_eq!(flags, vec![false, false, true]);
}

#[test]
fn test_push_dir_include_keeps_directories() {
    let config = walker_config(5, false, Some("*.rs"), None);
    let mut iterator = FileIterator::new(root_item(), &config);
    let root = iterator.pop_next().unwrap();

    let children = vec![
        child("lib.rs", plain_file()),
        child("notes.txt", plain_file()),
        child("sub", FileMeta::Dir),
    ];
    iterator.push_dir(&root, children);

    let mut names = Vec::new();
    while let Some(item) = iterator.pop_next() {
        names.push(item.file_name.clone());
    }
    // the pattern drops the non-matching file but never a directory
    assert_eq!(names, vec!["lib.rs".to_string(), "sub".to_string()]);
}

#[test]
fn test_invalid_pattern_is_refused() {
    // an unclosed character class does not compile; a plain glob does
    assert!(GlobPattern::new("a[").is_none());
    assert!(GlobPattern::new("*.rs").is_some());
}
