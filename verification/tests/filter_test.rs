use tree_cli::file_iterator::{FileItem, FileMeta};
use tree_cli::filter::FilteredIterator;

fn mk_dir(name: &str, level: usize) -> FileItem {
    FileItem::new(name.to_string(), name.to_string(), FileMeta::Dir, level, false)
}

fn mk_file(name: &str, level: usize) -> FileItem {
    FileItem::new(
        name.to_string(),
        name.to_string(),
        FileMeta::File { size: 4, executable: false },
        level,
        false,
    )
}

#[test]
fn test_filtered_iterator_new() {
    let filtered_iterator = FilteredIterator::new();

    assert!(!filtered_iterator.is_skip());
    assert_eq!(filtered_iterator.cache_len(), 0);
}

#[test]
fn test_skip_filter() {
    let mut filtered_iterator = FilteredIterator::new();

    assert!(!filtered_iterator.is_skip());
    filtered_iterator.skip_filter();
    assert!(filtered_iterator.is_skip());
}

#[test]
fn test_remove_empty_directories_from_cache() {
    let mut filtered_iterator = FilteredIterator::new();

    // two open directories at levels one and two
    assert!(filtered_iterator.process(mk_dir("dir1", 1)).is_empty());
    assert!(filtered_iterator.process(mk_dir("dir2", 2)).is_empty());
    assert_eq!(filtered_iterator.cache_len(), 2);

    // a deeper entry keeps both buffered
    let file_item3 = mk_file("file.txt", 3);
    filtered_iterator.remove_empty_directories_from_cache(&file_item3);
    assert_eq!(filtered_iterator.cache_len(), 2);

    // an entry back at level one discards everything at that level or below
    let file_item4 = mk_dir("dir3", 1);
    filtered_iterator.remove_empty_directories_from_cache(&file_item4);
    assert_eq!(filtered_iterator.cache_len(), 0);
}

#[test]
fn test_filtered_iterator_with_files() {
    let mut filter = FilteredIterator::new();
    let mut items = Vec::new();

    items.extend(filter.process(mk_dir("root", 0)));
    items.extend(filter.process(mk_file("file1.txt", 1)));
    items.extend(filter.process(mk_dir("subdir", 1)));
    items.extend(filter.process(mk_file("file2.txt", 2)));

    assert!(!items.is_empty());

    let dirs: Vec<_> = items.iter().filter(|i| i.is_dir()).collect();
    let files: Vec<_> = items.iter().filter(|i| !i.is_dir()).collect();

    assert!(!dirs.is_empty());
    assert!(!files.is_empty());

    // each directory comes out once, right before the file that proved it
    let names: Vec<&str> = items.iter().map(|i| i.file_name.as_str()).collect();
    assert_eq!(names, vec!["root", "file1.txt", "subdir", "file2.txt"]);
}

#[test]
fn test_filtered_iterator_skip_mode() {
    let mut filter = FilteredIterator::new();
    filter.skip_filter();

    let mut items = Vec::new();
    items.extend(filter.process(mk_dir("root", 0)));
    items.extend(filter.process(mk_dir("empty", 1)));
    items.extend(filter.process(mk_file("file1.txt", 1)));

    // in skip mode every entry passes straight through
    assert!(!items.is_empty());
    assert_eq!(items.len(), 3);
    assert_eq!(filter.cache_len(), 0);
}

#[test]
fn test_filtered_iterator_empty_directory_handling() {
    let mut filter = FilteredIterator::new();
    let mut items = Vec::new();

    items.extend(filter.process(mk_dir("root", 0)));
    items.extend(filter.process(mk_dir("empty_dir", 1)));
    items.extend(filter.process(mk_dir("nonempty_dir", 1)));
    items.extend(filter.process(mk_file("file.txt", 2)));

    let dir_names: Vec<String> = items
        .iter()
        .filter(|i| i.is_dir())
        .map(|i| i.file_name.clone())
        .collect();

    assert!(!dir_names.is_empty());
    // the directory whose subtree yielded no file never comes out
    assert!(!dir_names.contains(&"empty_dir".to_string()));
    assert!(dir_names.contains(&"nonempty_dir".to_string()));
}

#[test]
fn test_filter_discards_unconfirmed_tail() {
    let mut filter = FilteredIterator::new();
    let mut items = Vec::new();

    items.extend(filter.process(mk_dir("root", 0)));
    items.extend(filter.process(mk_dir("a", 1)));
    items.extend(filter.process(mk_dir("b", 2)));

    // nothing confirmed the chain, so nothing has been emitted
    assert!(items.is_empty());
    assert_eq!(filter.cache_len(), 3);

    // the buffer never outgrows the deepest entry seen plus one
    items.extend(filter.process(mk_file("deep.txt", 3)));
    assert_eq!(filter.cache_len(), 0);
    let names: Vec<&str> = items.iter().map(|i| i.file_name.as_str()).collect();
    assert_eq!(names, vec!["root", "a", "b", "deep.txt"]);
}

#[test]
fn test_error_entry_confirms_directories() {
    // an entry whose metadata could not be read counts as a file for the
    // filter: it proves the buffered directories non-empty
    let mut filter = FilteredIterator::new();
    let mut items = Vec::new();

    items.extend(filter.process(mk_dir("root", 0)));
    items.extend(filter.process(mk_dir("sub", 1)));
    items.extend(filter.process(FileItem::new(
        "ghost".to_string(),
        "ghost".to_string(),
        FileMeta::Error,
        2,
        false,
    )));

    let names: Vec<&str> = items.iter().map(|i| i.file_name.as_str()).collect();
    assert_eq!(names, vec!["root", "sub", "ghost"]);
}
