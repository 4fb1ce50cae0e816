use tree_cli::symbol::{format_human_readable_size, set_line_prefix, CRO, END, HOR, SPACE, VER};

#[test]
fn test_format_human_readable_size() {
    assert_eq!(format_human_readable_size(0), "0B");
    assert_eq!(format_human_readable_size(512), "512B");
    assert_eq!(format_human_readable_size(1024), "1.0KB");
    assert_eq!(format_human_readable_size(1536), "1.5KB");
    assert_eq!(format_human_readable_size(1024 * 1024), "1.0MB");
    assert_eq!(format_human_readable_size(1024 * 1024 * 1024), "1.0GB");
    assert_eq!(format_human_readable_size(10 * 1024), "10KB");
    assert_eq!(format_human_readable_size(10240), "10KB");
}

#[test]
fn test_format_size_boundaries() {
    assert_eq!(format_human_readable_size(1023), "1023B");
    assert_eq!(format_human_readable_size(1025), "1.0KB");
    assert_eq!(format_human_readable_size(2048), "2.0KB");
    // 10239 / 1024 is still below ten, so one decimal place is kept
    assert_eq!(format_human_readable_size(10239), "10.0KB");
    // 1048575 / 1024 rounds up to 1024 whole kilobytes
    assert_eq!(format_human_readable_size(1048575), "1024KB");
    // 1280 / 1024 = 1.25: ties round to the even neighbour
    assert_eq!(format_human_readable_size(1280), "1.2KB");
    assert_eq!(format_human_readable_size(1536 * 1024), "1.5MB");
    assert_eq!(format_human_readable_size(1024 * 1024 * 1024 * 1024), "1.0TB");
    assert_eq!(format_human_readable_size(1125899906842624), "1.0PB");
    assert_eq!(format_human_readable_size(u64::MAX), "16384PB");
    // whole-number ties also round to even: 10.5KB down, 11.5KB up
    assert_eq!(format_human_readable_size(10752), "10KB");
    assert_eq!(format_human_readable_size(11776), "12KB");
}

#[test]
fn test_symbol_constants() {
    assert_eq!(HOR, '─');
    assert_eq!(CRO, '├');
    assert_eq!(VER, '│');
    assert_eq!(END, '└');
    assert_eq!(SPACE, ' ');
}

#[test]
fn test_set_line_prefix_empty_list() {
    let symbol_switch_list: Vec<bool> = Vec::new();
    let mut prefix = String::new();
    set_line_prefix(&symbol_switch_list, &mut prefix);
    assert_eq!(prefix, "");
}

#[test]
fn test_set_line_prefix_single_true() {
    let symbol_switch_list = vec![true];
    let mut prefix = String::new();
    set_line_prefix(&symbol_switch_list, &mut prefix);
    assert_eq!(prefix, "├── ");
}

#[test]
fn test_set_line_prefix_single_false() {
    let symbol_switch_list = vec![false];
    let mut prefix = String::new();
    set_line_prefix(&symbol_switch_list, &mut prefix);
    assert_eq!(prefix, "└── ");
}

#[test]
fn test_set_line_prefix_multiple_levels() {
    let symbol_switch_list = vec![true, false, true];
    let mut prefix = String::new();
    set_line_prefix(&symbol_switch_list, &mut prefix);
    assert_eq!(prefix, "│       ├── ");
}

#[test]
fn test_set_line_prefix_mixed_patterns() {
    let patterns = vec![
        (vec![true, true], "│   ├── "),
        (vec![true, false], "│   └── "),
        (vec![false, true], "    ├── "),
        (vec![false, false], "    └── "),
    ];

    for (input, expected) in patterns {
        let mut prefix = String::new();
        set_line_prefix(&input, &mut prefix);
        assert_eq!(prefix, expected, "Failed for input: {:?}", input);
    }
}

#[test]
fn test_complex_tree_structure_prefixes() {
    let test_cases = vec![
        (vec![true, true, true, false], "│   │   │   └── "),
        (vec![false, true, false, true], "    │       ├── "),
        (vec![true, false, false, false], "│           └── "),
        (vec![false], "└── "),
    ];

    for (input, expected) in test_cases {
        let mut prefix = String::new();
        set_line_prefix(&input, &mut prefix);
        assert_eq!(prefix, expected, "Failed for input: {:?}", input);
    }
}

#[test]
fn test_set_line_prefix_reuses_buffer() {
    let mut prefix = String::new();
    set_line_prefix(&[true, true], &mut prefix);
    assert_eq!(prefix, "│   ├── ");
    // a second call with the same states yields the same prefix
    set_line_prefix(&[true, true], &mut prefix);
    assert_eq!(prefix, "│   ├── ");
    // and a shorter state vector fully replaces the old contents
    set_line_prefix(&[false], &mut prefix);
    assert_eq!(prefix, "└── ");
}
