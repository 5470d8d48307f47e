use extstat::extension::extension_of;
use extstat::lines::count_lines;
use extstat::render::{format_name, format_size, to_decimal};
use extstat::walk::{partition_entries, WalkEntry};

#[test]
fn extension_after_last_dot() {
    assert_eq!(extension_of("a.txt"), Some("txt".to_string()));
    assert_eq!(extension_of("archive.tar.gz"), Some("gz".to_string()));
    assert_eq!(extension_of("x.y.z.rs"), Some("rs".to_string()));
}

#[test]
fn extension_absent() {
    assert_eq!(extension_of("Makefile"), None);
    assert_eq!(extension_of("README"), None);
    assert_eq!(extension_of(""), None);
}

#[test]
fn extension_hidden_file() {
    assert_eq!(extension_of(".gitignore"), None);
    assert_eq!(extension_of(".a.b"), Some("b".to_string()));
}

#[test]
fn extension_trailing_dot_is_empty() {
    assert_eq!(extension_of("foo."), Some("".to_string()));
}

#[test]
fn lines_unterminated_tail_counts() {
    assert_eq!(count_lines(&b"a\nb\nc".to_vec()), 3);
}

#[test]
fn lines_terminated() {
    assert_eq!(count_lines(&b"a\nb\n".to_vec()), 2);
}

#[test]
fn lines_empty_and_blank() {
    assert_eq!(count_lines(&Vec::new()), 0);
    assert_eq!(count_lines(&b"\n".to_vec()), 1);
    assert_eq!(count_lines(&b"\n\n".to_vec()), 2);
}

#[test]
fn size_formatting_tiers() {
    assert_eq!(format_size(950), "950");
    assert_eq!(format_size(1500), "1K");
    assert_eq!(format_size(2_500_000), "2M");
    assert_eq!(format_size(3_000_000_000), "3G");
}

#[test]
fn size_formatting_bounds() {
    assert_eq!(format_size(0), "0");
    assert_eq!(format_size(999), "999");
    assert_eq!(format_size(1000), "1K");
    assert_eq!(format_size(999_999), "999K");
    assert_eq!(format_size(1_000_000), "1M");
    assert_eq!(format_size(999_999_999), "999M");
    assert_eq!(format_size(1_000_000_000), "1G");
    assert_eq!(format_size(u64::MAX), "18446744073G");
}

#[test]
fn decimal_rendering() {
    assert_eq!(to_decimal(0), "0");
    assert_eq!(to_decimal(7), "7");
    assert_eq!(to_decimal(1234567), "1234567");
}

#[test]
fn name_rendering() {
    assert_eq!(format_name("txt"), ".txt");
    assert_eq!(format_name(""), ".");
}

#[test]
fn walk_step_partitions_in_order() {
    let entries = vec![
        WalkEntry { path: "src".to_string(), is_dir: true },
        WalkEntry { path: "a.txt".to_string(), is_dir: false },
        WalkEntry { path: "docs".to_string(), is_dir: true },
        WalkEntry { path: "b.md".to_string(), is_dir: false },
    ];
    let (dirs, files) = partition_entries(&entries);
    assert_eq!(dirs, vec!["src".to_string(), "docs".to_string()]);
    assert_eq!(files, vec!["a.txt".to_string(), "b.md".to_string()]);
}

#[test]
fn walk_step_empty_listing() {
    let entries: Vec<WalkEntry> = Vec::new();
    let (dirs, files) = partition_entries(&entries);
    assert!(dirs.is_empty());
    assert!(files.is_empty());
}
