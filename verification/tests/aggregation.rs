use extstat::agg::{aggregate, mode_from_flags, FileRecord, MetricMode};
use extstat::table::Table;

fn rec(name: &str, size: u64, content: &[u8]) -> FileRecord {
    FileRecord { name: name.to_string(), size, content: content.to_vec() }
}

fn rows_of(t: &Table) -> Vec<(String, String)> {
    t.rows()
}

#[test]
fn byte_size_scenario() {
    let records = vec![
        rec("a.txt", 500, b""),
        rec("b.txt", 1500, b""),
        rec("c.md", 200, b""),
        rec("NOTES", 77, b""),
    ];
    let t = aggregate(&records, MetricMode::ByteSize).unwrap();
    assert_eq!(t.get("txt"), Some(2000));
    assert_eq!(t.get("md"), Some(200));
    assert_eq!(t.get("NOTES"), None);
    let rows = rows_of(&t);
    assert_eq!(
        rows,
        vec![
            (".md".to_string(), "200".to_string()),
            (".txt".to_string(), "2K".to_string()),
        ]
    );
}

#[test]
fn file_count_sums_files_with_extension() {
    let records = vec![
        rec("a.txt", 10, b""),
        rec("b.txt", 20, b""),
        rec("c.md", 30, b""),
        rec("Makefile", 40, b""),
    ];
    let t = aggregate(&records, MetricMode::FileCount).unwrap();
    assert_eq!(t.get("txt"), Some(2));
    assert_eq!(t.get("md"), Some(1));
    let rows = rows_of(&t);
    let mut total: u64 = 0;
    for (_, v) in &rows {
        total += v.parse::<u64>().unwrap();
    }
    assert_eq!(total, 3);
}

#[test]
fn line_count_mode_counts_lines() {
    let records = vec![
        rec("a.txt", 5, b"a\nb\nc"),
        rec("b.txt", 4, b"a\nb\n"),
        rec("c.md", 3, b"xyz"),
    ];
    let t = aggregate(&records, MetricMode::LineCount).unwrap();
    assert_eq!(t.get("txt"), Some(5));
    assert_eq!(t.get("md"), Some(1));
}

#[test]
fn no_extension_never_appears() {
    let records = vec![
        rec("Makefile", 100, b"all:\n"),
        rec("README", 50, b"hi"),
        rec(".gitignore", 10, b"target\n"),
    ];
    for mode in [MetricMode::FileCount, MetricMode::ByteSize, MetricMode::LineCount] {
        let t = aggregate(&records, mode).unwrap();
        assert_eq!(t.len(), 0);
        assert!(rows_of(&t).is_empty());
    }
}

#[test]
fn rows_sorted_whatever_the_traversal_order() {
    let forward = vec![
        rec("z.zip", 1, b""),
        rec("a.avi", 2, b""),
        rec("m.md", 3, b""),
        rec("b.avi", 4, b""),
    ];
    let mut backward = forward.iter().map(|r| rec(&r.name, r.size, &r.content)).collect::<Vec<_>>();
    backward.reverse();
    let t1 = aggregate(&forward, MetricMode::ByteSize).unwrap();
    let t2 = aggregate(&backward, MetricMode::ByteSize).unwrap();
    let rows1 = rows_of(&t1);
    let rows2 = rows_of(&t2);
    assert_eq!(rows1, rows2);
    assert_eq!(
        rows1.iter().map(|r| r.0.clone()).collect::<Vec<_>>(),
        vec![".avi".to_string(), ".md".to_string(), ".zip".to_string()]
    );
}

#[test]
fn aggregation_is_idempotent() {
    let records = vec![
        rec("a.txt", 500, b"x\ny\n"),
        rec("b.rs", 1500, b"fn main() {}\n"),
    ];
    let t1 = aggregate(&records, MetricMode::ByteSize).unwrap();
    let t2 = aggregate(&records, MetricMode::ByteSize).unwrap();
    assert_eq!(rows_of(&t1), rows_of(&t2));
}

#[test]
fn empty_input_gives_empty_table() {
    let records: Vec<FileRecord> = Vec::new();
    for mode in [MetricMode::FileCount, MetricMode::ByteSize, MetricMode::LineCount] {
        let t = aggregate(&records, mode).unwrap();
        assert_eq!(t.len(), 0);
        assert!(rows_of(&t).is_empty());
    }
}

#[test]
fn overflow_is_reported() {
    let records = vec![rec("a.bin", u64::MAX, b""), rec("b.bin", 1, b"")];
    assert!(aggregate(&records, MetricMode::ByteSize).is_none());
    assert!(aggregate(&records, MetricMode::FileCount).is_some());
}

#[test]
fn trailing_dot_groups_under_empty_key() {
    let records = vec![rec("foo.", 9, b"")];
    let t = aggregate(&records, MetricMode::ByteSize).unwrap();
    assert_eq!(t.get(""), Some(9));
    assert_eq!(rows_of(&t), vec![(".".to_string(), "9".to_string())]);
}

#[test]
fn mode_selection_precedence() {
    assert_eq!(mode_from_flags(true, true, true), MetricMode::FileCount);
    assert_eq!(mode_from_flags(true, false, false), MetricMode::FileCount);
    assert_eq!(mode_from_flags(false, true, true), MetricMode::ByteSize);
    assert_eq!(mode_from_flags(false, false, true), MetricMode::LineCount);
    assert_eq!(mode_from_flags(false, false, false), MetricMode::ByteSize);
}

#[test]
fn table_add_and_overflow() {
    let mut t = Table::new();
    assert!(t.add("txt", u64::MAX));
    assert!(!t.add("txt", 1));
    assert_eq!(t.get("txt"), Some(u64::MAX));
    assert!(t.add("md", 7));
    assert_eq!(t.get("md"), Some(7));
    assert_eq!(t.len(), 2);
}
