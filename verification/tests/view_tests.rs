use diskmapper::builder::build_tree;
use diskmapper::crawler::FileInfo;
use diskmapper::listing::{child_rows, list_rows, row_compare, rows_by_size, Row, SortKey};
use diskmapper::navigate::{
    can_go_up, can_open, disk_totals, header_click, share_base, size_unit, sized_children,
    tooltip_rows, up_target, SizeUnit, TOOLTIP_ROWS,
};
use diskmapper::order::{flip, number_compare, text_compare};
use diskmapper::paths::{same_text, text_len};
use std::cmp::Ordering;

fn file(path: &str, size: u64, is_dir: bool) -> FileInfo {
    let name = path.rsplit('/').next().unwrap().to_string();
    FileInfo { path: path.to_string(), name, size, is_dir, _mtime: 0 }
}

fn sample() -> diskmapper::tree::Arena {
    let files = vec![
        file("/r/beta", 5, false),
        file("/r/alpha", 9, false),
        file("/r/gamma", 5, false),
        file("/r/dir", 0, true),
        file("/r/dir/inner", 2, false),
        file("/r/empty", 0, true),
        file("/r/zero", 0, false),
    ];
    build_tree("/r", files).0
}

fn names(rows: &[Row]) -> Vec<String> {
    rows.iter().map(|r| r.name.clone()).collect()
}

#[test]
fn child_rows_follow_the_node_order() {
    let arena = sample();
    let rows = child_rows(&arena, 0);
    assert_eq!(names(&rows), vec!["beta", "alpha", "gamma", "dir", "empty", "zero"]);
    assert_eq!(rows[3].size, 2);
    assert!(rows[3].is_dir);
    assert_eq!(rows[3].children, vec![5]);
}

#[test]
fn list_rows_by_size_descending_keeps_ties_in_order() {
    let arena = sample();
    let rows = list_rows(&arena, 0, 2, true);
    assert_eq!(names(&rows), vec!["alpha", "beta", "gamma", "dir", "empty", "zero"]);
}

#[test]
fn list_rows_by_size_ascending() {
    let arena = sample();
    let rows = list_rows(&arena, 0, 1, false);
    assert_eq!(names(&rows), vec!["empty", "zero", "dir", "beta", "gamma", "alpha"]);
}

#[test]
fn list_rows_by_name() {
    let arena = sample();
    let up = list_rows(&arena, 0, 0, false);
    assert_eq!(names(&up), vec!["alpha", "beta", "dir", "empty", "gamma", "zero"]);
    let down = list_rows(&arena, 0, 0, true);
    assert_eq!(names(&down), vec!["zero", "gamma", "empty", "dir", "beta", "alpha"]);
}

#[test]
fn rows_by_size_is_largest_first() {
    let arena = sample();
    let rows = rows_by_size(&arena, 0);
    assert_eq!(names(&rows), vec!["alpha", "beta", "gamma", "dir", "empty", "zero"]);
    let inner = rows_by_size(&arena, 4);
    assert_eq!(names(&inner), vec!["inner"]);
}

#[test]
fn row_compare_orders_by_bytes_and_size() {
    let a = Row { id: 1, name: "a".to_string(), size: 3, is_dir: false, children: vec![] };
    let b = Row { id: 2, name: "B".to_string(), size: 3, is_dir: false, children: vec![] };
    assert_eq!(row_compare(&a, &b, SortKey::Name, false), Ordering::Greater);
    assert_eq!(row_compare(&a, &b, SortKey::Name, true), Ordering::Less);
    assert_eq!(row_compare(&a, &b, SortKey::Size, false), Ordering::Equal);
}

#[test]
fn row_compare_by_entry_count() {
    let a = Row { id: 1, name: "a".to_string(), size: 9, is_dir: true, children: vec![4] };
    let b = Row { id: 2, name: "b".to_string(), size: 1, is_dir: true, children: vec![5, 6] };
    assert_eq!(row_compare(&a, &b, SortKey::Files, false), Ordering::Less);
    assert_eq!(row_compare(&a, &b, SortKey::Files, true), Ordering::Greater);
    assert_eq!(row_compare(&a, &b, SortKey::Size, false), Ordering::Greater);
    assert_eq!(row_compare(&a, &a, SortKey::Files, false), Ordering::Equal);
}

#[test]
fn list_rows_by_entry_count() {
    let arena = sample();
    let down = list_rows(&arena, 0, 3, true);
    assert_eq!(names(&down), vec!["dir", "beta", "alpha", "gamma", "empty", "zero"]);
    let up = list_rows(&arena, 0, 3, false);
    assert_eq!(names(&up), vec!["beta", "alpha", "gamma", "empty", "zero", "dir"]);
}

#[test]
fn tooltip_lists_at_most_eight() {
    let mut files = Vec::new();
    for i in 0..11u64 {
        files.push(file(&format!("/r/f{}", i), i + 1, false));
    }
    let (arena, _) = build_tree("/r", files);
    let (rows, hidden) = tooltip_rows(&arena, 0);
    assert_eq!(rows.len(), TOOLTIP_ROWS);
    assert_eq!(hidden, 3);
    assert_eq!(rows[0].name, "f10");
    assert_eq!(rows[7].name, "f3");
    let small = sample();
    let (rows, hidden) = tooltip_rows(&small, 4);
    assert_eq!(rows.len(), 1);
    assert_eq!(hidden, 0);
}

#[test]
fn sized_children_drop_empty_ones() {
    let arena = sample();
    let kids = sized_children(&arena, 0);
    assert_eq!(kids, vec![(1, 5), (2, 9), (3, 5), (4, 2)]);
}

#[test]
fn opening_and_going_up() {
    let arena = sample();
    assert!(can_open(&arena, 0));
    assert!(can_open(&arena, 4));
    assert!(!can_open(&arena, 6));
    assert!(!can_open(&arena, 1));
    assert!(!can_go_up(&arena, None));
    assert!(!can_go_up(&arena, Some(0)));
    assert!(can_go_up(&arena, Some(5)));
    assert_eq!(up_target(&arena, Some(5)), Some(4));
    assert_eq!(up_target(&arena, Some(4)), Some(0));
    assert_eq!(up_target(&arena, Some(0)), None);
    assert_eq!(up_target(&arena, None), None);
}

#[test]
fn header_click_twice_restores_order() {
    assert_eq!(header_click(2, true, 2), (2, false));
    assert_eq!(header_click(2, false, 2), (2, true));
    assert_eq!(header_click(2, false, 0), (0, true));
    let (c, d) = header_click(1, true, 1);
    assert_eq!(header_click(c, d, 1), (1, true));
}

#[test]
fn share_base_never_zero() {
    assert_eq!(share_base(0), 1);
    assert_eq!(share_base(1), 1);
    assert_eq!(share_base(512), 512);
}

#[test]
fn size_units() {
    assert_eq!(size_unit(0), SizeUnit::Bytes);
    assert_eq!(size_unit(1023), SizeUnit::Bytes);
    assert_eq!(size_unit(1024), SizeUnit::Kilobytes);
    assert_eq!(size_unit((1 << 20) - 1), SizeUnit::Kilobytes);
    assert_eq!(size_unit(1 << 20), SizeUnit::Megabytes);
    assert_eq!(size_unit(1 << 30), SizeUnit::Gigabytes);
    assert_eq!(size_unit(u64::MAX), SizeUnit::Gigabytes);
}

#[test]
fn disk_totals_from_blocks() {
    assert_eq!(disk_totals(100, 40, 4096), (60 * 4096, 100 * 4096));
    assert_eq!(disk_totals(10, 20, 2), (0, 20));
    assert_eq!(disk_totals(0, 0, 4096), (0, 0));
}

#[test]
fn text_order_is_byte_order() {
    assert_eq!(text_compare("a", "b"), Ordering::Less);
    assert_eq!(text_compare("ab", "a"), Ordering::Greater);
    assert_eq!(text_compare("", ""), Ordering::Equal);
    assert_eq!(text_compare("Z", "a"), Ordering::Less);
    assert_eq!(text_compare("é", "z"), Ordering::Greater);
    assert_eq!(number_compare(3, 3), Ordering::Equal);
    assert_eq!(number_compare(2, 3), Ordering::Less);
    assert_eq!(flip(Ordering::Less), Ordering::Greater);
    assert_eq!(flip(Ordering::Equal), Ordering::Equal);
}

#[test]
fn text_helpers() {
    assert!(same_text("/r/a", "/r/a"));
    assert!(!same_text("/r/a", "/r/b"));
    assert!(!same_text("/r", "/r/"));
    assert_eq!(text_len("é"), 2);
    assert_eq!(text_len(""), 0);
}


#[test]
fn row_order_turns_around_with_its_arguments() {
    let rows = [
        Row { id: 1, name: "b".to_string(), size: 1, is_dir: false, children: vec![] },
        Row { id: 2, name: "ab".to_string(), size: 7, is_dir: true, children: vec![3] },
        Row { id: 3, name: "b".to_string(), size: 7, is_dir: false, children: vec![] },
    ];
    for a in rows.iter() {
        for b in rows.iter() {
            for key in [SortKey::Name, SortKey::Size, SortKey::Files] {
                for desc in [false, true] {
                    assert_eq!(row_compare(a, b, key, desc), row_compare(b, a, key, desc).reverse());
                }
            }
        }
        assert_eq!(row_compare(a, a, SortKey::Name, true), Ordering::Equal);
        assert_eq!(row_compare(a, a, SortKey::Files, false), Ordering::Equal);
    }
}
