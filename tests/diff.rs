use editcore::diff::compute_diff;

fn lines(s: &[&str]) -> Vec<String> {
    s.iter().map(|l| l.to_string()).collect()
}

#[test]
fn diff_finds_added_deleted_modified() {
    let head = lines(&["a", "b", "c", "d"]);
    let work = lines(&["a", "x", "b", "c", "e"]);
    let d = compute_diff(&head, &work);
    assert_eq!(d.added_lines, vec![1]);
    assert_eq!(d.modified_lines, vec![4]);
    assert!(d.deleted_lines.is_empty());
    let d = compute_diff(&lines(&["a", "b", "c"]), &lines(&["a", "c"]));
    assert_eq!(d.deleted_lines, vec![1]);
    assert!(d.added_lines.is_empty());
}

#[test]
fn diff_of_empty_sides() {
    let d = compute_diff(&lines(&[]), &lines(&["x", "y"]));
    assert_eq!(d.added_lines, vec![0, 1]);
    let d = compute_diff(&lines(&["x"]), &lines(&[]));
    assert_eq!(d.deleted_lines, vec![0]);
    let d = compute_diff(&lines(&["same"]), &lines(&["same"]));
    assert!(d.added_lines.is_empty() && d.deleted_lines.is_empty() && d.modified_lines.is_empty());
}
