use chromaprint_matcher::batch::split_batches;

fn strings(v: &[&str]) -> Vec<String> {
    v.iter().map(|s| s.to_string()).collect()
}

#[test]
fn lines_split_at_first_blank_line() {
    let lines = strings(&["180 a", "200 b", "", "181 c", "", "190 d"]);
    let (dst, src) = split_batches(&lines);
    assert_eq!(dst, strings(&["180 a", "200 b"]));
    assert_eq!(src, strings(&["181 c", "190 d"]));
}

#[test]
fn without_blank_line_all_lines_are_destinations() {
    let lines = strings(&["180 a", "200 b"]);
    let (dst, src) = split_batches(&lines);
    assert_eq!(dst, lines);
    assert!(src.is_empty());
}

#[test]
fn leading_blank_line_leaves_no_destinations() {
    let lines = strings(&["", "181 c"]);
    let (dst, src) = split_batches(&lines);
    assert!(dst.is_empty());
    assert_eq!(src, strings(&["181 c"]));
    let (dst, src) = split_batches(&Vec::new());
    assert!(dst.is_empty() && src.is_empty());
}
