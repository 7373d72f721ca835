use shuffle_lines::line::CopyLine;

#[test]
fn copies_each_line_with_its_newline() {
    let source: &[u8] = b"a\nbb\nccc\n";
    let mut copier = CopyLine::new();
    let mut target: Vec<u8> = Vec::new();
    copier.copy_line(2, source, &mut target);
    assert_eq!(target, b"bb\n".to_vec());
    copier.copy_line(0, source, &mut target);
    assert_eq!(target, b"bb\na\n".to_vec());
    copier.copy_line(5, source, &mut target);
    assert_eq!(target, b"bb\na\nccc\n".to_vec());
}

#[test]
fn offset_at_end_copies_nothing() {
    let source: &[u8] = b"a\nb\n";
    let mut copier = CopyLine::new();
    let mut target: Vec<u8> = b"kept".to_vec();
    copier.copy_line(4, source, &mut target);
    assert_eq!(target, b"kept".to_vec());
}

#[test]
fn offset_past_end_copies_nothing() {
    let source: &[u8] = b"a\nb\n";
    let mut copier = CopyLine::new();
    let mut target: Vec<u8> = Vec::new();
    copier.copy_line(5, source, &mut target);
    copier.copy_line(u64::MAX, source, &mut target);
    assert!(target.is_empty());
}

#[test]
fn empty_source_copies_nothing() {
    let mut copier = CopyLine::new();
    let mut target: Vec<u8> = Vec::new();
    copier.copy_line(0, b"", &mut target);
    assert!(target.is_empty());
}

#[test]
fn unterminated_last_line_runs_to_the_end() {
    let source: &[u8] = b"ab\ncd";
    let mut copier = CopyLine::new();
    let mut target: Vec<u8> = Vec::new();
    copier.copy_line(3, source, &mut target);
    assert_eq!(target, b"cd".to_vec());
}

#[test]
fn empty_line_is_its_newline() {
    let source: &[u8] = b"a\n\nb\n";
    let mut copier = CopyLine::new();
    let mut target: Vec<u8> = Vec::new();
    copier.copy_line(2, source, &mut target);
    assert_eq!(target, b"\n".to_vec());
}

#[test]
fn offset_inside_a_line_copies_its_rest() {
    let source: &[u8] = b"hello\nworld\n";
    let mut copier = CopyLine::new();
    let mut target: Vec<u8> = Vec::new();
    copier.copy_line(3, source, &mut target);
    assert_eq!(target, b"lo\n".to_vec());
}

#[test]
fn buffer_is_cleared_between_copies() {
    let source: &[u8] = b"long line here\nx\n";
    let mut copier = CopyLine::new();
    let mut first: Vec<u8> = Vec::new();
    let mut second: Vec<u8> = Vec::new();
    copier.copy_line(0, source, &mut first);
    copier.copy_line(15, source, &mut second);
    assert_eq!(first, b"long line here\n".to_vec());
    assert_eq!(second, b"x\n".to_vec());
}
