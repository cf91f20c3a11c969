use species::document::math_blocks;
use species::syntax::MathBlock;

#[test]
fn blocks_follow_math_markers() {
    let doc = "Intro\n\n.. math::\n   \\begin{array}{llll}\n   \\production{type index} & \\typeidx &::=& \\u32 \\\\\n   \\end{array}\n\nText after.\n";
    let blocks = math_blocks(doc);
    assert_eq!(
        blocks,
        vec!["   \\begin{array}{llll}   \\production{type index} & \\typeidx &::=& \\u32 \\\\   \\end{array}".to_string()]
    );
    let (rest, mb) = MathBlock::parser(&blocks[0]).unwrap();
    assert_eq!(rest, "");
    assert_eq!(mb.productions.len(), 1);
}

#[test]
fn unterminated_block_ends_with_the_text() {
    assert_eq!(math_blocks(".. math::\nabc"), vec!["abc".to_string()]);
    assert_eq!(math_blocks(".. math::\na\nb"), vec!["ab".to_string()]);
    assert_eq!(math_blocks(".. math::\na\nb\n"), vec!["ab".to_string()]);
    assert_eq!(math_blocks(".. math::"), vec!["".to_string()]);
    assert_eq!(math_blocks(""), Vec::<String>::new());
}

#[test]
fn crlf_lines_and_several_blocks() {
    let doc = ".. math::\r\nx\r\ny\r\n\r\nz\n.. math:: extra\nw\n\n";
    assert_eq!(math_blocks(doc), vec!["xy".to_string(), "w".to_string()]);
}

#[test]
fn marker_needs_line_start_and_blank_line_closes_immediately() {
    assert_eq!(math_blocks(" .. math::\nx\n\n"), Vec::<String>::new());
    assert_eq!(math_blocks(".. math::\n\nx\n\n"), vec!["".to_string()]);
    assert_eq!(math_blocks(".. math::\n  \n\n"), vec!["".to_string()]);
}

#[test]
fn line_of_blanks_closes_a_block() {
    assert_eq!(math_blocks(".. math::\na\n \t \nb\n"), vec!["a".to_string()]);
    assert_eq!(math_blocks(".. math::\n a\n\n"), vec![" a".to_string()]);
}
