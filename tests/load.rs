use translator::dict::DictError;
use translator::load::{dict_from_src, dict_from_src_dst, skip_comment_lines};
use translator::translation::Translation;

#[test]
fn skip_comment_lines_drops_leading_comments() {
    assert_eq!(skip_comment_lines("# a\n# b\nx\ty\r\nz\tw\n"), "x\ty\nz\tw");
    assert_eq!(skip_comment_lines("x\n# kept\ny"), "x\n# kept\ny");
    assert_eq!(skip_comment_lines("# only\n# comments"), "");
    assert_eq!(skip_comment_lines("#not a comment\n"), "#not a comment");
    assert_eq!(skip_comment_lines("a\n\nb\n\n"), "a\n\nb\n");
    assert_eq!(skip_comment_lines(""), "");
}

#[test]
fn dict_from_src_skips_comments() {
    let d = dict_from_src("# header\nA\tB\t1\tOpen\n").unwrap();
    assert_eq!(d.len(), 1);
    assert_eq!(d.get(&Translation::parse("Open").unwrap()), Some(&None));
}

#[test]
fn dict_from_src_dst_joins() {
    let d = dict_from_src_dst("# s\nA\tB\t1\tOpen\n", "# d\r\nA\tB\t1\tOuvrir\r\n").unwrap();
    assert_eq!(
        d.get(&Translation::parse("Open").unwrap()),
        Some(&Some(Translation::parse("Ouvrir").unwrap()))
    );
}

#[test]
fn dict_from_src_reports_record_after_comments() {
    let err = dict_from_src("# header\nA\tB\t1\tOk\nA\tB\t2\t{:").err();
    assert_eq!(err, Some(DictError::Parse(Some(1))));
}
