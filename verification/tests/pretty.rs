use babble::ast_node::pretty::Printer;
use std::fmt::Write;

#[test]
fn test_string_write() {
    let mut s = String::new();
    s.write_str("tuple").unwrap();
    assert_eq!(s, "tuple");
    s.write_str("a").unwrap();
    assert_eq!(s, "tuplea");

    let mut p = Printer::new(String::new());
    p.write_str("tuple");
    assert_eq!(p.writer, "tuple");
    p.write_str("a");
    assert_eq!(p.writer, "tuplea");
}
