use genco::formatter::Formatter;
use genco::js;
use genco::tokens::Segment;
use genco::tokens::Tokens;

#[test]
fn test_indentation() {
    let mut f = Formatter::new();
    f.indent();
    f.write_str("x");
    f.new_line();
    f.unindent();
    f.write_str("y");
    assert_eq!("  x\ny", f.into_string());
}

#[test]
fn test_indentation_width() {
    let mut f = Formatter::new().with_indentation(4);
    f.indent();
    f.write_str("x");
    assert_eq!("    x", f.into_string());
}

#[test]
fn test_no_indentation_on_blank_line() {
    let mut f = Formatter::new();
    f.indent();
    f.write_str("a");
    f.new_line();
    f.new_line();
    f.write_str("b");
    assert_eq!("  a\n\n  b", f.into_string());
}

#[test]
fn test_blank_line_suppression() {
    let mut f = Formatter::new();
    f.write_str("a");
    f.new_line_unless_empty();
    f.new_line_unless_empty();
    f.write_str("b");
    assert_eq!("a\nb", f.into_string());
}

#[test]
fn test_empty_write_keeps_line_empty() {
    let mut f = Formatter::new();
    f.write_str("a");
    f.new_line();
    f.write_str("");
    f.new_line_unless_empty();
    f.write_str("b");
    assert_eq!("a\nb", f.into_string());
}

#[test]
fn test_escape() {
    let mut t = Tokens::new();
    t.quoted(vec![Segment::Raw(String::from("a\n\t\"\\z"))]);
    let mut f = Formatter::new();
    js::format(&mut f, &t);
    assert_eq!("\"a\\n\\t\\\"\\\\z\"", f.into_string());
}

#[test]
fn test_escape_carriage_return_and_quote() {
    let mut t = Tokens::new();
    t.quoted(vec![Segment::Raw(String::from("a\r'b"))]);
    let mut f = Formatter::new();
    js::format(&mut f, &t);
    assert_eq!("\"a\\r\\'b\"", f.into_string());
}

#[test]
fn test_interpolated_quote() {
    let mut sub = Tokens::new();
    sub.append(String::from("name"));
    let mut t = Tokens::new();
    t.quoted(vec![
        Segment::Raw(String::from("hello ")),
        Segment::Eval(sub),
        Segment::Raw(String::from("!")),
    ]);
    let mut f = Formatter::new();
    js::format(&mut f, &t);
    assert_eq!("`hello ${name}!`", f.into_string());
}

#[test]
fn test_scope_and_layout() {
    let mut inner = Tokens::new();
    inner.push();
    inner.indent();
    inner.push();
    inner.append(String::from("return 42;"));
    inner.unindent();
    let mut t = Tokens::new();
    t.append(String::from("function f() {"));
    t.scope(inner);
    t.push();
    t.append(String::from("}"));
    let mut f = Formatter::new();
    js::format(&mut f, &t);
    assert_eq!("function f() {\n  return 42;\n}", f.into_string());
}
