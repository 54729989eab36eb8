use libks_ini::{
    next_line, trimmed_range, Item, Line, Padding, Padding4, Parser, Prop, Source, Span,
};

fn chars(s: &str) -> Vec<char> {
    s.chars().collect()
}

fn span(s: &str) -> Span {
    Span::owned(s)
}

fn comment(text: &str, before: &str, after: &str) -> Item {
    Item::Comment(span(text), Padding(span(before), span(after)))
}

fn section(key: &str, before: &str, after: &str) -> Item {
    Item::Section(span(key), Padding(span(before), span(after)))
}

fn prop(key: &str, value: &str, p: (&str, &str, &str, &str)) -> Item {
    Item::Property(
        Prop { key: span(key), value: span(value) },
        Padding4(span(p.0), span(p.1), span(p.2), span(p.3)),
    )
}

fn plain(key: &str, value: &str) -> Item {
    prop(key, value, ("", "", "", "\n"))
}

fn items_of(text: &str) -> (Source, Vec<Item>) {
    let source = Source::new(text);
    let items = {
        let mut parser = Parser::new(&source);
        parser.collect_items()
    };
    (source, items)
}

fn assert_items(source: &Source, items: &[Item], truth: &[Item]) {
    let empty = Source::new("");
    assert_eq!(items.len(), truth.len());
    for (got, want) in items.iter().zip(truth.iter()) {
        assert!(
            got.with_source(source).same_as(&want.with_source(&empty)),
            "{:?} differs from {:?}",
            got.with_source(source).to_string(),
            want.with_source(&empty).to_string()
        );
    }
}

fn items_to_string(items: &[Item], source: &Source) -> String {
    items.iter().map(|item| item.with_source(source).to_string()).collect()
}

fn line(start_trimmed: usize, end_trimmed: usize, eq: Option<usize>, end: usize, start_next: usize) -> Line {
    Line { start_trimmed, end_trimmed, eq, end, start_next }
}

#[test]
fn next_line_works_with_newline_only() {
    let s = chars("hello world\r\ngoodbye");
    assert_eq!(next_line(&s, 0), Some(line(0, 11, None, 11, 13)));
}

#[test]
fn next_line_works_with_carriage_return_only() {
    let s = chars("hello world\r\ngoodbye");
    assert_eq!(next_line(&s, 0), Some(line(0, 11, None, 11, 13)));
}

#[test]
fn next_line_works_with_crlf() {
    let s = chars("hello world\r\ngoodbye");
    assert_eq!(next_line(&s, 0), Some(line(0, 11, None, 11, 13)));
}

#[test]
fn next_line_works_at_end_of_string() {
    let s = chars("hello world");
    assert_eq!(next_line(&s, 0), Some(line(0, 11, None, 11, s.len())));
}

#[test]
fn next_line_works_at_end_of_string_with_trailing_newline() {
    let s = chars("hello world\n");
    assert_eq!(next_line(&s, 0), Some(line(0, 11, None, 11, s.len())));
}

#[test]
fn next_line_trims_correctly() {
    let s = chars("    hello world    \ngoodbye");
    assert_eq!(next_line(&s, 0), Some(line(4, 15, None, 19, 20)));
}

#[test]
fn next_line_locates_equal_sign() {
    let s = chars("hello = world\ngoodbye");
    assert_eq!(next_line(&s, 0), Some(line(0, 13, Some(6), 13, 14)));
}

#[test]
fn next_line_reads_later_lines_and_ends() {
    let s = chars("a\rb=c\n");
    assert_eq!(next_line(&s, 2), Some(line(2, 5, Some(3), 5, 6)));
    assert_eq!(next_line(&s, 6), None);
    let bare_cr = chars("x\r");
    assert_eq!(next_line(&bare_cr, 0), Some(line(0, 1, None, 1, 2)));
}

#[test]
fn line_offset_moves_every_position() {
    let moved = line(1, 2, Some(3), 4, 5).offset(10);
    assert_eq!(moved, line(11, 12, Some(13), 14, 15));
    assert_eq!(line(0, 0, None, 0, 1).offset(2), line(2, 2, None, 2, 3));
}

#[test]
fn parser_works() {
    let source = "\
;Hello
[World]
Name=The Machine
Author=Nifflas

[x1000y1000]
ShiftVisible(A)=False
ShiftEffect(A)=False
ShiftSound(A)=None";
    let (src, items) = items_of(source);
    let truth = [
        comment("Hello", "", "\n"),
        section("World", "", "\n"),
        plain("Name", "The Machine"),
        plain("Author", "Nifflas"),
        Item::Blank(span("\n")),
        section("x1000y1000", "", "\n"),
        plain("ShiftVisible(A)", "False"),
        plain("ShiftEffect(A)", "False"),
        prop("ShiftSound(A)", "None", ("", "", "", "")),
    ];
    assert_items(&src, &items, &truth);
    assert_eq!(items_to_string(&items, &src), source);
}

#[test]
fn parser_recognizes_errors() {
    let source = "\
[World] invalid
Name

[x1000y1000
=False";
    let (src, items) = items_of(source);
    let truth = [
        Item::Error(span("[World] invalid\n")),
        Item::Error(span("Name\n")),
        Item::Blank(span("\n")),
        Item::Error(span("[x1000y1000\n")),
        prop("", "False", ("", "", "", "")),
    ];
    assert_items(&src, &items, &truth);
    assert_eq!(items_to_string(&items, &src), source);
}

#[test]
fn parser_handles_whitespace_correctly() {
    let source = "  ;  Hello  
  [World]
  Name=The Machine
Author  =Nifflas
     
[x1000y1000]  
ShiftVisible(A)=  False
ShiftEffect(A)=False  
  ShiftSound(A)  =  None  ";
    let (src, items) = items_of(source);
    let truth = [
        comment("  Hello", "  ", "  \n"),
        section("World", "  ", "\n"),
        prop("Name", "The Machine", ("  ", "", "", "\n")),
        prop("Author", "Nifflas", ("", "  ", "", "\n")),
        Item::Blank(span("     \n")),
        section("x1000y1000", "", "  \n"),
        prop("ShiftVisible(A)", "False", ("", "", "  ", "\n")),
        prop("ShiftEffect(A)", "False", ("", "", "", "  \n")),
        prop("ShiftSound(A)", "None", ("  ", "  ", "  ", "  ")),
    ];
    assert_items(&src, &items, &truth);
    assert_eq!(items_to_string(&items, &src), source);
}

#[test]
fn parser_handles_newlines_correctly() {
    let source = "\
;Hello\r\
[World]\n\
Name=The Machine\r\n\
Author=Nifflas\r     \n\
[x1000y1000]\r\n\
ShiftVisible(A)=False\r\
ShiftEffect(A)=False\n\
ShiftSound(A)=None\r\n\
";
    let (src, items) = items_of(source);
    let truth = [
        comment("Hello", "", "\r"),
        section("World", "", "\n"),
        prop("Name", "The Machine", ("", "", "", "\r\n")),
        prop("Author", "Nifflas", ("", "", "", "\r")),
        Item::Blank(span("     \n")),
        section("x1000y1000", "", "\r\n"),
        prop("ShiftVisible(A)", "False", ("", "", "", "\r")),
        prop("ShiftEffect(A)", "False", ("", "", "", "\n")),
        prop("ShiftSound(A)", "None", ("", "", "", "\r\n")),
    ];
    assert_items(&src, &items, &truth);
    assert_eq!(items_to_string(&items, &src), source);
}

#[test]
fn parser_keeps_unicode_and_lone_brackets() {
    let source = "[Wörld]\nSchlüssel = Wert é\n[\n]\n";
    let (src, items) = items_of(source);
    let truth = [
        section("Wörld", "", "\n"),
        prop("Schlüssel", "Wert é", ("", " ", " ", "\n")),
        Item::Error(span("[\n")),
        Item::Error(span("]\n")),
    ];
    assert_items(&src, &items, &truth);
    assert_eq!(items_to_string(&items, &src), source);
}

#[test]
fn parser_reads_nothing_from_empty_text() {
    let (_src, items) = items_of("");
    assert!(items.is_empty());
}

#[test]
fn trimmed_range_works() {
    let s = "     hello world     ";
    assert_eq!(trimmed_range(s), (5, 16));
}

#[test]
fn trimmed_range_works_with_nothing_to_trim() {
    let s = "hello world";
    assert_eq!(trimmed_range(s), (0, s.len()));
}

#[test]
fn trimmed_range_works_with_pure_whitespace() {
    let s = "     ";
    assert_eq!(trimmed_range(s), (s.len(), s.len()));
}

#[test]
fn trimmed_range_works_with_empty_string() {
    let s = "";
    assert_eq!(trimmed_range(s), (0, 0));
}

#[test]
fn trimmed_range_only_strips_spaces() {
    assert_eq!(trimmed_range("\thi\t"), (0, 4));
    assert_eq!(libks_ini::trimmed_range_start("  ab "), 2);
    assert_eq!(libks_ini::trimmed_range_end("  ab "), 4);
    assert_eq!(libks_ini::trimmed_range_end("   "), 0);
}
