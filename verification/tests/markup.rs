use nltk_test::markup::{
    classify_tag, close_tag, open_tag, read_text, resolve_text, scan_text, Flags, Tag, Unescaped,
};
use nltk_test::{line_paragraphs, normalize_markup, parse_quick_xml, AccState, TextAccumulator};

fn parsed(input: &str) -> TextAccumulator {
    let mut acc = TextAccumulator::new();
    parse_quick_xml(input, &mut acc);
    acc
}

#[test]
fn html_paragraphs_become_paragraphs() {
    let acc = parsed("x<html><p>a</p><p>b</p></html>");
    assert_eq!(acc.text(), "\nx\na\nb");
    assert_eq!(acc.offsets(), &vec![1, 5]);
    assert_eq!(acc.splits(), vec!["x\na", "b"]);
    assert_eq!(acc.state(), AccState::Para);
}

#[test]
fn text_inside_html_is_normalized() {
    let acc = parsed("x<html><p>Hello  world.</p><p>Second   para.</p></html>");
    assert_eq!(acc.splits(), vec!["x\nHello world.", "Second para."]);
}

#[test]
fn markup_that_starts_with_a_tag_starts_with_empty_text() {
    let acc = parsed("<html><p>Hello  world.</p><p>Second   para.</p></html>");
    assert_eq!(acc.text(), "\n\nHello world.\nSecond para.");
    assert_eq!(acc.offsets(), &vec![1, 15]);
    assert_eq!(acc.splits(), vec!["\nHello world.", "Second para."]);
    assert_eq!(acc.state(), AccState::Para);
}

#[test]
fn text_outside_html_is_written_as_it_stands() {
    let acc = parsed("<doc>Hello  world.</doc>");
    assert_eq!(acc.text(), "\n Hello  world.");
    assert_eq!(acc.offsets(), &vec![1]);
    assert_eq!(acc.state(), AccState::Break);
}

#[test]
fn upper_case_tags_count_too() {
    let acc = parsed("x<HTML><P>a  b</P><P>c</P></HTML>");
    assert_eq!(acc.text(), "\nx\na b\nc");
    assert_eq!(acc.offsets(), &vec![1, 7]);
    assert_eq!(acc.splits(), vec!["x\na b", "c"]);
}

#[test]
fn two_line_breaks_are_one_break() {
    let acc = parsed("x<html>a<br><br>b</html>");
    assert_eq!(acc.text(), "\nx a\nb");
    assert_eq!(acc.offsets(), &vec![1]);
    assert_eq!(acc.state(), AccState::Break);
}

#[test]
fn table_cells_are_separated() {
    let acc = parsed("x<html><tr><td>a</td><td>b</td></tr></html>");
    assert_eq!(acc.text(), "\nx\na | b");
    assert_eq!(acc.offsets(), &vec![1]);
    assert_eq!(acc.state(), AccState::Para);
    let acc = parsed("x<html><table><tr><td>a</td><td>b  c</td></tr><tr><td>d</td></tr></table></html>");
    assert_eq!(acc.text(), "\nx\na | b c\nd");
}

#[test]
fn division_inside_a_cell_is_no_break() {
    let acc = parsed("x<html><td>a<div>b</div>c</td>d<div>e</div>f</html>");
    assert_eq!(acc.text(), "\nx a b c | d\ne\nf");
}

#[test]
fn line_break_tag_breaks_where_it_opens() {
    let acc = parsed("x<html>a<br>b</br>c</html>");
    assert_eq!(acc.text(), "\nx a\nb c");
}

#[test]
fn escaped_markup_is_scanned_as_markup() {
    let acc = parsed("x<doc>&lt;html&gt;&lt;p&gt;A  a&lt;/p&gt;&lt;p&gt;B&lt;/p&gt;&lt;/html&gt;</doc>");
    assert_eq!(acc.text(), "\nx \nA a\nB");
    assert_eq!(acc.offsets(), &vec![1, 8]);
    assert_eq!(acc.splits(), vec!["x \nA a", "B"]);
}

#[test]
fn resolved_text_is_written_as_it_stands() {
    let acc = parsed("x<doc>caf&#233;  &#x20AC;5</doc>");
    assert_eq!(acc.text(), "\nx café  €5");
}

#[test]
fn resolved_text_that_is_no_markup_is_passed_over() {
    let acc = parsed("x<html><p>fish &amp; chips</p><p>tea</p></html>");
    assert_eq!(acc.text(), "\nx\ntea");
    assert_eq!(acc.splits(), vec!["x", "tea"]);
}

#[test]
fn text_with_an_unknown_escape_is_passed_over() {
    let acc = parsed("x<html><p>good</p><p>bad &nosuch; text</p><p>more</p></html>");
    assert_eq!(acc.splits(), vec!["x\ngood", "more"]);
}

#[test]
fn payload_is_passed_over() {
    let acc = parsed("x<html><p>before</p><p>\nbegin 644 file.bin\nM1234\n</p><p>after</p></html>");
    assert_eq!(acc.splits(), vec!["x\nbefore", "after"]);
}

#[test]
fn scanning_stops_at_markup_that_cannot_be_read() {
    let acc = parsed("x<html><p>kept</p><!bad><p>lost</p></html>");
    assert_eq!(acc.text(), "\nx\nkept");
}

#[test]
fn empty_markup_leaves_the_accumulator_empty() {
    let acc = parsed("");
    assert_eq!(acc.text(), "");
    assert_eq!(acc.state(), AccState::Para);
}

#[test]
fn documents_follow_each_other_in_one_accumulator() {
    let mut acc = TextAccumulator::new();
    parse_quick_xml("x<html><p>one</p></html>", &mut acc);
    parse_quick_xml("y<html><p>two</p></html>", &mut acc);
    assert_eq!(acc.text(), "\nx\none\ny\ntwo");
    assert_eq!(acc.splits(), vec!["x\none", "y\ntwo"]);
}

#[test]
fn tags_are_known_by_name() {
    assert_eq!(classify_tag(b"br"), Tag::LineBreak);
    assert_eq!(classify_tag(b"BR"), Tag::LineBreak);
    assert_eq!(classify_tag(b"tr"), Tag::Row);
    assert_eq!(classify_tag(b"TR"), Tag::Row);
    assert_eq!(classify_tag(b"p"), Tag::Block);
    assert_eq!(classify_tag(b"P"), Tag::Block);
    assert_eq!(classify_tag(b"title"), Tag::Block);
    assert_eq!(classify_tag(b"TITLE"), Tag::Block);
    assert_eq!(classify_tag(b"div"), Tag::Division);
    assert_eq!(classify_tag(b"DIV"), Tag::Division);
    assert_eq!(classify_tag(b"html"), Tag::Html);
    assert_eq!(classify_tag(b"HTML"), Tag::Html);
    assert_eq!(classify_tag(b"td"), Tag::Cell);
    assert_eq!(classify_tag(b"TD"), Tag::Cell);
    assert_eq!(classify_tag(b"Br"), Tag::Other);
    assert_eq!(classify_tag(b"Title"), Tag::Other);
    assert_eq!(classify_tag(b"b"), Tag::Other);
    assert_eq!(classify_tag(b"pp"), Tag::Other);
    assert_eq!(classify_tag(b""), Tag::Other);
    assert_eq!(classify_tag(b"span"), Tag::Other);
}

#[test]
fn opening_tags_act_on_the_accumulator() {
    let mut acc = TextAccumulator::new();
    let mut flags = Flags { in_html: false, in_cell: false };
    acc.push('a');
    open_tag(&mut acc, &mut flags, Tag::LineBreak);
    assert_eq!(acc.state(), AccState::Break);
    acc.push('b');
    open_tag(&mut acc, &mut flags, Tag::Row);
    assert_eq!(acc.state(), AccState::Break);
    acc.push('c');
    open_tag(&mut acc, &mut flags, Tag::Block);
    assert_eq!(acc.state(), AccState::Break);
    open_tag(&mut acc, &mut flags, Tag::Division);
    assert_eq!(acc.state(), AccState::Para);
    acc.push('d');
    open_tag(&mut acc, &mut flags, Tag::Other);
    assert_eq!(acc.state(), AccState::Word);
    open_tag(&mut acc, &mut flags, Tag::Html);
    assert_eq!(flags, Flags { in_html: true, in_cell: false });
    open_tag(&mut acc, &mut flags, Tag::Cell);
    assert_eq!(flags, Flags { in_html: true, in_cell: true });
    open_tag(&mut acc, &mut flags, Tag::Division);
    assert_eq!(acc.state(), AccState::Word);
    assert_eq!(acc.text(), "\na\nb\nc\nd");
}

#[test]
fn closing_tags_act_on_the_accumulator() {
    let mut acc = TextAccumulator::new();
    let mut flags = Flags { in_html: true, in_cell: true };
    acc.push('a');
    close_tag(&mut acc, &mut flags, Tag::LineBreak);
    assert_eq!(acc.state(), AccState::Word);
    close_tag(&mut acc, &mut flags, Tag::Division);
    assert_eq!(acc.state(), AccState::Word);
    close_tag(&mut acc, &mut flags, Tag::Cell);
    assert_eq!(acc.state(), AccState::CellSep);
    assert_eq!(flags, Flags { in_html: true, in_cell: false });
    close_tag(&mut acc, &mut flags, Tag::Html);
    assert_eq!(flags, Flags { in_html: false, in_cell: false });
    acc.push('b');
    close_tag(&mut acc, &mut flags, Tag::Row);
    assert_eq!(acc.state(), AccState::Break);
    acc.push('c');
    close_tag(&mut acc, &mut flags, Tag::Division);
    assert_eq!(acc.state(), AccState::Break);
    close_tag(&mut acc, &mut flags, Tag::Block);
    assert_eq!(acc.state(), AccState::Para);
    close_tag(&mut acc, &mut flags, Tag::Other);
    assert_eq!(acc.state(), AccState::Para);
    assert_eq!(acc.text(), "\na | b\nc");
}

#[test]
fn text_is_set_off_by_white_space() {
    let mut acc = TextAccumulator::new();
    acc.push('a');
    read_text(&mut acc, true, "b  c");
    read_text(&mut acc, false, "d  e");
    acc.push('f');
    assert_eq!(acc.text(), "\na b c d  e f");
}

#[test]
fn resolved_text_is_taken_by_its_outcome() {
    let mut acc = TextAccumulator::new();
    acc.push('a');
    resolve_text(&mut acc, true, b"x  y", &Unescaped::Plain, 100);
    assert_eq!(acc.text(), "\na x y");
    resolve_text(&mut acc, true, b"skipped", &Unescaped::Malformed, 100);
    assert_eq!(acc.text(), "\na x y");
    resolve_text(&mut acc, true, b"\xff\xfe", &Unescaped::Plain, 100);
    assert_eq!(acc.text(), "\na x y");
    resolve_text(&mut acc, true, b"", &Unescaped::Unescaped(vec![0xc3]), 100);
    assert_eq!(acc.text(), "\na x y");
    let nested = b"n<html><p>n  m</p></html>".to_vec();
    resolve_text(&mut acc, false, b"", &Unescaped::Unescaped(nested.clone()), 100);
    assert_eq!(acc.text(), "\na x y n\nn m");
    assert_eq!(acc.state(), AccState::Para);
    resolve_text(&mut acc, false, b"", &Unescaped::Unescaped(nested), 25);
    assert_eq!(acc.text(), "\na x y n\nn m\nn<html><p>n  m</p></html>");
    assert_eq!(acc.state(), AccState::Space);
}

#[test]
fn character_data_is_resolved_and_taken() {
    let mut acc = TextAccumulator::new();
    scan_text(&mut acc, true, b"x &#233;&#x20AC; y", 100);
    assert_eq!(acc.text(), "\nx é€ y");
    assert_eq!(acc.state(), AccState::Break);
    scan_text(&mut acc, true, b"\nbegin 644 f\nM", 100);
    assert_eq!(acc.text(), "\nx é€ y");
    scan_text(&mut acc, true, b"\nbegin  64", 100);
    assert_eq!(acc.text(), "\nx é€ y\nbegin 64");
    assert_eq!(acc.state(), AccState::Space);
    scan_text(&mut acc, true, b"broken &amp", 100);
    assert_eq!(acc.text(), "\nx é€ y\nbegin 64");
    scan_text(&mut acc, false, b"raw  text", 100);
    assert_eq!(acc.text(), "\nx é€ y\nbegin 64 raw  text");
}

#[test]
fn plain_text_has_a_newline_after_each_paragraph() {
    let cleaned = normalize_markup("x<html><p>one  1</p><p>two<br>2</p><p>three</p></html>");
    assert_eq!(cleaned.text, "x\none 1\ntwo\n2\nthree\n");
    assert_eq!(cleaned.bytes, 20);
    assert_eq!(cleaned.passed, 0);
    let cleaned = normalize_markup("");
    assert_eq!(cleaned.text, "\n");
    assert_eq!(cleaned.bytes, 0);
    assert_eq!(cleaned.passed, 0);
    let cleaned = normalize_markup("caf&eacute;");
    assert_eq!(cleaned.bytes, 0);
    assert_eq!(cleaned.passed, 1);
    let cleaned = normalize_markup("é");
    assert_eq!(cleaned.text, "é\n");
    assert_eq!(cleaned.bytes, 3);
}

#[test]
fn paragraphs_are_lined_up() {
    assert_eq!(line_paragraphs(&vec![]), "");
    assert_eq!(line_paragraphs(&vec!["a"]), "a\n");
    assert_eq!(line_paragraphs(&vec!["a", "", "b c"]), "a\n\nb c\n");
}

#[test]
fn fragments_passed_over_are_counted() {
    let mut acc = TextAccumulator::new();
    assert_eq!(parse_quick_xml("<html><p>fine</p></html>", &mut acc), 0);
    assert_eq!(parse_quick_xml("<p>bad &nosuch; escape</p>", &mut acc), 1);
    assert_eq!(parse_quick_xml("<p>\nbegin 644 f\nM</p><p>open &amp</p>", &mut acc), 2);
    assert_eq!(parse_quick_xml("<p>kept</p><!bad><p>lost</p>", &mut acc), 1);
    assert_eq!(parse_quick_xml("<p>&lt;p&gt;in &nosuch; here&lt;/p&gt;</p>", &mut acc), 1);
    assert_eq!(parse_quick_xml("<p>fish &amp; chips</p>", &mut acc), 1);
    assert_eq!(scan_text(&mut acc, true, b"fine", 100), 0);
    assert_eq!(scan_text(&mut acc, true, b"\xff", 100), 1);
    assert_eq!(scan_text(&mut acc, true, b"\nbegin 644 x", 100), 1);
    assert_eq!(resolve_text(&mut acc, true, b"fine", &Unescaped::Plain, 100), 0);
    assert_eq!(resolve_text(&mut acc, true, b"fine", &Unescaped::Malformed, 100), 1);
    assert_eq!(resolve_text(&mut acc, true, b"", &Unescaped::Unescaped(vec![0x80]), 100), 1);
    assert_eq!(resolve_text(&mut acc, true, b"", &Unescaped::Unescaped(b"a &x; b".to_vec()), 100), 1);
    assert_eq!(resolve_text(&mut acc, true, b"", &Unescaped::Unescaped(b"a &x; b".to_vec()), 7), 0);
}

#[test]
fn unterminated_tag_loses_no_text() {
    let mut acc = TextAccumulator::new();
    let passed = parse_quick_xml("x<html><p>abc</p><p>def<b", &mut acc);
    assert_eq!(acc.splits(), vec!["x\nabc", "def"]);
    assert_eq!(passed, 0);
    assert_eq!(acc.state(), AccState::Break);
    let passed = parse_quick_xml("x<html>ghi<br", &mut acc);
    assert_eq!(acc.splits(), vec!["x\nabc", "def\nx ghi"]);
    assert_eq!(passed, 0);
    assert_eq!(acc.state(), AccState::Para);
}

#[test]
fn stray_closing_tags_are_taken_as_they_come() {
    let acc = parsed("x<html>a</p>b</td>c</html></html>d");
    assert_eq!(acc.text(), "\nx a\nb | c  d");
}
