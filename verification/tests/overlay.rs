use nltk_test::document::find_fault;
use nltk_test::order::{ranks, span_before};
use nltk_test::overlay::render_paragraph;
use nltk_test::{
    merge, merge_paragraphs, render_document, split_paragraphs, Match, RenderError, HEAD, TAIL,
};
use std::borrow::Cow;

fn span(start: usize, end: usize, label: &'static str, text: &'static str) -> Match<'static> {
    Match { span: (start, end), label, text: Cow::Borrowed(text) }
}

fn label(source: usize, text: &str, label: &str) -> String {
    format!("<div class=\"label\" input=\"{}\" title=\"{}\">{}</div>", source, text, label)
}

fn rendered(plain: &str, matches: &[Vec<Vec<Match>>]) -> Result<String, RenderError> {
    let mut out = String::new();
    merge(plain, matches, &mut out)?;
    Ok(out)
}

#[test]
fn overlapping_spans_of_two_sources_make_three_regions() {
    let matches = vec![
        vec![vec![span(0, 5, "A", "abcde")]],
        vec![vec![span(3, 8, "B", "defgh")]],
    ];
    let expected = format!(
        "<p>{}<span class=\"i1\">abc</span>{}<span class=\"i1 i2\">de</span><span class=\"i2\">fgh</span></p>\n",
        label(1, "abcde", "A"),
        label(2, "defgh", "B"),
    );
    assert_eq!(rendered("abcdefgh", &matches), Ok(expected));
}

#[test]
fn three_sources_nest() {
    let matches = vec![
        vec![vec![span(0, 3, "x", "abc")]],
        vec![vec![span(0, 3, "y", "abc")]],
        vec![vec![span(1, 2, "z", "b")]],
    ];
    let expected = format!(
        "<p>{}{}<span class=\"i1 i2\">a</span>{}<span class=\"i1 i2 i3\">b</span><span class=\"i1 i2\">c</span>d</p>\n",
        label(1, "abc", "x"),
        label(2, "abc", "y"),
        label(3, "b", "z"),
    );
    assert_eq!(rendered("abcd", &matches), Ok(expected));
}

#[test]
fn zero_length_span_is_refused() {
    let matches = vec![vec![vec![span(4, 4, "empty", "")]]];
    let mut out = String::from("before");
    assert_eq!(merge("abcdefgh", &matches, &mut out), Err(RenderError::EmptySpan));
    assert_eq!(out, "before");
    assert_eq!(render_document("abcdefgh", &matches), Err(RenderError::EmptySpan));
}

#[test]
fn span_that_runs_backwards_is_refused() {
    let matches = vec![vec![vec![span(5, 2, "back", "")]]];
    assert_eq!(rendered("abcdefgh", &matches), Err(RenderError::EmptySpan));
}

#[test]
fn span_beyond_the_text_is_refused() {
    let matches = vec![vec![vec![span(2, 9, "long", "")]]];
    let mut out = String::from("before");
    assert_eq!(merge("abcdefgh", &matches, &mut out), Err(RenderError::SpanOutOfText));
    assert_eq!(out, "before");
    let fits = vec![vec![vec![span(2, 8, "fits", "")]]];
    assert!(rendered("abcdefgh", &fits).is_ok());
}

#[test]
fn span_is_measured_in_characters() {
    let inside = vec![vec![vec![span(0, 3, "l", "t")]]];
    assert!(rendered("é€😀", &inside).is_ok());
    let outside = vec![vec![vec![span(0, 4, "l", "t")]]];
    assert_eq!(rendered("é€😀", &outside), Err(RenderError::SpanOutOfText));
}

#[test]
fn source_without_a_list_for_a_paragraph_is_refused() {
    let matches = vec![vec![vec![span(0, 1, "a", "a")], vec![]], vec![vec![]]];
    let mut out = String::from("before");
    assert_eq!(merge("ab\n\ncd", &matches, &mut out), Err(RenderError::MissingParagraph));
    assert_eq!(out, "before");
}

#[test]
fn missing_list_comes_before_other_faults() {
    let matches = vec![vec![vec![span(4, 4, "a", "a")]], vec![]];
    assert_eq!(rendered("ab", &matches), Err(RenderError::MissingParagraph));
    let matches = vec![vec![vec![span(0, 9, "a", "a"), span(1, 1, "b", "b")]]];
    assert_eq!(rendered("ab", &matches), Err(RenderError::EmptySpan));
}

#[test]
fn paragraph_without_spans_is_its_text() {
    let matches: Vec<Vec<Vec<Match>>> = vec![vec![vec![]]];
    assert_eq!(rendered("plain text", &matches), Ok("<p>plain text</p>\n".to_string()));
    let none: Vec<Vec<Vec<Match>>> = vec![];
    assert_eq!(rendered("no sources", &none), Ok("<p>no sources</p>\n".to_string()));
}

#[test]
fn paragraphs_are_rendered_in_order() {
    let matches = vec![vec![
        vec![span(0, 3, "first", "one")],
        vec![],
        vec![span(2, 5, "third", "ree")],
    ]];
    let expected = format!(
        "<p>{}<span class=\"i1\">one</span></p>\n<p>two</p>\n<p>th{}<span class=\"i1\">ree</span></p>\n",
        label(1, "one", "first"),
        label(1, "ree", "third"),
    );
    assert_eq!(rendered("one\n\ntwo\n\nthree", &matches), Ok(expected));
}

#[test]
fn spans_in_any_order_are_swept_by_position() {
    let matches = vec![vec![vec![span(6, 8, "late", "gh"), span(1, 3, "early", "bc")]]];
    let expected = format!(
        "<p>a{}<span class=\"i1\">bc</span>def{}<span class=\"i1\">gh</span></p>\n",
        label(1, "bc", "early"),
        label(1, "gh", "late"),
    );
    assert_eq!(rendered("abcdefgh", &matches), Ok(expected));
}

#[test]
fn starts_at_one_position_come_by_source_then_as_the_spans_are_ordered() {
    let matches = vec![
        vec![vec![span(2, 6, "a1", "y"), span(2, 4, "a2", "x")]],
        vec![vec![span(2, 3, "b", "z")]],
    ];
    let expected = format!(
        "<p>ab{}{}{}<span class=\"i2\">c</span>d<span class=\"i1\">ef</span>gh</p>\n",
        label(1, "x", "a2"),
        label(1, "y", "a1"),
        label(2, "z", "b"),
    );
    assert_eq!(rendered("abcdefgh", &matches), Ok(expected));
}

#[test]
fn spans_of_one_extent_come_by_label_then_by_text() {
    let matches = vec![vec![vec![
        span(0, 1, "m", "a"),
        span(0, 1, "l", "z"),
        span(0, 1, "l", "b"),
        span(0, 1, "l", "ab"),
        span(0, 1, "", "q"),
    ]]];
    let expected = format!(
        "<p>{}{}{}{}{}<span class=\"i1\">a</span></p>\n",
        label(1, "q", ""),
        label(1, "ab", "l"),
        label(1, "b", "l"),
        label(1, "z", "l"),
        label(1, "a", "m"),
    );
    assert_eq!(rendered("a", &matches), Ok(expected));
}

#[test]
fn the_longer_of_two_spans_from_one_start_comes_second() {
    let matches = vec![vec![vec![span(0, 5, "long", "abcde"), span(0, 3, "short", "abc")]]];
    let markup = rendered("abcdef", &matches).unwrap();
    let short = markup.find(&label(1, "abc", "short")).unwrap();
    let long = markup.find(&label(1, "abcde", "long")).unwrap();
    assert!(short < long);
}

#[test]
fn span_that_starts_where_another_of_its_source_ends_keeps_the_region() {
    let matches = vec![vec![vec![span(0, 3, "l", "abc"), span(3, 5, "r", "de")]]];
    let expected = format!(
        "<p>{}<span class=\"i1\">abc</span>{}<span class=\"i1\">de</span>f</p>\n",
        label(1, "abc", "l"),
        label(1, "de", "r"),
    );
    assert_eq!(rendered("abcdef", &matches), Ok(expected));
}

#[test]
fn regions_cut_wide_characters_whole() {
    let matches = vec![vec![vec![span(1, 3, "wide", "€😀")]]];
    let expected =
        format!("<p>é{}<span class=\"i1\">€😀</span>ñ</p>\n", label(1, "€😀", "wide"));
    assert_eq!(rendered("é€😀ñ", &matches), Ok(expected));
}

#[test]
fn class_tokens_count_from_one_in_decimal() {
    let mut matches: Vec<Vec<Vec<Match>>> = Vec::new();
    for i in 0..12 {
        if i == 9 || i == 11 {
            matches.push(vec![vec![span(0, 1, "l", "a")]]);
        } else {
            matches.push(vec![vec![]]);
        }
    }
    let expected = format!(
        "<p>{}{}<span class=\"i10 i12\">a</span>b</p>\n",
        label(10, "a", "l"),
        label(12, "a", "l"),
    );
    assert_eq!(rendered("ab", &matches), Ok(expected));
}

#[test]
fn owned_and_borrowed_text_render_alike() {
    let owned = vec![vec![vec![Match {
        span: (0, 1),
        label: "l",
        text: Cow::Owned(String::from("own")),
    }]]];
    let expected = format!("<p>{}<span class=\"i1\">a</span></p>\n", label(1, "own", "l"));
    assert_eq!(rendered("a", &owned), Ok(expected));
}

#[test]
fn one_paragraph_can_be_rendered_alone() {
    let matches = vec![vec![vec![], vec![span(1, 2, "l", "b")]]];
    let mut out = String::from(">");
    render_paragraph("abc", &matches, 1, &mut out);
    let expected = format!("><p>a{}<span class=\"i1\">b</span>c</p>\n", label(1, "b", "l"));
    assert_eq!(out, expected);
}

#[test]
fn given_paragraphs_are_taken_as_they_are() {
    let matches = vec![vec![vec![span(0, 2, "l", "a\n")], vec![]]];
    let mut out = String::new();
    let paragraphs = vec!["a\n\nb", "c"];
    assert_eq!(merge_paragraphs(&paragraphs, &matches, &mut out), Ok(()));
    let expected =
        format!("<p>{}<span class=\"i1\">a\n</span>\nb</p>\n<p>c</p>\n", label(1, "a\n", "l"));
    assert_eq!(out, expected);
}

#[test]
fn document_is_head_paragraphs_and_tail() {
    let matches = vec![vec![vec![span(0, 1, "l", "a")]]];
    let page = render_document("ab", &matches).unwrap();
    let body = rendered("ab", &matches).unwrap();
    assert_eq!(page, format!("{}{}{}", HEAD, body, TAIL));
    assert!(page.starts_with("<html>\n  <head>\n"));
    assert!(page.contains("span.i1.i2.i3 {\n    background-color: rgba(0,0,0,0.2);\n}"));
    assert!(page.ends_with("\n  </body>\n</html>\n"));
}

#[test]
fn blank_lines_divide_plain_text() {
    for text in [
        "",
        "a",
        "a\n\nb",
        "a\nb",
        "a\n\n\nb",
        "a\n\n\n\nb",
        "\n\n",
        "\n\n\n",
        "\n",
        "ends\n\n",
        "\n\nstarts",
        "é\n\n€\n\n\n😀\n",
    ] {
        let expected: Vec<&str> = text.split("\n\n").collect();
        assert_eq!(split_paragraphs(text), expected, "{:?}", text);
    }
    assert_eq!(split_paragraphs("a\n\n\nb"), vec!["a", "\nb"]);
}

fn regions(markup: &str) -> Vec<(char, Vec<usize>)> {
    let mut rest = markup.strip_prefix("<p>").unwrap().strip_suffix("</p>\n").unwrap();
    let mut current: Vec<usize> = Vec::new();
    let mut seen = Vec::new();
    while let Some(c) = rest.chars().next() {
        if rest.starts_with("<div class=\"label\"") {
            let end = rest.find("</div>").unwrap();
            rest = &rest[end + "</div>".len()..];
        } else if let Some(tail) = rest.strip_prefix("<span class=\"") {
            let end = tail.find("\">").unwrap();
            current = tail[..end]
                .split(' ')
                .map(|token| token.strip_prefix('i').unwrap().parse().unwrap())
                .collect();
            rest = &tail[end + 2..];
        } else if let Some(tail) = rest.strip_prefix("</span>") {
            current = Vec::new();
            rest = tail;
        } else {
            seen.push((c, current.clone()));
            rest = &rest[c.len_utf8()..];
        }
    }
    seen
}

#[test]
fn every_character_is_in_the_region_of_the_sources_that_hold_it() {
    let text = "The quick brøwn fox jumps over the läzy dog";
    let spans: Vec<Vec<(usize, usize)>> = vec![
        vec![(0, 3), (4, 9), (9, 10), (20, 25), (40, 43)],
        vec![(2, 12), (12, 20), (30, 31)],
        vec![(35, 43), (0, 1), (5, 7), (7, 35)],
        vec![],
    ];
    let matches: Vec<Vec<Vec<Match>>> = spans
        .iter()
        .map(|list| vec![list.iter().map(|&(start, end)| span(start, end, "l", "t")).collect()])
        .collect();
    let markup = rendered(text, &matches).unwrap();
    let seen = regions(&markup);
    let chars: Vec<char> = text.chars().collect();
    assert_eq!(seen.len(), chars.len());
    for (at, (c, region)) in seen.iter().enumerate() {
        assert_eq!(*c, chars[at]);
        let holding: Vec<usize> = (0..spans.len())
            .filter(|&s| spans[s].iter().any(|&(start, end)| start <= at && at < end))
            .map(|s| s + 1)
            .collect();
        assert_eq!(*region, holding, "character {}", at);
    }
}

#[test]
fn spans_of_one_source_that_share_characters_flip_its_flag() {
    let matches = vec![vec![vec![span(0, 4, "outer", "abcd"), span(1, 2, "inner", "b")]]];
    let expected = format!(
        "<p>{}<span class=\"i1\">a</span>{}b<span class=\"i1\">cd</span>e</p>\n",
        label(1, "abcd", "outer"),
        label(1, "b", "inner"),
    );
    assert_eq!(rendered("abcde", &matches), Ok(expected));
}

#[test]
fn faults_are_found_without_rendering() {
    let good = vec![vec![vec![span(0, 2, "l", "ab")]]];
    assert_eq!(find_fault(&vec!["ab"], &good), None);
    assert_eq!(find_fault(&vec!["a"], &good), Some(RenderError::SpanOutOfText));
    assert_eq!(find_fault(&vec!["ab", "cd"], &good), Some(RenderError::MissingParagraph));
    let empty = vec![vec![vec![span(1, 1, "l", "")]]];
    assert_eq!(find_fault(&vec!["ab"], &empty), Some(RenderError::EmptySpan));
    let none: Vec<&str> = vec![];
    assert_eq!(find_fault(&none, &empty), None);
}

#[test]
fn spans_are_ordered_as_their_fields_are() {
    let spans = vec![
        span(0, 1, "", ""),
        span(0, 1, "", "a"),
        span(0, 1, "a", ""),
        span(0, 1, "a", "ab"),
        span(0, 1, "a", "b"),
        span(0, 1, "ab", ""),
        span(0, 1, "b", "é"),
        span(0, 1, "b", "z"),
        span(0, 2, "", ""),
        span(1, 0, "z", "z"),
        span(1, 1, "é", "€"),
        span(1, 1, "€", "é"),
        span(2, 0, "a", "a"),
    ];
    for a in spans.iter() {
        for b in spans.iter() {
            assert_eq!(span_before(a, b), a < b, "{:?} {:?}", a, b);
        }
    }
}

#[test]
fn rank_counts_the_spans_that_come_before() {
    let list = vec![
        span(3, 4, "c", "c"),
        span(0, 5, "b", "b"),
        span(0, 3, "a", "a"),
        span(0, 5, "b", "b"),
        span(0, 5, "a", "z"),
    ];
    assert_eq!(ranks(&list), vec![4, 2, 0, 2, 1]);
    assert_eq!(ranks(&vec![]), Vec::<usize>::new());
}
