use psup::extract::{element_to_text, parse_problem, problem_url};

fn page(body: &str) -> String {
    format!("<html><head></head><body>{}</body></html>", body)
}

#[test]
fn parse_full_page_end_to_end() {
    let html = page(
        "<span id=\"problem_title\">A+B</span>\
         <div id=\"problem_description\">Add the numbers.<br>Print the sum.</div>\
         <div id=\"problem_input\">Two integers.</div>\
         <div id=\"problem_output\">One integer.</div>\
         <table id=\"problem-info\"><tbody><tr><td>1 second</td><td>256 MB</td></tr></tbody></table>\
         <pre id=\"sample-input-1\">1 2</pre><pre id=\"sample-output-1\">3</pre>\
         <pre id=\"sample-input-2\">4 5</pre><pre id=\"sample-output-2\">9</pre>",
    );
    let p = parse_problem("1000", &html).unwrap();
    assert_eq!(p.id, "1000");
    assert_eq!(p.title, "A+B");
    assert_eq!(p.description, "Add the numbers.\nPrint the sum.");
    assert_eq!(p.input_description, "Two integers.");
    assert_eq!(p.output_description, "One integer.");
    assert_eq!(p.time_limit, "1 second");
    assert_eq!(p.memory_limit, "256 MB");
    assert_eq!(p.samples.len(), 2);
    assert_eq!(p.samples[0].input, "1 2");
    assert_eq!(p.samples[0].output, "3");
    assert_eq!(p.samples[1].input, "4 5");
    assert_eq!(p.samples[1].output, "9");
}

#[test]
fn parse_missing_title_fails() {
    let html = page("<div id=\"problem_description\">text</div>");
    let e = parse_problem("1", &html).unwrap_err();
    assert_eq!(e.message(), "title");
}

#[test]
fn parse_whitespace_title_fails() {
    let html = page("<span id=\"problem_title\">   </span>");
    assert!(parse_problem("1", &html).is_err());
}

#[test]
fn parse_title_is_trimmed() {
    let html = page("<span id=\"problem_title\">  Hello  </span>");
    let p = parse_problem("1", &html).unwrap();
    assert_eq!(p.title, "Hello");
}

#[test]
fn parse_missing_regions_degrade_to_empty() {
    let html = page("<span id=\"problem_title\">T</span>");
    let p = parse_problem("7", &html).unwrap();
    assert_eq!(p.description, "");
    assert_eq!(p.input_description, "");
    assert_eq!(p.output_description, "");
    assert_eq!(p.time_limit, "");
    assert_eq!(p.memory_limit, "");
    assert_eq!(p.samples.len(), 0);
}

#[test]
fn parse_mismatched_sample_counts_truncate() {
    let html = page(
        "<span id=\"problem_title\">T</span>\
         <pre id=\"sample-input-1\">a</pre><pre id=\"sample-output-1\">b</pre>\
         <pre id=\"sample-input-2\">c</pre>",
    );
    let p = parse_problem("1", &html).unwrap();
    assert_eq!(p.samples.len(), 1);
    assert_eq!(p.samples[0].input, "a");
    assert_eq!(p.samples[0].output, "b");
}

#[test]
fn parse_single_limit_cell() {
    let html = page(
        "<span id=\"problem_title\">T</span>\
         <table id=\"problem-info\"><tbody><tr><td>2 seconds</td></tr></tbody></table>",
    );
    let p = parse_problem("1", &html).unwrap();
    assert_eq!(p.time_limit, "2 seconds");
    assert_eq!(p.memory_limit, "");
}

#[test]
fn block_tags_become_line_breaks() {
    assert_eq!(element_to_text("a<br>b</p>c"), "a\nb\nc");
}

#[test]
fn all_break_spellings_are_recognized() {
    assert_eq!(element_to_text("a<br>b<br/>c<br />d</div>e"), "a\nb\nc\nd\ne");
}

#[test]
fn whitespace_lines_are_trimmed() {
    assert_eq!(element_to_text("  x  <br>   "), "x");
}

#[test]
fn interior_empty_lines_survive() {
    assert_eq!(element_to_text("x<br><br>y"), "x\n\ny");
}

#[test]
fn nested_markup_text_is_extracted() {
    assert_eq!(element_to_text("<p>first <b>bold</b></p><p>second</p>"), "first bold\nsecond");
}

#[test]
fn problem_url_appends_identifier() {
    assert_eq!(problem_url("1000"), "https://www.acmicpc.net/problem/1000");
}
