use psup::encode::encode_samples;
use psup::extract::Sample;

fn sample(input: &str, output: &str) -> Sample {
    Sample { input: input.to_string(), output: output.to_string() }
}

#[test]
fn empty_list_encodes_as_empty_array() {
    assert_eq!(encode_samples(&vec![]), "[]");
}

#[test]
fn one_sample_encodes_exactly() {
    let s = encode_samples(&vec![sample("1 2", "3")]);
    assert_eq!(s, "[{\"input\":\"1 2\",\"output\":\"3\"}]");
}

#[test]
fn two_samples_are_comma_separated_in_order() {
    let s = encode_samples(&vec![sample("a", "b"), sample("c", "d")]);
    assert_eq!(s, "[{\"input\":\"a\",\"output\":\"b\"},{\"input\":\"c\",\"output\":\"d\"}]");
}

#[test]
fn quotes_and_backslashes_are_escaped() {
    let s = encode_samples(&vec![sample("say \"hi\"", "a\\b")]);
    assert_eq!(s, "[{\"input\":\"say \\\"hi\\\"\",\"output\":\"a\\\\b\"}]");
}

#[test]
fn newlines_and_tabs_are_escaped() {
    let s = encode_samples(&vec![sample("1 2\n3 4", "a\tb\r")]);
    assert_eq!(s, "[{\"input\":\"1 2\\n3 4\",\"output\":\"a\\tb\\r\"}]");
}

#[test]
fn control_characters_get_unicode_escapes() {
    let s = encode_samples(&vec![sample("\u{1}", "\u{1f}")]);
    assert_eq!(s, "[{\"input\":\"\\u0001\",\"output\":\"\\u001f\"}]");
}

#[test]
fn encoding_parses_back_as_json() {
    let samples = vec![sample("say \"hi\"\nnow", "tab\there"), sample("x", "y")];
    let encoded = encode_samples(&samples);
    let value: serde_json::Value = serde_json::from_str(&encoded).unwrap();
    let array = value.as_array().unwrap();
    assert_eq!(array.len(), 2);
    assert_eq!(array[0]["input"].as_str().unwrap(), "say \"hi\"\nnow");
    assert_eq!(array[0]["output"].as_str().unwrap(), "tab\there");
    assert_eq!(array[1]["input"].as_str().unwrap(), "x");
    assert_eq!(array[1]["output"].as_str().unwrap(), "y");
}

#[test]
fn unicode_text_passes_through() {
    let s = encode_samples(&vec![sample("안녕", "✓")]);
    assert_eq!(s, "[{\"input\":\"안녕\",\"output\":\"✓\"}]");
}
