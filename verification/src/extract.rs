//! The structured extractor: it turns the markup of a fetched problem
//! page into a `Problem` record. The markup is queried through a small
//! set of trusted wrappers around the `scraper` crate; everything the
//! wrappers return is plain text, and all further processing is verified
//! against the specification functions below.

use vstd::prelude::*;

use crate::text::{
    chars_vec, normalize_text, normalize_text_spec, rewrite_block_tags, rewrite_tags_spec,
    seq_views, string_from_chars, trim_all, trim_chars, trim_spec,
};
use crate::CoreError;

verus! {

/// One sample: an input text paired with the expected output text.
#[derive(Debug)]
pub struct Sample {
    pub input: String,
    pub output: String,
}

#[verifier::ext_equal]
pub struct SampleV {
    pub input: Seq<char>,
    pub output: Seq<char>,
}

impl View for Sample {
    type V = SampleV;

    open spec fn view(&self) -> SampleV {
        SampleV { input: self.input@, output: self.output@ }
    }
}

/// The structured record extracted from one problem page. A `Problem` is
/// valid only when its title is non-empty; every other field degrades to
/// an empty string or list.
#[derive(Debug)]
pub struct Problem {
    pub id: String,
    pub title: String,
    pub description: String,
    pub input_description: String,
    pub output_description: String,
    pub samples: Vec<Sample>,
    pub time_limit: String,
    pub memory_limit: String,
}

#[verifier::ext_equal]
pub struct ProblemV {
    pub id: Seq<char>,
    pub title: Seq<char>,
    pub description: Seq<char>,
    pub input_description: Seq<char>,
    pub output_description: Seq<char>,
    pub samples: Seq<SampleV>,
    pub time_limit: Seq<char>,
    pub memory_limit: Seq<char>,
}

impl View for Problem {
    type V = ProblemV;

    open spec fn view(&self) -> ProblemV {
        ProblemV {
            id: self.id@,
            title: self.title@,
            description: self.description@,
            input_description: self.input_description@,
            output_description: self.output_description@,
            samples: seq_views(self.samples@),
            time_limit: self.time_limit@,
            memory_limit: self.memory_limit@,
        }
    }
}

/// The text of the first element the selector matches, if any.
pub uninterp spec fn first_selected_text(html: Seq<char>, selector: Seq<char>) -> Option<Seq<char>>;

/// The inner markup of the first element the selector matches, if any.
pub uninterp spec fn first_selected_inner(html: Seq<char>, selector: Seq<char>) -> Option<
    Seq<char>,
>;

/// The texts of all elements the selector matches, in document order.
pub uninterp spec fn selected_texts(html: Seq<char>, selector: Seq<char>) -> Seq<Seq<char>>;

/// The text content of a markup fragment, a function of the markup alone.
pub uninterp spec fn fragment_text_of(markup: Seq<char>) -> Seq<char>;

pub open spec fn opt_view(o: Option<String>) -> Option<Seq<char>> {
    match o {
        Option::Some(s) => Option::Some(s@),
        Option::None => Option::None,
    }
}

/// Relies on scraper (Html::parse_document, Selector::parse, Html::select,
/// ElementRef::text): the concatenated text of the first element matched
/// by the selector, or None when nothing matches or the selector cannot
/// be parsed.
#[verifier::external_body]
fn select_first_text(html: &str, selector: &str) -> (r: Option<String>)
    ensures
        opt_view(r) == first_selected_text(html@, selector@),
{
    let doc = scraper::Html::parse_document(html);
    match scraper::Selector::parse(selector) {
        Ok(sel) => match doc.select(&sel).next() {
            Some(e) => Some(e.text().collect::<String>()),
            None => None,
        },
        Err(_) => None,
    }
}

/// Relies on scraper (Html::parse_document, Selector::parse, Html::select,
/// ElementRef::inner_html): the inner markup of the first element matched
/// by the selector, or None when nothing matches or the selector cannot
/// be parsed.
#[verifier::external_body]
fn select_first_inner(html: &str, selector: &str) -> (r: Option<String>)
    ensures
        opt_view(r) == first_selected_inner(html@, selector@),
{
    let doc = scraper::Html::parse_document(html);
    match scraper::Selector::parse(selector) {
        Ok(sel) => match doc.select(&sel).next() {
            Some(e) => Some(e.inner_html()),
            None => None,
        },
        Err(_) => None,
    }
}

/// Relies on scraper (Html::parse_document, Selector::parse, Html::select,
/// ElementRef::text): the texts of all matched elements in document
/// order, or no elements when the selector cannot be parsed.
#[verifier::external_body]
fn select_all_texts(html: &str, selector: &str) -> (r: Vec<String>)
    ensures
        seq_views(r@) == selected_texts(html@, selector@),
{
    let doc = scraper::Html::parse_document(html);
    match scraper::Selector::parse(selector) {
        Ok(sel) => doc.select(&sel).map(|e| e.text().collect::<String>()).collect(),
        Err(_) => Vec::new(),
    }
}

/// Relies on scraper (Html::parse_fragment, Html::root_element,
/// ElementRef::text): the text content of the fragment.
#[verifier::external_body]
fn fragment_text(markup: &str) -> (r: String)
    ensures
        r@ == fragment_text_of(markup@),
{
    let fragment = scraper::Html::parse_fragment(markup);
    fragment.root_element().text().collect::<String>()
}

/// What extracting the free text of a region means: rewrite block tags to
/// newlines, take the text of the rewritten fragment, and normalize its
/// lines.
pub open spec fn element_text_spec(inner: Seq<char>) -> Seq<char> {
    normalize_text_spec(fragment_text_of(rewrite_tags_spec(inner)))
}

pub fn element_to_text(inner: &str) -> (r: String)
    ensures
        r@ == element_text_spec(inner@),
{
    let v = chars_vec(inner);
    let rewritten = rewrite_block_tags(&v);
    let s = string_from_chars(&rewritten);
    let t = fragment_text(s.as_str());
    let tv = chars_vec(t.as_str());
    let n = normalize_text(&tv);
    string_from_chars(&n)
}

pub open spec fn extracted_title(html: Seq<char>) -> Seq<char> {
    match first_selected_text(html, "#problem_title"@) {
        Option::Some(t) => trim_spec(t),
        Option::None => Seq::empty(),
    }
}

pub open spec fn extracted_region(html: Seq<char>, selector: Seq<char>) -> Seq<char> {
    match first_selected_inner(html, selector) {
        Option::Some(m) => element_text_spec(m),
        Option::None => Seq::empty(),
    }
}

pub open spec fn extracted_limit(html: Seq<char>, idx: int) -> Seq<char> {
    let cells = selected_texts(html, "#problem-info tbody tr td"@);
    if 0 <= idx < cells.len() {
        trim_spec(cells[idx])
    } else {
        Seq::empty()
    }
}

pub open spec fn extracted_sample_inputs(html: Seq<char>) -> Seq<Seq<char>> {
    trim_all(selected_texts(html, "[id^='sample-input-']"@))
}

pub open spec fn extracted_sample_outputs(html: Seq<char>) -> Seq<Seq<char>> {
    trim_all(selected_texts(html, "[id^='sample-output-']"@))
}

/// Sample inputs pair with sample outputs positionally; a page with
/// unequal counts contributes only the pairs both sides have.
pub open spec fn sample_count(html: Seq<char>) -> int {
    vstd::math::min(
        extracted_sample_inputs(html).len() as int,
        extracted_sample_outputs(html).len() as int,
    )
}

pub open spec fn extracted_samples(html: Seq<char>) -> Seq<SampleV> {
    Seq::new(
        sample_count(html) as nat,
        |i: int|
            SampleV {
                input: extracted_sample_inputs(html)[i],
                output: extracted_sample_outputs(html)[i],
            },
    )
}

pub open spec fn extracted_problem(id: Seq<char>, html: Seq<char>) -> ProblemV {
    ProblemV {
        id: id,
        title: extracted_title(html),
        description: extracted_region(html, "#problem_description"@),
        input_description: extracted_region(html, "#problem_input"@),
        output_description: extracted_region(html, "#problem_output"@),
        samples: extracted_samples(html),
        time_limit: extracted_limit(html, 0),
        memory_limit: extracted_limit(html, 1),
    }
}

/// Parse one problem page. Succeeds exactly when the page yields a
/// non-empty title; every other field degrades to an empty value instead
/// of failing.
pub fn parse_problem(problem_id: &str, html: &str) -> (r: Result<Problem, CoreError>)
    ensures
        r is Ok <==> extracted_title(html@).len() > 0,
        r matches Ok(p) ==> p@ == extracted_problem(problem_id@, html@),
        r matches Ok(p) ==> p@.id == problem_id@ && p@.samples.len() == sample_count(html@),
        r matches Err(e) ==> e matches CoreError::ParseFailure(m) && m@ == "title"@,
{
    let title_vec: Vec<char> = match select_first_text(html, "#problem_title") {
        Some(t) => {
            let tc = chars_vec(t.as_str());
            trim_chars(&tc)
        },
        None => Vec::new(),
    };
    proof {
        assert(title_vec@ == extracted_title(html@));
    }
    if title_vec.len() == 0 {
        return Err(CoreError::ParseFailure(String::from_str("title")));
    }
    let title = string_from_chars(&title_vec);

    let description = match select_first_inner(html, "#problem_description") {
        Some(m) => element_to_text(m.as_str()),
        None => String::new(),
    };
    let input_description = match select_first_inner(html, "#problem_input") {
        Some(m) => element_to_text(m.as_str()),
        None => String::new(),
    };
    let output_description = match select_first_inner(html, "#problem_output") {
        Some(m) => element_to_text(m.as_str()),
        None => String::new(),
    };

    let cells = select_all_texts(html, "#problem-info tbody tr td");
    let time_limit = if cells.len() > 0 {
        let c = chars_vec(cells[0].as_str());
        let t = trim_chars(&c);
        string_from_chars(&t)
    } else {
        String::new()
    };
    let memory_limit = if cells.len() > 1 {
        let c = chars_vec(cells[1].as_str());
        let t = trim_chars(&c);
        string_from_chars(&t)
    } else {
        String::new()
    };

    let ins = select_all_texts(html, "[id^='sample-input-']");
    let outs = select_all_texts(html, "[id^='sample-output-']");
    let n = if ins.len() < outs.len() {
        ins.len()
    } else {
        outs.len()
    };
    proof {
        assert(n as int == sample_count(html@));
    }
    let mut samples: Vec<Sample> = Vec::new();
    let mut i: usize = 0;
    while i < n
        invariant
            i <= n,
            n as int == sample_count(html@),
            n <= ins@.len() && n <= outs@.len(),
            seq_views(ins@) == selected_texts(html@, "[id^='sample-input-']"@),
            seq_views(outs@) == selected_texts(html@, "[id^='sample-output-']"@),
            seq_views(samples@) =~= extracted_samples(html@).take(i as int),
        decreases n - i,
    {
        let ghost pre = seq_views(samples@);
        let ic = chars_vec(ins[i].as_str());
        let it = trim_chars(&ic);
        let input = string_from_chars(&it);
        let oc = chars_vec(outs[i].as_str());
        let ot = trim_chars(&oc);
        let output = string_from_chars(&ot);
        let s = Sample { input, output };
        proof {
            assert(extracted_sample_inputs(html@)[i as int] == trim_spec(ins@[i as int]@));
            assert(extracted_sample_outputs(html@)[i as int] == trim_spec(outs@[i as int]@));
            assert(s@ =~= extracted_samples(html@)[i as int]);
        }
        samples.push(s);
        proof {
            assert(seq_views(samples@) =~= pre.push(s@));
            assert(extracted_samples(html@).take(i as int + 1) =~= extracted_samples(
                html@,
            ).take(i as int).push(extracted_samples(html@)[i as int]));
        }
        i = i + 1;
    }
    proof {
        assert(extracted_samples(html@).take(sample_count(html@)) =~= extracted_samples(html@));
    }

    let p = Problem {
        id: problem_id.to_owned(),
        title,
        description,
        input_description,
        output_description,
        samples,
        time_limit,
        memory_limit,
    };
    proof {
        assert(p@ =~= extracted_problem(problem_id@, html@));
    }
    Ok(p)
}

/// The page address for one problem identifier: a fixed base followed by
/// the identifier.
pub fn problem_url(problem_id: &str) -> (r: String)
    ensures
        r@ == "https://www.acmicpc.net/problem/"@ + problem_id@,
{
    let mut r = String::from_str("https://www.acmicpc.net/problem/");
    r.append(problem_id);
    r
}

} // verus!
