//! The serialized form of a problem's sample list: a self-describing
//! encoding of the ordered pair list, written as a JSON array of objects
//! with `input` and `output` members. The encoder is specified character
//! by character, including the escaping of quotes, backslashes and
//! control characters.

use vstd::prelude::*;

use crate::extract::{Sample, SampleV};
use crate::text::{chars_vec, seq_views, string_from_chars};

verus! {

pub open spec fn hex_digit_spec(n: int) -> char {
    if n == 0 {
        '0'
    } else if n == 1 {
        '1'
    } else if n == 2 {
        '2'
    } else if n == 3 {
        '3'
    } else if n == 4 {
        '4'
    } else if n == 5 {
        '5'
    } else if n == 6 {
        '6'
    } else if n == 7 {
        '7'
    } else if n == 8 {
        '8'
    } else if n == 9 {
        '9'
    } else if n == 10 {
        'a'
    } else if n == 11 {
        'b'
    } else if n == 12 {
        'c'
    } else if n == 13 {
        'd'
    } else if n == 14 {
        'e'
    } else {
        'f'
    }
}

fn hex_digit(n: u32) -> (r: char)
    requires
        n < 16,
    ensures
        r == hex_digit_spec(n as int),
{
    match n {
        0 => '0',
        1 => '1',
        2 => '2',
        3 => '3',
        4 => '4',
        5 => '5',
        6 => '6',
        7 => '7',
        8 => '8',
        9 => '9',
        10 => 'a',
        11 => 'b',
        12 => 'c',
        13 => 'd',
        14 => 'e',
        _ => 'f',
    }
}

/// How one character is written inside a quoted string: the quote, the
/// backslash and the common control characters get two-character escapes,
/// any other control character a `\u00..` escape, and the rest stand as
/// themselves.
pub open spec fn escape_char_spec(c: char) -> Seq<char> {
    if c == '"' {
        seq!['\\', '"']
    } else if c == '\\' {
        seq!['\\', '\\']
    } else if c == '\n' {
        seq!['\\', 'n']
    } else if c == '\r' {
        seq!['\\', 'r']
    } else if c == '\t' {
        seq!['\\', 't']
    } else if (c as u32) < 0x20 {
        seq![
            '\\',
            'u',
            '0',
            '0',
            hex_digit_spec((c as u32) as int / 16),
            hex_digit_spec((c as u32) as int % 16),
        ]
    } else {
        seq![c]
    }
}

pub open spec fn escape_spec(s: Seq<char>) -> Seq<char>
    decreases s.len(),
{
    if s.len() == 0 {
        Seq::empty()
    } else {
        escape_char_spec(s[0]) + escape_spec(s.drop_first())
    }
}

pub fn escape_chars(v: &Vec<char>) -> (r: Vec<char>)
    ensures
        r@ == escape_spec(v@),
{
    let mut r: Vec<char> = Vec::new();
    let mut i: usize = 0;
    proof {
        assert(v@.skip(0) =~= v@);
    }
    while i < v.len()
        invariant
            i <= v.len(),
            escape_spec(v@) == r@ + escape_spec(v@.skip(i as int)),
        decreases v.len() - i,
    {
        let ghost s = v@.skip(i as int);
        let ghost old_r = r@;
        proof {
            assert(s[0] == v@[i as int]);
            assert(s.drop_first() =~= v@.skip(i as int + 1));
        }
        let c = v[i];
        if c == '"' {
            r.push('\\');
            r.push('"');
        } else if c == '\\' {
            r.push('\\');
            r.push('\\');
        } else if c == '\n' {
            r.push('\\');
            r.push('n');
        } else if c == '\r' {
            r.push('\\');
            r.push('r');
        } else if c == '\t' {
            r.push('\\');
            r.push('t');
        } else {
            let code = c as u32;
            if code < 0x20 {
                r.push('\\');
                r.push('u');
                r.push('0');
                r.push('0');
                r.push(hex_digit(code / 16));
                r.push(hex_digit(code % 16));
            } else {
                r.push(c);
            }
        }
        proof {
            assert(r@ =~= old_r + escape_char_spec(v@[i as int]));
            assert(old_r + escape_spec(s) =~= r@ + escape_spec(v@.skip(i as int + 1)));
        }
        i = i + 1;
    }
    proof {
        assert(v@.skip(v.len() as int) =~= Seq::<char>::empty());
        assert(r@ + Seq::<char>::empty() =~= r@);
    }
    r
}

/// One sample as an object with the escaped input and output strings.
pub open spec fn encode_sample_spec(s: SampleV) -> Seq<char> {
    "{\"input\":\""@ + escape_spec(s.input) + "\",\"output\":\""@ + escape_spec(s.output) + "\"}"@
}

fn encode_sample_chars(s: &Sample) -> (r: Vec<char>)
    ensures
        r@ == encode_sample_spec(s@),
{
    let mut r = chars_vec("{\"input\":\"");
    let ic = chars_vec(s.input.as_str());
    let mut ie = escape_chars(&ic);
    r.append(&mut ie);
    let mut mid = chars_vec("\",\"output\":\"");
    r.append(&mut mid);
    let oc = chars_vec(s.output.as_str());
    let mut oe = escape_chars(&oc);
    r.append(&mut oe);
    let mut tail = chars_vec("\"}");
    r.append(&mut tail);
    proof {
        assert(r@ =~= encode_sample_spec(s@));
    }
    r
}

pub open spec fn encode_samples_inner(ss: Seq<SampleV>) -> Seq<char>
    decreases ss.len(),
{
    if ss.len() == 0 {
        Seq::empty()
    } else if ss.len() == 1 {
        encode_sample_spec(ss[0])
    } else {
        encode_sample_spec(ss[0]) + seq![','] + encode_samples_inner(ss.drop_first())
    }
}

/// The whole sample list as a JSON array, pairs in order.
pub open spec fn encode_samples_spec(ss: Seq<SampleV>) -> Seq<char> {
    seq!['['] + encode_samples_inner(ss) + seq![']']
}

pub proof fn lemma_encode_samples_inner_push(ss: Seq<SampleV>, x: SampleV)
    ensures
        ss.len() == 0 ==> encode_samples_inner(ss.push(x)) == encode_sample_spec(x),
        ss.len() > 0 ==> encode_samples_inner(ss.push(x)) == encode_samples_inner(ss) + seq![',']
            + encode_sample_spec(x),
    decreases ss.len(),
{
    if ss.len() == 0 {
        assert(ss.push(x)[0] == x);
    } else if ss.len() == 1 {
        assert(ss.push(x).drop_first() =~= seq![x]);
        assert(encode_samples_inner(seq![x]) == encode_sample_spec(x));
        assert(ss.push(x)[0] == ss[0]);
    } else {
        assert(ss.push(x).drop_first() =~= ss.drop_first().push(x));
        lemma_encode_samples_inner_push(ss.drop_first(), x);
        assert(ss.push(x)[0] == ss[0]);
        assert(encode_sample_spec(ss[0]) + seq![','] + (encode_samples_inner(ss.drop_first())
            + seq![','] + encode_sample_spec(x)) =~= (encode_sample_spec(ss[0]) + seq![',']
            + encode_samples_inner(ss.drop_first())) + seq![','] + encode_sample_spec(x));
    }
}

/// Encode a sample list; the result is what `encode_samples_spec` says,
/// for every list.
pub fn encode_samples(samples: &Vec<Sample>) -> (r: String)
    ensures
        r@ == encode_samples_spec(seq_views(samples@)),
{
    let mut inner: Vec<char> = Vec::new();
    let mut i: usize = 0;
    while i < samples.len()
        invariant
            i <= samples.len(),
            inner@ == encode_samples_inner(seq_views(samples@).take(i as int)),
        decreases samples.len() - i,
    {
        let ghost pre = seq_views(samples@).take(i as int);
        if i > 0 {
            inner.push(',');
        }
        let ghost mid = inner@;
        let mut enc = encode_sample_chars(&samples[i]);
        inner.append(&mut enc);
        proof {
            lemma_encode_samples_inner_push(pre, samples@[i as int]@);
            assert(seq_views(samples@).take(i as int + 1) =~= pre.push(samples@[i as int]@));
            if i > 0 {
                assert(mid =~= encode_samples_inner(pre) + seq![',']);
                assert(inner@ =~= encode_samples_inner(pre) + seq![','] + encode_sample_spec(
                    samples@[i as int]@,
                ));
            } else {
                assert(mid =~= Seq::<char>::empty());
                assert(inner@ =~= encode_sample_spec(samples@[i as int]@));
            }
        }
        i = i + 1;
    }
    proof {
        assert(seq_views(samples@).take(samples@.len() as int) =~= seq_views(samples@));
    }
    let mut out: Vec<char> = Vec::new();
    out.push('[');
    out.append(&mut inner);
    out.push(']');
    proof {
        assert(out@ =~= encode_samples_spec(seq_views(samples@)));
    }
    string_from_chars(&out)
}

} // verus!
