//! Character-level text utilities: whitespace trimming, splitting into
//! lines, joining, and the normalization applied to extracted page text.
//!
//! All functions work on `Vec<char>` so that every step is specified over
//! `Seq<char>`; two small trusted bridges convert between `&str` and
//! `Vec<char>`.

use vstd::prelude::*;

verus! {

/// The whitespace characters recognized by trimming: the ASCII blank
/// characters, which are the ones the page source produces.
pub open spec fn is_space_spec(c: char) -> bool {
    c == ' ' || c == '\t' || c == '\r' || c == '\n' || c == '\u{b}' || c == '\u{c}'
}

#[verifier::when_used_as_spec(is_space_spec)]
pub fn is_space(c: char) -> (r: bool)
    ensures
        r == is_space_spec(c),
{
    c == ' ' || c == '\t' || c == '\r' || c == '\n' || c == '\u{b}' || c == '\u{c}'
}

/// Relies on str::chars (through collect into Vec): the characters of the
/// string in order, which are exactly the string's view.
#[verifier::external_body]
pub fn chars_vec(s: &str) -> (r: Vec<char>)
    ensures
        r@ == s@,
{
    s.chars().collect()
}

/// Relies on String's FromIterator over chars: a string whose characters
/// are exactly the given ones, in order.
#[verifier::external_body]
pub fn string_from_chars(v: &Vec<char>) -> (r: String)
    ensures
        r@ == v@,
{
    v.iter().collect()
}

/// String equality by value, specified over the views.
pub fn str_eq(a: &str, b: &str) -> (r: bool)
    ensures
        r == (a@ == b@),
{
    let sa = a.to_owned();
    let sb = b.to_owned();
    sa == sb
}

pub open spec fn trim_front_spec(s: Seq<char>) -> Seq<char>
    decreases s.len(),
{
    if s.len() > 0 && is_space_spec(s[0]) {
        trim_front_spec(s.drop_first())
    } else {
        s
    }
}

pub open spec fn trim_back_spec(s: Seq<char>) -> Seq<char>
    decreases s.len(),
{
    if s.len() > 0 && is_space_spec(s.last()) {
        trim_back_spec(s.drop_last())
    } else {
        s
    }
}

/// What trimming a piece of text means: drop whitespace from both ends.
pub open spec fn trim_spec(s: Seq<char>) -> Seq<char> {
    trim_back_spec(trim_front_spec(s))
}

pub fn trim_chars(v: &Vec<char>) -> (r: Vec<char>)
    ensures
        r@ == trim_spec(v@),
{
    let mut start: usize = 0;
    proof {
        assert(v@.skip(0) =~= v@);
    }
    while start < v.len() && is_space(v[start])
        invariant
            0 <= start <= v.len(),
            trim_front_spec(v@) == trim_front_spec(v@.skip(start as int)),
        decreases v.len() - start,
    {
        proof {
            assert(v@.skip(start as int)[0] == v@[start as int]);
            assert(v@.skip(start as int).drop_first() =~= v@.skip(start as int + 1));
        }
        start = start + 1;
    }
    proof {
        if start < v.len() {
            assert(v@.skip(start as int)[0] == v@[start as int]);
        } else {
            assert(v@.skip(start as int) =~= Seq::<char>::empty());
        }
        assert(trim_front_spec(v@) == v@.skip(start as int));
    }
    let ghost front: Seq<char> = v@.skip(start as int);
    let mut end: usize = v.len();
    while end > start && is_space(v[end - 1])
        invariant
            start <= end <= v.len(),
            front == v@.skip(start as int),
            trim_front_spec(v@) == front,
            trim_back_spec(front) == trim_back_spec(v@.subrange(start as int, end as int)),
        decreases end,
    {
        proof {
            let w = v@.subrange(start as int, end as int);
            assert(w.last() == v@[end - 1]);
            assert(w.drop_last() =~= v@.subrange(start as int, end as int - 1));
        }
        end = end - 1;
    }
    proof {
        let w = v@.subrange(start as int, end as int);
        if end > start {
            assert(w.last() == v@[end - 1]);
        } else {
            assert(w =~= Seq::<char>::empty());
        }
        assert(trim_back_spec(front) == w);
    }
    let mut r: Vec<char> = Vec::new();
    let mut i: usize = start;
    while i < end
        invariant
            start <= i <= end <= v.len(),
            r@ =~= v@.subrange(start as int, i as int),
        decreases end - i,
    {
        r.push(v[i]);
        i = i + 1;
    }
    proof {
        assert(r@ =~= v@.subrange(start as int, end as int));
    }
    r
}

/// The views of a sequence of viewable values, elementwise.
pub open spec fn seq_views<T: View>(s: Seq<T>) -> Seq<T::V> {
    s.map_values(|x: T| x@)
}

/// Splitting on `'\n'` as a separator: a text with `k` newline characters
/// yields `k + 1` lines, empty lines included.
pub open spec fn split_lines_spec(s: Seq<char>) -> Seq<Seq<char>>
    decreases s.len(),
{
    if s.len() == 0 {
        seq![Seq::<char>::empty()]
    } else if s[0] == '\n' {
        seq![Seq::<char>::empty()] + split_lines_spec(s.drop_first())
    } else {
        let rest = split_lines_spec(s.drop_first());
        seq![seq![s[0]] + rest[0]] + rest.drop_first()
    }
}

pub proof fn lemma_split_lines_len(s: Seq<char>)
    ensures
        split_lines_spec(s).len() >= 1,
    decreases s.len(),
{
    if s.len() == 0 {
    } else {
        lemma_split_lines_len(s.drop_first());
    }
}

pub fn split_lines(v: &Vec<char>) -> (r: Vec<Vec<char>>)
    ensures
        seq_views(r@) == split_lines_spec(v@),
{
    let mut done: Vec<Vec<char>> = Vec::new();
    let mut cur: Vec<char> = Vec::new();
    let mut i: usize = 0;
    proof {
        assert(v@.skip(0) =~= v@);
        lemma_split_lines_len(v@);
    }
    while i < v.len()
        invariant
            i <= v.len(),
            split_lines_spec(v@.skip(i as int)).len() >= 1,
            split_lines_spec(v@) =~= seq_views(done@) + seq![
                cur@ + split_lines_spec(v@.skip(i as int))[0],
            ] + split_lines_spec(v@.skip(i as int)).drop_first(),
        decreases v.len() - i,
    {
        let ghost rest_i = split_lines_spec(v@.skip(i as int));
        proof {
            assert(v@.skip(i as int)[0] == v@[i as int]);
            assert(v@.skip(i as int).drop_first() =~= v@.skip(i as int + 1));
            lemma_split_lines_len(v@.skip(i as int + 1));
        }
        let ghost rest_n = split_lines_spec(v@.skip(i as int + 1));
        let c = v[i];
        if c == '\n' {
            proof {
                assert(rest_i =~= seq![Seq::<char>::empty()] + rest_n);
                assert(rest_i[0] == Seq::<char>::empty());
                assert(rest_i.drop_first() =~= rest_n);
                assert(cur@ + rest_i[0] =~= cur@);
            }
            let ghost old_done = done@;
            let ghost old_cur = cur@;
            done.push(cur);
            cur = Vec::new();
            proof {
                assert(seq_views(done@) =~= seq_views(old_done).push(old_cur + rest_i[0]));
                assert(cur@ + rest_n[0] =~= rest_n[0]);
                assert(seq![rest_n[0]] + rest_n.drop_first() =~= rest_n);
                assert(seq_views(done@) + seq![cur@ + rest_n[0]] + rest_n.drop_first() =~= (
                seq_views(old_done) + seq![old_cur + rest_i[0]]) + rest_n);
            }
        } else {
            proof {
                assert(rest_i =~= seq![seq![v@[i as int]] + rest_n[0]] + rest_n.drop_first());
                assert(rest_i[0] == seq![v@[i as int]] + rest_n[0]);
                assert(rest_i.drop_first() =~= rest_n.drop_first());
            }
            let ghost old_cur = cur@;
            cur.push(c);
            proof {
                assert(cur@ =~= old_cur + seq![v@[i as int]]);
                assert(cur@ + rest_n[0] =~= old_cur + rest_i[0]);
            }
        }
        i = i + 1;
    }
    proof {
        assert(v@.skip(v.len() as int) =~= Seq::<char>::empty());
        let rest = split_lines_spec(Seq::<char>::empty());
        assert(rest =~= seq![Seq::<char>::empty()]);
        assert(cur@ + rest[0] =~= cur@);
        assert(rest.drop_first() =~= Seq::<Seq<char>>::empty());
    }
    let ghost old_done = done@;
    done.push(cur);
    proof {
        assert(seq_views(done@) =~= split_lines_spec(v@));
    }
    done
}

/// Joining lines with a single `'\n'` between consecutive lines.
pub open spec fn join_lines_spec(ls: Seq<Seq<char>>) -> Seq<char>
    decreases ls.len(),
{
    if ls.len() == 0 {
        Seq::empty()
    } else if ls.len() == 1 {
        ls[0]
    } else {
        ls[0] + seq!['\n'] + join_lines_spec(ls.drop_first())
    }
}

pub proof fn lemma_join_lines_push(ls: Seq<Seq<char>>, x: Seq<char>)
    ensures
        ls.len() == 0 ==> join_lines_spec(ls.push(x)) == x,
        ls.len() > 0 ==> join_lines_spec(ls.push(x)) == join_lines_spec(ls) + seq!['\n'] + x,
    decreases ls.len(),
{
    if ls.len() == 0 {
        assert(join_lines_spec(ls.push(x)) == ls.push(x)[0]);
    } else if ls.len() == 1 {
        assert(ls.push(x).drop_first() =~= seq![x]);
        assert(join_lines_spec(seq![x]) == x);
        assert(ls.push(x)[0] == ls[0]);
    } else {
        assert(ls.push(x).drop_first() =~= ls.drop_first().push(x));
        lemma_join_lines_push(ls.drop_first(), x);
        assert(ls.push(x)[0] == ls[0]);
        assert(join_lines_spec(ls.push(x)) == ls[0] + seq!['\n'] + join_lines_spec(
            ls.drop_first().push(x),
        ));
        assert(ls[0] + seq!['\n'] + (join_lines_spec(ls.drop_first()) + seq!['\n'] + x) =~= (ls[0]
            + seq!['\n'] + join_lines_spec(ls.drop_first())) + seq!['\n'] + x);
    }
}

pub fn join_lines(lines: &Vec<Vec<char>>) -> (r: Vec<char>)
    ensures
        r@ == join_lines_spec(seq_views(lines@)),
{
    let mut r: Vec<char> = Vec::new();
    let mut i: usize = 0;
    proof {
        assert(seq_views(lines@).take(0) =~= Seq::<Seq<char>>::empty());
    }
    while i < lines.len()
        invariant
            i <= lines.len(),
            r@ == join_lines_spec(seq_views(lines@).take(i as int)),
        decreases lines.len() - i,
    {
        let ghost pre = seq_views(lines@).take(i as int);
        let ghost line_v = lines@[i as int]@;
        if i > 0 {
            r.push('\n');
        }
        let ghost mid = r@;
        let mut j: usize = 0;
        while j < lines[i].len()
            invariant
                i < lines.len(),
                j <= lines@[i as int]@.len(),
                line_v == lines@[i as int]@,
                r@ == mid + line_v.take(j as int),
            decreases line_v.len() - j,
        {
            let c = lines[i][j];
            r.push(c);
            proof {
                assert(mid + line_v.take(j as int) + seq![line_v[j as int]] =~= mid + line_v.take(
                    j as int + 1,
                ));
            }
            j = j + 1;
        }
        proof {
            assert(line_v.take(line_v.len() as int) =~= line_v);
            lemma_join_lines_push(pre, line_v);
            assert(seq_views(lines@).take(i as int + 1) =~= pre.push(line_v));
            if i > 0 {
                assert(mid =~= join_lines_spec(pre) + seq!['\n']);
                assert(join_lines_spec(pre) + seq!['\n'] + line_v =~= mid + line_v);
            } else {
                assert(pre.len() == 0);
                assert(mid =~= Seq::<char>::empty());
                assert(mid + line_v =~= line_v);
            }
        }
        i = i + 1;
    }
    proof {
        assert(seq_views(lines@).take(lines@.len() as int) =~= seq_views(lines@));
    }
    r
}

/// Every line trimmed, elementwise.
pub open spec fn trim_all(ls: Seq<Seq<char>>) -> Seq<Seq<char>> {
    ls.map_values(|l: Seq<char>| trim_spec(l))
}

/// The normalization applied to extracted text: split into lines, trim
/// each line, join with single newlines, and trim the whole.
pub open spec fn normalize_text_spec(s: Seq<char>) -> Seq<char> {
    trim_spec(join_lines_spec(trim_all(split_lines_spec(s))))
}

pub fn normalize_text(v: &Vec<char>) -> (r: Vec<char>)
    ensures
        r@ == normalize_text_spec(v@),
{
    let lines = split_lines(v);
    let mut trimmed: Vec<Vec<char>> = Vec::new();
    let mut i: usize = 0;
    while i < lines.len()
        invariant
            i <= lines.len(),
            seq_views(trimmed@) =~= trim_all(seq_views(lines@)).take(i as int),
        decreases lines.len() - i,
    {
        let ghost pre = seq_views(trimmed@);
        let t = trim_chars(&lines[i]);
        trimmed.push(t);
        proof {
            assert(seq_views(trimmed@) =~= pre.push(trim_spec(lines@[i as int]@)));
            assert(trim_all(seq_views(lines@)).take(i as int + 1) =~= trim_all(
                seq_views(lines@),
            ).take(i as int).push(trim_spec(lines@[i as int]@)));
        }
        i = i + 1;
    }
    proof {
        assert(trim_all(seq_views(lines@)).take(lines@.len() as int) =~= trim_all(
            seq_views(lines@),
        ));
    }
    let joined = join_lines(&trimmed);
    let r = trim_chars(&joined);
    r
}

pub open spec fn starts_br(s: Seq<char>) -> bool {
    s.len() >= 4 && s[0] == '<' && s[1] == 'b' && s[2] == 'r' && s[3] == '>'
}

pub open spec fn starts_br_self(s: Seq<char>) -> bool {
    s.len() >= 5 && s[0] == '<' && s[1] == 'b' && s[2] == 'r' && s[3] == '/' && s[4] == '>'
}

pub open spec fn starts_br_spaced(s: Seq<char>) -> bool {
    s.len() >= 6 && s[0] == '<' && s[1] == 'b' && s[2] == 'r' && s[3] == ' ' && s[4] == '/' && s[5]
        == '>'
}

pub open spec fn starts_p_close(s: Seq<char>) -> bool {
    s.len() >= 4 && s[0] == '<' && s[1] == '/' && s[2] == 'p' && s[3] == '>'
}

pub open spec fn starts_div_close(s: Seq<char>) -> bool {
    s.len() >= 6 && s[0] == '<' && s[1] == '/' && s[2] == 'd' && s[3] == 'i' && s[4] == 'v' && s[5]
        == '>'
}

/// Rewriting block-terminating tags into newline characters, scanning
/// left to right: the three spellings of a line break, a paragraph close
/// and a division close each become one `'\n'`; everything else is kept.
pub open spec fn rewrite_tags_spec(s: Seq<char>) -> Seq<char>
    decreases s.len(),
{
    if s.len() == 0 {
        Seq::empty()
    } else if starts_br(s) {
        seq!['\n'] + rewrite_tags_spec(s.skip(4))
    } else if starts_br_self(s) {
        seq!['\n'] + rewrite_tags_spec(s.skip(5))
    } else if starts_br_spaced(s) {
        seq!['\n'] + rewrite_tags_spec(s.skip(6))
    } else if starts_p_close(s) {
        seq!['\n'] + rewrite_tags_spec(s.skip(4))
    } else if starts_div_close(s) {
        seq!['\n'] + rewrite_tags_spec(s.skip(6))
    } else {
        seq![s[0]] + rewrite_tags_spec(s.skip(1))
    }
}

pub fn rewrite_block_tags(v: &Vec<char>) -> (r: Vec<char>)
    ensures
        r@ == rewrite_tags_spec(v@),
{
    let mut r: Vec<char> = Vec::new();
    let mut i: usize = 0;
    proof {
        assert(v@.skip(0) =~= v@);
    }
    while i < v.len()
        invariant
            i <= v.len(),
            rewrite_tags_spec(v@) == r@ + rewrite_tags_spec(v@.skip(i as int)),
        decreases v.len() - i,
    {
        let ghost s = v@.skip(i as int);
        let ghost old_r = r@;
        proof {
            assert forall|k: int| 0 <= k < s.len() implies s[k] == v@[i + k] by {}
        }
        let n = v.len() - i;
        let step: usize;
        if n >= 4 && v[i] == '<' && v[i + 1] == 'b' && v[i + 2] == 'r' && v[i + 3] == '>' {
            r.push('\n');
            step = 4;
            proof {
                assert(starts_br(s));
                assert(rewrite_tags_spec(s) == seq!['\n'] + rewrite_tags_spec(s.skip(4)));
                assert(r@ =~= old_r + seq!['\n']);
            }
        } else if n >= 5 && v[i] == '<' && v[i + 1] == 'b' && v[i + 2] == 'r' && v[i + 3] == '/'
            && v[i + 4] == '>' {
            r.push('\n');
            step = 5;
            proof {
                assert(starts_br_self(s) && !starts_br(s));
                assert(rewrite_tags_spec(s) == seq!['\n'] + rewrite_tags_spec(s.skip(5)));
                assert(r@ =~= old_r + seq!['\n']);
            }
        } else if n >= 6 && v[i] == '<' && v[i + 1] == 'b' && v[i + 2] == 'r' && v[i + 3] == ' '
            && v[i + 4] == '/' && v[i + 5] == '>' {
            r.push('\n');
            step = 6;
            proof {
                assert(starts_br_spaced(s) && !starts_br(s) && !starts_br_self(s));
                assert(rewrite_tags_spec(s) == seq!['\n'] + rewrite_tags_spec(s.skip(6)));
                assert(r@ =~= old_r + seq!['\n']);
            }
        } else if n >= 4 && v[i] == '<' && v[i + 1] == '/' && v[i + 2] == 'p' && v[i + 3] == '>' {
            r.push('\n');
            step = 4;
            proof {
                assert(starts_p_close(s) && !starts_br(s) && !starts_br_self(s) && !starts_br_spaced(
                    s,
                ));
                assert(rewrite_tags_spec(s) == seq!['\n'] + rewrite_tags_spec(s.skip(4)));
                assert(r@ =~= old_r + seq!['\n']);
            }
        } else if n >= 6 && v[i] == '<' && v[i + 1] == '/' && v[i + 2] == 'd' && v[i + 3] == 'i'
            && v[i + 4] == 'v' && v[i + 5] == '>' {
            r.push('\n');
            step = 6;
            proof {
                assert(starts_div_close(s) && !starts_br(s) && !starts_br_self(s)
                    && !starts_br_spaced(s) && !starts_p_close(s));
                assert(rewrite_tags_spec(s) == seq!['\n'] + rewrite_tags_spec(s.skip(6)));
                assert(r@ =~= old_r + seq!['\n']);
            }
        } else {
            r.push(v[i]);
            step = 1;
            proof {
                assert(!starts_br(s) && !starts_br_self(s) && !starts_br_spaced(s) && !starts_p_close(
                    s,
                ) && !starts_div_close(s));
                assert(s[0] == v@[i as int]);
                assert(rewrite_tags_spec(s) == seq![s[0]] + rewrite_tags_spec(s.skip(1)));
                assert(r@ =~= old_r + seq![s[0]]);
            }
        }
        proof {
            assert(s.skip(step as int) =~= v@.skip(i as int + step as int));
            assert(old_r + rewrite_tags_spec(s) =~= r@ + rewrite_tags_spec(
                v@.skip(i as int + step as int),
            ));
        }
        i = i + step;
    }
    proof {
        assert(v@.skip(v.len() as int) =~= Seq::<char>::empty());
        assert(r@ + Seq::<char>::empty() =~= r@);
    }
    r
}

} // verus!
