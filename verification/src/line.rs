//! The clause line format: whitespace-trimmed, space-separated signed
//! 32-bit integers.  A line is read as follows: leading and trailing
//! white space is removed, each pair of consecutive spaces (scanning from
//! the left, without overlap) becomes one space, the result is split at
//! every space, and every piece must be a decimal integer with an
//! optional sign that fits in `i32`.
use vstd::prelude::*;

verus! {

/// The Unicode `White_Space` characters.
pub open spec fn is_white_space(c: char) -> bool {
    let u = c as u32;
    ||| 0x09 <= u <= 0x0D
    ||| u == 0x20
    ||| u == 0x85
    ||| u == 0xA0
    ||| u == 0x1680
    ||| 0x2000 <= u <= 0x200A
    ||| u == 0x2028
    ||| u == 0x2029
    ||| u == 0x202F
    ||| u == 0x205F
    ||| u == 0x3000
}

/// `s` without its leading white space.
pub open spec fn trim_start(s: Seq<char>) -> Seq<char>
    decreases s.len(),
{
    if s.len() > 0 && is_white_space(s[0]) {
        trim_start(s.drop_first())
    } else {
        s
    }
}

/// `s` without its trailing white space.
pub open spec fn trim_end(s: Seq<char>) -> Seq<char>
    decreases s.len(),
{
    if s.len() > 0 && is_white_space(s.last()) {
        trim_end(s.drop_last())
    } else {
        s
    }
}

/// `s` without leading and trailing white space.
pub open spec fn trim(s: Seq<char>) -> Seq<char> {
    trim_end(trim_start(s))
}

/// `s` with each pair of consecutive spaces, found from the left without
/// overlap, replaced by one space.
pub open spec fn collapse_double_spaces(s: Seq<char>) -> Seq<char>
    decreases s.len(),
{
    if s.len() >= 2 && s[0] == ' ' && s[1] == ' ' {
        seq![' '] + collapse_double_spaces(s.skip(2))
    } else if s.len() == 0 {
        Seq::empty()
    } else {
        seq![s[0]] + collapse_double_spaces(s.drop_first())
    }
}

/// The pieces of `s` between its spaces; `n` spaces give `n + 1` pieces,
/// some possibly empty.
pub open spec fn split_on_space(s: Seq<char>) -> Seq<Seq<char>>
    decreases s.len(),
{
    if s.len() == 0 {
        seq![Seq::empty()]
    } else {
        let p = split_on_space(s.drop_last());
        if s.last() == ' ' {
            p.push(Seq::empty())
        } else {
            p.update(p.len() - 1, p.last().push(s.last()))
        }
    }
}

/// Every character is an ASCII decimal digit.
pub open spec fn is_digits(d: Seq<char>) -> bool {
    forall|i: int| 0 <= i < d.len() ==> 48 <= #[trigger] (d[i] as u32) <= 57
}

/// The number that a string of decimal digits denotes.
pub open spec fn digits_value(d: Seq<char>) -> int
    decreases d.len(),
{
    if d.len() == 0 {
        0
    } else {
        digits_value(d.drop_last()) * 10 + ((d.last() as u32) - 48)
    }
}

/// The `i32` that `t` denotes: an optional `+` or `-`, then at least one
/// decimal digit, and a value within the range of `i32`.
pub open spec fn parse_i32(t: Seq<char>) -> Option<i32> {
    if t.len() == 0 {
        None
    } else {
        let d = if t[0] == '-' || t[0] == '+' {
            t.drop_first()
        } else {
            t
        };
        if d.len() == 0 || !is_digits(d) {
            None
        } else {
            let v = if t[0] == '-' {
                -digits_value(d)
            } else {
                digits_value(d)
            };
            if i32::MIN <= v <= i32::MAX {
                Some(v as i32)
            } else {
                None
            }
        }
    }
}

/// The values of all pieces, when every piece is an `i32`.
pub open spec fn parse_all(toks: Seq<Seq<char>>) -> Option<Seq<i32>>
    decreases toks.len(),
{
    if toks.len() == 0 {
        Some(Seq::empty())
    } else {
        match (parse_all(toks.drop_last()), parse_i32(toks.last())) {
            (Some(vs), Some(v)) => Some(vs.push(v)),
            _ => None,
        }
    }
}

/// The values that a line holds, or `None` when it is not a well-formed line.
pub open spec fn line_values(s: Seq<char>) -> Option<Seq<i32>> {
    parse_all(split_on_space(collapse_double_spaces(trim(s))))
}

/// The contents of a list of character vectors.
pub open spec fn char_views(v: Seq<Vec<char>>) -> Seq<Seq<char>> {
    v.map_values(|x: Vec<char>| x@)
}

/// A well-formed line has at least one value.
pub proof fn lemma_line_values_nonempty(s: Seq<char>)
    requires
        line_values(s) is Some,
    ensures
        line_values(s)->0.len() >= 1,
{
    let toks = split_on_space(collapse_double_spaces(trim(s)));
    lemma_split_nonempty(collapse_double_spaces(trim(s)));
    lemma_parse_all_len(toks);
}

proof fn lemma_split_nonempty(s: Seq<char>)
    ensures
        split_on_space(s).len() >= 1,
    decreases s.len(),
{
    if s.len() > 0 {
        lemma_split_nonempty(s.drop_last());
    }
}

proof fn lemma_parse_all_len(toks: Seq<Seq<char>>)
    requires
        parse_all(toks) is Some,
    ensures
        parse_all(toks)->0.len() == toks.len(),
        forall|i: int| 0 <= i < toks.len() ==> parse_i32(#[trigger] toks[i]) == Some(parse_all(toks)->0[i]),
    decreases toks.len(),
{
    if toks.len() > 0 {
        lemma_parse_all_len(toks.drop_last());
        assert forall|i: int| 0 <= i < toks.len() implies parse_i32(#[trigger] toks[i]) == Some(
            parse_all(toks)->0[i],
        ) by {
            if i < toks.len() - 1 {
                assert(toks[i] == toks.drop_last()[i]);
            }
        }
    }
}

/// Whether `c` is one of the Unicode `White_Space` characters.
pub fn is_white_space_char(c: char) -> (r: bool)
    ensures
        r == is_white_space(c),
{
    let u = c as u32;
    (0x09 <= u && u <= 0x0D) || u == 0x20 || u == 0x85 || u == 0xA0 || u == 0x1680 || (0x2000 <= u
        && u <= 0x200A) || u == 0x2028 || u == 0x2029 || u == 0x202F || u == 0x205F || u == 0x3000
}

fn chars_of(s: &str) -> (r: Vec<char>)
    ensures
        r@ == s@,
{
    let mut r: Vec<char> = Vec::new();
    for c in it: s.chars()
        invariant
            r@ == it.seq().take(it.index() as int),
    {
        r.push(c);
        assert(r@ =~= it.seq().take(it.index() + 1));
    }
    r
}

fn trim_chars(s: &Vec<char>) -> (r: Vec<char>)
    ensures
        r@ == trim(s@),
{
    let mut start: usize = 0;
    assert(s@.skip(0) =~= s@);
    while start < s.len() && is_white_space_char(s[start])
        invariant
            start <= s.len(),
            trim_start(s@) == trim_start(s@.skip(start as int)),
        decreases s.len() - start,
    {
        assert(s@.skip(start as int).drop_first() =~= s@.skip(start + 1));
        start += 1;
    }
    let ghost t = s@.skip(start as int);
    assert(trim_start(s@) == t);
    let mut end: usize = s.len();
    assert(t =~= s@.subrange(start as int, end as int));
    while end > start && is_white_space_char(s[end - 1])
        invariant
            start <= end <= s.len(),
            trim_end(t) == trim_end(s@.subrange(start as int, end as int)),
        decreases end - start,
    {
        assert(s@.subrange(start as int, end as int).drop_last() =~= s@.subrange(
            start as int,
            end - 1,
        ));
        end -= 1;
    }
    let mut r: Vec<char> = Vec::new();
    let mut i: usize = start;
    while i < end
        invariant
            start <= i <= end <= s.len(),
            r@ == s@.subrange(start as int, i as int),
        decreases end - i,
    {
        r.push(s[i]);
        i += 1;
        assert(r@ =~= s@.subrange(start as int, i as int));
    }
    r
}

fn collapse_chars(s: &Vec<char>) -> (r: Vec<char>)
    ensures
        r@ == collapse_double_spaces(s@),
{
    let mut r: Vec<char> = Vec::new();
    let mut i: usize = 0;
    assert(s@.skip(0) =~= s@);
    while i < s.len()
        invariant
            i <= s.len(),
            collapse_double_spaces(s@) == r@ + collapse_double_spaces(s@.skip(i as int)),
        decreases s.len() - i,
    {
        let ghost rest = s@.skip(i as int);
        if i + 1 < s.len() && s[i] == ' ' && s[i + 1] == ' ' {
            assert(rest.skip(2) =~= s@.skip(i + 2));
            assert(r@.push(' ') + collapse_double_spaces(s@.skip(i + 2)) =~= r@ + (seq![' ']
                + collapse_double_spaces(rest.skip(2))));
            r.push(' ');
            i += 2;
        } else {
            assert(rest.drop_first() =~= s@.skip(i + 1));
            assert(r@.push(s[i as int]) + collapse_double_spaces(s@.skip(i + 1)) =~= r@ + (seq![
                s[i as int],
            ] + collapse_double_spaces(rest.drop_first())));
            r.push(s[i]);
            i += 1;
        }
    }
    assert(s@.skip(i as int) =~= Seq::<char>::empty());
    assert(r@ + Seq::<char>::empty() =~= r@);
    r
}

fn split_chars(s: &Vec<char>) -> (r: Vec<Vec<char>>)
    ensures
        char_views(r@) == split_on_space(s@),
{
    let mut toks: Vec<Vec<char>> = Vec::new();
    let mut cur: Vec<char> = Vec::new();
    let mut i: usize = 0;
    assert(s@.take(0) =~= Seq::<char>::empty());
    assert(char_views(toks@).push(cur@) =~= seq![Seq::<char>::empty()]);
    while i < s.len()
        invariant
            i <= s.len(),
            char_views(toks@).push(cur@) == split_on_space(s@.take(i as int)),
        decreases s.len() - i,
    {
        assert(s@.take(i + 1).drop_last() =~= s@.take(i as int));
        let c = s[i];
        if c == ' ' {
            let ghost before = char_views(toks@).push(cur@);
            let done = cur;
            cur = Vec::new();
            toks.push(done);
            assert(char_views(toks@) =~= before);
            assert(char_views(toks@).push(cur@) =~= before.push(Seq::empty()));
        } else {
            let ghost before = char_views(toks@).push(cur@);
            cur.push(c);
            assert(char_views(toks@).push(cur@) =~= before.update(
                before.len() - 1,
                before.last().push(c),
            ));
        }
        i += 1;
    }
    assert(s@.take(s.len() as int) =~= s@);
    let ghost before = char_views(toks@).push(cur@);
    toks.push(cur);
    assert(char_views(toks@) =~= before);
    toks
}

proof fn lemma_digits_prefix(d: Seq<char>, k: int)
    requires
        is_digits(d),
        0 <= k <= d.len(),
    ensures
        0 <= digits_value(d.take(k)) <= digits_value(d),
    decreases d.len(),
{
    if d.len() > 0 {
        if k == d.len() {
            assert(d.take(k) =~= d);
            lemma_digits_prefix(d.drop_last(), 0);
            assert(d.drop_last().take(0) =~= d.take(0));
        } else {
            assert(d.drop_last().take(k) =~= d.take(k));
            lemma_digits_prefix(d.drop_last(), k);
        }
        assert(48 <= (d[d.len() - 1] as u32) <= 57);
    } else {
        assert(d.take(k) =~= d);
    }
}

fn parse_i32_chars(t: &Vec<char>) -> (r: Option<i32>)
    ensures
        r == parse_i32(t@),
{
    if t.len() == 0 {
        return None;
    }
    let neg = t[0] == '-';
    let start: usize = if t[0] == '-' || t[0] == '+' {
        1
    } else {
        0
    };
    let ghost d = if t@[0] == '-' || t@[0] == '+' {
        t@.drop_first()
    } else {
        t@
    };
    assert(d =~= t@.skip(start as int));
    if start == t.len() {
        return None;
    }
    let mut acc: u64 = 0;
    let mut i: usize = start;
    assert(d.take(0) =~= Seq::<char>::empty());
    while i < t.len()
        invariant
            start <= i <= t.len(),
            t@.len() > 0,
            neg == (t@[0] == '-'),
            d == (if t@[0] == '-' || t@[0] == '+' {
                t@.drop_first()
            } else {
                t@
            }),
            d == t@.skip(start as int),
            is_digits(d.take(i - start)),
            acc == digits_value(d.take(i - start)),
            acc <= 2147483648,
        decreases t.len() - i,
    {
        let u = t[i] as u32;
        assert(d[i - start] == t@[i as int]);
        if u < 48 || u > 57 {
            assert(!is_digits(d));
            assert(parse_i32(t@) is None);
            return None;
        }
        assert(d.take(i - start + 1).drop_last() =~= d.take(i - start));
        acc = acc * 10 + (u - 48) as u64;
        i += 1;
        assert(is_digits(d.take(i - start)));
        if acc > 2147483648 {
            proof {
                if is_digits(d) {
                    lemma_digits_prefix(d, i - start);
                    assert(digits_value(d) > 2147483648);
                }
            }
            assert(parse_i32(t@) is None);
            return None;
        }
    }
    assert(d.take(i - start) =~= d);
    if neg {
        Some((0 - acc as i64) as i32)
    } else if acc <= 2147483647 {
        Some(acc as i32)
    } else {
        None
    }
}

/// The values on a line, or `None` when the line is not well formed.
pub fn parse_line(line: &str) -> (r: Option<Vec<i32>>)
    ensures
        match r {
            Some(v) => line_values(line@) == Some(v@),
            None => line_values(line@) is None,
        },
{
    let chars = chars_of(line);
    let trimmed = trim_chars(&chars);
    let collapsed = collapse_chars(&trimmed);
    let toks = split_chars(&collapsed);
    let ghost tv = char_views(toks@);
    let mut vals: Vec<i32> = Vec::new();
    let mut i: usize = 0;
    assert(tv.take(0) =~= Seq::<Seq<char>>::empty());
    while i < toks.len()
        invariant
            i <= toks.len(),
            tv == char_views(toks@),
            tv == split_on_space(collapse_double_spaces(trim(line@))),
            parse_all(tv.take(i as int)) == Some(vals@),
        decreases toks.len() - i,
    {
        assert(tv.take(i + 1).drop_last() =~= tv.take(i as int));
        assert(tv[i as int] == toks@[i as int]@);
        match parse_i32_chars(&toks[i]) {
            None => {
                proof {
                    assert(tv.take(i + 1).last() == tv[i as int]);
                    assert(parse_all(tv.take(i + 1)) is None);
                    lemma_parse_all_prefix(tv, i + 1);
                }
                return None;
            },
            Some(v) => {
                vals.push(v);
            },
        }
        i += 1;
    }
    assert(tv.take(toks.len() as int) =~= tv);
    Some(vals)
}

proof fn lemma_parse_all_prefix(toks: Seq<Seq<char>>, k: int)
    requires
        0 <= k <= toks.len(),
        parse_all(toks.take(k)) is None,
    ensures
        parse_all(toks) is None,
    decreases toks.len() - k,
{
    if k < toks.len() {
        assert(toks.take(k + 1).drop_last() =~= toks.take(k));
        lemma_parse_all_prefix(toks, k + 1);
    } else {
        assert(toks.take(k) =~= toks);
    }
}

/// The tokens written one after the other, a single space between two.
pub open spec fn join_tokens(toks: Seq<Seq<char>>) -> Seq<char>
    decreases toks.len(),
{
    if toks.len() <= 1 {
        if toks.len() == 0 {
            Seq::empty()
        } else {
            toks[0]
        }
    } else {
        join_tokens(toks.drop_last()) + seq![' '] + toks.last()
    }
}

/// A token: at least one character, and no white space.
pub open spec fn is_token(t: Seq<char>) -> bool {
    t.len() >= 1 && forall|j: int| 0 <= j < t.len() ==> !is_white_space(#[trigger] t[j])
}

/// No two consecutive spaces.
pub open spec fn no_double_space(s: Seq<char>) -> bool {
    forall|i: int| 0 <= i < s.len() - 1 ==> !(#[trigger] s[i] == ' ' && s[i + 1] == ' ')
}

proof fn lemma_join_shape(toks: Seq<Seq<char>>)
    requires
        toks.len() >= 1,
        forall|i: int| 0 <= i < toks.len() ==> is_token(#[trigger] toks[i]),
    ensures
        join_tokens(toks).len() >= 1,
        join_tokens(toks)[0] == toks[0][0],
        join_tokens(toks).last() == toks.last().last(),
        no_double_space(join_tokens(toks)),
        split_on_space(join_tokens(toks)) == toks,
    decreases toks.len(),
{
    let j = join_tokens(toks);
    let t = toks.last();
    assert(is_token(toks[toks.len() - 1]));
    assert(!is_white_space(t[0]));
    assert(t[0] != ' ');
    lemma_split_token(Seq::empty(), t);
    if toks.len() == 1 {
        assert(Seq::<char>::empty() + t =~= t);
        assert(seq![Seq::<char>::empty()].update(0, Seq::<char>::empty() + t) =~= toks);
        assert forall|i: int| 0 <= i < j.len() - 1 implies !(#[trigger] j[i] == ' ' && j[i + 1] == ' ') by {
            assert(!is_white_space(t[i]));
        }
    } else {
        let d = toks.drop_last();
        assert forall|i: int| 0 <= i < d.len() implies is_token(#[trigger] d[i]) by {
            assert(d[i] == toks[i]);
        }
        lemma_join_shape(d);
        let a = join_tokens(d);
        assert(d.last() == toks[toks.len() - 2]);
        assert(is_token(toks[toks.len() - 2]));
        assert(!is_white_space(d.last().last()));
        let a1 = a + seq![' '];
        assert(a1.drop_last() =~= a);
        assert(split_on_space(a1) == split_on_space(a).push(Seq::empty()));
        lemma_split_token(a1, t);
        assert(j == a1 + t);
        assert(split_on_space(a).push(Seq::empty()).update(d.len() as int, Seq::<char>::empty() + t) =~= toks);
        assert(j[0] == a[0]);
        assert(j.last() == t.last());
        assert forall|i: int| 0 <= i < j.len() - 1 implies !(#[trigger] j[i] == ' ' && j[i + 1] == ' ') by {
            if i < a.len() - 1 {
                assert(j[i] == a[i] && j[i + 1] == a[i + 1]);
            } else if i == a.len() - 1 {
                assert(j[i] == a.last());
            } else if i == a.len() {
                assert(j[i + 1] == t[0]);
            } else {
                assert(j[i] == t[i - a.len() - 1]);
                assert(!is_white_space(t[i - a.len() - 1]));
            }
        }
    }
}

proof fn lemma_split_token(x: Seq<char>, t: Seq<char>)
    requires
        forall|j: int| 0 <= j < t.len() ==> #[trigger] t[j] != ' ',
    ensures
        split_on_space(x + t) == split_on_space(x).update(
            split_on_space(x).len() - 1,
            split_on_space(x).last() + t,
        ),
        split_on_space(x + t).len() == split_on_space(x).len(),
    decreases t.len(),
{
    lemma_split_nonempty(x);
    if t.len() == 0 {
        assert(x + t =~= x);
        assert(split_on_space(x).last() + t =~= split_on_space(x).last());
        assert(split_on_space(x).update(split_on_space(x).len() - 1, split_on_space(x).last())
            =~= split_on_space(x));
    } else {
        let t0 = t.drop_last();
        assert forall|j: int| 0 <= j < t0.len() implies #[trigger] t0[j] != ' ' by {
            assert(t0[j] == t[j]);
        }
        lemma_split_token(x, t0);
        assert((x + t).drop_last() =~= x + t0);
        assert((x + t).last() == t.last());
        assert(t.last() != ' ');
        let p = split_on_space(x);
        assert((p.last() + t0).push(t.last()) =~= p.last() + t);
        assert(p.update(p.len() - 1, p.last() + t0).update(p.len() - 1, (p.last() + t0).push(t.last()))
            =~= p.update(p.len() - 1, p.last() + t));
    }
}

proof fn lemma_trim_token_line(s: Seq<char>)
    requires
        s.len() >= 1,
        !is_white_space(s[0]),
        !is_white_space(s.last()),
    ensures
        trim(s) == s,
{
    assert(trim_start(s) == s);
    assert(trim_end(s) == s);
}

proof fn lemma_collapse_none(s: Seq<char>)
    requires
        no_double_space(s),
    ensures
        collapse_double_spaces(s) == s,
    decreases s.len(),
{
    if s.len() > 0 {
        if s.len() >= 2 {
            assert(!(s[0] == ' ' && s[1] == ' '));
        }
        let r = s.drop_first();
        assert forall|i: int| 0 <= i < r.len() - 1 implies !(#[trigger] r[i] == ' ' && r[i + 1] == ' ') by {
            assert(r[i] == s[i + 1] && r[i + 1] == s[i + 2]);
        }
        lemma_collapse_none(r);
        assert(seq![s[0]] + r =~= s);
    }
}

/// A line of tokens with one space between two reads as the values of its
/// tokens: it is well formed exactly when each token is a decimal `i32`.
pub proof fn law_line_of_tokens(toks: Seq<Seq<char>>)
    requires
        toks.len() >= 1,
        forall|i: int| 0 <= i < toks.len() ==> is_token(#[trigger] toks[i]),
    ensures
        line_values(join_tokens(toks)) == parse_all(toks),
{
    lemma_join_shape(toks);
    let j = join_tokens(toks);
    assert(is_token(toks[0]));
    assert(is_token(toks[toks.len() - 1]));
    lemma_trim_token_line(j);
    lemma_collapse_none(j);
}

/// White space around a line does not change what it reads as.
pub proof fn law_line_surrounding_space(pre: Seq<char>, s: Seq<char>, post: Seq<char>)
    requires
        forall|i: int| 0 <= i < pre.len() ==> is_white_space(#[trigger] pre[i]),
        forall|i: int| 0 <= i < post.len() ==> is_white_space(#[trigger] post[i]),
    ensures
        line_values(pre + s + post) == line_values(s),
{
    lemma_trim_around(pre, s, post);
}

proof fn lemma_trim_start_ws(pre: Seq<char>, x: Seq<char>)
    requires
        forall|i: int| 0 <= i < pre.len() ==> is_white_space(#[trigger] pre[i]),
    ensures
        trim_start(pre + x) == trim_start(x),
    decreases pre.len(),
{
    if pre.len() > 0 {
        let r = pre.drop_first();
        assert forall|i: int| 0 <= i < r.len() implies is_white_space(#[trigger] r[i]) by {
            assert(r[i] == pre[i + 1]);
        }
        assert((pre + x)[0] == pre[0]);
        assert((pre + x).drop_first() =~= r + x);
        lemma_trim_start_ws(r, x);
    } else {
        assert(pre + x =~= x);
    }
}

proof fn lemma_trim_end_ws(x: Seq<char>, post: Seq<char>)
    requires
        forall|i: int| 0 <= i < post.len() ==> is_white_space(#[trigger] post[i]),
    ensures
        trim_end(x + post) == trim_end(x),
    decreases post.len(),
{
    if post.len() > 0 {
        let r = post.drop_last();
        assert forall|i: int| 0 <= i < r.len() implies is_white_space(#[trigger] r[i]) by {
            assert(r[i] == post[i]);
        }
        assert((x + post).last() == post.last());
        assert(is_white_space(post[post.len() - 1]));
        assert((x + post).drop_last() =~= x + r);
        lemma_trim_end_ws(x, r);
    } else {
        assert(x + post =~= x);
    }
}

proof fn lemma_trim_start_end(x: Seq<char>, post: Seq<char>)
    requires
        forall|i: int| 0 <= i < post.len() ==> is_white_space(#[trigger] post[i]),
    ensures
        trim_end(trim_start(x + post)) == trim_end(trim_start(x)),
    decreases x.len(),
{
    if x.len() > 0 && is_white_space(x[0]) {
        assert((x + post)[0] == x[0]);
        assert((x + post).drop_first() =~= x.drop_first() + post);
        lemma_trim_start_end(x.drop_first(), post);
    } else if x.len() > 0 {
        assert((x + post)[0] == x[0]);
        assert(trim_start(x + post) == x + post);
        lemma_trim_end_ws(x, post);
    } else {
        assert(x + post =~= post);
        lemma_trim_start_ws(post, Seq::empty());
        assert(post + Seq::<char>::empty() =~= post);
        assert(trim_start(Seq::<char>::empty()) == Seq::<char>::empty());
        assert(trim_end(Seq::<char>::empty()) == Seq::<char>::empty());
    }
}

proof fn lemma_trim_around(pre: Seq<char>, s: Seq<char>, post: Seq<char>)
    requires
        forall|i: int| 0 <= i < pre.len() ==> is_white_space(#[trigger] pre[i]),
        forall|i: int| 0 <= i < post.len() ==> is_white_space(#[trigger] post[i]),
    ensures
        trim(pre + s + post) == trim(s),
{
    assert(pre + s + post =~= pre + (s + post));
    lemma_trim_start_ws(pre, s + post);
    lemma_trim_start_end(s, post);
}

} // verus!
