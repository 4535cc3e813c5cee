//! Characters, lines and whitespace-separated tokens of a recipe text.
use vstd::prelude::*;

verus! {

/// The characters with Unicode's `White_Space` property, which separate tokens.
pub open spec fn is_space(c: char) -> bool {
    let u = c as u32;
    ||| 0x9 <= u <= 0xd
    ||| u == 0x20
    ||| u == 0x85
    ||| u == 0xa0
    ||| u == 0x1680
    ||| 0x2000 <= u <= 0x200a
    ||| u == 0x2028
    ||| u == 0x2029
    ||| u == 0x202f
    ||| u == 0x205f
    ||| u == 0x3000
}

pub open spec fn is_line_feed(c: char) -> bool {
    c == '\n'
}

/// Length of the longest prefix of `s` holding no character for which `stop` holds.
pub open spec fn run_len(s: Seq<char>, stop: spec_fn(char) -> bool) -> nat
    decreases s.len(),
{
    if s.len() == 0 || stop(s[0]) {
        0
    } else {
        1 + run_len(s.drop_first(), stop)
    }
}

/// `s` cut at each line feed, the line feeds dropped; a text ending in a line feed
/// ends with an empty line.
pub open spec fn lines_of(s: Seq<char>) -> Seq<Seq<char>>
    decreases s.len(),
{
    let n = run_len(s, |c: char| is_line_feed(c));
    if n >= s.len() {
        seq![s]
    } else {
        seq![s.take(n as int)] + lines_of(s.skip(n + 1 as int))
    }
}

/// The maximal runs of non-whitespace characters of `s`, in order.
pub open spec fn tokens_of(s: Seq<char>) -> Seq<Seq<char>>
    decreases s.len(),
{
    if s.len() == 0 {
        seq![]
    } else if is_space(s[0]) {
        tokens_of(s.drop_first())
    } else {
        let n = run_len(s, |c: char| is_space(c));
        proof {
            lemma_run_len_bounds(s, |c: char| is_space(c));
        }
        seq![s.take(n as int)] + tokens_of(s.skip(n as int))
    }
}

/// A token: non-empty, without whitespace.
pub open spec fn is_token(w: Seq<char>) -> bool {
    w.len() > 0 && forall|i: int| 0 <= i < w.len() ==> !is_space(#[trigger] w[i])
}

/// The characters of `c` that the span `sp` (a start and an end index) covers.
pub open spec fn span_text(c: Seq<char>, sp: (usize, usize)) -> Seq<char> {
    c.subrange(sp.0 as int, sp.1 as int)
}

pub open spec fn spans_text(c: Seq<char>, v: Seq<(usize, usize)>) -> Seq<Seq<char>> {
    v.map_values(|sp: (usize, usize)| span_text(c, sp))
}

pub proof fn lemma_run_len_bounds(s: Seq<char>, stop: spec_fn(char) -> bool)
    ensures
        run_len(s, stop) <= s.len(),
        s.len() > 0 && !stop(s[0]) ==> run_len(s, stop) >= 1,
        forall|i: int| 0 <= i < run_len(s, stop) ==> !stop(#[trigger] s[i]),
        run_len(s, stop) < s.len() ==> stop(s[run_len(s, stop) as int]),
    decreases s.len(),
{
    if s.len() > 0 && !stop(s[0]) {
        lemma_run_len_bounds(s.drop_first(), stop);
        assert forall|i: int| 0 <= i < run_len(s, stop) implies !stop(#[trigger] s[i]) by {
            if i > 0 {
                assert(s[i] == s.drop_first()[i - 1]);
            }
        }
    }
}

/// A prefix of length `m` free of `stop`, followed by the end or by a `stop`
/// character, is the run.
pub proof fn lemma_run_len_exact(s: Seq<char>, stop: spec_fn(char) -> bool, m: int)
    requires
        0 <= m <= s.len(),
        forall|i: int| 0 <= i < m ==> !stop(#[trigger] s[i]),
        m == s.len() || stop(s[m]),
    ensures
        run_len(s, stop) == m,
    decreases m,
{
    if m > 0 {
        assert(!stop(s[0]));
        let t = s.drop_first();
        assert forall|i: int| 0 <= i < m - 1 implies !stop(#[trigger] t[i]) by {
            assert(t[i] == s[i + 1]);
        }
        if m < s.len() {
            assert(t[m - 1] == s[m]);
        }
        lemma_run_len_exact(t, stop, m - 1);
    }
}

/// Tells whether `c` is whitespace.
pub fn is_space_char(c: char) -> (r: bool)
    ensures
        r == is_space(c),
{
    let u = c as u32;
    (0x9 <= u && u <= 0xd) || u == 0x20 || u == 0x85 || u == 0xa0 || u == 0x1680
        || (0x2000 <= u && u <= 0x200a) || u == 0x2028 || u == 0x2029 || u == 0x202f
        || u == 0x205f || u == 0x3000
}

/// Copies the characters of `s` into a vector, for constant-time access by index.
pub fn chars_of(s: &str) -> (r: Vec<char>)
    ensures
        r@ == s@,
{
    let mut r: Vec<char> = Vec::new();
    for c in it: s.chars()
        invariant
            r@ == it.seq().take(it.index() as int),
            it.seq() == s@,
    {
        r.push(c);
    }
    r
}

/// The index of the first line feed at or after `start`, or the length of `c`.
pub fn line_end(c: &Vec<char>, start: usize) -> (e: usize)
    requires
        start <= c@.len(),
    ensures
        start <= e <= c@.len(),
        e - start == run_len(c@.skip(start as int), |ch: char| is_line_feed(ch)),
{
    let mut e = start;
    while e < c.len() && c[e] != '\n'
        invariant
            start <= e <= c@.len(),
            forall|k: int| start <= k < e ==> c@[k] != '\n',
        decreases c@.len() - e,
    {
        e = e + 1;
    }
    let ghost s = c@.skip(start as int);
    proof {
        assert forall|i: int| 0 <= i < e - start implies !is_line_feed(#[trigger] s[i]) by {
            assert(s[i] == c@[start + i]);
        }
        if e < c@.len() {
            assert(s[e - start] == c@[e as int]);
        }
        lemma_run_len_exact(s, |ch: char| is_line_feed(ch), e - start);
    }
    e
}

/// The tokens of the characters `c[start..end]`, as spans of `c`.
pub fn tokenize(c: &Vec<char>, start: usize, end: usize) -> (r: Vec<(usize, usize)>)
    requires
        start <= end <= c@.len(),
    ensures
        spans_text(c@, r@) == tokens_of(c@.subrange(start as int, end as int)),
        forall|k: int| 0 <= k < r@.len() ==> start <= (#[trigger] r@[k]).0 < r@[k].1 <= end,
{
    let ghost line = c@.subrange(start as int, end as int);
    let mut r: Vec<(usize, usize)> = Vec::new();
    let mut i = start;
    assert(line.skip(0) =~= line);
    assert(spans_text(c@, r@) + tokens_of(line) =~= tokens_of(line));
    while i < end
        invariant
            start <= i <= end <= c@.len(),
            line == c@.subrange(start as int, end as int),
            tokens_of(line) == spans_text(c@, r@) + tokens_of(line.skip(i - start)),
            forall|k: int| 0 <= k < r@.len() ==> start <= (#[trigger] r@[k]).0 < r@[k].1 <= i,
        decreases end - i,
    {
        let ghost rest = line.skip(i - start);
        assert(rest[0] == c@[i as int]);
        if is_space_char(c[i]) {
            assert(rest.drop_first() =~= line.skip(i + 1 - start));
            i = i + 1;
        } else {
            let mut j = i + 1;
            while j < end && !is_space_char(c[j])
                invariant
                    i < j <= end <= c@.len(),
                    forall|k: int| i <= k < j ==> !is_space(#[trigger] c@[k]),
                decreases end - j,
            {
                j = j + 1;
            }
            proof {
                assert forall|k: int| 0 <= k < j - i implies !is_space(#[trigger] rest[k]) by {
                    assert(rest[k] == c@[i + k]);
                }
                if j < end {
                    assert(rest[j - i] == c@[j as int]);
                }
                lemma_run_len_exact(rest, |ch: char| is_space(ch), j - i);
                assert(rest.take(j - i) =~= c@.subrange(i as int, j as int));
                assert(rest.skip(j - i) =~= line.skip(j - start));
            }
            let ghost before = r@;
            r.push((i, j));
            assert(spans_text(c@, r@) =~= spans_text(c@, before) + seq![c@.subrange(i as int, j as int)]);
            i = j;
        }
    }
    assert(line.skip(i - start).len() == 0);
    assert(spans_text(c@, r@) + tokens_of(line.skip(i - start)) =~= spans_text(c@, r@));
    r
}

/// Tells whether the span `sp` of `c` spells `word`.
pub fn span_is(c: &Vec<char>, sp: (usize, usize), word: &str) -> (r: bool)
    requires
        sp.0 <= sp.1 <= c@.len(),
    ensures
        r == (span_text(c@, sp) == word@),
{
    let n = word.unicode_len();
    if sp.1 - sp.0 != n {
        return false;
    }
    let mut k: usize = 0;
    while k < n
        invariant
            n == word@.len(),
            sp.1 - sp.0 == n,
            sp.0 <= sp.1 <= c@.len(),
            k <= n,
            forall|m: int| 0 <= m < k ==> c@[sp.0 + m] == word@[m],
        decreases n - k,
    {
        if c[sp.0 + k] != word.get_char(k) {
            assert(span_text(c@, sp)[k as int] != word@[k as int]);
            return false;
        }
        k = k + 1;
    }
    assert(span_text(c@, sp) =~= word@);
    true
}

/// Leading whitespace does not change the tokens.
pub proof fn lemma_tokens_skip_spaces(s: Seq<char>, k: int)
    requires
        0 <= k <= s.len(),
        forall|i: int| 0 <= i < k ==> is_space(#[trigger] s[i]),
    ensures
        tokens_of(s) == tokens_of(s.skip(k)),
    decreases k,
{
    if k == 0 {
        assert(s.skip(0) =~= s);
    } else {
        let t = s.drop_first();
        assert forall|i: int| 0 <= i < k - 1 implies is_space(#[trigger] t[i]) by {
            assert(t[i] == s[i + 1]);
        }
        lemma_tokens_skip_spaces(t, k - 1);
        assert(t.skip(k - 1) =~= s.skip(k));
    }
}

/// A token followed by the end or by whitespace is the first token.
pub proof fn lemma_tokens_word(w: Seq<char>, rest: Seq<char>)
    requires
        is_token(w),
        rest.len() == 0 || is_space(rest[0]),
    ensures
        tokens_of(w + rest) == seq![w] + tokens_of(rest),
{
    let s = w + rest;
    assert(s[0] == w[0]);
    assert forall|i: int| 0 <= i < w.len() implies !is_space(#[trigger] s[i]) by {
        assert(s[i] == w[i]);
    }
    if rest.len() > 0 {
        assert(s[w.len() as int] == rest[0]);
    }
    lemma_run_len_exact(s, |c: char| is_space(c), w.len() as int);
    assert(s.take(w.len() as int) =~= w);
    assert(s.skip(w.len() as int) =~= rest);
}

} // verus!
