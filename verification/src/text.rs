use vstd::prelude::*;
use vstd::utf8::encode_utf8;
use vstd::utf8::encode_scalar;

verus! {

broadcast use vstd::string::group_string_axioms;

/// The Unicode `White_Space` property: the characters that `str::trim` and
/// `char::is_whitespace` treat as whitespace.
pub open spec fn is_white_space(c: char) -> bool {
    let u = c as u32;
    ||| 0x9 <= u <= 0xd
    ||| u == 0x20
    ||| u == 0x85
    ||| u == 0xa0
    ||| u == 0x1680
    ||| 0x2000 <= u <= 0x200a
    ||| u == 0x2028
    ||| u == 0x2029
    ||| u == 0x202f
    ||| u == 0x205f
    ||| u == 0x3000
}

/// `s` without its leading whitespace.
pub open spec fn trim_start(s: Seq<char>) -> Seq<char>
    decreases s.len(),
{
    if s.len() > 0 && is_white_space(s[0]) {
        trim_start(s.drop_first())
    } else {
        s
    }
}

/// `s` without its trailing whitespace.
pub open spec fn trim_end(s: Seq<char>) -> Seq<char>
    decreases s.len(),
{
    if s.len() > 0 && is_white_space(s.last()) {
        trim_end(s.drop_last())
    } else {
        s
    }
}

/// `s` with leading and trailing whitespace removed.
pub open spec fn trim(s: Seq<char>) -> Seq<char> {
    trim_end(trim_start(s))
}

/// The pieces of `s` between newline characters: one more piece than there
/// are newlines, possibly empty.
pub open spec fn split_lines(s: Seq<char>) -> Seq<Seq<char>>
    decreases s.len(),
{
    if s.len() == 0 {
        seq![Seq::empty()]
    } else {
        let prev = split_lines(s.drop_last());
        if s.last() == '\n' {
            prev.push(Seq::empty())
        } else {
            prev.update(prev.len() - 1, prev.last().push(s.last()))
        }
    }
}

/// Number of bytes in the UTF-8 encoding of `s`.
pub open spec fn utf8_len(s: Seq<char>) -> nat {
    encode_utf8(s).len()
}

/// Whether `c` has the Unicode `White_Space` property.
pub fn is_white_space_char(c: char) -> (r: bool)
    ensures
        r == is_white_space(c),
{
    let u = c as u32;
    (0x9 <= u && u <= 0xd) || u == 0x20 || u == 0x85 || u == 0xa0 || u == 0x1680 || (0x2000 <= u
        && u <= 0x200a) || u == 0x2028 || u == 0x2029 || u == 0x202f || u == 0x205f || u == 0x3000
}

/// The characters of a string, in order.
pub fn chars_of(s: &str) -> (r: Vec<char>)
    ensures
        r@ == s@,
{
    let mut r: Vec<char> = Vec::new();
    for c in it: s.chars()
        invariant
            r@ == it.seq().take(it.index() as int),
    {
        r.push(c);
    }
    r
}

proof fn lemma_trim_start_skip(s: Seq<char>, i: int)
    requires
        0 <= i <= s.len(),
        forall|k: int| 0 <= k < i ==> is_white_space(#[trigger] s[k]),
    ensures
        trim_start(s) == trim_start(s.subrange(i, s.len() as int)),
    decreases i,
{
    if i > 0 {
        assert(s.drop_first().subrange(i - 1, s.drop_first().len() as int) =~= s.subrange(
            i,
            s.len() as int,
        ));
        lemma_trim_start_skip(s.drop_first(), i - 1);
    } else {
        assert(s.subrange(0, s.len() as int) =~= s);
    }
}

proof fn lemma_trim_end_skip(s: Seq<char>, j: int)
    requires
        0 <= j <= s.len(),
        forall|k: int| j <= k < s.len() ==> is_white_space(#[trigger] s[k]),
    ensures
        trim_end(s) == trim_end(s.subrange(0, j)),
    decreases s.len() - j,
{
    if j < s.len() {
        assert(s.drop_last().subrange(0, j) =~= s.subrange(0, j));
        lemma_trim_end_skip(s.drop_last(), j);
    } else {
        assert(s.subrange(0, j) =~= s);
    }
}

/// `s` with leading and trailing whitespace removed.
pub fn trim_chars(s: &[char]) -> (r: Vec<char>)
    ensures
        r@ == trim(s@),
{
    let n = s.len();
    let mut i: usize = 0;
    while i < n && is_white_space_char(s[i])
        invariant
            n == s@.len(),
            i <= n,
            forall|k: int| 0 <= k < i ==> is_white_space(#[trigger] s@[k]),
        decreases n - i,
    {
        i += 1;
    }
    proof {
        lemma_trim_start_skip(s@, i as int);
    }
    let ghost rest = s@.subrange(i as int, n as int);
    assert(trim_start(rest) == rest);
    let mut j: usize = n;
    while j > i && is_white_space_char(s[j - 1])
        invariant
            n == s@.len(),
            i <= j <= n,
            forall|k: int| j <= k < n ==> is_white_space(#[trigger] s@[k]),
        decreases j - i,
    {
        j -= 1;
    }
    proof {
        assert forall|k: int| j - i <= k < rest.len() implies is_white_space(#[trigger] rest[k]) by {
            assert(rest[k] == s@[k + i]);
        }
        lemma_trim_end_skip(rest, j - i);
        assert(rest.subrange(0, j - i) =~= s@.subrange(i as int, j as int));
    }
    let mut r: Vec<char> = Vec::new();
    let mut k: usize = i;
    while k < j
        invariant
            n == s@.len(),
            i <= k <= j <= n,
            r@ =~= s@.subrange(i as int, k as int),
        decreases j - k,
    {
        r.push(s[k]);
        k += 1;
    }
    r
}


proof fn lemma_encode_utf8_push(s: Seq<char>, c: char)
    ensures
        encode_utf8(s.push(c)) == encode_utf8(s) + encode_scalar(c as u32),
    decreases s.len(),
{
    if s.len() == 0 {
        assert(s.push(c).drop_first() =~= Seq::<char>::empty());
        assert(encode_utf8(Seq::<char>::empty()) =~= Seq::<u8>::empty());
        assert(encode_utf8(s) =~= Seq::<u8>::empty());
        assert(encode_scalar(c as u32) + Seq::<u8>::empty() =~= encode_scalar(c as u32));
        assert(Seq::<u8>::empty() + encode_scalar(c as u32) =~= encode_scalar(c as u32));
    } else {
        assert(s.push(c).drop_first() =~= s.drop_first().push(c));
        lemma_encode_utf8_push(s.drop_first(), c);
        assert(s.push(c)[0] == s[0]);
        assert(encode_scalar(s[0] as u32) + (encode_utf8(s.drop_first()) + encode_scalar(c as u32))
            =~= (encode_scalar(s[0] as u32) + encode_utf8(s.drop_first())) + encode_scalar(c as u32));
    }
}

/// Number of bytes in the UTF-8 encoding of `s`. Computed in 128 bits, where
/// it cannot overflow: no encoding takes more than four bytes per character.
pub fn utf8_len_of(s: &[char]) -> (r: u128)
    ensures
        r == utf8_len(s@),
{
    let n = s.len();
    let mut total: u128 = 0;
    let mut k: usize = 0;
    while k < n
        invariant
            n == s@.len(),
            k <= n,
            total == utf8_len(s@.take(k as int)),
            total <= 4 * k,
        decreases n - k,
    {
        let u = s[k] as u32;
        let w: u128 = if u < 0x80 {
            1
        } else if u < 0x800 {
            2
        } else if u < 0x10000 {
            3
        } else {
            4
        };
        proof {
            assert(s@.take(k + 1) =~= s@.take(k as int).push(s@[k as int]));
            lemma_encode_utf8_push(s@.take(k as int), s@[k as int]);
            vstd::utf8::char_is_scalar(s@[k as int]);
            assert(vstd::utf8::is_scalar(u));
            assert(encode_scalar(u).len() == w);
        }
        total = total + w;
        k += 1;
    }
    assert(s@.take(n as int) =~= s@);
    total
}

/// The trimmed lines of `lines`, with the lines that are blank after
/// trimming left out.
pub open spec fn nonblank_trimmed(lines: Seq<Seq<char>>) -> Seq<Seq<char>> {
    lines.map_values(|l: Seq<char>| trim(l)).filter(|l: Seq<char>| l.len() > 0)
}

/// The rows of a level written as text: its lines, each trimmed, without the
/// blank ones.
pub open spec fn level_rows(text: Seq<char>) -> Seq<Seq<char>> {
    nonblank_trimmed(split_lines(text))
}

proof fn lemma_nonblank_trimmed_push(lines: Seq<Seq<char>>, x: Seq<char>)
    ensures
        nonblank_trimmed(lines.push(x)) == (if trim(x).len() > 0 {
            nonblank_trimmed(lines).push(trim(x))
        } else {
            nonblank_trimmed(lines)
        }),
{
    let f = |l: Seq<char>| trim(l);
    let p = |l: Seq<char>| l.len() > 0;
    assert(lines.push(x).map_values(f) =~= lines.map_values(f).push(trim(x)));
    lines.map_values(f).lemma_filter_push(trim(x), p);
}

/// The rows of a level written as text (see `level_rows`).
pub fn level_rows_of(text: &[char]) -> (r: Vec<Vec<char>>)
    ensures
        r.len() == level_rows(text@).len(),
        forall|k: int| 0 <= k < r.len() ==> (#[trigger] r[k])@ == level_rows(text@)[k],
{
    let n = text.len();
    let mut rows: Vec<Vec<char>> = Vec::new();
    let mut cur: Vec<char> = Vec::new();
    let ghost mut done: Seq<Seq<char>> = Seq::empty();
    assert(text@.take(0) =~= Seq::<char>::empty());
    assert(done.map_values(|l: Seq<char>| trim(l)) =~= Seq::<Seq<char>>::empty());
    proof {
        reveal(Seq::filter);
    }
    let mut k: usize = 0;
    while k < n
        invariant
            n == text@.len(),
            k <= n,
            split_lines(text@.take(k as int)) == done.push(cur@),
            rows.len() == nonblank_trimmed(done).len(),
            forall|j: int| 0 <= j < rows.len() ==> (#[trigger] rows[j])@ == nonblank_trimmed(done)[j],
        decreases n - k,
    {
        let c = text[k];
        let ghost prefix = text@.take(k as int);
        assert(text@.take(k + 1) =~= prefix.push(c));
        assert(text@.take(k + 1).drop_last() =~= prefix);
        if c == '\n' {
            let t = trim_chars(cur.as_slice());
            proof {
                lemma_nonblank_trimmed_push(done, cur@);
                done = done.push(cur@);
            }
            if t.len() > 0 {
                rows.push(t);
            }
            cur = Vec::new();
        } else {
            proof {
                let prev = done.push(cur@);
                assert(prev.update(prev.len() - 1, prev.last().push(c)) =~= done.push(cur@.push(c)));
            }
            cur.push(c);
        }
        k += 1;
    }
    assert(text@.take(n as int) =~= text@);
    let t = trim_chars(cur.as_slice());
    proof {
        lemma_nonblank_trimmed_push(done, cur@);
    }
    if t.len() > 0 {
        rows.push(t);
    }
    rows
}

proof fn lemma_trim_start_first(s: Seq<char>)
    ensures
        trim_start(s).len() <= s.len(),
        trim_start(s).len() > 0 ==> !is_white_space(trim_start(s)[0]),
    decreases s.len(),
{
    if s.len() > 0 && is_white_space(s[0]) {
        lemma_trim_start_first(s.drop_first());
    }
}

proof fn lemma_trim_end_prefix(s: Seq<char>)
    ensures
        trim_end(s).len() <= s.len(),
        trim_end(s) == s.take(trim_end(s).len() as int),
        trim_end(s).len() > 0 ==> !is_white_space(trim_end(s).last()),
    decreases s.len(),
{
    if s.len() > 0 && is_white_space(s.last()) {
        lemma_trim_end_prefix(s.drop_last());
        assert(s.drop_last().take(trim_end(s).len() as int) =~= s.take(trim_end(s).len() as int));
    } else {
        assert(s.take(s.len() as int) =~= s);
    }
}

/// A trimmed line that is not empty starts and ends with a character that
/// is not whitespace.
proof fn lemma_trim_ends(s: Seq<char>)
    ensures
        trim(s).len() > 0 ==> !is_white_space(trim(s)[0]) && !is_white_space(trim(s).last()),
{
    let t = trim_start(s);
    lemma_trim_start_first(s);
    lemma_trim_end_prefix(t);
    if trim(s).len() > 0 {
        assert(trim(s)[0] == t[0]);
    }
}

/// Every row of a level text is non-empty and has no surrounding
/// whitespace, so indenting the text, or padding its lines, changes nothing.
pub proof fn lemma_rows_are_trimmed(text: Seq<char>)
    ensures
        forall|i: int|
            0 <= i < level_rows(text).len() ==> (#[trigger] level_rows(text)[i]).len() > 0
                && !is_white_space(level_rows(text)[i][0]) && !is_white_space(
                level_rows(text)[i].last(),
            ),
{
    let lines = split_lines(text);
    let mapped = lines.map_values(|l: Seq<char>| trim(l));
    let p = |l: Seq<char>| l.len() > 0;
    assert forall|i: int| 0 <= i < level_rows(text).len() implies (#[trigger] level_rows(
        text,
    )[i]).len() > 0 && !is_white_space(level_rows(text)[i][0]) && !is_white_space(
        level_rows(text)[i].last(),
    ) by {
        let row = level_rows(text)[i];
        mapped.lemma_filter_pred(p, i);
        assert(mapped.filter(p).contains(row));
        mapped.lemma_filter_contains_rev(p, row);
        let j = choose|j: int| 0 <= j < mapped.len() && mapped[j] == row;
        lemma_trim_ends(lines[j]);
    }
}

/// A line break at the end of the text adds only an empty line, which is
/// ignored: the rows are the same with or without it.
pub proof fn lemma_trailing_newline_ignored(text: Seq<char>)
    ensures
        level_rows(text.push('\n')) == level_rows(text),
{
    assert(text.push('\n').drop_last() =~= text);
    lemma_nonblank_trimmed_push(split_lines(text), Seq::empty());
    assert(trim_start(Seq::<char>::empty()) == Seq::<char>::empty());
    assert(trim_end(Seq::<char>::empty()) == Seq::<char>::empty());
}

} // verus!
