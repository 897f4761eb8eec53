//! Character-level text primitives: every other module describes strings by
//! the sequence of their characters, and these are the operations it uses.
use vstd::prelude::*;
use vstd::string::*;
use vstd::utf8::*;

verus! {

/// `String::push` appends one character to the end of the string.
pub assume_specification[ String::push ](s: &mut String, c: char)
    ensures
        final(s)@ == old(s)@.push(c),
;

/// The characters with the Unicode `White_Space` property.
pub open spec fn white_space(c: char) -> bool {
    ||| '\u{9}' <= c <= '\u{d}'
    ||| c == ' '
    ||| c == '\u{85}'
    ||| c == '\u{a0}'
    ||| c == '\u{1680}'
    ||| '\u{2000}' <= c <= '\u{200a}'
    ||| c == '\u{2028}'
    ||| c == '\u{2029}'
    ||| c == '\u{202f}'
    ||| c == '\u{205f}'
    ||| c == '\u{3000}'
}

/// Tells whether `c` is white space.
pub fn is_white_space(c: char) -> (r: bool)
    ensures
        r == white_space(c),
{
    ('\u{9}' <= c && c <= '\u{d}') || c == ' ' || c == '\u{85}' || c == '\u{a0}' || c
        == '\u{1680}' || ('\u{2000}' <= c && c <= '\u{200a}') || c == '\u{2028}' || c == '\u{2029}'
        || c == '\u{202f}' || c == '\u{205f}' || c == '\u{3000}'
}

/// The characters of `s`, in order.
pub fn chars_of(s: &str) -> (v: Vec<char>)
    ensures
        v@ == s@,
{
    let mut v: Vec<char> = Vec::new();
    for c in it: s.chars()
        invariant
            v@ == it.seq().take(it.index()),
            it.seq() == s@,
    {
        v.push(c);
        assert(it.seq().take(it.index() + 1) == it.seq().take(it.index()).push(c));
    }
    v
}

/// `s` without its leading white space.
pub open spec fn trimmed_start(s: Seq<char>) -> Seq<char>
    decreases s.len(),
{
    if s.len() > 0 && white_space(s[0]) {
        trimmed_start(s.drop_first())
    } else {
        s
    }
}

/// `s` without its trailing white space.
pub open spec fn trimmed_end(s: Seq<char>) -> Seq<char>
    decreases s.len(),
{
    if s.len() > 0 && white_space(s.last()) {
        trimmed_end(s.drop_last())
    } else {
        s
    }
}

/// `s` without the white space at its two ends.
pub open spec fn trimmed(s: Seq<char>) -> Seq<char> {
    trimmed_end(trimmed_start(s))
}

proof fn lemma_trimmed_start(s: Seq<char>, i: int)
    requires
        0 <= i <= s.len(),
        forall|k: int| 0 <= k < i ==> white_space(#[trigger] s[k]),
        i < s.len() ==> !white_space(s[i]),
    ensures
        trimmed_start(s) == s.skip(i),
    decreases i,
{
    if i > 0 {
        let t = s.drop_first();
        assert forall|k: int| 0 <= k < i - 1 implies white_space(#[trigger] t[k]) by {
            assert(t[k] == s[k + 1]);
        }
        lemma_trimmed_start(t, i - 1);
        assert(t.skip(i - 1) == s.skip(i));
    } else {
        assert(s.skip(0) == s);
    }
}

proof fn lemma_trimmed_end(s: Seq<char>, j: int)
    requires
        0 <= j <= s.len(),
        forall|k: int| j <= k < s.len() ==> white_space(#[trigger] s[k]),
        j > 0 ==> !white_space(s[j - 1]),
    ensures
        trimmed_end(s) == s.take(j),
    decreases s.len(),
{
    if j < s.len() {
        let t = s.drop_last();
        lemma_trimmed_end(t, j);
        assert(t.take(j) == s.take(j));
    } else {
        assert(s.take(j) == s);
    }
}

/// Cuts the white space off both ends of `s`.
pub fn trim<'a>(s: &'a str) -> (r: &'a str)
    ensures
        r@ == trimmed(s@),
{
    let v = chars_of(s);
    let n: usize = v.len();
    let mut i: usize = 0;
    while i < n && is_white_space(v[i])
        invariant
            n == v@.len(),
            i <= n,
            forall|k: int| 0 <= k < i ==> white_space(#[trigger] v@[k]),
        decreases n - i,
    {
        i = i + 1;
    }
    let mut j: usize = n;
    while j > i && is_white_space(v[j - 1])
        invariant
            n == v@.len(),
            i <= j <= n,
            forall|k: int| j <= k < n ==> white_space(#[trigger] v@[k]),
        decreases j,
    {
        j = j - 1;
    }
    proof {
        lemma_trimmed_start(s@, i as int);
        let t = s@.skip(i as int);
        assert forall|k: int| j - i <= k < t.len() implies white_space(#[trigger] t[k]) by {
            assert(t[k] == v@[k + i]);
        }
        lemma_trimmed_end(t, j - i);
        assert(t.take(j - i) == s@.subrange(i as int, j as int));
    }
    s.substring_char(i, j)
}

/// The decimal digit of `d`.
pub open spec fn digit(d: int) -> char {
    (48 + d) as char
}

/// `n` written in decimal.
pub open spec fn decimal(n: nat) -> Seq<char>
    decreases n,
{
    if n < 10 {
        seq![digit(n as int)]
    } else {
        decimal(n / 10).push(digit((n % 10) as int))
    }
}

/// Appends `n` in decimal.
pub fn push_decimal(out: &mut String, n: u64)
    ensures
        final(out)@ == old(out)@ + decimal(n as nat),
    decreases n,
{
    if n >= 10 {
        push_decimal(out, n / 10);
    }
    let d: u8 = (n % 10) as u8;
    out.push((48 + d) as char);
    assert(out@ == old(out)@ + decimal(n as nat));
}

/// Appends the decimal digits of a count.
pub fn push_count(out: &mut String, n: usize)
    ensures
        final(out)@ == old(out)@ + decimal(n as nat),
{
    push_decimal(out, n as u64);
}

/// The decimal digits of an integer, with a minus sign where it is negative.
pub open spec fn integer(n: int) -> Seq<char> {
    if n < 0 {
        "-"@ + decimal((-n) as nat)
    } else {
        decimal(n as nat)
    }
}

/// Appends `n` in decimal, signed.
pub fn push_integer(out: &mut String, n: i64)
    ensures
        final(out)@ == old(out)@ + integer(n as int),
{
    if n < 0 {
        out.append("-");
        if n == i64::MIN {
            push_decimal(out, 9223372036854775808);
        } else {
            push_decimal(out, (-n) as u64);
        }
        assert(out@ == old(out)@ + integer(n as int));
    } else {
        push_decimal(out, n as u64);
    }
}

/// Tells whether two strings are the same text.
pub fn same(a: &str, b: &str) -> (r: bool)
    ensures
        r == (a@ == b@),
{
    let x = a.as_bytes();
    let y = b.as_bytes();
    proof {
        encode_utf8_decode_utf8(a@);
        encode_utf8_decode_utf8(b@);
    }
    if x.len() != y.len() {
        return false;
    }
    let n: usize = x.len();
    let mut i: usize = 0;
    while i < n
        invariant
            n == x@.len(),
            n == y@.len(),
            x@ == encode_utf8(a@),
            y@ == encode_utf8(b@),
            i <= n,
            x@.take(i as int) == y@.take(i as int),
        decreases n - i,
    {
        if x[i] != y[i] {
            return false;
        }
        assert(x@.take(i + 1) == x@.take(i as int).push(x@[i as int]));
        assert(y@.take(i + 1) == y@.take(i as int).push(y@[i as int]));
        i = i + 1;
    }
    assert(x@.take(n as int) == x@);
    assert(y@.take(n as int) == y@);
    true
}

/// The index of the first `c` in `s`, or the length of `s` where there is none.
pub open spec fn position(s: Seq<char>, c: char) -> nat
    decreases s.len(),
{
    if s.len() == 0 || s[0] == c {
        0
    } else {
        1 + position(s.drop_first(), c)
    }
}

/// What stands before the first `c` in `s`: all of it where there is none.
pub open spec fn before(s: Seq<char>, c: char) -> Seq<char> {
    s.take(position(s, c) as int)
}

pub proof fn lemma_position(s: Seq<char>, c: char, i: int)
    requires
        0 <= i <= s.len(),
        forall|k: int| 0 <= k < i ==> #[trigger] s[k] != c,
        i < s.len() ==> s[i] == c,
    ensures
        position(s, c) == i,
    decreases i,
{
    if i > 0 {
        let t = s.drop_first();
        assert forall|k: int| 0 <= k < i - 1 implies #[trigger] t[k] != c by {
            assert(t[k] == s[k + 1]);
        }
        lemma_position(t, c, i - 1);
    }
}

pub proof fn lemma_position_bound(s: Seq<char>, c: char)
    ensures
        position(s, c) <= s.len(),
        position(s, c) < s.len() ==> s[position(s, c) as int] == c,
        forall|k: int| 0 <= k < position(s, c) ==> #[trigger] s[k] != c,
    decreases s.len(),
{
    if s.len() > 0 && s[0] != c {
        let t = s.drop_first();
        lemma_position_bound(t, c);
        assert forall|k: int| 0 <= k < position(s, c) implies #[trigger] s[k] != c by {
            if k > 0 {
                assert(t[k - 1] == s[k]);
            }
        }
    }
}

/// Finds the first `c` in `v`.
pub fn find(v: &Vec<char>, c: char) -> (r: usize)
    ensures
        r == position(v@, c),
        r <= v@.len(),
{
    let n: usize = v.len();
    let mut i: usize = 0;
    while i < n && v[i] != c
        invariant
            n == v@.len(),
            i <= n,
            forall|k: int| 0 <= k < i ==> #[trigger] v@[k] != c,
        decreases n - i,
    {
        i = i + 1;
    }
    proof {
        lemma_position(v@, c, i as int);
    }
    i
}

/// Cuts `s` before its first `c`.
pub fn cut_before<'a>(s: &'a str, c: char) -> (r: &'a str)
    ensures
        r@ == before(s@, c),
{
    let v = chars_of(s);
    let i: usize = find(&v, c);
    let r = s.substring_char(0, i);
    assert(s@.subrange(0, i as int) == s@.take(i as int));
    r
}

/// The index just past the last `c` in `s`: zero where there is none.
pub open spec fn past_last(s: Seq<char>, c: char) -> nat
    decreases s.len(),
{
    if s.len() == 0 || s.last() == c {
        s.len()
    } else {
        past_last(s.drop_last(), c)
    }
}

pub proof fn lemma_past_last(s: Seq<char>, c: char, i: int)
    requires
        0 <= i <= s.len(),
        forall|k: int| i <= k < s.len() ==> #[trigger] s[k] != c,
        i > 0 ==> s[i - 1] == c,
    ensures
        past_last(s, c) == i,
    decreases s.len(),
{
    if i < s.len() {
        lemma_past_last(s.drop_last(), c, i);
    }
}

pub proof fn lemma_past_last_bound(s: Seq<char>, c: char)
    ensures
        past_last(s, c) <= s.len(),
        past_last(s, c) > 0 ==> s[past_last(s, c) - 1] == c,
        forall|k: int| past_last(s, c) <= k < s.len() ==> #[trigger] s[k] != c,
    decreases s.len(),
{
    if s.len() > 0 && s.last() != c {
        let t = s.drop_last();
        lemma_past_last_bound(t, c);
        assert forall|k: int| past_last(s, c) <= k < s.len() implies #[trigger] s[k] != c by {
            if k < t.len() {
                assert(t[k] == s[k]);
            }
        }
        if past_last(s, c) > 0 {
            assert(t[past_last(s, c) - 1] == s[past_last(s, c) - 1]);
        }
    }
}

/// Finds the index just past the last `c` in `v`.
pub fn find_past_last(v: &Vec<char>, c: char) -> (r: usize)
    ensures
        r == past_last(v@, c),
        r <= v@.len(),
{
    let n: usize = v.len();
    let mut i: usize = n;
    while i > 0 && v[i - 1] != c
        invariant
            n == v@.len(),
            i <= n,
            forall|k: int| i <= k < n ==> #[trigger] v@[k] != c,
        decreases i,
    {
        i = i - 1;
    }
    proof {
        lemma_past_last(v@, c, i as int);
    }
    i
}

/// What follows the last `c` in `s`: all of it where there is none.
pub open spec fn after_last(s: Seq<char>, c: char) -> Seq<char> {
    s.skip(past_last(s, c) as int)
}

/// What stands before the last `c` in `s`: all of it where there is none.
pub open spec fn before_last(s: Seq<char>, c: char) -> Seq<char> {
    if past_last(s, c) == 0 {
        s
    } else {
        s.take(past_last(s, c) - 1)
    }
}

/// Cuts `s` after its last `c`.
pub fn cut_after_last<'a>(s: &'a str, c: char) -> (r: &'a str)
    ensures
        r@ == after_last(s@, c),
{
    let v = chars_of(s);
    let i: usize = find_past_last(&v, c);
    let r = s.substring_char(i, v.len());
    assert(s@.subrange(i as int, s@.len() as int) == s@.skip(i as int));
    r
}

/// Cuts `s` before its last `c`.
pub fn cut_before_last<'a>(s: &'a str, c: char) -> (r: &'a str)
    ensures
        r@ == before_last(s@, c),
{
    let v = chars_of(s);
    let i: usize = find_past_last(&v, c);
    if i == 0 {
        s
    } else {
        let r = s.substring_char(0, i - 1);
        assert(s@.subrange(0, i - 1) == s@.take(i - 1));
        r
    }
}

/// Tells whether `pat` stands in `s` at index `i`.
pub open spec fn stands_at(s: Seq<char>, pat: Seq<char>, i: int) -> bool {
    0 <= i && i + pat.len() <= s.len() && s.subrange(i, i + pat.len()) == pat
}

/// Tells whether `pat` is a substring of `s`.
pub open spec fn contains_text(s: Seq<char>, pat: Seq<char>) -> bool {
    exists|i: int| stands_at(s, pat, i)
}

/// A text holds each of its parts.
pub proof fn lemma_holds(a: Seq<char>, b: Seq<char>, c: Seq<char>)
    ensures
        contains_text(a + b + c, b),
{
    let at = a.len() as int;
    assert((a + b + c).subrange(at, at + b.len()) == b);
    assert(stands_at(a + b + c, b, at));
}

/// What a part of a text holds, the text holds.
pub proof fn lemma_holds_within(whole: Seq<char>, part: Seq<char>, inner: Seq<char>)
    requires
        contains_text(whole, part),
        contains_text(part, inner),
    ensures
        contains_text(whole, inner),
{
    let i = choose|i: int| stands_at(whole, part, i);
    let j = choose|j: int| stands_at(part, inner, j);
    assert(whole.subrange(i + j, i + j + inner.len()) == part.subrange(j, j + inner.len()));
    assert(stands_at(whole, inner, i + j));
}

/// What a text holds, it holds with more before it or behind it.
pub proof fn lemma_grows(s: Seq<char>, more: Seq<char>, part: Seq<char>)
    requires
        contains_text(s, part),
    ensures
        contains_text(s + more, part),
        contains_text(more + s, part),
{
    let i = choose|i: int| stands_at(s, part, i);
    assert((s + more).subrange(i, i + part.len()) == s.subrange(i, i + part.len()));
    assert(stands_at(s + more, part, i));
    let j = i + more.len();
    assert((more + s).subrange(j, j + part.len()) == s.subrange(i, i + part.len()));
    assert(stands_at(more + s, part, j));
}

/// A text holds two parts that follow each other, up to the start of what comes
/// next.
pub proof fn lemma_spans(
    front: Seq<char>,
    a: Seq<char>,
    b: Seq<char>,
    next: Seq<char>,
    start: Seq<char>,
)
    requires
        start.is_prefix_of(next),
    ensures
        contains_text(front + a + b + next, a + b + start),
{
    let whole = front + a + b + next;
    let part = a + b + start;
    let at = front.len() as int;
    assert(next.subrange(0, start.len() as int) == start);
    assert forall|k: int| 0 <= k < part.len() implies whole.subrange(at, at + part.len())[k]
        == part[k] by {
        if k >= a.len() + b.len() {
            let q = k - a.len() - b.len();
            assert(next.subrange(0, start.len() as int)[q] == start[q]);
        }
    }
    assert(whole.subrange(at, at + part.len()) == part);
    assert(stands_at(whole, part, at));
}

/// Tests for `pat` in `v` at index `i`.
pub fn matches_at(v: &Vec<char>, pat: &Vec<char>, i: usize) -> (r: bool)
    ensures
        r == stands_at(v@, pat@, i as int),
{
    let n: usize = v.len();
    let m: usize = pat.len();
    if i > n || m > n - i {
        return false;
    }
    let mut k: usize = 0;
    while k < m
        invariant
            n == v@.len(),
            m == pat@.len(),
            i + m <= n,
            k <= m,
            forall|q: int| 0 <= q < k ==> v@[i + q] == #[trigger] pat@[q],
        decreases m - k,
    {
        if v[i + k] != pat[k] {
            assert(v@.subrange(i as int, i + m)[k as int] == v@[i + k]);
            return false;
        }
        k = k + 1;
    }
    assert(v@.subrange(i as int, i + m) == pat@);
    true
}

/// Tells whether `s` starts with `pat`.
pub fn starts_with(s: &str, pat: &str) -> (r: bool)
    ensures
        r == pat@.is_prefix_of(s@),
{
    let v = chars_of(s);
    let p = chars_of(pat);
    matches_at(&v, &p, 0)
}

/// Tells whether `s` ends with `pat`.
pub fn ends_with(s: &str, pat: &str) -> (r: bool)
    ensures
        r == pat@.is_suffix_of(s@),
{
    let v = chars_of(s);
    let p = chars_of(pat);
    if p.len() > v.len() {
        return false;
    }
    matches_at(&v, &p, v.len() - p.len())
}

/// Tells whether `pat` is a substring of `s`.
pub fn contains(s: &str, pat: &str) -> (r: bool)
    ensures
        r == contains_text(s@, pat@),
{
    let v = chars_of(s);
    let p = chars_of(pat);
    let n: usize = v.len();
    let m: usize = p.len();
    if m > n {
        return false;
    }
    let mut i: usize = 0;
    while i <= n - m
        invariant
            n == v@.len(),
            m == p@.len(),
            m <= n,
            v@ == s@,
            p@ == pat@,
            i <= n - m + 1,
            forall|k: int| 0 <= k < i ==> !stands_at(v@, p@, k),
        decreases n - m + 1 - i,
    {
        if matches_at(&v, &p, i) {
            return true;
        }
        if i == n - m {
            return false;
        }
        i = i + 1;
    }
    false
}

/// The number of bytes of `s` in UTF-8.
pub open spec fn byte_len(s: Seq<char>) -> nat {
    encode_utf8(s).len()
}

/// Counts the bytes of `s` in UTF-8.
pub fn count_bytes(s: &str) -> (r: usize)
    ensures
        r == byte_len(s@),
{
    s.as_bytes().len()
}

/// The number of bytes of `c` in UTF-8.
pub open spec fn char_width(c: char) -> nat {
    if c <= '\u{7f}' {
        1
    } else if c <= '\u{7ff}' {
        2
    } else if c <= '\u{ffff}' {
        3
    } else {
        4
    }
}

/// Counts the bytes of `c` in UTF-8.
pub fn width_of(c: char) -> (r: usize)
    ensures
        r == char_width(c),
{
    if c <= '\u{7f}' {
        1
    } else if c <= '\u{7ff}' {
        2
    } else if c <= '\u{ffff}' {
        3
    } else {
        4
    }
}

pub proof fn lemma_byte_len_push(s: Seq<char>, c: char)
    ensures
        byte_len(s.push(c)) == byte_len(s) + char_width(c),
    decreases s.len(),
{
    broadcast use char_is_scalar;

    let t = s.push(c);
    if s.len() == 0 {
        assert(t.drop_first() == Seq::<char>::empty());
        assert(encode_utf8(t.drop_first()).len() == 0);
    } else {
        assert(t.drop_first() == s.drop_first().push(c));
        lemma_byte_len_push(s.drop_first(), c);
    }
}

pub proof fn lemma_byte_len_add(a: Seq<char>, b: Seq<char>)
    ensures
        byte_len(a + b) == byte_len(a) + byte_len(b),
    decreases b.len(),
{
    if b.len() == 0 {
        assert(a + b == a);
    } else {
        lemma_byte_len_add(a, b.drop_last());
        assert(b == b.drop_last().push(b.last()));
        assert(a + b == (a + b.drop_last()).push(b.last()));
        lemma_byte_len_push(b.drop_last(), b.last());
        lemma_byte_len_push(a + b.drop_last(), b.last());
    }
}

/// The longest prefix of `s` whose UTF-8 encoding fits in `cap` bytes.
pub open spec fn fitting(s: Seq<char>, cap: int) -> Seq<char>
    decreases s.len(),
{
    if s.len() == 0 || byte_len(s) <= cap {
        s
    } else {
        fitting(s.drop_last(), cap)
    }
}

/// A fitting prefix is a prefix, fits, and is followed by a character that
/// would not have fitted, unless it is the whole text.
pub proof fn lemma_fitting(s: Seq<char>, cap: int)
    requires
        cap >= 0,
    ensures
        fitting(s, cap).is_prefix_of(s),
        byte_len(fitting(s, cap)) <= cap,
        fitting(s, cap).len() < s.len() ==> byte_len(s.take(fitting(s, cap).len() as int + 1)) > cap,
        byte_len(s) <= cap ==> fitting(s, cap) == s,
    decreases s.len(),
{
    if s.len() == 0 {
        assert(byte_len(s) == 0);
    } else if byte_len(s) > cap {
        lemma_fitting(s.drop_last(), cap);
        let n = fitting(s, cap).len() as int;
        if n < s.len() - 1 {
            assert(s.drop_last().take(n + 1) == s.take(n + 1));
        } else {
            assert(s.take(n + 1) == s);
        }
    }
}

proof fn lemma_fitting_at(s: Seq<char>, cap: int, i: int)
    requires
        0 <= i <= s.len(),
        byte_len(s.take(i)) <= cap,
        i < s.len() ==> byte_len(s.take(i + 1)) > cap,
    ensures
        fitting(s, cap) == s.take(i),
    decreases s.len(),
{
    if i == s.len() {
        assert(s.take(i) == s);
    } else {
        let t = s.drop_last();
        lemma_byte_len_add(s.take(i + 1), s.skip(i + 1));
        assert(s.take(i + 1) + s.skip(i + 1) == s);
        assert(t.take(i) == s.take(i));
        if i < t.len() {
            assert(t.take(i + 1) == s.take(i + 1));
        }
        lemma_fitting_at(t, cap, i);
    }
}

/// Cuts `s` to the longest prefix that fits in `cap` bytes.
pub fn fit<'a>(s: &'a str, cap: usize) -> (r: &'a str)
    requires
        cap < usize::MAX - 4,
    ensures
        r@ == fitting(s@, cap as int),
{
    let v = chars_of(s);
    let n: usize = v.len();
    let mut i: usize = 0;
    let mut used: usize = 0;
    assert(s@.take(0) == Seq::<char>::empty());
    while i < n && used + width_of(v[i]) <= cap
        invariant
            n == v@.len(),
            v@ == s@,
            i <= n,
            used <= cap < usize::MAX - 4,
            used == byte_len(s@.take(i as int)),
        decreases n - i,
    {
        proof {
            assert(s@.take(i + 1) == s@.take(i as int).push(s@[i as int]));
            lemma_byte_len_push(s@.take(i as int), s@[i as int]);
        }
        used = used + width_of(v[i]);
        i = i + 1;
    }
    proof {
        if i < n {
            assert(s@.take(i + 1) == s@.take(i as int).push(s@[i as int]));
            lemma_byte_len_push(s@.take(i as int), s@[i as int]);
        }
        lemma_fitting_at(s@, cap as int, i as int);
        assert(s@.subrange(0, i as int) == s@.take(i as int));
    }
    s.substring_char(0, i)
}

/// The texts of a list of strings.
pub open spec fn texts(list: Seq<String>) -> Seq<Seq<char>> {
    Seq::new(list.len(), |i: int| list[i]@)
}

/// The text of an optional string.
pub open spec fn optional_text(s: Option<String>) -> Option<Seq<char>> {
    match s {
        Some(s) => Some(s@),
        None => None,
    }
}

pub proof fn lemma_texts_push(list: Seq<String>, item: String)
    ensures
        texts(list.push(item)) == texts(list).push(item@),
{
    assert(texts(list.push(item)) == texts(list).push(item@));
}

/// The texts of `list`, with `sep` between each two of them.
pub open spec fn joined(list: Seq<Seq<char>>, sep: Seq<char>) -> Seq<char>
    decreases list.len(),
{
    if list.len() == 0 {
        Seq::empty()
    } else if list.len() == 1 {
        list[0]
    } else {
        joined(list.drop_last(), sep) + sep + list.last()
    }
}

/// Joins the strings of `list` with `sep`.
pub fn join(list: &Vec<String>, sep: &str) -> (r: String)
    ensures
        r@ == joined(texts(list@), sep@),
{
    let mut out = String::new();
    let n: usize = list.len();
    let ghost all = texts(list@);
    let mut i: usize = 0;
    while i < n
        invariant
            n == list@.len(),
            all == texts(list@),
            i <= n,
            out@ == joined(all.take(i as int), sep@),
        decreases n - i,
    {
        if i > 0 {
            out.append(sep);
        }
        out.append(list[i].as_str());
        proof {
            assert(all.take(i + 1).drop_last() == all.take(i as int));
            assert(all.take(i + 1).last() == list@[i as int]@);
            assert(Seq::<char>::empty() + list@[i as int]@ == list@[i as int]@);
        }
        i = i + 1;
    }
    assert(all.take(n as int) == all);
    out
}

/// `n` blanks.
pub open spec fn blanks(n: nat) -> Seq<char> {
    Seq::new(n, |i: int| ' ')
}

/// The blanks that fill `s` up to `width` characters.
pub open spec fn filling(s: Seq<char>, width: nat) -> Seq<char> {
    if s.len() < width {
        blanks((width - s.len()) as nat)
    } else {
        Seq::empty()
    }
}

fn push_filling(out: &mut String, s: &str, width: usize)
    ensures
        final(out)@ == old(out)@ + filling(s@, width as nat),
{
    let n: usize = s.unicode_len();
    let ghost start = out@;
    let mut i: usize = n;
    assert(start + blanks(0) == start);
    assert(start + Seq::<char>::empty() == start);
    while i < width
        invariant
            n == s@.len(),
            n <= i,
            n < width ==> i <= width,
            n >= width ==> i == n,
            out@ == start + blanks((i - n) as nat),
        decreases width - i,
    {
        out.push(' ');
        assert(out@ == start + blanks((i + 1 - n) as nat));
        i = i + 1;
    }
}

/// Appends `s`, with blanks before it up to `width` characters.
pub fn push_aligned_right(out: &mut String, s: &str, width: usize)
    ensures
        final(out)@ == old(out)@ + (filling(s@, width as nat) + s@),
{
    let ghost start = out@;
    push_filling(out, s, width);
    out.append(s);
    assert(out@ == start + (filling(s@, width as nat) + s@));
}

/// Appends `s`, with blanks behind it up to `width` characters.
pub fn push_aligned_left(out: &mut String, s: &str, width: usize)
    ensures
        final(out)@ == old(out)@ + (s@ + filling(s@, width as nat)),
{
    let ghost start = out@;
    out.append(s);
    push_filling(out, s, width);
    assert(out@ == start + (s@ + filling(s@, width as nat)));
}

/// Appends the decimal digits of `n`, with blanks before them up to `width`
/// characters.
pub fn push_aligned_count(out: &mut String, n: usize, width: usize)
    ensures
        final(out)@ == old(out)@ + (filling(decimal(n as nat), width as nat) + decimal(n as nat)),
{
    let mut digits = String::new();
    push_count(&mut digits, n);
    assert(digits@ == decimal(n as nat));
    push_aligned_right(out, digits.as_str(), width);
}

/// The first `n` values of a list, or all where there are fewer.
pub open spec fn first<T>(list: Seq<T>, n: nat) -> Seq<T> {
    if n < list.len() {
        list.take(n as int)
    } else {
        list
    }
}

/// One line for each text of `list`, each behind `prefix`.
pub open spec fn lines(prefix: Seq<char>, list: Seq<Seq<char>>) -> Seq<char>
    decreases list.len(),
{
    if list.len() == 0 {
        Seq::empty()
    } else {
        lines(prefix, list.drop_last()) + (prefix + list.last() + "\n"@)
    }
}

/// Appends one line for each of the first `limit` strings of `list`.
pub fn push_lines(out: &mut String, prefix: &str, list: &Vec<String>, limit: usize)
    ensures
        final(out)@ == old(out)@ + lines(prefix@, first(texts(list@), limit as nat)),
{
    let all: usize = list.len();
    let n: usize = if limit < all {
        limit
    } else {
        all
    };
    let ghost start = out@;
    let ghost shown = texts(list@);
    let mut i: usize = 0;
    assert(start + lines(prefix@, shown.take(0)) == start);
    while i < n
        invariant
            n <= list@.len(),
            shown == texts(list@),
            i <= n,
            out@ == start + lines(prefix@, shown.take(i as int)),
        decreases n - i,
    {
        let mut line = prefix.to_owned();
        line.append(list[i].as_str());
        line.append("\n");
        out.append(line.as_str());
        proof {
            let done = shown.take(i + 1);
            assert(done.drop_last() == shown.take(i as int));
            assert(done.last() == list@[i as int]@);
            assert(out@ == start + lines(prefix@, done));
        }
        i = i + 1;
    }
    assert(first(shown, limit as nat) == shown.take(n as int));
}

/// The maximal runs of characters of `s` that are not white space, in order.
pub open spec fn words(s: Seq<char>) -> Seq<Seq<char>>
    decreases s.len(),
{
    if s.len() == 0 {
        Seq::empty()
    } else {
        let w = words(s.drop_last());
        let c = s.last();
        if white_space(c) {
            w
        } else if s.len() > 1 && !white_space(s[s.len() - 2]) {
            w.update(w.len() - 1, w.last().push(c))
        } else {
            w.push(seq![c])
        }
    }
}

/// A word: not empty, and without white space.
pub open spec fn is_word(w: Seq<char>) -> bool {
    w.len() > 0 && forall|i: int| 0 <= i < w.len() ==> !white_space(#[trigger] w[i])
}

/// Every word of a text is one, and a text that does not end in white space
/// has a word.
pub proof fn lemma_words(s: Seq<char>)
    ensures
        forall|i: int| 0 <= i < words(s).len() ==> is_word(#[trigger] words(s)[i]),
        s.len() > 0 && !white_space(s.last()) ==> words(s).len() > 0,
    decreases s.len(),
{
    if s.len() > 0 {
        let t = s.drop_last();
        lemma_words(t);
        if s.len() > 1 {
            assert(t.last() == s[s.len() - 2]);
        }
        assert forall|i: int| 0 <= i < words(s).len() implies is_word(#[trigger] words(s)[i]) by {
            if i < words(t).len() {
                assert(is_word(words(t)[i]));
            }
        }
    }
}

pub proof fn lemma_joined_push(list: Seq<Seq<char>>, item: Seq<char>, sep: Seq<char>)
    requires
        list.len() > 0,
    ensures
        joined(list.push(item), sep) == joined(list, sep) + sep + item,
{
    assert(list.push(item).drop_last() == list);
}

proof fn lemma_joined_extend(list: Seq<Seq<char>>, c: char, sep: Seq<char>)
    requires
        list.len() > 0,
    ensures
        joined(list.update(list.len() - 1, list.last().push(c)), sep) == joined(list, sep).push(c),
{
    let longer = list.update(list.len() - 1, list.last().push(c));
    if list.len() > 1 {
        assert(longer.drop_last() == list.drop_last());
        let head = joined(list.drop_last(), sep) + sep;
        assert(head + list.last().push(c) == (head + list.last()).push(c));
    }
}

/// `s` with each run of white space inside it turned into one space, and none
/// left at its ends.
pub open spec fn collapsed(s: Seq<char>) -> Seq<char> {
    joined(words(s), " "@)
}

/// Collapses the white space of `s`.
pub fn collapse(s: &str) -> (r: String)
    ensures
        r@ == collapsed(s@),
{
    let v = chars_of(s);
    let n: usize = v.len();
    let mut out = String::new();
    let mut i: usize = 0;
    let mut in_word: bool = false;
    let mut any: bool = false;
    assert(v@.take(0) == Seq::<char>::empty());
    while i < n
        invariant
            n == v@.len(),
            v@ == s@,
            i <= n,
            in_word == (i > 0 && !white_space(v@[i - 1])),
            any == (words(v@.take(i as int)).len() > 0),
            out@ == joined(words(v@.take(i as int)), " "@),
        decreases n - i,
    {
        let c = v[i];
        let ghost done = v@.take(i as int);
        let ghost more = v@.take(i + 1);
        proof {
            assert(more.drop_last() == done);
            assert(more.last() == c);
            lemma_words(done);
            if i > 0 {
                assert(more[i - 1] == v@[i - 1]);
                assert(done.last() == v@[i - 1]);
            }
        }
        if is_white_space(c) {
            in_word = false;
        } else {
            if !in_word && any {
                out.append(" ");
            }
            out.push(c);
            proof {
                if in_word {
                    lemma_joined_extend(words(done), c, " "@);
                } else if any {
                    lemma_joined_push(words(done), seq![c], " "@);
                    assert(joined(words(done), " "@) + " "@ + seq![c] == (joined(
                        words(done),
                        " "@,
                    ) + " "@).push(c));
                } else {
                    assert(words(more) == seq![seq![c]]);
                    assert(Seq::<char>::empty().push(c) == seq![c]);
                }
            }
            in_word = true;
            any = true;
        }
        i = i + 1;
    }
    assert(v@.take(n as int) == v@);
    out
}

proof fn lemma_words_of_word(w: Seq<char>)
    requires
        is_word(w),
    ensures
        words(w) == seq![w],
    decreases w.len(),
{
    let t = w.drop_last();
    if w.len() == 1 {
        assert(words(t) == Seq::<Seq<char>>::empty());
        assert(w == seq![w.last()]);
    } else {
        assert forall|i: int| 0 <= i < t.len() implies !white_space(#[trigger] t[i]) by {
            assert(t[i] == w[i]);
        }
        lemma_words_of_word(t);
        assert(t.push(w.last()) == w);
    }
}

proof fn lemma_words_append(s: Seq<char>, w: Seq<char>)
    requires
        is_word(w),
        s.len() > 0,
        white_space(s.last()),
    ensures
        words(s + w) == words(s).push(w),
    decreases w.len(),
{
    let whole = s + w;
    let t = w.drop_last();
    assert(whole.drop_last() == s + t);
    assert(whole.last() == w.last());
    if w.len() == 1 {
        assert(s + t == s);
        assert(whole[whole.len() - 2] == s.last());
        assert(w == seq![w.last()]);
    } else {
        assert forall|i: int| 0 <= i < t.len() implies !white_space(#[trigger] t[i]) by {
            assert(t[i] == w[i]);
        }
        lemma_words_append(s, t);
        assert(whole[whole.len() - 2] == w[w.len() - 2]);
        assert(t.push(w.last()) == w);
        assert(words(s).push(t).update(words(s).len() as int, w) == words(s).push(w));
    }
}

/// Words joined by single spaces are read back as the same words.
pub proof fn lemma_words_of_joined(list: Seq<Seq<char>>)
    requires
        forall|i: int| 0 <= i < list.len() ==> is_word(#[trigger] list[i]),
    ensures
        words(joined(list, " "@)) == list,
    decreases list.len(),
{
    if list.len() == 1 {
        lemma_words_of_word(list[0]);
        assert(list == seq![list[0]]);
    } else if list.len() > 1 {
        let front = list.drop_last();
        assert forall|i: int| 0 <= i < front.len() implies is_word(#[trigger] front[i]) by {
            assert(front[i] == list[i]);
        }
        lemma_words_of_joined(front);
        reveal_strlit(" ");
        let head = joined(front, " "@) + " "@;
        assert(head.drop_last() == joined(front, " "@));
        assert(head.last() == ' ');
        assert(words(head) == front);
        assert(is_word(list.last()));
        lemma_words_append(head, list.last());
        assert(front.push(list.last()) == list);
    }
}

/// There is a line for every text of a list, behind its prefix.
pub proof fn law_every_text_has_a_line(prefix: Seq<char>, list: Seq<Seq<char>>, k: int)
    requires
        0 <= k < list.len(),
    ensures
        contains_text(lines(prefix, list), prefix + list[k] + "\n"@),
    decreases list.len(),
{
    let rest = list.drop_last();
    let own = prefix + list.last() + "\n"@;
    if k < rest.len() {
        law_every_text_has_a_line(prefix, rest, k);
        lemma_grows(lines(prefix, rest), own, prefix + list[k] + "\n"@);
    } else {
        lemma_holds(lines(prefix, rest), own, Seq::empty());
        assert(lines(prefix, rest) + own + Seq::<char>::empty() == lines(prefix, rest) + own);
    }
}

/// The lines of two lists are those of the one and then those of the other, and a
/// single text has a single line.
pub proof fn law_lines_in_turn(prefix: Seq<char>, a: Seq<Seq<char>>, b: Seq<Seq<char>>)
    ensures
        lines(prefix, a + b) == lines(prefix, a) + lines(prefix, b),
        a.len() == 1 ==> lines(prefix, a) == prefix + a[0] + "\n"@,
    decreases b.len(),
{
    if a.len() == 1 {
        assert(a.drop_last() == Seq::<Seq<char>>::empty());
        reveal_with_fuel(lines, 2);
        assert(Seq::<char>::empty() + (prefix + a[0] + "\n"@) == prefix + a[0] + "\n"@);
    }
    if b.len() == 0 {
        assert(a + b == a);
        assert(lines(prefix, a) + lines(prefix, b) == lines(prefix, a));
    } else {
        law_lines_in_turn(prefix, a, b.drop_last());
        assert((a + b).drop_last() == a + b.drop_last());
        assert((a + b).last() == b.last());
        assert(lines(prefix, a + b) == lines(prefix, a) + lines(prefix, b));
    }
}

/// Of a list the first `n` values are shown, or all where there are fewer.
pub proof fn law_first<T>(list: Seq<T>, n: nat)
    ensures
        first(list, n).len() == if n < list.len() {
            n
        } else {
            list.len()
        },
        forall|k: int| 0 <= k < first(list, n).len() ==> #[trigger] first(list, n)[k] == list[k],
{
}

/// The number that decimal digits stand for.
pub open spec fn value_of(digits: Seq<char>) -> int
    decreases digits.len(),
{
    if digits.len() == 0 {
        0
    } else {
        10 * value_of(digits.drop_last()) + (digits.last() as u32 - '0' as u32)
    }
}

/// A number in decimal is read back as the number; it holds digits alone, and does
/// not start with a zero unless it is zero.
pub proof fn law_decimal_is_read_back(n: nat)
    ensures
        value_of(decimal(n)) == n,
        decimal(n).len() > 0,
        forall|k: int| 0 <= k < decimal(n).len() ==> '0' <= #[trigger] decimal(n)[k] <= '9',
        n > 0 ==> decimal(n)[0] != '0',
    decreases n,
{
    if n < 10 {
        assert(decimal(n).drop_last() == Seq::<char>::empty());
        reveal_with_fuel(value_of, 2);
    } else {
        law_decimal_is_read_back(n / 10);
        assert(decimal(n).drop_last() == decimal(n / 10));
    }
}

/// A negative number is shown by a minus sign and its amount, any other by its
/// amount alone.
pub proof fn law_integer(n: int)
    ensures
        n >= 0 ==> value_of(integer(n)) == n,
        n < 0 ==> integer(n)[0] == '-' && value_of(integer(n).skip(1)) == -n,
{
    if n < 0 {
        reveal_strlit("-");
        law_decimal_is_read_back((-n) as nat);
        assert(integer(n).skip(1) == decimal((-n) as nat));
    } else {
        law_decimal_is_read_back(n as nat);
    }
}

/// Trimming takes the white space from both ends of a text, and nothing else.
pub proof fn law_trimmed(a: Seq<char>, s: Seq<char>, b: Seq<char>)
    requires
        forall|k: int| 0 <= k < a.len() ==> white_space(#[trigger] a[k]),
        forall|k: int| 0 <= k < b.len() ==> white_space(#[trigger] b[k]),
        s.len() > 0 ==> !white_space(s[0]) && !white_space(s.last()),
    ensures
        trimmed(a + s + b) == s,
{
    let whole = a + s + b;
    if s.len() == 0 {
        assert forall|k: int| 0 <= k < whole.len() implies white_space(#[trigger] whole[k]) by {
            if k < a.len() {
                assert(whole[k] == a[k]);
            } else {
                assert(whole[k] == b[k - a.len()]);
            }
        }
        lemma_trimmed_start(whole, whole.len() as int);
        assert(whole.skip(whole.len() as int) == s);
        assert(trimmed_end(s) == s);
    } else {
        assert forall|k: int| 0 <= k < a.len() implies white_space(#[trigger] whole[k]) by {
            assert(whole[k] == a[k]);
        }
        assert(whole[a.len() as int] == s[0]);
        lemma_trimmed_start(whole, a.len() as int);
        let rest = whole.skip(a.len() as int);
        assert(rest == s + b);
        let n = s.len() as int;
        assert forall|k: int| n <= k < rest.len() implies white_space(#[trigger] rest[k]) by {
            assert(rest[k] == b[k - n]);
        }
        lemma_trimmed_end(rest, n);
        assert(rest.take(n) == s);
    }
}

/// Two lists of texts are joined as each of them, with the separator in between.
pub proof fn law_joined(a: Seq<Seq<char>>, b: Seq<Seq<char>>, sep: Seq<char>)
    requires
        a.len() > 0,
        b.len() > 0,
    ensures
        joined(a + b, sep) == joined(a, sep) + sep + joined(b, sep),
        a.len() == 1 ==> joined(a, sep) == a[0],
    decreases b.len(),
{
    assert((a + b).drop_last() == a + b.drop_last());
    assert((a + b).last() == b.last());
    if b.len() == 1 {
        assert(a + b.drop_last() == a);
        assert(b.last() == b[0]);
    } else {
        law_joined(a, b.drop_last(), sep);
        assert(joined(a, sep) + sep + joined(b.drop_last(), sep) + sep + b.last() == joined(a, sep)
            + sep + joined(b, sep));
    }
}

/// White space at the end of a text adds no word, and a word behind white space is
/// the next word of the text.
pub proof fn law_words(s: Seq<char>, blank: char, word: Seq<char>)
    requires
        white_space(blank),
        is_word(word),
    ensures
        words(s.push(blank)) == words(s),
        words(s.push(blank) + word) == words(s).push(word),
        words(word) == seq![word],
{
    assert(s.push(blank).drop_last() == s);
    lemma_words_append(s.push(blank), word);
    lemma_words_of_word(word);
}

/// Aligned texts are filled up to the width with blanks, and never cut.
pub proof fn law_filling(s: Seq<char>, width: nat)
    ensures
        s.len() <= width ==> (s + filling(s, width)).len() == width,
        s.len() >= width ==> filling(s, width).len() == 0,
        forall|k: int| 0 <= k < filling(s, width).len() ==> #[trigger] filling(s, width)[k] == ' ',
{
}

/// A text holds another exactly when it is that text with something before it and
/// something behind it.
pub proof fn law_contains_text(s: Seq<char>, part: Seq<char>)
    ensures
        contains_text(s, part) <==> exists|a: Seq<char>, b: Seq<char>| s == #[trigger] (a + part
            + b),
{
    if contains_text(s, part) {
        let i = choose|i: int| stands_at(s, part, i);
        let a = s.take(i);
        let b = s.skip(i + part.len());
        assert(s == a + part + b);
    }
    if exists|a: Seq<char>, b: Seq<char>| s == #[trigger] (a + part + b) {
        let (a, b) = choose|a: Seq<char>, b: Seq<char>| s == #[trigger] (a + part + b);
        lemma_holds(a, part, b);
    }
}

/// A text starts with what stands first in it.
pub proof fn lemma_starts(a: Seq<char>, b: Seq<char>)
    ensures
        a.is_prefix_of(a + b),
{
    assert(a == (a + b).subrange(0, a.len() as int));
}

}
