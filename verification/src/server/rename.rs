//! How the paths in imports follow a file that is renamed.
use vstd::prelude::*;
use vstd::string::*;

use crate::text;
use crate::text::{chars_of, contains, cut_after_last, cut_before_last, ends_with, join, same};

verus! {

/// `s` with a double colon in place of each slash.
pub open spec fn colons_for_slashes(s: Seq<char>) -> Seq<char>
    decreases s.len(),
{
    if s.len() == 0 {
        Seq::empty()
    } else if s.last() == '/' {
        colons_for_slashes(s.drop_last()) + "::"@
    } else {
        colons_for_slashes(s.drop_last()).push(s.last())
    }
}

/// The import path of a file: its path without the extension, with a double
/// colon in place of each slash.
pub open spec fn import_stem(path: Seq<char>) -> Seq<char> {
    colons_for_slashes(text::before_last(path, '.'))
}

/// The last part of the import path of a file.
pub open spec fn relative_stem(path: Seq<char>) -> Seq<char> {
    text::after_last(text::before_last(path, '.'), '/')
}

/// Gives the import path of a file.
pub fn path_to_import_stem(file_path: &str) -> (r: String)
    ensures
        r@ == import_stem(file_path@),
{
    let v = chars_of(cut_before_last(file_path, '.'));
    let n: usize = v.len();
    let mut out = String::new();
    let mut i: usize = 0;
    while i < n
        invariant
            n == v@.len(),
            i <= n,
            out@ == colons_for_slashes(v@.take(i as int)),
        decreases n - i,
    {
        assert(v@.take(i + 1).drop_last() == v@.take(i as int));
        if v[i] == '/' {
            out.append("::");
        } else {
            out.push(v[i]);
        }
        i = i + 1;
    }
    assert(v@.take(n as int) == v@);
    out
}

/// Gives the last part of the import path of a file.
pub fn relative_import_stem(file_path: &str) -> (r: String)
    ensures
        r@ == relative_stem(file_path@),
{
    cut_after_last(cut_before_last(file_path, '.'), '/').to_owned()
}

proof fn lemma_colons_add(a: Seq<char>, b: Seq<char>)
    ensures
        colons_for_slashes(a + b) == colons_for_slashes(a) + colons_for_slashes(b),
    decreases b.len(),
{
    if b.len() == 0 {
        assert(a + b == a);
        assert(colons_for_slashes(a) + colons_for_slashes(b) == colons_for_slashes(a));
    } else {
        lemma_colons_add(a, b.drop_last());
        assert((a + b).drop_last() == a + b.drop_last());
        assert((a + b).last() == b.last());
        assert(colons_for_slashes(a + b) == colons_for_slashes(a) + colons_for_slashes(b));
    }
}

proof fn lemma_colons_plain(s: Seq<char>)
    requires
        forall|k: int| 0 <= k < s.len() ==> #[trigger] s[k] != '/',
    ensures
        colons_for_slashes(s) == s,
    decreases s.len(),
{
    if s.len() > 0 {
        assert(s[s.len() - 1] == s.last());
        assert forall|k: int| 0 <= k < s.drop_last().len() implies #[trigger] s.drop_last()[k]
            != '/' by {
            assert(s[k] != '/');
        }
        lemma_colons_plain(s.drop_last());
    }
}

proof fn lemma_no_slash_left(s: Seq<char>)
    ensures
        forall|k: int|
            0 <= k < colons_for_slashes(s).len() ==> #[trigger] colons_for_slashes(s)[k] != '/',
    decreases s.len(),
{
    if s.len() > 0 {
        let rest = colons_for_slashes(s.drop_last());
        let all = colons_for_slashes(s);
        lemma_no_slash_left(s.drop_last());
        reveal_strlit("::");
        assert forall|k: int| 0 <= k < all.len() implies #[trigger] all[k] != '/' by {
            if k < rest.len() {
                assert(all[k] == rest[k]);
            }
        }
    }
}

/// The place of the first double colon of `s`, or its length where there is
/// none.
pub open spec fn colons_at(s: Seq<char>) -> nat
    decreases s.len(),
{
    if s.len() < 2 {
        s.len()
    } else if s[0] == ':' && s[1] == ':' {
        0
    } else {
        1 + colons_at(s.drop_first())
    }
}

/// The parts of `s` between its double colons.
pub open spec fn segments(s: Seq<char>) -> Seq<Seq<char>>
    decreases s.len(),
{
    let p = colons_at(s) as int;
    if p + 2 > s.len() {
        seq![s]
    } else {
        seq![s.take(p)] + segments(s.skip(p + 2))
    }
}

proof fn lemma_colons_at(s: Seq<char>)
    ensures
        colons_at(s) <= s.len(),
        colons_at(s) < s.len() ==> colons_at(s) + 2 <= s.len() && s[colons_at(s) as int] == ':'
            && s[colons_at(s) as int + 1] == ':',
    decreases s.len(),
{
    if s.len() >= 2 && !(s[0] == ':' && s[1] == ':') {
        lemma_colons_at(s.drop_first());
    }
}

fn find_colons(v: &Vec<char>, from: usize) -> (r: usize)
    requires
        from <= v@.len(),
    ensures
        r == from + colons_at(v@.skip(from as int)),
        r <= v@.len(),
{
    let n: usize = v.len();
    let mut i: usize = from;
    while i < n && n - i >= 2
        invariant
            n == v@.len(),
            from <= i <= n,
            from + colons_at(v@.skip(from as int)) == i + colons_at(v@.skip(i as int)),
        decreases n - i,
    {
        assert(v@.skip(i as int)[0] == v@[i as int]);
        assert(v@.skip(i as int)[1] == v@[i + 1]);
        assert(v@.skip(i as int).drop_first() == v@.skip(i + 1));
        if v[i] == ':' && v[i + 1] == ':' {
            return i;
        }
        i = i + 1;
    }
    n
}

fn split_segments(s: &str) -> (r: Vec<String>)
    ensures
        text::texts(r@) == segments(s@),
{
    let v = chars_of(s);
    let n: usize = v.len();
    let mut out: Vec<String> = Vec::new();
    let mut from: usize = 0;
    assert(s@.skip(0) == s@);
    assert(text::texts(out@) + segments(s@) == segments(s@));
    loop
        invariant_except_break
            n == v@.len(),
            v@ == s@,
            from <= n,
            text::texts(out@) + segments(s@.skip(from as int)) == segments(s@),
        ensures
            text::texts(out@) == segments(s@),
        decreases n - from,
    {
        let at = find_colons(&v, from);
        let ghost rest = s@.skip(from as int);
        let ghost before = text::texts(out@);
        proof {
            lemma_colons_at(rest);
        }
        let part = s.substring_char(from, at).to_owned();
        proof {
            text::lemma_texts_push(out@, part);
        }
        out.push(part);
        if at == n {
            proof {
                assert(part@ == rest);
                assert(segments(rest) == seq![rest]);
                assert(before.push(rest) == before + seq![rest]);
            }
            break;
        }
        proof {
            let p = colons_at(rest) as int;
            assert(part@ == rest.take(p));
            assert(rest.skip(p + 2) == s@.skip(at + 2));
            assert(before.push(rest.take(p)) + segments(s@.skip(at + 2)) == before + (seq![
                rest.take(p),
            ] + segments(rest.skip(p + 2))));
        }
        from = at + 2;
    }
    out
}

proof fn lemma_joined_front(first: Seq<char>, rest: Seq<Seq<char>>, sep: Seq<char>)
    requires
        rest.len() > 0,
    ensures
        text::joined(seq![first] + rest, sep) == first + sep + text::joined(rest, sep),
    decreases rest.len(),
{
    let all = seq![first] + rest;
    if rest.len() == 1 {
        assert(all.drop_last() == seq![first]);
        assert(text::joined(seq![first], sep) == first);
        assert(rest.last() == rest[0]);
    } else {
        lemma_joined_front(first, rest.drop_last(), sep);
        assert(all.drop_last() == seq![first] + rest.drop_last());
        assert(all.last() == rest.last());
        assert(text::joined(all, sep) == first + sep + text::joined(rest, sep));
    }
}

/// The parts of a path, joined again, give the path back.
pub proof fn law_segments_join_to_path(s: Seq<char>)
    ensures
        segments(s).len() > 0,
        text::joined(segments(s), "::"@) == s,
    decreases s.len(),
{
    lemma_colons_at(s);
    let p = colons_at(s) as int;
    if p + 2 <= s.len() {
        let rest = s.skip(p + 2);
        law_segments_join_to_path(rest);
        lemma_joined_front(s.take(p), segments(rest), "::"@);
        reveal_strlit("::");
        assert(s == s.take(p) + "::"@ + rest);
    }
}

proof fn lemma_colons_at_plain(s: Seq<char>)
    requires
        forall|k: int| 0 <= k < s.len() ==> #[trigger] s[k] != ':',
    ensures
        colons_at(s) == s.len(),
    decreases s.len(),
{
    if s.len() >= 2 {
        assert forall|k: int| 0 <= k < s.drop_first().len() implies #[trigger] s.drop_first()[k]
            != ':' by {
            assert(s[k + 1] != ':');
        }
        assert(s[0] != ':');
        lemma_colons_at_plain(s.drop_first());
    }
}

proof fn lemma_colons_at_join(a: Seq<char>, b: Seq<char>)
    requires
        forall|k: int| 0 <= k < a.len() ==> #[trigger] a[k] != ':',
    ensures
        colons_at(a + "::"@ + b) == a.len(),
    decreases a.len(),
{
    reveal_strlit("::");
    let whole = a + "::"@ + b;
    if a.len() > 0 {
        let rest = a.drop_first();
        assert forall|k: int| 0 <= k < rest.len() implies #[trigger] rest[k] != ':' by {
            assert(a[k + 1] != ':');
        }
        lemma_colons_at_join(rest, b);
        assert(whole[0] == a[0]);
        assert(whole.drop_first() == rest + "::"@ + b);
    }
}

proof fn lemma_last_segment(s: Seq<char>)
    requires
        forall|k: int| 0 <= k < s.len() ==> #[trigger] s[k] != ':',
    ensures
        segments(colons_for_slashes(s)).last() == text::after_last(s, '/'),
    decreases s.len(),
{
    let p = text::position(s, '/') as int;
    text::lemma_position_bound(s, '/');
    if p == s.len() {
        lemma_colons_plain(s);
        lemma_colons_at_plain(s);
        text::lemma_past_last(s, '/', 0);
        assert(s.skip(0) == s);
    } else {
        let front = s.take(p);
        let rest = s.skip(p + 1);
        let inner = colons_for_slashes(rest);
        assert(front.push('/').drop_last() == front);
        assert(s == front.push('/') + rest);
        lemma_colons_add(front.push('/'), rest);
        lemma_colons_plain(front);
        let whole = colons_for_slashes(s);
        assert(whole == front + "::"@ + inner);
        lemma_colons_at_join(front, inner);
        reveal_strlit("::");
        assert(whole.skip(p + 2) == inner);
        law_segments_join_to_path(inner);
        lemma_last_segment(rest);
        text::lemma_past_last_bound(rest, '/');
        let q = text::past_last(rest, '/') as int;
        assert forall|k: int| p + 1 + q <= k < s.len() implies #[trigger] s[k] != '/' by {
            assert(s[k] == rest[k - p - 1]);
        }
        text::lemma_past_last(s, '/', p + 1 + q);
        assert(s.skip(p + 1 + q) == rest.skip(q));
    }
}

/// An import path holds no slash and ends in its last part. For a path without
/// colons the last of its segments is that part.
pub proof fn law_import_stem_ends_in_relative_stem(path: Seq<char>)
    ensures
        forall|k: int| 0 <= k < import_stem(path).len() ==> #[trigger] import_stem(path)[k] != '/',
        relative_stem(path).is_suffix_of(import_stem(path)),
        !path.contains(':') ==> segments(import_stem(path)).last() == relative_stem(path),
{
    let base = text::before_last(path, '.');
    lemma_no_slash_left(base);
    text::lemma_past_last_bound(path, '.');
    text::lemma_past_last_bound(base, '/');
    let p = text::past_last(base, '/') as int;
    let name = text::after_last(base, '/');
    assert(base == base.take(p) + name);
    assert forall|k: int| 0 <= k < name.len() implies #[trigger] name[k] != '/' by {
        assert(name[k] == base[p + k]);
    }
    lemma_colons_add(base.take(p), name);
    lemma_colons_plain(name);
    let whole = import_stem(path);
    assert(whole == colons_for_slashes(base.take(p)) + name);
    assert(name == whole.subrange(whole.len() - name.len(), whole.len() as int));
    if !path.contains(':') {
        assert forall|k: int| 0 <= k < base.len() implies #[trigger] base[k] != ':' by {
            assert(base[k] == path[k]);
        }
        lemma_last_segment(base);
    }
}

/// The number of leading parts that two paths share.
pub open spec fn shared(a: Seq<Seq<char>>, b: Seq<Seq<char>>) -> nat
    decreases a.len(),
{
    if a.len() == 0 || b.len() == 0 || a[0] != b[0] {
        0
    } else {
        1 + shared(a.drop_first(), b.drop_first())
    }
}

proof fn lemma_shared(a: Seq<Seq<char>>, b: Seq<Seq<char>>)
    ensures
        shared(a, b) <= a.len(),
        shared(a, b) <= b.len(),
        a.take(shared(a, b) as int) == b.take(shared(a, b) as int),
    decreases a.len(),
{
    if a.len() > 0 && b.len() > 0 && a[0] == b[0] {
        lemma_shared(a.drop_first(), b.drop_first());
        let k = shared(a.drop_first(), b.drop_first()) as int;
        assert(a.take(k + 1) == seq![a[0]] + a.drop_first().take(k));
        assert(b.take(k + 1) == seq![b[0]] + b.drop_first().take(k));
    }
}

fn count_shared(a: &Vec<String>, b: &Vec<String>) -> (r: usize)
    ensures
        r == shared(text::texts(a@), text::texts(b@)),
{
    let ghost x = text::texts(a@);
    let ghost y = text::texts(b@);
    let n: usize = a.len();
    let m: usize = b.len();
    let mut i: usize = 0;
    assert(x.skip(0) == x && y.skip(0) == y);
    while i < n && i < m
        invariant
            n == a@.len(),
            m == b@.len(),
            x == text::texts(a@),
            y == text::texts(b@),
            i <= n,
            i <= m,
            shared(x, y) == i + shared(x.skip(i as int), y.skip(i as int)),
        decreases n - i,
    {
        assert(x.skip(i as int)[0] == a@[i as int]@);
        assert(y.skip(i as int)[0] == b@[i as int]@);
        assert(x.skip(i as int).drop_first() == x.skip(i + 1));
        assert(y.skip(i as int).drop_first() == y.skip(i + 1));
        if !same(a[i].as_str(), b[i].as_str()) {
            return i;
        }
        i = i + 1;
    }
    i
}

/// A path behind its first `k` parts.
pub open spec fn tail_of(parts: Seq<Seq<char>>, k: int) -> Seq<char> {
    text::joined(parts.skip(k), "::"@)
}

/// The pair of what two paths do not share, where each holds two parts at
/// least: a single part would match unrelated names.
pub open spec fn suffix_pair(old_full: Seq<char>, new_full: Seq<char>) -> Option<
    (Seq<char>, Seq<char>),
> {
    let a = segments(old_full);
    let b = segments(new_full);
    let k = shared(a, b) as int;
    let from = tail_of(a, k);
    let to = tail_of(b, k);
    if 0 < k < a.len() && k < b.len() && text::contains_text(from, "::"@) && text::contains_text(
        to,
        "::"@,
    ) && from != to {
        Some((from, to))
    } else {
        None
    }
}

/// The pair that starts at the crate, where two paths share their first part.
pub open spec fn crate_pair(old_full: Seq<char>, new_full: Seq<char>) -> Option<
    (Seq<char>, Seq<char>),
> {
    let a = segments(old_full);
    let b = segments(new_full);
    let from = "crate::"@ + tail_of(a, 1);
    let to = "crate::"@ + tail_of(b, 1);
    if a.len() > 1 && b.len() > 1 && a[0] == b[0] && from != to {
        Some((from, to))
    } else {
        None
    }
}

/// The pairs by which imports follow a file: the full path, then the part that
/// is not shared or, where that would match unrelated names, the path from the
/// crate on.
pub open spec fn stem_pairs(old_full: Seq<char>, new_full: Seq<char>) -> Seq<
    (Seq<char>, Seq<char>),
> {
    if old_full == new_full {
        Seq::empty()
    } else {
        let full = seq![(old_full, new_full)];
        match suffix_pair(old_full, new_full) {
            Some(pair) => full.push(pair),
            None => match crate_pair(old_full, new_full) {
                Some(pair) => full.push(pair),
                None => full,
            },
        }
    }
}

/// Pairs of strings as plain values.
pub open spec fn pair_texts(pairs: Seq<(String, String)>) -> Seq<(Seq<char>, Seq<char>)> {
    Seq::new(pairs.len(), |i: int| (pairs[i].0@, pairs[i].1@))
}

fn join_tail(parts: &Vec<String>, k: usize) -> (r: String)
    requires
        k <= parts@.len(),
    ensures
        r@ == tail_of(text::texts(parts@), k as int),
{
    let n: usize = parts.len();
    let mut rest: Vec<String> = Vec::new();
    let mut i: usize = k;
    while i < n
        invariant
            n == parts@.len(),
            k <= i <= n,
            rest@.len() == i - k,
            forall|j: int| 0 <= j < i - k ==> (#[trigger] rest@[j])@ == parts@[k + j]@,
        decreases n - i,
    {
        rest.push(parts[i].clone());
        i = i + 1;
    }
    assert(text::texts(rest@) == text::texts(parts@).skip(k as int));
    join(&rest, "::")
}

/// Lists the pairs by which imports follow a file from `old_full` to `new_full`.
pub fn rename_stem_pairs(old_full: &str, new_full: &str) -> (r: Vec<(String, String)>)
    ensures
        pair_texts(r@) == stem_pairs(old_full@, new_full@),
{
    let mut pairs: Vec<(String, String)> = Vec::new();
    if same(old_full, new_full) {
        assert(pair_texts(pairs@) == Seq::<(Seq<char>, Seq<char>)>::empty());
        return pairs;
    }
    pairs.push((old_full.to_owned(), new_full.to_owned()));
    assert(pair_texts(pairs@) == seq![(old_full@, new_full@)]);
    let ghost full = pair_texts(pairs@);
    let a = split_segments(old_full);
    let b = split_segments(new_full);
    let n: usize = a.len();
    let m: usize = b.len();
    proof {
        assert(text::texts(a@).len() == n);
        assert(text::texts(b@).len() == m);
        lemma_shared(text::texts(a@), text::texts(b@));
    }
    let k = count_shared(&a, &b);
    if k > 0 && k < n && k < m {
        let from = join_tail(&a, k);
        let to = join_tail(&b, k);
        if contains(from.as_str(), "::") && contains(to.as_str(), "::") && !same(
            from.as_str(),
            to.as_str(),
        ) {
            pairs.push((from, to));
            assert(pair_texts(pairs@) == full.push((from@, to@)));
            return pairs;
        }
    }
    assert(suffix_pair(old_full@, new_full@) is None);
    if n > 1 && m > 1 && same(a[0].as_str(), b[0].as_str()) {
        let mut from = "crate::".to_owned();
        let old_tail = join_tail(&a, 1);
        from.append(old_tail.as_str());
        let mut to = "crate::".to_owned();
        let new_tail = join_tail(&b, 1);
        to.append(new_tail.as_str());
        if !same(from.as_str(), to.as_str()) {
            pairs.push((from, to));
            assert(pair_texts(pairs@) == full.push((from@, to@)));
        }
    }
    pairs
}

/// There are no pairs for a file that keeps its path. Else the first pair is the
/// full one, there are two at most, and none maps a path to itself.
pub proof fn law_stem_pairs(old_full: Seq<char>, new_full: Seq<char>)
    ensures
        stem_pairs(old_full, new_full).len() <= 2,
        stem_pairs(old_full, new_full).len() == 0 <==> old_full == new_full,
        old_full != new_full ==> stem_pairs(old_full, new_full)[0] == (old_full, new_full),
        forall|k: int|
            0 <= k < stem_pairs(old_full, new_full).len() ==> (#[trigger] stem_pairs(
                old_full,
                new_full,
            )[k]).0 != stem_pairs(old_full, new_full)[k].1,
{
}

proof fn lemma_tail_shorter(parts: Seq<Seq<char>>, k: int)
    requires
        0 <= k < parts.len(),
    ensures
        tail_of(parts, k).len() + (if k > 0 {
            2int
        } else {
            0
        }) <= text::joined(parts, "::"@).len(),
    decreases k,
{
    reveal_strlit("::");
    if k == 0 {
        assert(parts.skip(0) == parts);
    } else {
        let rest = parts.drop_first();
        lemma_tail_shorter(rest, k - 1);
        assert(rest.skip(k - 1) == parts.skip(k));
        lemma_joined_front(parts[0], rest, "::"@);
        assert(parts == seq![parts[0]] + rest);
    }
}

/// Where the second pair is what the paths do not share, the pairs come longest
/// first.
pub proof fn law_suffix_pair_is_shorter(old_full: Seq<char>, new_full: Seq<char>)
    requires
        suffix_pair(old_full, new_full) is Some,
    ensures
        ({
            let pair = suffix_pair(old_full, new_full)->0;
            pair.0.len() < old_full.len() && pair.1.len() < new_full.len()
        }),
{
    let a = segments(old_full);
    let b = segments(new_full);
    let k = shared(a, b) as int;
    law_segments_join_to_path(old_full);
    law_segments_join_to_path(new_full);
    lemma_tail_shorter(a, k);
    lemma_tail_shorter(b, k);
}

/// A second pair that is no path from the crate on holds two parts on either
/// side, so that it cannot match a lone name.
pub proof fn law_suffix_pair_has_two_parts(old_full: Seq<char>, new_full: Seq<char>)
    requires
        suffix_pair(old_full, new_full) is Some,
    ensures
        ({
            let pair = suffix_pair(old_full, new_full)->0;
            text::contains_text(pair.0, "::"@) && text::contains_text(pair.1, "::"@)
        }),
{
}

/// Whether a character has a meaning of its own in a pattern.
pub open spec fn meta_character(c: char) -> bool {
    ||| c == '\\'
    ||| c == '.'
    ||| c == '+'
    ||| c == '*'
    ||| c == '?'
    ||| c == '('
    ||| c == ')'
    ||| c == '|'
    ||| c == '['
    ||| c == ']'
    ||| c == '{'
    ||| c == '}'
    ||| c == '^'
    ||| c == '$'
    ||| c == '#'
    ||| c == '&'
    ||| c == '-'
    ||| c == '~'
}

/// `s` with a backslash before each character that has a meaning of its own.
pub open spec fn escaped(s: Seq<char>) -> Seq<char>
    decreases s.len(),
{
    if s.len() == 0 {
        Seq::empty()
    } else if meta_character(s.last()) {
        escaped(s.drop_last()).push('\\').push(s.last())
    } else {
        escaped(s.drop_last()).push(s.last())
    }
}

/// `regex::escape`: puts a backslash before each character that has a meaning of
/// its own in a pattern, and leaves the others as they are.
#[verifier::external_body]
fn escape(literal: &str) -> (r: String)
    ensures
        r@ == escaped(literal@),
{
    regex::escape(literal)
}

/// The pattern of a literal that stands as a word of its own.
pub open spec fn word_pattern(literal: Seq<char>) -> Seq<char> {
    "\\b"@ + escaped(literal) + "\\b"@
}

/// The pattern of a declaration of the module `name` that lies in a file.
pub open spec fn mod_pattern(name: Seq<char>) -> Seq<char> {
    "(?m)^(?P<prefix>\\s*(?:pub(?:\\([^)]*\\))?\\s+)?mod\\s+)"@ + escaped(name)
        + "(?P<suffix>\\s*;)"@
}

/// What replaces a declaration, so that only the name changes.
pub open spec fn mod_replacement(name: Seq<char>) -> Seq<char> {
    "${prefix}"@ + name + "${suffix}"@
}

/// The number of bytes up to which a literal is sure to fit the size limit of
/// compiled patterns.
pub open spec fn fits_pattern(literal: Seq<char>) -> bool {
    text::byte_len(literal) <= 200_000
}

/// Whether a character is an ASCII letter or digit, or an underscore.
pub open spec fn word_char(c: char) -> bool {
    'a' <= c <= 'z' || 'A' <= c <= 'Z' || '0' <= c <= '9' || c == '_'
}

/// Whether a character is an ASCII character that no word holds.
pub open spec fn gap_char(c: char) -> bool {
    c <= '\u{7f}' && !word_char(c)
}

/// Whether `content` is `a`, `literal` and `b`, and holds the literal nowhere
/// else.
pub open spec fn sole(
    content: Seq<char>,
    literal: Seq<char>,
    a: Seq<char>,
    b: Seq<char>,
) -> bool {
    &&& content == a + literal + b
    &&& forall|i: int| #[trigger] text::stands_at(content, literal, i) ==> i == a.len()
}

/// Whether `content` holds `literal` once, between `a` and `b`, as a word of its
/// own.
pub open spec fn sole_word(
    content: Seq<char>,
    literal: Seq<char>,
    a: Seq<char>,
    b: Seq<char>,
) -> bool {
    &&& sole(content, literal, a, b)
    &&& literal.len() > 0 && word_char(literal[0]) && word_char(literal.last())
    &&& a.len() > 0 ==> gap_char(a.last())
    &&& b.len() > 0 ==> gap_char(b[0])
}

/// Whether `content` holds `name` once, between `a` and `b`, where a line
/// declares it as a module.
pub open spec fn sole_mod(
    content: Seq<char>,
    name: Seq<char>,
    a: Seq<char>,
    b: Seq<char>,
) -> bool {
    &&& sole(content, name, a, b)
    &&& name.len() > 0
    &&& a == "mod "@ || "\nmod "@.is_suffix_of(a)
    &&& b.len() > 0 && b[0] == ';'
}

/// Whether a replacement stands for itself: it refers to no part of a match.
pub open spec fn plain(replacement: Seq<char>) -> bool {
    forall|i: int| 0 <= i < replacement.len() ==> #[trigger] replacement[i] != '$'
}

/// `content` with all matches of a pattern replaced.
pub uninterp spec fn regex_replaced(
    pattern: Seq<char>,
    content: Seq<char>,
    replacement: Seq<char>,
) -> Seq<char>;

/// `regex::Regex::new` and `regex::Regex::replace_all`: replaces all matches of
/// a pattern, or says why the pattern is none. What comes out depends on the
/// arguments alone, and is named. Of the two patterns of this module it is said
/// besides: a text without the literal, which every match has to hold, comes out
/// unchanged; a literal that stands once, as a word or in a declaration, is
/// replaced there and nothing else changes. Both patterns are well-formed for
/// every literal; that they stay below the size limit of compiled patterns, which
/// depends on the machine, is claimed for literals of moderate length: a byte takes
/// one state of at most 32 bytes, and the limit is ten mebibytes. The words of an
/// error are left unsaid.
#[verifier::external_body]
fn replace_all(pattern: &str, content: &str, replacement: &str) -> (r: Result<String, String>)
    ensures
        r matches Ok(out) ==> out@ == regex_replaced(pattern@, content@, replacement@),
        r matches Ok(out) ==> forall|literal: Seq<char>|
            (#[trigger] word_pattern(literal) == pattern@ && !text::contains_text(
                content@,
                literal,
            )) ==> out@ == content@,
        r matches Ok(out) ==> forall|name: Seq<char>|
            (#[trigger] mod_pattern(name) == pattern@ && !text::contains_text(content@, name))
                ==> out@ == content@,
        r matches Ok(out) ==> forall|literal: Seq<char>, a: Seq<char>, b: Seq<char>|
            (#[trigger] sole_word(content@, literal, a, b) && word_pattern(literal) == pattern@
                && plain(replacement@)) ==> out@ == a + replacement@ + b,
        r matches Ok(out) ==> forall|name: Seq<char>, new: Seq<char>, a: Seq<char>, b: Seq<char>|
            (#[trigger] sole_mod(content@, name, a, b) && mod_pattern(name) == pattern@ && plain(
                new,
            ) && replacement@ == #[trigger] mod_replacement(new)) ==> out@ == a + new + b,
        r is Err ==> forall|literal: Seq<char>| #[trigger]
            word_pattern(literal) == pattern@ ==> !fits_pattern(literal),
        r is Err ==> forall|name: Seq<char>| #[trigger]
            mod_pattern(name) == pattern@ ==> !fits_pattern(name),
{
    match regex::Regex::new(pattern) {
        Ok(re) => Ok(re.replace_all(content, replacement).to_string()),
        Err(e) => Err(e.to_string()),
    }
}

/// Gives the pattern of a literal that stands as a word of its own.
pub fn pattern_for_word(literal: &str) -> (r: String)
    ensures
        r@ == word_pattern(literal@),
{
    let mut out = "\\b".to_owned();
    let inner = escape(literal);
    out.append(inner.as_str());
    out.append("\\b");
    out
}

/// Gives the pattern of a declaration of the module `name` that lies in a file.
pub fn pattern_for_mod(name: &str) -> (r: String)
    ensures
        r@ == mod_pattern(name@),
{
    let mut out = "(?m)^(?P<prefix>\\s*(?:pub(?:\\([^)]*\\))?\\s+)?mod\\s+)".to_owned();
    let inner = escape(name);
    out.append(inner.as_str());
    out.append("(?P<suffix>\\s*;)");
    out
}

/// `content` after the first `n` pairs were applied to it.
pub open spec fn renamed(
    content: Seq<char>,
    pairs: Seq<(Seq<char>, Seq<char>)>,
    n: nat,
) -> Seq<char>
    decreases n,
{
    if n == 0 {
        content
    } else {
        regex_replaced(
            word_pattern(pairs[n - 1].0),
            renamed(content, pairs, (n - 1) as nat),
            pairs[n - 1].1,
        )
    }
}

/// What pairs make of a text where the patterns of `refused` cannot be compiled:
/// nothing where one of the pairs needs such a pattern.
pub open spec fn applied(
    content: Seq<char>,
    pairs: Seq<(Seq<char>, Seq<char>)>,
    refused: Set<Seq<char>>,
) -> Option<Seq<char>> {
    if exists|k: int|
        0 <= k < pairs.len() && refused.contains(word_pattern((#[trigger] pairs[k]).0)) {
        None
    } else {
        Some(renamed(content, pairs, pairs.len()))
    }
}

/// Whether no pattern of a literal of moderate length is among `refused`.
pub open spec fn only_long(refused: Set<Seq<char>>) -> bool {
    forall|literal: Seq<char>|
        fits_pattern(literal) ==> !refused.contains(#[trigger] word_pattern(literal))
}

/// Whether `content` holds the first of pair `k` once, as a word between `a` and
/// `b`, and the other pairs have nothing to do: neither before it is replaced nor
/// afterwards.
pub open spec fn only_pair(
    content: Seq<char>,
    pairs: Seq<(String, String)>,
    k: int,
    a: Seq<char>,
    b: Seq<char>,
) -> bool {
    &&& 0 <= k < pairs.len()
    &&& sole_word(content, pairs[k].0@, a, b)
    &&& plain(pairs[k].1@)
    &&& forall|j: int| 0 <= j < k ==> !text::contains_text(content, (#[trigger] pairs[j]).0@)
    &&& forall|j: int|
        k < j < pairs.len() ==> !text::contains_text(
            a + pairs[k].1@ + b,
            (#[trigger] pairs[j]).0@,
        )
}

spec fn on_the_way(
    content: Seq<char>,
    pairs: Seq<(String, String)>,
    i: int,
    out: Seq<char>,
) -> bool {
    forall|k: int, a: Seq<char>, b: Seq<char>| #[trigger]
        only_pair(content, pairs, k, a, b) ==> out == if i <= k {
            content
        } else {
            a + pairs[k].1@ + b
        }
}

/// Applies pairs to a text, in order: each word that is the first of a pair
/// becomes the second. A text that holds none of the first ones stays as it is,
/// and where only one of them is there, and once, it alone is replaced. It fails
/// exactly where a pattern cannot be compiled, which only happens to long ones.
pub fn apply_rename_pairs(content: &str, pairs: &Vec<(String, String)>) -> (r: Result<
    String,
    String,
>)
    ensures
        r matches Ok(out) ==> out@ == renamed(content@, pair_texts(pairs@), pairs@.len()),
        exists|refused: Set<Seq<char>>|
            only_long(refused) && match r {
                Ok(out) => #[trigger] applied(content@, pair_texts(pairs@), refused) == Some(out@),
                Err(_) => applied(content@, pair_texts(pairs@), refused) is None,
            },
        r matches Ok(out) ==> ((forall|k: int|
            0 <= k < pairs@.len() ==> !text::contains_text(
                content@,
                (#[trigger] pairs@[k]).0@,
            )) ==> out@ == content@),
        r matches Ok(out) ==> forall|k: int, a: Seq<char>, b: Seq<char>| #[trigger]
            only_pair(content@, pairs@, k, a, b) ==> out@ == a + pairs@[k].1@ + b,
        r matches Err(message) ==> "regex error: "@.is_prefix_of(message@) && exists|k: int|
            0 <= k < pairs@.len() && !fits_pattern((#[trigger] pairs@[k]).0@),
{
    let ghost texts = pair_texts(pairs@);
    let n: usize = pairs.len();
    let mut out = content.to_owned();
    let mut i: usize = 0;
    while i < n
        invariant
            n == pairs@.len(),
            texts == pair_texts(pairs@),
            i <= n,
            out@ == renamed(content@, texts, i as nat),
            (forall|k: int|
                0 <= k < n ==> !text::contains_text(content@, (#[trigger] pairs@[k]).0@))
                ==> out@ == content@,
            on_the_way(content@, pairs@, i as int, out@),
        decreases n - i,
    {
        let pattern = pattern_for_word(pairs[i].0.as_str());
        match replace_all(pattern.as_str(), out.as_str(), pairs[i].1.as_str()) {
            Ok(next) => {
                assert(word_pattern(pairs@[i as int].0@) == pattern@);
                proof {
                    assert forall|k: int, a: Seq<char>, b: Seq<char>| #[trigger]
                        only_pair(content@, pairs@, k, a, b) implies next@ == if i + 1 <= k {
                        content@
                    } else {
                        a + pairs@[k].1@ + b
                    } by {
                        if i == k {
                            assert(sole_word(out@, pairs@[k].0@, a, b));
                        } else {
                            assert(!text::contains_text(out@, pairs@[i as int].0@));
                        }
                    }
                }
                out = next;
            },
            Err(reason) => {
                assert(word_pattern(pairs@[i as int].0@) == pattern@);
                let mut message = "regex error: ".to_owned();
                message.append(reason.as_str());
                proof {
                    assert("regex error: "@ == message@.subrange(
                        0,
                        "regex error: "@.len() as int,
                    ));
                    let refused = Set::<Seq<char>>::empty().insert(pattern@);
                    assert(refused.contains(word_pattern(texts[i as int].0)));
                    assert(only_long(refused));
                    assert(applied(content@, texts, refused) is None);
                }
                return Err(message);
            },
        }
        i = i + 1;
    }
    proof {
        let refused = Set::<Seq<char>>::empty();
        assert(only_long(refused));
        assert(applied(content@, texts, refused) == Some(out@));
    }
    Ok(out)
}

/// To apply no pairs changes nothing. To apply two lists of pairs joined is to
/// apply the first and then, where that succeeds, the second to what came out:
/// with any pairs, and whichever patterns cannot be compiled.
pub proof fn law_renaming_composes(
    content: Seq<char>,
    first: Seq<(Seq<char>, Seq<char>)>,
    second: Seq<(Seq<char>, Seq<char>)>,
    refused: Set<Seq<char>>,
)
    ensures
        applied(content, Seq::empty(), refused) == Some(content),
        applied(content, first + second, refused) == match applied(content, first, refused) {
            Some(out) => applied(out, second, refused),
            None => None,
        },
{
    let both = first + second;
    lemma_renamed_join(content, first, second, second.len());
    assert forall|k: int|
        0 <= k < first.len() && refused.contains(
            word_pattern((#[trigger] first[k]).0),
        ) implies applied(content, both, refused) is None by {
        assert(both[k] == first[k]);
    }
    assert forall|k: int|
        0 <= k < second.len() && refused.contains(
            word_pattern((#[trigger] second[k]).0),
        ) implies applied(content, both, refused) is None by {
        assert(both[first.len() + k] == second[k]);
    }
    assert forall|k: int|
        0 <= k < both.len() && refused.contains(word_pattern((#[trigger] both[k]).0)) implies (
    exists|j: int| 0 <= j < first.len() && refused.contains(word_pattern((#[trigger] first[j]).0)))
        || (exists|j: int|
        0 <= j < second.len() && refused.contains(word_pattern((#[trigger] second[j]).0))) by {
        if k < first.len() {
            assert(both[k] == first[k]);
        } else {
            assert(both[k] == second[k - first.len()]);
        }
    }
}

/// Lists of pairs whose literals are of moderate length always compose: no pattern
/// of theirs is refused, whichever others are at each of the three calls.
pub proof fn law_moderate_pairs_compose(
    content: Seq<char>,
    first: Seq<(Seq<char>, Seq<char>)>,
    second: Seq<(Seq<char>, Seq<char>)>,
    at_both: Set<Seq<char>>,
    at_first: Set<Seq<char>>,
    at_second: Set<Seq<char>>,
)
    requires
        only_long(at_both),
        only_long(at_first),
        only_long(at_second),
        forall|k: int| 0 <= k < first.len() ==> fits_pattern((#[trigger] first[k]).0),
        forall|k: int| 0 <= k < second.len() ==> fits_pattern((#[trigger] second[k]).0),
    ensures
        applied(content, first, at_first) is Some,
        applied(applied(content, first, at_first)->0, second, at_second) is Some,
        applied(content, first + second, at_both) == applied(
            applied(content, first, at_first)->0,
            second,
            at_second,
        ),
{
    let both = first + second;
    assert forall|k: int| 0 <= k < both.len() implies fits_pattern((#[trigger] both[k]).0) by {
        if k < first.len() {
            assert(both[k] == first[k]);
        } else {
            assert(both[k] == second[k - first.len()]);
        }
    }
    lemma_renamed_join(content, first, second, second.len());
}

proof fn lemma_renamed_join(
    content: Seq<char>,
    first: Seq<(Seq<char>, Seq<char>)>,
    second: Seq<(Seq<char>, Seq<char>)>,
    n: nat,
)
    requires
        n <= second.len(),
    ensures
        renamed(content, first + second, first.len() + n) == renamed(
            renamed(content, first, first.len()),
            second,
            n,
        ),
    decreases n,
{
    if n == 0 {
        lemma_renamed_prefix(content, first, first + second, first.len());
    } else {
        lemma_renamed_join(content, first, second, (n - 1) as nat);
        assert((first + second)[first.len() + n - 1] == second[n - 1]);
    }
}

proof fn lemma_renamed_prefix(
    content: Seq<char>,
    a: Seq<(Seq<char>, Seq<char>)>,
    b: Seq<(Seq<char>, Seq<char>)>,
    n: nat,
)
    requires
        n <= a.len(),
        n <= b.len(),
        forall|k: int| 0 <= k < n ==> #[trigger] a[k] == b[k],
    ensures
        renamed(content, a, n) == renamed(content, b, n),
    decreases n,
{
    if n > 0 {
        lemma_renamed_prefix(content, a, b, (n - 1) as nat);
        assert(a[n - 1] == b[n - 1]);
    }
}

/// Gives what replaces a declaration, so that only the name changes.
pub fn replacement_for_mod(name: &str) -> (r: String)
    ensures
        r@ == mod_replacement(name@),
{
    let mut out = "${prefix}".to_owned();
    out.append(name);
    out.append("${suffix}");
    out
}

/// Renames the declarations of the module `old` that lies in a file. A text that
/// does not hold the name stays as it is, and so does any text where the name is
/// too long for a pattern.
pub fn rewrite_mod_decl(content: &str, old_name: &str, new_name: &str) -> (r: String)
    ensures
        fits_pattern(old_name@) ==> r@ == regex_replaced(
            mod_pattern(old_name@),
            content@,
            mod_replacement(new_name@),
        ),
        r@ == content@ || r@ == regex_replaced(
            mod_pattern(old_name@),
            content@,
            mod_replacement(new_name@),
        ),
        !text::contains_text(content@, old_name@) ==> r@ == content@,
        fits_pattern(old_name@) && plain(new_name@) ==> forall|a: Seq<char>, b: Seq<char>|
            #[trigger]
            sole_mod(content@, old_name@, a, b) ==> r@ == a + new_name@ + b,
{
    let pattern = pattern_for_mod(old_name);
    let replacement = replacement_for_mod(new_name);
    match replace_all(pattern.as_str(), content, replacement.as_str()) {
        Ok(out) => {
            assert(mod_pattern(old_name@) == pattern@);
            out
        },
        Err(_) => {
            assert(mod_pattern(old_name@) == pattern@);
            content.to_owned()
        },
    }
}

/// A path without the separators and the references to the same directory at its
/// end.
pub open spec fn tidy(path: Seq<char>) -> Seq<char>
    decreases path.len(),
{
    if path.len() > 1 && path.last() == '/' {
        tidy(path.drop_last())
    } else if path.len() > 1 && path.last() == '.' && path[path.len() - 2] == '/' {
        tidy(path.drop_last())
    } else {
        path
    }
}

/// The directory that a path lies in; the root and the empty path lie in none.
pub open spec fn parent(path: Seq<char>) -> Option<Seq<char>> {
    let own = tidy(path);
    if own.len() == 0 || own == seq!['/'] {
        None
    } else {
        Some(tidy(own.take(text::past_last(own, '/') as int)))
    }
}

/// The last part of a path, where it is a name.
pub open spec fn file_name(path: Seq<char>) -> Option<Seq<char>> {
    let own = tidy(path);
    let last = text::after_last(own, '/');
    if last.len() == 0 || last == seq!['.'] || last == seq!['.', '.'] {
        None
    } else {
        Some(last)
    }
}

/// The path of `name` in a directory.
pub open spec fn path_in(directory: Seq<char>, name: Seq<char>) -> Seq<char> {
    if directory.len() == 0 || directory.last() == '/' {
        directory + name
    } else {
        directory + "/"@ + name
    }
}

/// The directory whose files may declare the module of a file: its own, or the
/// one above for a file that stands for its directory. Crate roots and files of
/// other languages have none.
pub open spec fn declaring_directory(rel_path: Seq<char>) -> Option<Seq<char>> {
    match (parent(rel_path), file_name(rel_path)) {
        (Some(directory), Some(name)) => if !".rs"@.is_suffix_of(rel_path) || name == "lib.rs"@
            || name == "main.rs"@ {
            None
        } else if name == "mod.rs"@ {
            parent(directory)
        } else {
            Some(directory)
        },
        _ => None,
    }
}

/// The files that may declare a module of `directory`, the likeliest first.
pub open spec fn declaring_files(directory: Seq<char>) -> Seq<Seq<char>> {
    if directory.len() == 0 {
        seq!["lib.rs"@, "main.rs"@]
    } else {
        let own = seq![path_in(directory, "mod.rs"@)];
        let beside = match (parent(directory), file_name(directory)) {
            (Some(above), Some(name)) => own.push(path_in(above, name + ".rs"@)),
            _ => own,
        };
        beside.push(path_in(directory, "lib.rs"@)).push(path_in(directory, "main.rs"@))
    }
}

/// Crate roots are declared by no file, whatever directory they lie in.
pub proof fn law_crate_roots_are_not_declared(rel_path: Seq<char>)
    requires
        file_name(rel_path) == Some("lib.rs"@) || file_name(rel_path) == Some("main.rs"@),
    ensures
        declaring_directory(rel_path) is None,
{
}

proof fn lemma_suffix_kept(a: Seq<char>, b: Seq<char>, end: Seq<char>)
    requires
        end.is_suffix_of(b),
    ensures
        end.is_suffix_of(a + b),
{
    let whole = a + b;
    assert(whole.subrange(whole.len() - end.len(), whole.len() as int) == b.subrange(
        b.len() - end.len(),
        b.len() as int,
    ));
}

proof fn lemma_path_in_suffix(directory: Seq<char>, name: Seq<char>, end: Seq<char>)
    requires
        end.is_suffix_of(name),
    ensures
        end.is_suffix_of(path_in(directory, name)),
{
    lemma_suffix_kept(directory, name, end);
    lemma_suffix_kept(directory + "/"@, name, end);
}

/// Only Rust files can declare a module.
pub proof fn law_declaring_files_are_rust_files(directory: Seq<char>, k: int)
    requires
        0 <= k < declaring_files(directory).len(),
    ensures
        ".rs"@.is_suffix_of(declaring_files(directory)[k]),
{
    reveal_strlit(".rs");
    reveal_strlit("lib.rs");
    reveal_strlit("main.rs");
    reveal_strlit("mod.rs");
    let end = ".rs"@;
    assert(end == "lib.rs"@.subrange(3, 6));
    assert(end == "main.rs"@.subrange(4, 7));
    assert(end == "mod.rs"@.subrange(3, 6));
    lemma_path_in_suffix(directory, "lib.rs"@, end);
    lemma_path_in_suffix(directory, "main.rs"@, end);
    lemma_path_in_suffix(directory, "mod.rs"@, end);
    match (parent(directory), file_name(directory)) {
        (Some(above), Some(name)) => {
            assert(end == end.subrange(0, 3));
            lemma_suffix_kept(name, end, end);
            lemma_path_in_suffix(above, name + end, end);
        },
        _ => {},
    }
}

fn tidied(path: &str) -> (r: &str)
    ensures
        r@ == tidy(path@),
{
    let v = chars_of(path);
    let mut n: usize = v.len();
    assert(path@.take(n as int) == path@);
    while n > 1 && (v[n - 1] == '/' || v[n - 1] == '.' && v[n - 2] == '/')
        invariant
            v@ == path@,
            n <= v@.len(),
            tidy(path@) == tidy(path@.take(n as int)),
        decreases n,
    {
        assert(path@.take(n as int).drop_last() == path@.take(n - 1));
        n = n - 1;
    }
    let r = path.substring_char(0, n);
    assert(r@ == path@.take(n as int));
    r
}

fn parent_of(path: &str) -> (r: Option<&str>)
    ensures
        match r {
            Some(directory) => parent(path@) == Some(directory@),
            None => parent(path@) is None,
        },
{
    let own = tidied(path);
    if own.is_empty() || same(own, "/") {
        proof {
            reveal_strlit("/");
            assert("/"@ == seq!['/']);
        }
        return None;
    }
    proof {
        reveal_strlit("/");
        assert("/"@ == seq!['/']);
    }
    let v = chars_of(own);
    let p = text::find_past_last(&v, '/');
    let front = own.substring_char(0, p);
    assert(front@ == own@.take(p as int));
    Some(tidied(front))
}

fn file_name_of(path: &str) -> (r: Option<&str>)
    ensures
        match r {
            Some(name) => file_name(path@) == Some(name@),
            None => file_name(path@) is None,
        },
{
    let last = cut_after_last(tidied(path), '/');
    proof {
        reveal_strlit(".");
        reveal_strlit("..");
        assert("."@ == seq!['.']);
        assert(".."@ == seq!['.', '.']);
    }
    if last.is_empty() || same(last, ".") || same(last, "..") {
        None
    } else {
        Some(last)
    }
}

fn join_path(directory: &str, name: &str) -> (r: String)
    ensures
        r@ == path_in(directory@, name@),
{
    let mut out = directory.to_owned();
    proof {
        reveal_strlit("/");
        assert("/"@ == seq!['/']);
        if "/"@.is_suffix_of(directory@) {
            assert(directory@.last() == '/') by {
                assert(directory@.subrange(directory@.len() - 1, directory@.len() as int)[0]
                    == '/');
            }
        }
        if directory@.len() > 0 && directory@.last() == '/' {
            assert("/"@ == directory@.subrange(directory@.len() - 1, directory@.len() as int));
        }
    }
    if !directory.is_empty() && !ends_with(directory, "/") {
        out.append("/");
    }
    out.append(name);
    out
}

/// Lists the files that may declare the module of the Rust file `rel_path`, the
/// likeliest first. Parts of a path are separated by `/`.
pub fn parent_mod_candidates(rel_path: &str) -> (r: Option<Vec<String>>)
    ensures
        match r {
            Some(files) => declaring_directory(rel_path@) is Some && text::texts(files@)
                == declaring_files(declaring_directory(rel_path@)->0),
            None => declaring_directory(rel_path@) is None,
        },
{
    if !ends_with(rel_path, ".rs") {
        return None;
    }
    let directory = match parent_of(rel_path) {
        Some(directory) => directory,
        None => {
            return None;
        },
    };
    let name = match file_name_of(rel_path) {
        Some(name) => name,
        None => {
            return None;
        },
    };
    if same(name, "lib.rs") || same(name, "main.rs") {
        return None;
    }
    let above = if same(name, "mod.rs") {
        match parent_of(directory) {
            Some(above) => above,
            None => {
                return None;
            },
        }
    } else {
        directory
    };
    let mut files: Vec<String> = Vec::new();
    if above.is_empty() {
        files.push("lib.rs".to_owned());
        files.push("main.rs".to_owned());
        assert(text::texts(files@) == seq!["lib.rs"@, "main.rs"@]);
        return Some(files);
    }
    files.push(join_path(above, "mod.rs"));
    assert(text::texts(files@) == seq![path_in(above@, "mod.rs"@)]);
    let ghost own = text::texts(files@);
    match (parent_of(above), file_name_of(above)) {
        (Some(outer), Some(dir_name)) => {
            let mut flat = dir_name.to_owned();
            flat.append(".rs");
            let beside = join_path(outer, flat.as_str());
            proof {
                text::lemma_texts_push(files@, beside);
            }
            files.push(beside);
        },
        _ => {},
    }
    let lib = join_path(above, "lib.rs");
    proof {
        text::lemma_texts_push(files@, lib);
    }
    files.push(lib);
    let main = join_path(above, "main.rs");
    proof {
        text::lemma_texts_push(files@, main);
    }
    files.push(main);
    Some(files)
}

/// Whether none of some candidates exists.
pub open spec fn none_of(present: Seq<bool>) -> bool {
    forall|k: int| 0 <= k < present.len() ==> !#[trigger] present[k]
}

/// Picks the file that declares a module: the first candidate that exists.
/// `present[k]` tells that candidate `k` does.
pub fn find_parent_mod_file(candidates: Vec<String>, present: &Vec<bool>) -> (r: Option<String>)
    requires
        present@.len() == candidates@.len(),
    ensures
        match r {
            Some(file) => exists|k: int|
                0 <= k < candidates@.len() && #[trigger] present@[k] && file@ == candidates@[k]@
                    && forall|j: int| 0 <= j < k ==> !#[trigger] present@[j],
            None => forall|k: int| 0 <= k < candidates@.len() ==> !#[trigger] present@[k],
        },
        r is None <==> none_of(present@),
{
    let n: usize = candidates.len();
    let mut i: usize = 0;
    while i < n
        invariant
            n == candidates@.len(),
            present@.len() == n,
            i <= n,
            forall|k: int| 0 <= k < i ==> !#[trigger] present@[k],
        decreases n - i,
    {
        if present[i] {
            return Some(candidates[i].clone());
        }
        i = i + 1;
    }
    None
}

/// Two lists agree in their shared parts and in none behind them.
pub proof fn law_shared_parts(a: Seq<Seq<char>>, b: Seq<Seq<char>>)
    ensures
        shared(a, b) <= a.len(),
        shared(a, b) <= b.len(),
        a.take(shared(a, b) as int) == b.take(shared(a, b) as int),
        shared(a, b) < a.len() && shared(a, b) < b.len() ==> a[shared(a, b) as int]
            != b[shared(a, b) as int],
    decreases a.len(),
{
    lemma_shared(a, b);
    if a.len() > 0 && b.len() > 0 && a[0] == b[0] {
        law_shared_parts(a.drop_first(), b.drop_first());
    }
}

/// A path without colons is one part, and one more part in front of a path is the
/// first of its parts.
pub proof fn law_parts(part: Seq<char>, rest: Seq<char>)
    requires
        !part.contains(':'),
    ensures
        segments(part) == seq![part],
        segments(part + "::"@ + rest) == seq![part] + segments(rest),
{
    assert forall|k: int| 0 <= k < part.len() implies #[trigger] part[k] != ':' by {
        assert(part.contains(part[k]));
    }
    lemma_colons_at_plain(part);
    lemma_colons_at_join(part, rest);
    reveal_strlit("::");
    let whole = part + "::"@ + rest;
    let p = part.len() as int;
    assert(whole.take(p) == part);
    assert(whole.skip(p + 2) == rest);
}

proof fn lemma_segment_plain(s: Seq<char>, i: int)
    requires
        0 <= i < segments(s).len(),
    ensures
        !text::contains_text(segments(s)[i], "::"@),
    decreases s.len(),
{
    lemma_colons_at(s);
    let p = colons_at(s) as int;
    if p + 2 > s.len() {
        lemma_no_colons_before(s, s.len() as int);
    } else if i == 0 {
        lemma_no_colons_before(s, p);
    } else {
        lemma_segment_plain(s.skip(p + 2), i - 1);
        assert(segments(s)[i] == segments(s.skip(p + 2))[i - 1]);
    }
}

proof fn lemma_no_colons_before(s: Seq<char>, n: int)
    requires
        0 <= n <= colons_at(s) <= s.len(),
    ensures
        !text::contains_text(s.take(n), "::"@),
        n == s.len() ==> !text::contains_text(s, "::"@),
{
    reveal_strlit("::");
    assert forall|i: int| !text::stands_at(s.take(n), "::"@, i) by {
        if text::stands_at(s.take(n), "::"@, i) {
            let part = s.take(n).subrange(i, i + 2);
            assert(part[0] == "::"@[0] && part[1] == "::"@[1]);
            assert(s[i] == ':' && s[i + 1] == ':');
            lemma_colons_at_most(s, i);
        }
    }
    if n == s.len() {
        assert(s.take(n) == s);
    }
}

proof fn lemma_colons_at_most(s: Seq<char>, i: int)
    requires
        0 <= i,
        i + 2 <= s.len(),
        s[i] == ':',
        s[i + 1] == ':',
    ensures
        colons_at(s) <= i,
    decreases i,
{
    if i > 0 && !(s[0] == ':' && s[1] == ':') {
        lemma_colons_at_most(s.drop_first(), i - 1);
    }
}

proof fn lemma_joined_has_separator(parts: Seq<Seq<char>>)
    requires
        parts.len() >= 2,
    ensures
        text::contains_text(text::joined(parts, "::"@), "::"@),
{
    text::lemma_holds(text::joined(parts.drop_last(), "::"@), "::"@, parts.last());
}

/// A file that keeps its crate and is reached through two parts at least gets two
/// pairs. Where the parts behind the shared ones are two at least on either side,
/// they make the second pair; else the path from the crate on does.
#[verifier::rlimit(50)]
pub proof fn law_moved_file_gets_two_pairs(old_full: Seq<char>, new_full: Seq<char>, k: int)
    requires
        old_full != new_full,
        segments(old_full).len() >= 2,
        segments(new_full).len() >= 2,
        segments(old_full)[0] == segments(new_full)[0],
        0 <= k <= segments(old_full).len(),
        k <= segments(new_full).len(),
        segments(old_full).take(k) == segments(new_full).take(k),
        k < segments(old_full).len() && k < segments(new_full).len() ==> segments(old_full)[k]
            != segments(new_full)[k],
    ensures
        ({
            let a = segments(old_full);
            let b = segments(new_full);
            let pairs = stem_pairs(old_full, new_full);
            &&& pairs.len() == 2
            &&& pairs[0] == (old_full, new_full)
            &&& a.len() - k >= 2 && b.len() - k >= 2 ==> pairs[1] == (
                text::joined(a.skip(k), "::"@),
                text::joined(b.skip(k), "::"@),
            )
            &&& a.len() - k < 2 || b.len() - k < 2 ==> pairs[1] == (
                "crate::"@ + text::joined(a.skip(1), "::"@),
                "crate::"@ + text::joined(b.skip(1), "::"@),
            )
        }),
{
    let a = segments(old_full);
    let b = segments(new_full);
    law_shared_parts(a, b);
    let s = shared(a, b) as int;
    assert(s == k) by {
        if s < k {
            assert(a.take(k)[s] == b.take(k)[s]);
        } else if k < s {
            assert(a.take(s)[k] == b.take(s)[k]);
        }
    }
    law_segments_join_to_path(old_full);
    law_segments_join_to_path(new_full);
    // The paths behind the first part differ, since the whole paths do.
    let from = text::joined(a.skip(1), "::"@);
    let to = text::joined(b.skip(1), "::"@);
    lemma_joined_front(a[0], a.skip(1), "::"@);
    lemma_joined_front(b[0], b.skip(1), "::"@);
    assert(a == seq![a[0]] + a.skip(1));
    assert(b == seq![b[0]] + b.skip(1));
    assert(from != to);
    assert("crate::"@ + from != "crate::"@ + to) by {
        if "crate::"@ + from == "crate::"@ + to {
            let n = "crate::"@.len() as int;
            assert(from == ("crate::"@ + from).skip(n));
            assert(to == ("crate::"@ + to).skip(n));
        }
    }
    assert(k > 0) by {
        if k == 0 {
            assert(a[0] == b[0]);
        }
    }
    if k < a.len() && k < b.len() {
        let x = a.skip(k);
        let y = b.skip(k);
        if x.len() >= 2 {
            lemma_joined_has_separator(x);
        } else {
            assert(text::joined(x, "::"@) == a[k]);
            lemma_segment_plain(old_full, k);
        }
        if y.len() >= 2 {
            lemma_joined_has_separator(y);
        } else {
            assert(text::joined(y, "::"@) == b[k]);
            lemma_segment_plain(new_full, k);
        }
        assert(text::joined(x, "::"@) != text::joined(y, "::"@)) by {
            if text::joined(x, "::"@) == text::joined(y, "::"@) {
                lemma_joined_tail(a, k);
                lemma_joined_tail(b, k);
                assert(a.take(k) == b.take(k));
            }
        }
    }
}

proof fn lemma_joined_tail(parts: Seq<Seq<char>>, k: int)
    requires
        0 < k < parts.len(),
    ensures
        text::joined(parts, "::"@) == text::joined(parts.take(k), "::"@) + "::"@ + text::joined(
            parts.skip(k),
            "::"@,
        ),
    decreases k,
{
    if k == 1 {
        assert(parts == seq![parts[0]] + parts.skip(1));
        lemma_joined_front(parts[0], parts.skip(1), "::"@);
        assert(parts.take(1)[0] == parts[0]);
        assert(text::joined(parts.take(1), "::"@) == parts[0]);
    } else {
        let rest = parts.drop_first();
        lemma_joined_tail(rest, k - 1);
        assert(parts == seq![parts[0]] + rest);
        lemma_joined_front(parts[0], rest, "::"@);
        assert(parts.take(k) == seq![parts[0]] + rest.take(k - 1));
        lemma_joined_front(parts[0], rest.take(k - 1), "::"@);
        assert(rest.skip(k - 1) == parts.skip(k));
        let f = parts[0];
        let m = text::joined(rest.take(k - 1), "::"@);
        let e = text::joined(parts.skip(k), "::"@);
        assert(f + "::"@ + (m + "::"@ + e) == f + "::"@ + m + "::"@ + e);
    }
}

/// Imports from the crate on follow a file that keeps its crate: the second pair
/// turns the path from the crate to the old place into the one to the new place, as
/// a whole or behind parts that both places share.
pub proof fn law_crate_imports_follow(old_full: Seq<char>, new_full: Seq<char>) -> (shared_parts:
    Seq<char>)
    requires
        old_full != new_full,
        segments(old_full).len() >= 2,
        segments(new_full).len() >= 2,
        segments(old_full)[0] == segments(new_full)[0],
    ensures
        ({
            let pair = stem_pairs(old_full, new_full)[1];
            let from = "crate::"@ + text::joined(segments(old_full).skip(1), "::"@);
            let to = "crate::"@ + text::joined(segments(new_full).skip(1), "::"@);
            &&& stem_pairs(old_full, new_full).len() == 2
            &&& from == shared_parts + pair.0
            &&& to == shared_parts + pair.1
        }),
{
    let a = segments(old_full);
    let b = segments(new_full);
    law_shared_parts(a, b);
    let k = shared(a, b) as int;
    law_moved_file_gets_two_pairs(old_full, new_full, k);
    let pair = stem_pairs(old_full, new_full)[1];
    let from = "crate::"@ + text::joined(a.skip(1), "::"@);
    let to = "crate::"@ + text::joined(b.skip(1), "::"@);
    let empty = Seq::<char>::empty();
    if a.len() - k >= 2 && b.len() - k >= 2 {
        assert(k >= 1) by {
            if k == 0 {
                assert(a[0] == b[0]);
            }
        }
        if k == 1 {
            "crate::"@
        } else {
            lemma_joined_tail(a.skip(1), k - 1);
            lemma_joined_tail(b.skip(1), k - 1);
            assert(a.skip(1).skip(k - 1) == a.skip(k));
            assert(b.skip(1).skip(k - 1) == b.skip(k));
            assert(a.skip(1).take(k - 1) == a.take(k).skip(1));
            assert(b.skip(1).take(k - 1) == b.take(k).skip(1));
            let mid = text::joined(a.take(k).skip(1), "::"@) + "::"@;
            assert("crate::"@ + (mid + pair.0) == "crate::"@ + mid + pair.0);
            assert("crate::"@ + (mid + pair.1) == "crate::"@ + mid + pair.1);
            "crate::"@ + mid
        }
    } else {
        assert(empty + pair.0 == pair.0);
        assert(empty + pair.1 == pair.1);
        empty
    }
}

/// Paths in different crates, and paths of one part, are renamed as a whole alone.
pub proof fn law_other_files_get_one_pair(old_full: Seq<char>, new_full: Seq<char>)
    requires
        old_full != new_full,
        segments(old_full).len() < 2 || segments(new_full).len() < 2 || segments(old_full)[0]
            != segments(new_full)[0],
    ensures
        stem_pairs(old_full, new_full) == seq![(old_full, new_full)],
{
    law_shared_parts(segments(old_full), segments(new_full));
    law_segments_join_to_path(old_full);
    law_segments_join_to_path(new_full);
}

/// The import path of a file in a directory is that of the file behind the directory
/// and a double colon; its last part does not depend on the directory. The extension
/// is left out.
pub proof fn law_import_stems(directory: Seq<char>, name: Seq<char>, extension: Seq<char>)
    requires
        !directory.contains('/'),
        !name.contains('/'),
        !extension.contains('.'),
    ensures
        import_stem(name + "."@ + extension) == name,
        relative_stem(name + "."@ + extension) == name,
        import_stem(directory + "/"@ + name + "."@ + extension) == directory + "::"@ + name,
        relative_stem(directory + "/"@ + name + "."@ + extension) == name,
        !name.contains('.') ==> import_stem(name) == name,
{
    let short = name + "."@ + extension;
    let base = directory + "/"@ + name;
    let long = base + "."@ + extension;
    lemma_extension(name, extension);
    lemma_extension(base, extension);
    assert forall|k: int| 0 <= k < name.len() implies #[trigger] name[k] != '/' by {
        assert(name.contains(name[k]));
    }
    assert forall|k: int| 0 <= k < directory.len() implies #[trigger] directory[k] != '/' by {
        assert(directory.contains(directory[k]));
    }
    lemma_colons_plain(name);
    lemma_colons_plain(directory);
    text::lemma_past_last(name, '/', 0);
    assert(name.skip(0) == name);
    reveal_strlit("/");
    lemma_colons_add(directory + "/"@, name);
    lemma_colons_add(directory, "/"@);
    assert("/"@.drop_last() == Seq::<char>::empty());
    reveal_with_fuel(colons_for_slashes, 2);
    assert(Seq::<char>::empty() + "::"@ == "::"@);
    let d = directory.len() as int;
    assert forall|k: int| d + 1 <= k < base.len() implies #[trigger] base[k] != '/' by {
        assert(base[k] == name[k - d - 1]);
    }
    assert(base[d] == '/');
    text::lemma_past_last(base, '/', d + 1);
    assert(base.skip(d + 1) == name);
    if !name.contains('.') {
        assert forall|k: int| 0 <= k < name.len() implies #[trigger] name[k] != '.' by {
            assert(name.contains(name[k]));
        }
        text::lemma_past_last(name, '.', 0);
    }
}

proof fn lemma_extension(base: Seq<char>, extension: Seq<char>)
    requires
        !extension.contains('.'),
    ensures
        text::before_last(base + "."@ + extension, '.') == base,
{
    reveal_strlit(".");
    let whole = base + "."@ + extension;
    let n = base.len() as int;
    assert forall|k: int| n + 1 <= k < whole.len() implies #[trigger] whole[k] != '.' by {
        assert(whole[k] == extension[k - n - 1]);
        assert(extension.contains(extension[k - n - 1]));
    }
    assert(whole[n] == '.');
    text::lemma_past_last(whole, '.', n + 1);
    assert(whole.take(n) == base);
}

/// A double colon stands in place of every slash, however many there are.
pub proof fn law_slashes_become_colons(a: Seq<char>, b: Seq<char>)
    ensures
        colons_for_slashes(a + "/"@ + b) == colons_for_slashes(a) + "::"@ + colons_for_slashes(b),
        !a.contains('/') ==> colons_for_slashes(a) == a,
{
    lemma_colons_add(a + "/"@, b);
    lemma_colons_add(a, "/"@);
    reveal_strlit("/");
    assert("/"@.drop_last() == Seq::<char>::empty());
    reveal_with_fuel(colons_for_slashes, 2);
    assert(Seq::<char>::empty() + "::"@ == "::"@);
    if !a.contains('/') {
        assert forall|k: int| 0 <= k < a.len() implies #[trigger] a[k] != '/' by {
            assert(a.contains(a[k]));
        }
        lemma_colons_plain(a);
    }
}

/// Pairs are applied in order, each to what the ones before it left.
pub proof fn law_pairs_are_applied_in_order(
    content: Seq<char>,
    pairs: Seq<(Seq<char>, Seq<char>)>,
    n: nat,
)
    requires
        n < pairs.len(),
    ensures
        renamed(content, pairs, 0) == content,
        renamed(content, pairs, n + 1) == regex_replaced(
            "\\b"@ + escaped(pairs[n as int].0) + "\\b"@,
            renamed(content, pairs, n),
            pairs[n as int].1,
        ),
{
}

/// A file in a directory is declared beside it or by its directory; a file that
/// stands for its directory is declared one level up; crate roots and files that are
/// no Rust files are declared nowhere.
#[verifier::rlimit(50)]
pub proof fn law_declaring_directory(directory: Seq<char>, name: Seq<char>)
    requires
        directory.len() > 0,
        directory.last() != '/',
        directory.last() != '.',
        name.len() > 0,
        !name.contains('/'),
    ensures
        ({
            let path = directory + "/"@ + name + ".rs"@;
            &&& name == "lib"@ || name == "main"@ ==> declaring_directory(path) is None
            &&& name == "mod"@ ==> declaring_directory(path) == parent(directory)
            &&& name != "lib"@ && name != "main"@ && name != "mod"@ ==> declaring_directory(path)
                == Some(directory)
        }),
{
    reveal_strlit("/");
    reveal_strlit(".rs");
    reveal_strlit("lib");
    reveal_strlit("main");
    reveal_strlit("mod");
    reveal_strlit("lib.rs");
    reveal_strlit("main.rs");
    reveal_strlit("mod.rs");
    let file = name + ".rs"@;
    let path = directory + "/"@ + name + ".rs"@;
    let n = path.len() as int;
    let d = directory.len() as int;
    assert(path == directory + "/"@ + file);
    assert(path.last() == 's');
    assert(tidy(path) == path);
    assert forall|k: int| d + 1 <= k < n implies #[trigger] path[k] != '/' by {
        assert(path[k] == file[k - d - 1]);
        if k - d - 1 < name.len() {
            assert(name.contains(name[k - d - 1]));
        }
    }
    assert(path[d] == '/');
    text::lemma_past_last(path, '/', d + 1);
    assert(path.skip(d + 1) == file);
    assert(path.take(d + 1).drop_last() == directory);
    assert(path.take(d + 1).last() == '/');
    assert(tidy(directory) == directory);
    assert(tidy(path.take(d + 1)) == directory);
    assert(file.len() > 3 && file[file.len() - 1] == 's');
    assert(".rs"@ == path.subrange(n - 3, n));
    assert("lib.rs"@ == "lib"@ + ".rs"@);
    assert("main.rs"@ == "main"@ + ".rs"@);
    assert("mod.rs"@ == "mod"@ + ".rs"@);
    assert(name == file.take(name.len() as int));
    assert(file == "lib.rs"@ ==> name == "lib"@) by {
        assert("lib.rs"@.take(3) == "lib"@);
    }
    assert(file == "main.rs"@ ==> name == "main"@) by {
        assert("main.rs"@.take(4) == "main"@);
    }
    assert(file == "mod.rs"@ ==> name == "mod"@) by {
        assert("mod.rs"@.take(3) == "mod"@);
    }
    assert("mod"@ != "lib"@ && "mod"@ != "main"@) by {
        assert("mod"@[0] != "lib"@[0]);
        assert("mod"@.len() != "main"@.len());
    }
}

/// The files that may declare a module of `above/name` are, the likeliest first,
/// `mod.rs` in that directory, the file of the directory's name beside it, and the
/// crate roots in the directory.
#[verifier::rlimit(50)]
pub proof fn law_declaring_files(above: Seq<char>, name: Seq<char>)
    requires
        above.len() > 0,
        above.last() != '/',
        above.last() != '.',
        name.len() > 0,
        !name.contains('/'),
        name.last() != '.',
    ensures
        declaring_files(above + "/"@ + name) == seq![
            above + "/"@ + name + "/"@ + "mod.rs"@,
            above + "/"@ + name + ".rs"@,
            above + "/"@ + name + "/"@ + "lib.rs"@,
            above + "/"@ + name + "/"@ + "main.rs"@,
        ],
        declaring_files(Seq::empty()) == seq!["lib.rs"@, "main.rs"@],
{
    reveal_strlit("/");
    let directory = above + "/"@ + name;
    let n = directory.len() as int;
    let d = above.len() as int;
    assert(directory.last() == name.last());
    assert(name.contains(name.last()));
    assert(tidy(directory) == directory);
    assert forall|k: int| d + 1 <= k < n implies #[trigger] directory[k] != '/' by {
        assert(directory[k] == name[k - d - 1]);
        assert(name.contains(name[k - d - 1]));
    }
    assert(directory[d] == '/');
    text::lemma_past_last(directory, '/', d + 1);
    assert(directory.skip(d + 1) == name);
    assert(directory.take(d + 1).drop_last() == above);
    assert(directory.take(d + 1).last() == '/');
    assert(tidy(above) == above);
    assert(tidy(directory.take(d + 1)) == above);
    assert(name != seq!['.']) by {
        assert(seq!['.'].last() == '.');
    }
    assert(name != seq!['.', '.']) by {
        assert(seq!['.', '.'].last() == '.');
    }
    assert(file_name(directory) == Some(name));
    assert(parent(directory) == Some(above)) by {
        assert(directory != seq!['/']) by {
            assert(seq!['/'].last() == '/');
        }
    }
    assert(above + "/"@ + (name + ".rs"@) == above + "/"@ + name + ".rs"@);
    assert(declaring_files(directory) == seq![
        above + "/"@ + name + "/"@ + "mod.rs"@,
        above + "/"@ + name + ".rs"@,
        above + "/"@ + name + "/"@ + "lib.rs"@,
        above + "/"@ + name + "/"@ + "main.rs"@,
    ]);
}

/// The first candidate that exists declares the module.
pub proof fn law_first_present_candidate(
    candidates: Vec<String>,
    present: &Vec<bool>,
    r: Option<String>,
    k: int,
)
    requires
        present@.len() == candidates@.len(),
        call_ensures(find_parent_mod_file, (candidates, present), r),
        0 <= k <= candidates@.len(),
        forall|j: int| 0 <= j < k ==> !#[trigger] present@[j],
    ensures
        k < candidates@.len() && present@[k] ==> text::optional_text(r) == Some(candidates@[k]@),
        k == candidates@.len() ==> r is None,
{
    if r is Some {
        let i = choose|i: int|
            0 <= i < candidates@.len() && #[trigger] present@[i] && r->0@ == candidates@[i]@
                && forall|j: int| 0 <= j < i ==> !#[trigger] present@[j];
        if k < candidates@.len() && present@[k] {
            assert(i == k);
        }
    } else {
        assert(none_of(present@));
    }
}

/// A module declaration is looked for at the start of a line, behind white space and a
/// visibility if there are any, and up to its semicolon; all but the name is kept.
pub proof fn law_module_declarations(content: &str, old_name: &str, new_name: &str, r: String)
    requires
        call_ensures(rewrite_mod_decl, (content, old_name, new_name), r),
        text::byte_len(old_name@) <= 200_000,
    ensures
        r@ == regex_replaced(
            "(?m)^(?P<prefix>\\s*(?:pub(?:\\([^)]*\\))?\\s+)?mod\\s+)"@ + escaped(old_name@)
                + "(?P<suffix>\\s*;)"@,
            content@,
            "${prefix}"@ + new_name@ + "${suffix}"@,
        ),
{
}

}
