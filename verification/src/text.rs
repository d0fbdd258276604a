//! Text as sequences of characters: the few string operations the other
//! modules need, each with its meaning as a spec function.
use vstd::prelude::*;
use vstd::slice::slice_subrange;

verus! {

/// `String::push` of std appends one character to the end of the string and
/// changes nothing else.
pub assume_specification[ String::push ](s: &mut String, ch: char)
    ensures
        final(s)@ == old(s)@.push(ch),
;

/// What `String::from_utf8_lossy` of std makes of these bytes.
pub uninterp spec fn utf8_lossy(bytes: Seq<u8>) -> Seq<char>;

/// `String::from_utf8_lossy` of std. Its result depends on the bytes alone;
/// where they are valid UTF-8 it is the text they encode. Which characters
/// stand for invalid bytes is not stated.
#[verifier::external_body]
pub(crate) fn decode_lossy(bytes: &[u8]) -> (out: String)
    ensures
        out@ == utf8_lossy(bytes@),
        vstd::utf8::valid_utf8(bytes@) ==> out@ == vstd::utf8::decode_utf8(bytes@),
{
    String::from_utf8_lossy(bytes).into_owned()
}

// ---------------------------------------------------------------------------
// Conversions
// ---------------------------------------------------------------------------

/// The characters of `s`, in order.
pub fn chars_of(s: &str) -> (out: Vec<char>)
    ensures
        out@ == s@,
{
    let mut out: Vec<char> = Vec::new();
    for c in it: s.chars()
        invariant
            it.seq() == s@,
            out@ == s@.take(it.index()),
    {
        out.push(c);
    }
    out
}

/// The string made of the characters `chars`.
pub fn string_of(chars: &[char]) -> (out: String)
    ensures
        out@ == chars@,
{
    let mut out = String::new();
    for i in 0..chars.len()
        invariant
            out@ == chars@.take(i as int),
    {
        out.push(chars[i]);
    }
    out
}

/// Whether two strings hold the same characters.
pub fn same_text(a: &str, b: &str) -> (same: bool)
    ensures
        same == (a@ == b@),
{
    let left = chars_of(a);
    let right = chars_of(b);
    same_chars(left.as_slice(), right.as_slice())
}

/// Whether two slices hold the same characters.
pub fn same_chars(a: &[char], b: &[char]) -> (same: bool)
    ensures
        same == (a@ == b@),
{
    if a.len() != b.len() {
        return false;
    }
    for i in 0..a.len()
        invariant
            a@.len() == b@.len(),
            forall|j: int| 0 <= j < i ==> a@[j] == b@[j],
    {
        if a[i] != b[i] {
            return false;
        }
    }
    assert(a@ =~= b@);
    true
}

// ---------------------------------------------------------------------------
// White space
// ---------------------------------------------------------------------------

/// The characters with Unicode's `White_Space` property.
pub open spec fn white_space(c: char) -> bool {
    ||| '\u{9}' <= c <= '\u{d}'
    ||| c == '\u{20}'
    ||| c == '\u{85}'
    ||| c == '\u{a0}'
    ||| c == '\u{1680}'
    ||| '\u{2000}' <= c <= '\u{200a}'
    ||| c == '\u{2028}'
    ||| c == '\u{2029}'
    ||| c == '\u{202f}'
    ||| c == '\u{205f}'
    ||| c == '\u{3000}'
}

/// `s` without the white space it begins with.
pub open spec fn trimmed_start(s: Seq<char>) -> Seq<char>
    decreases s.len(),
{
    if s.len() > 0 && white_space(s[0]) {
        trimmed_start(s.skip(1))
    } else {
        s
    }
}

/// `s` without the white space it ends with.
pub open spec fn trimmed_end(s: Seq<char>) -> Seq<char>
    decreases s.len(),
{
    if s.len() > 0 && white_space(s.last()) {
        trimmed_end(s.drop_last())
    } else {
        s
    }
}

/// `s` without white space at either end.
pub open spec fn trimmed(s: Seq<char>) -> Seq<char> {
    trimmed_end(trimmed_start(s))
}

/// Trimming twice is trimming once.
pub proof fn lemma_trimmed_start_twice(s: Seq<char>)
    ensures
        trimmed_start(trimmed_start(s)) == trimmed_start(s),
    decreases s.len(),
{
    if s.len() > 0 && white_space(s[0]) {
        lemma_trimmed_start_twice(s.skip(1));
    }
}

/// Trimming takes away the white space at both ends and nothing else.
pub proof fn lemma_trimmed(before: Seq<char>, s: Seq<char>, after: Seq<char>)
    requires
        forall|i: int| 0 <= i < before.len() ==> white_space(#[trigger] before[i]),
        forall|i: int| 0 <= i < after.len() ==> white_space(#[trigger] after[i]),
        s.len() > 0 ==> !white_space(s[0]) && !white_space(s.last()),
    ensures
        trimmed(before + s + after) == s,
        s.len() > 0 ==> trimmed_start(before + s + after) == s + after,
{
    lemma_trimmed_start_of(before, s + after);
    assert(before + s + after =~= before + (s + after));
    if s.len() > 0 {
        assert((s + after)[0] == s[0]);
        assert(trimmed_start(s + after) == s + after);
        lemma_trimmed_end_of(s, after);
        assert(trimmed_end(s) == s);
    } else {
        assert(s + after =~= after);
        lemma_trimmed_start_of(after, Seq::empty());
        assert(after + Seq::<char>::empty() =~= after);
        assert(trimmed_start(after) =~= Seq::<char>::empty());
        assert(trimmed(before + s + after) =~= s);
    }
}

proof fn lemma_trimmed_start_of(before: Seq<char>, s: Seq<char>)
    requires
        forall|i: int| 0 <= i < before.len() ==> white_space(#[trigger] before[i]),
    ensures
        trimmed_start(before + s) == trimmed_start(s),
    decreases before.len(),
{
    if before.len() == 0 {
        assert(before + s =~= s);
    } else {
        assert((before + s)[0] == before[0]);
        assert((before + s).skip(1) =~= before.skip(1) + s);
        assert forall|i: int| 0 <= i < before.skip(1).len() implies white_space(
            #[trigger] before.skip(1)[i],
        ) by {
            assert(before.skip(1)[i] == before[i + 1]);
        }
        lemma_trimmed_start_of(before.skip(1), s);
    }
}

proof fn lemma_trimmed_end_of(s: Seq<char>, after: Seq<char>)
    requires
        forall|i: int| 0 <= i < after.len() ==> white_space(#[trigger] after[i]),
    ensures
        trimmed_end(s + after) == trimmed_end(s),
    decreases after.len(),
{
    if after.len() == 0 {
        assert(s + after =~= s);
    } else {
        assert((s + after).last() == after[after.len() - 1]);
        assert((s + after).drop_last() =~= s + after.drop_last());
        assert forall|i: int| 0 <= i < after.drop_last().len() implies white_space(
            #[trigger] after.drop_last()[i],
        ) by {
            assert(after.drop_last()[i] == after[i]);
        }
        lemma_trimmed_end_of(s, after.drop_last());
    }
}

pub fn is_white_space(c: char) -> (yes: bool)
    ensures
        yes == white_space(c),
{
    ('\u{9}' <= c && c <= '\u{d}') || c == '\u{20}' || c == '\u{85}' || c == '\u{a0}' || c
        == '\u{1680}' || ('\u{2000}' <= c && c <= '\u{200a}') || c == '\u{2028}' || c == '\u{2029}'
        || c == '\u{202f}' || c == '\u{205f}' || c == '\u{3000}'
}

pub fn trim_start(s: &[char]) -> (rest: &[char])
    ensures
        rest@ == trimmed_start(s@),
{
    let mut i: usize = 0;
    assert(s@.skip(0) =~= s@);
    while i < s.len() && is_white_space(s[i])
        invariant
            i <= s@.len(),
            trimmed_start(s@) == trimmed_start(s@.skip(i as int)),
        decreases s@.len() - i,
    {
        assert(s@.skip(i as int).skip(1) =~= s@.skip(i + 1));
        i = i + 1;
    }
    assert(s@.subrange(i as int, s@.len() as int) =~= s@.skip(i as int));
    slice_subrange(s, i, s.len())
}

pub fn trim_end(s: &[char]) -> (rest: &[char])
    ensures
        rest@ == trimmed_end(s@),
{
    let mut i: usize = s.len();
    assert(s@.take(i as int) =~= s@);
    while i > 0 && is_white_space(s[i - 1])
        invariant
            i <= s@.len(),
            trimmed_end(s@) == trimmed_end(s@.take(i as int)),
        decreases i,
    {
        assert(s@.take(i as int).drop_last() =~= s@.take(i - 1));
        i = i - 1;
    }
    assert(s@.subrange(0, i as int) =~= s@.take(i as int));
    slice_subrange(s, 0, i)
}

pub fn trim(s: &[char]) -> (rest: &[char])
    ensures
        rest@ == trimmed(s@),
{
    trim_end(trim_start(s))
}

// ---------------------------------------------------------------------------
// Prefixes, suffixes and cuts
// ---------------------------------------------------------------------------

/// What follows `prefix` in `s`, if `s` begins with it.
pub open spec fn without_prefix(s: Seq<char>, prefix: Seq<char>) -> Option<Seq<char>> {
    if prefix.is_prefix_of(s) {
        Some(s.skip(prefix.len() as int))
    } else {
        None
    }
}

/// Whether `pattern` stands in `s` at position `i`.
pub open spec fn stands_at(s: Seq<char>, pattern: Seq<char>, i: int) -> bool {
    &&& 0 <= i
    &&& i + pattern.len() <= s.len()
    &&& s.subrange(i, i + pattern.len()) == pattern
}

/// The first position from `from` on at which `pattern` stands in `s`.
pub open spec fn first_from(s: Seq<char>, pattern: Seq<char>, from: int) -> Option<int>
    decreases s.len() + 1 - from,
{
    if from + pattern.len() > s.len() {
        None
    } else if stands_at(s, pattern, from) {
        Some(from)
    } else {
        first_from(s, pattern, from + 1)
    }
}

/// What stands before and after the first occurrence of `pattern` in `s`.
pub open spec fn cut(s: Seq<char>, pattern: Seq<char>) -> Option<(Seq<char>, Seq<char>)> {
    match first_from(s, pattern, 0) {
        Some(i) => Some((s.take(i), s.skip(i + pattern.len()))),
        None => None,
    }
}

/// What follows a prefix is all that was put behind it; a text that does not begin with
/// the prefix has nothing behind it.
pub proof fn lemma_without_prefix(s: Seq<char>, prefix: Seq<char>, tail: Seq<char>)
    ensures
        without_prefix(prefix + tail, prefix) == Some(tail),
        without_prefix(s, prefix) matches Some(rest) ==> s == prefix + rest,
        without_prefix(s, prefix) is None <==> s.len() < prefix.len() || s.take(
            prefix.len() as int,
        ) != prefix,
{
    assert((prefix + tail).subrange(0, prefix.len() as int) =~= prefix);
    assert((prefix + tail).skip(prefix.len() as int) =~= tail);
    if let Some(rest) = without_prefix(s, prefix) {
        assert(s =~= prefix + rest);
    }
    if s.len() >= prefix.len() {
        assert(s.take(prefix.len() as int) =~= s.subrange(0, prefix.len() as int));
    }
}

proof fn lemma_first_from_is_first(s: Seq<char>, pattern: Seq<char>, from: int)
    requires
        0 <= from,
    ensures
        match first_from(s, pattern, from) {
            Some(at) => {
                &&& from <= at
                &&& at + pattern.len() <= s.len()
                &&& s.subrange(at, at + pattern.len()) == pattern
                &&& forall|i: int|
                    from <= i < at ==> #[trigger] s.subrange(i, i + pattern.len()) != pattern
            },
            None => forall|i: int|
                from <= i && i + pattern.len() <= s.len() ==> #[trigger] s.subrange(
                    i,
                    i + pattern.len(),
                ) != pattern,
        },
    decreases s.len() + 1 - from,
{
    if from + pattern.len() <= s.len() && !stands_at(s, pattern, from) {
        lemma_first_from_is_first(s, pattern, from + 1);
    }
}

/// A cut falls on the first place where the pattern stands, and takes away the
/// pattern alone; there is none exactly if the pattern stands nowhere.
pub proof fn lemma_cut_is_first(s: Seq<char>, pattern: Seq<char>)
    ensures
        match cut(s, pattern) {
            Some((before, after)) => {
                &&& s == before + pattern + after
                &&& forall|i: int|
                    0 <= i < before.len() ==> #[trigger] s.subrange(i, i + pattern.len())
                        != pattern
            },
            None => forall|i: int|
                0 <= i && i + pattern.len() <= s.len() ==> #[trigger] s.subrange(
                    i,
                    i + pattern.len(),
                ) != pattern,
        },
{
    lemma_first_from_is_first(s, pattern, 0);
    if let Some((before, after)) = cut(s, pattern) {
        assert(s =~= before + pattern + after);
    }
}

proof fn lemma_first_from(s: Seq<char>, c: char, from: int, at: int)
    requires
        0 <= from <= at < s.len(),
        s[at] == c,
        forall|k: int| from <= k < at ==> s[k] != c,
    ensures
        first_from(s, seq![c], from) == Some(at),
    decreases at - from,
{
    if from < at {
        assert(s.subrange(from, from + 1)[0] == s[from]);
        assert(!stands_at(s, seq![c], from));
        lemma_first_from(s, c, from + 1, at);
    } else {
        assert(s.subrange(at, at + 1) =~= seq![c]);
    }
}

/// A text that was put together around a character is cut there, if the
/// character does not stand further to the left.
pub proof fn lemma_cut(head: Seq<char>, c: char, tail: Seq<char>)
    requires
        !head.contains(c),
    ensures
        cut(head + seq![c] + tail, seq![c]) == Some((head, tail)),
{
    let s = head + seq![c] + tail;
    assert forall|k: int| 0 <= k < head.len() implies s[k] != c by {
        assert(head.contains(head[k]));
    }
    lemma_first_from(s, c, 0, head.len() as int);
    assert(s.take(head.len() as int) =~= head);
    assert(s.skip(head.len() as int + 1) =~= tail);
}

pub fn has_prefix(s: &[char], prefix: &str) -> (yes: bool)
    ensures
        yes == prefix@.is_prefix_of(s@),
{
    let p = chars_of(prefix);
    if p.len() > s.len() {
        return false;
    }
    let head = slice_subrange(s, 0, p.len());
    same_chars(p.as_slice(), head)
}

pub fn has_suffix(s: &[char], suffix: &str) -> (yes: bool)
    ensures
        yes == suffix@.is_suffix_of(s@),
{
    let p = chars_of(suffix);
    if p.len() > s.len() {
        return false;
    }
    let tail = slice_subrange(s, s.len() - p.len(), s.len());
    same_chars(p.as_slice(), tail)
}

pub fn strip_prefix<'a>(s: &'a [char], prefix: &str) -> (rest: Option<&'a [char]>)
    ensures
        rest is Some <==> without_prefix(s@, prefix@) is Some,
        rest matches Some(r) ==> r@ == without_prefix(s@, prefix@)->0,
{
    let p = chars_of(prefix);
    if p.len() > s.len() {
        return None;
    }
    let head = slice_subrange(s, 0, p.len());
    if same_chars(p.as_slice(), head) {
        assert(s@.subrange(p@.len() as int, s@.len() as int) =~= s@.skip(p@.len() as int));
        Some(slice_subrange(s, p.len(), s.len()))
    } else {
        None
    }
}

pub fn split_once<'a>(s: &'a [char], pattern: &str) -> (parts: Option<(&'a [char], &'a [char])>)
    ensures
        parts is Some <==> cut(s@, pattern@) is Some,
        parts matches Some((before, after)) ==> {
            &&& before@ == (cut(s@, pattern@)->0).0
            &&& after@ == (cut(s@, pattern@)->0).1
        },
{
    let p = chars_of(pattern);
    let mut i: usize = 0;
    while p.len() <= s.len() && i <= s.len() - p.len()
        invariant
            p@ == pattern@,
            i <= s@.len() + 1,
            first_from(s@, pattern@, 0) == first_from(s@, pattern@, i as int),
        decreases s@.len() + 1 - i,
    {
        let window = slice_subrange(s, i, i + p.len());
        if same_chars(window, p.as_slice()) {
            assert(s@.subrange(0, i as int) =~= s@.take(i as int));
            assert(s@.subrange(i + p@.len(), s@.len() as int) =~= s@.skip(i + p@.len()));
            return Some((slice_subrange(s, 0, i), slice_subrange(s, i + p.len(), s.len())));
        }
        assert(p@.len() == 0 ==> window@ =~= p@);
        i = i + 1;
    }
    None
}

// ---------------------------------------------------------------------------
// Fields and lines
// ---------------------------------------------------------------------------

/// The fields of `s` between occurrences of `sep`: one more than there are
/// separators, so an empty text has one empty field.
pub open spec fn fields(s: Seq<char>, sep: char) -> Seq<Seq<char>>
    decreases s.len(),
{
    if s.len() == 0 {
        seq![Seq::<char>::empty()]
    } else {
        let init = fields(s.drop_last(), sep);
        if s.last() == sep {
            init.push(Seq::empty())
        } else {
            init.drop_last().push(init.last().push(s.last()))
        }
    }
}

/// `parts` written one after the other with `sep` between neighbours.
pub open spec fn joined(parts: Seq<Seq<char>>, sep: Seq<char>) -> Seq<char>
    decreases parts.len(),
{
    if parts.len() == 0 {
        Seq::empty()
    } else if parts.len() == 1 {
        parts[0]
    } else {
        joined(parts.drop_last(), sep) + sep + parts.last()
    }
}

/// Joining puts a separator before each part but the first, and nothing else.
pub proof fn lemma_joined(parts: Seq<Seq<char>>, part: Seq<char>, sep: Seq<char>)
    ensures
        joined(Seq::empty(), sep).len() == 0,
        parts.len() == 0 ==> joined(parts.push(part), sep) == part,
        parts.len() > 0 ==> joined(parts.push(part), sep) == joined(parts, sep) + sep + part,
{
    assert(parts.push(part).drop_last() =~= parts);
}

/// `line` without one carriage return at its end.
pub open spec fn without_cr(line: Seq<char>) -> Seq<char> {
    if line.len() > 0 && line.last() == '\r' {
        line.drop_last()
    } else {
        line
    }
}

/// The lines of `s`. A line ends in a line feed, or in a carriage return and a
/// line feed; the last line may have no ending.
pub open spec fn lines(s: Seq<char>) -> Seq<Seq<char>> {
    let all = fields(s, '\n');
    let ended = all.drop_last().map_values(|line: Seq<char>| without_cr(line));
    if all.last().len() == 0 {
        ended
    } else {
        ended.push(all.last())
    }
}

/// There is always at least one field.
pub proof fn lemma_fields_nonempty(s: Seq<char>, sep: char)
    ensures
        fields(s, sep).len() > 0,
    decreases s.len(),
{
    if s.len() > 0 {
        lemma_fields_nonempty(s.drop_last(), sep);
    }
}

/// No field holds the separator, and the fields joined by it give the text back.
pub proof fn lemma_joined_fields(s: Seq<char>, sep: char)
    ensures
        joined(fields(s, sep), seq![sep]) == s,
        forall|i: int| 0 <= i < fields(s, sep).len() ==> !(#[trigger] fields(s, sep)[i]).contains(sep),
    decreases s.len(),
{
    let all = fields(s, sep);
    if s.len() == 0 {
        assert(all[0] =~= s);
        assert(joined(all, seq![sep]) =~= s);
    } else {
        let init = fields(s.drop_last(), sep);
        lemma_fields_nonempty(s.drop_last(), sep);
        lemma_joined_fields(s.drop_last(), sep);
        if s.last() == sep {
            assert(all.drop_last() =~= init);
            assert(joined(all, seq![sep]) =~= s);
        } else {
            assert(all.drop_last() =~= init.drop_last());
            assert forall|i: int| 0 <= i < all.len() implies !(#[trigger] all[i]).contains(sep) by {
                if i < all.len() - 1 {
                    assert(all[i] == init[i]);
                } else {
                    let last = init[init.len() - 1];
                    assert(!last.contains(sep));
                    assert forall|j: int| 0 <= j < all[i].len() implies all[i][j] != sep by {
                        if j < last.len() {
                            assert(all[i][j] == last[j]);
                        }
                    }
                }
            }
            if all.len() == 1 {
                assert(joined(init, seq![sep]) == init[0]);
            } else {
                let head = joined(init.drop_last(), seq![sep]) + seq![sep];
                assert(joined(init, seq![sep]) == head + init.last());
                assert(joined(all, seq![sep]) == head + init.last().push(s.last()));
            }
            assert(joined(all, seq![sep]) =~= joined(init, seq![sep]).push(s.last()));
            assert(joined(all, seq![sep]) =~= s);
        }
    }
}

proof fn lemma_fields_of_tail(a: Seq<char>, tail: Seq<char>, sep: char)
    requires
        !tail.contains(sep),
    ensures
        fields(a.push(sep) + tail, sep) == fields(a, sep).push(tail),
    decreases tail.len(),
{
    let whole = a.push(sep) + tail;
    if tail.len() == 0 {
        assert(whole =~= a.push(sep));
        assert(whole.drop_last() =~= a);
        assert(tail =~= Seq::<char>::empty());
        assert(fields(whole, sep) =~= fields(a, sep).push(tail));
    } else {
        let shorter = tail.drop_last();
        assert(tail.contains(tail.last())) by {
            assert(tail[tail.len() - 1] == tail.last());
        }
        assert forall|j: int| 0 <= j < shorter.len() implies shorter[j] != sep by {
            assert(shorter[j] == tail[j]);
        }
        lemma_fields_of_tail(a, shorter, sep);
        assert(whole.drop_last() =~= a.push(sep) + shorter);
        assert(shorter.push(tail.last()) =~= tail);
        assert(fields(whole, sep) =~= fields(a, sep).push(tail));
    }
}

proof fn lemma_fields_of_plain(s: Seq<char>, sep: char)
    requires
        !s.contains(sep),
    ensures
        fields(s, sep) == seq![s],
    decreases s.len(),
{
    if s.len() == 0 {
        assert(s =~= Seq::<char>::empty());
        assert(fields(s, sep) =~= seq![s]);
    } else {
        let shorter = s.drop_last();
        assert(s.contains(s.last())) by {
            assert(s[s.len() - 1] == s.last());
        }
        assert forall|j: int| 0 <= j < shorter.len() implies shorter[j] != sep by {
            assert(shorter[j] == s[j]);
        }
        lemma_fields_of_plain(shorter, sep);
        assert(shorter.push(s.last()) =~= s);
        assert(fields(s, sep) =~= seq![s]);
    }
}

/// Parts that do not hold the separator are the fields of their join.
pub proof fn lemma_fields_joined(parts: Seq<Seq<char>>, sep: char)
    requires
        parts.len() > 0,
        forall|i: int| 0 <= i < parts.len() ==> !(#[trigger] parts[i]).contains(sep),
    ensures
        fields(joined(parts, seq![sep]), sep) == parts,
    decreases parts.len(),
{
    let last = parts[parts.len() - 1];
    if parts.len() == 1 {
        lemma_fields_of_plain(last, sep);
        assert(seq![last] =~= parts);
    } else {
        let init = parts.drop_last();
        assert forall|i: int| 0 <= i < init.len() implies !(#[trigger] init[i]).contains(sep) by {
            assert(init[i] == parts[i]);
        }
        lemma_fields_joined(init, sep);
        let head = joined(init, seq![sep]);
        lemma_fields_of_tail(head, last, sep);
        assert(head + seq![sep] + last =~= head.push(sep) + last);
        assert(init.push(last) =~= parts);
    }
}

/// No line holds a line feed.
pub proof fn lemma_lines_plain(s: Seq<char>)
    ensures
        forall|i: int| 0 <= i < lines(s).len() ==> !(#[trigger] lines(s)[i]).contains('\n'),
{
    let all = fields(s, '\n');
    lemma_fields_nonempty(s, '\n');
    lemma_joined_fields(s, '\n');
    assert forall|i: int| 0 <= i < lines(s).len() implies !(#[trigger] lines(s)[i]).contains(
        '\n',
    ) by {
        assert(!all[i].contains('\n'));
        assert forall|j: int| 0 <= j < lines(s)[i].len() implies lines(s)[i][j] != '\n' by {
            assert(lines(s)[i][j] == all[i][j]);
        }
    }
}

/// The lines of a text are those it was put together from, whether they were ended
/// by a line feed or by a carriage return and a line feed.
pub proof fn lemma_lines_of_joined(parts: Seq<Seq<char>>, ending: Seq<char>)
    requires
        parts.len() > 0,
        ending == seq!['\n'] || ending == seq!['\r', '\n'],
        forall|i: int| 0 <= i < parts.len() ==> !(#[trigger] parts[i]).contains('\n'),
        forall|i: int|
            0 <= i < parts.len() && ending == seq!['\n'] ==> (#[trigger] parts[i]).len() == 0
                || parts[i].last() != '\r',
    ensures
        lines(joined(parts, ending) + ending) == parts,
{
    let cr = ending.drop_last();
    let ended = parts.map_values(|part: Seq<char>| part + cr);
    let all = ended.push(Seq::empty());
    assert(cr =~= Seq::<char>::empty() || cr =~= seq!['\r']);
    assert(ending =~= cr + seq!['\n']);
    assert forall|i: int| 0 <= i < all.len() implies !(#[trigger] all[i]).contains('\n') by {
        if i < parts.len() {
            assert forall|j: int| 0 <= j < all[i].len() implies all[i][j] != '\n' by {
                if j < parts[i].len() {
                    assert(all[i][j] == parts[i][j]);
                    assert(parts[i].contains(parts[i][j]));
                } else {
                    assert(all[i][j] == cr[j - parts[i].len()]);
                }
            }
        }
    }
    lemma_joined_with_ending(parts, cr);
    assert(all.drop_last() =~= ended);
    assert(all.len() >= 2);
    assert(joined(all, seq!['\n']) =~= joined(parts, ending) + ending);
    lemma_fields_joined(all, '\n');
    assert forall|i: int| 0 <= i < parts.len() implies without_cr(#[trigger] ended[i])
        == parts[i] by {
        if ending == seq!['\n'] {
            assert(ended[i] =~= parts[i]);
        } else {
            assert(cr.len() == 1);
            assert(ended[i].drop_last() =~= parts[i]);
        }
    }
    assert(lines(joined(parts, ending) + ending) =~= parts);
}

/// A last line without an ending is a line too, as it stands; an empty text has none.
pub proof fn lemma_lines_unended(parts: Seq<Seq<char>>)
    requires
        parts.len() > 0,
        parts.last().len() > 0,
        forall|i: int| 0 <= i < parts.len() ==> !(#[trigger] parts[i]).contains('\n'),
        forall|i: int|
            0 <= i < parts.len() - 1 ==> (#[trigger] parts[i]).len() == 0 || parts[i].last()
                != '\r',
    ensures
        lines(joined(parts, seq!['\n'])) == parts,
        lines(Seq::empty()) == Seq::<Seq<char>>::empty(),
{
    lemma_fields_joined(parts, '\n');
    assert(parts.drop_last().map_values(|line: Seq<char>| without_cr(line)) =~= parts.drop_last());
    assert(parts.drop_last().push(parts.last()) =~= parts);
    assert(fields(Seq::empty(), '\n') =~= seq![Seq::<char>::empty()]);
    assert(lines(Seq::empty()) =~= Seq::<Seq<char>>::empty());
}

proof fn lemma_joined_with_ending(parts: Seq<Seq<char>>, cr: Seq<char>)
    requires
        parts.len() > 0,
    ensures
        joined(parts.map_values(|part: Seq<char>| part + cr), seq!['\n']) == joined(
            parts,
            cr + seq!['\n'],
        ) + cr,
    decreases parts.len(),
{
    let ended = parts.map_values(|part: Seq<char>| part + cr);
    if parts.len() > 1 {
        let init = parts.drop_last();
        lemma_joined_with_ending(init, cr);
        assert(ended.drop_last() =~= init.map_values(|part: Seq<char>| part + cr));
        assert(joined(ended, seq!['\n']) =~= joined(parts, cr + seq!['\n']) + cr);
    }
}

pub fn split_fields(s: &[char], sep: char) -> (out: Vec<String>)
    ensures
        out.deep_view() == fields(s@, sep),
{
    let mut out: Vec<String> = Vec::new();
    let mut current = String::new();
    assert(s@.take(0) =~= Seq::<char>::empty());
    assert(out.deep_view().push(current@) =~= fields(s@.take(0), sep));
    for i in 0..s.len()
        invariant
            out.deep_view().push(current@) == fields(s@.take(i as int), sep),
    {
        let ghost before = out.deep_view();
        let ghost part = current@;
        assert(s@.take(i + 1).drop_last() =~= s@.take(i as int));
        assert(before.push(part).drop_last() =~= before);
        if s[i] == sep {
            out.push(current);
            current = String::new();
            assert(out.deep_view() =~= before.push(part));
        } else {
            current.push(s[i]);
        }
        assert(out.deep_view().push(current@) =~= fields(s@.take(i + 1), sep));
    }
    assert(s@.take(s@.len() as int) =~= s@);
    let ghost before = out.deep_view();
    let ghost part = current@;
    out.push(current);
    assert(out.deep_view() =~= before.push(part));
    out
}

/// Drops one carriage return from the end of `line`.
fn drop_cr(line: &str) -> (out: String)
    ensures
        out@ == without_cr(line@),
{
    let chars = chars_of(line);
    let n: usize = chars.len();
    if n > 0 && chars[n - 1] == '\r' {
        assert(chars@.subrange(0, n - 1) =~= chars@.drop_last());
        string_of(slice_subrange(chars.as_slice(), 0, n - 1))
    } else {
        string_of(chars.as_slice())
    }
}

pub fn split_lines(s: &[char]) -> (out: Vec<String>)
    ensures
        out.deep_view() == lines(s@),
{
    let all = split_fields(s, '\n');
    let ghost model = all.deep_view();
    proof {
        lemma_fields_nonempty(s@, '\n');
    }
    let n: usize = all.len() - 1;
    let mut out: Vec<String> = Vec::new();
    let ghost ended = model.drop_last().map_values(|line: Seq<char>| without_cr(line));
    for i in 0..n
        invariant
            n == all@.len() - 1,
            model == all.deep_view(),
            ended == model.drop_last().map_values(|line: Seq<char>| without_cr(line)),
            out.deep_view() == ended.take(i as int),
    {
        let ghost before = out.deep_view();
        let line = drop_cr(all[i].as_str());
        assert(model.drop_last()[i as int] == all@[i as int]@);
        out.push(line);
        assert(out.deep_view() =~= before.push(line@));
        assert(out.deep_view() =~= ended.take(i + 1));
    }
    assert(ended.take(n as int) =~= ended);
    assert(model.last() == all@[n as int]@);
    if !all[n].as_str().is_empty() {
        let ghost before = out.deep_view();
        let last = all[n].clone();
        out.push(last);
        assert(out.deep_view() =~= before.push(last@));
    }
    out
}

pub fn join(parts: &Vec<String>, sep: &str) -> (out: String)
    ensures
        out@ == joined(parts.deep_view(), sep@),
{
    let mut out = String::new();
    let ghost model = parts.deep_view();
    assert(out@ =~= joined(model.take(0), sep@));
    for i in 0..parts.len()
        invariant
            model == parts.deep_view(),
            out@ == joined(model.take(i as int), sep@),
    {
        let ghost before = out@;
        if i > 0 {
            out.append(sep);
        }
        out.append(parts[i].as_str());
        assert(model.take(i + 1).drop_last() =~= model.take(i as int));
        assert(model.take(i + 1).last() == parts@[i as int]@);
        assert(out@ =~= joined(model.take(i + 1), sep@)) by {
            if i == 0 {
                assert(before =~= Seq::<char>::empty());
                assert(model.take(1)[0] == parts@[0]@);
                assert(out@ =~= parts@[0]@);
            }
        }
    }
    assert(model.take(parts@.len() as int) =~= model);
    out
}

// ---------------------------------------------------------------------------
// Numbers
// ---------------------------------------------------------------------------

/// The decimal digit for `d`.
pub open spec fn digit(d: int) -> char {
    ('0' as int + d) as char
}

pub open spec fn is_digit(c: char) -> bool {
    '0' <= c <= '9'
}

pub open spec fn all_digits(s: Seq<char>) -> bool {
    forall|i: int| 0 <= i < s.len() ==> is_digit(#[trigger] s[i])
}

/// `n` in decimal, without leading zeros.
pub open spec fn decimal(n: nat) -> Seq<char>
    decreases n,
{
    if n < 10 {
        seq![digit(n as int)]
    } else {
        decimal(n / 10).push(digit((n % 10) as int))
    }
}

/// The number that the digits `s` write in decimal.
pub open spec fn value(s: Seq<char>) -> nat
    decreases s.len(),
{
    if s.len() == 0 {
        0
    } else {
        value(s.drop_last()) * 10 + (s.last() as int - '0' as int) as nat
    }
}

/// `s` read as a `u32`: an optional plus sign, then decimal digits and nothing
/// else, with a value that fits.
pub open spec fn number(s: Seq<char>) -> Option<u32> {
    let digits = if s.len() > 0 && s[0] == '+' {
        s.skip(1)
    } else {
        s
    };
    if digits.len() > 0 && all_digits(digits) && value(digits) <= u32::MAX {
        Some(value(digits) as u32)
    } else {
        None
    }
}

proof fn lemma_value_grows(s: Seq<char>, n: int)
    requires
        0 <= n <= s.len(),
        all_digits(s),
    ensures
        value(s.take(n)) <= value(s),
    decreases s.len() - n,
{
    if n == s.len() {
        assert(s.take(n) =~= s);
    } else {
        lemma_value_grows(s, n + 1);
        assert(s.take(n + 1).drop_last() =~= s.take(n));
        assert(is_digit(s[n]));
    }
}

proof fn lemma_decimal(n: nat)
    ensures
        decimal(n).len() > 0,
        value(decimal(n)) == n,
        all_digits(decimal(n)),
    decreases n,
{
    let s = decimal(n);
    if n < 10 {
        assert(s.drop_last() =~= Seq::<char>::empty());
        assert(value(s.drop_last()) == 0);
    } else {
        lemma_decimal(n / 10);
        assert(s.drop_last() =~= decimal(n / 10));
        assert forall|i: int| 0 <= i < s.len() implies is_digit(#[trigger] s[i]) by {
            if i < s.len() - 1 {
                assert(s[i] == decimal(n / 10)[i]);
            }
        }
    }
}

/// The decimal form of a number consists of digits, and of at least one.
pub proof fn lemma_decimal_digits(n: nat)
    ensures
        decimal(n).len() > 0,
        all_digits(decimal(n)),
{
    lemma_decimal(n);
}

/// A number written in decimal reads back as itself.
pub proof fn lemma_number_of_decimal(n: u32)
    ensures
        number(decimal(n as nat)) == Some(n),
{
    lemma_decimal(n as nat);
    assert(is_digit(decimal(n as nat)[0]));
}

/// A number that does not fit is not read, however it is written in decimal.
pub proof fn lemma_large_number_not_read(n: nat)
    requires
        n > u32::MAX,
    ensures
        number(decimal(n)) is None,
{
    lemma_decimal(n);
    assert(is_digit(decimal(n)[0]));
}

/// A plus sign or a zero in front does not change a number.
pub proof fn lemma_number_with_sign_or_zero(n: u32)
    ensures
        number(seq!['+'] + decimal(n as nat)) == Some(n),
        number(seq!['0'] + decimal(n as nat)) == Some(n),
{
    let s = decimal(n as nat);
    lemma_decimal(n as nat);
    assert((seq!['+'] + s).skip(1) =~= s);
    let zero = seq!['0'] + s;
    lemma_value_with_zero(s);
    assert forall|i: int| 0 <= i < zero.len() implies is_digit(#[trigger] zero[i]) by {
        if i > 0 {
            assert(zero[i] == s[i - 1]);
        }
    }
}

proof fn lemma_value_with_zero(s: Seq<char>)
    ensures
        value(seq!['0'] + s) == value(s),
    decreases s.len(),
{
    let zero = seq!['0'] + s;
    if s.len() == 0 {
        assert(zero.drop_last() =~= Seq::<char>::empty());
        assert(value(zero.drop_last()) == 0);
        assert(zero.last() == '0');
    } else {
        lemma_value_with_zero(s.drop_last());
        assert(zero.drop_last() =~= seq!['0'] + s.drop_last());
    }
}

/// The same of any digits: a plus sign or zeros in front of them do not matter.
pub proof fn lemma_digits_with_sign_or_zero(s: Seq<char>)
    requires
        s.len() > 0,
        forall|i: int| 0 <= i < s.len() ==> '0' <= #[trigger] s[i] <= '9',
    ensures
        number(seq!['+'] + s) == number(s),
        number(seq!['0'] + s) == number(s),
{
    let zero = seq!['0'] + s;
    assert((seq!['+'] + s).skip(1) =~= s);
    lemma_value_with_zero(s);
    assert(all_digits(s)) by {
        assert forall|i: int| 0 <= i < s.len() implies is_digit(#[trigger] s[i]) by {}
    }
    assert forall|i: int| 0 <= i < zero.len() implies is_digit(#[trigger] zero[i]) by {
        if i > 0 {
            assert(zero[i] == s[i - 1]);
        }
    }
}

/// A number of several digits is written as what it is without the last one, and then
/// that one; so it does not begin with a zero.
pub proof fn lemma_decimal_grows(n: nat, d: int)
    requires
        0 <= d <= 9,
    ensures
        n > 0 ==> decimal((n * 10 + d) as nat) == decimal(n).push(('0' as int + d) as char),
        decimal(d as nat) == seq![('0' as int + d) as char],
        n > 0 ==> decimal(n)[0] != '0',
    decreases n,
{
    if n > 0 {
        let m = (n * 10 + d) as nat;
        assert(m / 10 == n && m % 10 == d);
        if n >= 10 {
            lemma_decimal(n / 10);
            lemma_decimal_grows(n / 10, 0);
            assert(decimal(n)[0] == decimal(n / 10)[0]);
        }
    }
}

/// Only a number is read as one: some decimal digits, with at most a plus sign in
/// front of them.
pub proof fn lemma_only_numbers_are_read(s: Seq<char>)
    requires
        number(s) is Some,
    ensures
        s.len() > 0,
        s[0] == '+' ==> s.len() > 1,
        s[0] == '+' || '0' <= s[0] <= '9',
        forall|i: int| 0 < i < s.len() ==> '0' <= #[trigger] s[i] <= '9',
{
    if s[0] == '+' {
        assert forall|i: int| 0 < i < s.len() implies '0' <= #[trigger] s[i] <= '9' by {
            assert(is_digit(s.skip(1)[i - 1]));
        }
    } else {
        assert forall|i: int| 0 <= i < s.len() implies '0' <= #[trigger] s[i] <= '9' by {
            assert(is_digit(s[i]));
        }
    }
}

/// Appends `n` in decimal to `out`.
pub fn push_decimal(out: &mut String, n: u64)
    ensures
        final(out)@ == old(out)@ + decimal(n as nat),
    decreases n,
{
    let ghost before = out@;
    if n >= 10 {
        push_decimal(out, n / 10);
    }
    let d: u8 = (n % 10) as u8;
    let c: char = ('0' as u8 + d) as char;
    out.push(c);
    assert(out@ =~= before + decimal(n as nat));
}

/// Reads `s` as a `u32`.
pub fn parse_u32(s: &[char]) -> (out: Option<u32>)
    ensures
        out == number(s@),
{
    let start: usize = if s.len() > 0 && s[0] == '+' {
        1
    } else {
        0
    };
    let ghost digits = s@.skip(start as int);
    assert(start == 0 ==> digits =~= s@);
    if start == s.len() {
        return None;
    }
    let mut n: u64 = 0;
    let mut i: usize = start;
    assert(digits.take(0) =~= Seq::<char>::empty());
    while i < s.len()
        invariant
            start <= i <= s@.len(),
            digits == s@.skip(start as int),
            number(s@) is Some ==> all_digits(digits) && value(digits) <= u32::MAX,
            forall|j: int| 0 <= j < i - start ==> is_digit(#[trigger] digits[j]),
            n == value(digits.take(i - start)),
            n <= u32::MAX,
        decreases s@.len() - i,
    {
        let c: char = s[i];
        assert(digits[i - start] == c);
        if !('0' <= c && c <= '9') {
            assert(!is_digit(digits[i - start]));
            return None;
        }
        let d: u8 = c as u8 - '0' as u8;
        assert(digits.take(i + 1 - start).drop_last() =~= digits.take(i - start));
        n = n * 10 + d as u64;
        if n > 0xffff_ffff {
            proof {
                if number(s@) is Some {
                    lemma_value_grows(digits, i + 1 - start);
                }
            }
            return None;
        }
        i = i + 1;
    }
    assert(digits.take(i - start) =~= digits);
    Some(n as u32)
}

} // verus!
