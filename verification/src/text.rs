//! Text as sequences of characters: comparison, words and lines.

use vstd::prelude::*;

use crate::order::Place;
use crate::sorted_map::{MapKey, SortedMap};
use crate::order;
use vstd::utf8;

verus! {

/// A map keyed by text, in the order of the text.
pub type TextMap<V> = SortedMap<String, V>;

/// The texts of a list of strings.
pub open spec fn texts(list: Seq<String>) -> Seq<Seq<char>> {
    list.map_values(|s: String| s@)
}

/// Whether `c` has the Unicode `White_Space` property.
pub open spec fn is_white_space(c: char) -> bool {
    ||| '\u{9}' <= c <= '\u{d}'
    ||| c == ' '
    ||| c == '\u{85}'
    ||| c == '\u{a0}'
    ||| c == '\u{1680}'
    ||| '\u{2000}' <= c <= '\u{200a}'
    ||| c == '\u{2028}'
    ||| c == '\u{2029}'
    ||| c == '\u{202f}'
    ||| c == '\u{205f}'
    ||| c == '\u{3000}'
}

/// `char::is_whitespace` tells whether a character has the `White_Space` property of the Unicode
/// character database, which lists the characters of [`is_white_space`].
pub assume_specification[ char::is_whitespace ](c: char) -> (res: bool)
    ensures
        res == is_white_space(c),
;

/// `String::from_utf8` gives the text that the bytes encode if they are valid UTF-8, and an error
/// otherwise.
#[verifier::external_body]
pub(crate) fn utf8_text(bytes: Vec<u8>) -> (res: Option<String>)
    ensures
        match res {
            Some(text) => utf8::valid_utf8(bytes@) && text@ == utf8::decode_utf8(bytes@),
            None => !utf8::valid_utf8(bytes@),
        },
{
    String::from_utf8(bytes).ok()
}

/// The characters of a string, one by one.
pub fn chars_of(s: &str) -> (res: Vec<char>)
    ensures
        res@ == s@,
{
    let mut res: Vec<char> = Vec::new();
    for c in it: s.chars()
        invariant
            res@ == s@.take(it.index()),
            it.seq() == s@,
    {
        res.push(c);
    }
    res
}

/// Whether two strings hold the same characters.
pub fn same_text(a: &str, b: &str) -> (res: bool)
    ensures
        res == (a@ == b@),
{
    a.to_owned() == b.to_owned()
}

/// Whether `s` begins with `prefix`.
pub open spec fn starts_with(s: Seq<char>, prefix: Seq<char>) -> bool {
    prefix.len() <= s.len() && s.take(prefix.len() as int) == prefix
}

/// Whether `s` ends with `suffix`.
pub open spec fn ends_with(s: Seq<char>, suffix: Seq<char>) -> bool {
    suffix.len() <= s.len() && s.skip(s.len() - suffix.len()) == suffix
}

/// Whether the characters of `s` from `from` on begin with `part`.
pub fn has_at(s: &Vec<char>, from: usize, part: &str) -> (res: bool)
    requires
        from <= s.len(),
    ensures
        res == starts_with(s@.skip(from as int), part@),
{
    let wanted = chars_of(part);
    if wanted.len() > s.len() - from {
        return false;
    }
    let ghost tail = s@.skip(from as int);
    let mut i: usize = 0;
    while i < wanted.len()
        invariant
            wanted@ == part@,
            from <= s.len(),
            wanted.len() <= s.len() - from,
            i <= wanted.len(),
            tail == s@.skip(from as int),
            forall|j: int| 0 <= j < i ==> tail[j] == wanted@[j],
        decreases wanted.len() - i,
    {
        if s[from + i] != wanted[i] {
            assert(tail.take(wanted@.len() as int)[i as int] != wanted@[i as int]);
            return false;
        }
        i += 1;
    }
    assert(tail.take(wanted@.len() as int) =~= wanted@);
    true
}

/// Whether the text begins with `prefix`.
pub fn text_starts_with(s: &str, prefix: &str) -> (res: bool)
    ensures
        res == starts_with(s@, prefix@),
{
    let chars = chars_of(s);
    assert(chars@.skip(0) =~= s@);
    has_at(&chars, 0, prefix)
}

/// Whether the text ends with `suffix`.
pub fn text_ends_with(s: &str, suffix: &str) -> (res: bool)
    ensures
        res == ends_with(s@, suffix@),
{
    let chars = chars_of(s);
    let n: usize = suffix.unicode_len();
    if n > chars.len() {
        return false;
    }
    let from: usize = chars.len() - n;
    let res = has_at(&chars, from, suffix);
    assert(s@.skip(from as int).take(n as int) =~= s@.skip(from as int));
    res
}

/// The first place from `from` on at which `c` stands, or the end of the text.
pub open spec fn find_char(s: Seq<char>, c: char, from: int) -> int
    decreases s.len() - from,
{
    if from >= s.len() {
        s.len() as int
    } else if s[from] == c {
        from
    } else {
        find_char(s, c, from + 1)
    }
}

/// What [`find_char`] finds: no `c` before it, and `c` at it unless it is the end.
pub proof fn lemma_find_char(s: Seq<char>, c: char, from: int)
    requires
        0 <= from <= s.len(),
    ensures
        from <= find_char(s, c, from) <= s.len(),
        forall|i: int| from <= i < find_char(s, c, from) ==> s[i] != c,
        find_char(s, c, from) < s.len() ==> s[find_char(s, c, from)] == c,
    decreases s.len() - from,
{
    if from < s.len() && s[from] != c {
        lemma_find_char(s, c, from + 1);
    }
}

/// The first place from `from` on at which `c` stands, or the end of the text.
pub fn position_of(s: &Vec<char>, c: char, from: usize) -> (res: usize)
    requires
        from <= s.len(),
    ensures
        res == find_char(s@, c, from as int),
        from <= res <= s.len(),
{
    let mut i: usize = from;
    while i < s.len() && s[i] != c
        invariant
            from <= i <= s.len(),
            find_char(s@, c, from as int) == find_char(s@, c, i as int),
        decreases s.len() - i,
    {
        i += 1;
    }
    i
}

/// The first place from `from` on where a word begins, or the end of the text.
pub open spec fn word_start(s: Seq<char>, from: int) -> int
    decreases s.len() - from,
{
    if from >= s.len() {
        s.len() as int
    } else if is_white_space(s[from]) {
        word_start(s, from + 1)
    } else {
        from
    }
}

/// The first white space from `from` on, or the end of the text.
pub open spec fn word_end(s: Seq<char>, from: int) -> int
    decreases s.len() - from,
{
    if from >= s.len() {
        s.len() as int
    } else if is_white_space(s[from]) {
        from
    } else {
        word_end(s, from + 1)
    }
}

proof fn lemma_word_bounds(s: Seq<char>, from: int)
    requires
        0 <= from <= s.len(),
    ensures
        from <= word_start(s, from) <= s.len(),
        from <= word_end(s, from) <= s.len(),
        from < s.len() && !is_white_space(s[from]) ==> from < word_end(s, from),
        word_start(s, from) < s.len() ==> !is_white_space(s[word_start(s, from)]),
    decreases s.len() - from,
{
    if from < s.len() {
        lemma_word_bounds(s, from + 1);
    }
}

/// The words of a text from `from` on: the longest runs of characters that are not white space.
pub open spec fn words_from(s: Seq<char>, from: int) -> Seq<Seq<char>>
    decreases s.len() - from,
    when 0 <= from <= s.len()
    via words_from_decreases
{
    let start = word_start(s, from);
    if start >= s.len() {
        Seq::empty()
    } else {
        let end = word_end(s, start);
        seq![s.subrange(start, end)] + words_from(s, end)
    }
}

#[via_fn]
proof fn words_from_decreases(s: Seq<char>, from: int) {
    lemma_word_bounds(s, from);
    if word_start(s, from) < s.len() {
        lemma_word_bounds(s, word_start(s, from));
    }
}

/// The words of a text.
pub open spec fn words(s: Seq<char>) -> Seq<Seq<char>> {
    words_from(s, 0)
}

/// The words of a text, in order.
pub fn split_words(s: &str) -> (res: Vec<String>)
    ensures
        texts(res@) == words(s@),
{
    let chars = chars_of(s);
    let mut res: Vec<String> = Vec::new();
    let mut i: usize = 0;
    assert(texts(res@) =~= Seq::empty());
    loop
        invariant
            chars@ == s@,
            i <= chars.len(),
            texts(res@) + words_from(s@, i as int) == words(s@),
        ensures
            texts(res@) == words(s@),
        decreases chars.len() - i,
    {
        let ghost from = i as int;
        proof {
            lemma_word_bounds(s@, from);
        }
        while i < chars.len() && chars[i].is_whitespace()
            invariant
                chars@ == s@,
                from <= i <= chars.len(),
                word_start(s@, from) == word_start(s@, i as int),
            decreases chars.len() - i,
        {
            i += 1;
        }
        if i == chars.len() {
            assert(words_from(s@, from) =~= Seq::empty());
            assert(texts(res@) + words_from(s@, from) =~= texts(res@));
            break;
        }
        let start: usize = i;
        proof {
            lemma_word_bounds(s@, start as int);
        }
        while i < chars.len() && !chars[i].is_whitespace()
            invariant
                chars@ == s@,
                start <= i <= chars.len(),
                word_end(s@, start as int) == word_end(s@, i as int),
            decreases chars.len() - i,
        {
            i += 1;
        }
        let ghost done = res@;
        res.push(s.substring_char(start, i).to_owned());
        proof {
            let word = s@.subrange(start as int, i as int);
            assert(words_from(s@, from) == seq![word] + words_from(s@, i as int));
            assert(texts(res@) =~= texts(done) + seq![word]);
            assert(texts(res@) + words_from(s@, i as int) =~= texts(done) + words_from(s@, from));
        }
    }
    res
}

/// The first line feed from `from` on, or the end of the bytes.
pub open spec fn line_feed(s: Seq<u8>, from: int) -> int
    decreases s.len() - from,
{
    if from >= s.len() {
        s.len() as int
    } else if s[from] == 10 {
        from
    } else {
        line_feed(s, from + 1)
    }
}

pub proof fn lemma_line_feed(s: Seq<u8>, from: int)
    requires
        0 <= from <= s.len(),
    ensures
        from <= line_feed(s, from) <= s.len(),
        forall|i: int| from <= i < line_feed(s, from) ==> s[i] != 10,
        line_feed(s, from) < s.len() ==> s[line_feed(s, from)] == 10,
    decreases s.len() - from,
{
    if from < s.len() && s[from] != 10 {
        lemma_line_feed(s, from + 1);
    }
}

/// A line without the carriage return that stood before its line feed.
pub open spec fn without_return(line: Seq<u8>) -> Seq<u8> {
    if line.len() > 0 && line.last() == 13 {
        line.drop_last()
    } else {
        line
    }
}

/// The lines of the bytes from `from` on. A line ends at a line feed, which is not part of it, nor
/// is a carriage return right before it. What follows the last line feed is a line too, taken as
/// it is, unless nothing follows it.
pub open spec fn lines_from(s: Seq<u8>, from: int) -> Seq<Seq<u8>>
    decreases s.len() - from,
    when 0 <= from <= s.len()
    via lines_from_decreases
{
    let end = line_feed(s, from);
    if from >= s.len() {
        Seq::empty()
    } else if end >= s.len() {
        seq![s.skip(from)]
    } else {
        seq![without_return(s.subrange(from, end))] + lines_from(s, end + 1)
    }
}

#[via_fn]
proof fn lines_from_decreases(s: Seq<u8>, from: int) {
    lemma_line_feed(s, from);
}

/// The lines of the bytes.
pub open spec fn lines(s: Seq<u8>) -> Seq<Seq<u8>> {
    lines_from(s, 0)
}

/// A copy of the bytes from `from` up to `to`.
pub fn copy_bytes(data: &[u8], from: usize, to: usize) -> (res: Vec<u8>)
    requires
        from <= to <= data@.len(),
    ensures
        res@ == data@.subrange(from as int, to as int),
{
    let mut res: Vec<u8> = Vec::new();
    let mut i: usize = from;
    while i < to
        invariant
            from <= i <= to <= data@.len(),
            res@ == data@.subrange(from as int, i as int),
        decreases to - i,
    {
        res.push(data[i]);
        i += 1;
    }
    res
}

/// The bytes of each line of `list`.
pub open spec fn byte_views(list: Seq<Vec<u8>>) -> Seq<Seq<u8>> {
    list.map_values(|v: Vec<u8>| v@)
}

/// The lines of the bytes, in order.
pub fn split_lines(data: &[u8]) -> (res: Vec<Vec<u8>>)
    ensures
        byte_views(res@) == lines(data@),
{
    let mut res: Vec<Vec<u8>> = Vec::new();
    let mut i: usize = 0;
    assert(byte_views(res@) =~= Seq::empty());
    while i < data.len()
        invariant
            i <= data@.len(),
            byte_views(res@) + lines_from(data@, i as int) == lines(data@),
        decreases data@.len() - i,
    {
        let ghost done = res@;
        let start: usize = i;
        while i < data.len() && data[i] != 10
            invariant
                start <= i <= data@.len(),
                line_feed(data@, start as int) == line_feed(data@, i as int),
            decreases data@.len() - i,
        {
            i += 1;
        }
        if i == data.len() {
            res.push(copy_bytes(data, start, i));
            proof {
                assert(data@.subrange(start as int, i as int) =~= data@.skip(start as int));
                assert(byte_views(res@) =~= byte_views(done) + lines_from(data@, start as int));
                assert(byte_views(res@) + lines_from(data@, i as int) =~= byte_views(res@));
            }
        } else {
            let mut end: usize = i;
            if end > start && data[end - 1] == 13 {
                end -= 1;
            }
            res.push(copy_bytes(data, start, end));
            i += 1;
            proof {
                let line = data@.subrange(start as int, i - 1);
                assert(data@.subrange(start as int, end as int) =~= without_return(line));
                assert(byte_views(res@) =~= byte_views(done) + seq![without_return(line)]);
                assert(byte_views(res@) + lines_from(data@, i as int) =~= byte_views(done) + lines_from(data@, start as int));
            }
        }
    }
    assert(byte_views(res@) + lines_from(data@, i as int) =~= byte_views(res@));
    res
}

impl MapKey for String {
    fn place(&self, other: &String) -> (res: Place) {
        let a = chars_of(self.as_str());
        let b = chars_of(other.as_str());
        place_of_chars(&a, &b)
    }
}

/// How one text stands to another in lexicographic order.
pub fn place_of_chars(a: &Vec<char>, b: &Vec<char>) -> (res: Place)
    ensures
        order::placed(a@, b@, res),
{
    let mut i: usize = 0;
    while i < a.len() && i < b.len() && a[i] == b[i]
        invariant
            i <= a.len(),
            i <= b.len(),
            a@.take(i as int) == b@.take(i as int),
        decreases a.len() - i,
    {
        assert(a@.take(i + 1) =~= a@.take(i as int).push(a@[i as int]));
        assert(b@.take(i + 1) =~= b@.take(i as int).push(b@[i as int]));
        i += 1;
    }
    proof {
        order::lexicographic_skips_common(a@, b@, i as int);
        order::lexicographic_skips_common(b@, a@, i as int);
        reveal_with_fuel(order::lexicographic, 2);
    }
    if i == a.len() && i == b.len() {
        assert(a@ =~= a@.take(i as int));
        assert(b@ =~= b@.take(i as int));
        Place::Same
    } else if i == a.len() {
        Place::Before
    } else if i == b.len() {
        Place::After
    } else if a[i] < b[i] {
        assert(a@.skip(i as int)[0] == a@[i as int]);
        assert(b@.skip(i as int)[0] == b@[i as int]);
        Place::Before
    } else {
        assert(a@.skip(i as int)[0] == a@[i as int]);
        assert(b@.skip(i as int)[0] == b@[i as int]);
        Place::After
    }
}

/// Bytes put before others do not change where the lines of those end.
proof fn lemma_lines_shift(a: Seq<u8>, b: Seq<u8>, i: int)
    requires
        0 <= i <= b.len(),
    ensures
        lines_from(a + b, a.len() + i) == lines_from(b, i),
    decreases b.len() - i,
{
    let all = a + b;
    let n = a.len() as int;
    lemma_line_feed(b, i);
    lemma_line_feed_shift(a, b, i);
    let end = line_feed(b, i);
    if i < b.len() {
        if end < b.len() {
            lemma_lines_shift(a, b, end + 1);
            assert(all.subrange(n + i, n + end) =~= b.subrange(i, end));
        } else {
            assert(all.skip(n + i) =~= b.skip(i));
        }
    }
}

proof fn lemma_line_feed_shift(a: Seq<u8>, b: Seq<u8>, i: int)
    requires
        0 <= i <= b.len(),
    ensures
        line_feed(a + b, a.len() + i) == a.len() + line_feed(b, i),
    decreases b.len() - i,
{
    if i < b.len() && b[i] != 10 {
        lemma_line_feed_shift(a, b, i + 1);
    }
}

proof fn lemma_line_feed_prefix(a: Seq<u8>, b: Seq<u8>, i: int)
    requires
        0 <= i < a.len(),
        a.last() == 10,
    ensures
        line_feed(a + b, i) == line_feed(a, i),
        line_feed(a, i) < a.len(),
    decreases a.len() - i,
{
    if a[i] != 10 {
        lemma_line_feed_prefix(a, b, i + 1);
    }
}

proof fn lemma_lines_prefix(a: Seq<u8>, b: Seq<u8>, i: int)
    requires
        0 <= i <= a.len(),
        a.len() > 0 ==> a.last() == 10,
    ensures
        lines_from(a + b, i) == lines_from(a, i) + lines(b),
    decreases a.len() - i,
{
    if i == a.len() {
        lemma_lines_shift(a, b, 0);
        assert(lines_from(a, i) + lines(b) =~= lines(b));
    } else {
        lemma_line_feed_prefix(a, b, i);
        lemma_line_feed(a, i);
        let end = line_feed(a, i);
        lemma_lines_prefix(a, b, end + 1);
        assert((a + b).subrange(i, end) =~= a.subrange(i, end));
        assert(lines_from(a + b, i) =~= lines_from(a, i) + lines(b));
    }
}

/// The lines of two files put together are the lines of the one and then those of the other, if
/// the first file ends its last line.
pub proof fn lines_of_both(a: Seq<u8>, b: Seq<u8>)
    requires
        a.len() > 0 ==> a.last() == 10,
    ensures
        lines(a + b) == lines(a) + lines(b),
{
    lemma_lines_prefix(a, b, 0);
}

/// A text without a line feed that is ended by one is a single line, if it does not end with a
/// carriage return.
pub proof fn single_line(line: Seq<u8>)
    requires
        forall|i: int| 0 <= i < line.len() ==> line[i] != 10,
        line.len() > 0 ==> line.last() != 13,
    ensures
        lines(line.push(10)) == seq![line],
{
    let all = line.push(10);
    lemma_line_feed(all, 0);
    let end = line_feed(all, 0);
    if end < line.len() {
        assert(all[end] == line[end]);
    }
    assert(all[line.len() as int] == 10);
    assert(end == line.len());
    assert(all.subrange(0, end) =~= line);
    assert(lines_from(all, end + 1) =~= Seq::empty());
    assert(lines(all) =~= seq![line]);
}

/// A text begins with another exactly if something makes the other into it that is put behind it,
/// and ends with another exactly if something does that is put before it.
pub proof fn beginnings_and_endings(s: Seq<char>, part: Seq<char>)
    ensures
        starts_with(s, part) <==> exists|rest: Seq<char>| s == #[trigger] (part + rest),
        ends_with(s, part) <==> exists|rest: Seq<char>| s == #[trigger] (rest + part),
{
    if starts_with(s, part) {
        assert(s =~= part + s.skip(part.len() as int));
    }
    if exists|rest: Seq<char>| s == #[trigger] (part + rest) {
        let rest = choose|rest: Seq<char>| s == #[trigger] (part + rest);
        assert((part + rest).take(part.len() as int) =~= part);
    }
    if ends_with(s, part) {
        assert(s =~= s.take(s.len() - part.len()) + part);
    }
    if exists|rest: Seq<char>| s == #[trigger] (rest + part) {
        let rest = choose|rest: Seq<char>| s == #[trigger] (rest + part);
        assert((rest + part).skip(rest.len() as int) =~= part);
    }
}

/// What stands before a text does not change where its words begin and end.
proof fn lemma_word_shift(a: Seq<char>, b: Seq<char>, i: int)
    requires
        0 <= i <= b.len(),
    ensures
        word_start(a + b, a.len() + i) == a.len() + word_start(b, i),
        word_end(a + b, a.len() + i) == a.len() + word_end(b, i),
    decreases b.len() - i,
{
    if i < b.len() {
        assert((a + b)[a.len() + i] == b[i]);
        lemma_word_shift(a, b, i + 1);
    }
}

proof fn lemma_words_shift(a: Seq<char>, b: Seq<char>, i: int)
    requires
        0 <= i <= b.len(),
    ensures
        words_from(a + b, a.len() + i) == words_from(b, i),
    decreases b.len() - i,
{
    let all = a + b;
    let n = a.len() as int;
    lemma_word_bounds(b, i);
    lemma_word_shift(a, b, i);
    let start = word_start(b, i);
    if start < b.len() {
        lemma_word_bounds(b, start);
        lemma_word_shift(a, b, start);
        let end = word_end(b, start);
        lemma_words_shift(a, b, end);
        assert(all.subrange(n + start, n + end) =~= b.subrange(start, end));
    }
}

/// A run of characters that are not white space ends where white space follows, or the text ends.
proof fn lemma_word_ends(s: Seq<char>, from: int, end: int)
    requires
        0 <= from <= end <= s.len(),
        forall|i: int| from <= i < end ==> !is_white_space(s[i]),
        end == s.len() || is_white_space(s[end]),
    ensures
        word_end(s, from) == end,
        from < end ==> word_start(s, from) == from,
    decreases end - from,
{
    if from < end {
        lemma_word_ends(s, from + 1, end);
    }
}

/// The words of a text are what white space separates: white space at the beginning counts for
/// nothing, what stands before the first white space after that is a word, and the words of the rest
/// follow.
#[verifier::spinoff_prover]
#[verifier::rlimit(60)]
pub proof fn words_are_separated(word: Seq<char>, space: char, rest: Seq<char>)
    requires
        word.len() > 0,
        forall|i: int| 0 <= i < word.len() ==> !is_white_space(#[trigger] word[i]),
        is_white_space(space),
    ensures
        words(Seq::empty()) == Seq::<Seq<char>>::empty(),
        words(word) == seq![word],
        words(seq![space] + rest) == words(rest),
        words(word + seq![space] + rest) == seq![word] + words(rest),
{
    assert(words(Seq::<char>::empty()) =~= Seq::empty());
    lemma_word_ends(word, 0, word.len() as int);
    assert(word.subrange(0, word.len() as int) =~= word);
    assert(word_start(word, word.len() as int) == word.len());
    assert(words_from(word, word.len() as int) =~= Seq::empty());
    assert(words(word) =~= seq![word]);
    let led = seq![space] + rest;
    lemma_words_shift(seq![space], rest, 0);
    lemma_word_bounds(led, 1);
    assert(word_start(led, 0) == word_start(led, 1));
    assert(words_from(led, 0) == words_from(led, 1));
    let all = word + seq![space] + rest;
    let n = word.len() as int;
    assert(all =~= word + led);
    assert forall|i: int| 0 <= i < n implies !is_white_space(all[i]) by {
        assert(all[i] == word[i]);
    }
    lemma_word_ends(all, 0, n);
    lemma_words_shift(word, led, 0);
    assert(all.subrange(0, n) =~= word);
    assert(words(all) =~= seq![word] + words_from(all, n));
}

/// A line ends at a line feed. A carriage return right before that belongs to the end of the line
/// too, and one at the end of the bytes does not.
#[verifier::spinoff_prover]
#[verifier::rlimit(60)]
pub proof fn lines_are_separated(line: Seq<u8>, rest: Seq<u8>)
    requires
        forall|i: int| 0 <= i < line.len() ==> #[trigger] line[i] != 10,
    ensures
        lines(Seq::empty()) == Seq::<Seq<u8>>::empty(),
        line.len() > 0 ==> lines(line) == seq![line],
        line.len() == 0 || line.last() != 13 ==> lines(line + seq![10u8] + rest) == seq![line] + lines(rest),
        lines(line + seq![13u8, 10u8] + rest) == seq![line] + lines(rest),
{
    assert(lines(Seq::<u8>::empty()) =~= Seq::empty());
    lemma_line_feed(line, 0);
    let end = line_feed(line, 0);
    if end < line.len() {
        assert(line[end] == 10);
    }
    assert(line.skip(0) =~= line);
    if line.len() == 0 || line.last() != 13 {
        single_line(line);
        assert(line + seq![10u8] + rest =~= line.push(10) + rest);
        lines_of_both(line.push(10), rest);
    }
    let ended = line.push(13).push(10);
    lemma_line_feed(ended, 0);
    let feed = line_feed(ended, 0);
    if feed < line.len() {
        assert(ended[feed] == line[feed]);
    }
    assert(ended[line.len() as int] == 13);
    assert(ended[line.len() as int + 1] == 10);
    assert(feed == line.len() + 1);
    assert(ended.subrange(0, feed) =~= line.push(13));
    assert(line.push(13).drop_last() =~= line);
    assert(lines_from(ended, feed + 1) =~= Seq::empty());
    assert(lines(ended) =~= seq![line]);
    assert(line + seq![13u8, 10u8] + rest =~= ended + rest);
    lines_of_both(ended, rest);
}

/// The first character in which two texts differ decides which comes first, and a text comes before
/// all others that begin with it.
pub proof fn first_difference_decides(common: Seq<char>, a: Seq<char>, b: Seq<char>)
    requires
        b.len() > 0,
        a.len() > 0 ==> a[0] < b[0],
    ensures
        order::Ordered::before(common + a, common + b),
        !order::Ordered::before(common + b, common + a),
{
    let x = common + a;
    let y = common + b;
    let n = common.len() as int;
    assert(x.take(n) =~= common);
    assert(y.take(n) =~= common);
    assert(x.skip(n) =~= a);
    assert(y.skip(n) =~= b);
    order::lexicographic_skips_common(x, y, n);
    order::lexicographic_skips_common(y, x, n);
}

} // verus!
