//! The `Setup.dist` and `Setup.local` files of CPython, which say from what each extension module
//! is built.

use vstd::prelude::*;

use crate::text::{
    chars_of, position_of, same_text, split_lines, split_words, text_ends_with, text_starts_with,
    utf8_text, TextMap,
};
use crate::text;
use vstd::utf8;

verus! {

/// What a line of a setup file says of a module.
#[derive(Clone, Debug)]
pub struct SetupEntry {
    pub module: String,
    pub object_filenames: Vec<String>,
    pub libraries: Vec<String>,
    pub frameworks: Vec<String>,
}

/// The texts of a [`SetupEntry`].
#[verifier::ext_equal]
pub struct SetupModel {
    pub module: Seq<char>,
    pub object_filenames: Seq<Seq<char>>,
    pub libraries: Seq<Seq<char>>,
    pub frameworks: Seq<Seq<char>>,
}

impl View for SetupEntry {
    type V = SetupModel;

    open spec fn view(&self) -> SetupModel {
        SetupModel {
            module: self.module@,
            object_filenames: text::texts(self.object_filenames@),
            libraries: text::texts(self.libraries@),
            frameworks: text::texts(self.frameworks@),
        }
    }
}

/// A line up to the number sign that begins a comment.
pub open spec fn code_of(line: Seq<char>) -> Seq<char> {
    line.take(text::find_char(line, '#', 0))
}

/// The words of a line, its comment left out.
pub open spec fn line_words(line: Seq<char>) -> Seq<Seq<char>> {
    text::words(code_of(line))
}

/// What follows the last slash of a path.
pub open spec fn base_name(path: Seq<char>) -> Seq<char>
    decreases path.len(),
{
    if path.len() == 0 || path.last() == '/' {
        Seq::empty()
    } else {
        base_name(path.drop_last()).push(path.last())
    }
}

/// Whether a word names a C source file.
pub open spec fn is_source(word: Seq<char>) -> bool {
    text::ends_with(word, ".c"@)
}

/// The object file of a C source file: its base name, with `.o` in place of `.c`. A file that is
/// called just `.c` has no extension, so `.o` is put behind it.
pub open spec fn object_name(word: Seq<char>) -> Seq<char> {
    let base = base_name(word);
    if base == ".c"@ {
        base + ".o"@
    } else {
        base.take(base.len() - 2) + ".o"@
    }
}

/// The object files that the words name, in order.
pub open spec fn object_names(list: Seq<Seq<char>>) -> Seq<Seq<char>>
    decreases list.len(),
{
    if list.len() == 0 {
        Seq::empty()
    } else if is_source(list.last()) {
        object_names(list.drop_last()).push(object_name(list.last()))
    } else {
        object_names(list.drop_last())
    }
}

/// The libraries that the words ask for with `-l`, in order.
pub open spec fn library_names(list: Seq<Seq<char>>) -> Seq<Seq<char>>
    decreases list.len(),
{
    if list.len() == 0 {
        Seq::empty()
    } else if !is_source(list.last()) && text::starts_with(list.last(), "-l"@) {
        library_names(list.drop_last()).push(list.last().skip(2))
    } else {
        library_names(list.drop_last())
    }
}

/// The frameworks that the first `n` words ask for with `-framework`, in order: each is the word
/// that follows.
pub open spec fn framework_names(list: Seq<Seq<char>>, n: int) -> Seq<Seq<char>>
    decreases n,
{
    if n <= 0 {
        Seq::empty()
    } else if list[n - 1] == "-framework"@ {
        framework_names(list, n - 1).push(list[n])
    } else {
        framework_names(list, n - 1)
    }
}

/// The entry that the words of a line make.
pub open spec fn entry_of(list: Seq<Seq<char>>) -> SetupModel {
    SetupModel {
        module: list[0],
        object_filenames: object_names(list),
        libraries: library_names(list),
        frameworks: framework_names(list, list.len() as int),
    }
}

/// Whether each `-framework` of the line is followed by a name.
pub open spec fn is_complete(line: Seq<char>) -> bool {
    line_words(line).len() >= 2 ==> line_words(line).last() != "-framework"@
}

/// The modules after a line was read: a line of two words or more gives its first word an entry,
/// and any other line changes nothing.
pub open spec fn after_line(modules: Map<Seq<char>, SetupModel>, line: Seq<char>) -> Map<Seq<char>, SetupModel> {
    let list = line_words(line);
    if list.len() < 2 {
        modules
    } else {
        modules.insert(list[0], entry_of(list))
    }
}

/// The modules after the lines were read, one after the other.
pub open spec fn after_lines(modules: Map<Seq<char>, SetupModel>, list: Seq<Seq<char>>) -> Map<Seq<char>, SetupModel>
    decreases list.len(),
{
    if list.len() == 0 {
        modules
    } else {
        after_line(after_lines(modules, list.drop_last()), list.last())
    }
}

proof fn lemma_base_name(path: Seq<char>, from: int)
    requires
        0 <= from <= path.len(),
        from == 0 || path[from - 1] == '/',
        forall|i: int| from <= i < path.len() ==> path[i] != '/',
    ensures
        base_name(path) == path.skip(from),
    decreases path.len(),
{
    if from < path.len() {
        lemma_base_name(path.drop_last(), from);
        assert(path.drop_last().skip(from).push(path.last()) =~= path.skip(from));
    } else {
        assert(path.skip(from) =~= Seq::empty());
    }
}

/// The base name of a name that ends with `.c` ends with it too.
proof fn lemma_source_base(word: Seq<char>)
    requires
        is_source(word),
    ensures
        text::ends_with(base_name(word), ".c"@),
{
    reveal_strlit(".c");
    let n = word.len() as int;
    assert(word.skip(n - 2)[0] == word[n - 2] && word.skip(n - 2)[1] == word[n - 1]);
    let one = word.drop_last();
    assert(base_name(word) == base_name(one).push(word.last()));
    assert(one.last() == '.');
    assert(base_name(one) == base_name(one.drop_last()).push('.'));
    let base = base_name(word);
    assert(base.skip(base.len() - 2) =~= ".c"@);
}

/// The object file of a C source file.
fn object_of(word: &str) -> (res: String)
    requires
        is_source(word@),
    ensures
        res@ == object_name(word@),
{
    let chars = chars_of(word);
    let mut from: usize = chars.len();
    while from > 0 && chars[from - 1] != '/'
        invariant
            from <= chars.len(),
            forall|i: int| from <= i < chars.len() ==> chars@[i] != '/',
        decreases from,
    {
        from -= 1;
    }
    proof {
        lemma_base_name(word@, from as int);
        lemma_source_base(word@);
    }
    let base = word.substring_char(from, chars.len());
    proof {
        reveal_strlit(".c");
        assert(word@.subrange(from as int, chars@.len() as int) =~= word@.skip(from as int));
    }
    let mut res;
    if same_text(base, ".c") {
        res = base.to_owned();
    } else {
        let n: usize = base.unicode_len();
        res = base.substring_char(0, n - 2).to_owned();
        assert(base@.subrange(0, n - 2) =~= base@.take(n - 2));
    }
    res.append(".o");
    res
}

/// Splits a line into its words, its comment left out.
fn words_of_line(line: &str) -> (res: Vec<String>)
    ensures
        text::texts(res@) == line_words(line@),
{
    let chars = chars_of(line);
    let end: usize = position_of(&chars, '#', 0);
    let code = line.substring_char(0, end);
    assert(code@ =~= code_of(line@));
    split_words(code)
}

/// Whether [`parse_setup_line`] can read the line.
pub fn can_parse_setup_line(line: &str) -> (res: bool)
    ensures
        res == is_complete(line@),
{
    let list = words_of_line(line);
    if list.len() < 2 {
        return true;
    }
    assert(text::texts(list@).last() == list@.last()@);
    !same_text(list[list.len() - 1].as_str(), "-framework")
}

/// Reads a line of a setup file: `<module> <argument> ...`.
pub fn parse_setup_line(modules: &mut TextMap<SetupEntry>, line: &str)
    requires
        is_complete(line@),
    ensures
        final(modules)@ == after_line(old(modules)@, line@),
{
    let list = words_of_line(line);
    let ghost model = line_words(line@);
    if list.len() < 2 {
        return;
    }
    let mut object_filenames: Vec<String> = Vec::new();
    let mut libraries: Vec<String> = Vec::new();
    let mut frameworks: Vec<String> = Vec::new();
    proof {
        assert(model.take(0) =~= Seq::empty());
        assert(text::texts(object_filenames@) =~= Seq::empty());
        assert(text::texts(libraries@) =~= Seq::empty());
        assert(text::texts(frameworks@) =~= Seq::empty());
        reveal_strlit("-framework");
        reveal_strlit("-l");
        reveal_strlit(".c");
        let word = "-framework"@;
        assert(word.skip(word.len() - 2)[0] == 'r');
        assert(".c"@[0] == '.');
        assert(word.take(2)[1] == 'f');
        assert("-l"@[1] == 'l');
    }
    let mut i: usize = 0;
    while i < list.len()
        invariant
            text::texts(list@) == model,
            model == line_words(line@),
            is_complete(line@),
            2 <= list.len(),
            i <= list.len(),
            text::texts(object_filenames@) == object_names(model.take(i as int)),
            text::texts(libraries@) == library_names(model.take(i as int)),
            text::texts(frameworks@) == framework_names(model, i as int),
            !is_source("-framework"@),
            !text::starts_with("-framework"@, "-l"@),
            "-l"@.len() == 2,
        decreases list.len() - i,
    {
        let word = list[i].as_str();
        let ghost objects = object_filenames@;
        let ghost libs = libraries@;
        let ghost frames = frameworks@;
        proof {
            assert(word@ == model[i as int]);
            assert(model.take(i + 1).drop_last() =~= model.take(i as int));
            assert(model.take(i + 1).last() == word@);
        }
        if text_ends_with(word, ".c") {
            object_filenames.push(object_of(word));
            assert(text::texts(object_filenames@) =~= text::texts(objects).push(object_name(word@)));
        } else if text_starts_with(word, "-l") {
            let n: usize = word.unicode_len();
            libraries.push(word.substring_char(2, n).to_owned());
            assert(word@.subrange(2, n as int) =~= word@.skip(2));
            assert(text::texts(libraries@) =~= text::texts(libs).push(word@.skip(2)));
        } else if same_text(word, "-framework") {
            assert(i + 1 < list.len()) by {
                if i + 1 == list.len() {
                    assert(model.last() == word@);
                }
            }
            assert(list@[i + 1]@ == model[i + 1]);
            frameworks.push(list[i + 1].clone());
            assert(text::texts(frameworks@) =~= text::texts(frames).push(model[i + 1]));
        }
        i += 1;
    }
    assert(model.take(i as int) =~= model);
    let entry = SetupEntry { module: list[0].clone(), object_filenames, libraries, frameworks };
    assert(list@[0]@ == model[0]);
    assert(entry@ =~= entry_of(model));
    modules.insert(list[0].clone(), entry);
}

/// The texts of lines of bytes.
pub open spec fn decoded(list: Seq<Seq<u8>>) -> Seq<Seq<char>> {
    list.map_values(|line: Seq<u8>| utf8::decode_utf8(line))
}

/// Whether each line is valid UTF-8.
pub open spec fn readable(list: Seq<Seq<u8>>) -> bool {
    forall|i: int| 0 <= i < list.len() ==> utf8::valid_utf8(#[trigger] list[i])
}

/// Whether each line of a list is complete.
pub open spec fn all_complete(list: Seq<Seq<char>>) -> bool {
    forall|i: int| 0 <= i < list.len() ==> is_complete(#[trigger] list[i])
}

/// The first place from `from` on at which a line begins with `PYTHONPATH=`, or the end of the
/// list.
pub open spec fn start_line(list: Seq<Seq<char>>, from: int) -> int
    decreases list.len() - from,
{
    if from >= list.len() {
        list.len() as int
    } else if text::starts_with(list[from], "PYTHONPATH="@) {
        from
    } else {
        start_line(list, from + 1)
    }
}

/// The lines of a `Setup.dist` file that are read: all but the first that begins with
/// `PYTHONPATH=`.
pub open spec fn dist_lines(list: Seq<Seq<char>>) -> Seq<Seq<char>> {
    let start = start_line(list, 0);
    if start < list.len() {
        list.remove(start)
    } else {
        list
    }
}

proof fn lemma_start_line(list: Seq<Seq<char>>, from: int)
    requires
        0 <= from <= list.len(),
    ensures
        from <= start_line(list, from) <= list.len(),
        forall|i: int| from <= i < start_line(list, from) ==> !text::starts_with(list[i], "PYTHONPATH="@),
        start_line(list, from) < list.len() ==> text::starts_with(list[start_line(list, from)], "PYTHONPATH="@),
    decreases list.len() - from,
{
    if from < list.len() && !text::starts_with(list[from], "PYTHONPATH="@) {
        lemma_start_line(list, from + 1);
    }
}

/// Whether [`parse_setup_dist`] can read the file.
pub fn can_parse_setup_dist(data: &Vec<u8>) -> (res: bool)
    ensures
        res == (readable(text::lines(data@)) && all_complete(dist_lines(decoded(text::lines(data@))))),
{
    let list = split_lines(data.as_slice());
    let ghost raw = text::lines(data@);
    let ghost all = decoded(raw);
    let ghost read = dist_lines(all);
    let ghost start = start_line(all, 0);
    proof {
        lemma_start_line(all, 0);
    }
    let mut found_start = false;
    let mut i: usize = 0;
    let ghost mut n: int = 0;
    while i < list.len()
        invariant
            text::byte_views(list@) == raw,
            raw == text::lines(data@),
            all == decoded(raw),
            read == dist_lines(all),
            start == start_line(all, 0),
            0 <= start <= all.len(),
            forall|j: int| 0 <= j < start ==> !text::starts_with(all[j], "PYTHONPATH="@),
            start < all.len() ==> text::starts_with(all[start], "PYTHONPATH="@),
            i <= list.len(),
            found_start == (i > start),
            n == if i > start { i - 1 } else { i as int },
            forall|j: int| 0 <= j < i ==> utf8::valid_utf8(#[trigger] raw[j]),
            forall|j: int| 0 <= j < n ==> is_complete(#[trigger] read[j]),
        decreases list.len() - i,
    {
        assert(list@[i as int]@ == raw[i as int]);
        let line = match utf8_text(list[i].clone()) {
            Some(line) => line,
            None => {
                return false;
            },
        };
        assert(line@ == all[i as int]);
        i += 1;
        if !found_start {
            if text_starts_with(line.as_str(), "PYTHONPATH=") {
                found_start = true;
                continue;
            }
        }
        assert(read[n] == line@);
        if !can_parse_setup_line(line.as_str()) {
            return false;
        }
        proof {
            n = n + 1;
        }
    }
    assert(n == read.len());
    true
}

/// Reads a `Setup.dist` file.
pub fn parse_setup_dist(modules: &mut TextMap<SetupEntry>, data: &Vec<u8>)
    requires
        readable(text::lines(data@)),
        all_complete(dist_lines(decoded(text::lines(data@)))),
    ensures
        final(modules)@ == after_lines(old(modules)@, dist_lines(decoded(text::lines(data@)))),
{
    let list = split_lines(data.as_slice());
    let ghost raw = text::lines(data@);
    let ghost all = decoded(raw);
    let ghost read = dist_lines(all);
    let ghost start = start_line(all, 0);
    proof {
        lemma_start_line(all, 0);
        assert(read.take(0) =~= Seq::empty());
    }
    let mut found_start = false;
    let mut i: usize = 0;
    let ghost mut n: int = 0;
    while i < list.len()
        invariant
            text::byte_views(list@) == raw,
            all == decoded(raw),
            readable(raw),
            all_complete(read),
            read == dist_lines(all),
            start == start_line(all, 0),
            0 <= start <= all.len(),
            forall|j: int| 0 <= j < start ==> !text::starts_with(all[j], "PYTHONPATH="@),
            start < all.len() ==> text::starts_with(all[start], "PYTHONPATH="@),
            i <= list.len(),
            found_start == (i > start),
            n == if i > start { i - 1 } else { i as int },
            modules@ == after_lines(old(modules)@, read.take(n)),
        decreases list.len() - i,
    {
        assert(utf8::valid_utf8(raw[i as int]));
        let line = utf8_text(list[i].clone()).unwrap();
        assert(line@ == all[i as int]);
        i += 1;
        if !found_start {
            if text_starts_with(line.as_str(), "PYTHONPATH=") {
                found_start = true;
                continue;
            }
        }
        assert(read[n] == line@);
        parse_setup_line(modules, line.as_str());
        proof {
            assert(read.take(n + 1).drop_last() =~= read.take(n));
            assert(read.take(n + 1).last() == line@);
            n = n + 1;
        }
    }
    assert(read.take(n) =~= read);
}

/// The first place from `from` on at which the line `*disabled*` stands, or the end of the list.
pub open spec fn disabled_line(list: Seq<Seq<u8>>, from: int) -> int
    decreases list.len() - from,
{
    if from >= list.len() {
        list.len() as int
    } else if utf8::valid_utf8(list[from]) && utf8::decode_utf8(list[from]) == "*disabled*"@ {
        from
    } else {
        disabled_line(list, from + 1)
    }
}

proof fn lemma_disabled_line(list: Seq<Seq<u8>>, from: int)
    requires
        0 <= from <= list.len(),
    ensures
        from <= disabled_line(list, from) <= list.len(),
    decreases list.len() - from,
{
    if from < list.len() {
        lemma_disabled_line(list, from + 1);
    }
}

/// The lines that stand before the line `*disabled*`.
pub open spec fn enabled_lines(list: Seq<Seq<u8>>) -> Seq<Seq<u8>> {
    list.take(disabled_line(list, 0))
}

/// The lines without those that read `*static*`.
pub open spec fn without_static(list: Seq<Seq<char>>) -> Seq<Seq<char>>
    decreases list.len(),
{
    if list.len() == 0 {
        Seq::empty()
    } else if list.last() == "*static*"@ {
        without_static(list.drop_last())
    } else {
        without_static(list.drop_last()).push(list.last())
    }
}

/// The lines of a `Setup.local` file that are read: those before `*disabled*` that are not
/// `*static*`.
pub open spec fn local_lines(list: Seq<Seq<u8>>) -> Seq<Seq<char>> {
    without_static(decoded(enabled_lines(list)))
}

/// The lines that are not `*static*` are complete where they stand among the others.
proof fn lemma_without_static(list: Seq<Seq<char>>)
    ensures
        all_complete(without_static(list)) <==> forall|i: int|
            0 <= i < list.len() ==> (#[trigger] list[i]) == "*static*"@ || is_complete(list[i]),
    decreases list.len(),
{
    if list.len() > 0 {
        let rest = list.drop_last();
        let before = without_static(rest);
        let kept = without_static(list);
        lemma_without_static(rest);
        assert forall|i: int| 0 <= i < list.len() && all_complete(kept) implies (#[trigger] list[i]) == "*static*"@
            || is_complete(list[i]) by {
            assert forall|j: int| 0 <= j < before.len() implies is_complete(#[trigger] before[j]) by {
                assert(kept[j] == before[j]);
            }
            if i < rest.len() {
                assert(rest[i] == list[i]);
            } else if list[i] != "*static*"@ {
                assert(kept[kept.len() - 1] == list[i]);
            }
        }
        if forall|i: int| 0 <= i < list.len() ==> (#[trigger] list[i]) == "*static*"@ || is_complete(list[i]) {
            assert forall|i: int| 0 <= i < rest.len() implies (#[trigger] rest[i]) == "*static*"@ || is_complete(
                rest[i],
            ) by {
                assert(list[i] == rest[i]);
            }
            assert(list[list.len() - 1] == list.last());
        }
    }
}

/// Whether [`parse_setup_local`] can read the file.
pub fn can_parse_setup_local(data: &Vec<u8>) -> (res: bool)
    ensures
        res == (readable(enabled_lines(text::lines(data@))) && all_complete(local_lines(text::lines(data@)))),
{
    let list = split_lines(data.as_slice());
    let ghost raw = text::lines(data@);
    let ghost enabled = enabled_lines(raw);
    let ghost all = decoded(enabled);
    let ghost stop = disabled_line(raw, 0);
    proof {
        lemma_disabled_line(raw, 0);
        lemma_without_static(all);
    }
    let mut i: usize = 0;
    while i < list.len()
        invariant
            text::byte_views(list@) == raw,
            raw == text::lines(data@),
            enabled == enabled_lines(raw),
            enabled == raw.take(stop),
            all == decoded(enabled),
            0 <= stop <= raw.len(),
            i <= stop,
            i <= list.len(),
            stop == disabled_line(raw, i as int),
            forall|j: int| 0 <= j < i ==> utf8::valid_utf8(#[trigger] enabled[j]),
            forall|j: int| 0 <= j < i ==> (#[trigger] all[j]) == "*static*"@ || is_complete(all[j]),
            all_complete(without_static(all)) <==> forall|j: int|
                0 <= j < all.len() ==> (#[trigger] all[j]) == "*static*"@ || is_complete(all[j]),
        decreases list.len() - i,
    {
        proof {
            assert(list@[i as int]@ == raw[i as int]);
            lemma_disabled_line(raw, i + 1);
        }
        let line = match utf8_text(list[i].clone()) {
            Some(line) => line,
            None => {
                assert(enabled[i as int] == raw[i as int]);
                return false;
            },
        };
        // Everything after the *disabled* line can be ignored.
        if same_text(line.as_str(), "*disabled*") {
            return true;
        }
        proof {
            assert(enabled[i as int] == raw[i as int]);
            assert(all[i as int] == line@);
        }
        if !same_text(line.as_str(), "*static*") && !can_parse_setup_line(line.as_str()) {
            return false;
        }
        i += 1;
    }
    true
}

/// Reads a `Setup.local` file.
pub fn parse_setup_local(modules: &mut TextMap<SetupEntry>, data: &Vec<u8>)
    requires
        readable(enabled_lines(text::lines(data@))),
        all_complete(local_lines(text::lines(data@))),
    ensures
        final(modules)@ == after_lines(old(modules)@, local_lines(text::lines(data@))),
{
    let list = split_lines(data.as_slice());
    let ghost raw = text::lines(data@);
    let ghost enabled = enabled_lines(raw);
    let ghost all = decoded(enabled);
    let ghost stop = disabled_line(raw, 0);
    proof {
        lemma_disabled_line(raw, 0);
        assert(all.take(0) =~= Seq::empty());
    }
    let mut i: usize = 0;
    loop
        invariant_except_break
            i <= stop,
            i <= list.len(),
            stop == disabled_line(raw, i as int),
            modules@ == after_lines(old(modules)@, without_static(all.take(i as int))),
        invariant
            text::byte_views(list@) == raw,
            enabled == raw.take(stop),
            all == decoded(enabled),
            0 <= stop <= raw.len(),
            readable(enabled),
            all_complete(without_static(all)),
        ensures
            modules@ == after_lines(old(modules)@, without_static(all)),
        decreases list.len() - i,
    {
        if i == list.len() {
            assert(all.take(i as int) =~= all);
            break;
        }
        proof {
            assert(list@[i as int]@ == raw[i as int]);
            lemma_disabled_line(raw, i + 1);
            if i < stop {
                assert(enabled[i as int] == raw[i as int]);
                assert(utf8::valid_utf8(enabled[i as int]));
            }
        }
        let line = utf8_text(list[i].clone()).unwrap();
        // Everything after the *disabled* line can be ignored.
        if same_text(line.as_str(), "*disabled*") {
            assert(all.take(i as int) =~= all);
            break;
        }
        assert(i < stop);
        proof {
            assert(all[i as int] == line@);
            assert(all.take(i + 1).drop_last() =~= all.take(i as int));
            assert(all.take(i + 1).last() == line@);
            lemma_without_static(all);
        }
        i += 1;
        if same_text(line.as_str(), "*static*") {
            continue;
        }
        parse_setup_line(modules, line.as_str());
        proof {
            let kept = without_static(all.take(i as int));
            assert(kept.drop_last() =~= without_static(all.take(i - 1)));
        }
    }
}

/// What stands behind a number sign has no effect on what a line says.
pub proof fn comment_has_no_effect(modules: Map<Seq<char>, SetupModel>, code: Seq<char>, comment: Seq<char>)
    requires
        !code.contains('#'),
    ensures
        after_line(modules, code + seq!['#'] + comment) == after_line(modules, code),
        is_complete(code + seq!['#'] + comment) == is_complete(code),
{
    let line = code + seq!['#'] + comment;
    text::lemma_find_char(line, '#', 0);
    text::lemma_find_char(code, '#', 0);
    let at = text::find_char(line, '#', 0);
    assert(line[code.len() as int] == '#');
    if at < code.len() {
        assert(code[at] == '#');
    }
    assert(text::find_char(code, '#', 0) == code.len());
    assert(code_of(line) =~= code);
    assert(code_of(code) =~= code);
}

/// The bytes of the line that ends the part of a `Setup.local` file that is read.
pub open spec fn disabled_marker() -> Seq<u8> {
    utf8::encode_utf8("*disabled*"@).push(10)
}

proof fn lemma_disabled_marker()
    ensures
        text::lines(disabled_marker()) == seq![utf8::encode_utf8("*disabled*"@)],
        utf8::valid_utf8(utf8::encode_utf8("*disabled*"@)),
        utf8::decode_utf8(utf8::encode_utf8("*disabled*"@)) == "*disabled*"@,
{
    let text = "*disabled*"@;
    reveal_strlit("*disabled*");
    utf8::is_ascii_chars_encode_utf8(text);
    utf8::encode_utf8_valid_utf8(text);
    utf8::encode_utf8_decode_utf8(text);
    let line = utf8::encode_utf8(text);
    assert forall|i: int| 0 <= i < line.len() implies line[i] != 10 && line[i] != 13 by {
        assert(line[i] == text[i] as u8);
    }
    text::single_line(line);
}

proof fn lemma_disabled_line_prefix(a: Seq<Seq<u8>>, b: Seq<Seq<u8>>, i: int)
    requires
        0 <= i < a.len(),
        utf8::valid_utf8(a.last()),
        utf8::decode_utf8(a.last()) == "*disabled*"@,
    ensures
        disabled_line(a + b, i) == disabled_line(a, i),
        disabled_line(a, i) < a.len(),
    decreases a.len() - i,
{
    if !(utf8::valid_utf8(a[i]) && utf8::decode_utf8(a[i]) == "*disabled*"@) {
        lemma_disabled_line_prefix(a, b, i + 1);
    }
}

/// Everything after the `*disabled*` line of a `Setup.local` file can be ignored: whatever `rest`
/// is, the same lines are read as without it.
pub proof fn rest_of_local_is_ignored(before: Seq<u8>, rest: Seq<u8>)
    requires
        before.len() > 0 ==> before.last() == 10,
    ensures
        enabled_lines(text::lines(before + disabled_marker() + rest)) == enabled_lines(text::lines(before + disabled_marker())),
        local_lines(text::lines(before + disabled_marker() + rest)) == local_lines(text::lines(before + disabled_marker())),
{
    let head = before + disabled_marker();
    lemma_disabled_marker();
    text::lines_of_both(before, disabled_marker());
    assert(head.last() == 10);
    text::lines_of_both(head, rest);
    let a = text::lines(head);
    assert(a.last() == utf8::encode_utf8("*disabled*"@));
    lemma_disabled_line_prefix(a, text::lines(rest), 0);
    lemma_disabled_line(a, 0);
    assert((a + text::lines(rest)).take(disabled_line(a, 0)) =~= a.take(disabled_line(a, 0)));
}

/// Whether each entry stands under the name of its own module.
pub open spec fn under_own_names(modules: Map<Seq<char>, SetupModel>) -> bool {
    forall|name: Seq<char>| #[trigger] modules.contains_key(name) ==> modules[name].module == name
}

/// Entries stand under the names of their own modules, whatever lines are read.
pub proof fn lines_keep_names(modules: Map<Seq<char>, SetupModel>, list: Seq<Seq<char>>)
    requires
        under_own_names(modules),
    ensures
        under_own_names(after_lines(modules, list)),
    decreases list.len(),
{
    if list.len() > 0 {
        lines_keep_names(modules, list.drop_last());
    }
}

/// A line changes no entry but that of the module which it begins with.
pub proof fn line_changes_one_module(modules: Map<Seq<char>, SetupModel>, line: Seq<char>, name: Seq<char>)
    requires
        line_words(line).len() == 0 || name != line_words(line)[0],
    ensures
        after_line(modules, line).contains_key(name) == modules.contains_key(name),
        modules.contains_key(name) ==> after_line(modules, line)[name] == modules[name],
{
}

/// Whether a text begins with another: the other becomes it with something put behind it.
pub open spec fn begins_with(s: Seq<char>, part: Seq<char>) -> bool {
    exists|rest: Seq<char>| s == #[trigger] (part + rest)
}

/// Whether a text finishes with another: the other becomes it with something put before it.
pub open spec fn finishes_with(s: Seq<char>, part: Seq<char>) -> bool {
    exists|rest: Seq<char>| s == #[trigger] (rest + part)
}

/// Whether an object file is the one of a C source file: the source file is called `stem.c`, in some
/// directory, and the object file `stem.o`. Where the source file is called just `.c`, that has no
/// extension, and the object file is `.c.o`.
pub open spec fn is_object_of(source: Seq<char>, object: Seq<char>) -> bool {
    exists|directory: Seq<char>, stem: Seq<char>|
        source == #[trigger] (directory + stem + ".c"@) && (directory.len() == 0 || directory.last() == '/')
            && !stem.contains('/') && object == if stem.len() == 0 {
            ".c.o"@
        } else {
            stem + ".o"@
        }
}

/// The words that name C source files.
pub open spec fn source_words(list: Seq<Seq<char>>) -> Seq<Seq<char>> {
    list.filter(|word: Seq<char>| finishes_with(word, ".c"@))
}

/// The words that ask for libraries.
pub open spec fn library_words(list: Seq<Seq<char>>) -> Seq<Seq<char>> {
    list.filter(|word: Seq<char>| begins_with(word, "-l"@) && !finishes_with(word, ".c"@))
}

/// Each word with the one that follows it.
pub open spec fn word_pairs(list: Seq<Seq<char>>) -> Seq<(Seq<char>, Seq<char>)> {
    Seq::new(list.len(), |i: int| (list[i], list[i + 1]))
}

/// The pairs of words that ask for frameworks.
pub open spec fn framework_pairs(list: Seq<Seq<char>>) -> Seq<(Seq<char>, Seq<char>)> {
    word_pairs(list).filter(|pair: (Seq<char>, Seq<char>)| pair.0 == "-framework"@)
}

/// Whether an entry says what the words say: the first word is the module; the source files have
/// their object files, one for one and in order; so have the words with `-l` what follows this in
/// them; and the words `-framework` the word behind them.
pub open spec fn says(entry: SetupModel, list: Seq<Seq<char>>) -> bool {
    &&& entry.module == list[0]
    &&& entry.object_filenames.len() == source_words(list).len()
    &&& forall|i: int|
        0 <= i < source_words(list).len() ==> is_object_of(
            #[trigger] source_words(list)[i],
            entry.object_filenames[i],
        )
    &&& entry.libraries.len() == library_words(list).len()
    &&& forall|i: int| 0 <= i < library_words(list).len() ==> "-l"@ + entry.libraries[i] == #[trigger] library_words(list)[i]
    &&& entry.frameworks.len() == framework_pairs(list).len()
    &&& forall|i: int|
        0 <= i < framework_pairs(list).len() ==> entry.frameworks[i] == (#[trigger] framework_pairs(list)[i]).1
}

/// A base name is what follows the last slash.
proof fn lemma_base_suffix(path: Seq<char>)
    ensures
        base_name(path).len() <= path.len(),
        path == path.take(path.len() - base_name(path).len()) + base_name(path),
        !base_name(path).contains('/'),
        base_name(path).len() < path.len() ==> path[path.len() - base_name(path).len() - 1] == '/',
    decreases path.len(),
{
    let base = base_name(path);
    if path.len() == 0 || path.last() == '/' {
        assert(path =~= path.take(path.len() as int) + base);
    } else {
        let rest = path.drop_last();
        let before = base_name(rest);
        lemma_base_suffix(rest);
        assert(path =~= rest.push(path.last()));
        assert(path.take(path.len() - base.len()) =~= rest.take(rest.len() - before.len()));
        assert(path =~= path.take(path.len() - base.len()) + base);
        assert forall|i: int| 0 <= i < base.len() implies base[i] != '/' by {
            if i < before.len() {
                assert(base[i] == before[i]);
                assert(before.contains(before[i]));
            }
        }
    }
}

proof fn lemma_object_of(word: Seq<char>)
    requires
        is_source(word),
    ensures
        is_object_of(word, object_name(word)),
{
    reveal_strlit(".c");
    reveal_strlit(".o");
    reveal_strlit(".c.o");
    lemma_source_base(word);
    lemma_base_suffix(word);
    let base = base_name(word);
    let directory = word.take(word.len() - base.len());
    let stem = base.take(base.len() - 2);
    assert(base =~= stem + ".c"@) by {
        assert(base.skip(base.len() - 2) == ".c"@);
        assert(base =~= stem + base.skip(base.len() - 2));
    }
    assert(word =~= directory + stem + ".c"@);
    assert forall|i: int| 0 <= i < stem.len() implies stem[i] != '/' by {
        assert(base[i] == stem[i]);
        assert(base.contains(base[i]));
    }
    if base == ".c"@ {
        assert(stem =~= Seq::empty());
        assert(".c"@ + ".o"@ =~= ".c.o"@);
    } else if stem.len() == 0 {
        assert(base =~= ".c"@);
    }
}

proof fn lemma_objects(list: Seq<Seq<char>>)
    ensures
        object_names(list).len() == source_words(list).len(),
        forall|i: int|
            0 <= i < source_words(list).len() ==> is_object_of(#[trigger] source_words(list)[i], object_names(list)[i]),
    decreases list.len(),
{
    reveal(Seq::filter);
    if list.len() > 0 {
        lemma_objects(list.drop_last());
        text::beginnings_and_endings(list.last(), ".c"@);
        if is_source(list.last()) {
            lemma_object_of(list.last());
        }
    }
}

proof fn lemma_libraries(list: Seq<Seq<char>>)
    ensures
        library_names(list).len() == library_words(list).len(),
        forall|i: int|
            0 <= i < library_words(list).len() ==> "-l"@ + library_names(list)[i] == #[trigger] library_words(list)[i],
    decreases list.len(),
{
    reveal(Seq::filter);
    reveal_strlit("-l");
    if list.len() > 0 {
        let word = list.last();
        lemma_libraries(list.drop_last());
        text::beginnings_and_endings(word, ".c"@);
        text::beginnings_and_endings(word, "-l"@);
        if text::starts_with(word, "-l"@) {
            assert(word =~= "-l"@ + word.skip(2));
        }
    }
}

proof fn lemma_frameworks(list: Seq<Seq<char>>, n: int)
    requires
        0 <= n <= list.len(),
    ensures
        ({
            let pairs = word_pairs(list).take(n).filter(|pair: (Seq<char>, Seq<char>)| pair.0 == "-framework"@);
            &&& framework_names(list, n).len() == pairs.len()
            &&& forall|i: int| 0 <= i < pairs.len() ==> framework_names(list, n)[i] == (#[trigger] pairs[i]).1
        }),
    decreases n,
{
    reveal(Seq::filter);
    if n > 0 {
        lemma_frameworks(list, n - 1);
        assert(word_pairs(list).take(n).drop_last() =~= word_pairs(list).take(n - 1));
        assert(word_pairs(list).take(n).last() == (list[n - 1], list[n]));
    }
}

/// A line with a module and more gives this module an entry that says what its words say, and changes
/// no other. A line with fewer words changes nothing. A number sign and what follows it do not count.
#[verifier::spinoff_prover]
#[verifier::rlimit(60)]
pub proof fn line_says(modules: Map<Seq<char>, SetupModel>, code: Seq<char>, comment: Seq<char>)
    requires
        !code.contains('#'),
    ensures
        line_words(code) == text::words(code),
        line_words(code + seq!['#'] + comment) == text::words(code),
        text::words(code).len() < 2 ==> after_line(modules, code) == modules,
        text::words(code).len() >= 2 ==> after_line(modules, code).contains_key(text::words(code)[0]) && says(
            after_line(modules, code)[text::words(code)[0]],
            text::words(code),
        ) && after_line(modules, code).remove(text::words(code)[0]) == modules.remove(text::words(code)[0]),
        after_line(modules, code + seq!['#'] + comment) == after_line(modules, code),
{
    let line = code + seq!['#'] + comment;
    let list = text::words(code);
    text::lemma_find_char(line, '#', 0);
    text::lemma_find_char(code, '#', 0);
    let at = text::find_char(line, '#', 0);
    assert(line[code.len() as int] == '#');
    if at < code.len() {
        assert(code[at] == '#');
    }
    assert(text::find_char(code, '#', 0) == code.len());
    assert(code_of(line) =~= code);
    assert(code_of(code) =~= code);
    if list.len() >= 2 {
        lemma_objects(list);
        lemma_libraries(list);
        lemma_frameworks(list, list.len() as int);
        assert(word_pairs(list).take(list.len() as int) =~= word_pairs(list));
        assert(after_line(modules, code).remove(list[0]) =~= modules.remove(list[0]));
    }
}

/// A line can be read exactly if each `-framework` in it is followed by a word, or if it is no more
/// than a module.
pub proof fn complete_lines(code: Seq<char>, comment: Seq<char>)
    requires
        !code.contains('#'),
    ensures
        is_complete(code) <==> (text::words(code).len() < 2 || forall|i: int|
            0 <= i < text::words(code).len() && (#[trigger] text::words(code)[i]) == "-framework"@ ==> i + 1 < text::words(
                code,
            ).len()),
        is_complete(code + seq!['#'] + comment) == is_complete(code),
{
    line_says(Map::empty(), code, comment);
    let list = text::words(code);
    if list.len() >= 2 {
        assert(list[list.len() - 1] == list.last());
    }
}

/// Whether a line is about a module.
pub open spec fn is_about(line: Seq<char>, module: Seq<char>) -> bool {
    line_words(line).len() >= 2 && line_words(line)[0] == module
}

/// Of several lines about a module the last one counts, alone. A module that no line is about stays
/// as it was.
#[verifier::spinoff_prover]
#[verifier::rlimit(60)]
pub proof fn last_line_counts(modules: Map<Seq<char>, SetupModel>, list: Seq<Seq<char>>, module: Seq<char>)
    ensures
        forall|i: int|
            0 <= i < list.len() && is_about(#[trigger] list[i], module) && (forall|j: int|
                i < j < list.len() ==> !is_about(#[trigger] list[j], module)) ==> after_lines(modules, list).contains_key(
                module,
            ) && after_lines(modules, list)[module] == after_line(Map::empty(), list[i])[module],
        (forall|i: int| 0 <= i < list.len() ==> !is_about(#[trigger] list[i], module)) ==> (after_lines(
            modules,
            list,
        ).contains_key(module) == modules.contains_key(module) && (modules.contains_key(module) ==> after_lines(
            modules,
            list,
        )[module] == modules[module])),
    decreases list.len(),
{
    if list.len() > 0 {
        let rest = list.drop_last();
        let last = list.len() - 1;
        last_line_counts(modules, rest, module);
        assert forall|i: int|
            0 <= i < list.len() && is_about(#[trigger] list[i], module) && (forall|j: int|
                i < j < list.len() ==> !is_about(#[trigger] list[j], module)) implies after_lines(modules, list).contains_key(
            module,
        ) && after_lines(modules, list)[module] == after_line(Map::empty(), list[i])[module] by {
            if i < last {
                assert(!is_about(list[last], module));
                assert(is_about(rest[i], module));
                assert forall|j: int| i < j < rest.len() implies !is_about(#[trigger] rest[j], module) by {
                    assert(rest[j] == list[j]);
                }
            }
        }
        if forall|i: int| 0 <= i < list.len() ==> !is_about(#[trigger] list[i], module) {
            assert forall|i: int| 0 <= i < rest.len() implies !is_about(#[trigger] rest[i], module) by {
                assert(rest[i] == list[i]);
            }
            assert(!is_about(list[last], module));
        }
    }
}

/// Lines that were encoded are readable, and decoding gives them back.
pub proof fn lines_are_decoded(list: Seq<Seq<char>>)
    ensures
        readable(list.map_values(|line: Seq<char>| utf8::encode_utf8(line))),
        decoded(list.map_values(|line: Seq<char>| utf8::encode_utf8(line))) == list,
{
    let raw = list.map_values(|line: Seq<char>| utf8::encode_utf8(line));
    assert forall|i: int| 0 <= i < raw.len() implies utf8::valid_utf8(#[trigger] raw[i]) && utf8::decode_utf8(raw[i])
        == list[i] by {
        utf8::encode_utf8_valid_utf8(list[i]);
        utf8::encode_utf8_decode_utf8(list[i]);
    }
    assert(decoded(raw) =~= list);
}

/// Of a `Setup.dist` file all lines are read but the first that begins with `PYTHONPATH=`.
pub proof fn dist_leaves_out_path(before: Seq<Seq<char>>, line: Seq<char>, after: Seq<Seq<char>>)
    requires
        forall|i: int| 0 <= i < before.len() ==> !begins_with(#[trigger] before[i], "PYTHONPATH="@),
        begins_with(line, "PYTHONPATH="@),
    ensures
        dist_lines(before) == before,
        dist_lines(before.push(line) + after) == before + after,
{
    let all = before.push(line) + after;
    let n = before.len() as int;
    lemma_start_line(before, 0);
    lemma_start_line(all, 0);
    let start = start_line(before, 0);
    if start < n {
        text::beginnings_and_endings(before[start], "PYTHONPATH="@);
    }
    text::beginnings_and_endings(line, "PYTHONPATH="@);
    assert(all[n] == line);
    let found = start_line(all, 0);
    if found < n {
        assert(all[found] == before[found]);
        text::beginnings_and_endings(before[found], "PYTHONPATH="@);
    }
    assert(found == n);
    assert(all.remove(n) =~= before + after);
}

/// Of a `Setup.local` file the lines in front of `*disabled*` are read, or all of them if there is
/// none, but for those that read `*static*`.
#[verifier::spinoff_prover]
#[verifier::rlimit(60)]
pub proof fn local_leaves_out_markers(before: Seq<Seq<u8>>, after: Seq<Seq<u8>>)
    requires
        forall|i: int| 0 <= i < before.len() ==> (#[trigger] before[i]) != utf8::encode_utf8("*disabled*"@),
    ensures
        enabled_lines(before) == before,
        enabled_lines(before.push(utf8::encode_utf8("*disabled*"@)) + after) == before,
        local_lines(before) == decoded(before).filter(|line: Seq<char>| line != "*static*"@),
        local_lines(before.push(utf8::encode_utf8("*disabled*"@)) + after) == decoded(before).filter(
            |line: Seq<char>| line != "*static*"@,
        ),
{
    let marker = utf8::encode_utf8("*disabled*"@);
    let all = before.push(marker) + after;
    lemma_disabled_marker();
    lemma_disabled_at(before, all, 0);
    assert(all[before.len() as int] == marker);
    assert(all.take(before.len() as int) =~= before);
    assert(before.take(before.len() as int) =~= before);
    lemma_static_filtered(decoded(before));
}

proof fn lemma_disabled_at(before: Seq<Seq<u8>>, all: Seq<Seq<u8>>, i: int)
    requires
        0 <= i <= before.len(),
        before.len() < all.len(),
        forall|k: int| 0 <= k < before.len() ==> all[k] == #[trigger] before[k],
        forall|k: int| 0 <= k < before.len() ==> (#[trigger] before[k]) != utf8::encode_utf8("*disabled*"@),
        all[before.len() as int] == utf8::encode_utf8("*disabled*"@),
        utf8::valid_utf8(utf8::encode_utf8("*disabled*"@)),
        utf8::decode_utf8(utf8::encode_utf8("*disabled*"@)) == "*disabled*"@,
    ensures
        disabled_line(before, i) == before.len(),
        disabled_line(all, i) == before.len(),
    decreases before.len() - i,
{
    if i < before.len() {
        lemma_disabled_at(before, all, i + 1);
        if utf8::valid_utf8(before[i]) {
            utf8::decode_utf8_encode_utf8(before[i]);
        }
    }
}

proof fn lemma_static_filtered(list: Seq<Seq<char>>)
    ensures
        without_static(list) == list.filter(|line: Seq<char>| line != "*static*"@),
    decreases list.len(),
{
    reveal(Seq::filter);
    if list.len() > 0 {
        lemma_static_filtered(list.drop_last());
    } else {
        assert(without_static(list) =~= list);
    }
}

/// Lines can all be read exactly if each of them can, and those of two lists exactly if those of
/// both can.
pub proof fn all_lines_complete(a: Seq<Seq<char>>, line: Seq<char>, b: Seq<Seq<char>>)
    ensures
        all_complete(Seq::empty()),
        all_complete(seq![line]) == is_complete(line),
        all_complete(a + b) == (all_complete(a) && all_complete(b)),
{
    let both = a + b;
    assert(seq![line][0] == line);
    if all_complete(both) {
        assert forall|i: int| 0 <= i < a.len() implies is_complete(#[trigger] a[i]) by {
            assert(both[i] == a[i]);
        }
        assert forall|i: int| 0 <= i < b.len() implies is_complete(#[trigger] b[i]) by {
            assert(both[a.len() + i] == b[i]);
        }
    }
}

/// Lines of bytes are decoded one for one, and are readable exactly if each of them is.
pub proof fn all_lines_readable(a: Seq<Seq<u8>>, line: Seq<u8>, b: Seq<Seq<u8>>)
    ensures
        readable(Seq::empty()),
        readable(seq![line]) == utf8::valid_utf8(line),
        readable(a + b) == (readable(a) && readable(b)),
        decoded(a + b) == decoded(a) + decoded(b),
        decoded(seq![line]) == seq![utf8::decode_utf8(line)],
{
    let both = a + b;
    assert(seq![line][0] == line);
    if readable(both) {
        assert forall|i: int| 0 <= i < a.len() implies utf8::valid_utf8(#[trigger] a[i]) by {
            assert(both[i] == a[i]);
        }
        assert forall|i: int| 0 <= i < b.len() implies utf8::valid_utf8(#[trigger] b[i]) by {
            assert(both[a.len() + i] == b[i]);
        }
    }
    assert(decoded(both) =~= decoded(a) + decoded(b));
    assert(decoded(seq![line]) =~= seq![utf8::decode_utf8(line)]);
}

} // verus!
