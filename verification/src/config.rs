//! The `config.c` and `config.c.in` files of CPython, which list the modules that are built into
//! the interpreter.

use vstd::prelude::*;

use crate::setup;
use crate::text;
use crate::text::{split_lines, utf8_text, TextMap};

verus! {

/// What declares the initialization function of a module.
pub const DECLARATION_PATTERN: &'static str = "extern PyObject\\* ([^\\(]+)\\(void\\);";

/// What gives a module its entry in the table of built-in modules.
pub const ENTRY_PATTERN: &'static str = "\\{\"([^\"]+)\", ([^\\}]+)\\},";

/// What a `config.c` file holds: the initialization functions that it declares, and the one of
/// each module.
#[derive(Debug)]
pub struct ConfigC {
    pub init_funcs: Vec<String>,
    pub init_mods: TextMap<String>,
}

/// Whether a declaration `extern PyObject* <name>(void);` stands at `i`.
pub open spec fn declares_at(s: Seq<char>, i: int) -> bool {
    let name = i + 17;
    let end = text::find_char(s, '(', name);
    &&& text::starts_with(s.skip(i), "extern PyObject* "@)
    &&& name < end < s.len()
    &&& text::starts_with(s.skip(end), "(void);"@)
}

/// The first place from `from` on where a declaration stands, or the end of the line.
pub open spec fn declaration_place(s: Seq<char>, from: int) -> int
    decreases s.len() - from,
{
    if from >= s.len() {
        s.len() as int
    } else if declares_at(s, from) {
        from
    } else {
        declaration_place(s, from + 1)
    }
}

/// The name of the function that a line declares, if it declares one.
pub open spec fn declared_name(s: Seq<char>) -> Option<Seq<char>> {
    let i = declaration_place(s, 0);
    if i < s.len() {
        Some(s.subrange(i + 17, text::find_char(s, '(', i + 17)))
    } else {
        None
    }
}

/// Whether an entry `{"<module>", <function>},` stands at `i`.
pub open spec fn enters_at(s: Seq<char>, i: int) -> bool {
    let module = i + 2;
    let quote = text::find_char(s, '"', module);
    let function = quote + 3;
    let end = text::find_char(s, '}', function);
    &&& text::starts_with(s.skip(i), "{\""@)
    &&& module < quote < s.len()
    &&& text::starts_with(s.skip(quote), "\", "@)
    &&& function < end < s.len()
    &&& text::starts_with(s.skip(end), "},"@)
}

/// The first place from `from` on where an entry stands, or the end of the line.
pub open spec fn entry_place(s: Seq<char>, from: int) -> int
    decreases s.len() - from,
{
    if from >= s.len() {
        s.len() as int
    } else if enters_at(s, from) {
        from
    } else {
        entry_place(s, from + 1)
    }
}

/// The module and the function that a line enters in the table, if it enters one.
pub open spec fn entered(s: Seq<char>) -> Option<(Seq<char>, Seq<char>)> {
    let i = entry_place(s, 0);
    let quote = text::find_char(s, '"', i + 2);
    if i < s.len() {
        Some((s.subrange(i + 2, quote), s.subrange(quote + 3, text::find_char(s, '}', quote + 3))))
    } else {
        None
    }
}

/// `regex::Regex::captures` gives the groups of the leftmost match of the pattern in the text, the
/// whole match being the first of them, or `None` where the pattern matches nowhere. Of the two
/// patterns here each group is a run of characters other than the one that must follow it, so a
/// place admits one match at most.
#[verifier::external_body]
fn matched_groups(pattern: &str, line: &str) -> (res: Option<Vec<String>>)
    requires
        pattern@ == DECLARATION_PATTERN@ || pattern@ == ENTRY_PATTERN@,
    ensures
        pattern@ == DECLARATION_PATTERN@ ==> match res {
            Some(groups) => groups@.len() == 2 && declared_name(line@) == Some(groups@[1]@),
            None => declared_name(line@) is None,
        },
        pattern@ == ENTRY_PATTERN@ ==> match res {
            Some(groups) => groups@.len() == 3 && entered(line@) == Some((groups@[1]@, groups@[2]@)),
            None => entered(line@) is None,
        },
{
    let pattern = regex::Regex::new(pattern).unwrap();
    let captures = pattern.captures(line)?;
    Some(captures.iter().map(|group| group.unwrap().as_str().to_string()).collect())
}

/// The functions that the lines declare, in order.
pub open spec fn declared_in(list: Seq<Seq<char>>) -> Seq<Seq<char>>
    decreases list.len(),
{
    if list.len() == 0 {
        Seq::empty()
    } else {
        match declared_name(list.last()) {
            Some(name) => declared_in(list.drop_last()).push(name),
            None => declared_in(list.drop_last()),
        }
    }
}

/// The function of each module that the lines enter; a later entry takes the place of an earlier
/// one.
pub open spec fn entered_in(list: Seq<Seq<char>>) -> Map<Seq<char>, Seq<char>>
    decreases list.len(),
{
    if list.len() == 0 {
        Map::empty()
    } else {
        match entered(list.last()) {
            Some((module, function)) => entered_in(list.drop_last()).insert(module, function),
            None => entered_in(list.drop_last()),
        }
    }
}

/// Whether [`parse_config_c`] can read the file.
pub fn can_parse_config_c(data: &Vec<u8>) -> (res: bool)
    ensures
        res == setup::readable(text::lines(data@)),
{
    let list = split_lines(data.as_slice());
    let ghost raw = text::lines(data@);
    let mut i: usize = 0;
    while i < list.len()
        invariant
            text::byte_views(list@) == raw,
            raw == text::lines(data@),
            i <= list.len(),
            forall|j: int| 0 <= j < i ==> vstd::utf8::valid_utf8(#[trigger] raw[j]),
        decreases list.len() - i,
    {
        assert(list@[i as int]@ == raw[i as int]);
        if utf8_text(list[i].clone()).is_none() {
            return false;
        }
        i += 1;
    }
    true
}

/// Reads the content of a `config.c` or `config.c.in` file.
pub fn parse_config_c(data: &Vec<u8>) -> (res: ConfigC)
    requires
        setup::readable(text::lines(data@)),
    ensures
        text::texts(res.init_funcs@) == declared_in(setup::decoded(text::lines(data@))),
        res.init_mods@ == entered_in(setup::decoded(text::lines(data@))),
{
    let list = split_lines(data.as_slice());
    let ghost raw = text::lines(data@);
    let ghost all = setup::decoded(raw);
    let mut init_funcs: Vec<String> = Vec::new();
    let mut init_mods: TextMap<String> = TextMap::new();
    assert(all.take(0) =~= Seq::empty());
    assert(text::texts(init_funcs@) =~= Seq::empty());
    let mut i: usize = 0;
    while i < list.len()
        invariant
            text::byte_views(list@) == raw,
            all == setup::decoded(raw),
            setup::readable(raw),
            i <= list.len(),
            text::texts(init_funcs@) == declared_in(all.take(i as int)),
            init_mods@ == entered_in(all.take(i as int)),
        decreases list.len() - i,
    {
        assert(vstd::utf8::valid_utf8(raw[i as int]));
        let line = utf8_text(list[i].clone()).unwrap();
        let ghost funcs = init_funcs@;
        proof {
            assert(line@ == all[i as int]);
            assert(all.take(i + 1).drop_last() =~= all.take(i as int));
            assert(all.take(i + 1).last() == line@);
        }
        match matched_groups(DECLARATION_PATTERN, line.as_str()) {
            Some(groups) => {
                init_funcs.push(groups[1].clone());
                assert(text::texts(init_funcs@) =~= text::texts(funcs).push(groups@[1]@));
            },
            None => {},
        }
        match matched_groups(ENTRY_PATTERN, line.as_str()) {
            Some(groups) => {
                init_mods.insert(groups[1].clone(), groups[2].clone());
            },
            None => {},
        }
        i += 1;
    }
    assert(all.take(i as int) =~= all);
    ConfigC { init_funcs, init_mods }
}

/// The text that declares a function.
pub open spec fn declaration_form(name: Seq<char>) -> Seq<char> {
    "extern PyObject* "@ + (name + "(void);"@)
}

/// The text that enters a module with its function in the table.
pub open spec fn entry_form(module: Seq<char>, function: Seq<char>) -> Seq<char> {
    "{\""@ + (module + ("\", "@ + (function + "},"@)))
}

/// Whether a text is not empty and `c` does not occur in it.
pub open spec fn is_free_of(text: Seq<char>, c: char) -> bool {
    text.len() > 0 && !text.contains(c)
}

proof fn lemma_declaration_place(s: Seq<char>, from: int)
    requires
        0 <= from <= s.len(),
    ensures
        from <= declaration_place(s, from) <= s.len(),
        declaration_place(s, from) < s.len() ==> declares_at(s, declaration_place(s, from)),
        forall|i: int| from <= i < declaration_place(s, from) ==> !declares_at(s, i),
    decreases s.len() - from,
{
    if from < s.len() && !declares_at(s, from) {
        lemma_declaration_place(s, from + 1);
    }
}

proof fn lemma_entry_place(s: Seq<char>, from: int)
    requires
        0 <= from <= s.len(),
    ensures
        from <= entry_place(s, from) <= s.len(),
        entry_place(s, from) < s.len() ==> enters_at(s, entry_place(s, from)),
        forall|i: int| from <= i < entry_place(s, from) ==> !enters_at(s, i),
    decreases s.len() - from,
{
    if from < s.len() && !enters_at(s, from) {
        lemma_entry_place(s, from + 1);
    }
}

/// A run without `c` that `c` follows ends at it.
proof fn lemma_run_ends(s: Seq<char>, c: char, from: int, end: int)
    requires
        0 <= from <= end < s.len(),
        forall|i: int| from <= i < end ==> s[i] != c,
        s[end] == c,
    ensures
        text::find_char(s, c, from) == end,
{
    text::lemma_find_char(s, c, from);
}

/// What a text holds behind others is what follows them.
proof fn lemma_parts(a: Seq<char>, b: Seq<char>, rest: Seq<char>)
    ensures
        (a + (b + rest)).skip(a.len() as int) == b + rest,
        text::starts_with((a + (b + rest)).skip(a.len() as int), b),
        (a + (b + rest)).subrange(a.len() as int, (a.len() + b.len()) as int) == b,
{
    assert((a + (b + rest)).skip(a.len() as int) =~= b + rest);
    assert((b + rest).take(b.len() as int) =~= b);
    assert((a + (b + rest)).subrange(a.len() as int, (a.len() + b.len()) as int) =~= b);
}

/// A line declares a function wherever in it the declaration stands: the first one, if there are
/// several.
#[verifier::spinoff_prover]
#[verifier::rlimit(60)]
pub proof fn declaration_is_found(before: Seq<char>, name: Seq<char>, after: Seq<char>)
    requires
        is_free_of(name, '('),
    ensures
        declared_name(before + declaration_form(name) + after) is Some,
        (forall|b: Seq<char>, n: Seq<char>, a: Seq<char>|
            is_free_of(n, '(') && before + declaration_form(name) + after == #[trigger] (b + declaration_form(n) + a)
                ==> b.len() >= before.len()) ==> declared_name(before + declaration_form(name) + after) == Some(name),
{
    reveal_strlit("extern PyObject* ");
    reveal_strlit("(void);");
    let head = "extern PyObject* "@;
    let tail = "(void);"@;
    let s = before + declaration_form(name) + after;
    let i = before.len() as int;
    let start = i + 17;
    let end = start + name.len();
    assert(s =~= before + (head + (name + (tail + after))));
    lemma_parts(before, head, name + (tail + after));
    assert(s =~= (before + head) + (name + (tail + after)));
    lemma_parts(before + head, name, tail + after);
    assert(s =~= (before + head + name) + (tail + after));
    lemma_parts(before + head + name, tail, after);
    assert forall|k: int| start <= k < end implies s[k] != '(' by {
        assert(s[k] == name[k - start]);
        assert(name.contains(name[k - start]));
    }
    assert(s[end] == tail[0]);
    lemma_run_ends(s, '(', start, end);
    assert(declares_at(s, i));
    lemma_declaration_place(s, 0);
    let place = declaration_place(s, 0);
    if place < i {
        declared_stands_in_line(s);
        let (b, a) = choose|b: Seq<char>, a: Seq<char>|
            #![trigger b + declaration_form(declared_name(s)->0) + a]
            s == b + declaration_form(declared_name(s)->0) + a && b.len() == place;
    }
}

/// What a line declares stands in it.
#[verifier::spinoff_prover]
#[verifier::rlimit(60)]
pub proof fn declared_stands_in_line(s: Seq<char>)
    ensures
        declared_name(s) matches Some(name) ==> is_free_of(name, '(') && exists|before: Seq<char>, after: Seq<char>|
            #![trigger before + declaration_form(name) + after]
            s == before + declaration_form(name) + after && before.len() == declaration_place(s, 0),
{
    reveal_strlit("extern PyObject* ");
    reveal_strlit("(void);");
    lemma_declaration_place(s, 0);
    if let Some(name) = declared_name(s) {
        let i = declaration_place(s, 0);
        let end = text::find_char(s, '(', i + 17);
        text::lemma_find_char(s, '(', i + 17);
        assert forall|k: int| 0 <= k < name.len() implies name[k] != '(' by {
            assert(name[k] == s[i + 17 + k]);
        }
        let before = s.take(i);
        let after = s.skip(end + 7);
        assert(s.skip(i).take(17) =~= s.subrange(i, i + 17));
        assert(s.skip(end).take(7) =~= s.subrange(end, end + 7));
        assert(s =~= s.take(i) + (s.subrange(i, i + 17) + (s.subrange(i + 17, end) + s.subrange(end, end + 7))) + s.skip(
            end + 7,
        ));
        assert(s == before + declaration_form(name) + after);
    }
}

/// Where the text of an entry stands, an entry stands.
#[verifier::spinoff_prover]
#[verifier::rlimit(60)]
proof fn lemma_entry_there(before: Seq<char>, module: Seq<char>, function: Seq<char>, after: Seq<char>)
    requires
        is_free_of(module, '"'),
        is_free_of(function, '}'),
    ensures
        ({
            let s = before + entry_form(module, function) + after;
            let i = before.len() as int;
            let quote = text::find_char(s, '"', i + 2);
            &&& i < s.len()
            &&& enters_at(s, i)
            &&& s.subrange(i + 2, quote) == module
            &&& s.subrange(quote + 3, text::find_char(s, '}', quote + 3)) == function
        }),
{
    reveal_strlit("{\"");
    reveal_strlit("\", ");
    reveal_strlit("},");
    let p1 = "{\""@;
    let p2 = "\", "@;
    let p3 = "},"@;
    let s = before + entry_form(module, function) + after;
    let i = before.len() as int;
    let quote = i + 2 + module.len();
    let start = quote + 3;
    let end = start + function.len();
    assert(s =~= before + (p1 + (module + (p2 + (function + (p3 + after))))));
    lemma_parts(before, p1, module + (p2 + (function + (p3 + after))));
    assert(s =~= (before + p1) + (module + (p2 + (function + (p3 + after)))));
    lemma_parts(before + p1, module, p2 + (function + (p3 + after)));
    assert(s =~= (before + p1 + module) + (p2 + (function + (p3 + after))));
    lemma_parts(before + p1 + module, p2, function + (p3 + after));
    assert(s =~= (before + p1 + module + p2) + (function + (p3 + after)));
    lemma_parts(before + p1 + module + p2, function, p3 + after);
    assert(s =~= (before + p1 + module + p2 + function) + (p3 + after));
    lemma_parts(before + p1 + module + p2 + function, p3, after);
    assert forall|k: int| i + 2 <= k < quote implies s[k] != '"' by {
        assert(s[k] == module[k - i - 2]);
        assert(module.contains(module[k - i - 2]));
    }
    assert(s[quote] == p2[0]);
    lemma_run_ends(s, '"', i + 2, quote);
    assert forall|k: int| start <= k < end implies s[k] != '}' by {
        assert(s[k] == function[k - start]);
        assert(function.contains(function[k - start]));
    }
    assert(s[end] == p3[0]);
    lemma_run_ends(s, '}', start, end);
}

/// A line enters a module in the table wherever in it the entry stands: the first one, if there are
/// several.
#[verifier::spinoff_prover]
#[verifier::rlimit(60)]
pub proof fn entry_is_found(before: Seq<char>, module: Seq<char>, function: Seq<char>, after: Seq<char>)
    requires
        is_free_of(module, '"'),
        is_free_of(function, '}'),
    ensures
        entered(before + entry_form(module, function) + after) is Some,
        (forall|b: Seq<char>, m: Seq<char>, f: Seq<char>, a: Seq<char>|
            is_free_of(m, '"') && is_free_of(f, '}') && before + entry_form(module, function) + after == #[trigger] (b
                + entry_form(m, f) + a) ==> b.len() >= before.len()) ==> entered(
            before + entry_form(module, function) + after,
        ) == Some((module, function)),
{
    let s = before + entry_form(module, function) + after;
    let i = before.len() as int;
    lemma_entry_there(before, module, function, after);
    lemma_entry_place(s, 0);
    let place = entry_place(s, 0);
    if place < i {
        entered_stands_in_line(s);
        let m = (entered(s)->0).0;
        let f = (entered(s)->0).1;
        let (b, a) = choose|b: Seq<char>, a: Seq<char>|
            #![trigger b + entry_form(m, f) + a]
            s == b + entry_form(m, f) + a && b.len() == place;
    }
}

/// What a line enters in the table stands in it.
#[verifier::spinoff_prover]
#[verifier::rlimit(60)]
pub proof fn entered_stands_in_line(s: Seq<char>)
    ensures
        entered(s) matches Some((module, function)) ==> is_free_of(module, '"') && is_free_of(function, '}') && exists|
            before: Seq<char>,
            after: Seq<char>,
        |
            #![trigger before + entry_form(module, function) + after]
            s == before + entry_form(module, function) + after && before.len() == entry_place(s, 0),
{
    reveal_strlit("{\"");
    reveal_strlit("\", ");
    reveal_strlit("},");
    lemma_entry_place(s, 0);
    if let Some((module, function)) = entered(s) {
        let i = entry_place(s, 0);
        let quote = text::find_char(s, '"', i + 2);
        let end = text::find_char(s, '}', quote + 3);
        text::lemma_find_char(s, '"', i + 2);
        text::lemma_find_char(s, '}', quote + 3);
        assert forall|k: int| 0 <= k < module.len() implies module[k] != '"' by {
            assert(module[k] == s[i + 2 + k]);
        }
        assert forall|k: int| 0 <= k < function.len() implies function[k] != '}' by {
            assert(function[k] == s[quote + 3 + k]);
        }
        let before = s.take(i);
        let after = s.skip(end + 2);
        assert(s.skip(i).take(2) =~= s.subrange(i, i + 2));
        assert(s.skip(quote).take(3) =~= s.subrange(quote, quote + 3));
        assert(s.skip(end).take(2) =~= s.subrange(end, end + 2));
        assert(s =~= s.take(i) + (s.subrange(i, i + 2) + (s.subrange(i + 2, quote) + (s.subrange(quote, quote + 3) + (
        s.subrange(quote + 3, end) + s.subrange(end, end + 2))))) + s.skip(end + 2));
        assert(s == before + entry_form(module, function) + after);
    }
}

/// The declared functions are those of the lines that declare one, in the order of the lines.
pub proof fn declarations_are_listed(list: Seq<Seq<char>>)
    ensures
        declared_in(list) == list.filter_map(|line: Seq<char>| declared_name(line)),
    decreases list.len(),
{
    if list.len() > 0 {
        declarations_are_listed(list.drop_last());
    }
}

/// Whether a line enters a module with a function in the table.
pub open spec fn enters(line: Seq<char>, module: Seq<char>, function: Seq<char>) -> bool {
    entered(line) == Some((module, function))
}

/// Whether a line enters a module in the table.
pub open spec fn enters_module(line: Seq<char>, module: Seq<char>) -> bool {
    exists|function: Seq<char>| enters(line, module, function)
}

/// Every line in which an entry stands gives its module a function: that of the last such line, if
/// there are several. Each module of the table comes from such a line.
#[verifier::spinoff_prover]
#[verifier::rlimit(60)]
pub proof fn entries_are_listed(list: Seq<Seq<char>>)
    ensures
        forall|i: int, module: Seq<char>, function: Seq<char>|
            0 <= i < list.len() && #[trigger] enters(list[i], module, function) && (forall|j: int|
                i < j < list.len() ==> !enters_module(#[trigger] list[j], module)) ==> entered_in(list).contains_key(module)
                && entered_in(list)[module] == function,
        forall|module: Seq<char>| #[trigger]
            entered_in(list).contains_key(module) ==> exists|i: int|
                0 <= i < list.len() && enters(#[trigger] list[i], module, entered_in(list)[module]),
    decreases list.len(),
{
    if list.len() > 0 {
        let rest = list.drop_last();
        let last = list.len() - 1;
        let all = entered_in(list);
        entries_are_listed(rest);
        assert forall|i: int, module: Seq<char>, function: Seq<char>|
            0 <= i < list.len() && #[trigger] enters(list[i], module, function) && (forall|j: int|
                i < j < list.len() ==> !enters_module(#[trigger] list[j], module)) implies all.contains_key(module)
            && all[module] == function by {
            if i < last {
                assert(enters(rest[i], module, function));
                assert(!enters_module(list[last], module));
                assert forall|j: int| i < j < rest.len() implies !enters_module(#[trigger] rest[j], module) by {
                    assert(rest[j] == list[j]);
                }
                if let Some((m, f)) = entered(list.last()) {
                    assert(enters(list[last], m, f));
                }
            }
        }
        assert forall|module: Seq<char>| #[trigger] all.contains_key(module) implies exists|i: int|
            0 <= i < list.len() && enters(#[trigger] list[i], module, all[module]) by {
            if enters(list[last], module, all[module]) {
            } else {
                if let Some((m, f)) = entered(list.last()) {
                    assert(m != module);
                }
                assert(entered_in(rest).contains_key(module));
                let i = choose|i: int|
                    0 <= i < rest.len() && enters(#[trigger] rest[i], module, entered_in(rest)[module]);
                assert(enters(list[i], module, all[module]));
            }
        }
    }
}

} // verus!
