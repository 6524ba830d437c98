//! Paths as text: parts separated by slashes, whatever separates them in the paths of the machine.
//!
//! Two texts name the same path when they have the same parts, so `a//b`, `a/./b` and `a/b/` are
//! one path.

use vstd::prelude::*;

use crate::order::{Ordered, Place};
use crate::sorted_map::{MapKey, SortedMap};
use crate::text::{chars_of, place_of_chars, position_of};
use crate::order;
use crate::text;

verus! {

/// One part of a path. The name of an ordinary part is a `String` in running code and a sequence
/// of characters in the model.
#[derive(Debug)]
pub enum PathPart<T> {
    /// The slash that begins an absolute path.
    Root,
    /// A dot that begins a relative path.
    Current,
    /// Two dots.
    Parent,
    /// Anything else.
    Name(T),
}

impl View for PathPart<String> {
    type V = PathPart<Seq<char>>;

    open spec fn view(&self) -> PathPart<Seq<char>> {
        match self {
            PathPart::Root => PathPart::Root,
            PathPart::Current => PathPart::Current,
            PathPart::Parent => PathPart::Parent,
            PathPart::Name(name) => PathPart::Name(name@),
        }
    }
}

/// Where a kind of part stands among the others.
pub open spec fn part_rank(part: PathPart<Seq<char>>) -> int {
    match part {
        PathPart::Root => 0,
        PathPart::Current => 1,
        PathPart::Parent => 2,
        PathPart::Name(_) => 3,
    }
}

impl Ordered for PathPart<Seq<char>> {
    open spec fn before(self, other: Self) -> bool {
        match (self, other) {
            (PathPart::Name(a), PathPart::Name(b)) => a.before(b),
            _ => part_rank(self) < part_rank(other),
        }
    }

    proof fn order_laws(a: Self, b: Self, c: Self) {
        if a is Name && b is Name {
            let z = if c is Name { c->Name_0 } else { Seq::empty() };
            Seq::<char>::order_laws(a->Name_0, b->Name_0, z);
        } else if a is Name {
            Seq::<char>::order_laws(a->Name_0, a->Name_0, a->Name_0);
        }
    }
}

/// The parts of the list as the model has them.
pub open spec fn part_views(list: Seq<PathPart<String>>) -> Seq<PathPart<Seq<char>>> {
    list.map_values(|p: PathPart<String>| p@)
}

/// The part that stands between two slashes, if it counts.
pub open spec fn part_of_piece(piece: Seq<char>) -> Seq<PathPart<Seq<char>>> {
    if piece.len() == 0 || piece == seq!['.'] {
        Seq::empty()
    } else if piece == seq!['.', '.'] {
        seq![PathPart::Parent]
    } else {
        seq![PathPart::Name(piece)]
    }
}

/// The parts of the pieces between slashes from `from` on.
pub open spec fn parts_from(path: Seq<char>, from: int) -> Seq<PathPart<Seq<char>>>
    decreases path.len() - from,
    when 0 <= from <= path.len()
    via parts_from_decreases
{
    let end = text::find_char(path, '/', from);
    let part = part_of_piece(path.subrange(from, end));
    if end >= path.len() {
        part
    } else {
        part + parts_from(path, end + 1)
    }
}

#[via_fn]
proof fn parts_from_decreases(path: Seq<char>, from: int) {
    text::lemma_find_char(path, '/', from);
}

/// What begins a path: its root, or a dot that stands alone before the first slash.
pub open spec fn path_head(path: Seq<char>) -> Seq<PathPart<Seq<char>>> {
    if path.len() > 0 && path[0] == '/' {
        seq![PathPart::Root]
    } else if path.len() > 0 && path[0] == '.' && (path.len() == 1 || path[1] == '/') {
        seq![PathPart::Current]
    } else {
        Seq::empty()
    }
}

/// The parts of a path.
pub open spec fn path_parts(path: Seq<char>) -> Seq<PathPart<Seq<char>>> {
    path_head(path) + parts_from(path, 0)
}

/// The parts of a path, in order.
pub fn parts_of(path: &str) -> (res: Vec<PathPart<String>>)
    ensures
        part_views(res@) == path_parts(path@),
{
    let chars = chars_of(path);
    let mut res: Vec<PathPart<String>> = Vec::new();
    if chars.len() > 0 && chars[0] == '/' {
        res.push(PathPart::Root);
    } else if chars.len() > 0 && chars[0] == '.' && (chars.len() == 1 || chars[1] == '/') {
        res.push(PathPart::Current);
    }
    assert(part_views(res@) =~= path_head(path@));
    let mut i: usize = 0;
    loop
        invariant_except_break
            part_views(res@) + parts_from(path@, i as int) == path_parts(path@),
        invariant
            chars@ == path@,
            i <= chars.len(),
        ensures
            part_views(res@) == path_parts(path@),
        decreases chars.len() - i,
    {
        let ghost done = part_views(res@);
        let end: usize = position_of(&chars, '/', i);
        let ghost piece = path@.subrange(i as int, end as int);
        if end == i || (end - i == 1 && chars[i] == '.') {
            proof {
                if end != i {
                    assert(piece =~= seq!['.']);
                }
            }
        } else if end - i == 2 && chars[i] == '.' && chars[i + 1] == '.' {
            assert(piece =~= seq!['.', '.']);
            res.push(PathPart::Parent);
        } else {
            proof {
                assert(piece.len() == end - i);
                if piece == seq!['.'] {
                    assert(piece[0] == chars@[i as int]);
                }
                if piece == seq!['.', '.'] {
                    assert(piece[0] == chars@[i as int] && piece[1] == chars@[i + 1]);
                }
            }
            res.push(PathPart::Name(path.substring_char(i, end).to_owned()));
        }
        assert(part_views(res@) =~= done + part_of_piece(piece));
        if end == chars.len() {
            assert(parts_from(path@, i as int) =~= part_of_piece(piece));
            break;
        }
        proof {
            assert(parts_from(path@, i as int) == part_of_piece(piece) + parts_from(path@, end + 1));
            assert(part_views(res@) + parts_from(path@, end + 1) =~= done + parts_from(path@, i as int));
        }
        i = end + 1;
    }
    res
}

/// How one part stands to another.
fn place_of_part(a: &PathPart<String>, b: &PathPart<String>) -> (res: Place)
    ensures
        order::placed(a@, b@, res),
{
    match (a, b) {
        (PathPart::Name(x), PathPart::Name(y)) => {
            let x = chars_of(x.as_str());
            let y = chars_of(y.as_str());
            place_of_chars(&x, &y)
        },
        (PathPart::Root, PathPart::Root) => Place::Same,
        (PathPart::Current, PathPart::Current) => Place::Same,
        (PathPart::Parent, PathPart::Parent) => Place::Same,
        (PathPart::Root, _) => Place::Before,
        (_, PathPart::Root) => Place::After,
        (PathPart::Current, _) => Place::Before,
        (_, PathPart::Current) => Place::After,
        (PathPart::Parent, _) => Place::Before,
        (_, PathPart::Parent) => Place::After,
    }
}

/// A path that is compared by its parts.
#[derive(Debug)]
pub struct PathText {
    pub text: String,
}

impl View for PathText {
    type V = Seq<PathPart<Seq<char>>>;

    open spec fn view(&self) -> Seq<PathPart<Seq<char>>> {
        path_parts(self.text@)
    }
}

/// A map keyed by path, in the order of the parts.
pub type PathMap<V> = SortedMap<PathText, V>;

/// How each path of a map is spelled, under its parts.
pub open spec fn key_texts<V: View>(map: PathMap<V>) -> Map<Seq<PathPart<Seq<char>>>, Seq<char>> {
    map.keys().map_values(|key: PathText| key.text@)
}

impl MapKey for PathText {
    fn place(&self, other: &PathText) -> (res: Place) {
        let a = parts_of(self.text.as_str());
        let b = parts_of(other.text.as_str());
        let ghost x = part_views(a@);
        let ghost y = part_views(b@);
        let mut i: usize = 0;
        loop
            invariant
                x == part_views(a@),
                y == part_views(b@),
                x == self@,
                y == other@,
                i <= a.len(),
                i <= b.len(),
                x.take(i as int) == y.take(i as int),
            decreases a.len() - i,
        {
            proof {
                order::lexicographic_skips_common(x, y, i as int);
                order::lexicographic_skips_common(y, x, i as int);
                reveal_with_fuel(order::lexicographic, 2);
            }
            if i == a.len() && i == b.len() {
                assert(x =~= x.take(i as int));
                assert(y =~= y.take(i as int));
                return Place::Same;
            }
            if i == a.len() {
                return Place::Before;
            }
            if i == b.len() {
                return Place::After;
            }
            proof {
                assert(x.skip(i as int)[0] == a@[i as int]@);
                assert(y.skip(i as int)[0] == b@[i as int]@);
                <PathPart<Seq<char>> as Ordered>::order_laws(a@[i as int]@, b@[i as int]@, a@[i as int]@);
            }
            match place_of_part(&a[i], &b[i]) {
                Place::Before => {
                    return Place::Before;
                },
                Place::After => {
                    return Place::After;
                },
                Place::Same => {
                    assert(x.take(i + 1) =~= x.take(i as int).push(x[i as int]));
                    assert(y.take(i + 1) =~= y.take(i as int).push(y[i as int]));
                    i += 1;
                },
            }
        }
    }
}

/// The path `path` as seen from the directory `base`: an absolute path stays as it is, and any
/// other is put behind `base`, with a slash between them unless `base` is empty or ends with one.
pub open spec fn joined(base: Seq<char>, path: Seq<char>) -> Seq<char> {
    if path.len() > 0 && path[0] == '/' {
        path
    } else if base.len() == 0 || base.last() == '/' {
        base + path
    } else {
        base + seq!['/'] + path
    }
}

/// The path `path` as seen from the directory `base`.
pub fn join_path(base: &str, path: &str) -> (res: String)
    ensures
        res@ == joined(base@, path@),
{
    let b = chars_of(base);
    let p = chars_of(path);
    if p.len() > 0 && p[0] == '/' {
        return path.to_owned();
    }
    let mut res = base.to_owned();
    if b.len() > 0 && b[b.len() - 1] != '/' {
        proof {
            reveal_strlit("/");
        }
        res.append("/");
        assert("/"@ =~= seq!['/']);
    }
    res.append(path);
    res
}

/// The text of a part.
pub open spec fn part_text(part: PathPart<Seq<char>>) -> Seq<char> {
    match part {
        PathPart::Root => seq!['/'],
        PathPart::Current => seq!['.'],
        PathPart::Parent => seq!['.', '.'],
        PathPart::Name(name) => name,
    }
}

/// The text of a part.
pub fn text_of_part(part: &PathPart<String>) -> (res: String)
    ensures
        res@ == part_text(part@),
{
    proof {
        reveal_strlit("/");
        reveal_strlit(".");
        reveal_strlit("..");
    }
    match part {
        PathPart::Root => {
            assert("/"@ =~= seq!['/']);
            "/".to_owned()
        },
        PathPart::Current => {
            assert("."@ =~= seq!['.']);
            ".".to_owned()
        },
        PathPart::Parent => {
            assert(".."@ =~= seq!['.', '.']);
            "..".to_owned()
        },
        PathPart::Name(name) => name.clone(),
    }
}

/// The texts of a list, one after the other, with `separator` between two of them.
pub open spec fn separated(list: Seq<Seq<char>>, separator: Seq<char>) -> Seq<char>
    decreases list.len(),
{
    if list.len() == 0 {
        Seq::empty()
    } else if list.len() == 1 {
        list[0]
    } else {
        list[0] + separator + separated(list.drop_first(), separator)
    }
}

/// `itertools::join` writes the items one after the other, with the separator between two of them.
#[verifier::external_body]
pub(crate) fn join_texts(list: &Vec<String>, separator: &str) -> (res: String)
    ensures
        res@ == separated(text::texts(list@), separator@),
{
    itertools::join(list, separator)
}

/// Whether the path `path` lies in the directory `base`, by their parts.
pub open spec fn lies_in(base: Seq<char>, path: Seq<char>) -> bool {
    let b = path_parts(base);
    let p = path_parts(path);
    b.len() < p.len() && p.take(b.len() as int) == b
}

/// Whether the path `path` lies in the directory `base`.
pub fn is_in(base: &str, path: &str) -> (res: bool)
    ensures
        res == lies_in(base@, path@),
{
    let b = parts_of(base);
    let p = parts_of(path);
    let ghost x = part_views(b@);
    let ghost y = part_views(p@);
    if b.len() >= p.len() {
        return false;
    }
    let mut i: usize = 0;
    while i < b.len()
        invariant
            x == part_views(b@),
            y == part_views(p@),
            x == path_parts(base@),
            y == path_parts(path@),
            b.len() < p.len(),
            i <= b.len(),
            forall|j: int| 0 <= j < i ==> x[j] == y[j],
        decreases b.len() - i,
    {
        match place_of_part(&b[i], &p[i]) {
            Place::Same => {},
            _ => {
                proof {
                    <PathPart<Seq<char>> as Ordered>::order_laws(x[i as int], y[i as int], x[i as int]);
                    assert(x[i as int] == b@[i as int]@ && y[i as int] == p@[i as int]@);
                    assert(y.take(x.len() as int)[i as int] != x[i as int]);
                }
                return false;
            },
        }
        i += 1;
    }
    assert(y.take(x.len() as int) =~= x);
    true
}

/// The texts of the parts of `path` behind those of `base`.
pub open spec fn relative_texts(base: Seq<char>, path: Seq<char>) -> Seq<Seq<char>> {
    path_parts(path).skip(path_parts(base).len() as int).map_values(|p: PathPart<Seq<char>>| part_text(p))
}

/// What a text holds behind another is found there too.
proof fn lemma_parts_behind(before: Seq<char>, path: Seq<char>, from: int)
    requires
        0 <= from <= path.len(),
    ensures
        parts_from(before + path, before.len() + from) == parts_from(path, from),
    decreases path.len() - from,
{
    let whole = before + path;
    let shift = before.len() as int;
    let end = text::find_char(path, '/', from);
    let found = text::find_char(whole, '/', shift + from);
    text::lemma_find_char(path, '/', from);
    text::lemma_find_char(whole, '/', shift + from);
    assert(found == shift + end) by {
        if found < shift + end {
            assert(path[found - shift] == whole[found]);
        }
        if shift + end < found {
            assert(whole[shift + end] == path[end]);
        }
    }
    assert(whole.subrange(shift + from, found) =~= path.subrange(from, end));
    if end < path.len() {
        lemma_parts_behind(before, path, end + 1);
    }
}

/// A slash ends a part: the parts before it are those of the text before it.
proof fn lemma_parts_split(base: Seq<char>, path: Seq<char>, from: int)
    requires
        0 <= from <= base.len(),
    ensures
        parts_from(base + seq!['/'] + path, from) == parts_from(base, from) + parts_from(path, 0),
    decreases base.len() - from,
{
    let whole = base + seq!['/'] + path;
    let end = text::find_char(base, '/', from);
    let found = text::find_char(whole, '/', from);
    text::lemma_find_char(base, '/', from);
    text::lemma_find_char(whole, '/', from);
    assert(found == end) by {
        if found < end {
            assert(base[found] == whole[found]);
        }
        if end < found {
            assert(whole[end] == '/');
        }
    }
    assert(whole.subrange(from, end) =~= base.subrange(from, end));
    if end < base.len() {
        lemma_parts_split(base, path, end + 1);
        assert(parts_from(whole, from) =~= parts_from(base, from) + parts_from(path, 0));
    } else {
        assert(whole =~= (base + seq!['/']) + path);
        lemma_parts_behind(base + seq!['/'], path, 0);
        assert(parts_from(whole, from) =~= parts_from(base, from) + parts_from(path, 0));
    }
}

/// A relative path that is joined to a directory has the directory's parts and then its own. So it
/// lies in the directory, if it has a part.
pub proof fn joined_lies_in(base: Seq<char>, path: Seq<char>)
    requires
        base.len() > 0,
        path.len() == 0 || path[0] != '/',
    ensures
        path_parts(joined(base, path)) == path_parts(base) + parts_from(path, 0),
        parts_from(path, 0).len() > 0 ==> lies_in(base, joined(base, path)),
{
    let whole = joined(base, path);
    if base.last() == '/' {
        let cut = base.drop_last();
        assert(base =~= cut + seq!['/'] + Seq::empty());
        assert(whole =~= cut + seq!['/'] + path);
        lemma_parts_split(cut, Seq::empty(), 0);
        lemma_parts_split(cut, path, 0);
        let nothing: Seq<PathPart<Seq<char>>> = parts_from(Seq::empty(), 0);
        assert(nothing =~= Seq::empty());
        assert(parts_from(base, 0) =~= parts_from(cut, 0));
    } else {
        lemma_parts_split(base, path, 0);
    }
    assert(path_head(whole) == path_head(base)) by {
        assert(whole[0] == base[0]);
        if base.len() > 1 {
            assert(whole[1] == base[1]);
        }
    }
    assert(path_parts(whole) =~= path_parts(base) + parts_from(path, 0));
    assert(path_parts(whole).take(path_parts(base).len() as int) =~= path_parts(base));
}

/// A path with a slash at its beginning stays as it is wherever it is seen from. Any other is put
/// behind the directory, with one slash more than the directory ends with, unless that ends with a
/// slash or is empty.
pub proof fn joined_paths(base: Seq<char>, path: Seq<char>)
    ensures
        joined(base, seq!['/'] + path) == seq!['/'] + path,
        path.len() == 0 || path[0] != '/' ==> joined(Seq::empty(), path) == path,
        path.len() == 0 || path[0] != '/' ==> joined(base + seq!['/'], path) == base + seq!['/'] + path,
        (path.len() == 0 || path[0] != '/') && base.len() > 0 && base.last() != '/' ==> joined(base, path) == base + seq![
            '/',
        ] + path,
{
    assert(Seq::<char>::empty() + path =~= path);
}

/// Whether a text is the name of something in a directory: there is something in it, but no slash,
/// and it is not a dot.
pub open spec fn is_entry_name(name: Seq<char>) -> bool {
    name.len() > 0 && !name.contains('/') && name != seq!['.']
}

/// Names with slashes between them.
pub open spec fn slashed(names: Seq<Seq<char>>) -> Seq<char>
    decreases names.len(),
{
    if names.len() == 0 {
        Seq::empty()
    } else if names.len() == 1 {
        names[0]
    } else {
        names[0] + seq!['/'] + slashed(names.drop_first())
    }
}

/// A name without a slash is one piece.
proof fn lemma_one_piece(name: Seq<char>)
    requires
        !name.contains('/'),
    ensures
        parts_from(name, 0) == part_of_piece(name),
{
    text::lemma_find_char(name, '/', 0);
    let end = text::find_char(name, '/', 0);
    if end < name.len() {
        assert(name.contains(name[end]));
    }
    assert(name.subrange(0, end) =~= name);
}

/// The parts of names with slashes between them are those names, one for one.
#[verifier::spinoff_prover]
#[verifier::rlimit(60)]
pub proof fn names_are_parts(names: Seq<Seq<char>>)
    requires
        forall|i: int| 0 <= i < names.len() ==> is_entry_name(#[trigger] names[i]),
    ensures
        parts_from(slashed(names), 0).len() == names.len(),
        forall|i: int|
            0 <= i < names.len() ==> (#[trigger] parts_from(slashed(names), 0)[i]) == if names[i] == seq!['.', '.'] {
                PathPart::Parent
            } else {
                PathPart::Name(names[i])
            },
        path_parts(slashed(names)) == parts_from(slashed(names), 0),
        path_parts(seq!['/'] + slashed(names)) == seq![PathPart::Root] + parts_from(slashed(names), 0),
    decreases names.len(),
{
    let all = slashed(names);
    if names.len() == 0 {
        lemma_one_piece(all);
    } else {
        let name = names[0];
        lemma_one_piece(name);
        assert(name[0] != '/') by {
            assert(name.contains(name[0]));
        }
        if name.len() == 1 && name[0] == '.' {
            assert(name =~= seq!['.']);
        }
        if name.len() > 1 {
            assert(name.contains(name[1]));
        }
        if names.len() > 1 {
            let rest = names.drop_first();
            assert forall|i: int| 0 <= i < rest.len() implies is_entry_name(#[trigger] rest[i]) by {
                assert(rest[i] == names[i + 1]);
            }
            names_are_parts(rest);
            lemma_parts_split(name, slashed(rest), 0);
            assert forall|i: int| 0 <= i < names.len() implies (#[trigger] parts_from(all, 0)[i]) == if names[i] == seq![
                '.',
                '.',
            ] {
                PathPart::Parent
            } else {
                PathPart::Name(names[i])
            } by {
                if i > 0 {
                    assert(rest[i - 1] == names[i]);
                }
            }
        }
        assert(path_head(all) =~= Seq::empty());
    }
    assert(path_parts(all) =~= parts_from(all, 0));
    let rooted = seq!['/'] + all;
    lemma_parts_split(Seq::empty(), all, 0);
    lemma_one_piece(Seq::empty());
    assert(Seq::<char>::empty() + seq!['/'] + all =~= rooted);
    assert(parts_from(rooted, 0) =~= parts_from(all, 0));
    assert(path_parts(rooted) =~= seq![PathPart::Root] + parts_from(all, 0));
}

/// How often a slash is repeated, whether a dot stands between two, and whether one stands at the
/// end, makes no other path.
#[verifier::spinoff_prover]
#[verifier::rlimit(60)]
pub proof fn spellings_of_a_path(a: Seq<char>, b: Seq<char>)
    requires
        a.len() > 0,
    ensures
        path_parts(a + seq!['/'] + (seq!['/'] + b)) == path_parts(a + seq!['/'] + b),
        path_parts(a + seq!['/'] + (seq!['.', '/'] + b)) == path_parts(a + seq!['/'] + b),
        path_parts(a + seq!['/']) == path_parts(a),
{
    let nothing: Seq<char> = Seq::empty();
    let dot = seq!['.'];
    lemma_one_piece(nothing);
    lemma_one_piece(dot);
    lemma_parts_split(a, b, 0);
    lemma_parts_split(a, seq!['/'] + b, 0);
    lemma_parts_split(nothing, b, 0);
    assert(nothing + seq!['/'] + b =~= seq!['/'] + b);
    lemma_parts_split(a, seq!['.', '/'] + b, 0);
    lemma_parts_split(dot, b, 0);
    assert(dot + seq!['/'] + b =~= seq!['.', '/'] + b);
    lemma_parts_split(a, nothing, 0);
    assert(a + seq!['/'] + nothing =~= a + seq!['/']);
    assert(parts_from(a, 0) + parts_from(nothing, 0) =~= parts_from(a, 0));
    assert(parts_from(nothing, 0) + parts_from(b, 0) =~= parts_from(b, 0));
    let first = a + seq!['/'] + b;
    let second = a + seq!['/'] + (seq!['/'] + b);
    let third = a + seq!['/'] + (seq!['.', '/'] + b);
    let fourth = a + seq!['/'];
    assert(first[0] == a[0] && second[0] == a[0] && third[0] == a[0] && fourth[0] == a[0]);
    if a.len() > 1 {
        assert(first[1] == a[1] && second[1] == a[1] && third[1] == a[1] && fourth[1] == a[1]);
    } else {
        assert(first[1] == '/' && second[1] == '/' && third[1] == '/' && fourth[1] == '/');
    }
}

/// A path lies in a directory exactly if its parts are those of the directory and more.
pub proof fn lies_in_by_parts(base: Seq<char>, path: Seq<char>)
    ensures
        lies_in(base, path) <==> exists|more: Seq<PathPart<Seq<char>>>|
            more.len() > 0 && path_parts(path) == #[trigger] (path_parts(base) + more),
{
    let b = path_parts(base);
    let p = path_parts(path);
    if lies_in(base, path) {
        let more = p.skip(b.len() as int);
        assert(p =~= b + more);
    }
    if exists|more: Seq<PathPart<Seq<char>>>| more.len() > 0 && p == #[trigger] (b + more) {
        let more = choose|more: Seq<PathPart<Seq<char>>>| more.len() > 0 && p == #[trigger] (b + more);
        assert((b + more).take(b.len() as int) =~= b);
    }
}

/// Joining names puts slashes between them.
pub proof fn separated_by_slashes(names: Seq<Seq<char>>)
    ensures
        separated(names, "/"@) == slashed(names),
    decreases names.len(),
{
    reveal_strlit("/");
    assert("/"@ =~= seq!['/']);
    if names.len() > 1 {
        separated_by_slashes(names.drop_first());
    }
}

/// The texts of the parts behind a directory are the names that were put behind it.
#[verifier::spinoff_prover]
#[verifier::rlimit(60)]
pub proof fn names_below(base: Seq<char>, names: Seq<Seq<char>>)
    requires
        base.len() > 0,
        forall|i: int| 0 <= i < names.len() ==> is_entry_name(#[trigger] names[i]),
    ensures
        relative_texts(base, joined(base, slashed(names))) == names,
        names.len() > 0 ==> lies_in(base, joined(base, slashed(names))),
{
    let path = slashed(names);
    names_are_parts(names);
    if path.len() > 0 {
        assert(path_head(path).len() == 0) by {
            assert(path_parts(path).len() == path_head(path).len() + parts_from(path, 0).len());
        }
    }
    joined_lies_in(base, path);
    let more = path_parts(joined(base, path)).skip(path_parts(base).len() as int);
    assert(more =~= parts_from(path, 0));
    assert forall|i: int| 0 <= i < names.len() implies part_text(#[trigger] more[i]) == names[i] by {
        assert(parts_from(path, 0)[i] == more[i]);
    }
    assert(relative_texts(base, joined(base, path)) =~= names);
}

/// Absolute paths come before those that begin with a dot, these before those that begin with two
/// dots, and these before all others. Where two paths have the same parts at first, the first part in
/// which they differ decides, names by their texts, and a directory comes before what lies in it.
pub proof fn order_of_paths(common: Seq<PathPart<Seq<char>>>, a: Seq<char>, b: Seq<char>, more: Seq<PathPart<Seq<char>>>)
    requires
        a.before(b),
    ensures
        common.push(PathPart::Root).before(common.push(PathPart::Current)),
        common.push(PathPart::Current).before(common.push(PathPart::Parent)),
        common.push(PathPart::Parent).before(common.push(PathPart::Name(a))),
        (common.push(PathPart::Name(a)) + more).before(common.push(PathPart::Name(b))),
        common.push(PathPart::Name(a)).before(common.push(PathPart::Name(b)) + more),
        more.len() > 0 ==> common.before(common + more),
{
    let n = common.len() as int;
    Seq::<char>::order_laws(a, b, a);
    lemma_parts_order(common, seq![PathPart::Root], seq![PathPart::Current]);
    lemma_parts_order(common, seq![PathPart::Current], seq![PathPart::Parent]);
    lemma_parts_order(common, seq![PathPart::Parent], seq![PathPart::Name(a)]);
    lemma_parts_order(common, seq![PathPart::Name(a)] + more, seq![PathPart::Name(b)]);
    lemma_parts_order(common, seq![PathPart::Name(a)], seq![PathPart::Name(b)] + more);
    assert(common + seq![PathPart::Root] =~= common.push(PathPart::Root));
    assert(common + seq![PathPart::Current] =~= common.push(PathPart::Current));
    assert(common + seq![PathPart::Parent] =~= common.push(PathPart::Parent));
    assert(common + seq![PathPart::Name(a)] =~= common.push(PathPart::Name(a)));
    assert(common + seq![PathPart::Name(b)] =~= common.push(PathPart::Name(b)));
    assert(common + (seq![PathPart::Name(a)] + more) =~= common.push(PathPart::Name(a)) + more);
    assert(common + (seq![PathPart::Name(b)] + more) =~= common.push(PathPart::Name(b)) + more);
    if more.len() > 0 {
        let longer = common + more;
        assert(longer.take(n) =~= common.take(n));
        order::lexicographic_skips_common(common, longer, n);
    }
}

proof fn lemma_parts_order(common: Seq<PathPart<Seq<char>>>, a: Seq<PathPart<Seq<char>>>, b: Seq<PathPart<Seq<char>>>)
    requires
        a.len() > 0,
        b.len() > 0,
        a[0] != b[0],
        a[0].before(b[0]),
    ensures
        (common + a).before(common + b),
{
    let n = common.len() as int;
    let x = common + a;
    let y = common + b;
    assert(x.take(n) =~= common);
    assert(y.take(n) =~= common);
    assert(x.skip(n) =~= a);
    assert(y.skip(n) =~= b);
    order::lexicographic_skips_common(x, y, n);
}

} // verus!
