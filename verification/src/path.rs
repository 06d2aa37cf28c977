//! Slash-separated paths.
//!
//! A path is a piece of text. `/` separates its pieces, and a `/` in front makes
//! it absolute. A piece counts as a component unless it is empty, or is `.` and
//! does not stand at the very beginning: `a//b/./c` has the components `a`, `b`
//! and `c`, and `./a` has the components `.` and `a`. Two texts name the same
//! path when both or neither are absolute and their components agree. Paths are read
//! so on every system: drive letters and `\` have no meaning of their own here.

use vstd::prelude::*;

use crate::text::chars_of;

verus! {

/// Whether `path` starts at the root.
pub open spec fn is_rooted(path: Seq<char>) -> bool {
    path.len() > 0 && path[0] == '/'
}

/// The index of the first `/` of `path` at or behind `from`, or the length of
/// `path` where there is none.
pub open spec fn piece_end(path: Seq<char>, from: int) -> int
    decreases path.len() - from,
{
    if from >= path.len() {
        path.len() as int
    } else if path[from] == '/' {
        from
    } else {
        piece_end(path, from + 1)
    }
}

pub proof fn lemma_piece_end(path: Seq<char>, from: int)
    requires
        from <= path.len(),
    ensures
        from <= piece_end(path, from) <= path.len(),
        piece_end(path, from) < path.len() ==> path[piece_end(path, from)] == '/',
        forall|k: int| from <= k < piece_end(path, from) ==> path[k] != '/',
    decreases path.len() - from,
{
    if from < path.len() && path[from] != '/' {
        lemma_piece_end(path, from + 1);
    }
}

/// Whether the piece of `path` from `start` up to `end` is a component.
pub open spec fn is_component(path: Seq<char>, start: int, end: int) -> bool {
    &&& start < end
    &&& start == 0 || !(end == start + 1 && path[start] == '.')
}

/// The places of the components of `path` whose pieces start at or behind `from`:
/// the index of the first character of each, and the index behind its last one.
pub open spec fn spans_from(path: Seq<char>, from: int) -> Seq<(int, int)>
    decreases path.len() + 1 - from,
{
    if from >= path.len() {
        Seq::empty()
    } else {
        let end = piece_end(path, from);
        proof {
            lemma_piece_end(path, from);
        }
        let first = if is_component(path, from, end) {
            seq![(from, end)]
        } else {
            Seq::empty()
        };
        first + spans_from(path, end + 1)
    }
}

/// The places of the components of `path`.
pub open spec fn spans(path: Seq<char>) -> Seq<(int, int)> {
    spans_from(path, 0)
}

/// The components of `path`, from the first to the last.
pub open spec fn components(path: Seq<char>) -> Seq<Seq<char>> {
    spans(path).map_values(|span: (int, int)| path.subrange(span.0, span.1))
}

/// Whether two texts name the same path.
pub open spec fn same_path(a: Seq<char>, b: Seq<char>) -> bool {
    is_rooted(a) == is_rooted(b) && components(a) == components(b)
}

/// `names` with a `/` between each and the next.
pub open spec fn joined(names: Seq<Seq<char>>) -> Seq<char>
    decreases names.len(),
{
    if names.len() == 0 {
        Seq::empty()
    } else if names.len() == 1 {
        names[0]
    } else {
        names[0] + seq!['/'] + joined(names.drop_first())
    }
}

/// The text for the path that holds its components and nothing besides.
pub open spec fn normal_form(path: Seq<char>) -> Seq<char> {
    if is_rooted(path) {
        seq!['/'] + joined(components(path))
    } else {
        joined(components(path))
    }
}

/// The path without its last component. None where it has no component.
pub open spec fn parent_of(path: Seq<char>) -> Option<Seq<char>> {
    let places = spans(path);
    if places.len() == 0 {
        None
    } else if places.len() > 1 {
        Some(path.take(places[places.len() - 2].1))
    } else if is_rooted(path) {
        Some(seq!['/'])
    } else {
        Some(Seq::empty())
    }
}

/// The last component of `path`, where there is one and it is a name: neither
/// `.` nor `..`.
pub open spec fn file_name_of(path: Seq<char>) -> Option<Seq<char>> {
    let names = components(path);
    if names.len() == 0 || names.last() == seq!['.'] || names.last() == seq!['.', '.'] {
        None
    } else {
        Some(names.last())
    }
}

/// The index of the last `.` of `name`, or -1 where there is none.
pub open spec fn last_dot(name: Seq<char>) -> int
    decreases name.len(),
{
    if name.len() == 0 {
        -1
    } else if name.last() == '.' {
        name.len() - 1
    } else {
        last_dot(name.drop_last())
    }
}

/// The file name of `path` up to its last `.`, and the whole file name where it
/// holds no `.` but in front.
pub open spec fn file_stem_of(path: Seq<char>) -> Option<Seq<char>> {
    match file_name_of(path) {
        None => None,
        Some(name) => if last_dot(name) <= 0 {
            Some(name)
        } else {
            Some(name.take(last_dot(name)))
        },
    }
}

/// What `base` followed by `path` names: `path` itself where it is absolute, and
/// otherwise the two with one `/` between them, unless `base` is empty or ends in `/`.
pub open spec fn join_of(base: Seq<char>, path: Seq<char>) -> Seq<char> {
    if is_rooted(path) {
        path
    } else if base.len() == 0 || base.last() == '/' {
        base + path
    } else {
        base + seq!['/'] + path
    }
}

proof fn lemma_spans_in_bounds(path: Seq<char>, from: int)
    requires
        0 <= from,
    ensures
        forall|i: int|
            0 <= i < spans_from(path, from).len() ==> from <= (#[trigger] spans_from(path, from)[i]).0
                < spans_from(path, from)[i].1 <= path.len(),
    decreases path.len() + 1 - from,
{
    if from < path.len() {
        let end = piece_end(path, from);
        lemma_piece_end(path, from);
        lemma_spans_in_bounds(path, end + 1);
        assert forall|i: int| 0 <= i < spans_from(path, from).len() implies from <= (
        #[trigger] spans_from(path, from)[i]).0 < spans_from(path, from)[i].1 <= path.len() by {
            let rest = spans_from(path, end + 1);
            let first = spans_from(path, from).len() - rest.len();
            if i >= first {
                assert(spans_from(path, from)[i] == rest[i - first]);
            }
        }
    }
}

/// The places of the components of `path`.
fn component_spans(path: &Vec<char>) -> (found: Vec<(usize, usize)>)
    ensures
        found@.len() == spans(path@).len(),
        forall|i: int|
            0 <= i < found@.len() ==> (#[trigger] found@[i]).0 == spans(path@)[i].0 && found@[i].1
                == spans(path@)[i].1,
        forall|i: int|
            0 <= i < found@.len() ==> (#[trigger] found@[i]).0 < found@[i].1 <= path@.len(),
{
    let mut found: Vec<(usize, usize)> = Vec::new();
    let mut start: usize = 0;
    let mut end: usize = 0;
    let ghost mut ahead = spans(path@);
    while end < path.len()
        invariant
            0 <= start <= end <= path@.len(),
            piece_end(path@, start as int) == piece_end(path@, end as int),
            forall|k: int| start <= k < end ==> path@[k] != '/',
            ahead == spans_from(path@, start as int),
            found@.len() + ahead.len() == spans(path@).len(),
            forall|i: int|
                0 <= i < found@.len() ==> (#[trigger] found@[i]).0 == spans(path@)[i].0
                    && found@[i].1 == spans(path@)[i].1,
            ahead == spans(path@).skip(found@.len() as int),
        decreases path@.len() - end,
    {
        if path[end] == '/' {
            if start < end && (start == 0 || !(end - start == 1 && path[start] == '.')) {
                found.push((start, end));
            }
            start = end + 1;
            proof {
                let rest = spans_from(path@, start as int);
                assert(ahead.skip(ahead.len() - rest.len()) =~= rest);
                if ahead.len() > rest.len() {
                    assert(ahead[0] == spans(path@)[found@.len() - 1]);
                }
                assert(rest =~= spans(path@).skip(found@.len() as int));
                ahead = rest;
            }
        }
        end += 1;
    }
    if start < end && (start == 0 || !(end - start == 1 && path[start] == '.')) {
        found.push((start, end));
    }
    proof {
        assert(spans_from(path@, end as int + 1) =~= Seq::empty());
        if ahead.len() > 0 {
            assert(ahead[0] == spans(path@)[found@.len() - 1]);
        }
        lemma_spans_in_bounds(path@, 0);
    }
    found
}

/// The part of `path` from `start` up to `end`.
fn part(path: &str, start: usize, end: usize) -> (text: String)
    requires
        start <= end <= path@.len(),
    ensures
        text@ == path@.subrange(start as int, end as int),
{
    path.substring_char(start, end).to_owned()
}

/// Whether `path` is to be read from some directory: whether it is not absolute.
pub fn is_relative(path: &str) -> (relative: bool)
    ensures
        relative == !is_rooted(path@),
{
    let chars = chars_of(path);
    chars.len() == 0 || chars[0] != '/'
}

/// The path without its last component. `None` where it has no component.
pub fn parent(path: &str) -> (parent: Option<String>)
    ensures
        match parent {
            Some(text) => parent_of(path@) == Some(text@),
            None => parent_of(path@) is None,
        },
{
    let chars = chars_of(path);
    let places = component_spans(&chars);
    if places.len() == 0 {
        None
    } else if places.len() > 1 {
        Some(part(path, 0, places[places.len() - 2].1))
    } else if is_relative(path) {
        Some(String::new())
    } else {
        Some(part(path, 0, 1))
    }
}

/// The index of the last `.` of `path` between `start` and `end`, and `end` where
/// there is none.
fn last_dot_between(path: &Vec<char>, start: usize, end: usize) -> (dot: usize)
    requires
        start <= end <= path@.len(),
    ensures
        ({
            let name = path@.subrange(start as int, end as int);
            if last_dot(name) < 0 {
                dot == end
            } else {
                dot == start + last_dot(name)
            }
        }),
        start <= dot <= end,
{
    let ghost name = path@.subrange(start as int, end as int);
    let mut at: usize = end;
    assert(name.take(at - start) =~= name);
    while at > start
        invariant
            start <= at <= end <= path@.len(),
            name == path@.subrange(start as int, end as int),
            last_dot(name) == last_dot(name.take(at - start)),
        decreases at,
    {
        assert(name.take(at - start).drop_last() =~= name.take(at - start - 1));
        at -= 1;
        if path[at] == '.' {
            return at;
        }
    }
    end
}

/// The name of the file that `path` names, without its extension. `None` where
/// the path ends in no name.
pub fn file_stem(path: &str) -> (stem: Option<String>)
    ensures
        match stem {
            Some(text) => file_stem_of(path@) == Some(text@),
            None => file_stem_of(path@) is None,
        },
{
    let chars = chars_of(path);
    let places = component_spans(&chars);
    if places.len() == 0 {
        return None;
    }
    let (start, end): (usize, usize) = places[places.len() - 1];
    let ghost name = path@.subrange(start as int, end as int);
    assert(components(path@).last() == name);
    if end - start == 1 && chars[start] == '.' {
        assert(name =~= seq!['.']);
        return None;
    }
    if end - start == 2 && chars[start] == '.' && chars[start + 1] == '.' {
        assert(name =~= seq!['.', '.']);
        return None;
    }
    assert(file_name_of(path@) == Some(name)) by {
        if name == seq!['.'] {
            assert(name[0] == '.');
        }
        if name == seq!['.', '.'] {
            assert(name[0] == '.' && name[1] == '.');
        }
    }
    let dot: usize = last_dot_between(&chars, start, end);
    if dot == start {
        Some(part(path, start, end))
    } else {
        assert(dot < end ==> path@.subrange(start as int, dot as int) =~= name.take(dot - start));
        Some(part(path, start, dot))
    }
}

/// What `path` names when it is read from the directory `base`.
pub fn join(base: &str, path: &str) -> (whole: String)
    ensures
        whole@ == join_of(base@, path@),
{
    if !is_relative(path) {
        return path.to_owned();
    }
    let base_chars = chars_of(base);
    let mut whole = base.to_owned();
    if base_chars.len() > 0 && base_chars[base_chars.len() - 1] != '/' {
        proof {
            reveal_strlit("/");
        }
        whole.append("/");
        assert("/"@ =~= seq!['/']);
    }
    whole.append(path);
    whole
}

proof fn lemma_joined_push(names: Seq<Seq<char>>, name: Seq<char>)
    ensures
        joined(names.push(name)) == if names.len() == 0 {
            name
        } else {
            joined(names) + seq!['/'] + name
        },
    decreases names.len(),
{
    if names.len() > 0 {
        lemma_joined_push(names.drop_first(), name);
        assert(names.push(name).drop_first() =~= names.drop_first().push(name));
        assert(joined(names.push(name)) =~= if names.len() == 0 {
            name
        } else {
            joined(names) + seq!['/'] + name
        });
    }
}

/// The text for the path that holds its components and nothing besides.
pub fn normalized(path: &str) -> (normal: String)
    ensures
        normal@ == normal_form(path@),
{
    proof {
        reveal_strlit("/");
        assert("/"@ =~= seq!['/']);
    }
    let chars = chars_of(path);
    let places = component_spans(&chars);
    let mut normal = String::new();
    if !is_relative(path) {
        normal.append("/");
    }
    let ghost root = normal@;
    let ghost names = components(path@);
    let mut i: usize = 0;
    assert(normal@ =~= root + joined(names.take(0)));
    while i < places.len()
        invariant
            "/"@ == seq!['/'],
            chars@ == path@,
            i <= places@.len(),
            names == components(path@),
            places@.len() == names.len(),
            forall|k: int|
                0 <= k < places@.len() ==> (#[trigger] places@[k]).0 < places@[k].1 <= path@.len(),
            forall|k: int|
                0 <= k < places@.len() ==> names[k] == path@.subrange(
                    (#[trigger] places@[k]).0 as int,
                    places@[k].1 as int,
                ),
            normal@ == root + joined(names.take(i as int)),
        decreases places@.len() - i,
    {
        let (start, end): (usize, usize) = places[i];
        let name = part(path, start, end);
        proof {
            lemma_joined_push(names.take(i as int), names[i as int]);
            assert(names.take(i + 1) =~= names.take(i as int).push(names[i as int]));
        }
        if i > 0 {
            normal.append("/");
        }
        normal.append(name.as_str());
        assert(normal@ =~= root + joined(names.take(i + 1)));
        i += 1;
    }
    assert(names.take(i as int) =~= names);
    assert(normal@ =~= normal_form(path@));
    normal
}

/// Whether `names` can be the components of a path, where `.` may come first only
/// if `dot_first`.
spec fn are_names(names: Seq<Seq<char>>, dot_first: bool) -> bool {
    forall|i: int|
        0 <= i < names.len() ==> {
            &&& (#[trigger] names[i]).len() > 0
            &&& forall|k: int| 0 <= k < names[i].len() ==> names[i][k] != '/'
            &&& names[i] == seq!['.'] ==> dot_first && i == 0
        }
}

proof fn lemma_piece_end_is(path: Seq<char>, from: int, end: int)
    requires
        from <= end <= path.len(),
        forall|k: int| from <= k < end ==> path[k] != '/',
        end < path.len() ==> path[end] == '/',
    ensures
        piece_end(path, from) == end,
    decreases end - from,
{
    if from < end {
        lemma_piece_end_is(path, from + 1, end);
    }
}

/// The components of a text that joins names are those names.
proof fn lemma_spans_of_joined(path: Seq<char>, from: int, names: Seq<Seq<char>>)
    requires
        0 <= from <= path.len(),
        path.skip(from) == joined(names),
        are_names(names, from == 0),
    ensures
        spans_from(path, from).map_values(|span: (int, int)| path.subrange(span.0, span.1))
            == names,
    decreases names.len(),
{
    let text = |span: (int, int)| path.subrange(span.0, span.1);
    if names.len() == 0 {
        assert(path.skip(from).len() == 0);
        assert(spans_from(path, from).map_values(text) =~= names);
    } else {
        let name = names[0];
        let end = from + name.len();
        assert(path.skip(from).take(name.len() as int) =~= name);
        assert forall|k: int| from <= k < end implies path[k] == name[k - from] by {
            assert(path.skip(from)[k - from] == path[k]);
        }
        assert(path.subrange(from, end) =~= name);
        if names.len() > 1 {
            assert(path.skip(from)[name.len() as int] == '/');
            assert(path[end] == '/');
        }
        lemma_piece_end_is(path, from, end);
        assert(is_component(path, from, end)) by {
            if end == from + 1 && path[from] == '.' {
                assert(name =~= seq!['.']);
            }
        }
        let rest = spans_from(path, end + 1);
        if names.len() == 1 {
            assert(rest =~= Seq::empty());
        } else {
            let others = names.drop_first();
            let tail = path.skip(from);
            assert(tail == name + seq!['/'] + joined(others));
            assert(tail.skip(name.len() as int + 1) =~= joined(others));
            assert(path.skip(end + 1) =~= tail.skip(name.len() as int + 1));
            assert forall|i: int| 0 <= i < others.len() implies {
                &&& (#[trigger] others[i]).len() > 0
                &&& forall|k: int| 0 <= k < others[i].len() ==> others[i][k] != '/'
                &&& others[i] != seq!['.']
            } by {
                assert(others[i] == names[i + 1]);
            }
            lemma_spans_of_joined(path, end + 1, others);
        }
        assert(rest.map_values(text) =~= names.drop_first());
        assert(spans_from(path, from) =~= seq![(from, end)] + rest);
        assert forall|i: int| 0 <= i < names.len() implies #[trigger] text(
            spans_from(path, from)[i],
        ) == names[i] by {
            if i > 0 {
                assert(names[i] == names.drop_first()[i - 1]);
                assert(rest.map_values(text)[i - 1] == text(rest[i - 1]));
            }
        }
        assert(spans_from(path, from).map_values(text) =~= names);
    }
}

proof fn lemma_spans_are_names(path: Seq<char>, from: int)
    requires
        0 <= from,
    ensures
        are_names(
            spans_from(path, from).map_values(|span: (int, int)| path.subrange(span.0, span.1)),
            from == 0 && !is_rooted(path),
        ),
    decreases path.len() + 1 - from,
{
    let text = |span: (int, int)| path.subrange(span.0, span.1);
    let names = spans_from(path, from).map_values(text);
    if from < path.len() {
        let end = piece_end(path, from);
        lemma_piece_end(path, from);
        lemma_spans_are_names(path, end + 1);
        let rest = spans_from(path, end + 1);
        let first = names.len() - rest.len();
        assert forall|i: int| 0 <= i < names.len() implies {
            &&& (#[trigger] names[i]).len() > 0
            &&& forall|k: int| 0 <= k < names[i].len() ==> names[i][k] != '/'
            &&& names[i] == seq!['.'] ==> from == 0 && !is_rooted(path) && i == 0
        } by {
            if i < first {
                assert(names[i] == path.subrange(from, end));
                if names[i] == seq!['.'] {
                    assert(names[i][0] == '.' && names[i].len() == 1);
                    assert(path[from] == '.');
                }
            } else {
                assert(names[i] == rest.map_values(text)[i - first]);
            }
        }
    }
}

/// The normal form of a path names that path.
pub proof fn law_normal_form_names_the_path(path: Seq<char>)
    ensures
        same_path(normal_form(path), path),
{
    let names = components(path);
    let normal = normal_form(path);
    lemma_spans_are_names(path, 0);
    if is_rooted(path) {
        assert(normal.skip(1) =~= joined(names));
        lemma_spans_of_joined(normal, 1, names);
        assert(piece_end(normal, 0) == 0);
        assert(spans(normal) =~= spans_from(normal, 1));
    } else {
        assert(normal.skip(0) =~= joined(names));
        lemma_spans_of_joined(normal, 0, names);
        if names.len() > 0 {
            assert(normal[0] == names[0][0]);
        }
    }
}

/// Two texts name the same path if and only if their normal forms are one text.
pub proof fn law_normal_form_identifies_paths(a: Seq<char>, b: Seq<char>)
    ensures
        same_path(a, b) <==> normal_form(a) == normal_form(b),
{
    law_normal_form_names_the_path(a);
    law_normal_form_names_the_path(b);
}

/// A path is in normal form once it has been brought to it.
pub proof fn law_normal_form_is_normal(path: Seq<char>)
    ensures
        normal_form(normal_form(path)) == normal_form(path),
{
    law_normal_form_names_the_path(path);
}

/// Up to a `/`, a path has the components of the text in front of that `/`.
proof fn lemma_spans_split(path: Seq<char>, at: int, from: int)
    requires
        0 <= from <= at < path.len(),
        path[at] == '/',
    ensures
        spans_from(path, from) == spans_from(path.take(at), from) + spans_from(path, at + 1),
    decreases at - from,
{
    let front = path.take(at);
    lemma_piece_end(front, from);
    let end = piece_end(front, from);
    assert forall|k: int| from <= k < end implies path[k] != '/' by {
        assert(path[k] == front[k]);
    }
    assert(end < at ==> path[end] == front[end]);
    lemma_piece_end_is(path, from, end);
    let back = spans_from(path, at + 1);
    let first = if is_component(path, from, end) {
        seq![(from, end)]
    } else {
        Seq::empty()
    };
    assert(from < end ==> path[from] == front[from]);
    assert(spans_from(path, from) == first + spans_from(path, end + 1));
    if from == at {
        assert(spans_from(front, from) =~= Seq::empty());
        assert(first + back =~= back);
        assert(spans_from(front, from) + back =~= back);
    } else {
        assert(spans_from(front, from) == first + spans_from(front, end + 1));
        if end < at {
            lemma_spans_split(path, at, end + 1);
        } else {
            assert(spans_from(front, end + 1) =~= Seq::empty());
        }
        assert(first + spans_from(path, end + 1) =~= first + spans_from(front, end + 1) + back);
    }
}

/// Behind its first piece, a path has the same components when text stands in front of it.
proof fn lemma_spans_shift(path: Seq<char>, offset: int, from: int)
    requires
        0 < offset <= path.len(),
        0 < from,
    ensures
        spans_from(path, offset + from) == spans_from(path.skip(offset), from).map_values(
            |span: (int, int)| (span.0 + offset, span.1 + offset),
        ),
    decreases path.len() + 1 - from,
{
    let tail = path.skip(offset);
    let moved = |span: (int, int)| (span.0 + offset, span.1 + offset);
    if from < tail.len() {
        let end = piece_end(tail, from);
        lemma_piece_end(tail, from);
        assert forall|k: int| offset + from <= k < offset + end implies path[k] != '/' by {
            assert(path[k] == tail[k - offset]);
        }
        lemma_piece_end_is(path, offset + from, offset + end);
        lemma_spans_shift(path, offset, end + 1);
    }
    assert(spans_from(path, offset + from) =~= spans_from(tail, from).map_values(moved));
}

/// The components that `path` gives to a path that it is the end of: all but a `.` in front.
pub open spec fn inner_components(path: Seq<char>) -> Seq<Seq<char>> {
    let names = components(path);
    if names.len() > 0 && names[0] == seq!['.'] {
        names.drop_first()
    } else {
        names
    }
}

proof fn lemma_tail_components(path: Seq<char>, offset: int)
    requires
        0 < offset <= path.len(),
        !is_rooted(path.skip(offset)),
    ensures
        spans_from(path, offset).map_values(|span: (int, int)| path.subrange(span.0, span.1))
            == inner_components(path.skip(offset)),
{
    let tail = path.skip(offset);
    let text = |span: (int, int)| path.subrange(span.0, span.1);
    let tail_text = |span: (int, int)| tail.subrange(span.0, span.1);
    if tail.len() > 0 {
        let end = piece_end(tail, 0);
        lemma_piece_end(tail, 0);
        assert forall|k: int| offset <= k < offset + end implies path[k] != '/' by {
            assert(path[k] == tail[k - offset]);
        }
        lemma_piece_end_is(path, offset, offset + end);
        lemma_spans_shift(path, offset, end + 1);
        lemma_spans_in_bounds(tail, end + 1);
        let rest = spans_from(path, offset + end + 1);
        let tail_rest = spans_from(tail, end + 1);
        assert forall|i: int| 0 <= i < rest.len() implies text(#[trigger] rest[i]) == tail_text(
            tail_rest[i],
        ) by {
            assert(rest[i] == (tail_rest[i].0 + offset, tail_rest[i].1 + offset));
            assert(text(rest[i]) =~= tail_text(tail_rest[i]));
        }
        assert(rest.map_values(text) =~= tail_rest.map_values(tail_text));
        assert(0 < end);
        assert(spans(tail) =~= seq![(0int, end)] + tail_rest);
        assert(components(tail) =~= seq![tail.subrange(0, end)] + tail_rest.map_values(tail_text));
        let first = tail.subrange(0, end);
        assert(path.subrange(offset, offset + end) =~= first);
        if end == 1 && tail[0] == '.' {
            assert(first =~= seq!['.']);
            assert(spans_from(path, offset) =~= rest);
            assert(inner_components(tail) =~= rest.map_values(text));
        } else {
            assert(first != seq!['.']) by {
                if first == seq!['.'] {
                    assert(first.len() == 1 && first[0] == '.');
                }
            }
            assert(spans_from(path, offset) =~= seq![(offset, offset + end)] + rest);
            assert(inner_components(tail) == components(tail));
        }
        assert(spans_from(path, offset).map_values(text) =~= inner_components(tail));
    } else {
        assert(components(tail) =~= Seq::empty());
        assert(spans_from(path, offset).map_values(text) =~= inner_components(tail));
    }
}

/// A relative path that is read from a directory goes on where the directory ends: it
/// starts at the root if the directory does, and has the components of the directory
/// and then its own, but for a `.` in front.
pub proof fn law_join_continues_the_base(base: Seq<char>, path: Seq<char>)
    requires
        !is_rooted(path),
        base.len() > 0 || inner_components(path) == components(path),
    ensures
        is_rooted(join_of(base, path)) == is_rooted(base),
        components(join_of(base, path)) == components(base) + inner_components(path),
{
    if base.len() == 0 {
        assert(join_of(base, path) =~= path);
        assert(components(base) + components(path) =~= components(path));
    } else {
        lemma_join_continues_the_base(base, path);
    }
}

proof fn lemma_join_continues_the_base(base: Seq<char>, path: Seq<char>)
    requires
        base.len() > 0,
        !is_rooted(path),
    ensures
        is_rooted(join_of(base, path)) == is_rooted(base),
        components(join_of(base, path)) == components(base) + inner_components(path),
{
    let whole = join_of(base, path);
    let text = |span: (int, int)| whole.subrange(span.0, span.1);
    let base_text = |span: (int, int)| base.subrange(span.0, span.1);
    let at = if base.last() == '/' {
        base.len() - 1
    } else {
        base.len() as int
    };
    assert(whole[at] == '/');
    assert(whole.take(at) =~= base.take(at));
    assert(whole.skip(at + 1) =~= path);
    lemma_spans_split(whole, at, 0);
    if base.last() == '/' {
        lemma_spans_split(base, at, 0);
        assert(spans_from(base, at + 1) =~= Seq::empty());
        assert(spans(base) =~= spans(base.take(at)));
    } else {
        assert(base.take(at) =~= base);
    }
    lemma_tail_components(whole, at + 1);
    lemma_spans_in_bounds(base, 0);
    assert forall|i: int| 0 <= i < spans(base).len() implies text(#[trigger] spans(base)[i])
        == base_text(spans(base)[i]) by {
        assert(text(spans(base)[i]) =~= base_text(spans(base)[i]));
    }
    assert(spans(base).map_values(text) =~= components(base));
    assert(components(whole) =~= components(base) + inner_components(path));
}

/// The components of a path stand in order, and a `/` or the end of the path follows each.
proof fn lemma_spans_in_order(path: Seq<char>, from: int)
    requires
        0 <= from,
    ensures
        forall|i: int, j: int|
            0 <= i < j < spans_from(path, from).len() ==> (#[trigger] spans_from(path, from)[i]).1
                < (#[trigger] spans_from(path, from)[j]).0,
        forall|i: int|
            0 <= i < spans_from(path, from).len() ==> {
                let end = (#[trigger] spans_from(path, from)[i]).1;
                end < path.len() ==> path[end] == '/'
            },
    decreases path.len() + 1 - from,
{
    if from < path.len() {
        let end = piece_end(path, from);
        lemma_piece_end(path, from);
        lemma_spans_in_order(path, end + 1);
        lemma_spans_in_bounds(path, end + 1);
        let all = spans_from(path, from);
        let rest = spans_from(path, end + 1);
        let first = all.len() - rest.len();
        assert forall|i: int, j: int| 0 <= i < j < all.len() implies (#[trigger] all[i]).1 < (
        #[trigger] all[j]).0 by {
            assert(all[j] == rest[j - first]);
            if i >= first {
                assert(all[i] == rest[i - first]);
            }
        }
        assert forall|i: int| 0 <= i < all.len() implies {
            let end = (#[trigger] all[i]).1;
            end < path.len() ==> path[end] == '/'
        } by {
            if i >= first {
                assert(all[i] == rest[i - first]);
            }
        }
    }
}

/// The parent of a path starts at the root if the path does, and has its components but
/// the last.
pub proof fn law_parent_drops_the_last_component(path: Seq<char>)
    requires
        parent_of(path) is Some,
    ensures
        is_rooted(parent_of(path)->0) == is_rooted(path),
        components(parent_of(path)->0) == components(path).drop_last(),
{
    let directory = parent_of(path)->0;
    let all = spans(path);
    if all.len() > 1 {
        let text = |span: (int, int)| path.subrange(span.0, span.1);
        let directory_text = |span: (int, int)| directory.subrange(span.0, span.1);
        let last = all.len() - 1;
        let at = all[last - 1].1;
        lemma_spans_in_bounds(path, 0);
        lemma_spans_in_order(path, 0);
        assert(all[last - 1].1 < all[last].0);
        lemma_spans_split(path, at, 0);
        let front = spans(directory);
        let back = spans_from(path, at + 1);
        lemma_spans_in_bounds(directory, 0);
        lemma_spans_in_bounds(path, at + 1);
        assert(all == front + back);
        assert(front.len() == last) by {
            if front.len() > last {
                assert(all[last] == front[last]);
            }
            if front.len() < last {
                assert(all[last - 1] == back[last - 1 - front.len()]);
            }
        }
        assert forall|i: int| 0 <= i < front.len() implies directory_text(#[trigger] front[i])
            == text(all[i]) by {
            assert(all[i] == front[i]);
            assert(directory_text(front[i]) =~= text(all[i]));
        }
        assert(components(directory) =~= components(path).drop_last());
        assert(is_rooted(directory) == is_rooted(path));
    } else {
        assert(spans_from(directory, 1) =~= Seq::empty());
        assert(piece_end(directory, 0) == 0);
        assert(spans(directory) =~= Seq::empty());
        assert(components(directory) =~= components(path).drop_last());
    }
}

/// A text without `/` has itself as its only component, and the empty text has none.
pub proof fn law_a_name_is_one_component(name: Seq<char>)
    requires
        !name.contains('/'),
    ensures
        name.len() == 0 ==> components(name).len() == 0,
        name.len() > 0 ==> components(name) == seq![name],
{
    if name.len() > 0 {
        assert forall|k: int| 0 <= k < name.len() implies name[k] != '/' by {
            assert(name.contains(name[k]));
        }
        lemma_piece_end_is(name, 0, name.len() as int);
        assert(spans_from(name, name.len() as int + 1) =~= Seq::empty());
        assert(spans(name) =~= seq![(0int, name.len() as int)]);
        assert(name.subrange(0, name.len() as int) =~= name);
        assert(components(name) =~= seq![name]);
    }
}

/// Two texts with a `/` between them have the components of the one and then those of the
/// other, but for a `.` that the other starts with.
pub proof fn law_components_of_two_parts(front: Seq<char>, back: Seq<char>)
    ensures
        components(front + seq!['/'] + back) == components(front) + if components(back).len() > 0
            && components(back)[0] == seq!['.'] {
            components(back).drop_first()
        } else {
            components(back)
        },
{
    let whole = front + seq!['/'] + back;
    let at = front.len() as int;
    let text = |span: (int, int)| whole.subrange(span.0, span.1);
    let front_text = |span: (int, int)| front.subrange(span.0, span.1);
    assert(whole.take(at) =~= front);
    assert(whole.skip(at + 1) =~= back);
    lemma_spans_split(whole, at, 0);
    lemma_spans_in_bounds(front, 0);
    assert forall|i: int| 0 <= i < spans(front).len() implies text(#[trigger] spans(front)[i])
        == front_text(spans(front)[i]) by {
        assert(text(spans(front)[i]) =~= front_text(spans(front)[i]));
    }
    assert(spans(front).map_values(text) =~= components(front));
    let rest = spans_from(whole, at + 1).map_values(text);
    if is_rooted(back) {
        lemma_piece_end_is(whole, at + 1, at + 1);
        lemma_piece_end_is(back, 0, 0);
        lemma_spans_shift(whole, at + 1, 1);
        lemma_spans_in_bounds(back, 1);
        let tail = spans_from(back, 1);
        assert(spans(back) =~= tail);
        assert(spans_from(whole, at + 1) =~= spans_from(whole, at + 2));
        assert forall|i: int| 0 <= i < tail.len() implies #[trigger] rest[i] == components(
            back,
        )[i] by {
            assert(spans_from(whole, at + 2)[i] == (tail[i].0 + at + 1, tail[i].1 + at + 1));
            assert(rest[i] =~= back.subrange(tail[i].0, tail[i].1));
        }
        assert(rest =~= components(back));
        lemma_spans_are_names(back, 0);
        if components(back).len() > 0 {
            assert(components(back)[0] != seq!['.']);
        }
    } else {
        lemma_tail_components(whole, at + 1);
        assert(rest == inner_components(back));
    }
    assert(components(whole) =~= components(front) + rest);
}

/// A path is absolute if and only if a `/` is in front of it.
pub proof fn law_relative_paths(path: &str, relative: bool)
    requires
        call_ensures(is_relative, (path,), relative),
    ensures
        relative <==> path@.len() == 0 || path@[0] != '/',
{
}

/// A path that is read from a directory is itself where a `/` is in front of it, and
/// otherwise the text of the directory and its own, with a `/` between them unless the
/// directory is the empty text or ends in one.
pub proof fn law_join_is_both_texts(base: &str, path: &str, whole: String)
    requires
        call_ensures(join, (base, path), whole),
    ensures
        path@.len() > 0 && path@[0] == '/' ==> whole@ == path@,
        path@.len() == 0 || path@[0] != '/' ==> {
            if base@.len() == 0 || base@[base@.len() - 1] == '/' {
                whole@ == base@ + path@
            } else {
                whole@ == base@ + seq!['/'] + path@
            }
        },
{
}

/// Two texts are brought to one text if and only if they name the same path, and that
/// text names it too.
pub proof fn law_normalized_texts_identify_paths(
    a: &str,
    b: &str,
    normal_a: String,
    normal_b: String,
)
    requires
        call_ensures(normalized, (a,), normal_a),
        call_ensures(normalized, (b,), normal_b),
    ensures
        normal_a@ == normal_b@ <==> is_rooted(a@) == is_rooted(b@) && components(a@) == components(
            b@,
        ),
        is_rooted(normal_a@) == is_rooted(a@),
        components(normal_a@) == components(a@),
{
    law_normal_form_identifies_paths(a@, b@);
    law_normal_form_names_the_path(a@);
}

/// A text without `/` is its own normal form, and one more name behind a path is one more
/// name behind its normal form.
pub proof fn law_normal_form_of_one_more_name(path: Seq<char>, name: Seq<char>)
    requires
        name.len() > 0,
        !name.contains('/'),
        name != seq!['.'],
    ensures
        normal_form(name) == name,
        normal_form(path + seq!['/'] + name) == if components(path).len() == 0 {
            seq!['/'] + name
        } else {
            normal_form(path) + seq!['/'] + name
        },
{
    let names = components(path);
    let whole = path + seq!['/'] + name;
    law_a_name_is_one_component(name);
    assert(!is_rooted(name)) by {
        assert(name.contains(name[0]));
    }
    assert(joined(seq![name]) == name);
    law_components_of_two_parts(path, name);
    assert(components(whole) =~= names.push(name));
    lemma_joined_push(names, name);
    if path.len() > 0 && !is_rooted(path) {
        lemma_piece_end(path, 0);
        assert(spans(path).len() > 0);
    }
    assert(path.len() > 0 ==> whole[0] == path[0]);
    assert(path.len() == 0 ==> whole[0] == '/' && spans(path).len() == 0);
    if names.len() > 0 {
        assert(normal_form(whole) =~= normal_form(path) + seq!['/'] + name);
    }
}

/// The directory of a path is the front part of its text that has all its components but
/// the last and ends where the last of these does; it is absolute if the path is.
pub proof fn law_parent_is_the_path_up_to_its_last_component(path: &str, found: Option<String>)
    requires
        call_ensures(parent, (path,), found),
    ensures
        found is None <==> components(path@).len() == 0,
        found matches Some(directory) ==> {
            let names = components(path@).drop_last();
            &&& directory@.len() <= path@.len()
            &&& directory@ == path@.take(directory@.len() as int)
            &&& is_rooted(directory@) == is_rooted(path@)
            &&& components(directory@) == names
            &&& names.len() > 0 ==> names.last().len() <= directory@.len() && directory@.skip(
                directory@.len() - names.last().len(),
            ) == names.last()
            &&& names.len() == 0 ==> directory@.len() <= 1
        },
{
    if components(path@).len() > 0 {
        let directory = found->0@;
        let all = spans(path@);
        law_parent_drops_the_last_component(path@);
        lemma_spans_in_bounds(path@, 0);
        if all.len() > 1 {
            let span = all[all.len() - 2];
            assert(span.1 <= path@.len());
            assert(components(path@).drop_last().last() == path@.subrange(span.0, span.1));
            assert(directory.skip(span.0) =~= path@.subrange(span.0, span.1));
        } else {
            assert(components(path@).drop_last().len() == 0);
        }
        assert(directory =~= path@.take(directory.len() as int));
    }
}

/// Of a file whose name has a `.` behind its first character, the stem is the name up to
/// the last `.`.
pub proof fn law_stem_is_in_front_of_the_last_dot(
    path: &str,
    stem: Seq<char>,
    extension: Seq<char>,
    found: Option<String>,
)
    requires
        call_ensures(file_stem, (path,), found),
        components(path@).len() > 0,
        components(path@).last() == stem + seq!['.'] + extension,
        stem.len() > 0,
        !extension.contains('.'),
        stem + seq!['.'] + extension != seq!['.', '.'],
    ensures
        found is Some,
        found->0@ == stem,
{
    let name = components(path@).last();
    assert(name.len() >= 2);
    lemma_last_dot_is(name, stem.len() as int);
    assert(name.take(stem.len() as int) =~= stem);
}

/// Of a file whose name has no `.` behind its first character, the stem is the name.
pub proof fn law_stem_without_a_dot_is_the_name(path: &str, found: Option<String>)
    requires
        call_ensures(file_stem, (path,), found),
        components(path@).len() > 0,
        components(path@).last() != seq!['.'],
        forall|k: int| 0 < k < components(path@).last().len() ==> components(path@).last()[k] != '.',
    ensures
        found is Some,
        found->0@ == components(path@).last(),
{
    let name = components(path@).last();
    if name == seq!['.', '.'] {
        assert(name[1] == '.');
    }
    lemma_last_dot_is(
        name,
        if name.len() > 0 && name[0] == '.' {
            0
        } else {
            -1
        },
    );
}

/// A path that has no components, or ends in `.` or `..`, has no stem.
pub proof fn law_no_stem_without_a_name(path: &str, found: Option<String>)
    requires
        call_ensures(file_stem, (path,), found),
    ensures
        found is None <==> components(path@).len() == 0 || components(path@).last() == seq!['.']
            || components(path@).last() == seq!['.', '.'],
{
}

proof fn lemma_last_dot_is(name: Seq<char>, at: int)
    requires
        -1 <= at < name.len(),
        at >= 0 ==> name[at] == '.',
        forall|k: int| at < k < name.len() ==> name[k] != '.',
    ensures
        last_dot(name) == at,
    decreases name.len(),
{
    if name.len() > 0 && name.last() != '.' {
        lemma_last_dot_is(name.drop_last(), at);
    }
}

} // verus!
