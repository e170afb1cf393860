//! Slash-separated texts: their segments and components.

use crate::text::owned;
use vstd::prelude::*;
use vstd::string::*;

verus! {

/// The characters that count as white space.
pub open spec fn is_white(character: char) -> bool {
    ||| 0x9 <= character as u32 <= 0xd
    ||| character as u32 == 0x20
    ||| character as u32 == 0x85
    ||| character as u32 == 0xa0
    ||| character as u32 == 0x1680
    ||| 0x2000 <= character as u32 <= 0x200a
    ||| character as u32 == 0x2028
    ||| character as u32 == 0x2029
    ||| character as u32 == 0x202f
    ||| character as u32 == 0x205f
    ||| character as u32 == 0x3000
}

fn white(character: char) -> (white: bool)
    ensures
        white == is_white(character),
{
    let code: u32 = character as u32;
    (0x9 <= code && code <= 0xd) || code == 0x20 || code == 0x85 || code == 0xa0 || code == 0x1680
        || (0x2000 <= code && code <= 0x200a) || code == 0x2028 || code == 0x2029 || code == 0x202f
        || code == 0x205f || code == 0x3000
}

/// The part of a text from its first character that is not white space to its last.
pub open spec fn trimmed(text: Seq<char>) -> Seq<char>
    decreases text.len(),
{
    if text.len() > 0 && is_white(text.last()) {
        trimmed(text.drop_last())
    } else if text.len() > 0 && is_white(text.first()) {
        trimmed(text.skip(1))
    } else {
        text
    }
}

/// The characters of a text.
pub fn characters(text: &str) -> (chars: Vec<char>)
    ensures
        chars@ == text@,
{
    let mut chars: Vec<char> = Vec::new();
    let count: usize = text.unicode_len();
    let mut index: usize = 0;
    while index < count
        invariant
            count == text@.len(),
            index <= count,
            chars@ == text@.take(index as int),
        decreases count - index,
    {
        chars.push(text.get_char(index));
        index = index + 1;
        proof {
            assert(chars@ =~= text@.take(index as int));
        }
    }
    proof {
        assert(text@.take(index as int) =~= text@);
    }
    chars
}

/// A text without the white space around it.
pub fn trim(text: &str) -> (result: String)
    ensures
        result@ == trimmed(text@),
{
    let chars = characters(text);
    let mut end: usize = chars.len();
    let mut start: usize = 0;
    proof {
        assert(text@.subrange(0, end as int) =~= text@);
    }
    while end > 0 && white(chars[end - 1])
        invariant
            end <= chars@.len(),
            chars@ == text@,
            trimmed(text@) == trimmed(text@.subrange(0, end as int)),
        decreases end,
    {
        proof {
            assert(text@.subrange(0, end as int).drop_last() =~= text@.subrange(0, end - 1));
        }
        end = end - 1;
    }
    while start < end && white(chars[start])
        invariant
            start <= end <= chars@.len(),
            chars@ == text@,
            end == 0 || !is_white(text@[end - 1]),
            trimmed(text@) == trimmed(text@.subrange(start as int, end as int)),
        decreases end - start,
    {
        proof {
            assert(text@.subrange(start as int, end as int).skip(1) =~= text@.subrange(
                start + 1,
                end as int,
            ));
        }
        start = start + 1;
    }
    owned(text.substring_char(start, end))
}

/// The parts of a text between slashes.
pub open spec fn segments(text: Seq<char>) -> Seq<Seq<char>>
    decreases text.len(),
{
    if text.len() == 0 {
        seq![Seq::empty()]
    } else {
        let rest = segments(text.drop_last());
        if text.last() == '/' {
            rest.push(Seq::empty())
        } else {
            rest.update(rest.len() - 1, rest.last().push(text.last()))
        }
    }
}

/// A text has a segment.
pub proof fn lemma_segments(text: Seq<char>)
    ensures
        segments(text).len() > 0,
    decreases text.len(),
{
    if text.len() > 0 {
        lemma_segments(text.drop_last());
    }
}

/// The texts as they are listed.
pub open spec fn texts(list: Seq<String>) -> Seq<Seq<char>> {
    list.map_values(|text: String| text@)
}

/// The parts of a text between slashes.
pub fn split_segments(text: &str) -> (list: Vec<String>)
    ensures
        texts(list@) == segments(text@),
{
    let chars = characters(text);
    let mut list: Vec<String> = Vec::new();
    let mut start: usize = 0;
    let mut index: usize = 0;
    proof {
        assert(text@.take(0) =~= Seq::empty());
        assert(texts(list@).push(text@.subrange(0, 0)) =~= segments(text@.take(0)));
    }
    while index < chars.len()
        invariant
            chars@ == text@,
            start <= index <= chars@.len(),
            texts(list@).push(text@.subrange(start as int, index as int)) == segments(
                text@.take(index as int),
            ),
        decreases chars@.len() - index,
    {
        let ghost before = segments(text@.take(index as int));
        let ghost current = text@.subrange(start as int, index as int);
        proof {
            assert(text@.take(index + 1).drop_last() =~= text@.take(index as int));
            assert(text@.take(index + 1).last() == text@[index as int]);
            assert(before.last() == current);
        }
        if chars[index] == '/' {
            list.push(owned(text.substring_char(start, index)));
            start = index + 1;
            proof {
                assert(texts(list@) =~= before);
                assert(text@.subrange(start as int, index + 1) =~= Seq::empty());
            }
        } else {
            proof {
                assert(text@.subrange(start as int, index + 1) =~= current.push(
                    text@[index as int],
                ));
                assert(texts(list@).push(text@.subrange(start as int, index + 1)) =~= before.update(
                    before.len() - 1,
                    current.push(text@[index as int]),
                ));
            }
        }
        index = index + 1;
    }
    list.push(owned(text.substring_char(start, index)));
    proof {
        assert(text@.take(index as int) =~= text@);
        assert(texts(list@) =~= segments(text@));
    }
    list
}

/// Whether a segment counts as a component of its path: not if it is empty, and not if it stands for
/// the directory itself anywhere but at the start.
pub open spec fn counts(segment: Seq<char>, index: int) -> bool {
    segment.len() > 0 && (segment != "."@ || index == 0)
}

/// The components among the first segments.
pub open spec fn counted(list: Seq<Seq<char>>, upto: int) -> Seq<Seq<char>>
    decreases upto,
{
    if upto <= 0 {
        Seq::empty()
    } else if counts(list[upto - 1], upto - 1) {
        counted(list, upto - 1).push(list[upto - 1])
    } else {
        counted(list, upto - 1)
    }
}

/// The components of a path. The root of the file system is a component of its own.
pub open spec fn components(path: Seq<char>) -> Seq<Seq<char>> {
    let root = if path.len() > 0 && path[0] == '/' {
        seq!["/"@]
    } else {
        Seq::empty()
    };
    root + counted(segments(path), segments(path).len() as int)
}

/// The components of a path.
pub fn split_components(path: &str) -> (list: Vec<String>)
    ensures
        texts(list@) == components(path@),
{
    let parts = split_segments(path);
    let ghost parted = segments(path@);
    let mut list: Vec<String> = Vec::new();
    let ghost mut root: Seq<Seq<char>> = Seq::empty();
    if path.unicode_len() > 0 && path.get_char(0) == '/' {
        list.push(owned("/"));
        proof {
            root = seq!["/"@];
        }
    }
    proof {
        assert(texts(list@) =~= root);
        assert(texts(list@) =~= root + counted(parted, 0));
    }
    let mut index: usize = 0;
    while index < parts.len()
        invariant
            texts(parts@) == parted,
            index <= parts@.len(),
            texts(list@) == root + counted(parted, index as int),
        decreases parts@.len() - index,
    {
        let part = &parts[index];
        proof {
            assert(parted[index as int] == parts@[index as int]@);
        }
        let dot = part.as_str().unicode_len() == 1 && part.as_str().get_char(0) == '.';
        proof {
            reveal_strlit(".");
            assert(dot == (part@ == "."@)) by {
                if dot {
                    assert(part@ =~= "."@);
                }
            }
        }
        let ghost before = list@;
        if part.as_str().unicode_len() > 0 && (!dot || index == 0) {
            list.push(owned(part.as_str()));
            proof {
                assert(texts(list@) =~= texts(before).push(parted[index as int]));
                assert(texts(list@) =~= root + counted(parted, index + 1));
            }
        }
        index = index + 1;
    }
    list
}

/// A path with another behind it: in its place where the other starts at the root of the file
/// system, and below it otherwise.
pub open spec fn joined(path: Seq<char>, other: Seq<char>) -> Seq<char> {
    if other.len() > 0 && other[0] == '/' {
        other
    } else if path.len() == 0 || path.last() == '/' {
        path + other
    } else {
        path + "/"@ + other
    }
}

/// A path with another behind it.
pub fn join(path: &str, other: &str) -> (result: String)
    ensures
        result@ == joined(path@, other@),
{
    let length: usize = path.unicode_len();
    if other.unicode_len() > 0 && other.get_char(0) == '/' {
        return owned(other);
    }
    let mut result = owned(path);
    if length > 0 && path.get_char(length - 1) != '/' {
        result.append("/");
    }
    result.append(other);
    result
}

/// Whether a path is that of a directory with one component more.
pub open spec fn directly_below(path: Seq<char>, directory: Seq<char>) -> bool {
    &&& components(path).len() == components(directory).len() + 1
    &&& components(path).drop_last() == components(directory)
    &&& components(path).last() != "/"@
}

/// Whether a path is that of a directory with one component more.
pub fn is_directly_below(path: &str, directory: &str) -> (below: bool)
    ensures
        below == directly_below(path@, directory@),
{
    let inner = split_components(path);
    let outer = split_components(directory);
    let ghost inside = components(path@);
    let ghost outside = components(directory@);
    let depth: usize = outer.len();
    if inner.len() == 0 || inner.len() - 1 != depth {
        return false;
    }
    let mut index: usize = 0;
    while index < depth
        invariant
            inside == components(path@),
            outside == components(directory@),
            texts(inner@) == inside,
            texts(outer@) == outside,
            depth == outer@.len(),
            inner@.len() == depth + 1,
            index <= depth,
            forall|i: int| 0 <= i < index ==> #[trigger] inside[i] == outside[i],
        decreases depth - index,
    {
        proof {
            assert(inside[index as int] == inner@[index as int]@);
            assert(outside[index as int] == outer@[index as int]@);
        }
        if inner[index] != outer[index] {
            proof {
                assert(inside.drop_last()[index as int] == inside[index as int]);
            }
            return false;
        }
        index = index + 1;
    }
    let last = inner[depth].as_str();
    let root = last.unicode_len() == 1 && last.get_char(0) == '/';
    proof {
        assert(inside.drop_last() =~= outside);
        assert(inside[depth as int] == inner@[depth as int]@);
        reveal_strlit("/");
        assert(root == (last@ == "/"@)) by {
            if root {
                assert(last@ =~= "/"@);
            }
        }
    }
    !root
}

/// Trimming takes white space from both ends and nothing else, and leaves none at either end.
pub proof fn law_trim_takes_only_the_white_ends(text: Seq<char>)
    ensures
        trimmed(text).len() > 0 ==> !is_white(trimmed(text).first()) && !is_white(
            trimmed(text).last(),
        ),
        exists|from: int, to: int|
            0 <= from <= to <= text.len() && trimmed(text) == #[trigger] text.subrange(from, to)
                && (forall|i: int|
                0 <= i < text.len() && !(from <= i < to) ==> is_white(#[trigger] text[i])),
    decreases text.len(),
{
    if text.len() > 0 && is_white(text.last()) {
        let front = text.drop_last();
        law_trim_takes_only_the_white_ends(front);
        let (from, to) = choose|from: int, to: int|
            0 <= from <= to <= front.len() && trimmed(front) == #[trigger] front.subrange(from, to)
                && (forall|i: int|
                0 <= i < front.len() && !(from <= i < to) ==> is_white(#[trigger] front[i]));
        assert(text.subrange(from, to) =~= front.subrange(from, to));
        assert forall|i: int| 0 <= i < text.len() && !(from <= i < to) implies is_white(
            #[trigger] text[i],
        ) by {
            if i < front.len() {
                assert(front[i] == text[i]);
            }
        }
    } else if text.len() > 0 && is_white(text.first()) {
        let back = text.skip(1);
        law_trim_takes_only_the_white_ends(back);
        let (from, to) = choose|from: int, to: int|
            0 <= from <= to <= back.len() && trimmed(back) == #[trigger] back.subrange(from, to)
                && (forall|i: int|
                0 <= i < back.len() && !(from <= i < to) ==> is_white(#[trigger] back[i]));
        assert(text.subrange(from + 1, to + 1) =~= back.subrange(from, to));
        assert forall|i: int| 0 <= i < text.len() && !(from + 1 <= i < to + 1) implies is_white(
            #[trigger] text[i],
        ) by {
            if i > 0 {
                assert(back[i - 1] == text[i]);
            }
        }
    } else {
        assert(text.subrange(0, text.len() as int) =~= text);
    }
}

/// A text without a slash.
pub open spec fn plain(text: Seq<char>) -> bool {
    forall|i: int| 0 <= i < text.len() ==> #[trigger] text[i] != '/'
}

/// Characters that are no slashes go to the last segment.
proof fn lemma_segments_longer(text: Seq<char>, more: Seq<char>)
    requires
        plain(more),
    ensures
        segments(text + more) == segments(text).update(
            segments(text).len() - 1,
            segments(text).last() + more,
        ),
    decreases more.len(),
{
    let list = segments(text);
    lemma_segments(text);
    if more.len() == 0 {
        assert(text + more =~= text);
        assert(list.last() + more =~= list.last());
        assert(list.update(list.len() - 1, list.last()) =~= list);
    } else {
        let front = more.drop_last();
        assert(more.last() != '/');
        assert forall|i: int| 0 <= i < front.len() implies #[trigger] front[i] != '/' by {
            assert(more[i] != '/');
        }
        lemma_segments_longer(text, front);
        assert((text + more).drop_last() =~= text + front);
        assert((text + more).last() == more.last());
        assert((list.last() + front).push(more.last()) =~= list.last() + more);
        assert(segments(text + more) =~= list.update(list.len() - 1, list.last() + more));
    }
}

/// A slash begins a new segment, which holds the characters behind it up to the next one.
pub proof fn law_a_slash_begins_a_segment(text: Seq<char>, more: Seq<char>)
    requires
        plain(more),
    ensures
        segments(text + "/"@ + more) == segments(text).push(more),
        segments(more) == seq![more],
{
    reveal_strlit("/");
    let empty = Seq::<char>::empty();
    let longer = text + "/"@;
    assert(longer.drop_last() =~= text);
    assert(longer.last() == '/');
    lemma_segments_longer(longer, more);
    assert(segments(longer).last() + more =~= more);
    assert(segments(text + "/"@ + more) =~= segments(text).push(more));
    lemma_segments_longer(empty, more);
    assert(empty + more =~= more);
    assert(segments(empty) =~= seq![empty]);
    assert(segments(more) =~= seq![more]);
}

/// The components that are counted among the first segments do not depend on those behind them.
proof fn lemma_counted_same(list: Seq<Seq<char>>, other: Seq<Seq<char>>, upto: int)
    requires
        0 <= upto <= list.len(),
        upto <= other.len(),
        forall|i: int| 0 <= i < upto ==> list[i] == #[trigger] other[i],
    ensures
        counted(list, upto) == counted(other, upto),
    decreases upto,
{
    if upto > 0 {
        lemma_counted_same(list, other, upto - 1);
        assert(list[upto - 1] == other[upto - 1]);
    }
}

/// A name that holds no slash and does not stand for the directory itself is one component more
/// than the directory that it is joined to.
pub proof fn law_a_plain_name_is_one_component_more(directory: Seq<char>, name: Seq<char>)
    requires
        plain(name),
        name.len() > 0,
        name != "."@,
    ensures
        components(joined(directory, name)) == components(directory).push(name),
        directly_below(joined(directory, name), directory),
{
    reveal_strlit("/");
    let path = joined(directory, name);
    let list = segments(directory);
    let count = list.len() as int;
    assert(name[0] != '/');
    lemma_segments(directory);
    if directory.len() == 0 || directory.last() == '/' {
        lemma_segments_longer(directory, name);
        assert(list.last() =~= Seq::empty());
        assert(list.last() + name =~= name);
        lemma_counted_same(segments(path), list, count - 1);
        assert(list[count - 1].len() == 0);
        assert(counted(list, count) == counted(list, count - 1));
        assert(segments(path)[count - 1] == name);
        assert(counts(name, count - 1));
    } else {
        law_a_slash_begins_a_segment(directory, name);
        lemma_counted_same(segments(path), list, count);
        assert(segments(path)[count] == name);
        assert(counts(name, count));
    }
    if directory.len() > 0 {
        assert(path[0] == directory[0]);
    } else {
        assert(path =~= name);
    }
    assert(components(path) =~= components(directory).push(name));
    assert(components(path).drop_last() =~= components(directory));
    if name == "/"@ {
        assert(name[0] == '/');
    }
}

/// A name of two parts lies deeper than the directory that it is joined to.
pub proof fn law_a_nested_name_is_not_directly_below(
    directory: Seq<char>,
    outer: Seq<char>,
    inner: Seq<char>,
)
    requires
        plain(outer),
        outer.len() > 0,
        outer != "."@,
        plain(inner),
        inner.len() > 0,
        inner != "."@,
    ensures
        !directly_below(joined(directory, outer + "/"@ + inner), directory),
{
    reveal_strlit("/");
    let middle = joined(directory, outer);
    let nested = outer + "/"@ + inner;
    assert(outer[0] != '/');
    assert(nested[0] == outer[0]);
    law_a_plain_name_is_one_component_more(directory, outer);
    law_a_plain_name_is_one_component_more(middle, inner);
    assert(middle.last() == outer.last());
    assert(middle.last() != '/') by {
        assert(outer[outer.len() - 1] != '/');
    }
    assert(joined(directory, nested) =~= joined(middle, inner));
}

} // verus!
