//! What can be relied on where a text is taken apart into lines.
use crate::lines;
use crate::text;
use crate::text::Class;
use vstd::prelude::*;

verus! {

/// Lines, each with what ends it: a line feed, with a carriage return before it where that is
/// asked for.
pub open spec fn ended(list: Seq<(Seq<char>, bool)>) -> Seq<char>
    decreases list.len(),
{
    if list.len() == 0 {
        seq![]
    } else {
        list[0].0 + (if list[0].1 {
            seq!['\r', '\n']
        } else {
            seq!['\n']
        }) + ended(list.skip(1))
    }
}

/// Whether a text can be a line: it has no line feed, and no carriage return at its end where
/// only a line feed follows.
pub open spec fn is_line(line: (Seq<char>, bool)) -> bool {
    !line.0.contains('\n') && (line.1 || line.0.len() == 0 || line.0.last() != '\r')
}

proof fn lemma_feed(s: Seq<char>, i: int, end: int)
    requires
        0 <= i <= end < s.len(),
        s[end] == '\n',
        forall|k: int| i <= k < end ==> #[trigger] s[k] != '\n',
    ensures
        text::first_in(s, i, Class::Is('\n')) == end,
    decreases end - i,
{
    if i < end {
        lemma_feed(s, i + 1, end);
    }
}

proof fn lemma_lines(pre: Seq<char>, list: Seq<(Seq<char>, bool)>)
    requires
        forall|i: int| 0 <= i < list.len() ==> is_line(#[trigger] list[i]),
    ensures
        text::text_lines(pre + ended(list), pre.len() as int) == list.map_values(
            |line: (Seq<char>, bool)| line.0,
        ),
    decreases list.len(),
{
    let s = pre + ended(list);
    let i = pre.len() as int;
    let f = |line: (Seq<char>, bool)| line.0;
    if list.len() == 0 {
        assert(text::text_lines(s, i) =~= list.map_values(f));
    } else {
        let (own, cr) = list[0];
        let mark = if cr {
            seq!['\r', '\n']
        } else {
            seq!['\n']
        };
        let front = pre + own + mark;
        let end = front.len() - 1;
        assert(is_line(list[0]));
        assert(s =~= front + ended(list.skip(1)));
        assert(s[end] == front[end]);
        assert forall|k: int| i <= k < end implies #[trigger] s[k] != '\n' by {
            assert(s[k] == front[k]);
            if k < i + own.len() {
                assert(front[k] == own[k - i]);
                assert(own.contains(own[k - i]));
            }
        }
        lemma_feed(s, i, end);
        if cr {
            assert(s.subrange(i, end) =~= own.push('\r'));
            assert(own.push('\r').drop_last() =~= own);
        } else {
            assert(s.subrange(i, end) =~= own);
        }
        assert forall|k: int| 0 <= k < list.skip(1).len() implies is_line(
            #[trigger] list.skip(1)[k],
        ) by {
            assert(list.skip(1)[k] == list[k + 1]);
        }
        lemma_lines(front, list.skip(1));
        assert(list.map_values(f) =~= seq![own] + list.skip(1).map_values(f));
    }
}

/// The lines of a text are those that it was made of, whether line feeds have carriage returns
/// before them or not.
pub proof fn law_lines_of_a_text(list: Seq<(Seq<char>, bool)>)
    requires
        forall|i: int| 0 <= i < list.len() ==> is_line(#[trigger] list[i]),
    ensures
        text::text_lines(ended(list), 0) == list.map_values(|line: (Seq<char>, bool)| line.0),
{
    lemma_lines(seq![], list);
    assert(Seq::<char>::empty() + ended(list) =~= ended(list));
}

/// A dollar sign at the end of a line has it go on, and one before that takes the meaning of
/// the last away. A line that ends otherwise does not go on.
pub proof fn law_dollar_sign_has_a_line_go_on(s: Seq<char>, c: char)
    ensures
        lines::is_continued(s.push('$')) == !lines::is_continued(s),
        c != '$' ==> !lines::is_continued(s.push(c)),
        !lines::is_continued(Seq::<char>::empty()),
{
    assert(s.push('$').drop_last() =~= s);
}

/// The parts of a logical line, one behind the other.
pub open spec fn joined(parts: Seq<Seq<char>>) -> Seq<char>
    decreases parts.len(),
{
    if parts.len() == 0 {
        seq![]
    } else {
        joined(parts.drop_last()) + parts.last()
    }
}

/// Whether a text can be a part of a logical line: it does not end in a dollar sign, and one
/// behind the first does not begin with white space.
pub open spec fn is_part(s: Seq<char>, first: bool) -> bool {
    s.len() > 0 ==> s.last() != '$' && (first || !text::is_space(s[0]))
}

/// Part `i` of `n`, as it is written on a line of its own.
pub open spec fn line_of(part: Seq<char>, indent: Seq<char>, i: int, n: int) -> Seq<char> {
    (if i == 0 {
        seq![]
    } else {
        indent
    }) + part + (if i < n - 1 {
        seq!['$']
    } else {
        seq![]
    })
}

/// Whether parts of a logical line stand on the lines from `k` on.
pub open spec fn stand_at(
    all: Seq<Seq<char>>,
    k: int,
    parts: Seq<Seq<char>>,
    indents: Seq<Seq<char>>,
) -> bool {
    &&& parts.len() > 0
    &&& indents.len() == parts.len()
    &&& 0 <= k && k + parts.len() <= all.len()
    &&& forall|i: int|
        0 <= i < parts.len() ==> is_part(#[trigger] parts[i], i == 0) && (forall|j: int|
            0 <= j < indents[i].len() ==> text::is_space(#[trigger] indents[i][j])) && all[k + i]
            == line_of(parts[i], indents[i], i, parts.len() as int)
}

proof fn lemma_not_continued(s: Seq<char>)
    requires
        s.len() > 0 ==> s.last() != '$',
    ensures
        !lines::is_continued(s),
        lines::is_continued(s.push('$')),
{
    assert(s.push('$').drop_last() =~= s);
}

proof fn lemma_joined_ends(parts: Seq<Seq<char>>)
    requires
        forall|i: int| 0 <= i < parts.len() ==> is_part(#[trigger] parts[i], i == 0),
    ensures
        joined(parts).len() > 0 ==> joined(parts).last() != '$',
    decreases parts.len(),
{
    if parts.len() > 0 {
        let before = parts.drop_last();
        assert forall|i: int| 0 <= i < before.len() implies is_part(
            #[trigger] before[i],
            i == 0,
        ) by {
            assert(before[i] == parts[i]);
        }
        lemma_joined_ends(before);
        assert(is_part(parts[parts.len() - 1], parts.len() == 1));
        if parts.last().len() == 0 {
            assert(joined(parts) =~= joined(before));
        } else {
            assert(joined(parts).last() == parts.last().last());
        }
    }
}

proof fn lemma_indent(s: Seq<char>, i: int, end: int)
    requires
        0 <= i <= end <= s.len(),
        forall|k: int| i <= k < end ==> text::is_space(#[trigger] s[k]),
        end < s.len() ==> !text::is_space(s[end]),
    ensures
        text::first_not_in(s, i, Class::Space) == end,
    decreases end - i,
{
    if i < end {
        lemma_indent(s, i + 1, end);
    }
}

proof fn lemma_goes_on(
    all: Seq<Seq<char>>,
    k: int,
    parts: Seq<Seq<char>>,
    indents: Seq<Seq<char>>,
    i: int,
)
    requires
        stand_at(all, k, parts, indents),
        1 <= i < parts.len(),
    ensures
        lines::continuation(all, k + i, joined(parts.take(i))) == (
            joined(parts),
            k + parts.len(),
        ),
    decreases parts.len() - i,
{
    let n = parts.len() as int;
    let part = parts[i];
    let indent = indents[i];
    let line = all[k + i];
    let behind = line_of(part, seq![], i, n);
    assert(line == line_of(part, indent, i, n));
    assert(line =~= indent + behind);
    if indent.len() < line.len() {
        assert(line[indent.len() as int] == behind[0]);
        if part.len() > 0 {
            assert(behind[0] == part[0]);
        }
    }
    lemma_indent(line, 0, indent.len() as int);
    assert(line.skip(indent.len() as int) =~= behind);
    let more = parts.take(i + 1);
    assert(more.drop_last() =~= parts.take(i));
    assert(joined(more) == joined(parts.take(i)) + part);
    assert forall|j: int| 0 <= j < more.len() implies is_part(#[trigger] more[j], j == 0) by {
        assert(more[j] == parts[j]);
    }
    lemma_joined_ends(more);
    lemma_not_continued(joined(more));
    let longer = joined(parts.take(i)) + behind;
    if i < n - 1 {
        assert(longer =~= joined(more).push('$'));
        assert(longer.drop_last() =~= joined(more));
        lemma_goes_on(all, k, parts, indents, i + 1);
    } else {
        assert(longer =~= joined(more));
        assert(more =~= parts);
    }
}

/// The parts of a logical line, each on a line of its own that ends in a dollar sign where
/// another follows, make one line, without the white space before them. It counts as the line
/// that it begins on, and the next begins behind it.
pub proof fn law_parts_of_a_line_are_joined(
    all: Seq<Seq<char>>,
    k: int,
    parts: Seq<Seq<char>>,
    indents: Seq<Seq<char>>,
)
    requires
        stand_at(all, k, parts, indents),
    ensures
        lines::logical_from(all, k) == seq![((k + 1) as usize, joined(parts))]
            + lines::logical_from(all, k + parts.len()),
{
    let n = parts.len() as int;
    let first = parts.take(1);
    assert(first.drop_last() =~= seq![]);
    assert(joined(first.drop_last()) =~= seq![]);
    assert(joined(first) =~= parts[0]);
    assert(is_part(parts[0], true));
    assert(all[k + 0] == line_of(parts[0], indents[0], 0, n));
    lemma_not_continued(parts[0]);
    if n == 1 {
        assert(all[k] =~= parts[0]);
        assert(first =~= parts);
    } else {
        assert(all[k] =~= parts[0].push('$'));
        assert(all[k].drop_last() =~= parts[0]);
        lemma_goes_on(all, k, parts, indents, 1);
    }
    assert(lines::logical_at(all, k) == (joined(parts), k + n));
}

} // verus!
