//! What can be relied on where a path is seen from the current directory.
use crate::paths;
use crate::relative;
use crate::text;
use crate::text::Class;
use vstd::prelude::*;

verus! {

/// Whether a text can be the name of a file or a directory in a path.
pub open spec fn is_name(s: Seq<char>) -> bool {
    s.len() > 0 && !s.contains('/') && s != seq!['.'] && s != seq!['.', '.']
}

pub open spec fn are_names(list: Seq<Seq<char>>) -> bool {
    forall|i: int| 0 <= i < list.len() ==> is_name(#[trigger] list[i])
}

/// Names with slashes between them.
pub open spec fn path(list: Seq<Seq<char>>) -> Seq<char>
    decreases list.len(),
{
    if list.len() == 0 {
        seq![]
    } else if list.len() == 1 {
        list[0]
    } else {
        list[0] + seq!['/'] + path(list.skip(1))
    }
}

/// `n` times `..`.
pub open spec fn ups(n: nat) -> Seq<Seq<char>>
    decreases n,
{
    if n == 0 {
        seq![]
    } else {
        seq![seq!['.', '.']] + ups((n - 1) as nat)
    }
}

proof fn lemma_slash(s: Seq<char>, i: int, end: int)
    requires
        0 <= i <= end <= s.len(),
        end < s.len() ==> s[end] == '/',
        forall|k: int| i <= k < end ==> #[trigger] s[k] != '/',
    ensures
        text::first_in(s, i, Class::Slash) == end,
    decreases end - i,
{
    if i < end {
        lemma_slash(s, i + 1, end);
    }
}

proof fn lemma_names(pre: Seq<char>, list: Seq<Seq<char>>)
    requires
        are_names(list),
    ensures
        relative::names(pre + path(list), pre.len() as int) == list,
    decreases list.len(),
{
    let s = pre + path(list);
    let i = pre.len() as int;
    if list.len() == 0 {
        assert(relative::names(s, i) =~= list);
    } else {
        let own = list[0];
        let end = i + own.len();
        assert(is_name(own));
        assert forall|k: int| i <= k < end implies #[trigger] s[k] != '/' by {
            assert(s[k] == own[k - i]);
            assert(own.contains(own[k - i]));
        }
        assert(s.subrange(i, end) =~= own);
        if list.len() == 1 {
            lemma_slash(s, i, end);
            assert(relative::names(s, i) =~= seq![own]);
            assert(list =~= seq![own]);
        } else {
            assert(s[end] == '/');
            lemma_slash(s, i, end);
            let front = pre + own + seq!['/'];
            assert(s =~= front + path(list.skip(1)));
            assert(are_names(list.skip(1))) by {
                assert forall|k: int| 0 <= k < list.skip(1).len() implies is_name(
                    #[trigger] list.skip(1)[k],
                ) by {
                    assert(list.skip(1)[k] == list[k + 1]);
                }
            }
            lemma_names(front, list.skip(1));
            assert(list =~= seq![own] + list.skip(1));
        }
    }
}

proof fn lemma_slashed(list: Seq<Seq<char>>, n: int)
    requires
        0 <= n <= list.len(),
    ensures
        relative::slashed(list, n) == path(list.take(n)),
    decreases n,
{
    let part = list.take(n);
    if n > 1 {
        lemma_slashed(list, n - 1);
        lemma_longer(list.take(n - 1), list[n - 1]);
        assert(list.take(n - 1).push(list[n - 1]) =~= part);
        assert(relative::slashed(list, n) =~= path(list.take(n - 1)) + seq!['/'] + list[n - 1]);
    }
}

proof fn lemma_longer(list: Seq<Seq<char>>, last: Seq<char>)
    requires
        list.len() > 0,
    ensures
        path(list.push(last)) == path(list) + seq!['/'] + last,
    decreases list.len(),
{
    let longer = list.push(last);
    if list.len() == 1 {
        assert(longer.skip(1) =~= seq![last]);
        assert(path(seq![last]) == last);
    } else {
        lemma_longer(list.skip(1), last);
        assert(longer.skip(1) =~= list.skip(1).push(last));
        assert(path(longer) =~= path(list) + seq!['/'] + last);
    }
}

proof fn lemma_no_steps_up(list: Seq<Seq<char>>, n: int)
    requires
        are_names(list),
        0 <= n <= list.len(),
    ensures
        relative::descended(list, n) == list.take(n),
    decreases n,
{
    if n > 0 {
        lemma_no_steps_up(list, n - 1);
        assert(is_name(list[n - 1]));
        assert(list.take(n - 1).push(list[n - 1]) =~= list.take(n));
    } else {
        assert(list.take(0) =~= seq![]);
    }
}

proof fn lemma_all_names(a: Seq<Seq<char>>, b: Seq<Seq<char>>)
    requires
        are_names(a),
        are_names(b),
    ensures
        are_names(a + b),
{
    assert forall|i: int| 0 <= i < (a + b).len() implies is_name(#[trigger] (a + b)[i]) by {
        if i < a.len() {
            assert((a + b)[i] == a[i]);
        } else {
            assert((a + b)[i] == b[i - a.len()]);
        }
    }
}

/// A file in the current directory, or below it, is seen by the names that lead from there, and
/// one that is not stays as it is. A path that does not begin at the root is seen from where it
/// is.
pub proof fn law_posix_path_is_seen_from_the_current_directory(
    current: Seq<Seq<char>>,
    inner: Seq<Seq<char>>,
)
    requires
        are_names(current),
        are_names(inner),
    ensures
        relative::posix_relative(
            seq!['/'] + path(current + inner),
            seq!['/'] + path(current),
        ) == path(inner),
        relative::posix_relative(path(inner), seq!['/'] + path(current)) == path(inner),
        !current.is_prefix_of(inner) ==> relative::posix_relative(
            seq!['/'] + path(inner),
            seq!['/'] + path(current),
        ) == seq!['/'] + path(inner),
{
    let root = seq!['/'];
    let all = current + inner;
    lemma_all_names(current, inner);
    lemma_rooted(all);
    lemma_rooted(current);
    lemma_rooted(inner);
    lemma_names(seq![], inner);
    assert(Seq::<char>::empty() + path(inner) =~= path(inner));
    assert(all.skip(current.len() as int) =~= inner);
    assert(current.is_prefix_of(all));
    lemma_slashed(inner, inner.len() as int);
    assert(inner.take(inner.len() as int) =~= inner);
    if inner.len() > 0 {
        assert(is_name(inner[0]));
        assert(path(inner)[0] == inner[0][0]);
        assert(inner[0].contains(inner[0][0]));
    }
}

proof fn lemma_rooted(list: Seq<Seq<char>>)
    requires
        are_names(list),
    ensures
        relative::names(seq!['/'] + path(list), 0) == list,
{
    let s = seq!['/'] + path(list);
    lemma_names(seq!['/'], list);
    lemma_slash(s, 0, 0);
    assert(s.subrange(0, 0) =~= seq![]);
}

proof fn lemma_shared(
    a: Seq<Seq<char>>,
    x: Seq<Seq<char>>,
    y: Seq<Seq<char>>,
    i: int,
)
    requires
        0 <= i <= a.len(),
        x.len() > 0 && y.len() > 0 ==> text::lowered(x[0]) != text::lowered(y[0]),
    ensures
        relative::shared(a + x, a + y, i) == a.len(),
    decreases a.len() - i,
{
    if i < a.len() {
        assert((a + x)[i] == a[i]);
        assert((a + y)[i] == a[i]);
        lemma_shared(a, x, y, i + 1);
    } else if x.len() > 0 && y.len() > 0 {
        assert((a + x)[i] == x[0]);
        assert((a + y)[i] == y[0]);
    }
}

proof fn lemma_ups(n: nat)
    ensures
        relative::steps_up(n as int) == ups(n),
    decreases n,
{
    if n > 0 {
        lemma_ups((n - 1) as nat);
    }
    assert(relative::steps_up(n as int) =~= ups(n));
}

/// On Windows a file is seen from the current directory by as many steps up as lead to what the
/// two have in common, and the names that lead from there to the file; what they have in common
/// is `.`.
pub proof fn law_windows_path_is_seen_from_the_current_directory(
    drive: Seq<char>,
    common: Seq<Seq<char>>,
    to: Seq<Seq<char>>,
    from: Seq<Seq<char>>,
)
    requires
        drive.len() == 2,
        drive[1] == ':',
        'a' <= drive[0] <= 'z',
        are_names(common),
        are_names(to),
        are_names(from),
        to.len() > 0 && from.len() > 0 ==> text::lowered(to[0]) != text::lowered(from[0]),
        ({
            let file = drive + seq!['/'] + path(common + to);
            let current = drive + seq!['/'] + path(common + from);
            &&& paths::canonical(file, true).0 == file
            &&& paths::canonical(current, true).0 == current
        }),
    ensures
        ({
            let file = drive + seq!['/'] + path(common + to);
            let current = drive + seq!['/'] + path(common + from);
            relative::windows_relative(file, current) == if from.len() == 0 && to.len() == 0 {
                seq!['.']
            } else {
                path(ups(from.len()) + to)
            }
        }),
{
    let p = drive + seq!['/'] + path(common + to);
    let c = drive + seq!['/'] + path(common + from);
    let a = common + to;
    let b = common + from;
    lemma_all_names(common, to);
    lemma_all_names(common, from);
    assert(p.skip(2) =~= seq!['/'] + path(a));
    assert(c.skip(2) =~= seq!['/'] + path(b));
    assert(p.take(2) =~= drive);
    assert(c.take(2) =~= drive);
    assert(p[0] == drive[0] && p[1] == drive[1]);
    assert(c[0] == drive[0] && c[1] == drive[1]);
    lemma_rooted(a);
    lemma_rooted(b);
    lemma_no_steps_up(a, a.len() as int);
    lemma_no_steps_up(b, b.len() as int);
    assert(a.take(a.len() as int) =~= a);
    assert(b.take(b.len() as int) =~= b);
    lemma_shared(common, to, from, 0);
    lemma_ups(from.len());
    assert(a.skip(common.len() as int) =~= to);
    let list = ups(from.len()) + to;
    assert(relative::steps_up(from.len() as int).len() == from.len());
    lemma_slashed(list, list.len() as int);
    assert(list.take(list.len() as int) =~= list);
}

} // verus!
