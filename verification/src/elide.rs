//! Lines that are too wide for a terminal, with their middle left out.
use vstd::prelude::*;

verus! {

/// The end of the digits and semicolons at `i`.
pub open spec fn parameters_end(s: Seq<u8>, i: int) -> int
    decreases s.len() - i,
{
    if 0 <= i < s.len() && (48 <= s[i] <= 57 || s[i] == 59) {
        parameters_end(s, i + 1)
    } else {
        i
    }
}

/// The end of the colour sequence at `i`: an escape character, an opening bracket, digits
/// and semicolons, and an `m`. `None` where there is none.
pub open spec fn colour_end(s: Seq<u8>, i: int) -> Option<int> {
    let end = parameters_end(s, i + 2);
    if i + 1 < s.len() && s[i] == 27 && s[i + 1] == 91 && end < s.len() && s[end] == 109 {
        Some(end + 1)
    } else {
        None
    }
}

/// How many columns `s` takes from `i` on: colour sequences take none.
pub open spec fn columns(s: Seq<u8>, i: int) -> int
    decreases s.len() - i,
{
    if i < 0 || i >= s.len() {
        0
    } else {
        match colour_end(s, i) {
            Some(end) => if i < end {
                columns(s, end)
            } else {
                0
            },
            None => 1 + columns(s, i + 1),
        }
    }
}

/// The position behind the first `n` columns of `s` from `i` on.
pub open spec fn behind_columns(s: Seq<u8>, i: int, n: int) -> int
    decreases s.len() - i,
{
    if n <= 0 || i < 0 || i >= s.len() {
        i
    } else {
        match colour_end(s, i) {
            Some(end) => if i < end {
                behind_columns(s, end, n)
            } else {
                i
            },
            None => behind_columns(s, i + 1, n - 1),
        }
    }
}

/// The colour sequences of `s` between `i` and `j`.
pub open spec fn colours(s: Seq<u8>, i: int, j: int) -> Seq<u8>
    decreases s.len() - i,
{
    if i < 0 || i >= j || i >= s.len() {
        seq![]
    } else {
        match colour_end(s, i) {
            Some(end) => if i < end <= s.len() {
                s.subrange(i, end) + colours(s, end, j)
            } else {
                seq![]
            },
            None => colours(s, i + 1, j),
        }
    }
}

pub open spec fn dots(n: int) -> Seq<u8> {
    Seq::new(n as nat, |i: int| 46u8)
}

/// `s` as it is shown in `width` columns. Where it is wider, three dots stand for its
/// middle, of which only the colours are left; what is left of it on the right is as wide
/// as what is left on the left, or by one column wider.
pub open spec fn elided(s: Seq<u8>, width: int) -> Seq<u8> {
    let all = columns(s, 0);
    let n = if width < 3 {
        width
    } else {
        3
    };
    let left = (width - n) / 2;
    let right = width - n - left;
    let a = behind_columns(s, 0, left);
    let b = behind_columns(s, 0, all - right);
    if all <= width {
        s
    } else {
        s.take(a) + dots(n) + colours(s, a, b) + s.skip(b)
    }
}

proof fn lemma_parameters_end(s: Seq<u8>, i: int)
    requires
        0 <= i,
    ensures
        i <= parameters_end(s, i),
        i <= s.len() ==> parameters_end(s, i) <= s.len(),
        forall|k: int|
            i <= k < parameters_end(s, i) ==> 48 <= #[trigger] s[k] <= 57 || s[k] == 59,
        parameters_end(s, i) < s.len() ==> !(48 <= s[parameters_end(s, i)] <= 57
            || s[parameters_end(s, i)] == 59),
    decreases s.len() - i,
{
    if i < s.len() && (48 <= s[i] <= 57 || s[i] == 59) {
        lemma_parameters_end(s, i + 1);
    }
}

proof fn lemma_colour_end(s: Seq<u8>, i: int)
    requires
        0 <= i,
    ensures
        colour_end(s, i) matches Some(end) ==> i + 2 < end <= s.len(),
{
    lemma_parameters_end(s, i + 2);
}

fn find_colour_end(s: &[u8], i: usize) -> (r: Option<usize>)
    requires
        i < s@.len(),
    ensures
        match r {
            Some(end) => colour_end(s@, i as int) == Some(end as int) && i < end <= s@.len(),
            None => colour_end(s@, i as int) is None,
        },
{
    if s[i] != 27 || s.len() - i < 2 || s[i + 1] != 91 {
        return None;
    }
    let mut end: usize = i + 2;
    while end < s.len() && ((48 <= s[end] && s[end] <= 57) || s[end] == 59)
        invariant
            i + 2 <= end <= s@.len(),
            parameters_end(s@, i + 2) == parameters_end(s@, end as int),
        decreases s@.len() - end,
    {
        end += 1;
    }
    if end < s.len() && s[end] == 109 {
        Some(end + 1)
    } else {
        None
    }
}

fn count_columns(s: &[u8]) -> (r: usize)
    ensures
        r == columns(s@, 0),
{
    let mut n: usize = 0;
    let mut i: usize = 0;
    while i < s.len()
        invariant
            n <= i <= s@.len(),
            columns(s@, 0) == n + columns(s@, i as int),
        decreases s@.len() - i,
    {
        match find_colour_end(s, i) {
            Some(end) => {
                i = end;
            },
            None => {
                i += 1;
                n += 1;
            },
        }
    }
    n
}

fn find_behind(s: &[u8], n: usize) -> (r: usize)
    ensures
        r == behind_columns(s@, 0, n as int),
        r <= s@.len(),
{
    let mut left: usize = n;
    let mut i: usize = 0;
    while left > 0 && i < s.len()
        invariant
            i <= s@.len(),
            behind_columns(s@, 0, n as int) == behind_columns(s@, i as int, left as int),
        decreases s@.len() - i,
    {
        match find_colour_end(s, i) {
            Some(end) => {
                i = end;
            },
            None => {
                i += 1;
                left -= 1;
            },
        }
    }
    i
}

fn push_range(out: &mut Vec<u8>, s: &[u8], from: usize, to: usize)
    requires
        from <= to <= s@.len(),
    ensures
        final(out)@ == old(out)@ + s@.subrange(from as int, to as int),
{
    let ghost start = out@;
    let mut i: usize = from;
    proof {
        assert(start + s@.subrange(from as int, from as int) =~= start);
    }
    while i < to
        invariant
            from <= i <= to <= s@.len(),
            out@ == start + s@.subrange(from as int, i as int),
        decreases to - i,
    {
        out.push(s[i]);
        proof {
            assert(out@ =~= start + s@.subrange(from as int, i + 1));
        }
        i += 1;
    }
}

/// A line as it is shown in `width` columns.
pub fn elide_middle(s: &[u8], width: usize) -> (r: Vec<u8>)
    ensures
        r@ == elided(s@, width as int),
{
    let mut r: Vec<u8> = Vec::new();
    let all: usize = count_columns(s);
    if all <= width {
        push_range(&mut r, s, 0, s.len());
        proof {
            assert(r@ =~= s@);
        }
        return r;
    }
    let n: usize = if width < 3 {
        width
    } else {
        3
    };
    let left: usize = (width - n) / 2;
    let right: usize = width - n - left;
    let a: usize = find_behind(s, left);
    let b: usize = find_behind(s, all - right);
    push_range(&mut r, s, 0, a);
    let ghost front = s@.take(a as int);
    proof {
        assert(r@ =~= front);
        assert(front + dots(0) =~= front);
    }
    let mut k: usize = 0;
    while k < n
        invariant
            k <= n,
            r@ =~= front + dots(k as int),
        decreases n - k,
    {
        r.push(46);
        k += 1;
    }
    let ghost head = r@;
    let mut i: usize = a;
    proof {
        assert(head + colours(s@, a as int, b as int) =~= r@ + colours(s@, i as int, b as int));
    }
    while i < b
        invariant
            i <= s@.len(),
            b <= s@.len(),
            r@ + colours(s@, i as int, b as int) =~= head + colours(s@, a as int, b as int),
        decreases s@.len() - i,
    {
        let ghost before = r@;
        match find_colour_end(s, i) {
            Some(end) => {
                push_range(&mut r, s, i, end);
                proof {
                    let piece = s@.subrange(i as int, end as int);
                    assert(before + (piece + colours(s@, end as int, b as int)) =~= r@ + colours(
                        s@,
                        end as int,
                        b as int,
                    ));
                }
                i = end;
            },
            None => {
                i += 1;
            },
        }
    }
    proof {
        assert(r@ + colours(s@, i as int, b as int) =~= r@);
    }
    push_range(&mut r, s, b, s.len());
    proof {
        assert(s@.subrange(b as int, s@.len() as int) =~= s@.skip(b as int));
        assert(r@ =~= elided(s@, width as int));
    }
    r
}

proof fn lemma_behind_columns(s: Seq<u8>, i: int, n: int)
    requires
        0 <= i <= s.len(),
        0 <= n <= columns(s, i),
    ensures
        i <= behind_columns(s, i, n) <= s.len(),
        columns(s, i) == n + columns(s, behind_columns(s, i, n)),
    decreases s.len() - i,
{
    if n > 0 && i < s.len() {
        lemma_colour_end(s, i);
        match colour_end(s, i) {
            Some(end) => lemma_behind_columns(s, end, n),
            None => lemma_behind_columns(s, i + 1, n - 1),
        }
    }
}

proof fn lemma_parameters_behind(x: Seq<u8>, t: Seq<u8>, i: int)
    requires
        0 <= i,
    ensures
        parameters_end(x + t, x.len() + i) == x.len() + parameters_end(t, i),
    decreases t.len() - i,
{
    if i < t.len() {
        assert((x + t)[x.len() + i] == t[i]);
        lemma_parameters_behind(x, t, i + 1);
    }
}

/// What stands before a text does not change its columns.
proof fn lemma_columns_behind(x: Seq<u8>, t: Seq<u8>, i: int)
    requires
        0 <= i,
    ensures
        columns(x + t, x.len() + i) == columns(t, i),
    decreases t.len() - i,
{
    let u = x + t;
    let n = x.len() as int;
    if i < t.len() {
        lemma_parameters_behind(x, t, i + 2);
        lemma_parameters_end(t, i + 2);
        assert(u[n + i] == t[i]);
        if i + 1 < t.len() {
            assert(u[n + i + 1] == t[i + 1]);
        }
        let end = parameters_end(t, i + 2);
        if end < t.len() {
            assert(u[n + end] == t[end]);
        }
        match colour_end(t, i) {
            Some(after) => {
                lemma_colour_end(t, i);
                assert(colour_end(u, n + i) == Some(n + after));
                lemma_columns_behind(x, t, after);
            },
            None => {
                assert(colour_end(u, n + i) is None);
                lemma_columns_behind(x, t, i + 1);
            },
        }
    }
}

/// A colour sequence is settled by its bytes.
proof fn lemma_same_colour(s: Seq<u8>, i: int, u: Seq<u8>, j: int)
    requires
        0 <= i < s.len(),
        0 <= j,
        colour_end(s, i) matches Some(end) && j + (end - i) <= u.len() && forall|k: int|
            0 <= k < end - i ==> #[trigger] u[j + k] == s[i + k],
    ensures
        colour_end(u, j) == Some(j + (colour_end(s, i)->Some_0 - i)),
{
    let end = colour_end(s, i)->Some_0;
    let n = end - i;
    lemma_parameters_end(s, i + 2);
    lemma_parameters_end(u, j + 2);
    assert(u[j + 0] == s[i + 0]);
    assert(u[j + 1] == s[i + 1]);
    assert(u[j + (n - 1)] == s[i + (n - 1)]);
    let last = parameters_end(u, j + 2);
    if last < j + n - 1 {
        let k = last - j;
        assert(u[j + k] == s[i + k]);
        assert(48 <= s[i + k] <= 57 || s[i + k] == 59);
    }
    if last > j + n - 1 {
        assert(48 <= u[j + (n - 1)] <= 57 || u[j + (n - 1)] == 59);
    }
}

/// The first `n` columns of a text stay so many where a dot follows them.
proof fn lemma_front_columns(s: Seq<u8>, i: int, n: int, t: Seq<u8>)
    requires
        0 <= i <= s.len(),
        0 <= n <= columns(s, i),
        t.len() > 0,
        t[0] == 46,
    ensures
        columns(s.take(behind_columns(s, i, n)) + t, i) == n + columns(t, 0),
    decreases s.len() - i,
{
    let a = behind_columns(s, i, n);
    let u = s.take(a) + t;
    lemma_behind_columns(s, i, n);
    if n == 0 || i >= s.len() {
        lemma_columns_behind(s.take(a), t, 0);
    } else {
        lemma_colour_end(s, i);
        match colour_end(s, i) {
            Some(end) => {
                lemma_behind_columns(s, end, n);
                lemma_front_columns(s, end, n, t);
                assert forall|k: int| 0 <= k < end - i implies #[trigger] u[i + k] == s[i + k] by {}
                lemma_same_colour(s, i, u, i);
            },
            None => {
                lemma_behind_columns(s, i + 1, n - 1);
                lemma_front_columns(s, i + 1, n - 1, t);
                if let Some(end) = colour_end(u, i) {
                    lemma_parameters_end(u, i + 2);
                    assert(u[a] == 46);
                    assert(end <= a) by {
                        if a > i + 1 && a < end - 1 {
                            assert(48 <= u[a] <= 57 || u[a] == 59);
                        }
                    }
                    lemma_colour_end(u, i);
                    assert forall|k: int| 0 <= k < end - i implies #[trigger] s[i + k] == u[i
                        + k] by {}
                    lemma_same_colour(u, i, s, i);
                }
            },
        }
    }
}

proof fn lemma_dots_columns(n: int, t: Seq<u8>, i: int)
    requires
        0 <= i <= n,
    ensures
        columns(dots(n) + t, i) == n - i + columns(t, 0),
    decreases n - i,
{
    let u = dots(n) + t;
    if i < n {
        assert(u[i] == 46);
        lemma_dots_columns(n, t, i + 1);
    } else {
        lemma_columns_behind(dots(n), t, 0);
    }
}

proof fn lemma_colours_take_no_column(s: Seq<u8>, i: int, j: int, t: Seq<u8>)
    ensures
        columns(colours(s, i, j) + t, 0) == columns(t, 0),
    decreases s.len() - i,
{
    if i < 0 || i >= j || i >= s.len() {
        assert(colours(s, i, j) + t =~= t);
    } else {
        lemma_colour_end(s, i);
        match colour_end(s, i) {
            Some(end) => {
                let piece = s.subrange(i, end);
                let rest = colours(s, end, j) + t;
                lemma_colours_take_no_column(s, end, j, t);
                let u = piece + rest;
                assert(colours(s, i, j) + t =~= u);
                assert forall|k: int| 0 <= k < end - i implies #[trigger] u[0 + k] == s[i + k] by {}
                lemma_same_colour(s, i, u, 0);
                lemma_columns_behind(piece, rest, 0);
            },
            None => {
                lemma_colours_take_no_column(s, i + 1, j, t);
            },
        }
    }
}

/// A line that is shown in `width` columns takes no more, and all of them where its middle
/// was left out.
pub proof fn law_shown_line_fits(s: Seq<u8>, width: int)
    requires
        0 <= width,
    ensures
        columns(elided(s, width), 0) <= width,
        columns(s, 0) > width ==> columns(elided(s, width), 0) == width,
{
    let all = columns(s, 0);
    if all > width {
        let n = if width < 3 {
            width
        } else {
            3
        };
        let left = (width - n) / 2;
        let right = width - n - left;
        let a = behind_columns(s, 0, left);
        let b = behind_columns(s, 0, all - right);
        lemma_behind_columns(s, 0, left);
        lemma_behind_columns(s, 0, all - right);
        let tail = s.skip(b);
        assert(s.take(b) + tail =~= s);
        lemma_columns_behind(s.take(b), tail, 0);
        assert(columns(tail, 0) == right);
        lemma_colours_take_no_column(s, a, b, tail);
        let middle = colours(s, a, b) + tail;
        lemma_dots_columns(n, middle, 0);
        let back = dots(n) + middle;
        let whole = elided(s, width);
        assert(whole =~= s.take(a) + back);
        if left == 0 {
            assert(whole =~= back);
        } else {
            assert(back[0] == 46);
            lemma_front_columns(s, 0, left, back);
        }
    }
}

proof fn lemma_plain_columns(s: Seq<u8>, i: int)
    requires
        0 <= i <= s.len(),
        forall|k: int| 0 <= k < s.len() ==> #[trigger] s[k] != 27,
    ensures
        columns(s, i) == s.len() - i,
    decreases s.len() - i,
{
    if i < s.len() {
        assert(s[i] != 27);
        lemma_plain_columns(s, i + 1);
    }
}

proof fn lemma_behind_plain_columns(s: Seq<u8>, i: int, n: int)
    requires
        0 <= i,
        0 <= n,
        i + n <= s.len(),
        forall|k: int| 0 <= k < s.len() ==> #[trigger] s[k] != 27,
    ensures
        behind_columns(s, i, n) == i + n,
    decreases n,
{
    if n > 0 {
        assert(s[i] != 27);
        lemma_behind_plain_columns(s, i + 1, n - 1);
    }
}

proof fn lemma_no_colours(s: Seq<u8>, i: int, j: int)
    requires
        0 <= i,
        forall|k: int| 0 <= k < s.len() ==> #[trigger] s[k] != 27,
    ensures
        colours(s, i, j) == Seq::<u8>::empty(),
    decreases s.len() - i,
{
    if i < j && i < s.len() {
        assert(s[i] != 27);
        lemma_no_colours(s, i + 1, j);
    }
}

/// A line without colours is shown as it is where it fits. Where it does not, its beginning and
/// its end are shown with three dots between them, as much of the one as of the other, or one
/// column more of the end.
pub proof fn law_beginning_and_end_are_shown(s: Seq<u8>, width: int, left: int)
    requires
        3 <= width,
        forall|k: int| 0 <= k < s.len() ==> #[trigger] s[k] != 27,
        width - 3 == 2 * left || width - 3 == 2 * left + 1,
    ensures
        s.len() <= width ==> elided(s, width) == s,
        s.len() > width ==> elided(s, width) == s.take(left) + seq![46u8, 46u8, 46u8] + s.skip(
            s.len() - (width - 3 - left),
        ),
{
    lemma_plain_columns(s, 0);
    if s.len() > width {
        let right = width - 3 - left;
        assert((width - 3) / 2 == left);
        lemma_behind_plain_columns(s, 0, left);
        lemma_behind_plain_columns(s, 0, s.len() - right);
        lemma_no_colours(s, left, s.len() - right);
        assert(dots(3) =~= seq![46u8, 46u8, 46u8]);
        assert(elided(s, width) =~= s.take(left) + seq![46u8, 46u8, 46u8] + s.skip(
            s.len() - right,
        ));
    }
}

} // verus!
