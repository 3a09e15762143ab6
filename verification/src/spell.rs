//! Spelling suggestions by edit distance.
use vstd::prelude::*;
use vstd::utf8::*;

verus! {

pub open spec fn least(a: int, b: int) -> int {
    if a <= b {
        a
    } else {
        b
    }
}

/// The edit distance between the first `i` bytes of `a` and the first `j` bytes
/// of `b`: how many insertions, deletions and, where `replace` allows them,
/// replacements turn one into the other. A replacement that is not allowed
/// costs `limit`.
pub open spec fn distance(
    a: Seq<u8>,
    b: Seq<u8>,
    replace: bool,
    limit: int,
    i: int,
    j: int,
) -> int
    decreases i + j,
{
    if i <= 0 {
        j
    } else if j <= 0 {
        i
    } else {
        let diagonal = distance(a, b, replace, limit, i - 1, j - 1);
        let replaced = if a[i - 1] == b[j - 1] {
            diagonal
        } else if replace {
            diagonal + 1
        } else {
            limit
        };
        least(
            replaced,
            least(
                distance(a, b, replace, limit, i, j - 1),
                distance(a, b, replace, limit, i - 1, j),
            ) + 1,
        )
    }
}

/// What a replacement that is not allowed costs: one more than `maximum`.
pub open spec fn cost_limit(maximum: usize) -> int {
    least(maximum + 1, usize::MAX as int)
}

/// Whether the first `i` bytes of `a` are further than `maximum` from every
/// beginning of `b`.
pub open spec fn far(a: Seq<u8>, b: Seq<u8>, replace: bool, maximum: usize, i: int) -> bool {
    forall|j: int|
        0 <= j <= b.len() ==> #[trigger] distance(a, b, replace, cost_limit(maximum), i, j)
            > maximum
}

/// The edit distance, cut off as soon as it is known to be above `maximum`.
pub open spec fn bounded_distance(a: Seq<u8>, b: Seq<u8>, replace: bool, maximum: usize) -> int {
    if exists|i: int| 1 <= i <= a.len() && far(a, b, replace, maximum, i) {
        cost_limit(maximum)
    } else {
        distance(a, b, replace, cost_limit(maximum), a.len() as int, b.len() as int)
    }
}

proof fn lemma_distance_range(
    a: Seq<u8>,
    b: Seq<u8>,
    replace: bool,
    limit: int,
    i: int,
    j: int,
    bound: int,
)
    requires
        0 <= i <= bound,
        0 <= j <= bound,
        0 <= limit <= bound,
    ensures
        0 <= distance(a, b, replace, limit, i, j),
        distance(a, b, replace, limit, i, j) <= bound,
        replace ==> distance(a, b, replace, limit, i, j) <= if i >= j {
            i
        } else {
            j
        },
    decreases i + j,
{
    if i > 0 && j > 0 {
        lemma_distance_range(a, b, replace, limit, i - 1, j - 1, bound);
        lemma_distance_range(a, b, replace, limit, i, j - 1, bound);
        lemma_distance_range(a, b, replace, limit, i - 1, j, bound);
    }
}

/// A row that is far stays far: every row below it is far too.
proof fn lemma_far_stays(
    a: Seq<u8>,
    b: Seq<u8>,
    replace: bool,
    maximum: usize,
    i: int,
    j: int,
    low: int,
)
    requires
        0 <= i < a.len(),
        0 <= j <= b.len(),
        low <= maximum + 1,
        low <= usize::MAX,
        forall|m: int|
            0 <= m <= b.len() ==> low <= #[trigger] distance(
                a,
                b,
                replace,
                cost_limit(maximum),
                i,
                m,
            ),
    ensures
        low <= distance(a, b, replace, cost_limit(maximum), i + 1, j),
    decreases j,
{
    let limit = cost_limit(maximum);
    if j > 0 {
        lemma_far_stays(a, b, replace, maximum, i, j - 1, low);
        assert(low <= distance(a, b, replace, limit, i, j - 1));
        assert(low <= distance(a, b, replace, limit, i, j));
    } else {
        assert(low <= distance(a, b, replace, limit, i, 0));
    }
}

proof fn lemma_far_to_the_end(
    a: Seq<u8>,
    b: Seq<u8>,
    replace: bool,
    maximum: usize,
    i: int,
    k: int,
)
    requires
        0 <= i <= k <= a.len(),
        maximum < usize::MAX,
        far(a, b, replace, maximum, i),
    ensures
        far(a, b, replace, maximum, k),
    decreases k - i,
{
    if i < k {
        assert forall|j: int| 0 <= j <= b.len() implies #[trigger] distance(
            a,
            b,
            replace,
            cost_limit(maximum),
            i + 1,
            j,
        ) > maximum by {
            lemma_far_stays(a, b, replace, maximum, i, j, maximum + 1);
        }
        lemma_far_to_the_end(a, b, replace, maximum, i + 1, k);
    }
}

/// The bounded distance is at most the maximum exactly when the distance is,
/// and is then the distance.
pub proof fn law_bound_is_respected(a: Seq<u8>, b: Seq<u8>, replace: bool, maximum: usize)
    requires
        maximum < usize::MAX,
    ensures
        ({
            let full = distance(
                a,
                b,
                replace,
                cost_limit(maximum),
                a.len() as int,
                b.len() as int,
            );
            let bounded = bounded_distance(a, b, replace, maximum);
            (bounded <= maximum <==> full <= maximum) && (full <= maximum ==> bounded == full)
        }),
{
    if exists|i: int| 1 <= i <= a.len() && far(a, b, replace, maximum, i) {
        let i = choose|i: int| 1 <= i <= a.len() && far(a, b, replace, maximum, i);
        lemma_far_to_the_end(a, b, replace, maximum, i, a.len() as int);
    }
}

/// The distance does not depend on the order of the two texts.
pub proof fn law_distance_is_symmetric(
    a: Seq<u8>,
    b: Seq<u8>,
    replace: bool,
    limit: int,
    i: int,
    j: int,
)
    requires
        0 <= i,
        0 <= j,
    ensures
        distance(a, b, replace, limit, i, j) == distance(b, a, replace, limit, j, i),
    decreases i + j,
{
    if i > 0 && j > 0 {
        law_distance_is_symmetric(a, b, replace, limit, i - 1, j - 1);
        law_distance_is_symmetric(a, b, replace, limit, i, j - 1);
        law_distance_is_symmetric(a, b, replace, limit, i - 1, j);
    }
}

proof fn lemma_distance_of_lengths(
    a: Seq<u8>,
    b: Seq<u8>,
    replace: bool,
    limit: int,
    i: int,
    j: int,
)
    requires
        0 <= i <= a.len(),
        0 <= j <= b.len(),
        limit > 0,
    ensures
        0 <= distance(a, b, replace, limit, i, j),
        i != j ==> distance(a, b, replace, limit, i, j) > 0,
        distance(a, b, replace, limit, i, j) == 0 <==> a.take(i) == b.take(j),
    decreases i + j,
{
    if i > 0 && j > 0 {
        lemma_distance_of_lengths(a, b, replace, limit, i - 1, j - 1);
        lemma_distance_of_lengths(a, b, replace, limit, i, j - 1);
        lemma_distance_of_lengths(a, b, replace, limit, i - 1, j);
        assert(a.take(i) =~= a.take(i - 1).push(a[i - 1]));
        assert(b.take(j) =~= b.take(j - 1).push(b[j - 1]));
        if a.take(i) == b.take(j) {
            assert(a.take(i).len() == b.take(j).len());
            assert(a.take(i)[i - 1] == b.take(j)[i - 1]);
            assert(a.take(i - 1) =~= a.take(i).take(i - 1));
            assert(b.take(j - 1) =~= b.take(j).take(j - 1));
        }
    } else {
        assert(a.take(0) =~= b.take(0));
        if i != j {
            assert(a.take(i).len() != b.take(j).len());
        }
    }
}

/// Two texts are at distance zero exactly when they are equal.
pub proof fn law_zero_distance_is_equality(a: Seq<u8>, b: Seq<u8>, replace: bool, limit: int)
    requires
        limit > 0,
    ensures
        distance(a, b, replace, limit, a.len() as int, b.len() as int) == 0 <==> a == b,
{
    lemma_distance_of_lengths(a, b, replace, limit, a.len() as int, b.len() as int);
    assert(a.take(a.len() as int) =~= a);
    assert(b.take(b.len() as int) =~= b);
}

fn smaller(a: usize, b: usize) -> (r: usize)
    ensures
        r == least(a as int, b as int),
{
    if a <= b {
        a
    } else {
        b
    }
}

/// The edit distance between `left` and `right`, cut off above `maximum`.
pub fn edit_distance_with_replacements(
    left: &[u8],
    right: &[u8],
    allow_replacements: bool,
    maximum: usize,
) -> (r: usize)
    ensures
        r == bounded_distance(left@, right@, allow_replacements, maximum),
{
    let width: usize = right.len();
    let height: usize = left.len();
    let limit: usize = maximum.saturating_add(1);
    let ghost (a, b, rep, lim) = (left@, right@, allow_replacements, limit as int);
    let mut row: Vec<usize> = Vec::new();
    let mut j: usize = 0;
    loop
        invariant_except_break
            j <= width,
            row@.len() == j,
            forall|m: int| 0 <= m < j ==> #[trigger] row@[m] == distance(a, b, rep, lim, 0, m),
        ensures
            row@.len() == width + 1,
            forall|m: int|
                0 <= m <= width ==> #[trigger] row@[m] == distance(a, b, rep, lim, 0, m),
        decreases width - j,
    {
        row.push(j);
        if j == width {
            break;
        }
        j += 1;
    }
    let mut i: usize = 0;
    while i < height
        invariant
            a == left@,
            b == right@,
            rep == allow_replacements,
            lim == limit,
            limit == cost_limit(maximum),
            width == b.len(),
            height == a.len(),
            i <= height,
            row@.len() == width + 1,
            forall|m: int|
                0 <= m <= width ==> #[trigger] row@[m] == distance(a, b, rep, lim, i as int, m),
            forall|k: int| 1 <= k <= i ==> !#[trigger] far(a, b, rep, maximum, k),
        decreases height - i,
    {
        let mut previous: usize = i;
        row.set(0, i + 1);
        let mut best: usize = i + 1;
        let mut j: usize = 0;
        proof {
            assert(distance(a, b, rep, lim, i + 1, 0) == best);
        }
        while j < width
            invariant
                a == left@,
                b == right@,
                rep == allow_replacements,
                lim == limit,
                limit == cost_limit(maximum),
                width == b.len(),
                height == a.len(),
                i < height,
                j <= width,
                row@.len() == width + 1,
                forall|m: int|
                    0 <= m <= j ==> #[trigger] row@[m] == distance(
                        a,
                        b,
                        rep,
                        lim,
                        i + 1,
                        m,
                    ),
                forall|m: int|
                    j < m <= width ==> #[trigger] row@[m] == distance(
                        a,
                        b,
                        rep,
                        lim,
                        i as int,
                        m,
                    ),
                previous == distance(a, b, rep, lim, i as int, j as int),
                forall|m: int|
                    0 <= m <= j ==> best <= #[trigger] distance(a, b, rep, lim, i + 1, m),
                exists|m: int|
                    0 <= m <= j && best == #[trigger] distance(a, b, rep, lim, i + 1, m),
            decreases width - j,
        {
            let above: usize = row[j + 1];
            proof {
                lemma_distance_range(
                    a,
                    b,
                    rep,
                    lim,
                    i as int,
                    j as int,
                    usize::MAX as int,
                );
            }
            let replacement: usize = if left[i] == right[j] {
                previous
            } else if allow_replacements {
                previous + 1
            } else {
                limit
            };
            let cell: usize = smaller(replacement, smaller(row[j], above).saturating_add(1));
            proof {
                assert(row@[j as int] == distance(a, b, rep, lim, i + 1, j as int));
                assert(cell == distance(a, b, rep, lim, i + 1, j + 1));
            }
            row.set(j + 1, cell);
            previous = above;
            if cell < best {
                best = cell;
            }
            j += 1;
        }
        if best > maximum {
            proof {
                assert(far(a, b, rep, maximum, i + 1));
            }
            return limit;
        }
        i += 1;
    }
    row[width]
}

/// The edit distance between `left` and `right`, cut off above `maximum`.
pub fn edit_distance(left: &[u8], right: &[u8], maximum: usize) -> (r: usize)
    ensures
        r == bounded_distance(left@, right@, true, maximum),
{
    edit_distance_with_replacements(left, right, true, maximum)
}

/// How far `candidate` is from `text`, up to four edits.
pub open spec fn misspelling(text: Seq<char>, candidate: Seq<char>) -> int {
    bounded_distance(encode_utf8(candidate), encode_utf8(text), true, 3)
}

/// Whether candidate `i` is the one to suggest for `text`: at most three edits
/// away, nearer than all candidates before it and as near as all behind it.
pub open spec fn suggested(text: Seq<char>, candidates: Seq<Seq<char>>, i: int) -> bool {
    let near = misspelling(text, candidates[i]);
    &&& 0 <= i < candidates.len()
    &&& near <= 3
    &&& forall|j: int| 0 <= j < i ==> near < misspelling(text, #[trigger] candidates[j])
    &&& forall|j: int|
        i <= j < candidates.len() ==> near <= misspelling(text, #[trigger] candidates[j])
}

/// The candidate to suggest for a misspelt `text`, if one is near enough.
pub open spec fn suggestion(text: Seq<char>, candidates: Seq<Seq<char>>) -> Option<Seq<char>> {
    if exists|i: int| suggested(text, candidates, i) {
        Some(candidates[choose|i: int| suggested(text, candidates, i)])
    } else {
        None
    }
}

proof fn lemma_suggested_once(text: Seq<char>, candidates: Seq<Seq<char>>, i: int, j: int)
    requires
        suggested(text, candidates, i),
        suggested(text, candidates, j),
    ensures
        i == j,
{
    let near = misspelling(text, candidates[i]);
    let other = misspelling(text, candidates[j]);
}

/// The characters of each string of a list.
pub open spec fn views(list: Seq<&str>) -> Seq<Seq<char>> {
    Seq::new(list.len(), |i: int| list[i]@)
}

/// The first of the candidates that are nearest to `text`, where they are at
/// most three edits away.
pub fn spellcheck<'a>(text: &str, candidates: &[&'a str]) -> (r: Option<&'a str>)
    ensures
        match r {
            Some(c) => suggestion(text@, views(candidates@)) == Some(c@),
            None => suggestion(text@, views(candidates@)) is None,
        },
        r is None <==> forall|i: int|
            0 <= i < candidates@.len() ==> misspelling(text@, (#[trigger] candidates@[i])@) > 3,
{
    let mut best: Option<&'a str> = None;
    let mut best_distance: usize = 4;
    let ghost mut at: int = -1;
    let ghost list = views(candidates@);
    let mut i: usize = 0;
    while i < candidates.len()
        invariant
            i <= candidates@.len(),
            list == views(candidates@),
            best is None <==> best_distance == 4,
            best_distance <= 4,
            forall|j: int|
                0 <= j < i ==> best_distance <= misspelling(text@, #[trigger] list[j]),
            best matches Some(c) ==> {
                &&& 0 <= at < i
                &&& c@ == list[at]
                &&& best_distance == misspelling(text@, list[at])
                &&& forall|j: int|
                    0 <= j < at ==> best_distance < misspelling(text@, #[trigger] list[j])
            },
        decreases candidates@.len() - i,
    {
        let candidate: &'a str = candidates[i];
        let distance: usize = edit_distance(candidate.as_bytes(), text.as_bytes(), 3);
        proof {
            assert(list[i as int] == candidate@);
            assert(distance == misspelling(text@, list[i as int]));
        }
        if distance < best_distance {
            best = Some(candidate);
            best_distance = distance;
            proof {
                at = i as int;
            }
        }
        i += 1;
    }
    proof {
        if best is Some {
            assert(suggested(text@, list, at));
            let other = choose|i: int| suggested(text@, list, i);
            lemma_suggested_once(text@, list, at, other);
            assert(candidates@[at]@ == list[at]);
        } else {
            assert forall|i: int| !suggested(text@, list, i) by {
                if 0 <= i < list.len() {
                    assert(misspelling(text@, list[i]) >= 4);
                }
            }
            assert forall|i: int| 0 <= i < candidates@.len() implies misspelling(
                text@,
                (#[trigger] candidates@[i])@,
            ) > 3 by {
                assert(candidates@[i]@ == list[i]);
            }
        }
    }
    best
}

/// A step that turns one text into another.
pub enum Edit {
    Keep(u8),
    Insert(u8),
    Delete(u8),
    Replace(u8, u8),
}

/// What steps make a text of.
pub open spec fn source(edits: Seq<Edit>) -> Seq<u8>
    decreases edits.len(),
{
    if edits.len() == 0 {
        seq![]
    } else {
        match edits.last() {
            Edit::Keep(c) => source(edits.drop_last()).push(c),
            Edit::Insert(_) => source(edits.drop_last()),
            Edit::Delete(c) => source(edits.drop_last()).push(c),
            Edit::Replace(c, _) => source(edits.drop_last()).push(c),
        }
    }
}

/// What steps make of a text.
pub open spec fn result(edits: Seq<Edit>) -> Seq<u8>
    decreases edits.len(),
{
    if edits.len() == 0 {
        seq![]
    } else {
        match edits.last() {
            Edit::Keep(c) => result(edits.drop_last()).push(c),
            Edit::Insert(c) => result(edits.drop_last()).push(c),
            Edit::Delete(_) => result(edits.drop_last()),
            Edit::Replace(_, c) => result(edits.drop_last()).push(c),
        }
    }
}

/// How many steps change something.
pub open spec fn changes(edits: Seq<Edit>) -> int
    decreases edits.len(),
{
    if edits.len() == 0 {
        0
    } else {
        changes(edits.drop_last()) + if edits.last() is Keep {
            0int
        } else {
            1int
        }
    }
}

proof fn lemma_distance_of_beginnings(
    a: Seq<u8>,
    b: Seq<u8>,
    c: Seq<u8>,
    d: Seq<u8>,
    limit: int,
    i: int,
    j: int,
)
    requires
        0 <= i <= a.len(),
        0 <= j <= b.len(),
        a.is_prefix_of(c),
        b.is_prefix_of(d),
    ensures
        distance(a, b, true, limit, i, j) == distance(c, d, true, limit, i, j),
    decreases i + j,
{
    if i > 0 && j > 0 {
        assert(c[i - 1] == a[i - 1]);
        assert(d[j - 1] == b[j - 1]);
        lemma_distance_of_beginnings(a, b, c, d, limit, i - 1, j - 1);
        lemma_distance_of_beginnings(a, b, c, d, limit, i, j - 1);
        lemma_distance_of_beginnings(a, b, c, d, limit, i - 1, j);
    }
}

/// No steps that turn one text into another change less than the distance between them.
pub proof fn law_no_steps_are_fewer(edits: Seq<Edit>, limit: int)
    ensures
        distance(
            source(edits),
            result(edits),
            true,
            limit,
            source(edits).len() as int,
            result(edits).len() as int,
        ) <= changes(edits),
    decreases edits.len(),
{
    if edits.len() > 0 {
        let before = edits.drop_last();
        law_no_steps_are_fewer(before, limit);
        let (a, b) = (source(before), result(before));
        let (c, d) = (source(edits), result(edits));
        assert(a.is_prefix_of(c));
        assert(b.is_prefix_of(d));
        lemma_distance_of_beginnings(a, b, c, d, limit, a.len() as int, b.len() as int);
    }
}

/// Steps that turn one text into another and change as little as the distance between them.
pub proof fn law_some_steps_are_as_few(a: Seq<u8>, b: Seq<u8>, limit: int) -> (edits: Seq<Edit>)
    ensures
        source(edits) == a,
        result(edits) == b,
        changes(edits) == distance(a, b, true, limit, a.len() as int, b.len() as int),
    decreases a.len() + b.len(),
{
    let i = a.len() as int;
    let j = b.len() as int;
    if i == 0 && j == 0 {
        let edits = Seq::<Edit>::empty();
        assert(source(edits) =~= a);
        assert(result(edits) =~= b);
        edits
    } else {
        let here = distance(a, b, true, limit, i, j);
        let last = if i == 0 {
            Edit::Insert(b[j - 1])
        } else if j == 0 {
            Edit::Delete(a[i - 1])
        } else if a[i - 1] == b[j - 1] && here == distance(a, b, true, limit, i - 1, j - 1) {
            Edit::Keep(a[i - 1])
        } else if a[i - 1] != b[j - 1] && here == distance(a, b, true, limit, i - 1, j - 1) + 1 {
            Edit::Replace(a[i - 1], b[j - 1])
        } else if here == distance(a, b, true, limit, i, j - 1) + 1 {
            Edit::Insert(b[j - 1])
        } else {
            Edit::Delete(a[i - 1])
        };
        let c = if last is Insert {
            a
        } else {
            a.drop_last()
        };
        let d = if last is Delete {
            b
        } else {
            b.drop_last()
        };
        let before = law_some_steps_are_as_few(c, d, limit);
        lemma_distance_of_beginnings(c, d, a, b, limit, c.len() as int, d.len() as int);
        let edits = before.push(last);
        assert(edits.drop_last() =~= before);
        assert(source(edits) =~= a);
        assert(result(edits) =~= b);
        edits
    }
}

/// A path that is suggested is one of the candidates, and no other is nearer, nor any before it
/// as near; none is suggested where all are more than three changes away.
pub proof fn law_nearest_candidate_is_suggested(text: Seq<char>, candidates: Seq<Seq<char>>)
    ensures
        suggestion(text, candidates) matches Some(other) ==> exists|i: int|
            0 <= i < candidates.len() && #[trigger] candidates[i] == other && misspelling(
                text,
                other,
            ) <= 3 && (forall|j: int|
                0 <= j < candidates.len() ==> misspelling(text, other) <= misspelling(
                    text,
                    #[trigger] candidates[j],
                )) && forall|j: int|
                0 <= j < i ==> misspelling(text, other) < misspelling(
                    text,
                    #[trigger] candidates[j],
                ),
        suggestion(text, candidates) is None <==> forall|j: int|
            0 <= j < candidates.len() ==> misspelling(text, #[trigger] candidates[j]) > 3,
{
    if suggestion(text, candidates) is None {
        if exists|j: int|
            0 <= j < candidates.len() && misspelling(text, #[trigger] candidates[j]) <= 3 {
            let j = choose|j: int|
                0 <= j < candidates.len() && misspelling(text, #[trigger] candidates[j]) <= 3;
            let i = lemma_nearest(text, candidates, j);
            assert(suggested(text, candidates, i));
        }
    } else {
        let i = choose|i: int| suggested(text, candidates, i);
        assert(suggested(text, candidates, i));
        assert(candidates[i] == candidates[i]);
    }
}

proof fn lemma_nearest(text: Seq<char>, candidates: Seq<Seq<char>>, j: int) -> (i: int)
    requires
        0 <= j < candidates.len(),
        misspelling(text, candidates[j]) <= 3,
    ensures
        suggested(text, candidates, i),
    decreases misspelling(text, candidates[j]), j,
{
    let near = misspelling(text, candidates[j]);
    lemma_distance_range_of(text, candidates[j]);
    if exists|k: int| 0 <= k < candidates.len() && misspelling(text, #[trigger] candidates[k]) < near {
        let k = choose|k: int|
            0 <= k < candidates.len() && misspelling(text, #[trigger] candidates[k]) < near;
        lemma_distance_range_of(text, candidates[k]);
        lemma_nearest(text, candidates, k)
    } else if exists|k: int|
        0 <= k < j && misspelling(text, #[trigger] candidates[k]) <= near {
        let k = choose|k: int| 0 <= k < j && misspelling(text, #[trigger] candidates[k]) <= near;
        lemma_nearest(text, candidates, k)
    } else {
        j
    }
}

proof fn lemma_distance_range_of(text: Seq<char>, candidate: Seq<char>)
    ensures
        misspelling(text, candidate) >= 0,
{
    let a = encode_utf8(candidate);
    let b = encode_utf8(text);
    let bound = a.len() + b.len() + cost_limit(3);
    lemma_distance_range(a, b, true, cost_limit(3), a.len() as int, b.len() as int, bound);
}

} // verus!
