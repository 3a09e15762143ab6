//! Texts in the order of their characters.
use crate::text;
use crate::text::chars_of;
use vstd::prelude::*;
use vstd::string::*;

verus! {

/// Whether `a` comes before `b` in the order of their characters.
pub open spec fn is_before(a: Seq<char>, b: Seq<char>) -> bool
    decreases a.len(),
{
    if b.len() == 0 {
        false
    } else if a.len() == 0 {
        true
    } else if a[0] != b[0] {
        a[0] < b[0]
    } else {
        is_before(a.skip(1), b.skip(1))
    }
}

pub proof fn lemma_one_is_before(a: Seq<char>, b: Seq<char>)
    ensures
        a != b ==> is_before(a, b) || is_before(b, a),
        !(is_before(a, b) && is_before(b, a)),
        a == b ==> !is_before(a, b),
    decreases a.len(),
{
    if a.len() > 0 && b.len() > 0 {
        lemma_one_is_before(a.skip(1), b.skip(1));
        if a[0] == b[0] && a.skip(1) == b.skip(1) {
            assert(a =~= seq![a[0]] + a.skip(1));
            assert(b =~= seq![b[0]] + b.skip(1));
        }
    } else if a.len() == 0 && b.len() == 0 {
        assert(a =~= b);
    }
}

proof fn lemma_before_passes_on(a: Seq<char>, b: Seq<char>, c: Seq<char>)
    requires
        is_before(a, b),
        is_before(b, c),
    ensures
        is_before(a, c),
    decreases a.len(),
{
    if a.len() > 0 && a[0] == b[0] && b[0] == c[0] {
        lemma_before_passes_on(a.skip(1), b.skip(1), c.skip(1));
    }
}

fn comes_before(a: &[char], b: &[char]) -> (r: bool)
    ensures
        r == is_before(a@, b@),
{
    let mut i: usize = 0;
    proof {
        assert(a@.skip(0) =~= a@);
        assert(b@.skip(0) =~= b@);
    }
    while i < a.len() && i < b.len()
        invariant
            i <= a@.len(),
            i <= b@.len(),
            is_before(a@, b@) == is_before(a@.skip(i as int), b@.skip(i as int)),
        decreases a@.len() - i,
    {
        if a[i] != b[i] {
            return a[i] < b[i];
        }
        proof {
            assert(a@.skip(i as int).skip(1) =~= a@.skip(i + 1));
            assert(b@.skip(i as int).skip(1) =~= b@.skip(i + 1));
        }
        i += 1;
    }
    i < b.len()
}

/// Whether each of `list` comes before those behind it.
pub open spec fn is_sorted(list: Seq<Seq<char>>) -> bool {
    forall|i: int, j: int|
        0 <= i < j < list.len() ==> is_before(#[trigger] list[i], #[trigger] list[j])
}

/// The first position of `list`, from `i` on, whose text does not come before `new`.
pub open spec fn place(list: Seq<Seq<char>>, new: Seq<char>, i: int) -> int
    decreases list.len() - i,
{
    if 0 <= i < list.len() && is_before(list[i], new) {
        place(list, new, i + 1)
    } else {
        i
    }
}

proof fn lemma_place(list: Seq<Seq<char>>, new: Seq<char>, i: int)
    requires
        0 <= i <= list.len(),
        forall|k: int| 0 <= k < i ==> is_before(#[trigger] list[k], new),
    ensures
        i <= place(list, new, i) <= list.len(),
        forall|k: int| 0 <= k < place(list, new, i) ==> is_before(#[trigger] list[k], new),
        place(list, new, i) < list.len() ==> !is_before(list[place(list, new, i)], new),
    decreases list.len() - i,
{
    if i < list.len() && is_before(list[i], new) {
        lemma_place(list, new, i + 1);
    }
}

/// A sorted list stays so with one more text in its place.
proof fn lemma_inserted(before: Seq<Seq<char>>, new: Seq<char>)
    requires
        is_sorted(before),
        !before.contains(new),
    ensures
        ({
            let after = before.insert(place(before, new, 0), new);
            &&& 0 <= place(before, new, 0) <= before.len()
            &&& is_sorted(after)
            &&& forall|x: Seq<char>| #[trigger]
                after.contains(x) <==> before.contains(x) || x == new
        }),
{
    let at = place(before, new, 0);
    lemma_place(before, new, 0);
    if at < before.len() {
        lemma_one_is_before(before[at], new);
        assert(before.contains(before[at]));
        assert(is_before(new, before[at]));
        assert forall|k: int| at <= k < before.len() implies is_before(
            new,
            #[trigger] before[k],
        ) by {
            if k > at {
                lemma_before_passes_on(new, before[at], before[k]);
            }
        }
    }
    let after = before.insert(at, new);
    assert forall|a: int, b: int| 0 <= a < b < after.len() implies is_before(
        #[trigger] after[a],
        #[trigger] after[b],
    ) by {
        if b < at {
            assert(after[a] == before[a]);
            assert(after[b] == before[b]);
        } else if b == at {
            assert(after[a] == before[a]);
        } else if a == at {
            assert(after[b] == before[b - 1]);
        } else if a < at {
            assert(after[a] == before[a]);
            assert(after[b] == before[b - 1]);
        } else {
            assert(after[a] == before[a - 1]);
            assert(after[b] == before[b - 1]);
        }
    }
    assert forall|x: Seq<char>| #[trigger] after.contains(x) <==> before.contains(x) || x
        == new by {
        assert(after[at] == new);
        if before.contains(x) {
            let k = choose|k: int| 0 <= k < before.len() && before[k] == x;
            assert(after[if k < at {
                k
            } else {
                k + 1
            }] == x);
        }
        if after.contains(x) && x != new {
            let k = choose|k: int| 0 <= k < after.len() && after[k] == x;
            assert(before[if k < at {
                k
            } else {
                k - 1
            }] == x);
        }
    }
}

/// Adds a text to a sorted list that does not hold it.
pub fn insert_sorted(list: &mut Vec<String>, new: &String)
    requires
        is_sorted(text::strings(old(list)@)),
        !text::strings(old(list)@).contains(new@),
    ensures
        is_sorted(text::strings(final(list)@)),
        forall|x: Seq<char>| #[trigger]
            text::strings(final(list)@).contains(x) <==> text::strings(old(list)@).contains(x) || x
                == new@,
{
    let ghost before = text::strings(list@);
    let key: Vec<char> = chars_of(new.as_str());
    let mut i: usize = 0;
    while i < list.len() && comes_before(
        chars_of(list[i].as_str()).as_slice(),
        key.as_slice(),
    )
        invariant
            i <= list@.len(),
            key@ == new@,
            before == text::strings(list@),
            place(before, new@, 0) == place(before, new@, i as int),
        decreases list@.len() - i,
    {
        proof {
            assert(before[i as int] == list@[i as int]@);
        }
        i += 1;
    }
    proof {
        if i < before.len() {
            assert(before[i as int] == list@[i as int]@);
        }
        lemma_inserted(before, new@);
    }
    list.insert(i, new.clone());
    proof {
        assert(text::strings(list@) =~= before.insert(i as int, new@));
    }
}

/// Whether `list` holds the texts of a set, in order.
pub open spec fn sorts(list: Seq<Seq<char>>, set: Set<Seq<char>>) -> bool {
    &&& is_sorted(list)
    &&& forall|x: Seq<char>| #[trigger] list.contains(x) <==> set.contains(x)
}

/// The texts of a set in order; nothing where the set is not finite.
pub open spec fn sorted(set: Set<Seq<char>>) -> Seq<Seq<char>> {
    let list = choose|list: Seq<Seq<char>>| sorts(list, set);
    if sorts(list, set) {
        list
    } else {
        seq![]
    }
}

/// A set has one order only.
pub proof fn lemma_sorted_once(a: Seq<Seq<char>>, set: Set<Seq<char>>)
    requires
        sorts(a, set),
    ensures
        sorted(set) == a,
{
    let b = sorted(set);
    assert(sorts(b, set));
    lemma_equal_to(a, b, set, a.len() as int);
    if b.len() > a.len() {
        lemma_equal_to(b, a, set, b.len() as int);
    }
    assert(a =~= b);
}

/// The first `n` texts of a sorted list are those of any other of the same set.
proof fn lemma_equal_to(a: Seq<Seq<char>>, b: Seq<Seq<char>>, set: Set<Seq<char>>, n: int)
    requires
        sorts(a, set),
        sorts(b, set),
        0 <= n <= a.len(),
    ensures
        n <= b.len(),
        forall|i: int| 0 <= i < n ==> #[trigger] a[i] == b[i],
    decreases n,
{
    if n > 0 {
        lemma_equal_to(a, b, set, n - 1);
        let x = a[n - 1];
        assert(a.contains(x));
        assert(b.contains(x));
        let j = choose|j: int| 0 <= j < b.len() && b[j] == x;
        if j < n - 1 {
            assert(a[j] == b[j]);
            assert(is_before(a[j], a[n - 1]));
            lemma_one_is_before(a[j], a[n - 1]);
        }
        let y = b[n - 1];
        assert(b.contains(y));
        assert(a.contains(y));
        let k = choose|k: int| 0 <= k < a.len() && a[k] == y;
        if x != y {
            if k < n - 1 {
                assert(a[k] == b[k]);
                assert(is_before(b[k], b[n - 1]));
                lemma_one_is_before(b[k], b[n - 1]);
            } else {
                assert(is_before(a[n - 1], a[k]));
                assert(is_before(b[n - 1], b[j]));
                lemma_one_is_before(x, y);
            }
        }
    }
}

/// A finite set can be put in order.
pub proof fn lemma_finite_set_is_sorted(set: Set<Seq<char>>)
    requires
        set.finite(),
    ensures
        sorts(sorted(set), set),
    decreases set.len(),
{
    if set.is_empty() {
        assert forall|x: Seq<char>| #[trigger] Seq::<Seq<char>>::empty().contains(x)
            <==> set.contains(x) by {}
        assert(sorts(seq![], set));
    } else {
        let x = set.choose();
        assert(set.contains(x));
        let rest = set.remove(x);
        lemma_finite_set_is_sorted(rest);
        let before = sorted(rest);
        assert(!before.contains(x));
        lemma_inserted(before, x);
        let after = before.insert(place(before, x, 0), x);
        assert forall|y: Seq<char>| #[trigger] after.contains(y) <==> set.contains(y) by {
            assert(before.contains(y) <==> rest.contains(y));
        }
        assert(sorts(after, set));
    }
}

} // verus!
