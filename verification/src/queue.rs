//! Edges in the order in which they are run: the heaviest first, and of two that
//! weigh the same the one that was declared first.
use vstd::prelude::*;

verus! {

/// Whether edge `a` comes before edge `b`, or is `b`.
pub open spec fn leads(weights: Seq<usize>, a: usize, b: usize) -> bool {
    weights[a as int] > weights[b as int] || (weights[a as int] == weights[b as int] && a <= b)
}

/// Whether edge `a` comes before all edges of `set`.
pub open spec fn is_first(weights: Seq<usize>, set: Set<usize>, a: usize) -> bool {
    set.contains(a) && forall|b: usize| #[trigger] set.contains(b) ==> leads(weights, a, b)
}

/// The first edge of a set.
pub open spec fn first(weights: Seq<usize>, set: Set<usize>) -> usize {
    choose|a: usize| is_first(weights, set, a)
}

/// Only one edge of a set is its first.
pub proof fn lemma_first_is_unique(weights: Seq<usize>, set: Set<usize>, a: usize)
    requires
        is_first(weights, set, a),
    ensures
        first(weights, set) == a,
{
    let b = first(weights, set);
    assert(is_first(weights, set, b));
    assert(leads(weights, a, b) && leads(weights, b, a));
}

/// A set of edges that has an edge has a first edge.
pub proof fn lemma_first_exists(weights: Seq<usize>, set: Set<usize>)
    requires
        set.finite(),
        set != Set::<usize>::empty(),
    ensures
        is_first(weights, set, first(weights, set)),
    decreases set.len(),
{
    let x = set.choose();
    assert(set.contains(x)) by {
        if forall|k: usize| !set.contains(k) {
            assert(set =~= Set::<usize>::empty());
        }
    }
    let rest = set.remove(x);
    if rest == Set::<usize>::empty() {
        assert forall|b: usize| #[trigger] set.contains(b) implies leads(weights, x, b) by {
            assert(b == x || rest.contains(b));
        }
        assert(is_first(weights, set, x));
    } else {
        lemma_first_exists(weights, rest);
        let y = first(weights, rest);
        let a = if leads(weights, x, y) {
            x
        } else {
            y
        };
        assert forall|b: usize| #[trigger] set.contains(b) implies leads(weights, a, b) by {
            assert(b == x || rest.contains(b));
        }
        assert(is_first(weights, set, a));
    }
}

/// Only so many edges have numbers below `n`.
pub proof fn lemma_below_is_finite(n: nat)
    ensures
        Set::new(|k: usize| k < n).finite(),
        Set::new(|k: usize| k < n).len() <= n,
    decreases n,
{
    let all = Set::new(|k: usize| k < n);
    if n == 0 {
        assert(all =~= Set::<usize>::empty());
    } else {
        lemma_below_is_finite((n - 1) as nat);
        let less = Set::new(|k: usize| k < n - 1);
        assert(less =~= Set::new(|k: usize| k < (n - 1) as nat));
        if n - 1 <= usize::MAX {
            assert(all =~= less.insert((n - 1) as usize));
        } else {
            assert(all =~= less);
        }
    }
}

/// A set of edges with numbers below `n` is finite.
pub proof fn lemma_set_below(set: Set<usize>, n: nat)
    requires
        forall|k: usize| #[trigger] set.contains(k) ==> k < n,
    ensures
        set.finite(),
        set.len() <= n,
{
    let all = Set::new(|k: usize| k < n);
    lemma_below_is_finite(n);
    assert(set.subset_of(all));
    vstd::set_lib::lemma_len_subset(set, all);
}

/// Edges that are taken out one by one, the first of them first.
pub struct Queue {
    items: Vec<usize>,
}

spec fn is_ordered(weights: Seq<usize>, items: Seq<usize>) -> bool {
    forall|i: int| 0 < i < items.len() ==> leads(weights, items[(i - 1) / 2], #[trigger] items[i])
}

/// Like `is_ordered`, but for the item at `hole`, which may come before the one
/// above it.
spec fn is_ordered_above(weights: Seq<usize>, items: Seq<usize>, hole: int) -> bool {
    &&& forall|i: int|
        0 < i < items.len() && i != hole ==> leads(weights, items[(i - 1) / 2], #[trigger] items[i])
    &&& forall|i: int|
        0 < i < items.len() && (i - 1) / 2 == hole && hole > 0 ==> leads(
            weights,
            items[(hole - 1) / 2],
            #[trigger] items[i],
        )
}

/// Like `is_ordered`, but for the item at `hole`, which may come behind those below
/// it.
spec fn is_ordered_below(weights: Seq<usize>, items: Seq<usize>, hole: int) -> bool {
    &&& forall|i: int|
        0 < i < items.len() && (i - 1) / 2 != hole ==> leads(
            weights,
            items[(i - 1) / 2],
            #[trigger] items[i],
        )
    &&& forall|i: int|
        0 < i < items.len() && (i - 1) / 2 == hole && hole > 0 ==> leads(
            weights,
            items[(hole - 1) / 2],
            #[trigger] items[i],
        )
}

spec fn swapped(items: Seq<usize>, i: int, j: int) -> Seq<usize> {
    items.update(i, items[j]).update(j, items[i])
}

proof fn lemma_swapped(items: Seq<usize>, i: int, j: int)
    requires
        0 <= i < items.len(),
        0 <= j < items.len(),
        i != j,
        items.no_duplicates(),
    ensures
        swapped(items, i, j).no_duplicates(),
        swapped(items, i, j).to_set() == items.to_set(),
{
    let after = swapped(items, i, j);
    assert forall|x: usize| items.contains(x) implies after.contains(x) by {
        let k = choose|k: int| 0 <= k < items.len() && items[k] == x;
        if k == i {
            assert(after[j] == x);
        } else if k == j {
            assert(after[i] == x);
        } else {
            assert(after[k] == x);
        }
    }
    assert forall|x: usize| after.contains(x) implies items.contains(x) by {
        let k = choose|k: int| 0 <= k < after.len() && after[k] == x;
        if k == i {
            assert(items[j] == x);
        } else if k == j {
            assert(items[i] == x);
        } else {
            assert(items[k] == x);
        }
    }
    assert(after.to_set() =~= items.to_set());
}

/// The item at the top comes before all others.
proof fn lemma_top_leads(weights: Seq<usize>, items: Seq<usize>, i: int)
    requires
        is_ordered(weights, items),
        0 <= i < items.len(),
    ensures
        leads(weights, items[0], items[i]),
    decreases i,
{
    if i > 0 {
        lemma_top_leads(weights, items, (i - 1) / 2);
        assert(leads(weights, items[(i - 1) / 2], items[i]));
    }
}

/// What is left once the last item has taken the place of the top.
proof fn lemma_top_removed(before: Seq<usize>, after: Seq<usize>)
    requires
        before.len() > 1,
        before.no_duplicates(),
        after == before.drop_last().update(0, before.last()),
    ensures
        after.no_duplicates(),
        after.to_set() == before.to_set().remove(before[0]),
{
    assert forall|x: usize| after.contains(x) <==> before.contains(x) && x != before[0] by {
        if before.contains(x) && x != before[0] {
            let y = choose|y: int| 0 <= y < before.len() && before[y] == x;
            if y == before.len() - 1 {
                assert(after[0] == x);
            } else {
                assert(after[y] == x);
            }
        }
        if after.contains(x) {
            let y = choose|y: int| 0 <= y < after.len() && after[y] == x;
            if y == 0 {
                assert(before[before.len() - 1] == x);
            } else {
                assert(before[y] == x);
            }
        }
    }
    assert(after.to_set() =~= before.to_set().remove(before[0]));
}

fn comes_before(weights: &[usize], a: usize, b: usize) -> (r: bool)
    requires
        a < weights@.len(),
        b < weights@.len(),
    ensures
        r == leads(weights@, a, b),
{
    weights[a] > weights[b] || (weights[a] == weights[b] && a <= b)
}

impl Queue {
    /// The edges that wait.
    pub closed spec fn view(&self) -> Set<usize> {
        self.items@.to_set()
    }

    /// Whether no edge waits twice.
    pub closed spec fn is_distinct(&self) -> bool {
        self.items@.no_duplicates()
    }

    /// Whether the edges have weights and are kept in order.
    pub closed spec fn is_kept(&self, weights: Seq<usize>) -> bool {
        &&& is_ordered(weights, self.items@)
        &&& forall|i: int| 0 <= i < self.items@.len() ==> (#[trigger] self.items@[i]) < weights.len()
    }

    pub open spec fn well_formed(&self, weights: Seq<usize>) -> bool {
        self.is_distinct() && self.is_kept(weights)
    }

    /// Only edges that have a weight wait, and they can be counted.
    pub proof fn lemma_bounds(&self, weights: Seq<usize>)
        requires
            self.well_formed(weights),
        ensures
            forall|k: usize| #[trigger] self@.contains(k) ==> k < weights.len(),
            self@.finite(),
            self@.len() <= usize::MAX,
    {
        self.items@.unique_seq_to_set();
        assert(self.items@.len() == self.items.len());
        assert forall|k: usize| #[trigger] self@.contains(k) implies k < weights.len() by {
            let i = choose|i: int| 0 <= i < self.items@.len() && self.items@[i] == k;
            assert(self.items@[i] < weights.len());
        }
    }

    pub fn new() -> (r: Queue)
        ensures
            r.is_distinct(),
            forall|weights: Seq<usize>| #[trigger] r.is_kept(weights),
            r@ == Set::<usize>::empty(),
    {
        let r: Queue = Queue { items: Vec::new() };
        proof {
            assert(r@ =~= Set::<usize>::empty());
        }
        r
    }

    /// How many edges wait.
    pub fn len(&self) -> (r: usize)
        requires
            self.is_distinct(),
        ensures
            r == self@.len(),
    {
        proof {
            self.items@.unique_seq_to_set();
        }
        self.items.len()
    }

    fn swap(&mut self, i: usize, j: usize)
        requires
            i < old(self).items@.len(),
            j < old(self).items@.len(),
        ensures
            final(self).items@ == swapped(old(self).items@, i as int, j as int),
    {
        let a: usize = self.items[i];
        let b: usize = self.items[j];
        self.items.set(i, b);
        self.items.set(j, a);
    }

    /// Adds an edge.
    pub fn push(&mut self, weights: &[usize], k: usize)
        requires
            old(self).well_formed(weights@),
            k < weights@.len(),
            !old(self)@.contains(k),
        ensures
            final(self).well_formed(weights@),
            final(self)@ == old(self)@.insert(k),
    {
        let ghost w = weights@;
        let ghost before = self.items@;
        self.items.push(k);
        let mut i: usize = self.items.len() - 1;
        proof {
            let items = self.items@;
            assert forall|x: usize| items.contains(x) <==> before.contains(x) || x == k by {
                if before.contains(x) {
                    let y = choose|y: int| 0 <= y < before.len() && before[y] == x;
                    assert(items[y] == x);
                }
                assert(items[i as int] == k);
            }
            assert(self@ =~= old(self)@.insert(k));
            assert(items.no_duplicates()) by {
                assert forall|x: int, y: int|
                    0 <= x < items.len() && 0 <= y < items.len() && x != y implies items[x]
                    != items[y] by {
                    if x == i {
                        assert(before.contains(before[y]));
                    }
                    if y == i {
                        assert(before.contains(before[x]));
                    }
                }
            }
            assert(is_ordered_above(w, items, i as int));
        }
        while i > 0
            invariant
                w == weights@,
                i < self.items@.len(),
                self.items@.no_duplicates(),
                self@ == old(self)@.insert(k),
                forall|x: int| 0 <= x < self.items@.len() ==> (#[trigger] self.items@[x]) < w.len(),
                is_ordered_above(w, self.items@, i as int),
            ensures
                self.items@.no_duplicates(),
                self@ == old(self)@.insert(k),
                forall|x: int| 0 <= x < self.items@.len() ==> (#[trigger] self.items@[x]) < w.len(),
                is_ordered(w, self.items@),
            decreases i,
        {
            let p: usize = (i - 1) / 2;
            let ghost items = self.items@;
            if comes_before(weights, self.items[p], self.items[i]) {
                proof {
                    assert(is_ordered(w, items));
                }
                break;
            }
            self.swap(i, p);
            proof {
                lemma_swapped(items, i as int, p as int);
                let after = self.items@;
                assert forall|x: int| 0 < x < after.len() && x != p implies leads(
                    w,
                    after[(x - 1) / 2],
                    #[trigger] after[x],
                ) by {
                    let above = (x - 1) / 2;
                    if x == i {
                        assert(above == p);
                    } else if above == i {
                        assert(leads(w, items[(i - 1) / 2], items[x]));
                    } else if above == p {
                        assert(leads(w, items[p as int], items[x]));
                        assert(after[x] == items[x]);
                    } else {
                        assert(leads(w, items[above], items[x]));
                    }
                }
                assert forall|x: int|
                    0 < x < after.len() && (x - 1) / 2 == p && p > 0 implies leads(
                    w,
                    after[(p - 1) / 2],
                    #[trigger] after[x],
                ) by {
                    let top = (p - 1) / 2;
                    assert(leads(w, items[top], items[p as int]));
                    if x != i {
                        assert(leads(w, items[p as int], items[x]));
                    }
                }
            }
            i = p;
        }
    }

    /// Moves the item at the top down to its place.
    fn sift_down(&mut self, weights: &[usize])
        requires
            old(self).items@.len() > 0,
            old(self).items@.no_duplicates(),
            forall|x: int|
                0 <= x < old(self).items@.len() ==> (#[trigger] old(self).items@[x])
                    < weights@.len(),
            is_ordered_below(weights@, old(self).items@, 0),
        ensures
            final(self).well_formed(weights@),
            final(self)@ == old(self)@,
    {
        let ghost w = weights@;
        let mut i: usize = 0;
        let m: usize = self.items.len();
        while m / 2 > i
            invariant
                w == weights@,
                m == self.items@.len(),
                i < m,
                self.items@.no_duplicates(),
                self@ == old(self)@,
                forall|x: int| 0 <= x < m ==> (#[trigger] self.items@[x]) < w.len(),
                is_ordered_below(w, self.items@, i as int),
            ensures
                self.items@.no_duplicates(),
                self@ == old(self)@,
                forall|x: int| 0 <= x < self.items@.len() ==> (#[trigger] self.items@[x]) < w.len(),
                is_ordered(w, self.items@),
            decreases m - i,
        {
            let left: usize = 2 * i + 1;
            let mut c: usize = left;
            if m - left > 1 && comes_before(weights, self.items[left + 1], self.items[left]) {
                c = left + 1;
            }
            let ghost items = self.items@;
            proof {
                assert forall|x: int| 0 < x < m && (x - 1) / 2 == i implies leads(
                    w,
                    items[c as int],
                    #[trigger] items[x],
                ) by {
                    assert(x == left || x == left + 1);
                }
            }
            if comes_before(weights, self.items[i], self.items[c]) {
                proof {
                    assert forall|x: int| 0 < x < m implies leads(
                        w,
                        items[(x - 1) / 2],
                        #[trigger] items[x],
                    ) by {
                        if (x - 1) / 2 == i {
                            assert(leads(w, items[c as int], items[x]));
                        }
                    }
                }
                break;
            }
            self.swap(i, c);
            proof {
                lemma_swapped(items, i as int, c as int);
                let after = self.items@;
                assert forall|x: int| 0 < x < m && (x - 1) / 2 != c implies leads(
                    w,
                    after[(x - 1) / 2],
                    #[trigger] after[x],
                ) by {
                    let above = (x - 1) / 2;
                    if above == i {
                        if x != c {
                            assert(leads(w, items[c as int], items[x]));
                        }
                    } else if x == i {
                        assert(leads(w, items[above], items[c as int]));
                    } else {
                        assert(leads(w, items[above], items[x]));
                    }
                }
                assert forall|x: int| 0 < x < m && (x - 1) / 2 == c && c > 0 implies leads(
                    w,
                    after[(c - 1) / 2],
                    #[trigger] after[x],
                ) by {
                    assert(leads(w, items[c as int], items[x]));
                    assert((c - 1) / 2 == i);
                }
            }
            i = c;
        }
    }

    /// Takes the first edge out.
    pub fn pop(&mut self, weights: &[usize]) -> (r: Option<usize>)
        requires
            old(self).well_formed(weights@),
        ensures
            final(self).well_formed(weights@),
            match r {
                Some(k) => {
                    &&& is_first(weights@, old(self)@, k)
                    &&& k == first(weights@, old(self)@)
                    &&& k < weights@.len()
                    &&& final(self)@ == old(self)@.remove(k)
                },
                None => old(self)@ == Set::<usize>::empty() && final(self)@ == old(self)@,
            },
    {
        let ghost w = weights@;
        let ghost before = self.items@;
        let n: usize = self.items.len();
        if n == 0 {
            proof {
                assert(old(self)@ =~= Set::<usize>::empty());
            }
            return None;
        }
        let k: usize = self.items[0];
        proof {
            assert forall|b: usize| #[trigger] old(self)@.contains(b) implies leads(w, k, b) by {
                let i = choose|i: int| 0 <= i < before.len() && before[i] == b;
                lemma_top_leads(w, before, i);
            }
            assert(before.contains(before[0]));
            lemma_first_is_unique(w, old(self)@, k);
        }
        let last: usize = self.items[n - 1];
        self.items.pop();
        if n == 1 {
            proof {
                assert(self@ =~= old(self)@.remove(k)) by {
                    assert forall|x: usize| !(old(self)@.remove(k).contains(x)) by {
                        if before.contains(x) {
                            let i = choose|i: int| 0 <= i < before.len() && before[i] == x;
                            assert(i == 0);
                        }
                    }
                }
            }
            return Some(k);
        }
        self.items.set(0, last);
        proof {
            let items = self.items@;
            lemma_top_removed(before, items);
            assert(self@ =~= old(self)@.remove(k));
            assert forall|i: int| 0 < i < items.len() && (i - 1) / 2 != 0 implies leads(
                w,
                items[(i - 1) / 2],
                #[trigger] items[i],
            ) by {
                assert(leads(w, before[(i - 1) / 2], before[i]));
            }
        }
        self.sift_down(weights);
        Some(k)
    }
}

} // verus!
