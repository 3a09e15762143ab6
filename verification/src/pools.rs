//! Pools: how many edges of a pool may run at a time.
use crate::binding;
use crate::collections::map_get;
use crate::collections::map_insert;
use crate::manifest::Edge;
use crate::manifest::EdgeView;
use crate::manifest::Manifest;
use crate::manifest::ManifestView;
use crate::render;
use crate::render::render_binding;
use crate::text::same_str;
use rapidhash::RapidHashMap;
use vstd::prelude::*;
use vstd::string::*;

verus! {

/// The pool of an edge, if it is in one.
pub open spec fn pool_of(m: ManifestView, e: EdgeView, windows: bool) -> Option<Seq<char>> {
    let pool = binding::valued(
        m.scopes,
        e,
        render::lists_of(e, Some(windows)),
        "pool"@,
        0,
    );
    if pool.len() == 0 {
        None
    } else {
        Some(pool)
    }
}

/// The pool of an edge, if it is in one.
pub fn edge_pool(manifest: &Manifest, edge: &Edge, windows: bool) -> (r: Option<String>)
    ensures
        match r {
            Some(pool) => pool_of(manifest.deep_view(), edge.deep_view(), windows) == Some(pool@),
            None => pool_of(manifest.deep_view(), edge.deep_view(), windows) is None,
        },
{
    let pool: String = render_binding(manifest, edge, "pool", windows);
    proof {
        reveal_strlit("");
        assert(pool@.len() == 0 ==> pool@ =~= ""@);
    }
    if same_str(pool.as_str(), "") {
        None
    } else {
        Some(pool)
    }
}

/// How many edges of a pool may run at a time. The console has room for one, and
/// a pool of depth zero for any number; outside pools, and in a pool that is not
/// declared, `jobs` may.
pub open spec fn room(m: ManifestView, pool: Option<Seq<char>>, jobs: usize) -> usize {
    match pool {
        Some(name) => if name == "console"@ {
            1
        } else if !m.pools.contains_key(name) {
            jobs
        } else if m.pools[name].depth == 0 {
            usize::MAX
        } else {
            m.pools[name].depth
        },
        None => jobs,
    }
}

pub open spec fn optional_text(s: Option<&str>) -> Option<Seq<char>> {
    match s {
        Some(text) => Some(text@),
        None => None,
    }
}

/// How many edges of a pool may run at a time.
pub fn pool_limit(manifest: &Manifest, pool: Option<&str>, jobs: usize) -> (r: usize)
    ensures
        r == room(manifest.deep_view(), optional_text(pool), jobs),
{
    match pool {
        Some(name) => {
            if same_str(name, "console") {
                return 1;
            }
            match map_get(&manifest.pools, name) {
                Some(found) => {
                    if found.depth == 0 {
                        usize::MAX
                    } else {
                        found.depth
                    }
                },
                None => jobs,
            }
        },
        None => jobs,
    }
}

/// The pool of an edge and how many of its edges may run at a time, unless any
/// number may.
pub open spec fn limited(m: ManifestView, e: EdgeView, windows: bool) -> Option<
    (Seq<char>, usize),
> {
    match pool_of(m, e, windows) {
        Some(pool) => if room(m, Some(pool), usize::MAX) == usize::MAX {
            None
        } else {
            Some((pool, room(m, Some(pool), usize::MAX)))
        },
        None => None,
    }
}

/// The pool of an edge and how many of its edges may run at a time, unless any
/// number may.
pub fn limited_pool(manifest: &Manifest, edge: &Edge, windows: bool) -> (r: Option<
    (String, usize),
>)
    ensures
        match r {
            Some((pool, limit)) => limited(manifest.deep_view(), edge.deep_view(), windows)
                == Some((pool@, limit)),
            None => limited(manifest.deep_view(), edge.deep_view(), windows) is None,
        },
{
    match edge_pool(manifest, edge, windows) {
        Some(pool) => {
            let limit: usize = pool_limit(manifest, Some(pool.as_str()), usize::MAX);
            if limit == usize::MAX {
                None
            } else {
                Some((pool, limit))
            }
        },
        None => None,
    }
}

/// Which edges hold a place in their pool, and how many places of a pool are held.
#[verifier::ext_equal]
pub struct Places {
    pub reserved: Seq<bool>,
    pub usage: Map<Seq<char>, usize>,
}

pub open spec fn held(usage: Map<Seq<char>, usize>, pool: Seq<char>) -> usize {
    if usage.contains_key(pool) {
        usage[pool]
    } else {
        0
    }
}

/// The places once edge `k`, if it is dirty and holds none, has one where its pool
/// has room.
pub open spec fn with_place(
    m: ManifestView,
    windows: bool,
    dirty: Seq<bool>,
    k: usize,
    p: Places,
) -> Places {
    if p.reserved[k as int] || !dirty[k as int] {
        p
    } else {
        match limited(m, m.edges[k as int], windows) {
            None => p,
            Some((pool, limit)) => if held(p.usage, pool) < limit {
                Places {
                    reserved: p.reserved.update(k as int, true),
                    usage: p.usage.insert(pool, (held(p.usage, pool) + 1) as usize),
                }
            } else {
                Places { usage: p.usage.insert(pool, held(p.usage, pool)), ..p }
            },
        }
    }
}

/// The places once the first `n` edges of `ready` have theirs.
pub open spec fn with_places(
    m: ManifestView,
    windows: bool,
    dirty: Seq<bool>,
    ready: Seq<usize>,
    n: int,
    p: Places,
) -> Places
    decreases n,
{
    if n <= 0 {
        p
    } else {
        with_place(m, windows, dirty, ready[n - 1], with_places(m, windows, dirty, ready, n - 1, p))
    }
}

/// Gives edges that have become ready places in their pools.
pub fn reserve_new_pool_edges(
    manifest: &Manifest,
    windows: bool,
    newly_ready: &[usize],
    reserved: &mut Vec<bool>,
    usage: &mut RapidHashMap<String, usize>,
    initially_dirty: &[bool],
)
    requires
        old(reserved)@.len() == manifest.edges@.len(),
        initially_dirty@.len() == manifest.edges@.len(),
        forall|i: int|
            0 <= i < newly_ready@.len() ==> (#[trigger] newly_ready@[i]) < manifest.edges@.len(),
    ensures
        (Places { reserved: final(reserved)@, usage: final(usage).deep_view() }) == with_places(
            manifest.deep_view(),
            windows,
            initially_dirty@,
            newly_ready@,
            newly_ready@.len() as int,
            Places { reserved: old(reserved)@, usage: old(usage).deep_view() },
        ),
{
    let ghost m = manifest.deep_view();
    let ghost start = Places { reserved: reserved@, usage: usage.deep_view() };
    let mut i: usize = 0;
    while i < newly_ready.len()
        invariant
            m == manifest.deep_view(),
            i <= newly_ready@.len(),
            reserved@.len() == manifest.edges@.len(),
            initially_dirty@.len() == manifest.edges@.len(),
            forall|i: int|
                0 <= i < newly_ready@.len() ==> (#[trigger] newly_ready@[i])
                    < manifest.edges@.len(),
            (Places { reserved: reserved@, usage: usage.deep_view() }) == with_places(
                m,
                windows,
                initially_dirty@,
                newly_ready@,
                i as int,
                start,
            ),
        decreases newly_ready@.len() - i,
    {
        let k: usize = newly_ready[i];
        proof {
            assert(m.edges[k as int] == manifest.edges@[k as int].deep_view());
        }
        if !reserved[k] && initially_dirty[k] {
            if let Some((pool, limit)) = limited_pool(manifest, &manifest.edges[k], windows) {
                let count: usize = match map_get(usage, pool.as_str()) {
                    Some(count) => *count,
                    None => 0,
                };
                if count < limit {
                    reserved.set(k, true);
                    map_insert(usage, pool, count + 1);
                } else {
                    map_insert(usage, pool, count);
                }
            }
        }
        i += 1;
    }
}

/// The places once edge `k` has given up its own.
pub open spec fn without_place(m: ManifestView, windows: bool, k: usize, p: Places) -> Places {
    if !p.reserved[k as int] {
        p
    } else {
        Places {
            reserved: p.reserved.update(k as int, false),
            usage: match limited(m, m.edges[k as int], windows) {
                Some((pool, _)) => if p.usage.contains_key(pool) {
                    p.usage.insert(
                        pool,
                        if p.usage[pool] == 0 {
                            0
                        } else {
                            (p.usage[pool] - 1) as usize
                        },
                    )
                } else {
                    p.usage
                },
                None => p.usage,
            },
        }
    }
}

/// Takes the place of an edge in its pool away.
pub fn release_pool_edge(
    manifest: &Manifest,
    windows: bool,
    edge_id: usize,
    reserved: &mut Vec<bool>,
    usage: &mut RapidHashMap<String, usize>,
)
    requires
        old(reserved)@.len() == manifest.edges@.len(),
        edge_id < manifest.edges@.len(),
    ensures
        (Places { reserved: final(reserved)@, usage: final(usage).deep_view() })
            == without_place(
            manifest.deep_view(),
            windows,
            edge_id,
            Places { reserved: old(reserved)@, usage: old(usage).deep_view() },
        ),
{
    if !reserved[edge_id] {
        return;
    }
    reserved.set(edge_id, false);
    proof {
        assert(manifest.deep_view().edges[edge_id as int]
            == manifest.edges@[edge_id as int].deep_view());
    }
    if let Some((pool, _)) = limited_pool(manifest, &manifest.edges[edge_id], windows) {
        let count: Option<usize> = match map_get(usage, pool.as_str()) {
            Some(count) => Some(*count),
            None => None,
        };
        if let Some(count) = count {
            map_insert(usage, pool, count.saturating_sub(1));
        }
    }
}

/// Whether no pool has more places held than it has room for.
pub open spec fn are_within_room(m: ManifestView, usage: Map<Seq<char>, usize>) -> bool {
    forall|pool: Seq<char>| #[trigger]
        usage.contains_key(pool) ==> usage[pool] <= room(m, Some(pool), usize::MAX)
}

/// However many edges become ready, no pool gets more than it has room for.
pub proof fn law_pools_keep_within_their_room(
    m: ManifestView,
    windows: bool,
    dirty: Seq<bool>,
    ready: Seq<usize>,
    n: int,
    p: Places,
)
    requires
        are_within_room(m, p.usage),
    ensures
        are_within_room(m, with_places(m, windows, dirty, ready, n, p).usage),
    decreases n,
{
    if n > 0 {
        law_pools_keep_within_their_room(m, windows, dirty, ready, n - 1, p);
    }
}

/// Giving up a place keeps every pool within its room.
pub proof fn law_releasing_keeps_within_room(m: ManifestView, windows: bool, k: usize, p: Places)
    requires
        are_within_room(m, p.usage),
    ensures
        are_within_room(m, without_place(m, windows, k, p).usage),
{
}

/// An edge that gets a place and gives it up leaves its pool as it was.
pub proof fn law_released_place_is_free_again(
    m: ManifestView,
    windows: bool,
    dirty: Seq<bool>,
    k: usize,
    p: Places,
    pool: Seq<char>,
)
    requires
        k < p.reserved.len(),
        !p.reserved[k as int],
        with_place(m, windows, dirty, k, p).reserved[k as int],
    ensures
        ({
            let after = without_place(m, windows, k, with_place(m, windows, dirty, k, p));
            &&& after.reserved == p.reserved
            &&& held(after.usage, pool) == held(p.usage, pool)
        }),
{
    let after = without_place(m, windows, k, with_place(m, windows, dirty, k, p));
    assert(after.reserved =~= p.reserved);
}

/// An edge is in a limited pool where its `pool` is bound to the console, which has room for
/// one, or to a pool that is declared with a depth that is not zero, which is its room. A depth
/// too great to be reached is no limit.
pub proof fn law_room_of_pools(m: ManifestView, e: EdgeView, windows: bool)
    ensures
        ({
            let pool = binding::valued(
                m.scopes,
                e,
                render::lists_of(e, Some(windows)),
                "pool"@,
                0,
            );
            let console = "console"@;
            &&& pool == Seq::<char>::empty() ==> limited(m, e, windows) is None
            &&& pool == console ==> limited(m, e, windows) == Some((console, 1usize))
            &&& pool != console && !m.pools.contains_key(pool) ==> limited(m, e, windows) is None
            &&& pool.len() > 0 && pool != console && m.pools.contains_key(pool) ==> {
                let depth = m.pools[pool].depth;
                limited(m, e, windows) == (if depth == 0 || depth == usize::MAX {
                    None
                } else {
                    Some((pool, depth))
                })
            }
        }),
{
    reveal_strlit("console");
}

} // verus!
