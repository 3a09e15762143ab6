//! The end of a declaration: a rule, a pool or an edge is checked and enters
//! the manifest once the lines indented below it have been read.
use crate::binding;
use crate::binding::binding_cycle;
use crate::binding::evaluate_edge_binding;
use crate::collections::map_get;
use crate::collections::map_insert;
use crate::collections::map_len;
use crate::collections::map_new;
use crate::diagnostic;
use crate::diagnostic::Diagnostic;
use crate::diagnostic::DiagnosticView;
use crate::expand;
use crate::expand::expand;
use crate::build_line;
use crate::manifest;
use crate::manifest::Edge;
use crate::manifest::EdgeView;
use crate::manifest::Manifest;
use crate::manifest::ManifestView;
use crate::manifest::Pool;
use crate::manifest::PoolView;
use crate::manifest::Rule;
use crate::manifest::RuleView;
use crate::manifest::ScopeView;
use crate::paths;
use crate::paths::canonicalize_owned_path_with_bits;
use crate::spell;
use crate::text;
use crate::text::chars_of;
use crate::text::find_in;
use crate::text::same_str;
use crate::text::Class;
use rapidhash::RapidHashMap;
use vstd::prelude::*;
use vstd::string::*;

verus! {

/// The declaration whose indented lines are being read.
pub enum Parent {
    Nothing,
    Rule(Rule),
    Pool(Pool),
    /// An edge with the slash bits of its paths, in the order in which they are written.
    Edge(Edge, Vec<u64>),
}

/// What a `Parent` holds.
#[verifier::ext_equal]
pub enum ParentView {
    Nothing,
    Rule(RuleView),
    Pool(PoolView),
    Edge(EdgeView, Seq<u64>),
}

impl DeepView for Parent {
    type V = ParentView;

    open spec fn deep_view(&self) -> ParentView {
        match self {
            Parent::Nothing => ParentView::Nothing,
            Parent::Rule(rule) => ParentView::Rule(rule.deep_view()),
            Parent::Pool(pool) => ParentView::Pool(pool.deep_view()),
            Parent::Edge(edge, bits) => ParentView::Edge(edge.deep_view(), bits@),
        }
    }
}

/// What has been declared so far. On Windows it remembers for each path which
/// of its slashes were backslashes where it first appeared.
pub struct State {
    pub manifest: Manifest,
    pub registry: RapidHashMap<String, u64>,
}

/// What a `State` holds.
#[verifier::ext_equal]
pub struct StateView {
    pub manifest: ManifestView,
    pub registry: Map<Seq<char>, u64>,
}

impl DeepView for State {
    type V = StateView;

    open spec fn deep_view(&self) -> StateView {
        StateView { manifest: self.manifest.deep_view(), registry: self.registry.deep_view() }
    }
}

/// What variables stand for in a scope.
pub open spec fn in_scope(scopes: Seq<ScopeView>, scope: int) -> expand::Meaning {
    |name: Seq<char>| manifest::variable_in(scopes, scope, name)
}

/// What variables stand for in the paths of an edge: its own bindings come first.
pub open spec fn in_edge(scopes: Seq<ScopeView>, e: EdgeView) -> expand::Meaning {
    |name: Seq<char>|
        if e.bindings.contains_key(name) {
            Some(e.bindings[name])
        } else {
            manifest::variable_in(scopes, e.scope as int, name)
        }
}

/// Expands `input` in a scope.
pub fn expand_in_scope(manifest: &Manifest, scope: usize, input: &str) -> (r: String)
    ensures
        r@ == expand::expanded(input@, in_scope(manifest.deep_view().scopes, scope as int)),
{
    let ghost scopes = manifest.deep_view().scopes;
    let lookup = |name: &str| -> (value: Option<String>)
        ensures
            expand::optional(value) == manifest::variable_in(
                manifest.deep_view().scopes,
                scope as int,
                name@,
            ),
        {
            match manifest.lookup_variable(scope, name) {
                Some(v) => Some(v.to_owned()),
                None => None,
            }
        };
    proof {
        assert(expand::gives(lookup, in_scope(scopes, scope as int)));
    }
    expand(input, lookup)
}

fn expand_in_edge(manifest: &Manifest, edge: &Edge, input: &str) -> (r: String)
    ensures
        r@ == expand::expanded(input@, in_edge(manifest.deep_view().scopes, edge.deep_view())),
{
    let ghost scopes = manifest.deep_view().scopes;
    let ghost e = edge.deep_view();
    let lookup = |name: &str| -> (value: Option<String>)
        ensures
            expand::optional(value) == in_edge(manifest.deep_view().scopes, edge.deep_view())(
                name@,
            ),
        {
            match map_get(&edge.bindings, name) {
                Some(v) => Some(v.clone()),
                None => match manifest.lookup_variable(edge.scope, name) {
                    Some(v) => Some(v.to_owned()),
                    None => None,
                },
            }
        };
    proof {
        assert(expand::gives(lookup, in_edge(scopes, e)));
    }
    expand(input, lookup)
}

/// The text of a word of an edge: a word with a dollar sign is expanded.
pub open spec fn word_text(scopes: Seq<ScopeView>, e: EdgeView, word: Seq<char>) -> Seq<char> {
    if word.contains('$') {
        expand::expanded(word, in_edge(scopes, e))
    } else {
        word
    }
}

/// Whether a word of an edge expands to nothing.
pub open spec fn is_blank(scopes: Seq<ScopeView>, e: EdgeView, word: Seq<char>) -> bool {
    word.contains('$') && word_text(scopes, e, word).len() == 0
}

/// The path that a word of an edge names. One without a dollar sign is a path already.
pub open spec fn word_path(
    scopes: Seq<ScopeView>,
    e: EdgeView,
    windows: bool,
    word: Seq<char>,
) -> Seq<char> {
    if word.contains('$') {
        paths::canonical(word_text(scopes, e, word), windows).0
    } else {
        word
    }
}

/// The bits of path `i`, where it has any.
pub open spec fn bits_at(bits: Seq<u64>, i: int) -> u64 {
    if 0 <= i < bits.len() {
        bits[i]
    } else {
        0
    }
}

/// The slash bits of the path that a word of an edge names. Those of one without a dollar
/// sign are `own`.
pub open spec fn word_bits(
    scopes: Seq<ScopeView>,
    e: EdgeView,
    windows: bool,
    word: Seq<char>,
    own: u64,
) -> u64 {
    if word.contains('$') {
        paths::canonical(word_text(scopes, e, word), windows).1 as u64
    } else {
        own
    }
}

pub open spec fn word_paths(
    scopes: Seq<ScopeView>,
    e: EdgeView,
    windows: bool,
    words: Seq<Seq<char>>,
) -> Seq<Seq<char>> {
    Seq::new(words.len(), |i: int| word_path(scopes, e, windows, words[i]))
}

/// The slash bits of the paths that words of an edge name, the first of which is word `at`
/// of the edge.
pub open spec fn words_bits(
    scopes: Seq<ScopeView>,
    e: EdgeView,
    windows: bool,
    words: Seq<Seq<char>>,
    bits: Seq<u64>,
    at: int,
) -> Seq<u64> {
    Seq::new(
        words.len(),
        |i: int| word_bits(scopes, e, windows, words[i], bits_at(bits, at + i)),
    )
}

/// The edge with the paths that its words name.
pub open spec fn resolved(scopes: Seq<ScopeView>, e: EdgeView, windows: bool) -> EdgeView {
    EdgeView {
        explicit_outputs: word_paths(scopes, e, windows, e.explicit_outputs),
        implicit_outputs: word_paths(scopes, e, windows, e.implicit_outputs),
        explicit_inputs: word_paths(scopes, e, windows, e.explicit_inputs),
        implicit_inputs: word_paths(scopes, e, windows, e.implicit_inputs),
        order_only_inputs: word_paths(scopes, e, windows, e.order_only_inputs),
        validations: word_paths(scopes, e, windows, e.validations),
        ..e
    }
}

/// The registry once the first `n` paths have been seen: the bits of a path are
/// those with which it was first seen.
pub open spec fn registered(
    registry: Map<Seq<char>, u64>,
    paths: Seq<Seq<char>>,
    bits: Seq<u64>,
    n: int,
) -> Map<Seq<char>, u64>
    decreases n,
{
    if n <= 0 {
        registry
    } else {
        let before = registered(registry, paths, bits, n - 1);
        if before.contains_key(paths[n - 1]) {
            before
        } else {
            before.insert(paths[n - 1], bits[n - 1])
        }
    }
}

/// The registry once the paths of an edge have been seen. `e` is the edge as it
/// is written, and `bits` are those of its paths.
pub open spec fn edge_registered(
    registry: Map<Seq<char>, u64>,
    scopes: Seq<ScopeView>,
    e: EdgeView,
    bits: Seq<u64>,
) -> Map<Seq<char>, u64> {
    let words = manifest::paths_of(e);
    registered(
        registry,
        word_paths(scopes, e, true, words),
        words_bits(scopes, e, true, words, bits, 0),
        words.len() as int,
    )
}

pub open spec fn registry_bits(registry: Map<Seq<char>, u64>, paths: Seq<Seq<char>>) -> Seq<u64> {
    Seq::new(paths.len(), |i: int| registry[paths[i]])
}

/// The bits that an edge keeps: none where all of them are zero.
pub open spec fn kept_bits(bits: Seq<u64>) -> Seq<u64> {
    if exists|i: int| 0 <= i < bits.len() && bits[i] != 0 {
        bits
    } else {
        seq![]
    }
}

/// The registry and the edge once its paths are known.
pub open spec fn settled(
    registry: Map<Seq<char>, u64>,
    scopes: Seq<ScopeView>,
    e: EdgeView,
    bits: Seq<u64>,
    windows: bool,
) -> (Map<Seq<char>, u64>, EdgeView) {
    let r = resolved(scopes, e, windows);
    if windows {
        let known = edge_registered(registry, scopes, e, bits);
        (
            known,
            EdgeView {
                slash_bits: kept_bits(
                    registry_bits(known, r.explicit_outputs + r.explicit_inputs),
                ),
                ..r
            },
        )
    } else {
        (registry, EdgeView { slash_bits: seq![], ..r })
    }
}

/// The line behind the bindings of a declaration.
pub open spec fn line_behind(line: usize, bindings: Map<Seq<char>, Seq<char>>) -> usize {
    text::sat(line + bindings.dom().len() + 1)
}

/// Whether a rule binds `name` to something.
pub open spec fn binds(rule: RuleView, name: Seq<char>) -> bool {
    rule.bindings.contains_key(name) && rule.bindings[name].len() > 0
}

/// `scopes` with rule `rule` in a scope, marked where its bindings form a circle.
pub open spec fn with_rule(scopes: Seq<ScopeView>, scope: int, rule: RuleView) -> Seq<ScopeView> {
    let s = scopes[scope];
    let declared = scopes.update(
        scope,
        ScopeView { rules: s.rules.insert(rule.name, rule), ..s },
    );
    let e = EdgeView {
        rule: rule.name,
        scope: scope as usize,
        ..build_line::empty_edge(seq![], 0)
    };
    if binding::binding_circle(declared, e) is Some {
        declared.update(
            scope,
            ScopeView { cyclic: s.cyclic.insert(rule.name, true), ..declared[scope] },
        )
    } else {
        declared
    }
}

/// Whether the rule of an edge was marked: its bindings form a circle, if the
/// edge does not break it.
pub open spec fn is_cyclic(scopes: Seq<ScopeView>, e: EdgeView) -> bool {
    match manifest::rule_scope_in(scopes, e.scope as int, e.rule) {
        Some(k) => scopes[k].cyclic.contains_key(e.rule),
        None => e.scope < scopes.len() && scopes[e.scope as int].cyclic.contains_key(e.rule),
    }
}

/// The names of a circle, with arrows between them.
pub open spec fn arrow_joined(names: Seq<Seq<char>>, n: int) -> Seq<char>
    decreases n,
{
    if n <= 0 {
        seq![]
    } else if n == 1 {
        names[0]
    } else {
        arrow_joined(names, n - 1) + " -> "@ + names[n - 1]
    }
}

/// What is wrong with an edge whose paths are known, if anything is.
pub open spec fn edge_error(m: ManifestView, e: EdgeView) -> Option<DiagnosticView> {
    let behind = line_behind(e.line, e.bindings);
    let circle = binding::binding_circle(m.scopes, e);
    let pool = binding::evaluated(m.scopes, e, "pool"@, 0);
    let dyndep = binding::evaluated(m.scopes, e, "dyndep"@, 0);
    if is_cyclic(m.scopes, e) && circle is Some {
        Some(
            diagnostic::bare_diagnostic(
                e.source,
                e.line,
                1,
                "cycle in rule variables: "@ + arrow_joined(circle->0, circle->0.len() as int),
            ),
        )
    } else if m.has_pool_binding && pool.len() > 0 && pool != "console"@
        && !m.pools.contains_key(pool) {
        Some(
            diagnostic::bare_diagnostic(
                e.source,
                behind,
                1,
                "unknown pool name '"@ + pool + "'"@,
            ),
        )
    } else if m.has_dyndep_binding && dyndep.len() > 0 && !manifest::inputs_of(e).contains(
        dyndep,
    ) {
        Some(
            diagnostic::bare_diagnostic(
                e.source,
                behind,
                1,
                "dyndep '"@ + dyndep + "' is not an input"@,
            ),
        )
    } else {
        None
    }
}

/// The state once a declaration is complete, or what is wrong with it.
#[verifier::opaque]
pub open spec fn finalized(st: StateView, scope: int, parent: ParentView, windows: bool) -> Result<
    StateView,
    DiagnosticView,
> {
    let m = st.manifest;
    match parent {
        ParentView::Nothing => Ok(st),
        ParentView::Rule(rule) => {
            let behind = line_behind(rule.line, rule.bindings);
            if !binds(rule, "command"@) {
                Err(
                    diagnostic::bare_diagnostic(
                        rule.source,
                        behind,
                        1,
                        "expected 'command =' line"@,
                    ),
                )
            } else if binds(rule, "rspfile"@) != binds(rule, "rspfile_content"@) {
                Err(
                    diagnostic::bare_diagnostic(
                        rule.source,
                        behind,
                        1,
                        "rspfile and rspfile_content need to be both specified"@,
                    ),
                )
            } else {
                Ok(
                    StateView {
                        manifest: ManifestView { scopes: with_rule(m.scopes, scope, rule), ..m },
                        ..st
                    },
                )
            }
        },
        ParentView::Pool(pool) => if !pool.depth_specified {
            Err(
                diagnostic::bare_diagnostic(
                    pool.source,
                    text::sat(pool.line + 1),
                    1,
                    "expected 'depth =' line"@,
                ),
            )
        } else {
            Ok(
                StateView {
                    manifest: ManifestView { pools: m.pools.insert(pool.name, pool), ..m },
                    ..st
                },
            )
        },
        ParentView::Edge(e, bits) => {
            let words = manifest::paths_of(e);
            let (registry, known) = settled(st.registry, m.scopes, e, bits, windows);
            if exists|i: int| 0 <= i < words.len() && is_blank(m.scopes, e, #[trigger] words[i]) {
                Err(
                    diagnostic::bare_diagnostic(
                        e.source,
                        line_behind(e.line, e.bindings),
                        1,
                        "empty path"@,
                    ),
                )
            } else {
                match edge_error(m, known) {
                    Some(d) => Err(d),
                    None => Ok(
                        StateView {
                            manifest: ManifestView { edges: m.edges.push(known), ..m },
                            registry,
                        },
                    ),
                }
            }
        },
    }
}

/// The paths that a list of words names, with their slash bits. The first of them is word
/// `at` of the edge. `None` is a word that expands to nothing.
fn resolve_words(
    manifest: &Manifest,
    edge: &Edge,
    windows: bool,
    words: &Vec<String>,
    bits: &Vec<u64>,
    at: usize,
    Ghost(from): Ghost<int>,
) -> (r: Option<(Vec<String>, Vec<u64>)>)
    requires
        0 <= from,
        at == text::sat(from),
    ensures
        ({
            let scopes = manifest.deep_view().scopes;
            let e = edge.deep_view();
            let list = text::strings(words@);
            match r {
                Some((p, b)) => {
                    &&& text::strings(p@) == word_paths(scopes, e, windows, list)
                    &&& b@ == words_bits(scopes, e, windows, list, bits@, from)
                    &&& p@.len() == b@.len()
                    &&& forall|i: int|
                        0 <= i < list.len() ==> !is_blank(scopes, e, #[trigger] list[i])
                },
                None => exists|i: int|
                    0 <= i < list.len() && is_blank(scopes, e, #[trigger] list[i]),
            }
        }),
{
    let ghost scopes = manifest.deep_view().scopes;
    let ghost e = edge.deep_view();
    let ghost list = text::strings(words@);
    let mut p: Vec<String> = Vec::new();
    let mut b: Vec<u64> = Vec::new();
    let mut i: usize = 0;
    while i < words.len()
        invariant
            scopes == manifest.deep_view().scopes,
            e == edge.deep_view(),
            list == text::strings(words@),
            i <= words@.len(),
            text::strings(p@) =~= word_paths(scopes, e, windows, list).take(i as int),
            0 <= from,
            at == text::sat(from),
            b@ =~= words_bits(scopes, e, windows, list, bits@, from).take(i as int),
            p@.len() == b@.len(),
            forall|k: int| 0 <= k < i ==> !is_blank(scopes, e, #[trigger] list[k]),
        decreases words@.len() - i,
    {
        let word: &String = &words[i];
        let chars: Vec<char> = chars_of(word.as_str());
        let has_dollar: bool = find_in(chars.as_slice(), 0, Class::Is('$')) < chars.len();
        proof {
            assert(list[i as int] == word@);
            assert(has_dollar == word@.contains('$')) by {
                text::lemma_first_in(word@, 0, Class::Is('$'));
            }
        }
        let ghost before = text::strings(p@);
        let (path, slashes) = if has_dollar {
            let text: String = expand_in_edge(manifest, edge, word.as_str());
            if chars_of(text.as_str()).len() == 0 {
                proof {
                    assert(is_blank(scopes, e, list[i as int]));
                }
                return None;
            }
            canonicalize_owned_path_with_bits(text, windows)
        } else {
            let k: usize = at.saturating_add(i);
            (
                word.clone(),
                if k < bits.len() {
                    bits[k]
                } else {
                    0
                },
            )
        };
        let ghost view = path@;
        p.push(path);
        b.push(slashes);
        proof {
            assert(text::strings(p@) =~= before.push(view));
        }
        i += 1;
    }
    proof {
        assert(text::strings(p@) =~= word_paths(scopes, e, windows, list));
        assert(b@ =~= words_bits(scopes, e, windows, list, bits@, from));
    }
    Some((p, b))
}

/// Notes the paths of a list, whose bits are those of `bits`.
fn register(registry: &mut RapidHashMap<String, u64>, paths: &Vec<String>, bits: &Vec<u64>)
    requires
        paths@.len() == bits@.len(),
    ensures
        final(registry).deep_view() == registered(
            old(registry).deep_view(),
            text::strings(paths@),
            bits@,
            paths@.len() as int,
        ),
{
    let mut i: usize = 0;
    while i < paths.len()
        invariant
            paths@.len() == bits@.len(),
            i <= paths@.len(),
            registry.deep_view() == registered(
                old(registry).deep_view(),
                text::strings(paths@),
                bits@,
                i as int,
            ),
        decreases paths@.len() - i,
    {
        if map_get(registry, paths[i].as_str()).is_none() {
            map_insert(registry, paths[i].clone(), bits[i]);
        }
        i += 1;
    }
}

proof fn lemma_registered_concat(
    registry: Map<Seq<char>, u64>,
    p: Seq<Seq<char>>,
    b: Seq<u64>,
    q: Seq<Seq<char>>,
    c: Seq<u64>,
    n: int,
)
    requires
        p.len() == b.len(),
        0 <= n <= q.len() == c.len(),
    ensures
        registered(registered(registry, p, b, p.len() as int), q, c, n) == registered(
            registry,
            p + q,
            b + c,
            p.len() + n,
        ),
    decreases n,
{
    if n > 0 {
        lemma_registered_concat(registry, p, b, q, c, n - 1);
        assert((p + q)[p.len() + n - 1] == q[n - 1]);
        assert((b + c)[p.len() + n - 1] == c[n - 1]);
    } else {
        lemma_registered_prefix(registry, p, b, q, c, p.len() as int);
    }
}

proof fn lemma_registered_prefix(
    registry: Map<Seq<char>, u64>,
    p: Seq<Seq<char>>,
    b: Seq<u64>,
    q: Seq<Seq<char>>,
    c: Seq<u64>,
    n: int,
)
    requires
        p.len() == b.len(),
        0 <= n <= p.len(),
    ensures
        registered(registry, p, b, n) == registered(registry, p + q, b + c, n),
    decreases n,
{
    if n > 0 {
        lemma_registered_prefix(registry, p, b, q, c, n - 1);
    }
}

/// Every path that has been seen is in the registry.
proof fn lemma_registered_holds(
    registry: Map<Seq<char>, u64>,
    p: Seq<Seq<char>>,
    b: Seq<u64>,
    n: int,
    i: int,
)
    requires
        0 <= i < n <= p.len(),
    ensures
        registered(registry, p, b, n).contains_key(p[i]),
    decreases n,
{
    if i < n - 1 {
        lemma_registered_holds(registry, p, b, n - 1, i);
    }
}

/// Appends the bits of the paths of a list, which the registry holds.
fn push_bits(out: &mut Vec<u64>, registry: &RapidHashMap<String, u64>, paths: &Vec<String>)
    requires
        forall|i: int|
            0 <= i < paths@.len() ==> registry.deep_view().contains_key((#[trigger] paths@[i])@),
    ensures
        final(out)@ == old(out)@ + registry_bits(registry.deep_view(), text::strings(paths@)),
{
    let mut i: usize = 0;
    while i < paths.len()
        invariant
            forall|i: int|
                0 <= i < paths@.len() ==> registry.deep_view().contains_key(
                    (#[trigger] paths@[i])@,
                ),
            i <= paths@.len(),
            out@ =~= old(out)@ + registry_bits(registry.deep_view(), text::strings(paths@)).take(
                i as int,
            ),
        decreases paths@.len() - i,
    {
        let bits: u64 = match map_get(registry, paths[i].as_str()) {
            Some(b) => *b,
            None => 0,
        };
        proof {
            assert(registry.deep_view().contains_key(paths@[i as int]@));
            assert(text::strings(paths@)[i as int] == paths@[i as int]@);
        }
        out.push(bits);
        i += 1;
    }
    proof {
        let all = registry_bits(registry.deep_view(), text::strings(paths@));
        assert(all.take(paths@.len() as int) =~= all);
    }
}

proof fn lemma_blank_words(scopes: Seq<ScopeView>, e: EdgeView, list: Seq<Seq<char>>, at: int)
    requires
        0 <= at,
        at + list.len() <= manifest::paths_of(e).len(),
        manifest::paths_of(e).subrange(at, at + list.len()) == list,
        exists|i: int| 0 <= i < list.len() && is_blank(scopes, e, #[trigger] list[i]),
    ensures
        ({
            let words = manifest::paths_of(e);
            exists|i: int| 0 <= i < words.len() && is_blank(scopes, e, #[trigger] words[i])
        }),
{
    let words = manifest::paths_of(e);
    let i = choose|i: int| 0 <= i < list.len() && is_blank(scopes, e, #[trigger] list[i]);
    assert(words.subrange(at, at + list.len())[i] == words[at + i]);
    assert(is_blank(scopes, e, words[at + i]));
}

/// The edge with the paths that its words name, and its slash bits.
fn expand_deferred_paths(
    manifest: &Manifest,
    registry: &mut RapidHashMap<String, u64>,
    edge: Edge,
    written: &Vec<u64>,
    windows: bool,
) -> (r: Result<Edge, Diagnostic>)
    ensures
        ({
            let scopes = manifest.deep_view().scopes;
            let e = edge.deep_view();
            let words = manifest::paths_of(e);
            match r {
                Ok(known) => {
                    &&& (final(registry).deep_view(), known.deep_view()) == settled(
                        old(registry).deep_view(),
                        scopes,
                        e,
                        written@,
                        windows,
                    )
                    &&& forall|i: int|
                        0 <= i < words.len() ==> !is_blank(scopes, e, #[trigger] words[i])
                },
                Err(d) => {
                    &&& d.deep_view() == diagnostic::bare_diagnostic(
                        e.source,
                        line_behind(e.line, e.bindings),
                        1,
                        "empty path"@,
                    )
                    &&& exists|i: int|
                        0 <= i < words.len() && is_blank(scopes, e, #[trigger] words[i])
                },
            }
        }),
{
    let ghost scopes = manifest.deep_view().scopes;
    let ghost e = edge.deep_view();
    let ghost words = manifest::paths_of(e);
    let ghost registry0 = registry.deep_view();
    let ghost (n1, n2, n3, n4, n5) = (
        e.explicit_outputs.len(),
        e.implicit_outputs.len(),
        e.explicit_inputs.len(),
        e.implicit_inputs.len(),
        e.order_only_inputs.len(),
    );
    proof {
        assert(words.subrange(0, n1 as int) =~= e.explicit_outputs);
        assert(words.subrange(n1 as int, (n1 + n2) as int) =~= e.implicit_outputs);
        assert(words.subrange((n1 + n2) as int, (n1 + n2 + n3) as int) =~= e.explicit_inputs);
        assert(words.subrange((n1 + n2 + n3) as int, (n1 + n2 + n3 + n4) as int)
            =~= e.implicit_inputs);
        assert(words.subrange((n1 + n2 + n3 + n4) as int, (n1 + n2 + n3 + n4 + n5) as int)
            =~= e.order_only_inputs);
        assert(words.subrange((n1 + n2 + n3 + n4 + n5) as int, words.len() as int)
            =~= e.validations);
    }
    let a1: usize = edge.explicit_outputs.len();
    let a2: usize = a1.saturating_add(edge.implicit_outputs.len());
    let a3: usize = a2.saturating_add(edge.explicit_inputs.len());
    let a4: usize = a3.saturating_add(edge.implicit_inputs.len());
    let a5: usize = a4.saturating_add(edge.order_only_inputs.len());
    let behind: usize = edge.line.saturating_add(map_len(&edge.bindings)).saturating_add(1);
    let blank: Diagnostic = Diagnostic::new(edge.source.as_str(), behind, 1, "empty path");
    let (p1, b1) = match resolve_words(
        manifest,
        &edge,
        windows,
        &edge.explicit_outputs,
        written,
        0,
        Ghost(0),
    ) {
        Some(x) => x,
        None => {
            proof {
                lemma_blank_words(scopes, e, e.explicit_outputs, 0);
            }
            return Err(blank);
        },
    };
    let (p2, b2) = match resolve_words(
        manifest,
        &edge,
        windows,
        &edge.implicit_outputs,
        written,
        a1,
        Ghost(n1 as int),
    ) {
        Some(x) => x,
        None => {
            proof {
                lemma_blank_words(scopes, e, e.implicit_outputs, n1 as int);
            }
            return Err(blank);
        },
    };
    let (p3, b3) = match resolve_words(
        manifest,
        &edge,
        windows,
        &edge.explicit_inputs,
        written,
        a2,
        Ghost((n1 + n2) as int),
    ) {
        Some(x) => x,
        None => {
            proof {
                lemma_blank_words(scopes, e, e.explicit_inputs, (n1 + n2) as int);
            }
            return Err(blank);
        },
    };
    let (p4, b4) = match resolve_words(
        manifest,
        &edge,
        windows,
        &edge.implicit_inputs,
        written,
        a3,
        Ghost((n1 + n2 + n3) as int),
    ) {
        Some(x) => x,
        None => {
            proof {
                lemma_blank_words(scopes, e, e.implicit_inputs, (n1 + n2 + n3) as int);
            }
            return Err(blank);
        },
    };
    let (p5, b5) = match resolve_words(
        manifest,
        &edge,
        windows,
        &edge.order_only_inputs,
        written,
        a4,
        Ghost((n1 + n2 + n3 + n4) as int),
    ) {
        Some(x) => x,
        None => {
            proof {
                lemma_blank_words(scopes, e, e.order_only_inputs, (n1 + n2 + n3 + n4) as int);
            }
            return Err(blank);
        },
    };
    let (p6, b6) = match resolve_words(
        manifest,
        &edge,
        windows,
        &edge.validations,
        written,
        a5,
        Ghost((n1 + n2 + n3 + n4 + n5) as int),
    ) {
        Some(x) => x,
        None => {
            proof {
                lemma_blank_words(scopes, e, e.validations, (n1 + n2 + n3 + n4 + n5) as int);
            }
            return Err(blank);
        },
    };
    proof {
        assert forall|i: int| 0 <= i < words.len() implies !is_blank(
            scopes,
            e,
            #[trigger] words[i],
        ) by {
            lemma_word_of(e, i);
        }
    }
    let mut bits: Vec<u64> = Vec::new();
    if windows {
        register(registry, &p1, &b1);
        register(registry, &p2, &b2);
        register(registry, &p3, &b3);
        register(registry, &p4, &b4);
        register(registry, &p5, &b5);
        register(registry, &p6, &b6);
        proof {
            let (q1, q2, q3, q4, q5, q6) = (
                text::strings(p1@),
                text::strings(p2@),
                text::strings(p3@),
                text::strings(p4@),
                text::strings(p5@),
                text::strings(p6@),
            );
            lemma_registered_concat(registry0, q1, b1@, q2, b2@, q2.len() as int);
            lemma_registered_concat(registry0, q1 + q2, b1@ + b2@, q3, b3@, q3.len() as int);
            lemma_registered_concat(
                registry0,
                q1 + q2 + q3,
                b1@ + b2@ + b3@,
                q4,
                b4@,
                q4.len() as int,
            );
            lemma_registered_concat(
                registry0,
                q1 + q2 + q3 + q4,
                b1@ + b2@ + b3@ + b4@,
                q5,
                b5@,
                q5.len() as int,
            );
            lemma_registered_concat(
                registry0,
                q1 + q2 + q3 + q4 + q5,
                b1@ + b2@ + b3@ + b4@ + b5@,
                q6,
                b6@,
                q6.len() as int,
            );
            let all = word_paths(scopes, e, true, words);
            let all_bits = words_bits(scopes, e, true, words, written@, 0);
            assert(q1 + q2 + q3 + q4 + q5 + q6 =~= all);
            assert(b1@ + b2@ + b3@ + b4@ + b5@ + b6@ =~= all_bits);
            assert(registry.deep_view() == edge_registered(registry0, scopes, e, written@));
            assert forall|i: int| 0 <= i < p1@.len() implies registry.deep_view().contains_key(
                (#[trigger] p1@[i])@,
            ) by {
                lemma_registered_holds(registry0, all, all_bits, all.len() as int, i);
                assert(all[i] == q1[i]);
            }
            assert forall|i: int| 0 <= i < p3@.len() implies registry.deep_view().contains_key(
                (#[trigger] p3@[i])@,
            ) by {
                let at = q1.len() + q2.len() + i;
                lemma_registered_holds(registry0, all, all_bits, all.len() as int, at);
                assert(all[at] == q3[i]);
            }
        }
        let mut explicit: Vec<u64> = Vec::new();
        push_bits(&mut explicit, registry, &p1);
        push_bits(&mut explicit, registry, &p3);
        proof {
            assert(explicit@ =~= registry_bits(
                registry.deep_view(),
                text::strings(p1@) + text::strings(p3@),
            ));
        }
        let mut i: usize = 0;
        while i < explicit.len() && explicit[i] == 0
            invariant
                i <= explicit@.len(),
                forall|k: int| 0 <= k < i ==> explicit@[k] == 0,
            decreases explicit@.len() - i,
        {
            i += 1;
        }
        if i < explicit.len() {
            bits = explicit;
        }
    }
    let known: Edge = Edge {
        explicit_outputs: p1,
        implicit_outputs: p2,
        explicit_inputs: p3,
        implicit_inputs: p4,
        order_only_inputs: p5,
        validations: p6,
        slash_bits: bits,
        ..edge
    };
    proof {
        assert(known.deep_view() =~= settled(registry0, scopes, e, written@, windows).1);
    }
    Ok(known)
}

/// Word `i` of an edge is a word of one of its six lists.
proof fn lemma_word_of(e: EdgeView, i: int)
    requires
        0 <= i < manifest::paths_of(e).len(),
    ensures
        ({
            let w = manifest::paths_of(e)[i];
            ||| exists|k: int| 0 <= k < e.explicit_outputs.len() && e.explicit_outputs[k] == w
            ||| exists|k: int| 0 <= k < e.implicit_outputs.len() && e.implicit_outputs[k] == w
            ||| exists|k: int| 0 <= k < e.explicit_inputs.len() && e.explicit_inputs[k] == w
            ||| exists|k: int| 0 <= k < e.implicit_inputs.len() && e.implicit_inputs[k] == w
            ||| exists|k: int| 0 <= k < e.order_only_inputs.len() && e.order_only_inputs[k] == w
            ||| exists|k: int| 0 <= k < e.validations.len() && e.validations[k] == w
        }),
{
    let w = manifest::paths_of(e)[i];
    let a = e.explicit_outputs.len();
    let b = a + e.implicit_outputs.len();
    let c = b + e.explicit_inputs.len();
    let d = c + e.implicit_inputs.len();
    let f = d + e.order_only_inputs.len();
    if i < a {
        assert(e.explicit_outputs[i] == w);
    } else if i < b {
        assert(e.implicit_outputs[i - a] == w);
    } else if i < c {
        assert(e.explicit_inputs[i - b] == w);
    } else if i < d {
        assert(e.implicit_inputs[i - c] == w);
    } else if i < f {
        assert(e.order_only_inputs[i - d] == w);
    } else {
        assert(e.validations[i - f] == w);
    }
}

/// Marks the end of a declaration of an edge: checks it, and enters it.
fn finalize_edge(st: &mut State, edge: Edge, bits: Vec<u64>, windows: bool) -> (r: Result<
    (),
    Diagnostic,
>)
    ensures
        match r {
            Ok(()) => finalized(
                old(st).deep_view(),
                edge.scope as int,
                ParentView::Edge(edge.deep_view(), bits@),
                windows,
            ) == Ok::<StateView, DiagnosticView>(final(st).deep_view()),
            Err(d) => finalized(
                old(st).deep_view(),
                edge.scope as int,
                ParentView::Edge(edge.deep_view(), bits@),
                windows,
            ) == Err::<StateView, DiagnosticView>(d.deep_view()),
        },
        final(st).manifest.scopes@.len() == old(st).manifest.scopes@.len(),
{
    proof {
        reveal(finalized);
    }
    let ghost before = st.deep_view();
    let known: Edge = match expand_deferred_paths(
        &st.manifest,
        &mut st.registry,
        edge,
        &bits,
        windows,
    ) {
        Ok(known) => known,
        Err(d) => {
            return Err(d);
        },
    };
    if let Some(d) = check_edge(&st.manifest, &known) {
        return Err(d);
    }
    let ghost view = known.deep_view();
    st.manifest.edges.push(known);
    proof {
        assert(st.manifest.edges.deep_view() =~= before.manifest.edges.push(view));
        assert(st.deep_view().manifest =~= (ManifestView {
            edges: before.manifest.edges.push(view),
            ..before.manifest
        }));
    }
    Ok(())
}

fn join_arrows(names: &Vec<String>) -> (r: String)
    ensures
        r@ == arrow_joined(text::strings(names@), names@.len() as int),
{
    let mut r: String = String::new();
    proof {
        reveal_strlit("");
        assert(r@ =~= seq![]);
    }
    let mut i: usize = 0;
    while i < names.len()
        invariant
            i <= names@.len(),
            r@ == arrow_joined(text::strings(names@), i as int),
        decreases names@.len() - i,
    {
        if i > 0 {
            r.append(" -> ");
        }
        proof {
            if i == 0 {
                assert(r@ + names@[0]@ =~= names@[0]@);
            }
        }
        r.append(names[i].as_str());
        i += 1;
    }
    r
}

/// What is wrong with an edge whose paths are known, if anything is.
fn check_edge(manifest: &Manifest, edge: &Edge) -> (r: Option<Diagnostic>)
    ensures
        match r {
            Some(d) => edge_error(manifest.deep_view(), edge.deep_view()) == Some(d.deep_view()),
            None => edge_error(manifest.deep_view(), edge.deep_view()) is None,
        },
{
    let ghost m = manifest.deep_view();
    let ghost e = edge.deep_view();
    let behind: usize = edge.line.saturating_add(map_len(&edge.bindings)).saturating_add(1);
    let rule_scope: usize = match manifest.lookup_rule_scope(edge.scope, edge.rule.as_str()) {
        Some(k) => k,
        None => edge.scope,
    };
    let cyclic: bool = rule_scope < manifest.scopes.len() && map_get(
        &manifest.scopes[rule_scope].cyclic,
        edge.rule.as_str(),
    ).is_some();
    proof {
        if rule_scope < m.scopes.len() {
            assert(m.scopes[rule_scope as int] == manifest.scopes@[rule_scope as int].deep_view());
        }
        assert(cyclic == is_cyclic(m.scopes, e));
    }
    if cyclic {
        if let Some(circle) = binding_cycle(manifest, edge) {
            let mut message: String = "cycle in rule variables: ".to_owned();
            message.append(join_arrows(&circle).as_str());
            return Some(
                Diagnostic::new(edge.source.as_str(), edge.line, 1, message.as_str()),
            );
        }
    }
    if manifest.has_pool_binding {
        let pool: String = evaluate_edge_binding(manifest, edge, "pool", 0);
        if chars_of(pool.as_str()).len() > 0 && !same_str(pool.as_str(), "console") && map_get(
            &manifest.pools,
            pool.as_str(),
        ).is_none() {
            let mut message: String = "unknown pool name '".to_owned();
            message.append(pool.as_str());
            message.append("'");
            return Some(Diagnostic::new(edge.source.as_str(), behind, 1, message.as_str()));
        }
    }
    if manifest.has_dyndep_binding {
        let dyndep: String = evaluate_edge_binding(manifest, edge, "dyndep", 0);
        if chars_of(dyndep.as_str()).len() > 0 && !is_listed(&edge.inputs(), dyndep.as_str()) {
            let mut message: String = "dyndep '".to_owned();
            message.append(dyndep.as_str());
            message.append("' is not an input");
            return Some(Diagnostic::new(edge.source.as_str(), behind, 1, message.as_str()));
        }
    }
    None
}

/// Whether `path` is in a list.
pub fn is_listed(list: &Vec<&str>, path: &str) -> (r: bool)
    ensures
        r == spell::views(list@).contains(path@),
{
    let mut i: usize = 0;
    while i < list.len()
        invariant
            i <= list@.len(),
            forall|k: int| 0 <= k < i ==> spell::views(list@)[k] != path@,
        decreases list@.len() - i,
    {
        if same_str(list[i], path) {
            proof {
                assert(spell::views(list@)[i as int] == path@);
            }
            return true;
        }
        i += 1;
    }
    false
}

fn has_binding(rule: &Rule, name: &str) -> (r: bool)
    ensures
        r == binds(rule.deep_view(), name@),
{
    match map_get(&rule.bindings, name) {
        Some(value) => chars_of(value.as_str()).len() > 0,
        None => false,
    }
}

/// Marks the end of a declaration of a rule: checks it, and enters it.
fn finalize_rule(st: &mut State, scope: usize, rule: Rule) -> (r: Result<(), Diagnostic>)
    requires
        scope < old(st).manifest.scopes@.len(),
    ensures
        match r {
            Ok(()) => finalized(
                old(st).deep_view(),
                scope as int,
                ParentView::Rule(rule.deep_view()),
                false,
            ) == Ok::<StateView, DiagnosticView>(final(st).deep_view()),
            Err(d) => finalized(
                old(st).deep_view(),
                scope as int,
                ParentView::Rule(rule.deep_view()),
                false,
            ) == Err::<StateView, DiagnosticView>(d.deep_view()),
        },
        final(st).manifest.scopes@.len() == old(st).manifest.scopes@.len(),
{
    proof {
        reveal(finalized);
    }
    let ghost before = st.deep_view();
    let ghost view = rule.deep_view();
    let ghost n = scope as int;
    let behind: usize = rule.line.saturating_add(map_len(&rule.bindings)).saturating_add(1);
    if !has_binding(&rule, "command") {
        return Err(
            Diagnostic::new(rule.source.as_str(), behind, 1, "expected 'command =' line"),
        );
    }
    if has_binding(&rule, "rspfile") != has_binding(&rule, "rspfile_content") {
        return Err(
            Diagnostic::new(
                rule.source.as_str(),
                behind,
                1,
                "rspfile and rspfile_content need to be both specified",
            ),
        );
    }
    let name: String = rule.name.clone();
    let edge: Edge = Edge {
        explicit_outputs: Vec::new(),
        implicit_outputs: Vec::new(),
        rule: rule.name.clone(),
        explicit_inputs: Vec::new(),
        implicit_inputs: Vec::new(),
        order_only_inputs: Vec::new(),
        validations: Vec::new(),
        bindings: map_new(),
        source: String::new(),
        line: 0,
        scope,
        slash_bits: Vec::new(),
    };
    map_insert(&mut st.manifest.scopes[scope].rules, rule.name.clone(), rule);
    let ghost declared = before.manifest.scopes.update(
        n,
        manifest::ScopeView {
            rules: before.manifest.scopes[n].rules.insert(view.name, view),
            ..before.manifest.scopes[n]
        },
    );
    proof {
        reveal_strlit("");
        assert(edge.deep_view() =~= (EdgeView {
            rule: view.name,
            scope,
            ..build_line::empty_edge(seq![], 0)
        }));
        assert(st.manifest.scopes.deep_view() =~= declared);
    }
    if binding_cycle(&st.manifest, &edge).is_some() {
        map_insert(&mut st.manifest.scopes[scope].cyclic, name, true);
    }
    proof {
        assert(st.manifest.scopes.deep_view() =~= with_rule(before.manifest.scopes, n, view));
        assert(st.deep_view().manifest =~= (ManifestView {
            scopes: with_rule(before.manifest.scopes, n, view),
            ..before.manifest
        }));
    }
    Ok(())
}

/// Marks the end of a declaration: checks it, and enters it.
pub fn finalize_parent(st: &mut State, scope: usize, parent: Parent, windows: bool) -> (r: Result<
    (),
    Diagnostic,
>)
    requires
        scope < old(st).manifest.scopes@.len(),
        parent matches Parent::Edge(e, _) ==> e.scope == scope,
    ensures
        match r {
            Ok(()) => finalized(
                old(st).deep_view(),
                scope as int,
                parent.deep_view(),
                windows,
            ) == Ok::<StateView, DiagnosticView>(final(st).deep_view()),
            Err(d) => finalized(
                old(st).deep_view(),
                scope as int,
                parent.deep_view(),
                windows,
            ) == Err::<StateView, DiagnosticView>(d.deep_view()),
        },
        final(st).manifest.scopes@.len() == old(st).manifest.scopes@.len(),
{
    proof {
        reveal(finalized);
    }
    match parent {
        Parent::Nothing => Ok(()),
        Parent::Rule(rule) => finalize_rule(st, scope, rule),
        Parent::Pool(pool) => {
            let ghost before = st.deep_view();
            if !pool.depth_specified {
                let line: usize = pool.line.saturating_add(1);
                return Err(
                    Diagnostic::new(pool.source.as_str(), line, 1, "expected 'depth =' line"),
                );
            }
            map_insert(&mut st.manifest.pools, pool.name.clone(), pool);
            proof {
                assert(st.deep_view().manifest =~= (ManifestView {
                    pools: before.manifest.pools.insert(pool.name@, pool.deep_view()),
                    ..before.manifest
                }));
            }
            Ok(())
        },
        Parent::Edge(edge, bits) => finalize_edge(st, edge, bits, windows),
    }
}

} // verus!
