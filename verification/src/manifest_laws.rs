//! What holds of every manifest that is being read: its paths are canonical and not
//! empty, its edges have rules and outputs, its defaults are paths that it knows, and
//! each file declares in its own scope.
use crate::binding;
use crate::build_line;
use crate::build_line::Draft;
use crate::build_line::Inputs;
use crate::build_line::Token;
use crate::finalize;
use crate::finalize::ParentView;
use crate::finalize::StateView;
use crate::loader;
use crate::loader::Load;
use crate::loader::ProgressView;
use crate::loader::SupplyView;
use crate::manifest;
use crate::manifest::EdgeView;
use crate::manifest::ManifestView;
use crate::manifest::RuleView;
use crate::manifest::ScopeView;
use crate::manifest::Settings;
use crate::paths;
use crate::stale_laws;
use crate::statement;
use crate::statement::FileView;
use crate::statement::FlowView;
use vstd::prelude::*;

verus! {

/// Whether every scope lies inside an earlier one or inside none.
pub open spec fn are_nested(scopes: Seq<ScopeView>) -> bool {
    forall|k: int|
        0 <= k < scopes.len() ==> ((#[trigger] scopes[k]).parent matches Some(p) ==> p < k)
}

/// Whether paths are not empty, and canonical.
pub open spec fn are_canonical(list: Seq<Seq<char>>, windows: bool) -> bool {
    forall|i: int|
        0 <= i < list.len() ==> (#[trigger] list[i]).len() > 0 && paths::canonical(
            list[i],
            windows,
        ).0 == list[i]
}

/// Whether a manifest knows that there is a pool or a dyndep file among bindings.
pub open spec fn are_noted(m: ManifestView, bindings: Map<Seq<char>, Seq<char>>) -> bool {
    &&& bindings.contains_key("pool"@) ==> m.has_pool_binding
    &&& bindings.contains_key("dyndep"@) ==> m.has_dyndep_binding
}

/// An edge that has a rule and nothing else.
pub open spec fn bare_edge(rule: Seq<char>, scope: int) -> EdgeView {
    EdgeView { rule, scope: scope as usize, ..build_line::empty_edge(seq![], 0) }
}

/// Whether the rules of a scope whose bindings form a circle are marked.
pub open spec fn has_marks(scopes: Seq<ScopeView>, k: int) -> bool {
    forall|name: Seq<char>|
        k <= usize::MAX && #[trigger] scopes[k].rules.contains_key(name)
            && !scopes[k].cyclic.contains_key(name) ==> binding::binding_circle(
            scopes,
            bare_edge(name, k),
        ) is None
}

/// Whether a manifest knows that there is a pool or a dyndep file among what a scope
/// declares.
pub open spec fn is_noted_scope(m: ManifestView, k: int) -> bool {
    &&& are_noted(m, m.scopes[k].variables)
    &&& forall|name: Seq<char>| #[trigger]
        m.scopes[k].rules.contains_key(name) ==> are_noted(m, m.scopes[k].rules[name].bindings)
}

/// Whether an edge has an output, and a rule that its scope knows.
pub open spec fn is_declared(scopes: Seq<ScopeView>, e: EdgeView) -> bool {
    &&& e.scope < scopes.len()
    &&& manifest::outputs_of(e).len() > 0
    &&& e.rule == "phony"@ || manifest::rule_in(scopes, e.scope as int, e.rule) is Some
}

/// Whether a rule binds nothing that a rule may not bind.
pub open spec fn has_rule_keys(rule: RuleView) -> bool {
    forall|key: Seq<char>| #[trigger]
        rule.bindings.contains_key(key) ==> binding::is_rule_key(key)
}

/// Whether a rule has a command, and a response file with its contents or
/// neither.
pub open spec fn is_whole_rule(rule: RuleView) -> bool {
    &&& has_rule_keys(rule)
    &&& finalize::binds(rule, "command"@)
    &&& finalize::binds(rule, "rspfile"@) == finalize::binds(rule, "rspfile_content"@)
}

/// What holds of a manifest while it is being read.
pub open spec fn is_sound(m: ManifestView, windows: bool) -> bool {
    &&& m.scopes.len() > 0
    &&& are_nested(m.scopes)
    &&& forall|k: int, name: Seq<char>|
        0 <= k < m.scopes.len() && #[trigger] m.scopes[k].rules.contains_key(name)
            ==> m.scopes[k].rules[name].name == name && is_whole_rule(m.scopes[k].rules[name])
    &&& forall|name: Seq<char>| #[trigger]
        m.pools.contains_key(name) ==> m.pools[name].name == name && m.pools[name].depth_specified
    &&& forall|i: int|
        0 <= i < m.edges.len() ==> is_declared(m.scopes, #[trigger] m.edges[i]) && are_canonical(
            manifest::paths_of(m.edges[i]),
            windows,
        )
    &&& forall|i: int|
        0 <= i < m.defaults.len() ==> manifest::names_path(m.edges, #[trigger] m.defaults[i])
    &&& forall|k: int|
        0 <= k < m.scopes.len() ==> #[trigger] has_marks(m.scopes, k) && is_noted_scope(m, k)
}

/// What holds of a declaration while it is being read in a scope.
pub open spec fn is_sound_parent(
    m: ManifestView,
    scope: int,
    parent: ParentView,
    windows: bool,
) -> bool {
    match parent {
        ParentView::Nothing => true,
        ParentView::Rule(rule) => has_rule_keys(rule) && are_noted(m, rule.bindings),
        ParentView::Pool(_) => true,
        ParentView::Edge(e, _) => {
            &&& e.scope == scope
            &&& is_declared(m.scopes, e)
            &&& are_noted(m, e.bindings)
            &&& are_written(manifest::paths_of(e), windows)
        },
    }
}

/// Whether words hold anything, and are canonical paths where they hold no dollar sign.
pub open spec fn are_written(words: Seq<Seq<char>>, windows: bool) -> bool {
    forall|i: int|
        0 <= i < words.len() ==> (#[trigger] words[i]).len() > 0 && (words[i].contains('$')
            || paths::canonical(words[i], windows).0 == words[i])
}

/// Whether the scopes of a manifest have only gained declarations, and new scopes behind
/// them.
pub open spec fn has_grown(a: ManifestView, b: ManifestView) -> bool {
    &&& a.scopes.len() <= b.scopes.len()
    &&& a.has_pool_binding ==> b.has_pool_binding
    &&& a.has_dyndep_binding ==> b.has_dyndep_binding
    &&& forall|k: int|
        0 <= k < a.scopes.len() ==> (#[trigger] b.scopes[k]).parent == a.scopes[k].parent
            && a.scopes[k].rules.dom().subset_of(b.scopes[k].rules.dom())
}

proof fn lemma_rules_stay(a: ManifestView, b: ManifestView, scope: int, name: Seq<char>)
    requires
        has_grown(a, b),
        manifest::rule_scope_in(a.scopes, scope, name) is Some,
    ensures
        manifest::rule_scope_in(b.scopes, scope, name) is Some,
    decreases scope,
{
    if 0 <= scope < a.scopes.len() {
        assert(b.scopes[scope].parent == a.scopes[scope].parent);
        if a.scopes[scope].rules.contains_key(name) {
            assert(a.scopes[scope].rules.dom().contains(name));
            assert(b.scopes[scope].rules.dom().contains(name));
        } else if let Some(parent) = a.scopes[scope].parent {
            if parent < scope {
                lemma_rules_stay(a, b, parent as int, name);
            }
        }
    }
}

proof fn lemma_declared_stays(a: ManifestView, b: ManifestView, e: EdgeView)
    requires
        has_grown(a, b),
        is_declared(a.scopes, e),
    ensures
        is_declared(b.scopes, e),
{
    if e.rule != "phony"@ {
        lemma_rules_stay(a, b, e.scope as int, e.rule);
    }
}

/// The names that a scope sees are settled by it and the scopes around it: what
/// a scope inside it declares is not seen there.
pub proof fn law_inner_scope_is_not_seen_outside(
    scopes: Seq<ScopeView>,
    inner: int,
    changed: ScopeView,
    scope: int,
    name: Seq<char>,
)
    requires
        0 <= scope < inner < scopes.len(),
    ensures
        manifest::variable_in(scopes.update(inner, changed), scope, name)
            == manifest::variable_in(scopes, scope, name),
        manifest::rule_in(scopes.update(inner, changed), scope, name) == manifest::rule_in(
            scopes,
            scope,
            name,
        ),
    decreases scope,
{
    if let Some(parent) = scopes[scope].parent {
        if parent < scope {
            law_inner_scope_is_not_seen_outside(scopes, inner, changed, parent as int, name);
        }
    }
}

/// A scope sees its own declaration of a name, and otherwise that of the scope
/// around it.
pub proof fn law_own_declaration_comes_first(scopes: Seq<ScopeView>, scope: int, name: Seq<char>)
    requires
        are_nested(scopes),
        0 <= scope < scopes.len(),
    ensures
        scopes[scope].variables.contains_key(name) ==> manifest::variable_in(scopes, scope, name)
            == Some(scopes[scope].variables[name]),
        scopes[scope].rules.contains_key(name) ==> manifest::rule_in(scopes, scope, name) == Some(
            scopes[scope].rules[name],
        ),
        scopes[scope].parent matches Some(outer) ==> {
            &&& !scopes[scope].variables.contains_key(name) ==> manifest::variable_in(
                scopes,
                scope,
                name,
            ) == manifest::variable_in(scopes, outer as int, name)
            &&& !scopes[scope].rules.contains_key(name) ==> manifest::rule_in(scopes, scope, name)
                == manifest::rule_in(scopes, outer as int, name)
        },
{
}

/// Whether only scope `scope` differs.
pub open spec fn only_changes(a: Seq<ScopeView>, b: Seq<ScopeView>, scope: int) -> bool {
    &&& b.len() == a.len()
    &&& forall|k: int| 0 <= k < a.len() && k != scope ==> #[trigger] b[k] == a[k]
}

proof fn lemma_finalized_scope(st: StateView, scope: int, parent: ParentView, windows: bool)
    requires
        0 <= scope < st.manifest.scopes.len(),
    ensures
        finalize::finalized(st, scope, parent, windows) matches Ok(next) ==> only_changes(
            st.manifest.scopes,
            next.manifest.scopes,
            scope,
        ),
{
    reveal(finalize::finalized);
}

/// A line changes no scope but that of its file.
pub proof fn law_line_declares_in_its_own_scope(
    settings: Settings,
    file: FileView,
    st: StateView,
    parent: ParentView,
    line: usize,
    raw: Seq<char>,
)
    requires
        0 <= file.scope < st.manifest.scopes.len(),
    ensures
        match statement::flow(settings, file, st, parent, line, raw) {
            FlowView::Next(next, _) => only_changes(
                st.manifest.scopes,
                next.manifest.scopes,
                file.scope,
            ),
            FlowView::Load(next, _, _) => only_changes(
                st.manifest.scopes,
                next.manifest.scopes,
                file.scope,
            ),
            FlowView::Fail(_) => true,
        },
{
    reveal(statement::flow);
    lemma_finalized_scope(st, file.scope, parent, settings.windows);
}

/// Whether tokens lie in a text, and none of them is empty.
spec fn are_proper(s: Seq<char>, tokens: Seq<Token>) -> bool {
    forall|k: int|
        0 <= k < tokens.len() ==> (#[trigger] tokens[k]).start < tokens[k].end <= s.len()
}

proof fn lemma_tokens_are_proper(s: Seq<char>, i: int)
    ensures
        are_proper(s, build_line::tokens_from(s, i)),
    decreases s.len() - i,
{
    let start = crate::text::first_not_in(s, i, crate::text::Class::Blank);
    if 0 <= i <= start < s.len() {
        let token = build_line::token_at(s, start);
        if start < token.end <= s.len() {
            lemma_tokens_are_proper(s, token.end as int);
        }
    }
}

/// Whether all words of an edge hold something.
spec fn is_written(e: EdgeView, windows: bool) -> bool {
    &&& are_written(e.explicit_outputs, windows)
    &&& are_written(e.implicit_outputs, windows)
    &&& are_written(e.explicit_inputs, windows)
    &&& are_written(e.implicit_inputs, windows)
    &&& are_written(e.order_only_inputs, windows)
    &&& are_written(e.validations, windows)
}

proof fn lemma_path_of(word: Seq<char>, windows: bool)
    requires
        word.len() > 0,
    ensures
        ({
            let path = build_line::path_of(word, windows).0;
            path.len() > 0 && (path.contains('$') || paths::canonical(path, windows).0 == path)
        }),
{
    paths::law_canonical_is_idempotent(word, windows);
}

proof fn lemma_with_outputs_written(
    s: Seq<char>,
    tokens: Seq<Token>,
    k: int,
    colon: int,
    implicit: bool,
    windows: bool,
    d: Draft,
)
    requires
        0 <= k,
        colon <= tokens.len(),
        are_proper(s, tokens),
        is_written(d.edge, windows),
    ensures
        build_line::with_outputs(s, tokens, k, colon, implicit, windows, d) matches Ok(full)
            ==> is_written(full.edge, windows) && full.edge.bindings == d.edge.bindings,
    decreases colon - k,
{
    if k < colon {
        if tokens[k].kind == build_line::Kind::Pipe && !implicit {
            lemma_with_outputs_written(s, tokens, k + 1, colon, true, windows, d);
        } else if tokens[k].kind == build_line::Kind::Word {
            let word = build_line::word(s, tokens[k]);
            assert(word.len() > 0);
            lemma_path_of(word, windows);
            let longer = build_line::with_output(d, implicit, build_line::path_of(word, windows));
            lemma_with_outputs_written(s, tokens, k + 1, colon, implicit, windows, longer);
        }
    }
}

proof fn lemma_with_inputs_keeps(
    s: Seq<char>,
    tokens: Seq<Token>,
    k: int,
    list: Inputs,
    windows: bool,
    d: Draft,
)
    requires
        are_proper(s, tokens),
        is_written(d.edge, windows),
    ensures
        build_line::with_inputs(s, tokens, k, list, windows, d) matches Ok(full) ==> {
            &&& manifest::outputs_of(full.edge) == manifest::outputs_of(d.edge)
            &&& full.edge.rule == d.edge.rule
            &&& is_written(full.edge, windows)
            &&& full.edge.bindings == d.edge.bindings
        },
    decreases tokens.len() - k,
{
    if 0 <= k < tokens.len() {
        if tokens[k].kind == build_line::Kind::Word {
            let word = build_line::word(s, tokens[k]);
            assert(word.len() > 0);
            lemma_path_of(word, windows);
            let longer = build_line::with_input(d, list, build_line::path_of(word, windows));
            lemma_with_inputs_keeps(s, tokens, k + 1, list, windows, longer);
        } else if let Some(next) = build_line::begins(tokens[k].kind) {
            lemma_with_inputs_keeps(s, tokens, k + 1, next, windows, d);
        }
    }
}

proof fn lemma_build_flow(
    settings: Settings,
    file: FileView,
    st: StateView,
    line: usize,
    raw: Seq<char>,
    rest: Seq<char>,
)
    requires
        0 <= file.scope < st.manifest.scopes.len(),
        file.scope <= usize::MAX,
    ensures
        match statement::build_flow(settings, file, st, line, raw, rest) {
            FlowView::Next(next, parent) => next == st && is_sound_parent(
                st.manifest,
                file.scope,
                parent,
                settings.windows,
            ),
            FlowView::Load(_, _, _) => false,
            FlowView::Fail(_) => true,
        },
{
    let windows = settings.windows;
    let tokens = build_line::tokens_from(rest, 0);
    let colon = build_line::first_colon(tokens, 0);
    let empty = build_line::empty_draft(file.path, line);
    lemma_tokens_are_proper(rest, 0);
    assert(is_written(empty.edge, windows));
    if colon < tokens.len() {
        lemma_with_outputs_written(rest, tokens, 0, colon, false, windows, empty);
    }
    if let Ok(d) = build_line::with_outputs(rest, tokens, 0, colon, false, windows, empty) {
        let named = Draft {
            edge: EdgeView { rule: build_line::word(rest, tokens[colon + 1]), ..d.edge },
            ..d
        };
        if colon < tokens.len() {
            lemma_with_inputs_keeps(rest, tokens, colon + 2, Inputs::Explicit, windows, named);
        }
    }
    if let FlowView::Next(_, ParentView::Edge(e, _)) = statement::build_flow(
        settings,
        file,
        st,
        line,
        raw,
        rest,
    ) {
        assert(is_written(e, windows));
        assert(are_written(manifest::paths_of(e), windows));
    }
}

proof fn lemma_known_defaults(edges: Seq<EdgeView>, targets: Seq<Seq<char>>, i: int)
    requires
        0 <= i <= targets.len(),
        statement::first_unknown(edges, targets, i) >= targets.len(),
    ensures
        forall|k: int|
            i <= k < targets.len() ==> manifest::names_path(edges, #[trigger] targets[k]),
    decreases targets.len() - i,
{
    if i < targets.len() {
        if manifest::names_path(edges, targets[i]) {
            lemma_known_defaults(edges, targets, i + 1);
        }
    }
}

proof fn lemma_names_stay(a: Seq<EdgeView>, e: EdgeView, target: Seq<char>)
    requires
        manifest::names_path(a, target),
    ensures
        manifest::names_path(a.push(e), target),
{
    let i = choose|i: int|
        0 <= i < a.len() && #[trigger] manifest::paths_of(a[i]).contains(target);
    assert(a.push(e)[i] == a[i]);
}

proof fn lemma_settled_edge(
    registry: Map<Seq<char>, u64>,
    scopes: Seq<ScopeView>,
    e: EdgeView,
    bits: Seq<u64>,
    windows: bool,
)
    requires
        are_written(manifest::paths_of(e), windows),
        forall|i: int|
            0 <= i < manifest::paths_of(e).len() ==> !finalize::is_blank(
                scopes,
                e,
                #[trigger] manifest::paths_of(e)[i],
            ),
    ensures
        ({
            let known = finalize::settled(registry, scopes, e, bits, windows).1;
            &&& are_canonical(manifest::paths_of(known), windows)
            &&& is_declared(scopes, e) ==> is_declared(scopes, known)
        }),
{
    let known = finalize::settled(registry, scopes, e, bits, windows).1;
    let words = manifest::paths_of(e);
    let list = manifest::paths_of(known);
    assert(list =~= finalize::word_paths(scopes, e, windows, words));
    assert forall|i: int| 0 <= i < list.len() implies (#[trigger] list[i]).len() > 0
        && paths::canonical(list[i], windows).0 == list[i] by {
        assert(words[i].len() > 0);
        assert(finalize::word_text(scopes, e, words[i]).len() > 0);
        paths::law_canonical_is_idempotent(finalize::word_text(scopes, e, words[i]), windows);
    }
}

/// Whether a rule forms a circle is settled by the rule.
proof fn lemma_same_circle(a: Seq<ScopeView>, b: Seq<ScopeView>, k: int, name: Seq<char>)
    requires
        0 <= k < a.len(),
        k < b.len(),
        k <= usize::MAX,
        a[k].rules.contains_key(name),
        b[k].rules.contains_key(name),
        a[k].rules[name] == b[k].rules[name],
    ensures
        binding::binding_circle(a, bare_edge(name, k)) == binding::binding_circle(
            b,
            bare_edge(name, k),
        ),
{
    let e = bare_edge(name, k);
    assert(manifest::rule_in(a, k, name) == manifest::rule_in(b, k, name));
    assert(binding::bound_names(a, e) =~= binding::bound_names(b, e));
    assert(binding::binding_graph(a, e) =~= binding::binding_graph(b, e));
}

proof fn lemma_rule_is_marked(scopes: Seq<ScopeView>, scope: int, rule: RuleView, k: int)
    requires
        0 <= scope < scopes.len(),
        0 <= k < scopes.len(),
        has_marks(scopes, k),
    ensures
        has_marks(finalize::with_rule(scopes, scope, rule), k),
{
    let b = finalize::with_rule(scopes, scope, rule);
    assert forall|name: Seq<char>|
        k <= usize::MAX && #[trigger] b[k].rules.contains_key(name) && !b[k].cyclic.contains_key(
            name,
        ) implies binding::binding_circle(b, bare_edge(name, k)) is None by {
        if k != scope || name != rule.name {
            assert(scopes[k].rules.contains_key(name));
            lemma_same_circle(scopes, b, k, name);
        }
    }
}

proof fn lemma_finalized_sound(st: StateView, scope: int, parent: ParentView, windows: bool)
    requires
        is_sound(st.manifest, windows),
        0 <= scope < st.manifest.scopes.len(),
        is_sound_parent(st.manifest, scope, parent, windows),
    ensures
        finalize::finalized(st, scope, parent, windows) matches Ok(next) ==> is_sound(
            next.manifest,
            windows,
        ) && has_grown(st.manifest, next.manifest) && next.manifest.scopes.len()
            == st.manifest.scopes.len(),
{
    reveal(finalize::finalized);
    let m = st.manifest;
    if let Ok(next) = finalize::finalized(st, scope, parent, windows) {
        let n = next.manifest;
        assert(has_grown(m, n));
        assert forall|i: int| 0 <= i < m.edges.len() implies is_declared(
            n.scopes,
            #[trigger] m.edges[i],
        ) by {
            lemma_declared_stays(m, n, m.edges[i]);
        }
        assert forall|k: int| 0 <= k < n.scopes.len() implies #[trigger] has_marks(n.scopes, k)
            && is_noted_scope(n, k) by {
            assert(has_marks(m.scopes, k));
            assert(is_noted_scope(m, k));
            if let ParentView::Rule(rule) = parent {
                lemma_rule_is_marked(m.scopes, scope, rule, k);
            }
        }
        if let ParentView::Edge(e, bits) = parent {
            let words = manifest::paths_of(e);
            assert forall|i: int| 0 <= i < words.len() implies !finalize::is_blank(
                m.scopes,
                e,
                #[trigger] words[i],
            ) by {}
            lemma_settled_edge(st.registry, m.scopes, e, bits, windows);
            let known = finalize::settled(st.registry, m.scopes, e, bits, windows).1;
            assert forall|i: int| 0 <= i < n.defaults.len() implies manifest::names_path(
                n.edges,
                #[trigger] n.defaults[i],
            ) by {
                lemma_names_stay(m.edges, known, m.defaults[i]);
            }
        }
    }
}

/// Whether what a line leads to is sound.
pub open spec fn is_sound_flow(
    a: ManifestView,
    scope: int,
    windows: bool,
    f: FlowView,
) -> bool {
    match f {
        FlowView::Next(next, parent) => {
            &&& is_sound(next.manifest, windows)
            &&& has_grown(a, next.manifest)
            &&& next.manifest.scopes.len() == a.scopes.len()
            &&& is_sound_parent(next.manifest, scope, parent, windows)
        },
        FlowView::Load(next, _, _) => {
            &&& is_sound(next.manifest, windows)
            &&& has_grown(a, next.manifest)
            &&& next.manifest.scopes.len() == a.scopes.len()
        },
        FlowView::Fail(_) => true,
    }
}

proof fn lemma_bound_sound(
    settings: Settings,
    file: FileView,
    st: StateView,
    parent: ParentView,
    line: usize,
    raw: Seq<char>,
    content: Seq<char>,
)
    requires
        is_sound(st.manifest, settings.windows),
        0 <= file.scope < st.manifest.scopes.len(),
        is_sound_parent(st.manifest, file.scope, parent, settings.windows),
    ensures
        is_sound_flow(
            st.manifest,
            file.scope,
            settings.windows,
            statement::indented_flow(settings, file, st, parent, line, raw, content),
        ),
{
    assert(has_grown(st.manifest, st.manifest));
    if let FlowView::Next(next, _) = statement::indented_flow(
        settings,
        file,
        st,
        parent,
        line,
        raw,
        content,
    ) {
        let n = next.manifest;
        assert(has_grown(st.manifest, n));
        assert forall|k: int| 0 <= k < n.scopes.len() implies #[trigger] has_marks(n.scopes, k)
            && is_noted_scope(n, k) by {
            assert(has_marks(st.manifest.scopes, k));
            assert(is_noted_scope(st.manifest, k));
        }
    }
}

proof fn lemma_default_sound(
    settings: Settings,
    file: FileView,
    st: StateView,
    line: usize,
    raw: Seq<char>,
    rest: Seq<char>,
)
    requires
        is_sound(st.manifest, settings.windows),
        0 <= file.scope < st.manifest.scopes.len(),
    ensures
        is_sound_flow(
            st.manifest,
            file.scope,
            settings.windows,
            statement::default_flow(settings, file, st, line, raw, rest),
        ),
{
    let m = st.manifest;
    let f = statement::default_flow(settings, file, st, line, raw, rest);
    assert(has_grown(m, m));
    if let FlowView::Next(next, parent) = f {
        let n = next.manifest;
        assert forall|k: int| 0 <= k < n.scopes.len() implies #[trigger] has_marks(n.scopes, k)
            && is_noted_scope(n, k) by {
            assert(has_marks(m.scopes, k));
            assert(is_noted_scope(m, k));
        }
        let words = statement::expanded_words(m.scopes, file.scope, rest);
        let targets = statement::canonical_paths(words, settings.windows);
        lemma_known_defaults(m.edges, targets, 0);
        assert forall|i: int| 0 <= i < next.manifest.defaults.len() implies manifest::names_path(
            next.manifest.edges,
            #[trigger] next.manifest.defaults[i],
        ) by {
            if i < m.defaults.len() {
                assert(next.manifest.defaults[i] == m.defaults[i]);
            } else {
                assert(next.manifest.defaults[i] == targets[i - m.defaults.len()]);
            }
        }
    }
}

proof fn lemma_variable_sound(
    settings: Settings,
    file: FileView,
    st: StateView,
    key: Seq<char>,
    value: Seq<char>,
)
    requires
        is_sound(st.manifest, settings.windows),
        0 <= file.scope < st.manifest.scopes.len(),
    ensures
        is_sound_flow(
            st.manifest,
            file.scope,
            settings.windows,
            statement::variable_flow(file, st, key, value),
        ),
{
    let m = st.manifest;
    if let FlowView::Next(next, parent) = statement::variable_flow(file, st, key, value) {
        assert(has_grown(m, next.manifest));
        assert forall|i: int| 0 <= i < m.edges.len() implies is_declared(
            next.manifest.scopes,
            #[trigger] m.edges[i],
        ) by {
            lemma_declared_stays(m, next.manifest, m.edges[i]);
        }
        let n = next.manifest;
        assert forall|k: int| 0 <= k < n.scopes.len() implies #[trigger] has_marks(n.scopes, k)
            && is_noted_scope(n, k) by {
            assert(has_marks(m.scopes, k));
            assert(is_noted_scope(m, k));
            assert forall|name: Seq<char>|
                k <= usize::MAX && #[trigger] n.scopes[k].rules.contains_key(name)
                    && !n.scopes[k].cyclic.contains_key(name) implies binding::binding_circle(
                n.scopes,
                bare_edge(name, k),
            ) is None by {
                assert(m.scopes[k].rules.contains_key(name));
                lemma_same_circle(m.scopes, n.scopes, k, name);
            }
        }
    }
}

proof fn lemma_declaration_sound(
    settings: Settings,
    file: FileView,
    st: StateView,
    line: usize,
    raw: Seq<char>,
    content: Seq<char>,
)
    requires
        is_sound(st.manifest, settings.windows),
        0 <= file.scope < st.manifest.scopes.len(),
        file.scope <= usize::MAX,
    ensures
        is_sound_flow(
            st.manifest,
            file.scope,
            settings.windows,
            statement::declaration_flow(settings, file, st, line, raw, content),
        ),
{
    assert(has_grown(st.manifest, st.manifest));
    lemma_build_flow(settings, file, st, line, raw, content.skip("build "@.len() as int));
    lemma_default_sound(settings, file, st, line, raw, content.skip("default "@.len() as int));
    if let Some((key, value)) = statement::binding_of(content) {
        lemma_variable_sound(settings, file, st, key, value);
    }
}

/// A line keeps a sound manifest sound.
pub proof fn law_line_keeps_manifest_sound(
    settings: Settings,
    file: FileView,
    st: StateView,
    parent: ParentView,
    line: usize,
    raw: Seq<char>,
)
    requires
        is_sound(st.manifest, settings.windows),
        0 <= file.scope < st.manifest.scopes.len(),
        file.scope <= usize::MAX,
        is_sound_parent(st.manifest, file.scope, parent, settings.windows),
    ensures
        is_sound_flow(
            st.manifest,
            file.scope,
            settings.windows,
            statement::flow(settings, file, st, parent, line, raw),
        ),
{
    reveal(statement::flow);
    let content = crate::text::trimmed_start(
        crate::text::trimmed_end(crate::lines::uncommented(raw)),
    );
    assert(has_grown(st.manifest, st.manifest));
    lemma_finalized_sound(st, file.scope, parent, settings.windows);
    lemma_bound_sound(settings, file, st, parent, line, raw, content);
    if let Ok(next) = finalize::finalized(st, file.scope, parent, settings.windows) {
        lemma_declaration_sound(settings, file, next, line, raw, content);
        let f = statement::declaration_flow(settings, file, next, line, raw, content);
        lemma_growth(st.manifest, next.manifest, file.scope, settings.windows, f);
    }
}

proof fn lemma_growth(a: ManifestView, b: ManifestView, scope: int, windows: bool, f: FlowView)
    requires
        has_grown(a, b),
        a.scopes.len() == b.scopes.len(),
        is_sound_flow(b, scope, windows, f),
    ensures
        is_sound_flow(a, scope, windows, f),
{
    let c = match f {
        FlowView::Next(next, _) => next.manifest,
        FlowView::Load(next, _, _) => next.manifest,
        FlowView::Fail(_) => b,
    };
    assert forall|k: int| 0 <= k < a.scopes.len() implies (#[trigger] c.scopes[k]).parent
        == a.scopes[k].parent && a.scopes[k].rules.dom().subset_of(c.scopes[k].rules.dom()) by {
        assert(b.scopes[k].parent == a.scopes[k].parent);
    }
}

/// What holds of a load in progress.
pub open spec fn is_sound_load(load: Load) -> bool {
    &&& is_sound(load.state.manifest, load.settings.windows)
    &&& forall|i: int|
        0 <= i < load.frames.len() ==> 0 <= (#[trigger] load.frames[i]).file.scope
            < load.state.manifest.scopes.len() && load.frames[i].file.scope <= usize::MAX
            && is_sound_parent(
            load.state.manifest,
            load.frames[i].file.scope,
            load.frames[i].parent,
            load.settings.windows,
        )
}

proof fn lemma_parent_stays(
    a: ManifestView,
    b: ManifestView,
    scope: int,
    parent: ParentView,
    windows: bool,
)
    requires
        has_grown(a, b),
        is_sound_parent(a, scope, parent, windows),
    ensures
        is_sound_parent(b, scope, parent, windows),
{
    if let ParentView::Edge(e, _) = parent {
        lemma_declared_stays(a, b, e);
    }
}

proof fn lemma_stepped_sound(load: Load, state: StateView, parent: ParentView)
    requires
        is_sound_load(load),
        load.frames.len() > 0,
        is_sound(state.manifest, load.settings.windows),
        has_grown(load.state.manifest, state.manifest),
        is_sound_parent(
            state.manifest,
            load.frames.last().file.scope,
            parent,
            load.settings.windows,
        ),
    ensures
        is_sound_load(loader::stepped(load, state, parent)),
{
    let next = loader::stepped(load, state, parent);
    assert forall|i: int| 0 <= i < next.frames.len() implies 0 <= (
    #[trigger] next.frames[i]).file.scope < state.manifest.scopes.len()
        && next.frames[i].file.scope <= usize::MAX && is_sound_parent(
        state.manifest,
        next.frames[i].file.scope,
        next.frames[i].parent,
        load.settings.windows,
    ) by {
        assert(0 <= load.frames[i].file.scope);
        if i < load.frames.len() - 1 {
            assert(next.frames[i] == load.frames[i]);
            lemma_parent_stays(
                load.state.manifest,
                state.manifest,
                load.frames[i].file.scope,
                load.frames[i].parent,
                load.settings.windows,
            );
        }
    }
}

proof fn lemma_new_scope(st: StateView, outer: int, windows: bool)
    requires
        is_sound(st.manifest, windows),
        0 <= outer < st.manifest.scopes.len() <= usize::MAX,
    ensures
        is_sound(loader::with_scope(st, outer).manifest, windows),
        has_grown(st.manifest, loader::with_scope(st, outer).manifest),
{
    let a = st.manifest;
    let n = loader::with_scope(st, outer).manifest;
    assert(has_grown(a, n));
    assert forall|i: int| 0 <= i < n.edges.len() implies is_declared(
        n.scopes,
        #[trigger] n.edges[i],
    ) by {
        lemma_declared_stays(a, n, st.manifest.edges[i]);
    }
    assert forall|k: int| 0 <= k < n.scopes.len() implies #[trigger] has_marks(n.scopes, k)
        && is_noted_scope(n, k) by {
        if k < a.scopes.len() {
            assert(has_marks(a.scopes, k));
            assert(is_noted_scope(a, k));
            assert(n.scopes[k] == a.scopes[k]);
            assert forall|name: Seq<char>|
                k <= usize::MAX && #[trigger] n.scopes[k].rules.contains_key(name)
                    && !n.scopes[k].cyclic.contains_key(name) implies binding::binding_circle(
                n.scopes,
                bare_edge(name, k),
            ) is None by {
                lemma_same_circle(a.scopes, n.scopes, k, name);
            }
        }
    }
}

/// Whether what a load comes to is sound.
pub open spec fn is_sound_progress(windows: bool, p: ProgressView) -> bool {
    match p {
        ProgressView::Need(load, _, scope) => {
            &&& load.settings.windows == windows
            &&& is_sound_load(load)
            &&& 0 <= scope < load.state.manifest.scopes.len()
            &&& scope <= usize::MAX
        },
        ProgressView::Done(state) => is_sound(state.manifest, windows),
        ProgressView::Failed(_) => true,
    }
}

/// Reading on keeps a sound manifest sound.
pub proof fn law_load_stays_sound(load: Load, follow: bool)
    requires
        is_sound_load(load),
        load.state.manifest.scopes.len() <= usize::MAX,
    ensures
        is_sound_progress(load.settings.windows, loader::progress(load, follow)),
    decreases
            load.frames.len(),
            loader::frame_lines(load.frames.last()).len() - load.frames.last().next,
{
    let n = load.frames.len();
    let top = load.frames.last();
    let all = loader::frame_lines(top);
    let windows = load.settings.windows;
    let m = load.state.manifest;
    if n > 0 {
        assert(top == load.frames[n - 1]);
        if top.next < 0 || top.next >= all.len() {
            if let Ok(state) = loader::ended(load.settings, load.state, top) {
                lemma_finalized_sound(load.state, top.file.scope, top.parent, windows);
                let next = Load {
                    state,
                    frames: load.frames.drop_last(),
                    open: load.open.remove(top.identity),
                    ..load
                };
                assert forall|i: int| 0 <= i < next.frames.len() implies 0 <= (
                #[trigger] next.frames[i]).file.scope < state.manifest.scopes.len()
                    && next.frames[i].file.scope <= usize::MAX && is_sound_parent(
                    state.manifest,
                    next.frames[i].file.scope,
                    next.frames[i].parent,
                    load.settings.windows,
                ) by {
                    assert(next.frames[i] == load.frames[i]);
                    lemma_parent_stays(
                        m,
                        state.manifest,
                        load.frames[i].file.scope,
                        load.frames[i].parent,
                        load.settings.windows,
                    );
                }
                law_load_stays_sound(next, follow);
            }
        } else {
            let (line, raw) = all[top.next];
            law_line_keeps_manifest_sound(
                load.settings,
                top.file,
                load.state,
                top.parent,
                line,
                raw,
            );
            match statement::flow(load.settings, top.file, load.state, top.parent, line, raw) {
                FlowView::Fail(d) => {},
                FlowView::Next(state, parent) => {
                    lemma_stepped_sound(load, state, parent);
                    law_load_stays_sound(loader::stepped(load, state, parent), follow);
                },
                FlowView::Load(state, child, fresh) => {
                    lemma_stepped_sound(load, state, ParentView::Nothing);
                    if !follow {
                        law_load_stays_sound(
                            loader::stepped(load, state, ParentView::Nothing),
                            follow,
                        );
                    } else if fresh {
                        let wider = loader::with_scope(state, top.file.scope);
                        lemma_new_scope(state, top.file.scope, windows);
                        assert forall|k: int| 0 <= k < m.scopes.len() implies (
                        #[trigger] wider.manifest.scopes[k]).parent == m.scopes[k].parent
                            && m.scopes[k].rules.dom().subset_of(
                            wider.manifest.scopes[k].rules.dom(),
                        ) by {
                            assert(wider.manifest.scopes[k] == state.manifest.scopes[k]);
                        }
                        lemma_stepped_sound(load, wider, ParentView::Nothing);
                    }
                },
            }
        }
    }
}

/// A load that has read nothing is sound.
pub proof fn law_fresh_load_is_sound(settings: Settings, path: Seq<char>)
    ensures
        is_sound_load(loader::fresh_load(settings, path)),
{
}

/// Entering the file that a load needs keeps a sound manifest sound.
pub proof fn law_supplied_load_stays_sound(
    load: Load,
    path: Seq<char>,
    scope: int,
    supply: SupplyView,
)
    requires
        is_sound_load(load),
        0 <= scope < load.state.manifest.scopes.len() <= usize::MAX,
    ensures
        is_sound_progress(
            load.settings.windows,
            loader::supplied(load, path, scope, supply),
        ),
{
    if loader::supply_error(load, path, supply) is None {
        let next = loader::entered(
            load,
            path,
            scope,
            supply->identity,
            supply->contents->Ok_0,
        );
        assert forall|i: int| 0 <= i < next.frames.len() implies 0 <= (
        #[trigger] next.frames[i]).file.scope < next.state.manifest.scopes.len()
            && next.frames[i].file.scope <= usize::MAX && is_sound_parent(
            next.state.manifest,
            next.frames[i].file.scope,
            next.frames[i].parent,
            load.settings.windows,
        ) by {
            if i < load.frames.len() {
                assert(next.frames[i] == load.frames[i]);
            }
        }
        law_load_stays_sound(next, true);
    }
}

proof fn lemma_concluded_sound(n: ManifestView, m: ManifestView, windows: bool)
    requires
        is_sound(n, windows),
        m == (ManifestView { variables: m.variables, rules: m.rules, ..n }),
    ensures
        is_sound(m, windows),
{
    assert forall|k: int| 0 <= k < m.scopes.len() implies #[trigger] has_marks(m.scopes, k)
        && is_noted_scope(m, k) by {
        assert(has_marks(n.scopes, k));
        assert(is_noted_scope(n, k));
    }
}

/// A manifest that was read without error is sound: every path of it is
/// canonical, every edge has an output and a rule that its scope knows, every
/// rule is whole, and every default is a path of an edge.
pub proof fn law_parsed_manifest_is_sound(settings: Settings, source: Seq<char>, path: Seq<char>)
    ensures
        loader::parsed(settings, source, path) matches Ok(m) ==> is_sound(m, settings.windows),
{
    let load = loader::entered(loader::fresh_load(settings, path), path, 0, seq![], source);
    law_fresh_load_is_sound(settings, path);
    assert(load.frames =~= seq![load.frames[0]]);
    law_load_stays_sound(load, false);
    loader::law_single_file_needs_no_other(load);
    if let Ok(m) = loader::parsed(settings, source, path) {
        if let ProgressView::Done(state) = loader::progress(load, false) {
            lemma_concluded_sound(state.manifest, m, settings.windows);
        }
    }
}

/// No path of a manifest that was read without error is empty, and each is canonical. A
/// default is such a path.
pub proof fn law_paths_are_canonical(settings: Settings, source: Seq<char>, path: Seq<char>)
    ensures
        loader::parsed(settings, source, path) matches Ok(m) ==> {
            &&& forall|i: int|
                0 <= i < m.edges.len() ==> are_canonical(
                    manifest::paths_of(#[trigger] m.edges[i]),
                    settings.windows,
                )
            &&& are_canonical(m.defaults, settings.windows)
            &&& forall|i: int|
                0 <= i < m.defaults.len() ==> manifest::names_path(m.edges, #[trigger] m.defaults[i])
        },
{
    law_parsed_manifest_is_sound(settings, source, path);
    if let Ok(m) = loader::parsed(settings, source, path) {
        assert forall|i: int| 0 <= i < m.defaults.len() implies (#[trigger] m.defaults[i]).len() > 0
            && paths::canonical(m.defaults[i], settings.windows).0 == m.defaults[i] by {
            let target = m.defaults[i];
            assert(manifest::names_path(m.edges, target));
            let j = choose|j: int|
                0 <= j < m.edges.len() && #[trigger] manifest::paths_of(m.edges[j]).contains(
                    target,
                );
            let all = manifest::paths_of(m.edges[j]);
            assert(are_canonical(all, settings.windows));
            let x = choose|x: int| 0 <= x < all.len() && all[x] == target;
            assert(all[x].len() > 0);
        }
    }
}

/// A default statement fails at its first target that no build statement before it mentions,
/// whatever follows it.
pub proof fn law_default_must_be_known_before(
    settings: Settings,
    file: FileView,
    st: StateView,
    line: usize,
    raw: Seq<char>,
    rest: Seq<char>,
    i: int,
)
    requires
        statement::unescaped_colon(rest, 0) >= rest.len(),
        ({
            let words = statement::expanded_words(st.manifest.scopes, file.scope, rest);
            let targets = statement::canonical_paths(words, settings.windows);
            &&& forall|k: int| 0 <= k < words.len() ==> (#[trigger] words[k]).len() > 0
            &&& 0 <= i < targets.len()
            &&& !manifest::names_path(st.manifest.edges, targets[i])
            &&& forall|k: int|
                0 <= k < i ==> manifest::names_path(st.manifest.edges, #[trigger] targets[k])
        }),
    ensures
        ({
            let words = statement::expanded_words(st.manifest.scopes, file.scope, rest);
            let target = paths::canonical(words[i], settings.windows).0;
            statement::default_flow(settings, file, st, line, raw, rest) == statement::failure(
                file,
                line,
                crate::lines::end_column(raw),
                "unknown target '"@ + target + "'"@,
                raw,
            )
        }),
{
    let words = statement::expanded_words(st.manifest.scopes, file.scope, rest);
    let targets = statement::canonical_paths(words, settings.windows);
    lemma_first_unknown(st.manifest.edges, targets, 0, i);
}

/// A line that is wrong ends the load, whatever follows it.
pub proof fn law_wrong_line_ends_the_load(load: Load, follow: bool)
    requires
        load.frames.len() > 0,
        0 <= load.frames.last().next < loader::frame_lines(load.frames.last()).len(),
        ({
            let top = load.frames.last();
            let (line, raw) = loader::frame_lines(top)[top.next];
            statement::flow(load.settings, top.file, load.state, top.parent, line, raw) is Fail
        }),
    ensures
        ({
            let top = load.frames.last();
            let (line, raw) = loader::frame_lines(top)[top.next];
            let d = statement::flow(
                load.settings,
                top.file,
                load.state,
                top.parent,
                line,
                raw,
            )->Fail_0;
            loader::progress(load, follow) == ProgressView::Failed(
                loader::passed_up(
                    load.settings,
                    d,
                    load.frames,
                    load.frames.len() - 1,
                    top.file.path,
                ),
            )
        }),
{
}

proof fn lemma_first_unknown(edges: Seq<EdgeView>, targets: Seq<Seq<char>>, from: int, i: int)
    requires
        0 <= from <= i < targets.len(),
        !manifest::names_path(edges, targets[i]),
        forall|k: int| from <= k < i ==> manifest::names_path(edges, #[trigger] targets[k]),
    ensures
        statement::first_unknown(edges, targets, from) == i,
    decreases i - from,
{
    if from < i {
        assert(manifest::names_path(edges, targets[from]));
        lemma_first_unknown(edges, targets, from + 1, i);
    }
}

proof fn lemma_unnoted_variable(m: ManifestView, windows: bool, scope: int, name: Seq<char>)
    requires
        is_sound(m, windows),
        name == "pool"@ && !m.has_pool_binding || name == "dyndep"@ && !m.has_dyndep_binding,
    ensures
        manifest::variable_in(m.scopes, scope, name) is None,
    decreases scope,
{
    if 0 <= scope < m.scopes.len() {
        assert(has_marks(m.scopes, scope));
        assert(is_noted_scope(m, scope));
        if let Some(parent) = m.scopes[scope].parent {
            if parent < scope {
                lemma_unnoted_variable(m, windows, parent as int, name);
            }
        }
    }
}

proof fn lemma_rule_scope(scopes: Seq<ScopeView>, scope: int, name: Seq<char>)
    ensures
        manifest::rule_scope_in(scopes, scope, name) matches Some(k) ==> 0 <= k <= scope && k
            < scopes.len() && scopes[k].rules.contains_key(name),
    decreases scope,
{
    if 0 <= scope < scopes.len() && !scopes[scope].rules.contains_key(name) {
        if let Some(parent) = scopes[scope].parent {
            if parent < scope {
                lemma_rule_scope(scopes, parent as int, name);
            }
        }
    }
}

proof fn lemma_unnoted_value(m: ManifestView, windows: bool, e: EdgeView, name: Seq<char>)
    requires
        is_sound(m, windows),
        are_noted(m, e.bindings),
        name == "pool"@ && !m.has_pool_binding || name == "dyndep"@ && !m.has_dyndep_binding,
    ensures
        binding::evaluated(m.scopes, e, name, 0).len() == 0,
{
    reveal_strlit("in");
    reveal_strlit("in_newline");
    reveal_strlit("out");
    reveal_strlit("pool");
    reveal_strlit("dyndep");
    lemma_unnoted_variable(m, windows, e.scope as int, name);
    lemma_rule_scope(m.scopes, e.scope as int, e.rule);
    if let Some(k) = manifest::rule_scope_in(m.scopes, e.scope as int, e.rule) {
        assert(has_marks(m.scopes, k));
        assert(is_noted_scope(m, k));
    }
    assert(binding::rule_binding(m.scopes, e, name) is None);
    assert(name.len() == 4 && name[0] == 'p' || name.len() == 6 && name[0] == 'd');
    assert("in_newline"@.len() == 10 && "in"@.len() == 2 && "out"@.len() == 3);
}

/// The rule bindings of an edge form no circle where those of its rule are not marked.
proof fn lemma_unmarked_edge(m: ManifestView, windows: bool, e: EdgeView)
    requires
        is_sound(m, windows),
        !finalize::is_cyclic(m.scopes, e),
    ensures
        binding::binding_circle(m.scopes, e) is None,
{
    let g = binding::binding_graph(m.scopes, e);
    lemma_rule_scope(m.scopes, e.scope as int, e.rule);
    if let Some(k) = manifest::rule_scope_in(m.scopes, e.scope as int, e.rule) {
        assert(is_whole_rule(m.scopes[k].rules[e.rule]));
    }
    binding::lemma_few_names(m.scopes, e);
    binding::lemma_numbered_circles(m.scopes, e);
    if binding::binding_circle(m.scopes, e) is Some {
        let p = choose|p: Seq<usize>| crate::cycle::is_circle(g, p);
        assert(p[0] < g.len());
        assert(g[p[0] as int].contains(p[1]));
        if let Some(k) = manifest::rule_scope_in(m.scopes, e.scope as int, e.rule) {
            let bare = bare_edge(e.rule, k);
            let h = binding::binding_graph(m.scopes, bare);
            assert(has_marks(m.scopes, k));
            assert(m.scopes[k].rules.contains_key(e.rule));
            assert(binding::binding_circle(m.scopes, bare) is None);
            assert(binding::bound_names(m.scopes, e) =~= binding::bound_names(m.scopes, bare));
            binding::lemma_numbered_circles(m.scopes, bare);
            let names = crate::sorting::sorted(binding::bound_names(m.scopes, e));
            assert forall|i: int, j: int|
                0 <= i && j == i + 1 && j < p.len() implies h[(#[trigger] p[i]) as int].contains(
                #[trigger] p[j],
            ) by {
                assert(g[p[i] as int].contains(p[j]));
                assert(!e.bindings.contains_key(names[p[i] as int]));
                assert(g[p[i] as int] == h[p[i] as int]);
            }
            assert(crate::cycle::is_circle(h, p));
        } else {
            let none = Seq::<Seq<char>>::empty();
            assert forall|x: Seq<char>| #[trigger] none.contains(x) <==> binding::bound_names(
                m.scopes,
                e,
            ).contains(x) by {}
            crate::sorting::lemma_sorted_once(none, binding::bound_names(m.scopes, e));
        }
    }
}

/// An edge that entered a manifest has a pool that is known, none, or the console, a dyndep
/// file that is one of its inputs, or none, and rule bindings that form no circle.
pub proof fn law_finalized_edge_is_checked(
    st: StateView,
    scope: int,
    e: EdgeView,
    bits: Seq<u64>,
    windows: bool,
)
    requires
        is_sound(st.manifest, windows),
        is_sound_parent(st.manifest, scope, ParentView::Edge(e, bits), windows),
    ensures
        finalize::finalized(st, scope, ParentView::Edge(e, bits), windows) matches Ok(next) ==> {
            let m = next.manifest;
            let known = m.edges.last();
            let pool = binding::evaluated(m.scopes, known, "pool"@, 0);
            let dyndep = binding::evaluated(m.scopes, known, "dyndep"@, 0);
            &&& m.edges.len() == st.manifest.edges.len() + 1
            &&& pool.len() == 0 || pool == "console"@ || m.pools.contains_key(pool)
            &&& dyndep.len() == 0 || manifest::inputs_of(known).contains(dyndep)
            &&& binding::binding_circle(m.scopes, known) is None
        },
{
    reveal(finalize::finalized);
    let m = st.manifest;
    let known = finalize::settled(st.registry, m.scopes, e, bits, windows).1;
    if !m.has_pool_binding {
        lemma_unnoted_value(m, windows, known, "pool"@);
    }
    if !m.has_dyndep_binding {
        lemma_unnoted_value(m, windows, known, "dyndep"@);
    }
    if !finalize::is_cyclic(m.scopes, known) {
        lemma_unmarked_edge(m, windows, known);
    }
}

/// Whether an edge names a path as an output, an input or a validation.
pub open spec fn names(e: EdgeView, path: Seq<char>) -> bool {
    e.explicit_outputs.contains(path) || e.implicit_outputs.contains(path)
        || e.explicit_inputs.contains(path) || e.implicit_inputs.contains(path)
        || e.order_only_inputs.contains(path) || e.validations.contains(path)
}

proof fn lemma_names(e: EdgeView, path: Seq<char>)
    ensures
        manifest::paths_of(e).contains(path) <==> names(e, path),
{
    let outputs = manifest::outputs_of(e);
    let inputs = manifest::inputs_of(e);
    stale_laws::lemma_contains(e.explicit_outputs, e.implicit_outputs, path);
    stale_laws::lemma_contains(e.explicit_inputs, e.implicit_inputs, path);
    stale_laws::lemma_contains(e.explicit_inputs + e.implicit_inputs, e.order_only_inputs, path);
    stale_laws::lemma_contains(outputs, inputs, path);
    stale_laws::lemma_contains(outputs + inputs, e.validations, path);
}

/// A path is known, and can be suggested, exactly where an edge names it.
pub proof fn law_known_paths_are_those_that_edges_name(edges: Seq<EdgeView>, path: Seq<char>)
    ensures
        manifest::all_paths(edges).contains(path) <==> exists|i: int|
            0 <= i < edges.len() && names(#[trigger] edges[i], path),
        manifest::names_path(edges, path) <==> manifest::all_paths(edges).contains(path),
    decreases edges.len(),
{
    if edges.len() > 0 {
        let before = edges.drop_last();
        let last = edges.last();
        law_known_paths_are_those_that_edges_name(before, path);
        lemma_names(last, path);
        stale_laws::lemma_contains(
            manifest::all_paths(before),
            manifest::paths_of(last),
            path,
        );
        if exists|i: int| 0 <= i < before.len() && names(#[trigger] before[i], path) {
            let i = choose|i: int| 0 <= i < before.len() && names(#[trigger] before[i], path);
            assert(edges[i] == before[i]);
        }
        if exists|i: int| 0 <= i < edges.len() && names(#[trigger] edges[i], path) {
            let i = choose|i: int| 0 <= i < edges.len() && names(#[trigger] edges[i], path);
            if i < before.len() {
                assert(before[i] == edges[i]);
            }
        }
        if names(last, path) {
            assert(names(edges[edges.len() - 1], path));
        }
    }
    if manifest::names_path(edges, path) {
        let i = choose|i: int|
            0 <= i < edges.len() && #[trigger] manifest::paths_of(edges[i]).contains(path);
        lemma_names(edges[i], path);
        assert(names(edges[i], path));
    }
    if exists|i: int| 0 <= i < edges.len() && names(#[trigger] edges[i], path) {
        let i = choose|i: int| 0 <= i < edges.len() && names(#[trigger] edges[i], path);
        lemma_names(edges[i], path);
        assert(manifest::paths_of(edges[i]).contains(path));
    }
}

} // verus!
