//! What a manifest declares: variables, rules, pools and build edges.
use crate::collections::map_entries;
use crate::collections::map_get;
use crate::collections::map_new;
use crate::spell;
use crate::spell::spellcheck;
use crate::text;
use crate::text::chars_of;
use crate::text::is_text;
use crate::text::lower;
use crate::text::same_str;
use rapidhash::RapidHashMap;
use vstd::prelude::*;
use vstd::string::*;

verus! {

/// In whose words errors are reported, and by whose path conventions files are
/// named.
#[derive(Clone, Copy, Debug, PartialEq, Eq)]
pub struct Settings {
    /// Whether the program was started as `ninja`.
    pub ninja: bool,
    /// Whether paths are Windows paths.
    pub windows: bool,
}

/// The name under which the program reports, from the stem of its file name.
pub open spec fn program(stem: Option<Seq<char>>) -> Seq<char> {
    match stem {
        Some(s) => if text::lowered(s) == "ninja"@ {
            "ninja"@
        } else {
            "knight"@
        },
        None => "knight"@,
    }
}

/// A rule: how the outputs of an edge are made.
#[derive(Clone, Debug, Default)]
pub struct Rule {
    pub name: String,
    pub bindings: RapidHashMap<String, String>,
    pub source: String,
    pub line: usize,
}

/// What a `Rule` holds.
#[verifier::ext_equal]
pub struct RuleView {
    pub name: Seq<char>,
    pub bindings: Map<Seq<char>, Seq<char>>,
    pub source: Seq<char>,
    pub line: usize,
}

impl DeepView for Rule {
    type V = RuleView;

    open spec fn deep_view(&self) -> RuleView {
        RuleView {
            name: self.name@,
            bindings: self.bindings.deep_view(),
            source: self.source@,
            line: self.line,
        }
    }
}

/// A pool: how many edges that name it may run at a time.
#[derive(Clone, Debug)]
pub struct Pool {
    pub name: String,
    pub depth: usize,
    pub depth_specified: bool,
    pub source: String,
    pub line: usize,
}

/// What a `Pool` holds.
#[verifier::ext_equal]
pub struct PoolView {
    pub name: Seq<char>,
    pub depth: usize,
    pub depth_specified: bool,
    pub source: Seq<char>,
    pub line: usize,
}

impl DeepView for Pool {
    type V = PoolView;

    open spec fn deep_view(&self) -> PoolView {
        PoolView {
            name: self.name@,
            depth: self.depth,
            depth_specified: self.depth_specified,
            source: self.source@,
            line: self.line,
        }
    }
}

/// A build edge: the outputs that a rule makes of the inputs.
#[derive(Clone, Debug, Default)]
pub struct Edge {
    pub explicit_outputs: Vec<String>,
    pub implicit_outputs: Vec<String>,
    pub rule: String,
    pub explicit_inputs: Vec<String>,
    pub implicit_inputs: Vec<String>,
    pub order_only_inputs: Vec<String>,
    pub validations: Vec<String>,
    pub bindings: RapidHashMap<String, String>,
    pub source: String,
    pub line: usize,
    pub scope: usize,
    /// For each explicit output and then each explicit input, which of its
    /// slashes were written as backslashes. Empty where none was.
    pub slash_bits: Vec<u64>,
}

/// What an `Edge` holds.
#[verifier::ext_equal]
pub struct EdgeView {
    pub explicit_outputs: Seq<Seq<char>>,
    pub implicit_outputs: Seq<Seq<char>>,
    pub rule: Seq<char>,
    pub explicit_inputs: Seq<Seq<char>>,
    pub implicit_inputs: Seq<Seq<char>>,
    pub order_only_inputs: Seq<Seq<char>>,
    pub validations: Seq<Seq<char>>,
    pub bindings: Map<Seq<char>, Seq<char>>,
    pub source: Seq<char>,
    pub line: usize,
    pub scope: usize,
    pub slash_bits: Seq<u64>,
}

impl DeepView for Edge {
    type V = EdgeView;

    open spec fn deep_view(&self) -> EdgeView {
        EdgeView {
            explicit_outputs: text::strings(self.explicit_outputs@),
            implicit_outputs: text::strings(self.implicit_outputs@),
            rule: self.rule@,
            explicit_inputs: text::strings(self.explicit_inputs@),
            implicit_inputs: text::strings(self.implicit_inputs@),
            order_only_inputs: text::strings(self.order_only_inputs@),
            validations: text::strings(self.validations@),
            bindings: self.bindings.deep_view(),
            source: self.source@,
            line: self.line,
            scope: self.scope,
            slash_bits: self.slash_bits@,
        }
    }
}

/// The outputs of an edge, the explicit ones first.
pub open spec fn outputs_of(e: EdgeView) -> Seq<Seq<char>> {
    e.explicit_outputs + e.implicit_outputs
}

/// The inputs of an edge: explicit, implicit and order-only ones.
pub open spec fn inputs_of(e: EdgeView) -> Seq<Seq<char>> {
    e.explicit_inputs + e.implicit_inputs + e.order_only_inputs
}

/// Every path that an edge names.
pub open spec fn paths_of(e: EdgeView) -> Seq<Seq<char>> {
    outputs_of(e) + inputs_of(e) + e.validations
}

/// Appends the strings of `list` to `out`.
fn push_strs<'a>(out: &mut Vec<&'a str>, list: &'a Vec<String>)
    ensures
        spell::views(final(out)@) == spell::views(old(out)@) + text::strings(list@),
{
    let mut i: usize = 0;
    while i < list.len()
        invariant
            i <= list@.len(),
            spell::views(out@) =~= spell::views(old(out)@) + text::strings(list@).take(i as int),
        decreases list@.len() - i,
    {
        let ghost before = out@;
        let item: &'a str = list[i].as_str();
        out.push(item);
        proof {
            assert(spell::views(out@) =~= spell::views(before).push(item@));
            assert(text::strings(list@).take(i + 1) =~= text::strings(list@).take(i as int).push(
                item@,
            ));
        }
        i += 1;
    }
    proof {
        assert(text::strings(list@).take(list@.len() as int) =~= text::strings(list@));
    }
}

impl Edge {
    /// The outputs, the explicit ones first.
    pub fn outputs(&self) -> (r: Vec<&str>)
        ensures
            spell::views(r@) == outputs_of(self.deep_view()),
    {
        let mut r: Vec<&str> = Vec::new();
        push_strs(&mut r, &self.explicit_outputs);
        push_strs(&mut r, &self.implicit_outputs);
        proof {
            assert(spell::views(r@) =~= outputs_of(self.deep_view()));
        }
        r
    }

    /// The inputs: explicit, implicit and order-only ones.
    pub fn inputs(&self) -> (r: Vec<&str>)
        ensures
            spell::views(r@) == inputs_of(self.deep_view()),
    {
        let mut r: Vec<&str> = Vec::new();
        push_strs(&mut r, &self.explicit_inputs);
        push_strs(&mut r, &self.implicit_inputs);
        push_strs(&mut r, &self.order_only_inputs);
        proof {
            assert(spell::views(r@) =~= inputs_of(self.deep_view()));
        }
        r
    }

    /// Every path that the edge names.
    pub fn paths(&self) -> (r: Vec<&str>)
        ensures
            spell::views(r@) == paths_of(self.deep_view()),
    {
        let mut r: Vec<&str> = self.outputs();
        push_strs(&mut r, &self.explicit_inputs);
        push_strs(&mut r, &self.implicit_inputs);
        push_strs(&mut r, &self.order_only_inputs);
        push_strs(&mut r, &self.validations);
        proof {
            assert(spell::views(r@) =~= paths_of(self.deep_view()));
        }
        r
    }
}

/// A scope: what one file and the files that it draws in declare. A name that
/// it lacks is looked up in its parent, which has a smaller number.
#[derive(Clone, Debug, Default)]
pub struct Scope {
    pub parent: Option<usize>,
    pub variables: RapidHashMap<String, String>,
    pub rules: RapidHashMap<String, Rule>,
    /// Which rules have bindings that refer to each other in a circle.
    pub cyclic: RapidHashMap<String, bool>,
}

/// What a `Scope` holds.
#[verifier::ext_equal]
pub struct ScopeView {
    pub parent: Option<usize>,
    pub variables: Map<Seq<char>, Seq<char>>,
    pub rules: Map<Seq<char>, RuleView>,
    pub cyclic: Map<Seq<char>, bool>,
}

impl DeepView for Scope {
    type V = ScopeView;

    open spec fn deep_view(&self) -> ScopeView {
        ScopeView {
            parent: self.parent,
            variables: self.variables.deep_view(),
            rules: self.rules.deep_view(),
            cyclic: self.cyclic.deep_view(),
        }
    }
}

pub open spec fn empty_scope(parent: Option<usize>) -> ScopeView {
    ScopeView {
        parent,
        variables: Map::empty(),
        rules: Map::empty(),
        cyclic: Map::empty(),
    }
}

impl Scope {
    pub fn new(parent: Option<usize>) -> (r: Scope)
        ensures
            r.deep_view() == empty_scope(parent),
    {
        Scope { parent, variables: map_new(), rules: map_new(), cyclic: map_new() }
    }
}

/// A manifest.
#[derive(Clone, Debug, Default)]
pub struct Manifest {
    /// The variables of the outermost scope.
    pub variables: RapidHashMap<String, String>,
    /// The rules of the outermost scope.
    pub rules: RapidHashMap<String, Rule>,
    pub pools: RapidHashMap<String, Pool>,
    pub edges: Vec<Edge>,
    pub defaults: Vec<String>,
    pub phony_self_references: Vec<String>,
    pub warnings: Vec<String>,
    pub root: String,
    pub scopes: Vec<Scope>,
    pub has_pool_binding: bool,
    pub has_dyndep_binding: bool,
    pub has_dependency_binding: bool,
}

/// What a `Manifest` holds.
#[verifier::ext_equal]
pub struct ManifestView {
    pub variables: Map<Seq<char>, Seq<char>>,
    pub rules: Map<Seq<char>, RuleView>,
    pub pools: Map<Seq<char>, PoolView>,
    pub edges: Seq<EdgeView>,
    pub defaults: Seq<Seq<char>>,
    pub phony_self_references: Seq<Seq<char>>,
    pub warnings: Seq<Seq<char>>,
    pub root: Seq<char>,
    pub scopes: Seq<ScopeView>,
    pub has_pool_binding: bool,
    pub has_dyndep_binding: bool,
    pub has_dependency_binding: bool,
}

impl DeepView for Manifest {
    type V = ManifestView;

    open spec fn deep_view(&self) -> ManifestView {
        ManifestView {
            variables: self.variables.deep_view(),
            rules: self.rules.deep_view(),
            pools: self.pools.deep_view(),
            edges: self.edges.deep_view(),
            defaults: text::strings(self.defaults@),
            phony_self_references: text::strings(self.phony_self_references@),
            warnings: text::strings(self.warnings@),
            root: self.root@,
            scopes: self.scopes.deep_view(),
            has_pool_binding: self.has_pool_binding,
            has_dyndep_binding: self.has_dyndep_binding,
            has_dependency_binding: self.has_dependency_binding,
        }
    }
}

/// A manifest that declares nothing.
pub open spec fn empty_manifest(root: Seq<char>) -> ManifestView {
    ManifestView {
        variables: Map::empty(),
        rules: Map::empty(),
        pools: Map::empty(),
        edges: seq![],
        defaults: seq![],
        phony_self_references: seq![],
        warnings: seq![],
        root,
        scopes: seq![empty_scope(None)],
        has_pool_binding: false,
        has_dyndep_binding: false,
        has_dependency_binding: false,
    }
}

/// The value of variable `name` in a scope: that of the innermost scope that
/// declares it.
pub open spec fn variable_in(scopes: Seq<ScopeView>, scope: int, name: Seq<char>) -> Option<
    Seq<char>,
>
    decreases scope,
{
    if scope < 0 || scope >= scopes.len() {
        None
    } else if scopes[scope].variables.contains_key(name) {
        Some(scopes[scope].variables[name])
    } else {
        match scopes[scope].parent {
            Some(parent) => if parent < scope {
                variable_in(scopes, parent as int, name)
            } else {
                None
            },
            None => None,
        }
    }
}

/// The innermost scope that declares rule `name`, seen from a scope.
pub open spec fn rule_scope_in(scopes: Seq<ScopeView>, scope: int, name: Seq<char>) -> Option<
    int,
>
    decreases scope,
{
    if scope < 0 || scope >= scopes.len() {
        None
    } else if scopes[scope].rules.contains_key(name) {
        Some(scope)
    } else {
        match scopes[scope].parent {
            Some(parent) => if parent < scope {
                rule_scope_in(scopes, parent as int, name)
            } else {
                None
            },
            None => None,
        }
    }
}

/// The rule `name` as a scope sees it.
pub open spec fn rule_in(scopes: Seq<ScopeView>, scope: int, name: Seq<char>) -> Option<RuleView> {
    match rule_scope_in(scopes, scope, name) {
        Some(k) => Some(scopes[k].rules[name]),
        None => None,
    }
}

/// Whether `target` is a path that an edge of `edges` names.
pub open spec fn names_path(edges: Seq<EdgeView>, target: Seq<char>) -> bool {
    exists|i: int| 0 <= i < edges.len() && #[trigger] paths_of(edges[i]).contains(target)
}

/// Every path that the edges name, edge by edge.
pub open spec fn all_paths(edges: Seq<EdgeView>) -> Seq<Seq<char>>
    decreases edges.len(),
{
    if edges.len() == 0 {
        seq![]
    } else {
        all_paths(edges.drop_last()) + paths_of(edges.last())
    }
}

/// What to say of a target that no edge names: what was meant, where that can
/// be told.
pub open spec fn unknown_target(edges: Seq<EdgeView>, target: Seq<char>) -> Seq<char> {
    let message = "unknown target '"@ + target + "'"@;
    if target == "clean"@ {
        message + ", did you mean 'ninja -t clean'?"@
    } else if target == "help"@ {
        message + ", did you mean 'ninja -h'?"@
    } else {
        match spell::suggestion(target, all_paths(edges)) {
            Some(other) => message + ", did you mean '"@ + other + "'?"@,
            None => message,
        }
    }
}

impl Manifest {
    /// A manifest that declares nothing.
    pub fn new(root: &str) -> (r: Manifest)
        ensures
            r.deep_view() == empty_manifest(root@),
    {
        let mut scopes: Vec<Scope> = Vec::new();
        scopes.push(Scope::new(None));
        let r: Manifest = Manifest {
            variables: map_new(),
            rules: map_new(),
            pools: map_new(),
            edges: Vec::new(),
            defaults: Vec::new(),
            phony_self_references: Vec::new(),
            warnings: Vec::new(),
            root: root.to_owned(),
            scopes,
            has_pool_binding: false,
            has_dyndep_binding: false,
            has_dependency_binding: false,
        };
        proof {
            assert(r.deep_view() =~= empty_manifest(root@));
        }
        r
    }

    /// The value of variable `name` in a scope.
    pub fn lookup_variable(&self, scope: usize, name: &str) -> (r: Option<&str>)
        ensures
            match r {
                Some(v) => variable_in(self.deep_view().scopes, scope as int, name@) == Some(v@),
                None => variable_in(self.deep_view().scopes, scope as int, name@) is None,
            },
    {
        let ghost scopes = self.deep_view().scopes;
        let mut at: usize = scope;
        loop
            invariant
                scopes == self.deep_view().scopes,
                variable_in(scopes, scope as int, name@) == variable_in(
                    scopes,
                    at as int,
                    name@,
                ),
            decreases at,
        {
            if at >= self.scopes.len() {
                return None;
            }
            let current: &Scope = &self.scopes[at];
            proof {
                assert(scopes[at as int] == current.deep_view());
            }
            if let Some(value) = map_get(&current.variables, name) {
                return Some(value.as_str());
            }
            match current.parent {
                Some(parent) => {
                    if parent >= at {
                        return None;
                    }
                    at = parent;
                },
                None => {
                    return None;
                },
            }
        }
    }

    /// The innermost scope that declares rule `name`, seen from a scope.
    pub fn lookup_rule_scope(&self, scope: usize, name: &str) -> (r: Option<usize>)
        ensures
            match r {
                Some(k) => k < self.scopes@.len() && rule_scope_in(
                    self.deep_view().scopes,
                    scope as int,
                    name@,
                ) == Some(k as int) && self.deep_view().scopes[k as int].rules.contains_key(
                    name@,
                ),
                None => rule_scope_in(self.deep_view().scopes, scope as int, name@) is None,
            },
    {
        let ghost scopes = self.deep_view().scopes;
        let mut at: usize = scope;
        loop
            invariant
                scopes == self.deep_view().scopes,
                rule_scope_in(scopes, scope as int, name@) == rule_scope_in(
                    scopes,
                    at as int,
                    name@,
                ),
            decreases at,
        {
            if at >= self.scopes.len() {
                return None;
            }
            let current: &Scope = &self.scopes[at];
            proof {
                assert(scopes[at as int] == current.deep_view());
            }
            if map_get(&current.rules, name).is_some() {
                return Some(at);
            }
            match current.parent {
                Some(parent) => {
                    if parent >= at {
                        return None;
                    }
                    at = parent;
                },
                None => {
                    return None;
                },
            }
        }
    }

    /// The rule `name` as a scope sees it.
    pub fn lookup_rule(&self, scope: usize, name: &str) -> (r: Option<&Rule>)
        ensures
            match r {
                Some(rule) => rule_in(self.deep_view().scopes, scope as int, name@) == Some(
                    rule.deep_view(),
                ),
                None => rule_in(self.deep_view().scopes, scope as int, name@) is None,
            },
    {
        match self.lookup_rule_scope(scope, name) {
            Some(at) => {
                proof {
                    assert(self.deep_view().scopes[at as int] == self.scopes@[at as int].deep_view());
                }
                map_get(&self.scopes[at].rules, name)
            },
            None => None,
        }
    }

    /// Every rule of every scope. Within a scope their order is not fixed.
    pub fn all_rules(&self) -> (r: Vec<&Rule>)
        ensures
            exists|keys: Seq<(int, Seq<char>)>| #[trigger] enumerates(
                self.deep_view().scopes,
                self.scopes@.len() as int,
                keys,
            ) && keys.len() == r@.len() && forall|i: int|
                0 <= i < keys.len() ==> (#[trigger] r@[i]).deep_view()
                    == self.deep_view().scopes[keys[i].0].rules[keys[i].1],
    {
        let mut r: Vec<&Rule> = Vec::new();
        let ghost scopes = self.deep_view().scopes;
        let ghost mut keys: Seq<(int, Seq<char>)> = seq![];
        let mut k: usize = 0;
        while k < self.scopes.len()
            invariant
                scopes == self.deep_view().scopes,
                k <= self.scopes@.len(),
                enumerates(scopes, k as int, keys),
                keys.len() == r@.len(),
                forall|i: int|
                    0 <= i < keys.len() ==> (#[trigger] r@[i]).deep_view()
                        == scopes[keys[i].0].rules[keys[i].1],
            decreases self.scopes@.len() - k,
        {
            let entries: Vec<(&String, &Rule)> = map_entries(&self.scopes[k].rules);
            let ghost before = keys;
            let ghost start = r@;
            proof {
                assert(scopes[k as int] == self.scopes@[k as int].deep_view());
            }
            let mut i: usize = 0;
            while i < entries.len()
                invariant
                    i <= entries@.len(),
                    k < self.scopes@.len(),
                    scopes == self.deep_view().scopes,
                    scopes[k as int] == self.scopes@[k as int].deep_view(),
                    before.len() == start.len(),
                    keys.len() == before.len() + i,
                    keys.len() == r@.len(),
                    forall|j: int|
                        0 <= j < entries@.len() ==> scopes[k as int].rules.contains_key(
                            (#[trigger] entries@[j]).0@,
                        ) && entries@[j].1.deep_view() == scopes[k as int].rules[entries@[j].0@],
                    forall|j: int| 0 <= j < before.len() ==> #[trigger] keys[j] == before[j],
                    forall|j: int| 0 <= j < before.len() ==> #[trigger] r@[j] == start[j],
                    forall|j: int|
                        before.len() <= j < keys.len() ==> #[trigger] keys[j] == (
                            k as int,
                            entries@[j - before.len()].0@,
                        ),
                    forall|j: int|
                        before.len() <= j < keys.len() ==> #[trigger] r@[j]
                            == entries@[j - before.len()].1,
                decreases entries@.len() - i,
            {
                r.push(entries[i].1);
                proof {
                    keys = keys.push((k as int, entries@[i as int].0@));
                }
                i += 1;
            }
            proof {
                assert forall|a: int, b: int| 0 <= a < b < keys.len() implies #[trigger] keys[a]
                    != #[trigger] keys[b] by {
                    if a >= before.len() {
                        let (x, y) = (a - before.len(), b - before.len());
                        assert(entries@[x].0@ != entries@[y].0@);
                    }
                }
                assert forall|s: int, name: Seq<char>|
                    0 <= s < k + 1 && #[trigger] scopes[s].rules.contains_key(
                        name,
                    ) implies keys.contains((s, name)) by {
                    if s < k {
                        assert(before.contains((s, name)));
                        let j = choose|j: int| 0 <= j < before.len() && before[j] == (s, name);
                        assert(keys[j] == (s, name));
                    } else {
                        let j = choose|j: int|
                            0 <= j < entries@.len() && (#[trigger] entries@[j]).0@ == name;
                        assert(keys[before.len() + j] == (s, name));
                    }
                }
            }
            k += 1;
        }
        r
    }

    /// Whether the manifest binds `deps` or `depfile` anywhere.
    pub fn has_dependency_bindings(&self) -> (r: bool)
        ensures
            r == self.deep_view().has_dependency_binding,
    {
        self.has_dependency_binding
    }

    /// Whether the manifest binds `pool` anywhere.
    pub fn has_pool_bindings(&self) -> (r: bool)
        ensures
            r == self.deep_view().has_pool_binding,
    {
        self.has_pool_binding
    }
}

/// Whether `keys` lists every rule of the first `n` scopes once, as the number
/// of its scope and its name.
pub open spec fn enumerates(scopes: Seq<ScopeView>, n: int, keys: Seq<(int, Seq<char>)>) -> bool {
    &&& keys.no_duplicates()
    &&& forall|i: int|
        0 <= i < keys.len() ==> 0 <= (#[trigger] keys[i]).0 < n
            && scopes[keys[i].0].rules.contains_key(keys[i].1)
    &&& forall|s: int, name: Seq<char>|
        0 <= s < n && #[trigger] scopes[s].rules.contains_key(name) ==> keys.contains((s, name))
}

/// What to say of a target that no edge names.
pub fn unknown_target_message(manifest: &Manifest, target: &str) -> (r: String)
    ensures
        r@ == unknown_target(manifest.deep_view().edges, target@),
{
    let mut message: String = "unknown target '".to_owned();
    message.append(target);
    message.append("'");
    if same_str(target, "clean") {
        message.append(", did you mean 'ninja -t clean'?");
        return message;
    }
    if same_str(target, "help") {
        message.append(", did you mean 'ninja -h'?");
        return message;
    }
    let ghost edges = manifest.deep_view().edges;
    let mut candidates: Vec<&str> = Vec::new();
    let mut i: usize = 0;
    proof {
        assert(edges.take(0) =~= seq![]);
        assert(spell::views(candidates@) =~= all_paths(edges.take(0)));
    }
    while i < manifest.edges.len()
        invariant
            edges == manifest.deep_view().edges,
            i <= manifest.edges@.len(),
            spell::views(candidates@) == all_paths(edges.take(i as int)),
        decreases manifest.edges@.len() - i,
    {
        let edge: &Edge = &manifest.edges[i];
        let ghost before = spell::views(candidates@);
        push_strs(&mut candidates, &edge.explicit_outputs);
        push_strs(&mut candidates, &edge.implicit_outputs);
        push_strs(&mut candidates, &edge.explicit_inputs);
        push_strs(&mut candidates, &edge.implicit_inputs);
        push_strs(&mut candidates, &edge.order_only_inputs);
        push_strs(&mut candidates, &edge.validations);
        proof {
            assert(edges[i as int] == edge.deep_view());
            assert(edges.take(i + 1).drop_last() =~= edges.take(i as int));
            assert(spell::views(candidates@) =~= before + paths_of(edge.deep_view()));
        }
        i += 1;
    }
    proof {
        assert(edges.take(edges.len() as int) =~= edges);
    }
    if let Some(suggestion) = spellcheck(target, candidates.as_slice()) {
        message.append(", did you mean '");
        message.append(suggestion);
        message.append("'?");
    }
    message
}

/// The name under which the program reports, from the stem of its file name.
pub fn program_name(stem: Option<&str>) -> (r: &'static str)
    ensures
        r@ == program(
            match stem {
                Some(s) => Some(s@),
                None => None,
            },
        ),
{
    match stem {
        Some(s) => if is_text(lower(chars_of(s).as_slice()).as_slice(), "ninja") {
            "ninja"
        } else {
            "knight"
        },
        None => "knight",
    }
}

} // verus!
