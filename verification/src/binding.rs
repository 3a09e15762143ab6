//! The bindings of rules and edges: their values, and circles among them.
use crate::collections::map_entries;
use crate::collections::map_get;
use crate::cycle;
use crate::cycle::find_cycle;
use crate::expand;
use crate::expand::read_dollar;
use crate::expand::variable_references;
use crate::expand::Dollar;
use crate::manifest;
use crate::manifest::Edge;
use crate::manifest::EdgeView;
use crate::manifest::Manifest;
use crate::manifest::Rule;
use crate::manifest::ScopeView;
use crate::paths;
use crate::paths::decanonicalize_path;
use crate::sorting;
use crate::sorting::insert_sorted;
use crate::text;
use crate::text::chars_of;
use crate::text::push_all;
use crate::text::is_text;
use crate::text::same_str;
use crate::text::string_of;
use vstd::prelude::*;
use vstd::slice::slice_subrange;
use vstd::string::*;

verus! {

/// The slash bits of the explicit outputs of an edge.
pub open spec fn output_bits(e: EdgeView) -> Seq<u64> {
    if e.explicit_outputs.len() <= e.slash_bits.len() {
        e.slash_bits.take(e.explicit_outputs.len() as int)
    } else {
        seq![]
    }
}

/// The slash bits of the explicit inputs of an edge.
pub open spec fn input_bits(e: EdgeView) -> Seq<u64> {
    if e.explicit_outputs.len() <= e.slash_bits.len() {
        e.slash_bits.skip(e.explicit_outputs.len() as int)
    } else {
        seq![]
    }
}

impl Edge {
    /// The slash bits of the explicit outputs.
    pub fn explicit_output_slash_bits(&self) -> (r: &[u64])
        ensures
            r@ == output_bits(self.deep_view()),
    {
        let n: usize = self.explicit_outputs.len();
        if n <= self.slash_bits.len() {
            slice_subrange(self.slash_bits.as_slice(), 0, n)
        } else {
            proof {
                assert(self.slash_bits@.subrange(0, 0) =~= seq![]);
            }
            slice_subrange(self.slash_bits.as_slice(), 0, 0)
        }
    }

    /// The slash bits of the explicit inputs.
    pub fn explicit_input_slash_bits(&self) -> (r: &[u64])
        ensures
            r@ == input_bits(self.deep_view()),
    {
        let n: usize = self.explicit_outputs.len();
        if n <= self.slash_bits.len() {
            slice_subrange(self.slash_bits.as_slice(), n, self.slash_bits.len())
        } else {
            proof {
                assert(self.slash_bits@.subrange(0, 0) =~= seq![]);
            }
            slice_subrange(self.slash_bits.as_slice(), 0, 0)
        }
    }
}

/// Path `i` with its backslashes.
pub open spec fn written(paths: Seq<Seq<char>>, bits: Seq<u64>, i: int) -> Seq<char> {
    paths::decanonical(
        paths[i],
        if i < bits.len() {
            bits[i] as nat
        } else {
            0
        },
    )
}

/// The first `n` paths with their backslashes, and a separator between them.
pub open spec fn joined(
    paths: Seq<Seq<char>>,
    bits: Seq<u64>,
    separator: char,
    n: int,
) -> Seq<char>
    decreases n,
{
    if n <= 0 {
        seq![]
    } else if n == 1 {
        written(paths, bits, 0)
    } else {
        joined(paths, bits, separator, n - 1).push(separator) + written(paths, bits, n - 1)
    }
}

/// The paths with their backslashes, and a separator between them.
pub fn join_decanonicalized_paths(paths: &Vec<String>, bits: &[u64], separator: char) -> (r: String)
    ensures
        r@ == joined(text::strings(paths@), bits@, separator, paths@.len() as int),
{
    let mut r: String = String::new();
    let mut i: usize = 0;
    proof {
        reveal_strlit("");
        assert(r@ =~= seq![]);
    }
    while i < paths.len()
        invariant
            i <= paths@.len(),
            r@ == joined(text::strings(paths@), bits@, separator, i as int),
        decreases paths@.len() - i,
    {
        if i > 0 {
            r.push(separator);
        }
        let b: u64 = if i < bits.len() {
            bits[i]
        } else {
            0
        };
        let path: String = decanonicalize_path(paths[i].as_str(), b);
        proof {
            assert(path@ == written(text::strings(paths@), bits@, i as int));
            if i == 0 {
                assert(r@ + path@ =~= path@);
            }
        }
        r.append(path.as_str());
        i += 1;
    }
    r
}

/// The binding `name` of the rule of an edge, as it is written.
pub open spec fn rule_binding(scopes: Seq<ScopeView>, e: EdgeView, name: Seq<char>) -> Option<
    Seq<char>,
> {
    match manifest::rule_in(scopes, e.scope as int, e.rule) {
        Some(rule) => if rule.bindings.contains_key(name) {
            Some(rule.bindings[name])
        } else {
            None
        },
        None => None,
    }
}

/// The lists of paths that an edge gives to its rule: its explicit inputs on one
/// line and line by line, and its explicit outputs.
pub struct PathLists {
    pub inputs: String,
    pub input_lines: String,
    pub outputs: String,
}

/// What `PathLists` hold.
#[verifier::ext_equal]
pub struct PathListsView {
    pub inputs: Seq<char>,
    pub input_lines: Seq<char>,
    pub outputs: Seq<char>,
}

impl PathLists {
    pub open spec fn view(&self) -> PathListsView {
        PathListsView {
            inputs: self.inputs@,
            input_lines: self.input_lines@,
            outputs: self.outputs@,
        }
    }
}

/// The value of `name` for an edge: a list of its paths, its own binding, the
/// binding of its rule with the variables in it replaced by their values for
/// the edge, or a variable of its scope. Bindings that nest too deeply end in
/// nothing.
pub open spec fn valued(
    scopes: Seq<ScopeView>,
    e: EdgeView,
    lists: PathListsView,
    name: Seq<char>,
    depth: int,
) -> Seq<char>
    decreases 65 - depth, 1int,
{
    if depth > 64 {
        seq![]
    } else if name == "in"@ {
        lists.inputs
    } else if name == "in_newline"@ {
        lists.input_lines
    } else if name == "out"@ {
        lists.outputs
    } else if e.bindings.contains_key(name) {
        e.bindings[name]
    } else {
        match rule_binding(scopes, e, name) {
            Some(raw) => expand::expanded(raw, values_below(scopes, e, lists, depth)),
            None => match manifest::variable_in(scopes, e.scope as int, name) {
                Some(value) => value,
                None => seq![],
            },
        }
    }
}

/// What variables stand for in a rule binding that is nested `depth` deep.
pub open spec fn values_below(
    scopes: Seq<ScopeView>,
    e: EdgeView,
    lists: PathListsView,
    depth: int,
) -> expand::Meaning
    decreases 65 - depth, 0int,
{
    if depth > 64 {
        |nested: Seq<char>| None
    } else {
        |nested: Seq<char>| Some(valued(scopes, e, lists, nested, depth + 1))
    }
}

/// The lists of the paths of an edge with their backslashes.
pub open spec fn written_lists(e: EdgeView) -> PathListsView {
    let n = e.explicit_inputs.len() as int;
    PathListsView {
        inputs: joined(e.explicit_inputs, input_bits(e), ' ', n),
        input_lines: joined(e.explicit_inputs, input_bits(e), '\n', n),
        outputs: joined(
            e.explicit_outputs,
            output_bits(e),
            ' ',
            e.explicit_outputs.len() as int,
        ),
    }
}

/// The value of `name` for an edge, with its paths as they are written.
pub open spec fn evaluated(scopes: Seq<ScopeView>, e: EdgeView, name: Seq<char>, depth: int) -> Seq<
    char,
> {
    valued(scopes, e, written_lists(e), name, depth)
}

/// The value of `name` for an edge with the given lists of its paths.
pub fn evaluate_with_lists(
    manifest: &Manifest,
    edge: &Edge,
    lists: &PathLists,
    name: &str,
    depth: usize,
) -> (r: String)
    ensures
        r@ == valued(
            manifest.deep_view().scopes,
            edge.deep_view(),
            lists@,
            name@,
            depth as int,
        ),
    decreases 65 - depth,
{
    let ghost scopes = manifest.deep_view().scopes;
    let ghost e = edge.deep_view();
    if depth > 64 {
        proof {
            reveal_strlit("");
        }
        return String::new();
    }
    if same_str(name, "in") {
        return lists.inputs.clone();
    }
    if same_str(name, "in_newline") {
        return lists.input_lines.clone();
    }
    if same_str(name, "out") {
        return lists.outputs.clone();
    }
    if let Some(value) = map_get(&edge.bindings, name) {
        return value.clone();
    }
    if let Some(rule) = manifest.lookup_rule(edge.scope, edge.rule.as_str()) {
        if let Some(value) = map_get(&rule.bindings, name) {
            let raw: Vec<char> = chars_of(value.as_str());
            let s: &[char] = raw.as_slice();
            let mut out: Vec<char> = Vec::new();
            let mut i: usize = 0;
            let ghost meaning = values_below(scopes, e, lists@, depth as int);
            while i < s.len()
                invariant
                    depth <= 64,
                    i <= s@.len(),
                    scopes == manifest.deep_view().scopes,
                    e == edge.deep_view(),
                    meaning == values_below(scopes, e, lists@, depth as int),
                    out@ + expand::expanded_from(s@, i as int, meaning) =~= expand::expanded(
                        s@,
                        meaning,
                    ),
                decreases s@.len() - i,
            {
                let ghost before = out@;
                let ghost rest = expand::expanded_from(s@, i as int, meaning);
                if s[i] != '$' {
                    out.push(s[i]);
                    proof {
                        assert(rest =~= seq![s@[i as int]] + expand::expanded_from(
                            s@,
                            i + 1,
                            meaning,
                        ));
                    }
                    i += 1;
                } else {
                    let (escape, next) = read_dollar(s, i);
                    match escape {
                        Dollar::Char(c) => {
                            out.push(c);
                            proof {
                                assert(out@ =~= before + seq![c]);
                            }
                        },
                        Dollar::Var(a, b) => {
                            let nested: String = string_of(slice_subrange(s, a, b));
                            let inner: String = evaluate_with_lists(
                                manifest,
                                edge,
                                lists,
                                nested.as_str(),
                                depth + 1,
                            );
                            push_all(&mut out, chars_of(inner.as_str()).as_slice());
                        },
                        Dollar::Open | Dollar::Stray => {
                            push_all(&mut out, slice_subrange(s, i, next));
                        },
                    }
                    proof {
                        assert(out@ =~= before + expand::replacement(s@, i as int, meaning));
                        assert(rest =~= expand::replacement(s@, i as int, meaning)
                            + expand::expanded_from(s@, next as int, meaning));
                    }
                    i = next;
                }
            }
            return string_of(out.as_slice());
        }
    }
    match manifest.lookup_variable(edge.scope, name) {
        Some(value) => value.to_owned(),
        None => {
            proof {
                reveal_strlit("");
            }
            String::new()
        },
    }
}

/// The value of `name` for an edge, with its paths as they are written.
pub fn evaluate_edge_binding(
    manifest: &Manifest,
    edge: &Edge,
    name: &str,
    depth: usize,
) -> (r: String)
    ensures
        r@ == evaluated(manifest.deep_view().scopes, edge.deep_view(), name@, depth as int),
{
    let input_bits: &[u64] = edge.explicit_input_slash_bits();
    let output_bits: &[u64] = edge.explicit_output_slash_bits();
    let lists: PathLists = PathLists {
        inputs: join_decanonicalized_paths(&edge.explicit_inputs, input_bits, ' '),
        input_lines: join_decanonicalized_paths(&edge.explicit_inputs, input_bits, '\n'),
        outputs: join_decanonicalized_paths(&edge.explicit_outputs, output_bits, ' '),
    };
    evaluate_with_lists(manifest, edge, &lists, name, depth)
}

/// The names that a rule may bind, in alphabetical order.
pub open spec fn rule_key(k: int) -> Seq<char> {
    if k == 0 {
        "command"@
    } else if k == 1 {
        "depfile"@
    } else if k == 2 {
        "deps"@
    } else if k == 3 {
        "description"@
    } else if k == 4 {
        "dyndep"@
    } else if k == 5 {
        "generator"@
    } else if k == 6 {
        "msvc_deps_prefix"@
    } else if k == 7 {
        "pool"@
    } else if k == 8 {
        "restat"@
    } else if k == 9 {
        "rspfile"@
    } else {
        "rspfile_content"@
    }
}

pub fn rule_key_name(k: usize) -> (r: &'static str)
    ensures
        r@ == rule_key(k as int),
{
    if k == 0 {
        "command"
    } else if k == 1 {
        "depfile"
    } else if k == 2 {
        "deps"
    } else if k == 3 {
        "description"
    } else if k == 4 {
        "dyndep"
    } else if k == 5 {
        "generator"
    } else if k == 6 {
        "msvc_deps_prefix"
    } else if k == 7 {
        "pool"
    } else if k == 8 {
        "restat"
    } else if k == 9 {
        "rspfile"
    } else {
        "rspfile_content"
    }
}

/// The number of the name `name` among those that a rule may bind, from `k` on,
/// and their count where it is none of them.
pub open spec fn key_from(name: Seq<char>, k: int) -> int
    decreases 11 - k,
{
    if k >= 11 || name == rule_key(k) {
        k
    } else {
        key_from(name, k + 1)
    }
}

/// Whether a rule may bind `name`.
pub open spec fn is_rule_key(name: Seq<char>) -> bool {
    key_from(name, 0) < 11
}

/// The number of the name `name` among those that a rule may bind, and their
/// count where it is none of them.
pub fn rule_key_number(name: &[char]) -> (r: usize)
    ensures
        r == key_from(name@, 0),
        r <= 11,
{
    let mut k: usize = 0;
    while k < 11 && !is_text(name, rule_key_name(k))
        invariant
            k <= 11,
            key_from(name@, 0) == key_from(name@, k as int),
        decreases 11 - k,
    {
        k += 1;
    }
    k
}

/// Whether a name stands for a list of the paths of an edge.
pub open spec fn is_list_name(name: Seq<char>) -> bool {
    name == "in"@ || name == "in_newline"@ || name == "out"@
}

/// The bindings of the rule of an edge, as they are written.
pub open spec fn rule_bindings(scopes: Seq<ScopeView>, e: EdgeView) -> Map<Seq<char>, Seq<char>> {
    match manifest::rule_in(scopes, e.scope as int, e.rule) {
        Some(rule) => rule.bindings,
        None => Map::empty(),
    }
}

/// The names that the rule of an edge binds, but for those of lists of paths.
pub open spec fn bound_names(scopes: Seq<ScopeView>, e: EdgeView) -> Set<Seq<char>> {
    Set::new(
        |name: Seq<char>| rule_bindings(scopes, e).contains_key(name) && !is_list_name(name),
    )
}

/// The first position of `name` in `names`, from `i` on, and their count where there is none.
pub open spec fn number_of(names: Seq<Seq<char>>, name: Seq<char>, i: int) -> int
    decreases names.len() - i,
{
    if i < 0 || i >= names.len() {
        names.len() as int
    } else if names[i] == name {
        i
    } else {
        number_of(names, name, i + 1)
    }
}

/// The numbers among `names` of those of `list`, from `i` on, that are among them.
pub open spec fn numbers_of(names: Seq<Seq<char>>, list: Seq<Seq<char>>, i: int) -> Seq<usize>
    decreases list.len() - i,
{
    if i < 0 || i >= list.len() {
        seq![]
    } else if number_of(names, list[i], 0) < names.len() {
        seq![number_of(names, list[i], 0) as usize] + numbers_of(names, list, i + 1)
    } else {
        numbers_of(names, list, i + 1)
    }
}

/// The numbers among `names` of the bindings that binding `name` of the rule of an edge
/// refers to. A binding that the edge has itself refers to none.
pub open spec fn arrows(
    scopes: Seq<ScopeView>,
    e: EdgeView,
    names: Seq<Seq<char>>,
    name: Seq<char>,
) -> Seq<usize> {
    if e.bindings.contains_key(name) {
        seq![]
    } else {
        numbers_of(names, expand::references_from(rule_bindings(scopes, e)[name], 0), 0)
    }
}

/// Which bindings of the rule of an edge refer to which. Their numbers are those of their
/// names in order.
pub open spec fn binding_graph(scopes: Seq<ScopeView>, e: EdgeView) -> cycle::Graph {
    let names = sorting::sorted(bound_names(scopes, e));
    Seq::new(names.len(), |k: int| arrows(scopes, e, names, names[k]))
}

/// The names of the bindings of an edge that refer to each other in a circle.
pub open spec fn binding_circle(scopes: Seq<ScopeView>, e: EdgeView) -> Option<Seq<Seq<char>>> {
    let names = sorting::sorted(bound_names(scopes, e));
    match cycle::circle(binding_graph(scopes, e)) {
        Some(c) => Some(c.map_values(|k: usize| names[k as int])),
        None => None,
    }
}

proof fn lemma_number_of(names: Seq<Seq<char>>, name: Seq<char>, i: int)
    requires
        0 <= i <= names.len(),
        forall|k: int| 0 <= k < i ==> #[trigger] names[k] != name,
    ensures
        i <= number_of(names, name, i) <= names.len(),
        number_of(names, name, i) < names.len() ==> names[number_of(names, name, i)] == name,
        names.contains(name) ==> number_of(names, name, i) < names.len(),
    decreases names.len() - i,
{
    if i < names.len() && names[i] != name {
        lemma_number_of(names, name, i + 1);
    }
}

proof fn lemma_numbers_of(names: Seq<Seq<char>>, list: Seq<Seq<char>>, i: int)
    requires
        0 <= i <= list.len(),
        names.len() <= usize::MAX,
    ensures
        forall|j: int|
            0 <= j < numbers_of(names, list, i).len() ==> #[trigger] numbers_of(names, list, i)[j]
                < names.len() && list.contains(names[numbers_of(names, list, i)[j] as int]),
        forall|j: int|
            i <= j < list.len() && names.contains(#[trigger] list[j]) ==> numbers_of(
                names,
                list,
                i,
            ).contains(number_of(names, list[j], 0) as usize),
    decreases list.len() - i,
{
    if i < list.len() {
        lemma_numbers_of(names, list, i + 1);
        lemma_number_of(names, list[i], 0);
        let rest = numbers_of(names, list, i + 1);
        let all = numbers_of(names, list, i);
        let n = number_of(names, list[i], 0);
        if n < names.len() {
            assert forall|j: int| 0 <= j < all.len() implies #[trigger] all[j] < names.len()
                && list.contains(names[all[j] as int]) by {
                if j > 0 {
                    assert(all[j] == rest[j - 1]);
                } else {
                    assert(list[i] == names[n]);
                }
            }
            assert forall|j: int|
                i <= j < list.len() && names.contains(#[trigger] list[j]) implies all.contains(
                number_of(names, list[j], 0) as usize,
            ) by {
                if j == i {
                    assert(all[0] == n as usize);
                } else {
                    let m = number_of(names, list[j], 0) as usize;
                    assert(rest.contains(m));
                    let x = choose|x: int| 0 <= x < rest.len() && rest[x] == m;
                    assert(all[x + 1] == m);
                }
            }
        }
    }
}

pub proof fn lemma_binding_graph(scopes: Seq<ScopeView>, e: EdgeView)
    requires
        sorting::sorted(bound_names(scopes, e)).len() <= usize::MAX,
    ensures
        cycle::is_graph(binding_graph(scopes, e)),
{
    let names = sorting::sorted(bound_names(scopes, e));
    let g = binding_graph(scopes, e);
    assert forall|i: int, j: int| 0 <= i < g.len() && 0 <= j < g[i].len() implies #[trigger] g[i][j]
        < g.len() by {
        lemma_numbers_of(
            names,
            expand::references_from(rule_bindings(scopes, e)[names[i]], 0),
            0,
        );
    }
}

fn find_number(names: &Vec<String>, name: &[char]) -> (r: usize)
    ensures
        r == number_of(text::strings(names@), name@, 0),
        r <= names@.len(),
{
    let ghost all = text::strings(names@);
    let mut k: usize = 0;
    while k < names.len() && !is_text(name, names[k].as_str())
        invariant
            k <= names@.len(),
            all == text::strings(names@),
            number_of(all, name@, 0) == number_of(all, name@, k as int),
        decreases names@.len() - k,
    {
        proof {
            assert(all[k as int] == names@[k as int]@);
        }
        k += 1;
    }
    proof {
        if k < names@.len() {
            assert(all[k as int] == names@[k as int]@);
        }
    }
    k
}

/// The names that a rule binds, but for those of lists of paths, in order.
fn list_names(rule: &Rule) -> (r: Vec<String>)
    ensures
        ({
            let bindings = rule.deep_view().bindings;
            let set = Set::new(
                |name: Seq<char>| bindings.contains_key(name) && !is_list_name(name),
            );
            text::strings(r@) == sorting::sorted(set)
        }),
{
    let ghost bindings = rule.deep_view().bindings;
    let entries: Vec<(&String, &String)> = map_entries(&rule.bindings);
    let mut names: Vec<String> = Vec::new();
    let mut i: usize = 0;
    proof {
        assert(text::strings(names@) =~= seq![]);
    }
    while i < entries.len()
        invariant
            i <= entries@.len(),
            forall|a: int, b: int|
                0 <= a < b < entries@.len() ==> (#[trigger] entries@[a]).0@ != (
                #[trigger] entries@[b]).0@,
            sorting::is_sorted(text::strings(names@)),
            forall|x: Seq<char>| #[trigger]
                text::strings(names@).contains(x) <==> !is_list_name(x) && exists|k: int|
                    0 <= k < i && (#[trigger] entries@[k]).0@ == x,
        decreases entries@.len() - i,
    {
        let key: &String = entries[i].0;
        let ghost before = text::strings(names@);
        proof {
            assert(entries@[i as int].0@ == key@);
            if before.contains(key@) {
                let k = choose|k: int| 0 <= k < i && (#[trigger] entries@[k]).0@ == key@;
                assert(entries@[k].0@ != entries@[i as int].0@);
            }
        }
        let listed: bool = same_str(key.as_str(), "in") || same_str(key.as_str(), "in_newline")
            || same_str(key.as_str(), "out");
        if !listed {
            insert_sorted(&mut names, key);
        }
        proof {
            let after = text::strings(names@);
            assert forall|x: Seq<char>| #[trigger] after.contains(x) <==> !is_list_name(x)
                && exists|k: int| 0 <= k < i + 1 && (#[trigger] entries@[k]).0@ == x by {
                if before.contains(x) {
                    let k = choose|k: int| 0 <= k < i && (#[trigger] entries@[k]).0@ == x;
                    assert(entries@[k].0@ == x);
                }
                if !is_list_name(x) && exists|k: int|
                    0 <= k < i + 1 && (#[trigger] entries@[k]).0@ == x {
                    let k = choose|k: int| 0 <= k < i + 1 && (#[trigger] entries@[k]).0@ == x;
                    if k < i {
                        assert(before.contains(x));
                    }
                }
            }
        }
        i += 1;
    }
    proof {
        let set = Set::new(|name: Seq<char>| bindings.contains_key(name) && !is_list_name(name));
        let list = text::strings(names@);
        assert forall|x: Seq<char>| #[trigger] list.contains(x) <==> set.contains(x) by {
            if list.contains(x) {
                let k = choose|k: int| 0 <= k < entries@.len() && (#[trigger] entries@[k]).0@ == x;
                assert(bindings.contains_key(entries@[k].0@));
            }
        }
        sorting::lemma_sorted_once(list, set);
    }
    names
}

fn collect_arrows(rule: &Rule, edge: &Edge, names: &Vec<String>, k: usize) -> (r: Vec<usize>)
    requires
        k < names@.len(),
        rule.deep_view().bindings.contains_key(names@[k as int]@),
    ensures
        r@ == (if edge.deep_view().bindings.contains_key(names@[k as int]@) {
            seq![]
        } else {
            numbers_of(
                text::strings(names@),
                expand::references_from(rule.deep_view().bindings[names@[k as int]@], 0),
                0,
            )
        }),
{
    let mut r: Vec<usize> = Vec::new();
    let key: &str = names[k].as_str();
    let ghost list = text::strings(names@);
    if map_get(&edge.bindings, key).is_some() {
        return r;
    }
    if let Some(raw) = map_get(&rule.bindings, key) {
        let references: Vec<Vec<char>> = variable_references(chars_of(raw.as_str()).as_slice());
        let ghost all = text::texts(references@);
        let mut i: usize = 0;
        while i < references.len()
            invariant
                i <= references@.len(),
                all == text::texts(references@),
                list == text::strings(names@),
                r@ + numbers_of(list, all, i as int) =~= numbers_of(list, all, 0),
            decreases references@.len() - i,
        {
            proof {
                assert(all[i as int] == references@[i as int]@);
            }
            let number: usize = find_number(names, references[i].as_slice());
            if number < names.len() {
                r.push(number);
            }
            i += 1;
        }
    }
    r
}

/// The names of the bindings of an edge that refer to each other in a circle.
pub fn binding_cycle(manifest: &Manifest, edge: &Edge) -> (r: Option<Vec<String>>)
    ensures
        match r {
            Some(names) => binding_circle(manifest.deep_view().scopes, edge.deep_view()) == Some(
                text::strings(names@),
            ),
            None => binding_circle(manifest.deep_view().scopes, edge.deep_view()) is None,
        },
{
    let ghost scopes = manifest.deep_view().scopes;
    let ghost e = edge.deep_view();
    let rule: &Rule = match manifest.lookup_rule(edge.scope, edge.rule.as_str()) {
        Some(rule) => rule,
        None => {
            proof {
                let none = Seq::<Seq<char>>::empty();
                assert forall|x: Seq<char>| #[trigger] none.contains(x) <==> bound_names(
                    scopes,
                    e,
                ).contains(x) by {}
                sorting::lemma_sorted_once(none, bound_names(scopes, e));
                assert(binding_graph(scopes, e) =~= seq![]);
            }
            return None;
        },
    };
    let names: Vec<String> = list_names(rule);
    let ghost list = text::strings(names@);
    proof {
        let bindings = rule.deep_view().bindings;
        assert(bound_names(scopes, e) =~= Set::new(
            |name: Seq<char>| bindings.contains_key(name) && !is_list_name(name),
        ));
        assert(list == sorting::sorted(bound_names(scopes, e)));
        assert(names@.len() > 0 ==> sorting::sorts(list, bound_names(scopes, e)));
    }
    let mut g: Vec<Vec<usize>> = Vec::new();
    let mut k: usize = 0;
    while k < names.len()
        invariant
            k <= names@.len(),
            scopes == manifest.deep_view().scopes,
            e == edge.deep_view(),
            rule.deep_view().bindings == rule_bindings(scopes, e),
            list == text::strings(names@),
            list == sorting::sorted(bound_names(scopes, e)),
            names@.len() > 0 ==> sorting::sorts(list, bound_names(scopes, e)),
            cycle::graph_of(g@) =~= binding_graph(scopes, e).take(k as int),
        decreases names@.len() - k,
    {
        let ghost before = cycle::graph_of(g@);
        proof {
            assert(list[k as int] == names@[k as int]@);
            assert(list.contains(list[k as int]));
            assert(bound_names(scopes, e).contains(list[k as int]));
        }
        let arrows: Vec<usize> = collect_arrows(rule, edge, &names, k);
        let ghost view = arrows@;
        g.push(arrows);
        proof {
            assert(cycle::graph_of(g@) =~= before.push(view));
        }
        k += 1;
    }
    proof {
        lemma_binding_graph(scopes, e);
        assert(cycle::graph_of(g@) =~= binding_graph(scopes, e));
        cycle::law_found_circle_is_a_circle(binding_graph(scopes, e));
    }
    match find_cycle(&g) {
        Some(c) => {
            let mut told: Vec<String> = Vec::new();
            let mut i: usize = 0;
            proof {
                assert(text::strings(told@) =~= seq![]);
            }
            while i < c.len()
                invariant
                    i <= c@.len(),
                    list == text::strings(names@),
                    forall|j: int| 0 <= j < c@.len() ==> #[trigger] c@[j] < names@.len(),
                    text::strings(told@) =~= c@.map_values(|k: usize| list[k as int]).take(
                        i as int,
                    ),
                decreases c@.len() - i,
            {
                let ghost before = text::strings(told@);
                let name: String = names[c[i]].clone();
                let ghost view = name@;
                told.push(name);
                proof {
                    assert(text::strings(told@) =~= before.push(view));
                    assert(list[c@[i as int] as int] == view);
                }
                i += 1;
            }
            proof {
                assert(text::strings(told@) =~= c@.map_values(|k: usize| list[k as int]));
            }
            Some(told)
        },
        None => None,
    }
}

/// Whether binding `x` of the rule of an edge refers to `y`, and the edge does not bind `x`
/// itself.
pub open spec fn refers(scopes: Seq<ScopeView>, e: EdgeView, x: Seq<char>, y: Seq<char>) -> bool {
    &&& bound_names(scopes, e).contains(x)
    &&& !e.bindings.contains_key(x)
    &&& expand::references_from(rule_bindings(scopes, e)[x], 0).contains(y)
}

/// Whether bindings of the rule of an edge refer to each other, one to the next, from a
/// binding back to it.
pub open spec fn is_round(scopes: Seq<ScopeView>, e: EdgeView, p: Seq<Seq<char>>) -> bool {
    &&& p.len() >= 2
    &&& p[0] == p.last()
    &&& forall|i: int, j: int|
        0 <= i && j == i + 1 && j < p.len() ==> refers(
            scopes,
            e,
            #[trigger] p[i],
            #[trigger] p[j],
        )
}

/// Bindings that refer to each other in a circle are found, and only such. The circle is
/// told from the least of its names, and no other of them comes twice.
pub proof fn law_binding_circles(scopes: Seq<ScopeView>, e: EdgeView)
    requires
        rule_bindings(scopes, e).dom().finite(),
        sorting::sorted(bound_names(scopes, e)).len() <= usize::MAX,
    ensures
        binding_circle(scopes, e) is Some <==> exists|p: Seq<Seq<char>>| is_round(scopes, e, p),
        binding_circle(scopes, e) matches Some(c) ==> {
            &&& is_round(scopes, e, c)
            &&& c.drop_last().no_duplicates()
            &&& forall|i: int|
                0 <= i < c.len() ==> c[0] == #[trigger] c[i] || sorting::is_before(c[0], c[i])
        },
{
    let set = bound_names(scopes, e);
    let names = sorting::sorted(set);
    let g = binding_graph(scopes, e);
    assert(set.subset_of(rule_bindings(scopes, e).dom()));
    vstd::set_lib::lemma_len_subset(set, rule_bindings(scopes, e).dom());
    sorting::lemma_finite_set_is_sorted(set);
    lemma_binding_graph(scopes, e);
    cycle::law_found_circle_is_a_circle(g);
    if let Some(c) = cycle::circle(g) {
        let told = c.map_values(|k: usize| names[k as int]);
        assert forall|i: int, j: int| 0 <= i && j == i + 1 && j < told.len() implies refers(
            scopes,
            e,
            #[trigger] told[i],
            #[trigger] told[j],
        ) by {
            assert(g[c[i] as int].contains(c[j]));
            let at = choose|at: int| 0 <= at < g[c[i] as int].len() && g[c[i] as int][at] == c[j];
            lemma_numbers_of(
                names,
                expand::references_from(rule_bindings(scopes, e)[told[i]], 0),
                0,
            );
            assert(names.contains(told[i]));
        }
        assert(is_round(scopes, e, told));
        let short = told.drop_last();
        assert forall|a: int, b: int|
            0 <= a < short.len() && 0 <= b < short.len() && a != b implies short[a] != short[b] by {
            assert(c.drop_last()[a] == c[a] && c.drop_last()[b] == c[b]);
            assert(c[a] < g.len() && c[b] < g.len());
            sorting::lemma_one_is_before(names[c[a] as int], names[c[b] as int]);
        }
        assert forall|i: int| 0 <= i < told.len() implies told[0] == #[trigger] told[i]
            || sorting::is_before(told[0], told[i]) by {
            assert(c[0] <= c[i] && c[i] < g.len());
        }
    } else {
        assert forall|p: Seq<Seq<char>>| !is_round(scopes, e, p) by {
            if is_round(scopes, e, p) {
                lemma_round_is_numbered(scopes, e, p);
                let q = p.map_values(|name: Seq<char>| number_of(names, name, 0) as usize);
                cycle::law_no_circle_is_missed(g, q);
            }
        }
    }
}

pub proof fn lemma_numbered_circles(scopes: Seq<ScopeView>, e: EdgeView)
    requires
        sorting::sorted(bound_names(scopes, e)).len() <= usize::MAX,
    ensures
        binding_circle(scopes, e) is Some <==> exists|p: Seq<usize>|
            cycle::is_circle(binding_graph(scopes, e), p),
{
    let g = binding_graph(scopes, e);
    lemma_binding_graph(scopes, e);
    cycle::law_found_circle_is_a_circle(g);
    if binding_circle(scopes, e) is None {
        assert forall|p: Seq<usize>| !cycle::is_circle(g, p) by {
            cycle::law_no_circle_is_missed(g, p);
        }
    }
}

/// A rule that binds only what rules may bind binds few names.
pub proof fn lemma_few_names(scopes: Seq<ScopeView>, e: EdgeView)
    requires
        forall|name: Seq<char>| #[trigger]
            rule_bindings(scopes, e).contains_key(name) ==> is_rule_key(name),
    ensures
        sorting::sorted(bound_names(scopes, e)).len() <= 11,
{
    let set = bound_names(scopes, e);
    let names = sorting::sorted(set);
    if names.len() > 0 {
        let keys = names.map_values(|name: Seq<char>| key_from(name, 0) as usize);
        assert(sorting::sorts(names, set));
        assert forall|i: int| 0 <= i < names.len() implies 0 <= key_from(#[trigger] names[i], 0)
            < 11 && rule_key(key_from(names[i], 0)) == names[i] by {
            assert(names.contains(names[i]));
            assert(set.contains(names[i]));
            lemma_key_from(names[i], 0);
        }
        assert forall|i: int, j: int|
            0 <= i < keys.len() && 0 <= j < keys.len() && i != j implies keys[i] != keys[j] by {
            assert(0 <= key_from(names[i], 0) < 11);
            assert(0 <= key_from(names[j], 0) < 11);
            if i < j {
                assert(sorting::is_before(names[i], names[j]));
            } else {
                assert(sorting::is_before(names[j], names[i]));
            }
            sorting::lemma_one_is_before(names[i], names[j]);
        }
        assert forall|i: int| 0 <= i < keys.len() implies #[trigger] keys[i] < 11 by {
            assert(0 <= key_from(names[i], 0) < 11);
        }
        cycle::lemma_pigeonhole(keys, 11);
    }
}

proof fn lemma_key_from(name: Seq<char>, k: int)
    requires
        0 <= k <= 11,
    ensures
        k <= key_from(name, k) <= 11,
        key_from(name, k) < 11 ==> rule_key(key_from(name, k)) == name,
    decreases 11 - k,
{
    if k < 11 && name != rule_key(k) {
        lemma_key_from(name, k + 1);
    }
}

proof fn lemma_round_is_numbered(scopes: Seq<ScopeView>, e: EdgeView, p: Seq<Seq<char>>)
    requires
        is_round(scopes, e, p),
        sorting::sorts(
            sorting::sorted(bound_names(scopes, e)),
            bound_names(scopes, e),
        ),
        sorting::sorted(bound_names(scopes, e)).len() <= usize::MAX,
    ensures
        ({
            let names = sorting::sorted(bound_names(scopes, e));
            cycle::is_circle(
                binding_graph(scopes, e),
                p.map_values(|name: Seq<char>| number_of(names, name, 0) as usize),
            )
        }),
{
    let names = sorting::sorted(bound_names(scopes, e));
    let g = binding_graph(scopes, e);
    let q = p.map_values(|name: Seq<char>| number_of(names, name, 0) as usize);
    assert forall|i: int| 0 <= i < p.len() implies names.contains(#[trigger] p[i]) && q[i]
        < names.len() && names[q[i] as int] == p[i] by {
        if i < p.len() - 1 {
            assert(refers(scopes, e, p[i], p[i + 1]));
        } else {
            assert(refers(scopes, e, p[0], p[1]));
        }
        assert(names.contains(p[i]));
        lemma_number_of(names, p[i], 0);
    }
    assert forall|i: int, j: int| 0 <= i && j == i + 1 && j < q.len() implies g[(
    #[trigger] q[i]) as int].contains(#[trigger] q[j]) by {
        let list = expand::references_from(rule_bindings(scopes, e)[p[i]], 0);
        assert(names.contains(p[i]) && names.contains(p[j]));
        assert(refers(scopes, e, p[i], p[j]));
        lemma_numbers_of(names, list, 0);
        let at = choose|at: int| 0 <= at < list.len() && list[at] == p[j];
        assert(names.contains(list[at]));
        assert(numbers_of(names, list, 0).contains(q[j]));
        assert(g[q[i] as int] == numbers_of(names, list, 0));
    }
    assert forall|i: int| 0 <= i < q.len() implies #[trigger] q[i] < g.len() by {
        assert(names.contains(p[i]));
    }
}

} // verus!
