//! What can be relied on where the declarations of a manifest are read: what variables stand
//! for, and what rules, pools, edges and lines leave behind.
use crate::binding;
use crate::binding::PathListsView;
use crate::expand;
use crate::expand::Dollar;
use crate::expand::Meaning;
use crate::finalize;
use crate::finalize::ParentView;
use crate::finalize::StateView;
use crate::manifest;
use crate::manifest::EdgeView;
use crate::manifest::ManifestView;
use crate::manifest::PoolView;
use crate::manifest::RuleView;
use crate::manifest::ScopeView;
use crate::manifest::Settings;
use crate::manifest_laws;
use crate::paths;
use crate::render;
use crate::statement;
use crate::statement::FileView;
use crate::statement::FlowView;
use crate::text;
use crate::text::Class;
use vstd::prelude::*;

verus! {

/// A part of a text that is expanded: text that stands for itself, and names with and without
/// braces.
pub enum Part {
    Text(Seq<char>),
    Braced(Seq<char>),
    Bare(Seq<char>),
}

/// How a part is written.
pub open spec fn part_text(part: Part) -> Seq<char> {
    match part {
        Part::Text(s) => expand::doubled(s),
        Part::Braced(name) => seq!['$', '{'] + name + seq!['}'],
        Part::Bare(name) => seq!['$'] + name,
    }
}

/// What a part stands for.
pub open spec fn part_value(part: Part, meaning: Meaning) -> Seq<char> {
    match part {
        Part::Text(s) => s,
        Part::Braced(name) | Part::Bare(name) => match meaning(name) {
            Some(value) => value,
            None => seq![],
        },
    }
}

/// Parts from `k` on.
pub open spec fn parts_text(parts: Seq<Part>, k: int) -> Seq<char>
    decreases parts.len() - k,
{
    if k < 0 || k >= parts.len() {
        seq![]
    } else {
        part_text(parts[k]) + parts_text(parts, k + 1)
    }
}

/// What parts from `k` on stand for, one behind the other.
pub open spec fn parts_value(parts: Seq<Part>, k: int, meaning: Meaning) -> Seq<char>
    decreases parts.len() - k,
{
    if k < 0 || k >= parts.len() {
        seq![]
    } else {
        part_value(parts[k], meaning) + parts_value(parts, k + 1, meaning)
    }
}

/// Whether a character may stand in a name without braces.
pub open spec fn is_name_char(c: char) -> bool {
    ('a' <= c && c <= 'z') || ('A' <= c && c <= 'Z') || ('0' <= c && c <= '9') || c == '_' || c
        == '-'
}

/// Whether parts can be told apart: names with braces have no closing brace, and names without
/// are not empty and end before a character that no name has.
pub open spec fn are_parts(parts: Seq<Part>) -> bool {
    &&& forall|k: int|
        0 <= k < parts.len() ==> (#[trigger] parts[k] matches Part::Braced(name)
            ==> !name.contains('}'))
    &&& forall|k: int|
        0 <= k < parts.len() ==> (#[trigger] parts[k] matches Part::Bare(name) ==> name.len() > 0
            && (forall|i: int| 0 <= i < name.len() ==> is_name_char(#[trigger] name[i])) && (
        parts_text(parts, k + 1).len() > 0 ==> !is_name_char(parts_text(parts, k + 1)[0])))
}

proof fn lemma_rest(s: Seq<char>, i: int, a: Seq<char>, b: Seq<char>)
    requires
        0 <= i <= s.len(),
        s.skip(i) == a + b,
    ensures
        i + a.len() <= s.len(),
        s.skip(i + a.len()) == b,
        s.subrange(i, i + a.len()) == a,
        forall|z: int| 0 <= z < a.len() ==> s[i + z] == #[trigger] a[z],
        i + a.len() < s.len() ==> s[i + a.len()] == b[0],
        b.len() == s.len() - i - a.len(),
{
    let t = s.skip(i);
    assert(t.len() == s.len() - i);
    assert((a + b).len() == a.len() + b.len());
    let rest = s.skip(i + a.len());
    assert forall|z: int| 0 <= z < b.len() implies #[trigger] rest[z] == b[z] by {
        assert(t[z + a.len()] == (a + b)[z + a.len()]);
    }
    assert(rest =~= b);
    assert forall|z: int| 0 <= z < a.len() implies s[i + z] == #[trigger] a[z] by {
        assert(t[z] == (a + b)[z]);
    }
    let front = s.subrange(i, i + a.len());
    assert forall|z: int| 0 <= z < a.len() implies #[trigger] front[z] == a[z] by {
        assert(s[i + z] == a[z]);
    }
    assert(front =~= a);
    if i + a.len() < s.len() {
        assert(rest[0] == s[i + a.len()]);
    }
}

proof fn lemma_text_expands(
    s: Seq<char>,
    i: int,
    plain: Seq<char>,
    rest: Seq<char>,
    meaning: Meaning,
)
    requires
        0 <= i <= s.len(),
        s.skip(i) == expand::doubled(plain) + rest,
    ensures
        expand::expanded_from(s, i, meaning) == plain + expand::expanded_from(
            s,
            i + expand::doubled(plain).len(),
            meaning,
        ),
    decreases plain.len(),
{
    let all = expand::doubled(plain);
    if plain.len() > 0 {
        let head = if plain[0] == '$' {
            seq!['$', '$']
        } else {
            seq![plain[0]]
        };
        let less = plain.skip(1);
        let tail = expand::doubled(less) + rest;
        assert(s.skip(i) =~= head + tail);
        lemma_rest(s, i, head, tail);
        assert(s[i + 0] == head[0]);
        if plain[0] == '$' {
            assert(s[i + 1] == head[1]);
        }
        lemma_text_expands(s, i + head.len(), less, rest, meaning);
        assert(all.len() == head.len() + expand::doubled(less).len());
        assert(expand::expanded_from(s, i, meaning) =~= seq![plain[0]] + expand::expanded_from(
            s,
            i + head.len(),
            meaning,
        ));
        assert(plain =~= seq![plain[0]] + less);
        assert(expand::expanded_from(s, i, meaning) =~= plain + expand::expanded_from(
            s,
            i + all.len(),
            meaning,
        ));
    } else {
        assert(plain + expand::expanded_from(s, i, meaning) =~= expand::expanded_from(
            s,
            i,
            meaning,
        ));
    }
}

/// The name of a part.
pub open spec fn part_name(part: Part) -> Option<Seq<char>> {
    match part {
        Part::Text(_) => None,
        Part::Braced(name) | Part::Bare(name) => Some(name),
    }
}

proof fn lemma_name_is_read(s: Seq<char>, i: int, parts: Seq<Part>, k: int)
    requires
        0 <= i <= s.len() <= usize::MAX,
        0 <= k < parts.len(),
        are_parts(parts),
        s.skip(i) == parts_text(parts, k),
        parts[k] !is Text,
    ensures
        i < s.len(),
        s[i] == '$',
        expand::dollar(s, i).1 == i + part_text(parts[k]).len() <= s.len(),
        expand::dollar(s, i).0 matches Dollar::Var(a, b) && Some(
            s.subrange(a as int, b as int),
        ) == part_name(parts[k]),
{
    let part = parts[k];
    let head = part_text(part);
    let tail = parts_text(parts, k + 1);
    lemma_rest(s, i, head, tail);
    let next = i + head.len();
    match part {
        Part::Text(_) => {},
        Part::Braced(name) => {
            assert(parts[k] == part);
            assert(s[i + 0] == head[0]);
            assert(s[i + 1] == head[1]);
            let end = i + 2 + name.len();
            assert(s[i + (2 + name.len())] == head[2 + name.len() as int]);
            let found = text::first_in(s, i + 2, Class::Is('}'));
            text::lemma_first_in(s, i + 2, Class::Is('}'));
            if found < end {
                assert(s[i + (found - i)] == head[found - i]);
                assert(head[found - i] == name[found - i - 2]);
                assert(name.contains(name[found - i - 2]));
            }
            if found > end {
                assert(!text::belongs(s[end], Class::Is('}')));
            }
            assert(found == end);
            assert(s.subrange(i + 2, end) =~= name) by {
                let inner = s.subrange(i + 2, end);
                assert forall|z: int| 0 <= z < name.len() implies #[trigger] inner[z]
                    == name[z] by {
                    assert(s[i + (z + 2)] == head[z + 2]);
                }
            }
        },
        Part::Bare(name) => {
            assert(parts[k] == part);
            assert(s[i + 0] == head[0]);
            assert(head[1] == name[0]);
            assert(s[i + 1] == head[1]);
            assert(is_name_char(name[0]));
            let found = text::first_not_in(s, i + 1, Class::Name);
            text::lemma_first_not_in(s, i + 1, Class::Name);
            if found < next {
                assert(s[i + (found - i)] == head[found - i]);
                assert(head[found - i] == name[found - i - 1]);
                assert(is_name_char(name[found - i - 1]));
            }
            if found > next {
                assert(text::belongs(s[next], Class::Name));
                assert(is_name_char(tail[0]));
            }
            assert(found == next);
            assert(s.subrange(i + 1, next) =~= name) by {
                let inner = s.subrange(i + 1, next);
                assert forall|z: int| 0 <= z < name.len() implies #[trigger] inner[z]
                    == name[z] by {
                    assert(s[i + (z + 1)] == head[z + 1]);
                }
            }
        },
    }
}

proof fn lemma_parts_expand(s: Seq<char>, i: int, parts: Seq<Part>, k: int, meaning: Meaning)
    requires
        0 <= i <= s.len() <= usize::MAX,
        0 <= k <= parts.len(),
        are_parts(parts),
        s.skip(i) == parts_text(parts, k),
    ensures
        expand::expanded_from(s, i, meaning) == parts_value(parts, k, meaning),
    decreases parts.len() - k,
{
    if k < parts.len() {
        let part = parts[k];
        let head = part_text(part);
        let tail = parts_text(parts, k + 1);
        lemma_rest(s, i, head, tail);
        let next = i + head.len();
        lemma_parts_expand(s, next, parts, k + 1, meaning);
        match part {
            Part::Text(plain) => {
                lemma_text_expands(s, i, plain, tail, meaning);
            },
            Part::Braced(_) | Part::Bare(_) => {
                lemma_name_is_read(s, i, parts, k);
            },
        }
    } else {
        assert(s.skip(i).len() == s.len() - i);
    }
}

/// Text and references to variables expand in order: text stands for itself where its dollar
/// signs are doubled, and a name stands for its value, or for nothing where it has none.
pub proof fn law_text_and_names_expand_in_order(parts: Seq<Part>, meaning: Meaning)
    requires
        are_parts(parts),
        parts_text(parts, 0).len() <= usize::MAX,
    ensures
        expand::expanded(parts_text(parts, 0), meaning) == parts_value(parts, 0, meaning),
{
    let s = parts_text(parts, 0);
    assert(s.skip(0) =~= s);
    lemma_parts_expand(s, 0, parts, 0, meaning);
}

/// What names stand for in a binding of a rule.
pub open spec fn values_within(
    scopes: Seq<ScopeView>,
    e: EdgeView,
    lists: PathListsView,
) -> Meaning {
    |nested: Seq<char>| Some(binding::valued(scopes, e, lists, nested, 1))
}

/// What a name stands for in a rule: the lists of an edge's paths come first, then the edge's own
/// bindings, then the rule's, with the names in it replaced by what they stand for, and then the
/// variables that the edge sees. What none of them has is empty.
pub proof fn law_bindings_come_in_order(
    scopes: Seq<ScopeView>,
    e: EdgeView,
    lists: PathListsView,
    name: Seq<char>,
    parts: Seq<Part>,
)
    ensures
        ({
            let value = binding::valued(scopes, e, lists, name, 0);
            let rule = manifest::rule_in(scopes, e.scope as int, e.rule);
            let is_list = name == "in"@ || name == "in_newline"@ || name == "out"@;
            let own = e.bindings.contains_key(name);
            let by_rule = rule is Some && rule->Some_0.bindings.contains_key(name);
            let seen = manifest::variable_in(scopes, e.scope as int, name);
            &&& name == "in"@ ==> value == lists.inputs
            &&& name == "in_newline"@ ==> value == lists.input_lines
            &&& name == "out"@ ==> value == lists.outputs
            &&& !is_list && own ==> value == e.bindings[name]
            &&& !is_list && !own && by_rule && rule->Some_0.bindings[name] == parts_text(parts, 0)
                && are_parts(parts) && parts_text(parts, 0).len() <= usize::MAX ==> value
                == parts_value(parts, 0, values_within(scopes, e, lists))
            &&& !is_list && !own && !by_rule ==> value == (match seen {
                Some(value) => value,
                None => Seq::<char>::empty(),
            })
        }),
{
    reveal_strlit("in");
    reveal_strlit("in_newline");
    reveal_strlit("out");
    assert("in"@.len() == 2 && "in_newline"@.len() == 10 && "out"@.len() == 3);
    if are_parts(parts) && parts_text(parts, 0).len() <= usize::MAX {
        law_text_and_names_expand_in_order(parts, binding::values_below(scopes, e, lists, 0));
        assert(binding::values_below(scopes, e, lists, 0) =~= values_within(scopes, e, lists));
    }
}

/// Paths with a separator between them.
pub open spec fn in_a_row(list: Seq<Seq<char>>, separator: char) -> Seq<char>
    decreases list.len(),
{
    if list.len() == 0 {
        seq![]
    } else if list.len() == 1 {
        list[0]
    } else {
        in_a_row(list.drop_last(), separator) + seq![separator] + list.last()
    }
}

proof fn lemma_in_a_row(list: Seq<Seq<char>>, separator: char, n: int)
    requires
        0 <= n <= list.len(),
    ensures
        binding::joined(list, seq![], separator, n) == in_a_row(list.take(n), separator),
    decreases n,
{
    let few = list.take(n);
    if n > 0 {
        assert(binding::written(list, seq![], n - 1) == list[n - 1]) by {
            paths::law_no_bits_keep_slashes(list[n - 1]);
        }
        if n > 1 {
            lemma_in_a_row(list, separator, n - 1);
            assert(few.drop_last() =~= list.take(n - 1));
            let before = in_a_row(few.drop_last(), separator);
            assert(before.push(separator) + list[n - 1] =~= before + seq![separator] + few.last());
        }
    }
}

/// The lists that an edge gives to its rule hold all its explicit inputs and outputs, and no
/// others, in order, with spaces or line feeds between them.
pub proof fn law_lists_hold_explicit_paths(e: EdgeView)
    requires
        e.slash_bits.len() == 0,
    ensures
        render::lists_of(e, None) == (PathListsView {
            inputs: in_a_row(e.explicit_inputs, ' '),
            input_lines: in_a_row(e.explicit_inputs, '\n'),
            outputs: in_a_row(e.explicit_outputs, ' '),
        }),
{
    render::law_unescaped_lists_are_those_of_the_bindings(e);
    assert(binding::input_bits(e) =~= seq![]);
    assert(binding::output_bits(e) =~= seq![]);
    let n = e.explicit_inputs.len() as int;
    let m = e.explicit_outputs.len() as int;
    lemma_in_a_row(e.explicit_inputs, ' ', n);
    lemma_in_a_row(e.explicit_inputs, '\n', n);
    lemma_in_a_row(e.explicit_outputs, ' ', m);
    assert(e.explicit_inputs.take(n) =~= e.explicit_inputs);
    assert(e.explicit_outputs.take(m) =~= e.explicit_outputs);
}

/// What a name stands for in the paths of an edge: its own bindings come before what it sees.
pub open spec fn meaning_in(scopes: Seq<ScopeView>, e: EdgeView) -> Meaning {
    |name: Seq<char>|
        if e.bindings.contains_key(name) {
            Some(e.bindings[name])
        } else {
            manifest::variable_in(scopes, e.scope as int, name)
        }
}

/// The paths that the words of an edge name: those with dollar signs are expanded and made
/// canonical.
pub open spec fn paths_named(
    scopes: Seq<ScopeView>,
    e: EdgeView,
    words: Seq<Seq<char>>,
    windows: bool,
) -> Seq<Seq<char>> {
    words.map_values(
        |word: Seq<char>|
            if word.contains('$') {
                paths::canonical(expand::expanded(word, meaning_in(scopes, e)), windows).0
            } else {
                word
            },
    )
}

proof fn lemma_paths_named(
    scopes: Seq<ScopeView>,
    e: EdgeView,
    words: Seq<Seq<char>>,
    windows: bool,
)
    ensures
        finalize::word_paths(scopes, e, windows, words) == paths_named(scopes, e, words, windows),
{
    assert(finalize::in_edge(scopes, e) =~= meaning_in(scopes, e));
    assert(finalize::word_paths(scopes, e, windows, words) =~= paths_named(
        scopes,
        e,
        words,
        windows,
    ));
}

/// An edge that is declared stands behind all others, with the paths that its words name in
/// their lists, and with its rule and bindings; nothing else of the manifest changes.
pub proof fn law_declared_edge_is_kept(
    st: StateView,
    scope: int,
    e: EdgeView,
    bits: Seq<u64>,
    windows: bool,
)
    ensures
        finalize::finalized(st, scope, ParentView::Edge(e, bits), windows) matches Ok(next) ==> {
            let m = st.manifest;
            let f = next.manifest.edges.last();
            &&& next.manifest == (ManifestView { edges: m.edges.push(f), ..m })
            &&& f.explicit_outputs == paths_named(m.scopes, e, e.explicit_outputs, windows)
            &&& f.implicit_outputs == paths_named(m.scopes, e, e.implicit_outputs, windows)
            &&& f.explicit_inputs == paths_named(m.scopes, e, e.explicit_inputs, windows)
            &&& f.implicit_inputs == paths_named(m.scopes, e, e.implicit_inputs, windows)
            &&& f.order_only_inputs == paths_named(m.scopes, e, e.order_only_inputs, windows)
            &&& f.validations == paths_named(m.scopes, e, e.validations, windows)
            &&& f.rule == e.rule
            &&& f.bindings == e.bindings
            &&& f.source == e.source
            &&& f.line == e.line
            &&& f.scope == e.scope
        },
{
    reveal(finalize::finalized);
    let scopes = st.manifest.scopes;
    lemma_paths_named(scopes, e, e.explicit_outputs, windows);
    lemma_paths_named(scopes, e, e.implicit_outputs, windows);
    lemma_paths_named(scopes, e, e.explicit_inputs, windows);
    lemma_paths_named(scopes, e, e.implicit_inputs, windows);
    lemma_paths_named(scopes, e, e.order_only_inputs, windows);
    lemma_paths_named(scopes, e, e.validations, windows);
}

/// Whether a rule binds a name to something.
pub open spec fn says(rule: RuleView, name: Seq<char>) -> bool {
    rule.bindings.contains_key(name) && rule.bindings[name] != Seq::<char>::empty()
}

/// A rule is declared exactly where it has a command, and a response file exactly where it has
/// contents for one. Its scope has it then, as it is written; nothing else of the manifest
/// changes.
pub proof fn law_declared_rule_is_kept(
    st: StateView,
    scope: int,
    rule: RuleView,
    windows: bool,
)
    requires
        0 <= scope < st.manifest.scopes.len(),
    ensures
        ({
            let r = finalize::finalized(st, scope, ParentView::Rule(rule), windows);
            let m = st.manifest;
            &&& r is Ok <==> says(rule, "command"@) && (says(rule, "rspfile"@) <==> says(
                rule,
                "rspfile_content"@,
            ))
            &&& r matches Ok(next) ==> {
                let s = next.manifest.scopes;
                &&& next.manifest == (ManifestView { scopes: s, ..m })
                &&& next.registry == st.registry
                &&& s.len() == m.scopes.len()
                &&& s[scope].rules == m.scopes[scope].rules.insert(rule.name, rule)
                &&& s[scope].variables == m.scopes[scope].variables
                &&& s[scope].parent == m.scopes[scope].parent
                &&& forall|k: int| 0 <= k < s.len() && k != scope ==> #[trigger] s[k] == m.scopes[k]
            }
        }),
{
    reveal(finalize::finalized);
    assert forall|name: Seq<char>| #[trigger] says(rule, name) <==> finalize::binds(
        rule,
        name,
    ) by {
        if rule.bindings.contains_key(name) && rule.bindings[name].len() == 0 {
            assert(rule.bindings[name] =~= Seq::<char>::empty());
        }
    }
    assert(says(rule, "command"@) <==> finalize::binds(rule, "command"@));
    assert(says(rule, "rspfile"@) <==> finalize::binds(rule, "rspfile"@));
    assert(says(rule, "rspfile_content"@) <==> finalize::binds(rule, "rspfile_content"@));
}

/// A pool is declared exactly where its depth is, and the manifest has it then.
pub proof fn law_declared_pool_is_kept(st: StateView, scope: int, pool: PoolView, windows: bool)
    ensures
        ({
            let r = finalize::finalized(st, scope, ParentView::Pool(pool), windows);
            let m = st.manifest;
            &&& r is Ok <==> pool.depth_specified
            &&& r matches Ok(next) ==> next.manifest == (ManifestView {
                pools: m.pools.insert(pool.name, pool),
                ..m
            })
        }),
{
    reveal(finalize::finalized);
}

/// What a line below a declaration binds: a rule takes the value as it is written, an edge takes
/// what it expands to where the line stands.
pub proof fn law_bindings_of_declarations(
    settings: Settings,
    file: FileView,
    st: StateView,
    line: usize,
    raw: Seq<char>,
    key: Seq<char>,
    value: Seq<char>,
    rule: RuleView,
    e: EdgeView,
    bits: Seq<u64>,
)
    ensures
        statement::bound(settings, file, st, ParentView::Rule(rule), line, raw, key, value) matches
            FlowView::Next(next, parent) ==> parent == ParentView::Rule(
            RuleView { bindings: rule.bindings.insert(key, value), ..rule },
        ) && next.manifest.scopes == st.manifest.scopes && next.manifest.edges
            == st.manifest.edges,
        statement::bound(settings, file, st, ParentView::Edge(e, bits), line, raw, key, value)
            matches FlowView::Next(next, parent) && parent == ParentView::Edge(
            EdgeView {
                bindings: e.bindings.insert(
                    key,
                    expand::expanded(
                        value,
                        |name: Seq<char>| manifest::variable_in(
                            st.manifest.scopes,
                            file.scope,
                            name,
                        ),
                    ),
                ),
                ..e
            },
            bits,
        ) && next.manifest.scopes == st.manifest.scopes && next.manifest.edges
            == st.manifest.edges,
{
    assert(finalize::in_scope(st.manifest.scopes, file.scope) =~= (|name: Seq<char>|
        manifest::variable_in(st.manifest.scopes, file.scope, name)));
}

/// A variable has, in the scope of its file, the value that its line expands to. Nothing else
/// that scopes hold changes.
pub proof fn law_declared_variable_is_kept(
    file: FileView,
    st: StateView,
    key: Seq<char>,
    value: Seq<char>,
)
    requires
        0 <= file.scope < st.manifest.scopes.len(),
    ensures
        statement::variable_flow(file, st, key, value) matches FlowView::Next(next, parent)
            && parent == ParentView::Nothing && ({
            let before = st.manifest.scopes;
            let s = next.manifest.scopes;
            let expanded = expand::expanded(
                value,
                |name: Seq<char>| manifest::variable_in(before, file.scope, name),
            );
            &&& manifest_laws::only_changes(before, s, file.scope)
            &&& s[file.scope].variables == before[file.scope].variables.insert(key, expanded)
            &&& s[file.scope].rules == before[file.scope].rules
            &&& s[file.scope].parent == before[file.scope].parent
            &&& next.manifest.edges == st.manifest.edges
            &&& next.manifest.pools == st.manifest.pools
            &&& next.manifest.defaults == st.manifest.defaults
        }),
{
    assert(finalize::in_scope(st.manifest.scopes, file.scope) =~= (|name: Seq<char>|
        manifest::variable_in(st.manifest.scopes, file.scope, name)));
}

/// A line with a name, an equals sign and a value binds the name to the value, with whatever
/// white space around the equals sign.
pub proof fn law_binding_is_read_back(
    name: Seq<char>,
    before: Seq<char>,
    after: Seq<char>,
    value: Seq<char>,
)
    requires
        name.len() > 0,
        forall|i: int|
            0 <= i < name.len() ==> is_name_char(#[trigger] name[i]) || name[i] == '.',
        forall|i: int| 0 <= i < before.len() ==> text::is_space(#[trigger] before[i]),
        forall|i: int| 0 <= i < after.len() ==> text::is_space(#[trigger] after[i]),
        value.len() > 0 ==> !text::is_space(value[0]),
    ensures
        statement::binding_of(name + before + seq!['='] + after + value) == Some((name, value)),
{
    let line = name + before + seq!['='] + after + value;
    let at = (name.len() + before.len()) as int;
    let equals = text::first_in(line, 0, Class::Is('='));
    text::lemma_first_in(line, 0, Class::Is('='));
    assert(line[at] == '=');
    if equals < at {
        assert(line[equals] == '=');
        if equals < name.len() {
            assert(line[equals] == name[equals]);
            assert(is_name_char(name[equals]) || name[equals] == '.');
        } else {
            assert(line[equals] == before[equals - name.len()]);
            assert(text::is_space(before[equals - name.len()]));
        }
    }
    if equals > at {
        assert(!text::belongs(line[at], Class::Is('=')));
    }
    assert(equals == at);
    assert(line.take(equals) =~= name + before);
    assert(is_name_char(name[0]) || name[0] == '.');
    assert(text::first_not_in(name + before, 0, Class::Space) == 0) by {
        assert((name + before)[0] == name[0]);
        assert(!text::belongs(name[0], Class::Space));
    }
    assert((name + before).skip(0) =~= name + before);
    lemma_trimmed_end(name, before);
    assert(line.skip(equals + 1) =~= after + value);
    lemma_trimmed_start(after, value);
    assert(expand::is_name(name)) by {
        assert forall|i: int| 0 <= i < name.len() implies text::belongs(
            #[trigger] name[i],
            Class::Dotted,
        ) by {
            assert(is_name_char(name[i]) || name[i] == '.');
        }
    }
}

proof fn lemma_trimmed_end(name: Seq<char>, blanks: Seq<char>)
    requires
        name.len() > 0,
        is_name_char(name.last()) || name.last() == '.',
        forall|i: int| 0 <= i < blanks.len() ==> text::is_space(#[trigger] blanks[i]),
    ensures
        text::trimmed_end(name + blanks) == name,
    decreases blanks.len(),
{
    let s = name + blanks;
    if blanks.len() > 0 {
        assert(s.last() == blanks.last());
        assert(text::is_space(blanks[blanks.len() - 1]));
        let less = blanks.drop_last();
        assert forall|i: int| 0 <= i < less.len() implies text::is_space(#[trigger] less[i]) by {
            assert(less[i] == blanks[i]);
        }
        assert(s.drop_last() =~= name + less);
        lemma_trimmed_end(name, less);
    } else {
        assert(s =~= name);
    }
}

proof fn lemma_trimmed_start(blanks: Seq<char>, value: Seq<char>)
    requires
        forall|i: int| 0 <= i < blanks.len() ==> text::is_space(#[trigger] blanks[i]),
        value.len() > 0 ==> !text::is_space(value[0]),
    ensures
        text::trimmed_start(blanks + value) == value,
{
    let s = blanks + value;
    let n = text::first_not_in(s, 0, Class::Space);
    text::lemma_first_not_in(s, 0, Class::Space);
    if n < blanks.len() {
        assert(s[n] == blanks[n]);
        assert(text::is_space(blanks[n]));
    }
    if n > blanks.len() {
        assert(text::belongs(s[blanks.len() as int], Class::Space));
        assert(s[blanks.len() as int] == value[0]);
    }
    assert(s.skip(n) =~= value);
}

/// The names of parts from `k` on, in their order.
pub open spec fn part_names(parts: Seq<Part>, k: int) -> Seq<Seq<char>>
    decreases parts.len() - k,
{
    if k < 0 || k >= parts.len() {
        seq![]
    } else {
        match part_name(parts[k]) {
            Some(name) => seq![name] + part_names(parts, k + 1),
            None => part_names(parts, k + 1),
        }
    }
}

proof fn lemma_text_refers_to_nothing(s: Seq<char>, i: int, plain: Seq<char>, rest: Seq<char>)
    requires
        0 <= i <= s.len(),
        s.skip(i) == expand::doubled(plain) + rest,
    ensures
        expand::references_from(s, i) == expand::references_from(
            s,
            i + expand::doubled(plain).len(),
        ),
    decreases plain.len(),
{
    if plain.len() > 0 {
        let head = if plain[0] == '$' {
            seq!['$', '$']
        } else {
            seq![plain[0]]
        };
        let less = plain.skip(1);
        let tail = expand::doubled(less) + rest;
        assert(s.skip(i) =~= head + tail);
        lemma_rest(s, i, head, tail);
        assert(s[i + 0] == head[0]);
        if plain[0] == '$' {
            assert(s[i + 1] == head[1]);
        }
        lemma_text_refers_to_nothing(s, i + head.len(), less, rest);
        assert(expand::doubled(plain).len() == head.len() + expand::doubled(less).len());
    }
}

proof fn lemma_parts_refer(s: Seq<char>, i: int, parts: Seq<Part>, k: int)
    requires
        0 <= i <= s.len() <= usize::MAX,
        0 <= k <= parts.len(),
        are_parts(parts),
        s.skip(i) == parts_text(parts, k),
    ensures
        expand::references_from(s, i) == part_names(parts, k),
    decreases parts.len() - k,
{
    if k < parts.len() {
        let head = part_text(parts[k]);
        let tail = parts_text(parts, k + 1);
        lemma_rest(s, i, head, tail);
        lemma_parts_refer(s, i + head.len(), parts, k + 1);
        if let Part::Text(plain) = parts[k] {
            lemma_text_refers_to_nothing(s, i, plain, tail);
        } else {
            lemma_name_is_read(s, i, parts, k);
        }
    } else {
        assert(s.skip(i).len() == s.len() - i);
    }
}

/// A text refers to the variables that it names, in their order, with and without braces.
pub proof fn law_text_refers_to_what_it_names(parts: Seq<Part>)
    requires
        are_parts(parts),
        parts_text(parts, 0).len() <= usize::MAX,
    ensures
        expand::references_from(parts_text(parts, 0), 0) == part_names(parts, 0),
{
    let s = parts_text(parts, 0);
    assert(s.skip(0) =~= s);
    lemma_parts_refer(s, 0, parts, 0);
}

/// A character of a word: one that stands for itself, or any behind a dollar sign.
pub open spec fn stands(c: char, marked: bool) -> bool {
    marked || (c != '$' && !text::is_space(c))
}

/// A word as it is written, character by character.
pub open spec fn word_text(word: Seq<(char, bool)>) -> Seq<char>
    decreases word.len(),
{
    if word.len() == 0 {
        seq![]
    } else {
        (if word[0].1 {
            seq!['$', word[0].0]
        } else {
            seq![word[0].0]
        }) + word_text(word.skip(1))
    }
}

/// Words with white space before each of them.
pub open spec fn words_text(words: Seq<(Seq<char>, Seq<(char, bool)>)>) -> Seq<char>
    decreases words.len(),
{
    if words.len() == 0 {
        seq![]
    } else {
        words[0].0 + word_text(words[0].1) + words_text(words.skip(1))
    }
}

/// Whether words stand apart: each has a character, and white space before it, which the first
/// need not have.
pub open spec fn stand_apart(words: Seq<(Seq<char>, Seq<(char, bool)>)>, first: bool) -> bool
    decreases words.len(),
{
    words.len() > 0 ==> {
        let (space, word) = words[0];
        &&& space.len() > 0 || first
        &&& forall|i: int| 0 <= i < space.len() ==> text::is_space(#[trigger] space[i])
        &&& word.len() > 0
        &&& forall|i: int| 0 <= i < word.len() ==> stands((#[trigger] word[i]).0, word[i].1)
        &&& stand_apart(words.skip(1), false)
    }
}

proof fn lemma_space(s: Seq<char>, i: int, n: int, word: Seq<char>)
    requires
        0 <= i,
        0 <= n,
        i + n <= s.len(),
        forall|k: int| i <= k < i + n ==> text::is_space(#[trigger] s[k]),
    ensures
        expand::words_from(s, i, word) == if word.len() > 0 && n > 0 {
            seq![word] + expand::words_from(s, i + n, seq![])
        } else {
            expand::words_from(s, i + n, word)
        },
    decreases n,
{
    if n > 0 {
        assert(text::is_space(s[i]));
        lemma_space(s, i + 1, n - 1, seq![]);
        assert(word.len() == 0 ==> word =~= seq![]);
    }
}

proof fn lemma_word_is_read(
    s: Seq<char>,
    i: int,
    word: Seq<(char, bool)>,
    rest: Seq<char>,
    before: Seq<char>,
)
    requires
        0 <= i <= s.len(),
        s.skip(i) == word_text(word) + rest,
        forall|k: int| 0 <= k < word.len() ==> stands((#[trigger] word[k]).0, word[k].1),
    ensures
        expand::words_from(s, i, before) == expand::words_from(
            s,
            i + word_text(word).len(),
            before + word_text(word),
        ),
    decreases word.len(),
{
    let all = word_text(word);
    if word.len() > 0 {
        let (c, marked) = word[0];
        let head = if marked {
            seq!['$', c]
        } else {
            seq![c]
        };
        let less = word.skip(1);
        let tail = word_text(less) + rest;
        assert(s.skip(i) =~= head + tail);
        lemma_rest(s, i, head, tail);
        assert(s[i + 0] == head[0]);
        if marked {
            assert(s[i + 1] == head[1]);
        }
        assert(stands(word[0].0, word[0].1));
        assert forall|k: int| 0 <= k < less.len() implies stands(
            (#[trigger] less[k]).0,
            less[k].1,
        ) by {
            assert(less[k] == word[k + 1]);
        }
        lemma_word_is_read(s, i + head.len(), less, rest, before + head);
        assert((before + head) + word_text(less) =~= before + all);
        assert(if marked {
            before.push('$').push(c) =~= before + head
        } else {
            before.push(c) =~= before + head
        });
    } else {
        assert(before + all =~= before);
    }
}

proof fn lemma_words_are_read(
    s: Seq<char>,
    i: int,
    words: Seq<(Seq<char>, Seq<(char, bool)>)>,
    before: Seq<char>,
)
    requires
        0 <= i <= s.len(),
        s.skip(i) == words_text(words),
        stand_apart(words, before.len() == 0),
    ensures
        expand::words_from(s, i, before) == (if before.len() > 0 {
            seq![before]
        } else {
            seq![]
        }) + words.map_values(|w: (Seq<char>, Seq<(char, bool)>)| word_text(w.1)),
    decreases words.len(),
{
    let f = |w: (Seq<char>, Seq<(char, bool)>)| word_text(w.1);
    if words.len() > 0 {
        let (space, word) = words[0];
        let own = word_text(word);
        let tail = words_text(words.skip(1));
        assert(s.skip(i) =~= space + (own + tail));
        lemma_rest(s, i, space, own + tail);
        let n = space.len() as int;
        assert forall|k: int| i <= k < i + n implies text::is_space(#[trigger] s[k]) by {
            assert(s[i + (k - i)] == space[k - i]);
        }
        lemma_space(s, i, n, before);
        assert(before.len() == 0 ==> before =~= seq![]);
        lemma_rest(s, i + n, own, tail);
        lemma_word_is_read(s, i + n, word, tail, seq![]);
        assert(Seq::<char>::empty() + own =~= own);
        assert(own.len() > 0);
        lemma_words_are_read(s, i + n + own.len(), words.skip(1), own);
        assert(words.map_values(f) =~= seq![own] + words.skip(1).map_values(f));
        assert(expand::words_from(s, i + n, seq![]) =~= words.map_values(f));
    } else {
        assert(s.skip(i).len() == s.len() - i);
        assert(words.map_values(f) =~= seq![]);
    }
}

/// A text is split into the words that white space stands before. White space behind a dollar
/// sign belongs to a word, and dollar signs are kept.
pub proof fn law_words_are_split_at_white_space(words: Seq<(Seq<char>, Seq<(char, bool)>)>)
    requires
        stand_apart(words, true),
    ensures
        expand::words_from(words_text(words), 0, seq![]) == words.map_values(
            |w: (Seq<char>, Seq<(char, bool)>)| word_text(w.1),
        ),
{
    let s = words_text(words);
    assert(s.skip(0) =~= s);
    lemma_words_are_read(s, 0, words, seq![]);
}

} // verus!
