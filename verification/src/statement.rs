//! The statements of a manifest, one logical line at a time.
use crate::binding;
use crate::binding::rule_key_number;
use crate::build_line;
use crate::build_line::parse_edge;
use crate::collections::map_get;
use crate::collections::map_insert;
use crate::collections::map_new;
use crate::diagnostic;
use crate::diagnostic::Diagnostic;
use crate::diagnostic::DiagnosticView;
use crate::expand;
use crate::expand::dollar_escape_issues;
use crate::expand::split_words;
use crate::expand::valid_variable_name;
use crate::finalize;
use crate::finalize::Parent;
use crate::finalize::ParentView;
use crate::finalize::State;
use crate::finalize::StateView;
use crate::finalize::expand_in_scope;
use crate::finalize::finalize_parent;
use crate::finalize::is_listed;
use crate::lines;
use crate::lines::build_rule_column;
use crate::lines::continues;
use crate::lines::line_end_column;
use crate::lines::remap_logical_diagnostic;
use crate::lines::strip_comment;
use crate::manifest;
use crate::manifest::Edge;
use crate::manifest::EdgeView;
use crate::manifest::Manifest;
use crate::manifest::ManifestView;
use crate::manifest::Pool;
use crate::manifest::PoolView;
use crate::manifest::Rule;
use crate::manifest::RuleView;
use crate::manifest::ScopeView;
use crate::manifest::Settings;
use crate::numbers;
use crate::numbers::parse_number;
use crate::paths;
use crate::paths::canonicalize_owned_path_with_bits;
use crate::text;
use crate::text::Class;
use crate::text::chars_of;
use crate::text::count;
use crate::text::find_in;
use crate::text::find_not_in;
use crate::text::in_class;
use crate::text::is_text;
use crate::text::string_of;
use crate::text::strip_prefix;
use crate::text::trim;
use crate::text::trim_end;
use crate::text::trim_start;
use crate::text::width;
use crate::version;
use crate::version::version_major_minor;
use crate::version::version_supports_newline_escape;
use vstd::prelude::*;
use vstd::slice::slice_subrange;
use vstd::string::*;

verus! {

/// What follows a logical line: the next one, or first another file. Its flag
/// tells whether that file gets a scope of its own.
pub enum Flow {
    Next(Parent),
    Load(String, bool),
}

/// What follows a logical line, with the state that it leaves, or what is wrong
/// with it.
#[verifier::ext_equal]
pub enum FlowView {
    Next(StateView, ParentView),
    Load(StateView, Seq<char>, bool),
    Fail(DiagnosticView),
}

/// A file that is being read, and the scope that it declares in.
#[verifier::ext_equal]
pub struct FileView {
    pub path: Seq<char>,
    pub source: Seq<char>,
    pub scope: int,
}

/// A failure at a column of a line, which is shown.
pub open spec fn failure(
    file: FileView,
    line: usize,
    column: usize,
    message: Seq<char>,
    raw: Seq<char>,
) -> FlowView {
    FlowView::Fail(diagnostic::shown_diagnostic(file.path, line, column, message, raw))
}

/// A failure at a column of a logical line.
pub open spec fn logical_failure(
    file: FileView,
    line: usize,
    column: usize,
    message: Seq<char>,
    raw: Seq<char>,
) -> FlowView {
    FlowView::Fail(
        lines::remapped(
            diagnostic::bare_diagnostic(file.path, line, column, message),
            raw,
            file.source,
        ),
    )
}

/// The name and the value of a line `name = value`.
pub open spec fn binding_of(line: Seq<char>) -> Option<(Seq<char>, Seq<char>)> {
    let equals = text::first_in(line, 0, Class::Is('='));
    let key = text::trimmed(line.take(equals));
    if equals < line.len() && expand::is_name(key) {
        Some((key, text::trimmed_start(line.skip(equals + 1))))
    } else {
        None
    }
}

/// The manifest once a line below a declaration has bound `key`.
pub open spec fn noted(m: ManifestView, key: Seq<char>) -> ManifestView {
    ManifestView {
        has_pool_binding: m.has_pool_binding || key == "pool"@,
        has_dyndep_binding: m.has_dyndep_binding || key == "dyndep"@,
        has_dependency_binding: m.has_dependency_binding || key == "deps"@ || key == "depfile"@,
        ..m
    }
}

/// What an indented line `key = value` does.
pub open spec fn bound(
    settings: Settings,
    file: FileView,
    st: StateView,
    parent: ParentView,
    line: usize,
    raw: Seq<char>,
    key: Seq<char>,
    value: Seq<char>,
) -> FlowView {
    let next = StateView { manifest: noted(st.manifest, key), ..st };
    let expanded = expand::expanded(
        value,
        finalize::in_scope(st.manifest.scopes, file.scope),
    );
    match parent {
        ParentView::Nothing => if settings.ninja {
            FlowView::Fail(
                diagnostic::bare_diagnostic(file.path, line, 1, "unexpected indent"@),
            )
        } else {
            failure(file, line, 1, "unexpected indentation"@, raw)
        },
        ParentView::Rule(rule) => if binding::is_rule_key(key) {
            FlowView::Next(
                next,
                ParentView::Rule(RuleView { bindings: rule.bindings.insert(key, value), ..rule }),
            )
        } else {
            failure(
                file,
                line,
                lines::end_column(raw),
                "unexpected variable '"@ + key + "'"@,
                raw,
            )
        },
        ParentView::Edge(edge, bits) => FlowView::Next(
            next,
            ParentView::Edge(
                EdgeView { bindings: edge.bindings.insert(key, expanded), ..edge },
                bits,
            ),
        ),
        ParentView::Pool(pool) => if key != "depth"@ {
            let message = if settings.ninja {
                "unexpected variable '"@
            } else {
                "unexpected pool variable '"@
            };
            failure(file, line, lines::end_column(raw), message + key + "'"@, raw)
        } else {
            match numbers::number(expanded, false, usize::MAX as nat) {
                Some(depth) => FlowView::Next(
                    next,
                    ParentView::Pool(
                        PoolView { depth: depth as usize, depth_specified: true, ..pool },
                    ),
                ),
                None => failure(
                    file,
                    line,
                    lines::end_column(raw),
                    "invalid pool depth"@,
                    raw,
                ),
            }
        },
    }
}

/// What an indented line does. `content` is the line without the white space
/// around it.
pub open spec fn indented_flow(
    settings: Settings,
    file: FileView,
    st: StateView,
    parent: ParentView,
    line: usize,
    raw: Seq<char>,
    content: Seq<char>,
) -> FlowView {
    match binding_of(content) {
        Some((key, value)) => bound(settings, file, st, parent, line, raw, key, value),
        None => failure(
            file,
            line,
            text::sat(
                text::byte_len(raw.take(text::first_not_in(raw, 0, Class::Space))) + 1,
            ),
            "expected variable name"@,
            raw,
        ),
    }
}

/// What a line `rule ..` does.
pub open spec fn rule_flow(
    file: FileView,
    st: StateView,
    line: usize,
    raw: Seq<char>,
    rest: Seq<char>,
) -> FlowView {
    let name = text::trimmed(rest);
    if !expand::is_name(name) {
        failure(file, line, 6, "expected rule name"@, raw)
    } else if st.manifest.scopes[file.scope].rules.contains_key(name) {
        failure(file, line, lines::end_column(raw), "duplicate rule '"@ + name + "'"@, raw)
    } else {
        FlowView::Next(
            st,
            ParentView::Rule(
                RuleView { name, bindings: Map::empty(), source: file.path, line },
            ),
        )
    }
}

/// What a line `pool ..` does.
pub open spec fn pool_flow(
    file: FileView,
    st: StateView,
    line: usize,
    raw: Seq<char>,
    rest: Seq<char>,
) -> FlowView {
    let name = text::trimmed(rest);
    if !expand::is_name(name) {
        failure(file, line, 6, "expected pool name"@, raw)
    } else if st.manifest.pools.contains_key(name) {
        failure(file, line, lines::end_column(raw), "duplicate pool '"@ + name + "'"@, raw)
    } else {
        FlowView::Next(
            st,
            ParentView::Pool(
                PoolView {
                    name,
                    depth: 0,
                    depth_specified: false,
                    source: file.path,
                    line,
                },
            ),
        )
    }
}

/// What a line `build ..` does.
pub open spec fn build_flow(
    settings: Settings,
    file: FileView,
    st: StateView,
    line: usize,
    raw: Seq<char>,
    rest: Seq<char>,
) -> FlowView {
    match build_line::edge_of(rest, file.path, line, settings.ninja, settings.windows) {
        Err(d) => FlowView::Fail(lines::remapped(d, raw, file.source)),
        Ok(draft) => if draft.edge.rule != "phony"@ && manifest::rule_in(
            st.manifest.scopes,
            file.scope,
            draft.edge.rule,
        ) is None {
            let column = match lines::rule_column(raw) {
                Some(column) => column,
                None => 1,
            };
            logical_failure(file, line, column, "unknown build rule '"@ + draft.edge.rule + "'"@, raw)
        } else {
            FlowView::Next(
                st,
                ParentView::Edge(
                    EdgeView { scope: file.scope as usize, ..draft.edge },
                    draft.bits,
                ),
            )
        },
    }
}

/// The first colon of `s` at or after `i` that no dollar sign escapes, and the
/// length of `s` where there is none.
pub open spec fn unescaped_colon(s: Seq<char>, i: int) -> int
    decreases s.len() - i,
{
    if i < 0 || i >= s.len() {
        s.len() as int
    } else if s[i] == '$' && i + 1 < s.len() {
        unescaped_colon(s, i + 2)
    } else if s[i] == ':' {
        i
    } else {
        unescaped_colon(s, i + 1)
    }
}

/// The words of `s`, expanded in a scope.
pub open spec fn expanded_words(scopes: Seq<ScopeView>, scope: int, s: Seq<char>) -> Seq<
    Seq<char>,
> {
    expand::words_from(s, 0, seq![]).map_values(
        |word: Seq<char>| expand::expanded(word, finalize::in_scope(scopes, scope)),
    )
}

/// The canonical forms of a list of paths.
pub open spec fn canonical_paths(list: Seq<Seq<char>>, windows: bool) -> Seq<Seq<char>> {
    list.map_values(|path: Seq<char>| paths::canonical(path, windows).0)
}

/// The first of `targets` from `i` on that no edge names, and their number
/// where there is none.
pub open spec fn first_unknown(edges: Seq<EdgeView>, targets: Seq<Seq<char>>, i: int) -> int
    decreases targets.len() - i,
{
    if i < 0 || i >= targets.len() {
        targets.len() as int
    } else if manifest::names_path(edges, targets[i]) {
        first_unknown(edges, targets, i + 1)
    } else {
        i
    }
}

/// What a line `default ..` does.
pub open spec fn default_flow(
    settings: Settings,
    file: FileView,
    st: StateView,
    line: usize,
    raw: Seq<char>,
    rest: Seq<char>,
) -> FlowView {
    let m = st.manifest;
    let colon = unescaped_colon(rest, 0);
    let words = expanded_words(m.scopes, file.scope, rest);
    let targets = canonical_paths(words, settings.windows);
    let unknown = first_unknown(m.edges, targets, 0);
    if colon < rest.len() {
        failure(
            file,
            line,
            text::sat(8 + text::byte_len(rest.take(colon)) + 1),
            "expected newline, got ':'"@,
            raw,
        )
    } else if words.len() == 0 {
        failure(file, line, 9, "expected target name"@, raw)
    } else if exists|i: int| 0 <= i < words.len() && (#[trigger] words[i]).len() == 0 {
        failure(file, line, lines::end_column(raw), "empty path"@, raw)
    } else if unknown < targets.len() {
        failure(
            file,
            line,
            lines::end_column(raw),
            "unknown target '"@ + targets[unknown] + "'"@,
            raw,
        )
    } else {
        FlowView::Next(
            StateView {
                manifest: ManifestView { defaults: m.defaults + targets, ..m },
                ..st
            },
            ParentView::Nothing,
        )
    }
}

/// What a line that draws in another file does.
pub open spec fn load_flow(
    file: FileView,
    st: StateView,
    rest: Seq<char>,
    fresh: bool,
) -> FlowView {
    FlowView::Load(
        st,
        expand::expanded(
            text::trimmed(rest),
            finalize::in_scope(st.manifest.scopes, file.scope),
        ),
        fresh,
    )
}

/// The warning about a manifest that requires version `required`.
pub open spec fn version_warning(required: Seq<char>) -> Seq<char> {
    "Knight syntax version (1.14.0) is newer than build file ninja_required_version ("@ + required
        + "); versions may be incompatible"@
}

/// What a line `key = value` does.
pub open spec fn variable_flow(file: FileView, st: StateView, key: Seq<char>, value: Seq<char>) -> FlowView {
    let m = st.manifest;
    let s = m.scopes[file.scope];
    let expanded = expand::expanded(value, finalize::in_scope(m.scopes, file.scope));
    let old = key == "ninja_required_version"@ && version::major_minor("1.14.0"@).0
        > version::major_minor(expanded).0;
    FlowView::Next(
        StateView {
            manifest: ManifestView {
                warnings: if old {
                    m.warnings.push(version_warning(expanded))
                } else {
                    m.warnings
                },
                scopes: m.scopes.update(
                    file.scope,
                    ScopeView { variables: s.variables.insert(key, expanded), ..s },
                ),
                has_pool_binding: m.has_pool_binding || key == "pool"@,
                has_dyndep_binding: m.has_dyndep_binding || key == "dyndep"@,
                ..m
            },
            ..st
        },
        ParentView::Nothing,
    )
}

/// The column at which an equals sign was expected, and what stands there.
pub open spec fn equals_expected(line: Seq<char>, at_eof: bool) -> Option<(usize, Seq<char>)> {
    let end = text::first_not_in(line, 0, Class::Name);
    let start = text::first_not_in(line, end, Class::Space);
    if end == 0 {
        None
    } else if start == line.len() {
        Some(
            (
                text::sat(line.len() as int + 1),
                if at_eof {
                    "eof"@
                } else {
                    "newline"@
                },
            ),
        )
    } else if text::is_alphanumeric(line[start]) {
        Some((text::sat(text::byte_len(line.take(start)) + 1), "identifier"@))
    } else {
        None
    }
}

/// Whether `source` ends without a line feed.
pub open spec fn is_unterminated(source: Seq<char>) -> bool {
    source.len() > 0 && source.last() != '\n'
}

/// The number of the last line of `source`, counted from one.
pub open spec fn last_line(source: Seq<char>) -> usize {
    text::sat(text::occurrences(source, '\n') as int + 1)
}

/// What a line that is not indented does, once the declaration before it is
/// complete. `content` is the line without the white space around it.
pub open spec fn declaration_flow(
    settings: Settings,
    file: FileView,
    st: StateView,
    line: usize,
    raw: Seq<char>,
    content: Seq<char>,
) -> FlowView {
    if "rule "@.is_prefix_of(content) {
        rule_flow(file, st, line, raw, content.skip("rule "@.len() as int))
    } else if "pool "@.is_prefix_of(content) {
        pool_flow(file, st, line, raw, content.skip("pool "@.len() as int))
    } else if "build "@.is_prefix_of(content) {
        build_flow(settings, file, st, line, raw, content.skip("build "@.len() as int))
    } else if "default "@.is_prefix_of(content) {
        default_flow(settings, file, st, line, raw, content.skip("default "@.len() as int))
    } else if content == "rule"@ {
        failure(file, line, 5, "expected rule name"@, raw)
    } else if content == "pool"@ {
        failure(file, line, 5, "expected pool name"@, raw)
    } else if content == "build"@ {
        failure(file, line, 6, "expected path"@, raw)
    } else if content == "default"@ {
        failure(file, line, 8, "expected target name"@, raw)
    } else if "include "@.is_prefix_of(content) {
        load_flow(file, st, content.skip("include "@.len() as int), false)
    } else if content == "include"@ {
        load_flow(file, st, seq![], false)
    } else if "subninja "@.is_prefix_of(content) {
        load_flow(file, st, content.skip("subninja "@.len() as int), true)
    } else if content == "subninja"@ {
        load_flow(file, st, seq![], true)
    } else {
        match binding_of(content) {
            Some((key, value)) => variable_flow(file, st, key, value),
            None => match equals_expected(
                content,
                is_unterminated(file.source) && line == last_line(file.source),
            ) {
                Some((column, token)) => failure(
                    file,
                    line,
                    column,
                    "expected '=', got "@ + token,
                    raw,
                ),
                None => failure(file, line, 1, "expected a declaration"@, raw),
            },
        }
    }
}

/// The position of the first escape of a line that is an error in a scope, and
/// whether it is a `$^`.
pub open spec fn bad_escape(scopes: Seq<ScopeView>, scope: int, line: Seq<char>) -> Option<
    (int, bool),
> {
    let (invalid, newline) = expand::escape_issues(line);
    let allowed = match manifest::variable_in(scopes, scope, "ninja_required_version"@) {
        Some(v) => version::has_newline_escape(v),
        None => false,
    };
    match (invalid, newline) {
        (Some(i), Some(n)) => if !allowed && n < i {
            Some((n, true))
        } else {
            Some((i, false))
        },
        (Some(i), None) => Some((i, false)),
        (None, Some(n)) => if allowed {
            None
        } else {
            Some((n, true))
        },
        (None, None) => None,
    }
}

/// What is said of a bad escape.
pub open spec fn escape_message(newline: bool) -> Seq<char> {
    if newline {
        "using $^ escape requires specifying 'ninja_required_version' with version greater or equal 1.14"@
    } else {
        "bad $-escape (literal $ must be written as $$)"@
    }
}

/// Whether there is a tab among the blanks at the start of a line.
pub open spec fn has_tab_indent(raw: Seq<char>) -> bool {
    text::first_in(raw, 0, Class::Is('\t')) < text::first_not_in(raw, 0, Class::Blank)
}

pub open spec fn is_indented(line: Seq<char>, ninja: bool) -> bool {
    line.len() > 0 && (line[0] == ' ' || (line[0] == '\t' && !ninja))
}

/// What a logical line does.
#[verifier::opaque]
pub open spec fn flow(
    settings: Settings,
    file: FileView,
    st: StateView,
    parent: ParentView,
    line: usize,
    raw: Seq<char>,
) -> FlowView {
    let content = text::trimmed_end(lines::uncommented(raw));
    if lines::is_comment(raw) {
        FlowView::Next(st, parent)
    } else if text::trimmed(raw).len() == 0 {
        match finalize::finalized(st, file.scope, parent, settings.windows) {
            Ok(next) => FlowView::Next(next, ParentView::Nothing),
            Err(d) => FlowView::Fail(d),
        }
    } else if !settings.ninja && has_tab_indent(raw) {
        failure(
            file,
            line,
            text::sat(text::first_in(raw, 0, Class::Is('\t')) + 1),
            "tabs are not allowed, use spaces"@,
            raw,
        )
    } else if file.source.len() > 0 && file.source.last() == '\n' && lines::is_continued(raw) {
        FlowView::Fail(
            diagnostic::bare_diagnostic(
                file.path,
                last_line(file.source),
                1,
                "unexpected EOF"@,
            ),
        )
    } else {
        match bad_escape(st.manifest.scopes, file.scope, content) {
            Some((at, newline)) => logical_failure(
                file,
                line,
                text::sat(text::byte_len(content.take(at)) + 1),
                escape_message(newline),
                raw,
            ),
            None => if is_indented(raw, settings.ninja) {
                indented_flow(
                    settings,
                    file,
                    st,
                    parent,
                    line,
                    raw,
                    text::trimmed_start(content),
                )
            } else {
                match finalize::finalized(st, file.scope, parent, settings.windows) {
                    Ok(next) => declaration_flow(
                        settings,
                        file,
                        next,
                        line,
                        raw,
                        text::trimmed_start(content),
                    ),
                    Err(d) => FlowView::Fail(d),
                }
            },
        }
    }
}

/// What follows a logical line, with the state that it left.
pub open spec fn outcome(r: Result<Flow, Diagnostic>, st: StateView) -> FlowView {
    match r {
        Ok(Flow::Next(parent)) => FlowView::Next(st, parent.deep_view()),
        Ok(Flow::Load(child, fresh)) => FlowView::Load(st, child@, fresh),
        Err(d) => FlowView::Fail(d.deep_view()),
    }
}

/// Whether an edge that is being read declares in `scope`.
pub open spec fn is_parent_in(parent: Parent, scope: usize) -> bool {
    parent matches Parent::Edge(e, _) ==> e.scope == scope
}

pub open spec fn stays_in(r: Result<Flow, Diagnostic>, scope: usize) -> bool {
    r matches Ok(Flow::Next(parent)) ==> is_parent_in(parent, scope)
}

/// A file that is being read, and the scope that it declares in.
#[derive(Clone, Copy)]
pub struct File<'a> {
    pub path: &'a str,
    pub source: &'a [char],
    pub scope: usize,
}

impl<'a> File<'a> {
    pub open spec fn view(&self) -> FileView {
        FileView { path: self.path@, source: self.source@, scope: self.scope as int }
    }

    fn failure(&self, line: usize, column: usize, message: &str, raw: &[char]) -> (r: Diagnostic)
        ensures
            FlowView::Fail(r.deep_view()) == failure(self@, line, column, message@, raw@),
    {
        Diagnostic::new(self.path, line, column, message).with_source(raw)
    }

    fn quoting_failure(
        &self,
        line: usize,
        column: usize,
        message: &str,
        name: &[char],
        raw: &[char],
    ) -> (r: Diagnostic)
        ensures
            FlowView::Fail(r.deep_view()) == failure(
                self@,
                line,
                column,
                message@ + name@ + "'"@,
                raw@,
            ),
    {
        let mut whole: String = message.to_owned();
        whole.append(string_of(name).as_str());
        whole.append("'");
        self.failure(line, column, whole.as_str(), raw)
    }

    fn logical_failure(
        &self,
        line: usize,
        column: usize,
        message: &str,
        raw: &[char],
    ) -> (r: Diagnostic)
        ensures
            FlowView::Fail(r.deep_view()) == logical_failure(
                self@,
                line,
                column,
                message@,
                raw@,
            ),
    {
        remap_logical_diagnostic(
            Diagnostic::new(self.path, line, column, message),
            raw,
            self.source,
        )
    }
}

/// The name and the value of a line `name = value`.
pub fn parse_binding(line: &[char]) -> (r: Option<(&[char], &[char])>)
    ensures
        match r {
            Some((key, value)) => binding_of(line@) == Some((key@, value@)),
            None => binding_of(line@) is None,
        },
{
    let equals: usize = find_in(line, 0, Class::Is('='));
    if equals == line.len() {
        return None;
    }
    let key: &[char] = trim(slice_subrange(line, 0, equals));
    proof {
        assert(line@.subrange(0, equals as int) =~= line@.take(equals as int));
        assert(line@.subrange(equals + 1, line@.len() as int) =~= line@.skip(equals + 1));
    }
    if !valid_variable_name(key) {
        return None;
    }
    Some((key, trim_start(slice_subrange(line, equals + 1, line.len()))))
}

fn bind_in_rule(
    file: File,
    rule: Rule,
    line: usize,
    raw: &[char],
    key: &[char],
    value: &[char],
) -> (r: Result<Flow, Diagnostic>)
    ensures
        forall|settings: Settings, st: StateView| #[trigger]
            bound(
                settings,
                file@,
                st,
                ParentView::Rule(rule.deep_view()),
                line,
                raw@,
                key@,
                value@,
            ) == outcome(r, StateView { manifest: noted(st.manifest, key@), ..st }),
        stays_in(r, file.scope),
{
    if rule_key_number(key) == 11 {
        return Err(
            file.quoting_failure(line, line_end_column(raw), "unexpected variable '", key, raw),
        );
    }
    let ghost before = rule.deep_view();
    let mut rule: Rule = rule;
    map_insert(&mut rule.bindings, string_of(key), string_of(value));
    proof {
        assert(rule.deep_view() =~= (RuleView {
            bindings: before.bindings.insert(key@, value@),
            ..before
        }));
    }
    Ok(Flow::Next(Parent::Rule(rule)))
}

fn bind_in_pool(
    settings: Settings,
    file: File,
    st: &State,
    pool: Pool,
    line: usize,
    raw: &[char],
    key: &[char],
    value: &[char],
) -> (r: Result<Flow, Diagnostic>)
    ensures
        bound(
            settings,
            file@,
            st.deep_view(),
            ParentView::Pool(pool.deep_view()),
            line,
            raw@,
            key@,
            value@,
        ) == outcome(
            r,
            StateView { manifest: noted(st.deep_view().manifest, key@), ..st.deep_view() },
        ),
        stays_in(r, file.scope),
{
    if !is_text(key, "depth") {
        let message: &str = if settings.ninja {
            "unexpected variable '"
        } else {
            "unexpected pool variable '"
        };
        return Err(file.quoting_failure(line, line_end_column(raw), message, key, raw));
    }
    let expanded: String = expand_in_scope(&st.manifest, file.scope, string_of(value).as_str());
    match parse_number(chars_of(expanded.as_str()).as_slice(), false, usize::MAX as u64) {
        Some(depth) => Ok(
            Flow::Next(
                Parent::Pool(Pool { depth: depth as usize, depth_specified: true, ..pool }),
            ),
        ),
        None => Err(file.failure(line, line_end_column(raw), "invalid pool depth", raw)),
    }
}

fn bind_in_edge(file: File, st: &State, edge: Edge, key: &[char], value: &[char]) -> (r: Edge)
    ensures
        r.deep_view() == (EdgeView {
            bindings: edge.deep_view().bindings.insert(
                key@,
                expand::expanded(
                    value@,
                    finalize::in_scope(st.deep_view().manifest.scopes, file.scope as int),
                ),
            ),
            ..edge.deep_view()
        }),
        r.scope == edge.scope,
{
    let expanded: String = expand_in_scope(&st.manifest, file.scope, string_of(value).as_str());
    let ghost before = edge.deep_view();
    let mut edge: Edge = edge;
    map_insert(&mut edge.bindings, string_of(key), expanded);
    proof {
        assert(edge.deep_view() =~= (EdgeView {
            bindings: before.bindings.insert(key@, expanded@),
            ..before
        }));
    }
    edge
}

/// Reads an indented line.
fn indented_line(
    settings: Settings,
    file: File,
    st: &mut State,
    parent: Parent,
    line: usize,
    raw: &[char],
    content: &[char],
) -> (r: Result<Flow, Diagnostic>)
    requires
        is_parent_in(parent, file.scope),
    ensures
        indented_flow(
            settings,
            file@,
            old(st).deep_view(),
            parent.deep_view(),
            line,
            raw@,
            content@,
        ) == outcome(r, final(st).deep_view()),
        stays_in(r, file.scope),
        final(st).manifest.scopes@.len() == old(st).manifest.scopes@.len(),
{
    let (key, value) = match parse_binding(content) {
        Some(x) => x,
        None => {
            let start: usize = find_not_in(raw, 0, Class::Space);
            proof {
                assert(raw@.subrange(0, start as int) =~= raw@.take(start as int));
            }
            let column: usize = width(slice_subrange(raw, 0, start)).saturating_add(1);
            return Err(file.failure(line, column, "expected variable name", raw));
        },
    };
    let ghost before = st.deep_view();
    let r: Result<Flow, Diagnostic> = match parent {
        Parent::Nothing => if settings.ninja {
            Err(Diagnostic::new(file.path, line, 1, "unexpected indent"))
        } else {
            Err(file.failure(line, 1, "unexpected indentation", raw))
        },
        Parent::Rule(rule) => bind_in_rule(file, rule, line, raw, key, value),
        Parent::Pool(pool) => bind_in_pool(settings, file, st, pool, line, raw, key, value),
        Parent::Edge(edge, bits) => Ok(
            Flow::Next(Parent::Edge(bind_in_edge(file, st, edge, key, value), bits)),
        ),
    };
    if is_text(key, "pool") {
        st.manifest.has_pool_binding = true;
    }
    if is_text(key, "dyndep") {
        st.manifest.has_dyndep_binding = true;
    }
    if is_text(key, "deps") || is_text(key, "depfile") {
        st.manifest.has_dependency_binding = true;
    }
    proof {
        assert(st.deep_view() =~= (StateView {
            manifest: noted(before.manifest, key@),
            ..before
        }));
    }
    r
}

fn rule_statement(file: File, st: &State, line: usize, raw: &[char], rest: &[char]) -> (r: Result<
    Flow,
    Diagnostic,
>)
    requires
        file.scope < st.manifest.scopes@.len(),
    ensures
        rule_flow(file@, st.deep_view(), line, raw@, rest@) == outcome(r, st.deep_view()),
        stays_in(r, file.scope),
{
    let name: &[char] = trim(rest);
    if !valid_variable_name(name) {
        return Err(file.failure(line, 6, "expected rule name", raw));
    }
    let text: String = string_of(name);
    if map_get(&st.manifest.scopes[file.scope].rules, text.as_str()).is_some() {
        return Err(
            file.quoting_failure(line, line_end_column(raw), "duplicate rule '", name, raw),
        );
    }
    let rule: Rule = Rule {
        name: text,
        bindings: map_new(),
        source: file.path.to_owned(),
        line,
    };
    Ok(Flow::Next(Parent::Rule(rule)))
}

fn pool_statement(file: File, st: &State, line: usize, raw: &[char], rest: &[char]) -> (r: Result<
    Flow,
    Diagnostic,
>)
    ensures
        pool_flow(file@, st.deep_view(), line, raw@, rest@) == outcome(r, st.deep_view()),
        stays_in(r, file.scope),
{
    let name: &[char] = trim(rest);
    if !valid_variable_name(name) {
        return Err(file.failure(line, 6, "expected pool name", raw));
    }
    let text: String = string_of(name);
    if map_get(&st.manifest.pools, text.as_str()).is_some() {
        return Err(
            file.quoting_failure(line, line_end_column(raw), "duplicate pool '", name, raw),
        );
    }
    let pool: Pool = Pool {
        name: text,
        depth: 0,
        depth_specified: false,
        source: file.path.to_owned(),
        line,
    };
    Ok(Flow::Next(Parent::Pool(pool)))
}

fn build_statement(
    settings: Settings,
    file: File,
    st: &State,
    line: usize,
    raw: &[char],
    rest: &[char],
) -> (r: Result<Flow, Diagnostic>)
    ensures
        build_flow(settings, file@, st.deep_view(), line, raw@, rest@) == outcome(
            r,
            st.deep_view(),
        ),
        stays_in(r, file.scope),
{
    let (edge, bits) = match parse_edge(
        rest,
        file.path,
        line,
        settings.ninja,
        settings.windows,
    ) {
        Ok(read) => read,
        Err(d) => {
            return Err(remap_logical_diagnostic(d, raw, file.source));
        },
    };
    if !text::same_str(edge.rule.as_str(), "phony") && st.manifest.lookup_rule(
        file.scope,
        edge.rule.as_str(),
    ).is_none() {
        let column: usize = match build_rule_column(raw) {
            Some(column) => column,
            None => 1,
        };
        let mut message: String = "unknown build rule '".to_owned();
        message.append(edge.rule.as_str());
        message.append("'");
        return Err(file.logical_failure(line, column, message.as_str(), raw));
    }
    let ghost before = edge.deep_view();
    let edge: Edge = Edge { scope: file.scope, ..edge };
    proof {
        assert(edge.deep_view() =~= (EdgeView { scope: file.scope, ..before }));
    }
    Ok(Flow::Next(Parent::Edge(edge, bits)))
}

fn first_unescaped_colon(s: &[char]) -> (r: usize)
    ensures
        r == unescaped_colon(s@, 0),
        r <= s@.len(),
{
    let n: usize = s.len();
    let mut i: usize = 0;
    while i < n
        invariant
            n == s@.len(),
            i <= n,
            unescaped_colon(s@, 0) == unescaped_colon(s@, i as int),
        decreases n - i,
    {
        if s[i] == '$' && n - i > 1 {
            i += 2;
        } else if s[i] == ':' {
            return i;
        } else {
            i += 1;
        }
    }
    n
}

/// The words of `s`, expanded in a scope.
fn expand_path_words(manifest: &Manifest, scope: usize, s: &[char]) -> (r: Vec<String>)
    ensures
        text::strings(r@) == expanded_words(manifest.deep_view().scopes, scope as int, s@),
{
    let words: Vec<Vec<char>> = split_words(s);
    let ghost scopes = manifest.deep_view().scopes;
    let ghost all = expanded_words(scopes, scope as int, s@);
    let mut r: Vec<String> = Vec::new();
    let mut i: usize = 0;
    while i < words.len()
        invariant
            scopes == manifest.deep_view().scopes,
            text::texts(words@) == expand::words_from(s@, 0, seq![]),
            all == expanded_words(scopes, scope as int, s@),
            i <= words@.len(),
            text::strings(r@) =~= all.take(i as int),
        decreases words@.len() - i,
    {
        let ghost before = text::strings(r@);
        let word: String = expand_in_scope(
            manifest,
            scope,
            string_of(words[i].as_slice()).as_str(),
        );
        let ghost view = word@;
        proof {
            assert(text::texts(words@)[i as int] == words@[i as int]@);
            assert(view == all[i as int]);
        }
        r.push(word);
        proof {
            assert(text::strings(r@) =~= before.push(view));
        }
        i += 1;
    }
    proof {
        assert(text::texts(words@).len() == words@.len());
        assert(all.take(words@.len() as int) =~= all);
    }
    r
}

/// Whether an edge of the manifest names `target`.
pub fn is_known_path(manifest: &Manifest, target: &str) -> (r: bool)
    ensures
        r == manifest::names_path(manifest.deep_view().edges, target@),
{
    let ghost edges = manifest.deep_view().edges;
    let mut i: usize = 0;
    while i < manifest.edges.len()
        invariant
            edges == manifest.deep_view().edges,
            i <= manifest.edges@.len(),
            forall|k: int|
                0 <= k < i ==> !(#[trigger] manifest::paths_of(edges[k])).contains(target@),
        decreases manifest.edges@.len() - i,
    {
        proof {
            assert(edges[i as int] == manifest.edges@[i as int].deep_view());
        }
        if is_listed(&manifest.edges[i].paths(), target) {
            proof {
                assert(manifest::paths_of(edges[i as int]).contains(target@));
            }
            return true;
        }
        i += 1;
    }
    false
}

fn default_statement(
    settings: Settings,
    file: File,
    st: &mut State,
    line: usize,
    raw: &[char],
    rest: &[char],
) -> (r: Result<Flow, Diagnostic>)
    ensures
        default_flow(settings, file@, old(st).deep_view(), line, raw@, rest@) == outcome(
            r,
            final(st).deep_view(),
        ),
        stays_in(r, file.scope),
        final(st).manifest.scopes@.len() == old(st).manifest.scopes@.len(),
{
    let ghost before = st.deep_view();
    let colon: usize = first_unescaped_colon(rest);
    if colon < rest.len() {
        proof {
            assert(rest@.subrange(0, colon as int) =~= rest@.take(colon as int));
        }
        let column: usize = width(slice_subrange(rest, 0, colon)).saturating_add(9);
        return Err(file.failure(line, column, "expected newline, got ':'", raw));
    }
    let words: Vec<String> = expand_path_words(&st.manifest, file.scope, rest);
    let ghost all = text::strings(words@);
    if words.len() == 0 {
        return Err(file.failure(line, 9, "expected target name", raw));
    }
    let mut i: usize = 0;
    while i < words.len()
        invariant
            i <= words@.len(),
            all == text::strings(words@),
            forall|k: int| 0 <= k < i ==> (#[trigger] all[k]).len() > 0,
            all == expanded_words(before.manifest.scopes, file.scope as int, rest@),
            all.len() > 0,
            unescaped_colon(rest@, 0) >= rest@.len(),
            before == old(st).deep_view(),
            before == st.deep_view(),
            st.manifest.scopes@.len() == old(st).manifest.scopes@.len(),
        decreases words@.len() - i,
    {
        if chars_of(words[i].as_str()).len() == 0 {
            proof {
                assert(all[i as int].len() == 0);
            }
            return Err(file.failure(line, line_end_column(raw), "empty path", raw));
        }
        i += 1;
    }
    let ghost targets = canonical_paths(all, settings.windows);
    let mut known: Vec<String> = Vec::new();
    let mut i: usize = 0;
    while i < words.len()
        invariant
            i <= words@.len(),
            all == text::strings(words@),
            all == expanded_words(before.manifest.scopes, file.scope as int, rest@),
            all.len() > 0,
            forall|k: int| 0 <= k < all.len() ==> (#[trigger] all[k]).len() > 0,
            unescaped_colon(rest@, 0) >= rest@.len(),
            targets == canonical_paths(all, settings.windows),
            text::strings(known@) =~= targets.take(i as int),
            first_unknown(before.manifest.edges, targets, 0) == first_unknown(
                before.manifest.edges,
                targets,
                i as int,
            ),
            before == old(st).deep_view(),
            before == st.deep_view(),
            st.manifest.scopes@.len() == old(st).manifest.scopes@.len(),
        decreases words@.len() - i,
    {
        let (path, bits) = canonicalize_owned_path_with_bits(words[i].clone(), settings.windows);
        let ghost view = path@;
        proof {
            assert(all[i as int] == words@[i as int]@);
            assert(targets[i as int] == view);
        }
        if !is_known_path(&st.manifest, path.as_str()) {
            return Err(
                file.quoting_failure(
                    line,
                    line_end_column(raw),
                    "unknown target '",
                    chars_of(path.as_str()).as_slice(),
                    raw,
                ),
            );
        }
        let ghost earlier = text::strings(known@);
        known.push(path);
        proof {
            assert(text::strings(known@) =~= earlier.push(view));
        }
        i += 1;
    }
    proof {
        assert(text::strings(known@) =~= targets);
    }
    let ghost defaults = text::strings(st.manifest.defaults@);
    let ghost added = known@;
    st.manifest.defaults.append(&mut known);
    proof {
        assert(text::strings(st.manifest.defaults@) =~= defaults + text::strings(added));
        assert(st.deep_view() =~= (StateView {
            manifest: ManifestView { defaults: defaults + targets, ..before.manifest },
            ..before
        }));
    }
    Ok(Flow::Next(Parent::Nothing))
}

fn load_statement(file: File, st: &State, rest: &[char], fresh: bool) -> (r: Result<
    Flow,
    Diagnostic,
>)
    ensures
        load_flow(file@, st.deep_view(), rest@, fresh) == outcome(r, st.deep_view()),
        stays_in(r, file.scope),
{
    let child: String = expand_in_scope(
        &st.manifest,
        file.scope,
        string_of(trim(rest)).as_str(),
    );
    Ok(Flow::Load(child, fresh))
}

fn variable_statement(file: File, st: &mut State, key: &[char], value: &[char]) -> (r: Result<
    Flow,
    Diagnostic,
>)
    requires
        file.scope < old(st).manifest.scopes@.len(),
    ensures
        variable_flow(file@, old(st).deep_view(), key@, value@) == outcome(
            r,
            final(st).deep_view(),
        ),
        stays_in(r, file.scope),
        final(st).manifest.scopes@.len() == old(st).manifest.scopes@.len(),
{
    let ghost before = st.deep_view();
    let ghost n = file.scope as int;
    let expanded: String = expand_in_scope(&st.manifest, file.scope, string_of(value).as_str());
    let ghost view = expanded@;
    if is_text(key, "ninja_required_version") {
        let supported: (i64, i64) = version_major_minor(chars_of("1.14.0").as_slice());
        let required: (i64, i64) = version_major_minor(chars_of(expanded.as_str()).as_slice());
        if supported.0 > required.0 {
            let mut warning: String =
                "Knight syntax version (1.14.0) is newer than build file ninja_required_version (".to_owned();
            warning.append(expanded.as_str());
            warning.append("); versions may be incompatible");
            let ghost words = warning@;
            st.manifest.warnings.push(warning);
            proof {
                assert(text::strings(st.manifest.warnings@) =~= before.manifest.warnings.push(
                    words,
                ));
            }
        }
    }
    map_insert(&mut st.manifest.scopes[file.scope].variables, string_of(key), expanded);
    if is_text(key, "pool") {
        st.manifest.has_pool_binding = true;
    }
    if is_text(key, "dyndep") {
        st.manifest.has_dyndep_binding = true;
    }
    proof {
        let s = before.manifest.scopes[n];
        assert(st.manifest.scopes.deep_view() =~= before.manifest.scopes.update(
            n,
            manifest::ScopeView { variables: s.variables.insert(key@, view), ..s },
        ));
        assert(st.deep_view() =~= variable_flow(file@, before, key@, value@)->Next_0);
    }
    Ok(Flow::Next(Parent::Nothing))
}

fn expected_equals_diagnostic(line: &[char], at_eof: bool) -> (r: Option<(usize, &'static str)>)
    ensures
        match r {
            Some((column, token)) => equals_expected(line@, at_eof) == Some((column, token@)),
            None => equals_expected(line@, at_eof) is None,
        },
{
    let end: usize = find_not_in(line, 0, Class::Name);
    if end == 0 {
        return None;
    }
    let start: usize = find_not_in(line, end, Class::Space);
    if start == line.len() {
        let column: usize = line.len().saturating_add(1);
        if at_eof {
            Some((column, "eof"))
        } else {
            Some((column, "newline"))
        }
    } else {
        let c: char = line[start];
        if in_class(c, Class::Name) && c != '_' && c != '-' {
            proof {
                assert(line@.subrange(0, start as int) =~= line@.take(start as int));
            }
            Some((width(slice_subrange(line, 0, start)).saturating_add(1), "identifier"))
        } else {
            None
        }
    }
}

/// Reads a line that is not indented, once the declaration before it is complete.
fn declaration_line(
    settings: Settings,
    file: File,
    st: &mut State,
    line: usize,
    raw: &[char],
    content: &[char],
) -> (r: Result<Flow, Diagnostic>)
    requires
        file.scope < old(st).manifest.scopes@.len(),
    ensures
        declaration_flow(settings, file@, old(st).deep_view(), line, raw@, content@) == outcome(
            r,
            final(st).deep_view(),
        ),
        stays_in(r, file.scope),
        final(st).manifest.scopes@.len() == old(st).manifest.scopes@.len(),
{
    if let Some(rest) = strip_prefix(content, "rule ") {
        return rule_statement(file, st, line, raw, rest);
    }
    if let Some(rest) = strip_prefix(content, "pool ") {
        return pool_statement(file, st, line, raw, rest);
    }
    if let Some(rest) = strip_prefix(content, "build ") {
        return build_statement(settings, file, st, line, raw, rest);
    }
    if let Some(rest) = strip_prefix(content, "default ") {
        return default_statement(settings, file, st, line, raw, rest);
    }
    if is_text(content, "rule") {
        return Err(file.failure(line, 5, "expected rule name", raw));
    }
    if is_text(content, "pool") {
        return Err(file.failure(line, 5, "expected pool name", raw));
    }
    if is_text(content, "build") {
        return Err(file.failure(line, 6, "expected path", raw));
    }
    if is_text(content, "default") {
        return Err(file.failure(line, 8, "expected target name", raw));
    }
    let nothing: Vec<char> = Vec::new();
    proof {
        assert(nothing@ =~= seq![]);
    }
    if let Some(rest) = strip_prefix(content, "include ") {
        return load_statement(file, st, rest, false);
    }
    if is_text(content, "include") {
        return load_statement(file, st, nothing.as_slice(), false);
    }
    if let Some(rest) = strip_prefix(content, "subninja ") {
        return load_statement(file, st, rest, true);
    }
    if is_text(content, "subninja") {
        return load_statement(file, st, nothing.as_slice(), true);
    }
    if let Some((key, value)) = parse_binding(content) {
        return variable_statement(file, st, key, value);
    }
    let n: usize = file.source.len();
    let at_eof: bool = n > 0 && file.source[n - 1] != '\n' && line == count(
        file.source,
        '\n',
    ).saturating_add(1);
    if let Some((column, token)) = expected_equals_diagnostic(content, at_eof) {
        let mut message: String = "expected '=', got ".to_owned();
        message.append(token);
        return Err(file.failure(line, column, message.as_str(), raw));
    }
    Err(file.failure(line, 1, "expected a declaration", raw))
}

/// The position of the first escape of a line that is an error in a scope, and
/// whether it is a `$^`.
fn find_bad_escape(manifest: &Manifest, scope: usize, line: &[char]) -> (r: Option<(usize, bool)>)
    ensures
        match r {
            Some((at, newline)) => bad_escape(
                manifest.deep_view().scopes,
                scope as int,
                line@,
            ) == Some((at as int, newline)) && at < line@.len(),
            None => bad_escape(manifest.deep_view().scopes, scope as int, line@) is None,
        },
{
    let (invalid, newline) = dollar_escape_issues(line);
    let disallowed: Option<usize> = match newline {
        Some(n) => {
            let allowed: bool = match manifest.lookup_variable(scope, "ninja_required_version") {
                Some(v) => version_supports_newline_escape(v),
                None => false,
            };
            if allowed {
                None
            } else {
                Some(n)
            }
        },
        None => None,
    };
    match (invalid, disallowed) {
        (Some(i), Some(n)) => if n < i {
            Some((n, true))
        } else {
            Some((i, false))
        },
        (Some(i), None) => Some((i, false)),
        (None, Some(n)) => Some((n, true)),
        (None, None) => None,
    }
}

/// Reads a logical line.
pub fn read_line(
    settings: Settings,
    file: File,
    st: &mut State,
    parent: Parent,
    line: usize,
    raw: &[char],
) -> (r: Result<Flow, Diagnostic>)
    requires
        file.scope < old(st).manifest.scopes@.len(),
        is_parent_in(parent, file.scope),
    ensures
        flow(settings, file@, old(st).deep_view(), parent.deep_view(), line, raw@) == outcome(
            r,
            final(st).deep_view(),
        ),
        stays_in(r, file.scope),
        final(st).manifest.scopes@.len() == old(st).manifest.scopes@.len(),
{
    proof {
        reveal(flow);
    }
    let whole: &[char] = trim_start(raw);
    if whole.len() > 0 && whole[0] == '#' {
        return Ok(Flow::Next(parent));
    }
    if trim(raw).len() == 0 {
        return match finalize_parent(st, file.scope, parent, settings.windows) {
            Ok(()) => Ok(Flow::Next(Parent::Nothing)),
            Err(d) => Err(d),
        };
    }
    let tab: usize = find_in(raw, 0, Class::Is('\t'));
    if !settings.ninja && tab < find_not_in(raw, 0, Class::Blank) {
        let column: usize = tab.saturating_add(1);
        return Err(file.failure(line, column, "tabs are not allowed, use spaces", raw));
    }
    let n: usize = file.source.len();
    if n > 0 && file.source[n - 1] == '\n' && continues(raw) {
        let last: usize = count(file.source, '\n').saturating_add(1);
        return Err(Diagnostic::new(file.path, last, 1, "unexpected EOF"));
    }
    let content: &[char] = trim_end(strip_comment(raw));
    if let Some((at, newline)) = find_bad_escape(&st.manifest, file.scope, content) {
        proof {
            assert(content@.subrange(0, at as int) =~= content@.take(at as int));
        }
        let column: usize = width(slice_subrange(content, 0, at)).saturating_add(1);
        let message: &str = if newline {
            "using $^ escape requires specifying 'ninja_required_version' with version greater or equal 1.14"
        } else {
            "bad $-escape (literal $ must be written as $$)"
        };
        return Err(file.logical_failure(line, column, message, raw));
    }
    let content: &[char] = trim_start(content);
    let indented: bool = raw.len() > 0 && (raw[0] == ' ' || (raw[0] == '\t' && !settings.ninja));
    if indented {
        return indented_line(settings, file, st, parent, line, raw, content);
    }
    match finalize_parent(st, file.scope, parent, settings.windows) {
        Ok(()) => declaration_line(settings, file, st, line, raw, content),
        Err(d) => Err(d),
    }
}

} // verus!
