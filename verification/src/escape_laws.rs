//! The escape `$^` in a manifest: it is read where the manifest requires a version that
//! has it.
use crate::build_log_laws;
use crate::diagnostic::DiagnosticView;
use crate::expand;
use crate::finalize;
use crate::finalize::ParentView;
use crate::finalize::StateView;
use crate::lines;
use crate::loader;
use crate::loader::Load;
use crate::loader::ProgressView;
use crate::manifest;
use crate::manifest::Settings;
use crate::statement;
use crate::statement::FileView;
use crate::text;
use crate::text::Class;
use crate::validate;
use crate::version;
use vstd::prelude::*;

verus! {

/// A line that gives a variable a value.
pub open spec fn assignment(key: Seq<char>, value: Seq<char>) -> Seq<char> {
    key + " = "@ + value
}

/// A manifest that requires version `v` and then has a `$^` in the value of a variable.
pub open spec fn gated_source(v: Seq<char>, before: Seq<char>, after: Seq<char>) -> Seq<char> {
    assignment("ninja_required_version"@, v).push('\n') + assignment(
        "value"@,
        before + "$^"@ + after,
    ).push('\n')
}

proof fn lemma_issues_behind(s: Seq<char>, i: int, j: int, newline: Option<int>)
    requires
        0 <= i <= j <= s.len(),
        forall|k: int| i <= k < j ==> #[trigger] s[k] != '$',
    ensures
        expand::escape_issues_from(s, i, newline) == expand::escape_issues_from(s, j, newline),
    decreases j - i,
{
    if i < j {
        lemma_issues_behind(s, i + 1, j, newline);
    }
}

proof fn lemma_expanded_behind(s: Seq<char>, i: int, j: int, meaning: expand::Meaning)
    requires
        0 <= i <= j <= s.len(),
        forall|k: int| i <= k < j ==> #[trigger] s[k] != '$',
    ensures
        expand::expanded_from(s, i, meaning) == s.subrange(i, j) + expand::expanded_from(
            s,
            j,
            meaning,
        ),
    decreases j - i,
{
    if i < j {
        lemma_expanded_behind(s, i + 1, j, meaning);
        assert(s.subrange(i, j) =~= seq![s[i]] + s.subrange(i + 1, j));
    }
    assert(s.subrange(i, j) + expand::expanded_from(s, j, meaning) =~= expand::expanded_from(
        s,
        i,
        meaning,
    ));
}

/// The content of an assignment: the blank behind the equals sign goes where no value
/// follows it.
spec fn content_of(key: Seq<char>, value: Seq<char>) -> Seq<char> {
    if value.len() == 0 {
        key + " ="@
    } else {
        assignment(key, value)
    }
}

spec fn is_plain_start(c: char) -> bool {
    c != 'r' && c != 'p' && c != 'b' && c != 'd' && c != 'i' && c != 's'
}

proof fn lemma_trimmed_content(key: Seq<char>, value: Seq<char>)
    requires
        expand::is_name(key),
        value.len() > 0 ==> !text::is_space(value.last()),
    ensures
        text::trimmed_start(assignment(key, value)) == assignment(key, value),
        text::trimmed_end(assignment(key, value)) == content_of(key, value),
        text::trimmed_start(content_of(key, value)) == content_of(key, value),
        !lines::is_comment(assignment(key, value)),
{
    reveal_strlit(" = ");
    reveal_strlit(" =");
    let raw = assignment(key, value);
    let content = content_of(key, value);
    assert(text::belongs(key[0], Class::Dotted));
    assert(raw[0] == key[0]);
    assert(content[0] == key[0]);
    assert(raw.skip(0) =~= raw);
    assert(content.skip(0) =~= content);
    assert(text::first_not_in(raw, 0, Class::Space) == 0);
    assert(text::first_not_in(content, 0, Class::Space) == 0);
    if value.len() == 0 {
        assert(raw.last() == ' ');
        assert(raw.drop_last() =~= content);
        assert(content.last() == '=');
        assert(text::trimmed_end(content) == content);
    } else {
        assert(raw.last() == value.last());
    }
}

proof fn lemma_binding_of(key: Seq<char>, value: Seq<char>)
    requires
        expand::is_name(key),
        value.len() > 0 ==> !text::is_space(value[0]),
    ensures
        statement::binding_of(content_of(key, value)) == Some((key, value)),
{
    reveal_strlit(" = ");
    reveal_strlit(" =");
    let content = content_of(key, value);
    let n = key.len() as int;
    text::lemma_first_in(content, 0, Class::Is('='));
    let equals = text::first_in(content, 0, Class::Is('='));
    assert(content[n] == ' ');
    assert(content[n + 1] == '=');
    assert(equals == n + 1) by {
        if equals < n {
            assert(text::belongs(key[equals], Class::Dotted));
            assert(content[equals] == key[equals]);
        }
    }
    let front = content.take(equals);
    assert(front =~= key.push(' '));
    assert(text::belongs(key[0], Class::Dotted));
    assert(text::first_not_in(front, 0, Class::Space) == 0);
    assert(front.skip(0) =~= front);
    assert(front.drop_last() =~= key);
    assert(text::belongs(key[n - 1], Class::Dotted));
    assert(text::trimmed_end(key) == key);
    assert(text::trimmed(front) == key);
    let back = content.skip(equals + 1);
    if value.len() == 0 {
        assert(back =~= seq![]);
        assert(text::first_not_in(back, 0, Class::Space) == 0);
    } else {
        assert(back =~= seq![' '] + value);
        assert(back[1] == value[0]);
        assert(text::first_not_in(back, 1, Class::Space) == 1);
        assert(text::first_not_in(back, 0, Class::Space) == 1);
    }
    assert(text::trimmed_start(back) =~= value);
}

/// A line that gives a variable a value does so unless it holds a bad escape.
proof fn lemma_assignment_flow(
    settings: Settings,
    file: FileView,
    st: StateView,
    line: usize,
    key: Seq<char>,
    value: Seq<char>,
)
    requires
        expand::is_name(key),
        is_plain_start(key[0]),
        value.len() > 0 ==> !text::is_space(value[0]) && !text::is_space(value.last())
            && value.last() != '$',
    ensures
        match statement::bad_escape(st.manifest.scopes, file.scope, content_of(key, value)) {
            Some((at, newline)) => statement::flow(
                settings,
                file,
                st,
                ParentView::Nothing,
                line,
                assignment(key, value),
            ) == statement::logical_failure(
                file,
                line,
                text::sat(text::byte_len(content_of(key, value).take(at)) + 1),
                statement::escape_message(newline),
                assignment(key, value),
            ),
            None => statement::flow(
                settings,
                file,
                st,
                ParentView::Nothing,
                line,
                assignment(key, value),
            ) == statement::variable_flow(file, st, key, value),
        },
{
    reveal(statement::flow);
    reveal(finalize::finalized);
    reveal_strlit(" = ");
    reveal_strlit(" =");
    reveal_strlit("rule ");
    reveal_strlit("pool ");
    reveal_strlit("build ");
    reveal_strlit("default ");
    reveal_strlit("rule");
    reveal_strlit("pool");
    reveal_strlit("build");
    reveal_strlit("default");
    reveal_strlit("include ");
    reveal_strlit("include");
    reveal_strlit("subninja ");
    reveal_strlit("subninja");
    let raw = assignment(key, value);
    let content = content_of(key, value);
    lemma_trimmed_content(key, value);
    lemma_binding_of(key, value);
    assert(text::belongs(key[0], Class::Dotted));
    assert(raw[0] == key[0]);
    assert(content[0] == key[0]);
    assert(text::first_not_in(raw, 0, Class::Blank) == 0);
    text::lemma_first_in(raw, 0, Class::Is('\t'));
    assert(lines::dollars_at_end(raw) == 0) by {
        if value.len() > 0 {
            assert(raw.last() == value.last());
        } else {
            assert(raw.last() == ' ');
        }
    }
    assert("rule "@[0] == 'r' && "pool "@[0] == 'p' && "build "@[0] == 'b' && "default "@[0] == 'd'
        && "include "@[0] == 'i' && "subninja "@[0] == 's');
    assert("rule"@[0] == 'r' && "pool"@[0] == 'p' && "build"@[0] == 'b' && "default"@[0] == 'd'
        && "include"@[0] == 'i' && "subninja"@[0] == 's');
}

proof fn lemma_remapped_message(
    d: DiagnosticView,
    logical: Seq<char>,
    all: Seq<Seq<char>>,
    k: int,
    start: int,
)
    ensures
        lines::remapped_from(d, logical, all, k, start).message == d.message,
    decreases all.len() - k,
{
    let at = crate::diagnostic::before_column(d.line) + k;
    if 0 <= k && at < all.len() {
        let source = text::without_cr(all[at]);
        let content = source.skip(lines::content_start(source, k));
        let end = start + text::byte_len(
            if lines::is_continued(content) {
                content.drop_last()
            } else {
                content
            },
        );
        lemma_remapped_message(d, logical, all, k + 1, end);
    }
}

pub proof fn lemma_lines_behind(a: Seq<char>, b: Seq<char>, i: int)
    requires
        0 <= i <= b.len(),
    ensures
        text::text_lines(a + b, a.len() + i) == text::text_lines(b, i),
    decreases b.len() - i,
{
    let s = a + b;
    let n = a.len() as int;
    if i < b.len() {
        text::lemma_first_in(s, n + i, Class::Is('\n'));
        text::lemma_first_in(b, i, Class::Is('\n'));
        let x = text::first_in(s, n + i, Class::Is('\n'));
        let y = text::first_in(b, i, Class::Is('\n'));
        assert(x == n + y) by {
            if x < n + y {
                assert(s[x] == b[x - n]);
            }
            if n + y < x {
                assert(s[n + y] == b[y]);
            }
        }
        if y < b.len() {
            lemma_lines_behind(a, b, y + 1);
            assert(s.subrange(n + i, x) =~= b.subrange(i, y));
        } else {
            assert(s.subrange(n + i, s.len() as int) =~= b.subrange(i, b.len() as int));
        }
    }
}

proof fn lemma_two_lines(a: Seq<char>, b: Seq<char>)
    requires
        a.len() > 0,
        b.len() > 0,
        forall|i: int| 0 <= i < a.len() ==> #[trigger] a[i] != '\n',
        forall|i: int| 0 <= i < b.len() ==> #[trigger] b[i] != '\n',
        a.last() != '\r',
        b.last() != '\r',
        a.last() != '$',
        b.last() != '$',
    ensures
        lines::logical(a.push('\n') + b.push('\n')) == seq![(1usize, a), (2usize, b)],
{
    let s = a.push('\n') + b.push('\n');
    let n = a.len() as int;
    text::lemma_first_in(s, 0, Class::Is('\n'));
    let end = text::first_in(s, 0, Class::Is('\n'));
    assert(s[n] == '\n');
    assert(end == n) by {
        if end < n {
            assert(s[end] == a[end]);
        }
    }
    assert(s.subrange(0, n) =~= a);
    lemma_lines_behind(a.push('\n'), b.push('\n'), 0);
    assert(!b.contains('\n'));
    assert(build_log_laws::is_line(b));
    build_log_laws::lemma_one_line(b);
    let all = text::text_lines(s, 0);
    assert(all =~= seq![a, b]);
    assert(lines::dollars_at_end(a) == 0);
    assert(lines::dollars_at_end(b) == 0);
    assert(lines::logical_at(all, 0) == (a, 1int));
    assert(lines::logical_at(all, 1) == (b, 2int));
    assert(lines::logical_from(all, 2) =~= seq![]);
    assert(lines::logical_from(all, 1) =~= seq![(2usize, b)]);
    assert(lines::logical_from(all, 0) =~= seq![(1usize, a), (2usize, b)]);
}

proof fn lemma_literals()
    ensures
        expand::is_name("ninja_required_version"@),
        expand::is_name("value"@),
        is_plain_start("ninja_required_version"@[0]),
        is_plain_start("value"@[0]),
        "ninja_required_version"@ != "value"@,
        " = "@.len() == 3 && " = "@[0] == ' ' && " = "@[1] == '=' && " = "@[2] == ' ',
        "$^"@.len() == 2 && "$^"@[0] == '$' && "$^"@[1] == '^',
{
    reveal_strlit("ninja_required_version");
    reveal_strlit("value");
    reveal_strlit(" = ");
    reveal_strlit("$^");
    let name = "ninja_required_version"@;
    assert(name[0] == 'n' && name[1] == 'i' && name[2] == 'n' && name[3] == 'j' && name[4] == 'a'
        && name[5] == '_' && name[6] == 'r' && name[7] == 'e' && name[8] == 'q' && name[9] == 'u'
        && name[10] == 'i' && name[11] == 'r' && name[12] == 'e' && name[13] == 'd' && name[14]
        == '_' && name[15] == 'v' && name[16] == 'e' && name[17] == 'r' && name[18] == 's'
        && name[19] == 'i' && name[20] == 'o' && name[21] == 'n');
    assert forall|i: int| 0 <= i < name.len() implies text::belongs(
        #[trigger] name[i],
        Class::Dotted,
    ) by {}
    let short = "value"@;
    assert(short[0] == 'v' && short[1] == 'a' && short[2] == 'l' && short[3] == 'u' && short[4]
        == 'e');
    assert(name.len() != short.len());
}

proof fn lemma_assignment_chars(key: Seq<char>, value: Seq<char>)
    requires
        expand::is_name(key),
        forall|i: int| 0 <= i < value.len() ==> #[trigger] value[i] != '\n',
        value.len() > 0 ==> value.last() != '\r' && value.last() != '$',
    ensures
        assignment(key, value).len() == key.len() + 3 + value.len(),
        forall|i: int|
            0 <= i < assignment(key, value).len() ==> #[trigger] assignment(key, value)[i] != '\n',
        assignment(key, value).last() != '\r',
        assignment(key, value).last() != '$',
{
    lemma_literals();
    let raw = assignment(key, value);
    let n = key.len() as int;
    assert(raw[n] == ' ' && raw[n + 1] == '=' && raw[n + 2] == ' ');
    assert forall|i: int| 0 <= i < raw.len() implies #[trigger] raw[i] != '\n' by {
        if i < n {
            assert(text::belongs(key[i], Class::Dotted));
            assert(raw[i] == key[i]);
        } else if i >= n + 3 {
            assert(raw[i] == value[i - n - 3]);
        }
    }
    if value.len() > 0 {
        assert(raw.last() == value.last());
    } else {
        assert(raw.last() == raw[n + 2]);
    }
}

/// The value with the escape, and what is wrong with it, if anything is.
proof fn lemma_gated_value(before: Seq<char>, after: Seq<char>, meaning: expand::Meaning)
    requires
        text::all_in(before, Class::Dotted),
        text::all_in(after, Class::Dotted),
    ensures
        ({
            let value = before + "$^"@ + after;
            let line = assignment("value"@, value);
            &&& expand::expanded(value, meaning) == before.push('\n') + after
            &&& expand::escape_issues(line) == (None::<int>, Some(8 + before.len() as int))
        }),
{
    lemma_literals();
    reveal_strlit("value");
    let value = before + "$^"@ + after;
    let n = before.len() as int;
    assert(value[n] == '$' && value[n + 1] == '^');
    assert forall|k: int| 0 <= k < n implies #[trigger] value[k] != '$' by {
        assert(text::belongs(before[k], Class::Dotted));
        assert(value[k] == before[k]);
    }
    assert forall|k: int| n + 2 <= k < value.len() implies #[trigger] value[k] != '$' by {
        assert(text::belongs(after[k - n - 2], Class::Dotted));
        assert(value[k] == after[k - n - 2]);
    }
    lemma_expanded_behind(value, 0, n, meaning);
    lemma_expanded_behind(value, n + 2, value.len() as int, meaning);
    assert(value.subrange(0, n) =~= before);
    assert(value.subrange(n + 2, value.len() as int) =~= after);
    assert(expand::expanded_from(value, value.len() as int, meaning) =~= seq![]);
    assert(expand::expanded_from(value, n + 2, meaning) =~= after);
    assert(expand::dollar(value, n) == (expand::Dollar::Char('\n'), n + 2));
    assert(expand::expanded_from(value, n, meaning) =~= seq!['\n'] + after);
    assert(expand::expanded(value, meaning) =~= before.push('\n') + after);
    let line = assignment("value"@, value);
    let at = 8 + n;
    assert(line.len() == 8 + value.len());
    assert(line[5] == ' ' && line[6] == '=' && line[7] == ' ');
    assert forall|k: int| 0 <= k < at implies #[trigger] line[k] != '$' by {
        if k < 5 {
            assert(text::belongs("value"@[k], Class::Dotted));
            assert(line[k] == "value"@[k]);
        } else if k >= 8 {
            assert(line[k] == value[k - 8]);
        }
    }
    assert(line[at] == value[n] && line[at + 1] == value[n + 1]);
    assert forall|k: int| at + 2 <= k < line.len() implies #[trigger] line[k] != '$' by {
        assert(line[k] == value[k - 8]);
    }
    lemma_issues_behind(line, 0, at, None);
    expand::lemma_no_issues(line, at + 2, Some(at));
    assert(expand::dollar(line, at) == (expand::Dollar::Char('\n'), at + 2));
}

/// A `$^` is a line feed where the manifest requires a version that has it, and an error
/// otherwise.
pub proof fn law_line_feed_escape_needs_its_version(
    settings: Settings,
    path: Seq<char>,
    v: Seq<char>,
    before: Seq<char>,
    after: Seq<char>,
)
    requires
        text::all_in(v, Class::Dotted),
        text::all_in(before, Class::Dotted),
        text::all_in(after, Class::Dotted),
        !version::precedes("1.14.0"@, v),
    ensures
        match loader::parsed(settings, gated_source(v, before, after), path) {
            Ok(m) => version::has_newline_escape(v) && m.variables.contains_key("value"@)
                && m.variables["value"@] == before.push('\n') + after,
            Err(d) => !version::has_newline_escape(v) && d.message
                == "using $^ escape requires specifying 'ninja_required_version' with version greater or equal 1.14"@,
        },
{
    lemma_literals();
    let source = gated_source(v, before, after);
    let required = "ninja_required_version"@;
    let value = before + "$^"@ + after;
    let first = assignment(required, v);
    let second = assignment("value"@, value);
    assert forall|i: int| 0 <= i < v.len() implies #[trigger] v[i] != '\n' && v[i] != '$'
        && !text::is_space(v[i]) by {
        assert(text::belongs(v[i], Class::Dotted));
    }
    assert forall|i: int| 0 <= i < value.len() implies #[trigger] value[i] != '\n'
        && !text::is_space(value[i]) by {
        let n = before.len() as int;
        if i < n {
            assert(text::belongs(before[i], Class::Dotted));
            assert(value[i] == before[i]);
        } else if i >= n + 2 {
            assert(text::belongs(after[i - n - 2], Class::Dotted));
            assert(value[i] == after[i - n - 2]);
        } else {
            assert(value[n] == '$' && value[n + 1] == '^');
        }
    }
    assert(value.last() != '$') by {
        if after.len() > 0 {
            assert(text::belongs(after.last(), Class::Dotted));
            assert(value.last() == after.last());
        } else {
            assert(value.last() == "$^"@[1]);
        }
    }
    if v.len() > 0 {
        assert(v.last() == v[v.len() - 1]);
    }
    lemma_assignment_chars(required, v);
    lemma_assignment_chars("value"@, value);
    lemma_two_lines(first, second);
    let load = loader::entered(loader::fresh_load(settings, path), path, 0, seq![], source);
    let file = FileView { path, source, scope: 0 };
    let st = load.state;
    assert(loader::frame_lines(load.frames.last()) == seq![(1usize, first), (2usize, second)]);
    // The first line holds no escape.
    let content = content_of(required, v);
    assert forall|k: int| 0 <= k < content.len() implies #[trigger] content[k] != '$' by {
        reveal_strlit(" =");
        let n = required.len() as int;
        if k < n {
            assert(text::belongs(required[k], Class::Dotted));
            assert(content[k] == required[k]);
        } else if k >= n + 3 {
            assert(content[k] == v[k - n - 3]);
        } else if v.len() == 0 {
            assert(content[k] == " ="@[k - n]);
        } else {
            assert(content[k] == " = "@[k - n]);
        }
    }
    expand::lemma_no_issues(content, 0, None);
    lemma_assignment_flow(settings, file, st, 1, required, v);
    assert(!v.contains('$'));
    expand::law_plain_text_expands_to_itself(v, finalize::in_scope(st.manifest.scopes, 0));
    let mid = statement::variable_flow(file, st, required, v)->Next_0;
    let stepped = loader::stepped(load, mid, ParentView::Nothing);
    assert(loader::progress(load, false) == loader::progress(stepped, false));
    assert(manifest::variable_in(mid.manifest.scopes, 0, required) == Some(v));
    // The second line holds the escape.
    lemma_gated_value(before, after, finalize::in_scope(mid.manifest.scopes, 0));
    assert(content_of("value"@, value) == second);
    lemma_assignment_flow(settings, file, mid, 2, "value"@, value);
    assert(stepped.frames.last().next == 1);
    if version::has_newline_escape(v) {
        let end = statement::variable_flow(file, mid, "value"@, value)->Next_0;
        let last = loader::stepped(stepped, end, ParentView::Nothing);
        assert(loader::progress(stepped, false) == loader::progress(last, false));
        assert(source.last() == '\n');
        reveal(finalize::finalized);
        let done = Load {
            frames: last.frames.drop_last(),
            open: last.open.remove(seq![]),
            ..last
        };
        assert(done.frames.len() == 0);
        assert(loader::progress(last, false) == loader::progress(done, false));
        assert(loader::progress(done, false) == ProgressView::Done(end));
        assert(validate::conflict(end.manifest.edges) is None);
    } else {
        let d = crate::diagnostic::bare_diagnostic(
            path,
            2,
            text::sat(text::byte_len(second.take(8 + before.len() as int)) + 1),
            statement::escape_message(true),
        );
        lemma_remapped_message(d, second, text::raw_lines(source, 0), 0, 0);
        assert(loader::progress(stepped, false) is Failed);
    }
}

} // verus!
