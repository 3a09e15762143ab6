//! The text that an edge hands to a shell: its bindings, with the lists of its
//! paths quoted where a shell would split them.
use crate::binding;
use crate::binding::evaluate_with_lists;
use crate::binding::PathLists;
use crate::binding::PathListsView;
use crate::manifest::Edge;
use crate::manifest::EdgeView;
use crate::manifest::Manifest;
use crate::paths::decanonicalize_path;
use crate::text;
use crate::text::chars_of;
use crate::text::find_in;
use crate::text::push_all;
use crate::text::string_of;
use crate::text::Class;
use vstd::prelude::*;
use vstd::string::*;

verus! {

/// Whether a POSIX shell takes the character for itself outside quotes: a
/// letter, a digit, or one of `_+-./`.
pub open spec fn is_plain(c: char) -> bool {
    text::is_alphanumeric(c) || c == '_' || c == '+' || c == '-' || c == '.' || c == '/'
}

/// Whether a path holds white space or a double quote.
pub open spec fn is_split(path: Seq<char>) -> bool {
    path.contains('"') || exists|i: int|
        0 <= i < path.len() && text::belongs(#[trigger] path[i], Class::AsciiSpace)
}

/// `s` from `i` on inside single quotes: a single quote ends the quotes, stands
/// for itself behind a backslash, and the quotes begin anew.
pub open spec fn posix_quoted(s: Seq<char>, i: int) -> Seq<char>
    decreases s.len() - i,
{
    if i < 0 || i >= s.len() {
        seq![]
    } else if s[i] == '\'' {
        seq!['\'', '\\', '\'', '\''] + posix_quoted(s, i + 1)
    } else {
        seq![s[i]] + posix_quoted(s, i + 1)
    }
}

pub open spec fn backslashes(n: nat) -> Seq<char> {
    Seq::new(n, |i: int| '\\')
}

/// `s` from `i` on inside double quotes, behind `n` backslashes: backslashes
/// before a double quote are doubled, and the quote has one of its own.
pub open spec fn windows_quoted(s: Seq<char>, i: int, n: nat) -> Seq<char>
    decreases s.len() - i,
{
    if i < 0 || i >= s.len() {
        backslashes(2 * n)
    } else if s[i] == '\\' {
        windows_quoted(s, i + 1, n + 1)
    } else if s[i] == '"' {
        backslashes(2 * n + 1) + seq!['"'] + windows_quoted(s, i + 1, 0)
    } else {
        backslashes(n) + seq![s[i]] + windows_quoted(s, i + 1, 0)
    }
}

/// A path as a word of a command line.
pub open spec fn escaped(path: Seq<char>, windows: bool) -> Seq<char> {
    if windows {
        if is_split(path) {
            seq!['"'] + windows_quoted(path, 0, 0) + seq!['"']
        } else {
            path
        }
    } else if forall|i: int| 0 <= i < path.len() ==> is_plain(#[trigger] path[i]) {
        path
    } else {
        seq!['\''] + posix_quoted(path, 0) + seq!['\'']
    }
}

fn plain(c: char) -> (r: bool)
    ensures
        r == is_plain(c),
{
    (c >= 'a' && c <= 'z') || (c >= 'A' && c <= 'Z') || (c >= '0' && c <= '9') || c == '_' || c
        == '+' || c == '-' || c == '.' || c == '/'
}

fn all_plain(s: &[char]) -> (r: bool)
    ensures
        r == (forall|i: int| 0 <= i < s@.len() ==> is_plain(#[trigger] s@[i])),
{
    let mut i: usize = 0;
    while i < s.len()
        invariant
            i <= s@.len(),
            forall|k: int| 0 <= k < i ==> is_plain(#[trigger] s@[k]),
        decreases s@.len() - i,
    {
        if !plain(s[i]) {
            return false;
        }
        i += 1;
    }
    true
}

fn splits(path: &[char]) -> (r: bool)
    ensures
        r == is_split(path@),
{
    let quote: usize = find_in(path, 0, Class::Is('"'));
    let space: usize = find_in(path, 0, Class::AsciiSpace);
    proof {
        text::lemma_first_in(path@, 0, Class::Is('"'));
        text::lemma_first_in(path@, 0, Class::AsciiSpace);
        if quote < path@.len() {
            assert(path@[quote as int] == '"');
        } else if path@.contains('"') {
            let k = choose|k: int| 0 <= k < path@.len() && path@[k] == '"';
            assert(text::belongs(path@[k], Class::Is('"')));
        }
    }
    quote < path.len() || space < path.len()
}

fn push_backslashes(out: &mut Vec<char>, n: usize)
    ensures
        final(out)@ == old(out)@ + backslashes(n as nat),
{
    let ghost before = out@;
    let mut i: usize = 0;
    proof {
        assert(before + backslashes(0) =~= before);
    }
    while i < n
        invariant
            i <= n,
            out@ == before + backslashes(i as nat),
        decreases n - i,
    {
        out.push('\\');
        i += 1;
        proof {
            assert(out@ =~= before + backslashes(i as nat));
        }
    }
}

/// A path as a word of a command line.
pub fn shell_escape_path(path: &str, windows: bool) -> (r: String)
    ensures
        r@ == escaped(path@, windows),
{
    let s: Vec<char> = chars_of(path);
    let mut out: Vec<char> = Vec::new();
    if windows {
        if !splits(s.as_slice()) {
            return path.to_owned();
        }
        out.push('"');
        let mut pending: usize = 0;
        let mut i: usize = 0;
        proof {
            assert(out@ =~= seq!['"']);
        }
        while i < s.len()
            invariant
                s@ == path@,
                pending <= i <= s@.len(),
                out@ + windows_quoted(s@, i as int, pending as nat) =~= seq!['"']
                    + windows_quoted(s@, 0, 0),
            decreases s@.len() - i,
        {
            let c: char = s[i];
            let ghost before = out@;
            let ghost rest = windows_quoted(s@, i + 1, 0);
            if c == '\\' {
                pending += 1;
            } else if c == '"' {
                push_backslashes(&mut out, pending);
                push_backslashes(&mut out, pending);
                out.push('\\');
                out.push('"');
                proof {
                    let n = pending as nat;
                    assert(backslashes(n) + backslashes(n) + seq!['\\'] =~= backslashes(2 * n + 1));
                    assert(out@ + rest =~= before + (backslashes(2 * n + 1) + seq!['"'] + rest));
                }
                pending = 0;
            } else {
                push_backslashes(&mut out, pending);
                out.push(c);
                proof {
                    let n = pending as nat;
                    assert(out@ + rest =~= before + (backslashes(n) + seq![c] + rest));
                }
                pending = 0;
            }
            i += 1;
        }
        let ghost before = out@;
        push_backslashes(&mut out, pending);
        push_backslashes(&mut out, pending);
        proof {
            let n = pending as nat;
            assert(backslashes(n) + backslashes(n) =~= backslashes(2 * n));
            assert(out@ =~= before + backslashes(2 * n));
        }
        out.push('"');
        return string_of(out.as_slice());
    }
    if all_plain(s.as_slice()) {
        return path.to_owned();
    }
    out.push('\'');
    let mut i: usize = 0;
    proof {
        assert(out@ =~= seq!['\'']);
    }
    while i < s.len()
        invariant
            s@ == path@,
            i <= s@.len(),
            out@ + posix_quoted(s@, i as int) =~= seq!['\''] + posix_quoted(s@, 0),
        decreases s@.len() - i,
    {
        let ghost before = out@;
        let ghost rest = posix_quoted(s@, i + 1);
        if s[i] == '\'' {
            out.push('\'');
            out.push('\\');
            out.push('\'');
            out.push('\'');
            proof {
                assert(out@ + rest =~= before + (seq!['\'', '\\', '\'', '\''] + rest));
            }
        } else {
            out.push(s[i]);
            proof {
                assert(out@ + rest =~= before + (seq![s@[i as int]] + rest));
            }
        }
        i += 1;
    }
    out.push('\'');
    string_of(out.as_slice())
}

/// The paths of `list` with their backslashes, and a separator between them. Where
/// `quoting` tells the system, paths that its shell would split are escaped.
pub open spec fn listed(
    list: Seq<Seq<char>>,
    bits: Seq<u64>,
    separator: char,
    quoting: Option<bool>,
    n: int,
) -> Seq<char>
    decreases n,
{
    if n <= 0 {
        seq![]
    } else {
        let before = listed(list, bits, separator, quoting, n - 1);
        let path = binding::written(list, bits, n - 1);
        let word = match quoting {
            Some(windows) => if is_split(path) {
                escaped(path, windows)
            } else {
                path
            },
            None => path,
        };
        if n == 1 {
            word
        } else {
            before.push(separator) + word
        }
    }
}

fn append_path_list(
    paths: &Vec<String>,
    bits: &[u64],
    separator: char,
    quoting: Option<bool>,
) -> (r: String)
    ensures
        r@ == listed(text::strings(paths@), bits@, separator, quoting, paths@.len() as int),
{
    let ghost list = text::strings(paths@);
    let mut out: Vec<char> = Vec::new();
    let mut i: usize = 0;
    while i < paths.len()
        invariant
            i <= paths@.len(),
            list == text::strings(paths@),
            out@ == listed(list, bits@, separator, quoting, i as int),
        decreases paths@.len() - i,
    {
        let ghost before = out@;
        if i > 0 {
            out.push(separator);
        }
        let b: u64 = if i < bits.len() {
            bits[i]
        } else {
            0
        };
        let written: String = decanonicalize_path(paths[i].as_str(), b);
        let path: Vec<char> = chars_of(written.as_str());
        proof {
            assert(binding::written(list, bits@, i as int) == path@);
            assert(i == 0 ==> before =~= seq![]);
        }
        match quoting {
            Some(windows) => {
                if splits(path.as_slice()) {
                    let word: String = shell_escape_path(written.as_str(), windows);
                    push_all(&mut out, chars_of(word.as_str()).as_slice());
                } else {
                    push_all(&mut out, path.as_slice());
                }
            },
            None => {
                push_all(&mut out, path.as_slice());
            },
        }
        i += 1;
        proof {
            assert(out@ =~= listed(list, bits@, separator, quoting, i as int));
        }
    }
    string_of(out.as_slice())
}

/// The lists of paths that an edge gives to its rule, with their separators as they were
/// first written.
pub open spec fn lists_of(e: EdgeView, quoting: Option<bool>) -> PathListsView {
    let n = e.explicit_inputs.len() as int;
    PathListsView {
        inputs: listed(e.explicit_inputs, binding::input_bits(e), ' ', quoting, n),
        input_lines: listed(e.explicit_inputs, binding::input_bits(e), '\n', quoting, n),
        outputs: listed(
            e.explicit_outputs,
            binding::output_bits(e),
            ' ',
            quoting,
            e.explicit_outputs.len() as int,
        ),
    }
}

fn path_lists(edge: &Edge, quoting: Option<bool>) -> (r: PathLists)
    ensures
        r@ == lists_of(edge.deep_view(), quoting),
{
    PathLists {
        inputs: append_path_list(
            &edge.explicit_inputs,
            edge.explicit_input_slash_bits(),
            ' ',
            quoting,
        ),
        input_lines: append_path_list(
            &edge.explicit_inputs,
            edge.explicit_input_slash_bits(),
            '\n',
            quoting,
        ),
        outputs: append_path_list(
            &edge.explicit_outputs,
            edge.explicit_output_slash_bits(),
            ' ',
            quoting,
        ),
    }
}

/// The value of a binding of an edge, for a command line.
pub fn render_binding(manifest: &Manifest, edge: &Edge, name: &str, windows: bool) -> (r: String)
    ensures
        r@ == binding::valued(
            manifest.deep_view().scopes,
            edge.deep_view(),
            lists_of(edge.deep_view(), Some(windows)),
            name@,
            0,
        ),
{
    let lists: PathLists = path_lists(edge, Some(windows));
    evaluate_with_lists(manifest, edge, &lists, name, 0)
}

/// The value of a binding of an edge, with its paths as they are: for the name
/// of a file.
pub fn render_unescaped_binding(manifest: &Manifest, edge: &Edge, name: &str) -> (r: String)
    ensures
        r@ == binding::valued(
            manifest.deep_view().scopes,
            edge.deep_view(),
            lists_of(edge.deep_view(), None),
            name@,
            0,
        ),
{
    let lists: PathLists = path_lists(edge, None);
    evaluate_with_lists(manifest, edge, &lists, name, 0)
}

/// The word that a POSIX shell reads at the beginning of `s`. Single quotes
/// enclose text, a backslash outside quotes gives the character behind it, and a
/// character that is not plain ends the word.
pub open spec fn posix_word(s: Seq<char>, quoted: bool) -> Seq<char>
    decreases s.len(),
{
    if s.len() == 0 {
        seq![]
    } else if s[0] == '\'' {
        posix_word(s.skip(1), !quoted)
    } else if quoted || is_plain(s[0]) {
        seq![s[0]] + posix_word(s.skip(1), quoted)
    } else if s[0] == '\\' && s.len() > 1 {
        seq![s[1]] + posix_word(s.skip(2), quoted)
    } else {
        seq![]
    }
}

/// The argument that a Windows program reads at the beginning of `s`, behind `n`
/// backslashes. Double quotes enclose text; before a double quote each two
/// backslashes are one, and one that is left over gives the quote itself; white
/// space outside quotes ends the argument.
pub open spec fn windows_argument(s: Seq<char>, n: nat, quoted: bool) -> Seq<char>
    decreases s.len(),
{
    if s.len() == 0 {
        backslashes(n)
    } else if s[0] == '\\' {
        windows_argument(s.skip(1), n + 1, quoted)
    } else if s[0] == '"' {
        if n % 2 == 1 {
            backslashes(n / 2) + seq!['"'] + windows_argument(s.skip(1), 0, quoted)
        } else {
            backslashes(n / 2) + windows_argument(s.skip(1), 0, !quoted)
        }
    } else if !quoted && text::belongs(s[0], Class::AsciiSpace) {
        backslashes(n)
    } else {
        backslashes(n) + seq![s[0]] + windows_argument(s.skip(1), 0, quoted)
    }
}

proof fn lemma_plain_word(s: Seq<char>)
    requires
        forall|i: int| 0 <= i < s.len() ==> is_plain(#[trigger] s[i]),
    ensures
        posix_word(s, false) == s,
    decreases s.len(),
{
    if s.len() > 0 {
        let rest = s.skip(1);
        assert forall|i: int| 0 <= i < rest.len() implies is_plain(#[trigger] rest[i]) by {
            assert(rest[i] == s[i + 1]);
        }
        lemma_plain_word(rest);
        assert(is_plain(s[0]));
        assert(s =~= seq![s[0]] + rest);
    } else {
        assert(s =~= seq![]);
    }
}

proof fn lemma_quoted_word(s: Seq<char>, i: int)
    requires
        0 <= i <= s.len(),
    ensures
        posix_word(posix_quoted(s, i) + seq!['\''], true) == s.skip(i),
    decreases s.len() - i,
{
    let t = posix_quoted(s, i) + seq!['\''];
    if i == s.len() {
        assert(t =~= seq!['\'']);
        assert(t.skip(1) =~= seq![]);
        assert(posix_word(t.skip(1), false) =~= seq![]);
        assert(s.skip(i) =~= seq![]);
    } else {
        let rest = posix_quoted(s, i + 1) + seq!['\''];
        lemma_quoted_word(s, i + 1);
        assert(s.skip(i) =~= seq![s[i]] + s.skip(i + 1));
        if s[i] == '\'' {
            let a = t.skip(1);
            let b = a.skip(2);
            assert(t =~= seq!['\'', '\\', '\'', '\''] + rest);
            assert(a[0] == '\\');
            assert(a[1] == '\'');
            assert(b[0] == '\'');
            assert(b.skip(1) =~= rest);
            assert(posix_word(b, false) == posix_word(rest, true));
            assert(posix_word(a, false) == seq!['\''] + posix_word(b, false));
            assert(posix_word(t, true) == posix_word(a, false));
        } else {
            assert(t =~= seq![s[i]] + rest);
            assert(t.skip(1) =~= rest);
        }
    }
}

proof fn lemma_read_backslashes(k: nat, rest: Seq<char>, n: nat, quoted: bool)
    ensures
        windows_argument(backslashes(k) + rest, n, quoted) == windows_argument(
            rest,
            n + k,
            quoted,
        ),
    decreases k,
{
    let s = backslashes(k) + rest;
    if k == 0 {
        assert(s =~= rest);
    } else {
        assert(s.skip(1) =~= backslashes((k - 1) as nat) + rest);
        lemma_read_backslashes((k - 1) as nat, rest, n + 1, quoted);
    }
}

proof fn lemma_quoted_argument(s: Seq<char>, i: int, n: nat)
    requires
        0 <= i <= s.len(),
    ensures
        windows_argument(windows_quoted(s, i, n) + seq!['"'], 0, true) == backslashes(n) + s.skip(
            i,
        ),
    decreases s.len() - i,
{
    let end = seq!['"'];
    let t = windows_quoted(s, i, n) + end;
    if i == s.len() {
        lemma_read_backslashes(2 * n, end, 0, true);
        assert(end.skip(1) =~= seq![]);
        assert(backslashes(n) + backslashes(0) =~= backslashes(n) + s.skip(i));
        assert(windows_argument(end.skip(1), 0, false) == backslashes(0));
    } else {
        assert(s.skip(i) =~= seq![s[i]] + s.skip(i + 1));
        if s[i] == '\\' {
            lemma_quoted_argument(s, i + 1, n + 1);
            assert(backslashes(n + 1) + s.skip(i + 1) =~= backslashes(n) + s.skip(i));
        } else {
            let rest = windows_quoted(s, i + 1, 0) + end;
            lemma_quoted_argument(s, i + 1, 0);
            assert(backslashes(0) + s.skip(i + 1) =~= s.skip(i + 1));
            let here = seq![s[i]] + rest;
            assert(here.skip(1) =~= rest);
            if s[i] == '"' {
                assert(t =~= backslashes(2 * n + 1) + here);
                lemma_read_backslashes(2 * n + 1, here, 0, true);
                assert((2 * n + 1) as nat / 2 == n);
                assert(backslashes(n) + seq!['"'] + s.skip(i + 1) =~= backslashes(n) + s.skip(i));
            } else {
                assert(t =~= backslashes(n) + here);
                lemma_read_backslashes(n, here, 0, true);
                assert(backslashes(n) + seq![s[i]] + s.skip(i + 1) =~= backslashes(n) + s.skip(i));
            }
        }
    }
}

proof fn lemma_unsplit_argument(s: Seq<char>, n: nat)
    requires
        !is_split(s),
    ensures
        windows_argument(s, n, false) == backslashes(n) + s,
    decreases s.len(),
{
    if s.len() == 0 {
        assert(backslashes(n) + s =~= backslashes(n));
    } else {
        let rest = s.skip(1);
        assert(!is_split(rest)) by {
            if rest.contains('"') {
                let k = choose|k: int| 0 <= k < rest.len() && rest[k] == '"';
                assert(s[k + 1] == '"');
            }
            if exists|i: int|
                0 <= i < rest.len() && text::belongs(#[trigger] rest[i], Class::AsciiSpace) {
                let k = choose|i: int|
                    0 <= i < rest.len() && text::belongs(#[trigger] rest[i], Class::AsciiSpace);
                assert(text::belongs(s[k + 1], Class::AsciiSpace));
            }
        }
        assert(s[0] != '"');
        assert(!text::belongs(s[0], Class::AsciiSpace));
        if s[0] == '\\' {
            lemma_unsplit_argument(rest, n + 1);
            assert(backslashes(n + 1) + rest =~= backslashes(n) + s);
        } else {
            lemma_unsplit_argument(rest, 0);
            assert(backslashes(n) + seq![s[0]] + (backslashes(0) + rest) =~= backslashes(n) + s);
        }
    }
}

/// A POSIX shell reads an escaped path as one word, which is the path.
pub proof fn law_posix_shell_reads_the_path(path: Seq<char>)
    ensures
        posix_word(escaped(path, false), false) == path,
{
    if forall|i: int| 0 <= i < path.len() ==> is_plain(#[trigger] path[i]) {
        lemma_plain_word(path);
    } else {
        let e = escaped(path, false);
        lemma_quoted_word(path, 0);
        assert(e.skip(1) =~= posix_quoted(path, 0) + seq!['\'']);
        assert(path.skip(0) =~= path);
    }
}

/// A Windows program reads an escaped path as one argument, which is the path.
pub proof fn law_windows_program_reads_the_path(path: Seq<char>)
    ensures
        windows_argument(escaped(path, true), 0, false) == path,
{
    if is_split(path) {
        let e = escaped(path, true);
        lemma_quoted_argument(path, 0, 0);
        assert(e.skip(1) =~= windows_quoted(path, 0, 0) + seq!['"']);
        assert(backslashes(0) + (backslashes(0) + path.skip(0)) =~= path);
        assert(e[0] == '"');
        assert(backslashes(0) + windows_argument(e.skip(1), 0, true) =~= path);
    } else {
        lemma_unsplit_argument(path, 0);
        assert(backslashes(0) + path =~= path);
    }
}

/// Unescaped, the paths of an edge are on the lists as its bindings see them.
pub proof fn law_unescaped_lists_are_those_of_the_bindings(e: EdgeView)
    ensures
        lists_of(e, None) == binding::written_lists(e),
{
    lemma_unescaped_list(
        e.explicit_inputs,
        binding::input_bits(e),
        ' ',
        e.explicit_inputs.len() as int,
    );
    lemma_unescaped_list(
        e.explicit_inputs,
        binding::input_bits(e),
        '\n',
        e.explicit_inputs.len() as int,
    );
    lemma_unescaped_list(
        e.explicit_outputs,
        binding::output_bits(e),
        ' ',
        e.explicit_outputs.len() as int,
    );
}

proof fn lemma_unescaped_list(list: Seq<Seq<char>>, bits: Seq<u64>, separator: char, n: int)
    ensures
        listed(list, bits, separator, None, n) == binding::joined(list, bits, separator, n),
    decreases n,
{
    if n > 0 {
        lemma_unescaped_list(list, bits, separator, n - 1);
    }
}

} // verus!
