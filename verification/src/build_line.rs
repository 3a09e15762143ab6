//! The syntax of a build statement:
//! `outputs | implicit outputs: rule inputs | implicit || order-only |@ validations`.
use crate::collections::map_new;
use crate::diagnostic;
use crate::diagnostic::Diagnostic;
use crate::diagnostic::DiagnosticView;
use crate::expand;
use crate::manifest::Edge;
use crate::manifest::EdgeView;
use crate::paths;
use crate::paths::canonicalize_owned_path_with_bits;
use crate::text;
use crate::text::find_in;
use crate::text::find_not_in;
use crate::text::in_class;
use crate::text::string_of;
use crate::text::width;
use crate::text::Class;
use vstd::prelude::*;
use vstd::slice::slice_subrange;
use vstd::string::*;

verus! {

#[derive(Clone, Copy, PartialEq, Eq, Structural)]
pub enum Kind {
    Word,
    Colon,
    Pipe,
    Pipe2,
    Validation,
}

/// A token and the positions that it lies between.
#[derive(Clone, Copy)]
pub struct Token {
    pub kind: Kind,
    pub start: usize,
    pub end: usize,
}

/// The end of the word at `i`. A dollar sign takes the next character in.
pub open spec fn word_end(s: Seq<char>, i: int) -> int
    decreases s.len() - i,
{
    if i < 0 || i >= s.len() {
        s.len() as int
    } else if s[i] == '$' && i + 1 < s.len() {
        word_end(s, i + 2)
    } else if text::belongs(s[i], Class::Blank) || s[i] == ':' || s[i] == '|' {
        i
    } else {
        word_end(s, i + 1)
    }
}

/// The token at `i`, where there is no blank.
pub open spec fn token_at(s: Seq<char>, i: int) -> Token {
    let (kind, end) = if s[i] == ':' {
        (Kind::Colon, i + 1)
    } else if s[i] == '|' {
        if i + 1 < s.len() && s[i + 1] == '|' {
            (Kind::Pipe2, i + 2)
        } else if i + 1 < s.len() && s[i + 1] == '@' {
            (Kind::Validation, i + 2)
        } else {
            (Kind::Pipe, i + 1)
        }
    } else {
        (Kind::Word, word_end(s, i))
    };
    Token { kind, start: i as usize, end: end as usize }
}

/// The tokens of `s` from `i` on.
pub open spec fn tokens_from(s: Seq<char>, i: int) -> Seq<Token>
    decreases s.len() - i,
{
    let start = text::first_not_in(s, i, Class::Blank);
    if i < 0 || start < i || start >= s.len() {
        seq![]
    } else {
        let token = token_at(s, start);
        if start < token.end <= s.len() {
            seq![token] + tokens_from(s, token.end as int)
        } else {
            seq![]
        }
    }
}

fn find_word_end(s: &[char], i: usize) -> (r: usize)
    requires
        i < s@.len(),
        !text::belongs(s@[i as int], Class::Blank) && s@[i as int] != ':' && s@[i as int] != '|',
    ensures
        r == word_end(s@, i as int),
        i < r <= s@.len(),
{
    let n: usize = s.len();
    let mut j: usize = i;
    while j < n
        invariant
            n == s@.len(),
            i <= j <= n,
            i < n,
            j == i ==> !text::belongs(s@[i as int], Class::Blank) && s@[i as int] != ':'
                && s@[i as int] != '|',
            word_end(s@, i as int) == word_end(s@, j as int),
        decreases n - j,
    {
        let c: char = s[j];
        if c == '$' && n - j > 1 {
            j += 2;
        } else if in_class(c, Class::Blank) || c == ':' || c == '|' {
            return j;
        } else {
            j += 1;
        }
    }
    j
}

/// The tokens of a build statement.
pub fn lex_build(s: &[char]) -> (r: Vec<Token>)
    ensures
        r@ == tokens_from(s@, 0),
        forall|k: int|
            0 <= k < r@.len() ==> (#[trigger] r@[k]).start < r@[k].end <= s@.len(),
{
    let n: usize = s.len();
    let mut r: Vec<Token> = Vec::new();
    let mut i: usize = 0;
    loop
        invariant
            n == s@.len(),
            i <= n,
            r@ + tokens_from(s@, i as int) =~= tokens_from(s@, 0),
            forall|k: int|
                0 <= k < r@.len() ==> (#[trigger] r@[k]).start < r@[k].end <= s@.len(),
        decreases n - i,
    {
        let start: usize = find_not_in(s, i, Class::Blank);
        if start == n {
            return r;
        }
        let c: char = s[start];
        let (kind, end) = if c == ':' {
            (Kind::Colon, start + 1)
        } else if c == '|' {
            if n - start > 1 && s[start + 1] == '|' {
                (Kind::Pipe2, start + 2)
            } else if n - start > 1 && s[start + 1] == '@' {
                (Kind::Validation, start + 2)
            } else {
                (Kind::Pipe, start + 1)
            }
        } else {
            (Kind::Word, find_word_end(s, start))
        };
        r.push(Token { kind, start, end });
        i = end;
    }
}

/// The position of token `k`, and the end of the text where there is no such
/// token.
pub open spec fn token_start(s: Seq<char>, tokens: Seq<Token>, k: int) -> int {
    if k < tokens.len() {
        tokens[k].start as int
    } else {
        s.len() as int
    }
}

/// The number of bytes before token `target`.
pub fn build_token_offset(s: &[char], tokens: &Vec<Token>, target: usize) -> (r: usize)
    requires
        tokens@ == tokens_from(s@, 0),
        forall|k: int|
            0 <= k < tokens@.len() ==> (#[trigger] tokens@[k]).start < tokens@[k].end <= s@.len(),
    ensures
        r == text::sat(
            text::byte_len(s@.take(token_start(s@, tokens@, target as int))),
        ),
{
    let at: usize = if target < tokens.len() {
        tokens[target].start
    } else {
        s.len()
    };
    proof {
        assert(s@.subrange(0, at as int) =~= s@.take(at as int));
    }
    width(slice_subrange(s, 0, at))
}

/// The column, in a line that begins with `build `, of token `k`.
pub open spec fn token_column(s: Seq<char>, tokens: Seq<Token>, k: int) -> usize {
    text::sat(6 + text::byte_len(s.take(token_start(s, tokens, k))) + 1)
}

/// How a token other than a word is written.
pub open spec fn symbol(kind: Kind) -> Seq<char> {
    match kind {
        Kind::Word => "identifier"@,
        Kind::Colon => "':'"@,
        Kind::Pipe => "'|'"@,
        Kind::Pipe2 => "'||'"@,
        Kind::Validation => "'|@'"@,
    }
}

fn symbol_of(kind: Kind) -> (r: &'static str)
    ensures
        r@ == symbol(kind),
{
    match kind {
        Kind::Word => "identifier",
        Kind::Colon => "':'",
        Kind::Pipe => "'|'",
        Kind::Pipe2 => "'||'",
        Kind::Validation => "'|@'",
    }
}

/// The first colon among the tokens from `k` on, and their number where there
/// is none.
pub open spec fn first_colon(tokens: Seq<Token>, k: int) -> int
    decreases tokens.len() - k,
{
    if k < 0 || k >= tokens.len() {
        tokens.len() as int
    } else if tokens[k].kind == Kind::Colon {
        k
    } else {
        first_colon(tokens, k + 1)
    }
}

/// An edge without paths.
pub open spec fn empty_edge(path: Seq<char>, line: usize) -> EdgeView {
    EdgeView {
        explicit_outputs: seq![],
        implicit_outputs: seq![],
        rule: seq![],
        explicit_inputs: seq![],
        implicit_inputs: seq![],
        order_only_inputs: seq![],
        validations: seq![],
        bindings: Map::empty(),
        source: path,
        line,
        scope: 0,
        slash_bits: seq![],
    }
}

pub open spec fn word(s: Seq<char>, token: Token) -> Seq<char> {
    s.subrange(token.start as int, token.end as int)
}

/// The path that a word names, with its slash bits. A word with a dollar sign has to wait
/// for its variables: it stays as it is written.
pub open spec fn path_of(word: Seq<char>, windows: bool) -> (Seq<char>, u64) {
    if word.contains('$') {
        (word, 0)
    } else {
        (paths::canonical(word, windows).0, paths::canonical(word, windows).1 as u64)
    }
}

/// An edge whose build statement has been read, and the slash bits of its paths, in the
/// order in which they are written.
#[verifier::ext_equal]
pub struct Draft {
    pub edge: EdgeView,
    pub bits: Seq<u64>,
}

pub open spec fn empty_draft(path: Seq<char>, line: usize) -> Draft {
    Draft { edge: empty_edge(path, line), bits: seq![] }
}

/// `d` with one more output.
pub open spec fn with_output(d: Draft, implicit: bool, path: (Seq<char>, u64)) -> Draft {
    let e = d.edge;
    Draft {
        edge: if implicit {
            EdgeView { implicit_outputs: e.implicit_outputs.push(path.0), ..e }
        } else {
            EdgeView { explicit_outputs: e.explicit_outputs.push(path.0), ..e }
        },
        bits: d.bits.push(path.1),
    }
}

/// `d` with the outputs that the tokens from `k` to the colon name. An error is
/// the number of the token that is out of place.
pub open spec fn with_outputs(
    s: Seq<char>,
    tokens: Seq<Token>,
    k: int,
    colon: int,
    implicit: bool,
    windows: bool,
    d: Draft,
) -> Result<Draft, int>
    decreases colon - k,
{
    if k >= colon {
        Ok(d)
    } else if tokens[k].kind == Kind::Pipe && !implicit {
        with_outputs(s, tokens, k + 1, colon, true, windows, d)
    } else if tokens[k].kind == Kind::Word {
        let longer = with_output(d, implicit, path_of(word(s, tokens[k]), windows));
        with_outputs(s, tokens, k + 1, colon, implicit, windows, longer)
    } else {
        Err(k)
    }
}

/// The lists of inputs, in the order in which they must come.
#[derive(Clone, Copy, PartialEq, Eq, Structural)]
pub enum Inputs {
    Explicit,
    Implicit,
    OrderOnly,
    Validation,
}

pub open spec fn rank(list: Inputs) -> int {
    match list {
        Inputs::Explicit => 0,
        Inputs::Implicit => 1,
        Inputs::OrderOnly => 2,
        Inputs::Validation => 3,
    }
}

/// The list of inputs that a token begins, if it begins one.
pub open spec fn begins(kind: Kind) -> Option<Inputs> {
    match kind {
        Kind::Pipe => Some(Inputs::Implicit),
        Kind::Pipe2 => Some(Inputs::OrderOnly),
        Kind::Validation => Some(Inputs::Validation),
        _ => None,
    }
}

/// `d` with one more input.
pub open spec fn with_input(d: Draft, list: Inputs, path: (Seq<char>, u64)) -> Draft {
    let e = d.edge;
    let p = path.0;
    Draft {
        edge: match list {
            Inputs::Explicit => EdgeView { explicit_inputs: e.explicit_inputs.push(p), ..e },
            Inputs::Implicit => EdgeView { implicit_inputs: e.implicit_inputs.push(p), ..e },
            Inputs::OrderOnly => EdgeView { order_only_inputs: e.order_only_inputs.push(p), ..e },
            Inputs::Validation => EdgeView { validations: e.validations.push(p), ..e },
        },
        bits: d.bits.push(path.1),
    }
}

/// `d` with the inputs that the tokens from `k` on name. An error is the number
/// of the token that is out of place.
pub open spec fn with_inputs(
    s: Seq<char>,
    tokens: Seq<Token>,
    k: int,
    list: Inputs,
    windows: bool,
    d: Draft,
) -> Result<Draft, int>
    decreases tokens.len() - k,
{
    if k < 0 || k >= tokens.len() {
        Ok(d)
    } else if tokens[k].kind == Kind::Word {
        let longer = with_input(d, list, path_of(word(s, tokens[k]), windows));
        with_inputs(s, tokens, k + 1, list, windows, longer)
    } else {
        match begins(tokens[k].kind) {
            Some(next) => if rank(list) < rank(next) {
                with_inputs(s, tokens, k + 1, next, windows, d)
            } else {
                Err(k)
            },
            None => Err(k),
        }
    }
}

/// The edge that a build statement declares, or what is wrong with it. `s` is what follows
/// `build `.
pub open spec fn edge_of(
    s: Seq<char>,
    path: Seq<char>,
    line: usize,
    ninja: bool,
    windows: bool,
) -> Result<Draft, DiagnosticView> {
    let tokens = tokens_from(s, 0);
    let colon = first_colon(tokens, 0);
    if colon >= tokens.len() {
        Err(
            diagnostic::bare_diagnostic(
                path,
                line,
                text::sat(6 + s.len() as int + 1),
                "expected ':', got newline ($ also escapes ':')"@,
            ),
        )
    } else {
        match with_outputs(s, tokens, 0, colon, false, windows, empty_draft(path, line)) {
            Err(k) => Err(
                diagnostic::bare_diagnostic(
                    path,
                    line,
                    token_column(s, tokens, k),
                    "expected ':', got "@ + symbol(tokens[k].kind) + " ($ also escapes ':')"@,
                ),
            ),
            Ok(d) => if d.edge.explicit_outputs.len() == 0 && d.edge.implicit_outputs.len() == 0 {
                Err(diagnostic::bare_diagnostic(path, line, 1, "build edge has no outputs"@))
            } else if colon + 1 >= tokens.len() || tokens[colon + 1].kind != Kind::Word {
                Err(
                    diagnostic::bare_diagnostic(
                        path,
                        line,
                        token_column(s, tokens, colon + 1),
                        if ninja {
                            "expected build command name"@
                        } else {
                            "expected build rule after ':'"@
                        },
                    ),
                )
            } else {
                let named = Draft {
                    edge: EdgeView { rule: word(s, tokens[colon + 1]), ..d.edge },
                    ..d
                };
                match with_inputs(s, tokens, colon + 2, Inputs::Explicit, windows, named) {
                    Ok(full) => Ok(full),
                    Err(k) => Err(
                        diagnostic::bare_diagnostic(
                            path,
                            line,
                            token_column(s, tokens, k),
                            "expected newline, got "@ + symbol(tokens[k].kind),
                        ),
                    ),
                }
            },
        }
    }
}

/// Appends the path that the word of a token names to a list, and its slash bits to `bits`.
fn push_path(
    list: &mut Vec<String>,
    bits: &mut Vec<u64>,
    s: &[char],
    token: Token,
    windows: bool,
)
    requires
        token.start <= token.end <= s@.len(),
    ensures
        text::strings(final(list)@) == text::strings(old(list)@).push(
            path_of(word(s@, token), windows).0,
        ),
        final(bits)@ == old(bits)@.push(path_of(word(s@, token), windows).1),
{
    let ghost before = text::strings(list@);
    let chars: &[char] = slice_subrange(s, token.start, token.end);
    let deferred: bool = find_in(chars, 0, Class::Is('$')) < chars.len();
    proof {
        assert(deferred == chars@.contains('$')) by {
            text::lemma_first_in(chars@, 0, Class::Is('$'));
        }
    }
    let (path, b) = if deferred {
        (string_of(chars), 0)
    } else {
        canonicalize_owned_path_with_bits(string_of(chars), windows)
    };
    let ghost view = path@;
    list.push(path);
    bits.push(b);
    proof {
        assert(text::strings(list@) =~= before.push(view));
    }
}

fn token_diagnostic(
    s: &[char],
    tokens: &Vec<Token>,
    k: usize,
    path: &str,
    line: usize,
    message: &str,
) -> (r: Diagnostic)
    requires
        tokens@ == tokens_from(s@, 0),
        forall|k: int|
            0 <= k < tokens@.len() ==> (#[trigger] tokens@[k]).start < tokens@[k].end <= s@.len(),
    ensures
        r.deep_view() == diagnostic::bare_diagnostic(
            path@,
            line,
            token_column(s@, tokens@, k as int),
            message@,
        ),
{
    let column: usize = build_token_offset(s, tokens, k).saturating_add(7);
    Diagnostic::new(path, line, column, message)
}

/// The edge that a build statement declares, and the slash bits of its paths, in the order
/// in which they are written. A word with a dollar sign stays as it is written. `s` is what
/// follows `build `.
pub fn parse_edge(s: &[char], path: &str, line: usize, ninja: bool, windows: bool) -> (r: Result<
    (Edge, Vec<u64>),
    Diagnostic,
>)
    ensures
        match r {
            Ok((e, bits)) => edge_of(s@, path@, line, ninja, windows) == Ok::<
                Draft,
                DiagnosticView,
            >(Draft { edge: e.deep_view(), bits: bits@ }),
            Err(d) => edge_of(s@, path@, line, ninja, windows) == Err::<Draft, DiagnosticView>(
                d.deep_view(),
            ),
        },
{
    let tokens: Vec<Token> = lex_build(s);
    let ghost all = tokens@;
    let mut colon: usize = 0;
    while colon < tokens.len() && tokens[colon].kind != Kind::Colon
        invariant
            all == tokens@,
            colon <= tokens@.len(),
            first_colon(all, 0) == first_colon(all, colon as int),
        decreases tokens@.len() - colon,
    {
        colon += 1;
    }
    if colon == tokens.len() {
        let column: usize = s.len().saturating_add(7);
        return Err(
            Diagnostic::new(
                path,
                line,
                column,
                "expected ':', got newline ($ also escapes ':')",
            ),
        );
    }
    let mut edge: Edge = Edge {
        explicit_outputs: Vec::new(),
        implicit_outputs: Vec::new(),
        rule: String::new(),
        explicit_inputs: Vec::new(),
        implicit_inputs: Vec::new(),
        order_only_inputs: Vec::new(),
        validations: Vec::new(),
        bindings: map_new(),
        source: path.to_owned(),
        line,
        scope: 0,
        slash_bits: Vec::new(),
    };
    let mut bits: Vec<u64> = Vec::new();
    let ghost start = empty_draft(path@, line);
    proof {
        reveal_strlit("");
        assert((Draft { edge: edge.deep_view(), bits: bits@ }) =~= start);
    }
    let mut implicit: bool = false;
    let mut k: usize = 0;
    while k < colon
        invariant
            all == tokens@,
            all == tokens_from(s@, 0),
            forall|k: int|
                0 <= k < tokens@.len() ==> (#[trigger] tokens@[k]).start < tokens@[k].end
                    <= s@.len(),
            k <= colon < tokens@.len(),
            colon == first_colon(all, 0),
            start == empty_draft(path@, line),
            with_outputs(s@, all, 0, colon as int, false, windows, start) == with_outputs(
                s@,
                all,
                k as int,
                colon as int,
                implicit,
                windows,
                (Draft { edge: edge.deep_view(), bits: bits@ }),
            ),
        decreases colon - k,
    {
        let token: Token = tokens[k];
        if token.kind == Kind::Pipe && !implicit {
            implicit = true;
        } else if token.kind == Kind::Word {
            let ghost before = Draft { edge: edge.deep_view(), bits: bits@ };
            if implicit {
                push_path(&mut edge.implicit_outputs, &mut bits, s, token, windows);
            } else {
                push_path(&mut edge.explicit_outputs, &mut bits, s, token, windows);
            }
            proof {
                let longer = with_output(before, implicit, path_of(word(s@, token), windows));
                assert((Draft { edge: edge.deep_view(), bits: bits@ }) =~= longer);
            }
        } else {
            let mut message: String = "expected ':', got ".to_owned();
            message.append(symbol_of(token.kind));
            message.append(" ($ also escapes ':')");
            return Err(token_diagnostic(s, &tokens, k, path, line, message.as_str()));
        }
        k += 1;
    }
    if edge.explicit_outputs.len() == 0 && edge.implicit_outputs.len() == 0 {
        return Err(Diagnostic::new(path, line, 1, "build edge has no outputs"));
    }
    if tokens.len() - colon <= 1 || tokens[colon + 1].kind != Kind::Word {
        let message: &str = if ninja {
            "expected build command name"
        } else {
            "expected build rule after ':'"
        };
        return Err(token_diagnostic(s, &tokens, colon + 1, path, line, message));
    }
    let rule: Token = tokens[colon + 1];
    edge.rule = string_of(slice_subrange(s, rule.start, rule.end));
    let ghost named = Draft { edge: edge.deep_view(), bits: bits@ };
    let mut list: Inputs = Inputs::Explicit;
    let mut k: usize = colon + 2;
    while k < tokens.len()
        invariant
            all == tokens@,
            all == tokens_from(s@, 0),
            forall|k: int|
                0 <= k < tokens@.len() ==> (#[trigger] tokens@[k]).start < tokens@[k].end
                    <= s@.len(),
            colon + 2 <= k <= tokens@.len(),
            with_inputs(s@, all, colon + 2, Inputs::Explicit, windows, named) == with_inputs(
                s@,
                all,
                k as int,
                list,
                windows,
                (Draft { edge: edge.deep_view(), bits: bits@ }),
            ),
            edge_of(s@, path@, line, ninja, windows) == match with_inputs(
                s@,
                all,
                colon + 2,
                Inputs::Explicit,
                windows,
                named,
            ) {
                Ok(full) => Ok(full),
                Err(k) => Err(
                    diagnostic::bare_diagnostic(
                        path@,
                        line,
                        token_column(s@, all, k),
                        "expected newline, got "@ + symbol(all[k].kind),
                    ),
                ),
            },
        decreases tokens@.len() - k,
    {
        let token: Token = tokens[k];
        let ghost before = Draft { edge: edge.deep_view(), bits: bits@ };
        if token.kind == Kind::Word {
            match list {
                Inputs::Explicit => {
                    push_path(&mut edge.explicit_inputs, &mut bits, s, token, windows);
                },
                Inputs::Implicit => {
                    push_path(&mut edge.implicit_inputs, &mut bits, s, token, windows);
                },
                Inputs::OrderOnly => {
                    push_path(&mut edge.order_only_inputs, &mut bits, s, token, windows);
                },
                Inputs::Validation => {
                    push_path(&mut edge.validations, &mut bits, s, token, windows);
                },
            }
            proof {
                let longer = with_input(before, list, path_of(word(s@, token), windows));
                assert((Draft { edge: edge.deep_view(), bits: bits@ }) =~= longer);
            }
        } else if token.kind == Kind::Pipe && list == Inputs::Explicit {
            list = Inputs::Implicit;
        } else if token.kind == Kind::Pipe2 && (list == Inputs::Explicit || list
            == Inputs::Implicit) {
            list = Inputs::OrderOnly;
        } else if token.kind == Kind::Validation && list != Inputs::Validation {
            list = Inputs::Validation;
        } else {
            let mut message: String = "expected newline, got ".to_owned();
            message.append(symbol_of(token.kind));
            return Err(token_diagnostic(s, &tokens, k, path, line, message.as_str()));
        }
        k += 1;
    }
    Ok((edge, bits))
}

/// Whether `path` can be written as a word: it is not empty, and holds no
/// character that no escape stands for.
pub open spec fn is_writable(path: Seq<char>) -> bool {
    &&& path.len() > 0
    &&& forall|i: int| 0 <= i < path.len() ==> #[trigger] path[i] != '\t' && path[i] != '|'
}

/// The escaped paths, each after a space.
pub open spec fn written_paths(paths: Seq<Seq<char>>) -> Seq<char>
    decreases paths.len(),
{
    if paths.len() == 0 {
        seq![]
    } else {
        seq![' '] + expand::escaped(paths[0]) + written_paths(paths.skip(1))
    }
}

/// What the words among the tokens of `s` expand to.
pub open spec fn word_meanings(
    s: Seq<char>,
    tokens: Seq<Token>,
    meaning: expand::Meaning,
) -> Seq<Seq<char>> {
    Seq::new(
        tokens.len(),
        |k: int|
            expand::expanded(s.subrange(tokens[k].start as int, tokens[k].end as int), meaning),
    )
}

/// Escaped paths are read back, one word for each, whatever values variables
/// have.
pub proof fn law_written_paths_are_read_back(
    paths: Seq<Seq<char>>,
    meaning: expand::Meaning,
)
    requires
        forall|k: int| 0 <= k < paths.len() ==> is_writable(#[trigger] paths[k]),
        written_paths(paths).len() <= usize::MAX,
    ensures
        forall|k: int|
            0 <= k < tokens_from(written_paths(paths), 0).len() ==> (
            #[trigger] tokens_from(written_paths(paths), 0)[k]).kind == Kind::Word,
        word_meanings(
            written_paths(paths),
            tokens_from(written_paths(paths), 0),
            meaning,
        ) == paths,
{
    lemma_written_paths(seq![], paths, meaning);
    assert(Seq::<char>::empty() + written_paths(paths) =~= written_paths(paths));
}

proof fn lemma_written_paths(
    before: Seq<char>,
    paths: Seq<Seq<char>>,
    meaning: expand::Meaning,
)
    requires
        forall|k: int| 0 <= k < paths.len() ==> is_writable(#[trigger] paths[k]),
        before.len() + written_paths(paths).len() <= usize::MAX,
    ensures
        ({
            let s = before + written_paths(paths);
            let tokens = tokens_from(s, before.len() as int);
            &&& forall|k: int|
                0 <= k < tokens.len() ==> (#[trigger] tokens[k]).kind == Kind::Word
            &&& word_meanings(s, tokens, meaning) == paths
        }),
    decreases paths.len(),
{
    let s = before + written_paths(paths);
    let at = before.len() as int;
    let tokens = tokens_from(s, at);
    if paths.len() == 0 {
        assert(word_meanings(s, tokens, meaning) =~= paths);
    } else {
        let path = paths[0];
        let word = expand::escaped(path);
        let rest = paths.skip(1);
        let front = before + seq![' '];
        let next = front + word;
        assert(s =~= front + word + written_paths(rest));
        assert(s =~= next + written_paths(rest));
        assert(is_writable(path));
        lemma_escaped_starts(path);
        lemma_word_ends(front, path, written_paths(rest));
        assert(s[at] == ' ');
        assert(s[at + 1] == word[0]);
        assert(text::first_not_in(s, at, Class::Blank) == at + 1) by {
            reveal_with_fuel(text::first_not_in, 3);
        }
        let token = token_at(s, at + 1);
        assert(token == Token {
            kind: Kind::Word,
            start: (at + 1) as usize,
            end: next.len() as usize,
        });
        let after = tokens_from(s, next.len() as int);
        assert(tokens =~= seq![token] + after);
        assert forall|k: int| 0 <= k < rest.len() implies is_writable(#[trigger] rest[k]) by {
            assert(rest[k] == paths[k + 1]);
        }
        lemma_written_paths(next, rest, meaning);
        assert(s.subrange(at + 1, next.len() as int) =~= word);
        expand::law_escaped_text_expands_to_text(path, meaning);
        assert(word_meanings(s, tokens, meaning) =~= seq![path] + word_meanings(
            s,
            after,
            meaning,
        ));
        assert(seq![path] + rest =~= paths);
    }
}

proof fn lemma_escaped_starts(path: Seq<char>)
    requires
        is_writable(path),
    ensures
        expand::escaped(path).len() > 0,
        !text::belongs(expand::escaped(path)[0], Class::Blank),
        expand::escaped(path)[0] != ':',
        expand::escaped(path)[0] != '|',
{
    assert(path[0] != '\t' && path[0] != '|');
    assert(expand::escaped(path)[0] == expand::escaped_char(path[0])[0]);
}

proof fn lemma_word_ends(before: Seq<char>, path: Seq<char>, after: Seq<char>)
    requires
        forall|i: int| 0 <= i < path.len() ==> #[trigger] path[i] != '\t' && path[i] != '|',
        after.len() == 0 || after[0] == ' ',
    ensures
        word_end(before + expand::escaped(path) + after, before.len() as int) == before.len()
            + expand::escaped(path).len(),
    decreases path.len(),
{
    let s = before + expand::escaped(path) + after;
    let at = before.len() as int;
    if path.len() == 0 {
        if after.len() > 0 {
            assert(s[at] == ' ');
        }
    } else {
        let piece = expand::escaped_char(path[0]);
        let rest = path.skip(1);
        assert(path[0] != '\t' && path[0] != '|');
        assert forall|i: int| 0 <= i < rest.len() implies #[trigger] rest[i] != '\t' && rest[i]
            != '|' by {
            assert(rest[i] == path[i + 1]);
        }
        lemma_word_ends(before + piece, rest, after);
        assert((before + piece) + expand::escaped(rest) + after =~= s);
        assert(s[at] == piece[0]);
    }
}

} // verus!
