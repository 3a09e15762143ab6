//! Dyndep files: dependencies of edges that are found out while building.
use crate::build_log_laws;
use crate::collections::map_get;
use crate::collections::set_insert;
use crate::collections::set_new;
use crate::expand;
use crate::expand::dollar_escape_issues;
use crate::expand::expand;
use crate::lines;
use crate::lines::continues;
use crate::numbers;
use crate::numbers::decimal_of;
use crate::paths;
use crate::paths::canonicalize_owned_path_with_bits;
use crate::statement;
use crate::text;
use crate::text::Class;
use crate::text::chars_of;
use crate::text::count;
use crate::text::find_in;
use crate::text::in_class;
use crate::text::is_text;
use crate::text::push_all;
use crate::text::split_lines;
use crate::text::string_of;
use crate::text::strip_prefix;
use crate::text::trim;
use crate::text::trim_end;
use crate::text::trim_start;
use rapidhash::RapidHashMap;
use rapidhash::RapidHashSet;
use vstd::prelude::*;
use vstd::slice::slice_subrange;
use vstd::slice::slice_to_vec;
use vstd::string::*;

verus! {

/// What a dyndep file says of the edge that makes `output`.
#[derive(Clone, Debug, PartialEq, Eq)]
pub struct DyndepRecord {
    pub output: String,
    pub implicit_outputs: Vec<String>,
    pub implicit_inputs: Vec<String>,
    pub restat: bool,
}

/// What a `DyndepRecord` holds.
#[verifier::ext_equal]
pub struct RecordView {
    pub output: Seq<char>,
    pub implicit_outputs: Seq<Seq<char>>,
    pub implicit_inputs: Seq<Seq<char>>,
    pub restat: bool,
}

impl DeepView for DyndepRecord {
    type V = RecordView;

    open spec fn deep_view(&self) -> RecordView {
        RecordView {
            output: self.output@,
            implicit_outputs: text::strings(self.implicit_outputs@),
            implicit_inputs: text::strings(self.implicit_inputs@),
            restat: self.restat,
        }
    }
}

pub enum Token {
    Word(Vec<char>),
    Colon,
    Pipe,
    Pipe2,
    Validation,
}

#[verifier::ext_equal]
pub enum TokenView {
    Word(Seq<char>),
    Colon,
    Pipe,
    Pipe2,
    Validation,
}

impl Token {
    pub open spec fn view(&self) -> TokenView {
        match self {
            Token::Word(word) => TokenView::Word(word@),
            Token::Colon => TokenView::Colon,
            Token::Pipe => TokenView::Pipe,
            Token::Pipe2 => TokenView::Pipe2,
            Token::Validation => TokenView::Validation,
        }
    }
}

pub open spec fn token_views(v: Seq<Token>) -> Seq<TokenView> {
    Seq::new(v.len(), |i: int| v[i]@)
}

/// The word that has been read, if it holds anything.
pub open spec fn flushed(word: Seq<char>) -> Seq<TokenView> {
    if word.len() > 0 {
        seq![TokenView::Word(word)]
    } else {
        seq![]
    }
}

/// The tokens of `s` from `i` on, where `word` is what has been read of a word.
pub open spec fn tokens_from(s: Seq<char>, i: int, word: Seq<char>) -> Seq<TokenView>
    decreases s.len() - i,
{
    if i < 0 || i >= s.len() {
        flushed(word)
    } else if s[i] == '$' {
        if i + 1 < s.len() {
            tokens_from(s, i + 2, word.push('$').push(s[i + 1]))
        } else {
            tokens_from(s, i + 1, word.push('$'))
        }
    } else if text::is_space(s[i]) {
        flushed(word) + tokens_from(s, i + 1, seq![])
    } else if s[i] == ':' {
        flushed(word).push(TokenView::Colon) + tokens_from(s, i + 1, seq![])
    } else if s[i] == '|' {
        if i + 1 < s.len() && s[i + 1] == '|' {
            flushed(word).push(TokenView::Pipe2) + tokens_from(s, i + 2, seq![])
        } else if i + 1 < s.len() && s[i + 1] == '@' {
            flushed(word).push(TokenView::Validation) + tokens_from(s, i + 2, seq![])
        } else {
            flushed(word).push(TokenView::Pipe) + tokens_from(s, i + 1, seq![])
        }
    } else {
        tokens_from(s, i + 1, word.push(s[i]))
    }
}

/// Where the comment of a line begins, and its length where it has none. A
/// dollar sign escapes the character behind it.
pub open spec fn comment_start(s: Seq<char>, i: int) -> int
    decreases s.len() - i,
{
    if i < 0 || i >= s.len() {
        s.len() as int
    } else if s[i] == '$' && i + 1 < s.len() {
        comment_start(s, i + 2)
    } else if s[i] == '#' {
        i
    } else {
        comment_start(s, i + 1)
    }
}

/// A word with its escapes replaced. Variables have no values.
pub open spec fn unescaped(word: Seq<char>) -> Seq<char> {
    expand::expanded(word, |name: Seq<char>| None)
}

/// What is said of the first escape of `s` that is an error: that of a line feed, which
/// dyndep files do not have, or one that is malformed.
pub open spec fn escape_error(s: Seq<char>) -> Option<Seq<char>> {
    match expand::escape_issues(s) {
        (_, Some(_)) => Some(statement::escape_message(true)),
        (Some(_), None) => Some(statement::escape_message(false)),
        (None, None) => None,
    }
}

/// Whether what follows a line belongs to it: the line, without its comment, ends in
/// a dollar sign that is not itself escaped.
pub open spec fn is_open(raw: Seq<char>) -> bool {
    comment_start(raw, 0) == raw.len() && lines::is_continued(raw)
}

/// The logical line that `line` begins, which goes up to line `k`, and the number of
/// the line behind it. A dollar sign at the end of the last line is kept.
pub open spec fn statement_from(all: Seq<Seq<char>>, k: int, line: Seq<char>) -> (Seq<char>, int)
    decreases all.len() - k,
{
    if 0 <= k && k + 1 < all.len() && is_open(all[k]) {
        statement_from(all, k + 1, line.drop_last() + text::trimmed_start(all[k + 1]))
    } else {
        (line, k + 1)
    }
}

/// The logical line that begins at line `k`, and the number of the line behind it.
pub open spec fn statement_at(all: Seq<Seq<char>>, k: int) -> (Seq<char>, int) {
    statement_from(all, k, all[k])
}

/// The outputs of a manifest, as far as statements are held against them.
pub struct Known {
    pub map: Map<Seq<char>, usize>,
    pub windows: bool,
}

/// What is said of a statement about an output that no edge of the manifest makes.
/// `s` is what follows `build `.
pub open spec fn unknown_output(known: Option<Known>, s: Seq<char>) -> Option<Seq<char>> {
    let tokens = tokens_from(s, 0, seq![]);
    match known {
        Some(k) => if tokens.len() > 0 && tokens[0] is Word && escape_error(
            tokens[0]->Word_0,
        ) is None {
            let output = paths::canonical(unescaped(tokens[0]->Word_0), k.windows).0;
            if k.map.contains_key(output) {
                None
            } else {
                Some("no build statement exists for '"@ + output + "'"@)
            }
        } else {
            None
        },
        None => None,
    }
}

/// What is said of an error in a line of a file.
pub open spec fn error_text(path: Seq<char>, line: nat, message: Seq<char>) -> Seq<char> {
    path + ":"@ + numbers::numeral(line, false) + ": "@ + message
}

/// What has been read of a file: the records, whether there was a version, and
/// whether an indented line may add to the last record.
#[verifier::ext_equal]
pub struct Progress {
    pub records: Seq<RecordView>,
    pub version: bool,
    pub pending: bool,
}

/// The paths of an output or input list, from token `k` to token `end`: a pipe,
/// and words behind it. `found` are those before token `k`. An error is what is
/// out of place.
pub open spec fn listed(
    tokens: Seq<TokenView>,
    k: int,
    end: int,
    piped: bool,
    found: Seq<Seq<char>>,
    inputs: bool,
) -> Result<Seq<Seq<char>>, Seq<char>>
    decreases end - k,
{
    if k >= end {
        Ok(found)
    } else {
        match tokens[k] {
            TokenView::Word(word) => if piped && escape_error(word) is Some {
                Err(escape_error(word)->Some_0)
            } else if piped {
                listed(tokens, k + 1, end, piped, found.push(unescaped(word)), inputs)
            } else if inputs {
                Err("explicit inputs not supported"@)
            } else {
                Err("explicit outputs not supported"@)
            },
            TokenView::Pipe => if piped {
                Err(
                    if inputs {
                        "invalid input list"@
                    } else {
                        "invalid output list"@
                    },
                )
            } else {
                listed(tokens, k + 1, end, true, found, inputs)
            },
            TokenView::Pipe2 => Err(
                if inputs {
                    "order-only inputs not supported"@
                } else {
                    "invalid output list"@
                },
            ),
            TokenView::Validation => Err(
                if inputs {
                    "validation inputs not supported"@
                } else {
                    "invalid output list"@
                },
            ),
            TokenView::Colon => Err(
                if inputs {
                    "invalid input list"@
                } else {
                    "invalid output list"@
                },
            ),
        }
    }
}

/// The first colon among the tokens from `k` on, and their number where there
/// is none.
pub open spec fn first_colon(tokens: Seq<TokenView>, k: int) -> int
    decreases tokens.len() - k,
{
    if k < 0 || k >= tokens.len() {
        tokens.len() as int
    } else if tokens[k] == TokenView::Colon {
        k
    } else {
        first_colon(tokens, k + 1)
    }
}

/// Whether a record of `records` is about `output`.
pub open spec fn is_recorded(records: Seq<RecordView>, output: Seq<char>) -> bool {
    exists|i: int| 0 <= i < records.len() && (#[trigger] records[i]).output == output
}

/// The record that a build statement makes, or what is wrong with it. `s` is
/// what follows `build `.
pub open spec fn record_of(records: Seq<RecordView>, s: Seq<char>) -> Result<
    RecordView,
    Seq<char>,
> {
    let tokens = tokens_from(s, 0, seq![]);
    let colon = first_colon(tokens, 0);
    if colon >= tokens.len() {
        Err("expected ':'"@)
    } else {
        match tokens[0] {
            TokenView::Word(word) => {
                let output = unescaped(word);
                if escape_error(word) is Some {
                    Err(escape_error(word)->Some_0)
                } else if is_recorded(records, output) {
                    Err("multiple statements for '"@ + output + "'"@)
                } else {
                    match listed(tokens, 1, colon, false, seq![], false) {
                        Err(message) => Err(message),
                        Ok(implicit_outputs) => if colon + 1 >= tokens.len() || tokens[colon + 1]
                            != TokenView::Word("dyndep"@) {
                            Err("expected build command name 'dyndep'"@)
                        } else {
                            match listed(
                                tokens,
                                colon + 2,
                                tokens.len() as int,
                                false,
                                seq![],
                                true,
                            ) {
                                Err(message) => Err(message),
                                Ok(implicit_inputs) => Ok(
                                    RecordView {
                                        output,
                                        implicit_outputs,
                                        implicit_inputs,
                                        restat: false,
                                    },
                                ),
                            }
                        },
                    }
                }
            },
            _ => Err("expected output path"@),
        }
    }
}

/// Whether a version line names a version that is understood. What follows a
/// hyphen does not matter.
pub open spec fn is_supported(name: Seq<char>, value: Seq<char>) -> bool {
    let number = value.take(text::first_in(value, 0, Class::Is('-')));
    name == "ninja_dyndep_version"@ && (number == "1"@ || number == "1.0"@)
}

/// The progress after one more logical line, or what is wrong with it.
pub open spec fn advanced(p: Progress, raw: Seq<char>, known: Option<Known>) -> Result<
    Progress,
    Seq<char>,
> {
    let line = text::trimmed_end(raw.take(comment_start(raw, 0)));
    let content = text::trimmed(line);
    if content.len() == 0 {
        Ok(p)
    } else if line[0] == ' ' || line[0] == '\t' {
        let equals = text::first_in(content, 0, Class::Is('='));
        let value = text::trimmed(content.skip(equals + 1));
        if !p.pending {
            Err("unexpected indentation"@)
        } else if equals >= content.len() {
            Err("expected 'restat = value'"@)
        } else if text::trimmed(content.take(equals)) != "restat"@ {
            Err("binding is not 'restat'"@)
        } else if escape_error(value) is Some {
            Err(escape_error(value)->Some_0)
        } else {
            let restat = value.len() > 0 && value != "0"@;
            Ok(
                Progress {
                    records: p.records.drop_last().push(
                        RecordView { restat, ..p.records.last() },
                    ),
                    pending: false,
                    ..p
                },
            )
        }
    } else if !p.version {
        let equals = text::first_in(line, 0, Class::Is('='));
        let value = text::trimmed(line.skip(equals + 1));
        if equals >= line.len() {
            Err("expected 'ninja_dyndep_version = ...'"@)
        } else if !is_supported(text::trimmed(line.take(equals)), value) {
            Err("unsupported dyndep version"@)
        } else if escape_error(value) is Some {
            Err(escape_error(value)->Some_0)
        } else {
            Ok(Progress { version: true, pending: false, ..p })
        }
    } else {
        let start = text::trimmed_start(line);
        if !"build "@.is_prefix_of(start) {
            Err("expected build statement"@)
        } else {
            let statement = start.skip("build "@.len() as int);
            match unknown_output(known, statement) {
                Some(message) => Err(message),
                None => match record_of(p.records, statement) {
                    Err(message) => Err(message),
                    Ok(record) => Ok(
                        Progress { records: p.records.push(record), pending: true, ..p },
                    ),
                },
            }
        }
    }
}

/// The progress after the lines from `k` on, or what is wrong with them.
pub open spec fn completed(
    path: Seq<char>,
    lines: Seq<Seq<char>>,
    k: int,
    p: Progress,
    known: Option<Known>,
) -> Result<Progress, Seq<char>>
    decreases lines.len() - k,
{
    if k < 0 || k >= lines.len() {
        Ok(p)
    } else {
        let (line, next) = statement_at(lines, k);
        match advanced(p, line, known) {
            Ok(after) => if k < next <= lines.len() {
                completed(path, lines, next, after, known)
            } else {
                Ok(after)
            },
            Err(message) => Err(error_text(path, (k + 1) as nat, message)),
        }
    }
}

pub open spec fn start() -> Progress {
    Progress { records: seq![], version: false, pending: false }
}

/// What a dyndep file says, or what is wrong with it, where its statements are held
/// against the outputs that are known.
pub open spec fn dyndep_among(s: Seq<char>, path: Seq<char>, known: Option<Known>) -> Result<
    Seq<RecordView>,
    Seq<char>,
> {
    match completed(path, text::text_lines(s, 0), 0, start(), known) {
        Err(message) => Err(message),
        Ok(p) => if !p.version {
            Err(error_text(path, 1, "expected 'ninja_dyndep_version = ...'"@))
        } else if s.len() > 0 && s.last() != '\n' {
            Err(
                error_text(
                    path,
                    text::sat(text::occurrences(s, '\n') as int + 1) as nat,
                    "unexpected EOF"@,
                ),
            )
        } else {
            Ok(p.records)
        },
    }
}

/// What a dyndep file says, or what is wrong with it.
pub open spec fn dyndep(s: Seq<char>, path: Seq<char>) -> Result<Seq<RecordView>, Seq<char>> {
    dyndep_among(s, path, None)
}

fn push_word(tokens: &mut Vec<Token>, word: Vec<char>)
    ensures
        token_views(final(tokens)@) == token_views(old(tokens)@) + flushed(word@),
{
    if word.len() > 0 {
        let ghost before = token_views(tokens@);
        let ghost view = word@;
        tokens.push(Token::Word(word));
        proof {
            assert(token_views(tokens@) =~= before + seq![TokenView::Word(view)]);
        }
    } else {
        proof {
            assert(token_views(tokens@) =~= token_views(tokens@) + flushed(word@));
        }
    }
}

fn push_token(tokens: &mut Vec<Token>, token: Token)
    ensures
        token_views(final(tokens)@) == token_views(old(tokens)@).push(token@),
{
    let ghost before = token_views(tokens@);
    tokens.push(token);
    proof {
        assert(token_views(tokens@) =~= before.push(token@));
    }
}

/// The tokens of a build statement.
fn lex(s: &[char]) -> (r: Vec<Token>)
    ensures
        token_views(r@) == tokens_from(s@, 0, seq![]),
{
    let n: usize = s.len();
    let mut r: Vec<Token> = Vec::new();
    let mut word: Vec<char> = Vec::new();
    let mut i: usize = 0;
    while i < n
        invariant
            n == s@.len(),
            i <= n,
            token_views(r@) + tokens_from(s@, i as int, word@) =~= tokens_from(s@, 0, seq![]),
        decreases n - i,
    {
        let c: char = s[i];
        if c == '$' {
            word.push(c);
            if n - i > 1 {
                word.push(s[i + 1]);
                i += 2;
            } else {
                i += 1;
            }
        } else if in_class(c, Class::Space) {
            push_word(&mut r, word);
            word = Vec::new();
            i += 1;
        } else if c == ':' {
            push_word(&mut r, word);
            word = Vec::new();
            push_token(&mut r, Token::Colon);
            i += 1;
        } else if c == '|' {
            push_word(&mut r, word);
            word = Vec::new();
            if n - i > 1 && s[i + 1] == '|' {
                push_token(&mut r, Token::Pipe2);
                i += 2;
            } else if n - i > 1 && s[i + 1] == '@' {
                push_token(&mut r, Token::Validation);
                i += 2;
            } else {
                push_token(&mut r, Token::Pipe);
                i += 1;
            }
        } else {
            word.push(c);
            i += 1;
        }
    }
    push_word(&mut r, word);
    r
}

fn find_comment(s: &[char]) -> (r: usize)
    ensures
        r == comment_start(s@, 0),
        r <= s@.len(),
{
    let n: usize = s.len();
    let mut i: usize = 0;
    while i < n
        invariant
            n == s@.len(),
            i <= n,
            comment_start(s@, 0) == comment_start(s@, i as int),
        decreases n - i,
    {
        if s[i] == '$' && n - i > 1 {
            i += 2;
        } else if s[i] == '#' {
            return i;
        } else {
            i += 1;
        }
    }
    n
}

/// What is said of the first escape of `s` that is an error.
fn find_escape_error(s: &[char]) -> (r: Option<&'static str>)
    ensures
        match r {
            Some(message) => escape_error(s@) == Some(message@),
            None => escape_error(s@) is None,
        },
{
    let (invalid, newline) = dollar_escape_issues(s);
    if newline.is_some() {
        Some(
            "using $^ escape requires specifying 'ninja_required_version' with version greater or equal 1.14",
        )
    } else if invalid.is_some() {
        Some("bad $-escape (literal $ must be written as $$)")
    } else {
        None
    }
}

proof fn lemma_statement_next(all: Seq<Seq<char>>, k: int, line: Seq<char>)
    requires
        0 <= k < all.len(),
    ensures
        k < statement_from(all, k, line).1 <= all.len(),
    decreases all.len() - k,
{
    if k + 1 < all.len() && is_open(all[k]) {
        lemma_statement_next(
            all,
            k + 1,
            line.drop_last() + text::trimmed_start(all[k + 1]),
        );
    }
}

/// The logical line that begins at line `k`, and the number of the line behind it.
fn read_statement(all: &Vec<Vec<char>>, k: usize) -> (r: (Vec<char>, usize))
    requires
        k < all@.len(),
    ensures
        (r.0@, r.1 as int) == statement_at(text::texts(all@), k as int),
        k < r.1 <= all@.len(),
{
    let ghost list = text::texts(all@);
    let mut line: Vec<char> = slice_to_vec(all[k].as_slice());
    let mut i: usize = k;
    while all.len() - i > 1 && find_comment(all[i].as_slice()) == all[i].len() && continues(
        all[i].as_slice(),
    )
        invariant
            k <= i < all@.len(),
            list == text::texts(all@),
            statement_at(list, k as int) == statement_from(list, i as int, line@),
            i == k ==> line@ == all@[k as int]@,
            i > k ==> line@.len() >= text::trimmed_start(all@[i as int]@).len(),
        decreases all@.len() - i,
    {
        let ghost before = line@;
        proof {
            assert(list[i as int] == all@[i as int]@);
            assert(list[i + 1] == all@[i + 1]@);
            let raw = all@[i as int]@;
            assert(raw.len() > 0 && raw.last() == '$');
            text::lemma_first_not_in(raw, 0, Class::Space);
            if text::first_not_in(raw, 0, Class::Space) == raw.len() {
                assert(text::belongs(raw[raw.len() - 1], Class::Space));
            }
            assert(before.len() > 0);
        }
        let _ = line.pop();
        proof {
            assert(line@ =~= before.drop_last());
        }
        push_all(&mut line, trim_start(all[i + 1].as_slice()));
        i += 1;
    }
    proof {
        assert(list[i as int] == all@[i as int]@);
    }
    (line, i + 1)
}

fn unescape(word: &[char]) -> (r: String)
    ensures
        r@ == unescaped(word@),
{
    let lookup = |name: &str| -> (value: Option<String>)
        ensures
            value is None,
        { None };
    let ghost meaning: expand::Meaning = |name: Seq<char>| None;
    proof {
        assert(expand::gives(lookup, meaning));
    }
    expand(string_of(word).as_str(), lookup)
}

fn list_paths(tokens: &Vec<Token>, from: usize, end: usize, inputs: bool) -> (r: Result<
    Vec<String>,
    &'static str,
>)
    requires
        from <= end <= tokens@.len(),
    ensures
        match r {
            Ok(paths) => listed(
                token_views(tokens@),
                from as int,
                end as int,
                false,
                seq![],
                inputs,
            ) == Ok::<Seq<Seq<char>>, Seq<char>>(text::strings(paths@)),
            Err(message) => listed(
                token_views(tokens@),
                from as int,
                end as int,
                false,
                seq![],
                inputs,
            ) == Err::<Seq<Seq<char>>, Seq<char>>(message@),
        },
{
    let ghost all = token_views(tokens@);
    let mut paths: Vec<String> = Vec::new();
    let mut piped: bool = false;
    let mut k: usize = from;
    proof {
        assert(text::strings(paths@) =~= seq![]);
    }
    while k < end
        invariant
            all == token_views(tokens@),
            from <= k <= end <= tokens@.len(),
            listed(all, from as int, end as int, false, seq![], inputs) == listed(
                all,
                k as int,
                end as int,
                piped,
                text::strings(paths@),
                inputs,
            ),
        decreases end - k,
    {
        proof {
            assert(all[k as int] == tokens@[k as int]@);
        }
        match &tokens[k] {
            Token::Word(word) => {
                if !piped {
                    return Err(
                        if inputs {
                            "explicit inputs not supported"
                        } else {
                            "explicit outputs not supported"
                        },
                    );
                }
                if let Some(message) = find_escape_error(word.as_slice()) {
                    return Err(message);
                }
                let ghost before = text::strings(paths@);
                let path: String = unescape(word.as_slice());
                let ghost view = path@;
                paths.push(path);
                proof {
                    assert(text::strings(paths@) =~= before.push(view));
                }
            },
            Token::Pipe => {
                if piped {
                    return Err(
                        if inputs {
                            "invalid input list"
                        } else {
                            "invalid output list"
                        },
                    );
                }
                piped = true;
            },
            Token::Pipe2 => {
                return Err(
                    if inputs {
                        "order-only inputs not supported"
                    } else {
                        "invalid output list"
                    },
                );
            },
            Token::Validation => {
                return Err(
                    if inputs {
                        "validation inputs not supported"
                    } else {
                        "invalid output list"
                    },
                );
            },
            Token::Colon => {
                return Err(
                    if inputs {
                        "invalid input list"
                    } else {
                        "invalid output list"
                    },
                );
            },
        }
        k += 1;
    }
    Ok(paths)
}

/// The record that a build statement makes. `seen` holds the outputs of the
/// records before it.
fn parse_record(seen: &mut RapidHashSet<String>, s: &[char]) -> (r: Result<DyndepRecord, String>)
    ensures
        forall|records: Seq<RecordView>|
            (forall|x: Seq<char>| #[trigger]
                old(seen).deep_view().contains(x) == is_recorded(records, x)) ==> match r {
                Ok(record) => #[trigger] record_of(records, s@) == Ok::<RecordView, Seq<char>>(
                    record.deep_view(),
                ),
                Err(message) => record_of(records, s@) == Err::<RecordView, Seq<char>>(
                    message@,
                ),
            },
        r matches Ok(record) ==> final(seen).deep_view() == old(seen).deep_view().insert(
            record.output@,
        ),
{
    let tokens: Vec<Token> = lex(s);
    let ghost all = token_views(tokens@);
    let mut colon: usize = 0;
    while colon < tokens.len() && !matches!(tokens[colon], Token::Colon)
        invariant
            all == token_views(tokens@),
            colon <= tokens@.len(),
            first_colon(all, 0) == first_colon(all, colon as int),
        decreases tokens@.len() - colon,
    {
        proof {
            assert(all[colon as int] == tokens@[colon as int]@);
        }
        colon += 1;
    }
    if colon == tokens.len() {
        return Err("expected ':'".to_owned());
    }
    proof {
        assert(all[colon as int] == tokens@[colon as int]@);
        assert(all[0] == tokens@[0]@);
    }
    let output: String = match &tokens[0] {
        Token::Word(word) => {
            if let Some(message) = find_escape_error(word.as_slice()) {
                return Err(message.to_owned());
            }
            unescape(word.as_slice())
        },
        _ => {
            return Err("expected output path".to_owned());
        },
    };
    if !set_insert(seen, output.clone()) {
        let mut message: String = "multiple statements for '".to_owned();
        message.append(output.as_str());
        message.append("'");
        return Err(message);
    }
    let implicit_outputs: Vec<String> = match list_paths(&tokens, 1, colon, false) {
        Ok(paths) => paths,
        Err(message) => {
            return Err(message.to_owned());
        },
    };
    let named: bool = if tokens.len() - colon > 1 {
        proof {
            assert(all[colon + 1] == tokens@[colon + 1]@);
        }
        match &tokens[colon + 1] {
            Token::Word(word) => is_text(word.as_slice(), "dyndep"),
            _ => false,
        }
    } else {
        false
    };
    if !named {
        return Err("expected build command name 'dyndep'".to_owned());
    }
    let implicit_inputs: Vec<String> = match list_paths(&tokens, colon + 2, tokens.len(), true) {
        Ok(paths) => paths,
        Err(message) => {
            return Err(message.to_owned());
        },
    };
    Ok(DyndepRecord { output, implicit_outputs, implicit_inputs, restat: false })
}

/// The outputs of a manifest, on a system.
#[derive(Clone, Copy)]
pub struct KnownOutputs<'a> {
    pub outputs: &'a RapidHashMap<String, usize>,
    pub windows: bool,
}

pub open spec fn known_view(known: Option<KnownOutputs<'_>>) -> Option<Known> {
    match known {
        Some(k) => Some(Known { map: k.outputs.deep_view(), windows: k.windows }),
        None => None,
    }
}

fn find_unknown(known: Option<KnownOutputs<'_>>, s: &[char]) -> (r: Option<String>)
    ensures
        expand::optional(r) == unknown_output(known_view(known), s@),
{
    let k: KnownOutputs<'_> = match known {
        Some(k) => k,
        None => {
            return None;
        },
    };
    let tokens: Vec<Token> = lex(s);
    if tokens.len() == 0 {
        return None;
    }
    proof {
        assert(token_views(tokens@)[0] == tokens@[0]@);
    }
    match &tokens[0] {
        Token::Word(word) => {
            if find_escape_error(word.as_slice()).is_some() {
                return None;
            }
            let (output, _) = canonicalize_owned_path_with_bits(
                unescape(word.as_slice()),
                k.windows,
            );
            if map_get(k.outputs, output.as_str()).is_some() {
                return None;
            }
            let mut message: String = "no build statement exists for '".to_owned();
            message.append(output.as_str());
            message.append("'");
            Some(message)
        },
        _ => None,
    }
}

pub open spec fn record_views(v: Seq<DyndepRecord>) -> Seq<RecordView> {
    Seq::new(v.len(), |i: int| v[i].deep_view())
}

/// What has been read of a file.
struct Reader {
    records: Vec<DyndepRecord>,
    seen: RapidHashSet<String>,
    version: bool,
    pending: bool,
}

impl Reader {
    spec fn progress(&self) -> Progress {
        Progress {
            records: record_views(self.records@),
            version: self.version,
            pending: self.pending,
        }
    }

    spec fn well_formed(&self) -> bool {
        &&& self.pending ==> self.records@.len() > 0
        &&& forall|x: Seq<char>| #[trigger]
            self.seen.deep_view().contains(x) == is_recorded(self.progress().records, x)
    }

    fn read_restat(&mut self, content: &[char]) -> (r: Result<(), String>)
        requires
            old(self).well_formed(),
            old(self).pending,
        ensures
            ({
                let p = old(self).progress();
                let equals = text::first_in(content@, 0, Class::Is('='));
                let value = text::trimmed(content@.skip(equals + 1));
                match r {
                    Ok(()) => {
                        &&& final(self).well_formed()
                        &&& equals < content@.len()
                        &&& text::trimmed(content@.take(equals)) == "restat"@
                        &&& escape_error(value) is None
                        &&& final(self).progress() == (Progress {
                            records: p.records.drop_last().push(
                                RecordView {
                                    restat: value.len() > 0 && value != "0"@,
                                    ..p.records.last()
                                },
                            ),
                            pending: false,
                            ..p
                        })
                    },
                    Err(message) => if equals >= content@.len() {
                        message@ == "expected 'restat = value'"@
                    } else if text::trimmed(content@.take(equals)) != "restat"@ {
                        message@ == "binding is not 'restat'"@
                    } else {
                        escape_error(value) == Some(message@)
                    },
                }
            }),
    {
        let equals: usize = find_in(content, 0, Class::Is('='));
        if equals == content.len() {
            return Err("expected 'restat = value'".to_owned());
        }
        proof {
            assert(content@.subrange(0, equals as int) =~= content@.take(equals as int));
            assert(content@.subrange(equals + 1, content@.len() as int) =~= content@.skip(
                equals + 1,
            ));
        }
        if !is_text(trim(slice_subrange(content, 0, equals)), "restat") {
            return Err("binding is not 'restat'".to_owned());
        }
        let value: &[char] = trim(slice_subrange(content, equals + 1, content.len()));
        if let Some(message) = find_escape_error(value) {
            return Err(message.to_owned());
        }
        let restat: bool = value.len() > 0 && !is_text(value, "0");
        let ghost before = self.progress();
        let ghost records0 = self.records@;
        let n: usize = self.records.len();
        if let Some(last) = self.records.pop() {
            self.records.push(DyndepRecord { restat, ..last });
        }
        self.pending = false;
        proof {
            let changed = RecordView { restat, ..before.records.last() };
            assert(record_views(self.records@) =~= before.records.drop_last().push(changed));
            assert forall|x: Seq<char>| is_recorded(before.records, x) == is_recorded(
                self.progress().records,
                x,
            ) by {
                let after = self.progress().records;
                if is_recorded(before.records, x) {
                    let i = choose|i: int|
                        0 <= i < before.records.len() && (#[trigger] before.records[i]).output
                            == x;
                    assert(after[i].output == x);
                }
                if is_recorded(after, x) {
                    let i = choose|i: int|
                        0 <= i < after.len() && (#[trigger] after[i]).output == x;
                    assert(before.records[i].output == x);
                }
            }
        }
        Ok(())
    }

    fn read_version(&mut self, line: &[char]) -> (r: Result<(), String>)
        requires
            old(self).well_formed(),
        ensures
            ({
                let equals = text::first_in(line@, 0, Class::Is('='));
                let value = text::trimmed(line@.skip(equals + 1));
                let supported = equals < line@.len() && is_supported(
                    text::trimmed(line@.take(equals)),
                    value,
                );
                let bad = escape_error(value) is Some;
                match r {
                    Ok(()) => supported && !bad && final(self).well_formed() && final(self).progress()
                        == (Progress { version: true, pending: false, ..old(self).progress() }),
                    Err(message) => (!supported || bad) && message@ == if equals >= line@.len() {
                        "expected 'ninja_dyndep_version = ...'"@
                    } else if !supported {
                        "unsupported dyndep version"@
                    } else {
                        escape_error(value)->Some_0
                    },
                }
            }),
    {
        let equals: usize = find_in(line, 0, Class::Is('='));
        if equals == line.len() {
            return Err("expected 'ninja_dyndep_version = ...'".to_owned());
        }
        proof {
            assert(line@.subrange(0, equals as int) =~= line@.take(equals as int));
            assert(line@.subrange(equals + 1, line@.len() as int) =~= line@.skip(equals + 1));
        }
        let name: &[char] = trim(slice_subrange(line, 0, equals));
        let value: &[char] = trim(slice_subrange(line, equals + 1, line.len()));
        let hyphen: usize = find_in(value, 0, Class::Is('-'));
        let number: &[char] = slice_subrange(value, 0, hyphen);
        proof {
            assert(number@ =~= value@.take(hyphen as int));
        }
        if !is_text(name, "ninja_dyndep_version") || !(is_text(number, "1") || is_text(
            number,
            "1.0",
        )) {
            return Err("unsupported dyndep version".to_owned());
        }
        if let Some(message) = find_escape_error(value) {
            return Err(message.to_owned());
        }
        self.version = true;
        self.pending = false;
        Ok(())
    }

    fn read_line(&mut self, raw: &[char], known: Option<KnownOutputs<'_>>) -> (r: Result<
        (),
        String,
    >)
        requires
            old(self).well_formed(),
        ensures
            match r {
                Ok(()) => advanced(old(self).progress(), raw@, known_view(known)) == Ok::<
                    Progress,
                    Seq<char>,
                >(final(self).progress()) && final(self).well_formed(),
                Err(message) => advanced(old(self).progress(), raw@, known_view(known)) == Err::<
                    Progress,
                    Seq<char>,
                >(message@),
            },
    {
        let end: usize = find_comment(raw);
        proof {
            assert(raw@.subrange(0, end as int) =~= raw@.take(end as int));
        }
        let line: &[char] = trim_end(slice_subrange(raw, 0, end));
        let content: &[char] = trim(line);
        if content.len() == 0 {
            return Ok(());
        }
        proof {
            assert(line@.len() > 0) by {
                if line@.len() == 0 {
                    assert(text::trimmed_start(line@).len() == 0);
                    assert(text::trimmed(line@).len() == 0);
                }
            }
        }
        if line[0] == ' ' || line[0] == '\t' {
            if !self.pending {
                return Err("unexpected indentation".to_owned());
            }
            return self.read_restat(content);
        }
        if !self.version {
            return self.read_version(line);
        }
        let rest: &[char] = match strip_prefix(trim_start(line), "build ") {
            Some(rest) => rest,
            None => {
                return Err("expected build statement".to_owned());
            },
        };
        if let Some(message) = find_unknown(known, rest) {
            return Err(message);
        }
        let ghost before = self.progress();
        match parse_record(&mut self.seen, rest) {
            Ok(record) => {
                let ghost view = record.deep_view();
                self.records.push(record);
                self.pending = true;
                proof {
                    assert(record_of(before.records, rest@) == Ok::<RecordView, Seq<char>>(view));
                    let after = self.progress().records;
                    assert(after =~= before.records.push(view));
                    assert forall|x: Seq<char>| #[trigger]
                        self.seen.deep_view().contains(x) == is_recorded(after, x) by {
                        if is_recorded(before.records, x) {
                            let i = choose|i: int|
                                0 <= i < before.records.len() && (
                                #[trigger] before.records[i]).output == x;
                            assert(after[i].output == x);
                        }
                        if x == view.output {
                            assert(after[after.len() - 1].output == x);
                        }
                        if is_recorded(after, x) {
                            let i = choose|i: int|
                                0 <= i < after.len() && (#[trigger] after[i]).output == x;
                            if i < before.records.len() {
                                assert(before.records[i].output == x);
                            }
                        }
                    }
                }
                Ok(())
            },
            Err(message) => {
                proof {
                    assert(record_of(before.records, rest@) == Err::<RecordView, Seq<char>>(
                        message@,
                    ));
                }
                Err(message)
            },
        }
    }
}

fn error(path: &str, line: usize, message: &str) -> (r: String)
    ensures
        r@ == error_text(path@, line as nat, message@),
{
    let mut r: String = path.to_owned();
    r.append(":");
    r.append(decimal_of(line).as_str());
    r.append(": ");
    r.append(message);
    r
}

fn parse_among(source: &str, path: &str, known: Option<KnownOutputs<'_>>) -> (r: Result<
    Vec<DyndepRecord>,
    String,
>)
    ensures
        match r {
            Ok(records) => dyndep_among(source@, path@, known_view(known)) == Ok::<
                Seq<RecordView>,
                Seq<char>,
            >(record_views(records@)),
            Err(message) => dyndep_among(source@, path@, known_view(known)) == Err::<
                Seq<RecordView>,
                Seq<char>,
            >(message@),
        },
{
    let chars: Vec<char> = chars_of(source);
    let lines: Vec<Vec<char>> = split_lines(chars.as_slice());
    let ghost all = text::texts(lines@);
    let ghost view = known_view(known);
    let mut reader: Reader = Reader {
        records: Vec::new(),
        seen: set_new(),
        version: false,
        pending: false,
    };
    proof {
        assert(reader.progress() =~= start());
    }
    let mut k: usize = 0;
    while k < lines.len()
        invariant
            chars@ == source@,
            view == known_view(known),
            all == text::texts(lines@),
            all == text::text_lines(source@, 0),
            k <= lines@.len(),
            reader.well_formed(),
            completed(path@, all, 0, start(), view) == completed(
                path@,
                all,
                k as int,
                reader.progress(),
                view,
            ),
        decreases lines@.len() - k,
    {
        let (line, next) = read_statement(&lines, k);
        if let Err(message) = reader.read_line(line.as_slice(), known) {
            return Err(error(path, k + 1, message.as_str()));
        }
        k = next;
    }
    if !reader.version {
        return Err(error(path, 1, "expected 'ninja_dyndep_version = ...'"));
    }
    let n: usize = chars.len();
    if n > 0 && chars[n - 1] != '\n' {
        return Err(error(path, count(chars.as_slice(), '\n').saturating_add(1), "unexpected EOF"));
    }
    Ok(reader.records)
}

/// Parses a dyndep file. `path` is its name in messages.
pub fn parse_dyndep(source: &str, path: &str) -> (r: Result<Vec<DyndepRecord>, String>)
    ensures
        match r {
            Ok(records) => dyndep(source@, path@) == Ok::<Seq<RecordView>, Seq<char>>(
                record_views(records@),
            ),
            Err(message) => dyndep(source@, path@) == Err::<Seq<RecordView>, Seq<char>>(message@),
        },
{
    parse_among(source, path, None)
}

/// Parses a dyndep file whose statements must be about the outputs of a manifest. That
/// an output is not one of them is said before anything behind it is looked at.
pub fn parse_dyndep_among(source: &str, path: &str, known: KnownOutputs<'_>) -> (r: Result<
    Vec<DyndepRecord>,
    String,
>)
    ensures
        match r {
            Ok(records) => dyndep_among(source@, path@, known_view(Some(known))) == Ok::<
                Seq<RecordView>,
                Seq<char>,
            >(record_views(records@)),
            Err(message) => dyndep_among(source@, path@, known_view(Some(known))) == Err::<
                Seq<RecordView>,
                Seq<char>,
            >(message@),
        },
{
    parse_among(source, path, Some(known))
}

/// Whether no two records are about the same output.
pub open spec fn outputs_are_unique(records: Seq<RecordView>) -> bool {
    forall|i: int, j: int|
        0 <= i < j < records.len() ==> (#[trigger] records[i]).output != (
        #[trigger] records[j]).output
}

proof fn lemma_advanced_unique(p: Progress, raw: Seq<char>, known: Option<Known>)
    requires
        outputs_are_unique(p.records),
        p.pending ==> p.records.len() > 0,
        advanced(p, raw, known) is Ok,
    ensures
        outputs_are_unique(advanced(p, raw, known)->Ok_0.records),
        advanced(p, raw, known)->Ok_0.pending ==> advanced(p, raw, known)->Ok_0.records.len() > 0,
{
    let next = advanced(p, raw, known)->Ok_0;
    if next.records.len() > p.records.len() {
        assert forall|i: int, j: int| 0 <= i < j < next.records.len() implies (
        #[trigger] next.records[i]).output != (#[trigger] next.records[j]).output by {
            assert(next.records[i] == p.records[i]);
            if j < p.records.len() {
                assert(next.records[j] == p.records[j]);
            } else {
                assert(!is_recorded(p.records, next.records[j].output));
            }
        }
    } else if next.records != p.records {
        assert forall|i: int, j: int| 0 <= i < j < next.records.len() implies (
        #[trigger] next.records[i]).output != (#[trigger] next.records[j]).output by {
            assert(next.records[i].output == p.records[i].output);
            assert(next.records[j].output == p.records[j].output);
        }
    }
}

proof fn lemma_completed_unique(
    path: Seq<char>,
    lines: Seq<Seq<char>>,
    k: int,
    p: Progress,
    known: Option<Known>,
)
    requires
        outputs_are_unique(p.records),
        p.pending ==> p.records.len() > 0,
        completed(path, lines, k, p, known) is Ok,
    ensures
        outputs_are_unique(completed(path, lines, k, p, known)->Ok_0.records),
    decreases lines.len() - k,
{
    if 0 <= k < lines.len() {
        let (line, next) = statement_at(lines, k);
        lemma_statement_next(lines, k, lines[k]);
        lemma_advanced_unique(p, line, known);
        lemma_completed_unique(path, lines, next, advanced(p, line, known)->Ok_0, known);
    }
}

/// A dyndep file has at most one record about an output.
pub proof fn law_one_record_for_an_output(s: Seq<char>, path: Seq<char>, known: Option<Known>)
    ensures
        dyndep_among(s, path, known) matches Ok(records) ==> outputs_are_unique(records),
{
    if dyndep_among(s, path, known) is Ok {
        lemma_completed_unique(path, text::text_lines(s, 0), 0, start(), known);
    }
}

pub proof fn lemma_not_commented(s: Seq<char>, i: int)
    requires
        !s.contains('#'),
        !s.contains('$'),
        0 <= i <= s.len(),
    ensures
        comment_start(s, i) == s.len(),
    decreases s.len() - i,
{
    if i < s.len() {
        assert(s.contains(s[i]));
        lemma_not_commented(s, i + 1);
    }
}

proof fn lemma_trimmed_stays(v: Seq<char>)
    requires
        text::trimmed(v) == v,
    ensures
        v.len() > 0 ==> !text::is_space(v[0]) && !text::is_space(v.last()),
        text::trimmed(seq![' '] + v) == v,
{
    let spaced = seq![' '] + v;
    let start = text::trimmed_start(v);
    text::lemma_first_not_in(v, 0, Class::Space);
    lemma_trimmed_end_length(start);
    assert(start =~= v);
    if v.len() > 0 {
        assert(text::first_not_in(v, 0, Class::Space) == 0);
        assert(!text::is_space(v.last())) by {
            if text::is_space(v.last()) {
                lemma_trimmed_end_length(v.drop_last());
            }
        }
        assert(spaced[1] == v[0]);
        assert(text::first_not_in(spaced, 1, Class::Space) == 1);
        assert(text::first_not_in(spaced, 0, Class::Space) == 1);
    } else {
        assert(text::first_not_in(spaced, 1, Class::Space) == 1);
        assert(text::first_not_in(spaced, 0, Class::Space) == 1);
    }
    assert(spaced.skip(1) =~= v);
}

proof fn lemma_trimmed_end_length(s: Seq<char>)
    ensures
        text::trimmed_end(s).len() <= s.len(),
    decreases s.len(),
{
    if s.len() > 0 && text::is_space(s.last()) {
        lemma_trimmed_end_length(s.drop_last());
    }
}

/// The line that gives version `v`.
pub open spec fn version_line(v: Seq<char>) -> Seq<char> {
    "ninja_dyndep_version"@ + " = "@ + v
}

pub proof fn lemma_version_advanced(v: Seq<char>, known: Option<Known>)
    requires
        text::trimmed(v) == v,
        !v.contains('#'),
        !v.contains('$'),
    ensures
        !version_line(v).contains('#'),
        !version_line(v).contains('$'),
        ({
            let number = v.take(text::first_in(v, 0, Class::Is('-')));
            if number == "1"@ || number == "1.0"@ {
                advanced(start(), version_line(v), known) == Ok::<Progress, Seq<char>>(
                    Progress { version: true, ..start() },
                )
            } else {
                advanced(start(), version_line(v), known) == Err::<Progress, Seq<char>>(
                    "unsupported dyndep version"@,
                )
            }
        }),
{
    let name = "ninja_dyndep_version"@;
    let raw = version_line(v);
    reveal_strlit("ninja_dyndep_version");
    reveal_strlit(" = ");
    assert(name.len() == 20);
    assert forall|i: int| 0 <= i < name.len() implies #[trigger] name[i] != '#' && name[i] != '$'
        && name[i] != '=' && !text::is_space(name[i]) by {
        assert(name[0] == 'n' && name[1] == 'i' && name[2] == 'n' && name[3] == 'j' && name[4]
            == 'a' && name[5] == '_' && name[6] == 'd' && name[7] == 'y' && name[8] == 'n'
            && name[9] == 'd' && name[10] == 'e' && name[11] == 'p' && name[12] == '_' && name[13]
            == 'v' && name[14] == 'e' && name[15] == 'r' && name[16] == 's' && name[17] == 'i'
            && name[18] == 'o' && name[19] == 'n');
    }
    assert forall|i: int| 0 <= i < raw.len() implies #[trigger] raw[i] != '#' && raw[i]
        != '$' by {
        if i < 20 {
            assert(raw[i] == name[i]);
        } else if i < 23 {
            assert(raw[20] == ' ' && raw[21] == '=' && raw[22] == ' ');
        } else {
            assert(raw[i] == v[i - 23]);
            assert(v.contains(v[i - 23]));
        }
    }
    assert(raw[20] == ' ' && raw[21] == '=' && raw[22] == ' ');
    lemma_not_commented(raw, 0);
    assert(raw.take(raw.len() as int) =~= raw);
    lemma_trimmed_stays(v);
    expand::lemma_no_issues(v, 0, None);
    let line = text::trimmed_end(raw);
    let short = name + seq![' ', '='];
    if v.len() > 0 {
        assert(raw.last() == v.last());
        assert(line == raw);
        assert(line.skip(22) =~= seq![' '] + v);
    } else {
        assert(raw.drop_last() =~= short);
        assert(short.last() == '=');
        assert(text::trimmed_end(short) == short);
        assert(line == short);
        assert(line.skip(22) =~= v);
    }
    assert(forall|i: int| 0 <= i < 20 ==> line[i] == name[i]);
    assert(line[20] == ' ' && line[21] == '=');
    assert(line[0] == name[0]);
    assert(text::first_not_in(line, 0, Class::Space) == 0);
    assert(line.skip(0) =~= line);
    assert(text::trimmed(line).len() > 0) by {
        assert(text::trimmed_start(line) == line);
        assert(text::trimmed_end(line) == line);
    }
    text::lemma_first_in(line, 0, Class::Is('='));
    let equals = text::first_in(line, 0, Class::Is('='));
    assert(equals == 21) by {
        if equals < 20 {
            assert(line[equals] == name[equals]);
        }
    }
    let left = line.take(21);
    assert(left =~= name + seq![' ']);
    assert(text::trimmed(left) == name) by {
        assert(left[0] == name[0]);
        assert(text::first_not_in(left, 0, Class::Space) == 0);
        assert(left.skip(0) =~= left);
        assert(left.drop_last() =~= name);
        assert(!text::is_space(name.last()));
        assert(text::trimmed_end(name) == name);
        assert(left.last() == ' ');
    }
    assert(advanced(start(), raw, known) is Ok ==> advanced(start(), raw, known)->Ok_0
        =~= (Progress { version: true, ..start() }));
}

pub proof fn lemma_version_line_chars(v: Seq<char>)
    requires
        !v.contains('\n'),
        !v.contains('\r'),
    ensures
        forall|i: int|
            0 <= i < version_line(v).len() ==> #[trigger] version_line(v)[i] != '\n'
                && version_line(v)[i] != '\r',
{
    let line = version_line(v);
    reveal_strlit("ninja_dyndep_version");
    reveal_strlit(" = ");
    assert forall|i: int| 0 <= i < line.len() implies #[trigger] line[i] != '\n' && line[i]
        != '\r' by {
        let name = "ninja_dyndep_version"@;
        if i < 20 {
            assert(line[i] == name[i]);
            assert(name[0] == 'n' && name[1] == 'i' && name[2] == 'n' && name[3] == 'j' && name[4]
                == 'a' && name[5] == '_' && name[6] == 'd' && name[7] == 'y' && name[8] == 'n'
                && name[9] == 'd' && name[10] == 'e' && name[11] == 'p' && name[12] == '_'
                && name[13] == 'v' && name[14] == 'e' && name[15] == 'r' && name[16] == 's'
                && name[17] == 'i' && name[18] == 'o' && name[19] == 'n');
        } else if i < 23 {
            assert(line[20] == ' ' && line[21] == '=' && line[22] == ' ');
        } else {
            assert(line[i] == v[i - 23]);
            assert(v.contains(v[i - 23]));
        }
    }
}

/// A file that gives nothing but its version is accepted where that is 1 or 1.0, whatever
/// follows a hyphen, and refused otherwise. Without a line feed at its end it is refused
/// in any case.
pub proof fn law_versions_that_are_understood(v: Seq<char>, path: Seq<char>)
    requires
        text::trimmed(v) == v,
        !v.contains('\n'),
        !v.contains('\r'),
        !v.contains('#'),
        !v.contains('$'),
    ensures
        ({
            let number = v.take(text::first_in(v, 0, Class::Is('-')));
            let whole = dyndep(version_line(v).push('\n'), path);
            let cut = dyndep(version_line(v), path);
            if number == "1"@ || number == "1.0"@ {
                &&& whole == Ok::<Seq<RecordView>, Seq<char>>(seq![])
                &&& cut == Err::<Seq<RecordView>, Seq<char>>(
                    error_text(path, 1, "unexpected EOF"@),
                )
            } else {
                let message = error_text(path, 1, "unsupported dyndep version"@);
                &&& whole == Err::<Seq<RecordView>, Seq<char>>(message)
                &&& cut == Err::<Seq<RecordView>, Seq<char>>(message)
            }
        }),
{
    let line = version_line(v);
    lemma_version_advanced(v, None);
    reveal_strlit("ninja_dyndep_version");
    reveal_strlit(" = ");
    lemma_version_line_chars(v);
    build_log_laws::lemma_one_line(line);
    assert(text::text_lines(line, 0) =~= seq![line]) by {
        text::lemma_first_in(line, 0, Class::Is('\n'));
        assert(line.subrange(0, line.len() as int) =~= line);
    }
    assert(text::occurrences(line, '\n') == 0) by {
        lemma_none_occurs(line);
    }
    assert(line.last() != '\n');
    assert(statement_at(seq![line], 0) == (line, 1int));
    let p = Progress { version: true, ..start() };
    assert(completed(path, seq![line], 1, p, None) == Ok::<Progress, Seq<char>>(p));
    assert(line.push('\n').last() == '\n');
}

proof fn lemma_none_occurs(s: Seq<char>)
    requires
        !s.contains('\n'),
    ensures
        text::occurrences(s, '\n') == 0,
    decreases s.len(),
{
    if s.len() > 0 {
        assert(s.contains(s.last()));
        assert(!s.drop_last().contains('\n')) by {
            if s.drop_last().contains('\n') {
                let k = choose|k: int| 0 <= k < s.drop_last().len() && s.drop_last()[k] == '\n';
                assert(s[k] == '\n');
            }
        }
        lemma_none_occurs(s.drop_last());
    }
}

} // verus!
