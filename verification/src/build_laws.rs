//! What can be relied on where build statements are read: what is written is read back.
use crate::build_line;
use crate::build_line::Draft;
use crate::build_line::Inputs;
use crate::build_line::Kind;
use crate::build_line::Token;
use crate::manifest::EdgeView;
use crate::paths;
use crate::text;
use crate::text::Class;
use vstd::prelude::*;

verus! {

/// A piece of a build statement.
pub enum Piece {
    Word(Seq<char>),
    Colon,
    Pipe,
    Pipes,
    Check,
}

/// How a piece is written.
pub open spec fn piece_text(piece: Piece) -> Seq<char> {
    match piece {
        Piece::Word(word) => word,
        Piece::Colon => seq![':'],
        Piece::Pipe => seq!['|'],
        Piece::Pipes => seq!['|', '|'],
        Piece::Check => seq!['|', '@'],
    }
}

/// Whether the characters of a word from `i` on are such that nothing ends the word: blanks,
/// colons and bars come only behind dollar signs, and the last is not a dollar sign.
pub open spec fn goes_on(word: Seq<char>, i: int) -> bool
    decreases word.len() - i,
{
    if i < 0 || i >= word.len() {
        true
    } else if word[i] == '$' {
        i + 1 < word.len() && goes_on(word, i + 2)
    } else {
        word[i] != ' ' && word[i] != '\t' && word[i] != ':' && word[i] != '|' && goes_on(
            word,
            i + 1,
        )
    }
}

pub open spec fn is_word(word: Seq<char>) -> bool {
    word.len() > 0 && goes_on(word, 0)
}

pub open spec fn is_piece(piece: Piece) -> bool {
    piece matches Piece::Word(word) ==> is_word(word)
}

/// As many spaces.
pub open spec fn spaces(n: nat) -> Seq<char> {
    Seq::new(n, |i: int| ' ')
}

/// Pieces from `k` on, each behind its spaces.
pub open spec fn written(pieces: Seq<Piece>, gaps: Seq<nat>, k: int) -> Seq<char>
    decreases pieces.len() - k,
{
    if k < 0 || k >= pieces.len() {
        seq![]
    } else {
        spaces(gaps[k]) + piece_text(pieces[k]) + written(pieces, gaps, k + 1)
    }
}

/// Whether pieces are kept apart: there is a space before every piece but the first and the
/// colons.
pub open spec fn are_apart(pieces: Seq<Piece>, gaps: Seq<nat>) -> bool {
    &&& gaps.len() == pieces.len()
    &&& forall|k: int| 0 <= k < pieces.len() ==> is_piece(#[trigger] pieces[k])
    &&& forall|k: int| 0 < k < pieces.len() && !(pieces[k] is Colon) ==> #[trigger] gaps[k] > 0
}

/// Whether a token is one of a piece.
pub open spec fn is_token(s: Seq<char>, token: Token, piece: Piece) -> bool {
    match piece {
        Piece::Word(word) => token.kind == Kind::Word && build_line::word(s, token) == word,
        Piece::Colon => token.kind == Kind::Colon,
        Piece::Pipe => token.kind == Kind::Pipe,
        Piece::Pipes => token.kind == Kind::Pipe2,
        Piece::Check => token.kind == Kind::Validation,
    }
}

spec fn are_tokens(s: Seq<char>, tokens: Seq<Token>, pieces: Seq<Piece>, k: int) -> bool {
    &&& tokens.len() == pieces.len() - k
    &&& forall|j: int|
        0 <= j < tokens.len() ==> is_token(s, #[trigger] tokens[j], pieces[k + j])
}

proof fn lemma_rest(s: Seq<char>, i: int, a: Seq<char>, b: Seq<char>)
    requires
        0 <= i <= s.len(),
        s.skip(i) == a + b,
    ensures
        i + a.len() <= s.len(),
        s.skip(i + a.len()) == b,
        s.subrange(i, i + a.len()) == a,
{
    let t = s.skip(i);
    assert(t.len() == s.len() - i);
    assert((a + b).len() == a.len() + b.len());
    let rest = s.skip(i + a.len());
    assert forall|z: int| 0 <= z < b.len() implies #[trigger] rest[z] == b[z] by {
        assert(t[z + a.len()] == (a + b)[z + a.len()]);
    }
    assert(rest =~= b);
    let front = s.subrange(i, i + a.len());
    assert forall|z: int| 0 <= z < a.len() implies #[trigger] front[z] == a[z] by {
        assert(t[z] == (a + b)[z]);
    }
    assert(front =~= a);
}

proof fn lemma_word_end(s: Seq<char>, i: int, word: Seq<char>, x: int)
    requires
        0 <= i,
        0 <= x <= word.len(),
        i + (word.len() - x) <= s.len(),
        goes_on(word, x),
        forall|z: int| x <= z < word.len() ==> s[i + (z - x)] == #[trigger] word[z],
        i + (word.len() - x) < s.len() ==> ({
            let c = s[i + (word.len() - x)];
            c == ' ' || c == ':'
        }),
    ensures
        build_line::word_end(s, i) == i + (word.len() - x),
    decreases word.len() - x,
{
    if x < word.len() {
        assert(s[i + (x - x)] == word[x]);
        if word[x] == '$' {
            assert forall|z: int| x + 2 <= z < word.len() implies s[i + 2 + (z - (x + 2))]
                == #[trigger] word[z] by {
                assert(s[i + (z - x)] == word[z]);
            }
            lemma_word_end(s, i + 2, word, x + 2);
        } else {
            assert forall|z: int| x + 1 <= z < word.len() implies s[i + 1 + (z - (x + 1))]
                == #[trigger] word[z] by {
                assert(s[i + (z - x)] == word[z]);
            }
            lemma_word_end(s, i + 1, word, x + 1);
        }
    }
}

proof fn lemma_after_spaces(s: Seq<char>, i: int, n: nat)
    requires
        0 <= i,
        i + n < s.len(),
        forall|z: int| i <= z < i + n ==> #[trigger] s[z] == ' ',
        s[i + n] != ' ',
        s[i + n] != '\t',
    ensures
        text::first_not_in(s, i, Class::Blank) == i + n,
    decreases n,
{
    if n > 0 {
        assert(s[i] == ' ');
        lemma_after_spaces(s, i + 1, (n - 1) as nat);
    }
}

proof fn lemma_tokens(s: Seq<char>, i: int, pieces: Seq<Piece>, gaps: Seq<nat>, k: int)
    requires
        0 <= i <= s.len() <= usize::MAX,
        0 <= k <= pieces.len(),
        are_apart(pieces, gaps),
        s.skip(i) == written(pieces, gaps, k),
    ensures
        are_tokens(s, build_line::tokens_from(s, i), pieces, k),
    decreases pieces.len() - k,
{
    let t = s.skip(i);
    assert(t.len() == s.len() - i);
    if k < pieces.len() {
        let piece = pieces[k];
        let gap = spaces(gaps[k]);
        let inner = piece_text(piece);
        let tail = written(pieces, gaps, k + 1);
        assert(is_piece(pieces[k]));
        assert(inner.len() > 0);
        assert(t =~= gap + (inner + tail));
        lemma_rest(s, i, gap, inner + tail);
        let at = i + gap.len();
        lemma_rest(s, at, inner, tail);
        let next = at + inner.len();
        assert forall|z: int| i <= z < at implies #[trigger] s[z] == ' ' by {
            assert(s.subrange(i, i + gap.len())[z - i] == gap[z - i]);
        }
        assert forall|z: int| 0 <= z < inner.len() implies s[at + z] == #[trigger] inner[z] by {
            assert(s.subrange(at, at + inner.len())[z] == inner[z]);
        }
        assert(s[at + 0] == inner[0]);
        assert(inner[0] != ' ' && inner[0] != '\t');
        lemma_after_spaces(s, i, gaps[k]);
        let behind = s.skip(next);
        assert(behind.len() == s.len() - next);
        assert(next < s.len() ==> s[next] == ' ' || s[next] == ':') by {
            if next < s.len() {
                assert(s[next] == behind[0]);
                assert(k + 1 < pieces.len());
                let gap2 = spaces(gaps[k + 1]);
                if gaps[k + 1] > 0 {
                    assert(tail[0] == gap2[0]);
                } else {
                    assert(pieces[k + 1] is Colon);
                    assert(gap2 =~= seq![]);
                    assert(tail[0] == ':');
                }
            }
        }
        let token = build_line::token_at(s, at);
        match piece {
            Piece::Word(word) => {
                assert forall|z: int| 0 <= z < word.len() implies s[at + (z - 0)]
                    == #[trigger] word[z] by {
                    assert(s[at + z] == inner[z]);
                }
                lemma_word_end(s, at, word, 0);
                assert(token.kind == Kind::Word && token.end == next);
                assert(build_line::word(s, token) =~= word);
            },
            Piece::Colon => {
                assert(token.kind == Kind::Colon && token.end == next);
            },
            Piece::Pipe => {
                assert(token.kind == Kind::Pipe && token.end == next);
            },
            Piece::Pipes => {
                assert(s[at + 1] == inner[1]);
                assert(token.kind == Kind::Pipe2 && token.end == next);
            },
            Piece::Check => {
                assert(s[at + 1] == inner[1]);
                assert(token.kind == Kind::Validation && token.end == next);
            },
        }
        lemma_tokens(s, next, pieces, gaps, k + 1);
        let after = build_line::tokens_from(s, next);
        let all = build_line::tokens_from(s, i);
        assert(all == seq![token] + after);
        assert forall|j: int| 0 <= j < all.len() implies is_token(
            s,
            #[trigger] all[j],
            pieces[k + j],
        ) by {
            if j > 0 {
                assert(all[j] == after[j - 1]);
                assert(is_token(s, after[j - 1], pieces[k + 1 + (j - 1)]));
            }
        }
    } else {
        assert(s.len() == i);
    }
}

/// Words as pieces.
pub open spec fn words(list: Seq<Seq<char>>) -> Seq<Piece> {
    list.map_values(|word: Seq<char>| Piece::Word(word))
}

/// Words behind a mark, where there are any.
pub open spec fn marked(mark: Piece, list: Seq<Seq<char>>) -> Seq<Piece> {
    if list.len() == 0 {
        seq![]
    } else {
        seq![mark] + words(list)
    }
}

/// What a build statement says.
pub struct Statement {
    pub outputs: Seq<Seq<char>>,
    pub implicit_outputs: Seq<Seq<char>>,
    pub rule: Seq<char>,
    pub inputs: Seq<Seq<char>>,
    pub implicit_inputs: Seq<Seq<char>>,
    pub order_only: Seq<Seq<char>>,
    pub validations: Seq<Seq<char>>,
}

/// The pieces of a build statement: outputs, implicit ones behind a bar, a colon, the rule, and
/// the inputs, implicit ones behind a bar, order-only ones behind two, and validations behind
/// `|@`.
pub open spec fn pieces_of(b: Statement) -> Seq<Piece> {
    words(b.outputs) + marked(Piece::Pipe, b.implicit_outputs) + seq![
        Piece::Colon,
        Piece::Word(b.rule),
    ] + words(b.inputs) + marked(Piece::Pipe, b.implicit_inputs) + marked(
        Piece::Pipes,
        b.order_only,
    ) + marked(Piece::Check, b.validations)
}

/// The paths that words name: those without dollar signs in canonical form, the others as they
/// are written, for their variables are not known yet.
pub open spec fn named(list: Seq<Seq<char>>, windows: bool) -> Seq<Seq<char>> {
    list.map_values(
        |word: Seq<char>|
            if word.contains('$') {
                word
            } else {
                paths::canonical(word, windows).0
            },
    )
}

/// Whether the tokens from `k` on begin with those of words.
spec fn are_words(s: Seq<char>, tokens: Seq<Token>, k: int, list: Seq<Seq<char>>) -> bool {
    &&& 0 <= k
    &&& k + list.len() <= tokens.len()
    &&& forall|j: int|
        0 <= j < list.len() ==> is_token(s, tokens[k + j], Piece::Word(#[trigger] list[j]))
}

spec fn bits_of(list: Seq<Seq<char>>, windows: bool) -> Seq<u64> {
    list.map_values(|word: Seq<char>| build_line::path_of(word, windows).1)
}

/// A draft with more outputs.
spec fn more_outputs(d: Draft, implicit: bool, list: Seq<Seq<char>>, windows: bool) -> Draft {
    let e = d.edge;
    Draft {
        edge: if implicit {
            EdgeView {
                implicit_outputs: e.implicit_outputs + named(list, windows),
                ..e
            }
        } else {
            EdgeView {
                explicit_outputs: e.explicit_outputs + named(list, windows),
                ..e
            }
        },
        bits: d.bits + bits_of(list, windows),
    }
}

proof fn lemma_named_first(list: Seq<Seq<char>>, windows: bool)
    requires
        list.len() > 0,
    ensures
        named(list, windows) == seq![build_line::path_of(list[0], windows).0] + named(
            list.skip(1),
            windows,
        ),
        bits_of(list, windows) == seq![build_line::path_of(list[0], windows).1] + bits_of(
            list.skip(1),
            windows,
        ),
{
    assert(named(list, windows) =~= seq![build_line::path_of(list[0], windows).0] + named(
        list.skip(1),
        windows,
    ));
    assert(bits_of(list, windows) =~= seq![build_line::path_of(list[0], windows).1] + bits_of(
        list.skip(1),
        windows,
    ));
}

proof fn lemma_outputs(
    s: Seq<char>,
    tokens: Seq<Token>,
    k: int,
    colon: int,
    implicit: bool,
    windows: bool,
    d: Draft,
    list: Seq<Seq<char>>,
)
    requires
        are_words(s, tokens, k, list),
        k + list.len() <= colon,
    ensures
        build_line::with_outputs(s, tokens, k, colon, implicit, windows, d)
            == build_line::with_outputs(
            s,
            tokens,
            k + list.len(),
            colon,
            implicit,
            windows,
            more_outputs(d, implicit, list, windows),
        ),
    decreases list.len(),
{
    if list.len() > 0 {
        assert(is_token(s, tokens[k + 0], Piece::Word(list[0])));
        let rest = list.skip(1);
        let next = build_line::with_output(
            d,
            implicit,
            build_line::path_of(list[0], windows),
        );
        assert forall|j: int| 0 <= j < rest.len() implies is_token(
            s,
            tokens[k + 1 + j],
            Piece::Word(#[trigger] rest[j]),
        ) by {
            assert(is_token(s, tokens[k + (j + 1)], Piece::Word(list[j + 1])));
        }
        lemma_outputs(s, tokens, k + 1, colon, implicit, windows, next, rest);
        lemma_named_first(list, windows);
        assert(more_outputs(next, implicit, rest, windows) =~= more_outputs(
            d,
            implicit,
            list,
            windows,
        ));
    } else {
        assert(more_outputs(d, implicit, list, windows) =~= d);
    }
}

/// A draft with more inputs of a list.
spec fn more_inputs(d: Draft, to: Inputs, list: Seq<Seq<char>>, windows: bool) -> Draft {
    let e = d.edge;
    let more = named(list, windows);
    Draft {
        edge: match to {
            Inputs::Explicit => EdgeView {
                explicit_inputs: e.explicit_inputs + more,
                ..e
            },
            Inputs::Implicit => EdgeView {
                implicit_inputs: e.implicit_inputs + more,
                ..e
            },
            Inputs::OrderOnly => EdgeView {
                order_only_inputs: e.order_only_inputs + more,
                ..e
            },
            Inputs::Validation => EdgeView {
                validations: e.validations + more,
                ..e
            },
        },
        bits: d.bits + bits_of(list, windows),
    }
}

proof fn lemma_inputs(
    s: Seq<char>,
    tokens: Seq<Token>,
    k: int,
    to: Inputs,
    windows: bool,
    d: Draft,
    list: Seq<Seq<char>>,
)
    requires
        are_words(s, tokens, k, list),
    ensures
        build_line::with_inputs(s, tokens, k, to, windows, d) == build_line::with_inputs(
            s,
            tokens,
            k + list.len(),
            to,
            windows,
            more_inputs(d, to, list, windows),
        ),
    decreases list.len(),
{
    if list.len() > 0 {
        assert(is_token(s, tokens[k + 0], Piece::Word(list[0])));
        let rest = list.skip(1);
        let next = build_line::with_input(d, to, build_line::path_of(list[0], windows));
        assert forall|j: int| 0 <= j < rest.len() implies is_token(
            s,
            tokens[k + 1 + j],
            Piece::Word(#[trigger] rest[j]),
        ) by {
            assert(is_token(s, tokens[k + (j + 1)], Piece::Word(list[j + 1])));
        }
        lemma_inputs(s, tokens, k + 1, to, windows, next, rest);
        lemma_named_first(list, windows);
        assert(more_inputs(next, to, rest, windows) =~= more_inputs(d, to, list, windows));
    } else {
        assert(more_inputs(d, to, list, windows) =~= d);
    }
}

/// Inputs behind a mark.
proof fn lemma_marked_inputs(
    s: Seq<char>,
    tokens: Seq<Token>,
    k: int,
    from: Inputs,
    to: Inputs,
    mark: Piece,
    windows: bool,
    d: Draft,
    list: Seq<Seq<char>>,
) -> (at: Inputs)
    requires
        0 <= k,
        k + marked(mark, list).len() <= tokens.len(),
        forall|j: int|
            0 <= j < marked(mark, list).len() ==> is_token(
                s,
                tokens[k + j],
                #[trigger] marked(mark, list)[j],
            ),
        build_line::rank(from) < build_line::rank(to),
        (mark is Pipe && to == Inputs::Implicit) || (mark is Pipes && to == Inputs::OrderOnly) || (
        mark is Check && to == Inputs::Validation),
    ensures
        build_line::rank(at) <= build_line::rank(to),
        build_line::with_inputs(s, tokens, k, from, windows, d) == build_line::with_inputs(
            s,
            tokens,
            k + marked(mark, list).len(),
            at,
            windows,
            more_inputs(d, to, list, windows),
        ),
{
    if list.len() > 0 {
        let all = marked(mark, list);
        assert(is_token(s, tokens[k + 0], all[0]));
        assert forall|j: int| 0 <= j < list.len() implies is_token(
            s,
            tokens[k + 1 + j],
            Piece::Word(#[trigger] list[j]),
        ) by {
            assert(is_token(s, tokens[k + (j + 1)], all[j + 1]));
            assert(all[j + 1] == words(list)[j]);
        }
        lemma_inputs(s, tokens, k + 1, to, windows, d, list);
        to
    } else {
        assert(more_inputs(d, to, list, windows) =~= d);
        from
    }
}

proof fn lemma_first_colon(s: Seq<char>, tokens: Seq<Token>, k: int, colon: int)
    requires
        0 <= k <= colon < tokens.len(),
        tokens[colon].kind == Kind::Colon,
        forall|j: int| k <= j < colon ==> (#[trigger] tokens[j]).kind != Kind::Colon,
    ensures
        build_line::first_colon(tokens, k) == colon,
    decreases colon - k,
{
    if k < colon {
        lemma_first_colon(s, tokens, k + 1, colon);
    }
}

proof fn lemma_slice(s: Seq<char>, tokens: Seq<Token>, pieces: Seq<Piece>, k: int, list: Seq<Piece>)
    requires
        are_tokens(s, tokens, pieces, 0),
        0 <= k,
        k + list.len() <= pieces.len(),
        pieces.subrange(k, k + list.len()) == list,
    ensures
        forall|j: int| 0 <= j < list.len() ==> is_token(s, tokens[k + j], #[trigger] list[j]),
{
    assert forall|j: int| 0 <= j < list.len() implies is_token(
        s,
        tokens[k + j],
        #[trigger] list[j],
    ) by {
        assert(pieces.subrange(k, k + list.len())[j] == pieces[k + j]);
        assert(is_token(s, tokens[k + j], pieces[0 + (k + j)]));
    }
}

proof fn lemma_words_slice(
    s: Seq<char>,
    tokens: Seq<Token>,
    pieces: Seq<Piece>,
    k: int,
    list: Seq<Seq<char>>,
)
    requires
        are_tokens(s, tokens, pieces, 0),
        0 <= k,
        k + list.len() <= pieces.len(),
        pieces.subrange(k, k + list.len()) == words(list),
    ensures
        are_words(s, tokens, k, list),
{
    lemma_slice(s, tokens, pieces, k, words(list));
    assert forall|j: int| 0 <= j < list.len() implies is_token(
        s,
        tokens[k + j],
        Piece::Word(#[trigger] list[j]),
    ) by {
        assert(words(list)[j] == Piece::Word(list[j]));
    }
}

/// A build statement that is written, with however many spaces between its pieces, declares an
/// edge with just the outputs, the rule, the inputs and the validations that it says, each in
/// its own list and in order.
pub proof fn law_written_build_statement_is_read_back(
    b: Statement,
    gaps: Seq<nat>,
    path: Seq<char>,
    line: usize,
    ninja: bool,
    windows: bool,
)
    requires
        are_apart(pieces_of(b), gaps),
        b.outputs.len() + b.implicit_outputs.len() > 0,
        written(pieces_of(b), gaps, 0).len() <= usize::MAX,
    ensures
        ({
            let r = build_line::edge_of(
                written(pieces_of(b), gaps, 0),
                path,
                line,
                ninja,
                windows,
            );
            &&& r is Ok
            &&& ({
                let e = r->Ok_0.edge;
                &&& e.explicit_outputs == named(b.outputs, windows)
                &&& e.implicit_outputs == named(b.implicit_outputs, windows)
                &&& e.rule == b.rule
                &&& e.explicit_inputs == named(b.inputs, windows)
                &&& e.implicit_inputs == named(b.implicit_inputs, windows)
                &&& e.order_only_inputs == named(b.order_only, windows)
                &&& e.validations == named(b.validations, windows)
                &&& e.bindings == Map::<Seq<char>, Seq<char>>::empty()
                &&& e.source == path
                &&& e.line == line
            })
        }),
{
    let pieces = pieces_of(b);
    let s = written(pieces, gaps, 0);
    assert(s.skip(0) =~= s);
    lemma_tokens(s, 0, pieces, gaps, 0);
    let tokens = build_line::tokens_from(s, 0);
    let a0 = b.outputs.len() as int;
    let side = marked(Piece::Pipe, b.implicit_outputs);
    let colon = a0 + side.len();
    let i0 = colon + 2;
    let i1 = i0 + b.inputs.len();
    let m1 = marked(Piece::Pipe, b.implicit_inputs);
    let i2 = i1 + m1.len();
    let m2 = marked(Piece::Pipes, b.order_only);
    let i3 = i2 + m2.len();
    let m3 = marked(Piece::Check, b.validations);
    let i4 = i3 + m3.len();
    assert(pieces.len() == i4);
    assert(pieces.subrange(0, a0) =~= words(b.outputs));
    assert(pieces.subrange(a0, a0 + side.len()) =~= side);
    assert(pieces[colon] == Piece::Colon);
    assert(pieces[colon + 1] == Piece::Word(b.rule));
    assert(pieces.subrange(i0, i0 + b.inputs.len()) =~= words(b.inputs));
    assert(pieces.subrange(i1, i1 + m1.len()) =~= m1);
    assert(pieces.subrange(i2, i2 + m2.len()) =~= m2);
    assert(pieces.subrange(i3, i3 + m3.len()) =~= m3);
    assert(is_token(s, tokens[colon], pieces[0 + colon]));
    assert(is_token(s, tokens[colon + 1], pieces[0 + (colon + 1)]));
    assert forall|j: int| 0 <= j < colon implies (#[trigger] tokens[j]).kind != Kind::Colon by {
        assert(is_token(s, tokens[j], pieces[0 + j]));
        if j < a0 {
            assert(pieces[j] == pieces.subrange(0, a0)[j]);
        } else {
            assert(pieces[j] == pieces.subrange(a0, a0 + side.len())[j - a0]);
        }
    }
    lemma_first_colon(s, tokens, 0, colon);
    let d0 = build_line::empty_draft(path, line);
    lemma_words_slice(s, tokens, pieces, 0, b.outputs);
    lemma_outputs(s, tokens, 0, colon, false, windows, d0, b.outputs);
    let d1 = more_outputs(d0, false, b.outputs, windows);
    let d2 = more_outputs(d1, true, b.implicit_outputs, windows);
    assert(build_line::with_outputs(s, tokens, 0, colon, false, windows, d0) == Ok::<Draft, int>(
        d2,
    )) by {
        if b.implicit_outputs.len() > 0 {
            lemma_slice(s, tokens, pieces, a0, side);
            assert(is_token(s, tokens[a0 + 0], side[0]));
            assert(pieces.subrange(a0 + 1, a0 + 1 + b.implicit_outputs.len()) =~= words(
                b.implicit_outputs,
            ));
            lemma_words_slice(s, tokens, pieces, a0 + 1, b.implicit_outputs);
            lemma_outputs(s, tokens, a0 + 1, colon, true, windows, d1, b.implicit_outputs);
        } else {
            assert(d2 =~= d1);
        }
    }
    assert(named(b.outputs, windows).len() == b.outputs.len());
    assert(d2.edge.explicit_outputs =~= named(b.outputs, windows));
    assert(d2.edge.implicit_outputs =~= named(b.implicit_outputs, windows));
    let d3 = Draft {
        edge: EdgeView {
            rule: build_line::word(s, tokens[colon + 1]),
            ..d2.edge
        },
        ..d2
    };
    lemma_words_slice(s, tokens, pieces, i0, b.inputs);
    lemma_inputs(s, tokens, i0, Inputs::Explicit, windows, d3, b.inputs);
    let d4 = more_inputs(d3, Inputs::Explicit, b.inputs, windows);
    lemma_slice(s, tokens, pieces, i1, m1);
    let l1 = lemma_marked_inputs(
        s,
        tokens,
        i1,
        Inputs::Explicit,
        Inputs::Implicit,
        Piece::Pipe,
        windows,
        d4,
        b.implicit_inputs,
    );
    let d5 = more_inputs(d4, Inputs::Implicit, b.implicit_inputs, windows);
    lemma_slice(s, tokens, pieces, i2, m2);
    let l2 = lemma_marked_inputs(
        s,
        tokens,
        i2,
        l1,
        Inputs::OrderOnly,
        Piece::Pipes,
        windows,
        d5,
        b.order_only,
    );
    let d6 = more_inputs(d5, Inputs::OrderOnly, b.order_only, windows);
    lemma_slice(s, tokens, pieces, i3, m3);
    let l3 = lemma_marked_inputs(
        s,
        tokens,
        i3,
        l2,
        Inputs::Validation,
        Piece::Check,
        windows,
        d6,
        b.validations,
    );
    let d7 = more_inputs(d6, Inputs::Validation, b.validations, windows);
    assert(build_line::with_inputs(s, tokens, i4, l3, windows, d7) == Ok::<Draft, int>(d7));
    assert(d7.edge.explicit_inputs =~= named(b.inputs, windows));
    assert(d7.edge.implicit_inputs =~= named(b.implicit_inputs, windows));
    assert(d7.edge.order_only_inputs =~= named(b.order_only, windows));
    assert(d7.edge.validations =~= named(b.validations, windows));
}

} // verus!
