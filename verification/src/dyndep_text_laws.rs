//! What can be relied on where dyndep files are read: what is written is read back.
use crate::build_laws;
use crate::build_laws::Piece;
use crate::dyndep;
use crate::dyndep::Known;
use crate::dyndep::Progress;
use crate::dyndep::RecordView;
use crate::dyndep::TokenView;
use crate::expand;
use crate::lines;
use crate::paths;
use crate::text;
use crate::text::Class;
use vstd::prelude::*;

verus! {

/// Whether a path can be written as it is: it is not empty, and has no white space and none of
/// the characters that have a meaning of their own.
pub open spec fn is_plain(path: Seq<char>) -> bool {
    &&& path.len() > 0
    &&& forall|i: int|
        0 <= i < path.len() ==> !text::is_space(#[trigger] path[i]) && path[i] != '$' && path[i]
            != '#' && path[i] != ':' && path[i] != '|'
}

pub open spec fn is_plain_piece(piece: Piece) -> bool {
    match piece {
        Piece::Word(word) => is_plain(word),
        Piece::Colon | Piece::Pipe => true,
        Piece::Pipes | Piece::Check => false,
    }
}

/// The pieces of the statement that makes a record.
pub open spec fn pieces_of(r: RecordView) -> Seq<Piece> {
    seq![Piece::Word(r.output)] + build_laws::marked(Piece::Pipe, r.implicit_outputs) + seq![
        Piece::Colon,
        Piece::Word("dyndep"@),
    ] + build_laws::marked(Piece::Pipe, r.implicit_inputs)
}

/// The line that makes a record, with spaces between its pieces.
pub open spec fn record_line(r: RecordView, gaps: Seq<nat>) -> Seq<char> {
    "build "@ + build_laws::written(pieces_of(r), gaps, 0)
}

/// The lines of records from `k` on. A record with `restat` has another line.
pub open spec fn lines_of(records: Seq<RecordView>, gaps: Seq<Seq<nat>>, k: int) -> Seq<Seq<char>>
    decreases records.len() - k,
{
    if k < 0 || k >= records.len() {
        seq![]
    } else if records[k].restat {
        seq![record_line(records[k], gaps[k]), "  restat = 1"@] + lines_of(records, gaps, k + 1)
    } else {
        seq![record_line(records[k], gaps[k])] + lines_of(records, gaps, k + 1)
    }
}

/// The lines of a file.
pub open spec fn file_lines(records: Seq<RecordView>, gaps: Seq<Seq<nat>>) -> Seq<Seq<char>> {
    seq![dyndep::version_line("1"@)] + lines_of(records, gaps, 0)
}

/// Lines from `k` on, each with a line feed.
pub open spec fn with_feeds(all: Seq<Seq<char>>, k: int) -> Seq<char>
    decreases all.len() - k,
{
    if k < 0 || k >= all.len() {
        seq![]
    } else {
        all[k] + seq!['\n'] + with_feeds(all, k + 1)
    }
}

/// Whether records can be written: their paths can, their pieces are kept apart, and no two of
/// them are about the same output.
pub open spec fn are_writable(records: Seq<RecordView>, gaps: Seq<Seq<nat>>) -> bool {
    &&& gaps.len() == records.len()
    &&& forall|k: int|
        0 <= k < records.len() ==> is_plain((#[trigger] records[k]).output)
    &&& forall|k: int, i: int|
        0 <= k < records.len() && 0 <= i < records[k].implicit_outputs.len() ==> is_plain(
            #[trigger] records[k].implicit_outputs[i],
        )
    &&& forall|k: int, i: int|
        0 <= k < records.len() && 0 <= i < records[k].implicit_inputs.len() ==> is_plain(
            #[trigger] records[k].implicit_inputs[i],
        )
    &&& forall|k: int|
        0 <= k < records.len() ==> build_laws::are_apart(
            pieces_of(#[trigger] records[k]),
            gaps[k],
        )
    &&& forall|k: int, j: int|
        0 <= k < j < records.len() ==> (#[trigger] records[k]).output != (
        #[trigger] records[j]).output
}

proof fn lemma_rest(s: Seq<char>, i: int, a: Seq<char>, b: Seq<char>)
    requires
        0 <= i <= s.len(),
        s.skip(i) == a + b,
    ensures
        i + a.len() <= s.len(),
        s.skip(i + a.len()) == b,
        s.subrange(i, i + a.len()) == a,
        forall|z: int| 0 <= z < a.len() ==> s[i + z] == #[trigger] a[z],
        b.len() == s.len() - i - a.len(),
{
    let t = s.skip(i);
    assert(t.len() == s.len() - i);
    assert((a + b).len() == a.len() + b.len());
    let rest = s.skip(i + a.len());
    assert forall|z: int| 0 <= z < b.len() implies #[trigger] rest[z] == b[z] by {
        assert(t[z + a.len()] == (a + b)[z + a.len()]);
    }
    assert(rest =~= b);
    assert forall|z: int| 0 <= z < a.len() implies s[i + z] == #[trigger] a[z] by {
        assert(t[z] == (a + b)[z]);
    }
    let front = s.subrange(i, i + a.len());
    assert forall|z: int| 0 <= z < a.len() implies #[trigger] front[z] == a[z] by {
        assert(s[i + z] == a[z]);
    }
    assert(front =~= a);
}

/// Whether a line is one that ends nothing before its end and is not continued.
spec fn is_simple(line: Seq<char>) -> bool {
    forall|i: int|
        0 <= i < line.len() ==> #[trigger] line[i] != '\n' && line[i] != '\r' && line[i] != '#'
            && line[i] != '$'
}

proof fn lemma_text_lines(s: Seq<char>, i: int, all: Seq<Seq<char>>, k: int)
    requires
        0 <= i <= s.len(),
        0 <= k <= all.len(),
        forall|x: int| 0 <= x < all.len() ==> is_simple(#[trigger] all[x]),
        s.skip(i) == with_feeds(all, k),
    ensures
        text::text_lines(s, i) == all.skip(k),
    decreases all.len() - k,
{
    if k < all.len() {
        let line = all[k];
        let tail = with_feeds(all, k + 1);
        assert(is_simple(all[k]));
        assert(s.skip(i) =~= (line + seq!['\n']) + tail);
        lemma_rest(s, i, line + seq!['\n'], tail);
        let at = i + line.len();
        let both = line + seq!['\n'];
        assert(s[i + line.len()] == both[line.len() as int]);
        let end = text::first_in(s, i, Class::Is('\n'));
        text::lemma_first_in(s, i, Class::Is('\n'));
        if end < at {
            assert(s[i + (end - i)] == both[end - i]);
            assert(line[end - i] != '\n');
        }
        if end > at {
            assert(!text::belongs(s[at], Class::Is('\n')));
        }
        assert(end == at);
        assert(s.subrange(i, end) =~= line) by {
            let front = s.subrange(i, end);
            assert forall|z: int| 0 <= z < line.len() implies #[trigger] front[z] == line[z] by {
                assert(s[i + z] == both[z]);
            }
        }
        if line.len() > 0 {
            assert(line[line.len() - 1] != '\r');
        }
        lemma_text_lines(s, at + 1, all, k + 1);
        assert(all.skip(k) =~= seq![line] + all.skip(k + 1));
    } else {
        assert(s.skip(i).len() == s.len() - i);
        assert(all.skip(k) =~= seq![]);
    }
}

/// What pieces from `k` on are read as.
spec fn tokens_of(pieces: Seq<Piece>, k: int) -> Seq<TokenView>
    decreases pieces.len() - k,
{
    if k < 0 || k >= pieces.len() {
        seq![]
    } else {
        seq![token_of(pieces[k])] + tokens_of(pieces, k + 1)
    }
}

spec fn token_of(piece: Piece) -> TokenView {
    match piece {
        Piece::Word(word) => TokenView::Word(word),
        Piece::Colon => TokenView::Colon,
        Piece::Pipe => TokenView::Pipe,
        Piece::Pipes => TokenView::Pipe2,
        Piece::Check => TokenView::Validation,
    }
}

proof fn lemma_tokens_of(pieces: Seq<Piece>, k: int)
    requires
        0 <= k <= pieces.len(),
    ensures
        tokens_of(pieces, k).len() == pieces.len() - k,
        forall|j: int|
            0 <= j < pieces.len() - k ==> #[trigger] tokens_of(pieces, k)[j] == token_of(
                pieces[k + j],
            ),
    decreases pieces.len() - k,
{
    if k < pieces.len() {
        lemma_tokens_of(pieces, k + 1);
        let rest = tokens_of(pieces, k + 1);
        assert forall|j: int| 0 <= j < pieces.len() - k implies #[trigger] tokens_of(pieces, k)[j]
            == token_of(pieces[k + j]) by {
            if j > 0 {
                assert(rest[j - 1] == token_of(pieces[k + 1 + (j - 1)]));
            }
        }
    }
}

proof fn lemma_word_is_read(s: Seq<char>, i: int, word: Seq<char>, x: int, acc: Seq<char>)
    requires
        is_plain(word),
        0 <= x <= word.len(),
        0 <= i,
        i + (word.len() - x) <= s.len(),
        forall|z: int| x <= z < word.len() ==> s[i + (z - x)] == #[trigger] word[z],
    ensures
        dyndep::tokens_from(s, i, acc) == dyndep::tokens_from(
            s,
            i + (word.len() - x),
            acc + word.skip(x),
        ),
    decreases word.len() - x,
{
    if x < word.len() {
        assert(s[i + (x - x)] == word[x]);
        assert(!text::is_space(word[x]) && word[x] != '$');
        assert forall|z: int| x + 1 <= z < word.len() implies s[i + 1 + (z - (x + 1))]
            == #[trigger] word[z] by {
            assert(s[i + (z - x)] == word[z]);
        }
        lemma_word_is_read(s, i + 1, word, x + 1, acc.push(word[x]));
        assert(acc.push(word[x]) + word.skip(x + 1) =~= acc + word.skip(x));
    } else {
        assert(acc + word.skip(x) =~= acc);
    }
}

proof fn lemma_spaces_are_read(s: Seq<char>, i: int, n: nat)
    requires
        0 <= i,
        i + n <= s.len(),
        forall|z: int| i <= z < i + n ==> #[trigger] s[z] == ' ',
    ensures
        dyndep::tokens_from(s, i, seq![]) == dyndep::tokens_from(s, i + n, seq![]),
    decreases n,
{
    if n > 0 {
        assert(s[i] == ' ');
        lemma_spaces_are_read(s, i + 1, (n - 1) as nat);
        assert(dyndep::flushed(seq![]) + dyndep::tokens_from(s, i + 1, seq![])
            =~= dyndep::tokens_from(s, i + 1, seq![]));
    }
}

proof fn lemma_pieces_are_read(
    s: Seq<char>,
    i: int,
    pieces: Seq<Piece>,
    gaps: Seq<nat>,
    k: int,
    acc: Seq<char>,
)
    requires
        0 <= i <= s.len(),
        0 <= k <= pieces.len(),
        build_laws::are_apart(pieces, gaps),
        forall|x: int| 0 <= x < pieces.len() ==> is_plain_piece(#[trigger] pieces[x]),
        s.skip(i) == build_laws::written(pieces, gaps, k),
        k == 0 ==> acc.len() == 0,
    ensures
        dyndep::tokens_from(s, i, acc) == dyndep::flushed(acc) + tokens_of(pieces, k),
    decreases pieces.len() - k,
{
    let t = s.skip(i);
    assert(t.len() == s.len() - i);
    let goal = dyndep::flushed(acc) + tokens_of(pieces, k);
    if k < pieces.len() {
        let piece = pieces[k];
        let n = gaps[k];
        let gap = build_laws::spaces(n);
        let inner = build_laws::piece_text(piece);
        let tail = build_laws::written(pieces, gaps, k + 1);
        assert(is_plain_piece(pieces[k]));
        assert(t =~= gap + (inner + tail));
        lemma_rest(s, i, gap, inner + tail);
        let at = i + gap.len();
        lemma_rest(s, at, inner, tail);
        let next = at + inner.len();
        assert forall|z: int| i <= z < at implies #[trigger] s[z] == ' ' by {
            assert(s[i + (z - i)] == gap[z - i]);
        }
        // What was read of a word before the gap.
        let left = if n > 0 {
            Seq::<char>::empty()
        } else {
            acc
        };
        assert(dyndep::tokens_from(s, i, acc) =~= (if n > 0 {
            dyndep::flushed(acc)
        } else {
            seq![]
        }) + dyndep::tokens_from(s, at, left)) by {
            if n > 0 {
                assert(s[i] == ' ');
                lemma_spaces_are_read(s, i + 1, (n - 1) as nat);
            } else {
                assert(at == i);
            }
        }
        match piece {
            Piece::Word(word) => {
                assert(k == 0 || n > 0);
                assert(left =~= seq![]);
                assert(n == 0 ==> acc =~= seq![]);
                assert forall|z: int| 0 <= z < word.len() implies s[at + (z - 0)]
                    == #[trigger] word[z] by {
                    assert(s[at + z] == inner[z]);
                }
                lemma_word_is_read(s, at, word, 0, left);
                assert(left + word.skip(0) =~= word);
                lemma_pieces_are_read(s, next, pieces, gaps, k + 1, word);
                assert(dyndep::tokens_from(s, i, acc) =~= goal);
            },
            Piece::Colon => {
                assert(s[at + 0] == inner[0]);
                lemma_pieces_are_read(s, next, pieces, gaps, k + 1, seq![]);
                assert(dyndep::tokens_from(s, next, seq![]) =~= tokens_of(pieces, k + 1));
                assert(dyndep::tokens_from(s, i, acc) =~= goal);
            },
            Piece::Pipe => {
                assert(s[at + 0] == inner[0]);
                assert(next < s.len() ==> s[next] != '|' && s[next] != '@') by {
                    if next < s.len() {
                        let behind = s.skip(next);
                        assert(behind.len() == s.len() - next);
                        assert(behind[0] == s[next]);
                        assert(k + 1 < pieces.len());
                        let after = build_laws::spaces(gaps[k + 1]);
                        if gaps[k + 1] > 0 {
                            assert(tail[0] == after[0]);
                        } else {
                            assert(pieces[k + 1] is Colon);
                            assert(after =~= seq![]);
                            assert(tail[0] == ':');
                        }
                    }
                }
                lemma_pieces_are_read(s, next, pieces, gaps, k + 1, seq![]);
                assert(dyndep::tokens_from(s, next, seq![]) =~= tokens_of(pieces, k + 1));
                assert(dyndep::tokens_from(s, i, acc) =~= goal);
            },
            _ => {},
        }
    } else {
        assert(i == s.len());
        assert(goal =~= dyndep::flushed(acc));
    }
}

proof fn lemma_plain_word(word: Seq<char>)
    requires
        is_plain(word),
    ensures
        dyndep::unescaped(word) == word,
        dyndep::escape_error(word) is None,
{
    assert(!word.contains('$')) by {
        if word.contains('$') {
            assert(word[word.index_of('$')] == '$');
        }
    }
    expand::law_plain_text_expands_to_itself(word, |name: Seq<char>| None);
    expand::lemma_no_issues(word, 0, None);
}

proof fn lemma_listed(
    tokens: Seq<TokenView>,
    k: int,
    list: Seq<Seq<char>>,
    found: Seq<Seq<char>>,
    inputs: bool,
)
    requires
        0 <= k,
        k + list.len() <= tokens.len(),
        forall|j: int| 0 <= j < list.len() ==> tokens[k + j] == TokenView::Word(#[trigger] list[j]),
        forall|j: int| 0 <= j < list.len() ==> is_plain(#[trigger] list[j]),
    ensures
        dyndep::listed(tokens, k, k + list.len(), true, found, inputs) == Ok::<
            Seq<Seq<char>>,
            Seq<char>,
        >(found + list),
    decreases list.len(),
{
    if list.len() > 0 {
        assert(tokens[k + 0] == TokenView::Word(list[0]));
        assert(is_plain(list[0]));
        lemma_plain_word(list[0]);
        let rest = list.skip(1);
        assert forall|j: int| 0 <= j < rest.len() implies tokens[k + 1 + j] == TokenView::Word(
            #[trigger] rest[j],
        ) by {
            assert(tokens[k + (j + 1)] == TokenView::Word(list[j + 1]));
        }
        assert forall|j: int| 0 <= j < rest.len() implies is_plain(#[trigger] rest[j]) by {
            assert(is_plain(list[j + 1]));
        }
        lemma_listed(tokens, k + 1, rest, found.push(list[0]), inputs);
        assert(found.push(list[0]) + rest =~= found + list);
    } else {
        assert(found + list =~= found);
    }
}

proof fn lemma_first_colon(tokens: Seq<TokenView>, k: int, colon: int)
    requires
        0 <= k <= colon < tokens.len(),
        tokens[colon] == TokenView::Colon,
        forall|j: int| k <= j < colon ==> #[trigger] tokens[j] != TokenView::Colon,
    ensures
        dyndep::first_colon(tokens, k) == colon,
    decreases colon - k,
{
    if k < colon {
        lemma_first_colon(tokens, k + 1, colon);
    }
}

proof fn lemma_marked_list(
    tokens: Seq<TokenView>,
    k: int,
    list: Seq<Seq<char>>,
    inputs: bool,
)
    requires
        0 <= k,
        k + build_laws::marked(Piece::Pipe, list).len() <= tokens.len(),
        forall|j: int|
            0 <= j < build_laws::marked(Piece::Pipe, list).len() ==> tokens[k + j] == token_of(
                #[trigger] build_laws::marked(Piece::Pipe, list)[j],
            ),
        forall|j: int| 0 <= j < list.len() ==> is_plain(#[trigger] list[j]),
    ensures
        dyndep::listed(
            tokens,
            k,
            k + build_laws::marked(Piece::Pipe, list).len(),
            false,
            seq![],
            inputs,
        ) == Ok::<Seq<Seq<char>>, Seq<char>>(list),
{
    if list.len() > 0 {
        let all = build_laws::marked(Piece::Pipe, list);
        assert(tokens[k + 0] == token_of(all[0]));
        assert forall|j: int| 0 <= j < list.len() implies tokens[k + 1 + j] == TokenView::Word(
            #[trigger] list[j],
        ) by {
            assert(tokens[k + (j + 1)] == token_of(all[j + 1]));
            assert(all[j + 1] == build_laws::words(list)[j]);
        }
        lemma_listed(tokens, k + 1, list, seq![], inputs);
        assert(Seq::<Seq<char>>::empty() + list =~= list);
    } else {
        assert(list =~= seq![]);
    }
}

proof fn lemma_is_dyndep()
    ensures
        is_plain("dyndep"@),
        "dyndep"@.len() == 6,
{
    reveal_strlit("dyndep");
    let d = "dyndep"@;
    assert(d[0] == 'd' && d[1] == 'y' && d[2] == 'n' && d[3] == 'd' && d[4] == 'e' && d[5] == 'p');
}

spec fn is_plain_record(r: RecordView, gaps: Seq<nat>) -> bool {
    &&& is_plain(r.output)
    &&& forall|i: int|
        0 <= i < r.implicit_outputs.len() ==> is_plain(#[trigger] r.implicit_outputs[i])
    &&& forall|i: int|
        0 <= i < r.implicit_inputs.len() ==> is_plain(#[trigger] r.implicit_inputs[i])
    &&& build_laws::are_apart(pieces_of(r), gaps)
}

proof fn lemma_pieces_are_plain(r: RecordView, gaps: Seq<nat>)
    requires
        is_plain_record(r, gaps),
    ensures
        forall|x: int|
            0 <= x < pieces_of(r).len() ==> is_plain_piece(#[trigger] pieces_of(r)[x]),
{
    let pieces = pieces_of(r);
    let a = build_laws::marked(Piece::Pipe, r.implicit_outputs);
    let b = build_laws::marked(Piece::Pipe, r.implicit_inputs);
    lemma_is_dyndep();
    assert forall|x: int| 0 <= x < pieces.len() implies is_plain_piece(#[trigger] pieces[x]) by {
        if x == 0 {
        } else if x < 1 + a.len() {
            assert(pieces[x] == a[x - 1]);
            if x > 1 {
                assert(a[x - 1] == build_laws::words(r.implicit_outputs)[x - 2]);
                assert(is_plain(r.implicit_outputs[x - 2]));
            }
        } else if x < 3 + a.len() {
            let middle = seq![Piece::Colon, Piece::Word("dyndep"@)];
            assert(pieces[x] == middle[x - 1 - a.len()]);
        } else {
            let y = x - 3 - a.len();
            assert(pieces[x] == b[y]);
            if y > 0 {
                assert(b[y] == build_laws::words(r.implicit_inputs)[y - 1]);
                assert(is_plain(r.implicit_inputs[y - 1]));
            }
        }
    }
}

proof fn lemma_record_is_read(records: Seq<RecordView>, r: RecordView, gaps: Seq<nat>)
    requires
        is_plain_record(r, gaps),
        !dyndep::is_recorded(records, r.output),
    ensures
        dyndep::record_of(records, build_laws::written(pieces_of(r), gaps, 0)) == Ok::<
            RecordView,
            Seq<char>,
        >(RecordView { restat: false, ..r }),
        ({
            let tokens = dyndep::tokens_from(build_laws::written(pieces_of(r), gaps, 0), 0, seq![]);
            tokens.len() > 0 && tokens[0] == TokenView::Word(r.output)
        }),
{
    let pieces = pieces_of(r);
    let s = build_laws::written(pieces, gaps, 0);
    assert(s.skip(0) =~= s);
    lemma_pieces_are_plain(r, gaps);
    lemma_pieces_are_read(s, 0, pieces, gaps, 0, seq![]);
    lemma_tokens_of(pieces, 0);
    let tokens = dyndep::tokens_from(s, 0, seq![]);
    assert(tokens =~= tokens_of(pieces, 0));
    let a = build_laws::marked(Piece::Pipe, r.implicit_outputs);
    let b = build_laws::marked(Piece::Pipe, r.implicit_inputs);
    let colon = 1 + a.len() as int;
    assert forall|j: int| 0 <= j < pieces.len() implies #[trigger] tokens[j] == token_of(
        pieces[j],
    ) by {
        assert(tokens_of(pieces, 0)[j] == token_of(pieces[0 + j]));
    }
    assert(pieces[0] == Piece::Word(r.output));
    assert(pieces[colon] == Piece::Colon);
    assert(pieces[colon + 1] == Piece::Word("dyndep"@));
    assert forall|j: int| 0 <= j < colon implies #[trigger] tokens[j] != TokenView::Colon by {
        if j > 0 {
            assert(pieces[j] == a[j - 1]);
        }
    }
    lemma_first_colon(tokens, 0, colon);
    lemma_plain_word(r.output);
    assert forall|j: int| 0 <= j < a.len() implies tokens[1 + j] == token_of(
        #[trigger] a[j],
    ) by {
        assert(pieces[1 + j] == a[j]);
    }
    lemma_marked_list(tokens, 1, r.implicit_outputs, false);
    assert forall|j: int| 0 <= j < b.len() implies tokens[colon + 2 + j] == token_of(
        #[trigger] b[j],
    ) by {
        assert(pieces[colon + 2 + j] == b[j]);
    }
    lemma_marked_list(tokens, colon + 2, r.implicit_inputs, true);
    assert(pieces.len() == colon + 2 + b.len());
}

/// The characters of written pieces.
proof fn lemma_written_is_simple(pieces: Seq<Piece>, gaps: Seq<nat>, k: int)
    requires
        0 <= k <= pieces.len(),
        forall|x: int| 0 <= x < pieces.len() ==> is_plain_piece(#[trigger] pieces[x]),
    ensures
        is_simple(build_laws::written(pieces, gaps, k)),
        k < pieces.len() ==> build_laws::written(pieces, gaps, k).len() > 0 && !text::is_space(
            build_laws::written(pieces, gaps, k).last(),
        ),
    decreases pieces.len() - k,
{
    if k < pieces.len() {
        lemma_written_is_simple(pieces, gaps, k + 1);
        let gap = build_laws::spaces(gaps[k]);
        let inner = build_laws::piece_text(pieces[k]);
        let tail = build_laws::written(pieces, gaps, k + 1);
        let all = build_laws::written(pieces, gaps, k);
        assert(is_plain_piece(pieces[k]));
        assert(inner.len() > 0);
        assert forall|i: int| 0 <= i < inner.len() implies #[trigger] inner[i] != '\n' && inner[i]
            != '\r' && inner[i] != '#' && inner[i] != '$' && !text::is_space(inner[i]) by {
            if let Piece::Word(word) = pieces[k] {
                assert(!text::is_space(word[i]));
            }
        }
        assert forall|i: int| 0 <= i < all.len() implies #[trigger] all[i] != '\n' && all[i]
            != '\r' && all[i] != '#' && all[i] != '$' by {
            if i < gap.len() {
                assert(all[i] == gap[i]);
            } else if i < gap.len() + inner.len() {
                assert(all[i] == inner[i - gap.len()]);
            } else {
                assert(all[i] == tail[i - gap.len() - inner.len()]);
            }
        }
        if k + 1 < pieces.len() {
            assert(all.last() == tail.last());
        } else {
            assert(tail =~= seq![]);
            assert(all.last() == inner[inner.len() - 1]);
        }
    }
}

proof fn lemma_no_dollars(s: Seq<char>)
    requires
        is_simple(s),
    ensures
        !lines::is_continued(s),
        dyndep::comment_start(s, 0) == s.len(),
        !s.contains('$'),
        !s.contains('#'),
{
    if s.len() > 0 {
        assert(s[s.len() - 1] != '$');
    }
    assert(!s.contains('$')) by {
        if s.contains('$') {
            assert(s[s.index_of('$')] == '$');
        }
    }
    assert(!s.contains('#')) by {
        if s.contains('#') {
            assert(s[s.index_of('#')] == '#');
        }
    }
    dyndep::lemma_not_commented(s, 0);
}

proof fn lemma_build_line_advances(
    p: Progress,
    r: RecordView,
    gaps: Seq<nat>,
    known: Option<Known>,
)
    requires
        is_plain_record(r, gaps),
        p.version,
        !dyndep::is_recorded(p.records, r.output),
        known matches Some(k) ==> k.map.contains_key(paths::canonical(r.output, k.windows).0),
    ensures
        is_simple(record_line(r, gaps)),
        dyndep::advanced(p, record_line(r, gaps), known) == Ok::<Progress, Seq<char>>(
            Progress {
                records: p.records.push(RecordView { restat: false, ..r }),
                pending: true,
                ..p
            },
        ),
{
    let pieces = pieces_of(r);
    let s = build_laws::written(pieces, gaps, 0);
    let raw = record_line(r, gaps);
    lemma_pieces_are_plain(r, gaps);
    lemma_written_is_simple(pieces, gaps, 0);
    reveal_strlit("build ");
    let head = "build "@;
    assert(head.len() == 6 && head[0] == 'b' && head[1] == 'u' && head[2] == 'i' && head[3] == 'l'
        && head[4] == 'd' && head[5] == ' ');
    assert forall|i: int| 0 <= i < raw.len() implies #[trigger] raw[i] != '\n' && raw[i] != '\r'
        && raw[i] != '#' && raw[i] != '$' by {
        if i < 6 {
            assert(raw[i] == head[i]);
        } else {
            assert(raw[i] == s[i - 6]);
        }
    }
    lemma_no_dollars(raw);
    assert(raw.take(raw.len() as int) =~= raw);
    assert(raw.last() == s.last());
    assert(text::trimmed_end(raw) == raw);
    assert(raw[0] == 'b');
    assert(text::first_not_in(raw, 0, Class::Space) == 0);
    assert(raw.skip(0) =~= raw);
    assert(text::trimmed(raw) == raw);
    assert(raw.subrange(0, 6) =~= head);
    assert(raw.skip(6) =~= s);
    lemma_record_is_read(p.records, r, gaps);
    lemma_plain_word(r.output);
}

proof fn lemma_restat_line_advances(p: Progress, known: Option<Known>)
    requires
        p.pending,
        p.records.len() > 0,
    ensures
        is_simple("  restat = 1"@),
        dyndep::advanced(p, "  restat = 1"@, known) == Ok::<Progress, Seq<char>>(
            Progress {
                records: p.records.drop_last().push(
                    RecordView { restat: true, ..p.records.last() },
                ),
                pending: false,
                ..p
            },
        ),
{
    reveal_strlit("  restat = 1");
    reveal_strlit("restat");
    reveal_strlit("0");
    let raw = "  restat = 1"@;
    assert(raw.len() == 12);
    assert(raw[0] == ' ' && raw[1] == ' ' && raw[2] == 'r' && raw[3] == 'e' && raw[4] == 's'
        && raw[5] == 't' && raw[6] == 'a' && raw[7] == 't' && raw[8] == ' ' && raw[9] == '='
        && raw[10] == ' ' && raw[11] == '1');
    lemma_no_dollars(raw);
    assert(raw.take(12) =~= raw);
    assert(text::trimmed_end(raw) == raw);
    let content = raw.skip(2);
    assert(text::first_not_in(raw, 0, Class::Space) == 2) by {
        reveal_with_fuel(text::first_not_in, 4);
    }
    assert(content.last() == '1');
    assert(text::trimmed_end(content) == content);
    assert(text::trimmed(raw) == content);
    assert(text::first_in(content, 0, Class::Is('=')) == 7) by {
        reveal_with_fuel(text::first_in, 9);
    }
    let left = content.take(7);
    assert(text::trimmed(left) == "restat"@) by {
        assert(left[0] == 'r');
        assert(text::first_not_in(left, 0, Class::Space) == 0);
        assert(left.skip(0) =~= left);
        assert(left.last() == ' ');
        assert(left.drop_last() =~= "restat"@);
        assert("restat"@.last() == 't');
        assert(text::trimmed_end("restat"@) == "restat"@);
    }
    let right = content.skip(8);
    let one = seq!['1'];
    assert(text::trimmed(right) == one) by {
        assert(right.len() == 2 && right[0] == ' ' && right[1] == '1');
        assert(text::first_not_in(right, 0, Class::Space) == 1) by {
            reveal_with_fuel(text::first_not_in, 3);
        }
        assert(right.skip(1) =~= one);
        assert(one.last() == '1');
        assert(text::trimmed_end(one) == one);
    }
    assert(one[0] != "0"@[0]);
    expand::lemma_no_issues(one, 0, None);
}

proof fn lemma_records_are_read(
    path: Seq<char>,
    all: Seq<Seq<char>>,
    at: int,
    records: Seq<RecordView>,
    gaps: Seq<Seq<nat>>,
    k: int,
    p: Progress,
    known: Option<Known>,
)
    requires
        are_writable(records, gaps),
        0 <= k <= records.len(),
        0 <= at <= all.len(),
        all.skip(at) == lines_of(records, gaps, k),
        p.version,
        p.records == records.take(k),
        known matches Some(n) ==> forall|i: int|
            0 <= i < records.len() ==> n.map.contains_key(
                paths::canonical((#[trigger] records[i]).output, n.windows).0,
            ),
    ensures
        dyndep::completed(path, all, at, p, known) matches Ok(last) && last.version && last.records
            == records,
        forall|x: int| at <= x < all.len() ==> is_simple(#[trigger] all[x]),
    decreases records.len() - k,
{
    let rest = all.skip(at);
    assert(rest.len() == all.len() - at);
    if k < records.len() {
        let r = records[k];
        let tail = lines_of(records, gaps, k + 1);
        assert(is_plain(records[k].output));
        assert(build_laws::are_apart(pieces_of(records[k]), gaps[k]));
        assert(is_plain_record(r, gaps[k])) by {
            assert forall|i: int| 0 <= i < r.implicit_outputs.len() implies is_plain(
                #[trigger] r.implicit_outputs[i],
            ) by {
                assert(is_plain(records[k].implicit_outputs[i]));
            }
            assert forall|i: int| 0 <= i < r.implicit_inputs.len() implies is_plain(
                #[trigger] r.implicit_inputs[i],
            ) by {
                assert(is_plain(records[k].implicit_inputs[i]));
            }
        }
        if dyndep::is_recorded(p.records, r.output) {
            let i = choose|i: int|
                0 <= i < p.records.len() && (#[trigger] p.records[i]).output == r.output;
            assert(records[i].output != records[k].output);
        }
        lemma_build_line_advances(p, r, gaps[k], known);
        let line = record_line(r, gaps[k]);
        assert(rest[0] == line);
        assert(all[at] == line);
        lemma_no_dollars(line);
        assert(dyndep::statement_at(all, at) == (line, at + 1));
        let q = Progress {
            records: p.records.push(RecordView { restat: false, ..r }),
            pending: true,
            ..p
        };
        assert(dyndep::completed(path, all, at, p, known) == dyndep::completed(
            path,
            all,
            at + 1,
            q,
            known,
        ));
        if r.restat {
            let second = "  restat = 1"@;
            lemma_restat_line_advances(q, known);
            assert(rest[1] == second);
            assert(all[at + 1] == second);
            lemma_no_dollars(second);
            assert(dyndep::statement_at(all, at + 1) == (second, at + 2));
            let last = Progress {
                records: q.records.drop_last().push(
                    RecordView { restat: true, ..q.records.last() },
                ),
                pending: false,
                ..q
            };
            assert(q.records.drop_last() =~= p.records);
            assert(last.records =~= records.take(k + 1));
            assert(all.skip(at + 2) =~= tail) by {
                assert forall|z: int| 0 <= z < tail.len() implies all.skip(at + 2)[z]
                    == #[trigger] tail[z] by {
                    assert(rest[z + 2] == tail[z]);
                }
            }
            assert(dyndep::completed(path, all, at + 1, q, known) == dyndep::completed(
                path,
                all,
                at + 2,
                last,
                known,
            ));
            lemma_records_are_read(path, all, at + 2, records, gaps, k + 1, last, known);
            assert forall|x: int| at <= x < all.len() implies is_simple(#[trigger] all[x]) by {}
        } else {
            assert(q.records =~= records.take(k + 1));
            assert(all.skip(at + 1) =~= tail) by {
                assert forall|z: int| 0 <= z < tail.len() implies all.skip(at + 1)[z]
                    == #[trigger] tail[z] by {
                    assert(rest[z + 1] == tail[z]);
                }
            }
            lemma_records_are_read(path, all, at + 1, records, gaps, k + 1, q, known);
        }
    } else {
        assert(records.take(k) =~= records);
    }
}

proof fn lemma_feeds_last(all: Seq<Seq<char>>, k: int)
    requires
        0 <= k < all.len(),
    ensures
        with_feeds(all, k).len() > 0,
        with_feeds(all, k).last() == '\n',
    decreases all.len() - k,
{
    if k + 1 < all.len() {
        lemma_feeds_last(all, k + 1);
        assert(with_feeds(all, k).last() == with_feeds(all, k + 1).last());
    } else {
        assert(with_feeds(all, k + 1) =~= seq![]);
        assert(with_feeds(all, k).last() == '\n');
    }
}

/// A dyndep file that is written is read back: each statement makes a record with its output,
/// its implicit outputs and its implicit inputs, in order, and with `restat` where that is
/// bound. The outputs must be known where it is told which are.
pub proof fn law_written_dyndep_file_is_read_back(
    records: Seq<RecordView>,
    gaps: Seq<Seq<nat>>,
    path: Seq<char>,
    known: Option<Known>,
)
    requires
        are_writable(records, gaps),
        known matches Some(n) ==> forall|i: int|
            0 <= i < records.len() ==> n.map.contains_key(
                paths::canonical((#[trigger] records[i]).output, n.windows).0,
            ),
    ensures
        dyndep::dyndep_among(with_feeds(file_lines(records, gaps), 0), path, known) == Ok::<
            Seq<RecordView>,
            Seq<char>,
        >(records),
{
    let all = file_lines(records, gaps);
    let s = with_feeds(all, 0);
    reveal_strlit("1");
    let one = "1"@;
    assert(one.len() == 1 && one[0] == '1');
    let first = dyndep::version_line(one);
    assert(all[0] == first);
    assert(text::trimmed(one) == one) by {
        assert(text::first_not_in(one, 0, Class::Space) == 0);
        assert(one.skip(0) =~= one);
        assert(one.last() == '1');
        assert(text::trimmed_end(one) == one);
    }
    dyndep::lemma_version_advanced(one, known);
    assert(one.take(text::first_in(one, 0, Class::Is('-'))) =~= one) by {
        reveal_with_fuel(text::first_in, 3);
    }
    let p = Progress { version: true, ..dyndep::start() };
    assert(dyndep::advanced(dyndep::start(), first, known) == Ok::<Progress, Seq<char>>(p));
    assert(p.records =~= records.take(0));
    assert(all.skip(1) =~= lines_of(records, gaps, 0));
    lemma_records_are_read(path, all, 1, records, gaps, 0, p, known);
    assert(is_simple(first)) by {
        dyndep::lemma_version_line_chars(one);
        assert forall|i: int| 0 <= i < first.len() implies #[trigger] first[i] != '\n' && first[i]
            != '\r' && first[i] != '#' && first[i] != '$' by {
            assert(first.contains(first[i]));
        }
    }
    assert forall|x: int| 0 <= x < all.len() implies is_simple(#[trigger] all[x]) by {
        if x == 0 {
            assert(all[x] == first);
        }
    }
    assert(s.skip(0) =~= s);
    lemma_text_lines(s, 0, all, 0);
    assert(all.skip(0) =~= all);
    lemma_no_dollars(first);
    assert(dyndep::statement_at(all, 0) == (first, 1int));
    assert(dyndep::completed(path, all, 0, dyndep::start(), known) == dyndep::completed(
        path,
        all,
        1,
        p,
        known,
    ));
    lemma_feeds_last(all, 0);
}

} // verus!
