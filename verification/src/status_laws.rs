//! What can be relied on where a status line is written.
use crate::numbers;
use crate::policy;
use crate::status;
use crate::status::Item;
use crate::status::SnapshotView;
use crate::text;
use crate::text::Class;
use vstd::prelude::*;

verus! {

/// A piece of a format: a character that stands for itself, one behind a mark that takes its
/// meaning away, or something that is told.
pub enum Piece {
    Plain(char),
    Marked(char),
    Told(Item),
}

/// The letter of what stands behind a percent sign.
pub open spec fn letter(item: Item) -> char {
    match item {
        Item::Started => 's',
        Item::Finished => 'f',
        Item::Running => 'r',
        Item::Remaining => 'u',
        Item::Total => 't',
        Item::Progress => 'p',
        Item::Rate => 'o',
        Item::CurrentRate => 'c',
        Item::ElapsedSeconds => 'e',
        Item::EtaSeconds => 'E',
        Item::Elapsed => 'w',
        Item::Eta => 'W',
        Item::PredictedProgress => 'P',
        Item::Description => '%',
    }
}

/// The name of what stands behind a dollar sign.
pub open spec fn name(item: Item) -> Seq<char> {
    match item {
        Item::Started => "started"@,
        Item::Finished => "finished"@,
        Item::Running => "running"@,
        Item::Remaining => "remaining"@,
        Item::Total => "total"@,
        Item::Progress => "progress"@,
        Item::Rate => "rate"@,
        Item::CurrentRate => "current_rate"@,
        Item::ElapsedSeconds => "elapsed_seconds"@,
        Item::EtaSeconds => "eta_seconds"@,
        Item::Elapsed => "elapsed"@,
        Item::Eta => "eta"@,
        Item::PredictedProgress => "predicted_progress"@,
        Item::Description => "description"@,
    }
}

/// Whether a piece can stand in a format, which is one with names or one with letters.
pub open spec fn can_stand(p: Piece, names: bool) -> bool {
    match p {
        Piece::Plain(c) => c != if names {
            '$'
        } else {
            '%'
        },
        Piece::Marked(c) => if names {
            c == '$' || c == ' ' || c == ':'
        } else {
            c == '%'
        },
        Piece::Told(item) => names || item != Item::Description,
    }
}

/// A piece as it is written in a format.
pub open spec fn form(p: Piece, names: bool) -> Seq<char> {
    match p {
        Piece::Plain(c) => seq![c],
        Piece::Marked(c) => if names {
            seq!['$', c]
        } else {
            seq!['%', c]
        },
        Piece::Told(item) => if names {
            seq!['$', '{'] + name(item) + seq!['}']
        } else {
            seq!['%', letter(item)]
        },
    }
}

/// Pieces as they are written in a format.
pub open spec fn format(pieces: Seq<Piece>, names: bool) -> Seq<char>
    decreases pieces.len(),
{
    if pieces.len() == 0 {
        seq![]
    } else {
        form(pieces[0], names) + format(pieces.skip(1), names)
    }
}

/// What a piece says.
pub open spec fn said(v: SnapshotView, p: Piece) -> Seq<char> {
    match p {
        Piece::Plain(c) => seq![c],
        Piece::Marked(c) => seq![c],
        Piece::Told(item) => status::told(v, item),
    }
}

/// What pieces say, one behind the other.
pub open spec fn all_said(v: SnapshotView, pieces: Seq<Piece>) -> Seq<char>
    decreases pieces.len(),
{
    if pieces.len() == 0 {
        seq![]
    } else {
        said(v, pieces[0]) + all_said(v, pieces.skip(1))
    }
}

pub open spec fn can_all_stand(pieces: Seq<Piece>, names: bool) -> bool {
    forall|i: int| 0 <= i < pieces.len() ==> can_stand(#[trigger] pieces[i], names)
}

proof fn lemma_letters(item: Item)
    requires
        item != Item::Description,
    ensures
        status::placeholder(letter(item)) == Some(item),
        letter(item) != '%',
{
}

proof fn lemma_names(item: Item)
    ensures
        status::variable(name(item)) == Some(item),
        forall|i: int| 0 <= i < name(item).len() ==> #[trigger] name(item)[i] != '}',
{
    reveal_strlit("started");
    reveal_strlit("finished");
    reveal_strlit("running");
    reveal_strlit("remaining");
    reveal_strlit("total");
    reveal_strlit("progress");
    reveal_strlit("rate");
    reveal_strlit("current_rate");
    reveal_strlit("elapsed_seconds");
    reveal_strlit("eta_seconds");
    reveal_strlit("elapsed");
    reveal_strlit("eta");
    reveal_strlit("predicted_progress");
    reveal_strlit("description");
    assert("started"@.len() == 7);
    assert("finished"@.len() == 8);
    assert("running"@.len() == 7);
    assert("remaining"@.len() == 9);
    assert("total"@.len() == 5);
    assert("progress"@.len() == 8);
    assert("rate"@.len() == 4);
    assert("current_rate"@.len() == 12);
    assert("elapsed_seconds"@.len() == 15);
    assert("eta_seconds"@.len() == 11);
    assert("elapsed"@.len() == 7);
    assert("eta"@.len() == 3);
    assert("predicted_progress"@.len() == 18);
    assert("description"@.len() == 11);
    assert("started"@[0] == 's');
    assert("running"@[0] == 'r');
    assert("elapsed"@[0] == 'e');
    assert("finished"@[0] == 'f');
    assert("progress"@[0] == 'p');
    assert("description"@[0] == 'd');
    assert("eta_seconds"@[0] == 'e');
    match item {
        Item::Started => {},
        Item::Finished => {},
        Item::Running => {},
        Item::Remaining => {},
        Item::Total => {},
        Item::Progress => {},
        Item::Rate => {},
        Item::CurrentRate => {},
        Item::ElapsedSeconds => {},
        Item::EtaSeconds => {},
        Item::Elapsed => {},
        Item::Eta => {},
        Item::PredictedProgress => {},
        Item::Description => {},
    }
}

proof fn lemma_placed(
    pre: Seq<char>,
    pieces: Seq<Piece>,
    rest: Seq<char>,
    v: SnapshotView,
    line: Seq<char>,
)
    requires
        can_all_stand(pieces, false),
    ensures
        ({
            let s = pre + format(pieces, false) + rest;
            status::placed(s, pre.len() as int, v, line) == status::placed(
                s,
                s.len() - rest.len(),
                v,
                line + all_said(v, pieces),
            )
        }),
    decreases pieces.len(),
{
    let s = pre + format(pieces, false) + rest;
    let i = pre.len() as int;
    if pieces.len() == 0 {
        assert(line + all_said(v, pieces) =~= line);
    } else {
        let p = pieces[0];
        let own = form(p, false);
        let after = line + said(v, p);
        assert(s =~= (pre + own) + format(pieces.skip(1), false) + rest);
        assert forall|j: int| 0 <= j < pieces.skip(1).len() implies can_stand(
            #[trigger] pieces.skip(1)[j],
            false,
        ) by {
            assert(pieces.skip(1)[j] == pieces[j + 1]);
        }
        lemma_placed(pre + own, pieces.skip(1), rest, v, after);
        assert(after + all_said(v, pieces.skip(1)) =~= line + all_said(v, pieces));
        assert(can_stand(p, false));
        assert(s[i] == own[0]);
        match p {
            Piece::Plain(c) => {
                assert(line.push(c) =~= after);
            },
            Piece::Marked(c) => {
                assert(s[i + 1] == own[1]);
                assert(line.push('%') =~= after);
            },
            Piece::Told(item) => {
                assert(s[i + 1] == own[1]);
                lemma_letters(item);
            },
        }
    }
}

proof fn lemma_brace(s: Seq<char>, i: int, end: int)
    requires
        0 <= i <= end < s.len(),
        s[end] == '}',
        forall|k: int| i <= k < end ==> #[trigger] s[k] != '}',
    ensures
        text::first_in(s, i, Class::Is('}')) == end,
    decreases end - i,
{
    if i < end {
        lemma_brace(s, i + 1, end);
    }
}

proof fn lemma_filled(
    pre: Seq<char>,
    pieces: Seq<Piece>,
    rest: Seq<char>,
    v: SnapshotView,
    line: Seq<char>,
)
    requires
        can_all_stand(pieces, true),
    ensures
        ({
            let s = pre + format(pieces, true) + rest;
            status::filled(s, pre.len() as int, v, line) == status::filled(
                s,
                s.len() - rest.len(),
                v,
                line + all_said(v, pieces),
            )
        }),
    decreases pieces.len(),
{
    let s = pre + format(pieces, true) + rest;
    let i = pre.len() as int;
    if pieces.len() == 0 {
        assert(line + all_said(v, pieces) =~= line);
    } else {
        let p = pieces[0];
        let own = form(p, true);
        let after = line + said(v, p);
        assert(s =~= (pre + own) + format(pieces.skip(1), true) + rest);
        assert forall|j: int| 0 <= j < pieces.skip(1).len() implies can_stand(
            #[trigger] pieces.skip(1)[j],
            true,
        ) by {
            assert(pieces.skip(1)[j] == pieces[j + 1]);
        }
        lemma_filled(pre + own, pieces.skip(1), rest, v, after);
        assert(after + all_said(v, pieces.skip(1)) =~= line + all_said(v, pieces));
        assert(can_stand(p, true));
        assert(s[i] == own[0]);
        match p {
            Piece::Plain(c) => {
                assert(line.push(c) =~= after);
            },
            Piece::Marked(c) => {
                assert(s[i + 1] == own[1]);
                assert(line.push(c) =~= after);
            },
            Piece::Told(item) => {
                lemma_names(item);
                let end = i + 2 + name(item).len();
                assert(s[i + 1] == own[1]);
                assert(s[end] == own[2 + name(item).len() as int]);
                assert forall|k: int| i + 2 <= k < end implies #[trigger] s[k] != '}' by {
                    assert(s[k] == name(item)[k - i - 2]);
                }
                lemma_brace(s, i + 2, end);
                assert(s.subrange(i + 2, end) =~= name(item));
            },
        }
    }
}

/// A status line says what the pieces of its format say, in their order, and where the format
/// has letters the description stands behind them.
pub proof fn law_status_line_says_what_its_format_does(
    v: SnapshotView,
    pieces: Seq<Piece>,
    names: bool,
)
    requires
        can_all_stand(pieces, names),
    ensures
        status::status_line(format(pieces, names), names, v) == Ok::<Seq<char>, Seq<char>>(
            if names {
                all_said(v, pieces)
            } else {
                all_said(v, pieces) + v.description
            },
        ),
{
    let s = format(pieces, names);
    let none = Seq::<char>::empty();
    assert(none + s + none =~= s);
    assert(none + all_said(v, pieces) =~= all_said(v, pieces));
    if names {
        lemma_filled(none, pieces, none, v, none);
    } else {
        lemma_placed(none, pieces, none, v, none);
    }
}

/// A format is refused where, behind pieces that can stand in it, a percent sign or a dollar
/// sign stands at the end, a letter stands for nothing, or a name between braces does.
pub proof fn law_unknown_pieces_are_refused(
    v: SnapshotView,
    pieces: Seq<Piece>,
    names: bool,
    wrong: Seq<char>,
    rest: Seq<char>,
)
    requires
        can_all_stand(pieces, names),
        names ==> (wrong == seq!['$', '{'] && !rest.contains('}')) || (exists|other: Seq<char>|
            wrong == #[trigger] braced(other) && !other.contains('}') && forall|item: Item|
                other != #[trigger] name(item)) || (wrong == seq!['$'] && rest.len() == 0),
        !names ==> (wrong == seq!['%'] && rest.len() == 0) || (wrong.len() == 2 && wrong[0] == '%'
            && wrong[1] != '%' && forall|item: Item|
            item != Item::Description ==> wrong[1] != #[trigger] letter(item)),
    ensures
        status::status_line(format(pieces, names) + wrong + rest, names, v) is Err,
{
    let s = format(pieces, names) + wrong + rest;
    let none = Seq::<char>::empty();
    let behind = wrong + rest;
    let i = format(pieces, names).len() as int;
    let line = none + all_said(v, pieces);
    assert(none + format(pieces, names) + behind =~= s);
    if names {
        lemma_filled(none, pieces, behind, v, none);
        assert(s[i] == '$') by {
            assert(s[i] == wrong[0]);
        }
        if wrong == seq!['$'] && rest.len() == 0 {
            assert(status::filled(s, i, v, line) is Err);
        } else if wrong == seq!['$', '{'] && !rest.contains('}') {
            assert(s[i + 1] == wrong[1]);
            text::lemma_first_in(s, i + 2, Class::Is('}'));
            let end = text::first_in(s, i + 2, Class::Is('}'));
            if end < s.len() {
                assert(s[end] == rest[end - i - 2]);
                assert(rest.contains('}'));
            }
            assert(status::filled(s, i, v, line) is Err);
        } else {
            let other = choose|other: Seq<char>|
                wrong == #[trigger] braced(other) && !other.contains('}') && forall|item: Item|
                    other != #[trigger] name(item);
            let end = i + 2 + other.len();
            assert(s[i + 1] == wrong[1]);
            assert(s[end] == wrong[2 + other.len() as int]);
            assert forall|k: int| i + 2 <= k < end implies #[trigger] s[k] != '}' by {
                assert(s[k] == wrong[k - i]);
                assert(wrong[k - i] == other[k - i - 2]);
                assert(other.contains(other[k - i - 2]));
            }
            lemma_brace(s, i + 2, end);
            assert(s.subrange(i + 2, end) =~= other);
            lemma_no_name(other);
            assert(status::filled(s, i, v, line) is Err);
        }
    } else {
        lemma_placed(none, pieces, behind, v, none);
        assert(s[i] == wrong[0]);
        if wrong.len() == 2 {
            assert(s[i + 1] == wrong[1]);
            lemma_no_letter(wrong[1]);
        }
        assert(status::placed(s, i, v, line) is Err);
    }
}

/// A name between braces behind a dollar sign.
pub open spec fn braced(other: Seq<char>) -> Seq<char> {
    seq!['$', '{'] + other + seq!['}']
}

proof fn lemma_no_letter(c: char)
    requires
        forall|item: Item| item != Item::Description ==> c != #[trigger] letter(item),
    ensures
        status::placeholder(c) is None,
{
    if let Some(item) = status::placeholder(c) {
        assert(letter(item) == c);
    }
}

proof fn lemma_no_name(other: Seq<char>)
    requires
        forall|item: Item| other != #[trigger] name(item),
    ensures
        status::variable(other) is None,
{
    if let Some(item) = status::variable(other) {
        assert(name(item) == other);
    }
}

/// Whether `n` is how much of `total` is finished, in percent, without the fraction.
pub open spec fn is_share(n: int, finished: int, total: int) -> bool {
    n * total <= 100 * finished < (n + 1) * total
}

/// Whether a text is a number with a percent sign, with blanks before it where it has less
/// than three digits.
pub open spec fn is_percent(s: Seq<char>, n: int) -> bool {
    let digits = numbers::numeral(n as nat, false);
    s.len() == if digits.len() < 3 {
        4
    } else {
        digits.len() + 1
    } && s.last() == '%' && s.subrange(s.len() - 1 - digits.len(), s.len() - 1) == digits
        && forall|i: int| 0 <= i < s.len() - 1 - digits.len() ==> #[trigger] s[i] == ' '
}

proof fn lemma_aligned(s: Seq<char>)
    ensures
        ({
            let r = status::aligned(s);
            &&& r.len() == if s.len() < 3 {
                3
            } else {
                s.len()
            }
            &&& r.skip(r.len() - s.len()) =~= s
            &&& forall|i: int| 0 <= i < r.len() - s.len() ==> #[trigger] r[i] == ' '
        }),
    decreases 3 - s.len(),
{
    if s.len() < 3 {
        let longer = seq![' '] + s;
        lemma_aligned(longer);
        let r = status::aligned(s);
        let from = r.len() - longer.len();
        assert forall|i: int| 0 <= i < r.len() - s.len() implies #[trigger] r[i] == ' ' by {
            if i == from {
                assert(r.skip(from)[0] == longer[0]);
            }
        }
        assert forall|i: int| 0 <= i < s.len() implies r.skip(from + 1)[i] == #[trigger] s[i] by {
            assert(r.skip(from)[i + 1] == longer[i + 1]);
        }
    }
}

proof fn lemma_percent(n: usize)
    ensures
        is_percent(status::percent(n), n as int),
{
    let digits = numbers::numeral(n as nat, false);
    let padded = status::aligned(digits);
    let s = status::percent(n);
    lemma_aligned(digits);
    reveal_strlit("%");
    assert(s =~= padded.push('%'));
    assert forall|i: int| 0 <= i < digits.len() implies s.subrange(
        s.len() - 1 - digits.len(),
        s.len() - 1,
    )[i] == #[trigger] digits[i] by {
        assert(padded.skip(padded.len() - digits.len())[i] == digits[i]);
    }
    assert(s.subrange(s.len() - 1 - digits.len(), s.len() - 1) =~= digits);
}

/// What is told is what is known of the build: how many edges have been started, have finished,
/// run, are left and are there, how much that is, and the texts of the rest.
pub proof fn law_what_is_told_of_a_build(v: SnapshotView)
    ensures
        status::told(v, Item::Started) == numbers::numeral(v.started as nat, false),
        status::told(v, Item::Finished) == numbers::numeral(v.finished as nat, false),
        status::told(v, Item::Running) == numbers::numeral(v.running as nat, false),
        status::told(v, Item::Total) == numbers::numeral(v.total as nat, false),
        v.started <= v.total ==> status::told(v, Item::Remaining) == numbers::numeral(
            (v.total - v.started) as nat,
            false,
        ),
        v.started > v.total ==> status::told(v, Item::Remaining) == numbers::numeral(0, false),
        v.total > 0 && 100 * v.finished <= usize::MAX ==> exists|n: int|
            #[trigger] is_share(n, v.finished as int, v.total as int) && is_percent(
                status::told(v, Item::Progress),
                n,
            ),
        v.total == 0 ==> is_percent(status::told(v, Item::Progress), 0),
        is_percent(status::told(v, Item::PredictedProgress), v.predicted_progress as int),
        status::told(v, Item::Rate) == v.rate,
        status::told(v, Item::CurrentRate) == v.current_rate,
        status::told(v, Item::ElapsedSeconds) == v.elapsed_seconds,
        status::told(v, Item::EtaSeconds) == v.eta_seconds,
        status::told(v, Item::Elapsed) == v.elapsed,
        status::told(v, Item::Eta) == v.eta,
        status::told(v, Item::Description) == v.description,
{
    let n = status::share(v.finished, v.total);
    lemma_percent(n);
    lemma_percent(v.predicted_progress);
    if v.total > 0 && 100 * v.finished <= usize::MAX {
        let scaled: int = 100 * v.finished as int;
        let total: int = v.total as int;
        assert(n as int == scaled / total) by {
            if v.finished == 0 {
                assert(0int / total == 0) by (nonlinear_arith)
                    requires
                        total > 0,
                ;
            }
        }
        assert(scaled / total * total <= scaled < (scaled / total + 1) * total)
            by (nonlinear_arith)
            requires
                total > 0,
        ;
        assert(is_share(n as int, v.finished as int, v.total as int));
    }
}

/// Whether a piece speaks of what is yet to come.
pub open spec fn foretells(p: Piece) -> bool {
    p == Piece::Told(Item::PredictedProgress) || p == Piece::Told(Item::EtaSeconds) || p
        == Piece::Told(Item::Eta)
}

proof fn lemma_foretells(pre: Seq<char>, pieces: Seq<Piece>)
    requires
        can_all_stand(pieces, false),
    ensures
        policy::has_prediction(pre + format(pieces, false), pre.len() as int) <==> exists|i: int|
            0 <= i < pieces.len() && foretells(#[trigger] pieces[i]),
    decreases pieces.len(),
{
    let s = pre + format(pieces, false);
    let i = pre.len() as int;
    if pieces.len() > 0 {
        let p = pieces[0];
        let own = form(p, false);
        let rest = pieces.skip(1);
        assert(s =~= (pre + own) + format(rest, false));
        assert forall|j: int| 0 <= j < rest.len() implies can_stand(#[trigger] rest[j], false) by {
            assert(rest[j] == pieces[j + 1]);
        }
        lemma_foretells(pre + own, rest);
        assert(can_stand(p, false));
        assert(s[i] == own[0]);
        if own.len() > 1 {
            assert(s[i + 1] == own[1]);
        }
        if exists|j: int| 0 <= j < rest.len() && foretells(#[trigger] rest[j]) {
            let j = choose|j: int| 0 <= j < rest.len() && foretells(#[trigger] rest[j]);
            assert(pieces[j + 1] == rest[j]);
        }
        if exists|j: int| 0 <= j < pieces.len() && foretells(#[trigger] pieces[j]) {
            let j = choose|j: int| 0 <= j < pieces.len() && foretells(#[trigger] pieces[j]);
            if j > 0 {
                assert(rest[j - 1] == pieces[j]);
            }
        }
    }
}

/// The times of earlier builds are needed exactly where a format with letters speaks of what is
/// yet to come.
pub proof fn law_earlier_times_are_needed_to_foretell(pieces: Seq<Piece>)
    requires
        can_all_stand(pieces, false),
    ensures
        policy::has_prediction(format(pieces, false), 0) <==> exists|i: int|
            0 <= i < pieces.len() && foretells(#[trigger] pieces[i]),
{
    lemma_foretells(seq![], pieces);
    assert(Seq::<char>::empty() + format(pieces, false) =~= format(pieces, false));
}

} // verus!
