//! The default statements of a whole manifest: what they name must stand before them.
use crate::escape_laws;
use crate::expand;
use crate::finalize;
use crate::finalize::ParentView;
use crate::finalize::StateView;
use crate::lines;
use crate::loader;
use crate::loader::FrameView;
use crate::loader::Load;
use crate::loader::ProgressView;
use crate::manifest;
use crate::manifest::Settings;
use crate::manifest_laws;
use crate::paths;
use crate::statement;
use crate::statement::FileView;
use crate::statement::FlowView;
use crate::text;
use crate::text::Class;
use vstd::prelude::*;

verus! {

/// A default statement.
pub open spec fn default_line(rest: Seq<char>) -> Seq<char> {
    "default "@ + rest
}

/// Whether text can follow `default ` on a line of its own: it holds no line feed, no
/// escape that may be an error, and no white space at its end, and the line does not go on.
pub open spec fn is_default_text(rest: Seq<char>) -> bool {
    &&& rest.len() > 0
    &&& !rest.contains('\n')
    &&& !text::is_space(rest.last())
    &&& !lines::is_continued(default_line(rest))
    &&& expand::escape_issues(default_line(rest)) == (None::<int>, None::<int>)
}

proof fn lemma_lines_in_front(a: Seq<char>, r: Seq<char>, i: int)
    requires
        0 <= i <= a.len(),
        a.len() == 0 || a.last() == '\n',
    ensures
        text::text_lines(a + r, i) == text::text_lines(a, i) + text::text_lines(r, 0),
    decreases a.len() - i,
{
    let w = a + r;
    if i == a.len() {
        escape_laws::lemma_lines_behind(a, r, 0);
        assert(text::text_lines(a, i) =~= seq![]);
        assert(seq![] + text::text_lines(r, 0) =~= text::text_lines(r, 0));
    } else {
        text::lemma_first_in(a, i, Class::Is('\n'));
        text::lemma_first_in(w, i, Class::Is('\n'));
        let y = text::first_in(a, i, Class::Is('\n'));
        let x = text::first_in(w, i, Class::Is('\n'));
        assert(a[a.len() - 1] == '\n');
        assert(y < a.len());
        assert(x == y) by {
            assert(w[y] == a[y]);
            if x < y {
                assert(w[x] == a[x]);
            }
        }
        lemma_lines_in_front(a, r, y + 1);
        assert(w.subrange(i, x) =~= a.subrange(i, y));
        let line = seq![text::without_cr(a.subrange(i, y))];
        assert(line + (text::text_lines(a, y + 1) + text::text_lines(r, 0)) =~= (line
            + text::text_lines(a, y + 1)) + text::text_lines(r, 0));
    }
}

proof fn lemma_continuation_in_front(
    la: Seq<Seq<char>>,
    lr: Seq<Seq<char>>,
    k: int,
    buffer: Seq<char>,
)
    requires
        0 <= k <= la.len(),
        lines::is_continued(buffer.push('$')),
    ensures
        ({
            let (line, next) = lines::continuation(la, k, buffer);
            &&& k <= next <= la.len()
            &&& lines::is_continued(line) ==> next == la.len()
            &&& !lines::is_continued(line) ==> k < next && lines::continuation(la + lr, k, buffer)
                == (line, next)
        }),
    decreases la.len() - k,
{
    if k < la.len() {
        assert((la + lr)[k] == la[k]);
        let longer = buffer + text::trimmed_start(la[k]);
        if lines::is_continued(longer) {
            assert(longer.len() > 0 && longer.last() == '$');
            assert(longer.drop_last().push('$') =~= longer);
            lemma_continuation_in_front(la, lr, k + 1, longer.drop_last());
        }
    }
}

/// The logical lines of a text are those of its front, where that ends with a line, and
/// those behind it.
proof fn lemma_logical_in_front(la: Seq<Seq<char>>, lr: Seq<Seq<char>>, k: int)
    requires
        0 <= k <= la.len(),
        lines::logical_from(la, k).len() > 0 ==> !lines::is_continued(
            lines::logical_from(la, k).last().1,
        ),
    ensures
        lines::logical_from(la + lr, k) == lines::logical_from(la, k) + lines::logical_from(
            la + lr,
            la.len() as int,
        ),
    decreases la.len() - k,
{
    let w = la + lr;
    let x = lines::logical_from(la, k);
    let rest = lines::logical_from(w, la.len() as int);
    if k == la.len() {
        assert(x + rest =~= rest);
    } else {
        assert(w[k] == la[k]);
        let (line, next) = lines::logical_at(la, k);
        if lines::is_continued(la[k]) {
            assert(la[k].len() > 0 && la[k].last() == '$');
            assert(la[k].drop_last().push('$') =~= la[k]);
            lemma_continuation_in_front(la, lr, k + 1, la[k].drop_last());
        }
        assert(k < next <= la.len());
        let behind = lines::logical_from(la, next);
        let first = seq![((k + 1) as usize, line)];
        assert(x == first + behind);
        if next == la.len() {
            assert(behind =~= seq![]);
            assert(x =~= first);
            assert(!lines::is_continued(line));
        } else {
            assert(!lines::is_continued(line));
            lemma_line_is_there(la, next);
            assert(x.last() == behind.last());
        }
        lemma_logical_in_front(la, lr, next);
        assert(lines::logical_at(w, k) == (line, next));
        assert(first + (behind + rest) =~= (first + behind) + rest);
    }
}

proof fn lemma_line_is_there(la: Seq<Seq<char>>, k: int)
    requires
        0 <= k < la.len(),
    ensures
        lines::logical_from(la, k).len() > 0,
{
}

/// What a line leads to that is not wrong is the same in every file.
proof fn lemma_flow_in_front(
    settings: Settings,
    file: FileView,
    source: Seq<char>,
    st: StateView,
    parent: ParentView,
    line: usize,
    raw: Seq<char>,
)
    requires
        !lines::is_continued(raw),
        !(statement::flow(settings, file, st, parent, line, raw) is Fail),
    ensures
        statement::flow(settings, (FileView { source, ..file }), st, parent, line, raw)
            == statement::flow(settings, file, st, parent, line, raw),
{
    reveal(statement::flow);
}

/// A default statement does what it does once the declaration before it is complete.
proof fn lemma_default_line_flow(
    settings: Settings,
    file: FileView,
    st: StateView,
    parent: ParentView,
    line: usize,
    rest: Seq<char>,
)
    requires
        is_default_text(rest),
        finalize::finalized(st, file.scope, parent, settings.windows) is Ok,
    ensures
        statement::flow(settings, file, st, parent, line, default_line(rest))
            == statement::default_flow(
            settings,
            file,
            finalize::finalized(st, file.scope, parent, settings.windows)->Ok_0,
            line,
            default_line(rest),
            rest,
        ),
{
    reveal(statement::flow);
    reveal_strlit("default ");
    reveal_strlit("rule ");
    reveal_strlit("pool ");
    reveal_strlit("build ");
    let raw = default_line(rest);
    let word = "default "@;
    assert(word.len() == 8);
    assert(raw[0] == 'd') by {
        assert(raw[0] == word[0]);
    }
    assert(raw.last() == rest.last());
    assert(text::trimmed_end(raw) == raw);
    assert(text::first_not_in(raw, 0, Class::Space) == 0);
    assert(raw.skip(0) =~= raw);
    assert(text::trimmed_start(raw) == raw);
    assert(text::first_not_in(raw, 0, Class::Blank) == 0);
    text::lemma_first_in(raw, 0, Class::Is('\t'));
    assert("rule "@[0] == 'r' && "pool "@[0] == 'p' && "build "@[0] == 'b');
    assert(raw.subrange(0, 8) =~= word);
    assert(word.is_prefix_of(raw));
    assert(raw.skip(8) =~= rest);
}

/// A load of one file, in which the first `next` lines have been read.
spec fn load_at(
    settings: Settings,
    path: Seq<char>,
    source: Seq<char>,
    next: int,
    state: StateView,
    parent: ParentView,
) -> Load {
    Load {
        settings,
        state,
        frames: seq![
            FrameView {
                file: FileView { path, source, scope: 0 },
                next,
                parent,
                identity: seq![],
            },
        ],
        open: Set::empty().insert(seq![]),
    }
}

proof fn lemma_stepped(
    settings: Settings,
    path: Seq<char>,
    source: Seq<char>,
    next: int,
    state: StateView,
    parent: ParentView,
    later: StateView,
    then_parent: ParentView,
)
    ensures
        loader::stepped(
            load_at(settings, path, source, next, state, parent),
            later,
            then_parent,
        ) == load_at(settings, path, source, next + 1, later, then_parent),
{
    let a = loader::stepped(
        load_at(settings, path, source, next, state, parent),
        later,
        then_parent,
    );
    let b = load_at(settings, path, source, next + 1, later, then_parent);
    assert(a.frames =~= b.frames);
}

/// Where the front of a text is read without error, and the line behind it is a default
/// statement, the load comes to that statement with what the front leaves.
proof fn lemma_load_reaches_default(
    settings: Settings,
    path: Seq<char>,
    a: Seq<char>,
    w: Seq<char>,
    rest: Seq<char>,
    next: int,
    state: StateView,
    parent: ParentView,
)
    requires
        is_default_text(rest),
        ({
            let all = lines::logical(a);
            let more = lines::logical(w);
            &&& 0 <= next <= all.len() < more.len()
            &&& more.take(all.len() as int) == all
            &&& more[all.len() as int].1 == default_line(rest)
            &&& forall|i: int| 0 <= i < all.len() ==> !lines::is_continued((#[trigger] all[i]).1)
        }),
        loader::progress(load_at(settings, path, a, next, state, parent), false) is Done,
    ensures
        ({
            let end = loader::progress(
                load_at(settings, path, a, next, state, parent),
                false,
            )->Done_0;
            let (line, raw) = lines::logical(w)[lines::logical(a).len() as int];
            let f = statement::default_flow(
                settings,
                (FileView { path, source: w, scope: 0 }),
                end,
                line,
                raw,
                rest,
            );
            f matches FlowView::Fail(d) ==> loader::progress(
                load_at(settings, path, w, next, state, parent),
                false,
            ) == ProgressView::Failed(d)
        }),
    decreases lines::logical(a).len() - next,
{
    let all = lines::logical(a);
    let more = lines::logical(w);
    let before = load_at(settings, path, a, next, state, parent);
    let load = load_at(settings, path, w, next, state, parent);
    let file = FileView { path, source: a, scope: 0 };
    assert(before.frames.last() == before.frames[0]);
    assert(load.frames.last() == load.frames[0]);
    if next == all.len() {
        let done = Load {
            state: finalize::finalized(state, 0, parent, settings.windows)->Ok_0,
            frames: before.frames.drop_last(),
            open: before.open.remove(seq![]),
            ..before
        };
        assert(done.frames.len() == 0);
        assert(loader::progress(before, false) == loader::progress(done, false));
        assert(loader::progress(done, false) == ProgressView::Done(done.state));
        lemma_default_line_flow(
            settings,
            FileView { path, source: w, scope: 0 },
            state,
            parent,
            more[next].0,
            rest,
        );
    } else {
        assert(more.take(all.len() as int)[next] == more[next]);
        let (line, raw) = all[next];
        lemma_flow_in_front(settings, file, w, state, parent, line, raw);
        match statement::flow(settings, file, state, parent, line, raw) {
            FlowView::Fail(_) => {},
            FlowView::Next(later, after) => {
                lemma_stepped(settings, path, a, next, state, parent, later, after);
                lemma_stepped(settings, path, w, next, state, parent, later, after);
                lemma_load_reaches_default(settings, path, a, w, rest, next + 1, later, after);
            },
            FlowView::Load(later, _, _) => {
                let none = ParentView::Nothing;
                lemma_stepped(settings, path, a, next, state, parent, later, none);
                lemma_stepped(settings, path, w, next, state, parent, later, none);
                lemma_load_reaches_default(settings, path, a, w, rest, next + 1, later, none);
            },
        }
    }
}

proof fn lemma_inner_lines_end(la: Seq<Seq<char>>, k: int)
    requires
        0 <= k <= la.len(),
        lines::logical_from(la, k).len() > 0 ==> !lines::is_continued(
            lines::logical_from(la, k).last().1,
        ),
    ensures
        forall|i: int|
            0 <= i < lines::logical_from(la, k).len() ==> !lines::is_continued(
                (#[trigger] lines::logical_from(la, k)[i]).1,
            ),
    decreases la.len() - k,
{
    if k < la.len() {
        let none = Seq::<Seq<char>>::empty();
        let (line, next) = lines::logical_at(la, k);
        if lines::is_continued(la[k]) {
            assert(la[k].len() > 0 && la[k].last() == '$');
            assert(la[k].drop_last().push('$') =~= la[k]);
            lemma_continuation_in_front(la, none, k + 1, la[k].drop_last());
        }
        let x = lines::logical_from(la, k);
        let behind = lines::logical_from(la, next);
        if next < la.len() {
            lemma_line_is_there(la, next);
            assert(x.last() == behind.last());
            lemma_inner_lines_end(la, next);
        } else {
            assert(behind =~= seq![]);
        }
        assert forall|i: int| 0 <= i < x.len() implies !lines::is_continued(
            (#[trigger] x[i]).1,
        ) by {
            if i > 0 {
                assert(x[i] == behind[i - 1]);
            }
        }
    }
}

/// A default statement that names a path which no build statement before it mentions is an
/// error, whatever follows it. `front` is what stands before the statement, which must not
/// go on in its line, and `back` is what follows it. The first such path is named.
pub proof fn law_default_must_stand_behind_its_path(
    settings: Settings,
    path: Seq<char>,
    front: Seq<char>,
    rest: Seq<char>,
    back: Seq<char>,
    i: int,
)
    requires
        loader::parsed(settings, front, path) is Ok,
        lines::logical(front).len() > 0 ==> !lines::is_continued(lines::logical(front).last().1),
        is_default_text(rest),
        statement::unescaped_colon(rest, 0) >= rest.len(),
        ({
            let m = loader::parsed(settings, front, path)->Ok_0;
            let words = statement::expanded_words(m.scopes, 0, rest);
            let targets = statement::canonical_paths(words, settings.windows);
            &&& forall|k: int| 0 <= k < words.len() ==> (#[trigger] words[k]).len() > 0
            &&& 0 <= i < targets.len()
            &&& !manifest::names_path(m.edges, targets[i])
            &&& forall|k: int| 0 <= k < i ==> manifest::names_path(m.edges, #[trigger] targets[k])
        }),
    ensures
        ({
            let m = loader::parsed(settings, front, path)->Ok_0;
            let words = statement::expanded_words(m.scopes, 0, rest);
            let target = paths::canonical(words[i], settings.windows).0;
            loader::parsed(
                settings,
                front + default_line(rest).push('\n') + back,
                path,
            ) matches Err(d) && d.message == "unknown target '"@ + target + "'"@
        }),
{
    let m = loader::parsed(settings, front, path)->Ok_0;
    let raw = default_line(rest);
    let tail = raw.push('\n') + back;
    let w = front + raw.push('\n') + back;
    assert(w =~= front + tail);
    let state = loader::fresh_load(settings, path).state;
    let none = ParentView::Nothing;
    let before = load_at(settings, path, front, 0, state, none);
    let load = load_at(settings, path, w, 0, state, none);
    assert(loader::entered(loader::fresh_load(settings, path), path, 0, seq![], front).frames
        =~= before.frames);
    assert(loader::entered(loader::fresh_load(settings, path), path, 0, seq![], w).frames
        =~= load.frames);
    loader::law_single_file_needs_no_other(before);
    assert(loader::progress(before, false) is Done);
    let end = loader::progress(before, false)->Done_0;
    // What stands before the statement ends with a line feed, if it is not empty.
    lemma_done_is_terminated(settings, path, front, 0, state, none);
    // The lines of the whole are those before the statement, and the statement.
    let la = text::text_lines(front, 0);
    let lr = text::text_lines(tail, 0);
    lemma_lines_in_front(front, tail, 0);
    lemma_logical_in_front(la, lr, 0);
    lemma_inner_lines_end(la, 0);
    lemma_statement_is_a_line(rest, back);
    let all = lines::logical(front);
    let more = lines::logical(w);
    let n = la.len() as int;
    assert((la + lr)[n] == lr[0]);
    assert(lines::logical_at(la + lr, n) == (raw, n + 1));
    let others = lines::logical_from(la + lr, n);
    assert(others[0] == ((n + 1) as usize, raw));
    assert(more == all + others);
    assert(more.take(all.len() as int) =~= all);
    assert(more[all.len() as int] == others[0]);
    lemma_load_reaches_default(settings, path, front, w, rest, 0, state, none);
    let line = others[0].0;
    manifest_laws::law_default_must_be_known_before(
        settings,
        FileView { path, source: w, scope: 0 },
        end,
        line,
        raw,
        rest,
        i,
    );
}

proof fn lemma_statement_is_a_line(rest: Seq<char>, back: Seq<char>)
    requires
        is_default_text(rest),
    ensures
        ({
            let lr = text::text_lines(default_line(rest).push('\n') + back, 0);
            lr.len() > 0 && lr[0] == default_line(rest)
        }),
{
    reveal_strlit("default ");
    let raw = default_line(rest);
    let w = raw.push('\n') + back;
    let word = "default "@;
    text::lemma_first_in(w, 0, Class::Is('\n'));
    let end = text::first_in(w, 0, Class::Is('\n'));
    assert(w[raw.len() as int] == '\n');
    assert(end == raw.len()) by {
        if end < raw.len() {
            assert(w[end] == raw[end]);
            if end < 8 {
                assert(raw[end] == word[end]);
                assert(word[0] == 'd' && word[1] == 'e' && word[2] == 'f' && word[3] == 'a'
                    && word[4] == 'u' && word[5] == 'l' && word[6] == 't' && word[7] == ' ');
            } else {
                assert(raw[end] == rest[end - 8]);
                assert(rest.contains(rest[end - 8]));
            }
        }
    }
    assert(w.subrange(0, end) =~= raw);
    assert(raw.last() == rest.last());
    assert(text::without_cr(raw) == raw);
}

/// A file that is read without error is empty or ends with a line feed.
proof fn lemma_done_is_terminated(
    settings: Settings,
    path: Seq<char>,
    source: Seq<char>,
    next: int,
    state: StateView,
    parent: ParentView,
)
    requires
        0 <= next <= lines::logical(source).len(),
        loader::progress(load_at(settings, path, source, next, state, parent), false) is Done,
    ensures
        !statement::is_unterminated(source),
    decreases lines::logical(source).len() - next,
{
    let load = load_at(settings, path, source, next, state, parent);
    assert(load.frames.last() == load.frames[0]);
    if next < lines::logical(source).len() {
        let (line, raw) = lines::logical(source)[next];
        let file = FileView { path, source, scope: 0 };
        match statement::flow(settings, file, state, parent, line, raw) {
            FlowView::Fail(_) => {},
            FlowView::Next(later, after) => {
                lemma_stepped(settings, path, source, next, state, parent, later, after);
                lemma_done_is_terminated(settings, path, source, next + 1, later, after);
            },
            FlowView::Load(later, _, _) => {
                let none = ParentView::Nothing;
                lemma_stepped(settings, path, source, next, state, parent, later, none);
                lemma_done_is_terminated(settings, path, source, next + 1, later, none);
            },
        }
    }
}

} // verus!
