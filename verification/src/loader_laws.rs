//! What can be relied on where files draw in other files.
use crate::expand;
use crate::finalize;
use crate::finalize::ParentView;
use crate::finalize::StateView;
use crate::lines;
use crate::loader;
use crate::loader::FrameView;
use crate::loader::Load;
use crate::loader::ProgressView;
use crate::manifest;
use crate::manifest::ScopeView;
use crate::manifest::Settings;
use crate::statement;
use crate::statement::FileView;
use crate::statement::FlowView;
use crate::text;
use vstd::prelude::*;

verus! {

/// What a logical line says, without comments and the white space around it.
pub open spec fn content(raw: Seq<char>) -> Seq<char> {
    text::trimmed_start(text::trimmed_end(lines::uncommented(raw)))
}

/// Whether a line says a word and, behind it, something else.
pub open spec fn says(raw: Seq<char>, word: Seq<char>, rest: Seq<char>) -> bool {
    content(raw) == word + seq![' '] + rest || (content(raw) == word && rest.len() == 0)
}

/// Whether a line draws in the file `path`: by `subninja`, where `fresh` is set, and by
/// `include` otherwise. Variables of the scope stand in the path.
pub open spec fn draws_in(
    raw: Seq<char>,
    scopes: Seq<ScopeView>,
    scope: int,
    path: Seq<char>,
    fresh: bool,
    rest: Seq<char>,
) -> bool {
    &&& says(
        raw,
        if fresh {
            "subninja"@
        } else {
            "include"@
        },
        rest,
    )
    &&& path == expand::expanded(text::trimmed(rest), finalize::in_scope(scopes, scope))
}

proof fn lemma_word(s: Seq<char>, word: Seq<char>, spaced: Seq<char>)
    requires
        spaced == word + seq![' '],
        spaced.is_prefix_of(s),
    ensures
        s == word + seq![' '] + s.skip(spaced.len() as int),
{
    assert(s =~= spaced + s.skip(spaced.len() as int));
}

proof fn lemma_drawn(
    settings: Settings,
    file: FileView,
    st: StateView,
    parent: ParentView,
    line: usize,
    raw: Seq<char>,
)
    ensures
        statement::flow(settings, file, st, parent, line, raw) matches FlowView::Load(
            state,
            path,
            fresh,
        ) ==> exists|rest: Seq<char>| #[trigger]
            draws_in(raw, state.manifest.scopes, file.scope, path, fresh, rest),
{
    reveal(statement::flow);
    reveal_strlit("include");
    reveal_strlit("include ");
    reveal_strlit("subninja");
    reveal_strlit("subninja ");
    if let FlowView::Load(state, path, fresh) = statement::flow(
        settings,
        file,
        st,
        parent,
        line,
        raw,
    ) {
        let c = content(raw);
        assert("include "@ =~= "include"@ + seq![' ']);
        assert("subninja "@ =~= "subninja"@ + seq![' ']);
        if "include "@.is_prefix_of(c) {
            lemma_word(c, "include"@, "include "@);
            let rest = c.skip("include "@.len() as int);
            assert(draws_in(raw, state.manifest.scopes, file.scope, path, fresh, rest));
        } else if c == "include"@ || c == "subninja"@ {
            let rest = Seq::<char>::empty();
            assert(draws_in(raw, state.manifest.scopes, file.scope, path, fresh, rest));
        } else {
            lemma_word(c, "subninja"@, "subninja "@);
            let rest = c.skip("subninja "@.len() as int);
            assert(draws_in(raw, state.manifest.scopes, file.scope, path, fresh, rest));
        }
    }
}

/// Whether the files that are being read are those that were, but for inner ones that have
/// been read.
pub open spec fn reads_the_same(load: Load, next: Load) -> bool {
    &&& next.frames.len() <= load.frames.len()
    &&& forall|i: int|
        0 <= i < next.frames.len() ==> (#[trigger] next.frames[i]).file == load.frames[i].file
}

/// Whether the line that was read last draws in a file, which declares in a scope.
pub open spec fn is_drawn_in(next: Load, path: Seq<char>, scope: int) -> bool {
    let top = next.frames.last();
    let raw = loader::current_line(top).1;
    let scopes = next.state.manifest.scopes;
    &&& next.frames.len() > 0
    &&& top.parent == ParentView::Nothing
    &&& {
        ||| scope == top.file.scope && exists|rest: Seq<char>| #[trigger]
            draws_in(raw, scopes, top.file.scope, path, false, rest)
        ||| scopes.len() > 0 && scope == scopes.len() - 1 && scopes.last()
            == manifest::empty_scope(Some(top.file.scope as usize)) && exists|rest: Seq<char>|
            #[trigger]
            draws_in(raw, scopes.drop_last(), top.file.scope, path, true, rest)
    }
}

proof fn lemma_same_files(load: Load, state: StateView, parent: ParentView)
    requires
        load.frames.len() > 0,
    ensures
        reads_the_same(load, loader::stepped(load, state, parent)),
        loader::stepped(load, state, parent).frames.len() == load.frames.len(),
{
}

/// Where a load needs a file, the line that was read last draws it in: `include` has it declare
/// where the line stands, and `subninja` in a new scope inside that one, which is empty. The
/// files that are still being read are those that were, in the scopes that they had.
pub proof fn law_needed_file_is_drawn_in(load: Load)
    ensures
        loader::progress(load, true) matches ProgressView::Need(next, path, scope)
            ==> reads_the_same(load, next) && is_drawn_in(next, path, scope),
    decreases
            load.frames.len(),
            loader::frame_lines(load.frames.last()).len() - load.frames.last().next,
{
    let n = load.frames.len();
    let top = load.frames.last();
    let all = loader::frame_lines(top);
    if n > 0 {
        if top.next < 0 || top.next >= all.len() {
            if let Ok(state) = loader::ended(load.settings, load.state, top) {
                let rest = Load {
                    state,
                    frames: load.frames.drop_last(),
                    open: load.open.remove(top.identity),
                    ..load
                };
                law_needed_file_is_drawn_in(rest);
                assert(loader::progress(load, true) == loader::progress(rest, true));
                assert(reads_the_same(load, rest));
            }
        } else {
            let (line, raw) = all[top.next];
            lemma_drawn(load.settings, top.file, load.state, top.parent, line, raw);
            match statement::flow(load.settings, top.file, load.state, top.parent, line, raw) {
                FlowView::Fail(_) => {},
                FlowView::Next(state, parent) => {
                    let next = loader::stepped(load, state, parent);
                    law_needed_file_is_drawn_in(next);
                    lemma_same_files(load, state, parent);
                    assert(loader::progress(load, true) == loader::progress(next, true));
                    if let ProgressView::Need(last, _, _) = loader::progress(next, true) {
                        assert(reads_the_same(load, last)) by {
                            assert forall|i: int| 0 <= i < last.frames.len() implies (
                            #[trigger] last.frames[i]).file == load.frames[i].file by {
                                assert(next.frames[i].file == load.frames[i].file);
                            }
                        }
                    }
                },
                FlowView::Load(state, path, fresh) => {
                    let scopes = state.manifest.scopes;
                    let more = loader::with_scope(state, top.file.scope);
                    assert(more.manifest.scopes.drop_last() =~= scopes);
                    let after = if fresh {
                        more
                    } else {
                        state
                    };
                    lemma_same_files(load, after, ParentView::Nothing);
                    let next = loader::stepped(load, after, ParentView::Nothing);
                    assert(next.frames.last() == FrameView {
                        next: top.next + 1,
                        parent: ParentView::Nothing,
                        ..top
                    });
                    assert(loader::current_line(next.frames.last()) == (line, raw));
                    let rest = choose|rest: Seq<char>| #[trigger]
                        draws_in(raw, scopes, top.file.scope, path, fresh, rest);
                    assert(draws_in(raw, scopes, top.file.scope, path, fresh, rest));
                    if fresh {
                        assert(is_drawn_in(next, path, scopes.len() as int));
                    } else {
                        assert(is_drawn_in(next, path, top.file.scope));
                    }
                },
            }
        }
    }
}

} // verus!
