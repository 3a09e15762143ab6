//! Reading a manifest and the files that it draws in. The loader names the file
//! that it needs next, and goes on when it gets it.
use crate::collections::map_clone;
use crate::collections::map_new;
use crate::collections::set_contains;
use crate::collections::set_insert;
use crate::collections::set_new;
use crate::collections::set_remove;
use crate::diagnostic;
use crate::diagnostic::io_error_message;
use crate::diagnostic::Diagnostic;
use crate::diagnostic::DiagnosticView;
use crate::finalize;
use crate::finalize::finalize_parent;
use crate::finalize::Parent;
use crate::finalize::ParentView;
use crate::finalize::State;
use crate::finalize::StateView;
use crate::lines;
use crate::lines::line_end_column;
use crate::lines::logical_lines;
use crate::lines::LogicalLine;
use crate::manifest;
use crate::manifest::Manifest;
use crate::manifest::ManifestView;
use crate::manifest::Scope;
use crate::manifest::Settings;
use crate::statement;
use crate::statement::read_line;
use crate::statement::File;
use crate::statement::FileView;
use crate::statement::Flow;
use crate::statement::FlowView;
use crate::text;
use crate::text::chars_of;
use crate::text::count;
use crate::text::string_of;
use crate::text::strip_prefix;
use crate::validate;
use crate::validate::validate;
use rapidhash::RapidHashSet;
use vstd::prelude::*;
use vstd::string::*;

verus! {

/// A file that is being read.
pub struct Frame {
    path: String,
    source: Vec<char>,
    lines: Vec<LogicalLine>,
    next: usize,
    scope: usize,
    parent: Parent,
    identity: String,
}

/// What a `Frame` holds: a file, how many of its logical lines have been read,
/// the declaration that is being read, and what the file is known by.
#[verifier::ext_equal]
pub struct FrameView {
    pub file: FileView,
    pub next: int,
    pub parent: ParentView,
    pub identity: Seq<char>,
}

impl Frame {
    pub closed spec fn view(&self) -> FrameView {
        FrameView {
            file: FileView {
                path: self.path@,
                source: self.source@,
                scope: self.scope as int,
            },
            next: self.next as int,
            parent: self.parent.deep_view(),
            identity: self.identity@,
        }
    }

    spec fn well_formed(&self, scopes: nat) -> bool {
        &&& self.scope < scopes
        &&& self.next <= self.lines@.len()
        &&& lines::line_views(self.lines@) == lines::logical(self.source@)
        &&& statement::is_parent_in(self.parent, self.scope)
    }
}

pub open spec fn frame_lines(frame: FrameView) -> Seq<(usize, Seq<char>)> {
    lines::logical(frame.file.source)
}

/// The logical line of a file that was read last.
pub open spec fn current_line(frame: FrameView) -> (usize, Seq<char>) {
    frame_lines(frame)[frame.next - 1]
}

/// A load in progress: what has been declared, the files that are being read,
/// the outermost first, and what they are known by.
#[verifier::ext_equal]
pub struct Load {
    pub settings: Settings,
    pub state: StateView,
    pub frames: Seq<FrameView>,
    pub open: Set<Seq<char>>,
}

/// How a load goes on: it needs a file, which declares in a scope; it is done;
/// or something is wrong.
#[verifier::ext_equal]
pub enum ProgressView {
    Need(Load, Seq<char>, int),
    Done(StateView),
    Failed(DiagnosticView),
}

/// What a diagnostic of the file `child` says to the reader of the file that
/// draws it in: that a file could not be read is reported there.
pub open spec fn contextualized(
    settings: Settings,
    d: DiagnosticView,
    frame: FrameView,
    child: Seq<char>,
) -> DiagnosticView {
    let prefix = "loading manifest: "@;
    let (line, raw) = current_line(frame);
    if prefix.is_prefix_of(d.message) {
        let cause = diagnostic::without_error_code(d.message.skip(prefix.len() as int));
        let head = if settings.ninja {
            "loading '"@
        } else {
            "loading included manifest '"@
        };
        let message = head + child + "': "@ + cause;
        diagnostic::shown_diagnostic(
            frame.file.path,
            line,
            lines::end_column(raw),
            if settings.ninja && settings.windows {
                message + "\r\r\n"@
            } else {
                message
            },
            raw,
        )
    } else {
        d
    }
}

/// What a diagnostic of the file `child` says once it has passed through the
/// first `n` frames.
pub open spec fn passed_up(
    settings: Settings,
    d: DiagnosticView,
    frames: Seq<FrameView>,
    n: int,
    child: Seq<char>,
) -> DiagnosticView
    decreases n,
{
    if n <= 0 {
        d
    } else {
        passed_up(
            settings,
            contextualized(settings, d, frames[n - 1], child),
            frames,
            n - 1,
            frames[n - 1].file.path,
        )
    }
}

/// What is said of a file that ends without a line feed.
pub open spec fn unterminated(file: FileView) -> DiagnosticView {
    let all = text::raw_lines(file.source, 0);
    diagnostic::shown_diagnostic(
        file.path,
        statement::last_line(file.source),
        text::sat(all.last().len() as int + 1),
        "unexpected EOF"@,
        all.last(),
    )
}

/// What becomes of the file at the end of its lines: what it leaves, or what is
/// wrong with it.
pub open spec fn ended(settings: Settings, state: StateView, frame: FrameView) -> Result<
    StateView,
    DiagnosticView,
> {
    if statement::is_unterminated(frame.file.source) {
        Err(unterminated(frame.file))
    } else {
        finalize::finalized(state, frame.file.scope, frame.parent, settings.windows)
    }
}

/// The state with a new scope inside scope `outer`.
pub open spec fn with_scope(state: StateView, outer: int) -> StateView {
    StateView {
        manifest: ManifestView {
            scopes: state.manifest.scopes.push(manifest::empty_scope(Some(outer as usize))),
            ..state.manifest
        },
        ..state
    }
}

/// How a load goes on by itself. Where it does not `follow`, lines that draw in
/// other files do nothing.
pub open spec fn progress(load: Load, follow: bool) -> ProgressView
    decreases
            load.frames.len(),
            frame_lines(load.frames.last()).len() - load.frames.last().next,
{
    let n = load.frames.len();
    let top = load.frames.last();
    let all = frame_lines(top);
    if n == 0 {
        ProgressView::Done(load.state)
    } else if top.next < 0 || top.next >= all.len() {
        match ended(load.settings, load.state, top) {
            Err(d) => ProgressView::Failed(
                passed_up(load.settings, d, load.frames, n - 1, top.file.path),
            ),
            Ok(state) => progress(
                Load {
                    state,
                    frames: load.frames.drop_last(),
                    open: load.open.remove(top.identity),
                    ..load
                },
                follow,
            ),
        }
    } else {
        let (line, raw) = all[top.next];
        match statement::flow(load.settings, top.file, load.state, top.parent, line, raw) {
            FlowView::Fail(d) => ProgressView::Failed(
                passed_up(load.settings, d, load.frames, n - 1, top.file.path),
            ),
            FlowView::Next(state, parent) => progress(stepped(load, state, parent), follow),
            FlowView::Load(state, child, fresh) => if !follow {
                progress(stepped(load, state, ParentView::Nothing), follow)
            } else if fresh {
                ProgressView::Need(
                    stepped(load, with_scope(state, top.file.scope), ParentView::Nothing),
                    child,
                    state.manifest.scopes.len() as int,
                )
            } else {
                ProgressView::Need(
                    stepped(load, state, ParentView::Nothing),
                    child,
                    top.file.scope,
                )
            },
        }
    }
}

/// A load with one more line of its innermost file read.
pub open spec fn stepped(load: Load, state: StateView, parent: ParentView) -> Load {
    let top = load.frames.last();
    Load {
        state,
        frames: load.frames.drop_last().push(
            FrameView { next: top.next + 1, parent, ..top },
        ),
        ..load
    }
}

/// What is found under the name of a file that a load needs.
pub enum Supply {
    /// The file cannot be opened, for a reason.
    Missing(String),
    /// The file, known by something that no other file has, and what it holds,
    /// or why it cannot be read.
    Found { identity: String, contents: Result<String, String> },
}

#[verifier::ext_equal]
pub enum SupplyView {
    Missing(Seq<char>),
    Found { identity: Seq<char>, contents: Result<Seq<char>, Seq<char>> },
}

impl Supply {
    pub open spec fn view(&self) -> SupplyView {
        match self {
            Supply::Missing(reason) => SupplyView::Missing(reason@),
            Supply::Found { identity, contents } => SupplyView::Found {
                identity: identity@,
                contents: match contents {
                    Ok(source) => Ok(source@),
                    Err(reason) => Err(reason@),
                },
            },
        }
    }
}

/// What is wrong with the file `path` that a load needs, if anything is.
pub open spec fn supply_error(load: Load, path: Seq<char>, supply: SupplyView) -> Option<
    DiagnosticView,
> {
    match supply {
        SupplyView::Missing(reason) => Some(
            diagnostic::bare_diagnostic(path, 1, 1, "loading manifest: "@ + reason),
        ),
        SupplyView::Found { identity, contents } => if load.open.contains(identity) {
            Some(diagnostic::bare_diagnostic(path, 1, 1, "include cycle detected"@))
        } else {
            match contents {
                Err(reason) => Some(
                    diagnostic::bare_diagnostic(path, 1, 1, "loading manifest: "@ + reason),
                ),
                Ok(_) => None,
            }
        },
    }
}

/// A load that has begun to read the file `path`.
pub open spec fn entered(
    load: Load,
    path: Seq<char>,
    scope: int,
    identity: Seq<char>,
    source: Seq<char>,
) -> Load {
    Load {
        frames: load.frames.push(
            FrameView {
                file: FileView { path, source, scope },
                next: 0,
                parent: ParentView::Nothing,
                identity,
            },
        ),
        open: load.open.insert(identity),
        ..load
    }
}

/// How a load goes on with the file `path`, which declares in `scope`.
pub open spec fn supplied(
    load: Load,
    path: Seq<char>,
    scope: int,
    supply: SupplyView,
) -> ProgressView {
    match supply_error(load, path, supply) {
        Some(d) => ProgressView::Failed(
            passed_up(load.settings, d, load.frames, load.frames.len() as int, path),
        ),
        None => progress(
            entered(load, path, scope, supply->identity, supply->contents->Ok_0),
            true,
        ),
    }
}

/// The manifest that a load has read, or what is wrong with it.
pub open spec fn concluded(settings: Settings, state: StateView) -> Result<
    ManifestView,
    DiagnosticView,
> {
    let m = ManifestView {
        variables: state.manifest.scopes[0].variables,
        rules: state.manifest.scopes[0].rules,
        ..state.manifest
    };
    match validate::manifest_error(m, settings.ninja) {
        Some(d) => Err(d),
        None => Ok(m),
    }
}

/// A load that has read nothing.
pub open spec fn fresh_load(settings: Settings, path: Seq<char>) -> Load {
    Load {
        settings,
        state: StateView { manifest: manifest::empty_manifest(path), registry: Map::empty() },
        frames: seq![],
        open: Set::empty(),
    }
}

/// The manifest that one file holds, or what is wrong with it. Files that it
/// would draw in are left out.
pub open spec fn parsed(settings: Settings, source: Seq<char>, path: Seq<char>) -> Result<
    ManifestView,
    DiagnosticView,
> {
    let load = entered(fresh_load(settings, path), path, 0, seq![], source);
    match progress(load, false) {
        ProgressView::Done(state) => concluded(settings, state),
        ProgressView::Failed(d) => Err(d),
        ProgressView::Need(rest, _, _) => concluded(settings, rest.state),
    }
}

/// A load in progress, which needs the file `wanted`.
pub struct Loader {
    settings: Settings,
    state: State,
    frames: Vec<Frame>,
    open: RapidHashSet<String>,
    wanted: String,
    scope: usize,
}

pub open spec fn frame_views(frames: Seq<Frame>) -> Seq<FrameView> {
    Seq::new(frames.len(), |i: int| frames[i]@)
}

/// How a load goes on.
pub enum Step {
    /// It needs another file.
    More(Loader),
    /// It is done.
    Finished(Result<Manifest, Diagnostic>),
}

/// What a load does behind `progress`.
pub open spec fn is_step(settings: Settings, step: Step, p: ProgressView) -> bool {
    match (step, p) {
        (Step::More(loader), ProgressView::Need(load, path, scope)) => loader.well_formed()
            && loader@ == load && loader.path() == path && loader.target() == scope,
        (Step::Finished(Ok(m)), ProgressView::Done(state)) => concluded(settings, state) == Ok::<
            ManifestView,
            DiagnosticView,
        >(m.deep_view()),
        (Step::Finished(Err(d)), ProgressView::Done(state)) => concluded(settings, state) == Err::<
            ManifestView,
            DiagnosticView,
        >(d.deep_view()),
        (Step::Finished(Err(d)), ProgressView::Failed(e)) => d.deep_view() == e,
        _ => false,
    }
}

spec fn all_waiting(frames: Seq<Frame>, scopes: nat) -> bool {
    forall|i: int|
        0 <= i < frames.len() ==> (#[trigger] frames[i]).well_formed(scopes) && frames[i].next >= 1
}

impl Loader {
    pub closed spec fn view(&self) -> Load {
        Load {
            settings: self.settings,
            state: self.state.deep_view(),
            frames: frame_views(self.frames@),
            open: self.open.deep_view(),
        }
    }

    /// The path of the file that the load needs.
    pub closed spec fn path(&self) -> Seq<char> {
        self.wanted@
    }

    /// The scope in which that file declares.
    pub closed spec fn target(&self) -> int {
        self.scope as int
    }

    pub closed spec fn well_formed(&self) -> bool {
        let n = self.state.manifest.scopes@.len();
        all_waiting(self.frames@, n) && self.scope < n
    }
}

/// What a diagnostic of the file `child` says to the reader of the file that
/// draws it in.
fn contextualize_include_error(
    settings: Settings,
    d: Diagnostic,
    frame: &Frame,
    child: &str,
) -> (r: Diagnostic)
    requires
        1 <= frame.next <= frame.lines@.len(),
        lines::line_views(frame.lines@) == lines::logical(frame.source@),
    ensures
        r.deep_view() == contextualized(settings, d.deep_view(), frame@, child@),
{
    let message: Vec<char> = chars_of(d.message.as_str());
    let cause: String = match strip_prefix(message.as_slice(), "loading manifest: ") {
        Some(cause) => string_of(io_error_message(cause)),
        None => {
            return d;
        },
    };
    let mut message: String = if settings.ninja {
        "loading '".to_owned()
    } else {
        "loading included manifest '".to_owned()
    };
    message.append(child);
    message.append("': ");
    message.append(cause.as_str());
    if settings.ninja && settings.windows {
        message.append("\r\r\n");
    }
    let current: &LogicalLine = &frame.lines[frame.next - 1];
    proof {
        assert(lines::line_views(frame.lines@)[frame.next - 1] == (current.line, current.text@));
    }
    let raw: &[char] = current.text.as_slice();
    Diagnostic::new(
        frame.path.as_str(),
        current.line,
        line_end_column(raw),
        message.as_str(),
    ).with_source(raw)
}

/// What a diagnostic of the file `child` says once it has passed through the
/// files that draw it in.
fn pass_up(settings: Settings, d: Diagnostic, frames: &Vec<Frame>, child: String) -> (r: Diagnostic)
    requires
        forall|i: int|
            0 <= i < frames@.len() ==> 1 <= (#[trigger] frames@[i]).next
                <= frames@[i].lines@.len() && lines::line_views(frames@[i].lines@)
                == lines::logical(frames@[i].source@),
    ensures
        r.deep_view() == passed_up(
            settings,
            d.deep_view(),
            frame_views(frames@),
            frames@.len() as int,
            child@,
        ),
{
    let mut n: usize = frames.len();
    let mut d: Diagnostic = d;
    let mut child: String = child;
    let ghost all = frame_views(frames@);
    let ghost goal = passed_up(settings, d.deep_view(), all, n as int, child@);
    while n > 0
        invariant
            forall|i: int|
                0 <= i < frames@.len() ==> 1 <= (#[trigger] frames@[i]).next
                    <= frames@[i].lines@.len() && lines::line_views(frames@[i].lines@)
                    == lines::logical(frames@[i].source@),
            n <= frames@.len(),
            all == frame_views(frames@),
            goal == passed_up(settings, d.deep_view(), all, n as int, child@),
        decreases n,
    {
        let frame: &Frame = &frames[n - 1];
        proof {
            assert(all[n - 1] == frame@);
        }
        d = contextualize_include_error(settings, d, frame, child.as_str());
        child = frame.path.clone();
        n -= 1;
    }
    d
}

proof fn lemma_passed_up_prefix(
    settings: Settings,
    d: DiagnosticView,
    a: Seq<FrameView>,
    b: Seq<FrameView>,
    n: int,
    child: Seq<char>,
)
    requires
        0 <= n <= a.len(),
        n <= b.len(),
        forall|i: int| 0 <= i < n ==> #[trigger] a[i] == b[i],
    ensures
        passed_up(settings, d, a, n, child) == passed_up(settings, d, b, n, child),
    decreases n,
{
    if n > 0 {
        assert(a[n - 1] == b[n - 1]);
        lemma_passed_up_prefix(
            settings,
            contextualized(settings, d, a[n - 1], child),
            a,
            b,
            n - 1,
            a[n - 1].file.path,
        );
    }
}

fn unterminated_diagnostic(path: &str, source: &[char]) -> (r: Diagnostic)
    requires
        statement::is_unterminated(source@),
    ensures
        forall|scope: int|
            r.deep_view() == #[trigger] unterminated(
                FileView { path: path@, source: source@, scope },
            ),
{
    let all: Vec<Vec<char>> = lines::split_raw_lines(source);
    proof {
        assert(text::texts(all@).len() > 0) by {
            text::lemma_first_in(source@, 0, text::Class::Is('\n'));
        }
        assert(text::texts(all@).last() == all@.last()@);
    }
    let last: &[char] = all[all.len() - 1].as_slice();
    let line: usize = count(source, '\n').saturating_add(1);
    let column: usize = last.len().saturating_add(1);
    Diagnostic::new(path, line, column, "unexpected EOF").with_source(last)
}

/// The manifest that a load has read, or what is wrong with it.
fn conclude(settings: Settings, state: State) -> (r: Result<Manifest, Diagnostic>)
    requires
        state.manifest.scopes@.len() > 0,
    ensures
        match r {
            Ok(m) => concluded(settings, state.deep_view()) == Ok::<ManifestView, DiagnosticView>(
                m.deep_view(),
            ),
            Err(d) => concluded(settings, state.deep_view()) == Err::<
                ManifestView,
                DiagnosticView,
            >(d.deep_view()),
        },
{
    let ghost before = state.deep_view().manifest;
    let mut manifest: Manifest = state.manifest;
    proof {
        assert(before.scopes[0] == manifest.scopes@[0].deep_view());
    }
    manifest.variables = map_clone(&manifest.scopes[0].variables);
    manifest.rules = map_clone(&manifest.scopes[0].rules);
    proof {
        assert(manifest.deep_view() =~= (ManifestView {
            variables: before.scopes[0].variables,
            rules: before.scopes[0].rules,
            ..before
        }));
    }
    match validate(&manifest, settings.ninja) {
        Some(d) => Err(d),
        None => Ok(manifest),
    }
}

/// Goes on until a file is needed.
fn advance(
    settings: Settings,
    first_state: State,
    first_frames: Vec<Frame>,
    first_open: RapidHashSet<String>,
    follow: bool,
) -> (step: Step)
    requires
        first_state.manifest.scopes@.len() > 0,
        first_frames@.len() > 0 ==> all_waiting(first_frames@.drop_last(), first_state.manifest.scopes@.len())
            && first_frames@.last().well_formed(first_state.manifest.scopes@.len()),
    ensures
        is_step(
            settings,
            step,
            progress(
                Load {
                    settings,
                    state: first_state.deep_view(),
                    frames: frame_views(first_frames@),
                    open: first_open.deep_view(),
                },
                follow,
            ),
        ),
{
    let ghost goal = progress(
        Load {
            settings,
            state: first_state.deep_view(),
            frames: frame_views(first_frames@),
            open: first_open.deep_view(),
        },
        follow,
    );
    let mut state: State = first_state;
    let mut frames: Vec<Frame> = first_frames;
    let mut open: RapidHashSet<String> = first_open;
    while frames.len() > 0
        invariant
            goal == progress(
                Load {
                    settings,
                    state: first_state.deep_view(),
                    frames: frame_views(first_frames@),
                    open: first_open.deep_view(),
                },
                follow,
            ),
            state.manifest.scopes@.len() > 0,
            frames@.len() > 0 ==> all_waiting(
                frames@.drop_last(),
                state.manifest.scopes@.len(),
            ) && frames@.last().well_formed(state.manifest.scopes@.len()),
            goal == progress(
                Load {
                    settings,
                    state: state.deep_view(),
                    frames: frame_views(frames@),
                    open: open.deep_view(),
                },
                follow,
            ),
        decreases
                frames@.len(),
                frames@.last().lines@.len() - frames@.last().next,
    {
        let ghost frames0 = frames@;
        let ghost load = Load {
            settings,
            state: state.deep_view(),
            frames: frame_views(frames@),
            open: open.deep_view(),
        };
        let ghost scopes0 = state.manifest.scopes@.len();
        let ghost top = frames@.last()@;
        proof {
            assert(load.frames.last() == top);
            assert(load.frames.drop_last() =~= frame_views(frames0.drop_last()));
            assert(frame_lines(top).len() == frames0.last().lines@.len());
        }
        let Frame { path, source, lines, next, scope, parent, identity } = match frames.pop() {
            Some(frame) => frame,
            None => {
                return Step::Finished(conclude(settings, state));
            },
        };
        proof {
            assert(frames@ =~= frames0.drop_last());
        }
        if next >= lines.len() {
            let n: usize = source.len();
            if n > 0 && source[n - 1] != '\n' {
                let d: Diagnostic = unterminated_diagnostic(path.as_str(), source.as_slice());
                proof {
                    lemma_passed_up_prefix(
                        settings,
                        d.deep_view(),
                        load.frames,
                        frame_views(frames@),
                        frames@.len() as int,
                        path@,
                    );
                }
                return Step::Finished(Err(pass_up(settings, d, &frames, path)));
            }
            match finalize_parent(&mut state, scope, parent, settings.windows) {
                Ok(()) => {},
                Err(d) => {
                    proof {
                        lemma_passed_up_prefix(
                            settings,
                            d.deep_view(),
                            load.frames,
                            frame_views(frames@),
                            frames@.len() as int,
                            path@,
                        );
                    }
                    return Step::Finished(Err(pass_up(settings, d, &frames, path)));
                },
            }
            set_remove(&mut open, identity.as_str());
            proof {
                if frames@.len() > 0 {
                    assert(frames@.last() == frames0.drop_last()[frames@.len() - 1]);
                    assert forall|i: int| 0 <= i < frames@.drop_last().len() implies (
                    #[trigger] frames@.drop_last()[i]).well_formed(scopes0)
                        && frames@.drop_last()[i].next >= 1 by {
                        assert(frames@.drop_last()[i] == frames0.drop_last()[i]);
                    }
                }
            }
        } else {
            let current: &LogicalLine = &lines[next];
            proof {
                assert(lines::line_views(lines@)[next as int] == (current.line, current.text@));
            }
            let file: File = File {
                path: path.as_str(),
                source: source.as_slice(),
                scope,
            };
            proof {
                assert(file@ == top.file);
            }
            match read_line(
                settings,
                file,
                &mut state,
                parent,
                current.line,
                current.text.as_slice(),
            ) {
                Err(d) => {
                    proof {
                        lemma_passed_up_prefix(
                            settings,
                            d.deep_view(),
                            load.frames,
                            frame_views(frames@),
                            frames@.len() as int,
                            path@,
                        );
                    }
                    return Step::Finished(Err(pass_up(settings, d, &frames, path)));
                },
                Ok(Flow::Next(parent)) => {
                    let frame: Frame = Frame {
                        path,
                        source,
                        lines,
                        next: next + 1,
                        scope,
                        parent,
                        identity,
                    };
                    let ghost view = frame@;
                    frames.push(frame);
                    proof {
                        assert(frames@.drop_last() =~= frames0.drop_last());
                        assert(frame_views(frames@) =~= stepped(
                            load,
                            state.deep_view(),
                            parent.deep_view(),
                        ).frames);
                    }
                },
                Ok(Flow::Load(child, fresh)) => {
                    let frame: Frame = Frame {
                        path,
                        source,
                        lines,
                        next: next + 1,
                        scope,
                        parent: Parent::Nothing,
                        identity,
                    };
                    let ghost read = state.deep_view();
                    frames.push(frame);
                    proof {
                        assert(frames@.drop_last() =~= frames0.drop_last());
                        assert(frame_views(frames@) =~= stepped(
                            load,
                            read,
                            ParentView::Nothing,
                        ).frames);
                        assert forall|i: int| 0 <= i < frames@.len() implies (
                        #[trigger] frames@[i]).well_formed(scopes0) && frames@[i].next >= 1 by {
                            if i < frames0.len() - 1 {
                                assert(frames@[i] == frames0.drop_last()[i]);
                            }
                        }
                    }
                    if follow {
                        let mut target: usize = scope;
                        if fresh {
                            target = state.manifest.scopes.len();
                            state.manifest.scopes.push(Scope::new(Some(scope)));
                            proof {
                                assert(state.manifest.scopes.deep_view()
                                    =~= read.manifest.scopes.push(
                                    manifest::empty_scope(Some(scope)),
                                ));
                                assert(state.deep_view() =~= with_scope(read, scope as int));
                            }
                        }
                        let loader: Loader = Loader {
                            settings,
                            state,
                            frames,
                            open,
                            wanted: child,
                            scope: target,
                        };
                        return Step::More(loader);
                    }
                },
            }
        }
    }
    Step::Finished(conclude(settings, state))
}

impl Loader {
    /// A load of the manifest `path`, which needs that file.
    pub fn new(settings: Settings, path: &str) -> (r: Loader)
        ensures
            r.well_formed(),
            r@ == fresh_load(settings, path@),
            r.path() == path@,
            r.target() == 0,
    {
        let r: Loader = Loader {
            settings,
            state: State { manifest: Manifest::new(path), registry: map_new() },
            frames: Vec::new(),
            open: set_new(),
            wanted: path.to_owned(),
            scope: 0,
        };
        proof {
            assert(r.state.deep_view().manifest.scopes.len() == 1);
            assert(r@ =~= fresh_load(settings, path@));
        }
        r
    }

    /// The path of the file that the load needs.
    pub fn wanted(&self) -> (r: &str)
        ensures
            r@ == self.path(),
    {
        self.wanted.as_str()
    }

    /// Goes on with what is found under the path that the load needs.
    pub fn supply(self, supply: Supply) -> (step: Step)
        requires
            self.well_formed(),
        ensures
            is_step(
                self@.settings,
                step,
                supplied(self@, self.path(), self.target(), supply@),
            ),
    {
        let Loader { settings, state, frames, open, wanted, scope } = self;
        match supply {
            Supply::Missing(reason) => {
                let mut message: String = "loading manifest: ".to_owned();
                message.append(reason.as_str());
                let d: Diagnostic = Diagnostic::new(wanted.as_str(), 1, 1, message.as_str());
                Step::Finished(Err(pass_up(settings, d, &frames, wanted)))
            },
            Supply::Found { identity, contents } => {
                if set_contains(&open, identity.as_str()) {
                    let d: Diagnostic = Diagnostic::new(
                        wanted.as_str(),
                        1,
                        1,
                        "include cycle detected",
                    );
                    return Step::Finished(Err(pass_up(settings, d, &frames, wanted)));
                }
                let source: Vec<char> = match contents {
                    Ok(source) => chars_of(source.as_str()),
                    Err(reason) => {
                        let mut message: String = "loading manifest: ".to_owned();
                        message.append(reason.as_str());
                        let d: Diagnostic = Diagnostic::new(
                            wanted.as_str(),
                            1,
                            1,
                            message.as_str(),
                        );
                        return Step::Finished(Err(pass_up(settings, d, &frames, wanted)));
                    },
                };
                enter(settings, state, frames, open, wanted, scope, identity, source, true)
            },
        }
    }
}

/// Begins to read a file, and goes on until another one is needed.
fn enter(
    settings: Settings,
    state: State,
    frames: Vec<Frame>,
    open: RapidHashSet<String>,
    path: String,
    scope: usize,
    identity: String,
    source: Vec<char>,
    follow: bool,
) -> (step: Step)
    requires
        all_waiting(frames@, state.manifest.scopes@.len()),
        scope < state.manifest.scopes@.len(),
    ensures
        is_step(
            settings,
            step,
            progress(
                entered(
                    Load {
                        settings,
                        state: state.deep_view(),
                        frames: frame_views(frames@),
                        open: open.deep_view(),
                    },
                    path@,
                    scope as int,
                    identity@,
                    source@,
                ),
                follow,
            ),
        ),
{
    let ghost load = Load {
        settings,
        state: state.deep_view(),
        frames: frame_views(frames@),
        open: open.deep_view(),
    };
    let mut frames: Vec<Frame> = frames;
    let mut open: RapidHashSet<String> = open;
    let ghost before = frames@;
    let lines: Vec<LogicalLine> = logical_lines(source.as_slice());
    set_insert(&mut open, identity.clone());
    let ghost (p, i, s) = (path@, identity@, source@);
    frames.push(
        Frame { path, source, lines, next: 0, scope, parent: Parent::Nothing, identity },
    );
    proof {
        assert(frames@.drop_last() =~= before);
        assert(frame_views(frames@) =~= entered(load, p, scope as int, i, s).frames);
    }
    advance(settings, state, frames, open, follow)
}

/// A load that does not follow other files needs none.
pub proof fn law_single_file_needs_no_other(load: Load)
    ensures
        !(progress(load, false) is Need),
    decreases
            load.frames.len(),
            frame_lines(load.frames.last()).len() - load.frames.last().next,
{
    let n = load.frames.len();
    let top = load.frames.last();
    let all = frame_lines(top);
    if n > 0 {
        if top.next < 0 || top.next >= all.len() {
            if let Ok(state) = ended(load.settings, load.state, top) {
                law_single_file_needs_no_other(
                    Load {
                        state,
                        frames: load.frames.drop_last(),
                        open: load.open.remove(top.identity),
                        ..load
                    },
                );
            }
        } else {
            let (line, raw) = all[top.next];
            match statement::flow(load.settings, top.file, load.state, top.parent, line, raw) {
                FlowView::Fail(d) => {},
                FlowView::Next(state, parent) => {
                    law_single_file_needs_no_other(stepped(load, state, parent));
                },
                FlowView::Load(state, child, fresh) => {
                    law_single_file_needs_no_other(stepped(load, state, ParentView::Nothing));
                },
            }
        }
    }
}

/// Reads a manifest that is one file. Files that it would draw in are left out.
pub fn parse_manifest_with(settings: Settings, source: &str, path: &str) -> (r: Result<
    Manifest,
    Diagnostic,
>)
    ensures
        match r {
            Ok(m) => parsed(settings, source@, path@) == Ok::<ManifestView, DiagnosticView>(
                m.deep_view(),
            ),
            Err(d) => parsed(settings, source@, path@) == Err::<ManifestView, DiagnosticView>(
                d.deep_view(),
            ),
        },
{
    let loader: Loader = Loader::new(settings, path);
    let Loader { settings, state, frames, open, wanted, scope } = loader;
    let ghost load = fresh_load(settings, path@);
    let identity: String = String::new();
    proof {
        reveal_strlit("");
        assert(identity@ =~= seq![]);
        law_single_file_needs_no_other(entered(load, path@, 0, seq![], source@));
    }
    match enter(settings, state, frames, open, wanted, 0, identity, chars_of(source), false) {
        Step::Finished(r) => r,
        Step::More(rest) => conclude(settings, rest.state),
    }
}

/// Reads a manifest that is one file, with POSIX paths.
pub fn parse_manifest(source: &str, path: &str) -> (r: Result<Manifest, Diagnostic>)
    ensures
        ({
            let settings = Settings { ninja: false, windows: false };
            match r {
                Ok(m) => parsed(settings, source@, path@) == Ok::<ManifestView, DiagnosticView>(
                    m.deep_view(),
                ),
                Err(d) => parsed(settings, source@, path@) == Err::<ManifestView, DiagnosticView>(
                    d.deep_view(),
                ),
            }
        }),
{
    parse_manifest_with(Settings { ninja: false, windows: false }, source, path)
}

/// A manifest that was read without error has no path twice among its outputs.
pub proof fn law_parsed_manifest_has_unique_outputs(
    settings: Settings,
    source: Seq<char>,
    path: Seq<char>,
)
    ensures
        parsed(settings, source, path) matches Ok(m) ==> validate::outputs_are_unique(m.edges),
{
    if let Ok(m) = parsed(settings, source, path) {
        validate::law_valid_manifest_has_unique_outputs(m, settings.ninja);
    }
}

/// Whether `identity` is that of a file being read.
pub open spec fn is_being_read(load: Load, identity: Seq<char>) -> bool {
    exists|i: int| 0 <= i < load.frames.len() && #[trigger] load.frames[i].identity == identity
}

/// Whether the files being read are all different, and a load knows them.
pub open spec fn reads_each_once(load: Load) -> bool {
    &&& forall|i: int, j: int|
        0 <= i < j < load.frames.len() ==> #[trigger] load.frames[i].identity
            != #[trigger] load.frames[j].identity
    &&& forall|identity: Seq<char>| #[trigger]
        load.open.contains(identity) <==> is_being_read(load, identity)
}

/// A load that has read nothing reads each file once.
pub proof fn law_fresh_load_reads_each_file_once(settings: Settings, path: Seq<char>)
    ensures
        reads_each_once(fresh_load(settings, path)),
{
}

/// No file is read while it is being read: the files that are open where a
/// load needs another are all different.
pub proof fn law_load_reads_each_file_once(load: Load, follow: bool)
    requires
        reads_each_once(load),
    ensures
        progress(load, follow) matches ProgressView::Need(rest, _, _) ==> reads_each_once(rest),
    decreases
            load.frames.len(),
            frame_lines(load.frames.last()).len() - load.frames.last().next,
{
    let n = load.frames.len();
    let top = load.frames.last();
    let all = frame_lines(top);
    if n > 0 {
        if top.next < 0 || top.next >= all.len() {
            if let Ok(state) = ended(load.settings, load.state, top) {
                let next = Load {
                    state,
                    frames: load.frames.drop_last(),
                    open: load.open.remove(top.identity),
                    ..load
                };
                lemma_closing_reads_once(load, next);
                law_load_reads_each_file_once(next, follow);
            }
        } else {
            let (line, raw) = all[top.next];
            match statement::flow(load.settings, top.file, load.state, top.parent, line, raw) {
                FlowView::Fail(d) => {},
                FlowView::Next(state, parent) => {
                    lemma_stepping_reads_once(load, state, parent);
                    law_load_reads_each_file_once(stepped(load, state, parent), follow);
                },
                FlowView::Load(state, child, fresh) => {
                    lemma_stepping_reads_once(load, state, ParentView::Nothing);
                    lemma_stepping_reads_once(
                        load,
                        with_scope(state, top.file.scope),
                        ParentView::Nothing,
                    );
                    if !follow {
                        law_load_reads_each_file_once(
                            stepped(load, state, ParentView::Nothing),
                            follow,
                        );
                    }
                },
            }
        }
    }
}

/// Going on with a file that was needed, a load still reads each file once.
pub proof fn law_supplied_load_reads_each_file_once(
    load: Load,
    path: Seq<char>,
    scope: int,
    supply: SupplyView,
)
    requires
        reads_each_once(load),
    ensures
        supplied(load, path, scope, supply) matches ProgressView::Need(rest, _, _)
            ==> reads_each_once(rest),
{
    if supply_error(load, path, supply) is None {
        let next = entered(load, path, scope, supply->identity, supply->contents->Ok_0);
        let n = load.frames.len() as int;
        assert forall|identity: Seq<char>| #[trigger]
            next.open.contains(identity) <==> is_being_read(next, identity) by {
            if is_being_read(load, identity) {
                let i = choose|i: int|
                    0 <= i < load.frames.len() && #[trigger] load.frames[i].identity
                        == identity;
                assert(next.frames[i].identity == identity);
            }
            if is_being_read(next, identity) && identity != supply->identity {
                let i = choose|i: int|
                    0 <= i < next.frames.len() && #[trigger] next.frames[i].identity
                        == identity;
                assert(load.frames[i].identity == identity);
            }
            assert(next.frames[n].identity == supply->identity);
        }
        assert forall|i: int, j: int| 0 <= i < j < next.frames.len() implies #[trigger]
            next.frames[i].identity != #[trigger] next.frames[j].identity by {
            assert(load.frames[i].identity == next.frames[i].identity);
            if j < n {
                assert(load.frames[j].identity == next.frames[j].identity);
            } else {
                assert(is_being_read(load, load.frames[i].identity));
                assert(load.open.contains(load.frames[i].identity));
            }
        }
        law_load_reads_each_file_once(next, true);
    }
}

/// A file that is being read cannot be drawn in again, under any name.
pub proof fn law_file_being_read_is_refused(
    load: Load,
    i: int,
    path: Seq<char>,
    scope: int,
    contents: Result<Seq<char>, Seq<char>>,
)
    requires
        reads_each_once(load),
        0 <= i < load.frames.len(),
    ensures
        supply_error(
            load,
            path,
            (SupplyView::Found { identity: load.frames[i].identity, contents }),
        ) == Some(diagnostic::bare_diagnostic(path, 1, 1, "include cycle detected"@)),
{
    assert(is_being_read(load, load.frames[i].identity));
}

proof fn lemma_stepping_reads_once(load: Load, state: StateView, parent: ParentView)
    requires
        reads_each_once(load),
        load.frames.len() > 0,
    ensures
        reads_each_once(stepped(load, state, parent)),
{
    let next = stepped(load, state, parent);
    assert forall|i: int| 0 <= i < load.frames.len() implies #[trigger] next.frames[i].identity
        == load.frames[i].identity by {}
    assert forall|identity: Seq<char>| is_being_read(load, identity) <==> is_being_read(
        next,
        identity,
    ) by {
        if is_being_read(load, identity) {
            let i = choose|i: int|
                0 <= i < load.frames.len() && #[trigger] load.frames[i].identity == identity;
            assert(next.frames[i].identity == identity);
        }
    }
}

proof fn lemma_closing_reads_once(load: Load, next: Load)
    requires
        reads_each_once(load),
        load.frames.len() > 0,
        next.frames == load.frames.drop_last(),
        next.open == load.open.remove(load.frames.last().identity),
    ensures
        reads_each_once(next),
{
    let n = load.frames.len() as int;
    assert forall|identity: Seq<char>| #[trigger]
        next.open.contains(identity) <==> is_being_read(next, identity) by {
        if next.open.contains(identity) {
            assert(load.open.contains(identity));
            let i = choose|i: int|
                0 <= i < load.frames.len() && #[trigger] load.frames[i].identity == identity;
            assert(i != n - 1);
            assert(next.frames[i].identity == identity);
        }
        if is_being_read(next, identity) {
            let i = choose|i: int|
                0 <= i < next.frames.len() && #[trigger] next.frames[i].identity == identity;
            assert(load.frames[i].identity == identity);
            assert(load.frames[i].identity != load.frames[n - 1].identity);
            assert(load.open.contains(identity));
        }
    }
    assert forall|i: int, j: int| 0 <= i < j < next.frames.len() implies #[trigger]
        next.frames[i].identity != #[trigger] next.frames[j].identity by {
        assert(load.frames[i].identity != load.frames[j].identity);
    }
}

} // verus!
