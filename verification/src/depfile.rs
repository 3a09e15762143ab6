//! Depfiles: the Makefile rules that compilers write to list the headers they
//! read.
use crate::collections::set_contains;
use crate::collections::set_insert;
use crate::collections::set_new;
use crate::text;
use crate::text::chars_of;
use crate::text::find_not_in;
use crate::text::in_class;
use crate::text::string_of;
use crate::text::Class;
use rapidhash::RapidHashSet;
use vstd::prelude::*;

verus! {

/// The paths that the rules of a depfile name, each once, in the order in
/// which they first appear.
#[derive(Clone, Debug, Default, PartialEq, Eq)]
pub struct Depfile {
    /// The targets.
    pub outputs: Vec<String>,
    /// The prerequisites.
    pub inputs: Vec<String>,
}

/// What a `Depfile` holds.
#[verifier::ext_equal]
pub struct DepfileView {
    pub outputs: Seq<Seq<char>>,
    pub inputs: Seq<Seq<char>>,
}

impl DeepView for Depfile {
    type V = DepfileView;

    open spec fn deep_view(&self) -> DepfileView {
        DepfileView { outputs: text::strings(self.outputs@), inputs: text::strings(self.inputs@) }
    }
}

/// What ends with a lexical element: nothing, the current path, the current
/// line, or the list of targets.
#[derive(Clone, Copy)]
pub enum Cut {
    Nothing,
    Path,
    Line,
    Targets,
}

/// A lexical element: it adds `slashes` backslashes and then perhaps a
/// character to the current path, makes a cut, and ends before `next`.
/// `content` tells whether it counts as content of the file.
pub struct Element {
    pub slashes: usize,
    pub tail: Option<char>,
    pub cut: Cut,
    pub content: bool,
    pub next: usize,
}

/// The characters that an element adds to the current path.
pub open spec fn added(e: Element) -> Seq<char> {
    let slashes = Seq::new(e.slashes as nat, |i: int| '\\');
    match e.tail {
        Some(c) => slashes.push(c),
        None => slashes,
    }
}

/// Whether `s` ends at `i` or has white space there.
pub open spec fn ends_at(s: Seq<char>, i: int) -> bool {
    i >= s.len() || text::belongs(s[i], Class::AsciiSpace)
}

/// Whether `s` has a carriage return and a line feed at `i`.
pub open spec fn crlf_at(s: Seq<char>, i: int) -> bool {
    i + 1 < s.len() && s[i] == '\r' && s[i + 1] == '\n'
}

pub open spec fn element(
    slashes: int,
    tail: Option<char>,
    cut: Cut,
    content: bool,
    next: int,
) -> Element {
    Element { slashes: slashes as usize, tail, cut, content, next: next as usize }
}

/// The element that a run of `n` backslashes before position `j` begins. An
/// odd run before a space escapes it; a backslash before `#` or `:` quotes
/// that character; before a line's end it continues the line.
pub open spec fn escaped(s: Seq<char>, n: int, j: int) -> Element {
    if j < s.len() && s[j] == ' ' {
        if n % 2 == 1 {
            element(n / 2, Some(' '), Cut::Nothing, true, j + 1)
        } else {
            element(n, None, Cut::Path, false, j + 1)
        }
    } else if j < s.len() && s[j] == '#' {
        element(n - 1, Some('#'), Cut::Nothing, true, j + 1)
    } else if j < s.len() && s[j] == ':' {
        if ends_at(s, j + 1) {
            element(n, None, Cut::Targets, true, j + 1)
        } else {
            element(n - 1, Some(':'), Cut::Nothing, true, j + 1)
        }
    } else if crlf_at(s, j) {
        element(0, None, Cut::Path, false, j + 2)
    } else if j < s.len() && s[j] == '\n' {
        element(0, None, Cut::Path, false, j + 1)
    } else {
        element(n, None, Cut::Nothing, true, j)
    }
}

/// The lexical element of `s` at `i`, where `targets` tells whether a colon may
/// end the list of targets.
pub open spec fn element_at(s: Seq<char>, i: int, targets: bool) -> Element {
    if crlf_at(s, i) {
        element(0, None, Cut::Line, false, i + 2)
    } else if s[i] == '\n' {
        element(0, None, Cut::Line, false, i + 1)
    } else if text::belongs(s[i], Class::AsciiSpace) {
        element(0, None, Cut::Path, false, i + 1)
    } else if s[i] == ':' && targets && ends_at(s, i + 1) {
        element(0, None, Cut::Targets, true, i + 1)
    } else if s[i] == '\\' {
        let j = text::first_not_in(s, i, Class::Is('\\'));
        escaped(s, j - i, j)
    } else if s[i] == '$' && i + 1 < s.len() && s[i + 1] == '$' {
        element(0, Some('$'), Cut::Nothing, true, i + 2)
    } else {
        element(0, Some(s[i]), Cut::Nothing, true, i + 1)
    }
}

/// What has been read of a depfile.
#[verifier::ext_equal]
pub struct Progress {
    /// The path that is being read.
    pub path: Seq<char>,
    /// Whether the paths read are targets.
    pub targets: bool,
    /// Whether a target of this rule is a prerequisite of an earlier one.
    pub poisoned: bool,
    pub found: DepfileView,
    /// Whether a list of targets has ended.
    pub separated: bool,
    /// Whether there was anything but white space.
    pub content: bool,
}

/// `list` with `path` at its end, unless it is there already.
pub open spec fn with(list: Seq<Seq<char>>, path: Seq<char>) -> Seq<Seq<char>> {
    if list.contains(path) {
        list
    } else {
        list.push(path)
    }
}

/// The progress once the current path has ended. `None` is a prerequisite of a
/// poisoned rule.
pub open spec fn ended(p: Progress) -> Option<Progress> {
    if p.path.len() == 0 {
        Some(p)
    } else if p.targets {
        if p.found.inputs.contains(p.path) {
            Some(Progress { path: seq![], poisoned: true, ..p })
        } else {
            Some(
                Progress {
                    path: seq![],
                    found: DepfileView { outputs: with(p.found.outputs, p.path), ..p.found },
                    ..p
                },
            )
        }
    } else if p.poisoned {
        None
    } else {
        Some(
            Progress {
                path: seq![],
                found: DepfileView { inputs: with(p.found.inputs, p.path), ..p.found },
                ..p
            },
        )
    }
}

/// The progress after one more element.
pub open spec fn advanced(p: Progress, e: Element) -> Option<Progress> {
    let longer = Progress { path: p.path + added(e), content: p.content || e.content, ..p };
    match e.cut {
        Cut::Nothing => Some(longer),
        Cut::Path => ended(longer),
        Cut::Line => match ended(longer) {
            Some(q) => Some(Progress { targets: true, poisoned: false, ..q }),
            None => None,
        },
        Cut::Targets => match ended(longer) {
            Some(q) => Some(Progress { targets: false, separated: true, ..q }),
            None => None,
        },
    }
}

/// The progress after all of `s` from `i` on.
pub open spec fn completed(s: Seq<char>, i: int, p: Progress) -> Option<Progress>
    decreases s.len() - i,
{
    if i < 0 || i >= s.len() {
        ended(p)
    } else {
        let e = element_at(s, i, p.targets);
        match advanced(p, e) {
            Some(q) => if i < e.next <= s.len() {
                completed(s, e.next as int, q)
            } else {
                None
            },
            None => None,
        }
    }
}

pub open spec fn start() -> Progress {
    Progress {
        path: seq![],
        targets: true,
        poisoned: false,
        found: DepfileView { outputs: seq![], inputs: seq![] },
        separated: false,
        content: false,
    }
}

/// What a depfile says, or what is wrong with it.
pub open spec fn depfile(s: Seq<char>) -> Result<DepfileView, Seq<char>> {
    match completed(s, 0, start()) {
        Some(p) => if p.content && !p.separated {
            Err("expected ':' in depfile"@)
        } else {
            Ok(p.found)
        },
        None => Err("inputs may not also have inputs"@),
    }
}

fn end_reached(s: &[char], i: usize) -> (r: bool)
    ensures
        r == ends_at(s@, i as int),
{
    i >= s.len() || in_class(s[i], Class::AsciiSpace)
}

fn is_crlf(s: &[char], i: usize) -> (r: bool)
    requires
        i <= s@.len(),
    ensures
        r == crlf_at(s@, i as int),
{
    i < s.len() && s[i] == '\r' && i + 1 < s.len() && s[i + 1] == '\n'
}

/// The element that a run of `n` backslashes before position `j` begins.
fn lex_escape(s: &[char], n: usize, j: usize) -> (e: Element)
    requires
        1 <= n <= j <= s@.len(),
    ensures
        e == escaped(s@, n as int, j as int),
{
    if j < s.len() && s[j] == ' ' {
        if n % 2 == 1 {
            Element {
                slashes: n / 2,
                tail: Some(' '),
                cut: Cut::Nothing,
                content: true,
                next: j + 1,
            }
        } else {
            Element { slashes: n, tail: None, cut: Cut::Path, content: false, next: j + 1 }
        }
    } else if j < s.len() && s[j] == '#' {
        Element { slashes: n - 1, tail: Some('#'), cut: Cut::Nothing, content: true, next: j + 1 }
    } else if j < s.len() && s[j] == ':' {
        if end_reached(s, j + 1) {
            Element { slashes: n, tail: None, cut: Cut::Targets, content: true, next: j + 1 }
        } else {
            Element {
                slashes: n - 1,
                tail: Some(':'),
                cut: Cut::Nothing,
                content: true,
                next: j + 1,
            }
        }
    } else if is_crlf(s, j) {
        Element { slashes: 0, tail: None, cut: Cut::Path, content: false, next: j + 2 }
    } else if j < s.len() && s[j] == '\n' {
        Element { slashes: 0, tail: None, cut: Cut::Path, content: false, next: j + 1 }
    } else {
        Element { slashes: n, tail: None, cut: Cut::Nothing, content: true, next: j }
    }
}

/// The lexical element at `i`.
fn lex(s: &[char], i: usize, targets: bool) -> (e: Element)
    requires
        i < s@.len(),
    ensures
        e == element_at(s@, i as int, targets),
        i < e.next <= s@.len(),
{
    let c: char = s[i];
    if is_crlf(s, i) {
        Element { slashes: 0, tail: None, cut: Cut::Line, content: false, next: i + 2 }
    } else if c == '\n' {
        Element { slashes: 0, tail: None, cut: Cut::Line, content: false, next: i + 1 }
    } else if in_class(c, Class::AsciiSpace) {
        Element { slashes: 0, tail: None, cut: Cut::Path, content: false, next: i + 1 }
    } else if c == ':' && targets && end_reached(s, i + 1) {
        Element { slashes: 0, tail: None, cut: Cut::Targets, content: true, next: i + 1 }
    } else if c == '\\' {
        let j: usize = find_not_in(s, i, Class::Is('\\'));
        lex_escape(s, j - i, j)
    } else if c == '$' && i + 1 < s.len() && s[i + 1] == '$' {
        Element { slashes: 0, tail: Some('$'), cut: Cut::Nothing, content: true, next: i + 2 }
    } else {
        Element { slashes: 0, tail: Some(c), cut: Cut::Nothing, content: true, next: i + 1 }
    }
}

/// The state of a reader: what it has found, with the two lists as sets too.
struct Reader {
    path: Vec<char>,
    targets: bool,
    poisoned: bool,
    found: Depfile,
    outputs: RapidHashSet<String>,
    inputs: RapidHashSet<String>,
    separated: bool,
    content: bool,
}

impl Reader {
    spec fn progress(&self) -> Progress {
        Progress {
            path: self.path@,
            targets: self.targets,
            poisoned: self.poisoned,
            found: self.found.deep_view(),
            separated: self.separated,
            content: self.content,
        }
    }

    spec fn well_formed(&self) -> bool {
        &&& forall|x: Seq<char>|
            #![trigger self.outputs.deep_view().contains(x)]
            self.outputs.deep_view().contains(x) == self.found.deep_view().outputs.contains(x)
        &&& forall|x: Seq<char>|
            #![trigger self.inputs.deep_view().contains(x)]
            self.inputs.deep_view().contains(x) == self.found.deep_view().inputs.contains(x)
    }

    fn new() -> (r: Reader)
        ensures
            r.progress() == start(),
            r.well_formed(),
    {
        Reader {
            path: Vec::new(),
            targets: true,
            poisoned: false,
            found: Depfile { outputs: Vec::new(), inputs: Vec::new() },
            outputs: set_new(),
            inputs: set_new(),
            separated: false,
            content: false,
        }
    }

    /// Ends the current path. On `false` a poisoned rule has a prerequisite.
    fn flush_token(&mut self) -> (ok: bool)
        requires
            old(self).well_formed(),
        ensures
            ok == (ended(old(self).progress()) is Some),
            ok ==> final(self).well_formed() && ended(old(self).progress()) == Some(
                final(self).progress(),
            ),
    {
        if self.path.len() == 0 {
            return true;
        }
        let value: String = string_of(self.path.as_slice());
        let ghost before = *self;
        self.path = Vec::new();
        if self.targets {
            if set_contains(&self.inputs, value.as_str()) {
                self.poisoned = true;
            } else if set_insert(&mut self.outputs, value.clone()) {
                self.found.outputs.push(value);
                proof {
                    let list = before.found.deep_view().outputs;
                    assert(self.found.deep_view().outputs =~= list.push(value@));
                    lemma_push_contains(list, value@);
                }
            }
        } else {
            if self.poisoned {
                return false;
            }
            if set_insert(&mut self.inputs, value.clone()) {
                self.found.inputs.push(value);
                proof {
                    let list = before.found.deep_view().inputs;
                    assert(self.found.deep_view().inputs =~= list.push(value@));
                    lemma_push_contains(list, value@);
                }
            }
        }
        proof {
            assert(ended(before.progress()) == Some(self.progress()));
        }
        true
    }

    /// Takes in one element. On `false` a poisoned rule has a prerequisite.
    fn take_element(&mut self, e: Element) -> (ok: bool)
        requires
            old(self).well_formed(),
        ensures
            ok == (advanced(old(self).progress(), e) is Some),
            ok ==> final(self).well_formed() && advanced(old(self).progress(), e) == Some(
                final(self).progress(),
            ),
    {
        let ghost before = *self;
        let mut i: usize = 0;
        while i < e.slashes
            invariant
                i <= e.slashes,
                self.path@ =~= before.path@ + Seq::new(i as nat, |i: int| '\\'),
                *self == (Reader { path: self.path, ..before }),
            decreases e.slashes - i,
        {
            self.path.push('\\');
            i += 1;
        }
        if let Some(c) = e.tail {
            self.path.push(c);
        }
        if e.content {
            self.content = true;
        }
        proof {
            assert(self.path@ =~= before.path@ + added(e));
        }
        match e.cut {
            Cut::Nothing => true,
            Cut::Path => self.flush_token(),
            Cut::Line => {
                let ok: bool = self.flush_token();
                self.targets = true;
                self.poisoned = false;
                ok
            },
            Cut::Targets => {
                let ok: bool = self.flush_token();
                self.targets = false;
                self.separated = true;
                ok
            },
        }
    }
}

proof fn lemma_push_contains(list: Seq<Seq<char>>, path: Seq<char>)
    ensures
        forall|x: Seq<char>| #[trigger]
            list.push(path).contains(x) == (list.contains(x) || x == path),
{
    assert forall|x: Seq<char>| #[trigger]
        list.push(path).contains(x) == (list.contains(x) || x == path) by {
        if list.contains(x) {
            let i = choose|i: int| 0 <= i < list.len() && list[i] == x;
            assert(list.push(path)[i] == x);
        }
        if x == path {
            assert(list.push(path)[list.len() as int] == x);
        }
        if list.push(path).contains(x) && x != path {
            let i = choose|i: int| 0 <= i < list.push(path).len() && list.push(path)[i] == x;
            assert(list[i] == x);
        }
    }
}

/// Parses a depfile.
pub fn parse_depfile(source: &str) -> (r: Result<Depfile, String>)
    ensures
        match r {
            Ok(d) => depfile(source@) == Ok::<DepfileView, Seq<char>>(d.deep_view()),
            Err(message) => depfile(source@) == Err::<DepfileView, Seq<char>>(message@),
        },
{
    let chars: Vec<char> = chars_of(source);
    let s: &[char] = chars.as_slice();
    let mut reader: Reader = Reader::new();
    let mut i: usize = 0;
    while i < s.len()
        invariant
            s@ == source@,
            i <= s@.len(),
            reader.well_formed(),
            completed(s@, 0, start()) == completed(s@, i as int, reader.progress()),
        decreases s@.len() - i,
    {
        let e: Element = lex(s, i, reader.targets);
        let next: usize = e.next;
        if !reader.take_element(e) {
            return Err("inputs may not also have inputs".to_owned());
        }
        i = next;
    }
    if !reader.flush_token() {
        return Err("inputs may not also have inputs".to_owned());
    }
    if reader.content && !reader.separated {
        Err("expected ':' in depfile".to_owned())
    } else {
        Ok(reader.found)
    }
}

/// No path is listed twice.
pub open spec fn listed_once(d: DepfileView) -> bool {
    d.outputs.no_duplicates() && d.inputs.no_duplicates()
}

proof fn lemma_completed_lists_once(s: Seq<char>, i: int, p: Progress)
    requires
        listed_once(p.found),
        completed(s, i, p) is Some,
    ensures
        listed_once(completed(s, i, p)->0.found),
    decreases s.len() - i,
{
    if 0 <= i < s.len() {
        let e = element_at(s, i, p.targets);
        lemma_completed_lists_once(s, e.next as int, advanced(p, e)->0);
    }
}

/// A depfile yields each target and each prerequisite once, however often its
/// rules repeat them.
pub proof fn law_paths_are_listed_once(s: Seq<char>)
    ensures
        match depfile(s) {
            Ok(d) => listed_once(d),
            Err(_) => true,
        },
{
    if depfile(s) is Ok {
        lemma_completed_lists_once(s, 0, start());
    }
}

/// Where position `i` of `s` lies in `with_returns(s)`.
spec fn place(s: Seq<char>, i: int) -> int {
    text::with_returns(s.take(i)).len() as int
}

proof fn lemma_place(s: Seq<char>, i: int)
    requires
        0 <= i < s.len(),
    ensures
        place(s, i + 1) == place(s, i) + text::returned(s[i]).len(),
        place(s, i + 1) <= text::with_returns(s).len(),
        text::with_returns(s).subrange(place(s, i), place(s, i + 1)) == text::returned(s[i]),
        i <= place(s, i),
    decreases s.len(),
{
    let t = text::with_returns(s);
    assert(s.take(i + 1).drop_last() =~= s.take(i));
    lemma_place_after(s, i);
    if i + 1 == s.len() {
        assert(s.take(i + 1) =~= s);
        assert(t.subrange(place(s, i), place(s, i + 1)) =~= text::returned(s[i]));
    } else {
        let shorter = s.drop_last();
        lemma_place(shorter, i);
        assert(shorter.take(i) =~= s.take(i));
        assert(shorter.take(i + 1) =~= s.take(i + 1));
        assert(t.subrange(place(s, i), place(s, i + 1)) =~= text::with_returns(shorter).subrange(
            place(s, i),
            place(s, i + 1),
        ));
    }
}

proof fn lemma_place_after(s: Seq<char>, i: int)
    requires
        0 <= i <= s.len(),
    ensures
        i <= place(s, i),
    decreases i,
{
    if i > 0 {
        assert(s.take(i).drop_last() =~= s.take(i - 1));
        lemma_place_after(s, i - 1);
    }
}

/// What stands at a position of `s` and in its place.
proof fn lemma_stands(s: Seq<char>, i: int)
    requires
        0 <= i <= s.len(),
        !s.contains('\r'),
    ensures
        i < s.len() <==> place(s, i) < text::with_returns(s).len(),
        place(s, i) <= text::with_returns(s).len(),
        i < s.len() && s[i] != '\n' ==> text::with_returns(s)[place(s, i)] == s[i] && place(s, i + 1)
            == place(s, i) + 1,
        i < s.len() && s[i] == '\n' ==> text::with_returns(s)[place(s, i)] == '\r' && text::with_returns(
            s,
        )[place(s, i) + 1] == '\n' && place(s, i + 1) == place(s, i) + 2,
        i < s.len() ==> s[i] != '\r',
        crlf_at(text::with_returns(s), place(s, i)) <==> i < s.len() && s[i] == '\n',
        !crlf_at(s, i),
        ends_at(s, i) == ends_at(text::with_returns(s), place(s, i)),
        i <= place(s, i),
{
    let t = text::with_returns(s);
    lemma_place_after(s, i);
    if i < s.len() {
        lemma_place(s, i);
        assert(s.contains(s[i]));
        let piece = t.subrange(place(s, i), place(s, i + 1));
        assert(piece[0] == t[place(s, i)]);
        if s[i] == '\n' {
            assert(piece[1] == t[place(s, i) + 1]);
        }
    } else {
        assert(s.take(i) =~= s);
    }
}

proof fn lemma_slashes_stand(s: Seq<char>, i: int)
    requires
        0 <= i <= s.len(),
        !s.contains('\r'),
    ensures
        ({
            let j = text::first_not_in(s, i, Class::Is('\\'));
            &&& i <= j <= s.len()
            &&& text::first_not_in(text::with_returns(s), place(s, i), Class::Is('\\')) == place(s, j)
            &&& place(s, j) - place(s, i) == j - i
        }),
    decreases s.len() - i,
{
    lemma_stands(s, i);
    if i < s.len() && s[i] == '\\' {
        lemma_slashes_stand(s, i + 1);
    }
}

proof fn lemma_element_stands(s: Seq<char>, i: int, targets: bool)
    requires
        0 <= i < s.len(),
        !s.contains('\r'),
        text::with_returns(s).len() <= usize::MAX,
    ensures
        ({
            let a = element_at(s, i, targets);
            let b = element_at(text::with_returns(s), place(s, i), targets);
            &&& i < a.next <= s.len()
            &&& b == (Element { next: place(s, a.next as int) as usize, ..a })
            &&& place(s, i) < place(s, a.next as int) <= text::with_returns(s).len()
        }),
{
    lemma_stands(s, i);
    lemma_stands(s, i + 1);
    lemma_stands(s, s.len() as int);
    assert(s.len() <= usize::MAX);
    if s[i] == '\\' {
        lemma_slashes_stand(s, i);
        let j = text::first_not_in(s, i, Class::Is('\\'));
        text::lemma_first_not_in(s, i, Class::Is('\\'));
        assert(j > i);
        lemma_stands(s, j);
        if j < s.len() {
            lemma_stands(s, j + 1);
        }
    } else if s[i] == '$' && i + 1 < s.len() && s[i + 1] == '$' {
        lemma_stands(s, i + 2);
    }
}

proof fn lemma_returns_read_alike(s: Seq<char>, i: int, p: Progress)
    requires
        0 <= i <= s.len(),
        !s.contains('\r'),
        text::with_returns(s).len() <= usize::MAX,
    ensures
        completed(text::with_returns(s), place(s, i), p) == completed(s, i, p),
    decreases s.len() - i,
{
    lemma_stands(s, i);
    if i < s.len() {
        lemma_element_stands(s, i, p.targets);
        let a = element_at(s, i, p.targets);
        let b = element_at(text::with_returns(s), place(s, i), p.targets);
        assert(added(a) =~= added(b));
        assert(advanced(p, a) == advanced(p, b));
        if advanced(p, a) is Some {
            lemma_returns_read_alike(s, a.next as int, advanced(p, a)->0);
        }
    }
}

/// A depfile says the same whether its lines end with line feeds alone or with carriage
/// returns before them.
pub proof fn law_line_ends_do_not_matter(s: Seq<char>)
    requires
        !s.contains('\r'),
        text::with_returns(s).len() <= usize::MAX,
    ensures
        depfile(text::with_returns(s)) == depfile(s),
{
    assert(s.take(0) =~= seq![]);
    assert(place(s, 0) == 0);
    lemma_returns_read_alike(s, 0, start());
}

} // verus!
