//! What can be relied on where depfiles are read: what compilers write is read back.
use crate::depfile;
use crate::depfile::Cut;
use crate::depfile::DepfileView;
use crate::depfile::Progress;
use crate::text;
use crate::text::Class;
use vstd::prelude::*;

verus! {

/// How a character of a path is written in a depfile.
pub open spec fn written(c: char) -> Seq<char> {
    if c == ' ' || c == '#' {
        seq!['\\', c]
    } else if c == '$' {
        seq!['$', '$']
    } else {
        seq![c]
    }
}

/// How the characters of a path from `x` on are written in a depfile.
pub open spec fn written_path(path: Seq<char>, x: int) -> Seq<char>
    decreases path.len() - x,
{
    if x < 0 || x >= path.len() {
        seq![]
    } else {
        written(path[x]) + written_path(path, x + 1)
    }
}

/// Whether a path can be written: it is not empty, has no white space but spaces, does not end
/// with a colon, and has backslashes only before characters that they do not escape.
pub open spec fn is_writable(path: Seq<char>) -> bool {
    &&& path.len() > 0
    &&& path.last() != ':'
    &&& forall|i: int|
        0 <= i < path.len() ==> #[trigger] path[i] != '\t' && path[i] != '\n' && path[i] != '\r'
            && path[i] != '\u{c}'
    &&& path.last() != '\\'
    &&& forall|i: int, next: int|
        0 <= i && next == i + 1 && next < path.len() && #[trigger] path[i] == '\\'
            ==> #[trigger] path[next] != ' ' && path[next] != '#' && path[next] != ':'
}

/// A rule of a depfile: its targets and its prerequisites, and what stands before each
/// prerequisite.
pub struct Rule {
    pub targets: Seq<Seq<char>>,
    pub inputs: Seq<Seq<char>>,
    pub gaps: Seq<Seq<char>>,
}

/// Whether a text parts prerequisites: a space, or the end of a line that is continued.
pub open spec fn is_gap(gap: Seq<char>) -> bool {
    gap == seq![' '] || gap == seq![' ', '\\', '\n', ' ']
}

pub open spec fn is_rule(rule: Rule) -> bool {
    &&& rule.targets.len() > 0
    &&& rule.gaps.len() == rule.inputs.len()
    &&& forall|i: int| 0 <= i < rule.targets.len() ==> is_writable(#[trigger] rule.targets[i])
    &&& forall|i: int| 0 <= i < rule.inputs.len() ==> is_writable(#[trigger] rule.inputs[i])
    &&& forall|i: int| 0 <= i < rule.gaps.len() ==> is_gap(#[trigger] rule.gaps[i])
}

/// Targets from `k` on, with a colon behind the last.
pub open spec fn written_targets(targets: Seq<Seq<char>>, k: int) -> Seq<char>
    decreases targets.len() - k,
{
    if k < 0 || k >= targets.len() {
        seq![]
    } else {
        written_path(targets[k], 0) + seq![
            if k + 1 < targets.len() {
                ' '
            } else {
                ':'
            },
        ] + written_targets(targets, k + 1)
    }
}

/// Prerequisites from `k` on, and the end of their line.
pub open spec fn written_inputs(rule: Rule, k: int) -> Seq<char>
    decreases rule.inputs.len() - k,
{
    if k < 0 || k >= rule.inputs.len() {
        seq!['\n']
    } else {
        rule.gaps[k] + written_path(rule.inputs[k], 0) + written_inputs(rule, k + 1)
    }
}

/// Rules from `r` on.
pub open spec fn written_rules(rules: Seq<Rule>, r: int) -> Seq<char>
    decreases rules.len() - r,
{
    if r < 0 || r >= rules.len() {
        seq![]
    } else {
        written_targets(rules[r].targets, 0) + written_inputs(rules[r], 0) + written_rules(
            rules,
            r + 1,
        )
    }
}

/// Whether a path is a prerequisite of one of the first `n` rules.
pub open spec fn is_input(rules: Seq<Rule>, n: int, path: Seq<char>) -> bool {
    exists|r: int| 0 <= r < n && (#[trigger] rules[r]).inputs.contains(path)
}

/// Whether a path is a target of one of the first `n` rules, and no prerequisite of a rule
/// before it.
pub open spec fn is_output(rules: Seq<Rule>, n: int, path: Seq<char>) -> bool {
    exists|r: int|
        0 <= r < n && (#[trigger] rules[r]).targets.contains(path) && !is_input(rules, r, path)
}

/// Whether rule `r` has prerequisites though a target of it is a prerequisite of a rule before
/// it.
pub open spec fn is_forbidden(rules: Seq<Rule>, r: int) -> bool {
    rules[r].inputs.len() > 0 && exists|i: int|
        0 <= i < rules[r].targets.len() && is_input(rules, r, #[trigger] rules[r].targets[i])
}

/// All targets of the first `n` rules, one behind the other.
pub open spec fn all_targets(rules: Seq<Rule>, n: int) -> Seq<Seq<char>>
    decreases n,
{
    if n <= 0 {
        seq![]
    } else {
        all_targets(rules, n - 1) + rules[n - 1].targets
    }
}

/// All prerequisites of the first `n` rules, one behind the other.
pub open spec fn all_inputs(rules: Seq<Rule>, n: int) -> Seq<Seq<char>>
    decreases n,
{
    if n <= 0 {
        seq![]
    } else {
        all_inputs(rules, n - 1) + rules[n - 1].inputs
    }
}

proof fn lemma_rest(s: Seq<char>, i: int, a: Seq<char>, b: Seq<char>)
    requires
        0 <= i <= s.len(),
        s.skip(i) == a + b,
    ensures
        i + a.len() <= s.len(),
        s.skip(i + a.len()) == b,
{
    let t = s.skip(i);
    assert(t.len() == s.len() - i);
    assert((a + b).len() == a.len() + b.len());
    let rest = s.skip(i + a.len());
    assert forall|z: int| 0 <= z < b.len() implies #[trigger] rest[z] == b[z] by {
        assert(t[z + a.len()] == (a + b)[z + a.len()]);
    }
    assert(rest =~= b);
}

proof fn lemma_written_head(path: Seq<char>, x: int)
    requires
        0 <= x < path.len(),
    ensures
        written_path(path, x).len() > 0,
        path[x] == '\\' || (path[x] != ' ' && path[x] != '#') ==> written_path(path, x)[0]
            == path[x],
        path[x] == ' ' || path[x] == '#' ==> written_path(path, x)[0] == '\\',
{
}

/// A run of backslashes is written as it is.
proof fn lemma_slashes(s: Seq<char>, i: int, path: Seq<char>, x: int, rest: Seq<char>) -> (y: int)
    requires
        0 <= i <= s.len(),
        0 <= x < path.len(),
        is_writable(path),
        path[x] == '\\',
        s.skip(i) == written_path(path, x) + rest,
    ensures
        x < y < path.len(),
        forall|z: int| x <= z < y ==> #[trigger] path[z] == '\\',
        path[y] != '\\',
        text::first_not_in(s, i, Class::Is('\\')) == i + (y - x),
        s.skip(i + (y - x)) == written_path(path, y) + rest,
        i + (y - x) < s.len(),
    decreases path.len() - x,
{
    lemma_written_head(path, x);
    let t = s.skip(i);
    assert(t.len() == s.len() - i);
    assert(t.len() == written_path(path, x).len() + rest.len());
    assert(t[0] == '\\');
    assert(s[i] == '\\');
    assert(x + 1 < path.len());
    assert(written_path(path, x) =~= seq!['\\'] + written_path(path, x + 1));
    assert(t =~= seq!['\\'] + (written_path(path, x + 1) + rest));
    lemma_rest(s, i, seq!['\\'], written_path(path, x + 1) + rest);
    let next = x + 1;
    lemma_written_head(path, next);
    if path[next] == '\\' {
        let y = lemma_slashes(s, i + 1, path, next, rest);
        y
    } else {
        assert(path[x] == '\\' && path[next] != ' ' && path[next] != '#');
        assert(s.skip(i + 1)[0] == path[next]);
        assert(s[i + 1] == path[next]);
        reveal_with_fuel(text::first_not_in, 3);
        next
    }
}

/// The progress once a path has been read.
spec fn with_path(p: Progress, path: Seq<char>) -> Progress {
    Progress { path: p.path + path, content: true, ..p }
}

/// What is read first of a path that is written.
spec fn reads(
    s: Seq<char>,
    i: int,
    targets: bool,
    n: int,
    piece: Seq<char>,
    behind: Seq<char>,
) -> bool {
    let e = depfile::element_at(s, i, targets);
    &&& 0 < n
    &&& i + n <= s.len()
    &&& e.next == i + n
    &&& e.content
    &&& e.cut == Cut::Nothing
    &&& depfile::added(e) == piece
    &&& s.skip(i + n) == behind
}

proof fn lemma_slashes_are_read(
    s: Seq<char>,
    i: int,
    path: Seq<char>,
    x: int,
    rest: Seq<char>,
    targets: bool,
) -> (y: int)
    requires
        0 <= i <= s.len() <= usize::MAX,
        0 <= x < path.len(),
        is_writable(path),
        path[x] == '\\',
        s.skip(i) == written_path(path, x) + rest,
    ensures
        x < y <= path.len(),
        reads(s, i, targets, y - x, path.subrange(x, y), written_path(path, y) + rest),
{
    let y = lemma_slashes(s, i, path, x, rest);
    let j = i + (y - x);
    let t = s.skip(i);
    assert(t.len() == s.len() - i);
    lemma_written_head(path, x);
    lemma_written_head(path, y);
    assert(t[0] == s[i]);
    assert(s[i] == '\\');
    let before = y - 1;
    assert(path[before] == '\\');
    assert(path[y] != ' ' && path[y] != '#' && path[y] != ':');
    assert(s.skip(j).len() == s.len() - j);
    assert(s[j] == s.skip(j)[0]);
    assert(s[j] == path[y]);
    assert(s[j] != '\n' && s[j] != '\r');
    let e = depfile::element_at(s, i, targets);
    assert(depfile::added(e) =~= path.subrange(x, y));
    y
}

proof fn lemma_other_is_read(
    s: Seq<char>,
    i: int,
    path: Seq<char>,
    x: int,
    rest: Seq<char>,
    targets: bool,
)
    requires
        0 <= i <= s.len() <= usize::MAX,
        0 <= x < path.len(),
        is_writable(path),
        path[x] != '\\',
        rest.len() > 0,
        s.skip(i) == written_path(path, x) + rest,
    ensures
        reads(
            s,
            i,
            targets,
            written(path[x]).len() as int,
            seq![path[x]],
            written_path(path, x + 1) + rest,
        ),
{
    let c = path[x];
    let head = written(c);
    let n = head.len() as int;
    let behind = written_path(path, x + 1) + rest;
    let t = s.skip(i);
    assert(t.len() == s.len() - i);
    assert(t =~= head + behind);
    lemma_rest(s, i, head, behind);
    assert(t[0] == head[0]);
    assert(s[i] == head[0]);
    assert(c != '\t' && c != '\n' && c != '\r' && c != '\u{c}');
    let e = depfile::element_at(s, i, targets);
    if n == 2 {
        assert(t[1] == head[1]);
        assert(s[i + 1] == head[1]);
    }
    if c == ' ' || c == '#' {
        assert(text::first_not_in(s, i, Class::Is('\\')) == i + 1) by {
            reveal_with_fuel(text::first_not_in, 3);
        }
    } else if c == ':' {
        assert(x + 1 < path.len());
        lemma_written_head(path, x + 1);
        assert(s.skip(i + n).len() == s.len() - (i + n));
        assert(s[i + 1] == s.skip(i + n)[0]);
        assert(s[i + 1] == written_path(path, x + 1)[0]);
        let follows = path[x + 1];
        assert(follows != '\t' && follows != '\n' && follows != '\r' && follows != '\u{c}');
    }
    assert(depfile::added(e) =~= seq![c]);
}

proof fn lemma_path_is_read(
    s: Seq<char>,
    i: int,
    path: Seq<char>,
    x: int,
    rest: Seq<char>,
    p: Progress,
)
    requires
        0 <= i <= s.len() <= usize::MAX,
        0 <= x < path.len(),
        is_writable(path),
        rest.len() > 0,
        s.skip(i) == written_path(path, x) + rest,
    ensures
        i + written_path(path, x).len() < s.len(),
        depfile::completed(s, i, p) == depfile::completed(
            s,
            i + written_path(path, x).len(),
            with_path(p, path.skip(x)),
        ),
        s.skip(i + written_path(path, x).len()) == rest,
    decreases path.len() - x,
{
    let w = written_path(path, x);
    lemma_rest(s, i, w, rest);
    assert(s.skip(i + w.len()).len() == s.len() - (i + w.len()));
    let y = if path[x] == '\\' {
        lemma_slashes_are_read(s, i, path, x, rest, p.targets)
    } else {
        lemma_other_is_read(s, i, path, x, rest, p.targets);
        assert(path.subrange(x, x + 1) =~= seq![path[x]]);
        x + 1
    };
    let n = if path[x] == '\\' {
        y - x
    } else {
        written(path[x]).len() as int
    };
    let piece = path.subrange(x, y);
    let behind = written_path(path, y);
    assert(reads(s, i, p.targets, n, piece, behind + rest));
    let e = depfile::element_at(s, i, p.targets);
    let q = with_path(p, piece);
    assert(depfile::advanced(p, e) == Some(q));
    assert(w.len() > 0) by {
        lemma_written_head(path, x);
    }
    assert(i < s.len());
    assert(depfile::completed(s, i, p) == depfile::completed(s, i + n, q));
    assert(s.skip(i + n).len() == s.len() - (i + n));
    assert(w.len() == n + behind.len());
    if y < path.len() {
        lemma_path_is_read(s, i + n, path, y, rest, q);
        assert(q.path + path.skip(y) =~= p.path + path.skip(x));
        assert(with_path(q, path.skip(y)) == with_path(p, path.skip(x)));
    } else {
        assert(behind =~= seq![]);
        assert(piece =~= path.skip(x));
    }
}

/// Outputs once targets from `k` on are among them, but for those among `inputs`.
spec fn outputs_with(
    list: Seq<Seq<char>>,
    targets: Seq<Seq<char>>,
    k: int,
    inputs: Seq<Seq<char>>,
) -> Seq<Seq<char>>
    decreases targets.len() - k,
{
    if k < 0 || k >= targets.len() {
        list
    } else {
        outputs_with(
            if inputs.contains(targets[k]) {
                list
            } else {
                depfile::with(list, targets[k])
            },
            targets,
            k + 1,
            inputs,
        )
    }
}

spec fn any_among(targets: Seq<Seq<char>>, k: int, inputs: Seq<Seq<char>>) -> bool {
    exists|i: int| k <= i < targets.len() && inputs.contains(#[trigger] targets[i])
}

/// Inputs once prerequisites from `k` on are among them.
spec fn inputs_with(list: Seq<Seq<char>>, inputs: Seq<Seq<char>>, k: int) -> Seq<Seq<char>>
    decreases inputs.len() - k,
{
    if k < 0 || k >= inputs.len() {
        list
    } else {
        inputs_with(depfile::with(list, inputs[k]), inputs, k + 1)
    }
}

proof fn lemma_targets_are_read(
    s: Seq<char>,
    i: int,
    rule: Rule,
    k: int,
    rest: Seq<char>,
    p: Progress,
)
    requires
        0 <= i <= s.len() <= usize::MAX,
        is_rule(rule),
        0 <= k < rule.targets.len(),
        rest.len() > 0,
        rest[0] == ' ' || rest[0] == '\n',
        s.skip(i) == written_targets(rule.targets, k) + rest,
        p.targets,
        p.path == Seq::<char>::empty(),
    ensures
        ({
            let n = written_targets(rule.targets, k).len();
            &&& i + n < s.len()
            &&& s.skip(i + n) == rest
            &&& depfile::completed(s, i, p) == depfile::completed(
                s,
                i + n,
                Progress {
                    targets: false,
                    separated: true,
                    content: true,
                    poisoned: p.poisoned || any_among(rule.targets, k, p.found.inputs),
                    found: DepfileView {
                        outputs: outputs_with(
                            p.found.outputs,
                            rule.targets,
                            k,
                            p.found.inputs,
                        ),
                        ..p.found
                    },
                    ..p
                },
            )
        }),
    decreases rule.targets.len() - k,
{
    let ts = rule.targets;
    let path = ts[k];
    let last = k + 1 >= ts.len();
    let mark = if last {
        ':'
    } else {
        ' '
    };
    let tail = written_targets(ts, k + 1) + rest;
    assert(is_writable(ts[k]));
    let w = written_path(path, 0);
    assert(s.skip(i) =~= w + (seq![mark] + tail));
    lemma_path_is_read(s, i, path, 0, seq![mark] + tail, p);
    assert(path.skip(0) =~= path);
    let j = i + w.len();
    let q = with_path(p, path);
    assert(q.path =~= path);
    assert(s[j] == s.skip(j)[0]);
    assert(s[j] == mark);
    lemma_rest(s, j, seq![mark], tail);
    let e = depfile::element_at(s, j, true);
    if last {
        assert(written_targets(ts, k + 1) =~= seq![]);
        assert(tail =~= rest);
        assert(s[j + 1] == s.skip(j + 1)[0]);
        assert(depfile::ends_at(s, j + 1));
        assert(e.cut == Cut::Targets && e.next == j + 1);
    } else {
        assert(e.cut == Cut::Path && e.next == j + 1);
    }
    assert(depfile::added(e) =~= seq![]);
    assert(q.path + depfile::added(e) =~= path);
    let list = if p.found.inputs.contains(path) {
        p.found.outputs
    } else {
        depfile::with(p.found.outputs, path)
    };
    let after = Progress {
        path: seq![],
        content: true,
        poisoned: p.poisoned || p.found.inputs.contains(path),
        found: DepfileView { outputs: list, ..p.found },
        targets: !last,
        separated: p.separated || last,
        ..p
    };
    assert(depfile::advanced(q, e) == Some(after));
    assert(depfile::completed(s, j, q) == depfile::completed(s, j + 1, after));
    assert(any_among(ts, k, p.found.inputs) <==> p.found.inputs.contains(path) || any_among(
        ts,
        k + 1,
        p.found.inputs,
    )) by {
        if any_among(ts, k, p.found.inputs) {
            let x = choose|x: int|
                k <= x < ts.len() && p.found.inputs.contains(#[trigger] ts[x]);
            if x > k {
                assert(any_among(ts, k + 1, p.found.inputs));
            }
        }
    }
    assert(written_targets(ts, k).len() == w.len() + 1 + written_targets(ts, k + 1).len());
    assert(s.skip(j + 1).len() == s.len() - (j + 1));
    if !last {
        lemma_targets_are_read(s, j + 1, rule, k + 1, rest, after);
    } else {
        assert(!any_among(ts, k + 1, p.found.inputs));
        assert(outputs_with(list, ts, k + 1, p.found.inputs) == list);
        assert(p.path =~= seq![]);
    }
}

proof fn lemma_gap_is_read(s: Seq<char>, i: int, gap: Seq<char>, rest: Seq<char>, p: Progress)
    requires
        0 <= i <= s.len() <= usize::MAX,
        is_gap(gap),
        rest.len() > 0,
        s.skip(i) == gap + rest,
        !p.targets,
        depfile::ended(p) is Some,
    ensures
        i + gap.len() < s.len(),
        s.skip(i + gap.len()) == rest,
        depfile::completed(s, i, p) == depfile::completed(
            s,
            i + gap.len(),
            depfile::ended(p)->Some_0,
        ),
{
    let t = s.skip(i);
    let q = depfile::ended(p)->Some_0;
    assert(t.len() == s.len() - i);
    assert(t.len() == gap.len() + rest.len());
    assert(t[0] == gap[0]);
    assert(s[i] == ' ');
    let e = depfile::element_at(s, i, false);
    assert(depfile::added(e) =~= seq![]);
    assert(p.path + depfile::added(e) =~= p.path);
    assert(depfile::advanced(p, e) == Some(q));
    assert(depfile::completed(s, i, p) == depfile::completed(s, i + 1, q));
    lemma_rest(s, i, gap, rest);
    if gap.len() > 1 {
        assert(gap == seq![' ', '\\', '\n', ' ']);
        assert(t[1] == gap[1] && t[2] == gap[2] && t[3] == gap[3]);
        assert(s[i + 1] == '\\' && s[i + 2] == '\n' && s[i + 3] == ' ');
        let f = depfile::element_at(s, i + 1, false);
        assert(text::first_not_in(s, i + 1, Class::Is('\\')) == i + 2) by {
            reveal_with_fuel(text::first_not_in, 3);
        }
        assert(depfile::added(f) =~= seq![]);
        assert(q.path =~= seq![]);
        assert(q.path + depfile::added(f) =~= q.path);
        assert(depfile::ended(q) == Some(q));
        assert(depfile::advanced(q, f) == Some(q));
        assert(depfile::completed(s, i + 1, q) == depfile::completed(s, i + 3, q));
        let g = depfile::element_at(s, i + 3, false);
        assert(depfile::added(g) =~= seq![]);
        assert(depfile::advanced(q, g) == Some(q));
        assert(depfile::completed(s, i + 3, q) == depfile::completed(s, i + 4, q));
    }
}

/// The inputs once the current path is among them.
spec fn inputs_ended(p: Progress) -> Seq<Seq<char>> {
    if p.path.len() == 0 {
        p.found.inputs
    } else {
        depfile::with(p.found.inputs, p.path)
    }
}

proof fn lemma_inputs_are_read(
    s: Seq<char>,
    i: int,
    rule: Rule,
    k: int,
    rest: Seq<char>,
    p: Progress,
)
    requires
        0 <= i <= s.len() <= usize::MAX,
        is_rule(rule),
        0 <= k <= rule.inputs.len(),
        s.skip(i) == written_inputs(rule, k) + rest,
        !p.targets,
        p.content,
        k < rule.inputs.len() || p.path.len() > 0 ==> !p.poisoned,
    ensures
        ({
            let n = written_inputs(rule, k).len();
            &&& i + n <= s.len()
            &&& s.skip(i + n) == rest
            &&& depfile::completed(s, i, p) == depfile::completed(
                s,
                i + n,
                Progress {
                    path: seq![],
                    targets: true,
                    poisoned: false,
                    found: DepfileView {
                        inputs: inputs_with(inputs_ended(p), rule.inputs, k),
                        ..p.found
                    },
                    ..p
                },
            )
        }),
    decreases rule.inputs.len() - k,
{
    let t = s.skip(i);
    let w = written_inputs(rule, k);
    assert(p.path.len() == 0 ==> p.path =~= seq![]);
    if k < rule.inputs.len() {
        let gap = rule.gaps[k];
        let path = rule.inputs[k];
        assert(is_gap(rule.gaps[k]));
        assert(is_writable(rule.inputs[k]));
        let inner = written_path(path, 0);
        let tail = written_inputs(rule, k + 1) + rest;
        assert(t =~= gap + (inner + tail));
        assert(tail.len() > 0) by {
            lemma_inputs_len(rule, k + 1);
        }
        lemma_gap_is_read(s, i, gap, inner + tail, p);
        let q = depfile::ended(p)->Some_0;
        lemma_path_is_read(s, i + gap.len(), path, 0, tail, q);
        assert(path.skip(0) =~= path);
        let r = with_path(q, path);
        assert(q.path =~= seq![]);
        assert(r.path =~= path);
        assert(r.found.inputs == inputs_ended(p));
        assert(r.found.outputs == p.found.outputs);
        lemma_inputs_are_read(s, i + gap.len() + inner.len(), rule, k + 1, rest, r);
        assert(inputs_ended(r) == depfile::with(inputs_ended(p), path));
        assert(inputs_with(inputs_ended(p), rule.inputs, k) == inputs_with(
            inputs_ended(r),
            rule.inputs,
            k + 1,
        ));
        assert(w.len() == gap.len() + inner.len() + written_inputs(rule, k + 1).len());
    } else {
        assert(t.len() == s.len() - i);
        assert(t.len() == w.len() + rest.len());
        assert(t[0] == (w + rest)[0]);
        assert(s[i] == '\n');
        let e = depfile::element_at(s, i, false);
        assert(e.cut == Cut::Line && e.next == i + 1 && !e.content);
        assert(depfile::added(e) =~= seq![]);
        assert(p.path + depfile::added(e) =~= p.path);
        lemma_rest(s, i, w, rest);
        assert(depfile::ended(p) is Some);
        let q = Progress {
            path: seq![],
            targets: true,
            poisoned: false,
            found: DepfileView { inputs: inputs_ended(p), ..p.found },
            ..p
        };
        assert(depfile::advanced(p, e) == Some(q));
        assert(depfile::completed(s, i, p) == depfile::completed(s, i + 1, q));
        assert(inputs_with(inputs_ended(p), rule.inputs, k) == inputs_ended(p));
    }
}

proof fn lemma_inputs_len(rule: Rule, k: int)
    requires
        0 <= k <= rule.inputs.len(),
    ensures
        written_inputs(rule, k).len() > 0,
        k == rule.inputs.len() ==> written_inputs(rule, k)[0] == '\n',
        k < rule.inputs.len() && is_rule(rule) ==> written_inputs(rule, k)[0] == ' ',
    decreases rule.inputs.len() - k,
{
    if k < rule.inputs.len() {
        lemma_inputs_len(rule, k + 1);
        if is_rule(rule) {
            assert(is_gap(rule.gaps[k]));
        }
    }
}

/// What has been found once the first `n` rules have been read.
spec fn found_in(rules: Seq<Rule>, n: int) -> DepfileView
    decreases n,
{
    if n <= 0 {
        DepfileView { outputs: seq![], inputs: seq![] }
    } else {
        let before = found_in(rules, n - 1);
        DepfileView {
            outputs: outputs_with(before.outputs, rules[n - 1].targets, 0, before.inputs),
            inputs: inputs_with(before.inputs, rules[n - 1].inputs, 0),
        }
    }
}

spec fn read_to(rules: Seq<Rule>, n: int) -> Progress {
    Progress {
        path: seq![],
        targets: true,
        poisoned: false,
        found: found_in(rules, n),
        separated: n > 0,
        content: n > 0,
    }
}

proof fn lemma_with(list: Seq<Seq<char>>, path: Seq<char>, x: Seq<char>)
    ensures
        depfile::with(list, path).contains(x) <==> list.contains(x) || x == path,
{
    if !list.contains(path) {
        let more = list.push(path);
        if list.contains(x) {
            assert(more[list.index_of(x)] == x);
        }
        if x == path {
            assert(more[list.len() as int] == x);
        }
        if more.contains(x) && x != path {
            assert(list[more.index_of(x)] == x);
        }
    }
}

proof fn lemma_outputs_with(
    list: Seq<Seq<char>>,
    targets: Seq<Seq<char>>,
    k: int,
    inputs: Seq<Seq<char>>,
    x: Seq<char>,
)
    requires
        0 <= k <= targets.len(),
    ensures
        outputs_with(list, targets, k, inputs).contains(x) <==> list.contains(x) || (
        !inputs.contains(x) && exists|i: int| k <= i < targets.len() && #[trigger] targets[i] == x),
    decreases targets.len() - k,
{
    if k < targets.len() {
        let next = if inputs.contains(targets[k]) {
            list
        } else {
            depfile::with(list, targets[k])
        };
        lemma_with(list, targets[k], x);
        lemma_outputs_with(next, targets, k + 1, inputs, x);
    }
}

proof fn lemma_inputs_with(list: Seq<Seq<char>>, inputs: Seq<Seq<char>>, k: int, x: Seq<char>)
    requires
        0 <= k <= inputs.len(),
    ensures
        inputs_with(list, inputs, k).contains(x) <==> list.contains(x) || exists|i: int|
            k <= i < inputs.len() && #[trigger] inputs[i] == x,
    decreases inputs.len() - k,
{
    if k < inputs.len() {
        lemma_with(list, inputs[k], x);
        lemma_inputs_with(depfile::with(list, inputs[k]), inputs, k + 1, x);
    }
}

proof fn lemma_found_in(rules: Seq<Rule>, n: int, x: Seq<char>)
    requires
        0 <= n <= rules.len(),
    ensures
        found_in(rules, n).inputs.contains(x) <==> is_input(rules, n, x),
        found_in(rules, n).outputs.contains(x) <==> is_output(rules, n, x),
    decreases n,
{
    if n > 0 {
        lemma_found_in(rules, n - 1, x);
        let before = found_in(rules, n - 1);
        let rule = rules[n - 1];
        lemma_outputs_with(before.outputs, rule.targets, 0, before.inputs, x);
        lemma_inputs_with(before.inputs, rule.inputs, 0, x);
        assert(rule.inputs.contains(x) <==> exists|i: int|
            0 <= i < rule.inputs.len() && #[trigger] rule.inputs[i] == x);
        assert(rule.targets.contains(x) <==> exists|i: int|
            0 <= i < rule.targets.len() && #[trigger] rule.targets[i] == x);
        if is_input(rules, n, x) {
            let r = choose|r: int| 0 <= r < n && (#[trigger] rules[r]).inputs.contains(x);
            if r < n - 1 {
                assert(is_input(rules, n - 1, x));
            }
        }
        if is_input(rules, n - 1, x) {
            let r = choose|r: int| 0 <= r < n - 1 && (#[trigger] rules[r]).inputs.contains(x);
            assert(rules[r].inputs.contains(x));
        }
        if is_output(rules, n, x) {
            let r = choose|r: int|
                0 <= r < n && (#[trigger] rules[r]).targets.contains(x) && !is_input(rules, r, x);
            if r < n - 1 {
                assert(is_output(rules, n - 1, x));
            }
        }
        if is_output(rules, n - 1, x) {
            let r = choose|r: int|
                0 <= r < n - 1 && (#[trigger] rules[r]).targets.contains(x) && !is_input(
                    rules,
                    r,
                    x,
                );
            assert(rules[r].targets.contains(x));
        }
    }
}

proof fn lemma_plain_outputs(
    list: Seq<Seq<char>>,
    targets: Seq<Seq<char>>,
    k: int,
    inputs: Seq<Seq<char>>,
)
    requires
        0 <= k <= targets.len(),
        (list + targets.skip(k)).no_duplicates(),
        forall|i: int| k <= i < targets.len() ==> !inputs.contains(#[trigger] targets[i]),
    ensures
        outputs_with(list, targets, k, inputs) == list + targets.skip(k),
    decreases targets.len() - k,
{
    let all = list + targets.skip(k);
    if k < targets.len() {
        assert(all[list.len() as int] == targets[k]);
        if list.contains(targets[k]) {
            assert(all[list.index_of(targets[k])] == targets[k]);
        }
        let next = list.push(targets[k]);
        assert(next + targets.skip(k + 1) =~= all);
        lemma_plain_outputs(next, targets, k + 1, inputs);
    } else {
        assert(all =~= list);
    }
}

proof fn lemma_plain_inputs(list: Seq<Seq<char>>, inputs: Seq<Seq<char>>, k: int)
    requires
        0 <= k <= inputs.len(),
        (list + inputs.skip(k)).no_duplicates(),
    ensures
        inputs_with(list, inputs, k) == list + inputs.skip(k),
    decreases inputs.len() - k,
{
    let all = list + inputs.skip(k);
    if k < inputs.len() {
        assert(all[list.len() as int] == inputs[k]);
        if list.contains(inputs[k]) {
            assert(all[list.index_of(inputs[k])] == inputs[k]);
        }
        let next = list.push(inputs[k]);
        assert(next + inputs.skip(k + 1) =~= all);
        lemma_plain_inputs(next, inputs, k + 1);
    } else {
        assert(all =~= list);
    }
}

proof fn lemma_plain(rules: Seq<Rule>, n: int)
    requires
        0 <= n <= rules.len(),
    ensures
        all_inputs(rules, n).no_duplicates() ==> found_in(rules, n).inputs == all_inputs(rules, n),
        all_targets(rules, n).no_duplicates() && (forall|path: Seq<char>|
            all_targets(rules, n).contains(path) ==> !#[trigger] is_input(rules, n, path))
            ==> found_in(rules, n).outputs == all_targets(rules, n),
    decreases n,
{
    if n > 0 {
        lemma_plain(rules, n - 1);
        let rule = rules[n - 1];
        let before = found_in(rules, n - 1);
        let ins = all_inputs(rules, n - 1);
        let ts = all_targets(rules, n - 1);
        assert(rule.inputs.skip(0) =~= rule.inputs);
        assert(rule.targets.skip(0) =~= rule.targets);
        if all_inputs(rules, n).no_duplicates() {
            assert forall|i: int, j: int|
                0 <= i < ins.len() && 0 <= j < ins.len() && i != j implies ins[i] != ins[j] by {
                assert(all_inputs(rules, n)[i] == ins[i]);
                assert(all_inputs(rules, n)[j] == ins[j]);
            }
            lemma_plain_inputs(ins, rule.inputs, 0);
        }
        if all_targets(rules, n).no_duplicates() && forall|path: Seq<char>|
            all_targets(rules, n).contains(path) ==> !#[trigger] is_input(rules, n, path) {
            assert forall|i: int, j: int|
                0 <= i < ts.len() && 0 <= j < ts.len() && i != j implies ts[i] != ts[j] by {
                assert(all_targets(rules, n)[i] == ts[i]);
                assert(all_targets(rules, n)[j] == ts[j]);
            }
            assert forall|path: Seq<char>| ts.contains(path) implies !#[trigger] is_input(
                rules,
                n - 1,
                path,
            ) by {
                assert(all_targets(rules, n)[ts.index_of(path)] == path);
                assert(!is_input(rules, n, path));
                if is_input(rules, n - 1, path) {
                    let r = choose|r: int|
                        0 <= r < n - 1 && (#[trigger] rules[r]).inputs.contains(path);
                    assert(rules[r].inputs.contains(path));
                }
            }
            assert forall|i: int| 0 <= i < rule.targets.len() implies !before.inputs.contains(
                #[trigger] rule.targets[i],
            ) by {
                let path = rule.targets[i];
                lemma_found_in(rules, n - 1, path);
                assert(all_targets(rules, n)[ts.len() + i] == path);
                assert(!is_input(rules, n, path));
                if is_input(rules, n - 1, path) {
                    let r = choose|r: int|
                        0 <= r < n - 1 && (#[trigger] rules[r]).inputs.contains(path);
                    assert(rules[r].inputs.contains(path));
                }
            }
            lemma_plain_outputs(ts, rule.targets, 0, before.inputs);
        }
    }
}

proof fn lemma_rules_are_read(s: Seq<char>, i: int, rules: Seq<Rule>, r: int)
    requires
        0 <= i <= s.len() <= usize::MAX,
        0 <= r <= rules.len(),
        forall|x: int| 0 <= x < rules.len() ==> is_rule(#[trigger] rules[x]),
        s.skip(i) == written_rules(rules, r),
        forall|x: int| r <= x < rules.len() ==> !is_forbidden(rules, x),
    ensures
        depfile::completed(s, i, read_to(rules, r)) == Some(read_to(rules, rules.len() as int)),
    decreases rules.len() - r,
{
    let p = read_to(rules, r);
    if r < rules.len() {
        let rule = rules[r];
        assert(is_rule(rules[r]));
        let head = written_targets(rule.targets, 0);
        let body = written_inputs(rule, 0);
        let tail = written_rules(rules, r + 1);
        lemma_inputs_len(rule, 0);
        assert(s.skip(i) =~= head + (body + tail));
        assert((body + tail)[0] == body[0]);
        lemma_targets_are_read(s, i, rule, 0, body + tail, p);
        let poisoned = any_among(rule.targets, 0, p.found.inputs);
        if poisoned {
            let x = choose|x: int|
                0 <= x < rule.targets.len() && p.found.inputs.contains(#[trigger] rule.targets[x]);
            lemma_found_in(rules, r, rule.targets[x]);
            assert(is_input(rules, r, rules[r].targets[x]));
            assert(!is_forbidden(rules, r));
            assert(rule.inputs.len() == 0);
        }
        let q = Progress {
            targets: false,
            separated: true,
            content: true,
            poisoned,
            found: DepfileView {
                outputs: outputs_with(p.found.outputs, rule.targets, 0, p.found.inputs),
                ..p.found
            },
            ..p
        };
        lemma_inputs_are_read(s, i + head.len(), rule, 0, tail, q);
        lemma_rules_are_read(s, i + head.len() + body.len(), rules, r + 1);
    } else {
        assert(s.skip(i).len() == 0);
        assert(depfile::ended(p) == Some(p));
    }
}

/// A depfile that a compiler writes is read back: its outputs are the targets of its rules that
/// are no prerequisites of rules before them, its inputs are the prerequisites, and each is
/// there once. Where nothing is there twice, they come in the order in which they are written.
pub proof fn law_written_depfile_is_read_back(rules: Seq<Rule>)
    requires
        forall|r: int| 0 <= r < rules.len() ==> is_rule(#[trigger] rules[r]),
        forall|r: int| 0 <= r < rules.len() ==> !is_forbidden(rules, r),
        written_rules(rules, 0).len() <= usize::MAX,
    ensures
        ({
            let n = rules.len() as int;
            &&& depfile::depfile(written_rules(rules, 0)) is Ok
            &&& ({
                let d = depfile::depfile(written_rules(rules, 0))->Ok_0;
                &&& forall|path: Seq<char>| #[trigger]
                    d.inputs.contains(path) <==> is_input(rules, n, path)
                &&& forall|path: Seq<char>| #[trigger]
                    d.outputs.contains(path) <==> is_output(rules, n, path)
                &&& d.inputs.no_duplicates()
                &&& d.outputs.no_duplicates()
                &&& all_inputs(rules, n).no_duplicates() ==> d.inputs == all_inputs(rules, n)
                &&& all_targets(rules, n).no_duplicates() && (forall|path: Seq<char>|
                    all_targets(rules, n).contains(path) ==> !#[trigger] is_input(rules, n, path))
                    ==> d.outputs == all_targets(rules, n)
            })
        }),
{
    let s = written_rules(rules, 0);
    let n = rules.len() as int;
    assert(s.skip(0) =~= s);
    assert(read_to(rules, 0) == depfile::start());
    lemma_rules_are_read(s, 0, rules, 0);
    depfile::law_paths_are_listed_once(s);
    lemma_plain(rules, n);
    let d = depfile::depfile(s)->Ok_0;
    assert(d == found_in(rules, n));
    assert forall|path: Seq<char>| #[trigger] d.inputs.contains(path) <==> is_input(
        rules,
        n,
        path,
    ) by {
        lemma_found_in(rules, n, path);
    }
    assert forall|path: Seq<char>| #[trigger] d.outputs.contains(path) <==> is_output(
        rules,
        n,
        path,
    ) by {
        lemma_found_in(rules, n, path);
    }
}

} // verus!
