//! What can be relied on where the Microsoft compiler tells which files it reads.
use crate::msvc;
use crate::policy;
use crate::text;
use crate::text::Class;
use vstd::prelude::*;

verus! {

/// Whether a character is a letter of a word in small letters, in either case.
pub open spec fn is_letter(c: char, small: char) -> bool {
    c == small || ('A' <= c && c <= 'Z' && c as int + 32 == small as int)
}

/// Whether `s` has a word at a position, in whatever case.
pub open spec fn says(s: Seq<char>, at: int, word: Seq<char>) -> bool {
    &&& 0 <= at
    &&& at + word.len() <= s.len()
    &&& forall|j: int| 0 <= j < word.len() ==> is_letter(s[at + j], #[trigger] word[j])
}

/// Whether a path is one of the compiler or the system.
pub open spec fn is_foreign(path: Seq<char>) -> bool {
    ||| exists|at: int| says(path, at, "program files"@)
    ||| exists|at: int| says(path, at, "microsoft visual studio"@)
}

/// Whether a line ends like the name of a source file.
pub open spec fn ends_like_a_source(line: Seq<char>) -> bool {
    ||| says(line, line.len() - 2, ".c"@)
    ||| says(line, line.len() - 3, ".cc"@)
    ||| says(line, line.len() - 4, ".cxx"@)
    ||| says(line, line.len() - 4, ".cpp"@)
    ||| says(line, line.len() - 4, ".c++"@)
}

/// Whether a line is the prefix, white space, and a path.
pub open spec fn tells(line: Seq<char>, prefix: Seq<char>, path: Seq<char>) -> bool {
    exists|blanks: Seq<char>| #[trigger]
        is_told(line, prefix, blanks, path)
}

pub open spec fn is_told(
    line: Seq<char>,
    prefix: Seq<char>,
    blanks: Seq<char>,
    path: Seq<char>,
) -> bool {
    &&& line == prefix + blanks + path
    &&& forall|i: int| 0 <= i < blanks.len() ==> text::is_space(#[trigger] blanks[i])
    &&& path.len() > 0
    &&& !text::is_space(path[0])
}

/// Whether positions come one behind the other.
pub open spec fn is_rising(at: Seq<int>) -> bool {
    forall|i: int, j: int| 0 <= i < j < at.len() ==> #[trigger] at[i] < #[trigger] at[j]
}

/// Whether `includes` are the paths of the lines at `at`, which are all lines that tell a
/// path that is not foreign.
pub open spec fn are_told(
    lines: Seq<Seq<char>>,
    prefix: Seq<char>,
    includes: Seq<Seq<char>>,
    at: Seq<int>,
) -> bool {
    &&& is_rising(at)
    &&& at.len() == includes.len()
    &&& forall|j: int|
        0 <= j < at.len() ==> 0 <= #[trigger] at[j] < lines.len() && tells(
            lines[at[j]],
            prefix,
            includes[j],
        ) && !is_foreign(includes[j])
    &&& forall|i: int, path: Seq<char>|
        0 <= i < lines.len() && #[trigger] tells(lines[i], prefix, path) && !is_foreign(path)
            ==> at.contains(i)
}

/// Whether a line is left where it stands behind others: it tells no path, and does not name
/// the file that is compiled, which comes before the first path.
pub open spec fn is_left(lines: Seq<Seq<char>>, prefix: Seq<char>, i: int) -> bool {
    &&& forall|path: Seq<char>| !#[trigger] tells(lines[i], prefix, path)
    &&& ends_like_a_source(lines[i]) ==> exists|j: int, path: Seq<char>|
        0 <= j < i && #[trigger] tells(lines[j], prefix, path)
}

/// Whether the lines at `at` are those of the first `n` that are left.
pub open spec fn are_left(lines: Seq<Seq<char>>, prefix: Seq<char>, at: Seq<int>, n: int) -> bool {
    &&& is_rising(at)
    &&& forall|j: int| 0 <= j < at.len() ==> 0 <= #[trigger] at[j] < n
    &&& forall|i: int| #![trigger at.contains(i)]
        0 <= i < n ==> (at.contains(i) <==> is_left(lines, prefix, i))
}

proof fn lemma_lower(c: char, small: char)
    requires
        !('A' <= small && small <= 'Z'),
    ensures
        text::lower_char(c) == small <==> is_letter(c, small),
{
    if 'A' <= c && c <= 'Z' {
        assert(((c as u32) + 32) as char as int == c as int + 32);
    }
}

proof fn lemma_says(s: Seq<char>, at: int, word: Seq<char>)
    requires
        0 <= at <= s.len(),
        forall|j: int| 0 <= j < word.len() ==> !('A' <= #[trigger] word[j] && word[j] <= 'Z'),
    ensures
        word.is_prefix_of(text::lowered(s).skip(at)) <==> says(s, at, word),
{
    let low = text::lowered(s).skip(at);
    assert forall|j: int| 0 <= j < word.len() && at + j < s.len() implies (low[j] == word[j]
        <==> is_letter(s[at + j], #[trigger] word[j])) by {
        lemma_lower(s[at + j], word[j]);
    }
    if word.is_prefix_of(low) {
        assert forall|j: int| 0 <= j < word.len() implies is_letter(
            s[at + j],
            #[trigger] word[j],
        ) by {
            assert(low.subrange(0, word.len() as int)[j] == word[j]);
        }
    }
    if says(s, at, word) {
        assert(low.subrange(0, word.len() as int) =~= word);
    }
}

proof fn lemma_foreign(path: Seq<char>)
    ensures
        msvc::is_system(path) <==> is_foreign(path),
{
    reveal_strlit("program files");
    reveal_strlit("microsoft visual studio");
    lemma_occurs(path, "program files"@);
    lemma_occurs(path, "microsoft visual studio"@);
}

proof fn lemma_occurs(path: Seq<char>, word: Seq<char>)
    requires
        forall|j: int| 0 <= j < word.len() ==> !('A' <= #[trigger] word[j] && word[j] <= 'Z'),
    ensures
        policy::occurs(text::lowered(path), word) <==> exists|at: int| says(path, at, word),
{
    let low = text::lowered(path);
    if policy::occurs(low, word) {
        let at = choose|i: int| 0 <= i <= low.len() && word.is_prefix_of(#[trigger] low.skip(i));
        lemma_says(path, at, word);
    }
    if exists|at: int| says(path, at, word) {
        let at = choose|at: int| says(path, at, word);
        lemma_says(path, at, word);
        assert(word.is_prefix_of(low.skip(at)));
    }
}

proof fn lemma_ends(line: Seq<char>, word: Seq<char>)
    requires
        forall|j: int| 0 <= j < word.len() ==> !('A' <= #[trigger] word[j] && word[j] <= 'Z'),
    ensures
        msvc::ends_with(text::lowered(line), word) <==> says(line, line.len() - word.len(), word),
{
    let low = text::lowered(line);
    if word.len() <= line.len() {
        let at = line.len() - word.len();
        lemma_says(line, at, word);
        assert(low.skip(at).len() == word.len());
        if word.is_prefix_of(low.skip(at)) {
            assert(low.skip(at) =~= low.skip(at).subrange(0, word.len() as int));
        }
    }
}

proof fn lemma_echo(line: Seq<char>)
    ensures
        msvc::is_echo(line) <==> ends_like_a_source(line),
{
    reveal_strlit(".c");
    reveal_strlit(".cc");
    reveal_strlit(".cxx");
    reveal_strlit(".cpp");
    reveal_strlit(".c++");
    lemma_ends(line, ".c"@);
    lemma_ends(line, ".cc"@);
    lemma_ends(line, ".cxx"@);
    lemma_ends(line, ".cpp"@);
    lemma_ends(line, ".c++"@);
}

proof fn lemma_tells(line: Seq<char>, prefix: Seq<char>, path: Seq<char>)
    ensures
        msvc::named_file(line, prefix) == Some(path) <==> tells(line, prefix, path),
{
    let rest = line.skip(prefix.len() as int);
    if msvc::named_file(line, prefix) == Some(path) {
        let n = text::first_not_in(rest, 0, Class::Space);
        text::lemma_first_not_in(rest, 0, Class::Space);
        let blanks = rest.take(n);
        assert(line.subrange(0, prefix.len() as int) =~= prefix);
        assert(line =~= prefix + blanks + path);
        assert forall|i: int| 0 <= i < blanks.len() implies text::is_space(
            #[trigger] blanks[i],
        ) by {
            assert(text::belongs(rest[i], Class::Space));
        }
        assert(path[0] == rest[n]);
        assert(is_told(line, prefix, blanks, path));
    }
    if tells(line, prefix, path) {
        let blanks = choose|blanks: Seq<char>| #[trigger] is_told(line, prefix, blanks, path);
        assert(rest =~= blanks + path);
        assert(line.subrange(0, prefix.len() as int) =~= prefix);
        let n = text::first_not_in(rest, 0, Class::Space);
        text::lemma_first_not_in(rest, 0, Class::Space);
        if n < blanks.len() {
            assert(text::is_space(blanks[n]));
            assert(rest[n] == blanks[n]);
        }
        if n > blanks.len() {
            assert(text::belongs(rest[blanks.len() as int], Class::Space));
            assert(rest[blanks.len() as int] == path[0]);
        }
        assert(rest.skip(n) =~= path);
    }
}

proof fn lemma_tells_nothing(line: Seq<char>, prefix: Seq<char>)
    ensures
        msvc::named_file(line, prefix) is None <==> forall|path: Seq<char>|
            !#[trigger] tells(line, prefix, path),
{
    match msvc::named_file(line, prefix) {
        Some(path) => {
            lemma_tells(line, prefix, path);
        },
        None => {
            assert forall|path: Seq<char>| !#[trigger] tells(line, prefix, path) by {
                lemma_tells(line, prefix, path);
            }
        },
    }
}

proof fn lemma_told(lines: Seq<Seq<char>>, prefix: Seq<char>, n: int) -> (at: Seq<int>)
    requires
        0 <= n <= lines.len(),
    ensures
        are_told(lines.take(n), prefix, msvc::filtered(lines, prefix, n).includes, at),
    decreases n,
{
    if n == 0 {
        Seq::empty()
    } else {
        let before = lemma_told(lines, prefix, n - 1);
        let includes = msvc::filtered(lines, prefix, n - 1).includes;
        let line = lines[n - 1];
        let few = lines.take(n - 1);
        let more = lines.take(n);
        let next = msvc::filtered(lines, prefix, n).includes;
        let at = match msvc::named_file(line, prefix) {
            Some(path) => if msvc::is_system(path) {
                before
            } else {
                before.push(n - 1)
            },
            None => before,
        };
        lemma_tells_nothing(line, prefix);
        assert forall|j: int| 0 <= j < at.len() implies 0 <= #[trigger] at[j] < more.len() && tells(
            more[at[j]],
            prefix,
            next[j],
        ) && !is_foreign(next[j]) by {
            if j < before.len() {
                assert(at[j] == before[j]);
                assert(0 <= before[j] < few.len() && tells(
                    few[before[j]],
                    prefix,
                    includes[j],
                ));
                assert(few[before[j]] == more[at[j]]);
            } else {
                lemma_tells(line, prefix, next[j]);
                lemma_foreign(next[j]);
            }
        }
        assert forall|i: int, path: Seq<char>|
            0 <= i < more.len() && #[trigger] tells(more[i], prefix, path) && !is_foreign(
                path,
            ) implies at.contains(i) by {
            if i < n - 1 {
                assert(few[i] == more[i]);
                assert(tells(few[i], prefix, path));
                let j = before.index_of(i);
                assert(before.contains(i));
                assert(at[j] == i);
            } else {
                lemma_tells(line, prefix, path);
                lemma_foreign(path);
                assert(at[before.len() as int] == i);
            }
        }
        at
    }
}

/// The files that are told are those of all lines that consist of the prefix, white space
/// and a path that is none of the compiler or the system: each line tells its path, in the
/// order of the lines, and nothing else does.
pub proof fn law_every_told_file_is_listed(s: Seq<char>, prefix: Seq<char>)
    ensures
        exists|at: Seq<int>| #[trigger]
            are_told(
                msvc::output_lines(s, 0),
                prefix,
                msvc::filtered_output(s, prefix).includes,
                at,
            ),
{
    let lines = msvc::output_lines(s, 0);
    let at = lemma_told(lines, prefix, lines.len() as int);
    assert(lines.take(lines.len() as int) =~= lines);
    assert(are_told(lines, prefix, msvc::filtered_output(s, prefix).includes, at));
}

/// Whether a text is what ends a line.
pub open spec fn is_line_end(end: Seq<char>) -> bool {
    end == seq!['\n'] || end == seq!['\r', '\n'] || end == seq!['\r']
}

/// Whether no character of a text ends a line.
pub open spec fn is_line(line: Seq<char>) -> bool {
    forall|i: int| 0 <= i < line.len() ==> #[trigger] line[i] != '\n' && line[i] != '\r'
}

/// Lines from `k` on, each with its end.
pub open spec fn ended(lines: Seq<Seq<char>>, ends: Seq<Seq<char>>, k: int) -> Seq<char>
    decreases lines.len() - k,
{
    if k < 0 || k >= lines.len() {
        seq![]
    } else {
        lines[k] + ends[k] + ended(lines, ends, k + 1)
    }
}

/// Whether lines have ends that can be told from each other: none is a carriage return
/// before a line feed that ends an empty line.
pub open spec fn are_ended(lines: Seq<Seq<char>>, ends: Seq<Seq<char>>) -> bool {
    &&& lines.len() == ends.len()
    &&& forall|k: int| 0 <= k < lines.len() ==> is_line(#[trigger] lines[k])
    &&& forall|k: int| 0 <= k < ends.len() ==> is_line_end(#[trigger] ends[k])
    &&& forall|k: int, next: int|
        0 <= k && next == k + 1 && next < ends.len() && #[trigger] ends[k] == seq!['\r']
            && #[trigger] ends[next] == seq!['\n'] ==> lines[next].len() > 0
}

proof fn lemma_lines_from(
    s: Seq<char>,
    i: int,
    lines: Seq<Seq<char>>,
    ends: Seq<Seq<char>>,
    last: Seq<char>,
    k: int,
)
    requires
        0 <= i <= s.len(),
        0 <= k <= lines.len(),
        are_ended(lines, ends),
        is_line(last),
        s.skip(i) == ended(lines, ends, k) + last,
    ensures
        msvc::output_lines(s, i) == lines.skip(k) + (if last.len() > 0 {
            seq![last]
        } else {
            seq![]
        }),
    decreases lines.len() - k,
{
    let end = text::first_in(s, i, Class::LineEnd);
    text::lemma_first_in(s, i, Class::LineEnd);
    let rest = s.skip(i);
    if k < lines.len() {
        let line = lines[k];
        let mark = ends[k];
        let tail = ended(lines, ends, k + 1) + last;
        assert(rest =~= line + mark + tail);
        assert(is_line(line));
        assert(is_line_end(mark));
        assert(mark.len() > 0);
        let e = i + line.len();
        assert(s[e] == rest[line.len() as int]);
        assert(rest[line.len() as int] == mark[0]);
        if end < e {
            assert(s[end] == rest[end - i]);
            assert(rest[end - i] == line[end - i]);
        }
        if end > e {
            assert(!text::belongs(s[e], Class::LineEnd));
        }
        assert(end == e);
        assert(s.subrange(i, end) =~= line) by {
            assert forall|x: int| 0 <= x < line.len() implies s.subrange(i, end)[x]
                == line[x] by {
                assert(rest[x] == line[x]);
            }
        }
        let next = e + mark.len();
        assert(s.skip(next) =~= tail) by {
            assert forall|x: int| 0 <= x < tail.len() implies s.skip(next)[x] == tail[x] by {
                assert(rest[line.len() + mark.len() + x] == tail[x]);
            }
        }
        if mark == seq!['\r', '\n'] {
            assert(s[e + 1] == rest[line.len() as int + 1]);
            assert(rest[line.len() as int + 1] == mark[1]);
        } else if mark == seq!['\r'] && e + 1 < s.len() {
            assert(s[e + 1] == s.skip(next)[0]);
            assert(s[e + 1] == tail[0]);
            if k + 1 < lines.len() {
                let after = lines[k + 1];
                assert(tail =~= after + ends[k + 1] + ended(lines, ends, k + 2) + last);
                assert(is_line(after));
                assert(is_line_end(ends[k + 1]));
                if after.len() > 0 {
                    assert(tail[0] == after[0]);
                } else {
                    assert(tail[0] == ends[k + 1][0]);
                }
            } else {
                assert(tail =~= last);
            }
            assert(s[e + 1] != '\n');
        }
        lemma_lines_from(s, next, lines, ends, last, k + 1);
        assert(msvc::output_lines(s, i) == seq![line] + msvc::output_lines(s, next));
        assert(lines.skip(k) =~= seq![line] + lines.skip(k + 1));
        assert(msvc::output_lines(s, i) =~= lines.skip(k) + (if last.len() > 0 {
            seq![last]
        } else {
            seq![]
        }));
    } else {
        assert(rest =~= last);
        if end < s.len() {
            assert(s[end] == rest[end - i]);
        }
        assert(s.subrange(i, s.len() as int) =~= last);
        assert(lines.skip(k) =~= seq![]);
        assert(msvc::output_lines(s, i) =~= (if last.len() > 0 {
            seq![last]
        } else {
            seq![]
        }));
    }
}

/// Lines are told apart whatever ends each of them, and the last one may have no end.
pub proof fn law_lines_are_told_apart(
    lines: Seq<Seq<char>>,
    ends: Seq<Seq<char>>,
    last: Seq<char>,
)
    requires
        are_ended(lines, ends),
        is_line(last),
    ensures
        msvc::output_lines(ended(lines, ends, 0) + last, 0) == lines + (if last.len() > 0 {
            seq![last]
        } else {
            seq![]
        }),
{
    let s = ended(lines, ends, 0) + last;
    assert(s.skip(0) =~= s);
    lemma_lines_from(s, 0, lines, ends, last, 0);
    assert(lines.skip(0) =~= lines);
}

proof fn lemma_no_ends(s: Seq<char>, i: int)
    requires
        0 <= i <= s.len(),
    ensures
        forall|k: int|
            0 <= k < msvc::output_lines(s, i).len() ==> is_line(
                #[trigger] msvc::output_lines(s, i)[k],
            ),
    decreases s.len() - i,
{
    if i < s.len() {
        let end = text::first_in(s, i, Class::LineEnd);
        text::lemma_first_in(s, i, Class::LineEnd);
        let line = s.subrange(i, end);
        assert forall|x: int| 0 <= x < line.len() implies #[trigger] line[x] != '\n' && line[x]
            != '\r' by {
            assert(!text::belongs(s[i + x], Class::LineEnd));
        }
        if end < s.len() {
            let next = if end + 1 < s.len() && s[end] == '\r' && s[end + 1] == '\n' {
                end + 2
            } else {
                end + 1
            };
            lemma_no_ends(s, next);
            let behind = msvc::output_lines(s, next);
            assert forall|k: int| 0 <= k < msvc::output_lines(s, i).len() implies is_line(
                #[trigger] msvc::output_lines(s, i)[k],
            ) by {
                assert(msvc::output_lines(s, i) == seq![line] + behind);
                if k > 0 {
                    assert(msvc::output_lines(s, i)[k] == behind[k - 1]);
                }
            }
        } else {
            assert(s.subrange(i, s.len() as int) =~= line);
        }
    }
}

/// As many line feeds.
pub open spec fn feeds(n: nat) -> Seq<Seq<char>> {
    Seq::new(n, |i: int| seq!['\n'])
}

proof fn lemma_one_more_line(lines: Seq<Seq<char>>, line: Seq<char>, k: int)
    requires
        0 <= k <= lines.len(),
    ensures
        ended(lines.push(line), feeds(lines.len() + 1), k) == ended(
            lines,
            feeds(lines.len()),
            k,
        ) + line.push('\n'),
    decreases lines.len() - k,
{
    let more = lines.push(line);
    if k < lines.len() {
        lemma_one_more_line(lines, line, k + 1);
        assert(ended(more, feeds(lines.len() + 1), k) =~= ended(lines, feeds(lines.len()), k)
            + line.push('\n'));
    } else {
        assert(ended(more, feeds(lines.len() + 1), k + 1) =~= seq![]);
        assert(ended(more, feeds(lines.len() + 1), k) =~= line.push('\n'));
        assert(ended(lines, feeds(lines.len()), k) + line.push('\n') =~= line.push('\n'));
    }
}

/// The lines at positions.
pub open spec fn picked(lines: Seq<Seq<char>>, at: Seq<int>) -> Seq<Seq<char>> {
    Seq::new(at.len(), |j: int| lines[at[j]])
}

proof fn lemma_left(lines: Seq<Seq<char>>, prefix: Seq<char>, n: int) -> (at: Seq<int>)
    requires
        0 <= n <= lines.len(),
    ensures
        are_left(lines, prefix, at, n),
        msvc::filtered(lines, prefix, n).text == ended(picked(lines, at), feeds(at.len()), 0),
        msvc::filtered(lines, prefix, n).any <==> exists|j: int, path: Seq<char>|
            0 <= j < n && #[trigger] tells(lines[j], prefix, path),
    decreases n,
{
    if n == 0 {
        let at = Seq::<int>::empty();
        assert(picked(lines, at) =~= seq![]);
        at
    } else {
        let before = lemma_left(lines, prefix, n - 1);
        let line = lines[n - 1];
        lemma_tells_nothing(line, prefix);
        lemma_echo(line);
        let any = msvc::filtered(lines, prefix, n - 1).any;
        let left = msvc::named_file(line, prefix) is None && (any || !msvc::is_echo(line));
        assert(left <==> is_left(lines, prefix, n - 1));
        let at = if left {
            before.push(n - 1)
        } else {
            before
        };
        if left {
            assert(picked(lines, at) =~= picked(lines, before).push(line));
            lemma_one_more_line(picked(lines, before), line, 0);
        }
        assert forall|i: int| #![trigger at.contains(i)] 0 <= i < n implies (at.contains(i)
            <==> is_left(lines, prefix, i)) by {
            if i < n - 1 {
                assert(before.contains(i) <==> is_left(lines, prefix, i));
                if before.contains(i) {
                    assert(at[before.index_of(i)] == i);
                }
                if at.contains(i) {
                    assert(before[at.index_of(i)] == i);
                }
            } else {
                if left {
                    assert(at[before.len() as int] == i);
                } else if at.contains(i) {
                    assert(before[at.index_of(i)] == i);
                }
            }
        }
        if msvc::named_file(line, prefix) is Some {
            lemma_tells(line, prefix, msvc::named_file(line, prefix)->Some_0);
        }
        at
    }
}

/// What is left of the output are the lines that tell no path, in their order, but for the
/// names of source files before the first line that tells one.
pub proof fn law_other_lines_are_left(s: Seq<char>, prefix: Seq<char>)
    ensures
        exists|at: Seq<int>|
            #[trigger] are_left(
                msvc::output_lines(s, 0),
                prefix,
                at,
                msvc::output_lines(s, 0).len() as int,
            ) && msvc::output_lines(msvc::filtered_output(s, prefix).text, 0) == picked(
                msvc::output_lines(s, 0),
                at,
            ),
{
    let lines = msvc::output_lines(s, 0);
    let at = lemma_left(lines, prefix, lines.len() as int);
    let kept = picked(lines, at);
    lemma_no_ends(s, 0);
    assert forall|k: int| 0 <= k < kept.len() implies is_line(#[trigger] kept[k]) by {
        assert(0 <= at[k] < lines.len());
        assert(is_line(lines[at[k]]));
    }
    assert(seq!['\r'][0] != seq!['\n'][0]);
    assert(are_ended(kept, feeds(at.len())));
    let text = ended(kept, feeds(at.len()), 0);
    assert(text + Seq::<char>::empty() =~= text);
    law_lines_are_told_apart(kept, feeds(at.len()), seq![]);
    assert(kept + Seq::<Seq<char>>::empty() =~= kept);
}

} // verus!
