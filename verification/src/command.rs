//! Command lines, and what is said of commands that failed.
use crate::closure;
use crate::closure::edge_label;
use crate::manifest::Edge;
use crate::manifest::EdgeView;
use crate::numbers;
use crate::numbers::decimal_of;
use crate::text;
use crate::text::chars_of;
use crate::text::find_in;
use crate::text::string_of;
use crate::text::trim_start;
use crate::text::Class;
use vstd::prelude::*;
use vstd::slice::slice_subrange;
use vstd::string::*;

verus! {

/// A program, and what it is given.
pub struct Invocation {
    pub program: String,
    pub arguments: String,
}

/// A program and its arguments, or what is said of a line that names no program.
pub open spec fn invocation_of(program: Seq<char>, arguments: Seq<char>) -> Result<
    (Seq<char>, Seq<char>),
    Seq<char>,
> {
    if program.len() == 0 {
        Err("empty command"@)
    } else {
        Ok((program, text::trimmed_start(arguments)))
    }
}

/// The program and the arguments of a command line. The program ends at white space,
/// or at the second quotation mark where the line begins with one.
pub open spec fn invoked(command: Seq<char>) -> Result<(Seq<char>, Seq<char>), Seq<char>> {
    let c = text::trimmed_start(command);
    if c.len() > 0 && c[0] == '"' {
        let end = text::first_in(c, 1, Class::Is('"'));
        if end >= c.len() {
            Err("unterminated executable quote"@)
        } else {
            invocation_of(c.subrange(1, end), c.skip(end + 1))
        }
    } else {
        let end = text::first_in(c, 0, Class::Space);
        invocation_of(c.take(end), c.skip(end))
    }
}

fn invocation(program: &[char], arguments: &[char]) -> (r: Result<Invocation, String>)
    ensures
        match r {
            Ok(i) => invocation_of(program@, arguments@) == Ok::<_, Seq<char>>(
                (i.program@, i.arguments@),
            ),
            Err(message) => invocation_of(program@, arguments@) == Err::<(Seq<char>, Seq<char>), _>(
                message@,
            ),
        },
{
    if program.len() == 0 {
        return Err("empty command".to_owned());
    }
    Ok(Invocation { program: string_of(program), arguments: string_of(trim_start(arguments)) })
}

/// Splits a command line for a system that starts programs without a shell.
pub fn split_command(command: &str) -> (r: Result<Invocation, String>)
    ensures
        match r {
            Ok(i) => invoked(command@) == Ok::<_, Seq<char>>((i.program@, i.arguments@)),
            Err(message) => invoked(command@) == Err::<(Seq<char>, Seq<char>), _>(message@),
        },
{
    let chars: Vec<char> = chars_of(command);
    let c: &[char] = trim_start(chars.as_slice());
    if c.len() > 0 && c[0] == '"' {
        let end: usize = find_in(c, 1, Class::Is('"'));
        if end >= c.len() {
            return Err("unterminated executable quote".to_owned());
        }
        proof {
            assert(c@.skip(end + 1) =~= c@.subrange(end + 1, c@.len() as int));
        }
        invocation(slice_subrange(c, 1, end), slice_subrange(c, end + 1, c.len()))
    } else {
        let end: usize = find_in(c, 0, Class::Space);
        proof {
            assert(c@.skip(end as int) =~= c@.subrange(end as int, c@.len() as int));
            assert(c@.take(end as int) =~= c@.subrange(0, end as int));
        }
        invocation(slice_subrange(c, 0, end), slice_subrange(c, end, c.len()))
    }
}

/// How a command failed, as a number from 1 to 255. One that was stopped has none.
pub open spec fn failure_code(status: Option<i32>) -> u8 {
    match status {
        Some(code) => if code < 1 {
            1
        } else if code > 255 {
            255
        } else {
            code as u8
        },
        None => 1,
    }
}

/// How a command failed, as a number from 1 to 255.
pub fn exit_code(status: Option<i32>) -> (r: u8)
    ensures
        r == failure_code(status),
        r >= 1,
{
    match status {
        Some(code) => if code < 1 {
            1
        } else if code > 255 {
            255
        } else {
            code as u8
        },
        None => 1,
    }
}

/// What is printed above what a failed command has printed.
pub open spec fn failure_headline(code: u8, e: EdgeView) -> Seq<char> {
    "FAILED: [code="@ + numbers::numeral(code as nat, false) + "] "@ + closure::edge_label_of(
        e,
    ) + " "@
}

/// What is printed above what a failed command has printed.
pub fn failed_line(code: u8, edge: &Edge) -> (r: String)
    ensures
        r@ == failure_headline(code, edge.deep_view()),
{
    let mut r: String = "FAILED: [code=".to_owned();
    r.append(decimal_of(code as usize).as_str());
    r.append("] ");
    r.append(edge_label(edge).as_str());
    r.append(" ");
    r
}

/// The first `n` lines of `list`.
pub open spec fn lines_of(list: Seq<Seq<char>>, n: int) -> Seq<char>
    decreases n,
{
    if n <= 0 {
        seq![]
    } else if n == 1 {
        list[0]
    } else {
        lines_of(list, n - 1) + "\n"@ + list[n - 1]
    }
}

/// What is said of a build in which commands failed: whether it was stopped on their
/// account, how many failed, and how each did.
pub open spec fn verdict(stopped: bool, failures: Seq<Seq<char>>) -> Seq<char> {
    (if stopped {
        "build stopped: "@
    } else {
        "build stopped: cannot make progress due to previous errors\n"@
    }) + numbers::numeral(failures.len() as nat, false) + " subcommand(s) failed\n"@ + lines_of(
        failures,
        failures.len() as int,
    )
}

/// What is said of a build in which commands failed.
pub fn failure_report(stopped: bool, failures: &Vec<String>) -> (r: String)
    ensures
        r@ == verdict(stopped, text::strings(failures@)),
{
    let ghost list = text::strings(failures@);
    let mut r: String = if stopped {
        "build stopped: ".to_owned()
    } else {
        "build stopped: cannot make progress due to previous errors\n".to_owned()
    };
    r.append(decimal_of(failures.len()).as_str());
    r.append(" subcommand(s) failed\n");
    let ghost start = r@;
    let mut i: usize = 0;
    proof {
        assert(start + lines_of(list, 0) =~= start);
    }
    while i < failures.len()
        invariant
            i <= failures@.len(),
            list == text::strings(failures@),
            r@ == start + lines_of(list, i as int),
        decreases failures@.len() - i,
    {
        proof {
            assert(list[i as int] == failures@[i as int]@);
        }
        if i > 0 {
            r.append("\n");
        }
        r.append(failures[i].as_str());
        proof {
            assert(r@ =~= start + lines_of(list, i + 1));
        }
        i += 1;
    }
    r
}

/// What is written to a response file: on Windows lines end with a carriage return and a
/// line feed.
pub fn rspfile_text(contents: &str, windows: bool) -> (r: String)
    ensures
        r@ == (if windows {
            text::with_returns(contents@)
        } else {
            contents@
        }),
{
    if !windows {
        return contents.to_owned();
    }
    let s: Vec<char> = chars_of(contents);
    let mut r: Vec<char> = Vec::new();
    let mut i: usize = 0;
    proof {
        assert(s@.take(0) =~= seq![]);
        assert(r@ =~= seq![]);
    }
    while i < s.len()
        invariant
            i <= s@.len(),
            r@ == text::with_returns(s@.take(i as int)),
        decreases s@.len() - i,
    {
        let ghost before = r@;
        if s[i] == '\n' {
            r.push('\r');
        }
        r.push(s[i]);
        proof {
            assert(s@.take(i + 1).drop_last() =~= s@.take(i as int));
            assert(s@.take(i + 1).last() == s@[i as int]);
            assert(r@ =~= before + text::returned(s@[i as int]));
        }
        i += 1;
    }
    proof {
        assert(s@.take(s@.len() as int) =~= s@);
    }
    string_of(r.as_slice())
}

proof fn lemma_gap(s: Seq<char>, i: int, end: int)
    requires
        0 <= i <= end <= s.len(),
        forall|k: int| i <= k < end ==> text::is_space(#[trigger] s[k]),
        end < s.len() ==> !text::is_space(s[end]),
    ensures
        text::first_not_in(s, i, Class::Space) == end,
    decreases end - i,
{
    if i < end {
        lemma_gap(s, i + 1, end);
    }
}

proof fn lemma_end(s: Seq<char>, i: int, end: int, class: Class)
    requires
        0 <= i <= end <= s.len(),
        forall|k: int| i <= k < end ==> !text::belongs(#[trigger] s[k], class),
        end < s.len() ==> text::belongs(s[end], class),
    ensures
        text::first_in(s, i, class) == end,
    decreases end - i,
{
    if i < end {
        lemma_end(s, i + 1, end, class);
    }
}

pub open spec fn are_spaces(s: Seq<char>) -> bool {
    forall|i: int| 0 <= i < s.len() ==> text::is_space(#[trigger] s[i])
}

/// A command line that names a program, and behind white space its arguments, is split into
/// these, also where the program stands between quotation marks. White space before the program
/// and before its arguments is left out.
pub proof fn law_program_and_arguments_are_told_apart(
    before: Seq<char>,
    program: Seq<char>,
    between: Seq<char>,
    arguments: Seq<char>,
    quoted: bool,
)
    requires
        are_spaces(before),
        are_spaces(between),
        program.len() > 0,
        arguments.len() > 0 ==> !text::is_space(arguments[0]),
        quoted ==> !program.contains('"'),
        !quoted ==> program[0] != '"' && forall|i: int|
            0 <= i < program.len() ==> !text::is_space(#[trigger] program[i]),
        !quoted && arguments.len() > 0 ==> between.len() > 0,
    ensures
        invoked(
            before + (if quoted {
                seq!['"'] + program + seq!['"']
            } else {
                program
            }) + between + arguments,
        ) == Ok::<(Seq<char>, Seq<char>), Seq<char>>((program, arguments)),
{
    let head = if quoted {
        seq!['"'] + program + seq!['"']
    } else {
        program
    };
    let s = before + head + between + arguments;
    let c = head + between + arguments;
    assert(s[before.len() as int] == head[0]);
    lemma_gap(s, 0, before.len() as int);
    assert(s.skip(before.len() as int) =~= c);
    assert(text::trimmed_start(s) == c);
    assert(c[0] == head[0]);
    let rest = between + arguments;
    lemma_gap(rest, 0, between.len() as int);
    assert(rest.skip(between.len() as int) =~= arguments);
    assert(c.skip(head.len() as int) =~= rest);
    if quoted {
        let end = 1 + program.len() as int;
        assert forall|k: int| 1 <= k < end implies !text::belongs(
            #[trigger] c[k],
            Class::Is('"'),
        ) by {
            assert(c[k] == program[k - 1]);
            assert(program.contains(program[k - 1]));
        }
        assert(c[end] == head[end]);
        lemma_end(c, 1, end, Class::Is('"'));
        assert(c.subrange(1, end) =~= program);
    } else {
        let end = program.len() as int;
        assert forall|k: int| 0 <= k < end implies !text::belongs(
            #[trigger] c[k],
            Class::Space,
        ) by {
            assert(c[k] == program[k]);
        }
        if end < c.len() {
            assert(c[end] == rest[0]);
        }
        lemma_end(c, 0, end, Class::Space);
        assert(c.take(end) =~= program);
    }
}

/// A command that failed with a code from 1 to 255 passes it on, and codes of other failures
/// are as near to it as can be.
pub proof fn law_code_of_a_failure_is_passed_on(status: Option<i32>)
    ensures
        failure_code(status) >= 1,
        status matches Some(code) ==> (1 <= code <= 255 ==> failure_code(status) == code) && (code
            > 255 ==> failure_code(status) == 255) && (code < 1 ==> failure_code(status) == 1),
        status is None ==> failure_code(status) == 1,
{
}

} // verus!
