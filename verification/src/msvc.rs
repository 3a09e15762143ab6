//! What the Microsoft compiler prints: the files that it reads, which are
//! dependencies, and everything else.
use crate::depfile::Depfile;
use crate::depfile::DepfileView;
use crate::dyndep_apply;
use crate::dyndep_apply::canonical_paths;
use crate::paths;
use crate::paths::canonicalize;
use crate::policy;
use crate::policy::contains;
use crate::text;
use crate::text::chars_of;
use crate::text::find_in;
use crate::text::lower;
use crate::text::push_all;
use crate::text::string_of;
use crate::text::strip_prefix;
use crate::text::trim_start;
use crate::text::Class;
use vstd::prelude::*;
use vstd::slice::slice_subrange;
use vstd::slice::slice_to_vec;
use vstd::string::*;
use vstd::utf8::*;

verus! {

pub open spec fn ends_with(s: Seq<char>, end: Seq<char>) -> bool {
    end.len() <= s.len() && s.skip(s.len() - end.len()) == end
}

/// Whether a line is the name of the file that is compiled.
pub open spec fn is_echo(line: Seq<char>) -> bool {
    let s = text::lowered(line);
    ends_with(s, ".c"@) || ends_with(s, ".cc"@) || ends_with(s, ".cxx"@) || ends_with(
        s,
        ".cpp"@,
    ) || ends_with(s, ".c++"@)
}

/// Whether a file is one of the compiler or the system.
pub open spec fn is_system(path: Seq<char>) -> bool {
    policy::occurs(text::lowered(path), "program files"@) || policy::occurs(
        text::lowered(path),
        "microsoft visual studio"@,
    )
}

/// What comes of lines: the text that is left, the files that were read, and
/// whether there was one.
#[verifier::ext_equal]
pub struct Filtered {
    pub text: Seq<char>,
    pub includes: Seq<Seq<char>>,
    pub any: bool,
}

/// The lines of `s` from position `i` on. A line feed, a carriage return, or the one behind
/// the other ends a line; at the end of `s` it starts no further line.
pub open spec fn output_lines(s: Seq<char>, i: int) -> Seq<Seq<char>>
    decreases s.len() - i,
{
    if i < 0 || i >= s.len() {
        seq![]
    } else {
        let end = text::first_in(s, i, Class::LineEnd);
        let both = end + 1 < s.len() && s[end] == '\r' && s[end + 1] == '\n';
        let next = if both {
            end + 2
        } else {
            end + 1
        };
        if i <= end < s.len() {
            seq![s.subrange(i, end)] + output_lines(s, next)
        } else {
            seq![s.subrange(i, s.len() as int)]
        }
    }
}

/// The file that a line names: what follows `prefix`, without the white space before it.
/// A line that holds nothing but the prefix names none.
pub open spec fn named_file(line: Seq<char>, prefix: Seq<char>) -> Option<Seq<char>> {
    let path = text::trimmed_start(line.skip(prefix.len() as int));
    if prefix.is_prefix_of(line) && path.len() > 0 {
        Some(path)
    } else {
        None
    }
}

/// What comes of the first `n` lines. Before the first of them that names a file, the name
/// of the file that is compiled is left out.
pub open spec fn filtered(lines: Seq<Seq<char>>, prefix: Seq<char>, n: int) -> Filtered
    decreases n,
{
    if n <= 0 {
        Filtered { text: seq![], includes: seq![], any: false }
    } else {
        let before = filtered(lines, prefix, n - 1);
        let line = lines[n - 1];
        match named_file(line, prefix) {
            Some(path) => Filtered {
                includes: if is_system(path) {
                    before.includes
                } else {
                    before.includes.push(path)
                },
                any: true,
                ..before
            },
            None => if !before.any && is_echo(line) {
                before
            } else {
                Filtered { text: before.text + line.push('\n'), ..before }
            },
        }
    }
}

/// What comes of the text that the compiler printed.
pub open spec fn filtered_output(s: Seq<char>, prefix: Seq<char>) -> Filtered {
    let lines = output_lines(s, 0);
    filtered(lines, prefix, lines.len() as int)
}

fn split_output(s: &[char]) -> (r: Vec<Vec<char>>)
    ensures
        text::texts(r@) == output_lines(s@, 0),
{
    let mut r: Vec<Vec<char>> = Vec::new();
    let mut i: usize = 0;
    proof {
        assert(text::texts(r@) =~= seq![]);
        assert(seq![] + output_lines(s@, 0) =~= output_lines(s@, 0));
    }
    while i < s.len()
        invariant
            i <= s@.len(),
            text::texts(r@) + output_lines(s@, i as int) =~= output_lines(s@, 0),
        decreases s@.len() - i,
    {
        let end: usize = find_in(s, i, Class::LineEnd);
        let ghost before = text::texts(r@);
        let line: Vec<char> = slice_to_vec(slice_subrange(s, i, end));
        let ghost view = line@;
        r.push(line);
        proof {
            assert(text::texts(r@) =~= before.push(view));
            assert(view =~= s@.subrange(i as int, end as int));
            text::lemma_first_in(s@, i as int, Class::LineEnd);
        }
        if end < s.len() {
            if end < s.len() - 1 && s[end] == '\r' && s[end + 1] == '\n' {
                i = end + 2;
            } else {
                i = end + 1;
            }
        } else {
            i = end;
        }
        proof {
            assert(before.push(view) + output_lines(s@, i as int) =~= before + (seq![view]
                + output_lines(s@, i as int)));
        }
    }
    proof {
        assert(text::texts(r@) + output_lines(s@, i as int) =~= text::texts(r@));
    }
    r
}

/// What the compiler printed, as text: bytes that are no UTF-8 become replacement
/// characters.
pub uninterp spec fn lossy_text(bytes: Seq<u8>) -> Seq<char>;

/// `String::from_utf8_lossy`: the text whose UTF-8 encoding `bytes` are. Where they are not
/// valid UTF-8, the text has replacement characters in the place of what is not; which
/// characters come out then is named and not spelled out.
#[verifier::external_body]
fn decode_lossy(bytes: &[u8]) -> (r: String)
    ensures
        r@ == lossy_text(bytes@),
        valid_utf8(bytes@) ==> r@ == decode_utf8(bytes@),
{
    String::from_utf8_lossy(bytes).into_owned()
}

fn has_end(s: &[char], end: &str) -> (r: bool)
    ensures
        r == ends_with(s@, end@),
{
    let e: Vec<char> = chars_of(end);
    if e.len() > s.len() {
        return false;
    }
    let tail: &[char] = slice_subrange(s, s.len() - e.len(), s.len());
    proof {
        assert(tail@ =~= s@.skip(s@.len() - end@.len()));
    }
    text::same(tail, e.as_slice())
}

/// Whether a line is the name of the file that is compiled.
pub fn is_compiler_input_echo(line: &[char]) -> (r: bool)
    ensures
        r == is_echo(line@),
{
    let lowered: Vec<char> = lower(line);
    let s: &[char] = lowered.as_slice();
    has_end(s, ".c") || has_end(s, ".cc") || has_end(s, ".cxx") || has_end(s, ".cpp") || has_end(
        s,
        ".c++",
    )
}

/// Whether a file is one of the compiler or the system.
pub fn is_system_include(path: &[char]) -> (r: bool)
    ensures
        r == is_system(path@),
{
    let lowered: Vec<char> = lower(path);
    contains(lowered.as_slice(), "program files") || contains(
        lowered.as_slice(),
        "microsoft visual studio",
    )
}

fn find_named<'a>(line: &'a [char], prefix: &str) -> (r: Option<&'a [char]>)
    ensures
        match r {
            Some(path) => named_file(line@, prefix@) == Some(path@),
            None => named_file(line@, prefix@) is None,
        },
{
    match strip_prefix(line, prefix) {
        Some(rest) => {
            let path: &[char] = trim_start(rest);
            if path.len() > 0 {
                Some(path)
            } else {
                None
            }
        },
        None => None,
    }
}

/// What the compiler printed without the lines that name files, and the files
/// that are not those of the compiler or the system.
pub fn filter_msvc_output(output: &str, prefix: &str) -> (r: (String, Vec<String>))
    ensures
        r.0@ == filtered_output(output@, prefix@).text,
        text::strings(r.1@) == filtered_output(output@, prefix@).includes,
{
    let lines: Vec<Vec<char>> = split_output(chars_of(output).as_slice());
    let ghost all = output_lines(output@, 0);
    let mut out: Vec<char> = Vec::new();
    let mut includes: Vec<String> = Vec::new();
    let mut any: bool = false;
    let mut i: usize = 0;
    proof {
        assert(text::strings(includes@) =~= seq![]);
        assert(out@ =~= seq![]);
    }
    while i < lines.len()
        invariant
            i <= lines@.len(),
            text::texts(lines@) == all,
            (Filtered { text: out@, includes: text::strings(includes@), any }) == filtered(
                all,
                prefix@,
                i as int,
            ),
        decreases lines@.len() - i,
    {
        let line: &[char] = lines[i].as_slice();
        let ghost before = out@;
        let ghost listed = text::strings(includes@);
        proof {
            assert(all[i as int] == lines@[i as int]@);
        }
        match find_named(line, prefix) {
            Some(path) => {
                any = true;
                if !is_system_include(path) {
                    includes.push(string_of(path));
                    proof {
                        assert(text::strings(includes@) =~= listed.push(path@));
                    }
                }
            },
            None => {
                if any || !is_compiler_input_echo(line) {
                    push_all(&mut out, line);
                    out.push('\n');
                    proof {
                        assert(out@ =~= before + line@.push('\n'));
                    }
                }
            },
        }
        i += 1;
    }
    (string_of(out.as_slice()), includes)
}

/// As `filter_msvc_output`, of the bytes that the compiler printed.
pub fn filter_msvc_bytes(output: &[u8], prefix: &str) -> (r: (String, Vec<String>))
    ensures
        r.0@ == filtered_output(lossy_text(output@), prefix@).text,
        text::strings(r.1@) == filtered_output(lossy_text(output@), prefix@).includes,
        valid_utf8(output@) ==> r.0@ == filtered_output(decode_utf8(output@), prefix@).text
            && text::strings(r.1@) == filtered_output(decode_utf8(output@), prefix@).includes,
{
    filter_msvc_output(decode_lossy(output).as_str(), prefix)
}

/// A path with slashes for backslashes.
pub open spec fn forward(path: Seq<char>) -> Seq<char> {
    path.map_values(
        |c: char|
            if c == '\\' {
                '/'
            } else {
                c
            },
    )
}

/// The path by which a file that the compiler read is known.
pub fn normalize_msvc_include(path: &str, windows: bool) -> (r: String)
    ensures
        r@ == paths::canonical(forward(path@), windows).0,
{
    let s: Vec<char> = chars_of(path);
    let mut turned: Vec<char> = Vec::new();
    let mut i: usize = 0;
    while i < s.len()
        invariant
            s@ == path@,
            i <= s@.len(),
            turned@ =~= forward(s@).take(i as int),
        decreases s@.len() - i,
    {
        if s[i] == '\\' {
            turned.push('/');
        } else {
            turned.push(s[i]);
        }
        i += 1;
    }
    proof {
        assert(forward(s@).take(s@.len() as int) =~= forward(s@));
    }
    let (chars, _) = canonicalize(turned.as_slice(), windows);
    string_of(chars.as_slice())
}

/// A depfile with the paths by which its files are known.
pub fn normalize_depfile(depfile: Depfile, windows: bool) -> (r: Depfile)
    ensures
        r.deep_view() == (DepfileView {
            outputs: dyndep_apply::canonical_list(depfile.deep_view().outputs, windows),
            inputs: dyndep_apply::canonical_list(depfile.deep_view().inputs, windows),
        }),
{
    Depfile {
        outputs: canonical_paths(&depfile.outputs, windows),
        inputs: canonical_paths(&depfile.inputs, windows),
    }
}

proof fn lemma_no_file_is_named(lines: Seq<Seq<char>>, prefix: Seq<char>, n: int)
    requires
        0 <= n <= lines.len(),
        forall|i: int| 0 <= i < lines.len() ==> named_file(#[trigger] lines[i], prefix) is None,
    ensures
        filtered(lines, prefix, n).includes.len() == 0,
        !filtered(lines, prefix, n).any,
    decreases n,
{
    if n > 0 {
        lemma_no_file_is_named(lines, prefix, n - 1);
        assert(named_file(lines[n - 1], prefix) is None);
    }
}

/// Output in which no line has anything behind the prefix names no file.
pub proof fn law_other_output_names_no_file(lines: Seq<Seq<char>>, prefix: Seq<char>)
    requires
        forall|i: int| 0 <= i < lines.len() ==> named_file(#[trigger] lines[i], prefix) is None,
    ensures
        filtered(lines, prefix, lines.len() as int).includes.len() == 0,
{
    lemma_no_file_is_named(lines, prefix, lines.len() as int);
}

} // verus!
