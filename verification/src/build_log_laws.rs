//! What holds of build log files as a whole: what was recorded is read back, also
//! once a log has been written anew.
use crate::build_log;
use crate::build_log::BuildLogEntry;
use crate::build_log_compaction;
use crate::numbers;
use crate::sorting;
use crate::text;
use crate::text::Class;
use vstd::prelude::*;
use vstd::string::*;

verus! {

proof fn lemma_first_in_joined(a: Seq<char>, b: Seq<char>, i: int, class: Class)
    requires
        0 <= i <= a.len(),
        text::first_in(a, i, class) < a.len(),
    ensures
        text::first_in(a + b, i, class) == text::first_in(a, i, class),
    decreases a.len() - i,
{
    assert((a + b)[i] == a[i]);
    if !text::belongs(a[i], class) {
        lemma_first_in_joined(a, b, i + 1, class);
    }
}

proof fn lemma_first_not_in_joined(a: Seq<char>, b: Seq<char>, i: int, class: Class)
    requires
        0 <= i <= a.len(),
        text::first_not_in(a, i, class) < a.len(),
    ensures
        text::first_not_in(a + b, i, class) == text::first_not_in(a, i, class),
    decreases a.len() - i,
{
    assert((a + b)[i] == a[i]);
    if text::belongs(a[i], class) {
        lemma_first_not_in_joined(a, b, i + 1, class);
    }
}

proof fn lemma_first_in_shifted(a: Seq<char>, b: Seq<char>, j: int, class: Class)
    requires
        0 <= j <= b.len(),
    ensures
        text::first_in(a + b, a.len() + j, class) == a.len() + text::first_in(b, j, class),
    decreases b.len() - j,
{
    if j < b.len() {
        assert((a + b)[a.len() + j] == b[j]);
        if !text::belongs(b[j], class) {
            lemma_first_in_shifted(a, b, j + 1, class);
        }
    }
}

proof fn lemma_lines_shifted(a: Seq<char>, b: Seq<char>, j: int)
    requires
        0 <= j <= b.len(),
    ensures
        text::text_lines(a + b, a.len() + j) == text::text_lines(b, j),
    decreases b.len() - j,
{
    let s = a + b;
    let n = a.len();
    if j < b.len() {
        lemma_first_in_shifted(a, b, j, Class::Is('\n'));
        text::lemma_first_in(b, j, Class::Is('\n'));
        let end = text::first_in(b, j, Class::Is('\n'));
        assert(s.subrange(n + j, n + end) =~= b.subrange(j, end));
        if end < b.len() {
            lemma_lines_shifted(a, b, end + 1);
        }
    }
}

/// The lines of a text that ends with a line feed come before those behind it.
pub proof fn lemma_lines_joined(a: Seq<char>, b: Seq<char>, i: int)
    requires
        0 <= i <= a.len(),
        a.len() == 0 || a.last() == '\n',
    ensures
        text::text_lines(a + b, i) == text::text_lines(a, i) + text::text_lines(b, 0),
    decreases a.len() - i,
{
    let s = a + b;
    if i == a.len() {
        lemma_lines_shifted(a, b, 0);
        assert(text::text_lines(a, i) + text::text_lines(b, 0) =~= text::text_lines(b, 0));
    } else {
        text::lemma_first_in(a, i, Class::Is('\n'));
        let end = text::first_in(a, i, Class::Is('\n'));
        assert(end < a.len()) by {
            if end == a.len() {
                assert(text::belongs(a[a.len() - 1], Class::Is('\n')));
            }
        }
        lemma_first_in_joined(a, b, i, Class::Is('\n'));
        assert(s.subrange(i, end) =~= a.subrange(i, end));
        lemma_lines_joined(a, b, end + 1);
        let line = seq![text::without_cr(a.subrange(i, end))];
        assert(line + (text::text_lines(a, end + 1) + text::text_lines(b, 0)) =~= line
            + text::text_lines(a, end + 1) + text::text_lines(b, 0));
    }
}

/// Whether a text is a line by itself.
pub open spec fn is_line(s: Seq<char>) -> bool {
    !s.contains('\n') && (s.len() == 0 || s.last() != '\r')
}

pub proof fn lemma_one_line(s: Seq<char>)
    requires
        is_line(s),
    ensures
        text::text_lines(s.push('\n'), 0) == seq![s],
{
    let t = s.push('\n');
    text::lemma_first_in(t, 0, Class::Is('\n'));
    let end = text::first_in(t, 0, Class::Is('\n'));
    assert(t[s.len() as int] == '\n');
    assert(end == s.len()) by {
        if end < s.len() {
            assert(s.contains(s[end]));
        }
    }
    assert(t.subrange(0, end) =~= s);
    assert(text::text_lines(t, end + 1) =~= seq![]);
    assert(seq![s] + seq![] =~= seq![s]);
}

proof fn lemma_line_added(a: Seq<char>, s: Seq<char>)
    requires
        a.len() == 0 || a.last() == '\n',
        is_line(s),
    ensures
        text::text_lines(a + s.push('\n'), 0) == text::text_lines(a, 0).push(s),
{
    lemma_lines_joined(a, s.push('\n'), 0);
    lemma_one_line(s);
    assert(text::text_lines(a, 0) + seq![s] =~= text::text_lines(a, 0).push(s));
}

proof fn lemma_lines_hold_no_feed(s: Seq<char>, i: int, k: int)
    requires
        0 <= i <= s.len(),
        0 <= k < text::text_lines(s, i).len(),
    ensures
        !text::text_lines(s, i)[k].contains('\n'),
    decreases s.len() - i,
{
    if i < s.len() {
        text::lemma_first_in(s, i, Class::Is('\n'));
        let end = text::first_in(s, i, Class::Is('\n'));
        let line = s.subrange(i, end);
        assert forall|x: int| 0 <= x < line.len() implies line[x] != '\n' by {
            assert(!text::belongs(s[i + x], Class::Is('\n')));
        }
        if end < s.len() && k > 0 {
            lemma_lines_hold_no_feed(s, end + 1, k - 1);
        }
    }
}

/// What follows the first line of a log file does not change its version.
proof fn lemma_version_stays(a: Seq<char>, b: Seq<char>)
    requires
        build_log::version_of(a) == 7,
        a.last() == '\n',
    ensures
        build_log::version_of(a + b) == 7,
{
    let prefix = "# ninja log v"@;
    let n = prefix.len() as int;
    let s = a + b;
    assert(prefix.is_prefix_of(s)) by {
        assert(s.take(n) =~= a.take(n));
    }
    let rest = a.skip(n);
    assert(s.skip(n) =~= rest + b);
    text::lemma_first_not_in(rest, 0, Class::AsciiSpace);
    let p = text::first_not_in(rest, 0, Class::AsciiSpace);
    let start = rest.skip(p);
    let signed = start.len() > 0 && (start[0] == '-' || start[0] == '+');
    let number = if signed {
        start.skip(1)
    } else {
        start
    };
    text::lemma_first_not_in(number, 0, Class::Digit);
    let d = text::first_not_in(number, 0, Class::Digit);
    assert(d > 0);
    assert(p < rest.len());
    lemma_first_not_in_joined(rest, b, 0, Class::AsciiSpace);
    assert((rest + b).skip(p) =~= start + b);
    assert((start + b)[0] == start[0]);
    assert(d < number.len()) by {
        assert(number.last() == a.last());
        if d == number.len() {
            assert(text::belongs(number[number.len() - 1], Class::Digit));
        }
    }
    if signed {
        assert((start + b).skip(1) =~= number + b);
    }
    lemma_first_not_in_joined(number, b, 0, Class::Digit);
    assert((number + b).take(d) =~= number.take(d));
}

proof fn lemma_numeral_chars(n: nat, hex: bool)
    ensures
        numbers::numeral(n, hex).len() > 0,
        !numbers::numeral(n, hex).contains('\n'),
        numbers::numeral(n, hex).last() != '\r',
{
    let s = numbers::numeral(n, hex);
    numbers::law_numeral_denotes_its_number(n, hex);
    assert(numbers::digit_value(s[s.len() - 1], hex) is Some);
    if s.contains('\n') {
        let k = choose|k: int| 0 <= k < s.len() && s[k] == '\n';
        assert(numbers::digit_value(s[k], hex) is Some);
    }
}

proof fn lemma_no_feed(a: Seq<char>, b: Seq<char>)
    requires
        !a.contains('\n'),
        !b.contains('\n'),
    ensures
        !(a + seq!['\t'] + b).contains('\n'),
{
    let s = a + seq!['\t'] + b;
    if s.contains('\n') {
        let k = choose|k: int| 0 <= k < s.len() && s[k] == '\n';
        if k < a.len() {
            assert(a[k] == '\n');
        } else if k > a.len() {
            assert(b[k - a.len() - 1] == '\n');
        }
    }
}

proof fn lemma_record_is_line(
    start_ms: u32,
    end_ms: u32,
    mtime: u64,
    output: Seq<char>,
    hash: u64,
)
    requires
        !output.contains('\n'),
    ensures
        is_line(build_log::line_of(start_ms, end_ms, mtime, output, hash)),
{
    let a = numbers::numeral(start_ms as nat, false);
    let b = numbers::numeral(end_ms as nat, false);
    let c = numbers::numeral(mtime as nat, false);
    let d = numbers::numeral(hash as nat, true);
    lemma_numeral_chars(start_ms as nat, false);
    lemma_numeral_chars(end_ms as nat, false);
    lemma_numeral_chars(mtime as nat, false);
    lemma_numeral_chars(hash as nat, true);
    let fourth = output + seq!['\t'] + d;
    let third = c + seq!['\t'] + fourth;
    let second = b + seq!['\t'] + third;
    let line = a + seq!['\t'] + second;
    lemma_no_feed(output, d);
    lemma_no_feed(c, fourth);
    lemma_no_feed(b, third);
    lemma_no_feed(a, second);
    assert(line == build_log::line_of(start_ms, end_ms, mtime, output, hash));
    assert(line.last() == d.last());
}

proof fn lemma_collected_prefix(
    a: Seq<Seq<char>>,
    b: Seq<Seq<char>>,
    n: int,
    outputs: Map<Seq<char>, usize>,
)
    requires
        n <= a.len(),
    ensures
        build_log::collected(a + b, n, outputs) == build_log::collected(a, n, outputs),
    decreases n,
{
    if n > 1 {
        lemma_collected_prefix(a, b, n - 1, outputs);
        assert((a + b)[n - 1] == a[n - 1]);
    }
}

proof fn lemma_has_lines(s: Seq<char>)
    requires
        s.len() > 0,
    ensures
        text::text_lines(s, 0).len() > 0,
{
}

/// Whether an output can be written to a log: a tab or a line feed would end its
/// field.
pub open spec fn is_loggable(output: Seq<char>) -> bool {
    !output.contains('\t') && !output.contains('\n')
}

/// What is recorded at the end of a log file is read back from it.
pub proof fn law_recorded_outputs_are_read_back(
    contents: Seq<char>,
    outputs: Map<Seq<char>, usize>,
    list: Seq<Seq<char>>,
    start_ms: u32,
    end_ms: u32,
    mtime: u64,
    hash: u64,
    n: int,
)
    requires
        contents.len() > 0,
        contents.last() == '\n',
        !build_log::is_foreign(contents),
        0 <= n <= list.len(),
        forall|i: int|
            0 <= i < list.len() ==> outputs.contains_key(#[trigger] list[i]) && is_loggable(list[i]),
    ensures
        ({
            let after = contents + build_log::lines_of(start_ms, end_ms, mtime, list, hash, n);
            let entry = BuildLogEntry {
                command_hash: hash,
                mtime,
                elapsed_ms: build_log::difference(end_ms as nat, start_ms as nat),
            };
            &&& after.last() == '\n'
            &&& !build_log::is_foreign(after)
            &&& build_log::held(after, outputs).entries == build_log::with_entries(
                build_log::held(contents, outputs).entries,
                list,
                entry,
                n,
            )
        }),
    decreases n,
{
    let added = build_log::lines_of(start_ms, end_ms, mtime, list, hash, n);
    let after = contents + added;
    if n == 0 {
        assert(after =~= contents);
    } else {
        let before = contents + build_log::lines_of(start_ms, end_ms, mtime, list, hash, n - 1);
        let line = build_log::line_of(start_ms, end_ms, mtime, list[n - 1], hash);
        law_recorded_outputs_are_read_back(
            contents,
            outputs,
            list,
            start_ms,
            end_ms,
            mtime,
            hash,
            n - 1,
        );
        assert(is_loggable(list[n - 1]));
        assert(after =~= before + line.push('\n'));
        assert(after.last() == '\n');
        lemma_version_stays(before, line.push('\n'));
        lemma_record_is_line(start_ms, end_ms, mtime, list[n - 1], hash);
        lemma_line_added(before, line);
        let lines = text::text_lines(before, 0);
        lemma_has_lines(before);
        lemma_collected_prefix(lines, seq![line], lines.len() as int, outputs);
        assert(lines + seq![line] =~= lines.push(line));
        assert(build_log::whole_lines(before) =~= before);
        assert(build_log::whole_lines(after) =~= after);
        build_log::law_recorded_line_is_read_back(start_ms, end_ms, mtime, list[n - 1], hash);
        assert(outputs.contains_key(list[n - 1]));
    }
}

/// The last of the first `n` lines that records an output, and minus one where there
/// is none. The first line is the header.
pub open spec fn last_record(lines: Seq<Seq<char>>, output: Seq<char>, n: int) -> int
    decreases n,
{
    if n <= 1 {
        -1
    } else if build_log::record_of(lines[n - 1]) is Some && build_log::record_of(
        lines[n - 1],
    )->Some_0.0 == output {
        n - 1
    } else {
        last_record(lines, output, n - 1)
    }
}

proof fn lemma_last_record(
    lines: Seq<Seq<char>>,
    outputs: Map<Seq<char>, usize>,
    output: Seq<char>,
    n: int,
)
    requires
        n <= lines.len(),
        outputs.contains_key(output),
    ensures
        ({
            let k = last_record(lines, output, n);
            let entries = build_log::collected(lines, n, outputs).entries;
            &&& -1 <= k < lines.len()
            &&& k != 0
            &&& entries.contains_key(output) == (k > 0)
            &&& k > 0 ==> build_log::record_of(lines[k]) == Some((output, entries[output]))
        }),
    decreases n,
{
    if n > 1 {
        lemma_last_record(lines, outputs, output, n - 1);
    }
}

proof fn lemma_latest(lines: Seq<Seq<char>>, output: Seq<char>, n: int)
    requires
        n <= lines.len() <= usize::MAX,
    ensures
        ({
            let k = last_record(lines, output, n);
            let found = build_log_compaction::latest(lines, n);
            &&& k <= 0 ==> !found.contains_key(output)
            &&& k > 0 && build_log::fields(lines[k]).len() == 5 ==> found.contains_key(output)
                && found[output] == k
            &&& found.contains_key(output) ==> 1 <= found[output] < lines.len()
                && build_log_compaction::is_record(lines[found[output] as int])
                && build_log::fields(lines[found[output] as int])[3] == output
        }),
    decreases n,
{
    if n > 1 {
        lemma_latest(lines, output, n - 1);
    }
}

proof fn lemma_last_field_ends_line(line: Seq<char>)
    requires
        build_log::fields(line).last().len() > 0,
    ensures
        build_log::fields(line).len() > 0,
        line.len() > 0,
        line.last() == build_log::fields(line).last().last(),
    decreases line.len(),
{
    text::lemma_first_in(line, 0, Class::Is('\t'));
    let end = text::first_in(line, 0, Class::Is('\t'));
    if end < line.len() {
        let rest = build_log::fields(line.skip(end + 1));
        lemma_fields_exist(line.skip(end + 1));
        assert(build_log::fields(line).last() == rest.last());
        lemma_last_field_ends_line(line.skip(end + 1));
    }
}

proof fn lemma_fields_exist(line: Seq<char>)
    ensures
        build_log::fields(line).len() > 0,
{
}

proof fn lemma_record_line(line: Seq<char>)
    requires
        build_log_compaction::is_record(line),
        !line.contains('\n'),
    ensures
        is_line(line),
        build_log::record_of(line) is Some,
        build_log::record_of(line)->Some_0.0 == build_log::fields(line)[3],
{
    let f = build_log::fields(line);
    let hash = f[4];
    assert(numbers::number(hash, true, u64::MAX as nat) is Some);
    let digits = if hash.len() > 0 && hash[0] == '+' {
        hash.skip(1)
    } else {
        hash
    };
    assert(digits.last() == hash.last());
    assert(numbers::digit_value(digits[digits.len() - 1], true) is Some);
    lemma_last_field_ends_line(line);
}

/// The lines of a log that is written anew.
spec fn kept_lines(
    lines: Seq<Seq<char>>,
    found: Map<Seq<char>, usize>,
    keys: Seq<Seq<char>>,
    n: int,
) -> Seq<Seq<char>>
    decreases n,
{
    if n <= 0 {
        seq!["# ninja log v7"@]
    } else {
        kept_lines(lines, found, keys, n - 1).push(lines[found[keys[n - 1]] as int])
    }
}

proof fn lemma_header()
    ensures
        build_log::version_of("# ninja log v7\n"@) == 7,
        "# ninja log v7\n"@.last() == '\n',
        text::text_lines("# ninja log v7\n"@, 0) == seq!["# ninja log v7"@],
{
    reveal_strlit("# ninja log v7\n");
    reveal_strlit("# ninja log v7");
    reveal_strlit("# ninja log v");
    let header = "# ninja log v7\n"@;
    let prefix = "# ninja log v"@;
    let line = "# ninja log v7"@;
    assert(header =~= line.push('\n'));
    assert(line =~= prefix.push('7'));
    assert(is_line(line)) by {
        assert(line.last() == '7');
        if line.contains('\n') {
            let k = choose|k: int| 0 <= k < line.len() && line[k] == '\n';
            assert(line[0] == '#' && line[1] == ' ' && line[2] == 'n' && line[3] == 'i' && line[4]
                == 'n' && line[5] == 'j' && line[6] == 'a' && line[7] == ' ' && line[8] == 'l'
                && line[9] == 'o' && line[10] == 'g' && line[11] == ' ' && line[12] == 'v');
        }
    }
    lemma_one_line(line);
    let rest = header.skip(prefix.len() as int);
    assert(rest =~= seq!['7', '\n']);
    assert(prefix.is_prefix_of(header)) by {
        assert(header.take(prefix.len() as int) =~= prefix);
    }
    assert(text::first_not_in(rest, 0, Class::AsciiSpace) == 0);
    assert(rest.skip(0) =~= rest);
    assert(text::first_not_in(rest, 0, Class::Digit) == 1) by {
        assert(text::first_not_in(rest, 1, Class::Digit) == 1);
    }
    let digits = rest.take(1);
    assert(digits.drop_last() =~= seq![]);
    assert(numbers::digits_value(digits.drop_last(), false) == 0);
    assert(numbers::digit_value('7', false) == Some(7nat));
    assert(numbers::digits_value(digits, false) == 7);
}

proof fn lemma_kept_lines(
    contents: Seq<char>,
    keys: Seq<Seq<char>>,
    n: int,
)
    requires
        0 <= n <= keys.len(),
        text::text_lines(contents, 0).len() <= usize::MAX,
        forall|i: int|
            0 <= i < keys.len() ==> build_log_compaction::latest(
                text::text_lines(contents, 0),
                text::text_lines(contents, 0).len() as int,
            ).contains_key(#[trigger] keys[i]),
    ensures
        ({
            let lines = text::text_lines(contents, 0);
            let found = build_log_compaction::latest(lines, lines.len() as int);
            let r = build_log_compaction::rewritten(lines, found, keys, n);
            let kept = kept_lines(lines, found, keys, n);
            &&& r.len() > 0
            &&& r.last() == '\n'
            &&& build_log::version_of(r) == 7
            &&& text::text_lines(r, 0) == kept
            &&& kept.len() == n + 1
            &&& forall|i: int|
                1 <= i <= n ==> #[trigger] kept[i] == lines[found[keys[i - 1]] as int]
        }),
    decreases n,
{
    let lines = text::text_lines(contents, 0);
    let found = build_log_compaction::latest(lines, lines.len() as int);
    lemma_header();
    if n > 0 {
        lemma_kept_lines(contents, keys, n - 1);
        let before = build_log_compaction::rewritten(lines, found, keys, n - 1);
        let key = keys[n - 1];
        assert(found.contains_key(key));
        lemma_latest(lines, key, lines.len() as int);
        let k = found[key] as int;
        lemma_lines_hold_no_feed(contents, 0, k);
        lemma_record_line(lines[k]);
        lemma_line_added(before, lines[k]);
        lemma_version_stays(before, lines[k].push('\n'));
    } else {
        reveal_strlit("# ninja log v7\n");
    }
}

/// Where the keys are those of the records behind the first line, the last record of
/// a key is its own.
proof fn lemma_own_record(lines: Seq<Seq<char>>, keys: Seq<Seq<char>>, i: int, n: int)
    requires
        lines.len() == keys.len() + 1,
        sorting::is_sorted(keys),
        forall|j: int|
            1 <= j < lines.len() ==> build_log::record_of(#[trigger] lines[j]) is Some
                && build_log::record_of(lines[j])->Some_0.0 == keys[j - 1],
        0 <= i < keys.len(),
        i + 1 < n <= lines.len(),
    ensures
        last_record(lines, keys[i], n) == i + 1,
    decreases n,
{
    assert(build_log::record_of(lines[n - 1])->Some_0.0 == keys[n - 2]);
    if n - 1 > i + 1 {
        sorting::lemma_one_is_before(keys[i], keys[n - 2]);
        assert(sorting::is_before(keys[i], keys[n - 2]));
        lemma_own_record(lines, keys, i, n - 1);
    }
}

proof fn lemma_no_record(
    lines: Seq<Seq<char>>,
    keys: Seq<Seq<char>>,
    output: Seq<char>,
    n: int,
)
    requires
        lines.len() == keys.len() + 1,
        forall|j: int|
            1 <= j < lines.len() ==> build_log::record_of(#[trigger] lines[j]) is Some
                && build_log::record_of(lines[j])->Some_0.0 == keys[j - 1],
        !keys.contains(output),
        n <= lines.len(),
    ensures
        last_record(lines, output, n) == -1,
    decreases n,
{
    if n > 1 {
        assert(build_log::record_of(lines[n - 1])->Some_0.0 == keys[n - 2]);
        assert(keys.contains(keys[n - 2]));
        lemma_no_record(lines, keys, output, n - 1);
    }
}

/// A log that is written anew holds the same of every output that a build makes,
/// unless the last record of the output has more than five fields: such a record is
/// read, but not written anew.
pub proof fn law_compacted_log_holds_the_same(
    r: Seq<char>,
    contents: Seq<char>,
    outputs: Map<Seq<char>, usize>,
    there: spec_fn(Seq<char>) -> bool,
    output: Seq<char>,
)
    requires
        build_log_compaction::is_compacted(r, contents, outputs, there),
        build_log::whole_lines(contents) == contents,
        !build_log::is_foreign(contents),
        text::text_lines(contents, 0).len() <= usize::MAX,
        outputs.contains_key(output),
        ({
            let lines = text::text_lines(contents, 0);
            let k = last_record(lines, output, lines.len() as int);
            k > 0 ==> build_log::fields(lines[k]).len() == 5
        }),
    ensures
        ({
            let before = build_log::held(contents, outputs).entries;
            let after = build_log::held(r, outputs).entries;
            &&& !build_log::is_foreign(r)
            &&& after.contains_key(output) == before.contains_key(output)
            &&& before.contains_key(output) ==> after[output] == before[output]
        }),
{
    let lines = text::text_lines(contents, 0);
    let found = build_log_compaction::latest(lines, lines.len() as int);
    let keys = choose|keys: Seq<Seq<char>>|
        {
            &&& sorting::is_sorted(keys)
            &&& forall|output: Seq<char>| #[trigger]
                keys.contains(output) <==> build_log_compaction::is_kept(
                    found,
                    outputs,
                    there,
                    output,
                )
            &&& r == #[trigger] build_log_compaction::rewritten(
                lines,
                found,
                keys,
                keys.len() as int,
            )
        };
    let n = keys.len() as int;
    assert forall|i: int| 0 <= i < n implies found.contains_key(#[trigger] keys[i]) by {
        assert(keys.contains(keys[i]));
        assert(build_log_compaction::is_kept(found, outputs, there, keys[i]));
    }
    lemma_kept_lines(contents, keys, n);
    let kept = kept_lines(lines, found, keys, n);
    assert(build_log::whole_lines(r) =~= r);
    assert forall|j: int| 1 <= j < kept.len() implies build_log::record_of(
        #[trigger] kept[j],
    ) is Some && build_log::record_of(kept[j])->Some_0.0 == keys[j - 1] by {
        let key = keys[j - 1];
        assert(found.contains_key(key));
        lemma_latest(lines, key, lines.len() as int);
        lemma_lines_hold_no_feed(contents, 0, found[key] as int);
        lemma_record_line(lines[found[key] as int]);
    }
    lemma_last_record(lines, outputs, output, lines.len() as int);
    lemma_last_record(kept, outputs, output, kept.len() as int);
    lemma_latest(lines, output, lines.len() as int);
    assert(keys.contains(output) <==> build_log_compaction::is_kept(
        found,
        outputs,
        there,
        output,
    ));
    if keys.contains(output) {
        let i = choose|i: int| 0 <= i < keys.len() && keys[i] == output;
        lemma_own_record(kept, keys, i, kept.len() as int);
        assert(kept[i + 1] == lines[found[output] as int]);
    } else {
        lemma_no_record(kept, keys, output, kept.len() as int);
    }
}

} // verus!
