//! Canonical paths: paths without empty, `.` and avoidable `..` components, so
//! that a file has one name. On Windows both slashes separate components, and
//! a canonical path remembers which of its slashes were backslashes.
use crate::text;
use crate::text::chars_of;
use crate::text::find_in;
use crate::text::in_class;
use crate::text::push_all;
use crate::text::string_of;
use crate::text::Class;
use vstd::arithmetic::power2::*;
use vstd::prelude::*;
use vstd::slice::slice_subrange;

verus! {

/// The characters that separate components.
pub open spec fn separators(windows: bool) -> Class {
    if windows {
        Class::AnySlash
    } else {
        Class::Slash
    }
}

pub open spec fn is_separator(c: char, windows: bool) -> bool {
    text::belongs(c, separators(windows))
}

fn separator_class(windows: bool) -> (r: Class)
    ensures
        r == separators(windows),
{
    if windows {
        Class::AnySlash
    } else {
        Class::Slash
    }
}

fn separates(c: char, windows: bool) -> (r: bool)
    ensures
        r == is_separator(c, windows),
{
    in_class(c, separator_class(windows))
}

/// The length of the separators at the start of `s` that make it absolute: one,
/// or on Windows two where there are two.
pub open spec fn root_len(s: Seq<char>, windows: bool) -> int {
    if s.len() > 0 && is_separator(s[0], windows) {
        if windows && s.len() > 1 && is_separator(s[1], windows) {
            2
        } else {
            1
        }
    } else {
        0
    }
}

/// The components of `s` from `i` on, each with the separator that ends it.
pub open spec fn components(s: Seq<char>, i: int, windows: bool) -> Seq<Seq<char>>
    decreases s.len() - i,
{
    if i < 0 || i >= s.len() {
        seq![]
    } else {
        let end = text::first_in(s, i, separators(windows));
        if i <= end < s.len() {
            seq![s.subrange(i, end + 1)] + components(s, end + 1, windows)
        } else {
            seq![s.subrange(i, s.len() as int)]
        }
    }
}

/// A component without the separator that ends it.
pub open spec fn bare(c: Seq<char>, windows: bool) -> Seq<char> {
    if c.len() > 0 && is_separator(c.last(), windows) {
        c.drop_last()
    } else {
        c
    }
}

/// The components of a path that are kept: those that lead up, and then the
/// names.
#[verifier::ext_equal]
pub struct Kept {
    pub up: Seq<Seq<char>>,
    pub names: Seq<Seq<char>>,
}

/// What is kept once component `c` follows: an empty one and `.` change
/// nothing, and `..` takes the last name away.
pub open spec fn followed(k: Kept, c: Seq<char>, windows: bool) -> Kept {
    let name = bare(c, windows);
    if name =~= seq![] || name =~= seq!['.'] {
        k
    } else if name =~= seq!['.', '.'] {
        if k.names.len() > 0 {
            Kept { names: k.names.drop_last(), ..k }
        } else {
            Kept { up: k.up.push(c), ..k }
        }
    } else {
        Kept { names: k.names.push(c), ..k }
    }
}

/// What is kept once the components `list` from `i` on follow.
pub open spec fn all_followed(k: Kept, list: Seq<Seq<char>>, windows: bool) -> Kept
    decreases list.len(),
{
    if list.len() == 0 {
        k
    } else {
        all_followed(followed(k, list.first(), windows), list.drop_first(), windows)
    }
}

/// The concatenation of a list of texts.
pub open spec fn joined(list: Seq<Seq<char>>) -> Seq<char>
    decreases list.len(),
{
    if list.len() == 0 {
        seq![]
    } else {
        joined(list.drop_last()) + list.last()
    }
}

pub open spec fn nothing_kept() -> Kept {
    Kept { up: seq![], names: seq![] }
}

/// What is kept of `s`.
pub open spec fn kept(s: Seq<char>, windows: bool) -> Kept {
    all_followed(nothing_kept(), components(s, root_len(s, windows), windows), windows)
}

/// `s` without a separator at its end that lies behind position `start`.
pub open spec fn without_end_separator(s: Seq<char>, start: int, windows: bool) -> Seq<char> {
    if s.len() > start && is_separator(s.last(), windows) {
        s.drop_last()
    } else {
        s
    }
}

/// `s` with its superfluous components taken away, and its separators as they
/// are. A path of which nothing is left is `.`.
pub open spec fn shortened(s: Seq<char>, windows: bool) -> Seq<char> {
    let root = root_len(s, windows);
    let k = kept(s, windows);
    let t = without_end_separator(
        s.take(root) + joined(k.up) + joined(k.names),
        root,
        windows,
    );
    if s.len() == 0 {
        s
    } else if t.len() == 0 {
        seq!['.']
    } else {
        t
    }
}

/// `s` with each backslash made a slash.
pub open spec fn with_slashes(s: Seq<char>) -> Seq<char> {
    s.map_values(
        |c: char|
            if c == '\\' {
                '/'
            } else {
                c
            },
    )
}

/// For each of the first `n` separators of `s`, whether it is a backslash, as a
/// binary number with the first separator in the lowest place.
pub open spec fn backslash_bits(s: Seq<char>, n: nat) -> nat
    decreases s.len(),
{
    if s.len() == 0 || n == 0 {
        0
    } else if s[0] == '\\' {
        1 + 2 * backslash_bits(s.skip(1), (n - 1) as nat)
    } else if s[0] == '/' {
        2 * backslash_bits(s.skip(1), (n - 1) as nat)
    } else {
        backslash_bits(s.skip(1), n)
    }
}

/// The canonical form of `s`, and the bits that tell which of its separators
/// were backslashes.
pub open spec fn canonical(s: Seq<char>, windows: bool) -> (Seq<char>, nat) {
    let t = shortened(s, windows);
    if windows {
        (with_slashes(t), backslash_bits(t, 64))
    } else {
        (t, 0)
    }
}

/// Whether `s` holds an empty, `.` or `..` component, a separator at its end,
/// or on Windows a backslash.
pub open spec fn irregular(s: Seq<char>, windows: bool) -> bool {
    ||| windows && s.contains('\\')
    ||| s.len() > 0 && s.last() == '/'
    ||| exists|i: int| 0 <= i < s.len() - 1 && #[trigger] s[i] == '/' && s[i + 1] == '/'
    ||| exists|i: int, j: int| dots(s, i, j)
}

/// Whether the component between positions `i` and `j` of `s` is `.` or `..`.
pub open spec fn dots(s: Seq<char>, i: int, j: int) -> bool {
    &&& 0 <= i < j <= s.len() && i + 2 >= j
    &&& i == 0 || s[i - 1] == '/'
    &&& j == s.len() || s[j] == '/'
    &&& forall|k: int| i <= k < j ==> #[trigger] s[k] == '.'
}

/// Whether `path` is a candidate for canonicalization: without it a path is
/// canonical.
pub fn path_needs_canonicalization(path: &[char], windows: bool) -> (r: bool)
    ensures
        r == irregular(path@, windows),
{
    let n: usize = path.len();
    if n > 0 && path[n - 1] == '/' {
        return true;
    }
    let mut i: usize = 0;
    // Where the current component begins, and whether it is all dots so far.
    let mut start: usize = 0;
    let mut dotted: bool = true;
    while i < n
        invariant
            n == path@.len(),
            start <= i <= n,
            n > 0 ==> path@[n - 1] != '/',
            start == 0 || path@[start - 1] == '/',
            forall|k: int| start <= k < i ==> #[trigger] path@[k] != '/',
            dotted == forall|k: int| start <= k < i ==> #[trigger] path@[k] == '.',
            windows ==> forall|k: int| 0 <= k < i ==> #[trigger] path@[k] != '\\',
            forall|k: int|
                0 <= k < i && k + 1 < n && #[trigger] path@[k] == '/' ==> path@[k + 1] != '/',
            forall|a: int, b: int| a < start ==> !#[trigger] dots(path@, a, b),
        decreases n - i,
    {
        let c: char = path[i];
        if windows && c == '\\' {
            proof {
                assert(path@.contains('\\'));
            }
            return true;
        }
        if c == '/' {
            if dotted && i > start && i - start <= 2 {
                proof {
                    assert(dots(path@, start as int, i as int));
                }
                return true;
            }
            if i + 1 < n && path[i + 1] == '/' {
                proof {
                    assert(path@[i as int] == '/');
                }
                return true;
            }
            proof {
                assert forall|a: int, b: int| a < i + 1 implies !#[trigger] dots(
                    path@,
                    a,
                    b,
                ) by {
                    if dots(path@, a, b) {
                        assert(a == start ==> path@[a] == '.');
                        assert(start < a <= i ==> path@[a - 1] == '/');
                        if a == i {
                            assert(path@[a] == '.');
                        } else if a == start {
                            assert(b <= i) by {
                                if b > i {
                                    assert(path@[i as int] == '.');
                                }
                            }
                            if b < i {
                                assert(path@[b] == '/');
                            }
                            assert(b == i);
                            assert(forall|k: int| start <= k < i ==> #[trigger] path@[k] == '.');
                        }
                    }
                }
            }
            start = i + 1;
            dotted = true;
        } else if c != '.' {
            dotted = false;
        }
        i += 1;
    }
    if dotted && n > start && n - start <= 2 {
        proof {
            assert(dots(path@, start as int, n as int));
        }
        return true;
    }
    proof {
        assert forall|a: int, b: int| !#[trigger] dots(path@, a, b) by {
            if dots(path@, a, b) {
                assert(start < a ==> path@[a - 1] == '/');
                assert(a == start);
                if b < n {
                    assert(path@[b] == '/');
                }
                assert(forall|k: int| start <= k < n ==> #[trigger] path@[k] == '.');
            }
        }
    }
    false
}

proof fn lemma_joined_push(list: Seq<Seq<char>>, c: Seq<char>)
    ensures
        joined(list.push(c)) == joined(list) + c,
{
    assert(list.push(c).drop_last() =~= list);
}

/// A regular path keeps all of its components.
proof fn lemma_regular_kept(s: Seq<char>, i: int, k: Kept, windows: bool)
    requires
        !irregular(s, windows),
        0 <= i <= s.len(),
        i == 0 || s[i - 1] == '/',
        i == 0 ==> root_len(s, windows) == 0,
    ensures
        all_followed(k, components(s, i, windows), windows).up == k.up,
        joined(all_followed(k, components(s, i, windows), windows).names) == joined(k.names)
            + s.skip(i),
    decreases s.len() - i,
{
    let class = separators(windows);
    if i < s.len() {
        text::lemma_first_in(s, i, class);
        let end = text::first_in(s, i, class);
        assert(windows ==> s[i] != '\\') by {
            assert(s.contains(s[i]));
        }
        assert(s[i] != '/') by {
            if i > 0 {
                assert(s[i - 1] == '/');
            }
        }
        assert(end > i);
        let c = if end < s.len() {
            s.subrange(i, end + 1)
        } else {
            s.subrange(i, s.len() as int)
        };
        let list = components(s, i, windows);
        let name = bare(c, windows);
        if end < s.len() {
            assert(s[end] == '/') by {
                assert(s.contains(s[end]));
            }
            assert(name =~= s.subrange(i, end));
        } else {
            assert(s.last() == s[s.len() - 1]);
            assert(!is_separator(c.last(), windows)) by {
                assert(c.last() == s.last());
                assert(s.contains(s.last()));
            }
            assert(name =~= s.subrange(i, s.len() as int));
        }
        assert(name.len() == end - i);
        assert forall|m: int| i <= m < end implies name[m - i] == #[trigger] s[m] by {}
        assert(!(name =~= seq!['.']) && !(name =~= seq!['.', '.'])) by {
            if name =~= seq!['.'] || name =~= seq!['.', '.'] {
                assert(forall|m: int| i <= m < end ==> #[trigger] s[m] == name[m - i]);
                assert(dots(s, i, end));
            }
        }
        let next = Kept { names: k.names.push(c), ..k };
        assert(followed(k, c, windows) == next);
        assert(list.first() == c);
        lemma_joined_push(k.names, c);
        if end < s.len() {
            assert(list.drop_first() =~= components(s, end + 1, windows));
            lemma_regular_kept(s, end + 1, next, windows);
            assert(s.skip(i) =~= c + s.skip(end + 1));
            assert(joined(k.names) + c + s.skip(end + 1) =~= joined(k.names) + s.skip(i));
        } else {
            assert(list.drop_first() =~= seq![]);
            assert(all_followed(next, list.drop_first(), windows) == next);
            assert(s.skip(i) =~= c);
        }
    } else {
        assert(s.skip(i) =~= seq![]);
        assert(joined(k.names) + s.skip(i) =~= joined(k.names));
    }
}

/// A path without empty, `.` and `..` components, without a separator at its
/// end and, on Windows, without backslashes is canonical.
pub proof fn law_regular_path_is_canonical(s: Seq<char>, windows: bool)
    requires
        !irregular(s, windows),
    ensures
        canonical(s, windows) == (s, 0nat),
{
    if s.len() > 0 {
        let root = root_len(s, windows);
        assert(forall|i: int| 0 <= i < s.len() ==> s.contains(#[trigger] s[i]));
        if root > 0 {
            assert(s[0] == '/');
            assert(root == 1);
        }
        lemma_regular_kept(s, root, nothing_kept(), windows);
        assert(s.take(root) + Seq::<char>::empty() + (Seq::<char>::empty() + s.skip(root)) =~= s);
        assert(!is_separator(s.last(), windows)) by {
            assert(s.last() == s[s.len() - 1]);
        }
        assert(shortened(s, windows) == s);
    }
    if windows {
        assert(with_slashes(s) =~= s) by {
            assert forall|i: int| 0 <= i < s.len() implies with_slashes(s)[i] == s[i] by {
                assert(s.contains(s[i]));
            }
        }
        lemma_no_backslash_bits(s, 64);
    }
}

proof fn lemma_no_backslash_bits(s: Seq<char>, n: nat)
    requires
        !s.contains('\\'),
    ensures
        backslash_bits(s, n) == 0,
    decreases s.len(),
{
    if s.len() > 0 && n > 0 {
        assert(s.contains(s[0]));
        assert(!s.skip(1).contains('\\')) by {
            assert(forall|i: int|
                0 <= i < s.skip(1).len() ==> s.contains(#[trigger] s.skip(1)[i])) by {
                assert forall|i: int| 0 <= i < s.skip(1).len() implies s.contains(
                    #[trigger] s.skip(1)[i],
                ) by {
                    assert(s[i + 1] == s.skip(1)[i]);
                }
            }
        }
        lemma_no_backslash_bits(s.skip(1), (n - 1) as nat);
        lemma_no_backslash_bits(s.skip(1), n);
    }
}

/// The bits of the first `n` separators of `s` from `i` on.
fn collect_backslash_bits(s: &[char], i: usize, n: usize) -> (r: u64)
    requires
        i <= s@.len(),
        n <= 64,
    ensures
        r == backslash_bits(s@.skip(i as int), n as nat),
        r < pow2(n as nat),
    decreases n,
{
    let mut j: usize = i;
    while j < s.len() && s[j] != '/' && s[j] != '\\'
        invariant
            i <= j <= s@.len(),
            backslash_bits(s@.skip(i as int), n as nat) == backslash_bits(
                s@.skip(j as int),
                n as nat,
            ),
        decreases s@.len() - j,
    {
        proof {
            assert(s@.skip(j as int).skip(1) =~= s@.skip(j + 1));
        }
        j += 1;
    }
    proof {
        lemma_pow2_pos(n as nat);
    }
    if j == s.len() || n == 0 {
        return 0;
    }
    let rest: u64 = collect_backslash_bits(s, j + 1, n - 1);
    proof {
        assert(s@.skip(j as int).skip(1) =~= s@.skip(j + 1));
        lemma_pow2_unfold(n as nat);
        lemma2_to64();
        if n < 64 {
            lemma_pow2_strictly_increases(n as nat, 64);
        }
        assert(pow2(64) == 0x10000000000000000);
    }
    if s[j] == '\\' {
        1 + 2 * rest
    } else {
        2 * rest
    }
}

/// Writes what is kept of `s` behind its root.
fn shorten(s: &[char], windows: bool) -> (out: Vec<char>)
    requires
        s@.len() > 0,
    ensures
        out@ == shortened(s@, windows),
{
    let mut root: usize = 0;
    if separates(s[0], windows) {
        root = 1;
        if windows && s.len() > 1 && separates(s[1], windows) {
            root = 2;
        }
    }
    let mut out: Vec<char> = Vec::new();
    push_all(&mut out, slice_subrange(s, 0, root));
    // Where each name begins in `out`.
    let mut starts: Vec<usize> = Vec::new();
    let mut i: usize = root;
    let ghost mut k = nothing_kept();
    proof {
        assert(out@ =~= s@.take(root as int) + joined(k.up) + joined(k.names));
    }
    while i < s.len()
        invariant
            root == root_len(s@, windows),
            root <= i <= s@.len(),
            out@ == s@.take(root as int) + joined(k.up) + joined(k.names),
            starts@.len() == k.names.len(),
            forall|m: int|
                0 <= m < starts@.len() ==> #[trigger] starts@[m] == root + joined(k.up).len()
                    + joined(k.names.take(m)).len(),
            kept(s@, windows) == all_followed(
                k,
                components(s@, i as int, windows),
                windows,
            ),
        decreases s@.len() - i,
    {
        let end: usize = find_in(s, i, separator_class(windows));
        let stop: usize = if end < s.len() {
            end + 1
        } else {
            end
        };
        let len: usize = end - i;
        let ghost c = s@.subrange(i as int, stop as int);
        let ghost list = components(s@, i as int, windows);
        let ghost before = k;
        proof {
            assert(list.first() == c);
            assert(list.drop_first() =~= components(s@, stop as int, windows));
            assert(bare(c, windows) =~= s@.subrange(i as int, end as int)) by {
                if end == s@.len() && c.len() > 0 {
                    assert(c.last() == s@[end - 1]);
                }
            }
        }
        let up: bool = len == 2 && s[i] == '.' && s[i + 1] == '.';
        let skip: bool = len == 0 || (len == 1 && s[i] == '.');
        proof {
            let name = bare(c, windows);
            k = followed(k, c, windows);
            assert(skip == (name =~= seq![] || name =~= seq!['.'])) by {
                if skip && len == 1 {
                    assert(name =~= seq!['.']);
                }
                if name =~= seq!['.'] {
                    assert(name[0] == s@[i as int]);
                }
            }
            assert(up == (name =~= seq!['.', '.'])) by {
                if name =~= seq!['.', '.'] {
                    assert(name[0] == s@[i as int]);
                    assert(name[1] == s@[i + 1]);
                }
            }
        }
        if up && starts.len() > 0 {
            let start: usize = starts[starts.len() - 1];
            starts.pop();
            proof {
                assert(before.names.take(before.names.len() - 1) =~= before.names.drop_last());
                assert(forall|m: int|
                    0 <= m < k.names.len() ==> #[trigger] k.names.take(m) =~= before.names.take(
                        m,
                    ));
            }
            out.truncate(start);
            proof {
                assert(out@ =~= s@.take(root as int) + joined(k.up) + joined(k.names));
            }
        } else if !skip {
            if !up {
                starts.push(out.len());
            }
            push_all(&mut out, slice_subrange(s, i, stop));
            proof {
                if up {
                    lemma_joined_push(before.up, c);
                    assert(before.names =~= seq![]);
                    assert(out@ =~= s@.take(root as int) + joined(k.up) + joined(k.names));
                } else {
                    lemma_joined_push(before.names, c);
                    assert(out@ =~= s@.take(root as int) + joined(k.up) + joined(k.names));
                    assert(k.names.take(before.names.len() as int) =~= before.names);
                    assert(forall|m: int|
                        0 <= m < before.names.len() ==> #[trigger] k.names.take(m)
                            =~= before.names.take(m));
                }
            }
        }
        i = stop;
    }
    let n: usize = out.len();
    if n > root && separates(out[n - 1], windows) {
        out.pop();
    }
    if out.len() == 0 {
        out.push('.');
    }
    proof {
        let t = s@.take(root as int) + joined(k.up) + joined(k.names);
        assert(without_end_separator(t, root as int, windows).len() > 0 ==> out@
            =~= without_end_separator(t, root as int, windows));
        assert(without_end_separator(t, root as int, windows).len() == 0 ==> out@ =~= seq!['.']);
    }
    out
}

/// The canonical form of `path`, and the bits that tell which of its slashes
/// were backslashes.
pub fn canonicalize(path: &[char], windows: bool) -> (r: (Vec<char>, u64))
    ensures
        r.0@ == canonical(path@, windows).0,
        r.1 == canonical(path@, windows).1,
{
    if path.len() == 0 || !path_needs_canonicalization(path, windows) {
        proof {
            law_regular_path_is_canonical(path@, windows);
        }
        return (vstd::slice::slice_to_vec(path), 0);
    }
    let short: Vec<char> = shorten(path, windows);
    if !windows {
        return (short, 0);
    }
    let bits: u64 = collect_backslash_bits(short.as_slice(), 0, 64);
    let mut out: Vec<char> = Vec::new();
    let mut i: usize = 0;
    while i < short.len()
        invariant
            i <= short@.len(),
            out@ =~= with_slashes(short@).take(i as int),
        decreases short@.len() - i,
    {
        out.push(
            if short[i] == '\\' {
                '/'
            } else {
                short[i]
            },
        );
        i += 1;
    }
    proof {
        assert(short@.skip(0) =~= short@);
        assert(out@ =~= with_slashes(short@));
    }
    (out, bits)
}

/// The canonical form of `path`, and the bits that tell which of its slashes
/// were backslashes.
pub fn canonicalize_owned_path_with_bits(path: String, windows: bool) -> (r: (String, u64))
    ensures
        r.0@ == canonical(path@, windows).0,
        r.1 == canonical(path@, windows).1,
{
    let (chars, bits) = canonicalize(chars_of(path.as_str()).as_slice(), windows);
    (string_of(chars.as_slice()), bits)
}

/// The canonical form of a POSIX path.
pub fn canonicalize_owned_path(path: String) -> (r: String)
    ensures
        r@ == canonical(path@, false).0,
{
    canonicalize_owned_path_with_bits(path, false).0
}

/// The canonical form of a POSIX path.
pub fn canonicalize_path(path: &str) -> (r: String)
    ensures
        r@ == canonical(path@, false).0,
{
    canonicalize_owned_path(path.to_owned())
}

/// `s` with a backslash in place of each slash whose bit is set.
pub open spec fn decanonical(s: Seq<char>, bits: nat) -> Seq<char>
    decreases s.len(),
{
    if s.len() == 0 {
        seq![]
    } else if s[0] == '/' {
        seq![
            if bits % 2 == 1 {
                '\\'
            } else {
                '/'
            },
        ] + decanonical(s.skip(1), bits / 2)
    } else {
        seq![s[0]] + decanonical(s.skip(1), bits)
    }
}

/// `path` with a backslash in place of each slash whose bit is set.
pub fn decanonicalize_path(path: &str, slash_bits: u64) -> (r: String)
    ensures
        r@ == decanonical(path@, slash_bits as nat),
{
    let s: Vec<char> = chars_of(path);
    let mut out: Vec<char> = Vec::new();
    let mut bits: u64 = slash_bits;
    let mut i: usize = 0;
    proof {
        assert(s@.skip(0) =~= s@);
    }
    while i < s.len()
        invariant
            i <= s@.len(),
            out@ + decanonical(s@.skip(i as int), bits as nat) =~= decanonical(
                s@,
                slash_bits as nat,
            ),
        decreases s@.len() - i,
    {
        proof {
            assert(s@.skip(i as int).skip(1) =~= s@.skip(i + 1));
        }
        if s[i] == '/' {
            out.push(
                if bits % 2 == 1 {
                    '\\'
                } else {
                    '/'
                },
            );
            bits = bits / 2;
        } else {
            out.push(s[i]);
        }
        i += 1;
    }
    string_of(out.as_slice())
}

/// Without bits a path stays as it is.
pub proof fn law_no_bits_keep_slashes(s: Seq<char>)
    ensures
        decanonical(s, 0) == s,
    decreases s.len(),
{
    if s.len() > 0 {
        law_no_bits_keep_slashes(s.skip(1));
        assert(s =~= seq![s[0]] + s.skip(1));
    }
}

/// The number of separators in `s`.
pub open spec fn separator_count(s: Seq<char>) -> nat
    decreases s.len(),
{
    if s.len() == 0 {
        0
    } else {
        separator_count(s.skip(1)) + if s[0] == '/' || s[0] == '\\' {
            1nat
        } else {
            0nat
        }
    }
}

proof fn lemma_bits_restore(s: Seq<char>, n: nat)
    requires
        separator_count(s) <= n,
    ensures
        decanonical(with_slashes(s), backslash_bits(s, n)) == s,
    decreases s.len(),
{
    if s.len() > 0 {
        let rest = s.skip(1);
        assert(with_slashes(s).skip(1) =~= with_slashes(rest));
        assert(s =~= seq![s[0]] + rest);
        if s[0] == '/' || s[0] == '\\' {
            lemma_bits_restore(rest, (n - 1) as nat);
        } else {
            lemma_bits_restore(rest, n);
            if n == 0 {
                law_no_bits_keep_slashes(with_slashes(s));
                law_no_bits_keep_slashes(with_slashes(rest));
            }
        }
    } else {
        assert(with_slashes(s) =~= seq![]);
    }
}

/// The slash bits of a canonical Windows path give its separators back, where
/// it has no more of them than there are bits.
pub proof fn law_slash_bits_restore_separators(s: Seq<char>)
    requires
        separator_count(shortened(s, true)) <= 64,
    ensures
        decanonical(canonical(s, true).0, canonical(s, true).1) == shortened(s, true),
{
    lemma_bits_restore(shortened(s, true), 64);
}

/// Whether `c` is a component: not empty, and without a separator before its end.
spec fn is_component(c: Seq<char>, windows: bool) -> bool {
    c.len() > 0 && forall|i: int|
        0 <= i < c.len() - 1 ==> !is_separator(#[trigger] c[i], windows)
}

spec fn is_closed(c: Seq<char>, windows: bool) -> bool {
    c.len() > 0 && is_separator(c.last(), windows)
}

spec fn leads_up(c: Seq<char>, windows: bool) -> bool {
    bare(c, windows) == seq!['.', '.']
}

spec fn is_named(c: Seq<char>, windows: bool) -> bool {
    let name = bare(c, windows);
    name.len() > 0 && name != seq!['.'] && name != seq!['.', '.']
}

/// A list of components, all but perhaps the last with their separators.
spec fn is_list(list: Seq<Seq<char>>, windows: bool) -> bool {
    &&& forall|i: int| 0 <= i < list.len() ==> is_component(#[trigger] list[i], windows)
    &&& forall|i: int| 0 <= i < list.len() - 1 ==> is_closed(#[trigger] list[i], windows)
}

spec fn is_closed_list(list: Seq<Seq<char>>, windows: bool) -> bool {
    forall|i: int|
        0 <= i < list.len() ==> is_component(#[trigger] list[i], windows) && is_closed(
            list[i],
            windows,
        )
}

spec fn is_sorted(k: Kept, windows: bool) -> bool {
    &&& forall|i: int| 0 <= i < k.up.len() ==> leads_up(#[trigger] k.up[i], windows)
    &&& forall|i: int| 0 <= i < k.names.len() ==> is_named(#[trigger] k.names[i], windows)
}

proof fn lemma_components_are_a_list(s: Seq<char>, i: int, windows: bool)
    requires
        0 <= i <= s.len(),
    ensures
        is_list(components(s, i, windows), windows),
    decreases s.len() - i,
{
    if i < s.len() {
        let class = separators(windows);
        text::lemma_first_in(s, i, class);
        let end = text::first_in(s, i, class);
        let list = components(s, i, windows);
        if end < s.len() {
            lemma_components_are_a_list(s, end + 1, windows);
            let rest = components(s, end + 1, windows);
            let c = s.subrange(i, end + 1);
            assert(is_component(c, windows) && is_closed(c, windows));
            assert forall|m: int| 0 <= m < list.len() implies is_component(
                #[trigger] list[m],
                windows,
            ) by {
                if m > 0 {
                    assert(list[m] == rest[m - 1]);
                }
            }
            assert forall|m: int| 0 <= m < list.len() - 1 implies is_closed(
                #[trigger] list[m],
                windows,
            ) by {
                if m > 0 {
                    assert(list[m] == rest[m - 1]);
                }
            }
        } else {
            assert(is_component(s.subrange(i, s.len() as int), windows));
        }
    }
}

proof fn lemma_kept_is_a_list(k: Kept, list: Seq<Seq<char>>, windows: bool)
    requires
        is_list(list, windows),
        is_sorted(k, windows),
        is_closed_list(k.up, windows),
        is_closed_list(k.names, windows),
    ensures
        is_sorted(all_followed(k, list, windows), windows),
        is_list(
            all_followed(k, list, windows).up + all_followed(k, list, windows).names,
            windows,
        ),
    decreases list.len(),
{
    if list.len() > 0 {
        let c = list.first();
        let next = followed(k, c, windows);
        let rest = list.drop_first();
        assert(is_sorted(next, windows));
        assert forall|m: int| 0 <= m < rest.len() implies is_component(
            #[trigger] rest[m],
            windows,
        ) by {
            assert(rest[m] == list[m + 1]);
        }
        assert forall|m: int| 0 <= m < rest.len() - 1 implies is_closed(
            #[trigger] rest[m],
            windows,
        ) by {
            assert(rest[m] == list[m + 1]);
        }
        assert(is_component(list[0], windows));
        if rest.len() > 0 {
            assert(is_closed(list[0], windows));
            lemma_kept_is_a_list(next, rest, windows);
        } else {
            assert(all_followed(next, rest, windows) == next);
        }
    }
}

proof fn lemma_joined_front(list: Seq<Seq<char>>)
    requires
        list.len() > 0,
    ensures
        joined(list) == list.first() + joined(list.drop_first()),
    decreases list.len(),
{
    if list.len() == 1 {
        assert(list.drop_last() =~= seq![]);
        assert(list.drop_first() =~= seq![]);
        assert(joined(list) =~= list.first() + joined(list.drop_first()));
    } else {
        lemma_joined_front(list.drop_last());
        assert(list.drop_last().drop_first() =~= list.drop_first().drop_last());
        assert(joined(list) =~= list.first() + joined(list.drop_first()));
    }
}

proof fn lemma_joined_concat(a: Seq<Seq<char>>, b: Seq<Seq<char>>)
    ensures
        joined(a + b) == joined(a) + joined(b),
    decreases b.len(),
{
    if b.len() == 0 {
        assert(a + b =~= a);
        assert(joined(a) + joined(b) =~= joined(a));
    } else {
        lemma_joined_concat(a, b.drop_last());
        assert((a + b).drop_last() =~= a + b.drop_last());
        assert(joined(a + b) =~= joined(a) + joined(b));
    }
}

/// Joining a list whose last component has no separator, and taking the result
/// apart, gives the list.
proof fn lemma_split_joined(pre: Seq<char>, list: Seq<Seq<char>>, windows: bool)
    requires
        is_list(list, windows),
        list.len() > 0 ==> !is_closed(list.last(), windows),
    ensures
        components(pre + joined(list), pre.len() as int, windows) == list,
    decreases list.len(),
{
    let s = pre + joined(list);
    let i = pre.len() as int;
    let class = separators(windows);
    if list.len() == 0 {
        assert(s =~= pre);
    } else {
        lemma_joined_front(list);
        let c = list.first();
        let rest = list.drop_first();
        assert(is_component(list[0], windows));
        assert forall|m: int| 0 <= m < c.len() implies s[i + m] == #[trigger] c[m] by {}
        text::lemma_first_in(s, i, class);
        let end = text::first_in(s, i, class);
        assert forall|m: int| i <= m < i + c.len() - 1 implies !is_separator(
            #[trigger] s[m],
            windows,
        ) by {
            assert(s[m] == c[m - i]);
        }
        if rest.len() == 0 {
            assert(joined(rest) =~= seq![]);
            assert(s =~= pre + c);
            assert(!is_separator(c.last(), windows));
            assert(end == s.len()) by {
                if end < s.len() {
                    assert(s[end] == c[end - i]);
                }
            }
            assert(s.subrange(i, s.len() as int) =~= c);
            assert(components(s, i, windows) =~= list);
        } else {
            assert(is_closed(list[0], windows));
            assert(s[i + c.len() - 1] == c[c.len() - 1]);
            assert(end == i + c.len() - 1);
            assert(s.subrange(i, end + 1) =~= c);
            assert forall|m: int| 0 <= m < rest.len() implies is_component(
                #[trigger] rest[m],
                windows,
            ) by {
                assert(rest[m] == list[m + 1]);
            }
            assert forall|m: int| 0 <= m < rest.len() - 1 implies is_closed(
                #[trigger] rest[m],
                windows,
            ) by {
                assert(rest[m] == list[m + 1]);
            }
            assert(rest.last() == list.last());
            lemma_split_joined(pre + c, rest, windows);
            assert((pre + c) + joined(rest) =~= s);
            assert(components(s, i, windows) =~= list);
        }
    }
}

/// A list that leads up and then names is kept whole.
proof fn lemma_sorted_is_kept(k: Kept, up: Seq<Seq<char>>, names: Seq<Seq<char>>, windows: bool)
    requires
        up.len() > 0 ==> k.names.len() == 0,
        forall|i: int| 0 <= i < up.len() ==> leads_up(#[trigger] up[i], windows),
        forall|i: int| 0 <= i < names.len() ==> is_named(#[trigger] names[i], windows),
    ensures
        all_followed(k, up + names, windows) == (Kept {
            up: k.up + up,
            names: k.names + names,
        }),
    decreases up.len() + names.len(),
{
    let list = up + names;
    if up.len() > 0 {
        let c = up.first();
        let next = followed(k, c, windows);
        assert(leads_up(up[0], windows));
        assert(next =~= (Kept { up: k.up.push(c), ..k }));
        assert(list.first() == c);
        assert(list.drop_first() =~= up.drop_first() + names);
        assert forall|i: int| 0 <= i < up.drop_first().len() implies leads_up(
            #[trigger] up.drop_first()[i],
            windows,
        ) by {
            assert(up.drop_first()[i] == up[i + 1]);
        }
        lemma_sorted_is_kept(next, up.drop_first(), names, windows);
        assert(next.up + up.drop_first() =~= k.up + up);
    } else if names.len() > 0 {
        let c = names.first();
        let next = followed(k, c, windows);
        assert(is_named(names[0], windows));
        assert(next =~= (Kept { names: k.names.push(c), ..k }));
        assert(list.first() == c);
        assert(list.drop_first() =~= up + names.drop_first());
        assert forall|i: int| 0 <= i < names.drop_first().len() implies is_named(
            #[trigger] names.drop_first()[i],
            windows,
        ) by {
            assert(names.drop_first()[i] == names[i + 1]);
        }
        lemma_sorted_is_kept(next, up, names.drop_first(), windows);
        assert(next.names + names.drop_first() =~= k.names + names);
        assert(k.up + up =~= k.up);
    } else {
        assert(list =~= seq![]);
        assert(k.up + up =~= k.up);
        assert(k.names + names =~= k.names);
    }
}

/// `c` as the canonical path holds it: on Windows with slashes for backslashes.
spec fn settled(c: Seq<char>, windows: bool) -> Seq<char> {
    if windows {
        with_slashes(c)
    } else {
        c
    }
}

spec fn all_settled(list: Seq<Seq<char>>, windows: bool) -> Seq<Seq<char>> {
    list.map_values(|c: Seq<char>| settled(c, windows))
}

proof fn lemma_settled(c: Seq<char>, windows: bool)
    ensures
        settled(c, windows).len() == c.len(),
        forall|i: int|
            0 <= i < c.len() ==> is_separator(#[trigger] settled(c, windows)[i], windows)
                == is_separator(c[i], windows) && (!is_separator(c[i], windows) ==> settled(
                c,
                windows,
            )[i] == c[i]),
        is_component(c, windows) ==> is_component(settled(c, windows), windows),
        is_closed(c, windows) == is_closed(settled(c, windows), windows),
        is_component(c, windows) ==> bare(settled(c, windows), windows) == bare(c, windows),
{
    let d = settled(c, windows);
    if is_component(c, windows) {
        assert(d.last() == d[d.len() - 1] && c.last() == c[c.len() - 1]);
        assert(bare(d, windows) =~= bare(c, windows));
    }
}

proof fn lemma_joined_settled(list: Seq<Seq<char>>, windows: bool)
    ensures
        settled(joined(list), windows) == joined(all_settled(list, windows)),
    decreases list.len(),
{
    if list.len() == 0 {
        assert(all_settled(list, windows) =~= seq![]);
        assert(settled(joined(list), windows) =~= seq![]);
    } else {
        lemma_joined_settled(list.drop_last(), windows);
        assert(all_settled(list, windows).drop_last() =~= all_settled(list.drop_last(), windows));
        assert(settled(joined(list), windows) =~= settled(joined(list.drop_last()), windows)
            + settled(list.last(), windows));
    }
}

/// `list` without the separator at its end.
spec fn opened(list: Seq<Seq<char>>, windows: bool) -> Seq<Seq<char>> {
    if list.len() > 0 {
        list.drop_last().push(bare(list.last(), windows))
    } else {
        list
    }
}

proof fn lemma_opened_and_settled(k: Kept, windows: bool)
    requires
        is_sorted(k, windows),
        is_list(k.up + k.names, windows),
        (k.up + k.names).len() > 0,
    ensures
        ({
            let wide = all_settled(opened(k.up + k.names, windows), windows);
            &&& is_list(wide, windows)
            &&& wide.len() == (k.up + k.names).len()
            &&& !is_closed(wide.last(), windows)
            &&& forall|i: int| 0 <= i < k.up.len() ==> leads_up(#[trigger] wide[i], windows)
            &&& forall|i: int|
                k.up.len() <= i < wide.len() ==> is_named(#[trigger] wide[i], windows)
        }),
{
    let list = k.up + k.names;
    let open = opened(list, windows);
    let wide = all_settled(open, windows);
    assert forall|i: int| 0 <= i < list.len() implies bare(
        #[trigger] list[i],
        windows,
    ).len() > 0 by {
        if i < k.up.len() {
            assert(list[i] == k.up[i]);
        } else {
            assert(list[i] == k.names[i - k.up.len()]);
        }
    }
    assert forall|i: int| 0 <= i < wide.len() implies is_component(#[trigger] wide[i], windows)
        && (i < wide.len() - 1 ==> is_closed(wide[i], windows)) && bare(wide[i], windows) == bare(
        list[i],
        windows,
    ) && (i == wide.len() - 1 ==> !is_closed(wide[i], windows)) by {
        assert(is_component(list[i], windows));
        if i == list.len() - 1 {
            let last = list[i];
            let b = bare(last, windows);
            assert(open[i] == b);
            assert(b.last() == last[b.len() - 1]);
            assert(is_component(b, windows));
            assert(bare(b, windows) == b);
        } else {
            assert(open[i] == list[i]);
        }
        lemma_settled(open[i], windows);
        assert(wide[i] == settled(open[i], windows));
    }
    assert forall|i: int| 0 <= i < k.up.len() implies leads_up(#[trigger] wide[i], windows) by {
        assert(list[i] == k.up[i]);
    }
    assert forall|i: int| k.up.len() <= i < wide.len() implies is_named(
        #[trigger] wide[i],
        windows,
    ) by {
        assert(list[i] == k.names[i - k.up.len()]);
    }
}

proof fn lemma_canonical_text(s: Seq<char>, windows: bool)
    requires
        s.len() > 0,
        is_list(kept(s, windows).up + kept(s, windows).names, windows),
        is_sorted(kept(s, windows), windows),
        (kept(s, windows).up + kept(s, windows).names).len() > 0,
    ensures
        canonical(s, windows).0 == settled(s.take(root_len(s, windows)), windows) + joined(
            all_settled(opened(kept(s, windows).up + kept(s, windows).names, windows), windows),
        ),
{
    let root = root_len(s, windows);
    let k = kept(s, windows);
    let list = k.up + k.names;
    let t0 = s.take(root) + joined(k.up) + joined(k.names);
    lemma_joined_concat(k.up, k.names);
    assert(t0 =~= s.take(root) + joined(list));
    let last = list.last();
    assert(is_component(list[list.len() - 1], windows));
    assert(bare(last, windows).len() > 0) by {
        if k.names.len() > 0 {
            assert(last == k.names[k.names.len() - 1]);
        } else {
            assert(last == k.up[k.up.len() - 1]);
        }
    }
    let open = opened(list, windows);
    assert(open.drop_last() =~= list.drop_last());
    assert(t0.last() == last.last());
    let short = s.take(root) + joined(open);
    assert(without_end_separator(t0, root, windows) =~= short);
    assert(shortened(s, windows) == short);
    lemma_joined_settled(open, windows);
    assert(settled(short, windows) =~= settled(s.take(root), windows) + settled(
        joined(open),
        windows,
    ));
}

/// The canonical form of a path is its own canonical form.
pub proof fn law_canonical_is_idempotent(s: Seq<char>, windows: bool)
    ensures
        canonical(canonical(s, windows).0, windows).0 == canonical(s, windows).0,
{
    if s.len() == 0 {
        assert(with_slashes(s) =~= s);
    } else {
        let root = root_len(s, windows);
        let k = kept(s, windows);
        lemma_components_are_a_list(s, root, windows);
        lemma_kept_is_a_list(nothing_kept(), components(s, root, windows), windows);
        let list = k.up + k.names;
        if list.len() == 0 {
            lemma_root_is_canonical(s, windows);
        } else {
            lemma_canonical_text(s, windows);
            lemma_opened_and_settled(k, windows);
            let t = canonical(s, windows).0;
            let pre = settled(s.take(root), windows);
            let wide = all_settled(opened(list, windows), windows);
            let up = wide.take(k.up.len() as int);
            let names = wide.skip(k.up.len() as int);
            assert(up + names =~= wide);
            lemma_settled(s.take(root), windows);
            assert forall|i: int| 0 <= i < names.len() implies is_named(
                #[trigger] names[i],
                windows,
            ) by {
                assert(names[i] == wide[i + k.up.len()]);
            }
            lemma_sorted_list_is_canonical(pre, up, names, windows);
            if windows {
                assert(with_slashes(t) =~= t);
            }
        }
    }
}

/// The root `pre` followed by components that lead up and then name is kept
/// whole.
proof fn lemma_sorted_list_is_canonical(
    pre: Seq<char>,
    up: Seq<Seq<char>>,
    names: Seq<Seq<char>>,
    windows: bool,
)
    requires
        pre.len() <= if windows {
            2int
        } else {
            1int
        },
        forall|i: int| 0 <= i < pre.len() ==> is_separator(#[trigger] pre[i], windows),
        (up + names).len() > 0,
        is_list(up + names, windows),
        !is_closed((up + names).last(), windows),
        forall|i: int| 0 <= i < up.len() ==> leads_up(#[trigger] up[i], windows),
        forall|i: int| 0 <= i < names.len() ==> is_named(#[trigger] names[i], windows),
    ensures
        shortened(pre + joined(up + names), windows) == pre + joined(up + names),
{
    let wide = up + names;
    let t = pre + joined(wide);
    let root = pre.len() as int;
    lemma_split_joined(pre, wide, windows);
    lemma_joined_front(wide);
    let first = wide.first();
    assert(first == wide[0]);
    assert(is_component(wide[0], windows));
    assert(t[root] == first[0]);
    assert(!is_separator(first[0], windows)) by {
        if up.len() > 0 {
            assert(first == up[0]);
        } else {
            assert(first == names[0]);
        }
        assert(bare(first, windows).len() > 0);
        if first.len() == 1 {
            assert(first[0] == first.last());
        }
    }
    if root > 0 {
        assert(t[0] == pre[0]);
    }
    if root > 1 {
        assert(t[1] == pre[1]);
    }
    assert(root_len(t, windows) == root);
    lemma_sorted_is_kept(nothing_kept(), up, names, windows);
    assert(Seq::<Seq<char>>::empty() + up =~= up);
    assert(Seq::<Seq<char>>::empty() + names =~= names);
    assert(kept(t, windows) == (Kept { up, names }));
    lemma_joined_concat(up, names);
    assert(t.take(root) =~= pre);
    assert(t.take(root) + joined(up) + joined(names) =~= t);
    assert(is_component(wide[wide.len() - 1], windows));
    assert(joined(wide) == joined(wide.drop_last()) + wide.last());
    assert(t.last() == wide.last().last());
}

proof fn lemma_root_is_canonical(s: Seq<char>, windows: bool)
    requires
        s.len() > 0,
        kept(s, windows).up.len() == 0,
        kept(s, windows).names.len() == 0,
    ensures
        canonical(canonical(s, windows).0, windows).0 == canonical(s, windows).0,
{
    let root = root_len(s, windows);
    let t = canonical(s, windows).0;
    assert(s.take(root) + joined(kept(s, windows).up) + joined(kept(s, windows).names)
        =~= s.take(root));
    if root == 0 {
        let dot = seq!['.'];
        assert(with_slashes(dot) =~= dot);
        assert(t =~= dot);
        text::lemma_first_in(t, 0, separators(windows));
        assert(t.subrange(0, 1) =~= dot);
        let list = components(t, 0, windows);
        assert(list =~= seq![dot]);
        assert(list.drop_first() =~= seq![]);
        assert(bare(dot, windows) =~= dot);
        assert(all_followed(nothing_kept(), list.drop_first(), windows) == nothing_kept());
        assert(kept(t, windows) == nothing_kept());
        assert(t.take(0) + joined(seq![]) + joined(seq![]) =~= seq![]);
    } else {
        assert(t.len() == root);
        assert(t[0] == '/');
        if root == 2 {
            assert(t[1] == '/');
        }
        assert(kept(t, windows) == nothing_kept());
        assert(t.take(root) + joined(seq![]) + joined(seq![]) =~= t);
        assert(shortened(t, windows) == t);
        if windows {
            assert(with_slashes(t) =~= t);
        }
    }
}

proof fn lemma_followed_push(k: Kept, list: Seq<Seq<char>>, c: Seq<char>, windows: bool)
    ensures
        all_followed(k, list.push(c), windows) == followed(
            all_followed(k, list, windows),
            c,
            windows,
        ),
    decreases list.len(),
{
    let longer = list.push(c);
    if list.len() == 0 {
        assert(longer.drop_first() =~= seq![]);
        assert(all_followed(followed(k, c, windows), longer.drop_first(), windows) == followed(
            k,
            c,
            windows,
        ));
    } else {
        assert(longer.drop_first() =~= list.drop_first().push(c));
        assert(longer.first() == list.first());
        lemma_followed_push(followed(k, list.first(), windows), list.drop_first(), c, windows);
    }
}

proof fn lemma_followed_join(k: Kept, a: Seq<Seq<char>>, b: Seq<Seq<char>>, windows: bool)
    ensures
        all_followed(k, a + b, windows) == all_followed(all_followed(k, a, windows), b, windows),
    decreases b.len(),
{
    if b.len() == 0 {
        assert(a + b =~= a);
    } else {
        let shorter = b.drop_last();
        lemma_followed_join(k, a, shorter, windows);
        assert(a + b =~= (a + shorter).push(b.last()));
        lemma_followed_push(k, a + shorter, b.last(), windows);
        assert(b =~= shorter.push(b.last()));
        lemma_followed_push(all_followed(k, a, windows), shorter, b.last(), windows);
    }
}

proof fn lemma_first_in_front(a: Seq<char>, b: Seq<char>, i: int, class: Class)
    requires
        0 <= i < a.len(),
        text::belongs(a.last(), class),
    ensures
        text::first_in(a, i, class) < a.len(),
        text::first_in(a + b, i, class) == text::first_in(a, i, class),
    decreases a.len() - i,
{
    assert((a + b)[i] == a[i]);
    if !text::belongs(a[i], class) {
        lemma_first_in_front(a, b, i + 1, class);
    }
}

proof fn lemma_first_in_back(a: Seq<char>, b: Seq<char>, j: int, class: Class)
    requires
        0 <= j <= b.len(),
    ensures
        text::first_in(a + b, a.len() + j, class) == a.len() + text::first_in(b, j, class),
    decreases b.len() - j,
{
    if j < b.len() {
        assert((a + b)[a.len() + j] == b[j]);
        if !text::belongs(b[j], class) {
            lemma_first_in_back(a, b, j + 1, class);
        }
    }
}

proof fn lemma_components_behind(a: Seq<char>, b: Seq<char>, j: int, windows: bool)
    requires
        0 <= j <= b.len(),
    ensures
        components(a + b, a.len() + j, windows) == components(b, j, windows),
    decreases b.len() - j,
{
    let n = a.len();
    if j < b.len() {
        lemma_first_in_back(a, b, j, separators(windows));
        text::lemma_first_in(b, j, separators(windows));
        let end = text::first_in(b, j, separators(windows));
        if end < b.len() {
            assert((a + b).subrange(n + j, n + end + 1) =~= b.subrange(j, end + 1));
            lemma_components_behind(a, b, end + 1, windows);
        } else {
            assert((a + b).subrange(n + j, (a + b).len() as int) =~= b.subrange(
                j,
                b.len() as int,
            ));
        }
    }
}

/// The components of a text that ends with a separator come before those behind it.
proof fn lemma_components_joined(a: Seq<char>, b: Seq<char>, i: int, windows: bool)
    requires
        0 <= i <= a.len(),
        a.len() > 0,
        is_separator(a.last(), windows),
    ensures
        components(a + b, i, windows) == components(a, i, windows) + components(b, 0, windows),
    decreases a.len() - i,
{
    let class = separators(windows);
    if i == a.len() {
        lemma_components_behind(a, b, 0, windows);
        assert(components(a, i, windows) + components(b, 0, windows) =~= components(
            b,
            0,
            windows,
        ));
    } else {
        text::lemma_first_in(a, i, class);
        lemma_first_in_front(a, b, i, class);
        let end = text::first_in(a, i, class);
        assert((a + b).subrange(i, end + 1) =~= a.subrange(i, end + 1));
        lemma_components_joined(a, b, end + 1, windows);
        let c = seq![a.subrange(i, end + 1)];
        assert(c + (components(a, end + 1, windows) + components(b, 0, windows)) =~= c
            + components(a, end + 1, windows) + components(b, 0, windows));
    }
}

/// The components of a text once a slash follows it.
proof fn lemma_components_closed(s: Seq<char>, i: int)
    requires
        0 <= i <= s.len(),
    ensures
        ({
            let open = components(s, i, false);
            let closed = components(s.push('/'), i, false);
            if i < s.len() && s.last() != '/' {
                &&& open.len() > 0
                &&& open.last().len() > 0
                &&& open.last().last() != '/'
                &&& closed == open.drop_last().push(open.last().push('/'))
            } else {
                closed == open.push(seq!['/'])
            }
        }),
    decreases s.len() - i,
{
    let t = s.push('/');
    let class = separators(false);
    let open = components(s, i, false);
    let closed = components(t, i, false);
    text::lemma_first_in(s, i, class);
    text::lemma_first_in(t, i, class);
    let end = text::first_in(s, i, class);
    let next = text::first_in(t, i, class);
    assert(forall|k: int| 0 <= k < s.len() ==> t[k] == s[k]);
    assert(t[s.len() as int] == '/');
    assert(next == end) by {
        if next < end {
            assert(t[next] == s[next]);
        }
        if end < next {
            if end < s.len() {
                assert(!text::belongs(t[end], class));
            } else {
                assert(!text::belongs(t[s.len() as int], class));
            }
        }
    }
    if i == s.len() {
        assert(t.subrange(i, i + 1) =~= seq!['/']);
        assert(components(t, i + 1, false) =~= seq![]);
        assert(closed =~= open.push(seq!['/']));
    } else if end < s.len() {
        lemma_components_closed(s, end + 1);
        assert(t.subrange(i, end + 1) =~= s.subrange(i, end + 1));
        let c = seq![s.subrange(i, end + 1)];
        let rest = components(s, end + 1, false);
        assert(closed == c + components(t, end + 1, false));
        if end + 1 < s.len() && s.last() != '/' {
            assert((c + rest).drop_last() =~= c + rest.drop_last());
            assert(closed =~= open.drop_last().push(open.last().push('/')));
        } else {
            assert(end + 1 == s.len() ==> s.last() == s[end]);
            assert(closed =~= open.push(seq!['/']));
        }
    } else {
        let c = s.subrange(i, s.len() as int);
        assert(s.last() != '/') by {
            assert(!text::belongs(s[s.len() - 1], class));
        }
        assert(t.subrange(i, end + 1) =~= c.push('/'));
        assert(components(t, end + 1, false) =~= seq![]);
        assert(open.drop_last() =~= seq![]);
        assert(closed =~= open.drop_last().push(open.last().push('/')));
        assert(c.last() == s.last());
    }
}

/// A slash at the end of a path does not change its canonical form.
proof fn lemma_end_slash(s: Seq<char>)
    requires
        s.len() > 0,
    ensures
        canonical(s.push('/'), false).0 == canonical(s, false).0,
{
    let t = s.push('/');
    let root = root_len(s, false);
    assert(t[0] == s[0]);
    assert(root_len(t, false) == root);
    assert(t.take(root) =~= s.take(root));
    lemma_components_closed(s, root);
    let open = components(s, root, false);
    let closed = components(t, root, false);
    let none = nothing_kept();
    if root < s.len() && s.last() != '/' {
        let front = open.drop_last();
        let c = open.last();
        let d = c.push('/');
        let before = all_followed(none, front, false);
        assert(open =~= front.push(c));
        lemma_followed_push(none, front, c, false);
        lemma_followed_push(none, front, d, false);
        assert(bare(d, false) =~= c);
        assert(bare(c, false) == c);
        let x = followed(before, c, false);
        let y = followed(before, d, false);
        let pre = s.take(root);
        let a = pre + joined(x.up) + joined(x.names);
        let b = pre + joined(y.up) + joined(y.names);
        if x != y {
            lemma_joined_push(before.up, c);
            lemma_joined_push(before.up, d);
            lemma_joined_push(before.names, c);
            lemma_joined_push(before.names, d);
            if c =~= seq!['.', '.'] {
                assert(joined(before.names) =~= seq![]);
            }
            assert(b =~= a.push('/'));
            assert(a.last() == c.last());
            assert(a.len() > root);
            assert(b.drop_last() =~= a);
        }
    } else {
        lemma_followed_push(none, open, seq!['/'], false);
        assert(bare(seq!['/'], false) =~= seq![]);
    }
}

proof fn lemma_closed_is_kept_closed(k: Kept, list: Seq<Seq<char>>, windows: bool)
    requires
        is_closed_list(list, windows),
        is_closed_list(k.up, windows),
        is_closed_list(k.names, windows),
    ensures
        is_closed_list(all_followed(k, list, windows).up, windows),
        is_closed_list(all_followed(k, list, windows).names, windows),
    decreases list.len(),
{
    if list.len() > 0 {
        assert(is_component(list[0], windows) && is_closed(list[0], windows));
        let rest = list.drop_first();
        assert forall|i: int| 0 <= i < rest.len() implies is_component(#[trigger] rest[i], windows)
            && is_closed(rest[i], windows) by {
            assert(rest[i] == list[i + 1]);
        }
        lemma_closed_is_kept_closed(followed(k, list.first(), windows), rest, windows);
    }
}

/// Joining a list whose components all have their separators, and taking the result
/// apart, gives the list.
proof fn lemma_split_closed(pre: Seq<char>, list: Seq<Seq<char>>, windows: bool)
    requires
        is_closed_list(list, windows),
    ensures
        components(pre + joined(list), pre.len() as int, windows) == list,
    decreases list.len(),
{
    let s = pre + joined(list);
    let i = pre.len() as int;
    let class = separators(windows);
    if list.len() == 0 {
        assert(s =~= pre);
    } else {
        lemma_joined_front(list);
        let c = list.first();
        let rest = list.drop_first();
        assert(is_component(list[0], windows) && is_closed(list[0], windows));
        assert forall|m: int| 0 <= m < c.len() implies s[i + m] == #[trigger] c[m] by {}
        text::lemma_first_in(s, i, class);
        let end = text::first_in(s, i, class);
        assert forall|m: int| i <= m < i + c.len() - 1 implies !is_separator(
            #[trigger] s[m],
            windows,
        ) by {
            assert(s[m] == c[m - i]);
        }
        assert(s[i + c.len() - 1] == c[c.len() - 1]);
        assert(end == i + c.len() - 1);
        assert(s.subrange(i, end + 1) =~= c);
        assert forall|m: int| 0 <= m < rest.len() implies is_component(#[trigger] rest[m], windows)
            && is_closed(rest[m], windows) by {
            assert(rest[m] == list[m + 1]);
        }
        lemma_split_closed(pre + c, rest, windows);
        assert((pre + c) + joined(rest) =~= s);
        assert(components(s, i, windows) =~= list);
    }
}

/// What is kept of the canonical form of a path that a slash follows is what is kept
/// of the path.
proof fn lemma_kept_of_canonical(s: Seq<char>)
    requires
        s.len() > 0,
    ensures
        ({
            let c = canonical(s, false).0;
            &&& c.len() > 0
            &&& root_len(c, false) == root_len(s, false)
            &&& kept(c.push('/'), false) == kept(s.push('/'), false)
        }),
{
    let t = s.push('/');
    let root = root_len(s, false);
    let pre = s.take(root);
    assert(t[0] == s[0]);
    assert(root_len(t, false) == root);
    assert(t.take(root) =~= pre);
    let list = components(t, root, false);
    lemma_components_are_a_list(t, root, false);
    lemma_components_closed(s, root);
    assert forall|i: int| 0 <= i < list.len() implies is_component(#[trigger] list[i], false)
        && is_closed(list[i], false) by {
        if i == list.len() - 1 {
            assert(list[i].last() == '/');
        }
    }
    let k = kept(t, false);
    lemma_kept_is_a_list(nothing_kept(), list, false);
    lemma_closed_is_kept_closed(nothing_kept(), list, false);
    let all = k.up + k.names;
    assert(is_closed_list(all, false)) by {
        assert forall|i: int| 0 <= i < all.len() implies is_component(#[trigger] all[i], false)
            && is_closed(all[i], false) by {
            if i < k.up.len() {
                assert(all[i] == k.up[i]);
            } else {
                assert(all[i] == k.names[i - k.up.len()]);
            }
        }
    }
    lemma_joined_concat(k.up, k.names);
    lemma_end_slash(s);
    let c = canonical(s, false).0;
    let whole = pre + joined(all);
    assert(pre + joined(k.up) + joined(k.names) =~= whole);
    if all.len() == 0 {
        assert(whole =~= pre);
        assert(without_end_separator(whole, root, false) == pre);
        assert(k =~= nothing_kept());
        if root == 0 {
            assert(c =~= seq!['.']);
            let d = c.push('/');
            lemma_split_closed(seq![], seq![d], false);
            assert(joined(seq![d]) =~= d) by {
                assert(seq![d].drop_last() =~= seq![]);
            }
            assert(Seq::<char>::empty() + joined(seq![d]) =~= d);
            assert(bare(d, false) =~= seq!['.']);
            assert(seq![d].drop_first() =~= seq![]);
            assert(all_followed(nothing_kept(), seq![d].drop_first(), false) == nothing_kept());
        } else {
            assert(c =~= seq!['/']);
            let d = c.push('/');
            let slash = seq![seq!['/']];
            lemma_split_closed(c, slash, false);
            assert(joined(slash) =~= seq!['/']) by {
                assert(slash.drop_last() =~= seq![]);
            }
            assert(c + joined(slash) =~= d);
            assert(bare(seq!['/'], false) =~= seq![]);
            assert(slash.drop_first() =~= seq![]);
            assert(all_followed(nothing_kept(), slash.drop_first(), false) == nothing_kept());
        }
    } else {
        let last = all.last();
        assert(is_closed(all[all.len() - 1], false));
        assert(whole.last() == last.last());
        assert(c =~= whole.drop_last());
        assert(c.push('/') =~= whole);
        lemma_joined_front(all);
        let first = all.first();
        assert(is_component(all[0], false));
        assert(bare(first, false).len() > 0) by {
            if k.up.len() > 0 {
                assert(first == k.up[0]);
            } else {
                assert(first == k.names[0]);
            }
        }
        assert(whole[root] == first[0]);
        assert(first.len() > 1);
        assert(!is_separator(first[0], false));
        assert(c.len() > root);
        assert(c[0] == whole[0]);
        if root > 0 {
            assert(whole[0] == pre[0]);
        }
        lemma_split_closed(pre, all, false);
        lemma_sorted_is_kept(nothing_kept(), k.up, k.names, false);
        assert(nothing_kept().up + k.up =~= k.up);
        assert(nothing_kept().names + k.names =~= k.names);
        assert(root_len(whole, false) == root);
    }
}

/// A path has the canonical form that it has where a directory in front of it is made
/// canonical first.
pub proof fn law_prefix_may_be_made_canonical(a: Seq<char>, b: Seq<char>)
    requires
        a.len() > 0,
    ensures
        canonical(a.push('/') + b, false) == canonical(
            canonical(a, false).0.push('/') + b,
            false,
        ),
{
    let c = canonical(a, false).0;
    lemma_kept_of_canonical(a);
    lemma_whole_kept(a, b);
    lemma_whole_kept(c, b);
    let root = root_len(a, false);
    let x = a.push('/') + b;
    let y = c.push('/') + b;
    assert(x.take(root) =~= y.take(root)) by {
        if root > 0 {
            assert(x[0] == a[0] && y[0] == c[0]);
        }
    }
}

proof fn lemma_whole_kept(a: Seq<char>, b: Seq<char>)
    requires
        a.len() > 0,
    ensures
        root_len(a.push('/') + b, false) == root_len(a, false),
        kept(a.push('/') + b, false) == all_followed(
            kept(a.push('/'), false),
            components(b, 0, false),
            false,
        ),
{
    let t = a.push('/');
    let root = root_len(a, false);
    assert(t[0] == a[0]);
    assert((t + b)[0] == a[0]);
    lemma_components_joined(t, b, root, false);
    lemma_followed_join(
        nothing_kept(),
        components(t, root, false),
        components(b, 0, false),
        false,
    );
}

proof fn lemma_byte_len_of_two(a: Seq<char>, b: Seq<char>)
    ensures
        text::byte_len(a + b) == text::byte_len(a) + text::byte_len(b),
    decreases a.len(),
{
    if a.len() == 0 {
        assert(a + b =~= b);
    } else {
        text::lemma_byte_len_step(a);
        text::lemma_byte_len_step(a + b);
        assert((a + b).skip(1) =~= a.skip(1) + b);
        lemma_byte_len_of_two(a.skip(1), b);
    }
}

/// How many characters and bytes are kept.
spec fn is_within(k: Kept, chars: int, bytes: int) -> bool {
    &&& joined(k.up).len() + joined(k.names).len() <= chars
    &&& text::byte_len(joined(k.up)) + text::byte_len(joined(k.names)) <= bytes
}

proof fn lemma_kept_is_within(k: Kept, list: Seq<Seq<char>>, chars: int, bytes: int, windows: bool)
    requires
        is_within(k, chars, bytes),
    ensures
        is_within(
            all_followed(k, list, windows),
            chars + joined(list).len(),
            bytes + text::byte_len(joined(list)),
        ),
    decreases list.len(),
{
    if list.len() > 0 {
        let c = list.first();
        let next = followed(k, c, windows);
        lemma_joined_push(k.up, c);
        lemma_joined_push(k.names, c);
        lemma_byte_len_of_two(joined(k.up), c);
        lemma_byte_len_of_two(joined(k.names), c);
        if k.names.len() > 0 {
            lemma_byte_len_of_two(joined(k.names.drop_last()), k.names.last());
        }
        lemma_joined_front(list);
        lemma_byte_len_of_two(c, joined(list.drop_first()));
        lemma_kept_is_within(
            next,
            list.drop_first(),
            chars + c.len(),
            bytes + text::byte_len(c),
            windows,
        );
    }
}

proof fn lemma_components_are_the_rest(s: Seq<char>, i: int, windows: bool)
    requires
        0 <= i <= s.len(),
    ensures
        joined(components(s, i, windows)) == s.skip(i),
    decreases s.len() - i,
{
    if i < s.len() {
        let class = separators(windows);
        text::lemma_first_in(s, i, class);
        let end = text::first_in(s, i, class);
        let list = components(s, i, windows);
        if end < s.len() {
            lemma_components_are_the_rest(s, end + 1, windows);
            lemma_joined_front(list);
            assert(list.drop_first() =~= components(s, end + 1, windows));
            assert(joined(list) =~= s.skip(i));
        } else {
            assert(list =~= seq![s.subrange(i, s.len() as int)]);
            assert(list.drop_last().len() == 0);
            assert(joined(list.drop_last()) =~= seq![]);
            assert(joined(list) =~= s.skip(i));
        }
    } else {
        assert(s.skip(i) =~= seq![]);
    }
}

proof fn lemma_slashes_keep_bytes(s: Seq<char>)
    ensures
        text::byte_len(with_slashes(s)) == text::byte_len(s),
    decreases s.len(),
{
    if s.len() > 0 {
        text::lemma_byte_len_step(s);
        text::lemma_byte_len_step(with_slashes(s));
        assert(with_slashes(s).skip(1) =~= with_slashes(s.skip(1)));
        lemma_slashes_keep_bytes(s.skip(1));
    } else {
        assert(with_slashes(s) =~= s);
    }
}

/// The canonical form of a path has no more characters and no more bytes than the path, and
/// is empty exactly where the path is.
pub proof fn law_canonical_is_no_longer(s: Seq<char>, windows: bool)
    ensures
        canonical(s, windows).0.len() <= s.len(),
        text::byte_len(canonical(s, windows).0) <= text::byte_len(s),
        canonical(s, windows).0.len() == 0 <==> s.len() == 0,
{
    let root = root_len(s, windows);
    let k = kept(s, windows);
    let pre = s.take(root);
    let t0 = pre + joined(k.up) + joined(k.names);
    let list = components(s, root, windows);
    assert(is_within(nothing_kept(), 0, 0));
    lemma_kept_is_within(nothing_kept(), list, 0, 0, windows);
    lemma_components_are_the_rest(s, root, windows);
    assert(pre + s.skip(root) =~= s);
    lemma_byte_len_of_two(pre, s.skip(root));
    lemma_byte_len_of_two(pre, joined(k.up));
    lemma_byte_len_of_two(pre + joined(k.up), joined(k.names));
    if t0.len() > 0 {
        assert(t0.drop_last() + seq![t0.last()] =~= t0);
        lemma_byte_len_of_two(t0.drop_last(), seq![t0.last()]);
    }
    if s.len() > 0 {
        text::lemma_byte_len_step(s);
        let dot = seq!['.'];
        text::lemma_byte_len_step(dot);
        assert(dot.skip(1) =~= seq![]);
        assert(vstd::utf8::encode_scalar('.' as u32).len() == 1);
    }
    lemma_slashes_keep_bytes(shortened(s, windows));
}

/// A file `name` in a directory. On Windows a backslash stands between them, but behind a
/// separator or a bare drive nothing does.
pub open spec fn file_in(dir: Seq<char>, name: Seq<char>, windows: bool) -> Seq<char> {
    let is_drive = dir.len() == 2 && dir[1] == ':' && ('a' <= dir[0] && dir[0] <= 'z' || 'A'
        <= dir[0] && dir[0] <= 'Z');
    if dir.len() == 0 || is_separator(dir.last(), windows) || (windows && is_drive) {
        dir + name
    } else if windows {
        dir.push('\\') + name
    } else {
        dir.push('/') + name
    }
}

/// A file `name` in a directory.
pub fn join_file(dir: &str, name: &str, windows: bool) -> (r: String)
    ensures
        r@ == file_in(dir@, name@, windows),
{
    let mut s: Vec<char> = chars_of(dir);
    let n: usize = s.len();
    let is_drive: bool = n == 2 && s[1] == ':' && (('a' <= s[0] && s[0] <= 'z') || ('A' <= s[0]
        && s[0] <= 'Z'));
    if n > 0 && !separates(s[n - 1], windows) && !(windows && is_drive) {
        s.push(if windows {
            '\\'
        } else {
            '/'
        });
    }
    push_all(&mut s, chars_of(name).as_slice());
    string_of(s.as_slice())
}

} // verus!
