//! The files that a compiler names, as seen from the current directory.
use crate::paths;
use crate::paths::canonicalize;
use crate::text;
use crate::text::chars_of;
use crate::text::find_in;
use crate::text::lower;
use crate::text::push_all;
use crate::text::same;
use crate::text::string_of;
use crate::text::Class;
use vstd::prelude::*;
use vstd::slice::slice_subrange;
use vstd::slice::slice_to_vec;
use vstd::string::*;

verus! {

/// The names between the slashes of `s` from position `i` on. An empty one and `.` are
/// left out.
pub open spec fn names(s: Seq<char>, i: int) -> Seq<Seq<char>>
    decreases s.len() - i,
{
    if i < 0 || i >= s.len() {
        seq![]
    } else {
        let end = text::first_in(s, i, Class::Slash);
        let rest = if i <= end < s.len() {
            names(s, end + 1)
        } else {
            seq![]
        };
        let name = s.subrange(i, end);
        if name =~= seq![] || name =~= seq!['.'] {
            rest
        } else {
            seq![name] + rest
        }
    }
}

/// The first `n` names of a path from the root, where `..` takes the name before it away.
pub open spec fn descended(list: Seq<Seq<char>>, n: int) -> Seq<Seq<char>>
    decreases n,
{
    if n <= 0 {
        seq![]
    } else {
        let before = descended(list, n - 1);
        if list[n - 1] =~= seq!['.', '.'] {
            if before.len() > 0 {
                before.drop_last()
            } else {
                before
            }
        } else {
            before.push(list[n - 1])
        }
    }
}

/// The first `n` names, with slashes between them.
pub open spec fn slashed(list: Seq<Seq<char>>, n: int) -> Seq<char>
    decreases n,
{
    if n <= 0 {
        seq![]
    } else if n == 1 {
        list[0]
    } else {
        slashed(list, n - 1).push('/') + list[n - 1]
    }
}

/// How many names two lists have in common at their start, from name `i` on. The case of
/// ASCII letters does not matter.
pub open spec fn shared(a: Seq<Seq<char>>, b: Seq<Seq<char>>, i: int) -> int
    decreases a.len() - i,
{
    if 0 <= i < a.len() && i < b.len() && text::lowered(a[i]) == text::lowered(b[i]) {
        shared(a, b, i + 1)
    } else {
        i
    }
}

/// Whether `s` begins with the letter of a drive.
pub open spec fn has_drive(s: Seq<char>) -> bool {
    s.len() >= 2 && s[1] == ':' && ('a' <= s[0] && s[0] <= 'z' || 'A' <= s[0] && s[0] <= 'Z')
}

/// The drive of a path, in lower case.
pub open spec fn drive(s: Seq<char>) -> Seq<char> {
    if has_drive(s) {
        text::lowered(s.take(2))
    } else {
        seq![]
    }
}

/// A path without its drive.
pub open spec fn behind_drive(s: Seq<char>) -> Seq<char> {
    if has_drive(s) {
        s.skip(2)
    } else {
        s
    }
}

pub open spec fn is_rooted(s: Seq<char>) -> bool {
    s.len() > 0 && s[0] == '/'
}

/// Whether a path names a machine.
pub open spec fn names_machine(s: Seq<char>) -> bool {
    s.len() > 1 && s[0] == '/' && s[1] == '/'
}

/// Whether a file lies on the drive of the current directory. Both are canonical.
pub open spec fn on_drive(path: Seq<char>, current: Seq<char>) -> bool {
    if has_drive(path) || names_machine(path) {
        drive(path) == drive(current)
    } else {
        true
    }
}

/// The names that lead from the root of a drive to a file on it. Both are canonical.
pub open spec fn full_names(path: Seq<char>, current: Seq<char>) -> Seq<Seq<char>> {
    let own = names(behind_drive(path), 0);
    let all = if is_rooted(behind_drive(path)) {
        own
    } else {
        names(behind_drive(current), 0) + own
    };
    descended(all, all.len() as int)
}

/// `n` names that lead up.
pub open spec fn steps_up(n: int) -> Seq<Seq<char>> {
    Seq::new(n as nat, |i: int| seq!['.', '.'])
}

/// A path of Windows as seen from the current directory: on another drive it stays as it
/// is.
pub open spec fn windows_relative(path: Seq<char>, current: Seq<char>) -> Seq<char> {
    let p = paths::canonical(path, true).0;
    let c = paths::canonical(current, true).0;
    let a = full_names(p, c);
    let own = names(behind_drive(c), 0);
    let b = descended(own, own.len() as int);
    let n = shared(a, b, 0);
    let list = steps_up(b.len() - n) + a.skip(n);
    if !on_drive(p, c) {
        p
    } else if list.len() == 0 {
        seq!['.']
    } else {
        slashed(list, list.len() as int)
    }
}

/// A path of POSIX as seen from the current directory: one outside it stays as it is.
pub open spec fn posix_relative(path: Seq<char>, current: Seq<char>) -> Seq<char> {
    let a = names(path, 0);
    let b = names(current, 0);
    if !is_rooted(path) {
        slashed(a, a.len() as int)
    } else if is_rooted(current) && b.is_prefix_of(a) {
        let rest = a.skip(b.len() as int);
        slashed(rest, rest.len() as int)
    } else {
        path
    }
}

fn split_names(s: &[char]) -> (r: Vec<Vec<char>>)
    ensures
        text::texts(r@) == names(s@, 0),
{
    let mut r: Vec<Vec<char>> = Vec::new();
    let mut i: usize = 0;
    proof {
        assert(text::texts(r@) =~= seq![]);
        assert(seq![] + names(s@, 0) =~= names(s@, 0));
    }
    while i < s.len()
        invariant
            i <= s@.len(),
            text::texts(r@) + names(s@, i as int) =~= names(s@, 0),
        decreases s@.len() - i,
    {
        let end: usize = find_in(s, i, Class::Slash);
        let ghost before = text::texts(r@);
        let ghost from = i as int;
        let name: &[char] = slice_subrange(s, i, end);
        let next: usize = if end < s.len() {
            end + 1
        } else {
            end
        };
        if name.len() == 0 || (name.len() == 1 && name[0] == '.') {
            proof {
                if name@.len() == 1 {
                    assert(name@ =~= seq!['.']);
                }
                assert(names(s@, from) == names(s@, next as int));
            }
        } else {
            let line: Vec<char> = slice_to_vec(name);
            let ghost view = line@;
            r.push(line);
            proof {
                assert(text::texts(r@) =~= before.push(view));
                assert(view =~= s@.subrange(from, end as int));
                assert(!(name@ =~= seq!['.']));
                assert(names(s@, from) =~= seq![view] + names(s@, next as int));
                assert(before.push(view) + names(s@, next as int) =~= before + names(s@, from));
            }
        }
        i = next;
    }
    proof {
        assert(text::texts(r@) + names(s@, i as int) =~= text::texts(r@));
    }
    r
}

fn descend(list: &Vec<Vec<char>>) -> (r: Vec<Vec<char>>)
    ensures
        text::texts(r@) == descended(text::texts(list@), list@.len() as int),
{
    let mut r: Vec<Vec<char>> = Vec::new();
    let ghost all = text::texts(list@);
    let mut i: usize = 0;
    proof {
        assert(text::texts(r@) =~= seq![]);
    }
    while i < list.len()
        invariant
            i <= list@.len(),
            all == text::texts(list@),
            text::texts(r@) == descended(all, i as int),
        decreases list@.len() - i,
    {
        let ghost before = text::texts(r@);
        let name: &[char] = list[i].as_slice();
        proof {
            assert(all[i as int] == name@);
        }
        if name.len() == 2 && name[0] == '.' && name[1] == '.' {
            proof {
                assert(name@ =~= seq!['.', '.']);
            }
            if r.len() > 0 {
                r.pop();
                proof {
                    assert(text::texts(r@) =~= before.drop_last());
                }
            }
        } else {
            let copy: Vec<char> = slice_to_vec(name);
            let ghost view = copy@;
            r.push(copy);
            proof {
                assert(text::texts(r@) =~= before.push(view));
                assert(!(name@ =~= seq!['.', '.']));
            }
        }
        i += 1;
    }
    r
}

/// The names from `from` on behind `up` steps up, with slashes between them.
fn join_names(up: usize, list: &Vec<Vec<char>>, from: usize) -> (r: Vec<char>)
    requires
        from <= list@.len(),
    ensures
        ({
            let all = steps_up(up as int) + text::texts(list@).skip(from as int);
            r@ == slashed(all, all.len() as int)
        }),
{
    let ghost all = steps_up(up as int) + text::texts(list@).skip(from as int);
    let mut r: Vec<char> = Vec::new();
    let mut i: usize = 0;
    proof {
        assert(r@ =~= seq![]);
    }
    while i < up
        invariant
            i <= up,
            all == steps_up(up as int) + text::texts(list@).skip(from as int),
            r@ == slashed(all, i as int),
        decreases up - i,
    {
        let ghost before = r@;
        proof {
            assert(all[i as int] == seq!['.', '.']);
        }
        if i > 0 {
            r.push('/');
        }
        r.push('.');
        r.push('.');
        proof {
            if i > 0 {
                assert(r@ =~= before.push('/') + all[i as int]);
            } else {
                assert(before =~= seq![]);
                assert(r@ =~= all[0]);
            }
        }
        i += 1;
    }
    let mut k: usize = from;
    while k < list.len()
        invariant
            from <= k <= list@.len(),
            all == steps_up(up as int) + text::texts(list@).skip(from as int),
            r@ == slashed(all, up + (k - from)),
        decreases list@.len() - k,
    {
        let ghost before = r@;
        let ghost at = up + (k - from);
        proof {
            assert(all[at] == text::texts(list@)[k as int]);
        }
        if k > from || up > 0 {
            r.push('/');
        }
        push_all(&mut r, list[k].as_slice());
        proof {
            if at > 0 {
                assert(r@ =~= before.push('/') + all[at]);
            } else {
                assert(before =~= seq![]);
                assert(r@ =~= all[0]);
            }
        }
        k += 1;
    }
    r
}

fn find_drive(s: &[char]) -> (r: bool)
    ensures
        r == has_drive(s@),
{
    s.len() >= 2 && s[1] == ':' && (('a' <= s[0] && s[0] <= 'z') || ('A' <= s[0] && s[0] <= 'Z'))
}

fn without_drive<'a>(s: &'a [char]) -> (r: &'a [char])
    ensures
        r@ == behind_drive(s@),
{
    if find_drive(s) {
        let rest: &[char] = slice_subrange(s, 2, s.len());
        proof {
            assert(rest@ =~= s@.skip(2));
        }
        rest
    } else {
        s
    }
}

fn drive_of(s: &[char]) -> (r: Vec<char>)
    ensures
        r@ == drive(s@),
{
    if find_drive(s) {
        let front: &[char] = slice_subrange(s, 0, 2);
        proof {
            assert(front@ =~= s@.take(2));
        }
        lower(front)
    } else {
        let r: Vec<char> = Vec::new();
        proof {
            assert(r@ =~= seq![]);
        }
        r
    }
}

/// How many names two lists have in common at their start.
fn count_shared(a: &Vec<Vec<char>>, b: &Vec<Vec<char>>) -> (r: usize)
    ensures
        r == shared(text::texts(a@), text::texts(b@), 0),
        r <= a@.len(),
        r <= b@.len(),
{
    let ghost x = text::texts(a@);
    let ghost y = text::texts(b@);
    let mut i: usize = 0;
    while i < a.len() && i < b.len()
        invariant
            i <= a@.len(),
            i <= b@.len(),
            x == text::texts(a@),
            y == text::texts(b@),
            shared(x, y, 0) == shared(x, y, i as int),
        decreases a@.len() - i,
    {
        let p: Vec<char> = lower(a[i].as_slice());
        let q: Vec<char> = lower(b[i].as_slice());
        proof {
            assert(x[i as int] == a@[i as int]@);
            assert(y[i as int] == b@[i as int]@);
        }
        if !same(p.as_slice(), q.as_slice()) {
            return i;
        }
        i += 1;
    }
    i
}

fn relative_on_windows(path: &[char], current: &[char]) -> (r: Vec<char>)
    ensures
        r@ == windows_relative(path@, current@),
{
    let (p, _) = canonicalize(path, true);
    let (c, _) = canonicalize(current, true);
    let machine: bool = p.len() > 1 && p[0] == '/' && p[1] == '/';
    if find_drive(p.as_slice()) || machine {
        let one: Vec<char> = drive_of(p.as_slice());
        let other: Vec<char> = drive_of(c.as_slice());
        if !same(one.as_slice(), other.as_slice()) {
            return p;
        }
    }
    let tail: &[char] = without_drive(p.as_slice());
    let mut own: Vec<Vec<char>> = split_names(tail);
    let mut start: Vec<Vec<char>> = split_names(without_drive(c.as_slice()));
    let ghost x = text::texts(own@);
    let ghost y = text::texts(start@);
    let b: Vec<Vec<char>> = descend(&start);
    let a: Vec<Vec<char>> = if tail.len() > 0 && tail[0] == '/' {
        descend(&own)
    } else {
        start.append(&mut own);
        proof {
            assert(text::texts(start@) =~= y + x);
        }
        descend(&start)
    };
    proof {
        assert(text::texts(a@) == full_names(p@, c@));
        assert(text::texts(b@) == descended(y, y.len() as int));
    }
    let n: usize = count_shared(&a, &b);
    if n == a.len() && n == b.len() {
        proof {
            let list = steps_up(b@.len() - n) + text::texts(a@).skip(n as int);
            assert(list.len() == 0);
        }
        let mut r: Vec<char> = Vec::new();
        r.push('.');
        proof {
            assert(r@ =~= seq!['.']);
        }
        return r;
    }
    join_names(b.len() - n, &a, n)
}

fn starts_with_names(a: &Vec<Vec<char>>, b: &Vec<Vec<char>>) -> (r: bool)
    ensures
        r == text::texts(b@).is_prefix_of(text::texts(a@)),
{
    let ghost x = text::texts(a@);
    let ghost y = text::texts(b@);
    if b.len() > a.len() {
        return false;
    }
    let mut i: usize = 0;
    while i < b.len()
        invariant
            i <= b@.len() <= a@.len(),
            x == text::texts(a@),
            y == text::texts(b@),
            forall|k: int| 0 <= k < i ==> #[trigger] y[k] == x[k],
        decreases b@.len() - i,
    {
        if !same(a[i].as_slice(), b[i].as_slice()) {
            proof {
                assert(x[i as int] == a@[i as int]@);
                assert(y[i as int] == b@[i as int]@);
                if y.is_prefix_of(x) {
                    assert(x.subrange(0, y.len() as int)[i as int] == y[i as int]);
                }
            }
            return false;
        }
        proof {
            assert(x[i as int] == a@[i as int]@);
            assert(y[i as int] == b@[i as int]@);
        }
        i += 1;
    }
    proof {
        assert(x.subrange(0, y.len() as int) =~= y);
    }
    true
}

fn relative_on_posix(path: &[char], current: &[char]) -> (r: Vec<char>)
    ensures
        r@ == posix_relative(path@, current@),
{
    let a: Vec<Vec<char>> = split_names(path);
    let b: Vec<Vec<char>> = split_names(current);
    let rooted: bool = path.len() > 0 && path[0] == '/';
    if !rooted {
        proof {
            assert(steps_up(0) + text::texts(a@).skip(0) =~= text::texts(a@));
        }
        join_names(0, &a, 0)
    } else if current.len() > 0 && current[0] == '/' && starts_with_names(&a, &b) {
        proof {
            let rest = text::texts(a@).skip(b@.len() as int);
            assert(steps_up(0) + rest =~= rest);
        }
        join_names(0, &a, b.len())
    } else {
        slice_to_vec(path)
    }
}

/// The path `named` that a compiler printed, as seen from the directory `current`. On
/// Windows separators may be mixed, the case of letters does not matter, and a file
/// elsewhere on the drive is reached by leading up.
pub fn include_path(named: &str, current: &str, windows: bool) -> (r: String)
    ensures
        r@ == (if windows {
            windows_relative(named@, current@)
        } else {
            posix_relative(named@, current@)
        }),
{
    let path: Vec<char> = chars_of(named);
    let from: Vec<char> = chars_of(current);
    let r: Vec<char> = if windows {
        relative_on_windows(path.as_slice(), from.as_slice())
    } else {
        relative_on_posix(path.as_slice(), from.as_slice())
    };
    string_of(r.as_slice())
}

} // verus!
