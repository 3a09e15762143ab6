//! Questions that are put to a caller: what it answers is kept, so that nothing is asked
//! twice.
use crate::collections::map_get;
use crate::collections::map_insert;
use crate::deps_log;
use rapidhash::RapidHashMap;
use vstd::prelude::*;
use vstd::string::*;

verus! {

/// Whether a caller may have given an answer for a path.
pub open spec fn may_answer<F: Fn(&str) -> bool>(is_so: F, path: Seq<char>, answer: bool) -> bool {
    exists|s: &str| s@ == path && #[trigger] is_so.ensures((s,), answer)
}

/// Whether a caller may have given these answers.
pub open spec fn are_answers<F: Fn(&str) -> bool>(is_so: F, answers: Map<Seq<char>, bool>) -> bool {
    forall|path: Seq<char>| #[trigger]
        answers.contains_key(path) ==> may_answer(is_so, path, answers[path])
}

/// Whether what is so agrees with answers.
pub open spec fn agrees(so: spec_fn(Seq<char>) -> bool, answers: Map<Seq<char>, bool>) -> bool {
    forall|path: Seq<char>| #[trigger] answers.contains_key(path) ==> so(path) == answers[path]
}

/// A caller that tells exactly what is so agrees with its answers.
pub proof fn lemma_telling_agrees<F: Fn(&str) -> bool>(
    is_so: F,
    answers: Map<Seq<char>, bool>,
    so: spec_fn(Seq<char>) -> bool,
)
    requires
        are_answers(is_so, answers),
        deps_log::tells(is_so, so),
    ensures
        agrees(so, answers),
{
    assert forall|path: Seq<char>| #[trigger] answers.contains_key(path) implies so(path)
        == answers[path] by {
        assert(may_answer(is_so, path, answers[path]));
        let s = choose|s: &str| s@ == path && #[trigger] is_so.ensures((s,), answers[path]);
        assert(is_so.ensures((s,), answers[path]));
    }
}

/// The answer for a path, which is asked for where it is not known yet.
pub fn ask<F: Fn(&str) -> bool>(
    is_so: &F,
    answers: &mut RapidHashMap<String, bool>,
    path: &str,
) -> (r: bool)
    requires
        forall|path: &str| #[trigger] is_so.requires((path,)),
        are_answers(*is_so, old(answers).deep_view()),
    ensures
        are_answers(*is_so, final(answers).deep_view()),
        forall|so: spec_fn(Seq<char>) -> bool| #[trigger]
            agrees(so, final(answers).deep_view()) ==> agrees(so, old(answers).deep_view()) && so(
                path@,
            ) == r,
{
    let ghost before = answers.deep_view();
    if let Some(known) = map_get(answers, path) {
        return *known;
    }
    let r: bool = is_so(path);
    map_insert(answers, path.to_owned(), r);
    proof {
        let after = answers.deep_view();
        assert(after =~= before.insert(path@, r));
        assert forall|p: Seq<char>| #[trigger] after.contains_key(p) implies may_answer(
            *is_so,
            p,
            after[p],
        ) by {
            if p == path@ {
                assert(is_so.ensures((path,), r));
            } else {
                assert(before.contains_key(p));
            }
        }
        assert forall|so: spec_fn(Seq<char>) -> bool| #[trigger] agrees(so, after) implies agrees(
            so,
            before,
        ) && so(path@) == r by {
            assert(after.contains_key(path@));
            assert forall|p: Seq<char>| #[trigger] before.contains_key(p) implies so(p)
                == before[p] by {
                assert(after.contains_key(p));
            }
        }
    }
    r
}

} // verus!
