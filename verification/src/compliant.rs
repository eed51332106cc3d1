//! Which calls of a task's code are redirected to the runtime.
use vstd::prelude::*;

verus! {

/// What a call expression calls.
pub enum Callee {
    /// A path, by the names of its segments.
    Path(Vec<String>),
    /// Any other expression.
    Other,
}

impl View for Callee {
    type V = Option<Seq<Seq<char>>>;

    /// The names of the segments, if this is a path.
    open spec fn view(&self) -> Option<Seq<Seq<char>>> {
        match self {
            Callee::Path(segments) => Some(names(segments@)),
            Callee::Other => None,
        }
    }
}

/// The names of a path's segments.
pub open spec fn names(segments: Seq<String>) -> Seq<Seq<char>> {
    segments.map_values(|segment: String| segment@)
}

/// The path that a call is to go to instead.
pub open spec fn redirect(callee: Option<Seq<Seq<char>>>) -> Option<Seq<Seq<char>>> {
    match callee {
        Some(path) => if path.len() > 0 && path.last() == "sleep"@ {
            Some(seq!["sleep_yield"@])
        } else {
            None
        },
        None => None,
    }
}

/// The path that a call is to go to instead. Every call of a function named `sleep`, by
/// whatever path, goes to `sleep_yield`; all other calls stay as they are.
pub fn rr_compliant(callee: &Callee) -> (path: Option<Vec<String>>)
    ensures
        path is Some <==> redirect(callee@) is Some,
        path matches Some(segments) ==> Some(names(segments@)) == redirect(callee@),
{
    match callee {
        Callee::Path(segments) => {
            if segments.len() > 0 && segments[segments.len() - 1] == "sleep".to_owned() {
                let path: Vec<String> = vec!["sleep_yield".to_owned()];
                assert(names(path@) =~= seq!["sleep_yield"@]);
                Some(path)
            } else {
                None
            }
        },
        Callee::Other => None,
    }
}

/// Redirecting is final: the path to which a call is redirected is not redirected again.
pub proof fn law_redirected_once(callee: Option<Seq<Seq<char>>>)
    ensures
        redirect(callee) is Some ==> redirect(redirect(callee)) is None,
{
    reveal_strlit("sleep");
    reveal_strlit("sleep_yield");
    assert("sleep"@.len() != "sleep_yield"@.len());
}

/// What a call calls once it has been redirected, or left as it is.
pub open spec fn rewritten(callee: Option<Seq<Seq<char>>>) -> Option<Seq<Seq<char>>> {
    match redirect(callee) {
        Some(path) => Some(path),
        None => callee,
    }
}

/// What the calls of a function call once each has been redirected, or left as it is.
pub open spec fn all_rewritten(calls: Seq<Option<Seq<Seq<char>>>>) -> Seq<Option<Seq<Seq<char>>>> {
    calls.map_values(|callee: Option<Seq<Seq<char>>>| rewritten(callee))
}

/// Rewriting all calls of a function leaves no call of a function named `sleep`, and rewriting
/// them once more changes nothing.
pub proof fn law_rewriting_twice_changes_nothing_more(calls: Seq<Option<Seq<Seq<char>>>>)
    ensures
        forall|i: int|
            0 <= i < calls.len() ==> redirect(#[trigger] all_rewritten(calls)[i]) is None,
        all_rewritten(all_rewritten(calls)) == all_rewritten(calls),
{
    assert forall|i: int| 0 <= i < calls.len() implies redirect(
        #[trigger] all_rewritten(calls)[i],
    ) is None by {
        law_redirected_once(calls[i]);
    }
    assert(all_rewritten(all_rewritten(calls)) =~= all_rewritten(calls));
}

/// A call is redirected exactly if it calls a path whose last name is `sleep`, however many names
/// the path has, and it is redirected to the one name `sleep_yield`.
pub proof fn law_redirects_exactly_the_sleeps(callee: &Callee, path: Option<Vec<String>>)
    requires
        call_ensures(rr_compliant, (callee,), path),
    ensures
        call_requires(rr_compliant, (callee,)),
        path is Some <==> (*callee matches Callee::Path(segments) && segments@.len() > 0
            && segments@[segments@.len() - 1]@ == "sleep"@),
        path matches Some(to) ==> to@.len() == 1 && to@[0]@ == "sleep_yield"@,
{
    match *callee {
        Callee::Path(segments) => {
            if segments@.len() > 0 {
                assert(names(segments@).last() == segments@[segments@.len() - 1]@);
            }
        },
        Callee::Other => {},
    }
    if path is Some {
        let to = path->0;
        assert(names(to@).len() == to@.len());
        assert(names(to@)[0] == to@[0]@);
    }
}

/// Of a path only the last name counts: two paths that end in the same name are both redirected
/// or both left alone.
pub proof fn law_only_the_last_name_counts(
    one: Vec<String>,
    other: Vec<String>,
    path: Option<Vec<String>>,
    other_path: Option<Vec<String>>,
)
    requires
        one@.len() > 0,
        other@.len() > 0,
        one@[one@.len() - 1]@ == other@[other@.len() - 1]@,
        call_ensures(rr_compliant, (&Callee::Path(one),), path),
        call_ensures(rr_compliant, (&Callee::Path(other),), other_path),
    ensures
        path is Some <==> other_path is Some,
{
    law_redirects_exactly_the_sleeps(&Callee::Path(one), path);
    law_redirects_exactly_the_sleeps(&Callee::Path(other), other_path);
}

}
