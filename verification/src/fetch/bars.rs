//! The source of price bars.

use vstd::prelude::*;
use vstd::string::*;

use crate::error::{concat4, ErrorView, SiftError};
use crate::text::{join, join_strings, same, views};

verus! {

/// The position of the first source with a name; the number of sources if there
/// is none.
pub open spec fn position_of(sources: Seq<Seq<char>>, name: Seq<char>) -> int
    decreases sources.len(),
{
    if sources.len() == 0 || sources[0] == name {
        0
    } else {
        1 + position_of(sources.drop_first(), name)
    }
}

proof fn lemma_position_of(sources: Seq<Seq<char>>, name: Seq<char>, k: int)
    requires
        0 <= k <= sources.len(),
        forall|i: int| 0 <= i < k ==> #[trigger] sources[i] != name,
        k < sources.len() ==> sources[k] == name,
    ensures
        position_of(sources, name) == k,
    decreases k,
{
    if k > 0 {
        assert(sources[0] != name);
        let t = sources.drop_first();
        assert forall|i: int| 0 <= i < k - 1 implies #[trigger] t[i] != name by {
            assert(sources[i + 1] != name);
        }
        lemma_position_of(t, name, k - 1);
    }
}

/// The position of the source that is named.
pub fn dispatch_named(sources: &Vec<String>, name: &str) -> (r: Result<usize, SiftError>)
    ensures
        match r {
            Ok(i) => i < sources@.len() && i == position_of(views(sources@), name@),
            Err(e) => position_of(views(sources@), name@) == sources@.len() && e@
                == ErrorView::NoApplicableSource(
                "--source "@ + name@ + " not registered; known sources: "@ + join(
                    views(sources@),
                    ", "@,
                ),
            ),
        },
{
    let ghost v = views(sources@);
    let mut i: usize = 0;
    while i < sources.len()
        invariant
            i <= sources@.len(),
            v == views(sources@),
            forall|k: int| 0 <= k < i ==> #[trigger] v[k] != name@,
        decreases sources@.len() - i,
    {
        assert(v[i as int] == sources@[i as int]@);
        if same(sources[i].as_str(), name) {
            proof {
                lemma_position_of(v, name@, i as int);
            }
            return Ok(i);
        }
        i = i + 1;
    }
    proof {
        lemma_position_of(v, name@, i as int);
    }
    Err(
        SiftError::NoApplicableSource(
            concat4(
                "--source ",
                name,
                " not registered; known sources: ",
                join_strings(sources, ", ").as_str(),
            ),
        ),
    )
}

/// The source of a name is the first that has it, and only where none has it is
/// there none.
pub proof fn law_the_first_source_of_a_name_is_taken(sources: Seq<Seq<char>>, name: Seq<char>, i: int)
    ensures
        0 <= position_of(sources, name) <= sources.len(),
        position_of(sources, name) < sources.len() ==> sources[position_of(sources, name)] == name,
        0 <= i < position_of(sources, name) ==> sources[i] != name,
    decreases sources.len(),
{
    if sources.len() > 0 && sources[0] != name {
        let d = sources.drop_first();
        law_the_first_source_of_a_name_is_taken(d, name, i - 1);
        if position_of(d, name) < d.len() {
            assert(d[position_of(d, name)] == sources[position_of(d, name) + 1]);
        }
        if 0 < i < position_of(sources, name) {
            assert(d[i - 1] == sources[i]);
        }
    }
}

} // verus!
