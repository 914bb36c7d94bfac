//! The dispatcher: pure routing from a validated invocation's command
//! chain to the handler registered for it.  Running the handler itself is
//! the embedding program's business.

use crate::invoke::Invocation;
use crate::token::views_of;
use vstd::prelude::*;

verus! {

/// One registered handler: the command chain it serves (root name first)
/// and the caller's identifier for it.
pub struct Route {
    pub chain: Vec<String>,
    pub handler: usize,
}

/// Position of the first route whose chain reads `chain`, at or after
/// `i`, or the length when there is none.
pub open spec fn route_index_from(routes: Seq<Route>, chain: Seq<Seq<char>>, i: int) -> int
    decreases routes.len() - i when 0 <= i <= routes.len()
{
    if i >= routes.len() {
        routes.len() as int
    } else if views_of(routes[i].chain@) == chain {
        i
    } else {
        route_index_from(routes, chain, i + 1)
    }
}

/// The handler registered for `chain`: that of the first matching route.
pub open spec fn spec_dispatch(routes: Seq<Route>, chain: Seq<Seq<char>>) -> Option<usize> {
    let k = route_index_from(routes, chain, 0);
    if k < routes.len() {
        Some(routes[k].handler)
    } else {
        None
    }
}

proof fn lemma_route_index_from(routes: Seq<Route>, chain: Seq<Seq<char>>, i: int, k: int)
    requires
        0 <= i <= k <= routes.len(),
        forall|j: int| i <= j < k ==> views_of((#[trigger] routes[j]).chain@) != chain,
        k == routes.len() || views_of(routes[k].chain@) == chain,
    ensures
        route_index_from(routes, chain, i) == k,
    decreases k - i,
{
    if i < k {
        lemma_route_index_from(routes, chain, i + 1, k);
    }
}

/// Whether two command chains name the same commands in the same order.
fn chains_equal(a: &Vec<String>, b: &Vec<String>) -> (r: bool)
    ensures
        r == (views_of(a@) == views_of(b@)),
{
    let n = a.len();
    if n != b.len() {
        proof {
            assert(views_of(a@).len() != views_of(b@).len());
        }
        return false;
    }
    for i in 0..n
        invariant
            n == a@.len() == b@.len(),
            forall|j: int| 0 <= j < i ==> views_of(a@)[j] == views_of(b@)[j],
    {
        if !(a[i] == b[i]) {
            proof {
                assert(views_of(a@)[i as int] != views_of(b@)[i as int]);
            }
            return false;
        }
        proof {
            assert(views_of(a@)[i as int] == views_of(b@)[i as int]);
        }
    }
    proof {
        assert(views_of(a@) =~= views_of(b@));
    }
    true
}

/// Selects the handler registered for the invocation's command chain:
/// the identifier of the first route whose chain matches, or nothing
/// when no route does.
pub fn dispatch(routes: &Vec<Route>, inv: &Invocation) -> (r: Option<usize>)
    ensures
        r == spec_dispatch(routes@, views_of(inv.chain@)),
{
    let n = routes.len();
    for i in 0..n
        invariant
            n == routes@.len(),
            forall|j: int|
                0 <= j < i ==> views_of((#[trigger] routes@[j]).chain@) != views_of(inv.chain@),
    {
        if chains_equal(&routes[i].chain, &inv.chain) {
            proof {
                lemma_route_index_from(routes@, views_of(inv.chain@), 0, i as int);
            }
            return Some(routes[i].handler);
        }
    }
    proof {
        lemma_route_index_from(routes@, views_of(inv.chain@), 0, n as int);
    }
    None
}

} // verus!
