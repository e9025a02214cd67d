use vstd::prelude::*;
use smallvec::SmallVec;

verus! {

/// The result of an all-matches query: the matched elements, in order.
#[verifier::external_body]
pub struct QuerySelectorAllResult {
    items: SmallVec<[usize; 128]>,
}

/// The items of an all-matches result, in order.
pub uninterp spec fn all_items(v: QuerySelectorAllResult) -> Seq<usize>;

/// Relies on `SmallVec::new`: a vector with no items.
#[verifier::external_body]
fn small_new() -> (r: QuerySelectorAllResult)
    ensures
        all_items(r) == Seq::<usize>::empty(),
{
    QuerySelectorAllResult { items: SmallVec::new() }
}

/// Relies on `SmallVec::push`: the item goes at the end. It panics where the
/// length would overflow.
#[verifier::external_body]
fn small_push(v: &mut QuerySelectorAllResult, e: usize)
    requires
        all_items(*old(v)).len() < usize::MAX,
    ensures
        all_items(*final(v)) == all_items(*old(v)).push(e),
{
    v.items.push(e)
}

/// Relies on `SmallVec::len`: the number of items.
#[verifier::external_body]
fn small_len(v: &QuerySelectorAllResult) -> (r: usize)
    ensures
        r == all_items(*v).len(),
{
    v.items.len()
}

/// Relies on `SmallVec::as_slice`: the item at `i`.
#[verifier::external_body]
fn small_get(v: &QuerySelectorAllResult, i: usize) -> (r: usize)
    requires
        i < all_items(*v).len(),
    ensures
        r == all_items(*v)[i as int],
{
    v.items.as_slice()[i]
}

impl QuerySelectorAllResult {
    /// An empty result.
    pub fn new() -> (r: QuerySelectorAllResult)
        ensures
            all_items(r) == Seq::<usize>::empty(),
    {
        small_new()
    }

    pub fn len(&self) -> (r: usize)
        ensures
            r == all_items(*self).len(),
    {
        small_len(self)
    }

    /// The matched elements, in order.
    pub fn to_vec(&self) -> (r: Vec<usize>)
        ensures
            r@ == all_items(*self),
    {
        let n = small_len(self);
        let mut r: Vec<usize> = Vec::new();
        let mut i: usize = 0;
        while i < n
            invariant
                n == all_items(*self).len(),
                i <= n,
                r@ == all_items(*self).take(i as int),
            decreases n - i,
        {
            r.push(small_get(self, i));
            i += 1;
            proof {
                assert(r@ =~= all_items(*self).take(i as int));
            }
        }
        proof {
            assert(all_items(*self).take(n as int) =~= all_items(*self));
        }
        r
    }
}

/// What appending `element` does: a first-match sink that already holds an
/// element keeps it; otherwise the element goes at the end.
pub open spec fn appended(stops: bool, prior: Seq<usize>, element: usize) -> Seq<usize> {
    if stops && prior.len() > 0 {
        prior
    } else {
        prior.push(element)
    }
}

/// What a sink holds after the elements of `found` were offered to it in order.
pub open spec fn accumulated(stops: bool, prior: Seq<usize>, found: Seq<usize>) -> Seq<usize> {
    if !stops {
        prior + found
    } else if prior.len() > 0 || found.len() == 0 {
        prior
    } else {
        seq![found[0]]
    }
}

pub proof fn lemma_accumulated_len(stops: bool, prior: Seq<usize>, found: Seq<usize>)
    ensures
        accumulated(stops, prior, found).len() <= prior.len() + found.len(),
{
}

/// A selector query's result sink, so one traversal serves both the
/// first-match and the all-matches query.
pub trait SelectorQuery {
    /// The output of the query.
    type Output;

    spec fn stops() -> bool;

    /// The elements held, in the order they were taken.
    spec fn contents(output: Self::Output) -> Seq<usize>;

    /// Whether the query should stop after the first element has been matched.
    fn should_stop_after_first_match() -> (r: bool)
        ensures
            r == Self::stops(),
    ;

    /// Append an element matching after the first query.
    fn append_element(output: &mut Self::Output, element: usize)
        requires
            Self::contents(*old(output)).len() < usize::MAX,
        ensures
            Self::contents(*final(output)) == appended(Self::stops(), Self::contents(*old(output)), element),
    ;

    /// Returns true if the output is empty.
    fn is_empty(output: &Self::Output) -> (r: bool)
        ensures
            r == (Self::contents(*output).len() == 0),
    ;
}

/// A query for all the elements in a subtree.
pub struct QueryAll;

impl SelectorQuery for QueryAll {
    type Output = QuerySelectorAllResult;

    open spec fn stops() -> bool {
        false
    }

    open spec fn contents(output: QuerySelectorAllResult) -> Seq<usize> {
        all_items(output)
    }

    fn should_stop_after_first_match() -> (r: bool) {
        false
    }

    fn append_element(output: &mut QuerySelectorAllResult, element: usize) {
        small_push(output, element);
    }

    fn is_empty(output: &QuerySelectorAllResult) -> (r: bool) {
        small_len(output) == 0
    }
}

/// A query for the first in-tree match of all the elements in a subtree.
pub struct QueryFirst;

impl SelectorQuery for QueryFirst {
    type Output = Option<usize>;

    open spec fn stops() -> bool {
        true
    }

    open spec fn contents(output: Option<usize>) -> Seq<usize> {
        match output {
            Some(e) => seq![e],
            None => seq![],
        }
    }

    fn should_stop_after_first_match() -> (r: bool) {
        true
    }

    fn append_element(output: &mut Option<usize>, element: usize) {
        if output.is_none() {
            *output = Some(element);
        }
        proof {
            assert(seq![element] =~= Seq::<usize>::empty().push(element));
        }
    }

    fn is_empty(output: &Option<usize>) -> (r: bool) {
        output.is_none()
    }
}

} // verus!
