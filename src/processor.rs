use vstd::prelude::*;
use crate::accumulator::{accumulated, appended, lemma_accumulated_len, SelectorQuery};
use crate::query::{
    lemma_accumulated_head, lemma_accumulated_push, lemma_below_document,
    lemma_select_head, lemma_select_len, list_hits, under,
};
use crate::selector::{list_matches, matches_selector_list, MatchingContext, SelectorList};
use crate::tree::{is_element_at, lemma_select_none, select, Document};

verus! {

/// Where a traversal files the selectors it starts from: matched against the
/// visited element itself, or only against its descendants.
#[derive(Clone, Copy, Debug, PartialEq, Eq, Structural)]
pub enum InvalidationTarget {
    SelfInvalidation,
    DescendantInvalidation,
}

/// Serves a query through a top-down traversal of the whole document that
/// reports each self-match and asks, after it, whether to go on below.
pub struct QuerySelectorProcessor<'a> {
    pub matching_context: MatchingContext,
    pub selector_list: &'a SelectorList,
}

impl<'a> QuerySelectorProcessor<'a> {
    /// Only the light tree is walked.
    pub fn light_tree_only(&self) -> (r: bool)
        ensures
            r,
    {
        true
    }

    /// With a scope element the selectors are filed for the descendants of the
    /// visited element; without one, for the element itself.
    pub fn collect_invalidations(&self) -> (r: InvalidationTarget)
        ensures
            r == (if self.matching_context.scope_element is Some {
                InvalidationTarget::DescendantInvalidation
            } else {
                InvalidationTarget::SelfInvalidation
            }),
    {
        if self.matching_context.scope_element.is_some() {
            InvalidationTarget::DescendantInvalidation
        } else {
            InvalidationTarget::SelfInvalidation
        }
    }

    pub fn matching_context(&self) -> (r: &MatchingContext)
        ensures
            *r == self.matching_context,
    {
        &self.matching_context
    }

    /// A first-match query goes on only while nothing was found.
    pub fn should_process_descendants<Q: SelectorQuery>(&self, results: &Q::Output) -> (r: bool)
        ensures
            r == (!Q::stops() || Q::contents(*results).len() == 0),
    {
        if Q::should_stop_after_first_match() {
            return Q::is_empty(results);
        }
        true
    }

    /// A visited element matched.
    pub fn invalidated_self<Q: SelectorQuery>(&self, results: &mut Q::Output, e: usize)
        requires
            Q::contents(*old(results)).len() < usize::MAX,
        ensures
            Q::contents(*final(results)) == appended(Q::stops(), Q::contents(*old(results)), e),
    {
        Q::append_element(results, e);
    }

    /// Nothing is kept of a traversal stopped for depth.
    pub fn recursion_limit_exceeded(&self, _e: usize) {
    }

    /// Nothing is kept of descendants having been invalidated.
    pub fn invalidated_descendants(&self, _e: usize, _child: usize) {
    }

    /// Walks the document from its document node in document order, offering
    /// each element that matches to `results`, and prunes the rest of the walk
    /// once the sink is satisfied.
    pub fn invalidate<Q: SelectorQuery>(&self, doc: &Document, results: &mut Q::Output)
        requires
            doc.wf(),
            Q::contents(*old(results)).len() + doc.nodes@.len() <= usize::MAX,
            self.selector_list.wf(),
            self.matching_context.scope_element is None,
        ensures
            Q::contents(*final(results)) == accumulated(
                Q::stops(),
                Q::contents(*old(results)),
                list_hits(*doc, 0, *self.selector_list, self.matching_context),
            ),
    {
        let ghost d = *doc;
        let ghost ctx = self.matching_context;
        let ghost list = *self.selector_list;
        let ghost p = under(d, 0, |i: int| list_matches(d, i, list, ctx));
        let ghost prior = Q::contents(*results);
        let target = self.collect_invalidations();
        let n = doc.nodes.len();
        proof {
            assert(!p(0));
            lemma_select_none(1, p);
        }
        let mut i: usize = 1;
        while i < n
            invariant
                d == *doc,
                n == d.nodes@.len(),
                1 <= i <= n,
                d.wf(),
                list == *self.selector_list,
                ctx == self.matching_context,
                list.wf(),
                target == InvalidationTarget::SelfInvalidation,
                prior == Q::contents(*old(results)),
                p == under(d, 0, |i: int| list_matches(d, i, list, ctx)),
                Q::contents(*results) == accumulated(Q::stops(), prior, select(i as int, p)),
                Q::stops() ==> select(i as int, p).len() == 0,
                prior.len() + n <= usize::MAX,
            decreases n - i,
        {
            if doc.nodes[i].is_element && matches_selector_list(self.selector_list, doc, i, &self.matching_context) {
                proof {
                    lemma_select_len(i as int, p);
                    lemma_accumulated_len(Q::stops(), prior, select(i as int, p));
                    lemma_below_document(d.nodes@, i as int);
                    assert(p(i as int));
                    assert(select(i as int + 1, p) == select(i as int, p).push(i));
                    lemma_accumulated_push(Q::stops(), prior, select(i as int, p), i);
                }
                self.invalidated_self::<Q>(results, i);
                if !self.should_process_descendants::<Q>(results) {
                    proof {
                        lemma_select_head(i as int, n as int, p);
                        lemma_accumulated_head(prior, select(i as int + 1, p), select(n as int, p));
                    }
                    return;
                }
            } else {
                proof {
                    if p(i as int) {
                        assert(is_element_at(d.nodes@, i as int));
                    }
                }
            }
            i += 1;
        }
    }
}

} // verus!
