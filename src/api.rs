use vstd::prelude::*;
use crate::accumulator::{accumulated, SelectorQuery};
use crate::processor::QuerySelectorProcessor;
use crate::query::{list_hits, query_selector_fast, query_selector_slow};
use crate::selector::{list_matches, matches_selector_list, MatchingContext, SelectorList};
use crate::tree::{is_ancestor, lemma_ancestor_below, lemma_ancestor_trans, Document};

verus! {

/// The matching context of a query under `root`: the document's quirks mode,
/// scoped to `root` where it is an element.
pub open spec fn query_context(doc: Document, root: int) -> MatchingContext {
    MatchingContext {
        quirks_mode: doc.quirks_mode,
        scope_element: if doc.nodes@[root].is_element {
            Some(root as usize)
        } else {
            None
        },
    }
}

/// The matching context of `matches` and `closest`: scoped to `element`.
pub open spec fn element_context(quirks_mode: crate::tree::QuirksMode, element: int) -> MatchingContext {
    MatchingContext { quirks_mode, scope_element: Some(element as usize) }
}

/// Whether `element` matches `selector_list`, scoped to itself.
pub fn element_matches(
    doc: &Document,
    element: usize,
    selector_list: &SelectorList,
    quirks_mode: crate::tree::QuirksMode,
) -> (r: bool)
    requires
        element < doc.nodes@.len(),
        selector_list.wf(),
    ensures
        r == list_matches(*doc, element as int, *selector_list, element_context(quirks_mode, element as int)),
{
    let context = MatchingContext { quirks_mode, scope_element: Some(element) };
    matches_selector_list(selector_list, doc, element, &context)
}

/// `a` is `e` or one of its ancestors.
pub open spec fn is_inclusive_ancestor(doc: Document, a: int, e: int) -> bool {
    a == e || is_ancestor(doc.nodes@, a, e)
}

/// The nearest of `element` and its ancestors that matches `selector_list`,
/// with the context scoped to `element`.
pub fn element_closest(
    doc: &Document,
    element: usize,
    selector_list: &SelectorList,
    quirks_mode: crate::tree::QuirksMode,
) -> (r: Option<usize>)
    requires
        element < doc.nodes@.len(),
        selector_list.wf(),
    ensures
        match r {
            Some(a) => {
                &&& is_inclusive_ancestor(*doc, a as int, element as int)
                &&& list_matches(*doc, a as int, *selector_list, element_context(quirks_mode, element as int))
                &&& forall|b: int|
                    a < b && #[trigger] is_inclusive_ancestor(*doc, b, element as int) ==> !list_matches(
                        *doc,
                        b,
                        *selector_list,
                        element_context(quirks_mode, element as int),
                    )
            },
            None => forall|b: int|
                #[trigger] is_inclusive_ancestor(*doc, b, element as int) ==> !list_matches(
                    *doc,
                    b,
                    *selector_list,
                    element_context(quirks_mode, element as int),
                ),
        },
{
    let ghost d = *doc;
    let ghost s = doc.nodes@;
    let context = MatchingContext { quirks_mode, scope_element: Some(element) };
    let mut current: usize = element;
    proof {
        assert forall|b: int| current < b && #[trigger] is_inclusive_ancestor(d, b, element as int) implies !list_matches(d, b, *selector_list, context) by {
            if is_ancestor(s, b, element as int) {
                lemma_ancestor_below(s, b, element as int);
            }
        }
    }
    loop
        invariant
            d == *doc,
            s == d.nodes@,
            element < s.len(),
            selector_list.wf(),
            context == element_context(quirks_mode, element as int),
            current < s.len(),
            is_inclusive_ancestor(d, current as int, element as int),
            forall|b: int|
                current < b && #[trigger] is_inclusive_ancestor(d, b, element as int) ==> !list_matches(
                    d,
                    b,
                    *selector_list,
                    context,
                ),
        decreases current,
    {
        if matches_selector_list(selector_list, doc, current, &context) {
            return Some(current);
        }
        match doc.nodes[current].parent {
            Some(p) => {
                if p >= current {
                    proof {
                        assert forall|b: int| #[trigger] is_inclusive_ancestor(d, b, element as int) implies !list_matches(d, b, *selector_list, context) by {
                            if b < current {
                                lemma_between(d, b, current as int, element as int);
                            }
                        }
                    }
                    return None;
                }
                proof {
                    assert(is_ancestor(s, p as int, current as int));
                    if current != element {
                        lemma_ancestor_trans(s, p as int, current as int, element as int);
                    }
                    assert forall|b: int| p < b && #[trigger] is_inclusive_ancestor(d, b, element as int) implies !list_matches(d, b, *selector_list, context) by {
                        if b < current {
                            lemma_between(d, b, current as int, element as int);
                            if b != p {
                                lemma_ancestor_below(s, b, p as int);
                            }
                        }
                    }
                }
                current = p;
            },
            None => {
                proof {
                    assert forall|b: int| #[trigger] is_inclusive_ancestor(d, b, element as int) implies !list_matches(d, b, *selector_list, context) by {
                        if b < current {
                            lemma_between(d, b, current as int, element as int);
                        }
                    }
                }
                return None;
            },
        }
    }
}

/// An inclusive ancestor of `e` below an inclusive ancestor `c` of `e` is an
/// ancestor of `c`.
proof fn lemma_between(d: Document, b: int, c: int, e: int)
    requires
        b < c,
        is_inclusive_ancestor(d, b, e),
        is_inclusive_ancestor(d, c, e),
    ensures
        is_ancestor(d.nodes@, b, c),
    decreases e,
{
    let s = d.nodes@;
    if c != e {
        if b == e {
            lemma_ancestor_below(s, c, e);
        }
        let p = s[e].parent.unwrap() as int;
        if p == c {
        } else if p == b {
            lemma_ancestor_below(s, c, p);
        } else {
            lemma_between(d, b, c, p);
        }
    }
}

/// Runs a query under `root` into `results`: the fast paths where they apply;
/// otherwise the pruned traversal for a query on the whole document with a
/// selector of several compounds, and the linear scan for the rest.
pub fn query_selector<Q: SelectorQuery>(
    doc: &Document,
    root: usize,
    selector_list: &SelectorList,
    results: &mut Q::Output,
)
    requires
        doc.wf(),
        root < doc.nodes@.len(),
        Q::contents(*old(results)).len() + doc.nodes@.len() <= usize::MAX,
        selector_list.wf(),
    ensures
        Q::contents(*final(results)) == accumulated(
            Q::stops(),
            Q::contents(*old(results)),
            list_hits(*doc, root as int, *selector_list, query_context(*doc, root as int)),
        ),
{
    let quirks_mode = doc.quirks_mode;
    let root_is_element = doc.nodes[root].is_element;
    let scope_element = if root_is_element {
        Some(root)
    } else {
        None
    };
    let matching_context = MatchingContext { quirks_mode, scope_element };
    let fast_result = query_selector_fast::<Q>(doc, root, selector_list, results, &matching_context);
    if fast_result.is_ok() {
        return;
    }
    // The traversal prunes only where a selector has a combinator, and starts
    // from the document node.
    let mut invalidation_may_be_useful = false;
    let mut i: usize = 0;
    while i < selector_list.selectors.len()
        invariant
            i <= selector_list.selectors@.len(),
        decreases selector_list.selectors@.len() - i,
    {
        if selector_list.selectors[i].has_combinators() {
            invalidation_may_be_useful = true;
        }
        i += 1;
    }
    if root_is_element || root != 0 || !invalidation_may_be_useful {
        query_selector_slow::<Q>(doc, root, selector_list, results, &matching_context);
    } else {
        let processor = QuerySelectorProcessor { matching_context, selector_list };
        processor.invalidate::<Q>(doc, results);
    }
}

} // verus!
