use vstd::prelude::*;
use crate::accumulator::{accumulated, QueryAll, QueryFirst, SelectorQuery};
use crate::api::{element_context, query_context};
use crate::query::{lemma_select_bounds, list_hits, under};
use crate::selector::{list_matches, SelectorList};
use crate::tree::{is_ancestor, is_element_at, select, Document};

verus! {

proof fn lemma_select_contains(n: int, p: spec_fn(int) -> bool, e: int)
    requires
        0 <= e < n <= usize::MAX,
        p(e),
    ensures
        select(n, p).contains(e as usize),
    decreases n,
{
    if e == n - 1 {
        assert(select(n, p)[select(n, p).len() - 1] == e as usize);
    } else {
        lemma_select_contains(n - 1, p, e);
        let j = choose|j: int| 0 <= j < select(n - 1, p).len() && #[trigger] select(n - 1, p)[j] == e as usize;
        if p(n - 1) {
            assert(select(n, p)[j] == e as usize);
        }
    }
}

proof fn lemma_select_increasing(n: int, p: spec_fn(int) -> bool)
    requires
        n <= usize::MAX,
    ensures
        forall|a: int, b: int| 0 <= a < b < select(n, p).len() ==> select(n, p)[a] < select(n, p)[b],
    decreases n,
{
    if n > 0 {
        lemma_select_increasing(n - 1, p);
        let prev = select(n - 1, p);
        if p(n - 1) {
            assert forall|a: int, b: int| 0 <= a < b < select(n, p).len() implies select(n, p)[a] < select(n, p)[b] by {
                if b == prev.len() {
                    lemma_select_bounds(n - 1, p, a);
                }
            }
        }
    }
}

/// Whatever strategy a query takes, what it finds is exactly the set of
/// elements strictly below the root that match the list, as a scan of every
/// descendant finds them: none is missed and none is extra.
pub proof fn law_strategy_equivalence(doc: Document, root: int, list: SelectorList, e: usize)
    requires
        doc.wf(),
        0 <= root < doc.nodes@.len(),
        list.wf(),
    ensures
        list_hits(doc, root, list, query_context(doc, root)).contains(e) <==> (is_ancestor(
            doc.nodes@,
            root,
            e as int,
        ) && is_element_at(doc.nodes@, e as int) && list_matches(doc, e as int, list, query_context(doc, root))),
{
    let ctx = query_context(doc, root);
    let n = doc.nodes@.len() as int;
    let p = under(doc, root, |i: int| list_matches(doc, i, list, ctx));
    let l = list_hits(doc, root, list, ctx);
    if l.contains(e) {
        let j = choose|j: int| 0 <= j < l.len() && #[trigger] l[j] == e;
        lemma_select_bounds(n, p, j);
    }
    if is_ancestor(doc.nodes@, root, e as int) && is_element_at(doc.nodes@, e as int) && list_matches(doc, e as int, list, ctx) {
        assert(p(e as int));
        lemma_select_contains(n, p, e as int);
    }
}

/// All-matches results come in document order, each element once: the node
/// indices strictly increase, and nodes are stored in document order.
pub proof fn law_document_order(doc: Document, root: int, list: SelectorList)
    requires
        doc.wf(),
        0 <= root < doc.nodes@.len(),
        list.wf(),
    ensures
        forall|a: int, b: int|
            0 <= a < b < list_hits(doc, root, list, query_context(doc, root)).len() ==> list_hits(
                doc,
                root,
                list,
                query_context(doc, root),
            )[a] < list_hits(doc, root, list, query_context(doc, root))[b],
{
    let ctx = query_context(doc, root);
    lemma_select_increasing(doc.nodes@.len() as int, under(doc, root, |i: int| list_matches(doc, i, list, ctx)));
}

/// A first-match query into an empty sink gives the head of what the
/// all-matches query gives into an empty sink, and nothing where that is empty.
pub proof fn law_first_is_head(found: Seq<usize>)
    ensures
        accumulated(QueryAll::stops(), Seq::empty(), found) == found,
        accumulated(QueryFirst::stops(), Seq::empty(), found) == (if found.len() > 0 {
            seq![found[0]]
        } else {
            Seq::<usize>::empty()
        }),
{
    assert(Seq::<usize>::empty() + found == found);
}

/// An element matches a list, scoped to itself, exactly when it is among the
/// all-matches result of that list under its parent with the same scope.
pub proof fn law_scope(doc: Document, e: usize, list: SelectorList)
    requires
        doc.wf(),
        e < doc.nodes@.len(),
        doc.nodes@[e as int].is_element,
        list.wf(),
    ensures
        ({
            let ctx = element_context(doc.quirks_mode, e as int);
            let parent = doc.nodes@[e as int].parent.unwrap() as int;
            list_matches(doc, e as int, list, ctx) <==> list_hits(doc, parent, list, ctx).contains(e)
        }),
{
    let ctx = element_context(doc.quirks_mode, e as int);
    let s = doc.nodes@;
    let parent = s[e as int].parent.unwrap() as int;
    let n = s.len() as int;
    let p = under(doc, parent, |i: int| list_matches(doc, i, list, ctx));
    assert(e != 0);
    assert(s[e as int].parent is Some);
    if parent != e - 1 {
        crate::tree::lemma_ancestor_below(s, parent, e - 1);
    }
    assert(is_ancestor(s, parent, e as int));
    if list_matches(doc, e as int, list, ctx) {
        assert(p(e as int));
        lemma_select_contains(n, p, e as int);
    }
    let l = list_hits(doc, parent, list, ctx);
    if l.contains(e) {
        let j = choose|j: int| 0 <= j < l.len() && #[trigger] l[j] == e;
        lemma_select_bounds(n, p, j);
    }
}

} // verus!
