use vstd::prelude::*;
use crate::accumulator::{accumulated, appended, lemma_accumulated_len, SelectorQuery};
use crate::selector::{
    component_matches, compound_matches, list_matches, matches_component, matches_from,
    matches_selector_list, selector_matches, Combinator, Component, MatchingContext, Selector,
    SelectorList,
};
use crate::tree::{
    select, lemma_select_ext, lemma_select_none, is_ancestor, is_element_at, lemma_ancestor_below, lemma_subtree_contiguous, spec_has_id, wf_nodes, CaseSensitivity, Document,
    QuirksMode,
};

verus! {

/// Elements strictly below `root` that satisfy `p`.
pub open spec fn under(doc: Document, root: int, p: spec_fn(int) -> bool) -> spec_fn(int) -> bool {
    |i: int| is_ancestor(doc.nodes@, root, i) && is_element_at(doc.nodes@, i) && p(i)
}

/// The elements strictly below `root` that satisfy `p`, in document order.
pub open spec fn hits(doc: Document, root: int, p: spec_fn(int) -> bool) -> Seq<usize> {
    select(doc.nodes@.len() as int, under(doc, root, p))
}

/// The elements strictly below `root` that match `list`, in document order.
pub open spec fn list_hits(doc: Document, root: int, list: SelectorList, ctx: MatchingContext) -> Seq<usize> {
    hits(doc, root, |i: int| list_matches(doc, i, list, ctx))
}

pub proof fn lemma_select_len(n: int, p: spec_fn(int) -> bool)
    requires
        0 <= n,
    ensures
        select(n, p).len() <= n,
    decreases n,
{
    if n > 0 {
        lemma_select_len(n - 1, p);
    }
}

pub proof fn lemma_keep_len(l: Seq<usize>, q: spec_fn(int) -> bool)
    ensures
        keep(l, q).len() <= l.len(),
    decreases l.len(),
{
    if l.len() > 0 {
        lemma_keep_len(l.drop_last(), q);
    }
}

/// Nothing in `[m, n)` satisfies `p`: the selection stays as it was at `m`.
pub proof fn lemma_select_rest_none(m: int, n: int, p: spec_fn(int) -> bool)
    requires
        m <= n,
        forall|i: int| m <= i < n ==> !#[trigger] p(i),
    ensures
        select(n, p) == select(m, p),
    decreases n - m,
{
    if n > m {
        lemma_select_rest_none(m, n - 1, p);
    }
}

/// The first index that satisfies `p` heads every later selection.
pub proof fn lemma_select_head(m: int, n: int, p: spec_fn(int) -> bool)
    requires
        0 <= m < n,
        select(m, p).len() == 0,
        p(m),
    ensures
        select(n, p).len() > 0,
        select(n, p)[0] == m as usize,
    decreases n,
{
    if n - 1 > m {
        lemma_select_head(m, n - 1, p);
    }
}

/// Offering the elements one at a time agrees with offering them all.
pub proof fn lemma_accumulated_push(stops: bool, prior: Seq<usize>, found: Seq<usize>, e: usize)
    requires
        stops ==> found.len() == 0,
    ensures
        appended(stops, accumulated(stops, prior, found), e) == accumulated(stops, prior, found.push(e)),
{
    if !stops {
        assert(prior + found.push(e) =~= (prior + found).push(e));
    } else {
        assert(seq![e] =~= Seq::<usize>::empty().push(e));
    }
}

/// In first-match mode only the head of what is found counts.
pub proof fn lemma_accumulated_head(prior: Seq<usize>, a: Seq<usize>, b: Seq<usize>)
    requires
        a.len() > 0,
        b.len() > 0,
        a[0] == b[0],
    ensures
        accumulated(true, prior, a) == accumulated(true, prior, b),
{
}

/// The items of `l` that satisfy `q`, in their order.
pub open spec fn keep(l: Seq<usize>, q: spec_fn(int) -> bool) -> Seq<usize>
    decreases l.len(),
{
    if l.len() == 0 {
        seq![]
    } else if q(l.last() as int) {
        keep(l.drop_last(), q).push(l.last())
    } else {
        keep(l.drop_last(), q)
    }
}

pub proof fn lemma_keep_select(
    n: int,
    p: spec_fn(int) -> bool,
    q: spec_fn(int) -> bool,
    pq: spec_fn(int) -> bool,
)
    requires
        0 <= n <= usize::MAX,
        forall|i: int| #[trigger] pq(i) == (p(i) && q(i)),
    ensures
        keep(select(n, p), q) == select(n, pq),
    decreases n,
{
    if n > 0 {
        lemma_keep_select(n - 1, p, q, pq);
        assert(select(n, pq) == if pq(n - 1) {
            select(n - 1, pq).push((n - 1) as usize)
        } else {
            select(n - 1, pq)
        });
        if p(n - 1) {
            let l = select(n - 1, p).push((n - 1) as usize);
            assert(l.drop_last() == select(n - 1, p));
            assert(l.last() == (n - 1) as usize);
        }
    }
}

/// What `keep` gives for a prefix of `l` begins what it gives for `l`.
pub proof fn lemma_keep_prefix(l: Seq<usize>, a: int, q: spec_fn(int) -> bool)
    requires
        0 <= a <= l.len(),
    ensures
        keep(l.take(a), q).len() <= keep(l, q).len(),
        forall|k: int| 0 <= k < keep(l.take(a), q).len() ==> #[trigger] keep(l.take(a), q)[k] == keep(l, q)[k],
    decreases l.len() - a,
{
    if a < l.len() {
        lemma_keep_prefix(l, a + 1, q);
        let t = l.take(a + 1);
        assert(t.drop_last() == l.take(a));
        assert(t.len() > 0);
        assert forall|k: int| 0 <= k < keep(l.take(a), q).len() implies #[trigger] keep(l.take(a), q)[k] == keep(l, q)[k] by {
            assert(keep(t, q)[k] == keep(l, q)[k]);
        }
    } else {
        assert(l.take(a) == l);
    }
}

/// Every node after the document node lies below it.
pub proof fn lemma_below_document(s: Seq<crate::tree::NodeData>, i: int)
    requires
        wf_nodes(s),
        1 <= i < s.len(),
    ensures
        is_ancestor(s, 0, i),
    decreases i,
{
    let p = s[i].parent.unwrap() as int;
    if p != i - 1 {
        crate::tree::lemma_ancestor_below(s, p, i - 1);
    }
    if p != 0 {
        lemma_below_document(s, p);
    }
}

/// The elements strictly below `root` whose identifier equals `id` under the
/// document's case sensitivity, in document order. Where identifiers compare
/// as written, the document's identifier lookup is used and its result kept to
/// `root`'s subtree; otherwise the subtree is scanned.
pub fn each_element_with_id_under(
    doc: &Document,
    root: usize,
    id: &Vec<u8>,
    quirks_mode: QuirksMode,
) -> (r: Vec<usize>)
    requires
        doc.wf(),
        root < doc.nodes@.len(),
    ensures
        r@ == hits(*doc, root as int, |i: int| spec_has_id(doc.nodes@[i], id@, quirks_mode.spec_case_sensitivity())),
{
    let ghost d = *doc;
    let ghost cs = quirks_mode.spec_case_sensitivity();
    let ghost want = under(d, root as int, |i: int| spec_has_id(doc.nodes@[i], id@, cs));
    let case_sensitivity = quirks_mode.classes_and_ids_case_sensitivity();
    if case_sensitivity == CaseSensitivity::CaseSensitive {
        let elements = doc.elements_with_id(id);
        let ghost ip = |i: int| is_element_at(d.nodes@, i) && spec_has_id(d.nodes@[i], id@, CaseSensitivity::CaseSensitive);
        let ghost inside = |i: int| is_ancestor(d.nodes@, root as int, i);
        if root == 0 {
            proof {
                assert forall|i: int| 0 <= i < d.nodes@.len() implies #[trigger] ip(i) == want(i) by {
                    if i >= 1 {
                        lemma_below_document(d.nodes@, i);
                    }
                }
                lemma_select_ext(d.nodes@.len() as int, ip, want);
            }
            return elements;
        }
        let mut r: Vec<usize> = Vec::new();
        let mut j: usize = 0;
        let total = doc.nodes.len();
        while j < elements.len()
            invariant
                d == *doc,
                total == d.nodes@.len(),
                root < d.nodes@.len(),
                elements@ == select(d.nodes@.len() as int, ip),
                inside == (|i: int| is_ancestor(d.nodes@, root as int, i)),
                j <= elements@.len(),
                r@ == keep(elements@.take(j as int), inside),
            decreases elements@.len() - j,
        {
            let e = elements[j];
            proof {
                assert(elements@.take(j + 1).drop_last() == elements@.take(j as int));
                crate::query::lemma_select_bounds(d.nodes@.len() as int, ip, j as int);
            }
            if doc.element_is_descendant_of(e, root) {
                r.push(e);
            }
            j += 1;
        }
        proof {
            assert(elements@.take(elements@.len() as int) == elements@);
            lemma_keep_select(d.nodes@.len() as int, ip, inside, want);
        }
        return r;
    }
    let mut r: Vec<usize> = Vec::new();
    let n = doc.nodes.len();
    let mut i: usize = root + 1;
    proof {
        assert forall|k: int| 0 <= k < root + 1 implies !#[trigger] want(k) by {
            if is_ancestor(d.nodes@, root as int, k) {
                lemma_ancestor_below(d.nodes@, root as int, k);
            }
        }
        lemma_select_none(root + 1, want);
    }
    while i < n && doc.element_is_descendant_of(i, root)
        invariant
            d == *doc,
            d.wf(),
            n == d.nodes@.len(),
            root < i <= n,
            cs == quirks_mode.spec_case_sensitivity(),
            case_sensitivity == cs,
            want == under(d, root as int, |i: int| spec_has_id(doc.nodes@[i], id@, cs)),
            r@ == select(i as int, want),
        decreases n - i,
    {
        if doc.nodes[i].is_element && doc.has_id(i, id, case_sensitivity) {
            r.push(i);
        }
        i += 1;
    }
    proof {
        if i < n {
            assert forall|k: int| i <= k < n implies !#[trigger] want(k) by {
                lemma_subtree_contiguous(d.nodes@, root as int, i as int, k);
            }
        }
        lemma_select_rest_none(i as int, n as int, want);
    }
    r
}

/// Items of `select` lie below its bound.
pub proof fn lemma_select_bounds(n: int, p: spec_fn(int) -> bool, j: int)
    requires
        n <= usize::MAX,
        0 <= j < select(n, p).len(),
    ensures
        0 <= select(n, p)[j] < n,
        p(select(n, p)[j] as int),
    decreases n,
{
    if n > 0 {
        if p(n - 1) && j == select(n - 1, p).len() {
            assert(select(n, p) == select(n - 1, p).push((n - 1) as usize));
        } else {
            lemma_select_bounds(n - 1, p, j);
        }
    }
}

/// Which elements a scan keeps.
pub enum ElementFilter<'a> {
    /// Elements for which one component holds.
    Component(&'a Component),
    /// Elements that match a selector list.
    Selectors(&'a SelectorList),
}

impl<'a> ElementFilter<'a> {
    pub open spec fn wf(&self) -> bool {
        match *self {
            ElementFilter::Component(_) => true,
            ElementFilter::Selectors(l) => l.wf(),
        }
    }

    pub open spec fn holds(&self, doc: Document, ctx: MatchingContext) -> spec_fn(int) -> bool {
        match *self {
            ElementFilter::Component(c) => |i: int| component_matches(doc, i, *c, ctx),
            ElementFilter::Selectors(l) => |i: int| list_matches(doc, i, *l, ctx),
        }
    }

    pub fn test(&self, doc: &Document, e: usize, ctx: &MatchingContext) -> (r: bool)
        requires
            self.wf(),
            e < doc.nodes@.len(),
        ensures
            r == (self.holds(*doc, *ctx))(e as int),
    {
        match self {
            ElementFilter::Component(c) => matches_component(doc, e, c, ctx),
            ElementFilter::Selectors(l) => matches_selector_list(l, doc, e, ctx),
        }
    }
}

/// Offers every element strictly below `root` that passes `filter` to
/// `results`, in document order, stopping after the first one where the sink
/// asks for that.
pub fn collect_all_elements<Q: SelectorQuery>(
    doc: &Document,
    root: usize,
    results: &mut Q::Output,
    filter: &ElementFilter,
    ctx: &MatchingContext,
)
    requires
        doc.wf(),
        Q::contents(*old(results)).len() + doc.nodes@.len() <= usize::MAX,
        root < doc.nodes@.len(),
        filter.wf(),
    ensures
        Q::contents(*final(results)) == accumulated(
            Q::stops(),
            Q::contents(*old(results)),
            hits(*doc, root as int, filter.holds(*doc, *ctx)),
        ),
{
    let ghost d = *doc;
    let ghost p = under(d, root as int, filter.holds(d, *ctx));
    let ghost prior = Q::contents(*results);
    let n = doc.nodes.len();
    proof {
        assert forall|i: int| 0 <= i < root + 1 implies !#[trigger] p(i) by {
            if is_ancestor(d.nodes@, root as int, i) {
                lemma_ancestor_below(d.nodes@, root as int, i);
            }
        }
        lemma_select_none(root + 1, p);
    }
    let stop = Q::should_stop_after_first_match();
    let mut i: usize = root + 1;
    // The subtree of `root` is the run of nodes below it that follows it.
    while i < n && doc.element_is_descendant_of(i, root)
        invariant
            d == *doc,
            d.wf(),
            n == d.nodes@.len(),
            root < i <= n,
            filter.wf(),
            stop == Q::stops(),
            prior == Q::contents(*old(results)),
            p == under(d, root as int, filter.holds(d, *ctx)),
            Q::contents(*results) == accumulated(Q::stops(), prior, select(i as int, p)),
            Q::stops() ==> select(i as int, p).len() == 0,
            prior.len() + n <= usize::MAX,
        decreases n - i,
    {
        if doc.nodes[i].is_element && filter.test(doc, i, ctx) {
            proof {
                lemma_select_len(i as int, p);
                lemma_accumulated_len(Q::stops(), prior, select(i as int, p));
                assert(p(i as int));
                assert(select(i as int + 1, p) == select(i as int, p).push(i));
                lemma_accumulated_push(Q::stops(), prior, select(i as int, p), i);
            }
            Q::append_element(results, i);
            if stop {
                proof {
                    lemma_select_head(i as int, n as int, p);
                    lemma_accumulated_head(prior, select(i as int + 1, p), select(n as int, p));
                }
                return;
            }
        }
        i += 1;
    }
    proof {
        if i < n {
            assert forall|k: int| i <= k < n implies !#[trigger] p(k) by {
                lemma_subtree_contiguous(d.nodes@, root as int, i as int, k);
            }
        }
        lemma_select_rest_none(i as int, n as int, p);
    }
}

/// Offers the elements strictly below `root` whose identifier is `id` and that
/// pass `filter` to `results`, in document order, stopping after the first one
/// where the sink asks for that.
pub fn collect_elements_with_id<Q: SelectorQuery>(
    doc: &Document,
    root: usize,
    id: &Vec<u8>,
    results: &mut Q::Output,
    filter: &ElementFilter,
    ctx: &MatchingContext,
)
    requires
        Q::contents(*old(results)).len() + doc.nodes@.len() <= usize::MAX,
        doc.wf(),
        root < doc.nodes@.len(),
        filter.wf(),
    ensures
        Q::contents(*final(results)) == accumulated(
            Q::stops(),
            Q::contents(*old(results)),
            hits(
                *doc,
                root as int,
                |i: int|
                    spec_has_id(doc.nodes@[i], id@, ctx.quirks_mode.spec_case_sensitivity())
                        && (filter.holds(*doc, *ctx))(i),
            ),
        ),
{
    let ghost d = *doc;
    let ghost prior = Q::contents(*results);
    let ghost cs = ctx.quirks_mode.spec_case_sensitivity();
    let ghost f = filter.holds(d, *ctx);
    let ghost hp = under(d, root as int, |i: int| spec_has_id(doc.nodes@[i], id@, cs));
    let ghost want = under(
        *doc,
        root as int,
        |i: int|
            spec_has_id(doc.nodes@[i], id@, ctx.quirks_mode.spec_case_sensitivity())
                && (filter.holds(*doc, *ctx))(i),
    );
    let candidates = each_element_with_id_under(doc, root, id, ctx.quirks_mode);
    let ghost c = candidates@;
    let total = doc.nodes.len();
    let stop = Q::should_stop_after_first_match();
    proof {
        lemma_select_len(total as int, hp);
        lemma_keep_select(total as int, hp, f, want);
        assert(c.take(c.len() as int) == c);
        assert(c.take(0) == Seq::<usize>::empty());
    }
    let mut j: usize = 0;
    while j < candidates.len()
        invariant
            d == *doc,
            total == d.nodes@.len(),
            filter.wf(),
            stop == Q::stops(),
            f == filter.holds(d, *ctx),
            c == candidates@,
            c == select(total as int, hp),
            keep(c, f) == select(total as int, want),
            want == under(
                *doc,
                root as int,
                |i: int|
                    spec_has_id(doc.nodes@[i], id@, ctx.quirks_mode.spec_case_sensitivity())
                        && (filter.holds(*doc, *ctx))(i),
            ),
            prior == Q::contents(*old(results)),
            j <= c.len(),
            Q::contents(*results) == accumulated(Q::stops(), prior, keep(c.take(j as int), f)),
            Q::stops() ==> keep(c.take(j as int), f).len() == 0,
            prior.len() + total <= usize::MAX,
            c.len() <= total,
        decreases c.len() - j,
    {
        let e = candidates[j];
        proof {
            lemma_select_bounds(total as int, hp, j as int);
            assert(c.take(j + 1).drop_last() == c.take(j as int));
            assert(c.take(j + 1).last() == e);
        }
        if filter.test(doc, e, ctx) {
            proof {
                lemma_keep_len(c.take(j as int), f);
                lemma_accumulated_len(Q::stops(), prior, keep(c.take(j as int), f));
                lemma_accumulated_push(Q::stops(), prior, keep(c.take(j as int), f), e);
            }
            Q::append_element(results, e);
            if stop {
                proof {
                    lemma_keep_prefix(c, j + 1, f);
                    assert(keep(c.take(j + 1), f)[0] == keep(c, f)[0]);
                    lemma_accumulated_head(prior, keep(c.take(j + 1), f), keep(c, f));
                }
                return;
            }
        }
        j += 1;
    }
}

/// The component kinds that a lone component can be answered for without the
/// full matcher.
pub open spec fn single_query_supported(c: Component) -> bool {
    c is ExplicitUniversalType || c is ID || c is Class || c is LocalName
}

/// Fast paths for a query made of a single simple selector. `Err` where the
/// component is of another kind, and then `results` is left as it was.
pub fn query_selector_single_query<Q: SelectorQuery>(
    doc: &Document,
    root: usize,
    component: &Component,
    results: &mut Q::Output,
    ctx: &MatchingContext,
) -> (r: Result<(), ()>)
    requires
        Q::contents(*old(results)).len() + doc.nodes@.len() <= usize::MAX,
        doc.wf(),
        root < doc.nodes@.len(),
    ensures
        r is Ok <==> single_query_supported(*component),
        r is Ok ==> Q::contents(*final(results)) == accumulated(
            Q::stops(),
            Q::contents(*old(results)),
            hits(*doc, root as int, |i: int| component_matches(*doc, i, *component, *ctx)),
        ),
        r is Err ==> *final(results) == *old(results),
{
    let ghost want = |i: int| component_matches(*doc, i, *component, *ctx);
    match component {
        Component::ExplicitUniversalType | Component::Class(_) | Component::LocalName(_) => {
            let filter = ElementFilter::Component(component);
            collect_all_elements::<Q>(doc, root, results, &filter, ctx);
            proof {
                let n = doc.nodes@.len() as int;
                let a = under(*doc, root as int, filter.holds(*doc, *ctx));
                let b = under(*doc, root as int, want);
                assert forall|i: int| 0 <= i < n implies #[trigger] a(i) == b(i) by {}
                lemma_select_ext(n, a, b);
            }
        },
        Component::ID(id) => {
            let universal = Component::ExplicitUniversalType;
            let filter = ElementFilter::Component(&universal);
            collect_elements_with_id::<Q>(doc, root, id, results, &filter, ctx);
            proof {
                let n = doc.nodes@.len() as int;
                let a = under(
                    *doc,
                    root as int,
                    |i: int|
                        spec_has_id(doc.nodes@[i], id@, ctx.quirks_mode.spec_case_sensitivity())
                            && (filter.holds(*doc, *ctx))(i),
                );
                let b = under(*doc, root as int, want);
                assert forall|i: int| 0 <= i < n implies #[trigger] a(i) == b(i) by {}
                lemma_select_ext(n, a, b);
            }
        },
        _ => {
            return Err(());
        },
    }
    Ok(())
}

/// The rightmost compound of `sel` holds an identifier component.
pub open spec fn rightmost_has_id(sel: Selector) -> bool {
    exists|j: int| 0 <= j < sel.compounds@[0]@.len() && (#[trigger] sel.compounds@[0]@[j]) is ID
}

/// Walks the compounds of `sel` right to left, across combinators, for an
/// identifier to anchor a lookup on. Only the rightmost compound can give one;
/// the compound left of a sibling combinator is stepped over, since the
/// subtree of an identifier bounds no candidate across siblings. Returns the
/// position of the identifier in the rightmost compound.
pub fn find_id_anchor(sel: &Selector) -> (r: Option<usize>)
    requires
        sel.wf(),
    ensures
        r matches Some(j) ==> j < sel.compounds@[0]@.len() && sel.compounds@[0]@[j as int] is ID,
        r is None ==> !rightmost_has_id(*sel),
{
    let mut k: usize = 0;
    let mut combinator: Option<Combinator> = None;
    loop
        invariant
            sel.wf(),
            k < sel.compounds@.len(),
            (k == 0 && combinator is None) || (k > 0 && combinator is Some && !rightmost_has_id(*sel)),
        decreases sel.compounds@.len() - k,
    {
        let compound = &sel.compounds[k];
        let mut j: usize = 0;
        while j < compound.len()
            invariant
                sel.wf(),
                k < sel.compounds@.len(),
                compound@ == sel.compounds@[k as int]@,
                (k == 0 && combinator is None) || (k > 0 && combinator is Some && !rightmost_has_id(*sel)),
                j <= compound@.len(),
                k == 0 ==> forall|m: int| 0 <= m < j ==> !((#[trigger] sel.compounds@[0]@[m]) is ID),
            decreases compound@.len() - j,
        {
            if let Component::ID(_) = &compound[j] {
                if combinator.is_none() {
                    return Some(j);
                }
            }
            j += 1;
        }
        let ghost k0 = k;
        proof {
            if k == 0 {
                assert(!rightmost_has_id(*sel));
            }
        }
        loop
            invariant
                sel.wf(),
                k0 <= k < sel.compounds@.len(),
                !rightmost_has_id(*sel),
            ensures
                k0 < k < sel.compounds@.len(),
                combinator is Some,
                !rightmost_has_id(*sel),
            decreases sel.compounds@.len() - k,
        {
            if sel.compounds.len() - k <= 1 {
                return None;
            }
            let next_combinator = sel.combinators[k];
            k += 1;
            if next_combinator.is_sibling() {
                continue;
            }
            combinator = Some(next_combinator);
            break;
        }
    }
}

/// The list is one selector that the fast paths answer: a lone component of a
/// supported kind, or an identifier in the rightmost compound.
pub open spec fn fast_path_applies(list: SelectorList) -> bool {
    let sel = list.selectors@[0];
    &&& list.selectors@.len() == 1
    &&& if sel.compounds@.len() == 1 && sel.compounds@[0]@.len() == 1 {
        single_query_supported(sel.compounds@[0]@[0])
    } else {
        rightmost_has_id(sel)
    }
}

/// With one selector of one component, the list matches where the component does.
proof fn lemma_lone_component(doc: Document, e: int, list: SelectorList, ctx: MatchingContext)
    requires
        list.wf(),
        list.selectors@.len() == 1,
        list.selectors@[0].compounds@.len() == 1,
        list.selectors@[0].compounds@[0]@.len() == 1,
    ensures
        list_matches(doc, e, list, ctx) == (is_element_at(doc.nodes@, e) && component_matches(
            doc,
            e,
            list.selectors@[0].compounds@[0]@[0],
            ctx,
        )),
{
    let sel = list.selectors@[0];
    assert(selector_matches(doc, e, sel, ctx) == matches_from(doc, e, sel, 0, ctx));
    if list_matches(doc, e, list, ctx) {
        assert(selector_matches(doc, e, list.selectors@[0], ctx));
    }
    if is_element_at(doc.nodes@, e) && component_matches(doc, e, sel.compounds@[0]@[0], ctx) {
        assert(compound_matches(doc, e, sel.compounds@[0]@, ctx));
        assert(selector_matches(doc, e, list.selectors@[0], ctx));
    }
}

/// A list of one selector matches only where the identifier of its rightmost
/// compound is carried.
proof fn lemma_anchor_implied(doc: Document, e: int, list: SelectorList, ctx: MatchingContext, j: int)
    requires
        list.wf(),
        list.selectors@.len() == 1,
        0 <= j < list.selectors@[0].compounds@[0]@.len(),
        list_matches(doc, e, list, ctx),
    ensures
        component_matches(doc, e, list.selectors@[0].compounds@[0]@[j], ctx),
{
    let sel = list.selectors@[0];
    assert(selector_matches(doc, e, list.selectors@[0], ctx));
    assert(matches_from(doc, e, sel, 0, ctx));
    assert(compound_matches(doc, e, sel.compounds@[0]@, ctx));
}

/// Fast paths for a given selector query. `Err` where none applies, and then
/// `results` is left as it was.
pub fn query_selector_fast<Q: SelectorQuery>(
    doc: &Document,
    root: usize,
    selector_list: &SelectorList,
    results: &mut Q::Output,
    ctx: &MatchingContext,
) -> (r: Result<(), ()>)
    requires
        Q::contents(*old(results)).len() + doc.nodes@.len() <= usize::MAX,
        doc.wf(),
        root < doc.nodes@.len(),
        selector_list.wf(),
    ensures
        r is Ok <==> fast_path_applies(*selector_list),
        r is Ok ==> Q::contents(*final(results)) == accumulated(
            Q::stops(),
            Q::contents(*old(results)),
            list_hits(*doc, root as int, *selector_list, *ctx),
        ),
        r is Err ==> *final(results) == *old(results),
{
    // Results must come in document order, and merging the answers of several
    // selectors would need a sort.
    if selector_list.selectors.len() > 1 {
        return Err(());
    }
    let selector = &selector_list.selectors[0];
    let ghost n = doc.nodes@.len() as int;
    let ghost want = under(*doc, root as int, |i: int| list_matches(*doc, i, *selector_list, *ctx));
    if selector.compounds.len() == 1 && selector.compounds[0].len() == 1 {
        let component = &selector.compounds[0][0];
        let r = query_selector_single_query::<Q>(doc, root, component, results, ctx);
        proof {
            let a = under(*doc, root as int, |i: int| component_matches(*doc, i, *component, *ctx));
            assert forall|i: int| 0 <= i < n implies #[trigger] a(i) == want(i) by {
                lemma_lone_component(*doc, i, *selector_list, *ctx);
            }
            lemma_select_ext(n, a, want);
        }
        return r;
    }
    match find_id_anchor(selector) {
        Some(j) => {
            match &selector.compounds[0][j] {
                Component::ID(id) => {
                    // In the rightmost compound: the elements below `root`
                    // with that identifier that match the whole list.
                    let filter = ElementFilter::Selectors(selector_list);
                    collect_elements_with_id::<Q>(doc, root, id, results, &filter, ctx);
                    proof {
                        let a = under(
                            *doc,
                            root as int,
                            |i: int|
                                spec_has_id(doc.nodes@[i], id@, ctx.quirks_mode.spec_case_sensitivity())
                                    && (filter.holds(*doc, *ctx))(i),
                        );
                        assert forall|i: int| 0 <= i < n implies #[trigger] a(i) == want(i) by {
                            if want(i) {
                                lemma_anchor_implied(*doc, i, *selector_list, *ctx, j as int);
                            }
                        }
                        lemma_select_ext(n, a, want);
                    }
                    Ok(())
                },
                _ => Err(()),
            }
        },
        None => Err(()),
    }
}

/// Slow path for a given selector query: every element below `root`, tested
/// with the full matcher.
pub fn query_selector_slow<Q: SelectorQuery>(
    doc: &Document,
    root: usize,
    selector_list: &SelectorList,
    results: &mut Q::Output,
    ctx: &MatchingContext,
)
    requires
        doc.wf(),
        Q::contents(*old(results)).len() + doc.nodes@.len() <= usize::MAX,
        root < doc.nodes@.len(),
        selector_list.wf(),
    ensures
        Q::contents(*final(results)) == accumulated(
            Q::stops(),
            Q::contents(*old(results)),
            list_hits(*doc, root as int, *selector_list, *ctx),
        ),
{
    let filter = ElementFilter::Selectors(selector_list);
    collect_all_elements::<Q>(doc, root, results, &filter, ctx);
    proof {
        let n = doc.nodes@.len() as int;
        let a = under(*doc, root as int, filter.holds(*doc, *ctx));
        let b = under(*doc, root as int, |i: int| list_matches(*doc, i, *selector_list, *ctx));
        assert forall|i: int| 0 <= i < n implies #[trigger] a(i) == b(i) by {}
        lemma_select_ext(n, a, b);
    }
}

} // verus!
