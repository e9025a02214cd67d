use vstd::prelude::*;
use crate::tree::{
    is_ancestor, is_element_at, lemma_ancestor_below, lemma_ancestor_trans, spec_has_class,
    spec_has_id, spec_has_local_name, CaseSensitivity, Document, QuirksMode,
};

verus! {

/// A tag name as written and lower-cased.
pub struct LocalName {
    pub name: Vec<u8>,
    pub lower_name: Vec<u8>,
}

/// One predicate of a compound selector.
pub enum Component {
    /// `*`
    ExplicitUniversalType,
    /// `#id`
    ID(Vec<u8>),
    /// `.class`
    Class(Vec<u8>),
    /// `tag`
    LocalName(LocalName),
    /// `:root`: an element whose parent is the document node.
    Root,
    /// `:scope`: the scope element, or the root element where there is none.
    Scope,
}

/// The relation between two compounds of a selector.
#[derive(Clone, Copy, Debug, PartialEq, Eq, Structural)]
pub enum Combinator {
    /// `a > b`
    Child,
    /// `a b`
    Descendant,
    /// `a + b`
    NextSibling,
    /// `a ~ b`
    LaterSibling,
}

impl Combinator {
    pub open spec fn spec_is_sibling(self) -> bool {
        self is NextSibling || self is LaterSibling
    }

    pub fn is_sibling(self) -> (r: bool)
        ensures
            r == self.spec_is_sibling(),
    {
        match self {
            Combinator::NextSibling | Combinator::LaterSibling => true,
            _ => false,
        }
    }
}

/// A complex selector, its compounds stored right to left: `compounds[0]` is
/// the rightmost compound, and `combinators[k]` joins `compounds[k]` to
/// `compounds[k + 1]`, its left neighbour.
pub struct Selector {
    pub compounds: Vec<Vec<Component>>,
    pub combinators: Vec<Combinator>,
}

impl Selector {
    pub open spec fn wf(&self) -> bool {
        &&& self.compounds@.len() >= 1
        &&& self.combinators@.len() + 1 == self.compounds@.len()
    }

    /// More than one compound, that is at least one combinator.
    pub fn has_combinators(&self) -> (r: bool)
        ensures
            r == (self.combinators@.len() > 0),
    {
        self.combinators.len() > 0
    }
}

/// Comma-separated alternatives.
pub struct SelectorList {
    pub selectors: Vec<Selector>,
}

impl SelectorList {
    pub open spec fn wf(&self) -> bool {
        &&& self.selectors@.len() >= 1
        &&& forall|i: int| 0 <= i < self.selectors@.len() ==> (#[trigger] self.selectors@[i]).wf()
    }
}

/// Per-call matching state.
#[derive(Clone, Copy, Debug, PartialEq, Eq, Structural)]
pub struct MatchingContext {
    pub quirks_mode: QuirksMode,
    pub scope_element: Option<usize>,
}

/// An element child of the document node.
pub open spec fn is_root_element(doc: Document, e: int) -> bool {
    doc.nodes@[e].parent == Some(0usize)
}

pub open spec fn component_matches(
    doc: Document,
    e: int,
    c: Component,
    ctx: MatchingContext,
) -> bool {
    let n = doc.nodes@[e];
    let cs = ctx.quirks_mode.spec_case_sensitivity();
    match c {
        Component::ExplicitUniversalType => true,
        Component::ID(id) => spec_has_id(n, id@, cs),
        Component::Class(class) => spec_has_class(n, class@, cs),
        Component::LocalName(ln) => spec_has_local_name(n, ln.name@, ln.lower_name@),
        Component::Root => is_root_element(doc, e),
        Component::Scope => match ctx.scope_element {
            Some(s) => s as int == e,
            None => is_root_element(doc, e),
        },
    }
}

pub open spec fn compound_matches(
    doc: Document,
    e: int,
    c: Seq<Component>,
    ctx: MatchingContext,
) -> bool {
    forall|k: int| 0 <= k < c.len() ==> component_matches(doc, e, #[trigger] c[k], ctx)
}

/// `s` and `e` are distinct children of one parent, `s` first.
pub open spec fn is_earlier_sibling(doc: Document, s: int, e: int) -> bool {
    &&& 0 <= s < e < doc.nodes@.len()
    &&& doc.nodes@[s].parent is Some
    &&& doc.nodes@[s].parent == doc.nodes@[e].parent
}

/// `s` is the nearest element before `e` among its siblings.
pub open spec fn is_previous_element_sibling(doc: Document, s: int, e: int) -> bool {
    &&& is_earlier_sibling(doc, s, e)
    &&& doc.nodes@[s].is_element
    &&& forall|j: int| s < j < e && #[trigger] is_earlier_sibling(doc, j, e) ==> !doc.nodes@[j].is_element
}

/// Element `e` matches the part of `sel` that starts at compound `k`.
pub open spec fn matches_from(
    doc: Document,
    e: int,
    sel: Selector,
    k: int,
    ctx: MatchingContext,
) -> bool
    decreases sel.compounds@.len() - k,
{
    if 0 <= k < sel.compounds@.len() && is_element_at(doc.nodes@, e) {
        &&& compound_matches(doc, e, sel.compounds@[k]@, ctx)
        &&& (k + 1 >= sel.compounds@.len() || match sel.combinators@[k] {
            Combinator::Child => match doc.nodes@[e].parent {
                Some(p) => matches_from(doc, p as int, sel, k + 1, ctx),
                None => false,
            },
            Combinator::Descendant => exists|a: int|
                #[trigger] is_ancestor(doc.nodes@, a, e) && matches_from(doc, a, sel, k + 1, ctx),
            Combinator::NextSibling => exists|s: int|
                #[trigger] is_previous_element_sibling(doc, s, e) && matches_from(
                    doc,
                    s,
                    sel,
                    k + 1,
                    ctx,
                ),
            Combinator::LaterSibling => exists|s: int|
                #[trigger] is_earlier_sibling(doc, s, e) && matches_from(doc, s, sel, k + 1, ctx),
        })
    } else {
        false
    }
}

pub open spec fn selector_matches(
    doc: Document,
    e: int,
    sel: Selector,
    ctx: MatchingContext,
) -> bool {
    matches_from(doc, e, sel, 0, ctx)
}

/// Element `e` matches at least one selector of the list.
pub open spec fn list_matches(
    doc: Document,
    e: int,
    list: SelectorList,
    ctx: MatchingContext,
) -> bool {
    exists|i: int|
        0 <= i < list.selectors@.len() && selector_matches(doc, e, #[trigger] list.selectors@[i], ctx)
}

pub fn matches_component(doc: &Document, e: usize, c: &Component, ctx: &MatchingContext) -> (r: bool)
    requires
        e < doc.nodes@.len(),
    ensures
        r == component_matches(*doc, e as int, *c, *ctx),
{
    let cs = ctx.quirks_mode.classes_and_ids_case_sensitivity();
    match c {
        Component::ExplicitUniversalType => true,
        Component::ID(id) => doc.has_id(e, id, cs),
        Component::Class(class) => doc.has_class(e, class, cs),
        Component::LocalName(ln) => doc.has_local_name(e, &ln.name, &ln.lower_name),
        Component::Root => is_root_element_exec(doc, e),
        Component::Scope => match ctx.scope_element {
            Some(s) => s == e,
            None => is_root_element_exec(doc, e),
        },
    }
}

fn is_root_element_exec(doc: &Document, e: usize) -> (r: bool)
    requires
        e < doc.nodes@.len(),
    ensures
        r == is_root_element(*doc, e as int),
{
    match doc.nodes[e].parent {
        Some(p) => p == 0,
        None => false,
    }
}

pub fn matches_compound(doc: &Document, e: usize, c: &Vec<Component>, ctx: &MatchingContext) -> (r: bool)
    requires
        e < doc.nodes@.len(),
    ensures
        r == compound_matches(*doc, e as int, c@, *ctx),
{
    let mut k: usize = 0;
    while k < c.len()
        invariant
            e < doc.nodes@.len(),
            k <= c@.len(),
            forall|j: int| 0 <= j < k ==> component_matches(*doc, e as int, #[trigger] c@[j], *ctx),
        decreases c@.len() - k,
    {
        if !matches_component(doc, e, &c[k], ctx) {
            return false;
        }
        k += 1;
    }
    true
}

fn same_parent(doc: &Document, s: usize, e: usize) -> (r: bool)
    requires
        s < doc.nodes@.len(),
        e < doc.nodes@.len(),
    ensures
        r == (doc.nodes@[s as int].parent is Some && doc.nodes@[s as int].parent
            == doc.nodes@[e as int].parent),
{
    match (doc.nodes[s].parent, doc.nodes[e].parent) {
        (Some(a), Some(b)) => a == b,
        _ => false,
    }
}

/// One step of `matches_from` at an element whose compound matches.
proof fn lemma_matches_from_step(d: Document, e: int, sel: Selector, k: int, ctx: MatchingContext)
    requires
        0 <= k,
        k + 1 < sel.compounds@.len(),
        is_element_at(d.nodes@, e),
        compound_matches(d, e, sel.compounds@[k]@, ctx),
    ensures
        matches_from(d, e, sel, k, ctx) == match sel.combinators@[k] {
            Combinator::Child => match d.nodes@[e].parent {
                Some(p) => matches_from(d, p as int, sel, k + 1, ctx),
                None => false,
            },
            Combinator::Descendant => exists|a: int|
                #[trigger] is_ancestor(d.nodes@, a, e) && matches_from(d, a, sel, k + 1, ctx),
            Combinator::NextSibling => exists|s: int|
                #[trigger] is_previous_element_sibling(d, s, e) && matches_from(d, s, sel, k + 1, ctx),
            Combinator::LaterSibling => exists|s: int|
                #[trigger] is_earlier_sibling(d, s, e) && matches_from(d, s, sel, k + 1, ctx),
        },
{
    reveal_with_fuel(matches_from, 2);
}

/// Whether element `e` matches `sel` from compound `k` leftwards.
pub fn matches_selector_from(
    doc: &Document,
    e: usize,
    sel: &Selector,
    k: usize,
    ctx: &MatchingContext,
) -> (r: bool)
    requires
        e < doc.nodes@.len(),
        sel.wf(),
        k < sel.compounds@.len(),
    ensures
        r == matches_from(*doc, e as int, *sel, k as int, *ctx),
    decreases sel.compounds@.len() - k,
{
    let ghost d = *doc;
    let ghost s = doc.nodes@;
    if !doc.nodes[e].is_element {
        return false;
    }
    if !matches_compound(doc, e, &sel.compounds[k], ctx) {
        return false;
    }
    if sel.compounds.len() - k <= 1 {
        return true;
    }
    let k1 = k + 1;
    proof {
        lemma_matches_from_step(d, e as int, *sel, k as int, *ctx);
    }
    match sel.combinators[k] {
        Combinator::Child => match doc.nodes[e].parent {
            Some(p) => {
                if p < doc.nodes.len() {
                    matches_selector_from(doc, p, sel, k1, ctx)
                } else {
                    false
                }
            },
            None => false,
        },
        Combinator::Descendant => {
            let mut current: Option<usize> = doc.nodes[e].parent;
            if let Some(c) = current {
                if c >= e {
                    current = None;
                }
            }
            loop
                invariant
                    e < s.len(),
                    s == doc.nodes@,
                    d == *doc,
                    k1 == k + 1,
                    s[e as int].is_element,
                    compound_matches(d, e as int, sel.compounds@[k as int]@, *ctx),
                    sel.combinators@[k as int] is Descendant,
                    sel.wf(),
                    k + 1 < sel.compounds@.len(),
                    k < sel.compounds@.len(),
                    forall|a: int|
                        is_ancestor(s, a, e as int) && #[trigger] matches_from(d, a, *sel, k + 1, *ctx)
                            ==> match current {
                            Some(c) => a == c || is_ancestor(s, a, c as int),
                            None => false,
                        },
                    current matches Some(c) ==> is_ancestor(s, c as int, e as int),
                decreases
                    match current {
                        Some(c) => c + 1,
                        None => 0,
                    },
            {
                match current {
                    Some(c) => {
                        proof {
                            lemma_ancestor_below(s, c as int, e as int);
                        }
                        if matches_selector_from(doc, c, sel, k1, ctx) {
                            assert(is_ancestor(s, c as int, e as int) && matches_from(d, c as int, *sel, k + 1, *ctx));
                            return true;
                        }
                        match doc.nodes[c].parent {
                            Some(p) => {
                                if p >= c {
                                    current = None;
                                } else {
                                    proof {
                                        assert(is_ancestor(s, p as int, c as int));
                                        lemma_ancestor_trans(s, p as int, c as int, e as int);
                                    }
                                    current = Some(p);
                                }
                            },
                            None => {
                                current = None;
                            },
                        }
                    },
                    None => {
                        assert forall|a: int| #[trigger] is_ancestor(s, a, e as int) implies !matches_from(d, a, *sel, k + 1, *ctx) by {
                            if matches_from(d, a, *sel, k + 1, *ctx) {
                                assert(current is None);
                            }
                        }
                        return false;
                    },
                }
            }
        },
        Combinator::NextSibling => {
            let mut j: usize = e;
            while j > 0
                invariant
                    e < s.len(),
                    s == doc.nodes@,
                    d == *doc,
                    k1 == k + 1,
                    s[e as int].is_element,
                    compound_matches(d, e as int, sel.compounds@[k as int]@, *ctx),
                    sel.combinators@[k as int] is NextSibling,
                    sel.wf(),
                    k + 1 < sel.compounds@.len(),
                    k < sel.compounds@.len(),
                    j <= e,
                    forall|m: int| j <= m < e && #[trigger] is_earlier_sibling(d, m, e as int) ==> !s[m].is_element,
                decreases j,
            {
                j -= 1;
                if same_parent(doc, j, e) && doc.nodes[j].is_element {
                    let r = matches_selector_from(doc, j, sel, k1, ctx);
                    proof {
                        assert(is_previous_element_sibling(d, j as int, e as int));
                        if r {
                            assert(is_previous_element_sibling(d, j as int, e as int) && matches_from(d, j as int, *sel, k + 1, *ctx));
                        } else {
                            assert forall|t: int| is_previous_element_sibling(d, t, e as int) implies !#[trigger] matches_from(d, t, *sel, k + 1, *ctx) by {
                                if t < j {
                                    assert(is_earlier_sibling(d, j as int, e as int));
                                } else if t > j {
                                    assert(is_earlier_sibling(d, t, e as int));
                                }
                            }
                        }
                    }
                    return r;
                }
            }
            proof {
                assert forall|t: int| is_previous_element_sibling(d, t, e as int) implies !#[trigger] matches_from(d, t, *sel, k + 1, *ctx) by {
                    assert(is_earlier_sibling(d, t, e as int));
                }
            }
            false
        },
        Combinator::LaterSibling => {
            let mut j: usize = 0;
            while j < e
                invariant
                    e < s.len(),
                    s == doc.nodes@,
                    d == *doc,
                    k1 == k + 1,
                    s[e as int].is_element,
                    compound_matches(d, e as int, sel.compounds@[k as int]@, *ctx),
                    sel.combinators@[k as int] is LaterSibling,
                    sel.wf(),
                    k + 1 < sel.compounds@.len(),
                    k < sel.compounds@.len(),
                    j <= e,
                    forall|m: int| 0 <= m < j && is_earlier_sibling(d, m, e as int) ==> !#[trigger] matches_from(d, m, *sel, k + 1, *ctx),
                decreases e - j,
            {
                if same_parent(doc, j, e) {
                    if matches_selector_from(doc, j, sel, k1, ctx) {
                        assert(is_earlier_sibling(d, j as int, e as int));
                        return true;
                    }
                }
                j += 1;
            }
            false
        },
    }
}

/// Whether element `e` matches `sel`.
pub fn matches_selector(doc: &Document, e: usize, sel: &Selector, ctx: &MatchingContext) -> (r: bool)
    requires
        e < doc.nodes@.len(),
        sel.wf(),
    ensures
        r == selector_matches(*doc, e as int, *sel, *ctx),
{
    matches_selector_from(doc, e, sel, 0, ctx)
}

/// Whether element `e` matches at least one selector of `list`.
pub fn matches_selector_list(
    list: &SelectorList,
    doc: &Document,
    e: usize,
    ctx: &MatchingContext,
) -> (r: bool)
    requires
        e < doc.nodes@.len(),
        list.wf(),
    ensures
        r == list_matches(*doc, e as int, *list, *ctx),
{
    let mut i: usize = 0;
    while i < list.selectors.len()
        invariant
            e < doc.nodes@.len(),
            list.wf(),
            i <= list.selectors@.len(),
            forall|j: int| 0 <= j < i ==> !selector_matches(*doc, e as int, #[trigger] list.selectors@[j], *ctx),
        decreases list.selectors@.len() - i,
    {
        if matches_selector(doc, e, &list.selectors[i], ctx) {
            return true;
        }
        i += 1;
    }
    false
}

} // verus!
