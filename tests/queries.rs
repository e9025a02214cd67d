use dom_apis::accumulator::{QueryAll, QueryFirst, QuerySelectorAllResult};
use dom_apis::api::{element_closest, element_matches, query_selector};
use dom_apis::query::{each_element_with_id_under, find_id_anchor, query_selector_fast, query_selector_slow};
use dom_apis::selector::{
    Combinator, Component, LocalName, MatchingContext, Selector, SelectorList,
};
use dom_apis::tree::{names_eq, CaseSensitivity, Document, NodeData, QuirksMode};

fn element(name: &str, id: Option<&str>, classes: &[&str]) -> NodeData {
    NodeData {
        parent: None,
        is_element: true,
        local_name: name.as_bytes().to_vec(),
        id: id.map(|s| s.as_bytes().to_vec()),
        classes: classes.iter().map(|c| c.as_bytes().to_vec()).collect(),
        is_html: true,
    }
}

fn text() -> NodeData {
    NodeData {
        parent: None,
        is_element: false,
        local_name: Vec::new(),
        id: None,
        classes: Vec::new(),
        is_html: false,
    }
}

fn add(doc: &mut Document, parent: usize, data: NodeData) -> usize {
    doc.append_node(parent, data).expect("parent keeps document order")
}

fn tag(name: &str) -> Component {
    Component::LocalName(LocalName {
        name: name.as_bytes().to_vec(),
        lower_name: name.to_ascii_lowercase().into_bytes(),
    })
}

fn id(s: &str) -> Component {
    Component::ID(s.as_bytes().to_vec())
}

fn class(s: &str) -> Component {
    Component::Class(s.as_bytes().to_vec())
}

fn compound(c: Vec<Component>) -> Selector {
    Selector { compounds: vec![c], combinators: vec![] }
}

fn one(sel: Selector) -> SelectorList {
    SelectorList { selectors: vec![sel] }
}

fn all(doc: &Document, root: usize, list: &SelectorList) -> Vec<usize> {
    let mut out = QuerySelectorAllResult::new();
    query_selector::<QueryAll>(doc, root, list, &mut out);
    out.to_vec()
}

fn first(doc: &Document, root: usize, list: &SelectorList) -> Option<usize> {
    let mut out: Option<usize> = None;
    query_selector::<QueryFirst>(doc, root, list, &mut out);
    out
}

/// `<div id="a"><span id="b" class="x"></span><span class="x"></span></div>`
fn spans() -> Document {
    let mut doc = Document::new(QuirksMode::NoQuirks);
    let a = add(&mut doc, 0, element("div", Some("a"), &[]));
    add(&mut doc, a, element("span", Some("b"), &["x"]));
    add(&mut doc, a, element("span", None, &["x"]));
    doc
}

#[test]
fn id_query_under_element() {
    let doc = spans();
    assert_eq!(all(&doc, 1, &one(compound(vec![id("b")]))), vec![2]);
}

#[test]
fn class_query_first_match() {
    let doc = spans();
    let list = one(compound(vec![class("x")]));
    assert_eq!(first(&doc, 1, &list), Some(2));
    assert_eq!(all(&doc, 1, &list), vec![2, 3]);
}

#[test]
fn first_match_is_head_of_all_matches() {
    let doc = spans();
    for list in [
        one(compound(vec![class("x")])),
        one(compound(vec![tag("span")])),
        one(compound(vec![id("zz")])),
        one(compound(vec![Component::ExplicitUniversalType])),
    ] {
        let a = all(&doc, 0, &list);
        assert_eq!(first(&doc, 0, &list), a.first().copied());
    }
}

#[test]
fn duplicate_ids_in_document_order() {
    let mut doc = Document::new(QuirksMode::NoQuirks);
    let d1 = add(&mut doc, 0, element("div", Some("dup"), &[]));
    let s = add(&mut doc, d1, element("section", None, &[]));
    add(&mut doc, s, element("p", Some("dup"), &[]));
    add(&mut doc, d1, element("span", None, &[]));
    let list = one(compound(vec![id("dup")]));
    assert_eq!(all(&doc, 0, &list), vec![1, 3]);
    assert_eq!(all(&doc, s, &list), vec![3]);
}

#[test]
fn descendant_combinator_under_element_uses_scan() {
    let mut doc = Document::new(QuirksMode::NoQuirks);
    let body = add(&mut doc, 0, element("body", None, &[]));
    let div = add(&mut doc, body, element("div", None, &[]));
    add(&mut doc, div, element("span", None, &[]));
    add(&mut doc, body, element("span", None, &[]));
    let list = one(Selector {
        compounds: vec![vec![tag("span")], vec![tag("div")]],
        combinators: vec![Combinator::Descendant],
    });
    let ctx = MatchingContext { quirks_mode: QuirksMode::NoQuirks, scope_element: Some(body) };
    let mut out = QuerySelectorAllResult::new();
    assert_eq!(query_selector_fast::<QueryAll>(&doc, body, &list, &mut out, &ctx), Err(()));
    assert_eq!(out.len(), 0);
    assert_eq!(all(&doc, body, &list), vec![3]);
    assert_eq!(all(&doc, 0, &list), vec![3]);
}

#[test]
fn id_in_rightmost_compound_is_checked_against_whole_selector() {
    let mut doc = Document::new(QuirksMode::NoQuirks);
    let a = add(&mut doc, 0, element("div", Some("a"), &[]));
    add(&mut doc, a, element("div", Some("b"), &[]));
    add(&mut doc, 0, element("div", Some("b"), &[]));
    let list = one(Selector {
        compounds: vec![vec![tag("div"), id("b")], vec![id("a")]],
        combinators: vec![Combinator::Descendant],
    });
    let ctx = MatchingContext { quirks_mode: QuirksMode::NoQuirks, scope_element: None };
    let mut out = QuerySelectorAllResult::new();
    assert_eq!(query_selector_fast::<QueryAll>(&doc, 0, &list, &mut out, &ctx), Ok(()));
    assert_eq!(out.to_vec(), vec![2]);
    assert_eq!(find_id_anchor(&list.selectors[0]), Some(1));
}

#[test]
fn sibling_combinator_at_document_root() {
    let mut doc = Document::new(QuirksMode::NoQuirks);
    let ul = add(&mut doc, 0, element("ul", None, &[]));
    add(&mut doc, ul, element("li", None, &[]));
    add(&mut doc, ul, element("li", None, &[]));
    add(&mut doc, ul, element("li", None, &[]));
    let later = one(Selector {
        compounds: vec![vec![tag("li")], vec![tag("li")]],
        combinators: vec![Combinator::LaterSibling],
    });
    let ctx = MatchingContext { quirks_mode: QuirksMode::NoQuirks, scope_element: None };
    let mut out = QuerySelectorAllResult::new();
    assert_eq!(query_selector_fast::<QueryAll>(&doc, 0, &later, &mut out, &ctx), Err(()));
    assert_eq!(all(&doc, 0, &later), vec![3, 4]);
    assert_eq!(first(&doc, 0, &later), Some(3));
}

#[test]
fn anchor_walk_skips_compound_left_of_sibling() {
    let sibling = Selector {
        compounds: vec![vec![tag("li")], vec![id("x")]],
        combinators: vec![Combinator::NextSibling],
    };
    assert_eq!(find_id_anchor(&sibling), None);
    let descendant = Selector {
        compounds: vec![vec![tag("li")], vec![id("x")]],
        combinators: vec![Combinator::Descendant],
    };
    assert_eq!(find_id_anchor(&descendant), None);
    let rightmost = Selector {
        compounds: vec![vec![class("c"), id("x")], vec![tag("li")]],
        combinators: vec![Combinator::LaterSibling],
    };
    assert_eq!(find_id_anchor(&rightmost), Some(1));
}

#[test]
fn child_and_next_sibling_combinators() {
    let mut doc = Document::new(QuirksMode::NoQuirks);
    let div = add(&mut doc, 0, element("div", None, &[]));
    let p = add(&mut doc, div, element("p", None, &[]));
    add(&mut doc, p, element("span", None, &[]));
    add(&mut doc, div, element("span", None, &[]));
    add(&mut doc, div, text());
    add(&mut doc, div, element("span", None, &[]));
    let child = one(Selector {
        compounds: vec![vec![tag("span")], vec![tag("div")]],
        combinators: vec![Combinator::Child],
    });
    assert_eq!(all(&doc, 0, &child), vec![4, 6]);
    let next = one(Selector {
        compounds: vec![vec![tag("span")], vec![tag("span")]],
        combinators: vec![Combinator::NextSibling],
    });
    assert_eq!(all(&doc, 0, &next), vec![6]);
    let after_p = one(Selector {
        compounds: vec![vec![tag("span")], vec![tag("p")]],
        combinators: vec![Combinator::NextSibling],
    });
    assert_eq!(all(&doc, 0, &after_p), vec![4]);
}

#[test]
fn several_selectors_are_scanned() {
    let doc = spans();
    let list = SelectorList {
        selectors: vec![compound(vec![id("b")]), compound(vec![tag("div")])],
    };
    let ctx = MatchingContext { quirks_mode: QuirksMode::NoQuirks, scope_element: None };
    let mut out = QuerySelectorAllResult::new();
    assert_eq!(query_selector_fast::<QueryAll>(&doc, 0, &list, &mut out, &ctx), Err(()));
    assert_eq!(all(&doc, 0, &list), vec![1, 2]);
}

#[test]
fn quirks_mode_ids_and_classes_ignore_case() {
    let mut doc = Document::new(QuirksMode::Quirks);
    add(&mut doc, 0, element("div", Some("Foo"), &["Big"]));
    assert_eq!(all(&doc, 0, &one(compound(vec![id("foo")]))), vec![1]);
    assert_eq!(all(&doc, 0, &one(compound(vec![class("BIG")]))), vec![1]);
    let mut strict = Document::new(QuirksMode::NoQuirks);
    add(&mut strict, 0, element("div", Some("Foo"), &["Big"]));
    assert_eq!(all(&strict, 0, &one(compound(vec![id("foo")]))), Vec::<usize>::new());
    assert_eq!(all(&strict, 0, &one(compound(vec![class("BIG")]))), Vec::<usize>::new());
    assert_eq!(all(&strict, 0, &one(compound(vec![id("Foo")]))), vec![1]);
}

#[test]
fn tag_names_lower_case_only_for_html() {
    let mut doc = Document::new(QuirksMode::NoQuirks);
    add(&mut doc, 0, element("div", None, &[]));
    let mut svg = element("div", None, &[]);
    svg.is_html = false;
    add(&mut doc, 0, svg);
    assert_eq!(all(&doc, 0, &one(compound(vec![tag("DIV")]))), vec![1]);
    assert_eq!(all(&doc, 0, &one(compound(vec![tag("div")]))), vec![1, 2]);
}

#[test]
fn matches_is_scoped_to_the_element() {
    let doc = spans();
    let scope = one(compound(vec![Component::Scope]));
    assert!(element_matches(&doc, 2, &scope, QuirksMode::NoQuirks));
    let root = one(compound(vec![Component::Root]));
    assert!(element_matches(&doc, 1, &root, QuirksMode::NoQuirks));
    assert!(!element_matches(&doc, 2, &root, QuirksMode::NoQuirks));
    assert!(element_matches(&doc, 3, &one(compound(vec![class("x")])), QuirksMode::NoQuirks));
    assert!(!element_matches(&doc, 1, &one(compound(vec![class("x")])), QuirksMode::NoQuirks));
    // An element is in the all-matches result under its parent exactly where it matches.
    assert_eq!(all(&doc, 1, &one(compound(vec![class("x")]))).contains(&3), true);
}

#[test]
fn closest_finds_nearest_matching_ancestor() {
    let mut doc = Document::new(QuirksMode::NoQuirks);
    let outer = add(&mut doc, 0, element("div", None, &["c"]));
    let inner = add(&mut doc, outer, element("div", None, &["c"]));
    let span = add(&mut doc, inner, element("span", None, &[]));
    let c = one(compound(vec![class("c")]));
    assert_eq!(element_closest(&doc, span, &c, QuirksMode::NoQuirks), Some(inner));
    assert_eq!(element_closest(&doc, outer, &c, QuirksMode::NoQuirks), Some(outer));
    let span_sel = one(compound(vec![tag("span")]));
    assert_eq!(element_closest(&doc, span, &span_sel, QuirksMode::NoQuirks), Some(span));
    let none = one(compound(vec![id("nope")]));
    assert_eq!(element_closest(&doc, span, &none, QuirksMode::NoQuirks), None);
}

#[test]
fn unsupported_lone_component_falls_back() {
    let doc = spans();
    let list = one(compound(vec![Component::Root]));
    let ctx = MatchingContext { quirks_mode: QuirksMode::NoQuirks, scope_element: None };
    let mut out = QuerySelectorAllResult::new();
    assert_eq!(query_selector_fast::<QueryAll>(&doc, 0, &list, &mut out, &ctx), Err(()));
    assert_eq!(all(&doc, 0, &list), vec![1]);
}

#[test]
fn empty_results_and_first_sink_kept() {
    let doc = Document::new(QuirksMode::NoQuirks);
    let list = one(compound(vec![Component::ExplicitUniversalType]));
    assert_eq!(all(&doc, 0, &list), Vec::<usize>::new());
    assert_eq!(first(&doc, 0, &list), None);
    let doc = spans();
    let mut out: Option<usize> = Some(3);
    query_selector::<QueryFirst>(&doc, 0, &list, &mut out);
    assert_eq!(out, Some(3));
}

#[test]
fn append_keeps_document_order() {
    let mut doc = Document::new(QuirksMode::NoQuirks);
    let a = add(&mut doc, 0, element("div", None, &[]));
    let b = add(&mut doc, 0, element("div", None, &[]));
    assert_eq!(doc.append_node(a, element("p", None, &[])), None);
    assert_eq!(doc.append_node(b, element("p", None, &[])), Some(3));
    assert_eq!(doc.len(), 4);
}

#[test]
fn names_compare_by_case_sensitivity() {
    assert!(names_eq(&b"Foo".to_vec(), &b"fOO".to_vec(), CaseSensitivity::AsciiCaseInsensitive));
    assert!(!names_eq(&b"Foo".to_vec(), &b"fOO".to_vec(), CaseSensitivity::CaseSensitive));
    assert!(!names_eq(&b"Foo".to_vec(), &b"Fo".to_vec(), CaseSensitivity::AsciiCaseInsensitive));
}

#[test]
fn all_matches_result_holds_many() {
    let mut doc = Document::new(QuirksMode::NoQuirks);
    let ul = add(&mut doc, 0, element("ul", None, &[]));
    for _ in 0..200 {
        add(&mut doc, ul, element("li", None, &[]));
    }
    let got = all(&doc, 0, &one(compound(vec![tag("li")])));
    assert_eq!(got.len(), 200);
    assert_eq!(got[0], 2);
    assert_eq!(got[199], 201);
}

#[test]
fn id_index_lists_elements_in_document_order() {
    let mut doc = Document::new(QuirksMode::NoQuirks);
    let a = add(&mut doc, 0, element("div", Some("a"), &[]));
    add(&mut doc, a, element("p", Some("b"), &[]));
    add(&mut doc, a, text());
    let inner = add(&mut doc, a, element("div", Some("a"), &[]));
    add(&mut doc, inner, element("i", Some("a"), &[]));
    assert_eq!(doc.elements_with_id(&b"a".to_vec()), vec![1, 4, 5]);
    assert_eq!(doc.elements_with_id(&b"b".to_vec()), vec![2]);
    assert_eq!(doc.elements_with_id(&b"A".to_vec()), Vec::<usize>::new());
    assert_eq!(each_element_with_id_under(&doc, a, &b"a".to_vec(), QuirksMode::NoQuirks), vec![4, 5]);
    assert_eq!(each_element_with_id_under(&doc, inner, &b"a".to_vec(), QuirksMode::NoQuirks), vec![5]);
    assert_eq!(each_element_with_id_under(&doc, 0, &b"A".to_vec(), QuirksMode::Quirks), vec![1, 4, 5]);
}

#[test]
fn every_strategy_agrees_with_the_scan() {
    let mut doc = Document::new(QuirksMode::NoQuirks);
    let body = add(&mut doc, 0, element("body", None, &[]));
    let div = add(&mut doc, body, element("div", Some("m"), &["c"]));
    add(&mut doc, div, element("span", Some("m"), &["c"]));
    add(&mut doc, div, element("span", None, &[]));
    add(&mut doc, body, element("p", None, &["c"]));
    let lists = vec![
        one(compound(vec![id("m")])),
        one(compound(vec![class("c")])),
        one(compound(vec![tag("span")])),
        one(compound(vec![Component::ExplicitUniversalType])),
        one(Selector {
            compounds: vec![vec![id("m")], vec![tag("div")]],
            combinators: vec![Combinator::Descendant],
        }),
        one(Selector {
            compounds: vec![vec![tag("span")], vec![class("c")]],
            combinators: vec![Combinator::Child],
        }),
        one(Selector {
            compounds: vec![vec![tag("p")], vec![tag("div")]],
            combinators: vec![Combinator::LaterSibling],
        }),
        SelectorList { selectors: vec![compound(vec![tag("p")]), compound(vec![id("m")])] },
    ];
    for root in [0usize, body, div] {
        for list in &lists {
            let ctx = MatchingContext {
                quirks_mode: QuirksMode::NoQuirks,
                scope_element: if root == 0 { None } else { Some(root) },
            };
            let mut scan = QuerySelectorAllResult::new();
            query_selector_slow::<QueryAll>(&doc, root, list, &mut scan, &ctx);
            let got = all(&doc, root, list);
            assert_eq!(got, scan.to_vec());
            assert!(got.windows(2).all(|w| w[0] < w[1]));
        }
    }
    assert_eq!(all(&doc, 0, &lists[4]), vec![3]);
    assert_eq!(all(&doc, 0, &lists[5]), vec![3, 4]);
    assert_eq!(all(&doc, 0, &lists[6]), vec![5]);
    assert_eq!(all(&doc, 0, &lists[7]), vec![2, 3, 5]);
}
