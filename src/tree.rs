use vstd::prelude::*;

verus! {

/// Quirks mode of a document; it decides how identifiers and classes compare.
#[derive(Clone, Copy, Debug, PartialEq, Eq, Structural)]
pub enum QuirksMode {
    Quirks,
    LimitedQuirks,
    NoQuirks,
}

/// How names are compared.
#[derive(Clone, Copy, Debug, PartialEq, Eq, Structural)]
pub enum CaseSensitivity {
    CaseSensitive,
    AsciiCaseInsensitive,
}

impl QuirksMode {
    pub open spec fn spec_case_sensitivity(self) -> CaseSensitivity {
        match self {
            QuirksMode::Quirks => CaseSensitivity::AsciiCaseInsensitive,
            _ => CaseSensitivity::CaseSensitive,
        }
    }

    /// Identifiers and classes compare without regard to ASCII case in quirks mode only.
    pub fn classes_and_ids_case_sensitivity(self) -> (r: CaseSensitivity)
        ensures
            r == self.spec_case_sensitivity(),
    {
        match self {
            QuirksMode::Quirks => CaseSensitivity::AsciiCaseInsensitive,
            _ => CaseSensitivity::CaseSensitive,
        }
    }
}

/// One node of the tree: an element or some other node (text, comment, the
/// document itself).
pub struct NodeData {
    pub parent: Option<usize>,
    pub is_element: bool,
    pub local_name: Vec<u8>,
    pub id: Option<Vec<u8>>,
    pub classes: Vec<Vec<u8>>,
    /// An HTML element in an HTML document (tag names compare lower-cased).
    pub is_html: bool,
}

/// A document tree stored in document (pre-order) order: node `0` is the
/// document node, and each later node's parent is an earlier node that is the
/// node just before it or one of that node's ancestors.
pub struct Document {
    pub nodes: Vec<NodeData>,
    pub quirks_mode: QuirksMode,
    /// The elements of each identifier, compared as written.
    pub id_index: Vec<IdEntry>,
}

/// The elements that carry one identifier, in document order.
pub struct IdEntry {
    pub id: Vec<u8>,
    pub elements: Vec<usize>,
}

/// Node `i` is an element whose identifier is `id`, compared as written.
pub open spec fn has_id_at(s: Seq<NodeData>, id: Seq<u8>) -> spec_fn(int) -> bool {
    |i: int| is_element_at(s, i) && spec_has_id(s[i], id, CaseSensitivity::CaseSensitive)
}

/// The index lists, for each identifier that an element carries, exactly the
/// elements that carry it, in document order, one entry per identifier.
pub open spec fn wf_index(s: Seq<NodeData>, index: Seq<IdEntry>) -> bool {
    &&& forall|k: int|
        0 <= k < index.len() ==> (#[trigger] index[k]).elements@ == select(
            s.len() as int,
            has_id_at(s, index[k].id@),
        )
    &&& forall|a: int, b: int|
        0 <= a < b < index.len() ==> (#[trigger] index[a]).id@ != (#[trigger] index[b]).id@
    &&& forall|i: int|
        #[trigger] is_element_at(s, i) && s[i].id is Some ==> exists|k: int|
            0 <= k < index.len() && (#[trigger] index[k]).id@ == s[i].id.unwrap()@
}

/// The indices below `n` that satisfy `p`, in increasing order.
pub open spec fn select(n: int, p: spec_fn(int) -> bool) -> Seq<usize>
    decreases n,
{
    if n <= 0 {
        seq![]
    } else if p(n - 1) {
        select(n - 1, p).push((n - 1) as usize)
    } else {
        select(n - 1, p)
    }
}

pub proof fn lemma_select_ext(n: int, p: spec_fn(int) -> bool, q: spec_fn(int) -> bool)
    requires
        forall|i: int| 0 <= i < n ==> #[trigger] p(i) == q(i),
    ensures
        select(n, p) == select(n, q),
    decreases n,
{
    if n > 0 {
        lemma_select_ext(n - 1, p, q);
    }
}

/// `a` is a proper ancestor of `e` along the parent links.
pub open spec fn is_ancestor(s: Seq<NodeData>, a: int, e: int) -> bool
    decreases e,
{
    if 0 <= e < s.len() {
        match s[e].parent {
            Some(p) => if p < e {
                p == a || is_ancestor(s, a, p as int)
            } else {
                false
            },
            None => false,
        }
    } else {
        false
    }
}

pub open spec fn is_element_at(s: Seq<NodeData>, e: int) -> bool {
    0 <= e < s.len() && s[e].is_element
}

pub open spec fn wf_nodes(s: Seq<NodeData>) -> bool {
    &&& 1 <= s.len() <= usize::MAX
    &&& s[0].parent is None
    &&& !s[0].is_element
    &&& forall|i: int|
        #![trigger s[i]]
        1 <= i < s.len() ==> match s[i].parent {
            Some(p) => (p as int == i - 1 || is_ancestor(s, p as int, i - 1)),
            None => false,
        }
}

pub proof fn lemma_ancestor_below(s: Seq<NodeData>, a: int, e: int)
    requires
        is_ancestor(s, a, e),
    ensures
        0 <= a < e < s.len(),
    decreases e,
{
    match s[e].parent {
        Some(p) => if p != a {
            lemma_ancestor_below(s, a, p as int);
        },
        None => {},
    }
}

pub proof fn lemma_ancestor_trans(s: Seq<NodeData>, a: int, b: int, e: int)
    requires
        is_ancestor(s, a, b),
        is_ancestor(s, b, e),
    ensures
        is_ancestor(s, a, e),
    decreases e,
{
    let p = s[e].parent.unwrap() as int;
    if p != b {
        lemma_ancestor_trans(s, a, b, p);
    }
}

/// Nodes are stored in document order, so a subtree is contiguous: after the
/// first node past `root` that is not below it, none is.
pub proof fn lemma_subtree_contiguous(s: Seq<NodeData>, root: int, i: int, j: int)
    requires
        wf_nodes(s),
        0 <= root < i <= j < s.len(),
        !is_ancestor(s, root, i),
    ensures
        !is_ancestor(s, root, j),
    decreases j,
{
    if j > i {
        lemma_subtree_contiguous(s, root, i, j - 1);
        assert(s[j].parent is Some);
        let p = s[j].parent.unwrap() as int;
        if p != j - 1 {
            if p == root {
            } else if is_ancestor(s, root, p) {
                lemma_ancestor_trans(s, root, p, j - 1);
            }
        }
    }
}

/// What appending a node does to the elements of one identifier.
proof fn lemma_select_id_push(s: Seq<NodeData>, x: NodeData, w: Seq<u8>)
    ensures
        select(s.len() + 1 as int, has_id_at(s.push(x), w)) == if x.is_element && x.id is Some
            && x.id.unwrap()@ == w {
            select(s.len() as int, has_id_at(s, w)).push(s.len() as usize)
        } else {
            select(s.len() as int, has_id_at(s, w))
        },
{
    let t = s.push(x);
    assert forall|i: int| 0 <= i < s.len() implies #[trigger] has_id_at(t, w)(i) == has_id_at(s, w)(i) by {
        assert(t[i] == s[i]);
    }
    lemma_select_ext(s.len() as int, has_id_at(t, w), has_id_at(s, w));
    assert(t[s.len() as int] == x);
}

/// Coverage of the old nodes carries over to the longer sequence.
proof fn lemma_index_cover_old(s: Seq<NodeData>, x: NodeData, index: Seq<IdEntry>, next: Seq<IdEntry>, i: int)
    requires
        wf_index(s, index),
        next.len() >= index.len(),
        forall|j: int| 0 <= j < index.len() ==> (#[trigger] next[j]).id@ == index[j].id@,
        is_element_at(s.push(x), i),
        i < s.len(),
        s.push(x)[i].id is Some,
    ensures
        exists|k: int| 0 <= k < next.len() && (#[trigger] next[k]).id@ == s.push(x)[i].id.unwrap()@,
{
    assert(s.push(x)[i] == s[i]);
    assert(is_element_at(s, i));
    let k = choose|k: int| 0 <= k < index.len() && (#[trigger] index[k]).id@ == s[i].id.unwrap()@;
    assert(next[k].id@ == index[k].id@);
}

/// The entry of the appended element's identifier gains it.
proof fn lemma_index_extend(s: Seq<NodeData>, x: NodeData, index: Seq<IdEntry>, next: Seq<IdEntry>, k: int)
    requires
        wf_index(s, index),
        x.is_element,
        x.id is Some,
        0 <= k < index.len(),
        index[k].id@ == x.id.unwrap()@,
        next.len() == index.len(),
        next[k].id@ == index[k].id@,
        next[k].elements@ == index[k].elements@.push(s.len() as usize),
        forall|j: int| 0 <= j < index.len() && j != k ==> #[trigger] next[j] == index[j],
    ensures
        wf_index(s.push(x), next),
{
    let t = s.push(x);
    assert forall|j: int| 0 <= j < next.len() implies (#[trigger] next[j]).elements@ == select(
        t.len() as int,
        has_id_at(t, next[j].id@),
    ) by {
        lemma_select_id_push(s, x, next[j].id@);
        if j != k {
            assert(index[j].id@ != index[k].id@);
        }
    }
    assert forall|a: int, b: int| 0 <= a < b < next.len() implies (#[trigger] next[a]).id@ != (#[trigger] next[b]).id@ by {
        assert(index[a].id@ != index[b].id@);
    }
    assert forall|i: int| #[trigger] is_element_at(t, i) && t[i].id is Some implies exists|kk: int|
        0 <= kk < next.len() && (#[trigger] next[kk]).id@ == t[i].id.unwrap()@ by {
        if i < s.len() {
            assert forall|j: int| 0 <= j < index.len() implies (#[trigger] next[j]).id@ == index[j].id@ by {}
            lemma_index_cover_old(s, x, index, next, i);
        } else {
            assert(t[i] == x);
            assert(next[k].id@ == t[i].id.unwrap()@);
        }
    }
}

/// An element with an identifier not yet indexed gets an entry of its own.
proof fn lemma_index_new(s: Seq<NodeData>, x: NodeData, index: Seq<IdEntry>, next: Seq<IdEntry>)
    requires
        wf_index(s, index),
        x.is_element,
        x.id is Some,
        forall|j: int| 0 <= j < index.len() ==> (#[trigger] index[j]).id@ != x.id.unwrap()@,
        next.len() == index.len() + 1,
        forall|j: int| 0 <= j < index.len() ==> #[trigger] next[j] == index[j],
        next[index.len() as int].id@ == x.id.unwrap()@,
        next[index.len() as int].elements@ == seq![s.len() as usize],
    ensures
        wf_index(s.push(x), next),
{
    let t = s.push(x);
    let w = x.id.unwrap()@;
    let p = has_id_at(s, w);
    assert forall|i: int| 0 <= i < s.len() implies !#[trigger] p(i) by {
        if p(i) {
            let kk = choose|kk: int| 0 <= kk < index.len() && (#[trigger] index[kk]).id@ == s[i].id.unwrap()@;
        }
    }
    lemma_select_none(s.len() as int, p);
    assert(Seq::<usize>::empty().push(s.len() as usize) == seq![s.len() as usize]);
    assert forall|j: int| 0 <= j < next.len() implies (#[trigger] next[j]).elements@ == select(
        t.len() as int,
        has_id_at(t, next[j].id@),
    ) by {
        lemma_select_id_push(s, x, next[j].id@);
    }
    assert forall|a: int, b: int| 0 <= a < b < next.len() implies (#[trigger] next[a]).id@ != (#[trigger] next[b]).id@ by {
        if b < index.len() {
            assert(index[a].id@ != index[b].id@);
        }
    }
    assert forall|i: int| #[trigger] is_element_at(t, i) && t[i].id is Some implies exists|kk: int|
        0 <= kk < next.len() && (#[trigger] next[kk]).id@ == t[i].id.unwrap()@ by {
        if i < s.len() {
            assert forall|j: int| 0 <= j < index.len() implies (#[trigger] next[j]).id@ == index[j].id@ by {}
            lemma_index_cover_old(s, x, index, next, i);
        } else {
            assert(t[i] == x);
            assert(next[index.len() as int].id@ == t[i].id.unwrap()@);
        }
    }
}

/// A node that is no element with an identifier leaves the index as it is.
proof fn lemma_index_same(s: Seq<NodeData>, x: NodeData, index: Seq<IdEntry>)
    requires
        wf_index(s, index),
        !(x.is_element && x.id is Some),
    ensures
        wf_index(s.push(x), index),
{
    let t = s.push(x);
    assert forall|j: int| 0 <= j < index.len() implies (#[trigger] index[j]).elements@ == select(
        t.len() as int,
        has_id_at(t, index[j].id@),
    ) by {
        lemma_select_id_push(s, x, index[j].id@);
    }
    assert forall|i: int| #[trigger] is_element_at(t, i) && t[i].id is Some implies exists|kk: int|
        0 <= kk < index.len() && (#[trigger] index[kk]).id@ == t[i].id.unwrap()@ by {
        if i < s.len() {
            lemma_index_cover_old(s, x, index, index, i);
        } else {
            assert(t[i] == x);
        }
    }
}

pub proof fn lemma_ancestor_push(s: Seq<NodeData>, x: NodeData, a: int, e: int)
    requires
        0 <= e < s.len(),
    ensures
        is_ancestor(s.push(x), a, e) == is_ancestor(s, a, e),
    decreases e,
{
    assert(s.push(x)[e] == s[e]);
    match s[e].parent {
        Some(p) => if p < e {
            lemma_ancestor_push(s, x, a, p as int);
        },
        None => {},
    }
}


pub open spec fn ascii_lower(b: u8) -> u8 {
    if 65 <= b <= 90 {
        (b + 32) as u8
    } else {
        b
    }
}

/// Names compare byte for byte, or, without regard to case, after ASCII
/// lower-casing of both sides.
pub open spec fn names_equal(a: Seq<u8>, b: Seq<u8>, cs: CaseSensitivity) -> bool {
    match cs {
        CaseSensitivity::CaseSensitive => a == b,
        CaseSensitivity::AsciiCaseInsensitive => a.len() == b.len() && forall|i: int|
            0 <= i < a.len() ==> ascii_lower(#[trigger] a[i]) == ascii_lower(b[i]),
    }
}

pub fn names_eq(a: &Vec<u8>, b: &Vec<u8>, cs: CaseSensitivity) -> (r: bool)
    ensures
        r == names_equal(a@, b@, cs),
{
    if a.len() != b.len() {
        return false;
    }
    let mut i: usize = 0;
    while i < a.len()
        invariant
            a@.len() == b@.len(),
            i <= a@.len(),
            forall|j: int|
                0 <= j < i ==> match cs {
                    CaseSensitivity::CaseSensitive => a@[j] == b@[j],
                    CaseSensitivity::AsciiCaseInsensitive => ascii_lower(a@[j]) == ascii_lower(b@[j]),
                },
        decreases a@.len() - i,
    {
        let x = a[i];
        let y = b[i];
        let same = match cs {
            CaseSensitivity::CaseSensitive => x == y,
            CaseSensitivity::AsciiCaseInsensitive => {
                let lx: u8 = if 65 <= x && x <= 90 { x + 32 } else { x };
                let ly: u8 = if 65 <= y && y <= 90 { y + 32 } else { y };
                lx == ly
            },
        };
        if !same {
            return false;
        }
        i += 1;
    }
    proof {
        if cs == CaseSensitivity::CaseSensitive {
            assert(a@ =~= b@);
        }
    }
    true
}

/// The element's identifier equals `id` under `cs`.
pub open spec fn spec_has_id(n: NodeData, id: Seq<u8>, cs: CaseSensitivity) -> bool {
    match n.id {
        Some(v) => names_equal(v@, id, cs),
        None => false,
    }
}

/// One of the element's classes equals `class` under `cs`.
pub open spec fn spec_has_class(n: NodeData, class: Seq<u8>, cs: CaseSensitivity) -> bool {
    exists|k: int| 0 <= k < n.classes@.len() && names_equal(#[trigger] n.classes@[k]@, class, cs)
}

/// The element's tag name equals the lower-cased form for an HTML element in an
/// HTML document and the form as written otherwise.
pub open spec fn spec_has_local_name(n: NodeData, name: Seq<u8>, lower_name: Seq<u8>) -> bool {
    if n.is_html {
        n.local_name@ == lower_name
    } else {
        n.local_name@ == name
    }
}

fn copy_indices(v: &Vec<usize>) -> (r: Vec<usize>)
    ensures
        r@ == v@,
{
    let mut r: Vec<usize> = Vec::new();
    let mut i: usize = 0;
    while i < v.len()
        invariant
            i <= v@.len(),
            r@ == v@.take(i as int),
        decreases v@.len() - i,
    {
        r.push(v[i]);
        i += 1;
        proof {
            assert(r@ =~= v@.take(i as int));
        }
    }
    proof {
        assert(v@.take(v@.len() as int) =~= v@);
    }
    r
}

fn copy_bytes(v: &Vec<u8>) -> (r: Vec<u8>)
    ensures
        r@ == v@,
{
    let mut r: Vec<u8> = Vec::new();
    let mut i: usize = 0;
    while i < v.len()
        invariant
            i <= v@.len(),
            r@ == v@.take(i as int),
        decreases v@.len() - i,
    {
        r.push(v[i]);
        i += 1;
        proof {
            assert(r@ =~= v@.take(i as int));
        }
    }
    proof {
        assert(v@.take(v@.len() as int) =~= v@);
    }
    r
}

pub proof fn lemma_select_none(n: int, p: spec_fn(int) -> bool)
    requires
        forall|i: int| 0 <= i < n ==> !#[trigger] p(i),
    ensures
        select(n, p) == Seq::<usize>::empty(),
    decreases n,
{
    if n > 0 {
        lemma_select_none(n - 1, p);
    }
}

impl Document {
    pub open spec fn wf(&self) -> bool {
        &&& wf_nodes(self.nodes@)
        &&& wf_index(self.nodes@, self.id_index@)
    }

    pub open spec fn spec_is_ancestor(&self, a: int, e: int) -> bool {
        is_ancestor(self.nodes@, a, e)
    }

    /// A document that holds only its document node.
    pub fn new(quirks_mode: QuirksMode) -> (r: Document)
        ensures
            r.wf(),
            r.nodes@.len() == 1,
            r.quirks_mode == quirks_mode,
    {
        let root = NodeData {
            parent: None,
            is_element: false,
            local_name: Vec::new(),
            id: None,
            classes: Vec::new(),
            is_html: false,
        };
        let mut nodes: Vec<NodeData> = Vec::new();
        nodes.push(root);
        let id_index: Vec<IdEntry> = Vec::new();
        Document { nodes, quirks_mode, id_index }
    }

    pub fn has_id(&self, e: usize, id: &Vec<u8>, cs: CaseSensitivity) -> (r: bool)
        requires
            e < self.nodes@.len(),
        ensures
            r == spec_has_id(self.nodes@[e as int], id@, cs),
    {
        match &self.nodes[e].id {
            Some(v) => names_eq(v, id, cs),
            None => false,
        }
    }

    pub fn has_class(&self, e: usize, class: &Vec<u8>, cs: CaseSensitivity) -> (r: bool)
        requires
            e < self.nodes@.len(),
        ensures
            r == spec_has_class(self.nodes@[e as int], class@, cs),
    {
        let classes = &self.nodes[e].classes;
        let mut k: usize = 0;
        while k < classes.len()
            invariant
                e < self.nodes@.len(),
                classes@ == self.nodes@[e as int].classes@,
                k <= classes@.len(),
                forall|j: int| 0 <= j < k ==> !names_equal(#[trigger] classes@[j]@, class@, cs),
            decreases classes@.len() - k,
        {
            if names_eq(&classes[k], class, cs) {
                return true;
            }
            k += 1;
        }
        false
    }

    pub fn has_local_name(&self, e: usize, name: &Vec<u8>, lower_name: &Vec<u8>) -> (r: bool)
        requires
            e < self.nodes@.len(),
        ensures
            r == spec_has_local_name(self.nodes@[e as int], name@, lower_name@),
    {
        let n = &self.nodes[e];
        if n.is_html {
            names_eq(&n.local_name, lower_name, CaseSensitivity::CaseSensitive)
        } else {
            names_eq(&n.local_name, name, CaseSensitivity::CaseSensitive)
        }
    }

    /// Looks up the elements that carry identifier `id`, compared as written,
    /// in document order.
    pub fn elements_with_id(&self, id: &Vec<u8>) -> (r: Vec<usize>)
        requires
            self.wf(),
        ensures
            r@ == select(self.nodes@.len() as int, has_id_at(self.nodes@, id@)),
    {
        let ghost s = self.nodes@;
        let mut k: usize = 0;
        while k < self.id_index.len()
            invariant
                self.wf(),
                s == self.nodes@,
                k <= self.id_index@.len(),
                forall|j: int| 0 <= j < k ==> (#[trigger] self.id_index@[j]).id@ != id@,
            decreases self.id_index@.len() - k,
        {
            if names_eq(&self.id_index[k].id, id, CaseSensitivity::CaseSensitive) {
                return copy_indices(&self.id_index[k].elements);
            }
            k += 1;
        }
        proof {
            let p = has_id_at(s, id@);
            assert forall|i: int| 0 <= i < s.len() implies !#[trigger] p(i) by {
                if p(i) {
                    let kk = choose|kk: int| 0 <= kk < self.id_index@.len() && (#[trigger] self.id_index@[kk]).id@ == s[i].id.unwrap()@;
                    assert(self.id_index@[kk].id@ == id@);
                }
            }
            lemma_select_none(s.len() as int, p);
        }
        Vec::new()
    }

    pub fn len(&self) -> (r: usize)
        ensures
            r == self.nodes@.len(),
    {
        self.nodes.len()
    }

    /// Whether `element` lies strictly below `root`; `false` when they are equal.
    pub fn element_is_descendant_of(&self, element: usize, root: usize) -> (r: bool)
        requires
            element < self.nodes@.len(),
        ensures
            r == self.spec_is_ancestor(root as int, element as int),
    {
        let ghost s = self.nodes@;
        let mut current: Option<usize> = self.nodes[element].parent;
        if let Some(c) = current {
            if c >= element {
                return false;
            }
        }
        loop
            invariant
                element < s.len(),
                s == self.nodes@,
                match current {
                    Some(c) => c < element && (is_ancestor(s, root as int, element as int) <==> (
                    c == root || is_ancestor(s, root as int, c as int))),
                    None => !is_ancestor(s, root as int, element as int),
                },
            decreases
                match current {
                    Some(c) => c + 1,
                    None => 0,
                },
        {
            match current {
                Some(c) => {
                    if c == root {
                        return true;
                    }
                    match self.nodes[c].parent {
                        Some(p) => {
                            if p >= c {
                                return false;
                            }
                            current = Some(p);
                        },
                        None => {
                            current = None;
                        },
                    }
                },
                None => {
                    return false;
                },
            }
        }
    }

    /// `node` is `last` or one of its ancestors.
    fn is_self_or_ancestor(&self, node: usize, last: usize) -> (r: bool)
        requires
            last < self.nodes@.len(),
        ensures
            r == (node == last || self.spec_is_ancestor(node as int, last as int)),
    {
        node == last || self.element_is_descendant_of(last, node)
    }

    /// Appends a node as the last child of `parent`. Refused (`None`) unless
    /// `parent` is the last node or one of its ancestors, which keeps the nodes
    /// in document order, and where the document is full. Returns the new
    /// node's index.
    pub fn append_node(&mut self, parent: usize, data: NodeData) -> (r: Option<usize>)
        requires
            old(self).wf(),
        ensures
            final(self).wf(),
            final(self).quirks_mode == old(self).quirks_mode,
            ({
                let ok = old(self).nodes@.len() < usize::MAX && (parent as int == old(self).nodes@.len()
                    - 1 || old(self).spec_is_ancestor(parent as int, old(self).nodes@.len() - 1));
                &&& ok ==> r == Some(old(self).nodes@.len() as usize) && final(self).nodes@ == old(
                    self,
                ).nodes@.push(NodeData { parent: Some(parent), ..data })
                &&& !ok ==> r is None && final(self).nodes@ == old(self).nodes@
            }),
    {
        if self.nodes.len() == usize::MAX {
            return None;
        }
        let last = self.nodes.len() - 1;
        if !self.is_self_or_ancestor(parent, last) {
            return None;
        }
        let ghost s = self.nodes@;
        let ghost index = self.id_index@;
        let n = self.nodes.len();
        let new_id: Option<Vec<u8>> = match &data.id {
            Some(v) => if data.is_element {
                Some(copy_bytes(v))
            } else {
                None
            },
            None => None,
        };
        let node = NodeData { parent: Some(parent), ..data };
        let ghost x = node;
        self.nodes.push(node);
        proof {
            let t = self.nodes@;
            assert(t == s.push(x));
            assert forall|i: int| 1 <= i < t.len() implies #[trigger] t[i].parent matches Some(p) && (p as int == i - 1 || is_ancestor(t, p as int, i - 1)) by {
                if i < s.len() {
                    assert(t[i] == s[i]);
                    let p = s[i].parent.unwrap();
                    lemma_ancestor_push(s, x, p as int, i - 1);
                } else {
                    lemma_ancestor_push(s, x, parent as int, i - 1);
                }
            }
        }
        match new_id {
            Some(v) => {
                assert(x.is_element && x.id is Some && v@ == x.id.unwrap()@);
                let mut k: usize = 0;
                while k < self.id_index.len()
                    invariant
                        self.id_index@ == index,
                        self.nodes@ == s.push(x),
                        k <= index.len(),
                        forall|j: int| 0 <= j < k ==> (#[trigger] index[j]).id@ != v@,
                    ensures
                        self.id_index@ == index,
                        self.nodes@ == s.push(x),
                        k <= index.len(),
                        forall|j: int| 0 <= j < k ==> (#[trigger] index[j]).id@ != v@,
                        k < index.len() ==> index[k as int].id@ == v@,
                    decreases index.len() - k,
                {
                    if names_eq(&self.id_index[k].id, &v, CaseSensitivity::CaseSensitive) {
                        break;
                    }
                    k += 1;
                }
                if k < self.id_index.len() {
                    self.id_index[k].elements.push(n);
                    proof {
                        lemma_index_extend(s, x, index, self.id_index@, k as int);
                    }
                } else {
                    let mut elements: Vec<usize> = Vec::new();
                    elements.push(n);
                    self.id_index.push(IdEntry { id: v, elements });
                    proof {
                        assert(seq![n] == Seq::<usize>::empty().push(n));
                        lemma_index_new(s, x, index, self.id_index@);
                    }
                }
            },
            None => {
                proof {
                    lemma_index_same(s, x, index);
                }
            },
        }
        Some(n)
    }
}

} // verus!
