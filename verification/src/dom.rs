//! An HTML document as an arena of nodes in document order.
//!
//! The document is parsed by `scraper`; its tree is handed over as the
//! sequence of open/close events of a depth-first traversal, from which the
//! arena is built.  Node `0` is the document itself; a node's parent always
//! has a smaller index, and the nodes of the subtree rooted at `a` are
//! exactly the indices in `[a, end(a))`.
use ego_tree::iter::Edge;
use scraper::{Html, Node};
use vstd::prelude::*;

verus! {

/// An attribute of an element.
pub struct Attribute {
    /// The namespace URL of the attribute's name (empty for ordinary attributes).
    pub namespace: String,
    /// The local name of the attribute.
    pub name: String,
    /// The attribute's value.
    pub value: String,
}

/// What a node of the document is.
pub enum NodeKind {
    /// An element, with its local name and its attributes in source order.
    Element { name: String, attrs: Vec<Attribute> },
    /// A run of text.
    Text { text: String },
    /// Any other node: the document, a doctype, a comment, a processing instruction.
    Other,
}

/// One step of a depth-first traversal of a tree.
pub enum TreeEvent {
    /// Entering a node.
    Open(NodeKind),
    /// Leaving the node entered last and not yet left.
    Close,
}

/// The mathematical model of a document: for each node, its kind, its
/// parent and the end of its subtree.
pub struct DomModel {
    pub kinds: Seq<NodeKind>,
    pub parents: Seq<int>,
    pub ends: Seq<int>,
}

impl DomModel {
    /// Number of nodes.
    pub open spec fn n(self) -> int {
        self.kinds.len() as int
    }

    /// `i` is a node.
    pub open spec fn valid(self, i: int) -> bool {
        0 <= i < self.n()
    }

    /// Node `i` is an element.
    pub open spec fn is_element(self, i: int) -> bool {
        self.kinds[i] is Element
    }

    /// `k` lies in the subtree rooted at `a` (`k` may be `a` itself).
    pub open spec fn in_subtree(self, a: int, k: int) -> bool
        decreases k,
    {
        if a == k {
            true
        } else if 0 < k && 0 <= self.parents[k] < k {
            self.in_subtree(a, self.parents[k])
        } else {
            false
        }
    }

    /// `a` is a proper ancestor of `k`.
    pub open spec fn is_ancestor(self, a: int, k: int) -> bool {
        0 < k && self.in_subtree(a, self.parents[k])
    }

    /// Number of proper ancestors of `k`.
    pub open spec fn depth(self, k: int) -> nat
        decreases k,
    {
        if 0 < k && 0 <= self.parents[k] < k {
            1 + self.depth(self.parents[k])
        } else {
            0
        }
    }

    /// The structure of a tree in document order.
    pub open spec fn wf(self) -> bool {
        &&& self.n() >= 1
        &&& self.parents.len() == self.n()
        &&& self.ends.len() == self.n()
        &&& self.parents[0] == 0
        &&& self.ends[0] == self.n()
        &&& forall|j: int| 0 < j < self.n() ==> 0 <= #[trigger] self.parents[j] < j
        &&& forall|j: int| 0 <= j < self.n() ==> j < #[trigger] self.ends[j] <= self.n()
        &&& forall|a: int, k: int|
            0 <= a < self.n() && 0 <= k < self.n() ==> (#[trigger] self.in_subtree(a, k) <==> a <= k
                < self.ends[a])
        &&& forall|j: int| 0 <= j < self.n() ==> kind_ok(#[trigger] self.kinds[j])
    }
}

/// Among the attributes outside any namespace, no two share a name.
pub open spec fn bare_names_distinct(attrs: Seq<Attribute>) -> bool {
    forall|i: int, j: int|
        0 <= i < j < attrs.len() && (#[trigger] attrs[i]).namespace@.len() == 0 && (
        #[trigger] attrs[j]).namespace@.len() == 0 ==> attrs[i].name@ != attrs[j].name@
}

/// An element's attributes outside any namespace have distinct names.
pub open spec fn kind_ok(k: NodeKind) -> bool {
    match k {
        NodeKind::Element { attrs, .. } => bare_names_distinct(attrs@),
        _ => true,
    }
}

/// The node that an event opens, if any, is as `kind_ok` asks.
pub open spec fn event_ok(e: TreeEvent) -> bool {
    match e {
        TreeEvent::Open(k) => kind_ok(k),
        TreeEvent::Close => true,
    }
}

/// Every node that the events open is as `kind_ok` asks.
pub open spec fn events_ok(events: Seq<TreeEvent>) -> bool {
    forall|i: int| 0 <= i < events.len() ==> event_ok(#[trigger] events[i])
}

/// State of the construction of a model from traversal events.
pub struct BuildState {
    pub kinds: Seq<NodeKind>,
    pub parents: Seq<int>,
    pub ends: Seq<int>,
    pub stack: Seq<int>,
}

/// The state before any event.
pub open spec fn empty_build() -> BuildState {
    BuildState { kinds: seq![], parents: seq![], ends: seq![], stack: seq![] }
}

/// Effect of one event: opening a node appends it, as a child of the node
/// open last; closing records where the subtree of the node open last ends.
pub open spec fn build_step(s: BuildState, e: TreeEvent) -> BuildState {
    match e {
        TreeEvent::Open(k) => BuildState {
            kinds: s.kinds.push(k),
            parents: s.parents.push(
                if s.stack.len() == 0 {
                    0
                } else {
                    s.stack.last()
                },
            ),
            ends: s.ends.push(0),
            stack: s.stack.push(s.kinds.len() as int),
        },
        TreeEvent::Close => if s.stack.len() == 0 {
            s
        } else {
            BuildState {
                kinds: s.kinds,
                parents: s.parents,
                ends: s.ends.update(s.stack.last(), s.kinds.len() as int),
                stack: s.stack.drop_last(),
            }
        },
    }
}

/// State after the first `i` events.
pub open spec fn build_upto(events: Seq<TreeEvent>, i: nat) -> BuildState
    decreases i,
{
    if i == 0 {
        empty_build()
    } else {
        build_step(build_upto(events, (i - 1) as nat), events[i - 1])
    }
}

/// The document model that a sequence of traversal events describes.
pub open spec fn tree_of_events(events: Seq<TreeEvent>) -> DomModel {
    let s = build_upto(events, events.len());
    DomModel { kinds: s.kinds, parents: s.parents, ends: s.ends }
}

/// Number of nodes open after the first `i` events.
pub open spec fn open_count(events: Seq<TreeEvent>, i: nat) -> int
    decreases i,
{
    if i == 0 {
        0
    } else {
        open_count(events, (i - 1) as nat) + if events[i - 1] is Open {
            1int
        } else {
            -1int
        }
    }
}

/// The events of a depth-first traversal of one tree: the first opens the
/// root, and the root stays open until the very last event closes it.
pub open spec fn well_nested(events: Seq<TreeEvent>) -> bool {
    &&& events.len() >= 1
    &&& events[0] is Open
    &&& forall|i: nat| 0 < i < events.len() ==> #[trigger] open_count(events, i) >= 1
    &&& open_count(events, events.len()) == 0
}


impl BuildState {
    /// The document built so far.
    pub open spec fn model(self) -> DomModel {
        DomModel { kinds: self.kinds, parents: self.parents, ends: self.ends }
    }

    /// Node `j` has been opened and not closed yet.
    pub open spec fn is_open(self, j: int) -> bool {
        self.stack.contains(j)
    }

    /// What holds of the state at every step of a well-nested traversal.
    pub open spec fn inv(self) -> bool {
        let m = self.kinds.len() as int;
        let t = self.model();
        &&& self.parents.len() == m
        &&& self.ends.len() == m
        &&& (m >= 1 ==> self.parents[0] == 0)
        &&& forall|j: int| 0 < j < m ==> 0 <= #[trigger] self.parents[j] < j
        &&& forall|x: int, y: int|
            0 <= x < y < self.stack.len() ==> #[trigger] self.stack[x] < #[trigger] self.stack[y]
        &&& forall|x: int| 0 <= x < self.stack.len() ==> 0 <= #[trigger] self.stack[x] < m
        &&& forall|j: int, k: int|
            0 <= j < m && 0 <= k < m && self.is_open(j) ==> (#[trigger] t.in_subtree(j, k) <==> j
                <= k)
        &&& forall|j: int|
            0 <= j < m && !self.is_open(j) ==> j < #[trigger] self.ends[j] <= m
        &&& forall|j: int, k: int|
            0 <= j < m && 0 <= k < m && !self.is_open(j) ==> (#[trigger] t.in_subtree(j, k) <==> j
                <= k < self.ends[j])
        &&& forall|j: int, k: int|
            0 <= j < m && !self.is_open(j) && j <= k < #[trigger] self.ends[j] ==> !#[trigger] self.is_open(k)
    }
}

/// A node's subtree holds only nodes that come after it.
pub proof fn lemma_subtree_after(t: DomModel, a: int, k: int)
    requires
        t.in_subtree(a, k),
    ensures
        a <= k,
    decreases k,
{
    if a != k {
        lemma_subtree_after(t, a, t.parents[k]);
    }
}

/// Every node lies in the subtree of the root when parents come first.
pub proof fn lemma_subtree_root(t: DomModel, k: int)
    requires
        0 <= k < t.parents.len(),
        t.parents[0] == 0,
        forall|j: int| 0 < j < t.parents.len() ==> 0 <= #[trigger] t.parents[j] < j,
    ensures
        t.in_subtree(0, k),
    decreases k,
{
    if k != 0 {
        lemma_subtree_root(t, t.parents[k]);
    }
}

/// Appending a node does not change the subtree relation among earlier nodes.
pub proof fn lemma_subtree_prefix(t: DomModel, u: DomModel, a: int, k: int)
    requires
        0 <= k < t.parents.len(),
        t.parents.len() <= u.parents.len(),
        forall|j: int| 0 <= j < t.parents.len() ==> #[trigger] u.parents[j] == t.parents[j],
    ensures
        u.in_subtree(a, k) == t.in_subtree(a, k),
    decreases k,
{
    if a != k && 0 < k && 0 <= t.parents[k] < k {
        lemma_subtree_prefix(t, u, a, t.parents[k]);
    }
}

/// One step of the construction keeps the invariant.
pub proof fn lemma_step_inv(s: BuildState, e: TreeEvent)
    requires
        s.inv(),
        e is Open ==> (s.stack.len() > 0 || s.kinds.len() == 0),
        e is Close ==> s.stack.len() > 0,
    ensures
        build_step(s, e).inv(),
{
    let m = s.kinds.len() as int;
    let t = s.model();
    let s2 = build_step(s, e);
    let u = s2.model();
    match e {
        TreeEvent::Open(kind) => {
            let p = if s.stack.len() == 0 {
                0
            } else {
                s.stack.last()
            };
            assert(s2.stack == s.stack.push(m));
            assert forall|j: int| 0 <= j < m + 1 implies (#[trigger] s2.is_open(j) <==> (s.is_open(j)
                || j == m)) by {
                if s.is_open(j) {
                    let x = choose|x: int| 0 <= x < s.stack.len() && s.stack[x] == j;
                    assert(s2.stack[x] == j);
                }
                if s2.is_open(j) && j != m {
                    let x = choose|x: int| 0 <= x < s2.stack.len() && s2.stack[x] == j;
                    assert(x < s.stack.len());
                    assert(s.stack[x] == j);
                }
                if j == m {
                    assert(s2.stack[s.stack.len() as int] == m);
                }
            }
            assert forall|a: int, k: int| 0 <= k < m implies #[trigger] u.in_subtree(a, k)
                == t.in_subtree(a, k) by {
                lemma_subtree_prefix(t, u, a, k);
            }
            assert forall|a: int| 0 <= a < m + 1 implies #[trigger] u.in_subtree(a, m) == (a == m
                || (m > 0 && t.in_subtree(a, p))) by {
                if a != m && m > 0 {
                    assert(u.parents[m] == p);
                    assert(u.in_subtree(a, p) == t.in_subtree(a, p));
                }
            }
            assert forall|j: int, k: int|
                0 <= j < m + 1 && 0 <= k < m + 1 && s2.is_open(j) implies (#[trigger] u.in_subtree(
                j,
                k,
            ) <==> j <= k) by {
                if k < m {
                    if j == m {
                        if t.in_subtree(j, k) {
                            lemma_subtree_after(t, j, k);
                        }
                    }
                } else if j < m {
                    let x = choose|x: int| 0 <= x < s.stack.len() && s.stack[x] == j;
                    assert(s.stack[x] <= s.stack[s.stack.len() - 1]);
                    assert(t.in_subtree(j, p));
                }
            }
            assert forall|j: int, k: int|
                0 <= j < m + 1 && 0 <= k < m + 1 && !s2.is_open(j) implies (#[trigger] u.in_subtree(
                j,
                k,
            ) <==> j <= k < s2.ends[j]) by {
                if k == m {
                    if m > 0 && t.in_subtree(j, p) {
                        assert(s.is_open(p)) by {
                            assert(s.stack[s.stack.len() - 1] == p);
                        }
                        assert(!s.is_open(p));
                    }
                }
            }
            assert forall|j: int, k: int|
                0 <= j < m + 1 && !s2.is_open(j) && j <= k < #[trigger] s2.ends[j] implies !#[trigger] s2.is_open(
                k,
            ) by {
                assert(k < m);
            }
        },
        TreeEvent::Close => {
            let top = s.stack.last();
            assert(s2.stack == s.stack.drop_last());
            assert(s.is_open(top)) by {
                assert(s.stack[s.stack.len() - 1] == top);
            }
            assert forall|j: int| 0 <= j < m implies (#[trigger] s2.is_open(j) <==> (s.is_open(j)
                && j != top)) by {
                if s.is_open(j) && j != top {
                    let x = choose|x: int| 0 <= x < s.stack.len() && s.stack[x] == j;
                    assert(x < s.stack.len() - 1);
                    assert(s2.stack[x] == j);
                }
                if s2.is_open(j) {
                    let x = choose|x: int| 0 <= x < s2.stack.len() && s2.stack[x] == j;
                    assert(s.stack[x] == j);
                    assert(s.stack[x] < s.stack[s.stack.len() - 1]);
                }
            }
            assert forall|a: int, k: int| 0 <= k < m implies #[trigger] u.in_subtree(a, k)
                == t.in_subtree(a, k) by {
                lemma_subtree_prefix(t, u, a, k);
            }
            assert forall|j: int, k: int|
                0 <= j < m && !s2.is_open(j) && j <= k < #[trigger] s2.ends[j] implies !#[trigger] s2.is_open(
                k,
            ) by {
                if j == top && s2.is_open(k) {
                    let x = choose|x: int| 0 <= x < s2.stack.len() && s2.stack[x] == k;
                    assert(s.stack[x] == k);
                    assert(s.stack[x] < s.stack[s.stack.len() - 1]);
                }
                if j != top && s2.is_open(k) {
                    assert(s.is_open(k));
                }
            }
        },
    }
}

/// The construction keeps its invariant along a well-nested event sequence,
/// and its stack holds exactly the nodes open so far.
pub proof fn lemma_build_inv(events: Seq<TreeEvent>, i: nat)
    requires
        well_nested(events),
        i <= events.len(),
    ensures
        build_upto(events, i).inv(),
        build_upto(events, i).stack.len() == open_count(events, i),
        i == 0 ==> build_upto(events, i).kinds.len() == 0,
        i > 0 ==> build_upto(events, i).kinds.len() > 0,
    decreases i,
{
    if i > 0 {
        let j = (i - 1) as nat;
        lemma_build_inv(events, j);
        let s = build_upto(events, j);
        if j > 0 {
            assert(open_count(events, j) >= 1);
        }
        lemma_step_inv(s, events[j as int]);
    }
}

/// Every node built is one that an event opened.
proof fn lemma_build_kinds_ok(events: Seq<TreeEvent>, i: nat)
    requires
        events_ok(events),
        i <= events.len(),
    ensures
        forall|k: int|
            0 <= k < build_upto(events, i).kinds.len() ==> kind_ok(
                #[trigger] build_upto(events, i).kinds[k],
            ),
    decreases i,
{
    if i > 0 {
        lemma_build_kinds_ok(events, (i - 1) as nat);
        let s = build_upto(events, (i - 1) as nat);
        assert(event_ok(events[i - 1]));
        assert forall|k: int| 0 <= k < build_upto(events, i).kinds.len() implies kind_ok(
            #[trigger] build_upto(events, i).kinds[k],
        ) by {
            if k < s.kinds.len() {
                assert(build_upto(events, i).kinds[k] == s.kinds[k]);
            }
        }
    }
}

/// A well-nested sequence of events describes a well-formed tree.
pub proof fn lemma_tree_of_events_wf(events: Seq<TreeEvent>)
    requires
        well_nested(events),
        events_ok(events),
    ensures
        tree_of_events(events).wf(),
{
    let n = events.len();
    lemma_build_kinds_ok(events, n);
    lemma_build_inv(events, n);
    let s = build_upto(events, n);
    let t = tree_of_events(events);
    assert(t == s.model());
    assert forall|j: int| 0 <= j < t.n() implies !s.is_open(j) by {}
    assert(t.in_subtree(0, t.n() - 1)) by {
        lemma_subtree_root(t, t.n() - 1);
    }
}


impl DomModel {
    /// `a` is an element and a proper ancestor of `k`.
    pub open spec fn is_element_ancestor(self, a: int, k: int) -> bool {
        self.valid(a) && self.is_element(a) && self.is_ancestor(a, k)
    }

    /// The first element child of the document node at or after `k`.
    pub open spec fn first_root_child(self, k: int) -> Option<int>
        decreases self.n() - k,
    {
        if k >= self.n() || k < 1 {
            None
        } else if self.parents[k] == 0 && self.is_element(k) {
            Some(k)
        } else {
            self.first_root_child(k + 1)
        }
    }

    /// The root element: the first element child of the document node.
    pub open spec fn root_element(self) -> Option<int> {
        self.first_root_child(1)
    }

    /// Number of element children of `p` that come before `hi` and at or after `lo`.
    pub open spec fn element_children_between(self, p: int, lo: int, hi: int) -> nat
        decreases hi - lo,
    {
        if hi <= lo {
            0
        } else {
            self.element_children_between(p, lo, hi - 1) + if self.parents[hi - 1] == p
                && self.is_element(hi - 1) {
                1nat
            } else {
                0nat
            }
        }
    }
}

/// The root element is an element child of the document node.
pub proof fn lemma_root_element(t: DomModel, k: int)
    requires
        t.wf(),
    ensures
        t.first_root_child(k) matches Some(x) ==> 1 <= x < t.n() && t.parents[x] == 0
            && t.is_element(x),
    decreases t.n() - k,
{
    if 1 <= k < t.n() && !(t.parents[k] == 0 && t.is_element(k)) {
        lemma_root_element(t, k + 1);
    }
}

/// Two nodes whose subtrees share a node are nested, the later one inside the earlier.
pub proof fn lemma_subtree_nested(t: DomModel, x: int, y: int, k: int)
    requires
        x <= y,
        t.in_subtree(x, k),
        t.in_subtree(y, k),
    ensures
        t.in_subtree(x, y),
    decreases k,
{
    if k != y {
        if k == x {
            lemma_subtree_after(t, y, k);
        } else {
            lemma_subtree_nested(t, x, y, t.parents[k]);
        }
    }
}

/// Depth grows strictly down the tree.
pub proof fn lemma_subtree_depth(t: DomModel, a: int, k: int)
    requires
        t.in_subtree(a, k),
    ensures
        t.depth(a) <= t.depth(k),
        a != k ==> t.depth(a) < t.depth(k),
    decreases k,
{
    if a != k {
        lemma_subtree_depth(t, a, t.parents[k]);
    }
}

/// The subtree relation is transitive.
pub proof fn lemma_subtree_trans(t: DomModel, a: int, b: int, k: int)
    requires
        t.in_subtree(a, b),
        t.in_subtree(b, k),
    ensures
        t.in_subtree(a, k),
    decreases k,
{
    if b != k {
        lemma_subtree_trans(t, a, b, t.parents[k]);
    }
}

/// The events of a depth-first traversal of the tree that `scraper` parses
/// from `html`.
pub uninterp spec fn parsed_events(html: Seq<char>) -> Seq<TreeEvent>;

/// Parses `html` with `scraper::Html::parse_document` and lists the open and
/// close events of `ego_tree`'s traversal of the document tree, from the
/// document node down.  The events are a function of `html`; their
/// sequence is well nested since they come from the traversal of one tree,
/// and the first opens the tree's root, the document node.  An element's
/// attributes come from `scraper`'s map keyed by qualified name, and
/// `html5ever` gives no prefix to an attribute outside a namespace, so
/// attributes outside a namespace have distinct names.
#[verifier::external_body]
fn html_events(html: &str) -> (r: Vec<TreeEvent>)
    ensures
        r@ == parsed_events(html@),
        well_nested(r@),
        r@[0] == TreeEvent::Open(NodeKind::Other),
        events_ok(r@),
{
    let doc = Html::parse_document(html);
    doc.tree.root().traverse().map(|edge| match edge {
        Edge::Open(node) => TreeEvent::Open(match node.value() {
            Node::Element(e) => NodeKind::Element {
                name: e.name().to_string(),
                attrs: e.attrs.iter().map(|(k, v)| Attribute {
                    namespace: k.ns.to_string(), name: k.local.to_string(), value: v.to_string() })
                    .collect(),
            },
            Node::Text(t) => NodeKind::Text { text: t.text.to_string() },
            _ => NodeKind::Other,
        }),
        Edge::Close(_) => TreeEvent::Close,
    }).collect()
}

/// The first node stays the one that the first event opened.
proof fn lemma_first_node(events: Seq<TreeEvent>, i: nat)
    requires
        1 <= i <= events.len(),
        events[0] is Open,
    ensures
        build_upto(events, i).kinds.len() >= 1,
        build_upto(events, i).kinds[0] == events[0]->Open_0,
    decreases i,
{
    if i > 1 {
        lemma_first_node(events, (i - 1) as nat);
    } else {
        assert(build_upto(events, 0) == empty_build());
        assert(build_upto(events, 1).kinds == seq![events[0]->Open_0]);
    }
}

/// A parsed HTML document.
pub struct Dom {
    source: String,
    kinds: Vec<NodeKind>,
    parents: Vec<usize>,
    ends: Vec<usize>,
}

impl View for Dom {
    type V = DomModel;

    closed spec fn view(&self) -> DomModel {
        DomModel {
            kinds: self.kinds@,
            parents: self.parents@.map_values(|p: usize| p as int),
            ends: self.ends@.map_values(|p: usize| p as int),
        }
    }
}

/// Builds the arrays of a document from the events of its traversal.
fn build_from_events(events: Vec<TreeEvent>) -> (r: (Vec<NodeKind>, Vec<usize>, Vec<usize>))
    requires
        well_nested(events@),
    ensures
        r.0@ == tree_of_events(events@).kinds,
        r.1@.map_values(|p: usize| p as int) == tree_of_events(events@).parents,
        r.2@.map_values(|p: usize| p as int) == tree_of_events(events@).ends,
{
    let ghost evs = events@;
    let mut kinds: Vec<NodeKind> = Vec::new();
    let mut parents: Vec<usize> = Vec::new();
    let mut ends: Vec<usize> = Vec::new();
    let mut stack: Vec<usize> = Vec::new();
    for e in it: events.into_iter()
        invariant
            it.seq() == evs,
            well_nested(evs),
            ({
                let s = build_upto(evs, it.index() as nat);
                &&& kinds@ == s.kinds
                &&& parents@.map_values(|p: usize| p as int) == s.parents
                &&& ends@.map_values(|p: usize| p as int) == s.ends
                &&& stack@.map_values(|p: usize| p as int) == s.stack
            }),
    {
        let ghost i = it.index() as nat;
        proof {
            lemma_build_inv(evs, i);
            if i > 0 {
                assert(open_count(evs, i) >= 1);
            }
        }
        let ghost s = build_upto(evs, i);
        let ghost pv = parents@.map_values(|p: usize| p as int);
        let ghost ev = ends@.map_values(|p: usize| p as int);
        let ghost sv = stack@.map_values(|p: usize| p as int);
        assert(e == evs[i as int]);
        match e {
            TreeEvent::Open(k) => {
                let idx = kinds.len();
                let p = if stack.len() == 0 {
                    0
                } else {
                    stack[stack.len() - 1]
                };
                kinds.push(k);
                parents.push(p);
                ends.push(0);
                stack.push(idx);
                assert(parents@.map_values(|p: usize| p as int) =~= pv.push(p as int));
                assert(ends@.map_values(|p: usize| p as int) =~= ev.push(0));
                assert(stack@.map_values(|p: usize| p as int) =~= sv.push(idx as int));
            },
            TreeEvent::Close => {
                let top = stack.pop().unwrap();
                assert(sv.last() == top as int);
                assert(0 <= sv[sv.len() - 1] < s.kinds.len());
                ends.set(top, kinds.len());
                assert(ends@.map_values(|p: usize| p as int) =~= ev.update(
                    top as int,
                    kinds.len() as int,
                ));
                assert(stack@.map_values(|p: usize| p as int) =~= sv.drop_last());
            },
        }
    }
    (kinds, parents, ends)
}

impl Dom {
    /// The text the document was parsed from.
    pub closed spec fn source_text(&self) -> Seq<char> {
        self.source@
    }

    /// Parses an HTML document.
    pub fn parse(html: &str) -> (r: Dom)
        ensures
            r@ == tree_of_events(parsed_events(html@)),
            r@.wf(),
            r@.kinds[0] == NodeKind::Other,
            r.source_text() == html@,
    {
        let events = html_events(html);
        proof {
            lemma_tree_of_events_wf(events@);
            lemma_first_node(events@, events@.len());
        }
        let (kinds, parents, ends) = build_from_events(events);
        let r = Dom { source: html.to_owned(), kinds, parents, ends };
        assert(r@.parents =~= tree_of_events(parsed_events(html@)).parents);
        assert(r@.ends =~= tree_of_events(parsed_events(html@)).ends);
        r
    }

    /// A document has at most `usize::MAX` nodes.
    pub proof fn lemma_size(&self)
        ensures
            self@.n() <= usize::MAX,
    {
        assert(self.kinds@.len() == self.kinds.len());
    }

    /// The text the document was parsed from.
    pub fn source(&self) -> (r: &str)
        ensures
            r@ == self.source_text(),
    {
        self.source.as_str()
    }

    /// Number of nodes.
    pub fn len(&self) -> (r: usize)
        ensures
            r == self@.n(),
    {
        self.kinds.len()
    }

    /// The parent of node `i` (the document node is its own parent).
    pub fn parent(&self, i: usize) -> (r: usize)
        requires
            self@.wf(),
            i < self@.n(),
        ensures
            r == self@.parents[i as int],
    {
        self.parents[i]
    }

    /// The end of the subtree rooted at node `i`.
    pub fn end(&self, i: usize) -> (r: usize)
        requires
            self@.wf(),
            i < self@.n(),
        ensures
            r == self@.ends[i as int],
    {
        self.ends[i]
    }

    /// What node `i` is.
    pub fn kind(&self, i: usize) -> (r: &NodeKind)
        requires
            i < self@.n(),
        ensures
            *r == self@.kinds[i as int],
    {
        &self.kinds[i]
    }

    /// The root element of the document: the first element child of the
    /// document node (for an HTML page, the `html` element).
    pub fn root_element(&self) -> (r: Option<usize>)
        requires
            self@.wf(),
        ensures
            r matches Some(x) ==> self@.root_element() == Some(x as int) && x < self@.n()
                && self@.is_element(x as int),
            r is None ==> self@.root_element() is None,
    {
        let n = self.len();
        let mut k: usize = 1;
        while k < n
            invariant
                self@.wf(),
                n == self@.n(),
                1 <= k <= n,
                self@.root_element() == self@.first_root_child(k as int),
            decreases n - k,
        {
            if self.parents[k] == 0 && self.is_element(k) {
                return Some(k);
            }
            k = k + 1;
        }
        None
    }

    /// Whether node `i` is an element.
    pub fn is_element(&self, i: usize) -> (r: bool)
        requires
            i < self@.n(),
        ensures
            r == self@.is_element(i as int),
    {
        match &self.kinds[i] {
            NodeKind::Element { .. } => true,
            _ => false,
        }
    }
}

} // verus!
