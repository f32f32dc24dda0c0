//! Document tree: node kinds, the node arena owned by a window, and the
//! well-formedness invariant of the tree layout.
//!
//! Nodes live in an arena indexed by stable handles; a handle is the index
//! at which the node was created. Forward edges (`first_child`,
//! `next_sibling`) always point at strictly larger handles, and the arena
//! order coincides with preorder: the subtree of node `i` occupies exactly
//! the handles `i .. end[i]` for a ghost sequence `end` carried by the
//! window. Backward edges (`parent`, `previous_sibling`, `last_child`) are
//! plain non-owning handles used for appending and climbing.

use vstd::prelude::*;

use crate::attribute::Attribute;
use crate::chars::str_eq;

verus! {

/// The closed vocabulary of supported element tags.
#[derive(Debug, Clone, Copy, PartialEq, Eq, Structural)]
pub enum ElementKind {
    Html,
    Head,
    Style,
    Script,
    Body,
    P,
    H1,
    H2,
}

/// The element kind a tag name denotes, if the name is in the supported
/// vocabulary.
pub open spec fn element_kind_of(name: Seq<char>) -> Option<ElementKind> {
    if name == "html"@ {
        Some(ElementKind::Html)
    } else if name == "head"@ {
        Some(ElementKind::Head)
    } else if name == "style"@ {
        Some(ElementKind::Style)
    } else if name == "script"@ {
        Some(ElementKind::Script)
    } else if name == "body"@ {
        Some(ElementKind::Body)
    } else if name == "p"@ {
        Some(ElementKind::P)
    } else if name == "h1"@ {
        Some(ElementKind::H1)
    } else if name == "h2"@ {
        Some(ElementKind::H2)
    } else {
        None
    }
}

impl ElementKind {
    /// Parses a tag name; names outside the supported vocabulary are
    /// rejected, with an error naming the offending tag.
    pub fn from_str(s: &str) -> (r: Result<ElementKind, String>)
        ensures
            match r {
                Ok(k) => element_kind_of(s@) == Some(k),
                Err(m) => element_kind_of(s@) is None && m@ == "unimplemented element name \""@
                    + s@ + "\""@,
            },
    {
        if str_eq(s, "html") {
            Ok(ElementKind::Html)
        } else if str_eq(s, "head") {
            Ok(ElementKind::Head)
        } else if str_eq(s, "style") {
            Ok(ElementKind::Style)
        } else if str_eq(s, "script") {
            Ok(ElementKind::Script)
        } else if str_eq(s, "body") {
            Ok(ElementKind::Body)
        } else if str_eq(s, "p") {
            Ok(ElementKind::P)
        } else if str_eq(s, "h1") {
            Ok(ElementKind::H1)
        } else if str_eq(s, "h2") {
            Ok(ElementKind::H2)
        } else {
            let mut message = String::from_str("unimplemented element name \"");
            message.append(s);
            message.append("\"");
            Err(message)
        }
    }
}

#[derive(Debug)]
pub struct Element {
    pub kind: ElementKind,
    pub attributes: Vec<Attribute>,
}

impl Element {
    /// An element for a tag name in the supported vocabulary; asking for a
    /// name outside it is excluded by the precondition.
    pub fn new(element_name: &str, attributes: Vec<Attribute>) -> (e: Element)
        requires
            element_kind_of(element_name@) is Some,
        ensures
            Some(e.kind) == element_kind_of(element_name@),
            e.attributes == attributes,
    {
        let kind = match ElementKind::from_str(element_name) {
            Ok(k) => k,
            Err(_) => {
                proof {
                    assert(false);
                }
                ElementKind::Html
            },
        };
        Element { kind, attributes }
    }

    pub fn kind(&self) -> (k: ElementKind)
        ensures
            k == self.kind,
    {
        self.kind
    }

    pub fn attributes(&self) -> (a: &Vec<Attribute>)
        ensures
            a == self.attributes,
    {
        &self.attributes
    }

    pub open spec fn spec_kind(&self) -> ElementKind {
        self.kind
    }
}

#[derive(Debug)]
pub enum NodeKind {
    Document,
    Element(Element),
    Text(String),
}

/// One node of the tree. All link fields hold arena handles.
#[derive(Debug)]
pub struct Node {
    pub kind: NodeKind,
    pub window: Option<usize>,
    pub parent: Option<usize>,
    pub first_child: Option<usize>,
    pub last_child: Option<usize>,
    pub previous_sibling: Option<usize>,
    pub next_sibling: Option<usize>,
}

impl Node {
    /// A fresh node of the given kind with no links.
    pub fn new(kind: NodeKind) -> (n: Node)
        ensures
            n.kind == kind,
            n.window is None,
            n.parent is None,
            n.first_child is None,
            n.last_child is None,
            n.previous_sibling is None,
            n.next_sibling is None,
    {
        Node {
            kind,
            window: None,
            parent: None,
            first_child: None,
            last_child: None,
            previous_sibling: None,
            next_sibling: None,
        }
    }

    pub fn set_window(&mut self, window: Option<usize>)
        ensures
            *final(self) == (Node { window, ..*old(self) }),
    {
        self.window = window;
    }

    pub fn set_parent(&mut self, parent: Option<usize>)
        ensures
            *final(self) == (Node { parent, ..*old(self) }),
    {
        self.parent = parent;
    }

    pub fn parent(&self) -> (p: Option<usize>)
        ensures
            p == self.parent,
    {
        self.parent
    }

    pub fn set_first_child(&mut self, first_child: Option<usize>)
        ensures
            *final(self) == (Node { first_child, ..*old(self) }),
    {
        self.first_child = first_child;
    }

    pub fn first_child(&self) -> (c: Option<usize>)
        ensures
            c == self.first_child,
    {
        self.first_child
    }

    pub fn set_last_child(&mut self, last_child: Option<usize>)
        ensures
            *final(self) == (Node { last_child, ..*old(self) }),
    {
        self.last_child = last_child;
    }

    pub fn last_child(&self) -> (c: Option<usize>)
        ensures
            c == self.last_child,
    {
        self.last_child
    }

    pub fn set_previous_sibling(&mut self, previous_sibling: Option<usize>)
        ensures
            *final(self) == (Node { previous_sibling, ..*old(self) }),
    {
        self.previous_sibling = previous_sibling;
    }

    pub fn previous_sibling(&self) -> (s: Option<usize>)
        ensures
            s == self.previous_sibling,
    {
        self.previous_sibling
    }

    pub fn set_next_sibling(&mut self, next_sibling: Option<usize>)
        ensures
            *final(self) == (Node { next_sibling, ..*old(self) }),
    {
        self.next_sibling = next_sibling;
    }

    pub fn next_sibling(&self) -> (s: Option<usize>)
        ensures
            s == self.next_sibling,
    {
        self.next_sibling
    }

    pub fn kind(&self) -> (k: &NodeKind)
        ensures
            k == self.kind,
    {
        &self.kind
    }

    pub fn get_element(&self) -> (e: Option<&Element>)
        ensures
            match self.kind {
                NodeKind::Element(ref el) => e == Some(el),
                _ => e is None,
            },
    {
        match self.kind {
            NodeKind::Document => None,
            NodeKind::Text(_) => None,
            NodeKind::Element(ref element) => Some(element),
        }
    }

    pub fn element_kind(&self) -> (k: Option<ElementKind>)
        ensures
            k == self.spec_element_kind(),
    {
        match self.kind {
            NodeKind::Document => None,
            NodeKind::Text(_) => None,
            NodeKind::Element(ref element) => Some(element.kind()),
        }
    }

    pub open spec fn spec_element_kind(&self) -> Option<ElementKind> {
        match self.kind {
            NodeKind::Element(el) => Some(el.spec_kind()),
            _ => None,
        }
    }
}

/// The tree layout invariant over the arena `ns`, the ghost subtree
/// extents `end` (node `i` spans handles `i .. end[i]`) and the ghost
/// parent table `par`.
pub open spec fn tree_wf(ns: Seq<Node>, end: Seq<int>, par: Seq<int>) -> bool {
    let n = ns.len() as int;
    &&& 1 <= n
    &&& end.len() == n
    &&& par.len() == n
    &&& ns[0].kind is Document
    &&& ns[0].parent is None
    &&& ns[0].previous_sibling is None
    &&& ns[0].next_sibling is None
    &&& end[0] == n
    &&& forall|i: int| 0 <= i < n ==> i < #[trigger] end[i] <= n
    &&& forall|i: int| 1 <= i < n ==> 0 <= #[trigger] par[i] < i
    &&& forall|i: int| 1 <= i < n ==> end[i] <= end[#[trigger] par[i]]
    &&& forall|i: int| 1 <= i < n ==> !((#[trigger] ns[i]).kind is Document)
    &&& forall|i: int| 1 <= i < n ==> (#[trigger] ns[i]).parent == Some(par[i] as usize)
    &&& forall|i: int|
        0 <= i < n ==> (#[trigger] ns[i]).first_child == (if end[i] > i + 1 {
            Some((i + 1) as usize)
        } else {
            None::<usize>
        })
    &&& forall|i: int| 0 <= i < n && #[trigger] end[i] > i + 1 ==> par[i + 1] == i
    &&& forall|i: int|
        1 <= i < n ==> match (#[trigger] ns[i]).next_sibling {
            Some(j) => i < j < n && j == end[i] && end[i] < end[par[i]] && par[j as int] == par[i],
            None => end[i] == end[par[i]],
        }
    &&& forall|i: int|
        1 <= i < n ==> match (#[trigger] ns[i]).previous_sibling {
            Some(s) => 0 < s < i && par[s as int] == par[i] && end[s as int] == i,
            None => i == par[i] + 1,
        }
    &&& forall|i: int|
        0 <= i < n ==> match (#[trigger] ns[i]).last_child {
            Some(l) => i < l < n && par[l as int] == i && end[l as int] == end[i],
            None => end[i] == i + 1,
        }
    &&& forall|i: int|
        1 <= i < n && end[i] == end[par[i]] ==> (#[trigger] ns[par[i]]).last_child == Some(
            i as usize,
        )
}

/// A window owns the arena of one document tree; the document root sits at
/// handle 0.
pub struct Window {
    pub nodes: Vec<Node>,
    /// Ghost subtree extents: node `i` spans handles `i .. end[i]`.
    pub end: Ghost<Seq<int>>,
    /// Ghost parent table for nodes other than the root.
    pub par: Ghost<Seq<int>>,
}

/// `a` lies on the parent chain of `i`: it is `i` itself or a transitive
/// parent of it under the table `par`.
pub open spec fn on_chain(par: Seq<int>, i: int, a: int) -> bool
    decreases (if i >= 0 {
        i
    } else {
        0
    }),
{
    if i == a {
        true
    } else if 0 < i && 0 <= par[i] < i {
        on_chain(par, par[i], a)
    } else {
        false
    }
}

/// The subtree extents after a node is appended under `p`: every extent on
/// the parent chain of `p` grows by one, all others stay.
pub open spec fn bumped_ends(end: Seq<int>, par: Seq<int>, p: int) -> Seq<int> {
    Seq::new(end.len(), |j: int| if on_chain(par, p, j) { end[j] + 1 } else { end[j] })
}

pub proof fn lemma_on_chain_le(par: Seq<int>, i: int, a: int)
    requires
        on_chain(par, i, a),
    ensures
        a <= i,
    decreases (if i >= 0 {
        i
    } else {
        0
    }),
{
    if i != a {
        lemma_on_chain_le(par, par[i], a);
    }
}

pub proof fn lemma_on_chain_zero(par: Seq<int>, i: int)
    requires
        0 <= i < par.len(),
        forall|j: int| 1 <= j < par.len() ==> 0 <= #[trigger] par[j] < j,
    ensures
        on_chain(par, i, 0),
    decreases i,
{
    if i > 0 {
        lemma_on_chain_zero(par, par[i]);
    }
}

pub proof fn lemma_on_chain_up(par: Seq<int>, i: int, a: int)
    requires
        on_chain(par, i, a),
        0 < a,
        0 <= par[a] < a,
    ensures
        on_chain(par, i, par[a]),
    decreases (if i >= 0 {
        i
    } else {
        0
    }),
{
    if i == a {
        assert(on_chain(par, par[a], par[a]));
    } else {
        lemma_on_chain_up(par, par[i], a);
    }
}

pub proof fn lemma_chain_end(end: Seq<int>, par: Seq<int>, p: int, a: int)
    requires
        end.len() == par.len(),
        0 <= p < end.len(),
        forall|j: int| 1 <= j < par.len() ==> 0 <= #[trigger] par[j] < j,
        forall|j: int| 1 <= j < end.len() ==> #[trigger] end[j] <= end[par[j]],
        forall|j: int| 0 <= j < end.len() ==> j < #[trigger] end[j] <= end.len(),
        end[p] == end.len(),
        on_chain(par, p, a),
    ensures
        0 <= a <= p,
        end[a] == end.len(),
    decreases p,
{
    if p != a {
        lemma_chain_end(end, par, par[p], a);
    }
}

proof fn lemma_chain_child(par: Seq<int>, p: int, a: int)
    requires
        on_chain(par, p, a),
        a != p,
    ensures
        exists|b: int| (#[trigger] on_chain(par, p, b)) && 0 < b && par[b] == a,
    decreases (if p >= 0 {
        p
    } else {
        0
    }),
{
    if par[p] == a {
        assert(on_chain(par, p, p));
    } else {
        lemma_chain_child(par, par[p], a);
        let b = choose|b: int| (#[trigger] on_chain(par, par[p], b)) && 0 < b && par[b] == a;
        lemma_on_chain_le(par, par[p], b);
        assert(on_chain(par, p, b));
    }
}

/// The handles `lo`, `lo + 1`, ..., `hi - 1`, in order.
pub open spec fn index_range(lo: int, hi: int) -> Seq<usize> {
    Seq::new(if hi >= lo { (hi - lo) as nat } else { 0 }, |k: int| (lo + k) as usize)
}

proof fn lemma_index_range_concat(lo: int, mid: int, hi: int)
    requires
        lo <= mid <= hi,
    ensures
        index_range(lo, mid) + index_range(mid, hi) == index_range(lo, hi),
{
    assert(index_range(lo, mid) + index_range(mid, hi) =~= index_range(lo, hi));
}

impl Window {
    pub open spec fn wf(&self) -> bool {
        tree_wf(self.nodes@, self.end@, self.par@)
    }

    /// A window holding a single document root node.
    pub fn new() -> (w: Window)
        ensures
            w.wf(),
            w.nodes@.len() == 1,
            w.nodes@[0].kind is Document,
            w.end@ =~= seq![1int],
            w.par@ =~= seq![0int],
    {
        let mut root = Node::new(NodeKind::Document);
        root.set_window(Some(0));
        let nodes: Vec<Node> = vec![root];
        let ghost e: Seq<int> = seq![1int];
        let ghost p: Seq<int> = seq![0int];
        let w = Window { nodes, end: Ghost(e), par: Ghost(p) };
        proof {
            assert(w.wf());
        }
        w
    }

    /// The handle of the document root.
    pub fn document(&self) -> (d: usize)
        ensures
            d == 0,
    {
        0
    }

    /// How many nodes the tree holds.
    pub fn node_count(&self) -> (n: usize)
        ensures
            n == self.nodes@.len(),
    {
        self.nodes.len()
    }

    /// The node behind a handle.
    pub fn node(&self, index: usize) -> (n: &Node)
        requires
            index < self.nodes@.len(),
        ensures
            *n == self.nodes@[index as int],
    {
        &self.nodes[index]
    }

    fn walk_into(&self, i: usize, out: &mut Vec<usize>)
        requires
            self.wf(),
            i < self.nodes@.len(),
        ensures
            final(out)@ == old(out)@ + index_range(i as int, self.end@[i as int]),
        decreases self.end@[i as int] - i,
    {
        let ghost n = self.nodes@.len() as int;
        let ghost e = self.end@[i as int];
        let ghost out0 = out@;
        out.push(i);
        proof {
            assert(out@ =~= out0 + index_range(i as int, i + 1));
        }
        let mut cur: Option<usize> = self.nodes[i].first_child;
        proof {
            if e > i + 1 {
                assert(cur == Some((i + 1) as usize));
            } else {
                assert(cur is None);
                assert(out@ =~= out0 + index_range(i as int, e));
            }
        }
        loop
            invariant
                self.wf(),
                i < self.nodes@.len(),
                n == self.nodes@.len() as int,
                e == self.end@[i as int],
                match cur {
                    Some(c) => i < c < n && self.par@[c as int] == i && self.end@[c as int] <= e
                        && out@ == out0 + index_range(i as int, c as int),
                    None => out@ == out0 + index_range(i as int, e),
                },
            ensures
                out@ == out0 + index_range(i as int, e),
            decreases (match cur {
                Some(c) => e - c,
                None => 0int,
            }),
        {
            match cur {
                None => {
                    break ;
                },
                Some(c) => {
                    self.walk_into(c, out);
                    let ghost ec = self.end@[c as int];
                    proof {
                        lemma_index_range_concat(i as int, c as int, ec);
                        assert(out@ == out0 + index_range(i as int, c as int) + index_range(
                            c as int,
                            ec,
                        ));
                        assert(out0 + index_range(i as int, c as int) + index_range(c as int, ec)
                            =~= out0 + (index_range(i as int, c as int) + index_range(
                            c as int,
                            ec,
                        )));
                    }
                    cur = self.nodes[c].next_sibling;
                    proof {
                        match cur {
                            Some(j) => {
                                assert(j == ec && self.par@[j as int] == i);
                            },
                            None => {
                                assert(ec == e);
                            },
                        }
                    }
                },
            }
        }
        proof {
            assert(out@ == out0 + index_range(i as int, e));
        }
    }

    /// Walking from the document root along `first_child` and
    /// `next_sibling` links alone visits every node of the tree exactly
    /// once — no node twice, none unreachable — and in arena order.
    pub fn walk(&self) -> (order: Vec<usize>)
        requires
            self.wf(),
        ensures
            order@.len() == self.nodes@.len(),
            forall|k: int| 0 <= k < order@.len() ==> (#[trigger] order@[k]) as int == k,
    {
        let n = self.nodes.len();
        let mut out: Vec<usize> = Vec::new();
        self.walk_into(0, &mut out);
        proof {
            assert(out@ == index_range(0, self.end@[0]));
            assert(self.end@[0] == n as int);
            assert(out@.len() == self.nodes@.len());
            assert forall|k: int| 0 <= k < out@.len() implies (#[trigger] out@[k]) as int == k by {
                assert(out@[k] == index_range(0, n as int)[k]);
            }
        }
        out
    }

    /// The content of a text node, as a character sequence.
    pub open spec fn spec_text(k: NodeKind) -> Seq<char> {
        match k {
            NodeKind::Text(s) => s@,
            _ => Seq::<char>::empty(),
        }
    }

    /// Appends one character to the content of an existing text node,
    /// leaving the tree shape untouched.
    pub fn append_text_char(&mut self, index: usize, c: char)
        requires
            old(self).wf(),
            index < old(self).nodes@.len(),
            old(self).nodes@[index as int].kind is Text,
        ensures
            final(self).wf(),
            final(self).nodes@.len() == old(self).nodes@.len(),
            final(self).end@ == old(self).end@,
            final(self).par@ == old(self).par@,
            forall|j: int|
                0 <= j < old(self).nodes@.len() && j != index as int
                    ==> (#[trigger] final(self).nodes@[j]) == old(self).nodes@[j],
            final(self).nodes@[index as int].kind is Text,
            Self::spec_text(final(self).nodes@[index as int].kind) == Self::spec_text(
                old(self).nodes@[index as int].kind,
            ).push(c),
            final(self).nodes@[index as int] == (Node {
                kind: final(self).nodes@[index as int].kind,
                ..old(self).nodes@[index as int]
            }),
    {
        match &mut self.nodes[index].kind {
            NodeKind::Text(s) => {
                crate::chars::push_char(s, c);
            },
            _ => {
                proof {
                    assert(false);
                }
            },
        }
        proof {
            assert(tree_wf(self.nodes@, self.end@, self.par@));
        }
    }

    /// Appends a fresh node of the given kind as the last child of
    /// `parent`, which must be the node whose subtree currently reaches the
    /// end of the arena (the open insertion point). Returns the new node's
    /// handle.
    pub fn append_node(&mut self, kind: NodeKind, parent: usize) -> (idx: usize)
        requires
            old(self).wf(),
            parent < old(self).nodes@.len(),
            old(self).end@[parent as int] == old(self).nodes@.len(),
            !(kind is Document),
        ensures
            final(self).wf(),
            idx == old(self).nodes@.len(),
            final(self).nodes@.len() == old(self).nodes@.len() + 1,
            final(self).par@ == old(self).par@.push(parent as int),
            final(self).end@ == bumped_ends(old(self).end@, old(self).par@, parent as int).push(
                old(self).nodes@.len() as int + 1,
            ),
            forall|j: int|
                0 <= j < old(self).nodes@.len()
                    ==> (#[trigger] final(self).nodes@[j]).kind == old(self).nodes@[j].kind,
            forall|j: int|
                0 <= j < old(self).nodes@.len() && j != parent as int
                    ==> (#[trigger] final(self).nodes@[j]).last_child == old(self).nodes@[j].last_child,
            final(self).nodes@[parent as int].last_child == Some(idx),
            final(self).nodes@[idx as int].kind == kind,
            final(self).nodes@[idx as int].first_child is None,
    {
        let idx = self.nodes.len();
        let t_opt = self.nodes[parent].last_child;
        let node = Node {
            kind,
            window: None,
            parent: Some(parent),
            first_child: None,
            last_child: None,
            previous_sibling: t_opt,
            next_sibling: None,
        };
        self.nodes.push(node);
        match t_opt {
            Some(t) => {
                self.nodes[t].next_sibling = Some(idx);
            },
            None => {
                self.nodes[parent].first_child = Some(idx);
            },
        }
        self.nodes[parent].last_child = Some(idx);
        proof {
            let n = old(self).nodes@.len() as int;
            let p = parent as int;
            let ns0 = old(self).nodes@;
            let end0 = old(self).end@;
            let par0 = old(self).par@;
            assert(ns0.len() <= usize::MAX);
            self.par@ = par0.push(p);
            self.end@ = bumped_ends(end0, par0, p).push(n + 1);
            let fresh = Node {
                kind,
                window: None,
                parent: Some(parent),
                first_child: None,
                last_child: None,
                previous_sibling: t_opt,
                next_sibling: None,
            };
            match t_opt {
                Some(t) => {
                    assert(self.nodes@ =~= ns0.push(fresh).update(t as int, Node {
                        next_sibling: Some(idx),
                        ..ns0[t as int]
                    }).update(p, Node { last_child: Some(idx), ..ns0[p] }));
                },
                None => {
                    assert(self.nodes@ =~= ns0.push(fresh).update(p, Node {
                        first_child: Some(idx),
                        last_child: Some(idx),
                        ..ns0[p]
                    }));
                },
            }
            lemma_append_wf(ns0, end0, par0, p, kind, self.nodes@, self.end@, self.par@);
        }
        idx
    }
}

/// The relation between the arena before and after a node of kind `kind`
/// is appended under `p`: a fresh node at the end, the old tail (or the
/// parent's first-child slot) rewired, and the parent's last-child slot
/// pointed at the fresh node.
pub open spec fn append_shape(ns0: Seq<Node>, p: int, kind: NodeKind, ns1: Seq<Node>) -> bool {
    let n = ns0.len() as int;
    let t_opt = ns0[p].last_child;
    let fresh = Node {
        kind,
        window: None,
        parent: Some(p as usize),
        first_child: None,
        last_child: None,
        previous_sibling: t_opt,
        next_sibling: None,
    };
    match t_opt {
        Some(t) => ns1 == ns0.push(fresh).update(
            t as int,
            Node { next_sibling: Some(n as usize), ..ns0[t as int] },
        ).update(p, Node { last_child: Some(n as usize), ..ns0[p] }),
        None => ns1 == ns0.push(fresh).update(
            p,
            Node { first_child: Some(n as usize), last_child: Some(n as usize), ..ns0[p] },
        ),
    }
}

/// Facts about the parent chain of the open insertion point `p`: chain
/// members are at most `p`, their subtrees reach the arena end, strict
/// ancestors have their chain child as last child, and no chain member has
/// a next sibling.
pub open spec fn chain_derived(ns0: Seq<Node>, end0: Seq<int>, par0: Seq<int>, p: int) -> bool {
    let n = ns0.len() as int;
    &&& on_chain(par0, p, 0)
    &&& forall|a: int| #[trigger] on_chain(par0, p, a) ==> 0 <= a <= p && end0[a] == n
    &&& forall|a: int| #[trigger] on_chain(par0, p, a) && a != p ==> end0[a] > a + 1
    &&& forall|i: int| 1 <= i < n && #[trigger] on_chain(par0, p, i) ==> ns0[i].next_sibling is None
    &&& match ns0[p].last_child {
        Some(t) => !on_chain(par0, p, t as int),
        None => true,
    }
}

proof fn lemma_chain_derived(ns0: Seq<Node>, end0: Seq<int>, par0: Seq<int>, p: int)
    requires
        tree_wf(ns0, end0, par0),
        0 <= p < ns0.len(),
        end0[p] == ns0.len(),
    ensures
        chain_derived(ns0, end0, par0, p),
{
    let n = ns0.len() as int;
    lemma_on_chain_zero(par0, p);
    assert forall|a: int| #[trigger] on_chain(par0, p, a) implies 0 <= a <= p && end0[a] == n by {
        lemma_chain_end(end0, par0, p, a);
    }
    assert forall|i: int| 1 <= i < n && #[trigger] on_chain(par0, p, i) implies ns0[i].next_sibling
        is None by {
        lemma_chain_end(end0, par0, p, i);
        match ns0[i].next_sibling {
            Some(j) => {
                assert(j < n && j as int == end0[i]);
            },
            None => {},
        }
    }
    assert forall|a: int| #[trigger] on_chain(par0, p, a) && a != p implies end0[a] > a + 1 by {
        lemma_chain_child(par0, p, a);
        let b = choose|b: int| (#[trigger] on_chain(par0, p, b)) && 0 < b && par0[b] == a;
        lemma_chain_end(end0, par0, p, b);
        assert(end0[b] == n);
        assert(a < b);
        assert(b < end0[b]);
        assert(end0[a] == n);
    }
    match ns0[p].last_child {
        Some(t) => {
            if on_chain(par0, p, t as int) {
                lemma_on_chain_le(par0, p, t as int);
            }
        },
        None => {},
    }
}

/// The last child of a strict chain member is itself a chain member.
proof fn lemma_chain_lc(ns0: Seq<Node>, end0: Seq<int>, par0: Seq<int>, p: int, a: int)
    requires
        tree_wf(ns0, end0, par0),
        ns0.len() <= usize::MAX,
        0 <= p < ns0.len(),
        end0[p] == ns0.len(),
        on_chain(par0, p, a),
        a != p,
    ensures
        match ns0[a].last_child {
            Some(b) => 0 < b && on_chain(par0, p, b as int),
            None => false,
        },
{
    let n = ns0.len() as int;
    lemma_chain_child(par0, p, a);
    let b = choose|b: int| (#[trigger] on_chain(par0, p, b)) && 0 < b && par0[b] == a;
    lemma_chain_end(end0, par0, p, b);
    lemma_chain_end(end0, par0, p, a);
    assert(end0[b] == n && end0[a] == n);
    assert(ns0[a].last_child == Some(b as usize));
    assert((b as usize) as int == b);
}

/// The setting shared by the preservation lemmas: the tree was well
/// formed, `p` is the open insertion point, and the arena, extents and
/// parent table were rewired for one appended node.
pub open spec fn append_setting(
    ns0: Seq<Node>,
    end0: Seq<int>,
    par0: Seq<int>,
    p: int,
    kind: NodeKind,
    ns1: Seq<Node>,
    end1: Seq<int>,
    par1: Seq<int>,
) -> bool {
    &&& tree_wf(ns0, end0, par0)
    &&& ns0.len() <= usize::MAX
    &&& 0 <= p < ns0.len()
    &&& end0[p] == ns0.len()
    &&& !(kind is Document)
    &&& par1 == par0.push(p)
    &&& end1 == bumped_ends(end0, par0, p).push(ns0.len() as int + 1)
    &&& append_shape(ns0, p, kind, ns1)
    &&& chain_derived(ns0, end0, par0, p)
}

/// The same setting, spelled out index by index; this is what the clause
/// lemmas work from.
pub open spec fn append_pointwise(
    ns0: Seq<Node>,
    end0: Seq<int>,
    par0: Seq<int>,
    p: int,
    kind: NodeKind,
    ns1: Seq<Node>,
    end1: Seq<int>,
    par1: Seq<int>,
) -> bool {
    let n = ns0.len() as int;
    let t_opt = ns0[p].last_child;
    &&& tree_wf(ns0, end0, par0)
    &&& chain_derived(ns0, end0, par0, p)
    &&& ns0.len() <= usize::MAX
    &&& 0 <= p < n
    &&& end0[p] == n
    &&& !(kind is Document)
    &&& ns1.len() == n + 1
    &&& end1.len() == n + 1
    &&& par1.len() == n + 1
    &&& forall|j: int| 0 <= j < n ==> #[trigger] par1[j] == par0[j]
    &&& par1[n] == p
    &&& forall|j: int|
        0 <= j < n ==> #[trigger] end1[j] == (if on_chain(par0, p, j) {
            end0[j] + 1
        } else {
            end0[j]
        })
    &&& end1[n] == n + 1
    &&& ns1[n] == (Node {
        kind,
        window: None,
        parent: Some(p as usize),
        first_child: None,
        last_child: None,
        previous_sibling: t_opt,
        next_sibling: None,
    })
    &&& (match t_opt {
        Some(t) => ns1[t as int] == (Node { next_sibling: Some(n as usize), ..ns0[t as int] })
            && ns1[p] == (Node { last_child: Some(n as usize), ..ns0[p] }) && (forall|j: int|
            0 <= j < n && j != p && j != t as int ==> #[trigger] ns1[j] == ns0[j]),
        None => ns1[p] == (Node {
            first_child: Some(n as usize),
            last_child: Some(n as usize),
            ..ns0[p]
        }) && (forall|j: int| 0 <= j < n && j != p ==> #[trigger] ns1[j] == ns0[j]),
    })
}

proof fn lemma_append_pointwise(
    ns0: Seq<Node>,
    end0: Seq<int>,
    par0: Seq<int>,
    p: int,
    kind: NodeKind,
    ns1: Seq<Node>,
    end1: Seq<int>,
    par1: Seq<int>,
)
    requires
        append_setting(ns0, end0, par0, p, kind, ns1, end1, par1),
    ensures
        append_pointwise(ns0, end0, par0, p, kind, ns1, end1, par1),
{
    let n = ns0.len() as int;
    match ns0[p].last_child {
        Some(t) => {
            assert(p < t < n);
        },
        None => {},
    }
}

#[verifier::rlimit(100)]
proof fn lemma_append_wf_shallow(
    ns0: Seq<Node>,
    end0: Seq<int>,
    par0: Seq<int>,
    p: int,
    kind: NodeKind,
    ns1: Seq<Node>,
    end1: Seq<int>,
    par1: Seq<int>,
)
    requires
        append_pointwise(ns0, end0, par0, p, kind, ns1, end1, par1),
    ensures
        ns1.len() == ns0.len() + 1,
        end1.len() == ns1.len(),
        par1.len() == ns1.len(),
        ns1[0].kind is Document,
        ns1[0].parent is None,
        ns1[0].previous_sibling is None,
        ns1[0].next_sibling is None,
        end1[0] == ns1.len() as int,
        forall|i: int| 0 <= i < ns1.len() ==> i < #[trigger] end1[i] <= ns1.len(),
        forall|i: int| 1 <= i < ns1.len() ==> 0 <= #[trigger] par1[i] < i,
        forall|i: int| 1 <= i < ns1.len() ==> #[trigger] end1[i] <= end1[par1[i]],
        forall|i: int| 1 <= i < ns1.len() ==> !((#[trigger] ns1[i]).kind is Document),
        forall|i: int| 1 <= i < ns1.len() ==> (#[trigger] ns1[i]).parent == Some(par1[i] as usize),
        forall|i: int|
            0 <= i < ns1.len() ==> (#[trigger] ns1[i]).first_child == (if end1[i] > i + 1 {
                Some((i + 1) as usize)
            } else {
                None::<usize>
            }),
        forall|i: int| 0 <= i < ns1.len() && #[trigger] end1[i] > i + 1 ==> par1[i + 1] == i,
{
    let n = ns0.len() as int;
    let n1 = n + 1;
    let t_opt = ns0[p].last_child;
    assert(on_chain(par0, p, p));
    assert forall|i: int| 1 <= i < n1 implies #[trigger] end1[i] <= end1[par1[i]] by {
        if i < n && on_chain(par0, p, i) {
            lemma_on_chain_up(par0, p, i);
        }
    }
    assert forall|i: int| 0 <= i < n1 implies (#[trigger] ns1[i]).first_child == (if end1[i] > i
        + 1 {
        Some((i + 1) as usize)
    } else {
        None::<usize>
    }) by {
        if i == p {
            match t_opt {
                Some(t) => {
                    assert(end0[p] == end0[t as int]);
                    assert((t as int) < end0[t as int]);
                    assert(end0[p] > p + 1);
                },
                None => {},
            }
        }
    }
    assert forall|i: int| 0 <= i < n1 && #[trigger] end1[i] > i + 1 implies par1[i + 1] == i by {
        if i == p {
            match t_opt {
                Some(t) => {
                    assert(end0[p] > p + 1);
                },
                None => {
                    assert(end0[p] == p + 1);
                },
            }
        } else if i < n && !on_chain(par0, p, i) {
            assert(end1[i] == end0[i]);
        }
    }
}

#[verifier::rlimit(100)]
proof fn lemma_next_sibling_at(
    ns0: Seq<Node>,
    end0: Seq<int>,
    par0: Seq<int>,
    p: int,
    kind: NodeKind,
    ns1: Seq<Node>,
    end1: Seq<int>,
    par1: Seq<int>,
    i: int,
)
    requires
        append_pointwise(ns0, end0, par0, p, kind, ns1, end1, par1),
        1 <= i < ns1.len(),
    ensures
        match ns1[i].next_sibling {
            Some(j) => i < j < ns1.len() && j == end1[i] && end1[i] < end1[par1[i]] && par1[
                j as int
            ] == par1[i],
            None => end1[i] == end1[par1[i]],
        },
{
    let n = ns0.len() as int;
    let t_opt = ns0[p].last_child;
    assert(on_chain(par0, p, p));
    if i == n {
        assert(end1[p] == n + 1);
    } else if t_opt == Some(i as usize) {
        assert(!on_chain(par0, p, i));
        assert(end0[i] == end0[p]);
        assert(end1[i] == end0[i]);
        assert(end1[p] == end0[p] + 1);
        assert(par0[i] == p);
    } else {
        if on_chain(par0, p, i) {
            assert(ns0[i].next_sibling is None);
            lemma_on_chain_up(par0, p, i);
            assert(end1[i] == end0[i] + 1);
            assert(end1[par1[i]] == end0[par0[i]] + 1);
        } else {
            assert(ns1[i] == ns0[i]);
            assert(end1[i] == end0[i]);
            match ns0[i].next_sibling {
                Some(j) => {
                    assert(i < j < n && j as int == end0[i]);
                    assert(end0[i] < end0[par0[i]]);
                    assert(end1[par1[i]] >= end0[par0[i]]);
                    assert(par1[j as int] == par0[j as int]);
                },
                None => {
                    if on_chain(par0, p, par0[i]) {
                        // i is the last child of a chain member, so it is
                        // the old tail under p or itself a chain member.
                        assert(ns0[par0[i]].last_child == Some(i as usize));
                        if par0[i] == p {
                            assert(t_opt == Some(i as usize));
                            assert(false);
                        } else {
                            lemma_chain_lc(ns0, end0, par0, p, par0[i]);
                            assert((i as usize) as int == i);
                            assert(on_chain(par0, p, i));
                            assert(false);
                        }
                    }
                    assert(end1[par1[i]] == end0[par0[i]]);
                },
            }
        }
    }
}

#[verifier::rlimit(100)]
proof fn lemma_previous_sibling_at(
    ns0: Seq<Node>,
    end0: Seq<int>,
    par0: Seq<int>,
    p: int,
    kind: NodeKind,
    ns1: Seq<Node>,
    end1: Seq<int>,
    par1: Seq<int>,
    i: int,
)
    requires
        append_pointwise(ns0, end0, par0, p, kind, ns1, end1, par1),
        1 <= i < ns1.len(),
    ensures
        match ns1[i].previous_sibling {
            Some(s) => 0 < s < i && par1[s as int] == par1[i] && end1[s as int] == i,
            None => i == par1[i] + 1,
        },
{
    let n = ns0.len() as int;
    let t_opt = ns0[p].last_child;
    assert(on_chain(par0, p, p));
    if i == n {
        match t_opt {
            Some(t) => {
                assert(!on_chain(par0, p, t as int));
                assert(end0[t as int] == end0[p]);
                assert(end1[t as int] == end0[t as int]);
            },
            None => {
                assert(end0[p] == p + 1);
            },
        }
    } else {
        assert(ns1[i].previous_sibling == ns0[i].previous_sibling);
        match ns0[i].previous_sibling {
            Some(s) => {
                assert(0 < s < i && end0[s as int] == i && par0[s as int] == par0[i]);
                if on_chain(par0, p, s as int) {
                    assert(end0[s as int] == n);
                    assert(false);
                }
                assert(end1[s as int] == end0[s as int]);
            },
            None => {},
        }
    }
}

#[verifier::rlimit(100)]
proof fn lemma_last_child_at(
    ns0: Seq<Node>,
    end0: Seq<int>,
    par0: Seq<int>,
    p: int,
    kind: NodeKind,
    ns1: Seq<Node>,
    end1: Seq<int>,
    par1: Seq<int>,
    i: int,
)
    requires
        append_pointwise(ns0, end0, par0, p, kind, ns1, end1, par1),
        0 <= i < ns1.len(),
    ensures
        match ns1[i].last_child {
            Some(l) => i < l < ns1.len() && par1[l as int] == i && end1[l as int] == end1[i],
            None => end1[i] == i + 1,
        },
{
    let n = ns0.len() as int;
    let t_opt = ns0[p].last_child;
    assert(on_chain(par0, p, p));
    if i == n {
        assert(ns1[i].last_child is None);
        assert(end1[i] == i + 1);
    } else if i == p {
        assert(ns1[p].last_child == Some(n as usize));
        assert((n as usize) as int == n);
        assert(end1[n] == n + 1 && end1[p] == n + 1);
    } else {
        assert(ns1[i].last_child == ns0[i].last_child);
        match ns0[i].last_child {
            Some(l) => {
                assert(i < l < n && par0[l as int] == i && end0[l as int] == end0[i]);
                if on_chain(par0, p, i) {
                    lemma_chain_lc(ns0, end0, par0, p, i);
                    assert(on_chain(par0, p, l as int));
                    assert(end1[l as int] == end0[l as int] + 1);
                    assert(end1[i] == end0[i] + 1);
                } else {
                    if on_chain(par0, p, l as int) {
                        lemma_on_chain_up(par0, p, l as int);
                        assert(false);
                    }
                    assert(end1[l as int] == end0[l as int]);
                    assert(end1[i] == end0[i]);
                }
            },
            None => {
                if on_chain(par0, p, i) {
                    assert(end0[i] > i + 1);
                    assert(false);
                }
                assert(end1[i] == end0[i]);
            },
        }
    }
}

#[verifier::rlimit(100)]
proof fn lemma_tail_back_at(
    ns0: Seq<Node>,
    end0: Seq<int>,
    par0: Seq<int>,
    p: int,
    kind: NodeKind,
    ns1: Seq<Node>,
    end1: Seq<int>,
    par1: Seq<int>,
    i: int,
)
    requires
        append_pointwise(ns0, end0, par0, p, kind, ns1, end1, par1),
        1 <= i < ns1.len(),
        end1[i] == end1[par1[i]],
    ensures
        ns1[par1[i]].last_child == Some(i as usize),
{
    let n = ns0.len() as int;
    let t_opt = ns0[p].last_child;
    assert(on_chain(par0, p, p));
    if i == n {
        assert(ns1[p].last_child == Some(n as usize));
    } else {
        let a = par0[i];
        if on_chain(par0, p, a) {
            if on_chain(par0, p, i) {
                lemma_chain_end(end0, par0, p, i);
                assert(end0[i] == n && end0[a] == n);
            } else {
                assert(end1[i] == end0[i] && end1[a] == end0[a] + 1);
                assert(end0[i] <= end0[a]);
                assert(false);
            }
            assert(ns0[a].last_child == Some(i as usize));
            if a == p {
                lemma_chain_end(end0, par0, p, i);
                assert(i <= p);
                assert(false);
            }
            assert(ns1[a].last_child == ns0[a].last_child);
        } else {
            if on_chain(par0, p, i) {
                lemma_on_chain_up(par0, p, i);
                assert(false);
            }
            assert(end1[i] == end0[i] && end1[a] == end0[a]);
            assert(ns0[a].last_child == Some(i as usize));
            assert(a != p);
            assert(ns1[a].last_child == ns0[a].last_child);
        }
    }
}

/// Appending a node under the open insertion point preserves the tree
/// layout invariant, with the extents on the parent chain grown by one.
proof fn lemma_append_wf(
    ns0: Seq<Node>,
    end0: Seq<int>,
    par0: Seq<int>,
    p: int,
    kind: NodeKind,
    ns1: Seq<Node>,
    end1: Seq<int>,
    par1: Seq<int>,
)
    requires
        tree_wf(ns0, end0, par0),
        ns0.len() <= usize::MAX,
        0 <= p < ns0.len(),
        end0[p] == ns0.len(),
        !(kind is Document),
        par1 == par0.push(p),
        end1 == bumped_ends(end0, par0, p).push(ns0.len() as int + 1),
        append_shape(ns0, p, kind, ns1),
    ensures
        tree_wf(ns1, end1, par1),
{
    lemma_chain_derived(ns0, end0, par0, p);
    lemma_append_pointwise(ns0, end0, par0, p, kind, ns1, end1, par1);
    lemma_append_wf_shallow(ns0, end0, par0, p, kind, ns1, end1, par1);
    let n1 = ns1.len() as int;
    assert forall|i: int| 1 <= i < n1 implies match (#[trigger] ns1[i]).next_sibling {
        Some(j) => i < j < n1 && j == end1[i] && end1[i] < end1[par1[i]] && par1[j as int]
            == par1[i],
        None => end1[i] == end1[par1[i]],
    } by {
        lemma_next_sibling_at(ns0, end0, par0, p, kind, ns1, end1, par1, i);
    }
    assert forall|i: int| 1 <= i < n1 implies match (#[trigger] ns1[i]).previous_sibling {
        Some(s) => 0 < s < i && par1[s as int] == par1[i] && end1[s as int] == i,
        None => i == par1[i] + 1,
    } by {
        lemma_previous_sibling_at(ns0, end0, par0, p, kind, ns1, end1, par1, i);
    }
    assert forall|i: int| 0 <= i < n1 implies match (#[trigger] ns1[i]).last_child {
        Some(l) => i < l < n1 && par1[l as int] == i && end1[l as int] == end1[i],
        None => end1[i] == i + 1,
    } by {
        lemma_last_child_at(ns0, end0, par0, p, kind, ns1, end1, par1, i);
    }
    assert forall|i: int| 1 <= i < n1 && end1[i] == end1[par1[i]] implies (#[trigger] ns1[par1[i]]).last_child
        == Some(i as usize) by {
        lemma_tail_back_at(ns0, end0, par0, p, kind, ns1, end1, par1, i);
    }
    assert(tree_wf(ns1, end1, par1));
}


} // verus!
