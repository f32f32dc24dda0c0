//! Tree constructor: consumes tokens one at a time, maintains an insertion
//! mode and the stack of open elements, and builds the document tree.
//!
//! Design choices of this constructor, where sources differ: text nodes are
//! appended at the true tail of a parent's child list and are never pushed
//! onto the stack of open elements (consecutive characters extend the
//! newest text child); an unmatched close tag is ignored rather than
//! trusted; a start tag outside the supported vocabulary is consumed and
//! skipped, so one unknown tag never aborts a parse. The per-mode
//! end-of-input rules stop a parse where it stands, which on their own
//! would leave a head- and body-less document without its recovery
//! skeleton; these two demands conflict, and this constructor resolves
//! the conflict by completing the implicit `html > head, body` skeleton
//! before the window is handed back (see `m_complete`).

use vstd::prelude::*;

use crate::attribute::Attribute;
use crate::chars::str_eq;
use crate::node::ElementKind;
use crate::node::element_kind_of;
use crate::node::Element;
use crate::node::Node;
use crate::node::NodeKind;
use crate::node::tree_wf;
use crate::node::Window;
use crate::node::on_chain;
use crate::node::lemma_on_chain_up;
use crate::attribute::AttributeModel;
use crate::token::attrs_view;
use crate::token::HtmlToken;
use crate::token::TokenModel;
use crate::token::LexerModel;
use crate::token::opt_tok_view;
use crate::token::HtmlTokenizer;
use crate::token::lex_fuel;
use crate::token::lex_init;
use crate::token::lex_loop;
use crate::token::lex_step;
use crate::token::lex_exhausted;
use crate::token::LexStep;
use crate::token::State;
use crate::token::lex_next;
use crate::token::lemma_loop_fuel;

verus! {

/// The tree constructor's context: how incoming tokens are interpreted.
#[derive(Debug, Clone, Copy, PartialEq, Eq, Structural)]
pub enum InsertionMode {
    Initial,
    BeforeHtml,
    BeforeHead,
    InHead,
    AfterHead,
    InBody,
    Text,
    AfterBody,
    AfterAfterBody,
}

/// One stack entry is sound: a live handle of an element whose subtree
/// reaches the end of the arena (it is still open).
pub open spec fn stack_entry_ok(ns: Seq<Node>, end: Seq<int>, s: usize) -> bool {
    &&& (s as int) < ns.len()
    &&& ns[s as int].kind is Element
    &&& end[s as int] == ns.len()
}

/// Entry `j` of the stack hangs off the entry below it (or off the
/// document root), as its last child.
pub open spec fn stack_link_at(ns: Seq<Node>, par: Seq<int>, stack: Seq<usize>, j: int) -> bool {
    let p: int = if j == 0 {
        0
    } else {
        stack[j - 1] as int
    };
    &&& par[stack[j] as int] == p
    &&& ns[p].last_child == Some(stack[j])
}

/// The stack of open elements is a chain of open element handles from the
/// document root down to the insertion point.
pub open spec fn stack_wf(ns: Seq<Node>, end: Seq<int>, par: Seq<int>, stack: Seq<usize>) -> bool {
    &&& forall|j: int| 0 <= j < stack.len() ==> stack_entry_ok(ns, end, #[trigger] stack[j])
    &&& forall|j: int| 0 <= j < stack.len() ==> #[trigger] stack_link_at(ns, par, stack, j)
}

/// The handle new nodes are inserted under: the top of the stack, or the
/// document root when the stack is empty.
pub open spec fn insertion_parent(stack: Seq<usize>) -> int {
    if stack.len() == 0 {
        0
    } else {
        stack[stack.len() - 1] as int
    }
}

/// The position of the topmost stack entry of the given element kind, or
/// a negative value when there is none.
pub open spec fn top_kind_pos(ns: Seq<Node>, stack: Seq<usize>, kind: ElementKind) -> int
    decreases stack.len(),
{
    if stack.len() == 0 {
        -1
    } else if ns[stack[stack.len() - 1] as int].spec_element_kind() == Some(kind) {
        stack.len() - 1
    } else {
        top_kind_pos(ns, stack.take(stack.len() - 1), kind)
    }
}

/// Whether some stack entry holds an element of the given kind.
pub open spec fn stack_has_kind(ns: Seq<Node>, stack: Seq<usize>, kind: ElementKind) -> bool {
    exists|j: int|
        0 <= j < stack.len() && ns[(#[trigger] stack[j]) as int].spec_element_kind() == Some(kind)
}

/// The newest text child under the insertion point, if its last child is a
/// text node.
pub open spec fn text_tail(ns: Seq<Node>, top: int) -> Option<usize> {
    match ns[top].last_child {
        Some(l) => if ns[l as int].kind is Text {
            Some(l)
        } else {
            None
        },
        None => None,
    }
}

/// Mathematical content of one tree node: what it is, the handle of its
/// parent (negative at the root) and of its last child (negative without
/// children).
pub ghost struct DomNode {
    pub kind: NodeModel,
    pub parent: int,
    pub last: int,
}

/// Mathematical content of a node kind.
pub enum NodeModel {
    Document,
    Element { kind: ElementKind, attributes: Seq<AttributeModel> },
    Text(Seq<char>),
}

/// The content of a text node model.
pub open spec fn text_seq(k: NodeModel) -> Seq<char> {
    match k {
        NodeModel::Text(s) => s,
        _ => Seq::<char>::empty(),
    }
}

pub open spec fn node_model(n: Node) -> NodeModel {
    match n.kind {
        NodeKind::Document => NodeModel::Document,
        NodeKind::Element(e) => NodeModel::Element {
            kind: e.kind,
            attributes: attrs_view(e.attributes@),
        },
        NodeKind::Text(s) => NodeModel::Text(s@),
    }
}

pub open spec fn dom_node_at(ns: Seq<Node>, par: Seq<int>, i: int) -> DomNode {
    DomNode {
        kind: node_model(ns[i]),
        parent: if i == 0 {
            -1
        } else {
            par[i]
        },
        last: match ns[i].last_child {
            Some(l) => l as int,
            None => -1,
        },
    }
}

/// The whole tree of a window, as node models in arena order.
pub open spec fn dom_view(w: Window) -> Seq<DomNode> {
    Seq::new(w.nodes@.len(), |i: int| dom_node_at(w.nodes@, w.par@, i))
}

pub open spec fn stack_view(stack: Seq<usize>) -> Seq<int> {
    stack.map_values(|s: usize| s as int)
}

/// Mathematical state of the tree constructor, short of the tokenizer.
pub ghost struct ParserModel {
    pub dom: Seq<DomNode>,
    pub stack: Seq<int>,
    pub mode: InsertionMode,
    pub orig: InsertionMode,
}

pub open spec fn m_parent(stack: Seq<int>) -> int {
    if stack.len() == 0 {
        0
    } else {
        stack[stack.len() - 1]
    }
}

/// The model of inserting an element: appended as last child of the
/// insertion point and opened on the stack.
pub open spec fn m_insert_element(
    p: ParserModel,
    kind: ElementKind,
    attributes: Seq<AttributeModel>,
) -> ParserModel {
    let q = m_parent(p.stack);
    let idx = p.dom.len() as int;
    ParserModel {
        dom: p.dom.update(q, DomNode { last: idx, ..p.dom[q] }).push(
            DomNode { kind: NodeModel::Element { kind, attributes }, parent: q, last: -1 },
        ),
        stack: p.stack.push(idx),
        ..p
    }
}

/// The model of inserting one character: extends the newest text child in
/// place, drops lone whitespace, or opens a fresh text node at the tail.
pub open spec fn m_insert_char(p: ParserModel, c: char) -> ParserModel {
    if p.stack.len() == 0 {
        p
    } else {
        let top = p.stack[p.stack.len() - 1];
        let l = p.dom[top].last;
        if 0 <= l < p.dom.len() && p.dom[l].kind is Text {
            ParserModel {
                dom: p.dom.update(
                    l,
                    DomNode { kind: NodeModel::Text(text_seq(p.dom[l].kind).push(c)), ..p.dom[l] },
                ),
                ..p
            }
        } else if c == ' ' || c == '\n' {
            p
        } else {
            let idx = p.dom.len() as int;
            ParserModel {
                dom: p.dom.update(top, DomNode { last: idx, ..p.dom[top] }).push(
                    DomNode { kind: NodeModel::Text(seq![c]), parent: top, last: -1 },
                ),
                ..p
            }
        }
    }
}

pub open spec fn m_kind_at(dom: Seq<DomNode>, i: int) -> Option<ElementKind> {
    if 0 <= i < dom.len() {
        match dom[i].kind {
            NodeModel::Element { kind, .. } => Some(kind),
            _ => None,
        }
    } else {
        None
    }
}

pub open spec fn m_has_kind(dom: Seq<DomNode>, stack: Seq<int>, kind: ElementKind) -> bool {
    exists|j: int| 0 <= j < stack.len() && m_kind_at(dom, #[trigger] stack[j]) == Some(kind)
}

pub open spec fn m_top_pos(dom: Seq<DomNode>, stack: Seq<int>, kind: ElementKind) -> int
    decreases stack.len(),
{
    if stack.len() == 0 {
        -1
    } else if m_kind_at(dom, stack[stack.len() - 1]) == Some(kind) {
        stack.len() - 1
    } else {
        m_top_pos(dom, stack.take(stack.len() - 1), kind)
    }
}

/// The model of popping until an element of `kind` has been popped; with
/// none on the stack nothing moves.
pub open spec fn m_pop_until(p: ParserModel, kind: ElementKind) -> ParserModel {
    let pos = m_top_pos(p.dom, p.stack, kind);
    if pos >= 0 {
        ParserModel { stack: p.stack.take(pos), ..p }
    } else {
        p
    }
}

/// The model of conditionally popping the current node.
pub open spec fn m_pop_current(p: ParserModel, kind: ElementKind) -> (ParserModel, bool) {
    if p.stack.len() > 0 && m_kind_at(p.dom, p.stack[p.stack.len() - 1]) == Some(kind) {
        (ParserModel { stack: p.stack.take(p.stack.len() - 1), ..p }, true)
    } else {
        (p, false)
    }
}

/// The implicit-skeleton completion at end of input. The per-mode
/// end-of-input rules stop a parse where it stands; a document whose
/// stream ends before the body was opened is still owed the implicit
/// `html > head, body` skeleton, so the missing elements are synthesized
/// before the window is handed back.
pub open spec fn m_complete(p: ParserModel) -> ParserModel {
    match p.mode {
        InsertionMode::Initial | InsertionMode::BeforeHtml => {
            let p1 = m_insert_element(p, ElementKind::Html, Seq::<AttributeModel>::empty());
            let p2 = m_insert_element(p1, ElementKind::Head, Seq::<AttributeModel>::empty());
            let p3 = m_pop_current(p2, ElementKind::Head).0;
            m_insert_element(p3, ElementKind::Body, Seq::<AttributeModel>::empty())
        },
        InsertionMode::BeforeHead => {
            let p2 = m_insert_element(p, ElementKind::Head, Seq::<AttributeModel>::empty());
            let p3 = m_pop_current(p2, ElementKind::Head).0;
            m_insert_element(p3, ElementKind::Body, Seq::<AttributeModel>::empty())
        },
        InsertionMode::InHead => {
            let p2 = if m_has_kind(p.dom, p.stack, ElementKind::Head) {
                m_pop_until(p, ElementKind::Head)
            } else {
                p
            };
            m_insert_element(p2, ElementKind::Body, Seq::<AttributeModel>::empty())
        },
        InsertionMode::AfterHead => m_insert_element(
            p,
            ElementKind::Body,
            Seq::<AttributeModel>::empty(),
        ),
        _ => p,
    }
}

/// The state a fresh constructor starts from: a lone document root, an
/// empty stack, and the initial insertion mode.
pub open spec fn initial_parser_model() -> ParserModel {
    ParserModel {
        dom: seq![DomNode { kind: NodeModel::Document, parent: -1, last: -1 }],
        stack: Seq::<int>::empty(),
        mode: InsertionMode::Initial,
        orig: InsertionMode::Initial,
    }
}

/// The implicit skeleton alone: a document whose single child is an html
/// element holding an empty head and then an empty body.
pub open spec fn skeleton_dom() -> Seq<DomNode> {
    seq![
        DomNode { kind: NodeModel::Document, parent: -1, last: 1 },
        DomNode {
            kind: NodeModel::Element {
                kind: ElementKind::Html,
                attributes: Seq::<AttributeModel>::empty(),
            },
            parent: 0,
            last: 3,
        },
        DomNode {
            kind: NodeModel::Element {
                kind: ElementKind::Head,
                attributes: Seq::<AttributeModel>::empty(),
            },
            parent: 1,
            last: -1,
        },
        DomNode {
            kind: NodeModel::Element {
                kind: ElementKind::Body,
                attributes: Seq::<AttributeModel>::empty(),
            },
            parent: 1,
            last: -1,
        },
    ]
}

/// Rank of an insertion mode along the constructor's forward progress;
/// every re-dispatch of a held token strictly descends.
pub open spec fn mode_rank(mode: InsertionMode) -> int {
    match mode {
        InsertionMode::Initial => 9,
        InsertionMode::BeforeHtml => 8,
        InsertionMode::BeforeHead => 7,
        InsertionMode::Text => 6,
        InsertionMode::InHead => 5,
        InsertionMode::AfterHead => 4,
        InsertionMode::InBody => 3,
        InsertionMode::AfterBody => 2,
        InsertionMode::AfterAfterBody => 1,
    }
}

/// What one dispatch of a token does: move to the next token, reprocess
/// the same token under a new mode, or finish the parse.
pub enum ParseStep {
    Advance(ParserModel),
    Hold(ParserModel),
    Done,
}

/// The instruction one dispatch hands back to the driving loop.
pub enum StepOutcome {
    Advance,
    Hold,
    Finish,
}

/// Whitespace as the tree constructor sees it.
pub open spec fn is_ws(c: char) -> bool {
    c == ' ' || c == '\n'
}

/// One dispatch of the tree constructor: the per-mode insertion rules.
#[verifier::opaque]
pub open spec fn parse_step(p: ParserModel, t: TokenModel) -> ParseStep {
    match p.mode {
        InsertionMode::Initial => match t {
            TokenModel::Char(_) => ParseStep::Advance(p),
            _ => ParseStep::Hold(ParserModel { mode: InsertionMode::BeforeHtml, ..p }),
        },
        InsertionMode::BeforeHtml => {
            let implicit = ParserModel {
                mode: InsertionMode::BeforeHead,
                ..m_insert_element(p, ElementKind::Html, Seq::<AttributeModel>::empty())
            };
            match t {
                TokenModel::Char(c) => if is_ws(c) {
                    ParseStep::Advance(p)
                } else {
                    ParseStep::Hold(implicit)
                },
                TokenModel::StartTag { tag, attributes, .. } => if tag == "html"@ {
                    ParseStep::Advance(
                        ParserModel {
                            mode: InsertionMode::BeforeHead,
                            ..m_insert_element(p, ElementKind::Html, attributes)
                        },
                    )
                } else {
                    ParseStep::Hold(implicit)
                },
                _ => ParseStep::Hold(implicit),
            }
        },
        InsertionMode::BeforeHead => {
            let implicit = ParserModel {
                mode: InsertionMode::InHead,
                ..m_insert_element(p, ElementKind::Head, Seq::<AttributeModel>::empty())
            };
            match t {
                TokenModel::Char(c) => if is_ws(c) {
                    ParseStep::Advance(p)
                } else {
                    ParseStep::Hold(implicit)
                },
                TokenModel::StartTag { tag, attributes, .. } => if tag == "head"@ {
                    ParseStep::Advance(
                        ParserModel {
                            mode: InsertionMode::InHead,
                            ..m_insert_element(p, ElementKind::Head, attributes)
                        },
                    )
                } else {
                    ParseStep::Hold(implicit)
                },
                TokenModel::Eof => ParseStep::Done,
                _ => ParseStep::Hold(implicit),
            }
        },
        InsertionMode::InHead => match t {
            TokenModel::Char(_) => ParseStep::Advance(p),
            TokenModel::StartTag { tag, attributes, .. } => if tag == "style"@ {
                ParseStep::Advance(
                    ParserModel {
                        mode: InsertionMode::Text,
                        orig: p.mode,
                        ..m_insert_element(p, ElementKind::Style, attributes)
                    },
                )
            } else if tag == "script"@ {
                ParseStep::Advance(
                    ParserModel {
                        mode: InsertionMode::Text,
                        orig: p.mode,
                        ..m_insert_element(p, ElementKind::Script, attributes)
                    },
                )
            } else if tag == "body"@ {
                ParseStep::Advance(
                    ParserModel {
                        mode: InsertionMode::AfterHead,
                        ..m_insert_element(p, ElementKind::Head, Seq::<AttributeModel>::empty())
                    },
                )
            } else {
                ParseStep::Advance(p)
            },
            TokenModel::EndTag { tag } => if tag == "head"@ {
                let p2 = if m_has_kind(p.dom, p.stack, ElementKind::Head) {
                    m_pop_until(p, ElementKind::Head)
                } else {
                    p
                };
                ParseStep::Advance(ParserModel { mode: InsertionMode::AfterHead, ..p2 })
            } else {
                ParseStep::Advance(p)
            },
            TokenModel::Eof => ParseStep::Done,
        },
        InsertionMode::AfterHead => {
            let implicit = ParserModel {
                mode: InsertionMode::InBody,
                ..m_insert_element(p, ElementKind::Body, Seq::<AttributeModel>::empty())
            };
            match t {
                TokenModel::Char(c) => if is_ws(c) {
                    ParseStep::Advance(p)
                } else {
                    ParseStep::Hold(implicit)
                },
                TokenModel::StartTag { tag, attributes, .. } => if tag == "body"@ {
                    ParseStep::Advance(
                        ParserModel {
                            mode: InsertionMode::InBody,
                            ..m_insert_element(p, ElementKind::Body, attributes)
                        },
                    )
                } else {
                    ParseStep::Hold(implicit)
                },
                TokenModel::Eof => ParseStep::Done,
                _ => ParseStep::Hold(implicit),
            }
        },
        InsertionMode::InBody => match t {
            TokenModel::Char(c) => ParseStep::Advance(m_insert_char(p, c)),
            TokenModel::StartTag { tag, attributes, .. } => if tag == "p"@ {
                ParseStep::Advance(m_insert_element(p, ElementKind::P, attributes))
            } else if tag == "h1"@ {
                ParseStep::Advance(m_insert_element(p, ElementKind::H1, attributes))
            } else if tag == "h2"@ {
                ParseStep::Advance(m_insert_element(p, ElementKind::H2, attributes))
            } else {
                ParseStep::Advance(p)
            },
            TokenModel::EndTag { tag } => if tag == "body"@ {
                let p2 = if m_has_kind(p.dom, p.stack, ElementKind::Body) {
                    m_pop_until(p, ElementKind::Body)
                } else {
                    p
                };
                ParseStep::Advance(ParserModel { mode: InsertionMode::AfterBody, ..p2 })
            } else if tag == "html"@ {
                let popped = m_pop_current(p, ElementKind::Body);
                if popped.1 {
                    ParseStep::Hold(
                        ParserModel {
                            mode: InsertionMode::AfterBody,
                            ..m_pop_current(popped.0, ElementKind::Html).0
                        },
                    )
                } else {
                    ParseStep::Advance(p)
                }
            } else {
                ParseStep::Advance(p)
            },
            TokenModel::Eof => ParseStep::Done,
        },
        InsertionMode::Text => match t {
            TokenModel::Eof => ParseStep::Done,
            TokenModel::EndTag { tag } => if tag == "style"@ {
                let p2 = if m_has_kind(p.dom, p.stack, ElementKind::Style) {
                    m_pop_until(p, ElementKind::Style)
                } else {
                    p
                };
                ParseStep::Advance(ParserModel { mode: p.orig, ..p2 })
            } else if tag == "script"@ {
                let p2 = if m_has_kind(p.dom, p.stack, ElementKind::Script) {
                    m_pop_until(p, ElementKind::Script)
                } else {
                    p
                };
                ParseStep::Advance(ParserModel { mode: p.orig, ..p2 })
            } else {
                ParseStep::Hold(ParserModel { mode: p.orig, ..p })
            },
            TokenModel::Char(c) => ParseStep::Advance(m_insert_char(p, c)),
            _ => ParseStep::Hold(ParserModel { mode: p.orig, ..p }),
        },
        InsertionMode::AfterBody => match t {
            TokenModel::Char(_) => ParseStep::Advance(p),
            TokenModel::EndTag { tag } => if tag == "html"@ {
                ParseStep::Advance(ParserModel { mode: InsertionMode::AfterAfterBody, ..p })
            } else {
                ParseStep::Hold(ParserModel { mode: InsertionMode::AfterAfterBody, ..p })
            },
            TokenModel::Eof => ParseStep::Done,
            _ => ParseStep::Hold(ParserModel { mode: InsertionMode::AfterAfterBody, ..p }),
        },
        InsertionMode::AfterAfterBody => match t {
            TokenModel::Char(_) => ParseStep::Advance(p),
            TokenModel::Eof => ParseStep::Done,
            _ => ParseStep::Advance(p),
        },
    }
}

/// The tree constructor's whole run from a scanner state, a token in hand
/// and a parser state: the final parser state once the stream is drained.
pub open spec fn parse_all(lex: LexerModel, cur: Option<TokenModel>, p: ParserModel) -> ParserModel
    decreases lex_fuel(lex), (if cur is Some {
        1int
    } else {
        0int
    }), mode_rank(p.mode)
        when (p.mode is Text ==> p.orig is InHead)
        via parse_all_decreases
{
    match cur {
        None => m_complete(p),
        Some(t) => match parse_step(p, t) {
            ParseStep::Done => m_complete(p),
            ParseStep::Hold(p2) => parse_all(lex, cur, p2),
            ParseStep::Advance(p2) => {
                let n2 = lex_next(lex);
                parse_all(n2.0, n2.1, p2)
            },
        },
    }
}

#[via_fn]
proof fn parse_all_decreases(lex: LexerModel, cur: Option<TokenModel>, p: ParserModel) {
    reveal(parse_step);
    lemma_loop_fuel(lex);
}

/// The model of a whole parse: the tokenizer's first move, then the run.
pub open spec fn parse_run(lex: LexerModel, p: ParserModel) -> ParserModel {
    let first = lex_next(lex);
    parse_all(first.0, first.1, p)
}

/// The tree constructor.
pub struct HtmlParser {
    pub window: Window,
    pub mode: InsertionMode,
    pub original_insertion_mode: InsertionMode,
    pub stack_of_open_elements: Vec<usize>,
    pub t: HtmlTokenizer,
}

impl HtmlParser {
    pub open spec fn wf(&self) -> bool {
        &&& self.window.wf()
        &&& self.t.wf()
        &&& stack_wf(
            self.window.nodes@,
            self.window.end@,
            self.window.par@,
            self.stack_of_open_elements@,
        )
        &&& (self.mode is Text ==> self.original_insertion_mode is InHead)
    }

    /// Mathematical state of this constructor, short of its tokenizer.
    pub open spec fn model(&self) -> ParserModel {
        ParserModel {
            dom: dom_view(self.window),
            stack: stack_view(self.stack_of_open_elements@),
            mode: self.mode,
            orig: self.original_insertion_mode,
        }
    }

    /// A constructor over the given tokenizer, with an empty document.
    pub fn new(t: HtmlTokenizer) -> (p: HtmlParser)
        requires
            t.wf(),
        ensures
            p.wf(),
            p.window.nodes@.len() == 1,
            p.window.nodes@[0].kind is Document,
            p.window.nodes@[0].first_child is None,
            p.mode == InsertionMode::Initial,
            p.original_insertion_mode == InsertionMode::Initial,
            p.stack_of_open_elements@ == Seq::<usize>::empty(),
            p.model() == initial_parser_model(),
            p.t == t,
    {
        let p = HtmlParser {
            window: Window::new(),
            mode: InsertionMode::Initial,
            original_insertion_mode: InsertionMode::Initial,
            stack_of_open_elements: Vec::new(),
            t,
        };
        proof {
            assert(dom_view(p.window) =~= initial_parser_model().dom);
            assert(stack_view(p.stack_of_open_elements@) =~= Seq::<int>::empty());
        }
        p
    }

    /// A fresh element node for the given tag, not yet linked anywhere.
    pub fn create_element(&self, tag: &str, attributes: Vec<Attribute>) -> (n: Node)
        requires
            element_kind_of(tag@) is Some,
        ensures
            n.kind matches NodeKind::Element(e) && Some(e.kind) == element_kind_of(tag@)
                && e.attributes == attributes,
            n.first_child is None,
            n.next_sibling is None,
    {
        Node::new(NodeKind::Element(Element::new(tag, attributes)))
    }

    /// Appends an element for the given tag as the last child of the
    /// current insertion point and opens it on the stack.
    pub fn insert_element(&mut self, tag: &str, attributes: Vec<Attribute>)
        requires
            old(self).wf(),
            element_kind_of(tag@) is Some,
        ensures
            final(self).wf(),
            final(self).mode == old(self).mode,
            final(self).original_insertion_mode == old(self).original_insertion_mode,
            final(self).t == old(self).t,
            ({
                let w0 = old(self).window;
                let w1 = final(self).window;
                let idx = w0.nodes@.len() as int;
                &&& w1.nodes@.len() == idx + 1
                &&& (w1.nodes@[idx].kind matches NodeKind::Element(e) && Some(e.kind)
                    == element_kind_of(tag@) && e.attributes == attributes)
                &&& w1.par@ == w0.par@.push(insertion_parent(old(self).stack_of_open_elements@))
                &&& (forall|j: int|
                    0 <= j < idx ==> (#[trigger] w1.nodes@[j]).kind == w0.nodes@[j].kind)
                &&& final(self).stack_of_open_elements@ == old(
                    self,
                ).stack_of_open_elements@.push(idx as usize)
            }),
            (element_kind_of(tag@) matches Some(k) ==> final(self).model() == m_insert_element(
                old(self).model(),
                k,
                attrs_view(attributes@),
            )),
    {
        let ghost ns0 = self.window.nodes@;
        let ghost end0 = self.window.end@;
        let ghost par0 = self.window.par@;
        let ghost stack0 = self.stack_of_open_elements@;
        let k = self.stack_of_open_elements.len();
        let parent: usize = if k == 0 {
            self.window.document()
        } else {
            self.stack_of_open_elements[k - 1]
        };
        proof {
            if k > 0 {
                assert(stack_entry_ok(ns0, end0, stack0[k - 1]));
            }
        }
        let node = self.create_element(tag, attributes);
        let idx = self.window.append_node(node.kind, parent);
        self.stack_of_open_elements.push(idx);
        proof {
            let ns1 = self.window.nodes@;
            let end1 = self.window.end@;
            let par1 = self.window.par@;
            let stack1 = self.stack_of_open_elements@;
            let n = ns0.len() as int;
            let p = parent as int;
            assert forall|j: int| 0 <= j < stack1.len() implies stack_entry_ok(ns1, end1, #[trigger] stack1[j]) by {
                if j < stack0.len() {
                    assert(stack_entry_ok(ns0, end0, stack0[j]));
                    lemma_stack_on_chain(ns0, end0, par0, stack0, j);
                    assert(on_chain(par0, p, stack0[j] as int));
                    assert(end1[stack0[j] as int] == end0[stack0[j] as int] + 1);
                }
            }
            assert forall|j: int| 0 <= j < stack1.len() implies #[trigger] stack_link_at(
                ns1,
                par1,
                stack1,
                j,
            ) by {
                if j < stack0.len() {
                    assert(stack_link_at(ns0, par0, stack0, j));
                    if j > 0 {
                        lemma_stack_increasing(ns0, end0, par0, stack0, j - 1, stack0.len() - 1);
                    }
                }
            }
            assert(self.wf());
            // the appended node has no children yet
            assert(self.window.nodes@[n].last_child is None) by {
                match self.window.nodes@[n].last_child {
                    Some(l) => {
                        assert(n < l < n + 1);
                    },
                    None => {},
                }
            }
            let m0 = old(self).model();
            let k = match element_kind_of(tag@) {
                Some(k) => k,
                None => ElementKind::Html,
            };
            let q = insertion_parent(stack0);
            let target = m_insert_element(m0, k, attrs_view(attributes@));
            assert(m_parent(m0.stack) == q) by {
                if stack0.len() > 0 {
                    assert(m0.stack[m0.stack.len() - 1] == stack0[stack0.len() - 1] as int);
                }
            }
            assert(0 <= q < n) by {
                if stack0.len() > 0 {
                    assert(stack_entry_ok(ns0, end0, stack0[stack0.len() - 1]));
                }
            }
            assert forall|j: int| 0 <= j < dom_view(self.window).len() implies #[trigger] dom_view(
                self.window,
            )[j] == target.dom[j] by {
                if j == n {
                    assert(par1[n] == q);
                } else if j == q {
                    assert(self.window.nodes@[q].last_child == Some(idx));
                    assert((idx as int) == n);
                } else {
                    assert(self.window.nodes@[j].kind == ns0[j].kind);
                    assert(self.window.nodes@[j].last_child == ns0[j].last_child);
                    assert(par1[j] == par0[j]);
                }
            }
            assert(dom_view(self.window) =~= target.dom);
            assert(stack_view(self.stack_of_open_elements@) =~= m0.stack.push(n));
            assert(self.model() == target);
        }
    }

    /// Pops the current node when it is an element of the given kind;
    /// reports whether it did.
    pub fn pop_current_node(&mut self, kind: ElementKind) -> (r: bool)
        requires
            old(self).wf(),
        ensures
            final(self).wf(),
            final(self).window == old(self).window,
            final(self).mode == old(self).mode,
            final(self).original_insertion_mode == old(self).original_insertion_mode,
            final(self).t == old(self).t,
            ({
                let stack = old(self).stack_of_open_elements@;
                let ns = old(self).window.nodes@;
                if stack.len() > 0 && ns[stack[stack.len() - 1] as int].spec_element_kind() == Some(
                    kind,
                ) {
                    r && final(self).stack_of_open_elements@ == stack.take(stack.len() - 1)
                } else {
                    !r && final(self).stack_of_open_elements@ == stack
                }
            }),
            ({
                let m = m_pop_current(old(self).model(), kind);
                final(self).model() == m.0 && r == m.1
            }),
    {
        let k = self.stack_of_open_elements.len();
        if k == 0 {
            return false;
        }
        let current = self.stack_of_open_elements[k - 1];
        proof {
            assert(stack_entry_ok(self.window.nodes@, self.window.end@, self.stack_of_open_elements@[k - 1]));
            assert(old(self).model().stack[k - 1] == current as int);
        }
        let matches_kind = match self.window.node(current).element_kind() {
            Some(found) => found == kind,
            None => false,
        };
        if matches_kind {
            let ghost stack0 = self.stack_of_open_elements@;
            self.stack_of_open_elements.pop();
            proof {
                lemma_stack_prefix_wf(
                    self.window.nodes@,
                    self.window.end@,
                    self.window.par@,
                    stack0,
                    stack0.len() - 1,
                );
                assert(stack_view(self.stack_of_open_elements@) =~= old(self).model().stack.take(
                    k - 1,
                ));
            }
            return true;
        }
        false
    }

    /// Pops stack entries until an element of the given kind has been
    /// popped; that kind must be present on the stack.
    pub fn pop_until(&mut self, kind: ElementKind)
        requires
            old(self).wf(),
            stack_has_kind(old(self).window.nodes@, old(self).stack_of_open_elements@, kind),
        ensures
            final(self).wf(),
            final(self).window == old(self).window,
            final(self).mode == old(self).mode,
            final(self).original_insertion_mode == old(self).original_insertion_mode,
            final(self).t == old(self).t,
            final(self).stack_of_open_elements@ == old(self).stack_of_open_elements@.take(
                top_kind_pos(old(self).window.nodes@, old(self).stack_of_open_elements@, kind),
            ),
            final(self).model() == m_pop_until(old(self).model(), kind),
    {
        let ghost ns = self.window.nodes@;
        let ghost end = self.window.end@;
        let ghost par = self.window.par@;
        let ghost stack0 = self.stack_of_open_elements@;
        proof {
            lemma_top_kind_pos_bounds(ns, stack0, kind);
            lemma_top_pos_eq(ns, stack0, dom_view(self.window), kind);
            lemma_has_kind_eq(ns, stack0, dom_view(self.window), kind);
        }
        loop
            invariant_except_break
                self.stack_of_open_elements@.len() >= 1,
                top_kind_pos(ns, self.stack_of_open_elements@, kind) == top_kind_pos(
                    ns,
                    stack0,
                    kind,
                ),
                top_kind_pos(ns, self.stack_of_open_elements@, kind) >= 0,
            invariant
                self.wf(),
                self.window == old(self).window,
                self.mode == old(self).mode,
                self.original_insertion_mode == old(self).original_insertion_mode,
                self.t == old(self).t,
                ns == self.window.nodes@,
                end == self.window.end@,
                par == self.window.par@,
                self.stack_of_open_elements@.len() <= stack0.len(),
                self.stack_of_open_elements@ == stack0.take(
                    self.stack_of_open_elements@.len() as int,
                ),
            ensures
                self.stack_of_open_elements@ == stack0.take(top_kind_pos(ns, stack0, kind)),
            decreases self.stack_of_open_elements@.len(),
        {
            let k = self.stack_of_open_elements.len();
            let ghost cur = self.stack_of_open_elements@;
            let current = self.stack_of_open_elements[k - 1];
            proof {
                assert(stack_entry_ok(ns, end, cur[k - 1]));
            }
            let matches_kind = match self.window.node(current).element_kind() {
                Some(found) => found == kind,
                None => false,
            };
            self.stack_of_open_elements.pop();
            proof {
                lemma_stack_prefix_wf(ns, end, par, cur, cur.len() - 1);
                assert(cur.len() <= stack0.len());
                assert forall|i: int| 0 <= i < cur.len() - 1 implies (#[trigger] cur.take(
                    cur.len() - 1,
                )[i]) == stack0.take(cur.len() - 1)[i] by {
                    assert(cur.take(cur.len() - 1)[i] == cur[i]);
                    assert(cur[i] == stack0.take(cur.len() as int)[i]);
                    assert(stack0.take(cur.len() as int)[i] == stack0[i]);
                    assert(stack0.take(cur.len() - 1)[i] == stack0[i]);
                }
                assert(cur.take(cur.len() - 1) =~= stack0.take(cur.len() - 1));
            }
            if matches_kind {
                proof {
                    assert(top_kind_pos(ns, cur, kind) == cur.len() - 1);
                }
                break ;
            }
            proof {
                assert(cur.take(cur.len() - 1) == self.stack_of_open_elements@);
                assert(top_kind_pos(ns, self.stack_of_open_elements@, kind) == top_kind_pos(
                    ns,
                    cur,
                    kind,
                ));
                lemma_top_kind_pos_bounds(ns, self.stack_of_open_elements@, kind);
            }
        }
        proof {
            assert(stack_view(self.stack_of_open_elements@) =~= stack_view(stack0).take(
                top_kind_pos(ns, stack0, kind),
            ));
            assert(self.model() == m_pop_until(old(self).model(), kind));
        }
    }

    /// Whether an element of the given kind is open on the stack.
    pub fn contain_in_stack(&self, element_kind: ElementKind) -> (r: bool)
        requires
            self.wf(),
        ensures
            r == stack_has_kind(self.window.nodes@, self.stack_of_open_elements@, element_kind),
            r == m_has_kind(
                dom_view(self.window),
                stack_view(self.stack_of_open_elements@),
                element_kind,
            ),
    {
        proof {
            assert forall|j: int| 0 <= j < self.stack_of_open_elements@.len() implies (#[trigger]
                self.stack_of_open_elements@[j] as int) < self.window.nodes@.len() by {
                assert(stack_entry_ok(
                    self.window.nodes@,
                    self.window.end@,
                    self.stack_of_open_elements@[j],
                ));
            }
            lemma_has_kind_eq(
                self.window.nodes@,
                self.stack_of_open_elements@,
                dom_view(self.window),
                element_kind,
            );
        }
        let k = self.stack_of_open_elements.len();
        let mut i: usize = 0;
        while i < k
            invariant
                self.wf(),
                k == self.stack_of_open_elements@.len(),
                i <= k,
                m_has_kind(
                    dom_view(self.window),
                    stack_view(self.stack_of_open_elements@),
                    element_kind,
                ) == stack_has_kind(
                    self.window.nodes@,
                    self.stack_of_open_elements@,
                    element_kind,
                ),
                forall|j: int|
                    0 <= j < i ==> self.window.nodes@[(#[trigger] self.stack_of_open_elements@[j]) as int].spec_element_kind()
                        != Some(element_kind),
            decreases k - i,
        {
            proof {
                assert(stack_entry_ok(
                    self.window.nodes@,
                    self.window.end@,
                    self.stack_of_open_elements@[i as int],
                ));
            }
            let handle = self.stack_of_open_elements[i];
            let found = match self.window.node(handle).element_kind() {
                Some(found) => found == element_kind,
                None => false,
            };
            if found {
                return true;
            }
            i = i + 1;
        }
        false
    }

    /// A fresh text node holding one character, not yet linked anywhere.
    pub fn create_char(&self, c: char) -> (n: Node)
        ensures
            n.kind matches NodeKind::Text(s) && s@ == seq![c],
            n.first_child is None,
            n.next_sibling is None,
    {
        let mut s = String::new();
        crate::chars::push_char(&mut s, c);
        proof {
            assert(s@ =~= seq![c]);
        }
        Node::new(NodeKind::Text(s))
    }

    /// Inserts one character under the insertion point: appended in place
    /// when the newest child there is a text node; dropped when it is
    /// whitespace with no text node to extend; otherwise opening a fresh
    /// text node at the tail of the child list. With nothing on the stack
    /// the character is dropped. Text nodes never enter the stack of open
    /// elements.
    pub fn insert_char(&mut self, c: char)
        requires
            old(self).wf(),
        ensures
            final(self).wf(),
            final(self).mode == old(self).mode,
            final(self).original_insertion_mode == old(self).original_insertion_mode,
            final(self).t == old(self).t,
            final(self).stack_of_open_elements@ == old(self).stack_of_open_elements@,
            ({
                let w0 = old(self).window;
                let w1 = final(self).window;
                let stack = old(self).stack_of_open_elements@;
                if stack.len() == 0 {
                    w1 == w0
                } else {
                    let top = stack[stack.len() - 1] as int;
                    match text_tail(w0.nodes@, top) {
                        Some(l) => {
                            &&& w1.nodes@.len() == w0.nodes@.len()
                            &&& w1.nodes@[l as int].kind is Text
                            &&& Window::spec_text(w1.nodes@[l as int].kind) == Window::spec_text(
                                w0.nodes@[l as int].kind,
                            ).push(c)
                            &&& (forall|j: int|
                                0 <= j < w0.nodes@.len() && j != l as int ==> #[trigger] w1.nodes@[j]
                                    == w0.nodes@[j])
                        },
                        None => {
                            if c == ' ' || c == '\n' {
                                w1 == w0
                            } else {
                                let idx = w0.nodes@.len() as int;
                                &&& w1.nodes@.len() == idx + 1
                                &&& (w1.nodes@[idx].kind matches NodeKind::Text(s) && s@ == seq![c])
                                &&& w1.par@ == w0.par@.push(top)
                            }
                        },
                    }
                }
            }),
            final(self).model() == m_insert_char(old(self).model(), c),
    {
        let k = self.stack_of_open_elements.len();
        if k == 0 {
            return ;
        }
        let current = self.stack_of_open_elements[k - 1];
        proof {
            assert(stack_entry_ok(
                self.window.nodes@,
                self.window.end@,
                self.stack_of_open_elements@[k - 1],
            ));
        }
        let tail = self.window.node(current).last_child();
        let tail_text: Option<usize> = match tail {
            Some(l) => {
                proof {
                    assert(stack_link_at(
                        self.window.nodes@,
                        self.window.par@,
                        self.stack_of_open_elements@,
                        k - 1,
                    ));
                }
                let is_text = match self.window.node(l).kind() {
                    NodeKind::Text(_) => true,
                    _ => false,
                };
                if is_text {
                    Some(l)
                } else {
                    None
                }
            },
            None => None,
        };
        match tail_text {
            Some(l) => {
                let ghost ns0 = self.window.nodes@;
                let ghost m0 = old(self).model();
                self.window.append_text_char(l, c);
                proof {
                    lemma_stack_same_shape(
                        ns0,
                        self.window.nodes@,
                        self.window.end@,
                        self.window.par@,
                        self.stack_of_open_elements@,
                    );
                    assert(self.wf());
                    let top = m0.stack[m0.stack.len() - 1];
                    assert(top == current as int);
                    assert(m0.dom[top].last == l as int);
                    assert(m0.dom[l as int].kind is Text);
                    assert forall|j: int| 0 <= j < dom_view(self.window).len() implies #[trigger]
                        dom_view(self.window)[j] == m_insert_char(m0, c).dom[j] by {
                        if j == l as int {
                        } else {
                            assert(self.window.nodes@[j] == ns0[j]);
                        }
                    }
                    assert(dom_view(self.window) =~= m_insert_char(m0, c).dom);
                    assert(self.model() == m_insert_char(m0, c));
                }
            },
            None => {
                if c == ' ' || c == '\n' {
                    return ;
                }
                let node = self.create_char(c);
                let ghost ns0 = self.window.nodes@;
                let ghost end0 = self.window.end@;
                let ghost par0 = self.window.par@;
                let ghost stack0 = self.stack_of_open_elements@;
                let ghost m0 = old(self).model();
                let idx = self.window.append_node(node.kind, current);
                proof {
                    let ns1 = self.window.nodes@;
                    let end1 = self.window.end@;
                    let par1 = self.window.par@;
                    let p = current as int;
                    assert forall|j: int| 0 <= j < stack0.len() implies stack_entry_ok(ns1, end1, #[trigger] stack0[j]) by {
                        assert(stack_entry_ok(ns0, end0, stack0[j]));
                        lemma_stack_on_chain(ns0, end0, par0, stack0, j);
                        assert(on_chain(par0, p, stack0[j] as int));
                        assert(end1[stack0[j] as int] == end0[stack0[j] as int] + 1);
                    }
                    assert forall|j: int| 0 <= j < stack0.len() implies #[trigger] stack_link_at(
                        ns1,
                        par1,
                        stack0,
                        j,
                    ) by {
                        assert(stack_link_at(ns0, par0, stack0, j));
                        if j > 0 {
                            lemma_stack_increasing(ns0, end0, par0, stack0, j - 1, stack0.len() - 1);
                        }
                    }
                    assert(self.wf());
                    let n = ns0.len() as int;
                    assert(self.window.nodes@[n].last_child is None) by {
                        match self.window.nodes@[n].last_child {
                            Some(l) => {
                                assert(n < l < n + 1);
                            },
                            None => {},
                        }
                    }
                    let top = m0.stack[m0.stack.len() - 1];
                    assert(top == p);
                    assert(m0.dom[top].last == (match ns0[p].last_child {
                        Some(l) => l as int,
                        None => -1,
                    }));
                    // the tail under the insertion point is no text node here
                    assert(!(0 <= m0.dom[top].last < m0.dom.len() && m0.dom[top].last >= 0
                        && m0.dom[m0.dom[top].last].kind is Text)) by {
                        match ns0[p].last_child {
                            Some(l) => {
                                assert(stack_entry_ok(ns0, end0, stack0[k - 1]));
                                assert((l as int) < n);
                                assert(!(ns0[l as int].kind is Text));
                            },
                            None => {},
                        }
                    }
                    assert forall|j: int| 0 <= j < dom_view(self.window).len() implies #[trigger]
                        dom_view(self.window)[j] == m_insert_char(m0, c).dom[j] by {
                        if j == n {
                            assert(par1[n] == p);
                        } else if j == p {
                            assert(self.window.nodes@[p].last_child == Some(idx));
                        } else {
                            assert(self.window.nodes@[j].kind == ns0[j].kind);
                            assert(self.window.nodes@[j].last_child == ns0[j].last_child);
                            assert(par1[j] == par0[j]);
                        }
                    }
                    assert(dom_view(self.window) =~= m_insert_char(m0, c).dom);
                    assert(self.model() == m_insert_char(m0, c));
                }
            },
        }
    }

    /// One call of the tokenizer, with the rest of the constructor left
    /// untouched. A token in hand means the scanner burned fuel.
    fn advance(&mut self) -> (r: Option<HtmlToken>)
        requires
            old(self).wf(),
        ensures
            final(self).wf(),
            final(self).window == old(self).window,
            final(self).mode == old(self).mode,
            final(self).original_insertion_mode == old(self).original_insertion_mode,
            final(self).stack_of_open_elements == old(self).stack_of_open_elements,
            final(self).model() == old(self).model(),
            (final(self).t@, opt_tok_view(r)) == lex_next(old(self).t@),
            r is Some ==> lex_fuel(final(self).t@) < lex_fuel(old(self).t@),
            r is None ==> final(self).t@ == old(self).t@,
    {
        let ghost t0 = self.t@;
        let r = self.t.next();
        proof {
            lemma_loop_fuel(t0);
        }
        r
    }

    /// Synthesizes whatever of the implicit `html > head, body` skeleton
    /// is still missing when the token stream ends before the body was
    /// opened. Follows the completion `m_complete` exactly.
    fn complete_skeleton(&mut self)
        requires
            old(self).wf(),
        ensures
            final(self).wf(),
            final(self).t == old(self).t,
            final(self).model() == m_complete(old(self).model()),
    {
        proof {
            lemma_tag_literals();
            assert(attrs_view(Seq::<Attribute>::empty()) =~= Seq::<AttributeModel>::empty());
        }
        match self.mode {
            InsertionMode::Initial | InsertionMode::BeforeHtml => {
                self.insert_element("html", Vec::new());
                self.insert_element("head", Vec::new());
                self.pop_current_node(ElementKind::Head);
                self.insert_element("body", Vec::new());
            },
            InsertionMode::BeforeHead => {
                self.insert_element("head", Vec::new());
                self.pop_current_node(ElementKind::Head);
                self.insert_element("body", Vec::new());
            },
            InsertionMode::InHead => {
                if self.contain_in_stack(ElementKind::Head) {
                    self.pop_until(ElementKind::Head);
                }
                self.insert_element("body", Vec::new());
            },
            InsertionMode::AfterHead => {
                self.insert_element("body", Vec::new());
            },
            _ => {},
        }
    }

    /// One dispatch of the token in hand under the current insertion mode:
    /// performs the mode's insertions and pops, and says whether to move to
    /// the next token, reprocess this one, or finish. Follows the dispatch
    /// function `parse_step` exactly; a reprocessed token always finds a
    /// mode of strictly smaller rank.
    #[verifier::rlimit(100)]
    fn dispatch(&mut self, token: &Option<HtmlToken>) -> (r: StepOutcome)
        requires
            old(self).wf(),
            *token is Some,
        ensures
            final(self).wf(),
            final(self).t == old(self).t,
            match r {
                StepOutcome::Advance => (opt_tok_view(*token) matches Some(t) && parse_step(
                    old(self).model(),
                    t,
                ) == ParseStep::Advance(final(self).model())),
                StepOutcome::Hold => (opt_tok_view(*token) matches Some(t) && parse_step(
                    old(self).model(),
                    t,
                ) == ParseStep::Hold(final(self).model())) && mode_rank(final(self).mode)
                    < mode_rank(old(self).mode),
                StepOutcome::Finish => (opt_tok_view(*token) matches Some(t) && parse_step(
                    old(self).model(),
                    t,
                ) == ParseStep::Done) && *final(self) == *old(self),
            },
    {
        let ghost p_pre = self.model();
        let ghost tv = opt_tok_view(*token);
        proof {
            lemma_tag_literals();
            assert(attrs_view(Seq::<Attribute>::empty()) =~= Seq::<AttributeModel>::empty());
        }
        match self.mode {
            InsertionMode::Initial => {
                // Character tokens here are unsupported doctype residue;
                // everything else moves on, unconsumed.
                match token {
                    Some(HtmlToken::Char(_)) => {
                        proof {
                            reveal(parse_step);
                        }
                        return StepOutcome::Advance;
                    },
                    _ => {},
                }
                self.mode = InsertionMode::BeforeHtml;
                proof {
                    reveal(parse_step);
                }
                StepOutcome::Hold
            },
            InsertionMode::BeforeHtml => {
                match token {
                    Some(HtmlToken::Char(c)) => {
                        if *c == ' ' || *c == '\n' {
                            proof {
                                reveal(parse_step);
                            }
                            return StepOutcome::Advance;
                        }
                    },
                    Some(HtmlToken::StartTag { tag, attributes, .. }) => {
                        if str_eq(tag.as_str(), "html") {
                            let attrs = crate::attribute::clone_attributes(attributes);
                            self.insert_element("html", attrs);
                            self.mode = InsertionMode::BeforeHead;
                            proof {
                                reveal(parse_step);
                            }
                            return StepOutcome::Advance;
                        }
                    },
                    _ => {},
                }
                // Implicit root: anything else synthesizes the html
                // element and is reprocessed.
                self.insert_element("html", Vec::new());
                self.mode = InsertionMode::BeforeHead;
                proof {
                    reveal(parse_step);
                }
                StepOutcome::Hold
            },
            InsertionMode::BeforeHead => {
                match token {
                    Some(HtmlToken::Char(c)) => {
                        if *c == ' ' || *c == '\n' {
                            proof {
                                reveal(parse_step);
                            }
                            return StepOutcome::Advance;
                        }
                    },
                    Some(HtmlToken::StartTag { tag, attributes, .. }) => {
                        if str_eq(tag.as_str(), "head") {
                            let attrs = crate::attribute::clone_attributes(attributes);
                            self.insert_element("head", attrs);
                            self.mode = InsertionMode::InHead;
                            proof {
                                reveal(parse_step);
                            }
                            return StepOutcome::Advance;
                        }
                    },
                    Some(HtmlToken::Eof) => {
                        proof {
                            reveal(parse_step);
                        }
                        return StepOutcome::Finish;
                    },
                    _ => {},
                }
                self.insert_element("head", Vec::new());
                self.mode = InsertionMode::InHead;
                proof {
                    reveal(parse_step);
                }
                StepOutcome::Hold
            },
            InsertionMode::InHead => {
                match token {
                    Some(HtmlToken::Char(_)) => {},
                    Some(HtmlToken::StartTag { tag, attributes, .. }) => {
                        if str_eq(tag.as_str(), "style") || str_eq(tag.as_str(), "script") {
                            let attrs = crate::attribute::clone_attributes(attributes);
                            self.insert_element(tag.as_str(), attrs);
                            self.original_insertion_mode = self.mode;
                            self.mode = InsertionMode::Text;
                            proof {
                                reveal(parse_step);
                            }
                            return StepOutcome::Advance;
                        }
                        if str_eq(tag.as_str(), "body") {
                            // A body tag inside head is a missing head
                            // close: synthesize an implicit empty head so
                            // head-omitting documents cannot spin here.
                            self.insert_element("head", Vec::new());
                            self.mode = InsertionMode::AfterHead;
                            proof {
                                reveal(parse_step);
                            }
                            return StepOutcome::Advance;
                        }
                    },
                    Some(HtmlToken::EndTag { tag }) => {
                        if str_eq(tag.as_str(), "head") {
                            // A stray head close with no open head is
                            // ignored rather than trusted.
                            if self.contain_in_stack(ElementKind::Head) {
                                self.pop_until(ElementKind::Head);
                            }
                            self.mode = InsertionMode::AfterHead;
                            proof {
                                reveal(parse_step);
                            }
                            return StepOutcome::Advance;
                        }
                    },
                    Some(HtmlToken::Eof) => {
                        proof {
                            reveal(parse_step);
                        }
                        return StepOutcome::Finish;
                    },
                    None => {
                        proof {
                            assert(false);
                        }
                        return StepOutcome::Finish;
                    },
                }
                // Unsupported head content (meta, title, ...) is consumed
                // and ignored; so is loose head text.
                proof {
                    reveal(parse_step);
                }
                StepOutcome::Advance
            },
            InsertionMode::AfterHead => {
                match token {
                    Some(HtmlToken::Char(c)) => {
                        if *c == ' ' || *c == '\n' {
                            proof {
                                reveal(parse_step);
                            }
                            return StepOutcome::Advance;
                        }
                    },
                    Some(HtmlToken::StartTag { tag, attributes, .. }) => {
                        if str_eq(tag.as_str(), "body") {
                            let attrs = crate::attribute::clone_attributes(attributes);
                            self.insert_element("body", attrs);
                            self.mode = InsertionMode::InBody;
                            proof {
                                reveal(parse_step);
                            }
                            return StepOutcome::Advance;
                        }
                    },
                    Some(HtmlToken::Eof) => {
                        proof {
                            reveal(parse_step);
                        }
                        return StepOutcome::Finish;
                    },
                    _ => {},
                }
                self.insert_element("body", Vec::new());
                self.mode = InsertionMode::InBody;
                proof {
                    reveal(parse_step);
                }
                StepOutcome::Hold
            },
            InsertionMode::InBody => {
                match token {
                    Some(HtmlToken::Char(c)) => {
                        let ch = *c;
                        self.insert_char(ch);
                        proof {
                            reveal(parse_step);
                        }
                        StepOutcome::Advance
                    },
                    Some(HtmlToken::StartTag { tag, attributes, .. }) => {
                        if str_eq(tag.as_str(), "p") || str_eq(tag.as_str(), "h1") || str_eq(
                            tag.as_str(),
                            "h2",
                        ) {
                            let attrs = crate::attribute::clone_attributes(attributes);
                            self.insert_element(tag.as_str(), attrs);
                        }
                        // A start tag outside the supported vocabulary is
                        // consumed and skipped.
                        proof {
                            reveal(parse_step);
                        }
                        StepOutcome::Advance
                    },
                    Some(HtmlToken::EndTag { tag }) => {
                        if str_eq(tag.as_str(), "body") {
                            // An unmatched body close is ignored.
                            if self.contain_in_stack(ElementKind::Body) {
                                self.pop_until(ElementKind::Body);
                            }
                            self.mode = InsertionMode::AfterBody;
                            proof {
                                reveal(parse_step);
                            }
                            return StepOutcome::Advance;
                        }
                        if str_eq(tag.as_str(), "html") {
                            if self.pop_current_node(ElementKind::Body) {
                                // When the parse is well nested the node
                                // below the body is the html element;
                                // anything else is tolerated.
                                self.pop_current_node(ElementKind::Html);
                                self.mode = InsertionMode::AfterBody;
                                proof {
                                    reveal(parse_step);
                                }
                                return StepOutcome::Hold;
                            }
                            proof {
                                reveal(parse_step);
                            }
                            return StepOutcome::Advance;
                        }
                        // All other end tags are consumed and ignored.
                        proof {
                            reveal(parse_step);
                        }
                        StepOutcome::Advance
                    },
                    Some(HtmlToken::Eof) => {
                        proof {
                            reveal(parse_step);
                        }
                        StepOutcome::Finish
                    },
                    None => {
                        proof {
                            assert(false);
                        }
                        StepOutcome::Finish
                    },
                }
            },
            InsertionMode::Text => {
                match token {
                    Some(HtmlToken::Eof) => {
                        proof {
                            reveal(parse_step);
                        }
                        return StepOutcome::Finish;
                    },
                    Some(HtmlToken::EndTag { tag }) => {
                        if str_eq(tag.as_str(), "style") {
                            if self.contain_in_stack(ElementKind::Style) {
                                self.pop_until(ElementKind::Style);
                            }
                            self.mode = self.original_insertion_mode;
                            proof {
                                reveal(parse_step);
                            }
                            return StepOutcome::Advance;
                        }
                        if str_eq(tag.as_str(), "script") {
                            if self.contain_in_stack(ElementKind::Script) {
                                self.pop_until(ElementKind::Script);
                            }
                            self.mode = self.original_insertion_mode;
                            proof {
                                reveal(parse_step);
                            }
                            return StepOutcome::Advance;
                        }
                    },
                    Some(HtmlToken::Char(c)) => {
                        let ch = *c;
                        self.insert_char(ch);
                        proof {
                            reveal(parse_step);
                        }
                        return StepOutcome::Advance;
                    },
                    _ => {},
                }
                // Any other close tag exits text content, back to the
                // saved insertion mode.
                self.mode = self.original_insertion_mode;
                proof {
                    reveal(parse_step);
                }
                StepOutcome::Hold
            },
            InsertionMode::AfterBody => {
                match token {
                    Some(HtmlToken::Char(_)) => {
                        proof {
                            reveal(parse_step);
                        }
                        return StepOutcome::Advance;
                    },
                    Some(HtmlToken::EndTag { tag }) => {
                        if str_eq(tag.as_str(), "html") {
                            self.mode = InsertionMode::AfterAfterBody;
                            proof {
                                reveal(parse_step);
                            }
                            return StepOutcome::Advance;
                        }
                    },
                    Some(HtmlToken::Eof) => {
                        proof {
                            reveal(parse_step);
                        }
                        return StepOutcome::Finish;
                    },
                    _ => {},
                }
                self.mode = InsertionMode::AfterAfterBody;
                proof {
                    reveal(parse_step);
                }
                StepOutcome::Hold
            },
            InsertionMode::AfterAfterBody => {
                match token {
                    Some(HtmlToken::Char(_)) => {
                        proof {
                            reveal(parse_step);
                        }
                        return StepOutcome::Advance;
                    },
                    Some(HtmlToken::Eof) => {
                        proof {
                            reveal(parse_step);
                        }
                        return StepOutcome::Finish;
                    },
                    _ => {},
                }
                // Anything else is a parse error; it is consumed so the
                // parse stays bounded by the input length.
                proof {
                    reveal(parse_step);
                }
                StepOutcome::Advance
            },
        }
    }

    /// Drains the tokenizer to completion and hands back the built window:
    /// a well-formed document tree rooted at the document node, exactly the
    /// tree of the per-mode dispatch `parse_step` run over the token
    /// stream, with the implicit `html > head, body` skeleton completed
    /// when the stream ends before the body was opened. One call, bounded
    /// by the input length.
    pub fn construct_tree(self) -> (w: Window)
        requires
            self.wf(),
        ensures
            w.wf(),
            w.nodes@.len() >= 1,
            w.nodes@[0].kind is Document,
            dom_view(w) == parse_run(self.t@, self.model()).dom,
    {
        let ghost m0 = self.t@;
        let ghost p0 = self.model();
        let mut this = self;
        let mut token = this.t.next();
        proof {
            assert((this.t@, opt_tok_view(token)) == lex_next(m0));
            assert(this.model() == p0);
        }
        while token.is_some()
            invariant
                this.wf(),
                parse_all(this.t@, opt_tok_view(token), this.model()) == parse_run(m0, p0),
            ensures
                this.wf(),
                m_complete(this.model()) == parse_run(m0, p0),
            decreases lex_fuel(this.t@), (if token is Some {
                1int
            } else {
                0int
            }), mode_rank(this.mode),
        {
            match this.dispatch(&token) {
                StepOutcome::Advance => {
                    token = this.advance();
                },
                StepOutcome::Hold => {},
                StepOutcome::Finish => {
                    proof {
                        assert(parse_all(this.t@, opt_tok_view(token), this.model()) == m_complete(
                            this.model(),
                        ));
                    }
                    break ;
                },
            }
        }
        this.complete_skeleton();
        this.window
    }
}

/// Every stack entry lies on the parent chain of the insertion point.
proof fn lemma_stack_on_chain(
    ns: Seq<Node>,
    end: Seq<int>,
    par: Seq<int>,
    stack: Seq<usize>,
    j: int,
)
    requires
        stack_wf(ns, end, par, stack),
        tree_wf(ns, end, par),
        0 <= j < stack.len(),
    ensures
        on_chain(par, insertion_parent(stack), stack[j] as int),
    decreases stack.len() - j,
{
    let p = insertion_parent(stack);
    if j == stack.len() - 1 {
        assert(on_chain(par, p, stack[j] as int));
    } else {
        lemma_stack_on_chain(ns, end, par, stack, j + 1);
        assert(stack_link_at(ns, par, stack, j + 1));
        assert(stack_entry_ok(ns, end, stack[j + 1]));
        assert((stack[j + 1] as int) != 0);
        lemma_on_chain_up(par, p, stack[j + 1] as int);
    }
}

/// Stack handles strictly increase from the root downward.
proof fn lemma_stack_increasing(
    ns: Seq<Node>,
    end: Seq<int>,
    par: Seq<int>,
    stack: Seq<usize>,
    i: int,
    j: int,
)
    requires
        stack_wf(ns, end, par, stack),
        tree_wf(ns, end, par),
        0 <= i < j < stack.len(),
    ensures
        (stack[i] as int) < stack[j] as int,
    decreases j - i,
{
    assert(stack_link_at(ns, par, stack, j));
    assert(stack_entry_ok(ns, end, stack[j]));
    assert(stack_entry_ok(ns, end, stack[j - 1]));
    assert((stack[j] as int) != 0);
    assert((stack[j - 1] as int) < stack[j] as int);
    if i < j - 1 {
        lemma_stack_increasing(ns, end, par, stack, i, j - 1);
    }
}

/// A prefix of a sound stack is sound.
proof fn lemma_stack_prefix_wf(
    ns: Seq<Node>,
    end: Seq<int>,
    par: Seq<int>,
    stack: Seq<usize>,
    m: int,
)
    requires
        stack_wf(ns, end, par, stack),
        0 <= m <= stack.len(),
    ensures
        stack_wf(ns, end, par, stack.take(m)),
{
    let pre = stack.take(m);
    assert forall|j: int| 0 <= j < pre.len() implies stack_entry_ok(ns, end, #[trigger] pre[j]) by {
        assert(stack_entry_ok(ns, end, stack[j]));
    }
    assert forall|j: int| 0 <= j < pre.len() implies #[trigger] stack_link_at(ns, par, pre, j) by {
        assert(stack_link_at(ns, par, stack, j));
    }
}

/// A tree whose shape and extents are unchanged carries the same sound
/// stack.
proof fn lemma_stack_same_shape(
    ns0: Seq<Node>,
    ns1: Seq<Node>,
    end: Seq<int>,
    par: Seq<int>,
    stack: Seq<usize>,
)
    requires
        stack_wf(ns0, end, par, stack),
        ns1.len() == ns0.len(),
        forall|j: int|
            0 <= j < ns0.len() ==> ((#[trigger] ns1[j]).kind is Element <==> ns0[j].kind
                is Element) && ns1[j].last_child == ns0[j].last_child,
    ensures
        stack_wf(ns1, end, par, stack),
{
    assert forall|j: int| 0 <= j < stack.len() implies stack_entry_ok(ns1, end, #[trigger] stack[j]) by {
        assert(stack_entry_ok(ns0, end, stack[j]));
    }
    assert forall|j: int| 0 <= j < stack.len() implies #[trigger] stack_link_at(ns1, par, stack, j) by {
        assert(stack_link_at(ns0, par, stack, j));
    }
}

/// The model's view of element kinds matches the arena's.
proof fn lemma_top_pos_eq(ns: Seq<Node>, stack: Seq<usize>, dom: Seq<DomNode>, kind: ElementKind)
    requires
        dom.len() == ns.len(),
        forall|i: int| 0 <= i < dom.len() ==> (#[trigger] dom[i]).kind == node_model(ns[i]),
        forall|j: int| 0 <= j < stack.len() ==> (#[trigger] stack[j] as int) < ns.len(),
    ensures
        m_top_pos(dom, stack_view(stack), kind) == top_kind_pos(ns, stack, kind),
    decreases stack.len(),
{
    let sv = stack_view(stack);
    if stack.len() > 0 {
        let top = stack[stack.len() - 1];
        assert(sv[sv.len() - 1] == top as int);
        assert(m_kind_at(dom, top as int) == ns[top as int].spec_element_kind());
        if ns[top as int].spec_element_kind() != Some(kind) {
            let pre = stack.take(stack.len() - 1);
            assert forall|j: int| 0 <= j < pre.len() implies (#[trigger] pre[j] as int)
                < ns.len() by {
                assert(pre[j] == stack[j]);
            }
            lemma_top_pos_eq(ns, pre, dom, kind);
            assert(stack_view(pre) =~= sv.take(sv.len() - 1));
        }
    }
}

/// The model's notion of a kind being open matches the arena's.
proof fn lemma_has_kind_eq(ns: Seq<Node>, stack: Seq<usize>, dom: Seq<DomNode>, kind: ElementKind)
    requires
        dom.len() == ns.len(),
        forall|i: int| 0 <= i < dom.len() ==> (#[trigger] dom[i]).kind == node_model(ns[i]),
        forall|j: int| 0 <= j < stack.len() ==> (#[trigger] stack[j] as int) < ns.len(),
    ensures
        m_has_kind(dom, stack_view(stack), kind) == stack_has_kind(ns, stack, kind),
{
    let sv = stack_view(stack);
    if stack_has_kind(ns, stack, kind) {
        let j = choose|j: int|
            0 <= j < stack.len() && ns[(#[trigger] stack[j]) as int].spec_element_kind() == Some(
                kind,
            );
        assert(sv[j] == stack[j] as int);
        assert(m_kind_at(dom, sv[j]) == Some(kind));
        assert(m_has_kind(dom, sv, kind));
    }
    if m_has_kind(dom, sv, kind) {
        let j = choose|j: int| 0 <= j < sv.len() && m_kind_at(dom, #[trigger] sv[j]) == Some(kind);
        assert(sv[j] == stack[j] as int);
        assert(ns[stack[j] as int].spec_element_kind() == Some(kind));
        assert(stack_has_kind(ns, stack, kind));
    }
}

/// The supported tag names denote their element kinds; the names are
/// pairwise distinct.
proof fn lemma_tag_literals()
    ensures
        element_kind_of("html"@) == Some(ElementKind::Html),
        element_kind_of("head"@) == Some(ElementKind::Head),
        element_kind_of("style"@) == Some(ElementKind::Style),
        element_kind_of("script"@) == Some(ElementKind::Script),
        element_kind_of("body"@) == Some(ElementKind::Body),
        element_kind_of("p"@) == Some(ElementKind::P),
        element_kind_of("h1"@) == Some(ElementKind::H1),
        element_kind_of("h2"@) == Some(ElementKind::H2),
{
    reveal_strlit("html");
    reveal_strlit("head");
    reveal_strlit("style");
    reveal_strlit("script");
    reveal_strlit("body");
    reveal_strlit("p");
    reveal_strlit("h1");
    reveal_strlit("h2");
    assert(("html"@).len() == 4);
    assert(("head"@).len() == 4);
    assert(("style"@).len() == 5);
    assert(("script"@).len() == 6);
    assert(("body"@).len() == 4);
    assert(("p"@).len() == 1);
    assert(("h1"@).len() == 2);
    assert(("h2"@).len() == 2);
    assert("html"@[1] == 't' && "head"@[1] == 'e' && "body"@[1] == 'o');
    assert("h1"@[1] == '1' && "h2"@[1] == '2');
}

/// The topmost position of a present kind is a real position.
proof fn lemma_top_kind_pos_bounds(ns: Seq<Node>, stack: Seq<usize>, kind: ElementKind)
    ensures
        stack_has_kind(ns, stack, kind) ==> 0 <= top_kind_pos(ns, stack, kind) < stack.len(),
        top_kind_pos(ns, stack, kind) >= 0 ==> stack_has_kind(ns, stack, kind),
    decreases stack.len(),
{
    if stack.len() > 0 {
        let pre = stack.take(stack.len() - 1);
        lemma_top_kind_pos_bounds(ns, pre, kind);
        if ns[stack[stack.len() - 1] as int].spec_element_kind() == Some(kind) {
        } else {
            if stack_has_kind(ns, stack, kind) {
                let j = choose|j: int|
                    0 <= j < stack.len() && ns[(#[trigger] stack[j]) as int].spec_element_kind()
                        == Some(kind);
                assert(pre[j] == stack[j]);
                assert(stack_has_kind(ns, pre, kind));
            }
            if top_kind_pos(ns, pre, kind) >= 0 {
                let j = choose|j: int|
                    0 <= j < pre.len() && ns[(#[trigger] pre[j]) as int].spec_element_kind()
                        == Some(kind);
                assert(stack[j] == pre[j]);
            }
        }
    }
}

/// One scan move in plain data: a character that is not `<` comes out as
/// a character token, with only the cursor advanced.
proof fn lemma_plain_next(lex: LexerModel)
    requires
        lex.state is Data,
        !lex.reconsume,
        0 <= lex.pos < lex.input.len(),
        lex.input[lex.pos] != '<',
    ensures
        lex_next(lex) == (
            LexerModel { pos: lex.pos + 1, ..lex },
            Some(TokenModel::Char(lex.input[lex.pos])),
        ),
{
    let c = lex.input[lex.pos];
    let b = LexerModel { pos: lex.pos + 1, ..lex };
    assert(lex_step(lex) == LexStep::Emit(b, TokenModel::Char(c)));
    assert(lex_loop(lex) == (b, TokenModel::Char(c)));
}

/// Bare text never leaves the initial insertion mode: every character
/// token is consumed there, and the run ends in the completion of the
/// fresh parser state.
proof fn lemma_plain_run(lex: LexerModel)
    requires
        lex.state is Data,
        !lex.reconsume,
        0 <= lex.pos <= lex.input.len(),
        forall|k: int| lex.pos <= k < lex.input.len() ==> lex.input[k] != '<',
    ensures
        parse_run(lex, initial_parser_model()) == m_complete(initial_parser_model()),
    decreases lex.input.len() - lex.pos,
{
    let p0 = initial_parser_model();
    if lex.pos >= lex.input.len() {
        assert(lex_exhausted(lex));
        assert(lex_next(lex) == (lex, None::<TokenModel>));
        assert(parse_all(lex, None, p0) == m_complete(p0));
    } else {
        lemma_plain_next(lex);
        let m2 = LexerModel { pos: lex.pos + 1, ..lex };
        let c = lex.input[lex.pos];
        assert(parse_step(p0, TokenModel::Char(c)) == ParseStep::Advance(p0)) by {
            reveal(parse_step);
        }
        assert(parse_all(m2, Some(TokenModel::Char(c)), p0) == parse_run(m2, p0));
        lemma_plain_run(m2);
    }
}

/// A document of bare text — no `<` anywhere, so no head or body tags —
/// parses to exactly the implicit skeleton: the document root's single
/// child is an html element holding an empty head and then an empty body,
/// each synthesized once.
pub proof fn lemma_bare_text_skeleton(input: Seq<char>)
    requires
        forall|k: int| 0 <= k < input.len() ==> input[k] != '<',
    ensures
        parse_run(lex_init(input), initial_parser_model()).dom == skeleton_dom(),
{
    lemma_plain_run(lex_init(input));
    let p0 = initial_parser_model();
    let e = Seq::<AttributeModel>::empty();
    let p1 = m_insert_element(p0, ElementKind::Html, e);
    let p2 = m_insert_element(p1, ElementKind::Head, e);
    let p3 = m_pop_current(p2, ElementKind::Head).0;
    let p4 = m_insert_element(p3, ElementKind::Body, e);
    assert(p1.stack =~= seq![1int]);
    assert(p2.stack =~= seq![1int, 2int]);
    assert(p3.stack =~= seq![1int]);
    assert(m_complete(p0).dom == p4.dom);
    assert(p4.dom =~= skeleton_dom());
}

} // verus!
