//! The document renderer: walk one parsed document tree and emit HTML,
//! resolving named references against the content index, numbering
//! footnotes in first-seen order and emitting their definitions in a
//! closing section, and sending math to the typesetting service with a
//! verbatim fallback when it fails.

use vstd::prelude::*;
use vstd::string::*;
use vstd::pervasive::VecAdditionalExecFns;
use crate::strutil::dec_str;
use crate::strutil::u64_to_string;
use crate::counter::Sequential;
use crate::counter::ctr_lookup;
use crate::wikilink::WikiLink;
use crate::wikilink::Segment;
use crate::wikilink::GSeg;
use crate::wikilink::segments_spec;
use crate::sitemap::SiteMap;
use crate::sitemap::GPage;
use crate::sitemap::first_with_name;

verus! {

/// One node of a parsed document tree.  This is the renderer's own
/// representation; whatever parser produced the document is converted
/// into it before rendering.
pub enum Node {
    Root { children: Vec<Node> },
    Paragraph { children: Vec<Node> },
    Blockquote { children: Vec<Node> },
    FootnoteDefinition { identifier: String, children: Vec<Node> },
    List { ordered: bool, children: Vec<Node> },
    ListItem { spread: bool, children: Vec<Node> },
    Yaml { value: String },
    Break,
    InlineCode { value: String },
    Delete { children: Vec<Node> },
    Emphasis { children: Vec<Node> },
    FootnoteReference { identifier: String },
    Html { value: String },
    Image { url: String, alt: String, title: Option<String> },
    Strong { children: Vec<Node> },
    Link { url: String, children: Vec<Node> },
    Code { value: String },
    InlineMath { value: String },
    Math { value: String },
    Text { value: String },
    ThematicBreak,
    Table { children: Vec<Node> },
    TableRow { children: Vec<Node> },
    TableCell { children: Vec<Node> },
    Heading { depth: u8, children: Vec<Node> },
    /// A construct this renderer does not implement; carries its name.
    Unsupported { kind: String },
}

/// What one render reports besides its output: whether any math was
/// seen, and a warning for each expression the math service rejected.
#[derive(Debug)]
pub struct Log {
    pub math: bool,
    pub warnings: Vec<String>,
}

impl Log {
    /// Fold another render's log into this one.
    pub fn merge(&mut self, other: &Self)
        ensures
            final(self).math == (old(self).math || other.math),
            final(self).warnings.deep_view() =~= old(self).warnings.deep_view()
                + other.warnings.deep_view(),
    {
        self.math = self.math || other.math;
        let mut k: usize = 0;
        while k < other.warnings.len()
            invariant
                k <= other.warnings@.len(),
                self.warnings.deep_view() =~= old(self).warnings.deep_view()
                    + other.warnings.deep_view().take(k as int),
                self.math == (old(self).math || other.math),
            decreases other.warnings@.len() - k,
        {
            let ghost pre = self.warnings.deep_view();
            self.warnings.push(other.warnings[k].as_str().to_owned());
            proof {
                assert(self.warnings.deep_view() =~= pre.push(other.warnings@[k as int]@));
                assert(other.warnings.deep_view().take(k as int + 1)
                    =~= other.warnings.deep_view().take(k as int).push(
                    other.warnings@[k as int]@,
                ));
            }
            k = k + 1;
        }
        proof {
            assert(other.warnings.deep_view().take(other.warnings@.len() as int)
                =~= other.warnings.deep_view());
        }
    }
}

impl Default for Log {
    /// An empty log: no math seen, nothing to warn about.
    fn default() -> (r: Self)
        ensures
            r.math == false,
            r.warnings.deep_view() =~= Seq::<Seq<char>>::empty(),
    {
        Log { math: false, warnings: Vec::new() }
    }
}

/// Rendering failed on a construct outside the supported set; carries
/// the construct's name.  This is the one unrecoverable render error:
/// everything else degrades in place.
#[derive(Debug, PartialEq, Eq)]
pub enum RenderError {
    Unsupported(String),
}

// ---------------------------------------------------------------------
// the math service
// ---------------------------------------------------------------------
/// The markup the typesetting service returns for an expression, if it
/// accepts it.
pub uninterp spec fn katex_of(expr: Seq<char>, display: bool) -> Option<Seq<char>>;

/// Relies on `katex::render_with_opts`: the KaTeX HTML of a TeX
/// expression, a deterministic function of the expression and the
/// display-mode flag (the KaTeX sources are embedded in that crate);
/// `None` when KaTeX rejects the expression.
#[verifier::external_body]
fn katex_render(expr: &str, display: bool) -> (r: Option<String>)
    ensures
        (r is Some) == (katex_of(expr@, display) is Some),
        r matches Some(h) ==> katex_of(expr@, display) == Some(h@),
{
    let mut opts = katex::Opts::default();
    opts.set_display_mode(display);
    katex::render_with_opts(expr, &opts).ok()
}

/// The markup a math node contributes, given what the service said:
/// its output in a marker span, or on failure the raw expression in a
/// verbatim fallback, `$…$` in a code span inline and `$$…$$` in a
/// preformatted block in display mode.
pub open spec fn math_markup_spec(
    expr: Seq<char>,
    display: bool,
    rendered: Option<Seq<char>>,
) -> Seq<char> {
    match rendered {
        Some(h) => "<span class=\"katex-wrapper\">"@ + h + "</span>"@,
        None => if display {
            "<pre><code>$$"@ + expr + "$$</code></pre>"@
        } else {
            "<code>$"@ + expr + "$</code>"@
        },
    }
}

/// Turn the math service's answer for an expression into the markup
/// the page gets; a failure never escapes, it becomes the verbatim
/// fallback form.
pub fn math_markup(expr: &str, display: bool, rendered: Option<&str>) -> (r: String)
    ensures
        r@ == math_markup_spec(
            expr@,
            display,
            match rendered {
                Some(h) => Some(h@),
                None => None,
            },
        ),
{
    let mut out = String::new();
    match rendered {
        Some(h) => {
            out.append("<span class=\"katex-wrapper\">");
            out.append(h);
            out.append("</span>");
        },
        None => {
            if display {
                out.append("<pre><code>$$");
                out.append(expr);
                out.append("$$</code></pre>");
            } else {
                out.append("<code>$");
                out.append(expr);
                out.append("$</code>");
            }
        },
    }
    out
}

// ---------------------------------------------------------------------
// what rendering means
// ---------------------------------------------------------------------
/// The renderer's transient state: footnote identifiers in first-seen
/// order, the rendered definition (if any yet) for each ordinal, the
/// math flag and the warnings so far.
#[verifier::ext_equal]
pub struct RState {
    pub ids: Seq<Seq<char>>,
    pub slots: Seq<Option<Seq<char>>>,
    pub math: bool,
    pub warns: Seq<Seq<char>>,
}

/// The state a render starts from.
pub open spec fn init_rstate() -> RState {
    RState {
        ids: Seq::empty(),
        slots: Seq::empty(),
        math: false,
        warns: Seq::empty(),
    }
}

/// The markup one segment of plain text contributes: verbatim text, a
/// resolved reference as an anchor to the page's link, an unresolved
/// one as emphasised text.
pub open spec fn seg_html(pages: Seq<GPage>, g: GSeg) -> Seq<char> {
    match g {
        GSeg::Normal(t) => t,
        GSeg::Link(l) => {
            let disp = WikiLink::display_or_name_spec(l);
            match first_with_name(pages, l.name) {
                Some(i) => "<a href=\""@ + pages[i].link + "\">"@ + disp + "</a>"@,
                None => "<em>"@ + disp + "</em>"@,
            }
        },
    }
}

/// What one reference contributes to a page, for every index and every
/// name: a name some page bears becomes an anchor to the first such
/// page's link, carrying the display text; a name no page bears
/// becomes the display text in an emphasis tag — never an error.
pub proof fn lemma_reference_markup(pages: Seq<GPage>, l: crate::wikilink::GLink)
    ensures
        first_with_name(pages, l.name) matches Some(i) ==> seg_html(pages, GSeg::Link(l))
            == "<a href=\""@ + pages[i].link + "\">"@ + WikiLink::display_or_name_spec(l)
            + "</a>"@,
        first_with_name(pages, l.name) is None ==> seg_html(pages, GSeg::Link(l)) == "<em>"@
            + WikiLink::display_or_name_spec(l) + "</em>"@,
{
}

/// The markup of a run of segments, from index `i` on.
pub open spec fn segs_html(pages: Seq<GPage>, gs: Seq<GSeg>, i: int) -> Seq<char>
    decreases gs.len() - i,
{
    if i < 0 || i >= gs.len() {
        Seq::empty()
    } else {
        seg_html(pages, gs[i]) + segs_html(pages, gs, i + 1)
    }
}

/// Whether a tree holds any construct outside the supported set.
pub open spec fn has_unsupported(n: Node) -> bool
    decreases n, 0int,
{
    match n {
        Node::Root { children } => any_unsupported(children@, 0),
        Node::Paragraph { children } => any_unsupported(children@, 0),
        Node::Blockquote { children } => any_unsupported(children@, 0),
        Node::FootnoteDefinition { children, .. } => any_unsupported(children@, 0),
        Node::List { children, .. } => any_unsupported(children@, 0),
        Node::ListItem { children, .. } => any_unsupported(children@, 0),
        Node::Delete { children } => any_unsupported(children@, 0),
        Node::Emphasis { children } => any_unsupported(children@, 0),
        Node::Strong { children } => any_unsupported(children@, 0),
        Node::Link { children, .. } => any_unsupported(children@, 0),
        Node::Table { children } => any_unsupported(children@, 0),
        Node::TableRow { children } => any_unsupported(children@, 0),
        Node::TableCell { children } => any_unsupported(children@, 0),
        Node::Heading { children, .. } => any_unsupported(children@, 0),
        Node::Unsupported { .. } => true,
        _ => false,
    }
}

/// Whether any tree in the list, from index `i` on, holds one.
pub open spec fn any_unsupported(ns: Seq<Node>, i: int) -> bool
    decreases ns, ns.len() - i,
{
    if i < 0 || i >= ns.len() {
        false
    } else {
        has_unsupported(ns[i]) || any_unsupported(ns, i + 1)
    }
}

/// The size of a tree: one for the node plus its subtrees.
pub open spec fn node_size(n: Node) -> nat
    decreases n, 0int,
{
    match n {
        Node::Root { children } => 1 + sizes_from(children@, 0),
        Node::Paragraph { children } => 1 + sizes_from(children@, 0),
        Node::Blockquote { children } => 1 + sizes_from(children@, 0),
        Node::FootnoteDefinition { children, .. } => 1 + sizes_from(children@, 0),
        Node::List { children, .. } => 1 + sizes_from(children@, 0),
        Node::ListItem { children, .. } => 1 + sizes_from(children@, 0),
        Node::Delete { children } => 1 + sizes_from(children@, 0),
        Node::Emphasis { children } => 1 + sizes_from(children@, 0),
        Node::Strong { children } => 1 + sizes_from(children@, 0),
        Node::Link { children, .. } => 1 + sizes_from(children@, 0),
        Node::Table { children } => 1 + sizes_from(children@, 0),
        Node::TableRow { children } => 1 + sizes_from(children@, 0),
        Node::TableCell { children } => 1 + sizes_from(children@, 0),
        Node::Heading { children, .. } => 1 + sizes_from(children@, 0),
        _ => 1,
    }
}

/// The total size of the trees in a list, from index `i` on.
pub open spec fn sizes_from(ns: Seq<Node>, i: int) -> nat
    decreases ns, ns.len() - i,
{
    if i < 0 || i >= ns.len() {
        0
    } else {
        node_size(ns[i]) + sizes_from(ns, i + 1)
    }
}

/// A tree in a list is no bigger than the list.
pub proof fn lemma_child_size(ns: Seq<Node>, i: int)
    requires
        0 <= i < ns.len(),
    ensures
        node_size(ns[i]) <= sizes_from(ns, 0),
    decreases i,
{
    lemma_sizes_from_step(ns, 0, i);
}

proof fn lemma_sizes_from_step(ns: Seq<Node>, j: int, i: int)
    requires
        0 <= j <= i < ns.len(),
    ensures
        node_size(ns[i]) <= sizes_from(ns, j),
    decreases i - j,
{
    if j < i {
        lemma_sizes_from_step(ns, j + 1, i);
    }
}

/// Walking one node: the markup it emits and the state afterwards.
pub open spec fn walk_node(pages: Seq<GPage>, n: Node, st: RState) -> (Seq<char>, RState)
    decreases n, 0int, 0int,
{
    match n {
        Node::Root { children } => walk_from(pages, children@, 0, st),
        Node::Paragraph { children } => {
            let r = walk_from(pages, children@, 0, st);
            ("\n<p>"@ + r.0 + "</p>"@, r.1)
        },
        Node::Blockquote { children } => {
            let r = walk_from(pages, children@, 0, st);
            ("\n<blockquote>"@ + r.0 + "</blockquote>"@, r.1)
        },
        Node::FootnoteDefinition { identifier, children } => {
            let r = ctr_lookup(st.ids, identifier@);
            let slots1 = if st.ids.contains(identifier@) {
                st.slots
            } else {
                st.slots.push(None)
            };
            let c = doc_children_from(pages, children@, 0);
            (
                Seq::empty(),
                RState {
                    ids: r.1,
                    slots: slots1.update(r.0, Some(c.0)),
                    math: st.math || c.1,
                    warns: st.warns + c.2,
                },
            )
        },
        Node::List { ordered, children } => {
            let r = walk_from(pages, children@, 0, st);
            if ordered {
                ("\n<ol>"@ + r.0 + "</ol>"@, r.1)
            } else {
                ("\n<ul>"@ + r.0 + "</ul>"@, r.1)
            }
        },
        Node::ListItem { spread, children } => {
            if !spread && children@.len() == 1 && (children@[0] matches Node::Paragraph { .. }) {
                match children@[0] {
                    Node::Paragraph { children: inner } => {
                        let r = walk_from(pages, inner@, 0, st);
                        ("<li>"@ + r.0 + "</li>"@, r.1)
                    },
                    _ => (Seq::empty(), st),
                }
            } else {
                let r = walk_from(pages, children@, 0, st);
                ("<li>"@ + r.0 + "</li>"@, r.1)
            }
        },
        Node::Yaml { .. } => (Seq::empty(), st),
        Node::Break => ("\n<br/>"@, st),
        Node::InlineCode { value } => ("<code>"@ + value@ + "</code>"@, st),
        Node::Delete { children } => {
            let r = walk_from(pages, children@, 0, st);
            ("<del>"@ + r.0 + "</del>"@, r.1)
        },
        Node::Emphasis { children } => {
            let r = walk_from(pages, children@, 0, st);
            ("<em>"@ + r.0 + "</em>"@, r.1)
        },
        Node::FootnoteReference { identifier } => {
            let r = ctr_lookup(st.ids, identifier@);
            let slots1 = if st.ids.contains(identifier@) {
                st.slots
            } else {
                st.slots.push(None)
            };
            (
                "<sup><a href=\"#fn-"@ + identifier@ + "\">"@ + dec_str((r.0 + 1) as nat)
                    + "</a></sup>"@,
                RState { ids: r.1, slots: slots1, math: st.math, warns: st.warns },
            )
        },
        Node::Html { value } => (value@, st),
        Node::Image { url, alt, title } => {
            let t = match title {
                Some(t) => "title="@ + t@,
                None => Seq::<char>::empty(),
            };
            ("\n<img src="@ + url@ + " alt="@ + alt@ + " "@ + t + "/>"@, st)
        },
        Node::Strong { children } => {
            let r = walk_from(pages, children@, 0, st);
            ("<strong>"@ + r.0 + "</strong>"@, r.1)
        },
        Node::Link { url, children } => {
            let r = walk_from(pages, children@, 0, st);
            ("<a href="@ + url@ + ">"@ + r.0 + "</a>"@, r.1)
        },
        Node::Code { value } => ("\n<pre><code>"@ + value@ + "</code></pre>"@, st),
        Node::InlineMath { value } => {
            let rendered = katex_of(value@, false);
            (
                math_markup_spec(value@, false, rendered),
                RState {
                    ids: st.ids,
                    slots: st.slots,
                    math: true,
                    warns: if rendered is None {
                        st.warns.push(value@)
                    } else {
                        st.warns
                    },
                },
            )
        },
        Node::Math { value } => {
            let rendered = katex_of(value@, true);
            (
                math_markup_spec(value@, true, rendered),
                RState {
                    ids: st.ids,
                    slots: st.slots,
                    math: true,
                    warns: if rendered is None {
                        st.warns.push(value@)
                    } else {
                        st.warns
                    },
                },
            )
        },
        Node::Text { value } => (segs_html(pages, segments_spec(value@), 0), st),
        Node::ThematicBreak => ("\n<hr />"@, st),
        Node::Table { children } => {
            let r = walk_from(pages, children@, 0, st);
            ("\n<table>"@ + r.0 + "\n</table>"@, r.1)
        },
        Node::TableRow { children } => {
            let r = walk_from(pages, children@, 0, st);
            ("\n<tr>"@ + r.0 + "\n</tr>"@, r.1)
        },
        Node::TableCell { children } => {
            let r = walk_from(pages, children@, 0, st);
            ("\n<th>"@ + r.0 + "</th>"@, r.1)
        },
        Node::Heading { depth, children } => {
            let r = walk_from(pages, children@, 0, st);
            (
                "\n<h"@ + dec_str(depth as nat) + ">"@ + r.0 + "</h"@ + dec_str(depth as nat)
                    + ">"@,
                r.1,
            )
        },
        Node::Unsupported { .. } => (Seq::empty(), st),
    }
}

/// Walking a list of nodes from index `i` on, threading the state.
pub open spec fn walk_from(pages: Seq<GPage>, ns: Seq<Node>, i: int, st: RState) -> (
    Seq<char>,
    RState,
)
    decreases ns, ns.len() - i, 1int,
{
    if i < 0 || i >= ns.len() {
        (Seq::empty(), st)
    } else {
        let h = walk_node(pages, ns[i], st);
        let r = walk_from(pages, ns, i + 1, h.1);
        (h.0 + r.0, r.1)
    }
}

/// The closing footnotes section: one list item per ordinal, a
/// placeholder for a referenced-but-undefined slot.
pub open spec fn slots_html(ids: Seq<Seq<char>>, slots: Seq<Option<Seq<char>>>, i: int) -> Seq<
    char,
>
    decreases slots.len() - i,
{
    if i < 0 || i >= slots.len() {
        Seq::empty()
    } else {
        (match slots[i] {
            None => "<li>???</li>\n"@,
            Some(h) => "<li id=\"fn-"@ + ids[i] + "\">"@ + h + "</li>\n"@,
        }) + slots_html(ids, slots, i + 1)
    }
}

/// The whole footnotes section.
pub open spec fn footsec(ids: Seq<Seq<char>>, slots: Seq<Option<Seq<char>>>) -> Seq<char> {
    "<section class=\"footnotes\">\n<ol>\n"@ + slots_html(ids, slots, 0) + "</ol>\n</section>"@
        + "\n"@
}

/// A full render of one tree: the walk's markup followed by the
/// footnotes section; also the math flag and the warnings.
pub open spec fn doc_render(pages: Seq<GPage>, n: Node) -> (Seq<char>, bool, Seq<Seq<char>>)
    decreases n, 0int, 1int,
{
    let r = walk_node(pages, n, init_rstate());
    (r.0 + footsec(r.1.ids, r.1.slots), r.1.math, r.1.warns)
}

/// Full renders of a list of trees, from index `i` on, concatenated;
/// a footnote definition's content renders this way.
pub open spec fn doc_children_from(pages: Seq<GPage>, ns: Seq<Node>, i: int) -> (
    Seq<char>,
    bool,
    Seq<Seq<char>>,
)
    decreases ns, ns.len() - i, 2int,
{
    if i < 0 || i >= ns.len() {
        (Seq::empty(), false, Seq::empty())
    } else {
        let d = doc_render(pages, ns[i]);
        let r = doc_children_from(pages, ns, i + 1);
        (d.0 + r.0, d.1 || r.1, d.2 + r.2)
    }
}

// ---------------------------------------------------------------------
// the work stack the renderer drives
// ---------------------------------------------------------------------
/// Mathematical image of one pending unit of work.
pub enum GWork {
    N(Node),
    Text(Seq<char>),
}

/// What one unit of work emits and how it moves the state.
pub open spec fn item_run(pages: Seq<GPage>, w: GWork, st: RState) -> (Seq<char>, RState) {
    match w {
        GWork::N(n) => walk_node(pages, n, st),
        GWork::Text(t) => (t, st),
    }
}

/// Running a whole stack, top (last) first.
pub open spec fn stack_run(pages: Seq<GPage>, ws: Seq<GWork>, st: RState) -> (Seq<char>, RState)
    decreases ws.len(),
{
    if ws.len() == 0 {
        (Seq::empty(), st)
    } else {
        let h = item_run(pages, ws.last(), st);
        let r = stack_run(pages, ws.drop_last(), h.1);
        (h.0 + r.0, r.1)
    }
}

/// Whether some pending node holds an unsupported construct.
pub open spec fn stack_any(ws: Seq<GWork>) -> bool
    decreases ws.len(),
{
    if ws.len() == 0 {
        false
    } else {
        (match ws.last() {
            GWork::N(n) => has_unsupported(n),
            GWork::Text(_) => false,
        }) || stack_any(ws.drop_last())
    }
}

/// How much work a unit still is.
pub open spec fn gw_measure(w: GWork) -> nat {
    match w {
        GWork::N(n) => 2 * node_size(n),
        GWork::Text(_) => 1,
    }
}

/// How much work a stack still is.
pub open spec fn stack_measure(ws: Seq<GWork>) -> nat
    decreases ws.len(),
{
    if ws.len() == 0 {
        0
    } else {
        gw_measure(ws.last()) + stack_measure(ws.drop_last())
    }
}

/// The children of a node, in reverse, as pending work, so that
/// popping visits them in order.
pub open spec fn rev_work(ns: Seq<Node>) -> Seq<GWork> {
    Seq::new(ns.len(), |i: int| GWork::N(ns[ns.len() - 1 - i]))
}

pub proof fn lemma_stack_run_push(pages: Seq<GPage>, ws: Seq<GWork>, w: GWork, st: RState)
    ensures
        stack_run(pages, ws.push(w), st).0 =~= item_run(pages, w, st).0 + stack_run(
            pages,
            ws,
            item_run(pages, w, st).1,
        ).0,
        stack_run(pages, ws.push(w), st).1 =~= stack_run(pages, ws, item_run(pages, w, st).1).1,
        stack_any(ws.push(w)) == ((match w {
            GWork::N(n) => has_unsupported(n),
            GWork::Text(_) => false,
        }) || stack_any(ws)),
        stack_measure(ws.push(w)) == gw_measure(w) + stack_measure(ws),
{
    assert(ws.push(w).last() == w);
    assert(ws.push(w).drop_last() =~= ws);
}

pub proof fn lemma_stack_run_app(pages: Seq<GPage>, a: Seq<GWork>, b: Seq<GWork>, st: RState)
    ensures
        stack_run(pages, a + b, st).0 =~= stack_run(pages, b, st).0 + stack_run(
            pages,
            a,
            stack_run(pages, b, st).1,
        ).0,
        stack_run(pages, a + b, st).1 =~= stack_run(pages, a, stack_run(pages, b, st).1).1,
        stack_any(a + b) == (stack_any(a) || stack_any(b)),
        stack_measure(a + b) == stack_measure(a) + stack_measure(b),
    decreases b.len(),
{
    if b.len() == 0 {
        assert(a + b =~= a);
    } else {
        assert((a + b).last() == b.last());
        assert((a + b).drop_last() =~= a + b.drop_last());
        let h = item_run(pages, b.last(), st);
        lemma_stack_run_app(pages, a, b.drop_last(), h.1);
    }
}

pub proof fn lemma_walk_from_shift(pages: Seq<GPage>, ns: Seq<Node>, i: int, st: RState)
    requires
        1 <= i <= ns.len(),
    ensures
        walk_from(pages, ns, i, st).0 =~= walk_from(pages, ns.drop_first(), i - 1, st).0,
        walk_from(pages, ns, i, st).1 =~= walk_from(pages, ns.drop_first(), i - 1, st).1,
    decreases ns.len() - i,
{
    if i < ns.len() {
        assert(ns.drop_first()[i - 1] == ns[i]);
        let h = walk_node(pages, ns[i], st);
        lemma_walk_from_shift(pages, ns, i + 1, h.1);
    }
}

pub proof fn lemma_rev_block_run(pages: Seq<GPage>, ns: Seq<Node>, st: RState)
    ensures
        stack_run(pages, rev_work(ns), st).0 =~= walk_from(pages, ns, 0, st).0,
        stack_run(pages, rev_work(ns), st).1 =~= walk_from(pages, ns, 0, st).1,
        stack_any(rev_work(ns)) == any_unsupported(ns, 0),
        stack_measure(rev_work(ns)) == 2 * sizes_from(ns, 0),
    decreases ns.len(),
{
    if ns.len() == 0 {
        assert(rev_work(ns) =~= Seq::<GWork>::empty());
    } else {
        assert(rev_work(ns).last() == GWork::N(ns[0]));
        assert(rev_work(ns).drop_last() =~= rev_work(ns.drop_first())) by {
            assert(forall|i: int|
                0 <= i < ns.len() - 1 ==> rev_work(ns).drop_last()[i] == GWork::N(
                    #[trigger] ns.drop_first()[ns.len() - 2 - i],
                ));
        }
        let h = walk_node(pages, ns[0], st);
        lemma_rev_block_run(pages, ns.drop_first(), h.1);
        lemma_walk_from_shift(pages, ns, 1, h.1);
        // the unsupported and size accounting shift the same way
        assert(any_unsupported(ns, 0) == (has_unsupported(ns[0]) || any_unsupported(
            ns.drop_first(),
            0,
        ))) by {
            lemma_any_shift(ns, 1);
        }
        assert(sizes_from(ns, 0) == node_size(ns[0]) + sizes_from(ns.drop_first(), 0)) by {
            lemma_sizes_shift(ns, 1);
        }
    }
}

pub proof fn lemma_any_shift(ns: Seq<Node>, i: int)
    requires
        1 <= i <= ns.len(),
    ensures
        any_unsupported(ns, i) == any_unsupported(ns.drop_first(), i - 1),
    decreases ns.len() - i,
{
    if i < ns.len() {
        assert(ns.drop_first()[i - 1] == ns[i]);
        lemma_any_shift(ns, i + 1);
    }
}

pub proof fn lemma_sizes_shift(ns: Seq<Node>, i: int)
    requires
        1 <= i <= ns.len(),
    ensures
        sizes_from(ns, i) == sizes_from(ns.drop_first(), i - 1),
    decreases ns.len() - i,
{
    if i < ns.len() {
        assert(ns.drop_first()[i - 1] == ns[i]);
        lemma_sizes_shift(ns, i + 1);
    }
}

/// A list none of whose trees holds an unsupported construct reports
/// none from any index.
pub proof fn lemma_any_none(ns: Seq<Node>, i: int)
    requires
        0 <= i <= ns.len(),
        forall|k: int| 0 <= k < ns.len() ==> !has_unsupported(#[trigger] ns[k]),
    ensures
        !any_unsupported(ns, i),
    decreases ns.len() - i,
{
    if i < ns.len() {
        lemma_any_none(ns, i + 1);
    }
}

/// If one tree in a list holds an unsupported construct, the list
/// reports it.
pub proof fn lemma_any_from(ns: Seq<Node>, i: int)
    requires
        0 <= i < ns.len(),
        has_unsupported(ns[i]),
    ensures
        any_unsupported(ns, 0),
{
    lemma_any_upto(ns, 0, i);
}

proof fn lemma_any_upto(ns: Seq<Node>, j: int, i: int)
    requires
        0 <= j <= i < ns.len(),
        has_unsupported(ns[i]),
    ensures
        any_unsupported(ns, j),
    decreases i - j,
{
    if j < i {
        lemma_any_upto(ns, j + 1, i);
    }
}

/// What popping a container node and pushing its closing text and its
/// children does to the whole stack's run.
pub proof fn lemma_container_step(
    pages: Seq<GPage>,
    popped: Seq<GWork>,
    n: Node,
    open: Seq<char>,
    close: Seq<char>,
    children: Seq<Node>,
    st: RState,
)
    requires
        walk_node(pages, n, st).0 =~= open + walk_from(pages, children, 0, st).0 + close,
        walk_node(pages, n, st).1 =~= walk_from(pages, children, 0, st).1,
        has_unsupported(n) == any_unsupported(children, 0),
        node_size(n) >= 1 + sizes_from(children, 0),
    ensures
        ({
            let full = stack_run(pages, popped.push(GWork::N(n)), st);
            let wf = walk_from(pages, children, 0, st);
            let after = stack_run(pages, popped + seq![GWork::Text(close)] + rev_work(children), st);
            &&& full.0 =~= open + after.0
            &&& full.1 =~= after.1
            &&& stack_any(popped + seq![GWork::Text(close)] + rev_work(children)) == stack_any(
                popped.push(GWork::N(n)),
            )
            &&& stack_measure(popped + seq![GWork::Text(close)] + rev_work(children))
                < stack_measure(popped.push(GWork::N(n)))
        }),
{
    let wf = walk_from(pages, children, 0, st);
    let tclose = seq![GWork::Text(close)];
    let rv = rev_work(children);
    lemma_stack_run_push(pages, popped, GWork::N(n), st);
    lemma_rev_block_run(pages, children, st);
    assert(tclose.last() == GWork::Text(close));
    assert(tclose.drop_last() =~= Seq::<GWork>::empty());
    assert(stack_run(pages, Seq::<GWork>::empty(), wf.1).0 =~= Seq::<char>::empty());
    assert(stack_run(pages, tclose, wf.1).0 =~= close);
    assert(stack_run(pages, tclose, wf.1).1 =~= wf.1);
    assert(stack_measure(tclose) == 1) by {
        assert(stack_measure(Seq::<GWork>::empty()) == 0);
    }
    assert(!stack_any(tclose)) by {
        assert(!stack_any(Seq::<GWork>::empty()));
    }
    lemma_stack_run_app(pages, popped, tclose, wf.1);
    lemma_stack_run_app(pages, popped + tclose, rv, st);
    assert(stack_run(pages, rv, st).1 == wf.1);
    assert(stack_run(pages, popped + tclose + rv, st).0 =~= wf.0 + (close + stack_run(
        pages,
        popped,
        wf.1,
    ).0));
    assert(stack_run(pages, popped + tclose + rv, st).1 =~= stack_run(pages, popped, wf.1).1);
    assert(stack_run(pages, popped.push(GWork::N(n)), st).0 =~= (open + wf.0 + close) + stack_run(
        pages,
        popped,
        wf.1,
    ).0);
    assert(open + stack_run(pages, popped + tclose + rv, st).0 =~= (open + wf.0 + close)
        + stack_run(pages, popped, wf.1).0);
}

/// One pending unit of work on the render stack.
pub enum Work<'a> {
    N(&'a Node),
    Lit(&'static str),
    Str(String),
}

impl<'a> View for Work<'a> {
    type V = GWork;

    open spec fn view(&self) -> GWork {
        match self {
            Work::N(n) => GWork::N(**n),
            Work::Lit(s) => GWork::Text(s@),
            Work::Str(s) => GWork::Text(s@),
        }
    }
}

/// The views of the pending work.
pub open spec fn wviews<'a>(ws: Seq<Work<'a>>) -> Seq<GWork> {
    ws.map_values(|w: Work<'a>| w@)
}

/// Every pending node's tree is no bigger than `bound`.
pub open spec fn stack_sized(ws: Seq<GWork>, bound: nat) -> bool {
    forall|k: int|
        0 <= k < ws.len() ==> (match #[trigger] ws[k] {
            GWork::N(m) => node_size(m) <= bound,
            GWork::Text(_) => true,
        })
}

proof fn lemma_push_sizes(popped: Seq<GWork>, close: Seq<char>, children: Seq<Node>, bound: nat)
    requires
        stack_sized(popped, bound),
        sizes_from(children, 0) <= bound,
    ensures
        stack_sized(popped + seq![GWork::Text(close)] + rev_work(children), bound),
{
    let t = popped + seq![GWork::Text(close)] + rev_work(children);
    assert forall|k: int| 0 <= k < t.len() implies (match #[trigger] t[k] {
        GWork::N(m) => node_size(m) <= bound,
        GWork::Text(_) => true,
    }) by {
        if k < popped.len() {
            assert(t[k] == popped[k]);
        } else if k == popped.len() {
            assert(t[k] == GWork::Text(close));
        } else {
            let j = children.len() - 1 - (k - popped.len() - 1);
            assert(t[k] == GWork::N(children[j]));
            lemma_child_size(children, j);
        }
    }
}

/// Push a node's children, last first, so they pop in order.
fn push_children<'a>(stack: &mut Vec<Work<'a>>, children: &'a Vec<Node>)
    ensures
        wviews(final(stack)@) =~= wviews(old(stack)@) + rev_work(children@),
{
    let mut c: usize = children.len();
    proof {
        assert(rev_work(children@.skip(c as int)) =~= Seq::<GWork>::empty());
    }
    while c > 0
        invariant
            c <= children@.len(),
            wviews(stack@) =~= wviews(old(stack)@) + rev_work(children@.skip(c as int)),
        decreases c,
    {
        let ghost pre = wviews(stack@);
        stack.push(Work::N(&children[c - 1]));
        proof {
            assert(wviews(stack@) =~= pre.push(GWork::N(children@[c - 1])));
            assert(rev_work(children@.skip(c as int - 1)) =~= rev_work(
                children@.skip(c as int),
            ).push(GWork::N(children@[c - 1])));
        }
        c = c - 1;
    }
    proof {
        assert(children@.skip(0) =~= children@);
    }
}

/// Append the warnings of one log to a warning list.
fn append_warns(dst: &mut Vec<String>, src: &Vec<String>)
    ensures
        final(dst).deep_view() =~= old(dst).deep_view() + src.deep_view(),
{
    let mut k: usize = 0;
    while k < src.len()
        invariant
            k <= src@.len(),
            dst.deep_view() =~= old(dst).deep_view() + src.deep_view().take(k as int),
        decreases src@.len() - k,
    {
        let ghost pre = dst.deep_view();
        dst.push(src[k].as_str().to_owned());
        proof {
            assert(dst.deep_view() =~= pre.push(src@[k as int]@));
            assert(src.deep_view().take(k as int + 1) =~= src.deep_view().take(k as int).push(
                src@[k as int]@,
            ));
        }
        k = k + 1;
    }
    proof {
        assert(src.deep_view().take(src@.len() as int) =~= src.deep_view());
    }
}

/// Render one document tree to HTML against the content index.
///
/// The walk is driven by an explicit work stack, so arbitrarily deep
/// input costs no call stack; footnote definitions are the one place
/// that recurses, each definition's content being a full render of its
/// own.  The result is the body markup followed by the footnotes
/// section, plus the render's log.  The only error is an unsupported
/// construct; every other irregularity degrades in place.
#[verifier::rlimit(100)]
pub fn write_md_ast<'a>(site_map: &SiteMap, ast: &'a Node) -> (r: Result<(String, Log), RenderError>)
    ensures
        (r is Ok) == !has_unsupported(*ast),
        r matches Ok(p) ==> p.0@ == doc_render(site_map@.pages, *ast).0 && p.1.math == doc_render(
            site_map@.pages,
            *ast,
        ).1 && p.1.warnings.deep_view() == doc_render(site_map@.pages, *ast).2,
    decreases node_size(*ast), 1int,
{
    let ghost gp = site_map@.pages;
    let ghost total = walk_node(gp, *ast, init_rstate());
    let ghost sz = node_size(*ast);
    let mut out = String::new();
    let mut ids = Sequential::default();
    let mut slots: Vec<Option<String>> = Vec::new();
    let mut math = false;
    let mut warns: Vec<String> = Vec::new();
    let mut stack: Vec<Work<'a>> = Vec::new();
    stack.push(Work::N(ast));
    proof {
        let cur = RState {
            ids: ids@,
            slots: slots.deep_view(),
            math: math,
            warns: warns.deep_view(),
        };
        assert(cur =~= init_rstate());
        assert(wviews(stack@) =~= Seq::<GWork>::empty().push(GWork::N(*ast)));
        lemma_stack_run_push(gp, Seq::<GWork>::empty(), GWork::N(*ast), cur);
        assert(stack_run(gp, Seq::<GWork>::empty(), walk_node(gp, *ast, cur).1).0 =~= Seq::<
            char,
        >::empty());
        assert(total.0 =~= out@ + stack_run(gp, wviews(stack@), cur).0);
        assert(total.1 =~= stack_run(gp, wviews(stack@), cur).1);
        assert(!stack_any(Seq::<GWork>::empty()));
        assert(stack_measure(Seq::<GWork>::empty()) == 0);
    }
    while stack.len() != 0
        invariant
            gp == site_map@.pages,
            total == walk_node(gp, *ast, init_rstate()),
            sz == node_size(*ast),
            slots.deep_view().len() == ids@.len(),
            ({
                let cur = RState {
                    ids: ids@,
                    slots: slots.deep_view(),
                    math: math,
                    warns: warns.deep_view(),
                };
                &&& total.0 =~= out@ + stack_run(gp, wviews(stack@), cur).0
                &&& total.1 =~= stack_run(gp, wviews(stack@), cur).1
            }),
            has_unsupported(*ast) == stack_any(wviews(stack@)),
            stack_sized(wviews(stack@), sz),
        decreases stack_measure(wviews(stack@)),
    {
        let ghost pre_stack = wviews(stack@);
        let ghost pre_out = out@;
        let ghost cur = RState {
            ids: ids@,
            slots: slots.deep_view(),
            math: math,
            warns: warns.deep_view(),
        };
        let w = stack.pop().unwrap();
        let ghost popped = wviews(stack@);
        proof {
            assert(pre_stack =~= popped.push(w@));
            assert(stack_sized(popped, sz)) by {
                assert(forall|k: int| 0 <= k < popped.len() ==> popped[k] == pre_stack[k]);
            }
            assert((match pre_stack.last() {
                GWork::N(m) => node_size(m) <= sz,
                GWork::Text(_) => true,
            }));
            lemma_stack_run_push(gp, popped, w@, cur);
        }
        match w {
            Work::Lit(s) => {
                out.append(s);
                proof {
                    assert(pre_out + (s@ + stack_run(gp, popped, cur).0) =~= (pre_out + s@)
                        + stack_run(gp, popped, cur).0);
                }
            },
            Work::Str(s) => {
                out.append(s.as_str());
                proof {
                    assert(pre_out + (s@ + stack_run(gp, popped, cur).0) =~= (pre_out + s@)
                        + stack_run(gp, popped, cur).0);
                }
            },
            Work::N(n) => {
                proof {
                    assert(w@ == GWork::N(*n));
                    assert(node_size(*n) <= sz);
                }
                match step_node(site_map, n, &mut out, &mut stack, &mut ids, &mut slots, &mut math, &mut warns, Ghost(sz)) {
                    Ok(()) => {
                        proof {
                            let fin = RState {
                                ids: ids@,
                                slots: slots.deep_view(),
                                math: math,
                                warns: warns.deep_view(),
                            };
                            assert(total.0 =~= out@ + stack_run(gp, wviews(stack@), fin).0);
                            assert(total.1 =~= stack_run(gp, wviews(stack@), fin).1);
                        }
                    },
                    Err(e) => {
                        proof {
                            assert(has_unsupported(*n));
                            assert(stack_any(pre_stack));
                        }
                        return Err(e);
                    },
                }
            },
        }
    }
    let ghost fin = RState {
        ids: ids@,
        slots: slots.deep_view(),
        math: math,
        warns: warns.deep_view(),
    };
    proof {
        assert(wviews(stack@) =~= Seq::<GWork>::empty());
        assert(stack_run(gp, Seq::<GWork>::empty(), fin).0 =~= Seq::<char>::empty());
        assert(total.0 =~= out@);
        assert(total.1 =~= fin);
        assert(!has_unsupported(*ast));
    }
    let ghost ids_g = ids@;
    let ghost slots_g = slots.deep_view();
    out.append("<section class=\"footnotes\">\n<ol>\n");
    let ghost base2 = out@;
    let nslots = slots.len();
    let mut i: usize = 0;
    while i < nslots
        invariant
            nslots == slots@.len(),
            i <= nslots,
            ids_g == ids@,
            slots_g == slots.deep_view(),
            slots_g.len() == ids_g.len(),
            slots_g.len() == slots@.len(),
            base2 + slots_html(ids_g, slots_g, 0) =~= out@ + slots_html(ids_g, slots_g, i as int),
        decreases nslots - i,
    {
        let ghost item_base = out@;
        proof {
            assert(slots_html(ids_g, slots_g, i as int) =~= (match slots_g[i as int] {
                None => "<li>???</li>\n"@,
                Some(h) => "<li id=\"fn-"@ + ids_g[i as int] + "\">"@ + h + "</li>\n"@,
            }) + slots_html(ids_g, slots_g, i as int + 1));
            assert(slots_g[i as int] == (match slots@[i as int] {
                Some(s) => Some(s@),
                None => None,
            }));
        }
        match &slots[i] {
            None => {
                out.append("<li>???</li>\n");
            },
            Some(html) => {
                out.append("<li id=\"fn-");
                let key = ids.key_at(i);
                out.append(key.as_str());
                out.append("\">");
                out.append(html.as_str());
                out.append("</li>\n");
                proof {
                    assert(out@ =~= item_base + ("<li id=\"fn-"@ + ids_g[i as int] + "\">"@
                        + html@ + "</li>\n"@));
                }
            },
        }
        i = i + 1;
    }
    proof {
        assert(slots_html(ids_g, slots_g, nslots as int) =~= Seq::<char>::empty());
    }
    out.append("</ol>\n</section>");
    out.append("\n");
    proof {
        assert(out@ =~= total.0 + footsec(fin.ids, fin.slots));
        assert(fin.ids == total.1.ids);
        assert(fin.slots == total.1.slots);
        assert(out@ =~= doc_render(gp, *ast).0);
    }
    let log = Log { math, warnings: warns };
    Ok((out, log))
}

/// Emit a container's opening text and queue its closing text and its
/// children.
fn emit_container<'a>(
    out: &mut String,
    stack: &mut Vec<Work<'a>>,
    open: &'static str,
    close: &'static str,
    children: &'a Vec<Node>,
)
    ensures
        final(out)@ =~= old(out)@ + open@,
        wviews(final(stack)@) =~= wviews(old(stack)@) + seq![GWork::Text(close@)] + rev_work(
            children@,
        ),
{
    out.append(open);
    let ghost mid0 = wviews(stack@);
    stack.push(Work::Lit(close));
    proof {
        assert(wviews(stack@) =~= mid0.push(GWork::Text(close@)));
        assert(mid0.push(GWork::Text(close@)) =~= mid0 + seq![GWork::Text(close@)]);
    }
    push_children(stack, children);
}

/// Emit a plain-text node: each segment verbatim, each reference as an
/// anchor when its name resolves and as emphasis when it does not.
fn step_text(site_map: &SiteMap, value: &str, out: &mut String)
    ensures
        final(out)@ =~= old(out)@ + segs_html(site_map@.pages, segments_spec(value@), 0),
{
    let ghost gp = site_map@.pages;
    let segs = WikiLink::segment(value);
    let ghost gsegs = segments_spec(value@);
    let ghost base = out@;
    let nsegs = segs.len();
    let mut k: usize = 0;
    while k < nsegs
        invariant
            gp == site_map@.pages,
            nsegs == segs@.len(),
            k <= nsegs,
            segs@.map_values(|g: Segment| g@) =~= gsegs,
            base + segs_html(gp, gsegs, 0) =~= out@ + segs_html(gp, gsegs, k as int),
        decreases nsegs - k,
    {
        let ghost seg_base = out@;
        proof {
            assert(gsegs[k as int] == segs@[k as int]@);
            assert(segs_html(gp, gsegs, k as int) =~= seg_html(gp, gsegs[k as int]) + segs_html(
                gp,
                gsegs,
                k as int + 1,
            ));
        }
        match &segs[k] {
            Segment::Normal(t) => {
                out.append(t.as_str());
            },
            Segment::Link(l) => {
                let disp = l.display_or_name();
                match site_map.page_by_name(l.name.as_str()) {
                    Some(page) => {
                        out.append("<a href=\"");
                        out.append(page.link.as_str());
                        out.append("\">");
                        out.append(disp.as_str());
                        out.append("</a>");
                        proof {
                            assert(out@ =~= seg_base + ("<a href=\""@ + page.link@ + "\">"@
                                + disp@ + "</a>"@));
                        }
                    },
                    None => {
                        out.append("<em>");
                        out.append(disp.as_str());
                        out.append("</em>");
                        proof {
                            assert(out@ =~= seg_base + ("<em>"@ + disp@ + "</em>"@));
                        }
                    },
                }
            },
        }
        proof {
            assert(out@ =~= seg_base + seg_html(gp, gsegs[k as int]));
            assert(base + segs_html(gp, gsegs, 0) =~= out@ + segs_html(gp, gsegs, k as int + 1));
        }
        k = k + 1;
    }
    proof {
        assert(segs_html(gp, gsegs, nsegs as int) =~= Seq::<char>::empty());
    }
}

/// Emit a math node: send the expression to the service, fall back
/// verbatim when it refuses, and record a warning then.
fn step_math(value: &str, display: bool, out: &mut String, math: &mut bool, warns: &mut Vec<String>)
    ensures
        final(out)@ =~= old(out)@ + math_markup_spec(value@, display, katex_of(value@, display)),
        *final(math) == true,
        final(warns).deep_view() =~= (if katex_of(value@, display) is None {
            old(warns).deep_view().push(value@)
        } else {
            old(warns).deep_view()
        }),
{
    let rendered = katex_render(value, display);
    let piece = math_markup(
        value,
        display,
        match &rendered {
            Some(s) => Some(s.as_str()),
            None => None,
        },
    );
    out.append(piece.as_str());
    *math = true;
    let ghost pre_warns = warns.deep_view();
    if rendered.is_none() {
        warns.push(value.to_owned());
        proof {
            assert(warns.deep_view() =~= pre_warns.push(value@));
        }
    }
}

/// Give a footnote identifier its ordinal (growing the slot array for
/// a fresh one) and emit the superscript reference to its anchor.
fn step_footref(
    identifier: &String,
    ids: &mut Sequential,
    slots: &mut Vec<Option<String>>,
    out: &mut String,
)
    requires
        old(slots).deep_view().len() == old(ids)@.len(),
    ensures
        final(ids)@ =~= ctr_lookup(old(ids)@, identifier@).1,
        final(slots).deep_view() =~= (if old(ids)@.contains(identifier@) {
            old(slots).deep_view()
        } else {
            old(slots).deep_view().push(None)
        }),
        final(slots).deep_view().len() == final(ids)@.len(),
        final(out)@ =~= old(out)@ + ("<sup><a href=\"#fn-"@ + identifier@ + "\">"@ + dec_str(
            (ctr_lookup(old(ids)@, identifier@).0 + 1) as nat,
        ) + "</a></sup>"@),
{
    let ghost pre_out = out@;
    let id = ids.value(identifier.as_str());
    proof {
        assert(slots.deep_view().len() == slots@.len());
        assert((id as int) <= slots@.len());
    }
    if (id as usize) == slots.len() {
        slots.push(None);
    }
    proof {
        assert(slots.deep_view().len() == slots@.len());
        assert((id as int) < slots@.len());
    }
    out.append("<sup><a href=\"#fn-");
    out.append(identifier.as_str());
    out.append("\">");
    let cap = slots.len();
    proof {
        assert((id as int) < cap as int);
    }
    let num = u64_to_string(id + 1);
    out.append(num.as_str());
    out.append("</a></sup>");
    proof {
        assert((id + 1) as nat == ctr_lookup(old(ids)@, identifier@).0 + 1);
        assert(out@ =~= pre_out + ("<sup><a href=\"#fn-"@ + identifier@ + "\">"@ + dec_str(
            (ctr_lookup(old(ids)@, identifier@).0 + 1) as nat,
        ) + "</a></sup>"@));
    }
}

/// Take in a footnote definition: give its identifier an ordinal,
/// render its content as full documents of their own, and store the
/// result in the identifier's slot; nothing is emitted here.
fn step_footdef<'a>(
    site_map: &SiteMap,
    identifier: &String,
    children: &'a Vec<Node>,
    ids: &mut Sequential,
    slots: &mut Vec<Option<String>>,
    math: &mut bool,
    warns: &mut Vec<String>,
) -> (r: Result<(), RenderError>)
    requires
        old(slots).deep_view().len() == old(ids)@.len(),
    ensures
        r is Ok ==> ({
            let gp = site_map@.pages;
            let lk = ctr_lookup(old(ids)@, identifier@);
            let slots1 = if old(ids)@.contains(identifier@) {
                old(slots).deep_view()
            } else {
                old(slots).deep_view().push(None)
            };
            let c = doc_children_from(gp, children@, 0);
            &&& final(ids)@ =~= lk.1
            &&& final(slots).deep_view() =~= slots1.update(lk.0, Some(c.0))
            &&& final(slots).deep_view().len() == final(ids)@.len()
            &&& *final(math) == (*old(math) || c.1)
            &&& final(warns).deep_view() =~= old(warns).deep_view() + c.2
            &&& !any_unsupported(children@, 0)
        }),
        r is Err ==> any_unsupported(children@, 0),
    decreases sizes_from(children@, 0), 2int,
{
    let ghost gp = site_map@.pages;
    let id = ids.value(identifier.as_str());
    proof {
        assert(slots.deep_view().len() == slots@.len());
        assert((id as int) <= slots@.len());
    }
    if (id as usize) == slots.len() {
        slots.push(None);
    }
    proof {
        assert(slots.deep_view() =~= (if old(ids)@.contains(identifier@) {
            old(slots).deep_view()
        } else {
            old(slots).deep_view().push(None)
        }));
        assert(slots.deep_view().len() == ids@.len());
        assert(slots.deep_view().len() == slots@.len());
        assert((id as int) < slots@.len());
    }
    let mut content = String::new();
    let mut clog = Log { math: false, warnings: Vec::new() };
    let nch = children.len();
    let mut c: usize = 0;
    while c < nch
        invariant
            gp == site_map@.pages,
            nch == children@.len(),
            c <= nch,
            forall|t: int| 0 <= t < c ==> !has_unsupported(#[trigger] children@[t]),
            content@ =~= doc_children_prefix(gp, children@, c as int).0,
            clog.math == doc_children_prefix(gp, children@, c as int).1,
            clog.warnings.deep_view() =~= doc_children_prefix(gp, children@, c as int).2,
        decreases nch - c,
    {
        proof {
            lemma_child_size(children@, c as int);
        }
        match write_md_ast(site_map, &children[c]) {
            Ok(p) => {
                let (html, lg) = p;
                content.append(html.as_str());
                clog.merge(&lg);
                proof {
                    lemma_doc_children_prefix_step(gp, children@, c as int);
                }
            },
            Err(e) => {
                proof {
                    lemma_any_from(children@, c as int);
                }
                return Err(e);
            },
        }
        c = c + 1;
    }
    slots.set(id as usize, Some(content));
    *math = *math || clog.math;
    append_warns(warns, &clog.warnings);
    proof {
        lemma_any_none(children@, 0);
        lemma_doc_children_prefix_full(gp, children@);
    }
    Ok(())
}

/// Process one popped node: emit what it emits, queue what it defers,
/// and move the footnote and log state as the walk specifies.
#[verifier::rlimit(100)]
fn step_node<'a>(
    site_map: &SiteMap,
    n: &'a Node,
    out: &mut String,
    stack: &mut Vec<Work<'a>>,
    ids: &mut Sequential,
    slots: &mut Vec<Option<String>>,
    math: &mut bool,
    warns: &mut Vec<String>,
    Ghost(sz): Ghost<nat>,
) -> (r: Result<(), RenderError>)
    requires
        node_size(*n) <= sz,
        stack_sized(wviews(old(stack)@), sz),
        old(slots).deep_view().len() == old(ids)@.len(),
    ensures
        r is Ok ==> ({
            let gp = site_map@.pages;
            let cur = RState {
                ids: old(ids)@,
                slots: old(slots).deep_view(),
                math: *old(math),
                warns: old(warns).deep_view(),
            };
            let fin = RState {
                ids: final(ids)@,
                slots: final(slots).deep_view(),
                math: *final(math),
                warns: final(warns).deep_view(),
            };
            let pre = wviews(old(stack)@).push(GWork::N(*n));
            &&& old(out)@ + stack_run(gp, pre, cur).0 =~= final(out)@ + stack_run(
                gp,
                wviews(final(stack)@),
                fin,
            ).0
            &&& stack_run(gp, pre, cur).1 =~= stack_run(gp, wviews(final(stack)@), fin).1
            &&& stack_any(wviews(final(stack)@)) == stack_any(pre)
            &&& stack_measure(wviews(final(stack)@)) < stack_measure(pre)
            &&& stack_sized(wviews(final(stack)@), sz)
            &&& final(slots).deep_view().len() == final(ids)@.len()
        }),
        r is Err ==> has_unsupported(*n),
    decreases node_size(*n), 0int,
{
    let ghost gp = site_map@.pages;
    let ghost popped = wviews(stack@);
    let ghost pre_out = out@;
    let ghost cur = RState {
        ids: ids@,
        slots: slots.deep_view(),
        math: *math,
        warns: warns.deep_view(),
    };
    match n {
        Node::Root { children } => {
            emit_container(out, stack, "", "", children);
            proof {
                reveal_strlit("");
                assert(""@ =~= Seq::<char>::empty());
                assert(walk_node(gp, *n, cur).0 =~= ""@ + walk_from(gp, children@, 0, cur).0
                    + ""@);
                container_glue(gp, popped, *n, ""@, ""@, children@, cur, pre_out, out@, wviews(stack@), sz);
            }
        },
        Node::Paragraph { children } => {
            emit_container(out, stack, "\n<p>", "</p>", children);
            proof {
                container_glue(gp, popped, *n, "\n<p>"@, "</p>"@, children@, cur, pre_out, out@, wviews(stack@), sz);
            }
        },
        Node::Blockquote { children } => {
            emit_container(out, stack, "\n<blockquote>", "</blockquote>", children);
            proof {
                container_glue(gp, popped, *n, "\n<blockquote>"@, "</blockquote>"@, children@, cur, pre_out, out@, wviews(stack@), sz);
            }
        },
        Node::Delete { children } => {
            emit_container(out, stack, "<del>", "</del>", children);
            proof {
                container_glue(gp, popped, *n, "<del>"@, "</del>"@, children@, cur, pre_out, out@, wviews(stack@), sz);
            }
        },
        Node::Emphasis { children } => {
            emit_container(out, stack, "<em>", "</em>", children);
            proof {
                container_glue(gp, popped, *n, "<em>"@, "</em>"@, children@, cur, pre_out, out@, wviews(stack@), sz);
            }
        },
        Node::Strong { children } => {
            emit_container(out, stack, "<strong>", "</strong>", children);
            proof {
                container_glue(gp, popped, *n, "<strong>"@, "</strong>"@, children@, cur, pre_out, out@, wviews(stack@), sz);
            }
        },
        Node::Table { children } => {
            emit_container(out, stack, "\n<table>", "\n</table>", children);
            proof {
                container_glue(gp, popped, *n, "\n<table>"@, "\n</table>"@, children@, cur, pre_out, out@, wviews(stack@), sz);
            }
        },
        Node::TableRow { children } => {
            emit_container(out, stack, "\n<tr>", "\n</tr>", children);
            proof {
                container_glue(gp, popped, *n, "\n<tr>"@, "\n</tr>"@, children@, cur, pre_out, out@, wviews(stack@), sz);
            }
        },
        Node::TableCell { children } => {
            emit_container(out, stack, "\n<th>", "</th>", children);
            proof {
                container_glue(gp, popped, *n, "\n<th>"@, "</th>"@, children@, cur, pre_out, out@, wviews(stack@), sz);
            }
        },
        Node::List { ordered, children } => {
            if *ordered {
                emit_container(out, stack, "\n<ol>", "</ol>", children);
                proof {
                    container_glue(gp, popped, *n, "\n<ol>"@, "</ol>"@, children@, cur, pre_out, out@, wviews(stack@), sz);
                }
            } else {
                emit_container(out, stack, "\n<ul>", "</ul>", children);
                proof {
                    container_glue(gp, popped, *n, "\n<ul>"@, "</ul>"@, children@, cur, pre_out, out@, wviews(stack@), sz);
                }
            }
        },
        Node::Link { url, children } => {
            out.append("<a href=");
            out.append(url.as_str());
            out.append(">");
            let ghost mid_out = out@;
            let ghost mid0 = wviews(stack@);
            stack.push(Work::Lit("</a>"));
            proof {
                assert(wviews(stack@) =~= mid0.push(GWork::Text("</a>"@)));
                assert(mid0.push(GWork::Text("</a>"@)) =~= mid0 + seq![GWork::Text("</a>"@)]);
            }
            push_children(stack, children);
            proof {
                assert(mid_out =~= pre_out + ("<a href="@ + url@ + ">"@)) by {
                    assert(((pre_out + "<a href="@) + url@) + ">"@ =~= pre_out + ("<a href="@
                        + url@ + ">"@));
                }
                container_glue(gp, popped, *n, "<a href="@ + url@ + ">"@, "</a>"@, children@, cur, pre_out, out@, wviews(stack@), sz);
            }
        },
        Node::Heading { depth, children } => {
            let num = u64_to_string(*depth as u64);
            out.append("\n<h");
            out.append(num.as_str());
            out.append(">");
            let mut close = String::new();
            close.append("</h");
            close.append(num.as_str());
            close.append(">");
            let ghost close_g = close@;
            let ghost mid_out = out@;
            let ghost mid0 = wviews(stack@);
            stack.push(Work::Str(close));
            proof {
                assert(wviews(stack@) =~= mid0.push(GWork::Text(close_g)));
                assert(mid0.push(GWork::Text(close_g)) =~= mid0 + seq![GWork::Text(close_g)]);
            }
            push_children(stack, children);
            proof {
                assert(num@ == dec_str(*depth as nat));
                assert(close_g =~= "</h"@ + dec_str(*depth as nat) + ">"@);
                assert(mid_out =~= pre_out + ("\n<h"@ + dec_str(*depth as nat) + ">"@)) by {
                    assert(((pre_out + "\n<h"@) + dec_str(*depth as nat)) + ">"@ =~= pre_out + (
                    "\n<h"@ + dec_str(*depth as nat) + ">"@));
                }
                container_glue(gp, popped, *n, "\n<h"@ + dec_str(*depth as nat) + ">"@, close_g, children@, cur, pre_out, out@, wviews(stack@), sz);
            }
        },
        Node::ListItem { spread, children } => {
            let unwrap_one = !*spread && children.len() == 1 && (matches!(
                &children[0],
                Node::Paragraph { .. }
            ));
            let use_children: &Vec<Node> = if unwrap_one {
                match &children[0] {
                    Node::Paragraph { children: inner } => inner,
                    _ => children,
                }
            } else {
                children
            };
            emit_container(out, stack, "<li>", "</li>", use_children);
            proof {
                if unwrap_one {
                    assert(children@[0] is Paragraph);
                    assert(has_unsupported(*n) == any_unsupported(children@, 0));
                    assert(any_unsupported(children@, 0) == (has_unsupported(children@[0])
                        || any_unsupported(children@, 1)));
                    assert(!any_unsupported(children@, 1));
                    assert(has_unsupported(children@[0]) == any_unsupported(use_children@, 0));
                    assert(sizes_from(children@, 0) == node_size(children@[0]) + sizes_from(
                        children@,
                        1,
                    ));
                    assert(sizes_from(children@, 1) == 0);
                    assert(node_size(children@[0]) == 1 + sizes_from(use_children@, 0));
                }
                container_glue(gp, popped, *n, "<li>"@, "</li>"@, use_children@, cur, pre_out, out@, wviews(stack@), sz);
            }
        },
        Node::Yaml { .. } => {
            proof {
                leaf_glue(gp, popped, *n, cur, pre_out, out@, sz);
            }
        },
        Node::Break => {
            out.append("\n<br/>");
            proof {
                leaf_glue(gp, popped, *n, cur, pre_out, out@, sz);
            }
        },
        Node::ThematicBreak => {
            out.append("\n<hr />");
            proof {
                leaf_glue(gp, popped, *n, cur, pre_out, out@, sz);
            }
        },
        Node::Html { value } => {
            out.append(value.as_str());
            proof {
                leaf_glue(gp, popped, *n, cur, pre_out, out@, sz);
            }
        },
        Node::InlineCode { value } => {
            out.append("<code>");
            out.append(value.as_str());
            out.append("</code>");
            proof {
                assert(out@ =~= pre_out + ("<code>"@ + value@ + "</code>"@));
                leaf_glue(gp, popped, *n, cur, pre_out, out@, sz);
            }
        },
        Node::Code { value } => {
            out.append("\n<pre><code>");
            out.append(value.as_str());
            out.append("</code></pre>");
            proof {
                assert(out@ =~= pre_out + ("\n<pre><code>"@ + value@ + "</code></pre>"@));
                leaf_glue(gp, popped, *n, cur, pre_out, out@, sz);
            }
        },
        Node::Image { url, alt, title } => {
            out.append("\n<img src=");
            out.append(url.as_str());
            out.append(" alt=");
            out.append(alt.as_str());
            out.append(" ");
            match title {
                Some(t) => {
                    out.append("title=");
                    out.append(t.as_str());
                },
                None => {},
            }
            out.append("/>");
            proof {
                let tpart = match title {
                    Some(t) => "title="@ + t@,
                    None => Seq::<char>::empty(),
                };
                assert(out@ =~= pre_out + ("\n<img src="@ + url@ + " alt="@ + alt@ + " "@ + tpart
                    + "/>"@));
                leaf_glue(gp, popped, *n, cur, pre_out, out@, sz);
            }
        },
        Node::InlineMath { value } => {
            step_math(value.as_str(), false, out, math, warns);
            proof {
                assert((RState {
                    ids: ids@,
                    slots: slots.deep_view(),
                    math: *math,
                    warns: warns.deep_view(),
                }) =~= walk_node(gp, *n, cur).1);
                leaf_glue(gp, popped, *n, cur, pre_out, out@, sz);
            }
        },
        Node::Math { value } => {
            step_math(value.as_str(), true, out, math, warns);
            proof {
                assert((RState {
                    ids: ids@,
                    slots: slots.deep_view(),
                    math: *math,
                    warns: warns.deep_view(),
                }) =~= walk_node(gp, *n, cur).1);
                leaf_glue(gp, popped, *n, cur, pre_out, out@, sz);
            }
        },
        Node::FootnoteReference { identifier } => {
            step_footref(identifier, ids, slots, out);
            proof {
                assert((RState {
                    ids: ids@,
                    slots: slots.deep_view(),
                    math: *math,
                    warns: warns.deep_view(),
                }) =~= walk_node(gp, *n, cur).1);
                leaf_glue(gp, popped, *n, cur, pre_out, out@, sz);
            }
        },
        Node::Text { value } => {
            step_text(site_map, value.as_str(), out);
            proof {
                leaf_glue(gp, popped, *n, cur, pre_out, out@, sz);
            }
        },
        Node::FootnoteDefinition { identifier, children } => {
            proof {
                assert(node_size(*n) == 1 + sizes_from(children@, 0));
            }
            match step_footdef(site_map, identifier, children, ids, slots, math, warns) {
                Ok(()) => {
                    proof {
                        assert(!has_unsupported(*n));
                        let st2 = walk_node(gp, *n, cur).1;
                        let fin = RState {
                            ids: ids@,
                            slots: slots.deep_view(),
                            math: *math,
                            warns: warns.deep_view(),
                        };
                        assert(fin =~= st2);
                        assert(walk_node(gp, *n, cur).0 =~= Seq::<char>::empty());
                        assert(out@ =~= pre_out + walk_node(gp, *n, cur).0);
                        leaf_glue(gp, popped, *n, cur, pre_out, out@, sz);
                    }
                },
                Err(e) => {
                    proof {
                        assert(has_unsupported(*n));
                    }
                    return Err(e);
                },
            }
        },
        Node::Unsupported { kind } => {
            proof {
                assert(has_unsupported(*n));
            }
            return Err(RenderError::Unsupported(kind.as_str().to_owned()));
        },
    }
    Ok(())
}

/// A prefix of the full renders of a list of trees: what the first `c`
/// contribute.
pub open spec fn doc_children_prefix(pages: Seq<GPage>, ns: Seq<Node>, c: int) -> (
    Seq<char>,
    bool,
    Seq<Seq<char>>,
)
    decreases c,
{
    if c <= 0 {
        (Seq::empty(), false, Seq::empty())
    } else {
        let p = doc_children_prefix(pages, ns, c - 1);
        let d = doc_render(pages, ns[c - 1]);
        (p.0 + d.0, p.1 || d.1, p.2 + d.2)
    }
}

pub proof fn lemma_doc_children_prefix_step(pages: Seq<GPage>, ns: Seq<Node>, c: int)
    requires
        0 <= c < ns.len(),
    ensures
        doc_children_prefix(pages, ns, c + 1).0 =~= doc_children_prefix(pages, ns, c).0
            + doc_render(pages, ns[c]).0,
        doc_children_prefix(pages, ns, c + 1).1 == (doc_children_prefix(pages, ns, c).1
            || doc_render(pages, ns[c]).1),
        doc_children_prefix(pages, ns, c + 1).2 =~= doc_children_prefix(pages, ns, c).2
            + doc_render(pages, ns[c]).2,
{
}

/// The whole prefix is the definition-content render.
pub proof fn lemma_doc_children_prefix_full(pages: Seq<GPage>, ns: Seq<Node>)
    ensures
        doc_children_prefix(pages, ns, ns.len() as int).0 =~= doc_children_from(pages, ns, 0).0,
        doc_children_prefix(pages, ns, ns.len() as int).1 == doc_children_from(pages, ns, 0).1,
        doc_children_prefix(pages, ns, ns.len() as int).2 =~= doc_children_from(pages, ns, 0).2,
{
    lemma_doc_children_split(pages, ns, ns.len() as int);
    assert(doc_children_from(pages, ns, ns.len() as int).0 =~= Seq::<char>::empty());
    assert(doc_children_from(pages, ns, ns.len() as int).2 =~= Seq::<Seq<char>>::empty());
}

proof fn lemma_doc_children_split(pages: Seq<GPage>, ns: Seq<Node>, i: int)
    requires
        0 <= i <= ns.len(),
    ensures
        doc_children_from(pages, ns, 0).0 =~= doc_children_prefix(pages, ns, i).0
            + doc_children_from(pages, ns, i).0,
        doc_children_from(pages, ns, 0).1 == (doc_children_prefix(pages, ns, i).1
            || doc_children_from(pages, ns, i).1),
        doc_children_from(pages, ns, 0).2 =~= doc_children_prefix(pages, ns, i).2
            + doc_children_from(pages, ns, i).2,
    decreases i,
{
    if i == 0 {
    } else {
        lemma_doc_children_split(pages, ns, i - 1);
        let p = doc_children_prefix(pages, ns, i - 1);
        let d = doc_render(pages, ns[i - 1]);
        assert(doc_children_from(pages, ns, i - 1).0 =~= d.0 + doc_children_from(pages, ns, i).0);
        assert(doc_children_from(pages, ns, i - 1).2 =~= d.2 + doc_children_from(pages, ns, i).2);
        assert(p.0 + (d.0 + doc_children_from(pages, ns, i).0) =~= (p.0 + d.0)
            + doc_children_from(pages, ns, i).0);
        assert(p.2 + (d.2 + doc_children_from(pages, ns, i).2) =~= (p.2 + d.2)
            + doc_children_from(pages, ns, i).2);
    }
}

/// The glue a container arm needs: after emitting the opening text and
/// queueing the closing text and the children, the whole stack's run
/// is what it was with the node still pending.
proof fn container_glue(
    pages: Seq<GPage>,
    popped: Seq<GWork>,
    n: Node,
    open: Seq<char>,
    close: Seq<char>,
    children: Seq<Node>,
    st: RState,
    pre_out: Seq<char>,
    new_out: Seq<char>,
    new_stack: Seq<GWork>,
    sz: nat,
)
    requires
        walk_node(pages, n, st).0 =~= open + walk_from(pages, children, 0, st).0 + close,
        walk_node(pages, n, st).1 =~= walk_from(pages, children, 0, st).1,
        has_unsupported(n) == any_unsupported(children, 0),
        node_size(n) >= 1 + sizes_from(children, 0),
        node_size(n) <= sz,
        stack_sized(popped, sz),
        new_out =~= pre_out + open,
        new_stack =~= popped + seq![GWork::Text(close)] + rev_work(children),
    ensures
        pre_out + stack_run(pages, popped.push(GWork::N(n)), st).0 =~= new_out + stack_run(
            pages,
            new_stack,
            st,
        ).0,
        stack_run(pages, popped.push(GWork::N(n)), st).1 =~= stack_run(pages, new_stack, st).1,
        stack_any(new_stack) == stack_any(popped.push(GWork::N(n))),
        stack_measure(new_stack) < stack_measure(popped.push(GWork::N(n))),
        stack_sized(new_stack, sz),
{
    lemma_container_step(pages, popped, n, open, close, children, st);
    lemma_push_sizes(popped, close, children, sz);
    let after = stack_run(pages, popped + seq![GWork::Text(close)] + rev_work(children), st);
    assert(pre_out + (open + after.0) =~= (pre_out + open) + after.0);
    assert(stack_run(pages, new_stack, st).0 =~= after.0);
    assert(stack_run(pages, new_stack, st).1 =~= after.1);
    assert(stack_measure(new_stack) == stack_measure(
        popped + seq![GWork::Text(close)] + rev_work(children),
    ));
    assert(stack_any(new_stack) == stack_any(
        popped + seq![GWork::Text(close)] + rev_work(children),
    ));
    assert(stack_sized(new_stack, sz)) by {
        assert(forall|k: int|
            0 <= k < new_stack.len() ==> new_stack[k] == (popped + seq![GWork::Text(close)]
                + rev_work(children))[k]);
    }
}

/// The glue a leaf arm needs: the node emitted its text and moved the
/// state, and the stack lost its top.
proof fn leaf_glue(
    pages: Seq<GPage>,
    popped: Seq<GWork>,
    n: Node,
    st: RState,
    pre_out: Seq<char>,
    new_out: Seq<char>,
    sz: nat,
)
    requires
        new_out =~= pre_out + walk_node(pages, n, st).0,
        !has_unsupported(n),
        stack_sized(popped, sz),
    ensures
        pre_out + stack_run(pages, popped.push(GWork::N(n)), st).0 =~= new_out + stack_run(
            pages,
            popped,
            walk_node(pages, n, st).1,
        ).0,
        stack_run(pages, popped.push(GWork::N(n)), st).1 =~= stack_run(
            pages,
            popped,
            walk_node(pages, n, st).1,
        ).1,
        stack_any(popped) == stack_any(popped.push(GWork::N(n))),
        stack_measure(popped) < stack_measure(popped.push(GWork::N(n))),
        stack_sized(popped, sz),
{
    lemma_stack_run_push(pages, popped, GWork::N(n), st);
    assert(pre_out + (walk_node(pages, n, st).0 + stack_run(
        pages,
        popped,
        walk_node(pages, n, st).1,
    ).0) =~= (pre_out + walk_node(pages, n, st).0) + stack_run(
        pages,
        popped,
        walk_node(pages, n, st).1,
    ).0);
    assert(node_size(n) >= 1);
}

// ---------------------------------------------------------------------
// the front-matter block of a tree
// ---------------------------------------------------------------------
/// The first header block among a list of nodes, from `i` on.
pub open spec fn first_yaml(ns: Seq<Node>, i: int) -> Option<Seq<char>>
    decreases ns.len() - i,
{
    if i < 0 || i >= ns.len() {
        None
    } else {
        match ns[i] {
            Node::Yaml { value } => Some(value@),
            _ => first_yaml(ns, i + 1),
        }
    }
}

/// The header block a document carries, if any: the root's first
/// header child, or the tree itself when it is one.
pub open spec fn yaml_of(n: Node) -> Option<Seq<char>> {
    match n {
        Node::Root { children } => first_yaml(children@, 0),
        Node::Yaml { value } => Some(value@),
        _ => None,
    }
}

/// Find the header block of a document tree, to hand to the metadata
/// extractor; the render itself skips it.
pub fn find_yaml_frontmatter(ast: &Node) -> (r: Option<&String>)
    ensures
        (match r {
            Some(v) => yaml_of(*ast) == Some(v@),
            None => yaml_of(*ast) is None,
        }),
{
    match ast {
        Node::Yaml { value } => Some(value),
        Node::Root { children } => {
            let n = children.len();
            let mut i: usize = 0;
            while i < n
                invariant
                    *ast is Root,
                    ast->Root_children == *children,
                    n == children@.len(),
                    i <= n,
                    first_yaml(children@, 0) == first_yaml(children@, i as int),
                decreases n - i,
            {
                match &children[i] {
                    Node::Yaml { value } => {
                        proof {
                            assert(first_yaml(children@, i as int) == Some(value@));
                            assert(*ast is Root);
                            assert(ast->Root_children == *children);
                            assert(yaml_of(*ast) == first_yaml(children@, 0));
                        }
                        return Some(value);
                    },
                    _ => {
                        proof {
                            assert(first_yaml(children@, i as int) == first_yaml(
                                children@,
                                i as int + 1,
                            ));
                        }
                    },
                }
                i = i + 1;
            }
            None
        },
        _ => None,
    }
}

} // verus!
