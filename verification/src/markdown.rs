use vstd::prelude::*;

verus! {

// ---------------------------------------------------------------------------
// The document tree
// ---------------------------------------------------------------------------

/// A byte-offset range inside the source text.
#[derive(PartialEq, Eq, Debug, Clone, Copy, Structural)]
pub struct Span {
    pub start: usize,
    pub end: usize,
}

/// What a tree node is: a YAML frontmatter block, a link, or anything else.
#[derive(Debug)]
pub enum MdKind {
    Yaml { value: String },
    Link { url: String, position: Option<Span> },
    Other,
}

/// A node of the parsed Markdown document: its kind and its children in
/// document order.
#[derive(Debug)]
pub struct MdNode {
    pub kind: MdKind,
    pub children: Vec<MdNode>,
}

/// An outgoing link: its target text and its byte range in the source.
#[derive(PartialEq, Eq, Debug, Clone)]
pub struct Link {
    pub url: String,
    pub position: Option<Span>,
}

/// Parsing failed; carries the parser's message.
#[derive(Debug, Clone)]
pub struct MdParseError(pub String);

/// The document has no frontmatter block.
#[derive(PartialEq, Eq, Debug, Clone, Copy, Structural)]
pub struct NoFrontmatter;

// ---------------------------------------------------------------------------
// Parsing (trusted boundary)
// ---------------------------------------------------------------------------

pub uninterp spec fn md_parse_of(text: Seq<char>) -> Option<MdNode>;

/// Declares the outside parser's tree node so that the conversion
/// helpers below may mention it.
#[verifier::external_type_specification]
#[verifier::external_body]
pub struct ExMdastNode(::markdown::mdast::Node);

/// Declares the outside parser's positional record likewise.
#[verifier::external_type_specification]
#[verifier::external_body]
pub struct ExUnistPosition(::markdown::unist::Position);

/// Relies on ::markdown::unist::Position: picks out the byte offsets of its
/// two points.
#[verifier::external_body]
fn convert_position(p: Option<&::markdown::unist::Position>) -> Option<Span> {
    match p {
        Some(q) => Some(Span { start: q.start.offset, end: q.end.offset }),
        None => None,
    }
}

/// Relies on ::markdown::mdast::Node: moves the fields the library reads
/// (frontmatter text, link url and byte range, children) into the
/// library's own tree, one node for one node.
#[verifier::external_body]
fn convert_node(n: &::markdown::mdast::Node) -> MdNode {
    let children: Vec<MdNode> = match n.children() {
        Some(cs) => cs.iter().map(convert_node).collect(),
        None => Vec::new(),
    };
    match n {
        ::markdown::mdast::Node::Yaml(y) => MdNode { kind: MdKind::Yaml { value: y.value.clone() }, children },
        ::markdown::mdast::Node::Link(l) => MdNode {
            kind: MdKind::Link { url: l.url.clone(), position: convert_position(l.position.as_ref()) },
            children,
        },
        _ => MdNode { kind: MdKind::Other, children },
    }
}

/// Relies on ::markdown::to_mdast with GitHub-flavored options extended by
/// YAML frontmatter: a pure function of the input text, so its outcome is
/// named `md_parse_of`.
#[verifier::external_body]
pub fn parse_markdown(contents: &str) -> (r: Result<MdNode, MdParseError>)
    ensures
        match r {
            Ok(t) => md_parse_of(contents@) == Some(t),
            Err(_) => md_parse_of(contents@) is None,
        },
{
    let options = ::markdown::ParseOptions {
        constructs: ::markdown::Constructs { frontmatter: true, ..::markdown::Constructs::gfm() },
        ..::markdown::ParseOptions::gfm()
    };
    match ::markdown::to_mdast(contents, &options) {
        Ok(node) => Ok(convert_node(&node)),
        Err(m) => Err(MdParseError(format!("{}", m))),
    }
}

// ---------------------------------------------------------------------------
// Tree search
// ---------------------------------------------------------------------------

/// First node and derived value in preorder for which the predicate holds.
pub open spec fn spec_find_pre<V>(n: MdNode, p: spec_fn(MdNode) -> Option<V>) -> Option<
    (MdNode, V),
>
    decreases n,
{
    match p(n) {
        Some(v) => Some((n, v)),
        None => spec_find_pre_children(n.children@, p),
    }
}

pub open spec fn spec_find_pre_children<V>(
    cs: Seq<MdNode>,
    p: spec_fn(MdNode) -> Option<V>,
) -> Option<(MdNode, V)>
    decreases cs,
{
    if cs.len() == 0 {
        None
    } else {
        match spec_find_pre(cs[0], p) {
            Some(x) => Some(x),
            None => spec_find_pre_children(cs.drop_first(), p),
        }
    }
}

/// First node and derived value in postorder for which the predicate holds.
pub open spec fn spec_find_post<V>(n: MdNode, p: spec_fn(MdNode) -> Option<V>) -> Option<
    (MdNode, V),
>
    decreases n,
{
    match spec_find_post_children(n.children@, p) {
        Some(x) => Some(x),
        None => match p(n) {
            Some(v) => Some((n, v)),
            None => None,
        },
    }
}

pub open spec fn spec_find_post_children<V>(
    cs: Seq<MdNode>,
    p: spec_fn(MdNode) -> Option<V>,
) -> Option<(MdNode, V)>
    decreases cs,
{
    if cs.len() == 0 {
        None
    } else {
        match spec_find_post(cs[0], p) {
            Some(x) => Some(x),
            None => spec_find_post_children(cs.drop_first(), p),
        }
    }
}

/// All derived values in preorder for which the predicate holds.
pub open spec fn spec_filter_pre<V>(n: MdNode, p: spec_fn(MdNode) -> Option<V>) -> Seq<V>
    decreases n,
{
    let head: Seq<V> = match p(n) {
        Some(v) => seq![v],
        None => Seq::empty(),
    };
    head + spec_filter_pre_children(n.children@, p)
}

pub open spec fn spec_filter_pre_children<V>(
    cs: Seq<MdNode>,
    p: spec_fn(MdNode) -> Option<V>,
) -> Seq<V>
    decreases cs,
{
    if cs.len() == 0 {
        Seq::empty()
    } else {
        spec_filter_pre(cs[0], p) + spec_filter_pre_children(cs.drop_first(), p)
    }
}

/// A predicate's executable form agrees with its specification `p`, with
/// results compared through their deep views.
pub open spec fn pred_matches<R: DeepView, F: Fn(&MdNode) -> Option<R>>(
    pred: F,
    p: spec_fn(MdNode) -> Option<R::V>,
) -> bool {
    &&& forall|n: &MdNode| #[trigger] call_requires(pred, (n,))
    &&& forall|n: &MdNode, ret: Option<R>|
        call_ensures(pred, (n,), ret) ==> match ret {
            Some(v) => p(*n) == Some(v.deep_view()),
            None => p(*n) is None,
        }
}

/// Depth-first preorder search: the first node, outermost first, for which
/// the predicate yields a value.
pub fn rec_find_preorder<'a, R: DeepView, F: Fn(&MdNode) -> Option<R> + Copy>(
    node: &'a MdNode,
    pred: F,
    Ghost(p): Ghost<spec_fn(MdNode) -> Option<R::V>>,
) -> (r: Option<(&'a MdNode, R)>)
    requires
        pred_matches(pred, p),
    ensures
        match r {
            Some(nr) => spec_find_pre(*node, p) == Some((*nr.0, nr.1.deep_view())),
            None => spec_find_pre(*node, p) is None,
        },
    decreases *node,
{
    let first = pred(node);
    match first {
        Some(v) => Some((node, v)),
        None => {
            let cs = &node.children;
            proof {
                assert(node.children@.skip(0) =~= node.children@);
            }
            let mut i: usize = 0;
            while i < cs.len()
                invariant
                    i <= cs.len(),
                    pred_matches(pred, p),
                    cs == &node.children,
                    call_ensures(pred, (node,), None::<R>),
                    spec_find_pre_children(node.children@, p) == spec_find_pre_children(
                        node.children@.skip(i as int),
                        p,
                    ),
                decreases cs.len() - i,
            {
                proof {
                    assert(node.children@.skip(i as int)[0] == node.children@[i as int]);
                }
                let sub = rec_find_preorder(&cs[i], pred, Ghost(p));
                match sub {
                    Some(found) => {
                        proof {
                            let rest = node.children@.skip(i as int);
                            assert(spec_find_pre_children(rest, p) == Some(
                                (*found.0, found.1.deep_view()),
                            ));
                            assert(spec_find_pre(*node, p) == Some(
                                (*found.0, found.1.deep_view()),
                            ));
                        }
                        return Some(found);
                    },
                    None => {},
                }
                proof {
                    assert(node.children@.skip(i as int).drop_first() =~= node.children@.skip(
                        i as int + 1,
                    ));
                }
                i = i + 1;
            }
            proof {
                assert(node.children@.skip(cs.len() as int) =~= Seq::<MdNode>::empty());
            }
            None
        },
    }
}

/// Depth-first postorder search: children are tried before their parent.
pub fn rec_find_postorder<'a, R: DeepView, F: Fn(&MdNode) -> Option<R> + Copy>(
    node: &'a MdNode,
    pred: F,
    Ghost(p): Ghost<spec_fn(MdNode) -> Option<R::V>>,
) -> (r: Option<(&'a MdNode, R)>)
    requires
        pred_matches(pred, p),
    ensures
        match r {
            Some(nr) => spec_find_post(*node, p) == Some((*nr.0, nr.1.deep_view())),
            None => spec_find_post(*node, p) is None,
        },
    decreases *node,
{
    let cs = &node.children;
    proof {
        assert(node.children@.skip(0) =~= node.children@);
    }
    let mut i: usize = 0;
    while i < cs.len()
        invariant
            i <= cs.len(),
            pred_matches(pred, p),
            cs == &node.children,
            spec_find_post_children(node.children@, p) == spec_find_post_children(
                node.children@.skip(i as int),
                p,
            ),
        decreases cs.len() - i,
    {
        proof {
            assert(node.children@.skip(i as int)[0] == node.children@[i as int]);
        }
        let sub = rec_find_postorder(&cs[i], pred, Ghost(p));
        match sub {
            Some(found) => {
                proof {
                    let rest = node.children@.skip(i as int);
                    assert(spec_find_post_children(rest, p) == Some(
                        (*found.0, found.1.deep_view()),
                    ));
                    assert(spec_find_post(*node, p) == Some((*found.0, found.1.deep_view())));
                }
                return Some(found);
            },
            None => {},
        }
        proof {
            assert(node.children@.skip(i as int).drop_first() =~= node.children@.skip(
                i as int + 1,
            ));
        }
        i = i + 1;
    }
    proof {
        assert(node.children@.skip(cs.len() as int) =~= Seq::<MdNode>::empty());
    }
    let last = pred(node);
    match last {
        Some(v) => Some((node, v)),
        None => None,
    }
}

/// Collects, in preorder, every value the predicate yields.
pub fn rec_filter_preorder<R: DeepView, F: Fn(&MdNode) -> Option<R> + Copy>(
    node: &MdNode,
    pred: F,
    Ghost(p): Ghost<spec_fn(MdNode) -> Option<R::V>>,
) -> (r: Vec<R>)
    requires
        pred_matches(pred, p),
    ensures
        r.deep_view() == spec_filter_pre(*node, p),
{
    let mut out: Vec<R> = Vec::new();
    rec_filter_into(node, pred, Ghost(p), &mut out);
    proof {
        assert(out.deep_view() =~= spec_filter_pre(*node, p));
    }
    out
}

fn rec_filter_into<R: DeepView, F: Fn(&MdNode) -> Option<R> + Copy>(
    node: &MdNode,
    pred: F,
    Ghost(p): Ghost<spec_fn(MdNode) -> Option<R::V>>,
    out: &mut Vec<R>,
)
    requires
        pred_matches(pred, p),
    ensures
        final(out).deep_view() == old(out).deep_view() + spec_filter_pre(*node, p),
    decreases *node,
{
    let first = pred(node);
    let ghost base = out.deep_view();
    match first {
        Some(v) => {
            let ghost gv = v.deep_view();
            out.push(v);
            proof {
                assert(out.deep_view() =~~= base + seq![gv]);
            }
        },
        None => {
            proof {
                assert(out.deep_view() =~= base + Seq::<R::V>::empty());
            }
        },
    }
    let ghost headed = out.deep_view();
    let cs = &node.children;
    let mut i: usize = 0;
    while i < cs.len()
        invariant
            i <= cs.len(),
            pred_matches(pred, p),
            cs == &node.children,
            out.deep_view() == headed + spec_filter_pre_children(
                node.children@.take(i as int),
                p,
            ),
        decreases cs.len() - i,
    {
        rec_filter_into(&cs[i], pred, Ghost(p), out);
        proof {
            lemma_filter_children_snoc(node.children@, i as int, p);
        }
        i = i + 1;
    }
    proof {
        assert(node.children@.take(cs.len() as int) =~= node.children@);
    }
}

/// Filtering a prefix one child longer appends that child's results.
proof fn lemma_filter_children_snoc<V>(cs: Seq<MdNode>, i: int, p: spec_fn(MdNode) -> Option<V>)
    requires
        0 <= i < cs.len(),
    ensures
        spec_filter_pre_children(cs.take(i + 1), p) == spec_filter_pre_children(cs.take(i), p)
            + spec_filter_pre(cs[i], p),
    decreases i,
{
    if i == 0 {
        assert(cs.take(1).drop_first() =~= Seq::<MdNode>::empty());
        assert(cs.take(1)[0] == cs[0]);
        assert(cs.take(0) =~= Seq::<MdNode>::empty());
        assert(spec_filter_pre_children(cs.take(1), p) =~= spec_filter_pre_children(
            cs.take(0),
            p,
        ) + spec_filter_pre(cs[0], p));
    } else {
        lemma_filter_children_snoc(cs.drop_first(), i - 1, p);
        assert(cs.take(i + 1).drop_first() =~= cs.drop_first().take(i));
        assert(cs.take(i).drop_first() =~= cs.drop_first().take(i - 1));
        assert(cs.take(i + 1)[0] == cs[0]);
        assert(cs.take(i)[0] == cs[0]);
        assert(cs.drop_first()[i - 1] == cs[i]);
        assert(spec_filter_pre(cs[0], p) + (spec_filter_pre_children(cs.drop_first().take(i - 1), p)
            + spec_filter_pre(cs[i], p)) =~= (spec_filter_pre(cs[0], p)
            + spec_filter_pre_children(cs.drop_first().take(i - 1), p)) + spec_filter_pre(
            cs[i],
            p,
        ));
    }
}

// ---------------------------------------------------------------------------
// Frontmatter and links
// ---------------------------------------------------------------------------

/// The value a frontmatter search derives from a node.
pub open spec fn spec_yaml_pred(n: MdNode) -> Option<Seq<char>> {
    match n.kind {
        MdKind::Yaml { value } => Some(value@),
        _ => None,
    }
}

/// The raw text of the first frontmatter block, in preorder.
pub open spec fn spec_find_frontmatter(n: MdNode) -> Option<Seq<char>> {
    match spec_find_pre(n, |m: MdNode| spec_yaml_pred(m)) {
        Some(nv) => Some(nv.1),
        None => None,
    }
}

/// Finds the document's frontmatter text, or reports that there is none.
pub fn find_frontmatter(md: &MdNode) -> (r: Result<String, NoFrontmatter>)
    ensures
        match r {
            Ok(s) => spec_find_frontmatter(*md) == Some(s@),
            Err(_) => spec_find_frontmatter(*md) is None,
        },
{
    let pred = |n: &MdNode| -> (ret: Option<String>)
        ensures
            match ret {
                Some(v) => spec_yaml_pred(*n) == Some(v@),
                None => spec_yaml_pred(*n) is None,
            },
        {
            match &n.kind {
                MdKind::Yaml { value } => Some(value.clone()),
                _ => None,
            }
        };
    let found = rec_find_preorder(md, pred, Ghost(|m: MdNode| spec_yaml_pred(m)));
    match found {
        Some(nv) => Ok(nv.1),
        None => Err(NoFrontmatter),
    }
}

/// The value a link search derives from a node.
pub open spec fn spec_link_pred(n: MdNode) -> Option<(Seq<char>, Option<Span>)> {
    match n.kind {
        MdKind::Link { url, position } => Some((url@, position)),
        _ => None,
    }
}

/// Every link of the document in preorder: url and byte range.
pub open spec fn spec_all_links(n: MdNode) -> Seq<(Seq<char>, Option<Span>)> {
    spec_filter_pre(n, |m: MdNode| spec_link_pred(m))
}

impl DeepView for Link {
    type V = (Seq<char>, Option<Span>);

    open spec fn deep_view(&self) -> (Seq<char>, Option<Span>) {
        (self.url@, self.position)
    }
}

/// Collects every link in the document, in document order.
pub fn get_all_links(md: &MdNode) -> (r: Vec<Link>)
    ensures
        r.deep_view() == spec_all_links(*md),
{
    let pred = |n: &MdNode| -> (ret: Option<Link>)
        ensures
            match ret {
                Some(v) => spec_link_pred(*n) == Some((v.url@, v.position)),
                None => spec_link_pred(*n) is None,
            },
        {
            match &n.kind {
                MdKind::Link { url, position } => Some(
                    Link { url: url.clone(), position: *position },
                ),
                _ => None,
            }
        };
    rec_filter_preorder(md, pred, Ghost(|m: MdNode| spec_link_pred(m)))
}

/// Half-open byte-range membership.
pub open spec fn spec_point_in_position(position: Span, byte_index: usize) -> bool {
    position.start <= byte_index < position.end
}

/// Whether a byte offset falls inside a node's range.
pub fn point_in_position(position: &Span, byte_index: usize) -> (r: bool)
    ensures
        r == spec_point_in_position(*position, byte_index),
{
    byte_index >= position.start && byte_index < position.end
}

/// The value a cursor search derives from a node: the url of a link whose
/// range holds the byte offset.
pub open spec fn spec_link_at_pred(n: MdNode, byte_index: usize) -> Option<Seq<char>> {
    match n.kind {
        MdKind::Link { url, position } => match position {
            Some(pos) => if spec_point_in_position(pos, byte_index) {
                Some(url@)
            } else {
                None
            },
            None => None,
        },
        _ => None,
    }
}

/// The url of the first link, outermost first, whose range holds the byte
/// offset.
pub open spec fn spec_link_at(n: MdNode, byte_index: usize) -> Option<Seq<char>> {
    match spec_find_pre(n, |m: MdNode| spec_link_at_pred(m, byte_index)) {
        Some(nv) => Some(nv.1),
        None => None,
    }
}

/// Finds the link under the cursor's byte offset, if any.
pub fn find_link_at(md: &MdNode, byte_index: usize) -> (r: Option<String>)
    ensures
        match r {
            Some(s) => spec_link_at(*md, byte_index) == Some(s@),
            None => spec_link_at(*md, byte_index) is None,
        },
{
    let pred = |n: &MdNode| -> (ret: Option<String>)
        ensures
            match ret {
                Some(v) => spec_link_at_pred(*n, byte_index) == Some(v@),
                None => spec_link_at_pred(*n, byte_index) is None,
            },
        {
            match &n.kind {
                MdKind::Link { url, position } => match position {
                    Some(pos) => if point_in_position(pos, byte_index) {
                        Some(url.clone())
                    } else {
                        None
                    },
                    None => None,
                },
                _ => None,
            }
        };
    let found = rec_find_preorder(md, pred, Ghost(|m: MdNode| spec_link_at_pred(m, byte_index)));
    match found {
        Some(nv) => Some(nv.1),
        None => None,
    }
}

} // verus!
