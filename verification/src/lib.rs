//! An in-process, hierarchically addressed publish/subscribe exchange:
//! components register nodes under slash-delimited paths, attach typed
//! relationship links between them, and deliver opaque messages to a path
//! with single-hop fan-out to subscribers.
//!
//! The registry is the one owning structure: an exchange owns its root and
//! every registered node, so parent and child edges can never form an
//! ownership cycle, and deleting a node is releasing its table slot. What
//! callers hold are [`node::NodeRef`] handles — reference-counted owners of
//! a node's identity, non-atomic in the Exclusive regime and atomic in the
//! Shared one — which outlive deregistration and stay valid on their own.

pub mod node;

use std::rc::Rc;
use std::sync::Arc;
use vstd::prelude::*;

use crate::node::add_link;
use crate::node::lemma_add_link_wf;
use crate::node::lemma_link_views_push;
use crate::node::link_views;
use crate::node::links_wf;
use crate::node::without_link;
use crate::node::AnyRef;
use crate::node::LinkTypeV;
use crate::node::LinkV;
use crate::node::Node;
use crate::node::NodeLink;
use crate::node::NodeLinkType;
use crate::node::NodeRef;
use crate::node::NodeV;
use crate::node::Path;
use crate::node::ThreadMode;

verus! {

/// An opaque message payload: the exchange never reads its contents.
pub enum MesgData {
    Bytes(Vec<u8>),
    String(String),
}

/// The mathematical image of a payload.
pub enum MesgDataV {
    Bytes(Seq<u8>),
    String(Seq<char>),
}

impl View for MesgData {
    type V = MesgDataV;

    open spec fn view(&self) -> MesgDataV {
        match self {
            MesgData::Bytes(b) => MesgDataV::Bytes(b@),
            MesgData::String(s) => MesgDataV::String(s@),
        }
    }
}

/// A message: an opaque payload addressed to a path.
pub struct Msg {
    data: MesgData,
    dest: Path,
}

/// The mathematical image of a message.
pub struct MsgV {
    pub data: MesgDataV,
    pub dest: Seq<char>,
}

impl View for Msg {
    type V = MsgV;

    closed spec fn view(&self) -> MsgV {
        MsgV { data: self.data@, dest: self.dest@ }
    }
}

impl Msg {
    pub fn new(dest: Path, data: MesgData) -> (m: Msg)
        ensures
            m@ == (MsgV { data: data@, dest: dest@ }),
    {
        Msg { dest, data }
    }
}

/// A node of the relationship graph: its identity (a path, fixed at
/// construction) and an ordered list of typed edges to other nodes.
pub struct SimpleNode {
    path: Path,
    links: Vec<NodeLink>,
}

impl View for SimpleNode {
    type V = NodeV;

    closed spec fn view(&self) -> NodeV {
        NodeV { path: self.path@, links: link_views(self.links@) }
    }
}

/// Whether two handles name the same node: handles are compared by the path
/// they were issued for, whatever their ownership regime.
fn ref_eq(a: &NodeRef, b: &NodeRef) -> (r: bool)
    ensures
        r == (a@ == b@),
{
    let pa: &Path = match a {
        ThreadMode::Single(rc) => &**rc,
        ThreadMode::Multi(arc) => &**arc,
    };
    let pb: &Path = match b {
        ThreadMode::Single(rc) => &**rc,
        ThreadMode::Multi(arc) => &**arc,
    };
    *pa == *pb
}

/// Whether a handle names the node at the given path.
fn ref_path_eq(a: &NodeRef, b: &Path) -> (r: bool)
    ensures
        r == (a@ == b@),
{
    let pa: &Path = match a {
        ThreadMode::Single(rc) => &**rc,
        ThreadMode::Multi(arc) => &**arc,
    };
    *pa == *b
}

/// Whether a link is dropped when the node at `p` is deregistered: the
/// `Parent` edges of its children and the `Subscriber` edges that would
/// still deliver to it.
pub open spec fn drops_on_del(l: LinkV, p: Seq<char>) -> bool {
    l.to == p && (l.kind is Parent || l.kind is Subscriber)
}

/// The link list of a surviving node after the node at `p` is deregistered:
/// its `Parent` and `Subscriber` edges to `p` are gone, everything else
/// keeps its order.
pub open spec fn unlinked(links: Seq<LinkV>, p: Seq<char>) -> Seq<LinkV>
    decreases links.len(),
{
    if links.len() == 0 {
        links
    } else {
        let rest = unlinked(links.drop_last(), p);
        if drops_on_del(links.last(), p) {
            rest
        } else {
            rest.push(links.last())
        }
    }
}

/// Unlinking distributes over `push`.
pub proof fn lemma_unlinked_push(s: Seq<LinkV>, x: LinkV, p: Seq<char>)
    ensures
        unlinked(s.push(x), p) == if drops_on_del(x, p) {
            unlinked(s, p)
        } else {
            unlinked(s, p).push(x)
        },
{
    assert(s.push(x).drop_last() =~= s);
    assert(s.push(x).last() == x);
}

/// Every link kept by unlinking was among the original links and is not
/// one of the dropped ones.
pub proof fn lemma_unlinked_in_source(s: Seq<LinkV>, p: Seq<char>, x: LinkV)
    requires
        unlinked(s, p).contains(x),
    ensures
        s.contains(x),
        !drops_on_del(x, p),
    decreases s.len(),
{
    if s.len() > 0 {
        let d = s.drop_last();
        if x == s.last() {
            assert(s[s.len() - 1] == x);
            if drops_on_del(x, p) {
                assert(unlinked(s, p) == unlinked(d, p));
                lemma_unlinked_in_source(d, p, x);
            }
        } else {
            let w = unlinked(s, p);
            let k = choose|k: int| 0 <= k < w.len() && w[k] == x;
            if !drops_on_del(s.last(), p) {
                assert(w == unlinked(d, p).push(s.last()));
                assert(unlinked(d, p)[k] == x);
            }
            assert(unlinked(d, p).contains(x));
            lemma_unlinked_in_source(d, p, x);
            let j = choose|j: int| 0 <= j < d.len() && d[j] == x;
            assert(s[j] == x);
        }
    }
}

/// Unlinking a duplicate-free link list leaves it duplicate-free.
pub proof fn lemma_unlinked_props(s: Seq<LinkV>, p: Seq<char>)
    requires
        links_wf(s),
    ensures
        links_wf(unlinked(s, p)),
    decreases s.len(),
{
    if s.len() > 0 {
        let d = s.drop_last();
        assert(d.no_duplicates());
        lemma_unlinked_props(d, p);
        if !drops_on_del(s.last(), p) {
            if unlinked(d, p).contains(s.last()) {
                lemma_unlinked_in_source(d, p, s.last());
                let j = choose|j: int| 0 <= j < d.len() && d[j] == s.last();
                assert(s[j] == s[s.len() - 1]);
            }
            let f = unlinked(d, p).push(s.last());
            assert(unlinked(s, p) == f);
            assert forall|i: int, j: int| 0 <= i < j < f.len() implies f[i] != f[j] by {
                if j == f.len() - 1 {
                    assert(unlinked(d, p)[i] == f[i]);
                    assert(unlinked(d, p).contains(f[i]));
                }
            }
        }
    }
}

/// Whether `link` has the given target and kind.
fn link_matches(link: &NodeLink, to: &NodeRef, relationship: &NodeLinkType) -> (r: bool)
    ensures
        r == (link@ == LinkV { to: to@, kind: relationship@ }),
{
    ref_eq(&link.to, to) && link.relationship.same_kind(relationship)
}

impl SimpleNode {
    /// Index of the edge with the given target and kind, if one is present.
    fn find_link(links: &Vec<NodeLink>, to: &NodeRef, relationship: &NodeLinkType) -> (r: Option<
        usize,
    >)
        ensures
            match r {
                Some(i) => i < links@.len() && links@[i as int]@ == LinkV {
                    to: to@,
                    kind: relationship@,
                },
                None => !link_views(links@).contains(LinkV { to: to@, kind: relationship@ }),
            },
    {
        let ghost l = LinkV { to: to@, kind: relationship@ };
        let mut i: usize = 0;
        while i < links.len()
            invariant
                i <= links@.len(),
                l == (LinkV { to: to@, kind: relationship@ }),
                forall|j: int| 0 <= j < i ==> links@[j]@ != l,
            decreases links@.len() - i,
        {
            if link_matches(&links[i], to, relationship) {
                return Some(i);
            }
            proof {
                assert(links@[i as int]@ != l);
            }
            i = i + 1;
        }
        proof {
            if link_views(links@).contains(l) {
                let j = choose|j: int| 0 <= j < link_views(links@).len() && link_views(links@)[j]
                    == l;
                assert(links@[j]@ == l);
            }
        }
        None
    }

    /// Removes every edge that points at `target` with kind `Parent` or
    /// `Subscriber`: used when the node at `target` is deregistered, so that
    /// no child keeps a parent edge to it and no fan-out delivers to it.
    fn unlink_target(&mut self, target: &Path)
        requires
            old(self).wf(),
        ensures
            final(self).wf(),
            final(self)@.path == old(self)@.path,
            final(self)@.links == unlinked(old(self)@.links, target@),
    {
        let ghost orig = link_views(self.links@);
        let mut kept: Vec<NodeLink> = Vec::new();
        let mut i: usize = 0;
        proof {
            assert(link_views(kept@) =~= Seq::<LinkV>::empty());
            assert(orig.subrange(0, 0) =~= Seq::<LinkV>::empty());
        }
        while i < self.links.len()
            invariant
                i <= self.links@.len(),
                orig == link_views(self.links@),
                link_views(kept@) == unlinked(orig.subrange(0, i as int), target@),
            decreases self.links@.len() - i,
        {
            let ghost prefix = orig.subrange(0, i as int);
            let link = &self.links[i];
            let is_rel = match &link.relationship {
                NodeLinkType::Parent => true,
                NodeLinkType::Subscriber => true,
                NodeLinkType::Child => false,
                NodeLinkType::Other(_) => false,
            };
            let keep = !(is_rel && ref_path_eq(&link.to, target));
            proof {
                assert(orig[i as int] == self.links@[i as int]@);
                lemma_unlinked_push(prefix, orig[i as int], target@);
                assert(orig.subrange(0, i as int + 1) =~= prefix.push(orig[i as int]));
            }
            if keep {
                let ghost kept_before = kept@;
                let x = self.links[i].clone();
                kept.push(x);
                proof {
                    lemma_link_views_push(kept_before, kept@.last());
                }
            }
            i = i + 1;
        }
        proof {
            assert(orig.subrange(0, orig.len() as int) =~= orig);
            lemma_unlinked_props(orig, target@);
        }
        self.links = kept;
    }
}

impl Node for SimpleNode {
    closed spec fn wf(&self) -> bool {
        links_wf(link_views(self.links@))
    }

    fn new(path: Path, parent: Option<NodeRef>) -> (n: SimpleNode) {
        let mut node = SimpleNode { path, links: Vec::new() };
        proof {
            assert(link_views(node.links@) =~= Seq::<LinkV>::empty());
        }
        match parent {
            Some(p) => {
                let ghost before = node.links@;
                node.links.push(NodeLink { to: p, relationship: NodeLinkType::Parent });
                proof {
                    lemma_link_views_push(before, node.links@.last());
                    assert(link_views(node.links@) =~= seq![
                        LinkV { to: p@, kind: LinkTypeV::Parent },
                    ]);
                }
            },
            None => {},
        }
        node
    }

    fn get_path(&self) -> (p: Path) {
        self.path.clone()
    }

    fn create_link(&mut self, to: NodeRef, relationship: NodeLinkType) {
        let ghost l = LinkV { to: to@, kind: relationship@ };
        match SimpleNode::find_link(&self.links, &to, &relationship) {
            Some(i) => {
                proof {
                    assert(link_views(self.links@)[i as int] == self.links@[i as int]@);
                    assert(link_views(self.links@).contains(l));
                }
            },
            None => {
                let ghost before = self.links@;
                self.links.push(NodeLink { to, relationship });
                proof {
                    lemma_link_views_push(before, self.links@.last());
                    let lv = link_views(self.links@);
                    assert forall|i: int, j: int| 0 <= i < j < lv.len() implies lv[i] != lv[j] by {
                        if j == lv.len() - 1 {
                            assert(lv[i] == link_views(before)[i]);
                            assert(!link_views(before).contains(l));
                        }
                    }
                }
            },
        }
    }

    fn remove_link(&mut self, to: NodeRef, relationship: NodeLinkType) {
        let ghost l = LinkV { to: to@, kind: relationship@ };
        let ghost orig = link_views(self.links@);
        let mut kept: Vec<NodeLink> = Vec::new();
        let mut i: usize = 0;
        proof {
            assert(link_views(kept@) =~= Seq::<LinkV>::empty());
            assert(orig.subrange(0, 0) =~= Seq::<LinkV>::empty());
        }
        while i < self.links.len()
            invariant
                i <= self.links@.len(),
                l == (LinkV { to: to@, kind: relationship@ }),
                orig == link_views(self.links@),
                link_views(kept@) == without_link(orig.subrange(0, i as int), l),
            decreases self.links@.len() - i,
        {
            let ghost prefix = orig.subrange(0, i as int);
            let keep = !link_matches(&self.links[i], &to, &relationship);
            proof {
                assert(orig[i as int] == self.links@[i as int]@);
                crate::node::lemma_without_link_push(prefix, orig[i as int], l);
                assert(orig.subrange(0, i as int + 1) =~= prefix.push(orig[i as int]));
            }
            if keep {
                let ghost kept_before = kept@;
                let x = self.links[i].clone();
                kept.push(x);
                proof {
                    lemma_link_views_push(kept_before, kept@.last());
                }
            }
            i = i + 1;
        }
        proof {
            assert(orig.subrange(0, orig.len() as int) =~= orig);
            crate::node::lemma_without_link_props(orig, l);
        }
        self.links = kept;
    }

    fn new_single_threaded_root() -> (r: AnyRef<SimpleNode>) {
        let node = SimpleNode { path: Path::root(), links: Vec::new() };
        proof {
            assert(link_views(node.links@) =~= Seq::<LinkV>::empty());
        }
        ThreadMode::Single(Rc::new(node))
    }

    fn new_multi_threaded_root() -> (r: AnyRef<SimpleNode>) {
        let node = SimpleNode { path: Path::root(), links: Vec::new() };
        proof {
            assert(link_views(node.links@) =~= Seq::<LinkV>::empty());
        }
        ThreadMode::Multi(Arc::new(node))
    }
}

/// Why an exchange operation failed.
#[derive(Clone, Copy, Debug, PartialEq, Eq, Structural)]
pub enum ExchangeError {
    /// A required path is not registered: the lookup for a send, subscribe
    /// or delete, or the missing parent on a create.
    NodeNotFound,
    /// The target path of an insert or create is already registered; the
    /// registered node is left untouched.
    PathCollision,
    /// Reserved for implementations that validate paths; never returned
    /// here, since paths are kept verbatim.
    InvalidPath,
    /// A synchronized guard was left broken by a holder that failed while
    /// holding it. The verified operations never fail while holding a
    /// guard, so they never return this; it remains for hosts that share an
    /// exchange with code of their own.
    ConcurrencyFailure,
}

/// The mathematical image of an exchange: each registered path (the root's
/// empty path included) mapped to the link list of its node.
pub type GraphV = Map<Seq<char>, Seq<LinkV>>;

/// A well-formed graph holds the root and only duplicate-free link lists.
pub open spec fn graph_wf(g: GraphV) -> bool {
    &&& g.contains_key(Seq::<char>::empty())
    &&& forall|p: Seq<char>| #[trigger] g.contains_key(p) ==> links_wf(g[p])
}

/// What `create_node` does to a graph: the new graph and the path of the
/// created node, or the error. The parent must already be registered (paths
/// are created top-down, never implicitly), the path itself must not be.
pub open spec fn create_node_spec(g: GraphV, p: Seq<char>) -> (GraphV, Result<
    Seq<char>,
    ExchangeError,
>) {
    if !g.contains_key(crate::node::parent_of(p)) {
        (g, Err(ExchangeError::NodeNotFound))
    } else if g.contains_key(p) {
        (g, Err(ExchangeError::PathCollision))
    } else {
        (
            g.insert(p, seq![LinkV { to: crate::node::parent_of(p), kind: LinkTypeV::Parent }]),
            Ok(p),
        )
    }
}

/// What `insert_node` does to a graph: registers an already-constructed
/// node at its own path, unless that path is already taken.
pub open spec fn insert_node_spec(g: GraphV, n: NodeV) -> (GraphV, Result<
    Seq<char>,
    ExchangeError,
>) {
    if g.contains_key(n.path) {
        (g, Err(ExchangeError::PathCollision))
    } else {
        (g.insert(n.path, n.links), Ok(n.path))
    }
}

/// What `get_node` returns: the path of the resolved node (the root
/// included), or `NodeNotFound`. The graph is never changed by a lookup.
pub open spec fn get_node_spec(g: GraphV, p: Seq<char>) -> Result<Seq<char>, ExchangeError> {
    if g.contains_key(p) {
        Ok(p)
    } else {
        Err(ExchangeError::NodeNotFound)
    }
}

/// What `del_node` does to a graph: the entry at `p` is gone, and every
/// surviving node loses its `Parent` and `Subscriber` edges to `p`.
/// Deletion never cascades: children keep their own entries. The root is
/// not a registry entry and cannot be deleted.
pub open spec fn del_node_spec(g: GraphV, p: Seq<char>) -> (GraphV, Result<(), ExchangeError>) {
    if p.len() == 0 || !g.contains_key(p) {
        (g, Err(ExchangeError::NodeNotFound))
    } else {
        (
            Map::new(
                |q: Seq<char>| g.contains_key(q) && q != p,
                |q: Seq<char>| unlinked(g[q], p),
            ),
            Ok(()),
        )
    }
}

/// What `add_subscription` does to a graph: both paths must resolve, and
/// the node gains a `Subscriber` edge to the subscriber unless it already
/// holds one — subscribing twice is subscribing once.
pub open spec fn add_subscription_spec(g: GraphV, a: Seq<char>, b: Seq<char>) -> (GraphV, Result<
    (),
    ExchangeError,
>) {
    if !g.contains_key(a) || !g.contains_key(b) {
        (g, Err(ExchangeError::NodeNotFound))
    } else {
        (g.insert(a, add_link(g[a], LinkV { to: b, kind: LinkTypeV::Subscriber })), Ok(()))
    }
}

/// What `del_subscription` does to a graph: the node must resolve; a
/// missing subscription is not an error, so unsubscribing is safe to
/// repeat.
pub open spec fn del_subscription_spec(g: GraphV, a: Seq<char>, b: Seq<char>) -> (GraphV, Result<
    (),
    ExchangeError,
>) {
    if !g.contains_key(a) {
        (g, Err(ExchangeError::NodeNotFound))
    } else {
        (g.insert(a, without_link(g[a], LinkV { to: b, kind: LinkTypeV::Subscriber })), Ok(()))
    }
}

/// The targets of the `Subscriber` edges of a link list, in link order.
pub open spec fn subscriber_targets(links: Seq<LinkV>) -> Seq<Seq<char>>
    decreases links.len(),
{
    if links.len() == 0 {
        Seq::empty()
    } else {
        let rest = subscriber_targets(links.drop_last());
        if links.last().kind is Subscriber {
            rest.push(links.last().to)
        } else {
            rest
        }
    }
}

/// What `send_mesg` returns: the paths a message to `p` is delivered to —
/// the resolved node itself, then every node one `Subscriber` edge away, in
/// link order. Delivery is single-hop and reads the graph without changing
/// it.
pub open spec fn send_mesg_spec(g: GraphV, p: Seq<char>) -> Result<Seq<Seq<char>>, ExchangeError> {
    if g.contains_key(p) {
        Ok(seq![p] + subscriber_targets(g[p]))
    } else {
        Err(ExchangeError::NodeNotFound)
    }
}

/// The character sequences behind a sequence of paths.
pub open spec fn path_views(s: Seq<Path>) -> Seq<Seq<char>> {
    s.map_values(|p: Path| p@)
}

/// The interface used to run an exchange with a particular threading model.
/// Every operation's outcome is a function of the relationship graph alone,
/// never of the ownership mode: the two modes are behaviourally
/// interchangeable (see `lemma_modes_interchangeable`).
pub trait Exchange: Sized {
    /// The registered graph: every registered path (and the root) mapped to
    /// its node's link list.
    spec fn graph(&self) -> GraphV;

    /// The internal invariant every operation preserves.
    spec fn wf(&self) -> bool;

    /// The ownership regime the exchange was constructed with.
    spec fn is_multi(&self) -> bool;

    /// A well-formed exchange always presents a well-formed graph.
    proof fn wf_implies_graph_wf(&self)
        requires
            self.wf(),
        ensures
            graph_wf(self.graph()),
    ;

    /// Resolves `path.parent()` and, when it is registered, constructs a
    /// node linked to it and registers it; no ancestor is ever created
    /// implicitly.
    fn create_node(&mut self, path: Path) -> (r: Result<NodeRef, ExchangeError>)
        requires
            old(self).wf(),
        ensures
            final(self).wf(),
            final(self).is_multi() == old(self).is_multi(),
            final(self).graph() == create_node_spec(old(self).graph(), path@).0,
            r matches Ok(h) ==> create_node_spec(old(self).graph(), path@).1 == Ok::<
                Seq<char>,
                ExchangeError,
            >(h@) && h.is_multi() == old(self).is_multi(),
            r matches Err(e) ==> create_node_spec(old(self).graph(), path@).1 == Err::<
                Seq<char>,
                ExchangeError,
            >(e),
    ;

    /// Registers an already-constructed node at its own path; fails with
    /// `PathCollision` if that path is already registered, and never
    /// silently overwrites the registered node.
    fn insert_node(&mut self, n: SimpleNode) -> (r: Result<NodeRef, ExchangeError>)
        requires
            old(self).wf(),
            links_wf(n@.links),
        ensures
            final(self).wf(),
            final(self).is_multi() == old(self).is_multi(),
            final(self).graph() == insert_node_spec(old(self).graph(), n@).0,
            r matches Ok(h) ==> insert_node_spec(old(self).graph(), n@).1 == Ok::<
                Seq<char>,
                ExchangeError,
            >(h@) && h.is_multi() == old(self).is_multi(),
            r matches Err(e) ==> insert_node_spec(old(self).graph(), n@).1 == Err::<
                Seq<char>,
                ExchangeError,
            >(e),
    ;

    /// A fresh handle (a new owner, never a borrow) for the node registered
    /// at `path`, or the distinguished root handle for the root path.
    fn get_node(&mut self, path: Path) -> (r: Result<NodeRef, ExchangeError>)
        requires
            old(self).wf(),
        ensures
            final(self).wf(),
            final(self).is_multi() == old(self).is_multi(),
            final(self).graph() == old(self).graph(),
            r matches Ok(h) ==> get_node_spec(old(self).graph(), path@) == Ok::<
                Seq<char>,
                ExchangeError,
            >(h@) && h.is_multi() == old(self).is_multi(),
            r matches Err(e) ==> get_node_spec(old(self).graph(), path@) == Err::<
                Seq<char>,
                ExchangeError,
            >(e),
    ;

    /// Deregisters the node at `path`. Children keep their own entries but
    /// lose their `Parent` edge to it; every `Subscriber` edge to it is
    /// removed; handles obtained earlier stay individually valid.
    fn del_node(&mut self, path: Path) -> (r: Result<(), ExchangeError>)
        requires
            old(self).wf(),
        ensures
            final(self).wf(),
            final(self).is_multi() == old(self).is_multi(),
            final(self).graph() == del_node_spec(old(self).graph(), path@).0,
            r == del_node_spec(old(self).graph(), path@).1,
    ;

    /// Adds a `Subscriber` edge from the node at `node` to the node at
    /// `subscriber`; both must be registered; subscribing twice has the
    /// effect of subscribing once.
    fn add_subscription(&mut self, node: Path, subscriber: Path) -> (r: Result<(), ExchangeError>)
        requires
            old(self).wf(),
        ensures
            final(self).wf(),
            final(self).is_multi() == old(self).is_multi(),
            final(self).graph() == add_subscription_spec(old(self).graph(), node@, subscriber@).0,
            r == add_subscription_spec(old(self).graph(), node@, subscriber@).1,
    ;

    /// Removes the `Subscriber` edge from the node at `node` to the node at
    /// `subscriber`, if present; a missing subscription is not an error.
    fn del_subscription(&mut self, node: Path, subscriber: Path) -> (r: Result<(), ExchangeError>)
        requires
            old(self).wf(),
        ensures
            final(self).wf(),
            final(self).is_multi() == old(self).is_multi(),
            final(self).graph() == del_subscription_spec(old(self).graph(), node@, subscriber@).0,
            r == del_subscription_spec(old(self).graph(), node@, subscriber@).1,
    ;

    /// Delivers `mesg` to the node at `path` and, in the same step, to
    /// every node one `Subscriber` edge away; returns the delivery paths in
    /// order. Delivery never mutates the graph.
    fn send_mesg(&mut self, mesg: Msg, path: Path) -> (r: Result<Vec<Path>, ExchangeError>)
        requires
            old(self).wf(),
        ensures
            final(self).wf(),
            final(self).is_multi() == old(self).is_multi(),
            final(self).graph() == old(self).graph(),
            r matches Ok(v) ==> send_mesg_spec(old(self).graph(), path@) == Ok::<
                Seq<Seq<char>>,
                ExchangeError,
            >(path_views(v@)),
            r matches Err(e) ==> send_mesg_spec(old(self).graph(), path@) == Err::<
                Seq<Seq<char>>,
                ExchangeError,
            >(e),
    ;
}

/// The mathematical images of a sequence of nodes.
pub open spec fn node_views(s: Seq<SimpleNode>) -> Seq<NodeV> {
    s.map_values(|n: SimpleNode| n@)
}

/// Whether some node in `ns` is registered at `p`.
pub open spec fn has_node(ns: Seq<NodeV>, p: Seq<char>) -> bool {
    exists|i: int| 0 <= i < ns.len() && ns[i].path == p
}

/// The index of the node registered at `p` (meaningful when paths are
/// unique and `has_node` holds).
pub open spec fn node_idx(ns: Seq<NodeV>, p: Seq<char>) -> int {
    choose|i: int| 0 <= i < ns.len() && ns[i].path == p
}

/// No two nodes share a path.
pub open spec fn unique_paths(ns: Seq<NodeV>) -> bool {
    forall|i: int, j: int| 0 <= i < j < ns.len() ==> ns[i].path != ns[j].path
}

/// The graph presented by a node table: each node's path mapped to its
/// link list.
pub open spec fn graph_of(ns: Seq<NodeV>) -> GraphV {
    Map::new(|p: Seq<char>| has_node(ns, p), |p: Seq<char>| ns[node_idx(ns, p)].links)
}

proof fn lemma_node_views_push(s: Seq<SimpleNode>, x: SimpleNode)
    ensures
        node_views(s.push(x)) =~= node_views(s).push(x@),
{
}

proof fn lemma_node_views_update(s: Seq<SimpleNode>, i: int, x: SimpleNode)
    requires
        0 <= i < s.len(),
    ensures
        node_views(s.update(i, x)) =~= node_views(s).update(i, x@),
{
}

proof fn lemma_node_views_remove(s: Seq<SimpleNode>, i: int)
    requires
        0 <= i < s.len(),
    ensures
        node_views(s.remove(i)) =~= node_views(s).remove(i),
{
    s.remove_ensures(i);
    node_views(s).remove_ensures(i);
}

/// In a table with unique paths, index `i` is the one index registered at
/// its own path, and the graph shows that node's links there.
proof fn lemma_node_at(ns: Seq<NodeV>, i: int)
    requires
        unique_paths(ns),
        0 <= i < ns.len(),
    ensures
        has_node(ns, ns[i].path),
        node_idx(ns, ns[i].path) == i,
        graph_of(ns).contains_key(ns[i].path),
        graph_of(ns)[ns[i].path] == ns[i].links,
{
    assert(has_node(ns, ns[i].path));
    let j = node_idx(ns, ns[i].path);
    assert(0 <= j < ns.len() && ns[j].path == ns[i].path);
    if j != i {
        assert(ns[i].path != ns[j].path);
    }
}

/// Appending a node at a fresh path inserts its entry into the graph.
proof fn lemma_graph_push(ns: Seq<NodeV>, n: NodeV)
    requires
        unique_paths(ns),
        !has_node(ns, n.path),
    ensures
        unique_paths(ns.push(n)),
        graph_of(ns.push(n)) =~= graph_of(ns).insert(n.path, n.links),
{
    let ns2 = ns.push(n);
    assert forall|i: int, j: int| 0 <= i < j < ns2.len() implies ns2[i].path != ns2[j].path by {
        if j == ns2.len() - 1 {
            assert(ns2[i] == ns[i]);
            if ns[i].path == n.path {
                assert(has_node(ns, n.path));
            }
        }
    }
    let g2 = graph_of(ns2);
    let target = graph_of(ns).insert(n.path, n.links);
    assert forall|q: Seq<char>| g2.contains_key(q) == target.contains_key(q) by {
        if has_node(ns2, q) {
            let i = choose|i: int| 0 <= i < ns2.len() && ns2[i].path == q;
            if i < ns.len() {
                assert(ns[i].path == q);
                assert(has_node(ns, q));
            }
        }
        if has_node(ns, q) {
            let i = choose|i: int| 0 <= i < ns.len() && ns[i].path == q;
            assert(ns2[i].path == q);
            assert(has_node(ns2, q));
        }
        assert(ns2[ns.len() as int].path == n.path);
        assert(has_node(ns2, n.path));
    }
    assert forall|q: Seq<char>| g2.contains_key(q) implies g2[q] == target[q] by {
        let i = node_idx(ns2, q);
        assert(0 <= i < ns2.len() && ns2[i].path == q);
        lemma_node_at(ns2, i);
        if q == n.path {
            if i < ns.len() {
                assert(has_node(ns, n.path));
            }
            assert(g2[q] == n.links);
        } else {
            assert(i < ns.len());
            assert(ns[i].path == q);
            lemma_node_at(ns, node_idx(ns, q));
            assert(has_node(ns, q));
            let j = node_idx(ns, q);
            assert(ns[j].path == q);
            if j != i {
                assert(ns[i].path != ns[j].path);
            }
            assert(g2[q] == ns2[i].links);
            assert(target[q] == ns[j].links);
        }
    }
    assert(g2 =~= target);
}

/// Replacing a node's links in place updates its entry in the graph.
proof fn lemma_graph_update(ns: Seq<NodeV>, i: int, n: NodeV)
    requires
        unique_paths(ns),
        0 <= i < ns.len(),
        n.path == ns[i].path,
    ensures
        unique_paths(ns.update(i, n)),
        graph_of(ns.update(i, n)) =~= graph_of(ns).insert(n.path, n.links),
{
    let ns2 = ns.update(i, n);
    assert forall|a: int, b: int| 0 <= a < b < ns2.len() implies ns2[a].path != ns2[b].path by {
        assert(ns2[a].path == ns[a].path);
        assert(ns2[b].path == ns[b].path);
    }
    let g2 = graph_of(ns2);
    let target = graph_of(ns).insert(n.path, n.links);
    assert forall|q: Seq<char>| g2.contains_key(q) == target.contains_key(q) by {
        if has_node(ns2, q) {
            let a = choose|a: int| 0 <= a < ns2.len() && ns2[a].path == q;
            assert(ns[a].path == q);
            assert(has_node(ns, q));
        }
        if has_node(ns, q) {
            let a = choose|a: int| 0 <= a < ns.len() && ns[a].path == q;
            assert(ns2[a].path == q);
            assert(has_node(ns2, q));
        }
    }
    assert forall|q: Seq<char>| g2.contains_key(q) implies g2[q] == target[q] by {
        let a = node_idx(ns2, q);
        assert(0 <= a < ns2.len() && ns2[a].path == q);
        lemma_node_at(ns2, a);
        if q == n.path {
            if a != i {
                assert(ns2[a].path != ns2[i].path);
                assert(ns2[i].path == n.path);
            }
            assert(g2[q] == n.links);
        } else {
            assert(a != i);
            assert(ns[a].path == q);
            lemma_node_at(ns, a);
            assert(g2[q] == ns2[a].links);
            assert(target[q] == ns[a].links);
        }
    }
    assert(g2 =~= target);
}

/// Removing the node at `p` and then stripping every surviving node's
/// `Parent` and `Subscriber` edges to `p` yields exactly the deletion
/// graph of `del_node_spec`.
proof fn lemma_graph_del(orig: Seq<NodeV>, ni: int, fin: Seq<NodeV>, p: Seq<char>)
    requires
        unique_paths(orig),
        0 <= ni < orig.len(),
        orig[ni].path == p,
        fin.len() == orig.len() - 1,
        forall|j: int| 0 <= j < fin.len() ==> #[trigger] fin[j].path == orig.remove(ni)[j].path
            && fin[j].links == unlinked(orig.remove(ni)[j].links, p),
    ensures
        unique_paths(fin),
        graph_of(fin) =~= Map::new(
            |q: Seq<char>| graph_of(orig).contains_key(q) && q != p,
            |q: Seq<char>| unlinked(graph_of(orig)[q], p),
        ),
{
    let mid = orig.remove(ni);
    orig.remove_ensures(ni);
    assert forall|a: int, b: int| 0 <= a < b < fin.len() implies fin[a].path != fin[b].path by {
        assert(fin[a].path == mid[a].path);
        assert(fin[b].path == mid[b].path);
        let oa = if a < ni {
            a
        } else {
            a + 1
        };
        let ob = if b < ni {
            b
        } else {
            b + 1
        };
        assert(mid[a] == orig[oa]);
        assert(mid[b] == orig[ob]);
    }
    let g = graph_of(orig);
    let gf = graph_of(fin);
    let target = Map::new(
        |q: Seq<char>| g.contains_key(q) && q != p,
        |q: Seq<char>| unlinked(g[q], p),
    );
    assert forall|q: Seq<char>| gf.contains_key(q) == target.contains_key(q) by {
        if has_node(fin, q) {
            let a = choose|a: int| 0 <= a < fin.len() && fin[a].path == q;
            let oa = if a < ni {
                a
            } else {
                a + 1
            };
            assert(mid[a] == orig[oa]);
            assert(orig[oa].path == q);
            assert(has_node(orig, q));
            if q == p {
                assert(orig[oa].path == orig[ni].path);
                assert(oa != ni);
            }
        }
        if has_node(orig, q) && q != p {
            let a = choose|a: int| 0 <= a < orig.len() && orig[a].path == q;
            assert(a != ni);
            let fa = if a < ni {
                a
            } else {
                a - 1
            };
            assert(mid[fa] == orig[a]);
            assert(fin[fa].path == q);
            assert(has_node(fin, q));
        }
    }
    assert forall|q: Seq<char>| gf.contains_key(q) implies gf[q] == target[q] by {
        let a = node_idx(fin, q);
        assert(0 <= a < fin.len() && fin[a].path == q);
        lemma_node_at(fin, a);
        let oa = if a < ni {
            a
        } else {
            a + 1
        };
        assert(mid[a] == orig[oa]);
        assert(orig[oa].path == q);
        lemma_node_at(orig, oa);
        assert(g[q] == orig[oa].links);
        assert(gf[q] == fin[a].links);
        assert(fin[a].links == unlinked(mid[a].links, p));
    }
    assert(gf =~= target);
}

/// The runtime for the node graph: a mode fixed at construction and the
/// table of registered nodes, the root first.
pub struct SimpleExchange {
    multi: bool,
    nodes: Vec<SimpleNode>,
}

impl SimpleExchange {
    /// The node table as mathematical values.
    pub closed spec fn nodes_model(&self) -> Seq<NodeV> {
        node_views(self.nodes@)
    }

    fn with_mode(multi: bool) -> (e: SimpleExchange)
        ensures
            e.wf(),
            e.is_multi() == multi,
            e.graph() == Map::<Seq<char>, Seq<LinkV>>::empty().insert(
                Seq::<char>::empty(),
                Seq::<LinkV>::empty(),
            ),
    {
        let mut nodes: Vec<SimpleNode> = Vec::new();
        let root = SimpleNode::new(Path::root(), None);
        nodes.push(root);
        let e = SimpleExchange { multi, nodes };
        proof {
            let ns = e.nodes_model();
            assert(ns =~= seq![e.nodes@[0]@]);
            assert(ns[0].path == Seq::<char>::empty());
            let g = graph_of(ns);
            let target = Map::<Seq<char>, Seq<LinkV>>::empty().insert(
                Seq::<char>::empty(),
                Seq::<LinkV>::empty(),
            );
            assert forall|q: Seq<char>| g.contains_key(q) == target.contains_key(q) by {
                if has_node(ns, q) {
                    let i = choose|i: int| 0 <= i < ns.len() && ns[i].path == q;
                    assert(i == 0);
                }
                assert(has_node(ns, ns[0].path));
            }
            assert forall|q: Seq<char>| g.contains_key(q) implies g[q] == target[q] by {
                lemma_node_at(ns, 0);
            }
            assert(g =~= target);
        }
        e
    }

    /// An exchange in the cheap, single-threaded (Exclusive) regime, as a
    /// fresh root and an empty registry.
    pub fn new() -> (e: SimpleExchange)
        ensures
            e.wf(),
            !e.is_multi(),
            e.graph() == Map::<Seq<char>, Seq<LinkV>>::empty().insert(
                Seq::<char>::empty(),
                Seq::<LinkV>::empty(),
            ),
    {
        SimpleExchange::with_mode(false)
    }

    /// An exchange in the synchronized, multi-threaded (Shared) regime,
    /// with the very same behaviour for every operation.
    pub fn new_multi_threaded() -> (e: SimpleExchange)
        ensures
            e.wf(),
            e.is_multi(),
            e.graph() == Map::<Seq<char>, Seq<LinkV>>::empty().insert(
                Seq::<char>::empty(),
                Seq::<LinkV>::empty(),
            ),
    {
        SimpleExchange::with_mode(true)
    }

    /// Index of the node registered at `path`, the root included.
    fn find_node(&self, path: &Path) -> (r: Option<usize>)
        ensures
            match r {
                Some(i) => i < self.nodes_model().len() && self.nodes_model()[i as int].path
                    == path@,
                None => !has_node(self.nodes_model(), path@),
            },
    {
        let mut i: usize = 0;
        while i < self.nodes.len()
            invariant
                i <= self.nodes@.len(),
                forall|j: int| 0 <= j < i ==> self.nodes_model()[j].path != path@,
            decreases self.nodes@.len() - i,
        {
            if self.nodes[i].path == *path {
                proof {
                    assert(self.nodes_model()[i as int] == self.nodes@[i as int]@);
                }
                return Some(i);
            }
            proof {
                assert(self.nodes_model()[i as int] == self.nodes@[i as int]@);
            }
            i = i + 1;
        }
        proof {
            if has_node(self.nodes_model(), path@) {
                let j = choose|j: int| 0 <= j < self.nodes_model().len() && self.nodes_model()[
                    j
                ].path == path@;
            }
        }
        None
    }

    /// A fresh handle for `path` in this exchange's ownership regime.
    fn make_ref(&self, path: &Path) -> (r: NodeRef)
        ensures
            r@ == path@,
            r.is_multi() == self.is_multi(),
    {
        if self.multi {
            ThreadMode::Multi(Arc::new(path.clone()))
        } else {
            ThreadMode::Single(Rc::new(path.clone()))
        }
    }
}

impl Exchange for SimpleExchange {
    closed spec fn graph(&self) -> GraphV {
        graph_of(self.nodes_model())
    }

    closed spec fn wf(&self) -> bool {
        let ns = self.nodes_model();
        &&& ns.len() >= 1
        &&& ns[0].path == Seq::<char>::empty()
        &&& unique_paths(ns)
        &&& forall|i: int| 0 <= i < ns.len() ==> links_wf(#[trigger] ns[i].links)
    }

    closed spec fn is_multi(&self) -> bool {
        self.multi
    }

    proof fn wf_implies_graph_wf(&self) {
        let ns = self.nodes_model();
        lemma_node_at(ns, 0);
        assert forall|p: Seq<char>| #[trigger]
            self.graph().contains_key(p) implies links_wf(self.graph()[p]) by {
            let i = node_idx(ns, p);
            assert(0 <= i < ns.len() && ns[i].path == p);
            lemma_node_at(ns, i);
        }
    }

    fn create_node(&mut self, path: Path) -> (r: Result<NodeRef, ExchangeError>) {
        let parent = path.parent();
        if self.find_node(&parent).is_none() {
            proof {
                assert(!self.graph().contains_key(crate::node::parent_of(path@))) by {
                    if self.graph().contains_key(parent@) {
                        assert(has_node(self.nodes_model(), parent@));
                    }
                }
            }
            return Err(ExchangeError::NodeNotFound);
        }
        let parent_ref = self.make_ref(&parent);
        let node = SimpleNode::new(path, Some(parent_ref));
        self.insert_node(node)
    }

    fn insert_node(&mut self, n: SimpleNode) -> (r: Result<NodeRef, ExchangeError>) {
        let ghost ns = self.nodes_model();
        match self.find_node(&n.path) {
            Some(i) => {
                proof {
                    assert(ns[i as int].path == n@.path);
                    lemma_node_at(ns, i as int);
                }
                Err(ExchangeError::PathCollision)
            },
            None => {
                proof {
                    if self.graph().contains_key(n@.path) {
                        assert(has_node(ns, n@.path));
                    }
                }
                let h = self.make_ref(&n.path);
                let ghost before = self.nodes@;
                self.nodes.push(n);
                proof {
                    lemma_node_views_push(before, self.nodes@.last());
                    lemma_graph_push(ns, self.nodes_model().last());
                    assert(self.nodes_model() =~= ns.push(self.nodes_model().last()));
                    assert forall|i: int| 0 <= i < self.nodes_model().len() implies links_wf(
                        #[trigger] self.nodes_model()[i].links,
                    ) by {
                        if i < ns.len() {
                            assert(self.nodes_model()[i] == ns[i]);
                        }
                    }
                }
                Ok(h)
            },
        }
    }

    fn get_node(&mut self, path: Path) -> (r: Result<NodeRef, ExchangeError>) {
        let ghost ns = self.nodes_model();
        match self.find_node(&path) {
            Some(i) => {
                proof {
                    lemma_node_at(ns, i as int);
                }
                Ok(self.make_ref(&path))
            },
            None => {
                proof {
                    if self.graph().contains_key(path@) {
                        assert(has_node(ns, path@));
                    }
                }
                Err(ExchangeError::NodeNotFound)
            },
        }
    }

    fn del_node(&mut self, path: Path) -> (r: Result<(), ExchangeError>) {
        let ghost orig = self.nodes_model();
        if path.path.as_str().is_empty() {
            return Err(ExchangeError::NodeNotFound);
        }
        let ni = match self.find_node(&path) {
            None => {
                proof {
                    if self.graph().contains_key(path@) {
                        assert(has_node(orig, path@));
                    }
                }
                return Err(ExchangeError::NodeNotFound);
            },
            Some(i) => i,
        };
        proof {
            lemma_node_at(orig, ni as int);
        }
        let ghost before_rm = self.nodes@;
        let _removed = self.nodes.remove(ni);
        let ghost mid = self.nodes_model();
        proof {
            lemma_node_views_remove(before_rm, ni as int);
            orig.remove_ensures(ni as int);
            assert(mid =~= orig.remove(ni as int));
            assert forall|a: int, b: int| 0 <= a < b < mid.len() implies mid[a].path
                != mid[b].path by {
                let oa = if a < ni {
                    a
                } else {
                    a + 1
                };
                let ob = if b < ni {
                    b
                } else {
                    b + 1
                };
                assert(mid[a] == orig[oa]);
                assert(mid[b] == orig[ob]);
            }
            assert forall|j: int| 0 <= j < mid.len() implies links_wf(
                #[trigger] mid[j].links,
            ) by {
                let oj = if j < ni {
                    j
                } else {
                    j + 1
                };
                assert(mid[j] == orig[oj]);
            }
            assert(ni != 0);
            assert(mid[0] == orig[0]);
        }
        let mut k: usize = 0;
        while k < self.nodes.len()
            invariant
                self.multi == old(self).multi,
                self.nodes_model().len() == mid.len(),
                k <= mid.len(),
                unique_paths(mid),
                forall|j: int| 0 <= j < mid.len() ==> links_wf(#[trigger] mid[j].links),
                forall|j: int| k <= j < mid.len() ==> self.nodes_model()[j] == mid[j],
                forall|j: int| 0 <= j < k ==> #[trigger] self.nodes_model()[j].path
                    == mid[j].path && self.nodes_model()[j].links == unlinked(
                    mid[j].links,
                    path@,
                ),
            decreases mid.len() - k,
        {
            let ghost cur = self.nodes@;
            proof {
                assert(self.nodes_model()[k as int] == mid[k as int]);
                assert(self.nodes@[k as int]@ == self.nodes_model()[k as int]);
                assert(links_wf(mid[k as int].links));
                assert(link_views(self.nodes@[k as int].links@) == mid[k as int].links);
                assert(self.nodes@[k as int].wf());
            }
            self.nodes[k].unlink_target(&path);
            proof {
                lemma_node_views_update(cur, k as int, self.nodes@[k as int]);
                assert(self.nodes@ =~= cur.update(k as int, self.nodes@[k as int]));
                assert(self.nodes_model() =~= node_views(cur).update(
                    k as int,
                    self.nodes@[k as int]@,
                ));
            }
            k = k + 1;
        }
        proof {
            let fin = self.nodes_model();
            lemma_graph_del(orig, ni as int, fin, path@);
            assert(fin[0].path == mid[0].path);
            assert forall|i: int| 0 <= i < fin.len() implies links_wf(
                #[trigger] fin[i].links,
            ) by {
                lemma_unlinked_props(mid[i].links, path@);
            }
        }
        Ok(())
    }

    fn add_subscription(&mut self, node: Path, subscriber: Path) -> (r: Result<
        (),
        ExchangeError,
    >) {
        let ghost ns = self.nodes_model();
        let ni = match self.find_node(&node) {
            None => {
                proof {
                    if self.graph().contains_key(node@) {
                        assert(has_node(ns, node@));
                    }
                }
                return Err(ExchangeError::NodeNotFound);
            },
            Some(i) => i,
        };
        if self.find_node(&subscriber).is_none() {
            proof {
                lemma_node_at(ns, ni as int);
                if self.graph().contains_key(subscriber@) {
                    assert(has_node(ns, subscriber@));
                }
            }
            return Err(ExchangeError::NodeNotFound);
        }
        proof {
            lemma_node_at(ns, ni as int);
            let si = choose|i: int| 0 <= i < ns.len() && ns[i].path == subscriber@;
            lemma_node_at(ns, si);
        }
        let sref = self.make_ref(&subscriber);
        let ghost cur = self.nodes@;
        self.nodes[ni].create_link(sref, NodeLinkType::Subscriber);
        proof {
            lemma_node_views_update(cur, ni as int, self.nodes@[ni as int]);
            assert(self.nodes@ =~= cur.update(ni as int, self.nodes@[ni as int]));
            let updated = self.nodes@[ni as int]@;
            lemma_graph_update(ns, ni as int, updated);
            assert(self.nodes_model() =~= ns.update(ni as int, updated));
            assert forall|i: int| 0 <= i < self.nodes_model().len() implies links_wf(
                #[trigger] self.nodes_model()[i].links,
            ) by {
                if i != ni {
                    assert(self.nodes_model()[i] == ns[i]);
                }
            }
        }
        Ok(())
    }

    fn del_subscription(&mut self, node: Path, subscriber: Path) -> (r: Result<
        (),
        ExchangeError,
    >) {
        let ghost ns = self.nodes_model();
        let ni = match self.find_node(&node) {
            None => {
                proof {
                    if self.graph().contains_key(node@) {
                        assert(has_node(ns, node@));
                    }
                }
                return Err(ExchangeError::NodeNotFound);
            },
            Some(i) => i,
        };
        proof {
            lemma_node_at(ns, ni as int);
        }
        let sref = self.make_ref(&subscriber);
        let ghost cur = self.nodes@;
        self.nodes[ni].remove_link(sref, NodeLinkType::Subscriber);
        proof {
            lemma_node_views_update(cur, ni as int, self.nodes@[ni as int]);
            assert(self.nodes@ =~= cur.update(ni as int, self.nodes@[ni as int]));
            let updated = self.nodes@[ni as int]@;
            lemma_graph_update(ns, ni as int, updated);
            assert(self.nodes_model() =~= ns.update(ni as int, updated));
            assert forall|i: int| 0 <= i < self.nodes_model().len() implies links_wf(
                #[trigger] self.nodes_model()[i].links,
            ) by {
                if i != ni {
                    assert(self.nodes_model()[i] == ns[i]);
                }
            }
        }
        Ok(())
    }

    fn send_mesg(&mut self, mesg: Msg, path: Path) -> (r: Result<Vec<Path>, ExchangeError>) {
        let ghost ns = self.nodes_model();
        let ni = match self.find_node(&path) {
            None => {
                proof {
                    if self.graph().contains_key(path@) {
                        assert(has_node(ns, path@));
                    }
                }
                return Err(ExchangeError::NodeNotFound);
            },
            Some(i) => i,
        };
        proof {
            lemma_node_at(ns, ni as int);
        }
        let ghost links = ns[ni as int].links;
        let mut out: Vec<Path> = Vec::new();
        out.push(path.clone());
        proof {
            assert(path_views(out@) =~= seq![path@]);
            assert(links.subrange(0, 0) =~= Seq::<LinkV>::empty());
            assert(seq![path@] + subscriber_targets(links.subrange(0, 0)) =~= seq![path@]);
        }
        let mut j: usize = 0;
        while j < self.nodes[ni].links.len()
            invariant
                ni < self.nodes@.len(),
                self.nodes_model() == ns,
                links == ns[ni as int].links,
                j <= links.len(),
                path_views(out@) == seq![path@] + subscriber_targets(
                    links.subrange(0, j as int),
                ),
            decreases links.len() - j,
        {
            proof {
                assert(self.nodes@[ni as int]@ == ns[ni as int]);
                assert(link_views(self.nodes@[ni as int].links@) == links);
                assert(links[j as int] == self.nodes@[ni as int].links@[j as int]@);
            }
            let ghost prefix = links.subrange(0, j as int);
            let ghost outv = out@;
            let link = &self.nodes[ni].links[j];
            let is_sub = match &link.relationship {
                NodeLinkType::Subscriber => true,
                NodeLinkType::Parent => false,
                NodeLinkType::Child => false,
                NodeLinkType::Other(_) => false,
            };
            if is_sub {
                let p2 = link.to.get_path();
                out.push(p2);
                proof {
                    assert(path_views(out@) =~= path_views(outv).push(links[j as int].to));
                }
            }
            proof {
                lemma_subscriber_targets_push(prefix, links[j as int]);
                assert(links.subrange(0, j as int + 1) =~= prefix.push(links[j as int]));
                if is_sub {
                    assert((seq![path@] + subscriber_targets(prefix)).push(links[j as int].to)
                        =~= seq![path@] + subscriber_targets(prefix).push(links[j as int].to));
                }
            }
            j = j + 1;
        }
        proof {
            assert(links.subrange(0, links.len() as int) =~= links);
        }
        Ok(out)
    }
}

/// Fan-out collection distributes over `push`.
proof fn lemma_subscriber_targets_push(s: Seq<LinkV>, x: LinkV)
    ensures
        subscriber_targets(s.push(x)) == if x.kind is Subscriber {
            subscriber_targets(s).push(x.to)
        } else {
            subscriber_targets(s)
        },
{
    assert(s.push(x).drop_last() =~= s);
    assert(s.push(x).last() == x);
}

/// How many times `q` occurs in a sequence of paths.
pub open spec fn count_of(s: Seq<Seq<char>>, q: Seq<char>) -> nat
    decreases s.len(),
{
    if s.len() == 0 {
        0
    } else {
        count_of(s.drop_last(), q) + if s.last() == q {
            1nat
        } else {
            0nat
        }
    }
}

/// Occurrence counting distributes over concatenation.
pub proof fn lemma_count_add(s1: Seq<Seq<char>>, s2: Seq<Seq<char>>, q: Seq<char>)
    ensures
        count_of(s1 + s2, q) == count_of(s1, q) + count_of(s2, q),
    decreases s2.len(),
{
    if s2.len() == 0 {
        assert(s1 + s2 =~= s1);
    } else {
        lemma_count_add(s1, s2.drop_last(), q);
        assert((s1 + s2).drop_last() =~= s1 + s2.drop_last());
        assert((s1 + s2).last() == s2.last());
    }
}

/// In a duplicate-free link list, a path is a fan-out target exactly once
/// if the list holds a `Subscriber` edge to it, and never otherwise.
pub proof fn lemma_targets_count(links: Seq<LinkV>, b: Seq<char>)
    requires
        links_wf(links),
    ensures
        count_of(subscriber_targets(links), b) == if links.contains(
            LinkV { to: b, kind: LinkTypeV::Subscriber },
        ) {
            1nat
        } else {
            0nat
        },
    decreases links.len(),
{
    let l = LinkV { to: b, kind: LinkTypeV::Subscriber };
    if links.len() > 0 {
        let d = links.drop_last();
        let x = links.last();
        assert(d.no_duplicates());
        lemma_targets_count(d, b);
        if x.kind is Subscriber {
            assert(subscriber_targets(links) == subscriber_targets(d).push(x.to));
            assert(subscriber_targets(d).push(x.to).drop_last() =~= subscriber_targets(d));
        }
        if x == l {
            if d.contains(l) {
                let j = choose|j: int| 0 <= j < d.len() && d[j] == l;
                assert(links[j] == links[links.len() - 1]);
            }
            assert(links[links.len() - 1] == l);
            assert(links.contains(l));
        } else {
            assert(!(x.kind is Subscriber && x.to == b));
            if links.contains(l) {
                let j = choose|j: int| 0 <= j < links.len() && links[j] == l;
                assert(j < d.len());
                assert(d[j] == l);
                assert(d.contains(l));
            }
            if d.contains(l) {
                let j = choose|j: int| 0 <= j < d.len() && d[j] == l;
                assert(links[j] == l);
                assert(links.contains(l));
            }
        }
    }
}

/// Subscribing twice is subscribing once: a second `add_subscription(a, b)`
/// reports the same outcome and leaves the graph exactly as the first one
/// left it, and a message sent to `a` is then delivered to `a` and to `b`
/// once each — never twice. (The one input left out: a node already
/// subscribed to itself would receive its own message twice by design, as
/// one delivery and one fan-out.)
pub proof fn lemma_add_subscription_idempotent(g: GraphV, a: Seq<char>, b: Seq<char>)
    requires
        graph_wf(g),
        g.contains_key(a),
        g.contains_key(b),
        a != b,
        !g[a].contains(LinkV { to: a, kind: LinkTypeV::Subscriber }),
    ensures
        ({
            let g1 = add_subscription_spec(g, a, b).0;
            &&& add_subscription_spec(g, a, b).1 == Ok::<(), ExchangeError>(())
            &&& add_subscription_spec(g1, a, b).0 == g1
            &&& add_subscription_spec(g1, a, b).1 == Ok::<(), ExchangeError>(())
            &&& send_mesg_spec(g1, a) matches Ok(r) && count_of(r, a) == 1 && count_of(r, b)
                == 1
        }),
{
    let l = LinkV { to: b, kind: LinkTypeV::Subscriber };
    let sl = LinkV { to: a, kind: LinkTypeV::Subscriber };
    let links1 = add_link(g[a], l);
    let g1 = g.insert(a, links1);
    lemma_add_link_wf(g[a], l);
    assert(add_subscription_spec(g, a, b).0 == g1);
    assert(g1.contains_key(a) && g1.contains_key(b));
    assert(g1[a] == links1);
    assert(add_link(links1, l) == links1);
    assert(g1.insert(a, links1) =~= g1);
    let r = seq![a] + subscriber_targets(links1);
    assert(send_mesg_spec(g1, a) == Ok::<Seq<Seq<char>>, ExchangeError>(r));
    lemma_count_add(seq![a], subscriber_targets(links1), a);
    lemma_count_add(seq![a], subscriber_targets(links1), b);
    assert(seq![a].drop_last() =~= Seq::<Seq<char>>::empty());
    assert(count_of(Seq::<Seq<char>>::empty(), a) == 0);
    assert(count_of(Seq::<Seq<char>>::empty(), b) == 0);
    assert(seq![a].last() == a);
    assert(count_of(seq![a], a) == 1);
    assert(count_of(seq![a], b) == 0);
    lemma_targets_count(links1, b);
    lemma_targets_count(links1, a);
    assert(links1.contains(l));
    if links1.contains(sl) {
        let j = choose|j: int| 0 <= j < links1.len() && links1[j] == sl;
        if g[a].contains(l) {
            assert(g[a].contains(sl));
        } else {
            if j < g[a].len() {
                assert(g[a][j] == sl);
                assert(g[a].contains(sl));
            } else {
                assert(links1[j] == l);
            }
        }
    }
    assert(count_of(subscriber_targets(links1), a) == 0);
}

/// Unsubscribing is complete and safe to repeat: after
/// `del_subscription(a, b)` the fan-out from `a` no longer reaches `b` (as
/// a subscriber; a message to `a` still reaches `a` itself), a second
/// `del_subscription` is accepted and changes nothing, and a subscription
/// that never existed is not an error either.
pub proof fn lemma_del_subscription_idempotent(g: GraphV, a: Seq<char>, b: Seq<char>)
    requires
        graph_wf(g),
        g.contains_key(a),
    ensures
        ({
            let g1 = del_subscription_spec(g, a, b).0;
            &&& del_subscription_spec(g, a, b).1 == Ok::<(), ExchangeError>(())
            &&& del_subscription_spec(g1, a, b).0 == g1
            &&& del_subscription_spec(g1, a, b).1 == Ok::<(), ExchangeError>(())
            &&& send_mesg_spec(g1, a) matches Ok(r) && count_of(r, b) == if a == b {
                1nat
            } else {
                0nat
            }
        }),
{
    let l = LinkV { to: b, kind: LinkTypeV::Subscriber };
    let links1 = without_link(g[a], l);
    let g1 = g.insert(a, links1);
    crate::node::lemma_without_link_props(g[a], l);
    assert(g1[a] == links1);
    assert(!links1.contains(l));
    crate::node::lemma_without_link_absent(links1, l);
    assert(g1.insert(a, links1) =~= g1);
    let r = seq![a] + subscriber_targets(links1);
    assert(send_mesg_spec(g1, a) == Ok::<Seq<Seq<char>>, ExchangeError>(r));
    lemma_count_add(seq![a], subscriber_targets(links1), b);
    assert(seq![a].drop_last() =~= Seq::<Seq<char>>::empty());
    assert(count_of(Seq::<Seq<char>>::empty(), b) == 0);
    assert(seq![a].last() == a);
    assert(count_of(seq![a], b) == if a == b {
        1nat
    } else {
        0nat
    });
    lemma_targets_count(links1, b);
    assert(count_of(subscriber_targets(links1), b) == 0);
}

/// Deletion makes a path unreachable: once `del_node(p)` has succeeded,
/// `get_node(p)` fails with `NodeNotFound` — while any handle issued
/// earlier is an untouched value and keeps reporting its own path.
pub proof fn lemma_del_then_get(g: GraphV, p: Seq<char>)
    requires
        del_node_spec(g, p).1 == Ok::<(), ExchangeError>(()),
    ensures
        get_node_spec(del_node_spec(g, p).0, p) == Err::<Seq<char>, ExchangeError>(
            ExchangeError::NodeNotFound,
        ),
{
    assert(!del_node_spec(g, p).0.contains_key(p));
}

/// One exchange operation, as mathematical values.
pub enum ExchangeOp {
    CreateNode(Seq<char>),
    InsertNode(NodeV),
    GetNode(Seq<char>),
    DelNode(Seq<char>),
    AddSubscription(Seq<char>, Seq<char>),
    DelSubscription(Seq<char>, Seq<char>),
    SendMesg(Seq<char>),
}

/// What one exchange operation reports back.
pub enum OpReply {
    Handle(Result<Seq<char>, ExchangeError>),
    Done(Result<(), ExchangeError>),
    Delivered(Result<Seq<Seq<char>>, ExchangeError>),
}

/// One operation applied to a graph: the new graph and the reply. This is
/// the common behaviour every `Exchange` operation is contracted to — its
/// reply and its effect are functions of the graph alone.
pub open spec fn apply_op(g: GraphV, op: ExchangeOp) -> (GraphV, OpReply) {
    match op {
        ExchangeOp::CreateNode(p) => (
            create_node_spec(g, p).0,
            OpReply::Handle(create_node_spec(g, p).1),
        ),
        ExchangeOp::InsertNode(n) => (
            insert_node_spec(g, n).0,
            OpReply::Handle(insert_node_spec(g, n).1),
        ),
        ExchangeOp::GetNode(p) => (g, OpReply::Handle(get_node_spec(g, p))),
        ExchangeOp::DelNode(p) => (del_node_spec(g, p).0, OpReply::Done(del_node_spec(g, p).1)),
        ExchangeOp::AddSubscription(a, b) => (
            add_subscription_spec(g, a, b).0,
            OpReply::Done(add_subscription_spec(g, a, b).1),
        ),
        ExchangeOp::DelSubscription(a, b) => (
            del_subscription_spec(g, a, b).0,
            OpReply::Done(del_subscription_spec(g, a, b).1),
        ),
        ExchangeOp::SendMesg(p) => (g, OpReply::Delivered(send_mesg_spec(g, p))),
    }
}

/// A sequence of operations run under a fixed ownership mode: the mode is
/// carried along with the state, the graph evolves by `apply_op`, and the
/// replies are collected in order.
pub open spec fn run_ops(multi: bool, g: GraphV, ops: Seq<ExchangeOp>) -> (bool, GraphV, Seq<
    OpReply,
>)
    decreases ops.len(),
{
    if ops.len() == 0 {
        (multi, g, Seq::empty())
    } else {
        let first = apply_op(g, ops.first());
        let rest = run_ops(multi, first.0, ops.drop_first());
        (rest.0, rest.1, seq![first.1] + rest.2)
    }
}

/// The Exclusive and Shared ownership regimes are behaviourally
/// interchangeable: one operation sequence, run from the same graph under
/// either mode, produces the same replies and the same final graph — the
/// mode never enters any outcome. Together with each operation's contract,
/// whose reply and graph are functions of the graph alone, this says a
/// single-caller host may swap one regime for the other and observe no
/// difference in any query.
pub proof fn lemma_modes_interchangeable(g: GraphV, ops: Seq<ExchangeOp>)
    ensures
        run_ops(false, g, ops).1 == run_ops(true, g, ops).1,
        run_ops(false, g, ops).2 == run_ops(true, g, ops).2,
    decreases ops.len(),
{
    if ops.len() > 0 {
        lemma_modes_interchangeable(apply_op(g, ops.first()).0, ops.drop_first());
    }
}

} // verus!
