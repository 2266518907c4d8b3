//! Hierarchical paths, shared node handles, and the typed relationship links
//! that make up the node graph.

use std::rc::Rc;
use std::sync::Arc;
use vstd::prelude::*;

verus! {

/// The separator between path segments.
pub open spec fn sep() -> char {
    '/'
}

/// Index of the last separator in `s`, or -1 when `s` holds none.
pub open spec fn last_sep(s: Seq<char>) -> int
    decreases s.len(),
{
    if s.len() == 0 {
        -1
    } else if s[s.len() - 1] == sep() {
        s.len() - 1
    } else {
        last_sep(s.drop_last())
    }
}

/// What `last_sep` finds: it is below the length, it points at a separator
/// when it is non-negative, and nothing after it is a separator.
pub proof fn lemma_last_sep(s: Seq<char>)
    ensures
        -1 <= last_sep(s) < s.len(),
        last_sep(s) >= 0 ==> s[last_sep(s)] == sep(),
        forall|j: int| last_sep(s) < j < s.len() ==> s[j] != sep(),
    decreases s.len(),
{
    if s.len() > 0 && s[s.len() - 1] != sep() {
        lemma_last_sep(s.drop_last());
        assert(forall|j: int| 0 <= j < s.len() - 1 ==> s[j] == s.drop_last()[j]);
    }
}

/// The path one hop up: everything before the last separator, or the root
/// (the empty path) when there is no separator.
pub open spec fn parent_of(s: Seq<char>) -> Seq<char> {
    if last_sep(s) < 0 {
        Seq::empty()
    } else {
        s.subrange(0, last_sep(s))
    }
}

/// The final segment: everything after the last separator, or the whole
/// path when there is no separator.
pub open spec fn name_of(s: Seq<char>) -> Seq<char> {
    if last_sep(s) < 0 {
        s
    } else {
        s.subrange(last_sep(s) + 1, s.len() as int)
    }
}

/// How many `parent_of` steps it takes to reach the root from `s`.
pub open spec fn segment_count(s: Seq<char>) -> nat
    decreases s.len(),
    via segment_count_decreases
{
    if s.len() == 0 {
        0
    } else {
        1 + segment_count(parent_of(s))
    }
}

#[via_fn]
proof fn segment_count_decreases(s: Seq<char>) {
    lemma_last_sep(s);
}

/// The segments of `s` in order, split at every separator; empty segments
/// are kept verbatim, so the empty path splits into one empty segment.
pub open spec fn split_of(s: Seq<char>) -> Seq<Seq<char>>
    decreases s.len(),
    via split_of_decreases
{
    if last_sep(s) < 0 {
        seq![s]
    } else {
        split_of(parent_of(s)).push(name_of(s))
    }
}

#[via_fn]
proof fn split_of_decreases(s: Seq<char>) {
    lemma_last_sep(s);
}

/// `segment_count` counts the segments of `split_of`, except that a leading
/// empty segment (the empty path itself, or one before a leading separator)
/// stands for the root and is not counted.
pub proof fn lemma_segment_count_split(s: Seq<char>)
    ensures
        split_of(s).len() == segment_count(s) + if s.len() == 0 || s[0] == sep() {
            1int
        } else {
            0int
        },
    decreases s.len(),
{
    lemma_last_sep(s);
    if last_sep(s) < 0 {
        if s.len() > 0 {
            assert(s[0] != sep());
            assert(parent_of(s) =~= Seq::<char>::empty());
            assert(segment_count(Seq::<char>::empty()) == 0);
            assert(segment_count(s) == 1);
        }
    } else {
        let p = parent_of(s);
        lemma_segment_count_split(p);
        if last_sep(s) > 0 {
            assert(p[0] == s[0]);
        } else {
            assert(s[0] == sep());
            assert(p.len() == 0);
        }
    }
}

/// `parent_of` applied `k` times to `s`.
pub open spec fn ancestor_of(s: Seq<char>, k: nat) -> Seq<char>
    decreases k,
{
    if k == 0 {
        s
    } else {
        ancestor_of(parent_of(s), (k - 1) as nat)
    }
}

/// Walking `parent_of` from any path reaches the root in exactly
/// `segment_count` steps, and not a step earlier; the root's own parent is
/// the root again, so the walk is stable there.
pub proof fn lemma_parent_reaches_root(s: Seq<char>)
    ensures
        ancestor_of(s, segment_count(s)).len() == 0,
        forall|k: nat| k < segment_count(s) ==> ancestor_of(s, k).len() != 0,
        parent_of(Seq::<char>::empty()) == Seq::<char>::empty(),
    decreases s.len(),
{
    assert(parent_of(Seq::<char>::empty()) =~= Seq::<char>::empty());
    if s.len() > 0 {
        lemma_last_sep(s);
        let p = parent_of(s);
        lemma_parent_reaches_root(p);
        assert(ancestor_of(s, segment_count(s)) == ancestor_of(p, segment_count(p)));
        assert forall|k: nat| k < segment_count(s) implies ancestor_of(s, k).len() != 0 by {
            if k > 0 {
                assert(ancestor_of(s, k) == ancestor_of(p, (k - 1) as nat));
            }
        }
    }
}

/// The character sequences behind a sequence of string slices.
pub open spec fn views_of(s: Seq<&str>) -> Seq<Seq<char>> {
    s.map_values(|t: &str| t@)
}

proof fn lemma_views_push(s: Seq<&str>, x: &str)
    ensures
        views_of(s.push(x)) =~= views_of(s).push(x@),
{
}

proof fn lemma_reverse_push<A>(s: Seq<A>, x: A)
    ensures
        s.push(x).reverse() =~= seq![x] + s.reverse(),
{
}

proof fn lemma_reverse_drop_last<A>(s: Seq<A>)
    requires
        s.len() > 0,
    ensures
        s.reverse() =~= seq![s.last()] + s.drop_last().reverse(),
{
}

/// Represents a node path from an `Exchange` root node.
pub struct Path {
    pub path: String,
}

impl View for Path {
    type V = Seq<char>;

    open spec fn view(&self) -> Seq<char> {
        self.path@
    }
}

impl PartialEq for Path {
    fn eq(&self, other: &Path) -> bool {
        self.path == other.path
    }
}

impl Eq for Path {

}

impl vstd::std_specs::cmp::PartialEqSpecImpl for Path {
    open spec fn obeys_eq_spec() -> bool {
        true
    }

    open spec fn eq_spec(&self, other: &Path) -> bool {
        self.path@ == other.path@
    }
}

impl Path {
    /// Wraps a string verbatim: no normalization is performed, so leading,
    /// trailing or doubled separators are kept as the caller wrote them.
    pub fn new(path: String) -> (p: Path)
        ensures
            p@ == path@,
    {
        Path { path }
    }

    pub fn new_str(path: &str) -> (p: Path)
        ensures
            p@ == path@,
    {
        Path::new(path.to_owned())
    }

    /// The root path: the empty string.
    pub fn root() -> (p: Path)
        ensures
            p@ == Seq::<char>::empty(),
    {
        Path::new(String::new())
    }

    pub fn clone(&self) -> (p: Path)
        ensures
            p == self,
    {
        Path { path: self.path.clone() }
    }

    /// Index of the last separator of `s`, if it holds one.
    fn find_last_sep(s: &str) -> (r: Option<usize>)
        ensures
            match r {
                Some(i) => i == last_sep(s@) && i < s@.len(),
                None => last_sep(s@) == -1,
            },
    {
        let n = s.unicode_len();
        let mut i = n;
        while i > 0
            invariant
                i <= n,
                n == s@.len(),
                forall|j: int| i <= j < n ==> s@[j] != sep(),
            decreases i,
        {
            i = i - 1;
            if s.get_char(i) == '/' {
                proof {
                    lemma_last_sep(s@);
                }
                return Some(i);
            }
        }
        proof {
            lemma_last_sep(s@);
        }
        None
    }

    /// The segments of the path in order, one string slice each; empty
    /// segments are kept verbatim.
    pub fn split<'a>(&'a self) -> (r: Vec<&'a str>)
        ensures
            views_of(r@) == split_of(self@),
    {
        let mut rest: &str = self.path.as_str();
        let mut parts_rev: Vec<&'a str> = Vec::new();
        proof {
            assert(views_of(parts_rev@) =~= Seq::<Seq<char>>::empty());
            assert(views_of(parts_rev@).reverse() =~= Seq::<Seq<char>>::empty());
            assert(split_of(rest@) + views_of(parts_rev@).reverse() =~= split_of(self@));
        }
        loop
            invariant_except_break
                split_of(rest@) + views_of(parts_rev@).reverse() == split_of(self@),
            ensures
                views_of(parts_rev@).reverse() == split_of(self@),
            decreases rest@.len(),
        {
            let ghost prev_vec = parts_rev@;
            let n = rest.unicode_len();
            match Path::find_last_sep(rest) {
                None => {
                    parts_rev.push(rest);
                    proof {
                        lemma_views_push(prev_vec, rest);
                        lemma_reverse_push(views_of(prev_vec), rest@);
                        assert(split_of(rest@) + views_of(prev_vec).reverse() =~= seq![rest@]
                            + views_of(prev_vec).reverse());
                    }
                    break ;
                },
                Some(i) => {
                    let name = rest.substring_char(i + 1, n);
                    let stem = rest.substring_char(0, i);
                    parts_rev.push(name);
                    proof {
                        lemma_views_push(prev_vec, name);
                        lemma_reverse_push(views_of(prev_vec), name@);
                        assert(split_of(rest@) =~= split_of(stem@) + seq![name@]);
                        assert((split_of(stem@) + seq![name@]) + views_of(prev_vec).reverse()
                            =~= split_of(stem@) + (seq![name@] + views_of(
                            prev_vec,
                        ).reverse()));
                    }
                    rest = stem;
                },
            }
        }
        let mut r: Vec<&'a str> = Vec::new();
        proof {
            assert(views_of(r@) =~= Seq::<Seq<char>>::empty());
            assert(views_of(r@) + views_of(parts_rev@).reverse() =~= views_of(
                parts_rev@,
            ).reverse());
        }
        while parts_rev.len() > 0
            invariant
                views_of(r@) + views_of(parts_rev@).reverse() == split_of(self@),
            decreases parts_rev@.len(),
        {
            let ghost prev_rev = parts_rev@;
            let ghost prev_r = r@;
            let x = parts_rev.pop().unwrap();
            r.push(x);
            proof {
                lemma_views_push(prev_r, x);
                assert(views_of(parts_rev@) =~= views_of(prev_rev).drop_last());
                lemma_reverse_drop_last(views_of(prev_rev));
                assert(views_of(prev_r).push(x@) =~= views_of(prev_r) + seq![x@]);
                assert((views_of(prev_r) + seq![x@]) + views_of(prev_rev).drop_last().reverse()
                    =~= views_of(prev_r) + (seq![x@] + views_of(
                    prev_rev,
                ).drop_last().reverse()));
            }
        }
        proof {
            assert(views_of(r@) + views_of(parts_rev@).reverse() =~= views_of(r@));
        }
        r
    }

    /// The final segment of the path, or the whole path when it holds no
    /// separator.
    pub fn name(&self) -> (r: String)
        ensures
            r@ == name_of(self@),
    {
        let s = self.path.as_str();
        let n = s.unicode_len();
        match Path::find_last_sep(s) {
            None => self.path.clone(),
            Some(i) => s.substring_char(i + 1, n).to_owned(),
        }
    }

    /// The path up to (not including) the last separator. A path without a
    /// separator, the root included, has the root as its parent: this is the
    /// explicit degenerate case for `root().parent()`.
    pub fn parent(&self) -> (r: Path)
        ensures
            r@ == parent_of(self@),
    {
        let s = self.path.as_str();
        match Path::find_last_sep(s) {
            None => Path::root(),
            Some(i) => Path::new(s.substring_char(0, i).to_owned()),
        }
    }
}

/// A handle to a shared `T`, in one of two mutually exclusive ownership
/// regimes fixed per exchange instance: `Single` is non-atomically
/// reference-counted (cheap, one logical thread of control only), `Multi` is
/// atomically reference-counted and may cross threads. Cloning a handle only
/// adds an owner to the same storage; it never copies the `T`.
pub enum ThreadMode<T> {
    Single(Rc<T>),
    Multi(Arc<T>),
}

/// Relies on std's `Rc::clone`: the returned handle shares the same
/// allocation, so it holds the very value the argument holds.
#[verifier::external_body]
fn clone_rc<T>(rc: &Rc<T>) -> (r: Rc<T>)
    ensures
        r == *rc,
{
    Rc::clone(rc)
}

/// Relies on std's `Arc::clone`: the returned handle shares the same
/// allocation, so it holds the very value the argument holds.
#[verifier::external_body]
fn clone_arc<T>(arc: &Arc<T>) -> (r: Arc<T>)
    ensures
        r == *arc,
{
    Arc::clone(arc)
}

impl<T> ThreadMode<T> {
    /// The shared value behind the handle.
    pub open spec fn value(self) -> T {
        match self {
            ThreadMode::Single(rc) => *rc,
            ThreadMode::Multi(arc) => *arc,
        }
    }

    /// Whether the handle belongs to the synchronized, multi-threaded regime.
    pub open spec fn is_multi(self) -> bool {
        self is Multi
    }
}

impl<T: View> View for ThreadMode<T> {
    type V = T::V;

    open spec fn view(&self) -> T::V {
        (*self).value().view()
    }
}

pub type AnyRef<T> = ThreadMode<T>;

/// A cheap-clone handle to a node's identity, in the ownership regime of the
/// exchange that handed it out.
pub type NodeRef = AnyRef<Path>;

impl<T> AnyRef<T> {
    /// Get a copy of the reference: a new owner of the same storage, in the
    /// same regime; the `T` itself is not copied.
    pub fn clone(&self) -> (r: AnyRef<T>)
        ensures
            r == *self,
    {
        match self {
            ThreadMode::Single(rc) => ThreadMode::Single(clone_rc(rc)),
            ThreadMode::Multi(arc) => ThreadMode::Multi(clone_arc(arc)),
        }
    }
}

impl NodeRef {
    /// The path of the node the handle was issued for. Works on any handle,
    /// whether or not the node is still registered anywhere.
    pub fn get_path(&self) -> (p: Path)
        ensures
            p@ == self@,
    {
        match self {
            ThreadMode::Single(rc) => (**rc).clone(),
            ThreadMode::Multi(arc) => (**arc).clone(),
        }
    }
}

/// The kind of a directed relationship edge between two nodes.
pub enum NodeLinkType {
    Parent,
    Child,
    Subscriber,
    Other(String),
}

/// The mathematical image of a `NodeLinkType`.
pub enum LinkTypeV {
    Parent,
    Child,
    Subscriber,
    Other(Seq<char>),
}

impl View for NodeLinkType {
    type V = LinkTypeV;

    open spec fn view(&self) -> LinkTypeV {
        match self {
            NodeLinkType::Parent => LinkTypeV::Parent,
            NodeLinkType::Child => LinkTypeV::Child,
            NodeLinkType::Subscriber => LinkTypeV::Subscriber,
            NodeLinkType::Other(tag) => LinkTypeV::Other(tag@),
        }
    }
}

impl NodeLinkType {
    pub fn clone(&self) -> (r: NodeLinkType)
        ensures
            r == *self,
    {
        match self {
            NodeLinkType::Parent => NodeLinkType::Parent,
            NodeLinkType::Child => NodeLinkType::Child,
            NodeLinkType::Subscriber => NodeLinkType::Subscriber,
            NodeLinkType::Other(tag) => NodeLinkType::Other(tag.clone()),
        }
    }

    /// Whether two link kinds are the same kind, tags included.
    pub fn same_kind(&self, other: &NodeLinkType) -> (r: bool)
        ensures
            r == (self@ == other@),
    {
        match (self, other) {
            (NodeLinkType::Parent, NodeLinkType::Parent) => true,
            (NodeLinkType::Child, NodeLinkType::Child) => true,
            (NodeLinkType::Subscriber, NodeLinkType::Subscriber) => true,
            (NodeLinkType::Other(a), NodeLinkType::Other(b)) => *a == *b,
            (NodeLinkType::Parent, _) => false,
            (NodeLinkType::Child, _) => false,
            (NodeLinkType::Subscriber, _) => false,
            (NodeLinkType::Other(_), _) => false,
        }
    }
}

/// A directed, typed edge from the node that stores it to `to`.
pub struct NodeLink {
    pub to: NodeRef,
    pub relationship: NodeLinkType,
}

/// The mathematical image of a `NodeLink`: the target's path and the kind.
pub struct LinkV {
    pub to: Seq<char>,
    pub kind: LinkTypeV,
}

impl View for NodeLink {
    type V = LinkV;

    open spec fn view(&self) -> LinkV {
        LinkV { to: self.to@, kind: self.relationship@ }
    }
}

impl NodeLink {
    pub fn clone(&self) -> (r: NodeLink)
        ensures
            r == *self,
    {
        NodeLink { to: self.to.clone(), relationship: self.relationship.clone() }
    }
}

/// The mathematical image of a node: its path and its ordered edge list.
pub struct NodeV {
    pub path: Seq<char>,
    pub links: Seq<LinkV>,
}

/// A link list is well formed when no `(target, kind)` pair repeats, so that
/// fan-out can never deliver twice along one subscription.
pub open spec fn links_wf(links: Seq<LinkV>) -> bool {
    links.no_duplicates()
}

/// Appending a link idempotently: an edge that is already present, with the
/// same target and the same kind, is not inserted a second time.
pub open spec fn add_link(links: Seq<LinkV>, l: LinkV) -> Seq<LinkV> {
    if links.contains(l) {
        links
    } else {
        links.push(l)
    }
}

/// Removing the link with the given target and kind, if present; the other
/// links keep their order.
pub open spec fn without_link(links: Seq<LinkV>, l: LinkV) -> Seq<LinkV>
    decreases links.len(),
{
    if links.len() == 0 {
        links
    } else {
        let rest = without_link(links.drop_last(), l);
        if links.last() == l {
            rest
        } else {
            rest.push(links.last())
        }
    }
}

/// The mathematical images of a sequence of links.
pub open spec fn link_views(s: Seq<NodeLink>) -> Seq<LinkV> {
    s.map_values(|l: NodeLink| l@)
}

pub proof fn lemma_link_views_push(s: Seq<NodeLink>, x: NodeLink)
    ensures
        link_views(s.push(x)) =~= link_views(s).push(x@),
{
}

/// Appending keeps a duplicate-free link list duplicate-free, and the
/// appended link is there afterwards.
pub proof fn lemma_add_link_wf(links: Seq<LinkV>, l: LinkV)
    requires
        links_wf(links),
    ensures
        links_wf(add_link(links, l)),
        add_link(links, l).contains(l),
{
    if !links.contains(l) {
        let f = links.push(l);
        assert(f[f.len() - 1] == l);
        assert forall|i: int, j: int| 0 <= i < j < f.len() implies f[i] != f[j] by {
            if j == f.len() - 1 {
                assert(f[i] == links[i]);
                assert(links.contains(links[i]));
            }
        }
    }
}

/// Removing a link that is not there changes nothing.
pub proof fn lemma_without_link_absent(s: Seq<LinkV>, l: LinkV)
    requires
        !s.contains(l),
    ensures
        without_link(s, l) == s,
    decreases s.len(),
{
    if s.len() > 0 {
        let d = s.drop_last();
        assert forall|i: int| 0 <= i < d.len() implies d[i] != l by {
            assert(s[i] == d[i]);
        }
        assert(!d.contains(l));
        lemma_without_link_absent(d, l);
        assert(s[s.len() - 1] != l);
        assert(d.push(s.last()) =~= s);
    }
}

/// Removal distributes over `push`.
pub proof fn lemma_without_link_push(s: Seq<LinkV>, x: LinkV, l: LinkV)
    ensures
        without_link(s.push(x), l) == if x == l {
            without_link(s, l)
        } else {
            without_link(s, l).push(x)
        },
{
    assert(s.push(x).drop_last() =~= s);
    assert(s.push(x).last() == x);
}

/// Every link kept by a removal was among the original links, and is not
/// the removed one.
pub proof fn lemma_without_link_in_source(s: Seq<LinkV>, l: LinkV, x: LinkV)
    requires
        without_link(s, l).contains(x),
    ensures
        s.contains(x),
        x != l,
    decreases s.len(),
{
    if s.len() > 0 {
        let d = s.drop_last();
        if x == s.last() {
            assert(s[s.len() - 1] == x);
            if x == l {
                assert(without_link(s, l) == without_link(d, l));
                lemma_without_link_in_source(d, l, x);
            }
        } else {
            let w = without_link(s, l);
            let k = choose|k: int| 0 <= k < w.len() && w[k] == x;
            if s.last() != l {
                assert(w == without_link(d, l).push(s.last()));
                assert(without_link(d, l)[k] == x);
            }
            assert(without_link(d, l).contains(x));
            lemma_without_link_in_source(d, l, x);
            let j = choose|j: int| 0 <= j < d.len() && d[j] == x;
            assert(s[j] == x);
        }
    }
}

/// Removing a link from a duplicate-free link list leaves it
/// duplicate-free, and the removed link is gone.
pub proof fn lemma_without_link_props(s: Seq<LinkV>, l: LinkV)
    requires
        links_wf(s),
    ensures
        links_wf(without_link(s, l)),
        !without_link(s, l).contains(l),
    decreases s.len(),
{
    if without_link(s, l).contains(l) {
        lemma_without_link_in_source(s, l, l);
    }
    if s.len() > 0 {
        let d = s.drop_last();
        assert(d.no_duplicates());
        lemma_without_link_props(d, l);
        if s.last() != l {
            if without_link(d, l).contains(s.last()) {
                lemma_without_link_in_source(d, l, s.last());
                let j = choose|j: int| 0 <= j < d.len() && d[j] == s.last();
                assert(s[j] == s[s.len() - 1]);
            }
            let f = without_link(d, l).push(s.last());
            assert(without_link(s, l) == f);
            assert forall|i: int, j: int| 0 <= i < j < f.len() implies f[i] != f[j] by {
                if j == f.len() - 1 {
                    assert(without_link(d, l)[i] == f[i]);
                    assert(without_link(d, l).contains(f[i]));
                }
            }
        }
    }
}

/// The behaviour of a node in the relationship graph: an identity fixed at
/// construction and an ordered list of typed edges, mutated only through the
/// idempotent `create_link` and the no-op-when-absent `remove_link`.
pub trait Node: View<V = NodeV> + Sized {
    /// Well-formedness of the edge list: no `(target, kind)` pair repeats.
    spec fn wf(&self) -> bool;

    /// A fresh node with an empty edge list, plus one `Parent` edge when a
    /// parent handle is supplied. Registers the node nowhere.
    fn new(path: Path, parent: Option<NodeRef>) -> (n: Self)
        ensures
            n@.path == path@,
            n.wf(),
            n@.links == match parent {
                Some(p) => seq![LinkV { to: p@, kind: LinkTypeV::Parent }],
                None => Seq::<LinkV>::empty(),
            },
    ;

    /// The node's path; pure, never fails.
    fn get_path(&self) -> (p: Path)
        ensures
            p@ == self@.path,
    ;

    /// Appends an edge, unless an edge with the same target and kind is
    /// already present: double subscription must never cause double
    /// delivery, so this is a no-op rather than a duplicate insert.
    fn create_link(&mut self, to: NodeRef, relationship: NodeLinkType)
        requires
            old(self).wf(),
        ensures
            final(self).wf(),
            final(self)@.path == old(self)@.path,
            final(self)@.links == add_link(
                old(self)@.links,
                LinkV { to: to@, kind: relationship@ },
            ),
    ;

    /// Removes the matching edge if present; a missing edge is not an error.
    fn remove_link(&mut self, to: NodeRef, relationship: NodeLinkType)
        requires
            old(self).wf(),
        ensures
            final(self).wf(),
            final(self)@.path == old(self)@.path,
            final(self)@.links == without_link(
                old(self)@.links,
                LinkV { to: to@, kind: relationship@ },
            ),
    ;

    /// A root node handle in the cheap, single-threaded ownership regime.
    fn new_single_threaded_root() -> (r: AnyRef<Self>)
        ensures
            r@.path == Seq::<char>::empty(),
            r@.links == Seq::<LinkV>::empty(),
            r.value().wf(),
            !r.is_multi(),
    ;

    /// A root node handle in the synchronized, multi-threaded ownership
    /// regime.
    fn new_multi_threaded_root() -> (r: AnyRef<Self>)
        ensures
            r@.path == Seq::<char>::empty(),
            r@.links == Seq::<LinkV>::empty(),
            r.value().wf(),
            r.is_multi(),
    ;
}

} // verus!
