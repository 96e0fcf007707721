//! The routing trie: one trie per request method plus a fallback trie for
//! other methods, and one default handler for every miss.
use vstd::prelude::*;

use crate::bytes::{copy_range, same_bytes};
use vstd::string::StringSliceAdditionalSpecFns;

verus! {

#[verifier::external_type_specification]
#[verifier::external_body]
#[verifier::reject_recursive_types(K)]
#[verifier::reject_recursive_types(V)]
#[verifier::reject_recursive_types(S)]
pub struct ExHashMap<K, V, S>(hashbrown::HashMap<K, V, S>);

#[verifier::external_type_specification]
#[verifier::external_body]
pub struct ExDefaultHashBuilder(hashbrown::hash_map::DefaultHashBuilder);

/// What a child map holds: segment key to the index of the child node.
pub uninterp spec fn edges(m: hashbrown::HashMap<Vec<u8>, usize>) -> Map<Seq<u8>, usize>;

/// Relies on `hashbrown::HashMap::new`: a new map holds no entry.
#[verifier::external_body]
fn edges_new() -> (r: hashbrown::HashMap<Vec<u8>, usize>)
    ensures
        edges(r).dom() == Set::<Seq<u8>>::empty(),
{
    hashbrown::HashMap::new()
}

/// Relies on `hashbrown::HashMap::get`: the value stored under the key equal to `k`.
#[verifier::external_body]
fn edges_get(m: &hashbrown::HashMap<Vec<u8>, usize>, k: &[u8]) -> (r: Option<usize>)
    ensures
        r == (if edges(*m).contains_key(k@) {
            Some(edges(*m)[k@])
        } else {
            None::<usize>
        }),
{
    m.get(k).copied()
}

/// Relies on `hashbrown::HashMap::insert`: `k` now maps to `v`, every other key
/// keeps its value.
#[verifier::external_body]
fn edges_insert(m: &mut hashbrown::HashMap<Vec<u8>, usize>, k: Vec<u8>, v: usize)
    ensures
        edges(*final(m)) == edges(*old(m)).insert(k@, v),
{
    m.insert(k, v);
}

/// The byte `/`.
pub const SLASH: u8 = 47;

/// The byte `:`.
pub const COLON: u8 = 58;

/// The byte `*`.
pub const STAR: u8 = 42;

/// The reserved key of a parameter child.
pub open spec fn param_key() -> Seq<u8> {
    seq![COLON]
}

/// The reserved key of a wildcard child.
pub open spec fn wildcard_key() -> Seq<u8> {
    seq![STAR]
}

/// Appends a finished segment unless it is empty.
pub open spec fn flush(done: Seq<Seq<u8>>, cur: Seq<u8>) -> Seq<Seq<u8>> {
    if cur.len() == 0 {
        done
    } else {
        done.push(cur)
    }
}

/// Splitting `p` on `/` so far: the finished segments and the segment being read.
pub open spec fn split_acc(p: Seq<u8>) -> (Seq<Seq<u8>>, Seq<u8>)
    decreases p.len(),
{
    if p.len() == 0 {
        (Seq::empty(), Seq::empty())
    } else {
        let prev = split_acc(p.drop_last());
        if p.last() == SLASH {
            (flush(prev.0, prev.1), Seq::empty())
        } else {
            (prev.0, prev.1.push(p.last()))
        }
    }
}

/// The non-empty segments of a path, split on `/`, in order.
pub open spec fn path_segments(p: Seq<u8>) -> Seq<Seq<u8>> {
    flush(split_acc(p).0, split_acc(p).1)
}

/// The trie key of a pattern segment: `:` for a parameter, else the segment.
pub open spec fn pattern_key(seg: Seq<u8>) -> Seq<u8> {
    if seg.len() > 0 && seg[0] == COLON {
        param_key()
    } else {
        seg
    }
}

/// The trie keys of a pattern.
pub open spec fn pattern_keys(p: Seq<u8>) -> Seq<Seq<u8>> {
    path_segments(p).map_values(|s: Seq<u8>| pattern_key(s))
}

/// A pattern with no parameter segment.
pub open spec fn is_literal(p: Seq<u8>) -> bool {
    forall|i: int| 0 <= i < path_segments(p).len() ==> pattern_key(#[trigger] path_segments(p)[i]) == path_segments(p)[i]
}

/// The trie root of a method: one for each of GET, PUT, POST, HEAD, PATCH,
/// DELETE and OPTIONS, and the last for any other method.
pub open spec fn method_root(m: Seq<u8>) -> int {
    if m == seq![71u8, 69, 84] {
        0
    } else if m == seq![80u8, 85, 84] {
        1
    } else if m == seq![80u8, 79, 83, 84] {
        2
    } else if m == seq![72u8, 69, 65, 68] {
        3
    } else if m == seq![80u8, 65, 84, 67, 72] {
        4
    } else if m == seq![68u8, 69, 76, 69, 84, 69] {
        5
    } else if m == seq![79u8, 80, 84, 73, 79, 78, 83] {
        6
    } else {
        7
    }
}

/// The number of trie roots.
pub const ROOTS: usize = 8;

/// One node of the trie.
pub struct Node<H> {
    /// The parameter name bound by a `:` child.
    pub param: Option<Vec<u8>>,
    /// The handler of the path that ends here.
    pub handler: Option<H>,
    /// Children by segment key, as indices of the router's nodes.
    pub children: Option<hashbrown::HashMap<Vec<u8>, usize>>,
}

impl<H> Node<H> {
    /// The children of this node by key.
    pub open spec fn kids(&self) -> Map<Seq<u8>, usize> {
        match self.children {
            Some(m) => edges(m),
            None => Map::empty(),
        }
    }

    /// The parameter name, as bytes.
    pub open spec fn param_name(&self) -> Seq<u8> {
        match self.param {
            Some(p) => p@,
            None => Seq::empty(),
        }
    }

    /// A node with no parameter, handler or children.
    pub fn default() -> (r: Node<H>)
        ensures
            r.param.is_none(),
            r.handler.is_none(),
            r.children.is_none(),
            r.kids().dom() == Set::<Seq<u8>>::empty(),
    {
        Node { param: None, handler: None, children: None }
    }

    /// Binds the handler of this node.
    pub fn set_func(&mut self, func: H)
        ensures
            final(self).handler == Some(func),
            final(self).param == old(self).param,
            final(self).children == old(self).children,
    {
        self.handler = Some(func);
    }

    /// The child under `seg` if there is one; else `fresh` is recorded as that
    /// child. Returns the child's index and whether it was recorded now.
    pub fn add_child(&mut self, seg: Vec<u8>, fresh: usize) -> (r: (usize, bool))
        ensures
            final(self).param == old(self).param,
            final(self).handler == old(self).handler,
            old(self).kids().contains_key(seg@) ==> r == (old(self).kids()[seg@], false)
                && final(self).kids() == old(self).kids(),
            !old(self).kids().contains_key(seg@) ==> r == (fresh, true)
                && final(self).kids() == old(self).kids().insert(seg@, fresh),
    {
        let mut m = match self.children.take() {
            Some(m) => m,
            None => edges_new(),
        };
        let found = edges_get(&m, seg.as_slice());
        let r = match found {
            Some(i) => (i, false),
            None => {
                edges_insert(&mut m, seg, fresh);
                (fresh, true)
            },
        };
        self.children = Some(m);
        r
    }
}

/// Prefixes the parameters of a walk's outcome.
pub open spec fn prefixed(
    ps: Seq<(Seq<u8>, Seq<u8>)>,
    w: (Option<int>, Seq<(Seq<u8>, Seq<u8>)>),
) -> (Option<int>, Seq<(Seq<u8>, Seq<u8>)>) {
    (w.0, ps + w.1)
}

/// Walks `segs` down from node `n`: an exact child first, else the parameter
/// child (recording the parameter), else the wildcard child (ending the walk).
/// The result is the terminal node, or `None` on a miss, and the parameters.
pub open spec fn walk<H>(nodes: Seq<Node<H>>, n: int, segs: Seq<Seq<u8>>) -> (
    Option<int>,
    Seq<(Seq<u8>, Seq<u8>)>,
)
    decreases segs.len(),
{
    if segs.len() == 0 {
        (Some(n), Seq::empty())
    } else {
        let kids = nodes[n].kids();
        let s = segs[0];
        if kids.contains_key(s) {
            walk(nodes, kids[s] as int, segs.drop_first())
        } else if kids.contains_key(param_key()) {
            let c = kids[param_key()] as int;
            prefixed(seq![(nodes[c].param_name(), s)], walk(nodes, c, segs.drop_first()))
        } else if kids.contains_key(wildcard_key()) {
            (Some(kids[wildcard_key()] as int), Seq::empty())
        } else {
            (None, Seq::empty())
        }
    }
}

/// Follows the exact keys `keys` down from node `n`.
pub open spec fn trace<H>(nodes: Seq<Node<H>>, n: int, keys: Seq<Seq<u8>>) -> Option<int>
    decreases keys.len(),
{
    if keys.len() == 0 {
        Some(n)
    } else if nodes[n].kids().contains_key(keys[0]) {
        trace(nodes, nodes[n].kids()[keys[0]] as int, keys.drop_first())
    } else {
        None
    }
}

/// The view of parameter pairs.
pub open spec fn pairs_view(v: Seq<(Vec<u8>, Vec<u8>)>) -> Seq<(Seq<u8>, Seq<u8>)> {
    v.map_values(|p: (Vec<u8>, Vec<u8>)| (p.0@, p.1@))
}

/// The view of a list of segments.
pub open spec fn segs_view(v: Seq<Vec<u8>>) -> Seq<Seq<u8>> {
    v.map_values(|s: Vec<u8>| s@)
}

/// Per-method tries, a fallback trie and a default handler.
pub struct Router<H> {
    /// All nodes; the first `ROOTS` are the roots, by `method_root`.
    pub nodes: Vec<Node<H>>,
    /// The handler of every miss.
    pub default: Option<H>,
}

impl<H> Router<H> {
    /// The roots exist, every child index names a node, and every parameter
    /// child carries a parameter name.
    ///
    /// The tries form a forest: no edge leads into a root, every edge leads
    /// to a later node, and no node has two incoming edges, so the tries of
    /// different methods share no node.
    pub open spec fn wf(&self) -> bool {
        &&& self.nodes@.len() >= ROOTS
        &&& forall|i: int, k: Seq<u8>|
            0 <= i < self.nodes@.len() && #[trigger] self.nodes@[i].kids().contains_key(k)
                ==> (self.nodes@[i].kids()[k] as int) < self.nodes@.len()
                && self.nodes@[i].kids()[k] >= ROOTS && (self.nodes@[i].kids()[k] as int) > i
        &&& forall|i1: int, k1: Seq<u8>, i2: int, k2: Seq<u8>|
            #![trigger self.nodes@[i1].kids().contains_key(k1), self.nodes@[i2].kids().contains_key(k2)]
            0 <= i1 < self.nodes@.len() && 0 <= i2 < self.nodes@.len()
                && self.nodes@[i1].kids().contains_key(k1) && self.nodes@[i2].kids().contains_key(k2)
                && self.nodes@[i1].kids()[k1] == self.nodes@[i2].kids()[k2] ==> i1 == i2 && k1 == k2
    }

    /// The handler and parameters that a request for `p` with method `m` is
    /// dispatched to; `None` where that is the missing default handler.
    pub open spec fn resolve(&self, m: Seq<u8>, p: Seq<u8>) -> Option<(H, Seq<(Seq<u8>, Seq<u8>)>)> {
        let w = walk(self.nodes@, method_root(m), path_segments(p));
        let bound = match w.0 {
            Some(t) => self.nodes@[t].handler,
            None => None,
        };
        match bound {
            Some(h) => Some((h, w.1)),
            None => match self.default {
                Some(d) => Some((d, w.1)),
                None => None,
            },
        }
    }

    /// The state after registering `h` for pattern `p` under method `m`:
    /// `"*"` sets the default handler; any other pattern binds `h` at the node
    /// that its keys lead to, keeping every existing edge, parameter name and
    /// other handler. Every new edge leaves a node on the pattern's path and
    /// leads to a fresh node; every fresh node lies on that path, carries its
    /// segment's parameter name and has no handler unless it is the last.
    pub open spec fn added(&self, next: &Self, m: Seq<u8>, p: Seq<u8>, h: H) -> bool {
        if p == wildcard_key() {
            next.default == Some(h) && next.nodes@ == self.nodes@
        } else {
            &&& next.default == self.default
            &&& self.nodes@.len() <= next.nodes@.len()
            &&& trace(next.nodes@, method_root(m), pattern_keys(p)) is Some
            &&& {
                let t = trace(next.nodes@, method_root(m), pattern_keys(p))->Some_0;
                &&& next.nodes@[t].handler == Some(h)
                &&& forall|i: int| 0 <= i < next.nodes@.len() && i != t ==>
                    (#[trigger] next.nodes@[i]).handler == (if i < self.nodes@.len() {
                        self.nodes@[i].handler
                    } else {
                        None
                    })
            }
            &&& forall|i: int| 0 <= i < self.nodes@.len() ==>
                (#[trigger] next.nodes@[i]).param == self.nodes@[i].param
            &&& forall|i: int, k: Seq<u8>|
                0 <= i < self.nodes@.len() && #[trigger] self.nodes@[i].kids().contains_key(k)
                    ==> next.nodes@[i].kids().contains_key(k) && next.nodes@[i].kids()[k]
                    == self.nodes@[i].kids()[k]
            &&& new_edges_on_path(self.nodes@, next.nodes@, method_root(m), pattern_keys(p), pattern_keys(p).len() as int)
            &&& new_edges_fresh(self.nodes@, next.nodes@)
            &&& new_nodes_on_path(self.nodes@, next.nodes@, method_root(m), pattern_keys(p), path_segments(p), pattern_keys(p).len() as int)
        }
    }
}

/// Splits a path on `/`, dropping empty segments.
pub fn segments(path: &[u8]) -> (r: Vec<Vec<u8>>)
    ensures
        segs_view(r@) == path_segments(path@),
{
    let mut done: Vec<Vec<u8>> = Vec::new();
    let mut cur: Vec<u8> = Vec::new();
    let mut i: usize = 0;
    while i < path.len()
        invariant
            0 <= i <= path@.len(),
            (segs_view(done@), cur@) == split_acc(path@.subrange(0, i as int)),
        decreases path@.len() - i,
    {
        proof {
            assert(path@.subrange(0, i + 1).drop_last() =~= path@.subrange(0, i as int));
        }
        let b = path[i];
        if b == SLASH {
            if cur.len() > 0 {
                let ghost before = done@;
                done.push(cur);
                proof {
                    assert(segs_view(done@) =~= segs_view(before).push(cur@));
                }
                cur = Vec::new();
            }
            proof {
                assert(cur@ =~= Seq::<u8>::empty());
            }
        } else {
            cur.push(b);
        }
        i += 1;
    }
    proof {
        assert(path@.subrange(0, path@.len() as int) =~= path@);
    }
    if cur.len() > 0 {
        let ghost before = done@;
        done.push(cur);
        proof {
            assert(segs_view(done@) =~= segs_view(before).push(cur@));
        }
    }
    done
}

/// The index of the trie root of a method.
fn root_of(m: &[u8]) -> (r: usize)
    ensures
        r as int == method_root(m@),
        r < ROOTS,
{
    let get: [u8; 3] = [71u8, 69, 84];
    let put: [u8; 3] = [80u8, 85, 84];
    let post: [u8; 4] = [80u8, 79, 83, 84];
    let head: [u8; 4] = [72u8, 69, 65, 68];
    let patch: [u8; 5] = [80u8, 65, 84, 67, 72];
    let delete: [u8; 6] = [68u8, 69, 76, 69, 84, 69];
    let options: [u8; 7] = [79u8, 80, 84, 73, 79, 78, 83];
    proof {
        assert(get@ =~= seq![71u8, 69, 84]);
        assert(put@ =~= seq![80u8, 85, 84]);
        assert(post@ =~= seq![80u8, 79, 83, 84]);
        assert(head@ =~= seq![72u8, 69, 65, 68]);
        assert(patch@ =~= seq![80u8, 65, 84, 67, 72]);
        assert(delete@ =~= seq![68u8, 69, 76, 69, 84, 69]);
        assert(options@ =~= seq![79u8, 80, 84, 73, 79, 78, 83]);
    }
    if same_bytes(m, &get) {
        0
    } else if same_bytes(m, &put) {
        1
    } else if same_bytes(m, &post) {
        2
    } else if same_bytes(m, &head) {
        3
    } else if same_bytes(m, &patch) {
        4
    } else if same_bytes(m, &delete) {
        5
    } else if same_bytes(m, &options) {
        6
    } else {
        7
    }
}

/// Following one more key extends a trace by one step.
pub proof fn lemma_trace_push<H>(nodes: Seq<Node<H>>, n: int, keys: Seq<Seq<u8>>, k: Seq<u8>)
    ensures
        trace(nodes, n, keys.push(k)) == (match trace(nodes, n, keys) {
            Some(c) => if nodes[c].kids().contains_key(k) {
                Some(nodes[c].kids()[k] as int)
            } else {
                None
            },
            None => None,
        }),
    decreases keys.len(),
{
    if keys.len() == 0 {
        assert(keys.push(k).drop_first() =~= Seq::<Seq<u8>>::empty());
        assert(keys.push(k)[0] == k);
        if nodes[n].kids().contains_key(k) {
            let c = nodes[n].kids()[k] as int;
            assert(trace(nodes, c, Seq::<Seq<u8>>::empty()) == Some(c));
        }
    } else {
        assert(keys.push(k).drop_first() =~= keys.drop_first().push(k));
        assert(keys.push(k)[0] == keys[0]);
        if nodes[n].kids().contains_key(keys[0]) {
            let c = nodes[n].kids()[keys[0]] as int;
            lemma_trace_push(nodes, c, keys.drop_first(), k);
            assert(trace(nodes, n, keys.push(k)) == trace(nodes, c, keys.drop_first().push(k)));
            assert(trace(nodes, n, keys) == trace(nodes, c, keys.drop_first()));
        } else {
            assert(trace(nodes, n, keys) is None);
        }
    }
}

/// The parameter name that a pattern segment gives the node it creates.
pub open spec fn created_param(seg: Seq<u8>) -> Option<Seq<u8>> {
    if seg.len() > 0 && seg[0] == COLON {
        Some(seg.drop_first())
    } else {
        None
    }
}

pub open spec fn opt_bytes(o: Option<Vec<u8>>) -> Option<Seq<u8>> {
    match o {
        Some(v) => Some(v@),
        None => None,
    }
}

/// Every node of `b` past those of `a` is the one that the first `j + 1` keys
/// trace to, for some `j < upto`, and carries the parameter name of segment `j`.
pub open spec fn new_nodes_on_path<H>(
    a: Seq<Node<H>>,
    b: Seq<Node<H>>,
    root: int,
    keys: Seq<Seq<u8>>,
    segs: Seq<Seq<u8>>,
    upto: int,
) -> bool {
    forall|i: int|
        a.len() <= i < b.len() ==> exists|j: int|
            0 <= j < upto && trace(b, root, keys.take(j + 1)) == Some(i) && opt_bytes(
                #[trigger] b[i].param,
            ) == created_param(segs[j])
}

/// Every edge of `b` that `a` lacks leads to a node that `a` does not have.
pub open spec fn new_edges_fresh<H>(a: Seq<Node<H>>, b: Seq<Node<H>>) -> bool {
    forall|i: int, k: Seq<u8>|
        0 <= i < b.len() && #[trigger] b[i].kids().contains_key(k) && !(i < a.len() && a[i].kids().contains_key(k))
            ==> b[i].kids()[k] >= a.len()
}

/// Every edge of `b` that `a` lacks leaves a node that the first `upto` keys
/// trace to from `root`, under the next key.
pub open spec fn new_edges_on_path<H>(a: Seq<Node<H>>, b: Seq<Node<H>>, root: int, keys: Seq<Seq<u8>>, upto: int) -> bool {
    forall|i: int, k: Seq<u8>|
        0 <= i < b.len() && #[trigger] b[i].kids().contains_key(k) && !(i < a.len() && a[i].kids().contains_key(k))
            ==> exists|j: int| 0 <= j < upto && trace(b, root, keys.take(j)) == Some(i) && keys[j] == k
}

/// Every edge and node of `a` is kept in `b`.
pub open spec fn keeps_edges<H>(a: Seq<Node<H>>, b: Seq<Node<H>>) -> bool {
    &&& a.len() <= b.len()
    &&& forall|i: int, k: Seq<u8>|
        0 <= i < a.len() && #[trigger] a[i].kids().contains_key(k) ==> b[i].kids().contains_key(k)
            && b[i].kids()[k] == a[i].kids()[k]
}

/// A trace through kept edges is the same trace afterwards.
pub proof fn lemma_trace_kept<H>(a: Seq<Node<H>>, b: Seq<Node<H>>, n: int, keys: Seq<Seq<u8>>)
    requires
        keeps_edges(a, b),
        0 <= n < a.len(),
        forall|i: int, k: Seq<u8>|
            0 <= i < a.len() && #[trigger] a[i].kids().contains_key(k) ==> (a[i].kids()[k] as int)
                < a.len(),
        trace(a, n, keys) is Some,
    ensures
        trace(b, n, keys) == trace(a, n, keys),
    decreases keys.len(),
{
    if keys.len() > 0 {
        lemma_trace_kept(a, b, a[n].kids()[keys[0]] as int, keys.drop_first());
    }
}

impl<H> Router<H> {
    /// A router with empty tries and no default handler.
    pub fn new() -> (r: Router<H>)
        ensures
            r.wf(),
            r.nodes@.len() == ROOTS,
            r.default.is_none(),
            forall|i: int| 0 <= i < ROOTS ==> (#[trigger] r.nodes@[i]).handler.is_none()
                && r.nodes@[i].param.is_none() && r.nodes@[i].kids().dom() == Set::<Seq<u8>>::empty(),
    {
        let mut nodes: Vec<Node<H>> = Vec::new();
        let mut i: usize = 0;
        while i < ROOTS
            invariant
                0 <= i <= ROOTS,
                nodes@.len() == i,
                forall|j: int| 0 <= j < i ==> (#[trigger] nodes@[j]).handler.is_none()
                    && nodes@[j].param.is_none() && nodes@[j].kids().dom() == Set::<Seq<u8>>::empty(),
            decreases ROOTS - i,
        {
            nodes.push(Node::default());
            i += 1;
        }
        Router { nodes, default: None }
    }

    /// Registers `func` for the pattern `path` under `method`: `"*"` makes it
    /// the default handler; otherwise each non-empty segment leads to an exact
    /// child, or to the `:` child for a `:name` segment, created where missing.
    pub fn add(&mut self, method: &str, path: &str, func: H)
        requires
            old(self).wf(),
            old(self).nodes@.len() + path.spec_bytes().len() < usize::MAX,
        ensures
            final(self).wf(),
            old(self).added(&*final(self), method.spec_bytes(), path.spec_bytes(), func),
    {
        let m = root_of(method.as_bytes());
        let p = path.as_bytes();
        if p.len() == 1 && p[0] == STAR {
            proof {
                assert(p@ =~= wildcard_key());
            }
            self.default = Some(func);
            return;
        }
        assert(p@ != wildcard_key());
        let segs = segments(p);
        let ghost keys = pattern_keys(p@);
        let ghost start = self.nodes@;
        proof {
            assert(keys.take(0) =~= Seq::<Seq<u8>>::empty());
            lemma_segments_bound(p@);
        }
        let mut cur: usize = m;
        let mut j: usize = 0;
        while j < segs.len()
            invariant
                self.wf(),
                start.len() >= ROOTS,
                m < ROOTS,
                self.default == old(self).default,
                start == old(self).nodes@,
                keys == pattern_keys(p@),
                segs_view(segs@) == path_segments(p@),
                segs@.len() <= p@.len(),
                0 <= j <= segs@.len(),
                self.nodes@.len() <= start.len() + j,
                keeps_edges(start, self.nodes@),
                (cur as int) < self.nodes@.len(),
                trace(self.nodes@, m as int, keys.take(j as int)) == Some(cur as int),
                forall|i: int| 0 <= i < self.nodes@.len() ==> (#[trigger] self.nodes@[i]).handler == (if i < start.len() {
                    start[i].handler
                } else {
                    None
                }),
                forall|i: int| 0 <= i < start.len() ==> (#[trigger] self.nodes@[i]).param == start[i].param,
                old(self).nodes@.len() + p@.len() < usize::MAX,
                keys.len() == segs@.len(),
                forall|jj: int| 0 <= jj <= j ==> (#[trigger] trace(self.nodes@, m as int, keys.take(jj))) is Some,
                new_edges_on_path(start, self.nodes@, m as int, keys, j as int),
                new_edges_fresh(start, self.nodes@),
                new_nodes_on_path(start, self.nodes@, m as int, keys, path_segments(p@), j as int),
            decreases segs@.len() - j,
        {
            let seg = &segs[j];
            proof {
                assert(segs_view(segs@)[j as int] == seg@);
                assert(keys[j as int] == pattern_key(seg@));
            }
            let is_param = seg.len() > 0 && seg[0] == COLON;
            let mut key: Vec<u8> = Vec::new();
            let mut param: Option<Vec<u8>> = None;
            if is_param {
                key.push(COLON);
                param = Some(copy_range(seg.as_slice(), 1, seg.len()));
                proof {
                    assert(key@ =~= param_key());
                    assert(seg@.subrange(1, seg@.len() as int) =~= seg@.drop_first());
                }
            } else {
                key = copy_range(seg.as_slice(), 0, seg.len());
                proof {
                    assert(key@ =~= seg@);
                }
            }
            let fresh = self.nodes.len();
            let ghost before = self.nodes@;
            let (next, made) = self.nodes[cur].add_child(key, fresh);
            if made {
                let mut n = Node::default();
                n.param = param;
                self.nodes.push(n);
            }
            proof {
                assert(keeps_edges(before, self.nodes@));
                assert forall|jj: int| 0 <= jj <= j implies trace(self.nodes@, m as int, keys.take(jj))
                    == trace(before, m as int, keys.take(jj)) by {
                    lemma_trace_kept(before, self.nodes@, m as int, keys.take(jj));
                }
                assert(keys.take(j + 1) =~= keys.take(j as int).push(keys[j as int]));
                lemma_trace_push(self.nodes@, m as int, keys.take(j as int), keys[j as int]);
                assert forall|i: int, k: Seq<u8>|
                    0 <= i < self.nodes@.len() && #[trigger] self.nodes@[i].kids().contains_key(k)
                        && !(i < start.len() && start[i].kids().contains_key(k)) implies exists|jj: int|
                        0 <= jj < j + 1 && trace(self.nodes@, m as int, keys.take(jj)) == Some(i) && keys[jj] == k by {
                    if i == cur && k == keys[j as int] {
                        assert(trace(self.nodes@, m as int, keys.take(j as int)) == Some(i));
                    } else if i >= before.len() {
                        assert(self.nodes@[i].kids().dom() == Set::<Seq<u8>>::empty());
                    } else {
                        assert(i < before.len() && before[i].kids().contains_key(k));
                        let jj = choose|jj: int| 0 <= jj < j && trace(before, m as int, keys.take(jj)) == Some(i) && keys[jj] == k;
                        assert(trace(self.nodes@, m as int, keys.take(jj)) == Some(i));
                    }
                }
                assert(opt_bytes(param) == created_param(path_segments(p@)[j as int]));
                assert forall|i: int| start.len() <= i < self.nodes@.len() implies exists|jj: int|
                    0 <= jj < j + 1 && trace(self.nodes@, m as int, keys.take(jj + 1)) == Some(i) && opt_bytes(
                        #[trigger] self.nodes@[i].param,
                    ) == created_param(path_segments(p@)[jj]) by {
                    if i < before.len() {
                        let jj = choose|jj: int| 0 <= jj < j && trace(before, m as int, keys.take(jj + 1)) == Some(i)
                            && opt_bytes(before[i].param) == created_param(path_segments(p@)[jj]);
                        assert(trace(self.nodes@, m as int, keys.take(jj + 1)) == Some(i));
                    } else {
                        assert(trace(self.nodes@, m as int, keys.take(j + 1)) == Some(i));
                    }
                }
            }
            cur = next;
            j += 1;
        }
        proof {
            assert(keys.take(segs@.len() as int) =~= keys);
        }
        let ghost before = self.nodes@;
        self.nodes[cur].set_func(func);
        proof {
            assert(self.nodes@[cur as int].kids() == before[cur as int].kids());
            assert forall|i: int| 0 <= i < self.nodes@.len() implies #[trigger] self.nodes@[i].kids() == before[i].kids() by {
                if i == cur {
                    assert(self.nodes@[cur as int].kids() == before[cur as int].kids());
                }
            }
            assert(keeps_edges(before, self.nodes@));
            lemma_trace_kept(before, self.nodes@, m as int, keys);
            assert forall|jj: int| 0 <= jj <= keys.len() implies trace(self.nodes@, m as int, keys.take(jj))
                == trace(before, m as int, keys.take(jj)) by {
                lemma_trace_kept(before, self.nodes@, m as int, keys.take(jj));
            }
            assert forall|i: int, k: Seq<u8>|
                0 <= i < self.nodes@.len() && #[trigger] self.nodes@[i].kids().contains_key(k)
                    && !(i < start.len() && start[i].kids().contains_key(k)) implies exists|jj: int|
                    0 <= jj < keys.len() && trace(self.nodes@, m as int, keys.take(jj)) == Some(i) && keys[jj] == k by {
                assert(before[i].kids().contains_key(k));
                let jj = choose|jj: int| 0 <= jj < keys.len() && trace(before, m as int, keys.take(jj)) == Some(i) && keys[jj] == k;
                assert(trace(self.nodes@, m as int, keys.take(jj)) == Some(i));
            }
            assert forall|i: int| start.len() <= i < self.nodes@.len() implies exists|jj: int|
                0 <= jj < keys.len() && trace(self.nodes@, m as int, keys.take(jj + 1)) == Some(i) && opt_bytes(
                    #[trigger] self.nodes@[i].param,
                ) == created_param(path_segments(p@)[jj]) by {
                let jj = choose|jj: int| 0 <= jj < keys.len() && trace(before, m as int, keys.take(jj + 1)) == Some(i)
                    && opt_bytes(before[i].param) == created_param(path_segments(p@)[jj]);
                assert(trace(self.nodes@, m as int, keys.take(jj + 1)) == Some(i));
            }
        }
    }

    /// Freezes the router for sharing among connections.
    pub fn build(self) -> (r: std::sync::Arc<Self>)
        ensures
            *r == self,
    {
        std::sync::Arc::new(self)
    }

    /// The handler and parameters that a request for `path` with `method` is
    /// dispatched to; `None` only where that would be the default handler and
    /// none is registered.
    pub fn find(&self, method: &str, path: &str) -> (r: Option<(&H, Vec<(Vec<u8>, Vec<u8>)>)>)
        requires
            self.wf(),
        ensures
            match (r, self.resolve(method.spec_bytes(), path.spec_bytes())) {
                (Some(x), Some(y)) => *x.0 == y.0 && pairs_view(x.1@) == y.1,
                (None, None) => true,
                _ => false,
            },
    {
        let root = root_of(method.as_bytes());
        let segs = segments(path.as_bytes());
        let ghost all = path_segments(path.spec_bytes());
        let ghost nodes = self.nodes@;
        let mut node: usize = root;
        let mut terminal: Option<usize> = Some(root);
        let mut params: Vec<(Vec<u8>, Vec<u8>)> = Vec::new();
        let mut done = false;
        let mut i: usize = 0;
        proof {
            assert(all.subrange(0, all.len() as int) =~= all);
            let w = walk(nodes, root as int, all);
            assert(pairs_view(params@) + w.1 =~= w.1);
        }
        while i < segs.len() && !done
            invariant
                self.wf(),
                nodes == self.nodes@,
                segs_view(segs@) == all,
                0 <= i <= segs@.len(),
                (node as int) < nodes.len(),
                !done ==> terminal == Some(node) && walk(nodes, root as int, all) == prefixed(
                    pairs_view(params@),
                    walk(nodes, node as int, all.subrange(i as int, all.len() as int)),
                ),
                done ==> walk(nodes, root as int, all) == (
                    match terminal {
                        Some(t) => Some(t as int),
                        None => None,
                    },
                    pairs_view(params@),
                ) && (terminal matches Some(t) ==> (t as int) < nodes.len()),
            decreases segs@.len() - i, (if done { 0int } else { 1int }),
        {
            let seg = &segs[i];
            let ghost rest = all.subrange(i as int, all.len() as int);
            proof {
                assert(segs_view(segs@)[i as int] == seg@);
                assert(rest[0] == seg@);
                assert(rest.drop_first() =~= all.subrange(i + 1, all.len() as int));
            }
            let ghost before = params@;
            match &self.nodes[node].children {
                None => {
                    terminal = None;
                    done = true;
                    proof {
                        assert(pairs_view(params@) + Seq::empty() =~= pairs_view(params@));
                    }
                },
                Some(kids) => {
                    match edges_get(kids, seg.as_slice()) {
                        Some(c) => {
                            node = c;
                            terminal = Some(c);
                            i += 1;
                        },
                        None => {
                            let pk: [u8; 1] = [COLON];
                            let wk: [u8; 1] = [STAR];
                            proof {
                                assert(pk@ =~= param_key());
                                assert(wk@ =~= wildcard_key());
                            }
                            match edges_get(kids, &pk) {
                                Some(c) => {
                                    let name = match &self.nodes[c].param {
                                        Some(n) => copy_range(n.as_slice(), 0, n.len()),
                                        None => Vec::new(),
                                    };
                                    proof {
                                        assert(name@ =~= nodes[c as int].param_name());
                                    }
                                    let value = copy_range(seg.as_slice(), 0, seg.len());
                                    proof {
                                        assert(value@ =~= seg@);
                                    }
                                    params.push((name, value));
                                    proof {
                                        assert(pairs_view(params@) =~= pairs_view(before).push(
                                            (nodes[c as int].param_name(), seg@),
                                        ));
                                        let w = walk(nodes, c as int, all.subrange(i + 1, all.len() as int));
                                        assert(pairs_view(before) + (seq![(nodes[c as int].param_name(), seg@)] + w.1)
                                            =~= pairs_view(params@) + w.1);
                                    }
                                    node = c;
                                    terminal = Some(c);
                                    i += 1;
                                },
                                None => {
                                    match edges_get(kids, &wk) {
                                        Some(c) => {
                                            terminal = Some(c);
                                        },
                                        None => {
                                            terminal = None;
                                        },
                                    }
                                    done = true;
                                    proof {
                                        assert(pairs_view(params@) + Seq::empty() =~= pairs_view(params@));
                                    }
                                },
                            }
                        },
                    }
                },
            }
        }
        proof {
            if !done {
                assert(all.subrange(i as int, all.len() as int) =~= Seq::<Seq<u8>>::empty());
                assert(pairs_view(params@) + Seq::empty() =~= pairs_view(params@));
            }
        }
        let bound: Option<&H> = match terminal {
            Some(t) => match &self.nodes[t].handler {
                Some(h) => Some(h),
                None => None,
            },
            None => None,
        };
        match bound {
            Some(h) => Some((h, params)),
            None => match &self.default {
                Some(d) => Some((d, params)),
                None => None,
            },
        }
    }
}

/// A path has no more segments than bytes.
pub proof fn lemma_segments_bound(p: Seq<u8>)
    ensures
        path_segments(p).len() <= p.len(),
        split_acc(p).0.len() + (if split_acc(p).1.len() > 0 { 1int } else { 0int }) <= p.len(),
    decreases p.len(),
{
    if p.len() > 0 {
        lemma_segments_bound(p.drop_last());
    }
}

/// A trace of exact keys is also the walk of those keys, with no parameter.
pub proof fn lemma_trace_is_walk<H>(nodes: Seq<Node<H>>, n: int, segs: Seq<Seq<u8>>)
    requires
        trace(nodes, n, segs) is Some,
    ensures
        walk(nodes, n, segs) == (trace(nodes, n, segs), Seq::<(Seq<u8>, Seq<u8>)>::empty()),
    decreases segs.len(),
{
    if segs.len() > 0 {
        lemma_trace_is_walk(nodes, nodes[n].kids()[segs[0]] as int, segs.drop_first());
    }
}

/// The keys of a literal pattern are its segments.
pub proof fn lemma_literal_keys(p: Seq<u8>)
    requires
        is_literal(p),
    ensures
        pattern_keys(p) == path_segments(p),
{
    assert(pattern_keys(p) =~= path_segments(p));
}

/// Registering a handler for a literal path (no `:name` segment) and then
/// requesting that path with the same method yields that handler, with no
/// parameters.
pub proof fn law_literal_match<H>(r0: Router<H>, r1: Router<H>, m: Seq<u8>, p: Seq<u8>, h: H)
    requires
        r0.wf(),
        r0.added(&r1, m, p, h),
        is_literal(p),
        p != wildcard_key(),
    ensures
        r1.resolve(m, p) == Some((h, Seq::<(Seq<u8>, Seq<u8>)>::empty())),
{
    lemma_literal_keys(p);
    lemma_trace_is_walk(r1.nodes@, method_root(m), path_segments(p));
}

/// At any node, a segment equal to a literal child's key goes to that child,
/// even where a parameter child is there too.
pub proof fn law_literal_before_param<H>(nodes: Seq<Node<H>>, n: int, s: Seq<u8>, rest: Seq<Seq<u8>>)
    requires
        nodes[n].kids().contains_key(s),
        nodes[n].kids().contains_key(param_key()),
    ensures
        walk(nodes, n, seq![s] + rest) == walk(nodes, nodes[n].kids()[s] as int, rest),
{
    assert((seq![s] + rest).drop_first() =~= rest);
    assert((seq![s] + rest)[0] == s);
}

/// A segment with no literal or parameter child but a wildcard child ends the
/// walk at the wildcard child, whatever segments follow.
pub proof fn law_wildcard_ends_walk<H>(nodes: Seq<Node<H>>, n: int, s: Seq<u8>, rest: Seq<Seq<u8>>)
    requires
        !nodes[n].kids().contains_key(s),
        !nodes[n].kids().contains_key(param_key()),
        nodes[n].kids().contains_key(wildcard_key()),
    ensures
        walk(nodes, n, seq![s] + rest) == (
            Some(nodes[n].kids()[wildcard_key()] as int),
            Seq::<(Seq<u8>, Seq<u8>)>::empty(),
        ),
{
    assert((seq![s] + rest)[0] == s);
}

/// Registering the same pattern twice leaves one terminal node, reached the
/// same way both times, whose handler is the second one; for a literal path
/// a request resolves to the second handler.
pub proof fn law_reregister<H>(
    r0: Router<H>,
    r1: Router<H>,
    r2: Router<H>,
    m: Seq<u8>,
    p: Seq<u8>,
    h1: H,
    h2: H,
)
    requires
        r0.wf(),
        r1.wf(),
        r0.added(&r1, m, p, h1),
        r1.added(&r2, m, p, h2),
    ensures
        p == wildcard_key() ==> r2.default == Some(h2),
        p != wildcard_key() ==> {
            let t = trace(r1.nodes@, method_root(m), pattern_keys(p));
            &&& trace(r2.nodes@, method_root(m), pattern_keys(p)) == t
            &&& r2.nodes@[t->Some_0].handler == Some(h2)
        },
        p != wildcard_key() && is_literal(p) ==> r2.resolve(m, p) == Some((h2, Seq::<(Seq<u8>, Seq<u8>)>::empty())),
        p != wildcard_key() ==> r2.nodes@.len() == r1.nodes@.len(),
{
    if p != wildcard_key() {
        let keys = pattern_keys(p);
        let root = method_root(m);
        assert(keeps_edges(r1.nodes@, r2.nodes@));
        lemma_trace_kept(r1.nodes@, r2.nodes@, root, keys);
        if r2.nodes@.len() > r1.nodes@.len() {
            let i = r1.nodes@.len() as int;
            assert(r1.nodes@.len() <= i < r2.nodes@.len());
            let j = choose|j: int| 0 <= j < keys.len() && trace(r2.nodes@, root, keys.take(j + 1)) == Some(i)
                && opt_bytes(#[trigger] r2.nodes@[i].param) == created_param(path_segments(p)[j]);
            lemma_trace_prefix(r1.nodes@, root, keys, j + 1);
            lemma_trace_kept(r1.nodes@, r2.nodes@, root, keys.take(j + 1));
            lemma_trace_in_range(r1, root, keys.take(j + 1));
        }
        if is_literal(p) {
            law_literal_match(r1, r2, m, p, h2);
        }
    }
}

/// A trace from a node in range stays in range.
pub proof fn lemma_trace_in_range<H>(r: Router<H>, n: int, keys: Seq<Seq<u8>>)
    requires
        r.wf(),
        0 <= n < r.nodes@.len(),
        trace(r.nodes@, n, keys) is Some,
    ensures
        0 <= trace(r.nodes@, n, keys)->Some_0 < r.nodes@.len(),
        keys.len() > 0 ==> trace(r.nodes@, n, keys)->Some_0 >= ROOTS,
    decreases keys.len(),
{
    if keys.len() > 0 {
        lemma_trace_in_range(r, r.nodes@[n].kids()[keys[0]] as int, keys.drop_first());
    }
}

/// In a router's forest, a node is reached from a root by one key sequence
/// only.
pub proof fn lemma_trace_unique<H>(r: Router<H>, n1: int, ks1: Seq<Seq<u8>>, n2: int, ks2: Seq<Seq<u8>>)
    requires
        r.wf(),
        0 <= n1 < ROOTS,
        0 <= n2 < ROOTS,
        trace(r.nodes@, n1, ks1) is Some,
        trace(r.nodes@, n1, ks1) == trace(r.nodes@, n2, ks2),
    ensures
        n1 == n2,
        ks1 == ks2,
    decreases ks1.len() + ks2.len(),
{
    let nodes = r.nodes@;
    lemma_trace_in_range(r, n1, ks1);
    lemma_trace_in_range(r, n2, ks2);
    if ks1.len() > 0 && ks2.len() > 0 {
        let p1 = ks1.drop_last();
        let p2 = ks2.drop_last();
        assert(ks1 =~= p1.push(ks1.last()));
        assert(ks2 =~= p2.push(ks2.last()));
        lemma_trace_push(nodes, n1, p1, ks1.last());
        lemma_trace_push(nodes, n2, p2, ks2.last());
        let c1 = trace(nodes, n1, p1)->Some_0;
        let c2 = trace(nodes, n2, p2)->Some_0;
        lemma_trace_in_range(r, n1, p1);
        lemma_trace_in_range(r, n2, p2);
        assert(nodes[c1].kids().contains_key(ks1.last()));
        assert(nodes[c2].kids().contains_key(ks2.last()));
        assert(c1 == c2 && ks1.last() == ks2.last());
        lemma_trace_unique(r, n1, p1, n2, p2);
    } else if ks1.len() == 0 && ks2.len() == 0 {
    } else if ks1.len() > 0 {
        assert(trace(nodes, n2, ks2) == Some(n2));
    } else {
        assert(trace(nodes, n1, ks1) == Some(n1));
    }
}

/// Registering a pattern keeps every other literal route: a path with no
/// `:name` segment that led to handler `g` under method `m2` before still
/// leads to `g`, unless it is the very route registered now.
pub proof fn law_other_routes_kept<H>(
    r0: Router<H>,
    r1: Router<H>,
    m: Seq<u8>,
    p: Seq<u8>,
    h: H,
    m2: Seq<u8>,
    q: Seq<u8>,
    g: H,
)
    requires
        r0.wf(),
        r1.wf(),
        r0.added(&r1, m, p, h),
        is_literal(q),
        trace(r0.nodes@, method_root(m2), path_segments(q)) is Some,
        r0.nodes@[trace(r0.nodes@, method_root(m2), path_segments(q))->Some_0].handler == Some(g),
        p == wildcard_key() || method_root(m2) != method_root(m) || path_segments(q) != pattern_keys(p),
    ensures
        r1.resolve(m2, q) == Some((g, Seq::<(Seq<u8>, Seq<u8>)>::empty())),
{
    let root2 = method_root(m2);
    let qs = path_segments(q);
    let t = trace(r0.nodes@, root2, qs)->Some_0;
    lemma_trace_in_range(r0, root2, qs);
    if p != wildcard_key() {
        assert(keeps_edges(r0.nodes@, r1.nodes@));
        lemma_trace_kept(r0.nodes@, r1.nodes@, root2, qs);
        let tp = trace(r1.nodes@, method_root(m), pattern_keys(p))->Some_0;
        if t == tp {
            lemma_trace_unique(r1, root2, qs, method_root(m), pattern_keys(p));
        }
        assert(r1.nodes@[t].handler == Some(g));
    }
    lemma_trace_is_walk(r1.nodes@, root2, qs);
}

/// Every prefix of a trace is a trace.
pub proof fn lemma_trace_prefix<H>(nodes: Seq<Node<H>>, n: int, keys: Seq<Seq<u8>>, j: int)
    requires
        0 <= j <= keys.len(),
        trace(nodes, n, keys) is Some,
    ensures
        trace(nodes, n, keys.take(j)) is Some,
    decreases keys.len(),
{
    if j > 0 {
        assert(keys.take(j).drop_first() =~= keys.drop_first().take(j - 1));
        assert(keys.take(j)[0] == keys[0]);
        lemma_trace_prefix(nodes, nodes[n].kids()[keys[0]] as int, keys.drop_first(), j - 1);
    } else {
        assert(keys.take(0).len() == 0);
    }
}

} // verus!
