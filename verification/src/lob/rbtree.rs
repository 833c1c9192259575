use crate::lob::arena::Arena;
use vstd::prelude::*;

verus! {

pub const NIL: u32 = 0xffff_ffff;

pub const COLOR_BLACK: u8 = 0;

pub const COLOR_RED: u8 = 1;

/// A price level: a node of the tree, and the queue of orders resting at its price.
#[derive(Clone, Copy)]
pub struct RbNode {
    pub key: i64,
    pub color: u8,
    pub left: u32,
    pub right: u32,
    pub parent: u32,
    pub order_head: u32,
    pub order_tail: u32,
    pub total_qty: u64,
}

impl RbNode {
    pub fn new(key: i64) -> (n: Self)
        ensures
            n.key == key,
            n.color == COLOR_RED,
            n.left == NIL,
            n.right == NIL,
            n.parent == NIL,
            n.order_head == NIL,
            n.order_tail == NIL,
            n.total_qty == 0,
    {
        RbNode {
            key,
            color: COLOR_RED,
            left: NIL,
            right: NIL,
            parent: NIL,
            order_head: NIL,
            order_tail: NIL,
            total_qty: 0,
        }
    }
}

/// What a level holds besides the tree's own links: its price, the first and last
/// order of its queue and the quantity resting there.
pub open spec fn level_of(n: RbNode) -> (i64, u32, u32, u64) {
    (n.key, n.order_head, n.order_tail, n.total_qty)
}

/// A red-black tree of price levels whose nodes live in an arena and refer to each
/// other by index.
pub struct RbTree {
    pub root: u32,
    pub arena: Arena<RbNode>,
    pub bounds: Ghost<Map<u32, (int, int)>>,
}

pub open spec fn lower_limit() -> int {
    i64::MIN as int - 1
}

pub open spec fn upper_limit() -> int {
    i64::MAX as int + 1
}

/// The links of `n` agree with those of its children and parent, and the open interval
/// of keys that its subtree may hold is split at its key between its children.
pub open spec fn edges_ok(m: Map<u32, RbNode>, b: Map<u32, (int, int)>, n: u32) -> bool {
    let nd = m[n];
    &&& b.contains_key(n)
    &&& lower_limit() <= b[n].0 < nd.key < b[n].1 <= upper_limit()
    &&& nd.left != NIL ==> m.contains_key(nd.left) && m[nd.left].parent == n && b[nd.left] == (
    b[n].0, nd.key as int)
    &&& nd.right != NIL ==> m.contains_key(nd.right) && m[nd.right].parent == n && b[nd.right]
        == (nd.key as int, b[n].1)
    &&& nd.parent != NIL ==> m.contains_key(nd.parent) && (m[nd.parent].left == n
        || m[nd.parent].right == n)
}

/// Every node whose key falls in the interval of `n` is `n` or lies under the child
/// on its side, which is therefore present.
pub open spec fn covers(m: Map<u32, RbNode>, b: Map<u32, (int, int)>, n: u32) -> bool {
    forall|k: u32|
        #[trigger] m.contains_key(k) && b[n].0 < m[k].key < b[n].1 ==> k == n || (m[k].key
            < m[n].key && m[n].left != NIL) || (m[k].key > m[n].key && m[n].right != NIL)
}

/// The child slot of `n` on side `s` (true: left) is empty.
pub open spec fn slot_empty(m: Map<u32, RbNode>, n: u32, s: bool) -> bool {
    if s {
        m[n].left == NIL
    } else {
        m[n].right == NIL
    }
}

pub open spec fn slot_lo(m: Map<u32, RbNode>, b: Map<u32, (int, int)>, n: u32, s: bool) -> int {
    if s {
        b[n].0
    } else {
        m[n].key as int
    }
}

pub open spec fn slot_hi(m: Map<u32, RbNode>, b: Map<u32, (int, int)>, n: u32, s: bool) -> int {
    if s {
        m[n].key as int
    } else {
        b[n].1
    }
}

/// Distinct empty child slots cover disjoint intervals of keys.
pub open spec fn slots_disjoint(m: Map<u32, RbNode>, b: Map<u32, (int, int)>) -> bool {
    forall|a: u32, sa: bool, c: u32, sc: bool|
        m.contains_key(a) && m.contains_key(c) && #[trigger] slot_empty(m, a, sa)
            && #[trigger] slot_empty(m, c, sc) && !(a == c && sa == sc) ==> slot_hi(m, b, a, sa)
            <= slot_lo(m, b, c, sc) || slot_hi(m, b, c, sc) <= slot_lo(m, b, a, sa)
}

pub open spec fn keys_unique(m: Map<u32, RbNode>) -> bool {
    forall|a: u32, c: u32|
        m.contains_key(a) && m.contains_key(c) && #[trigger] m[a].key == #[trigger] m[c].key
            ==> a == c
}

/// A binary search tree over the nodes of `m`, rooted at `root`, with `b` the interval
/// of keys of each subtree.
#[verifier::opaque]
pub open spec fn tree_inv(root: u32, m: Map<u32, RbNode>, b: Map<u32, (int, int)>) -> bool {
    &&& roots_ok(root, m, b)
    &&& edges_all(m, b)
    &&& covers_all(m, b)
    &&& keys_unique(m)
    &&& slots_disjoint(m, b)
}

pub open spec fn roots_ok(root: u32, m: Map<u32, RbNode>, b: Map<u32, (int, int)>) -> bool {
    &&& !m.contains_key(NIL)
    &&& root == NIL ==> forall|k: u32| !m.contains_key(k)
    &&& root != NIL ==> m.contains_key(root) && m[root].parent == NIL && b[root] == (
    lower_limit(), upper_limit())
    &&& forall|n: u32| m.contains_key(n) && #[trigger] m[n].parent == NIL ==> n == root
}

pub open spec fn edges_all(m: Map<u32, RbNode>, b: Map<u32, (int, int)>) -> bool {
    forall|n: u32| #[trigger] m.contains_key(n) ==> edges_ok(m, b, n)
}

pub open spec fn covers_all(m: Map<u32, RbNode>, b: Map<u32, (int, int)>) -> bool {
    forall|n: u32| #[trigger] m.contains_key(n) ==> covers(m, b, n)
}

/// The tree after `old` with only the color of `i` changed.
pub open spec fn recolored(old: Map<u32, RbNode>, i: u32, c: u8) -> Map<u32, RbNode> {
    old.insert(i, RbNode { color: c, ..old[i] })
}

pub open spec fn same_levels(m1: Map<u32, RbNode>, m2: Map<u32, RbNode>) -> bool {
    &&& m1.dom() == m2.dom()
    &&& forall|k: u32| #[trigger] m1.contains_key(k) ==> level_of(m1[k]) == level_of(m2[k])
}

pub open spec fn rotl_map(m: Map<u32, RbNode>, x: u32) -> Map<u32, RbNode> {
    let y = m[x].right;
    let yl = m[y].left;
    let p = m[x].parent;
    let m1 = m.insert(x, RbNode { right: yl, parent: y, ..m[x] }).insert(
        y,
        RbNode { left: x, parent: p, ..m[y] },
    );
    let m2 = if yl == NIL {
        m1
    } else {
        m1.insert(yl, RbNode { parent: x, ..m[yl] })
    };
    if p == NIL {
        m2
    } else if m[p].left == x {
        m2.insert(p, RbNode { left: y, ..m[p] })
    } else {
        m2.insert(p, RbNode { right: y, ..m[p] })
    }
}

pub open spec fn rotl_bounds(m: Map<u32, RbNode>, b: Map<u32, (int, int)>, x: u32) -> Map<
    u32,
    (int, int),
> {
    let y = m[x].right;
    b.insert(y, b[x]).insert(x, (b[x].0, m[y].key as int))
}

pub open spec fn rotr_map(m: Map<u32, RbNode>, x: u32) -> Map<u32, RbNode> {
    let y = m[x].left;
    let yr = m[y].right;
    let p = m[x].parent;
    let m1 = m.insert(x, RbNode { left: yr, parent: y, ..m[x] }).insert(
        y,
        RbNode { right: x, parent: p, ..m[y] },
    );
    let m2 = if yr == NIL {
        m1
    } else {
        m1.insert(yr, RbNode { parent: x, ..m[yr] })
    };
    if p == NIL {
        m2
    } else if m[p].right == x {
        m2.insert(p, RbNode { right: y, ..m[p] })
    } else {
        m2.insert(p, RbNode { left: y, ..m[p] })
    }
}

pub open spec fn rotr_bounds(m: Map<u32, RbNode>, b: Map<u32, (int, int)>, x: u32) -> Map<
    u32,
    (int, int),
> {
    let y = m[x].left;
    b.insert(y, b[x]).insert(x, (m[y].key as int, b[x].1))
}

pub open spec fn rot_root(m: Map<u32, RbNode>, root: u32, x: u32, up: u32) -> u32 {
    if m[x].parent == NIL {
        up
    } else {
        root
    }
}

proof fn lemma_child_distinct(m: Map<u32, RbNode>, b: Map<u32, (int, int)>, n: u32)
    requires
        edges_all(m, b),
        !m.contains_key(NIL),
        m.contains_key(n),
    ensures
        b[n].0 < m[n].key < b[n].1,
        m[n].left != NIL ==> m[n].left != n && b[m[n].left].1 - b[m[n].left].0 < b[n].1 - b[n].0,
        m[n].right != NIL ==> m[n].right != n && b[m[n].right].1 - b[m[n].right].0 < b[n].1
            - b[n].0,
        m[n].left != NIL && m[n].right != NIL ==> m[n].left != m[n].right,
        m[n].parent != NIL ==> m[n].parent != n && b[n].1 - b[n].0 < b[m[n].parent].1
            - b[m[n].parent].0,
        b[n].1 - b[n].0 <= upper_limit() - lower_limit(),
        m[n].parent != NIL ==> b[n].1 - b[n].0 < upper_limit() - lower_limit(),
{
    assert(edges_ok(m, b, n));
    let p = m[n].parent;
    if p != NIL {
        assert(edges_ok(m, b, p));
        assert(b[p].1 - b[p].0 <= upper_limit() - lower_limit());
        if m[p].left == n {
            assert(b[n] == (b[p].0, m[p].key as int));
        } else {
            assert(b[n] == (m[p].key as int, b[p].1));
        }
    }
    let l = m[n].left;
    if l != NIL {
        assert(edges_ok(m, b, l));
    }
    let r = m[n].right;
    if r != NIL {
        assert(edges_ok(m, b, r));
    }
}

/// Changing what a node holds besides its key and links keeps the tree well formed.
proof fn lemma_same_shape(
    root: u32,
    m: Map<u32, RbNode>,
    m2: Map<u32, RbNode>,
    b: Map<u32, (int, int)>,
)
    requires
        tree_inv(root, m, b),
        m2.dom() == m.dom(),
        forall|k: u32|
            #[trigger] m.contains_key(k) ==> m2[k].key == m[k].key && m2[k].left == m[k].left
                && m2[k].right == m[k].right && m2[k].parent == m[k].parent,
    ensures
        tree_inv(root, m2, b),
{
    reveal(tree_inv);
    assert forall|n: u32| #[trigger] m2.contains_key(n) implies edges_ok(m2, b, n) by {
        assert(m.contains_key(n));
        assert(edges_ok(m, b, n));
        if m[n].left != NIL {
            assert(m.contains_key(m[n].left));
        }
        if m[n].right != NIL {
            assert(m.contains_key(m[n].right));
        }
        if m[n].parent != NIL {
            assert(m.contains_key(m[n].parent));
        }
    }
    assert forall|n: u32| #[trigger] m2.contains_key(n) implies covers(m2, b, n) by {
        assert(m.contains_key(n));
        assert(covers(m, b, n));
        assert forall|k: u32|
            #[trigger] m2.contains_key(k) && b[n].0 < m2[k].key < b[n].1 implies k == n || (
            m2[k].key < m2[n].key && m2[n].left != NIL) || (m2[k].key > m2[n].key && m2[n].right
            != NIL) by {
            assert(m.contains_key(k));
        }
    }
    assert forall|n: u32| m2.contains_key(n) && #[trigger] m2[n].parent == NIL implies n == root by {
        assert(m.contains_key(n));
    }
    assert forall|a: u32, sa: bool, d: u32, sd: bool|
        m2.contains_key(a) && m2.contains_key(d) && #[trigger] slot_empty(m2, a, sa)
            && #[trigger] slot_empty(m2, d, sd) && !(a == d && sa == sd) implies slot_hi(
        m2,
        b,
        a,
        sa,
    ) <= slot_lo(m2, b, d, sd) || slot_hi(m2, b, d, sd) <= slot_lo(m2, b, a, sa) by {
        assert(m.contains_key(a) && m.contains_key(d));
        assert(slot_empty(m, a, sa) && slot_empty(m, d, sd));
    }
    assert forall|a: u32, d: u32|
        m2.contains_key(a) && m2.contains_key(d) && #[trigger] m2[a].key == #[trigger] m2[d].key
            implies a == d by {
        assert(m.contains_key(a) && m.contains_key(d));
        assert(m[a].key == m[d].key);
    }
}

pub open spec fn rotl_shape(m: Map<u32, RbNode>, x: u32, m2: Map<u32, RbNode>) -> bool {
    let y = m[x].right;
    let yl = m[y].left;
    let p = m[x].parent;
    &&& m2.dom() == m.dom()
    &&& m2[x] == RbNode { right: yl, parent: y, ..m[x] }
    &&& m2[y] == RbNode { left: x, parent: p, ..m[y] }
    &&& yl != NIL ==> m2[yl] == RbNode { parent: x, ..m[yl] }
    &&& p != NIL ==> m2[p] == if m[p].left == x {
        RbNode { left: y, ..m[p] }
    } else {
        RbNode { right: y, ..m[p] }
    }
    &&& forall|k: u32|
        #[trigger] m2.contains_key(k) && k != x && k != y && k != yl && k != p ==> m2[k] == m[k]
}

/// The nodes that a left rotation at `x` touches are distinct and present.
pub open spec fn rotl_ready(m: Map<u32, RbNode>, x: u32) -> bool {
    let y = m[x].right;
    let yl = m[y].left;
    let p = m[x].parent;
    &&& !m.contains_key(NIL)
    &&& m.contains_key(x) && m.contains_key(y) && x != y
    &&& m[y].parent == x
    &&& yl != NIL ==> m.contains_key(yl) && yl != x && yl != y && m[yl].parent == y
    &&& p != NIL ==> m.contains_key(p) && p != x && p != y && p != yl && (m[p].left == x
        || m[p].right == x)
}

proof fn lemma_rotl_shape(m: Map<u32, RbNode>, b: Map<u32, (int, int)>, x: u32)
    requires
        edges_all(m, b),
        !m.contains_key(NIL),
        m.contains_key(x),
        m[x].right != NIL,
    ensures
        rotl_ready(m, x),
        rotl_shape(m, x, rotl_map(m, x)),
{
    let y = m[x].right;
    let yl = m[y].left;
    let p = m[x].parent;
    let m2 = rotl_map(m, x);
    assert(edges_ok(m, b, x));
    assert(edges_ok(m, b, y));
    lemma_child_distinct(m, b, x);
    lemma_child_distinct(m, b, y);
    if yl != NIL {
        assert(edges_ok(m, b, yl));
        lemma_child_distinct(m, b, yl);
    }
    if p != NIL {
        assert(edges_ok(m, b, p));
        lemma_child_distinct(m, b, p);
    }
    assert(m2.dom() =~= m.dom());
}

proof fn lemma_rotl_edges(m: Map<u32, RbNode>, b: Map<u32, (int, int)>, x: u32, m2: Map<u32, RbNode>)
    requires
        edges_all(m, b),
        m[x].right != NIL,
        rotl_ready(m, x),
        rotl_shape(m, x, m2),
    ensures
        edges_all(m2, rotl_bounds(m, b, x)),
{
    let y = m[x].right;
    let yl = m[y].left;
    let p = m[x].parent;
    let b2 = rotl_bounds(m, b, x);
    assert(edges_ok(m, b, x));
    assert(edges_ok(m, b, y));
    assert forall|n: u32| #[trigger] m2.contains_key(n) implies edges_ok(m2, b2, n) by {
        assert(m.contains_key(n));
        assert(edges_ok(m, b, n));
        let l = m[n].left;
        let r = m[n].right;
        let q = m[n].parent;
        if l != NIL {
            assert(m.contains_key(l));
            assert(edges_ok(m, b, l));
        }
        if r != NIL {
            assert(m.contains_key(r));
            assert(edges_ok(m, b, r));
        }
        if q != NIL {
            assert(m.contains_key(q));
            assert(edges_ok(m, b, q));
        }
        if n == x {
            if yl != NIL {
                assert(edges_ok(m, b, yl));
            }
        } else if n == y {
        } else if n == yl {
        } else if n == p {
        } else {
            if q == x {
                assert(n == m[x].left);
            }
            if q == y {
                assert(n == m[y].right);
            }
        }
    }
}

proof fn lemma_rotl_keys(m: Map<u32, RbNode>, x: u32, m2: Map<u32, RbNode>)
    requires
        rotl_ready(m, x),
        rotl_shape(m, x, m2),
    ensures
        forall|k: u32| #[trigger] m2.contains_key(k) ==> m.contains_key(k) && m2[k].key == m[k].key
            && m2[k].color == m[k].color && level_of(m2[k]) == level_of(m[k]),
{
    let y = m[x].right;
    let yl = m[y].left;
    let p = m[x].parent;
    assert forall|k: u32| #[trigger] m2.contains_key(k) implies m.contains_key(k) && m2[k].key
        == m[k].key && m2[k].color == m[k].color && level_of(m2[k]) == level_of(m[k]) by {
        assert(m.dom().contains(k));
        if k == x {
        } else if k == y {
        } else if k == yl {
        } else if k == p {
        } else {
        }
    }
}

proof fn lemma_rotl_covers(
    m: Map<u32, RbNode>,
    b: Map<u32, (int, int)>,
    x: u32,
    m2: Map<u32, RbNode>,
)
    requires
        edges_all(m, b),
        covers_all(m, b),
        m[x].right != NIL,
        rotl_ready(m, x),
        rotl_shape(m, x, m2),
        forall|k: u32| #[trigger] m2.contains_key(k) ==> m.contains_key(k) && m2[k].key == m[k].key,
    ensures
        covers_all(m2, rotl_bounds(m, b, x)),
{
    let y = m[x].right;
    let yl = m[y].left;
    let p = m[x].parent;
    let b2 = rotl_bounds(m, b, x);
    assert(edges_ok(m, b, x));
    assert(edges_ok(m, b, y));
    assert(covers(m, b, y));
    assert(covers(m, b, x));
    assert forall|n: u32| #[trigger] m2.contains_key(n) implies covers(m2, b2, n) by {
        assert(m.contains_key(n));
        assert(covers(m, b, n));
        if n == x {
            assert forall|k: u32|
                #[trigger] m2.contains_key(k) && b2[n].0 < m2[k].key < b2[n].1 implies k == n || (
                m2[k].key < m2[n].key && m2[n].left != NIL) || (m2[k].key > m2[n].key
                && m2[n].right != NIL) by {
                assert(m.contains_key(k));
                if m[k].key > m[x].key {
                    assert(k != y);
                }
            }
        } else if n == y {
            assert forall|k: u32|
                #[trigger] m2.contains_key(k) && b2[n].0 < m2[k].key < b2[n].1 implies k == n || (
                m2[k].key < m2[n].key && m2[n].left != NIL) || (m2[k].key > m2[n].key
                && m2[n].right != NIL) by {
                assert(m.contains_key(k));
            }
        } else {
            assert(b2[n] == b[n]);
            assert(m2[n].key == m[n].key);
            assert(m[n].left != NIL ==> m2[n].left != NIL);
            assert(m[n].right != NIL ==> m2[n].right != NIL);
            assert forall|k: u32|
                #[trigger] m2.contains_key(k) && b2[n].0 < m2[k].key < b2[n].1 implies k == n || (
                m2[k].key < m2[n].key && m2[n].left != NIL) || (m2[k].key > m2[n].key
                && m2[n].right != NIL) by {
                assert(m.contains_key(k));
            }
        }
    }
}

proof fn lemma_rotl_rest(
    root: u32,
    m: Map<u32, RbNode>,
    b: Map<u32, (int, int)>,
    x: u32,
    m2: Map<u32, RbNode>,
)
    requires
        roots_ok(root, m, b),
        keys_unique(m),
        slots_disjoint(m, b),
        edges_all(m, b),
        m[x].right != NIL,
        rotl_ready(m, x),
        rotl_shape(m, x, m2),
    ensures
        roots_ok(rot_root(m, root, x, m[x].right), m2, rotl_bounds(m, b, x)),
        keys_unique(m2),
        slots_disjoint(m2, rotl_bounds(m, b, x)),
{
    let y = m[x].right;
    let yl = m[y].left;
    let p = m[x].parent;
    let b2 = rotl_bounds(m, b, x);
    let root2 = rot_root(m, root, x, y);
    assert(edges_ok(m, b, x));
    assert(edges_ok(m, b, y));
    assert forall|n: u32| m2.contains_key(n) && #[trigger] m2[n].parent == NIL implies n == root2 by {
        if n != x && n != y && n != yl && n != p {
            assert(m[n].parent == NIL);
        }
    }
    if root2 != NIL {
        if p == NIL {
            assert(root == x);
        }
    }
    assert forall|a: u32, d: u32|
        m2.contains_key(a) && m2.contains_key(d) && #[trigger] m2[a].key == #[trigger] m2[d].key
            implies a == d by {
        assert(m[a].key == m[d].key);
    }
    assert forall|a: u32, sa: bool, d: u32, sd: bool|
        m2.contains_key(a) && m2.contains_key(d) && #[trigger] slot_empty(m2, a, sa)
            && #[trigger] slot_empty(m2, d, sd) && !(a == d && sa == sd) implies slot_hi(
        m2,
        b2,
        a,
        sa,
    ) <= slot_lo(m2, b2, d, sd) || slot_hi(m2, b2, d, sd) <= slot_lo(m2, b2, a, sa) by {
        let a0 = if a == x && !sa {
            y
        } else {
            a
        };
        let s0 = if a == x && !sa {
            true
        } else {
            sa
        };
        let d0 = if d == x && !sd {
            y
        } else {
            d
        };
        let t0 = if d == x && !sd {
            true
        } else {
            sd
        };
        assert(slot_empty(m, a0, s0));
        assert(slot_empty(m, d0, t0));
        assert(slot_lo(m2, b2, a, sa) == slot_lo(m, b, a0, s0));
        assert(slot_hi(m2, b2, a, sa) == slot_hi(m, b, a0, s0));
        assert(slot_lo(m2, b2, d, sd) == slot_lo(m, b, d0, t0));
        assert(slot_hi(m2, b2, d, sd) == slot_hi(m, b, d0, t0));
    }
}

proof fn lemma_rotate_left(root: u32, m: Map<u32, RbNode>, b: Map<u32, (int, int)>, x: u32)
    requires
        tree_inv(root, m, b),
        m.contains_key(x),
        m[x].right != NIL,
    ensures
        rotl_ready(m, x),
        tree_inv(rot_root(m, root, x, m[x].right), rotl_map(m, x), rotl_bounds(m, b, x)),
        same_levels(m, rotl_map(m, x)),
        forall|k: u32| #[trigger] m.contains_key(k) ==> rotl_map(m, x)[k].color == m[k].color,
{
    reveal(tree_inv);
    let m2 = rotl_map(m, x);
    lemma_rotl_shape(m, b, x);
    lemma_rotl_keys(m, x, m2);
    lemma_rotl_edges(m, b, x, m2);
    lemma_rotl_covers(m, b, x, m2);
    lemma_rotl_rest(root, m, b, x, m2);
    assert forall|k: u32| #[trigger] m.contains_key(k) implies m2[k].color == m[k].color
        && level_of(m2[k]) == level_of(m[k]) by {
        assert(m2.contains_key(k));
    }
}

pub open spec fn rotr_shape(m: Map<u32, RbNode>, x: u32, m2: Map<u32, RbNode>) -> bool {
    let y = m[x].left;
    let yr = m[y].right;
    let p = m[x].parent;
    &&& m2.dom() == m.dom()
    &&& m2[x] == RbNode { left: yr, parent: y, ..m[x] }
    &&& m2[y] == RbNode { right: x, parent: p, ..m[y] }
    &&& yr != NIL ==> m2[yr] == RbNode { parent: x, ..m[yr] }
    &&& p != NIL ==> m2[p] == if m[p].right == x {
        RbNode { right: y, ..m[p] }
    } else {
        RbNode { left: y, ..m[p] }
    }
    &&& forall|k: u32|
        #[trigger] m2.contains_key(k) && k != x && k != y && k != yr && k != p ==> m2[k] == m[k]
}

/// The nodes that a left rotation at `x` touches are distinct and present.
pub open spec fn rotr_ready(m: Map<u32, RbNode>, x: u32) -> bool {
    let y = m[x].left;
    let yr = m[y].right;
    let p = m[x].parent;
    &&& !m.contains_key(NIL)
    &&& m.contains_key(x) && m.contains_key(y) && x != y
    &&& m[y].parent == x
    &&& yr != NIL ==> m.contains_key(yr) && yr != x && yr != y && m[yr].parent == y
    &&& p != NIL ==> m.contains_key(p) && p != x && p != y && p != yr && (m[p].right == x
        || m[p].left == x)
}

proof fn lemma_rotr_shape(m: Map<u32, RbNode>, b: Map<u32, (int, int)>, x: u32)
    requires
        edges_all(m, b),
        !m.contains_key(NIL),
        m.contains_key(x),
        m[x].left != NIL,
    ensures
        rotr_ready(m, x),
        rotr_shape(m, x, rotr_map(m, x)),
{
    let y = m[x].left;
    let yr = m[y].right;
    let p = m[x].parent;
    let m2 = rotr_map(m, x);
    assert(edges_ok(m, b, x));
    assert(edges_ok(m, b, y));
    lemma_child_distinct(m, b, x);
    lemma_child_distinct(m, b, y);
    if yr != NIL {
        assert(edges_ok(m, b, yr));
        lemma_child_distinct(m, b, yr);
    }
    if p != NIL {
        assert(edges_ok(m, b, p));
        lemma_child_distinct(m, b, p);
    }
    assert(m2.dom() =~= m.dom());
}

proof fn lemma_rotr_edges(m: Map<u32, RbNode>, b: Map<u32, (int, int)>, x: u32, m2: Map<u32, RbNode>)
    requires
        edges_all(m, b),
        m[x].left != NIL,
        rotr_ready(m, x),
        rotr_shape(m, x, m2),
    ensures
        edges_all(m2, rotr_bounds(m, b, x)),
{
    let y = m[x].left;
    let yr = m[y].right;
    let p = m[x].parent;
    let b2 = rotr_bounds(m, b, x);
    assert(edges_ok(m, b, x));
    assert(edges_ok(m, b, y));
    assert forall|n: u32| #[trigger] m2.contains_key(n) implies edges_ok(m2, b2, n) by {
        assert(m.contains_key(n));
        assert(edges_ok(m, b, n));
        let l = m[n].right;
        let r = m[n].left;
        let q = m[n].parent;
        if l != NIL {
            assert(m.contains_key(l));
            assert(edges_ok(m, b, l));
        }
        if r != NIL {
            assert(m.contains_key(r));
            assert(edges_ok(m, b, r));
        }
        if q != NIL {
            assert(m.contains_key(q));
            assert(edges_ok(m, b, q));
        }
        if n == x {
            if yr != NIL {
                assert(edges_ok(m, b, yr));
            }
        } else if n == y {
        } else if n == yr {
        } else if n == p {
        } else {
            if q == x {
                assert(n == m[x].right);
            }
            if q == y {
                assert(n == m[y].left);
            }
        }
    }
}

proof fn lemma_rotr_keys(m: Map<u32, RbNode>, x: u32, m2: Map<u32, RbNode>)
    requires
        rotr_ready(m, x),
        rotr_shape(m, x, m2),
    ensures
        forall|k: u32| #[trigger] m2.contains_key(k) ==> m.contains_key(k) && m2[k].key == m[k].key
            && m2[k].color == m[k].color && level_of(m2[k]) == level_of(m[k]),
{
    let y = m[x].left;
    let yr = m[y].right;
    let p = m[x].parent;
    assert forall|k: u32| #[trigger] m2.contains_key(k) implies m.contains_key(k) && m2[k].key
        == m[k].key && m2[k].color == m[k].color && level_of(m2[k]) == level_of(m[k]) by {
        assert(m.dom().contains(k));
        if k == x {
        } else if k == y {
        } else if k == yr {
        } else if k == p {
        } else {
        }
    }
}

proof fn lemma_rotr_covers(
    m: Map<u32, RbNode>,
    b: Map<u32, (int, int)>,
    x: u32,
    m2: Map<u32, RbNode>,
)
    requires
        edges_all(m, b),
        covers_all(m, b),
        m[x].left != NIL,
        rotr_ready(m, x),
        rotr_shape(m, x, m2),
        forall|k: u32| #[trigger] m2.contains_key(k) ==> m.contains_key(k) && m2[k].key == m[k].key,
    ensures
        covers_all(m2, rotr_bounds(m, b, x)),
{
    let y = m[x].left;
    let yr = m[y].right;
    let p = m[x].parent;
    let b2 = rotr_bounds(m, b, x);
    assert(edges_ok(m, b, x));
    assert(edges_ok(m, b, y));
    assert(covers(m, b, y));
    assert(covers(m, b, x));
    assert forall|n: u32| #[trigger] m2.contains_key(n) implies covers(m2, b2, n) by {
        assert(m.contains_key(n));
        assert(covers(m, b, n));
        if n == x {
            assert forall|k: u32|
                #[trigger] m2.contains_key(k) && b2[n].0 < m2[k].key < b2[n].1 implies k == n || (
                m2[k].key < m2[n].key && m2[n].left != NIL) || (m2[k].key > m2[n].key
                && m2[n].right != NIL) by {
                assert(m.contains_key(k));
                if m[k].key < m[x].key {
                    assert(k != y);
                }
            }
        } else if n == y {
            assert forall|k: u32|
                #[trigger] m2.contains_key(k) && b2[n].0 < m2[k].key < b2[n].1 implies k == n || (
                m2[k].key < m2[n].key && m2[n].left != NIL) || (m2[k].key > m2[n].key
                && m2[n].right != NIL) by {
                assert(m.contains_key(k));
            }
        } else {
            assert(b2[n] == b[n]);
            assert(m2[n].key == m[n].key);
            assert(m[n].right != NIL ==> m2[n].right != NIL);
            assert(m[n].left != NIL ==> m2[n].left != NIL);
            assert forall|k: u32|
                #[trigger] m2.contains_key(k) && b2[n].0 < m2[k].key < b2[n].1 implies k == n || (
                m2[k].key < m2[n].key && m2[n].left != NIL) || (m2[k].key > m2[n].key
                && m2[n].right != NIL) by {
                assert(m.contains_key(k));
            }
        }
    }
}

proof fn lemma_rotr_rest(
    root: u32,
    m: Map<u32, RbNode>,
    b: Map<u32, (int, int)>,
    x: u32,
    m2: Map<u32, RbNode>,
)
    requires
        roots_ok(root, m, b),
        keys_unique(m),
        slots_disjoint(m, b),
        edges_all(m, b),
        m[x].left != NIL,
        rotr_ready(m, x),
        rotr_shape(m, x, m2),
    ensures
        roots_ok(rot_root(m, root, x, m[x].left), m2, rotr_bounds(m, b, x)),
        keys_unique(m2),
        slots_disjoint(m2, rotr_bounds(m, b, x)),
{
    let y = m[x].left;
    let yr = m[y].right;
    let p = m[x].parent;
    let b2 = rotr_bounds(m, b, x);
    let root2 = rot_root(m, root, x, y);
    assert(edges_ok(m, b, x));
    assert(edges_ok(m, b, y));
    assert forall|n: u32| m2.contains_key(n) && #[trigger] m2[n].parent == NIL implies n == root2 by {
        if n != x && n != y && n != yr && n != p {
            assert(m[n].parent == NIL);
        }
    }
    if root2 != NIL {
        if p == NIL {
            assert(root == x);
        }
    }
    assert forall|a: u32, d: u32|
        m2.contains_key(a) && m2.contains_key(d) && #[trigger] m2[a].key == #[trigger] m2[d].key
            implies a == d by {
        assert(m[a].key == m[d].key);
    }
    assert forall|a: u32, sa: bool, d: u32, sd: bool|
        m2.contains_key(a) && m2.contains_key(d) && #[trigger] slot_empty(m2, a, sa)
            && #[trigger] slot_empty(m2, d, sd) && !(a == d && sa == sd) implies slot_hi(
        m2,
        b2,
        a,
        sa,
    ) <= slot_lo(m2, b2, d, sd) || slot_hi(m2, b2, d, sd) <= slot_lo(m2, b2, a, sa) by {
        let a0 = if a == x && sa {
            y
        } else {
            a
        };
        let s0 = if a == x && sa {
            false
        } else {
            sa
        };
        let d0 = if d == x && sd {
            y
        } else {
            d
        };
        let t0 = if d == x && sd {
            false
        } else {
            sd
        };
        assert(slot_empty(m, a0, s0));
        assert(slot_empty(m, d0, t0));
        assert(slot_lo(m2, b2, a, sa) == slot_lo(m, b, a0, s0));
        assert(slot_hi(m2, b2, a, sa) == slot_hi(m, b, a0, s0));
        assert(slot_lo(m2, b2, d, sd) == slot_lo(m, b, d0, t0));
        assert(slot_hi(m2, b2, d, sd) == slot_hi(m, b, d0, t0));
    }
}

proof fn lemma_rotate_right(root: u32, m: Map<u32, RbNode>, b: Map<u32, (int, int)>, x: u32)
    requires
        tree_inv(root, m, b),
        m.contains_key(x),
        m[x].left != NIL,
    ensures
        rotr_ready(m, x),
        tree_inv(rot_root(m, root, x, m[x].left), rotr_map(m, x), rotr_bounds(m, b, x)),
        same_levels(m, rotr_map(m, x)),
        forall|k: u32| #[trigger] m.contains_key(k) ==> rotr_map(m, x)[k].color == m[k].color,
{
    reveal(tree_inv);
    let m2 = rotr_map(m, x);
    lemma_rotr_shape(m, b, x);
    lemma_rotr_keys(m, x, m2);
    lemma_rotr_edges(m, b, x, m2);
    lemma_rotr_covers(m, b, x, m2);
    lemma_rotr_rest(root, m, b, x, m2);
    assert forall|k: u32| #[trigger] m.contains_key(k) implies m2[k].color == m[k].color
        && level_of(m2[k]) == level_of(m[k]) by {
        assert(m2.contains_key(k));
    }
}

pub open spec fn leaf_bounds(m: Map<u32, RbNode>, b: Map<u32, (int, int)>, y: u32, key: i64) -> (
    int,
    int,
) {
    if y == NIL {
        (lower_limit(), upper_limit())
    } else if key < m[y].key {
        (b[y].0, m[y].key as int)
    } else {
        (m[y].key as int, b[y].1)
    }
}

/// `m2` is `m` with a new leaf `z` holding `key` hung below `y` on the side of `key`.
pub open spec fn leaf_shape(m: Map<u32, RbNode>, y: u32, z: u32, key: i64, m2: Map<u32, RbNode>) -> bool {
    &&& m2.dom() == m.dom().insert(z)
    &&& m2[z].key == key && m2[z].left == NIL && m2[z].right == NIL && m2[z].parent == y
    &&& y != NIL ==> m2[y] == if key < m[y].key {
        RbNode { left: z, ..m[y] }
    } else {
        RbNode { right: z, ..m[y] }
    }
    &&& forall|k: u32| #[trigger] m.contains_key(k) && k != y ==> m2[k] == m[k]
}

/// Hanging a red leaf `z` in an empty slot of a red-black tree leaves it red-black but
/// for a red-red pair at `z`.
proof fn lemma_insert_leaf_rb(
    m: Map<u32, RbNode>,
    h: Map<u32, nat>,
    y: u32,
    z: u32,
    key: i64,
    m2: Map<u32, RbNode>,
)
    requires
        links_ok(m),
        heights_ok(m, h),
        reds_apart_except(m, NIL),
        colors_ok(m),
        z != NIL,
        !m.contains_key(z),
        y != NIL ==> m.contains_key(y) && slot_empty(m, y, key < m[y].key),
        leaf_shape(m, y, z, key, m2),
        m2[z].color == COLOR_RED,
    ensures
        red_black_but(m2, h.insert(z, 0), z),
{
    let h2 = h.insert(z, 0);
    assert(m2.contains_key(z));
    assert forall|n: u32| #[trigger] m2.contains_key(n) implies black_height(m2, h2, m2[n].left)
        == h2[n] && black_height(m2, h2, m2[n].right) == h2[n] by {
        if n != z {
            assert(m.contains_key(n));
            let l = m[n].left;
            let r = m[n].right;
            assert(black_height(m, h, l) == h[n] && black_height(m, h, r) == h[n]);
            assert(l != z && r != z);
            if l != NIL {
                assert(m2[l].color == m[l].color);
            }
            if r != NIL {
                assert(m2[r].color == m[r].color);
            }
        }
    }
    assert forall|n: u32| #[trigger] m2.contains_key(n) && m2[n].color == COLOR_RED implies (
    is_red(m2, m2[n].left) ==> m2[n].left == z) && (is_red(m2, m2[n].right) ==> m2[n].right
        == z) by {
        if n != z {
            assert(m.contains_key(n));
            let l = m[n].left;
            let r = m[n].right;
            assert(l != z && r != z);
            if l != NIL {
                assert(m2[l].color == m[l].color);
            }
            if r != NIL {
                assert(m2[r].color == m[r].color);
            }
        }
    }
    assert forall|n: u32| #[trigger] m2.contains_key(n) implies m2[n].color == COLOR_RED
        || m2[n].color == COLOR_BLACK by {
        if n != z {
            assert(m.contains_key(n));
        }
    }
}

proof fn lemma_insert_leaf(
    root: u32,
    m: Map<u32, RbNode>,
    b: Map<u32, (int, int)>,
    y: u32,
    z: u32,
    key: i64,
    m2: Map<u32, RbNode>,
)
    requires
        tree_inv(root, m, b),
        z != NIL,
        !m.contains_key(z),
        forall|k: u32| #[trigger] m.contains_key(k) ==> m[k].key != key,
        y == NIL ==> root == NIL,
        y != NIL ==> m.contains_key(y) && b[y].0 < key < b[y].1 && slot_empty(
            m,
            y,
            key < m[y].key,
        ),
        leaf_shape(m, y, z, key, m2),
    ensures
        tree_inv(if y == NIL { z } else { root }, m2, b.insert(z, leaf_bounds(m, b, y, key))),
{
    reveal(tree_inv);
    let b2 = b.insert(z, leaf_bounds(m, b, y, key));
    let root2 = if y == NIL {
        z
    } else {
        root
    };
    let side = key < m[y].key;
    if y != NIL {
        assert(edges_ok(m, b, y));
        assert(covers(m, b, y));
    }
    assert forall|k: u32| #[trigger] m.contains_key(k) implies m2[k].key == m[k].key
        && m2.contains_key(k) && (m[k].left != NIL ==> m2[k].left != NIL) && (m[k].right != NIL
        ==> m2[k].right != NIL) by {}
    // links
    assert forall|n: u32| #[trigger] m2.contains_key(n) implies edges_ok(m2, b2, n) by {
        if n != z {
            assert(m.contains_key(n));
            assert(edges_ok(m, b, n));
            let l = m[n].left;
            let r = m[n].right;
            let q = m[n].parent;
            if l != NIL {
                assert(m.contains_key(l));
            }
            if r != NIL {
                assert(m.contains_key(r));
            }
            if q != NIL {
                assert(m.contains_key(q));
            }
        }
    }
    // coverage
    assert forall|n: u32| #[trigger] m2.contains_key(n) implies covers(m2, b2, n) by {
        if n == z {
            assert forall|k: u32|
                #[trigger] m2.contains_key(k) && b2[n].0 < m2[k].key < b2[n].1 implies k == n || (
            m2[k].key < m2[n].key && m2[n].left != NIL) || (m2[k].key > m2[n].key
                && m2[n].right != NIL) by {
                if k != z {
                    assert(m.contains_key(k));
                }
            }
        } else {
            assert(m.contains_key(n));
            assert(covers(m, b, n));
            assert(edges_ok(m, b, n));
            assert forall|k: u32|
                #[trigger] m2.contains_key(k) && b2[n].0 < m2[k].key < b2[n].1 implies k == n || (
            m2[k].key < m2[n].key && m2[n].left != NIL) || (m2[k].key > m2[n].key
                && m2[n].right != NIL) by {
                if k != z {
                    assert(m.contains_key(k));
                } else if n != y {
                    let sn = key < m[n].key;
                    if slot_empty(m, n, sn) {
                        assert(slot_empty(m, y, side));
                        assert(slot_lo(m, b, n, sn) < key < slot_hi(m, b, n, sn));
                    }
                }
            }
        }
    }
    assert forall|n: u32| m2.contains_key(n) && #[trigger] m2[n].parent == NIL implies n == root2 by {
        if n != z {
            assert(m.contains_key(n));
        }
    }
    assert forall|a: u32, d: u32|
        m2.contains_key(a) && m2.contains_key(d) && #[trigger] m2[a].key == #[trigger] m2[d].key
            implies a == d by {
        if a != z && d != z {
            assert(m.contains_key(a) && m.contains_key(d));
            assert(m[a].key == m[d].key);
        } else if a != z {
            assert(m.contains_key(a));
        } else if d != z {
            assert(m.contains_key(d));
        }
    }
    assert forall|a: u32, sa: bool, d: u32, sd: bool|
        m2.contains_key(a) && m2.contains_key(d) && #[trigger] slot_empty(m2, a, sa)
            && #[trigger] slot_empty(m2, d, sd) && !(a == d && sa == sd) implies slot_hi(
        m2,
        b2,
        a,
        sa,
    ) <= slot_lo(m2, b2, d, sd) || slot_hi(m2, b2, d, sd) <= slot_lo(m2, b2, a, sa) by {
        if a != z && d != z {
            assert(m.contains_key(a) && m.contains_key(d));
            assert(slot_empty(m, a, sa) && slot_empty(m, d, sd));
        } else if a != z {
            assert(m.contains_key(a));
            assert(slot_empty(m, a, sa));
            if y != NIL {
                assert(slot_empty(m, y, side));
            }
        } else if d != z {
            assert(m.contains_key(d));
            assert(slot_empty(m, d, sd));
            if y != NIL {
                assert(slot_empty(m, y, side));
            }
        }
    }
}

proof fn lemma_inv_parts(root: u32, m: Map<u32, RbNode>, b: Map<u32, (int, int)>)
    requires
        tree_inv(root, m, b),
    ensures
        roots_ok(root, m, b),
        edges_all(m, b),
        covers_all(m, b),
        keys_unique(m),
        slots_disjoint(m, b),
{
    reveal(tree_inv);
}

/// What the invariant says of one node.
proof fn lemma_node(root: u32, m: Map<u32, RbNode>, b: Map<u32, (int, int)>, n: u32)
    requires
        tree_inv(root, m, b),
        m.contains_key(n),
    ensures
        edges_ok(m, b, n),
        !m.contains_key(NIL),
        root != NIL && m.contains_key(root) && b[root] == (lower_limit(), upper_limit()),
        m[n].parent == NIL ==> n == root,
        b[n].0 < m[n].key < b[n].1,
        m[n].left != NIL ==> m[n].left != n && b[m[n].left].1 - b[m[n].left].0 < b[n].1 - b[n].0,
        m[n].right != NIL ==> m[n].right != n && b[m[n].right].1 - b[m[n].right].0 < b[n].1
            - b[n].0,
        m[n].left != NIL && m[n].right != NIL ==> m[n].left != m[n].right,
        m[n].parent != NIL ==> m[n].parent != n && b[n].1 - b[n].0 < b[m[n].parent].1
            - b[m[n].parent].0,
        b[n].1 - b[n].0 <= upper_limit() - lower_limit(),
        m[n].parent != NIL ==> b[n].1 - b[n].0 < upper_limit() - lower_limit(),
{
    reveal(tree_inv);
    lemma_child_distinct(m, b, n);
}

impl RbTree {
    pub closed spec fn wf(&self) -> bool {
        &&& self.arena.wf()
        &&& tree_inv(self.root, self.arena@, self.bounds@)
    }

    /// The levels of the tree, by node index.
    pub open spec fn view(&self) -> Map<u32, (i64, u32, u32, u64)> {
        self.arena@.map_values(|n: RbNode| level_of(n))
    }

    pub open spec fn has_key(&self, key: i64) -> bool {
        exists|i: u32| self@.contains_key(i) && (#[trigger] self@[i]).0 == key
    }

    pub open spec fn spec_capacity(&self) -> nat {
        self.arena.spec_capacity()
    }

    pub open spec fn is_full(&self) -> bool {
        self.arena.is_full()
    }

    proof fn lemma_view(&self)
        ensures
            self@.dom() == self.arena@.dom(),
            forall|i: u32| #[trigger] self.arena@.contains_key(i) ==> self@[i] == level_of(self.arena@[i]),
    {
        assert(self@.dom() =~= self.arena@.dom());
    }

    /// An empty tree with room for `capacity` levels.
    pub fn new(capacity: usize) -> (t: Self)
        requires
            capacity <= NIL,
        ensures
            t.wf(),
            t@ == Map::<u32, (i64, u32, u32, u64)>::empty(),
            t.spec_capacity() == capacity,
            red_black(t.root, t.arena@),
    {
        let t = RbTree { root: NIL, arena: Arena::new(capacity), bounds: Ghost(Map::empty()) };
        proof {
            reveal(tree_inv);
            t.lemma_view();
            assert(t@ =~= Map::<u32, (i64, u32, u32, u64)>::empty());
            assert(heights_ok(t.arena@, Map::empty()));
        }
        t
    }

    fn set_color(&mut self, i: u32, c: u8)
        requires
            old(self).wf(),
            old(self).arena@.contains_key(i),
        ensures
            final(self).wf(),
            final(self).arena@ == recolored(old(self).arena@, i, c),
            same_levels(old(self).arena@, final(self).arena@),
            final(self).root == old(self).root,
            final(self).bounds@ == old(self).bounds@,
            final(self).spec_capacity() == old(self).spec_capacity(),
            final(self).arena.next_slot() == old(self).arena.next_slot(),
    {
        let mut n = *self.arena.get(i);
        n.color = c;
        self.arena.set(i, n);
        proof {
            let m = old(self).arena@;
            assert(self.arena@.dom() =~= m.dom());
            lemma_same_shape(self.root, m, self.arena@, self.bounds@);
            assert forall|k: u32| #[trigger] m.contains_key(k) implies level_of(m[k]) == level_of(
                self.arena@[k],
            ) by {}
        }
    }

    /// Sets what the level `i` holds besides its price.
    pub fn set_level(&mut self, i: u32, order_head: u32, order_tail: u32, total_qty: u64)
        requires
            old(self).wf(),
            old(self)@.contains_key(i),
        ensures
            final(self).wf(),
            final(self)@ == old(self)@.insert(i, (old(self)@[i].0, order_head, order_tail, total_qty)),
            final(self).spec_capacity() == old(self).spec_capacity(),
    {
        proof {
            self.lemma_view();
        }
        let mut n = *self.arena.get(i);
        n.order_head = order_head;
        n.order_tail = order_tail;
        n.total_qty = total_qty;
        self.arena.set(i, n);
        proof {
            let m = old(self).arena@;
            assert(self.arena@.dom() =~= m.dom());
            lemma_same_shape(self.root, m, self.arena@, self.bounds@);
            self.lemma_view();
            assert(self@ =~= old(self)@.insert(i, (old(self)@[i].0, order_head, order_tail, total_qty)));
        }
    }

    fn left_rotate(&mut self, x: u32)
        requires
            old(self).wf(),
            old(self).arena@.contains_key(x),
            old(self).arena@[x].right != NIL,
        ensures
            final(self).wf(),
            rotl_ready(old(self).arena@, x),
            final(self).arena@ == rotl_map(old(self).arena@, x),
            final(self).bounds@ == rotl_bounds(old(self).arena@, old(self).bounds@, x),
            final(self).root == rot_root(old(self).arena@, old(self).root, x, old(self).arena@[x].right),
            same_levels(old(self).arena@, final(self).arena@),
            forall|k: u32| #[trigger] old(self).arena@.contains_key(k) ==> final(self).arena@[k].color == old(self).arena@[k].color,
            final(self).spec_capacity() == old(self).spec_capacity(),
            final(self).arena.next_slot() == old(self).arena.next_slot(),
    {
        let ghost m0 = self.arena@;
        let ghost b0 = self.bounds@;
        proof {
            lemma_rotate_left(self.root, m0, b0, x);
        }
        let y = self.arena.get(x).right;
        let y_left = self.arena.get(y).left;
        let mut nx = *self.arena.get(x);
        nx.right = y_left;
        self.arena.set(x, nx);
        if y_left != NIL {
            let mut n = *self.arena.get(y_left);
            n.parent = x;
            self.arena.set(y_left, n);
        }
        let x_parent = self.arena.get(x).parent;
        let mut ny = *self.arena.get(y);
        ny.parent = x_parent;
        self.arena.set(y, ny);
        if x_parent == NIL {
            self.root = y;
        } else if x == self.arena.get(x_parent).left {
            let mut np = *self.arena.get(x_parent);
            np.left = y;
            self.arena.set(x_parent, np);
        } else {
            let mut np = *self.arena.get(x_parent);
            np.right = y;
            self.arena.set(x_parent, np);
        }
        let mut ny2 = *self.arena.get(y);
        ny2.left = x;
        self.arena.set(y, ny2);
        let mut nx2 = *self.arena.get(x);
        nx2.parent = y;
        self.arena.set(x, nx2);
        self.bounds = Ghost(rotl_bounds(m0, b0, x));
        proof {
            assert(self.arena@ =~= rotl_map(m0, x));
        }
    }

    fn right_rotate(&mut self, x: u32)
        requires
            old(self).wf(),
            old(self).arena@.contains_key(x),
            old(self).arena@[x].left != NIL,
        ensures
            final(self).wf(),
            rotr_ready(old(self).arena@, x),
            final(self).arena@ == rotr_map(old(self).arena@, x),
            final(self).bounds@ == rotr_bounds(old(self).arena@, old(self).bounds@, x),
            final(self).root == rot_root(old(self).arena@, old(self).root, x, old(self).arena@[x].left),
            same_levels(old(self).arena@, final(self).arena@),
            forall|k: u32| #[trigger] old(self).arena@.contains_key(k) ==> final(self).arena@[k].color == old(self).arena@[k].color,
            final(self).spec_capacity() == old(self).spec_capacity(),
            final(self).arena.next_slot() == old(self).arena.next_slot(),
    {
        let ghost m0 = self.arena@;
        let ghost b0 = self.bounds@;
        proof {
            lemma_rotate_right(self.root, m0, b0, x);
        }
        let y = self.arena.get(x).left;
        let y_right = self.arena.get(y).right;
        let mut nx = *self.arena.get(x);
        nx.left = y_right;
        self.arena.set(x, nx);
        if y_right != NIL {
            let mut n = *self.arena.get(y_right);
            n.parent = x;
            self.arena.set(y_right, n);
        }
        let x_parent = self.arena.get(x).parent;
        let mut ny = *self.arena.get(y);
        ny.parent = x_parent;
        self.arena.set(y, ny);
        if x_parent == NIL {
            self.root = y;
        } else if x == self.arena.get(x_parent).right {
            let mut np = *self.arena.get(x_parent);
            np.right = y;
            self.arena.set(x_parent, np);
        } else {
            let mut np = *self.arena.get(x_parent);
            np.left = y;
            self.arena.set(x_parent, np);
        }
        let mut ny2 = *self.arena.get(y);
        ny2.right = x;
        self.arena.set(y, ny2);
        let mut nx2 = *self.arena.get(x);
        nx2.parent = y;
        self.arena.set(x, nx2);
        self.bounds = Ghost(rotr_bounds(m0, b0, x));
        proof {
            assert(self.arena@ =~= rotr_map(m0, x));
        }
    }
}

impl RbTree {
    pub open spec fn no_levels(&self) -> bool {
        forall|i: u32| !self@.contains_key(i)
    }

    /// The level with price `key`, if there is one.
    pub fn find(&self, key: i64) -> (r: Option<u32>)
        requires
            self.wf(),
        ensures
            r matches Some(i) ==> self@.contains_key(i) && self@[i].0 == key,
            r is None ==> !self.has_key(key),
    {
        let ghost m = self.arena@;
        let ghost b = self.bounds@;
        proof {
            lemma_inv_parts(self.root, m, b);
            self.lemma_view();
        }
        let mut x = self.root;
        while x != NIL
            invariant
                self.wf(),
                m == self.arena@,
                b == self.bounds@,
                !m.contains_key(NIL),
                edges_all(m, b),
                covers_all(m, b),
                x != NIL ==> m.contains_key(x) && b[x].0 < key < b[x].1,
                forall|k: u32|
                    #[trigger] m.contains_key(k) && m[k].key == key ==> x != NIL && m.contains_key(x)
                        && b[x].0 < key < b[x].1,
            decreases (if x == NIL {
                0
            } else {
                b[x].1 - b[x].0
            }),
        {
            let nd = *self.arena.get(x);
            proof {
                assert(edges_ok(m, b, x));
                assert(covers(m, b, x));
                lemma_child_distinct(m, b, x);
            }
            if key < nd.key {
                x = nd.left;
            } else if key > nd.key {
                x = nd.right;
            } else {
                return Some(x);
            }
        }
        None
    }

    fn minimum(&self, x: u32) -> (r: u32)
        requires
            self.wf(),
            self.arena@.contains_key(x),
        ensures
            self.arena@.contains_key(r),
            self.arena@[r].left == NIL,
            self.bounds@[r].0 == self.bounds@[x].0,
            self.bounds@[r].1 <= self.bounds@[x].1,
            r != x ==> self.arena@[r].parent != NIL && self.arena@[self.arena@[r].parent].left == r,
            forall|k: u32|
                #[trigger] self.arena@.contains_key(k) && self.bounds@[x].0 < self.arena@[k].key
                    < self.arena@[r].key ==> false,
    {
        let ghost m = self.arena@;
        let ghost b = self.bounds@;
        proof {
            lemma_inv_parts(self.root, m, b);
        }
        let mut c = x;
        while self.arena.get(c).left != NIL
            invariant
                self.wf(),
                m == self.arena@,
                b == self.bounds@,
                !m.contains_key(NIL),
                edges_all(m, b),
                covers_all(m, b),
                m.contains_key(c),
                b[c].0 == b[x].0,
                b[c].1 <= b[x].1,
                c != x ==> m[c].parent != NIL && m[m[c].parent].left == c,
            decreases b[c].1 - b[c].0,
        {
            proof {
                assert(edges_ok(m, b, c));
                lemma_child_distinct(m, b, c);
            }
            c = self.arena.get(c).left;
        }
        proof {
            assert(covers(m, b, c));
            assert(edges_ok(m, b, c));
        }
        c
    }

    fn maximum(&self, x: u32) -> (r: u32)
        requires
            self.wf(),
            self.arena@.contains_key(x),
        ensures
            self.arena@.contains_key(r),
            self.arena@[r].right == NIL,
            self.bounds@[r].1 == self.bounds@[x].1,
            self.bounds@[r].0 >= self.bounds@[x].0,
            forall|k: u32|
                #[trigger] self.arena@.contains_key(k) && self.arena@[r].key < self.arena@[k].key
                    < self.bounds@[x].1 ==> false,
    {
        let ghost m = self.arena@;
        let ghost b = self.bounds@;
        proof {
            lemma_inv_parts(self.root, m, b);
        }
        let mut c = x;
        while self.arena.get(c).right != NIL
            invariant
                self.wf(),
                m == self.arena@,
                b == self.bounds@,
                !m.contains_key(NIL),
                edges_all(m, b),
                covers_all(m, b),
                m.contains_key(c),
                b[c].1 == b[x].1,
                b[c].0 >= b[x].0,
            decreases b[c].1 - b[c].0,
        {
            proof {
                assert(edges_ok(m, b, c));
                lemma_child_distinct(m, b, c);
            }
            c = self.arena.get(c).right;
        }
        proof {
            assert(covers(m, b, c));
            assert(edges_ok(m, b, c));
        }
        c
    }

    /// The level with the lowest price; `None` when there is no level.
    pub fn min_key(&self) -> (r: Option<u32>)
        requires
            self.wf(),
        ensures
            r is None <==> self.no_levels(),
            r matches Some(i) ==> self@.contains_key(i) && forall|j: u32|
                #[trigger] self@.contains_key(j) ==> self@[i].0 <= self@[j].0,
    {
        proof {
            lemma_inv_parts(self.root, self.arena@, self.bounds@);
            self.lemma_view();
        }
        if self.root == NIL {
            return None;
        }
        let r = self.minimum(self.root);
        proof {
            assert forall|j: u32| #[trigger] self@.contains_key(j) implies self@[r].0 <= self@[j].0 by {
                assert(self.arena@.contains_key(j));
                assert(covers(self.arena@, self.bounds@, self.root));
                assert(edges_ok(self.arena@, self.bounds@, j));
            }
            assert(self@.contains_key(r));
        }
        Some(r)
    }

    /// The level with the highest price; `None` when there is no level.
    pub fn max_key(&self) -> (r: Option<u32>)
        requires
            self.wf(),
        ensures
            r is None <==> self.no_levels(),
            r matches Some(i) ==> self@.contains_key(i) && forall|j: u32|
                #[trigger] self@.contains_key(j) ==> self@[j].0 <= self@[i].0,
    {
        proof {
            lemma_inv_parts(self.root, self.arena@, self.bounds@);
            self.lemma_view();
        }
        if self.root == NIL {
            return None;
        }
        let r = self.maximum(self.root);
        proof {
            assert forall|j: u32| #[trigger] self@.contains_key(j) implies self@[j].0 <= self@[r].0 by {
                assert(self.arena@.contains_key(j));
                assert(edges_ok(self.arena@, self.bounds@, j));
            }
            assert(self@.contains_key(r));
        }
        Some(r)
    }

    pub fn is_empty(&self) -> (r: bool)
        requires
            self.wf(),
        ensures
            r == self.no_levels(),
    {
        proof {
            lemma_inv_parts(self.root, self.arena@, self.bounds@);
            self.lemma_view();
            if self.root != NIL {
                assert(self@.contains_key(self.root));
            }
        }
        self.root == NIL
    }
}

/// `n` is a red node of `m`.
pub open spec fn is_red(m: Map<u32, RbNode>, n: u32) -> bool {
    n != NIL && m.contains_key(n) && m[n].color == COLOR_RED
}

/// The number of black nodes on every path down from `c` (itself included) to an
/// empty slot, where `h` gives that number below each node.
pub open spec fn black_height(m: Map<u32, RbNode>, h: Map<u32, nat>, c: u32) -> nat {
    if c == NIL {
        0
    } else if m[c].color == COLOR_RED {
        h[c]
    } else {
        h[c] + 1
    }
}

/// Every node has the same number `h[n]` of black nodes on each path down to an empty
/// slot, through either child.
pub open spec fn heights_ok(m: Map<u32, RbNode>, h: Map<u32, nat>) -> bool {
    forall|n: u32|
        #[trigger] m.contains_key(n) ==> black_height(m, h, m[n].left) == h[n] && black_height(
            m,
            h,
            m[n].right,
        ) == h[n]
}

/// No red node has a red child, but for the child `z`.
pub open spec fn reds_apart_except(m: Map<u32, RbNode>, z: u32) -> bool {
    forall|n: u32|
        #[trigger] m.contains_key(n) && m[n].color == COLOR_RED ==> (is_red(m, m[n].left)
            ==> m[n].left == z) && (is_red(m, m[n].right) ==> m[n].right == z)
}

/// The red-black rules: every node is red or black, the root is black, no red node has a red child, and every path
/// from a node down to an empty slot meets as many black nodes.
pub open spec fn red_black(root: u32, m: Map<u32, RbNode>) -> bool {
    &&& colors_ok(m)
    &&& !is_red(m, root)
    &&& reds_apart_except(m, NIL)
    &&& exists|h: Map<u32, nat>| heights_ok(m, h)
}

/// The red-black rules but for a red node `z` that may have a red parent, with
/// heights `h`.
pub open spec fn red_black_but(m: Map<u32, RbNode>, h: Map<u32, nat>, z: u32) -> bool {
    &&& colors_ok(m)
    &&& is_red(m, z)
    &&& reds_apart_except(m, z)
    &&& heights_ok(m, h)
}

/// Each node is the parent of its children and a child of its parent.
pub open spec fn links_ok(m: Map<u32, RbNode>) -> bool {
    &&& !m.contains_key(NIL)
    &&& forall|n: u32| #[trigger]
        m.contains_key(n) ==> {
            &&& m[n].left != NIL ==> m.contains_key(m[n].left) && m[m[n].left].parent == n
                && m[n].left != n
            &&& m[n].right != NIL ==> m.contains_key(m[n].right) && m[m[n].right].parent == n
                && m[n].right != n
            &&& m[n].left != NIL ==> m[n].left != m[n].right
            &&& m[n].parent != NIL ==> m.contains_key(m[n].parent) && m[n].parent != n && (
            m[m[n].parent].left == n || m[m[n].parent].right == n)
        }
}

proof fn lemma_links(root: u32, m: Map<u32, RbNode>, b: Map<u32, (int, int)>)
    requires
        tree_inv(root, m, b),
    ensures
        links_ok(m),
{
    lemma_inv_parts(root, m, b);
    assert forall|n: u32| #[trigger] m.contains_key(n) implies {
        &&& m[n].left != NIL ==> m.contains_key(m[n].left) && m[m[n].left].parent == n
            && m[n].left != n
        &&& m[n].right != NIL ==> m.contains_key(m[n].right) && m[m[n].right].parent == n
            && m[n].right != n
        &&& m[n].left != NIL ==> m[n].left != m[n].right
        &&& m[n].parent != NIL ==> m.contains_key(m[n].parent) && m[n].parent != n && (
        m[m[n].parent].left == n || m[m[n].parent].right == n)
    } by {
        lemma_node(root, m, b, n);
    }
}

/// Recoloring a red parent and red uncle black and the grandparent red moves the
/// one red-red pair up to the grandparent.
proof fn lemma_insert_recolor(
    m: Map<u32, RbNode>,
    h: Map<u32, nat>,
    z: u32,
    p: u32,
    g: u32,
    y: u32,
)
    requires
        links_ok(m),
        red_black_but(m, h, z),
        m.contains_key(z),
        m[z].parent == p,
        p != NIL,
        m[p].parent == g,
        g != NIL,
        (m[g].left == p && m[g].right == y) || (m[g].right == p && m[g].left == y),
        m[p].color == COLOR_RED,
        is_red(m, y),
        g != z,
    ensures
        ({
            let m2 = recolored(recolored(recolored(m, p, COLOR_BLACK), y, COLOR_BLACK), g, COLOR_RED);
            red_black_but(m2, h.insert(g, h[g] + 1), g)
        }),
{
    let m2 = recolored(recolored(recolored(m, p, COLOR_BLACK), y, COLOR_BLACK), g, COLOR_RED);
    let h2 = h.insert(g, h[g] + 1);
    assert(m.contains_key(p) && m.contains_key(g) && m.contains_key(y));
    assert(p != z && y != z && p != y && g != p && g != y);
    assert(m[g].color != COLOR_RED);
    assert(h[p] == h[g] && h[y] == h[g]);
    assert(m2.dom() =~= m.dom());
    assert forall|n: u32| #[trigger] m2.contains_key(n) implies black_height(m2, h2, m2[n].left)
        == h2[n] && black_height(m2, h2, m2[n].right) == h2[n] by {
        assert(m.contains_key(n));
        let l = m[n].left;
        let r = m[n].right;
        assert(m2[n].left == l && m2[n].right == r);
        assert(black_height(m, h, l) == h[n] && black_height(m, h, r) == h[n]);
    }
    assert forall|n: u32| #[trigger] m2.contains_key(n) && m2[n].color == COLOR_RED implies (
    is_red(m2, m2[n].left) ==> m2[n].left == g) && (is_red(m2, m2[n].right) ==> m2[n].right
        == g) by {
        assert(m.contains_key(n));
        if n != g {
            assert(m[n].color == COLOR_RED);
        }
    }
}

/// Where the red node `z` is the inner (right) child of its red parent `p`, a left
/// rotation at `p` turns `p` into the outer child of `z`, keeping the one red-red pair.
proof fn lemma_insert_inner_left(
    m: Map<u32, RbNode>,
    h: Map<u32, nat>,
    z: u32,
    p: u32,
    g: u32,
    m3: Map<u32, RbNode>,
)
    requires
        links_ok(m),
        red_black_but(m, h, z),
        m[z].parent == p,
        p != NIL,
        m[p].right == z,
        m[p].color == COLOR_RED,
        m[p].parent == g,
        g != NIL,
        m[g].left == p,
        m[g].parent != z && m[g].parent != p,
        m[z].left != g && m[z].right != g,
        rotl_ready(m, p),
        rotl_shape(m, p, m3),
    ensures
        red_black_but(m3, h, p),
        links_ok(m3),
        m3[p].parent == z,
        m3[z].left == p,
        m3[z].parent == g,
        m3[g].left == z,
        m3[g].right == m[g].right,
        forall|k: u32| #[trigger] m.contains_key(k) ==> m3[k].color == m[k].color,
{
    let c = m[z].left;
    assert(m.contains_key(p) && m.contains_key(g) && m.contains_key(z));
    assert(g != z && g != p && z != p && c != g);
    assert(m[g].color != COLOR_RED);
    assert(h[z] == h[p]);
    assert forall|k: u32| #[trigger] m.contains_key(k) implies m3[k].color == m[k].color by {}
    assert forall|n: u32| #[trigger] m3.contains_key(n) implies black_height(m3, h, m3[n].left)
        == h[n] && black_height(m3, h, m3[n].right) == h[n] by {
        assert(m.contains_key(n));
        let l = m[n].left;
        let r = m[n].right;
        assert(black_height(m, h, l) == h[n] && black_height(m, h, r) == h[n]);
        if n != p && n != z && n != g && n != c {
            assert(l != p && l != z && r != p && r != z);
        }
        if l != NIL {
            assert(m3.contains_key(l));
        }
        if r != NIL {
            assert(m3.contains_key(r));
        }
    }
    assert forall|n: u32| #[trigger] m3.contains_key(n) && m3[n].color == COLOR_RED implies (
    is_red(m3, m3[n].left) ==> m3[n].left == p) && (is_red(m3, m3[n].right) ==> m3[n].right
        == p) by {
        assert(m.contains_key(n));
        let l = m[n].left;
        let r = m[n].right;
        if n != p && n != z && n != g && n != c {
            assert(l != p && l != z && r != p && r != z);
        }
    }
    assert forall|n: u32| #[trigger] m3.contains_key(n) implies {
        &&& m3[n].left != NIL ==> m3.contains_key(m3[n].left) && m3[m3[n].left].parent == n
            && m3[n].left != n
        &&& m3[n].right != NIL ==> m3.contains_key(m3[n].right) && m3[m3[n].right].parent == n
            && m3[n].right != n
        &&& m3[n].left != NIL ==> m3[n].left != m3[n].right
        &&& m3[n].parent != NIL ==> m3.contains_key(m3[n].parent) && m3[n].parent != n && (
        m3[m3[n].parent].left == n || m3[m3[n].parent].right == n)
    } by {
        assert(m.contains_key(n));
        let l = m[n].left;
        let r = m[n].right;
        if n != p && n != z && n != g && n != c {
            assert(l != p && l != z && r != p && r != z);
            assert(c != NIL ==> l != c && r != c);
        }
    }
}

/// Where the red node `z` is the outer (left) child of its red parent `p`, recoloring
/// `p` black and the grandparent `g` red and rotating right at `g` restores the rules.
proof fn lemma_insert_outer_left(
    m: Map<u32, RbNode>,
    h: Map<u32, nat>,
    z: u32,
    p: u32,
    g: u32,
    m3: Map<u32, RbNode>,
)
    requires
        links_ok(m),
        red_black_but(m, h, z),
        m[z].parent == p,
        p != NIL,
        m[p].left == z,
        m[p].color == COLOR_RED,
        m[p].parent == g,
        g != NIL,
        m[g].left == p,
        !is_red(m, m[g].right),
        m[g].parent != z && m[g].parent != p,
        m[p].right != g,
        rotr_ready(recolored(recolored(m, p, COLOR_BLACK), g, COLOR_RED), g),
        rotr_shape(recolored(recolored(m, p, COLOR_BLACK), g, COLOR_RED), g, m3),
    ensures
        reds_apart_except(m3, NIL),
        heights_ok(m3, h),
        colors_ok(m3),
        m3[z].parent == p,
        m3[p].color == COLOR_BLACK,
{
    let m1 = recolored(recolored(m, p, COLOR_BLACK), g, COLOR_RED);
    let s = m[p].right;
    let y = m[g].right;
    let q = m[g].parent;
    assert(m.contains_key(p) && m.contains_key(g) && m.contains_key(z));
    assert(g != z && g != p && z != p && s != z && s != g && s != p);
    assert(m[g].color != COLOR_RED);
    assert(h[g] == h[p]);
    assert(m1[g].left == p && m1[p].right == s && m1[g].parent == q);
    assert(m3.contains_key(z) && z != q);
    assert(m3[z] == m1[z]);
    assert forall|n: u32| #[trigger] m3.contains_key(n) implies black_height(m3, h, m3[n].left)
        == h[n] && black_height(m3, h, m3[n].right) == h[n] by {
        assert(m.contains_key(n));
        let l = m[n].left;
        let r = m[n].right;
        assert(black_height(m, h, l) == h[n] && black_height(m, h, r) == h[n]);
        if n != p && n != g && n != s && n != q {
            assert(l != p && l != g && r != p && r != g);
            assert(m3[n] == m[n]);
        }
        if l != NIL {
            assert(m3.contains_key(l));
        }
        if r != NIL {
            assert(m3.contains_key(r));
        }
    }
    assert forall|n: u32| #[trigger] m3.contains_key(n) && m3[n].color == COLOR_RED implies (
    is_red(m3, m3[n].left) ==> m3[n].left == NIL) && (is_red(m3, m3[n].right) ==> m3[n].right
        == NIL) by {
        assert(m.contains_key(n));
        let l = m[n].left;
        let r = m[n].right;
        if n != p && n != g && n != s && n != q {
            assert(l != p && l != g && r != p && r != g);
            assert(m3[n] == m[n]);
        }
    }
    assert forall|n: u32| #[trigger] m3.contains_key(n) implies m3[n].color == COLOR_RED
        || m3[n].color == COLOR_BLACK by {
        assert(m.contains_key(n));
    }
}

/// Where the red node `z` is the inner (left) child of its red parent `p`, a right
/// rotation at `p` turns `p` into the outer child of `z`, keeping the one red-red pair.
proof fn lemma_insert_inner_right(
    m: Map<u32, RbNode>,
    h: Map<u32, nat>,
    z: u32,
    p: u32,
    g: u32,
    m3: Map<u32, RbNode>,
)
    requires
        links_ok(m),
        red_black_but(m, h, z),
        m[z].parent == p,
        p != NIL,
        m[p].left == z,
        m[p].color == COLOR_RED,
        m[p].parent == g,
        g != NIL,
        m[g].right == p,
        m[g].parent != z && m[g].parent != p,
        m[z].right != g && m[z].left != g,
        rotr_ready(m, p),
        rotr_shape(m, p, m3),
    ensures
        red_black_but(m3, h, p),
        links_ok(m3),
        m3[p].parent == z,
        m3[z].right == p,
        m3[z].parent == g,
        m3[g].right == z,
        m3[g].left == m[g].left,
        forall|k: u32| #[trigger] m.contains_key(k) ==> m3[k].color == m[k].color,
{
    let c = m[z].right;
    assert(m.contains_key(p) && m.contains_key(g) && m.contains_key(z));
    assert(g != z && g != p && z != p && c != g);
    assert(m[g].color != COLOR_RED);
    assert(h[z] == h[p]);
    assert forall|k: u32| #[trigger] m.contains_key(k) implies m3[k].color == m[k].color by {}
    assert forall|n: u32| #[trigger] m3.contains_key(n) implies black_height(m3, h, m3[n].right)
        == h[n] && black_height(m3, h, m3[n].left) == h[n] by {
        assert(m.contains_key(n));
        let l = m[n].right;
        let r = m[n].left;
        assert(black_height(m, h, l) == h[n] && black_height(m, h, r) == h[n]);
        if n != p && n != z && n != g && n != c {
            assert(l != p && l != z && r != p && r != z);
        }
        if l != NIL {
            assert(m3.contains_key(l));
        }
        if r != NIL {
            assert(m3.contains_key(r));
        }
    }
    assert forall|n: u32| #[trigger] m3.contains_key(n) && m3[n].color == COLOR_RED implies (
    is_red(m3, m3[n].right) ==> m3[n].right == p) && (is_red(m3, m3[n].left) ==> m3[n].left
        == p) by {
        assert(m.contains_key(n));
        let l = m[n].right;
        let r = m[n].left;
        if n != p && n != z && n != g && n != c {
            assert(l != p && l != z && r != p && r != z);
        }
    }
    assert forall|n: u32| #[trigger] m3.contains_key(n) implies {
        &&& m3[n].right != NIL ==> m3.contains_key(m3[n].right) && m3[m3[n].right].parent == n
            && m3[n].right != n
        &&& m3[n].left != NIL ==> m3.contains_key(m3[n].left) && m3[m3[n].left].parent == n
            && m3[n].left != n
        &&& m3[n].right != NIL ==> m3[n].right != m3[n].left
        &&& m3[n].parent != NIL ==> m3.contains_key(m3[n].parent) && m3[n].parent != n && (
        m3[m3[n].parent].right == n || m3[m3[n].parent].left == n)
    } by {
        assert(m.contains_key(n));
        let l = m[n].right;
        let r = m[n].left;
        if n != p && n != z && n != g && n != c {
            assert(l != p && l != z && r != p && r != z);
            assert(c != NIL ==> l != c && r != c);
        }
    }
}

/// Where the red node `z` is the outer (right) child of its red parent `p`, recoloring
/// `p` black and the grandparent `g` red and rotating left at `g` restores the rules.
proof fn lemma_insert_outer_right(
    m: Map<u32, RbNode>,
    h: Map<u32, nat>,
    z: u32,
    p: u32,
    g: u32,
    m3: Map<u32, RbNode>,
)
    requires
        links_ok(m),
        red_black_but(m, h, z),
        m[z].parent == p,
        p != NIL,
        m[p].right == z,
        m[p].color == COLOR_RED,
        m[p].parent == g,
        g != NIL,
        m[g].right == p,
        !is_red(m, m[g].left),
        m[g].parent != z && m[g].parent != p,
        m[p].left != g,
        rotl_ready(recolored(recolored(m, p, COLOR_BLACK), g, COLOR_RED), g),
        rotl_shape(recolored(recolored(m, p, COLOR_BLACK), g, COLOR_RED), g, m3),
    ensures
        reds_apart_except(m3, NIL),
        heights_ok(m3, h),
        colors_ok(m3),
        m3[z].parent == p,
        m3[p].color == COLOR_BLACK,
{
    let m1 = recolored(recolored(m, p, COLOR_BLACK), g, COLOR_RED);
    let s = m[p].left;
    let y = m[g].left;
    let q = m[g].parent;
    assert(m.contains_key(p) && m.contains_key(g) && m.contains_key(z));
    assert(g != z && g != p && z != p && s != z && s != g && s != p);
    assert(m[g].color != COLOR_RED);
    assert(h[g] == h[p]);
    assert(m1[g].right == p && m1[p].left == s && m1[g].parent == q);
    assert(m3.contains_key(z) && z != q);
    assert(m3[z] == m1[z]);
    assert forall|n: u32| #[trigger] m3.contains_key(n) implies black_height(m3, h, m3[n].right)
        == h[n] && black_height(m3, h, m3[n].left) == h[n] by {
        assert(m.contains_key(n));
        let l = m[n].right;
        let r = m[n].left;
        assert(black_height(m, h, l) == h[n] && black_height(m, h, r) == h[n]);
        if n != p && n != g && n != s && n != q {
            assert(l != p && l != g && r != p && r != g);
            assert(m3[n] == m[n]);
        }
        if l != NIL {
            assert(m3.contains_key(l));
        }
        if r != NIL {
            assert(m3.contains_key(r));
        }
    }
    assert forall|n: u32| #[trigger] m3.contains_key(n) && m3[n].color == COLOR_RED implies (
    is_red(m3, m3[n].right) ==> m3[n].right == NIL) && (is_red(m3, m3[n].left) ==> m3[n].left
        == NIL) by {
        assert(m.contains_key(n));
        let l = m[n].right;
        let r = m[n].left;
        if n != p && n != g && n != s && n != q {
            assert(l != p && l != g && r != p && r != g);
            assert(m3[n] == m[n]);
        }
    }
    assert forall|n: u32| #[trigger] m3.contains_key(n) implies m3[n].color == COLOR_RED
        || m3[n].color == COLOR_BLACK by {
        assert(m.contains_key(n));
    }
}

/// Blackening the root once the one red-red pair is gone or sits at the root leaves a
/// red-black tree.
proof fn lemma_insert_finish(m: Map<u32, RbNode>, h: Map<u32, nat>, z: u32, root: u32)
    requires
        links_ok(m),
        heights_ok(m, h),
        colors_ok(m),
        reds_apart_except(m, z),
        m.contains_key(z),
        m.contains_key(root),
        m[root].parent == NIL,
        m[z].parent == NIL || m[z].parent == root || !is_red(m, m[z].parent),
    ensures
        red_black(root, recolored(m, root, COLOR_BLACK)),
{
    let m2 = recolored(m, root, COLOR_BLACK);
    assert(m2.dom() =~= m.dom());
    assert forall|n: u32| #[trigger] m2.contains_key(n) implies black_height(m2, h, m2[n].left)
        == h[n] && black_height(m2, h, m2[n].right) == h[n] by {
        assert(m.contains_key(n));
        assert(m[n].left != root && m[n].right != root);
    }
    assert(heights_ok(m2, h));
    assert forall|n: u32| #[trigger] m2.contains_key(n) && m2[n].color == COLOR_RED implies (
    is_red(m2, m2[n].left) ==> m2[n].left == NIL) && (is_red(m2, m2[n].right) ==> m2[n].right
        == NIL) by {
        assert(m.contains_key(n));
        assert(n != root);
        assert(m[n].left != root && m[n].right != root);
        if is_red(m2, m2[n].left) {
            assert(m[n].left == z);
            assert(m[z].parent == n);
        }
        if is_red(m2, m2[n].right) {
            assert(m[n].right == z);
            assert(m[z].parent == n);
        }
    }
    assert forall|n: u32| #[trigger] m2.contains_key(n) implies m2[n].color == COLOR_RED
        || m2[n].color == COLOR_BLACK by {
        assert(m.contains_key(n));
    }
}

proof fn lemma_fix_recolor(
    root: u32,
    m: Map<u32, RbNode>,
    b: Map<u32, (int, int)>,
    h: Map<u32, nat>,
    z: u32,
    p: u32,
    g: u32,
    y: u32,
)
    requires
        tree_inv(root, m, b),
        red_black_but(m, h, z),
        m.contains_key(z),
        m[z].parent == p,
        p != NIL,
        m[p].parent == g,
        g != NIL,
        (m[g].left == p && m[g].right == y) || (m[g].right == p && m[g].left == y),
        m[p].color == COLOR_RED,
        is_red(m, y),
    ensures
        red_black_but(
            recolored(recolored(recolored(m, p, COLOR_BLACK), y, COLOR_BLACK), g, COLOR_RED),
            h.insert(g, h[g] + 1),
            g,
        ),
{
    lemma_links(root, m, b);
    lemma_node(root, m, b, z);
    lemma_node(root, m, b, p);
    lemma_node(root, m, b, g);
    lemma_insert_recolor(m, h, z, p, g, y);
}

proof fn lemma_fix_inner_left(
    root: u32,
    m: Map<u32, RbNode>,
    b: Map<u32, (int, int)>,
    h: Map<u32, nat>,
    z: u32,
    p: u32,
    g: u32,
)
    requires
        tree_inv(root, m, b),
        red_black_but(m, h, z),
        m[z].parent == p,
        p != NIL,
        m[p].right == z,
        m[p].color == COLOR_RED,
        m[p].parent == g,
        g != NIL,
        m[g].left == p,
    ensures
        ({
            let m3 = rotl_map(m, p);
            &&& red_black_but(m3, h, p)
            &&& m3[p].parent == z
            &&& m3[z].left == p
            &&& m3[z].parent == g
            &&& m3[g].left == z
            &&& m3[g].right == m[g].right
            &&& m3[z].color == m[z].color
            &&& m[g].right != NIL ==> m3[m[g].right].color == m[m[g].right].color
        }),
{
    lemma_inv_parts(root, m, b);
    lemma_links(root, m, b);
    lemma_node(root, m, b, z);
    lemma_node(root, m, b, p);
    lemma_node(root, m, b, g);
    if m[g].parent != NIL {
        lemma_node(root, m, b, m[g].parent);
    }
    if m[z].left != NIL {
        lemma_node(root, m, b, m[z].left);
    }
    if m[z].right != NIL {
        lemma_node(root, m, b, m[z].right);
    }
    lemma_rotl_shape(m, b, p);
    lemma_insert_inner_left(m, h, z, p, g, rotl_map(m, p));
}

proof fn lemma_fix_outer_left(
    root: u32,
    m: Map<u32, RbNode>,
    b: Map<u32, (int, int)>,
    h: Map<u32, nat>,
    z: u32,
    p: u32,
    g: u32,
)
    requires
        tree_inv(root, m, b),
        red_black_but(m, h, z),
        m[z].parent == p,
        p != NIL,
        m[p].left == z,
        m[p].color == COLOR_RED,
        m[p].parent == g,
        g != NIL,
        m[g].left == p,
        !is_red(m, m[g].right),
    ensures
        ({
            let m3 = rotr_map(recolored(recolored(m, p, COLOR_BLACK), g, COLOR_RED), g);
            &&& reds_apart_except(m3, NIL)
            &&& heights_ok(m3, h)
            &&& colors_ok(m3)
            &&& m3[z].parent == p
            &&& m3[p].color == COLOR_BLACK
        }),
{
    let m1 = recolored(recolored(m, p, COLOR_BLACK), g, COLOR_RED);
    lemma_links(root, m, b);
    lemma_node(root, m, b, z);
    lemma_node(root, m, b, p);
    lemma_node(root, m, b, g);
    if m[g].parent != NIL {
        lemma_node(root, m, b, m[g].parent);
    }
    if m[p].right != NIL {
        lemma_node(root, m, b, m[p].right);
    }
    assert(m1.dom() =~= m.dom());
    lemma_same_shape(root, m, m1, b);
    lemma_inv_parts(root, m1, b);
    lemma_rotr_shape(m1, b, g);
    lemma_insert_outer_left(m, h, z, p, g, rotr_map(m1, g));
}

proof fn lemma_fix_inner_right(
    root: u32,
    m: Map<u32, RbNode>,
    b: Map<u32, (int, int)>,
    h: Map<u32, nat>,
    z: u32,
    p: u32,
    g: u32,
)
    requires
        tree_inv(root, m, b),
        red_black_but(m, h, z),
        m[z].parent == p,
        p != NIL,
        m[p].left == z,
        m[p].color == COLOR_RED,
        m[p].parent == g,
        g != NIL,
        m[g].right == p,
    ensures
        ({
            let m3 = rotr_map(m, p);
            &&& red_black_but(m3, h, p)
            &&& m3[p].parent == z
            &&& m3[z].right == p
            &&& m3[z].parent == g
            &&& m3[g].right == z
            &&& m3[g].left == m[g].left
            &&& m3[z].color == m[z].color
            &&& m[g].left != NIL ==> m3[m[g].left].color == m[m[g].left].color
        }),
{
    lemma_inv_parts(root, m, b);
    lemma_links(root, m, b);
    lemma_node(root, m, b, z);
    lemma_node(root, m, b, p);
    lemma_node(root, m, b, g);
    if m[g].parent != NIL {
        lemma_node(root, m, b, m[g].parent);
    }
    if m[z].right != NIL {
        lemma_node(root, m, b, m[z].right);
    }
    if m[z].left != NIL {
        lemma_node(root, m, b, m[z].left);
    }
    lemma_rotr_shape(m, b, p);
    lemma_insert_inner_right(m, h, z, p, g, rotr_map(m, p));
}

proof fn lemma_fix_outer_right(
    root: u32,
    m: Map<u32, RbNode>,
    b: Map<u32, (int, int)>,
    h: Map<u32, nat>,
    z: u32,
    p: u32,
    g: u32,
)
    requires
        tree_inv(root, m, b),
        red_black_but(m, h, z),
        m[z].parent == p,
        p != NIL,
        m[p].right == z,
        m[p].color == COLOR_RED,
        m[p].parent == g,
        g != NIL,
        m[g].right == p,
        !is_red(m, m[g].left),
    ensures
        ({
            let m3 = rotl_map(recolored(recolored(m, p, COLOR_BLACK), g, COLOR_RED), g);
            &&& reds_apart_except(m3, NIL)
            &&& heights_ok(m3, h)
            &&& colors_ok(m3)
            &&& m3[z].parent == p
            &&& m3[p].color == COLOR_BLACK
        }),
{
    let m1 = recolored(recolored(m, p, COLOR_BLACK), g, COLOR_RED);
    lemma_links(root, m, b);
    lemma_node(root, m, b, z);
    lemma_node(root, m, b, p);
    lemma_node(root, m, b, g);
    if m[g].parent != NIL {
        lemma_node(root, m, b, m[g].parent);
    }
    if m[p].left != NIL {
        lemma_node(root, m, b, m[p].left);
    }
    assert(m1.dom() =~= m.dom());
    lemma_same_shape(root, m, m1, b);
    lemma_inv_parts(root, m1, b);
    lemma_rotl_shape(m1, b, g);
    lemma_insert_outer_right(m, h, z, p, g, rotl_map(m1, g));
}

impl RbTree {
    #[verifier::spinoff_prover]
    #[verifier::rlimit(100)]
    fn insert_fixup(&mut self, z0: u32)
        requires
            old(self).wf(),
            old(self).arena@.contains_key(z0),
        ensures
            final(self).wf(),
            same_levels(old(self).arena@, final(self).arena@),
            final(self).spec_capacity() == old(self).spec_capacity(),
            final(self).arena.next_slot() == old(self).arena.next_slot(),
            (exists|h: Map<u32, nat>| red_black_but(old(self).arena@, h, z0)) ==> red_black(
                final(self).root,
                final(self).arena@,
            ),
    {
        let ghost m0 = self.arena@;
        let ghost rb = exists|h: Map<u32, nat>| red_black_but(m0, h, z0);
        let ghost mut h: Map<u32, nat> = if rb {
            choose|h: Map<u32, nat>| red_black_but(m0, h, z0)
        } else {
            Map::empty()
        };
        let mut z = z0;
        proof {
            lemma_inv_parts(self.root, self.arena@, self.bounds@);
            assert(edges_ok(self.arena@, self.bounds@, z));
        }
        while self.arena.get(z).parent != NIL && self.arena.get(self.arena.get(z).parent).color
            == COLOR_RED
            invariant_except_break
                self.wf(),
                self.arena@.contains_key(z),
                edges_ok(self.arena@, self.bounds@, z),
                same_levels(m0, self.arena@),
                self.spec_capacity() == old(self).spec_capacity(),
                self.arena.next_slot() == old(self).arena.next_slot(),
                rb ==> red_black_but(self.arena@, h, z),
            ensures
                self.wf(),
                self.arena@.contains_key(z),
                same_levels(m0, self.arena@),
                self.spec_capacity() == old(self).spec_capacity(),
                self.arena.next_slot() == old(self).arena.next_slot(),
                rb ==> heights_ok(self.arena@, h) && colors_ok(self.arena@) && reds_apart_except(self.arena@, z) && (
                self.arena@[z].parent == NIL || self.arena@[z].parent == self.root || !is_red(
                    self.arena@,
                    self.arena@[z].parent,
                )),
            decreases upper_limit() - lower_limit() - (self.bounds@[z].1 - self.bounds@[z].0),
        {
            let ghost m = self.arena@;
            let ghost b = self.bounds@;
            let parent = self.arena.get(z).parent;
            let grandparent = self.arena.get(parent).parent;
            proof {
                lemma_node(self.root, m, b, parent);
            }
            if grandparent == NIL {
                break;
            }
            proof {
                lemma_inv_parts(self.root, m, b);
                assert(edges_ok(m, b, parent));
                assert(edges_ok(m, b, grandparent));
                lemma_child_distinct(m, b, z);
                lemma_child_distinct(m, b, parent);
                lemma_child_distinct(m, b, grandparent);
            }
            if parent == self.arena.get(grandparent).left {
                let y = self.arena.get(grandparent).right;
                if y != NIL && self.arena.get(y).color == COLOR_RED {
                    proof {
                        if rb {
                            lemma_fix_recolor(self.root, m, b, h, z, parent, grandparent, y);
                        }
                    }
                    self.set_color(parent, COLOR_BLACK);
                    self.set_color(y, COLOR_BLACK);
                    self.set_color(grandparent, COLOR_RED);
                    z = grandparent;
                    proof {
                        h = h.insert(grandparent, h[grandparent] + 1);
                        lemma_inv_parts(self.root, self.arena@, self.bounds@);
                        assert(edges_ok(self.arena@, self.bounds@, z));
                    }
                } else {
                    if z == self.arena.get(parent).right {
                        let ghost z1 = z;
                        z = parent;
                        self.left_rotate(z);
                        proof {
                            if rb {
                                lemma_fix_inner_left(self.root, m, b, h, z1, parent, grandparent);
                            }
                        }
                    }
                    let ghost ma = self.arena@;
                    let ghost ba = self.bounds@;
                    let ghost ra = self.root;
                    let z_parent = self.arena.get(z).parent;
                    let z_grandparent = self.arena.get(z_parent).parent;
                    self.set_color(z_parent, COLOR_BLACK);
                    if z_grandparent != NIL {
                        self.set_color(z_grandparent, COLOR_RED);
                    }
                    self.right_rotate(z_grandparent);
                    proof {
                        if rb {
                            lemma_fix_outer_left(ra, ma, ba, h, z, z_parent, z_grandparent);
                        }
                    }
                    break;
                }
            } else {
                let y = self.arena.get(grandparent).left;
                if y != NIL && self.arena.get(y).color == COLOR_RED {
                    proof {
                        if rb {
                            lemma_fix_recolor(self.root, m, b, h, z, parent, grandparent, y);
                        }
                    }
                    self.set_color(parent, COLOR_BLACK);
                    self.set_color(y, COLOR_BLACK);
                    self.set_color(grandparent, COLOR_RED);
                    z = grandparent;
                    proof {
                        h = h.insert(grandparent, h[grandparent] + 1);
                        lemma_inv_parts(self.root, self.arena@, self.bounds@);
                        assert(edges_ok(self.arena@, self.bounds@, z));
                    }
                } else {
                    if z == self.arena.get(parent).left {
                        let ghost z1 = z;
                        z = parent;
                        self.right_rotate(z);
                        proof {
                            if rb {
                                lemma_fix_inner_right(self.root, m, b, h, z1, parent, grandparent);
                            }
                        }
                    }
                    let ghost ma = self.arena@;
                    let ghost ba = self.bounds@;
                    let ghost ra = self.root;
                    let z_parent = self.arena.get(z).parent;
                    let z_grandparent = self.arena.get(z_parent).parent;
                    self.set_color(z_parent, COLOR_BLACK);
                    if z_grandparent != NIL {
                        self.set_color(z_grandparent, COLOR_RED);
                    }
                    self.left_rotate(z_grandparent);
                    proof {
                        if rb {
                            lemma_fix_outer_right(ra, ma, ba, h, z, z_parent, z_grandparent);
                        }
                    }
                    break;
                }
            }
        }
        let ghost mf = self.arena@;
        proof {
            lemma_inv_parts(self.root, self.arena@, self.bounds@);
            lemma_links(self.root, self.arena@, self.bounds@);
        }
        let r = self.root;
        self.set_color(r, COLOR_BLACK);
        proof {
            if rb {
                lemma_insert_finish(mf, h, z, r);
            }
        }
    }

    /// Adds a level at price `key`, or finds the one that is there.
    #[verifier::rlimit(50)]
    pub fn insert(&mut self, key: i64) -> (r: Option<u32>)
        requires
            old(self).wf(),
        ensures
            final(self).wf(),
            final(self).spec_capacity() == old(self).spec_capacity(),
            old(self).has_key(key) ==> final(self)@ == old(self)@ && (r matches Some(i)
                && old(self)@.contains_key(i) && old(self)@[i].0 == key),
            !old(self).has_key(key) && old(self).is_full() ==> r is None && final(self)@ == old(
                self,
            )@,
            (old(self).has_key(key) || old(self).is_full()) ==> final(self).arena@ == old(
                self,
            ).arena@ && final(self).root == old(self).root && final(self).bounds@ == old(
                self,
            ).bounds@,
            !old(self).has_key(key) && !old(self).is_full() ==> (r matches Some(z)
                && !old(self)@.contains_key(z) && final(self)@ == old(self)@.insert(
                z,
                (key, NIL, NIL, 0u64),
            )),
            red_black(old(self).root, old(self).arena@) ==> red_black(final(self).root, final(self).arena@),
    {
        let ghost m = self.arena@;
        let ghost b = self.bounds@;
        let ghost root0 = self.root;
        proof {
            lemma_inv_parts(self.root, m, b);
            self.lemma_view();
            self.arena.lemma_wf();
        }
        let mut y: u32 = NIL;
        let mut x = self.root;
        while x != NIL
            invariant
                self.wf(),
                m == self.arena@,
                b == self.bounds@,
                root0 == self.root,
                !m.contains_key(NIL),
                edges_all(m, b),
                covers_all(m, b),
                x != NIL ==> m.contains_key(x) && b[x].0 < key < b[x].1,
                y == NIL ==> x == root0,
                y != NIL ==> m.contains_key(y) && b[y].0 < key < b[y].1 && m[y].key != key && x == (
                if key < m[y].key {
                    m[y].left
                } else {
                    m[y].right
                }),
                forall|k: u32|
                    #[trigger] m.contains_key(k) && m[k].key == key ==> x != NIL && m.contains_key(x)
                        && b[x].0 < key < b[x].1,
            decreases (if x == NIL {
                0
            } else {
                b[x].1 - b[x].0
            }),
        {
            let nd = *self.arena.get(x);
            proof {
                assert(edges_ok(m, b, x));
                assert(covers(m, b, x));
                lemma_child_distinct(m, b, x);
            }
            y = x;
            if key < nd.key {
                x = nd.left;
            } else if key > nd.key {
                x = nd.right;
            } else {
                proof {
                    self.lemma_view();
                    assert(self@.contains_key(x));
                }
                return Some(x);
            }
        }
        let z = match self.arena.allocate(RbNode::new(key)) {
            Some(z) => z,
            None => return None,
        };
        let mut nz = *self.arena.get(z);
        nz.parent = y;
        self.arena.set(z, nz);
        if y == NIL {
            self.root = z;
        } else if key < self.arena.get(y).key {
            let mut ny = *self.arena.get(y);
            ny.left = z;
            self.arena.set(y, ny);
        } else {
            let mut ny = *self.arena.get(y);
            ny.right = z;
            self.arena.set(y, ny);
        }
        self.bounds = Ghost(b.insert(z, leaf_bounds(m, b, y, key)));
        let ghost m2 = self.arena@;
        proof {
            self.arena.lemma_wf();
            assert(m2.dom() =~= m.dom().insert(z));
            lemma_insert_leaf(root0, m, b, y, z, key, m2);
            if red_black(root0, m) {
                let h = choose|h: Map<u32, nat>| heights_ok(m, h);
                lemma_links(root0, m, b);
                assert(m2[z].color == COLOR_RED);
                lemma_insert_leaf_rb(m, h, y, z, key, m2);
                assert(red_black_but(m2, h.insert(z, 0), z));
            }
        }
        self.insert_fixup(z);
        proof {
            self.lemma_view();
            assert(self@ =~= old(self)@.insert(z, (key, NIL, NIL, 0u64)));
        }
        Some(z)
    }
}

pub open spec fn sub_bound(v: int, from: int, to: int) -> int {
    if v == from {
        to
    } else {
        v
    }
}

/// Every interval bound equal to `from` becomes `to`.
pub open spec fn sub_bounds(b: Map<u32, (int, int)>, from: int, to: int) -> Map<u32, (int, int)> {
    b.map_values(|iv: (int, int)| (sub_bound(iv.0, from, to), sub_bound(iv.1, from, to)))
}

pub open spec fn with_child(n: RbNode, old_child: u32, new_child: u32) -> RbNode {
    if n.left == old_child {
        RbNode { left: new_child, ..n }
    } else {
        RbNode { right: new_child, ..n }
    }
}

/// The facts that removing `z`, which has two children, rests on: `y` is the node with
/// the next larger key, found at the far left of the right subtree of `z`.
pub open spec fn del2_pre(m: Map<u32, RbNode>, b: Map<u32, (int, int)>, z: u32, y: u32) -> bool {
    let zr = m[z].right;
    &&& m.contains_key(z)
    &&& m[z].left != NIL
    &&& zr != NIL
    &&& m.contains_key(y)
    &&& m[y].left == NIL
    &&& b[y].0 == m[z].key
    &&& b[y].1 <= b[z].1
    &&& y != zr ==> m[y].parent != NIL && m[m[y].parent].left == y
    &&& forall|k: u32| #[trigger] m.contains_key(k) ==> !(m[z].key < m[k].key < m[y].key)
}

/// `mf` is `m` after `y` took the place of `z`, the right child of `y` took the place of
/// `y`, and `z` left the tree.
pub open spec fn del2_shape(m: Map<u32, RbNode>, z: u32, y: u32, mf: Map<u32, RbNode>) -> bool {
    let zl = m[z].left;
    let zr = m[z].right;
    let pz = m[z].parent;
    let x = m[y].right;
    let py = m[y].parent;
    &&& mf.dom() == m.dom().remove(z)
    &&& mf[y] == RbNode {
        left: zl,
        right: if y == zr {
            x
        } else {
            zr
        },
        parent: pz,
        color: m[z].color,
        ..m[y]
    }
    &&& mf[zl] == RbNode { parent: y, ..m[zl] }
    &&& y != zr ==> mf[zr] == RbNode {
        parent: y,
        left: if py == zr {
            x
        } else {
            m[zr].left
        },
        ..m[zr]
    }
    &&& y != zr && py != zr ==> mf[py] == RbNode { left: x, ..m[py] }
    &&& x != NIL ==> mf[x] == RbNode {
        parent: if y == zr {
            y
        } else {
            py
        },
        ..m[x]
    }
    &&& pz != NIL ==> mf[pz] == with_child(m[pz], z, y)
    &&& forall|k: u32|
        #[trigger] mf.contains_key(k) && k != y && k != zl && k != zr && k != py && k != x && k
            != pz ==> mf[k] == m[k]
}

pub open spec fn del2_bounds(m: Map<u32, RbNode>, b: Map<u32, (int, int)>, z: u32, y: u32) -> Map<
    u32,
    (int, int),
> {
    sub_bounds(b, m[z].key as int, m[y].key as int).insert(y, b[z])
}

/// The nodes that the removal touches, and how they sit.
#[verifier::rlimit(30)]
proof fn lemma_del2_facts(m: Map<u32, RbNode>, b: Map<u32, (int, int)>, z: u32, y: u32)
    requires
        edges_all(m, b),
        !m.contains_key(NIL),
        del2_pre(m, b, z, y),
    ensures
        ({
            let zl = m[z].left;
            let zr = m[z].right;
            let pz = m[z].parent;
            let x = m[y].right;
            let py = m[y].parent;
            &&& m.contains_key(zl) && m.contains_key(zr) && m[zl].parent == z && m[zr].parent == z
            &&& b[zl] == (b[z].0, m[z].key as int) && b[zr] == (m[z].key as int, b[z].1)
            &&& b[z].0 < m[z].key < m[y].key < b[y].1 <= b[z].1
            &&& y != z && y != zl && zl != zr && pz != z && pz != y && pz != zl && pz != zr
            &&& pz != NIL ==> m.contains_key(pz) && (m[pz].left == z || m[pz].right == z)
            &&& x != NIL ==> m.contains_key(x) && m[x].parent == y && x != z && x != y && x != zl
                && x != zr && x != pz && x != py && b[x] == (m[y].key as int, b[y].1)
            &&& y == zr ==> py == z && b[y].1 == b[z].1
            &&& y != zr ==> m.contains_key(py) && py != z && py != y && py != zl && py != pz
                && m[py].left == y && b[y] == (b[py].0, m[py].key as int) && b[py].0 == m[z].key
                && m[py].key <= b[z].1
            &&& py != NIL
        }),
{
    let zl = m[z].left;
    let zr = m[z].right;
    let pz = m[z].parent;
    let x = m[y].right;
    let py = m[y].parent;
    assert(edges_ok(m, b, z));
    assert(edges_ok(m, b, zl));
    assert(edges_ok(m, b, zr));
    assert(edges_ok(m, b, y));
    lemma_child_distinct(m, b, z);
    lemma_child_distinct(m, b, zl);
    lemma_child_distinct(m, b, zr);
    lemma_child_distinct(m, b, y);
    if pz != NIL {
        assert(edges_ok(m, b, pz));
        lemma_child_distinct(m, b, pz);
    }
    assert(m.contains_key(y));
    assert(b[y].0 == m[z].key);
    assert(m[y].key > m[z].key);
    assert(y != zl) by {
        assert(m[zl].key < m[z].key);
    }
    if y != zr {
        assert(edges_ok(m, b, py));
        lemma_child_distinct(m, b, py);
        assert(py != z) by {
            if py == z {
                assert(m[z].left == y);
                assert(m[y].key < m[z].key);
            }
        }
        assert(m[py].key > m[y].key);
        assert(py != zl) by {
            assert(m[zl].key < m[z].key);
        }
        assert(py != pz) by {
            if py == pz && pz != NIL {
                if m[pz].left == z {
                    assert(m[pz].left == y);
                } else {
                    assert(b[pz].0 < m[pz].key);
                    assert(b[z].0 == m[pz].key);
                    assert(b[y].0 == b[pz].0);
                }
            }
        }
    } else {
        assert(py == z);
    }
    if x != NIL {
        assert(edges_ok(m, b, x));
        lemma_child_distinct(m, b, x);
        assert(m[x].key > m[y].key);
        assert(x != zl) by {
            assert(m[zl].key < m[z].key);
        }
        assert(x != zr) by {
            if x == zr {
                assert(b[zr].0 == m[z].key);
            }
        }
        assert(x != pz) by {
            if x == pz {
                assert(m[pz].left == z || m[pz].right == z);
                assert(m[x].parent == y);
            }
        }
    }
}

#[verifier::rlimit(60)]
proof fn lemma_del2_edges(
    m: Map<u32, RbNode>,
    b: Map<u32, (int, int)>,
    z: u32,
    y: u32,
    mf: Map<u32, RbNode>,
)
    requires
        edges_all(m, b),
        keys_unique(m),
        !m.contains_key(NIL),
        del2_pre(m, b, z, y),
        del2_shape(m, z, y, mf),
    ensures
        edges_all(mf, del2_bounds(m, b, z, y)),
{
    lemma_del2_facts(m, b, z, y);
    let zl = m[z].left;
    let zr = m[z].right;
    let pz = m[z].parent;
    let x = m[y].right;
    let py = m[y].parent;
    let kz = m[z].key as int;
    let ky = m[y].key as int;
    let bf = del2_bounds(m, b, z, y);
    assert forall|n: u32| #[trigger] m.contains_key(n) && n != y implies bf[n] == (
    sub_bound(b[n].0, kz, ky), sub_bound(b[n].1, kz, ky)) by {
        assert(edges_ok(m, b, n));
    }
    assert(bf[y] == b[z]);
    assert forall|n: u32| #[trigger] mf.contains_key(n) implies edges_ok(mf, bf, n) by {
        assert(m.contains_key(n) && n != z);
        assert(edges_ok(m, b, n));
        let l = m[n].left;
        let r = m[n].right;
        let q = m[n].parent;
        if l != NIL {
            assert(m.contains_key(l));
            assert(edges_ok(m, b, l));
        }
        if r != NIL {
            assert(m.contains_key(r));
            assert(edges_ok(m, b, r));
        }
        if q != NIL {
            assert(m.contains_key(q));
            assert(edges_ok(m, b, q));
        }
        if n != y {
            // no key lies strictly between those of z and y
            assert(!(kz < m[n].key < ky));
        }
        if n == y {
            assert(edges_ok(m, b, z));
            assert(edges_ok(m, b, zl));
            if pz != NIL {
                assert(edges_ok(m, b, pz));
            }
            if y != zr {
                assert(edges_ok(m, b, zr));
            } else if x != NIL {
                assert(edges_ok(m, b, x));
            }
            assert(edges_ok(mf, bf, n));
        } else if n == zl {
            if l != NIL {
                assert(l != y && l != zr && l != py && l != x && l != pz);
            }
            if r != NIL {
                assert(r != y && r != zr && r != py && r != x && r != pz);
            }
            assert(edges_ok(mf, bf, n));
        } else if n == zr {
            assert(y != zr);
            if r != NIL {
                assert(m[r].key > kz);
                assert(r != y && r != zl && r != py && r != x && r != pz);
            }
            if py == zr {
                if x != NIL {
                    assert(edges_ok(m, b, x));
                }
            } else if l != NIL {
                assert(m[l].key > kz);
                assert(l != y && l != zl && l != x && l != pz);
            }
            assert(edges_ok(mf, bf, n));
        } else if n == py {
            if x != NIL {
                assert(edges_ok(m, b, x));
            }
            if r != NIL {
                assert(m[r].key > ky);
                assert(r != y && r != zl && r != zr && r != x && r != pz);
            }
            assert(q != z);
            assert(edges_ok(mf, bf, n));
        } else if n == x {
            if l != NIL {
                assert(l != y && l != zl && l != zr && l != py && l != pz);
            }
            if r != NIL {
                assert(r != y && r != zl && r != zr && r != py && r != pz);
            }
            assert(edges_ok(mf, bf, n));
        } else if n == pz {
            if l != NIL && l != z {
                assert(l != y && l != zl && l != zr && l != py && l != x);
            }
            if r != NIL && r != z {
                assert(r != y && r != zl && r != zr && r != py && r != x);
            }
            assert(edges_ok(mf, bf, n));
        } else {
            assert(mf[n] == m[n]);
            if l != NIL {
                assert(l != z && l != zl && l != zr && l != x);
                if l == y {
                    assert(n == py);
                }
            }
            if r != NIL {
                assert(r != z && r != zl && r != zr && r != x && r != y);
            }
            if q != NIL {
                assert(q != z && q != y);
            }
            assert(edges_ok(mf, bf, n));
        }
    }
}

proof fn lemma_del2_keys(m: Map<u32, RbNode>, b: Map<u32, (int, int)>, z: u32, y: u32, mf: Map<u32, RbNode>)
    requires
        edges_all(m, b),
        !m.contains_key(NIL),
        del2_pre(m, b, z, y),
        del2_shape(m, z, y, mf),
    ensures
        forall|k: u32| #[trigger] mf.contains_key(k) ==> m.contains_key(k) && k != z && mf[k].key == m[k].key && level_of(mf[k]) == level_of(m[k]),
{
    lemma_del2_facts(m, b, z, y);
    let zl = m[z].left;
    let zr = m[z].right;
    let pz = m[z].parent;
    let x = m[y].right;
    let py = m[y].parent;
    assert forall|k: u32| #[trigger] mf.contains_key(k) implies m.contains_key(k) && k != z && mf[k].key == m[k].key && level_of(mf[k]) == level_of(m[k]) by {
        assert(m.dom().remove(z).contains(k));
        if k == y {
        } else if k == zl {
        } else if k == zr {
        } else if k == py {
        } else if k == x {
        } else if k == pz {
        } else {
        }
    }
}

#[verifier::rlimit(60)]
proof fn lemma_del2_covers(
    m: Map<u32, RbNode>,
    b: Map<u32, (int, int)>,
    z: u32,
    y: u32,
    mf: Map<u32, RbNode>,
)
    requires
        edges_all(m, b),
        covers_all(m, b),
        keys_unique(m),
        !m.contains_key(NIL),
        del2_pre(m, b, z, y),
        del2_shape(m, z, y, mf),
    ensures
        covers_all(mf, del2_bounds(m, b, z, y)),
{
    lemma_del2_facts(m, b, z, y);
    lemma_del2_keys(m, b, z, y, mf);
    let zl = m[z].left;
    let zr = m[z].right;
    let pz = m[z].parent;
    let x = m[y].right;
    let py = m[y].parent;
    let kz = m[z].key as int;
    let ky = m[y].key as int;
    let bf = del2_bounds(m, b, z, y);
    assert forall|n: u32| #[trigger] m.contains_key(n) && n != y implies bf[n] == (
    sub_bound(b[n].0, kz, ky), sub_bound(b[n].1, kz, ky)) by {
        assert(edges_ok(m, b, n));
    }
    assert(covers(m, b, z));
    assert(covers(m, b, y));
    assert forall|n: u32| #[trigger] mf.contains_key(n) implies covers(mf, bf, n) by {
        assert(m.contains_key(n));
        assert(covers(m, b, n));
        assert(edges_ok(m, b, n));
        if n == y {
            assert forall|k: u32|
                #[trigger] mf.contains_key(k) && bf[n].0 < mf[k].key < bf[n].1 implies k == n || (
            mf[k].key < mf[n].key && mf[n].left != NIL) || (mf[k].key > mf[n].key
                && mf[n].right != NIL) by {
                assert(m.contains_key(k));
                assert(!(kz < m[k].key < ky));
            }
        } else {
            assert forall|k: u32|
                #[trigger] mf.contains_key(k) && bf[n].0 < mf[k].key < bf[n].1 implies k == n || (
            mf[k].key < mf[n].key && mf[n].left != NIL) || (mf[k].key > mf[n].key
                && mf[n].right != NIL) by {
                assert(m.contains_key(k));
                assert(!(kz < m[k].key < ky));
                assert(b[n].0 < m[k].key < b[n].1);
                if n == py && m[k].key < m[n].key {
                    assert(k != y);
                }
            }
        }
    }
}

/// No bound of an empty slot falls strictly between the keys of `z` and of its successor.
proof fn lemma_del2_gap(m: Map<u32, RbNode>, b: Map<u32, (int, int)>, z: u32, y: u32)
    requires
        edges_all(m, b),
        covers_all(m, b),
        keys_unique(m),
        !m.contains_key(NIL),
        del2_pre(m, b, z, y),
    ensures
        forall|a: u32, sa: bool|
            m.contains_key(a) && #[trigger] slot_empty(m, a, sa) ==> (slot_lo(m, b, a, sa)
                <= m[z].key || slot_lo(m, b, a, sa) >= m[y].key) && (slot_hi(m, b, a, sa)
                <= m[z].key || slot_hi(m, b, a, sa) >= m[y].key),
{
    let kz = m[z].key as int;
    let ky = m[y].key as int;
    assert forall|a: u32, sa: bool|
        m.contains_key(a) && #[trigger] slot_empty(m, a, sa) implies (slot_lo(m, b, a, sa) <= kz
            || slot_lo(m, b, a, sa) >= ky) && (slot_hi(m, b, a, sa) <= kz || slot_hi(m, b, a, sa)
            >= ky) by {
        assert(edges_ok(m, b, a));
        assert(covers(m, b, a));
        assert(!(kz < m[a].key < ky));
        assert(m.contains_key(y) && m.contains_key(z));
        if sa {
            if kz < b[a].0 < ky {
                if m[a].key == ky {
                    assert(a == y);
                }
            }
        } else {
            if kz < b[a].1 < ky {
                if m[a].key == kz {
                    assert(a == z);
                }
            }
        }
    }
}

#[verifier::rlimit(80)]
proof fn lemma_del2_slots(
    m: Map<u32, RbNode>,
    b: Map<u32, (int, int)>,
    z: u32,
    y: u32,
    mf: Map<u32, RbNode>,
)
    requires
        edges_all(m, b),
        covers_all(m, b),
        keys_unique(m),
        slots_disjoint(m, b),
        !m.contains_key(NIL),
        del2_pre(m, b, z, y),
        del2_shape(m, z, y, mf),
    ensures
        slots_disjoint(mf, del2_bounds(m, b, z, y)),
{
    lemma_del2_facts(m, b, z, y);
    lemma_del2_keys(m, b, z, y, mf);
    lemma_del2_gap(m, b, z, y);
    let zl = m[z].left;
    let zr = m[z].right;
    let pz = m[z].parent;
    let x = m[y].right;
    let py = m[y].parent;
    let kz = m[z].key as int;
    let ky = m[y].key as int;
    let bf = del2_bounds(m, b, z, y);
    assert forall|n: u32| #[trigger] m.contains_key(n) && n != y implies bf[n] == (
    sub_bound(b[n].0, kz, ky), sub_bound(b[n].1, kz, ky)) by {
        assert(edges_ok(m, b, n));
    }
    // each empty slot of the new tree comes from one of the old tree, with its bounds
    // substituted
    assert forall|a: u32, sa: bool| mf.contains_key(a) && #[trigger] slot_empty(mf, a, sa) implies ({
        let a0 = if (a == py && sa && y != zr) || (a == y && !sa) {
            y
        } else {
            a
        };
        let s0 = if (a == py && sa && y != zr) || (a == y && !sa) {
            false
        } else {
            sa
        };
        &&& m.contains_key(a0)
        &&& slot_empty(m, a0, s0)
        &&& a0 != z
        &&& slot_lo(mf, bf, a, sa) == sub_bound(slot_lo(m, b, a0, s0), kz, ky)
        &&& slot_hi(mf, bf, a, sa) == sub_bound(slot_hi(m, b, a0, s0), kz, ky)
    }) by {
        assert(m.contains_key(a));
        assert(edges_ok(m, b, a));
        if a == y {
            assert(!sa);
            assert(y == zr);
        } else if a == py && sa && y != zr {
        } else if a == pz {
        } else if a == zr {
        } else {
        }
    }
    assert forall|a: u32, sa: bool, d: u32, sd: bool|
        mf.contains_key(a) && mf.contains_key(d) && #[trigger] slot_empty(mf, a, sa)
            && #[trigger] slot_empty(mf, d, sd) && !(a == d && sa == sd) implies slot_hi(
        mf,
        bf,
        a,
        sa,
    ) <= slot_lo(mf, bf, d, sd) || slot_hi(mf, bf, d, sd) <= slot_lo(mf, bf, a, sa) by {
        let a0 = if (a == py && sa && y != zr) || (a == y && !sa) {
            y
        } else {
            a
        };
        let s0 = if (a == py && sa && y != zr) || (a == y && !sa) {
            false
        } else {
            sa
        };
        let d0 = if (d == py && sd && y != zr) || (d == y && !sd) {
            y
        } else {
            d
        };
        let t0 = if (d == py && sd && y != zr) || (d == y && !sd) {
            false
        } else {
            sd
        };
        assert(slot_empty(m, a0, s0));
        assert(slot_empty(m, d0, t0));
        if a0 == d0 && s0 == t0 {
            if a == py && sa && y != zr {
                assert(d == y && !sd);
                assert(y == zr);
            }
            if d == py && sd && y != zr {
                assert(a == y && !sa);
                assert(y == zr);
            }
        }
    }
}

proof fn lemma_delete_two(root: u32, m: Map<u32, RbNode>, b: Map<u32, (int, int)>, z: u32, y: u32, mf: Map<u32, RbNode>)
    requires
        tree_inv(root, m, b),
        del2_pre(m, b, z, y),
        del2_shape(m, z, y, mf),
    ensures
        tree_inv(if m[z].parent == NIL { y } else { root }, mf, del2_bounds(m, b, z, y)),
        same_levels(m.remove(z), mf),
{
    lemma_inv_parts(root, m, b);
    lemma_del2_facts(m, b, z, y);
    lemma_del2_keys(m, b, z, y, mf);
    lemma_del2_edges(m, b, z, y, mf);
    lemma_del2_covers(m, b, z, y, mf);
    lemma_del2_slots(m, b, z, y, mf);
    let zl = m[z].left;
    let zr = m[z].right;
    let pz = m[z].parent;
    let x = m[y].right;
    let py = m[y].parent;
    let kz = m[z].key as int;
    let ky = m[y].key as int;
    let bf = del2_bounds(m, b, z, y);
    let rootf = if pz == NIL {
        y
    } else {
        root
    };
    assert(edges_ok(m, b, z));
    if pz == NIL {
        assert(z == root);
    } else {
        assert(root != z);
        assert(m.contains_key(root));
        assert(edges_ok(m, b, root));
        assert(root != zl && root != zr && root != y && root != x && root != py);
        assert(mf.contains_key(root));
    }
    assert forall|n: u32| mf.contains_key(n) && #[trigger] mf[n].parent == NIL implies n == rootf by {
        assert(m.contains_key(n));
        if n != y && n != zl && n != zr && n != py && n != x && n != pz {
            assert(m[n].parent == NIL);
        }
        if n == pz {
            assert(m[n].parent == NIL);
        }
        if n == py && n != zr {
            assert(m[n].parent == NIL);
        }
    }
    assert forall|a: u32, d: u32|
        mf.contains_key(a) && mf.contains_key(d) && #[trigger] mf[a].key == #[trigger] mf[d].key
            implies a == d by {
        assert(m[a].key == m[d].key);
    }
    assert(mf.dom() =~= m.remove(z).dom());
    reveal(tree_inv);
}

/// `mf` is `m` after the right child of `z`, which has no left child, took its place.
pub open spec fn dell_shape(m: Map<u32, RbNode>, z: u32, mf: Map<u32, RbNode>) -> bool {
    let zr = m[z].right;
    let pz = m[z].parent;
    &&& mf.dom() == m.dom().remove(z)
    &&& pz != NIL ==> mf[pz] == with_child(m[pz], z, zr)
    &&& zr != NIL ==> mf[zr] == RbNode { parent: pz, ..m[zr] }
    &&& forall|k: u32| #[trigger] mf.contains_key(k) && k != zr && k != pz ==> mf[k] == m[k]
}

pub open spec fn dell_bounds(m: Map<u32, RbNode>, b: Map<u32, (int, int)>, z: u32) -> Map<
    u32,
    (int, int),
> {
    let kz = m[z].key as int;
    let lz = b[z].0;
    b.map_values(|iv: (int, int)| (sub_bound(iv.0, kz, lz), iv.1))
}

#[verifier::rlimit(80)]
proof fn lemma_delete_left_empty(
    root: u32,
    m: Map<u32, RbNode>,
    b: Map<u32, (int, int)>,
    z: u32,
    mf: Map<u32, RbNode>,
)
    requires
        tree_inv(root, m, b),
        m.contains_key(z),
        m[z].left == NIL,
        dell_shape(m, z, mf),
    ensures
        tree_inv(if m[z].parent == NIL { m[z].right } else { root }, mf, dell_bounds(m, b, z)),
        same_levels(m.remove(z), mf),
{
    lemma_inv_parts(root, m, b);
    let zr = m[z].right;
    let pz = m[z].parent;
    let kz = m[z].key as int;
    let lz = b[z].0;
    let bf = dell_bounds(m, b, z);
    let rootf = if pz == NIL {
        zr
    } else {
        root
    };
    assert(edges_ok(m, b, z));
    assert(covers(m, b, z));
    lemma_child_distinct(m, b, z);
    if zr != NIL {
        assert(edges_ok(m, b, zr));
    }
    if pz != NIL {
        assert(edges_ok(m, b, pz));
        lemma_child_distinct(m, b, pz);
        assert(pz != zr);
    }
    assert forall|n: u32| #[trigger] m.contains_key(n) implies bf[n] == (sub_bound(b[n].0, kz, lz), b[n].1) by {
        assert(edges_ok(m, b, n));
    }
    assert forall|k: u32| #[trigger] mf.contains_key(k) implies m.contains_key(k) && k != z && mf[k].key == m[k].key && level_of(mf[k]) == level_of(m[k]) by {
        assert(m.dom().remove(z).contains(k));
    }
    // nothing lies between the lower bound of z and z
    assert forall|k: u32| #[trigger] m.contains_key(k) implies !(lz < m[k].key < kz) by {}
    // links
    assert forall|n: u32| #[trigger] mf.contains_key(n) implies edges_ok(mf, bf, n) by {
        assert(m.contains_key(n) && n != z);
        assert(edges_ok(m, b, n));
        let l = m[n].left;
        let r = m[n].right;
        let q = m[n].parent;
        if l != NIL {
            assert(m.contains_key(l));
            assert(edges_ok(m, b, l));
        }
        if r != NIL {
            assert(m.contains_key(r));
            assert(edges_ok(m, b, r));
        }
        if q != NIL {
            assert(m.contains_key(q));
            assert(edges_ok(m, b, q));
        }
        assert(m[n].key != kz);
        if n == pz {
            assert(edges_ok(mf, bf, n));
        } else if n == zr {
            assert(edges_ok(mf, bf, n));
        } else {
            if l != NIL {
                assert(l != z);
            }
            if r != NIL {
                assert(r != z);
            }
            assert(edges_ok(mf, bf, n));
        }
    }
    // coverage
    assert forall|n: u32| #[trigger] mf.contains_key(n) implies covers(mf, bf, n) by {
        assert(m.contains_key(n));
        assert(covers(m, b, n));
        assert(edges_ok(m, b, n));
        assert forall|k: u32|
            #[trigger] mf.contains_key(k) && bf[n].0 < mf[k].key < bf[n].1 implies k == n || (
        mf[k].key < mf[n].key && mf[n].left != NIL) || (mf[k].key > mf[n].key
            && mf[n].right != NIL) by {
            assert(m.contains_key(k));
            assert(b[n].0 < m[k].key < b[n].1);
        }
    }
    // roots
    if pz == NIL {
        assert(z == root);
        if zr == NIL {
            assert forall|k: u32| !mf.contains_key(k) by {
                if mf.contains_key(k) {
                    assert(m.contains_key(k));
                }
            }
        }
    } else {
        assert(root != z);
        assert(m.contains_key(root));
        assert(root != zr);
        assert(mf.contains_key(root));
    }
    assert forall|n: u32| mf.contains_key(n) && #[trigger] mf[n].parent == NIL implies n == rootf by {
        assert(m.contains_key(n));
        if n != zr {
            assert(m[n].parent == NIL);
        }
    }
    assert forall|a: u32, d: u32|
        mf.contains_key(a) && mf.contains_key(d) && #[trigger] mf[a].key == #[trigger] mf[d].key
            implies a == d by {
        assert(m[a].key == m[d].key);
    }
    // slots: every empty slot but the one left where z hung keeps its place
    assert forall|a: u32, sa: bool|
        m.contains_key(a) && #[trigger] slot_empty(m, a, sa) && !(a == z && sa) implies !(lz
            < slot_lo(m, b, a, sa) < kz) && !(lz < slot_hi(m, b, a, sa) <= kz) && !(slot_lo(
        m,
        b,
        a,
        sa,
    ) < kz < slot_hi(m, b, a, sa)) by {
        assert(edges_ok(m, b, a));
        assert(covers(m, b, a));
        assert(slot_empty(m, z, true));
        if sa && lz < b[a].0 < kz {
            if m[a].key == kz {
                assert(a == z);
            }
        }
    }
    assert forall|a: u32, sa: bool, d: u32, sd: bool|
        mf.contains_key(a) && mf.contains_key(d) && #[trigger] slot_empty(mf, a, sa)
            && #[trigger] slot_empty(mf, d, sd) && !(a == d && sa == sd) implies slot_hi(
        mf,
        bf,
        a,
        sa,
    ) <= slot_lo(mf, bf, d, sd) || slot_hi(mf, bf, d, sd) <= slot_lo(mf, bf, a, sa) by {
        assert(m.contains_key(a) && m.contains_key(d));
        assert(edges_ok(m, b, a));
        assert(edges_ok(m, b, d));
        let ma = a == pz && zr == NIL && (if sa { m[pz].left == z } else { m[pz].right == z });
        let md = d == pz && zr == NIL && (if sd { m[pz].left == z } else { m[pz].right == z });
        if !ma {
            assert(slot_empty(m, a, sa));
        }
        if !md {
            assert(slot_empty(m, d, sd));
        }
        if ma || md {
            assert(slot_empty(m, z, false));
        }
        assert(slot_empty(m, z, true));
    }
    assert(mf.dom() =~= m.remove(z).dom());
    reveal(tree_inv);
}

/// `mf` is `m` after the left child of `z`, which has no right child, took its place.
pub open spec fn delr_shape(m: Map<u32, RbNode>, z: u32, mf: Map<u32, RbNode>) -> bool {
    let zl = m[z].left;
    let pz = m[z].parent;
    &&& mf.dom() == m.dom().remove(z)
    &&& pz != NIL ==> mf[pz] == with_child(m[pz], z, zl)
    &&& zl != NIL ==> mf[zl] == RbNode { parent: pz, ..m[zl] }
    &&& forall|k: u32| #[trigger] mf.contains_key(k) && k != zl && k != pz ==> mf[k] == m[k]
}

pub open spec fn delr_bounds(m: Map<u32, RbNode>, b: Map<u32, (int, int)>, z: u32) -> Map<
    u32,
    (int, int),
> {
    let kz = m[z].key as int;
    let hz = b[z].1;
    b.map_values(|iv: (int, int)| (iv.0, sub_bound(iv.1, kz, hz)))
}

#[verifier::rlimit(80)]
proof fn lemma_delete_right_empty(
    root: u32,
    m: Map<u32, RbNode>,
    b: Map<u32, (int, int)>,
    z: u32,
    mf: Map<u32, RbNode>,
)
    requires
        tree_inv(root, m, b),
        m.contains_key(z),
        m[z].right == NIL,
        delr_shape(m, z, mf),
    ensures
        tree_inv(if m[z].parent == NIL { m[z].left } else { root }, mf, delr_bounds(m, b, z)),
        same_levels(m.remove(z), mf),
{
    lemma_inv_parts(root, m, b);
    let zl = m[z].left;
    let pz = m[z].parent;
    let kz = m[z].key as int;
    let hz = b[z].1;
    let bf = delr_bounds(m, b, z);
    let rootf = if pz == NIL {
        zl
    } else {
        root
    };
    assert(edges_ok(m, b, z));
    assert(covers(m, b, z));
    lemma_child_distinct(m, b, z);
    if zl != NIL {
        assert(edges_ok(m, b, zl));
    }
    if pz != NIL {
        assert(edges_ok(m, b, pz));
        lemma_child_distinct(m, b, pz);
        assert(pz != zl);
    }
    assert forall|n: u32| #[trigger] m.contains_key(n) implies bf[n] == (b[n].0, sub_bound(b[n].1, kz, hz)) by {
        assert(edges_ok(m, b, n));
    }
    assert forall|k: u32| #[trigger] mf.contains_key(k) implies m.contains_key(k) && k != z && mf[k].key == m[k].key && level_of(mf[k]) == level_of(m[k]) by {
        assert(m.dom().remove(z).contains(k));
    }
    // nothing lies between the lower bound of z and z
    assert forall|k: u32| #[trigger] m.contains_key(k) implies !(kz < m[k].key < hz) by {}
    // links
    assert forall|n: u32| #[trigger] mf.contains_key(n) implies edges_ok(mf, bf, n) by {
        assert(m.contains_key(n) && n != z);
        assert(edges_ok(m, b, n));
        let l = m[n].left;
        let r = m[n].right;
        let q = m[n].parent;
        if l != NIL {
            assert(m.contains_key(l));
            assert(edges_ok(m, b, l));
        }
        if r != NIL {
            assert(m.contains_key(r));
            assert(edges_ok(m, b, r));
        }
        if q != NIL {
            assert(m.contains_key(q));
            assert(edges_ok(m, b, q));
        }
        assert(m[n].key != kz);
        if n == pz {
            assert(edges_ok(mf, bf, n));
        } else if n == zl {
            assert(edges_ok(mf, bf, n));
        } else {
            if l != NIL {
                assert(l != z);
            }
            if r != NIL {
                assert(r != z);
            }
            assert(edges_ok(mf, bf, n));
        }
    }
    // coverage
    assert forall|n: u32| #[trigger] mf.contains_key(n) implies covers(mf, bf, n) by {
        assert(m.contains_key(n));
        assert(covers(m, b, n));
        assert(edges_ok(m, b, n));
        assert forall|k: u32|
            #[trigger] mf.contains_key(k) && bf[n].0 < mf[k].key < bf[n].1 implies k == n || (
        mf[k].key < mf[n].key && mf[n].left != NIL) || (mf[k].key > mf[n].key
            && mf[n].right != NIL) by {
            assert(m.contains_key(k));
            assert(b[n].0 < m[k].key < b[n].1);
        }
    }
    // roots
    if pz == NIL {
        assert(z == root);
        if zl == NIL {
            assert forall|k: u32| !mf.contains_key(k) by {
                if mf.contains_key(k) {
                    assert(m.contains_key(k));
                }
            }
        }
    } else {
        assert(root != z);
        assert(m.contains_key(root));
        assert(root != zl);
        assert(mf.contains_key(root));
    }
    assert forall|n: u32| mf.contains_key(n) && #[trigger] mf[n].parent == NIL implies n == rootf by {
        assert(m.contains_key(n));
        if n != zl {
            assert(m[n].parent == NIL);
        }
    }
    assert forall|a: u32, d: u32|
        mf.contains_key(a) && mf.contains_key(d) && #[trigger] mf[a].key == #[trigger] mf[d].key
            implies a == d by {
        assert(m[a].key == m[d].key);
    }
    // slots: every empty slot but the one left where z hung keeps its place
    assert forall|a: u32, sa: bool|
        m.contains_key(a) && #[trigger] slot_empty(m, a, sa) && !(a == z && !sa) implies !(kz
            < slot_hi(m, b, a, sa) < hz) && !(kz <= slot_lo(m, b, a, sa) < hz) && !(slot_lo(
        m,
        b,
        a,
        sa,
    ) < kz < slot_hi(m, b, a, sa)) by {
        assert(edges_ok(m, b, a));
        assert(covers(m, b, a));
        assert(slot_empty(m, z, false));
        if !sa && kz < b[a].1 < hz {
            if m[a].key == kz {
                assert(a == z);
            }
        }
    }
    assert forall|a: u32, sa: bool, d: u32, sd: bool|
        mf.contains_key(a) && mf.contains_key(d) && #[trigger] slot_empty(mf, a, sa)
            && #[trigger] slot_empty(mf, d, sd) && !(a == d && sa == sd) implies slot_hi(
        mf,
        bf,
        a,
        sa,
    ) <= slot_lo(mf, bf, d, sd) || slot_hi(mf, bf, d, sd) <= slot_lo(mf, bf, a, sa) by {
        assert(m.contains_key(a) && m.contains_key(d));
        assert(edges_ok(m, b, a));
        assert(edges_ok(m, b, d));
        let ma = a == pz && zl == NIL && (if sa { m[pz].left == z } else { m[pz].right == z });
        let md = d == pz && zl == NIL && (if sd { m[pz].left == z } else { m[pz].right == z });
        if !ma {
            assert(slot_empty(m, a, sa));
        }
        if !md {
            assert(slot_empty(m, d, sd));
        }
        if ma || md {
            assert(slot_empty(m, z, true));
        }
        assert(slot_empty(m, z, false));
    }
    assert(mf.dom() =~= m.remove(z).dom());
    reveal(tree_inv);
}

pub open spec fn transplant_map(m: Map<u32, RbNode>, u: u32, v: u32) -> Map<u32, RbNode> {
    let p = m[u].parent;
    let m1 = if p == NIL {
        m
    } else {
        m.insert(p, with_child(m[p], u, v))
    };
    if v == NIL {
        m1
    } else {
        m1.insert(v, RbNode { parent: p, ..m1[v] })
    }
}

impl RbTree {
    /// Puts `v` where `u` hangs: the parent of `u` (or the root) now points to `v`.
    fn transplant(&mut self, u: u32, v: u32)
        requires
            old(self).arena.wf(),
            old(self).arena@.contains_key(u),
            v == NIL || old(self).arena@.contains_key(v),
            old(self).arena@[u].parent != NIL ==> old(self).arena@.contains_key(
                old(self).arena@[u].parent,
            ),
        ensures
            final(self).arena.wf(),
            final(self).arena@ == transplant_map(old(self).arena@, u, v),
            final(self).root == (if old(self).arena@[u].parent == NIL {
                v
            } else {
                old(self).root
            }),
            final(self).bounds == old(self).bounds,
            final(self).arena.spec_capacity() == old(self).arena.spec_capacity(),
            final(self).arena.next_slot() == old(self).arena.next_slot(),
    {
        let ghost m = self.arena@;
        let u_parent = self.arena.get(u).parent;
        if u_parent == NIL {
            self.root = v;
        } else if u == self.arena.get(u_parent).left {
            let mut np = *self.arena.get(u_parent);
            np.left = v;
            self.arena.set(u_parent, np);
        } else {
            let mut np = *self.arena.get(u_parent);
            np.right = v;
            self.arena.set(u_parent, np);
        }
        if v != NIL {
            let mut nv = *self.arena.get(v);
            nv.parent = u_parent;
            self.arena.set(v, nv);
        }
        proof {
            assert(self.arena@ =~= transplant_map(m, u, v));
        }
    }
}

/// `n` is empty or black.
pub open spec fn black_or_nil(m: Map<u32, RbNode>, n: u32) -> bool {
    n == NIL || m[n].color == COLOR_BLACK
}

/// The sibling of the node below `xp` on side `left` once a red sibling has been
/// rotated up: the sibling's inner child in that case, the sibling otherwise.
pub open spec fn fix_sibling(m: Map<u32, RbNode>, xp: u32, left: bool) -> u32 {
    let w0 = if left {
        m[xp].right
    } else {
        m[xp].left
    };
    if w0 != NIL && m[w0].color == COLOR_RED {
        if left {
            m[w0].left
        } else {
            m[w0].right
        }
    } else {
        w0
    }
}

/// What one step of the removal fix-up gives back: nothing where that sibling is
/// missing, the parent where both of the sibling's children are black (the shortage
/// moves up), and otherwise the root (the shortage is repaired).
pub open spec fn fix_step_result(m: Map<u32, RbNode>, xp: u32, left: bool, root: u32) -> Option<
    u32,
> {
    let w = fix_sibling(m, xp, left);
    if w == NIL {
        None
    } else if black_or_nil(m, m[w].left) && black_or_nil(m, m[w].right) {
        Some(xp)
    } else {
        Some(root)
    }
}

/// Every node is red or black.
pub open spec fn colors_ok(m: Map<u32, RbNode>) -> bool {
    forall|n: u32| #[trigger] m.contains_key(n) ==> m[n].color == COLOR_RED || m[n].color == COLOR_BLACK
}

/// Black heights agree everywhere but below the parent of `x`, where the side of `x`
/// has one black node fewer.
pub open spec fn heights_short(m: Map<u32, RbNode>, h: Map<u32, nat>, x: u32) -> bool {
    forall|n: u32|
        #[trigger] m.contains_key(n) ==> black_height(m, h, m[n].left) + (if m[n].left == x {
            1int
        } else {
            0int
        }) == h[n] && black_height(m, h, m[n].right) + (if m[n].right == x {
            1int
        } else {
            0int
        }) == h[n]
}

/// No red node has a red child, but where `x` is one of the two.
pub open spec fn reds_apart_near(m: Map<u32, RbNode>, x: u32) -> bool {
    forall|n: u32|
        #[trigger] m.contains_key(n) && m[n].color == COLOR_RED ==> (is_red(m, m[n].left) ==> n
            == x || m[n].left == x) && (is_red(m, m[n].right) ==> n == x || m[n].right == x)
}

/// The red-black rules but for the path through `x`, which is one black node short,
/// and for a red `x` next to a red node; the root is black unless it is `x`.
#[verifier::opaque]
pub open spec fn short_at(root: u32, m: Map<u32, RbNode>, h: Map<u32, nat>, x: u32) -> bool {
    &&& colors_ok(m)
    &&& heights_short(m, h, x)
    &&& reds_apart_near(m, x)
    &&& is_red(m, root) ==> x == root
}

/// A red sibling: recoloring it black and the parent red and rotating at the parent
/// gives `x` a black sibling, with the shortage still at `x`.
#[verifier::spinoff_prover]
#[verifier::rlimit(40)]
proof fn lemma_del_red_sibling_left(
    m: Map<u32, RbNode>,
    h: Map<u32, nat>,
    root: u32,
    x: u32,
    xp: u32,
    m3: Map<u32, RbNode>,
)
    requires
        links_ok(m),
        short_at(root, m, h, x),
        m.contains_key(x),
        m.contains_key(root),
        m[root].parent == NIL,
        m[x].color == COLOR_BLACK,
        x != root,
        m[x].parent == xp,
        xp != NIL,
        m[xp].left == x,
        is_red(m, m[xp].right),
        m[xp].parent != m[xp].right && m[xp].parent != x,
        m[m[xp].right].left != xp && m[m[xp].right].right != xp,
        m[xp].parent != NIL ==> m[m[xp].right].left != m[xp].parent && m[m[xp].right].right
            != m[xp].parent,
        m[xp].parent == NIL ==> xp == root,
        rotl_ready(
            recolored(recolored(m, m[xp].right, COLOR_BLACK), xp, COLOR_RED),
            xp,
        ),
        rotl_shape(
            recolored(recolored(m, m[xp].right, COLOR_BLACK), xp, COLOR_RED),
            xp,
            m3,
        ),
    ensures
        short_at(
            rot_root(
                recolored(recolored(m, m[xp].right, COLOR_BLACK), xp, COLOR_RED),
                root,
                xp,
                m[xp].right,
            ),
            m3,
            h,
            x,
        ),
        m3[x].parent == xp,
        m3[xp].left == x,
        m3[xp].right != NIL,
        !is_red(m3, m3[xp].right),
        rot_root(
            recolored(recolored(m, m[xp].right, COLOR_BLACK), xp, COLOR_RED),
            root,
            xp,
            m[xp].right,
        ) != x,
{
    reveal(short_at);
    let w = m[xp].right;
    let wl = m[w].left;
    let wr = m[w].right;
    let q = m[xp].parent;
    let m1 = recolored(recolored(m, w, COLOR_BLACK), xp, COLOR_RED);
    let root2 = rot_root(m1, root, xp, w);
    assert(m.contains_key(xp) && m.contains_key(w));
    assert(w != x && w != xp && x != xp);
    assert(m[xp].color != COLOR_RED);
    assert(h[w] == h[xp]);
    assert(black_height(m, h, x) >= 1);
    assert(wl != NIL);
    assert(m.contains_key(wl) && wl != x && wl != w && wl != xp);
    assert(!is_red(m, wl) && !is_red(m, wr));
    assert(m1[xp].right == w && m1[w].left == wl && m1[xp].parent == q);
    assert(m3.contains_key(x) && x != q && x != wl);
    assert(m3[x] == m1[x]);
    assert(m3.contains_key(wl));
    assert forall|n: u32| #[trigger] m3.contains_key(n) implies black_height(m3, h, m3[n].left)
        + (if m3[n].left == x {
        1int
    } else {
        0int
    }) == h[n] && black_height(m3, h, m3[n].right) + (if m3[n].right == x {
        1int
    } else {
        0int
    }) == h[n] by {
        assert(m.contains_key(n));
        let l = m[n].left;
        let r = m[n].right;
        if n != xp && n != w && n != wl && n != q {
            assert(l != xp && l != w && r != xp && r != w);
            assert(m3[n] == m[n]);
        }
        if l != NIL {
            assert(m3.contains_key(l));
        }
        if r != NIL {
            assert(m3.contains_key(r));
        }
    }
    assert forall|n: u32| #[trigger] m3.contains_key(n) implies m3[n].color == COLOR_RED
        || m3[n].color == COLOR_BLACK by {
        assert(m.contains_key(n));
    }
    assert forall|n: u32| #[trigger] m3.contains_key(n) && m3[n].color == COLOR_RED implies (
    is_red(m3, m3[n].left) ==> n == x || m3[n].left == x) && (is_red(m3, m3[n].right) ==> n
        == x || m3[n].right == x) by {
        assert(m.contains_key(n));
        let l = m[n].left;
        let r = m[n].right;
        if n != xp && n != w && n != wl && n != q {
            assert(l != xp && l != w && r != xp && r != w);
            assert(m3[n] == m[n]);
        }
    }
    if is_red(m3, root2) {
        if q == NIL {
            assert(root2 == w);
        } else {
            assert(root2 == root);
            assert(root != xp && root != w && root != wl);
            assert(m3.contains_key(root));
        }
    }
}

/// A black sibling with no red child: recoloring it red moves the shortage up to the
/// parent.
#[verifier::spinoff_prover]
#[verifier::rlimit(40)]
proof fn lemma_del_recolor_sibling(
    m: Map<u32, RbNode>,
    h: Map<u32, nat>,
    root: u32,
    x: u32,
    xp: u32,
    w: u32,
)
    requires
        links_ok(m),
        short_at(root, m, h, x),
        m.contains_key(x),
        m.contains_key(root),
        m[root].parent == NIL,
        m[x].color == COLOR_BLACK,
        x != root,
        m[x].parent == xp,
        xp != NIL,
        (m[xp].left == x && m[xp].right == w) || (m[xp].right == x && m[xp].left == w),
        w != NIL,
        !is_red(m, w),
        !is_red(m, m[w].left),
        !is_red(m, m[w].right),
    ensures
        short_at(root, recolored(m, w, COLOR_RED), h.insert(xp, (h[xp] - 1) as nat), xp),
{
    reveal(short_at);
    let m2 = recolored(m, w, COLOR_RED);
    let h2 = h.insert(xp, (h[xp] - 1) as nat);
    assert(m.contains_key(xp) && m.contains_key(w) && w != x && w != xp && x != xp);
    assert(h[xp] >= 1);
    assert(m2.dom() =~= m.dom());
    assert forall|n: u32| #[trigger] m2.contains_key(n) implies black_height(m2, h2, m2[n].left)
        + (if m2[n].left == xp {
        1int
    } else {
        0int
    }) == h2[n] && black_height(m2, h2, m2[n].right) + (if m2[n].right == xp {
        1int
    } else {
        0int
    }) == h2[n] by {
        assert(m.contains_key(n));
        let l = m[n].left;
        let r = m[n].right;
        if n != xp {
            assert(l != x && r != x);
            assert(l != w && r != w);
        }
    }
    assert forall|n: u32| #[trigger] m2.contains_key(n) implies m2[n].color == COLOR_RED
        || m2[n].color == COLOR_BLACK by {
        assert(m.contains_key(n));
    }
    assert forall|n: u32| #[trigger] m2.contains_key(n) && m2[n].color == COLOR_RED implies (
    is_red(m2, m2[n].left) ==> n == xp || m2[n].left == xp) && (is_red(m2, m2[n].right) ==> n
        == xp || m2[n].right == xp) by {
        assert(m.contains_key(n));
        let l = m[n].left;
        let r = m[n].right;
        if n != xp && n != w {
            assert(l != w && r != w);
            assert(l != x && r != x);
        }
    }
    if is_red(m2, root) {
        assert(root != w);
        assert(x == root);
    }
}

/// A black sibling whose outer (right) child is black and inner child red: recoloring
/// and rotating right at the sibling makes the outer child red.
#[verifier::spinoff_prover]
#[verifier::rlimit(40)]
proof fn lemma_del_inner_left(
    m: Map<u32, RbNode>,
    h: Map<u32, nat>,
    root: u32,
    x: u32,
    xp: u32,
    m3: Map<u32, RbNode>,
)
    requires
        links_ok(m),
        short_at(root, m, h, x),
        m.contains_key(x),
        m.contains_key(root),
        m[root].parent == NIL,
        m[x].color == COLOR_BLACK,
        x != root,
        m[x].parent == xp,
        xp != NIL,
        m[xp].left == x,
        m[xp].right != NIL,
        !is_red(m, m[xp].right),
        is_red(m, m[m[xp].right].left),
        !is_red(m, m[m[xp].right].right),
        m[m[m[xp].right].left].left != xp && m[m[m[xp].right].left].right != xp,
        rotr_ready(
            recolored(recolored(m, m[m[xp].right].left, COLOR_BLACK), m[xp].right, COLOR_RED),
            m[xp].right,
        ),
        rotr_shape(
            recolored(recolored(m, m[m[xp].right].left, COLOR_BLACK), m[xp].right, COLOR_RED),
            m[xp].right,
            m3,
        ),
    ensures
        short_at(root, m3, h, x),
        m3[x].parent == xp,
        m3[xp].left == x,
        m3[xp].right == m[m[xp].right].left,
        m3[xp].right != NIL,
        !is_red(m3, m3[xp].right),
        is_red(m3, m3[m3[xp].right].right),
{
    reveal(short_at);
    let w = m[xp].right;
    let wl = m[w].left;
    let wr = m[w].right;
    let m1 = recolored(recolored(m, wl, COLOR_BLACK), w, COLOR_RED);
    assert(m.contains_key(xp) && m.contains_key(w) && m.contains_key(wl));
    assert(w != x && w != xp && x != xp && wl != x && wl != xp && wl != w);
    assert(h[wl] == h[w]);
    assert(m1[w].left == wl && m1[wl].right == m[wl].right && m1[w].parent == xp);
    assert(m[wl].right != x && m[wl].right != w && m[wl].right != xp);
    assert(m3.contains_key(x));
    assert(m3[x] == m1[x]);
    assert forall|n: u32| #[trigger] m3.contains_key(n) implies black_height(m3, h, m3[n].left)
        + (if m3[n].left == x {
        1int
    } else {
        0int
    }) == h[n] && black_height(m3, h, m3[n].right) + (if m3[n].right == x {
        1int
    } else {
        0int
    }) == h[n] by {
        assert(m.contains_key(n));
        let l = m[n].left;
        let r = m[n].right;
        if n != xp && n != w && n != wl && n != m[wl].right {
            assert(l != wl && l != w && r != wl && r != w);
            assert(m3[n] == m[n]);
        }
        if l != NIL {
            assert(m3.contains_key(l));
        }
        if r != NIL {
            assert(m3.contains_key(r));
        }
    }
    assert forall|n: u32| #[trigger] m3.contains_key(n) implies m3[n].color == COLOR_RED
        || m3[n].color == COLOR_BLACK by {
        assert(m.contains_key(n));
    }
    assert forall|n: u32| #[trigger] m3.contains_key(n) && m3[n].color == COLOR_RED implies (
    is_red(m3, m3[n].left) ==> n == x || m3[n].left == x) && (is_red(m3, m3[n].right) ==> n
        == x || m3[n].right == x) by {
        assert(m.contains_key(n));
        let l = m[n].left;
        let r = m[n].right;
        if n != xp && n != w && n != wl && n != m[wl].right {
            assert(l != wl && l != w && r != wl && r != w);
            assert(m3[n] == m[n]);
        }
    }
    if is_red(m3, root) {
        assert(m3.contains_key(root));
        assert(root != w && root != wl);
    }
}

/// A black sibling with a red outer (right) child: the sibling takes the parent's color,
/// the parent and that child turn black, and a left rotation at the parent restores the
/// rules.
#[verifier::spinoff_prover]
#[verifier::rlimit(40)]
proof fn lemma_del_outer_left(
    m: Map<u32, RbNode>,
    h: Map<u32, nat>,
    root: u32,
    x: u32,
    xp: u32,
    m4: Map<u32, RbNode>,
)
    requires
        links_ok(m),
        short_at(root, m, h, x),
        m.contains_key(x),
        m.contains_key(root),
        m[root].parent == NIL,
        m[x].color == COLOR_BLACK,
        x != root,
        m[x].parent == xp,
        xp != NIL,
        m[xp].left == x,
        m[xp].right != NIL,
        !is_red(m, m[xp].right),
        is_red(m, m[m[xp].right].right),
        m[xp].parent != m[xp].right && m[xp].parent != x,
        m[m[xp].right].left != xp && m[m[xp].right].right != xp,
        m[xp].parent != NIL ==> m[m[xp].right].left != m[xp].parent && m[m[xp].right].right
            != m[xp].parent,
        m[xp].parent == NIL ==> xp == root,
        rotl_ready(
            recolored(
                recolored(recolored(m, m[xp].right, m[xp].color), xp, COLOR_BLACK),
                m[m[xp].right].right,
                COLOR_BLACK,
            ),
            xp,
        ),
        rotl_shape(
            recolored(
                recolored(recolored(m, m[xp].right, m[xp].color), xp, COLOR_BLACK),
                m[m[xp].right].right,
                COLOR_BLACK,
            ),
            xp,
            m4,
        ),
    ensures
        ({
            let m2 = recolored(
                recolored(recolored(m, m[xp].right, m[xp].color), xp, COLOR_BLACK),
                m[m[xp].right].right,
                COLOR_BLACK,
            );
            let r2 = rot_root(m2, root, xp, m[xp].right);
            short_at(r2, m4, h.insert(xp, (h[xp] - 1) as nat).insert(m[xp].right, h[xp]), r2)
        }),
{
    reveal(short_at);
    let w = m[xp].right;
    let wl = m[w].left;
    let wr = m[w].right;
    let q = m[xp].parent;
    let m2 = recolored(recolored(recolored(m, w, m[xp].color), xp, COLOR_BLACK), wr, COLOR_BLACK);
    let r2 = rot_root(m2, root, xp, w);
    let h2 = h.insert(xp, (h[xp] - 1) as nat).insert(w, h[xp]);
    assert(m.contains_key(xp) && m.contains_key(w) && m.contains_key(wr));
    assert(w != x && w != xp && x != xp && wr != x && wr != xp && wr != w);
    assert(wl != x && wl != w);
    assert(h[xp] >= 1);
    assert(h[wr] == h[w] && h[w] + 1 == h[xp]);
    assert(m2[xp].right == w && m2[w].left == wl && m2[xp].parent == q);
    assert(root != w && root != wr && root != x);
    assert(m4.contains_key(r2));
    if q == NIL {
        assert(r2 == w && m4[w].parent == NIL);
    } else {
        assert(r2 == root && root != xp);
        assert(m4[root].parent == NIL);
    }
    assert forall|n: u32| #[trigger] m4.contains_key(n) implies black_height(m4, h2, m4[n].left)
        + (if m4[n].left == r2 {
        1int
    } else {
        0int
    }) == h2[n] && black_height(m4, h2, m4[n].right) + (if m4[n].right == r2 {
        1int
    } else {
        0int
    }) == h2[n] by {
        assert(m.contains_key(n));
        let l = m[n].left;
        let r = m[n].right;
        if n != xp && n != w && n != wl && n != q && n != wr {
            assert(l != xp && l != w && r != xp && r != w);
            assert(l != wr && r != wr);
            assert(m4[n] == m[n]);
        }
        if l != NIL {
            assert(m4.contains_key(l));
        }
        if r != NIL {
            assert(m4.contains_key(r));
        }
    }
    assert forall|n: u32| #[trigger] m4.contains_key(n) implies m4[n].color == COLOR_RED
        || m4[n].color == COLOR_BLACK by {
        assert(m.contains_key(n));
    }
    assert forall|n: u32| #[trigger] m4.contains_key(n) && m4[n].color == COLOR_RED implies (
    is_red(m4, m4[n].left) ==> n == r2 || m4[n].left == r2) && (is_red(m4, m4[n].right) ==> n
        == r2 || m4[n].right == r2) by {
        assert(m.contains_key(n));
        let l = m[n].left;
        let r = m[n].right;
        if n != xp && n != w && n != wl && n != q && n != wr {
            assert(l != xp && l != w && r != xp && r != w);
            assert(l != wr && r != wr);
            assert(m4[n] == m[n]);
        }
    }
}

/// A red sibling: recoloring it black and the parent red and rotating at the parent
/// gives `x` a black sibling, with the shortage still at `x`.
#[verifier::spinoff_prover]
#[verifier::rlimit(40)]
proof fn lemma_del_red_sibling_right(
    m: Map<u32, RbNode>,
    h: Map<u32, nat>,
    root: u32,
    x: u32,
    xp: u32,
    m3: Map<u32, RbNode>,
)
    requires
        links_ok(m),
        short_at(root, m, h, x),
        m.contains_key(x),
        m.contains_key(root),
        m[root].parent == NIL,
        m[x].color == COLOR_BLACK,
        x != root,
        m[x].parent == xp,
        xp != NIL,
        m[xp].right == x,
        is_red(m, m[xp].left),
        m[xp].parent != m[xp].left && m[xp].parent != x,
        m[m[xp].left].right != xp && m[m[xp].left].left != xp,
        m[xp].parent != NIL ==> m[m[xp].left].right != m[xp].parent && m[m[xp].left].left
            != m[xp].parent,
        m[xp].parent == NIL ==> xp == root,
        rotr_ready(
            recolored(recolored(m, m[xp].left, COLOR_BLACK), xp, COLOR_RED),
            xp,
        ),
        rotr_shape(
            recolored(recolored(m, m[xp].left, COLOR_BLACK), xp, COLOR_RED),
            xp,
            m3,
        ),
    ensures
        short_at(
            rot_root(
                recolored(recolored(m, m[xp].left, COLOR_BLACK), xp, COLOR_RED),
                root,
                xp,
                m[xp].left,
            ),
            m3,
            h,
            x,
        ),
        m3[x].parent == xp,
        m3[xp].right == x,
        m3[xp].left != NIL,
        !is_red(m3, m3[xp].left),
        rot_root(
            recolored(recolored(m, m[xp].left, COLOR_BLACK), xp, COLOR_RED),
            root,
            xp,
            m[xp].left,
        ) != x,
{
    reveal(short_at);
    let w = m[xp].left;
    let wl = m[w].right;
    let wr = m[w].left;
    let q = m[xp].parent;
    let m1 = recolored(recolored(m, w, COLOR_BLACK), xp, COLOR_RED);
    let root2 = rot_root(m1, root, xp, w);
    assert(m.contains_key(xp) && m.contains_key(w));
    assert(w != x && w != xp && x != xp);
    assert(m[xp].color != COLOR_RED);
    assert(h[w] == h[xp]);
    assert(black_height(m, h, x) >= 1);
    assert(wl != NIL);
    assert(m.contains_key(wl) && wl != x && wl != w && wl != xp);
    assert(!is_red(m, wl) && !is_red(m, wr));
    assert(m1[xp].left == w && m1[w].right == wl && m1[xp].parent == q);
    assert(m3.contains_key(x) && x != q && x != wl);
    assert(m3[x] == m1[x]);
    assert(m3.contains_key(wl));
    assert forall|n: u32| #[trigger] m3.contains_key(n) implies black_height(m3, h, m3[n].right)
        + (if m3[n].right == x {
        1int
    } else {
        0int
    }) == h[n] && black_height(m3, h, m3[n].left) + (if m3[n].left == x {
        1int
    } else {
        0int
    }) == h[n] by {
        assert(m.contains_key(n));
        let l = m[n].right;
        let r = m[n].left;
        if n != xp && n != w && n != wl && n != q {
            assert(l != xp && l != w && r != xp && r != w);
            assert(m3[n] == m[n]);
        }
        if l != NIL {
            assert(m3.contains_key(l));
        }
        if r != NIL {
            assert(m3.contains_key(r));
        }
    }
    assert forall|n: u32| #[trigger] m3.contains_key(n) implies m3[n].color == COLOR_RED
        || m3[n].color == COLOR_BLACK by {
        assert(m.contains_key(n));
    }
    assert forall|n: u32| #[trigger] m3.contains_key(n) && m3[n].color == COLOR_RED implies (
    is_red(m3, m3[n].right) ==> n == x || m3[n].right == x) && (is_red(m3, m3[n].left) ==> n
        == x || m3[n].left == x) by {
        assert(m.contains_key(n));
        let l = m[n].right;
        let r = m[n].left;
        if n != xp && n != w && n != wl && n != q {
            assert(l != xp && l != w && r != xp && r != w);
            assert(m3[n] == m[n]);
        }
    }
    if is_red(m3, root2) {
        if q == NIL {
            assert(root2 == w);
        } else {
            assert(root2 == root);
            assert(root != xp && root != w && root != wl);
            assert(m3.contains_key(root));
        }
    }
}

/// A black sibling whose outer (left) child is black and inner child red: recoloring
/// and rotating left at the sibling makes the outer child red.
#[verifier::spinoff_prover]
#[verifier::rlimit(40)]
proof fn lemma_del_inner_right(
    m: Map<u32, RbNode>,
    h: Map<u32, nat>,
    root: u32,
    x: u32,
    xp: u32,
    m3: Map<u32, RbNode>,
)
    requires
        links_ok(m),
        short_at(root, m, h, x),
        m.contains_key(x),
        m.contains_key(root),
        m[root].parent == NIL,
        m[x].color == COLOR_BLACK,
        x != root,
        m[x].parent == xp,
        xp != NIL,
        m[xp].right == x,
        m[xp].left != NIL,
        !is_red(m, m[xp].left),
        is_red(m, m[m[xp].left].right),
        !is_red(m, m[m[xp].left].left),
        m[m[m[xp].left].right].right != xp && m[m[m[xp].left].right].left != xp,
        rotl_ready(
            recolored(recolored(m, m[m[xp].left].right, COLOR_BLACK), m[xp].left, COLOR_RED),
            m[xp].left,
        ),
        rotl_shape(
            recolored(recolored(m, m[m[xp].left].right, COLOR_BLACK), m[xp].left, COLOR_RED),
            m[xp].left,
            m3,
        ),
    ensures
        short_at(root, m3, h, x),
        m3[x].parent == xp,
        m3[xp].right == x,
        m3[xp].left == m[m[xp].left].right,
        m3[xp].left != NIL,
        !is_red(m3, m3[xp].left),
        is_red(m3, m3[m3[xp].left].left),
{
    reveal(short_at);
    let w = m[xp].left;
    let wl = m[w].right;
    let wr = m[w].left;
    let m1 = recolored(recolored(m, wl, COLOR_BLACK), w, COLOR_RED);
    assert(m.contains_key(xp) && m.contains_key(w) && m.contains_key(wl));
    assert(w != x && w != xp && x != xp && wl != x && wl != xp && wl != w);
    assert(h[wl] == h[w]);
    assert(m1[w].right == wl && m1[wl].left == m[wl].left && m1[w].parent == xp);
    assert(m[wl].left != x && m[wl].left != w && m[wl].left != xp);
    assert(m3.contains_key(x));
    assert(m3[x] == m1[x]);
    assert forall|n: u32| #[trigger] m3.contains_key(n) implies black_height(m3, h, m3[n].right)
        + (if m3[n].right == x {
        1int
    } else {
        0int
    }) == h[n] && black_height(m3, h, m3[n].left) + (if m3[n].left == x {
        1int
    } else {
        0int
    }) == h[n] by {
        assert(m.contains_key(n));
        let l = m[n].right;
        let r = m[n].left;
        if n != xp && n != w && n != wl && n != m[wl].left {
            assert(l != wl && l != w && r != wl && r != w);
            assert(m3[n] == m[n]);
        }
        if l != NIL {
            assert(m3.contains_key(l));
        }
        if r != NIL {
            assert(m3.contains_key(r));
        }
    }
    assert forall|n: u32| #[trigger] m3.contains_key(n) implies m3[n].color == COLOR_RED
        || m3[n].color == COLOR_BLACK by {
        assert(m.contains_key(n));
    }
    assert forall|n: u32| #[trigger] m3.contains_key(n) && m3[n].color == COLOR_RED implies (
    is_red(m3, m3[n].right) ==> n == x || m3[n].right == x) && (is_red(m3, m3[n].left) ==> n
        == x || m3[n].left == x) by {
        assert(m.contains_key(n));
        let l = m[n].right;
        let r = m[n].left;
        if n != xp && n != w && n != wl && n != m[wl].left {
            assert(l != wl && l != w && r != wl && r != w);
            assert(m3[n] == m[n]);
        }
    }
    if is_red(m3, root) {
        assert(m3.contains_key(root));
        assert(root != w && root != wl);
    }
}

/// A black sibling with a red outer (left) child: the sibling takes the parent's color,
/// the parent and that child turn black, and a right rotation at the parent restores the
/// rules.
#[verifier::spinoff_prover]
#[verifier::rlimit(40)]
proof fn lemma_del_outer_right(
    m: Map<u32, RbNode>,
    h: Map<u32, nat>,
    root: u32,
    x: u32,
    xp: u32,
    m4: Map<u32, RbNode>,
)
    requires
        links_ok(m),
        short_at(root, m, h, x),
        m.contains_key(x),
        m.contains_key(root),
        m[root].parent == NIL,
        m[x].color == COLOR_BLACK,
        x != root,
        m[x].parent == xp,
        xp != NIL,
        m[xp].right == x,
        m[xp].left != NIL,
        !is_red(m, m[xp].left),
        is_red(m, m[m[xp].left].left),
        m[xp].parent != m[xp].left && m[xp].parent != x,
        m[m[xp].left].right != xp && m[m[xp].left].left != xp,
        m[xp].parent != NIL ==> m[m[xp].left].right != m[xp].parent && m[m[xp].left].left
            != m[xp].parent,
        m[xp].parent == NIL ==> xp == root,
        rotr_ready(
            recolored(
                recolored(recolored(m, m[xp].left, m[xp].color), xp, COLOR_BLACK),
                m[m[xp].left].left,
                COLOR_BLACK,
            ),
            xp,
        ),
        rotr_shape(
            recolored(
                recolored(recolored(m, m[xp].left, m[xp].color), xp, COLOR_BLACK),
                m[m[xp].left].left,
                COLOR_BLACK,
            ),
            xp,
            m4,
        ),
    ensures
        ({
            let m2 = recolored(
                recolored(recolored(m, m[xp].left, m[xp].color), xp, COLOR_BLACK),
                m[m[xp].left].left,
                COLOR_BLACK,
            );
            let r2 = rot_root(m2, root, xp, m[xp].left);
            short_at(r2, m4, h.insert(xp, (h[xp] - 1) as nat).insert(m[xp].left, h[xp]), r2)
        }),
{
    reveal(short_at);
    let w = m[xp].left;
    let wl = m[w].right;
    let wr = m[w].left;
    let q = m[xp].parent;
    let m2 = recolored(recolored(recolored(m, w, m[xp].color), xp, COLOR_BLACK), wr, COLOR_BLACK);
    let r2 = rot_root(m2, root, xp, w);
    let h2 = h.insert(xp, (h[xp] - 1) as nat).insert(w, h[xp]);
    assert(m.contains_key(xp) && m.contains_key(w) && m.contains_key(wr));
    assert(w != x && w != xp && x != xp && wr != x && wr != xp && wr != w);
    assert(wl != x && wl != w);
    assert(h[xp] >= 1);
    assert(h[wr] == h[w] && h[w] + 1 == h[xp]);
    assert(m2[xp].left == w && m2[w].right == wl && m2[xp].parent == q);
    assert(root != w && root != wr && root != x);
    assert(m4.contains_key(r2));
    if q == NIL {
        assert(r2 == w && m4[w].parent == NIL);
    } else {
        assert(r2 == root && root != xp);
        assert(m4[root].parent == NIL);
    }
    assert forall|n: u32| #[trigger] m4.contains_key(n) implies black_height(m4, h2, m4[n].right)
        + (if m4[n].right == r2 {
        1int
    } else {
        0int
    }) == h2[n] && black_height(m4, h2, m4[n].left) + (if m4[n].left == r2 {
        1int
    } else {
        0int
    }) == h2[n] by {
        assert(m.contains_key(n));
        let l = m[n].right;
        let r = m[n].left;
        if n != xp && n != w && n != wl && n != q && n != wr {
            assert(l != xp && l != w && r != xp && r != w);
            assert(l != wr && r != wr);
            assert(m4[n] == m[n]);
        }
        if l != NIL {
            assert(m4.contains_key(l));
        }
        if r != NIL {
            assert(m4.contains_key(r));
        }
    }
    assert forall|n: u32| #[trigger] m4.contains_key(n) implies m4[n].color == COLOR_RED
        || m4[n].color == COLOR_BLACK by {
        assert(m.contains_key(n));
    }
    assert forall|n: u32| #[trigger] m4.contains_key(n) && m4[n].color == COLOR_RED implies (
    is_red(m4, m4[n].right) ==> n == r2 || m4[n].right == r2) && (is_red(m4, m4[n].left) ==> n
        == r2 || m4[n].left == r2) by {
        assert(m.contains_key(n));
        let l = m[n].right;
        let r = m[n].left;
        if n != xp && n != w && n != wl && n != q && n != wr {
            assert(l != xp && l != w && r != xp && r != w);
            assert(l != wr && r != wr);
            assert(m4[n] == m[n]);
        }
    }
}

/// Removing `z`, whose left slot is empty, from a red-black tree: where `z` is red the
/// tree stays red-black; where it is black and has a right child, that child is red and
/// takes its place one black node short.
proof fn lemma_del_left_rb(m: Map<u32, RbNode>, h: Map<u32, nat>, root: u32, z: u32, mf: Map<u32, RbNode>)
    requires
        links_ok(m),
        colors_ok(m),
        heights_ok(m, h),
        reds_apart_except(m, NIL),
        !is_red(m, root),
        m.contains_key(z),
        m[z].left == NIL,
        m[z].parent == NIL <==> z == root,
        m[z].right != NIL && m[z].parent != NIL ==> m[m[z].right].left != m[z].parent
            && m[m[z].right].right != m[z].parent,
        dell_shape(m, z, mf),
    ensures
        ({
            let root2 = if m[z].parent == NIL {
                m[z].right
            } else {
                root
            };
            &&& m[z].color == COLOR_RED ==> red_black(root2, mf)
            &&& m[z].color != COLOR_RED && m[z].right != NIL ==> is_red(mf, m[z].right)
                && short_at(root2, mf, h, m[z].right)
        }),
{
    reveal(short_at);
    let zr = m[z].right;
    let pz = m[z].parent;
    let root2 = if pz == NIL {
        zr
    } else {
        root
    };
    assert(h[z] == 0);
    assert(black_height(m, h, zr) == 0);
    if zr != NIL {
        assert(m.contains_key(zr) && zr != z && zr != pz);
    }
    assert(pz != NIL ==> m.contains_key(pz) && pz != z);
    assert forall|n: u32| #[trigger] mf.contains_key(n) implies mf[n].color == COLOR_RED
        || mf[n].color == COLOR_BLACK by {
        assert(m.contains_key(n));
    }
    if m[z].color == COLOR_RED {
        assert(zr == NIL);
        assert forall|n: u32| #[trigger] mf.contains_key(n) implies black_height(mf, h, mf[n].left)
            == h[n] && black_height(mf, h, mf[n].right) == h[n] by {
            assert(m.contains_key(n));
            let l = m[n].left;
            let r = m[n].right;
            assert(black_height(m, h, l) == h[n] && black_height(m, h, r) == h[n]);
            if n != pz {
                assert(mf[n] == m[n]);
                assert(l != z && r != z);
            }
            if l != NIL && l != z {
                assert(mf[l].color == m[l].color);
            }
            if r != NIL && r != z {
                assert(mf[r].color == m[r].color);
            }
        }
        assert(heights_ok(mf, h));
        assert forall|n: u32| #[trigger] mf.contains_key(n) && mf[n].color == COLOR_RED implies (
        is_red(mf, mf[n].left) ==> mf[n].left == NIL) && (is_red(mf, mf[n].right) ==> mf[n].right
            == NIL) by {
            assert(m.contains_key(n));
            if n != pz {
                assert(mf[n] == m[n]);
            }
        }
        if pz != NIL {
            assert(root != z);
            if m.contains_key(root) {
                assert(mf.contains_key(root));
            }
        }
    } else if zr != NIL {
        assert(m[zr].color == COLOR_RED);
        assert(m[zr].left == NIL && m[zr].right == NIL);
        assert(mf.contains_key(zr));
        assert forall|n: u32| #[trigger] mf.contains_key(n) implies black_height(mf, h, mf[n].left)
            + (if mf[n].left == zr {
            1int
        } else {
            0int
        }) == h[n] && black_height(mf, h, mf[n].right) + (if mf[n].right == zr {
            1int
        } else {
            0int
        }) == h[n] by {
            assert(m.contains_key(n));
            let l = m[n].left;
            let r = m[n].right;
            assert(black_height(m, h, l) == h[n] && black_height(m, h, r) == h[n]);
            if n != pz && n != zr {
                assert(mf[n] == m[n]);
                assert(l != z && r != z && l != zr && r != zr);
            }
            if l != NIL && l != z {
                assert(mf[l].color == m[l].color);
            }
            if r != NIL && r != z {
                assert(mf[r].color == m[r].color);
            }
        }
        assert forall|n: u32| #[trigger] mf.contains_key(n) && mf[n].color == COLOR_RED implies (
        is_red(mf, mf[n].left) ==> n == zr || mf[n].left == zr) && (is_red(mf, mf[n].right) ==> n
            == zr || mf[n].right == zr) by {
            assert(m.contains_key(n));
            if n != pz && n != zr {
                assert(mf[n] == m[n]);
            }
        }
        if pz != NIL {
            assert(root != z);
            if m.contains_key(root) {
                assert(mf.contains_key(root));
            }
        }
    }
}

/// Removing `z`, whose right slot is empty, from a red-black tree: where `z` is red the
/// tree stays red-black; where it is black and has a left child, that child is red and
/// takes its place one black node short.
proof fn lemma_del_right_rb(m: Map<u32, RbNode>, h: Map<u32, nat>, root: u32, z: u32, mf: Map<u32, RbNode>)
    requires
        links_ok(m),
        colors_ok(m),
        heights_ok(m, h),
        reds_apart_except(m, NIL),
        !is_red(m, root),
        m.contains_key(z),
        m[z].right == NIL,
        m[z].parent == NIL <==> z == root,
        m[z].left != NIL && m[z].parent != NIL ==> m[m[z].left].right != m[z].parent
            && m[m[z].left].left != m[z].parent,
        delr_shape(m, z, mf),
    ensures
        ({
            let root2 = if m[z].parent == NIL {
                m[z].left
            } else {
                root
            };
            &&& m[z].color == COLOR_RED ==> red_black(root2, mf)
            &&& m[z].color != COLOR_RED && m[z].left != NIL ==> is_red(mf, m[z].left)
                && short_at(root2, mf, h, m[z].left)
        }),
{
    reveal(short_at);
    let zr = m[z].left;
    let pz = m[z].parent;
    let root2 = if pz == NIL {
        zr
    } else {
        root
    };
    assert(h[z] == 0);
    assert(black_height(m, h, zr) == 0);
    if zr != NIL {
        assert(m.contains_key(zr) && zr != z && zr != pz);
    }
    assert(pz != NIL ==> m.contains_key(pz) && pz != z);
    assert forall|n: u32| #[trigger] mf.contains_key(n) implies mf[n].color == COLOR_RED
        || mf[n].color == COLOR_BLACK by {
        assert(m.contains_key(n));
    }
    if m[z].color == COLOR_RED {
        assert(zr == NIL);
        assert forall|n: u32| #[trigger] mf.contains_key(n) implies black_height(mf, h, mf[n].right)
            == h[n] && black_height(mf, h, mf[n].left) == h[n] by {
            assert(m.contains_key(n));
            let l = m[n].right;
            let r = m[n].left;
            assert(black_height(m, h, l) == h[n] && black_height(m, h, r) == h[n]);
            if n != pz {
                assert(mf[n] == m[n]);
                assert(l != z && r != z);
            }
            if l != NIL && l != z {
                assert(mf[l].color == m[l].color);
            }
            if r != NIL && r != z {
                assert(mf[r].color == m[r].color);
            }
        }
        assert(heights_ok(mf, h));
        assert forall|n: u32| #[trigger] mf.contains_key(n) && mf[n].color == COLOR_RED implies (
        is_red(mf, mf[n].right) ==> mf[n].right == NIL) && (is_red(mf, mf[n].left) ==> mf[n].left
            == NIL) by {
            assert(m.contains_key(n));
            if n != pz {
                assert(mf[n] == m[n]);
            }
        }
        if pz != NIL {
            assert(root != z);
            if m.contains_key(root) {
                assert(mf.contains_key(root));
            }
        }
    } else if zr != NIL {
        assert(m[zr].color == COLOR_RED);
        assert(m[zr].right == NIL && m[zr].left == NIL);
        assert(mf.contains_key(zr));
        assert forall|n: u32| #[trigger] mf.contains_key(n) implies black_height(mf, h, mf[n].right)
            + (if mf[n].right == zr {
            1int
        } else {
            0int
        }) == h[n] && black_height(mf, h, mf[n].left) + (if mf[n].left == zr {
            1int
        } else {
            0int
        }) == h[n] by {
            assert(m.contains_key(n));
            let l = m[n].right;
            let r = m[n].left;
            assert(black_height(m, h, l) == h[n] && black_height(m, h, r) == h[n]);
            if n != pz && n != zr {
                assert(mf[n] == m[n]);
                assert(l != z && r != z && l != zr && r != zr);
            }
            if l != NIL && l != z {
                assert(mf[l].color == m[l].color);
            }
            if r != NIL && r != z {
                assert(mf[r].color == m[r].color);
            }
        }
        assert forall|n: u32| #[trigger] mf.contains_key(n) && mf[n].color == COLOR_RED implies (
        is_red(mf, mf[n].right) ==> n == zr || mf[n].right == zr) && (is_red(mf, mf[n].left) ==> n
            == zr || mf[n].left == zr) by {
            assert(m.contains_key(n));
            if n != pz && n != zr {
                assert(mf[n] == m[n]);
            }
        }
        if pz != NIL {
            assert(root != z);
            if m.contains_key(root) {
                assert(mf.contains_key(root));
            }
        }
    }
}

/// The node with the next larger key after that of `z`.
pub open spec fn successor(m: Map<u32, RbNode>, z: u32) -> u32 {
    choose|y: u32|
        m.contains_key(y) && m[y].key > m[z].key && forall|k: u32|
            #[trigger] m.contains_key(k) && m[k].key > m[z].key ==> m[y].key <= m[k].key
}

/// The node that removing `z` takes out of its place: `z` itself where a child slot of
/// it is empty, its successor otherwise.
pub open spec fn spliced(m: Map<u32, RbNode>, z: u32) -> u32 {
    if m[z].left == NIL || m[z].right == NIL {
        z
    } else {
        successor(m, z)
    }
}

/// The node that takes the place of `spliced(m, z)`.
pub open spec fn splice_child(m: Map<u32, RbNode>, z: u32) -> u32 {
    if m[z].left == NIL {
        m[z].right
    } else if m[z].right == NIL {
        m[z].left
    } else {
        m[successor(m, z)].right
    }
}

/// Removing `z` keeps the red-black rules where the node it takes out of its place is
/// red or leaves a child in that place: the repair starts from that child.
pub open spec fn removal_repairable(m: Map<u32, RbNode>, z: u32) -> bool {
    m[spliced(m, z)].color == COLOR_RED || splice_child(m, z) != NIL
}

proof fn lemma_successor(root: u32, m: Map<u32, RbNode>, b: Map<u32, (int, int)>, z: u32, y: u32)
    requires
        tree_inv(root, m, b),
        del2_pre(m, b, z, y),
    ensures
        successor(m, z) == y,
{
    lemma_inv_parts(root, m, b);
    assert(edges_ok(m, b, y));
    assert(m[y].key > m[z].key);
    assert forall|k: u32| #[trigger] m.contains_key(k) && m[k].key > m[z].key implies m[y].key
        <= m[k].key by {
        assert(!(m[z].key < m[k].key < m[y].key));
    }
    let s = successor(m, z);
    assert(m.contains_key(s) && m[s].key > m[z].key);
    assert(m[s].key == m[y].key);
}

/// The nodes that removing `z` through its successor `y` touches are distinct and
/// linked as in a tree.
pub open spec fn del2_nodes(m: Map<u32, RbNode>, z: u32, y: u32) -> bool {
    let zl = m[z].left;
    let zr = m[z].right;
    let pz = m[z].parent;
    let x = m[y].right;
    let py = m[y].parent;
    &&& m.contains_key(zl) && m.contains_key(zr) && m[zl].parent == z && m[zr].parent == z
    &&& y != z && y != zl && zl != zr && pz != z && pz != y && pz != zl && pz != zr
    &&& pz != NIL ==> m.contains_key(pz) && (m[pz].left == z || m[pz].right == z)
    &&& x != NIL ==> m.contains_key(x) && m[x].parent == y && x != z && x != y && x != zl && x
        != zr && x != pz && x != py
    &&& y == zr ==> py == z
    &&& y != zr ==> m.contains_key(py) && py != z && py != y && py != zl && py != pz && m[py].left
        == y
    &&& py != NIL
}

/// Removing `z`, which has two children, by moving its successor `y` into its place:
/// where `y` was red the tree stays red-black; where it was black and had a right child
/// `x`, that child is red and takes the old place of `y` one black node short.
#[verifier::spinoff_prover]
#[verifier::rlimit(80)]
proof fn lemma_del_two_red(
    m: Map<u32, RbNode>,
    h: Map<u32, nat>,
    root: u32,
    z: u32,
    y: u32,
    mf: Map<u32, RbNode>,
)
    requires
        links_ok(m),
        colors_ok(m),
        heights_ok(m, h),
        reds_apart_except(m, NIL),
        !is_red(m, root),
        m.contains_key(z),
        m.contains_key(y),
        m[y].left == NIL,
        m[z].parent == NIL <==> z == root,
        m.contains_key(root) ==> m[root].parent == NIL,
        del2_nodes(m, z, y),
        del2_shape(m, z, y, mf),
    ensures
        ({
            let root2 = if m[z].parent == NIL {
                y
            } else {
                root
            };
            let h2 = h.insert(y, h[z]);
            m[y].color == COLOR_RED ==> colors_ok(mf) && heights_ok(mf, h2) && reds_apart_except(
                mf,
                NIL,
            ) && !is_red(mf, root2)
        }),
{
    let zl = m[z].left;
    let zr = m[z].right;
    let pz = m[z].parent;
    let x = m[y].right;
    let py = m[y].parent;
    let root2 = if pz == NIL {
        y
    } else {
        root
    };
    let h2 = h.insert(y, h[z]);
    assert(h[y] == 0);
    assert(black_height(m, h, x) == 0);
    assert(black_height(m, h, zl) == h[z] && black_height(m, h, zr) == h[z]);
    assert(mf.contains_key(y) && mf.contains_key(zl) && mf.contains_key(zr));
    assert forall|n: u32| #[trigger] mf.contains_key(n) implies mf[n].color == COLOR_RED
        || mf[n].color == COLOR_BLACK by {
        assert(m.contains_key(n));
    }
    if m[z].color == COLOR_RED {
        assert(!is_red(m, zl) && !is_red(m, zr));
    }
    if pz != NIL && m[pz].color == COLOR_RED {
        assert(m[z].color != COLOR_RED);
    }
    if m[y].color == COLOR_RED {
        assert(x == NIL);
        assert forall|n: u32| #[trigger] mf.contains_key(n) implies black_height(mf, h2, mf[n].left)
            == h2[n] && black_height(mf, h2, mf[n].right) == h2[n] by {
            assert(m.contains_key(n));
            let l = m[n].left;
            let r = m[n].right;
            assert(black_height(m, h, l) == h[n] && black_height(m, h, r) == h[n]);
            if n != y && n != zl && n != zr && n != py && n != pz {
                assert(mf[n] == m[n]);
                assert(l != y && r != y && l != z && r != z);
            }
            if l != NIL && l != z && l != y {
                assert(mf[l].color == m[l].color);
            }
            if r != NIL && r != z && r != y {
                assert(mf[r].color == m[r].color);
            }
            if n == zr && y != zr && py != zr {
                assert(mf[zr].left == m[zr].left);
            }
        }
        assert forall|n: u32| #[trigger] mf.contains_key(n) && mf[n].color == COLOR_RED implies (
        is_red(mf, mf[n].left) ==> mf[n].left == NIL) && (is_red(mf, mf[n].right) ==> mf[n].right
            == NIL) by {
            assert(m.contains_key(n));
            let l = m[n].left;
            let r = m[n].right;
            if n != y && n != zl && n != zr && n != py && n != pz {
                assert(mf[n] == m[n]);
            }
        }
        if pz != NIL {
            assert(root != z && root != y);
            if m.contains_key(root) {
                assert(mf.contains_key(root));
            }
        }
    }
}

/// After removing `z` through its black successor `y`, whose right child `x` is
/// present, the black heights agree everywhere but on the path through `x`.
#[verifier::spinoff_prover]
#[verifier::rlimit(80)]
proof fn lemma_del_two_black_heights(
    m: Map<u32, RbNode>,
    h: Map<u32, nat>,
    root: u32,
    z: u32,
    y: u32,
    mf: Map<u32, RbNode>,
)
    requires
        links_ok(m),
        colors_ok(m),
        heights_ok(m, h),
        reds_apart_except(m, NIL),
        !is_red(m, root),
        m.contains_key(z),
        m.contains_key(y),
        m[y].left == NIL,
        m[z].parent == NIL <==> z == root,
        del2_nodes(m, z, y),
        del2_shape(m, z, y, mf),
        m[y].color != COLOR_RED,
        m[y].right != NIL,
    ensures
        heights_short(mf, h.insert(y, h[z]), m[y].right),
{
    let zl = m[z].left;
    let zr = m[z].right;
    let pz = m[z].parent;
    let x = m[y].right;
    let py = m[y].parent;
    let h2 = h.insert(y, h[z]);
    assert(h[y] == 0);
    assert(black_height(m, h, x) == 0);
    assert(black_height(m, h, zl) == h[z] && black_height(m, h, zr) == h[z]);
    assert(mf.contains_key(y) && mf.contains_key(zl) && mf.contains_key(zr));
    assert(m[x].color == COLOR_RED);
    assert(m[x].left == NIL && m[x].right == NIL);
    assert(mf.contains_key(x));
    assert forall|n: u32| #[trigger] mf.contains_key(n) implies black_height(mf, h2, mf[n].left)
        + (if mf[n].left == x {
        1int
    } else {
        0int
    }) == h2[n] && black_height(mf, h2, mf[n].right) + (if mf[n].right == x {
        1int
    } else {
        0int
    }) == h2[n] by {
        assert(m.contains_key(n));
        let l = m[n].left;
        let r = m[n].right;
        assert(black_height(m, h, l) == h[n] && black_height(m, h, r) == h[n]);
        if n != y && n != zl && n != zr && n != py && n != pz && n != x {
            assert(mf[n] == m[n]);
            assert(l != y && r != y && l != z && r != z && l != x && r != x);
        }
        if l != NIL && l != z && l != y {
            assert(mf[l].color == m[l].color);
        }
        if r != NIL && r != z && r != y {
            assert(mf[r].color == m[r].color);
        }
        if n == zr && y != zr && py != zr {
            assert(mf[zr].left == m[zr].left);
        }
    }
}

/// Removing `z`, which has two children, by moving its black successor `y` into its
/// place: where `y` had a right child `x`, that child is red and takes the old place of
/// `y` one black node short.
#[verifier::spinoff_prover]
#[verifier::rlimit(80)]
proof fn lemma_del_two_black(
    m: Map<u32, RbNode>,
    h: Map<u32, nat>,
    root: u32,
    z: u32,
    y: u32,
    mf: Map<u32, RbNode>,
)
    requires
        links_ok(m),
        colors_ok(m),
        heights_ok(m, h),
        reds_apart_except(m, NIL),
        !is_red(m, root),
        m.contains_key(z),
        m.contains_key(y),
        m[y].left == NIL,
        m[z].parent == NIL <==> z == root,
        m.contains_key(root) ==> m[root].parent == NIL,
        del2_nodes(m, z, y),
        del2_shape(m, z, y, mf),
    ensures
        ({
            let root2 = if m[z].parent == NIL {
                y
            } else {
                root
            };
            let h2 = h.insert(y, h[z]);
            let x = m[y].right;
            m[y].color != COLOR_RED && x != NIL ==> is_red(mf, x) && short_at(root2, mf, h2, x)
        }),
{
    reveal(short_at);
    let zl = m[z].left;
    let zr = m[z].right;
    let pz = m[z].parent;
    let x = m[y].right;
    let py = m[y].parent;
    let root2 = if pz == NIL {
        y
    } else {
        root
    };
    let h2 = h.insert(y, h[z]);
    assert(h[y] == 0);
    assert(black_height(m, h, x) == 0);
    assert(black_height(m, h, zl) == h[z] && black_height(m, h, zr) == h[z]);
    assert(mf.contains_key(y) && mf.contains_key(zl) && mf.contains_key(zr));
    assert forall|n: u32| #[trigger] mf.contains_key(n) implies mf[n].color == COLOR_RED
        || mf[n].color == COLOR_BLACK by {
        assert(m.contains_key(n));
    }
    if m[z].color == COLOR_RED {
        assert(!is_red(m, zl) && !is_red(m, zr));
    }
    if pz != NIL && m[pz].color == COLOR_RED {
        assert(m[z].color != COLOR_RED);
    }
    if m[y].color != COLOR_RED && x != NIL {
        assert(m[x].color == COLOR_RED);
        assert(m[x].left == NIL && m[x].right == NIL);
        assert(mf.contains_key(x));
        lemma_del_two_black_heights(m, h, root, z, y, mf);
        assert forall|n: u32| #[trigger] mf.contains_key(n) && mf[n].color == COLOR_RED implies (
        is_red(mf, mf[n].left) ==> n == x || mf[n].left == x) && (is_red(mf, mf[n].right) ==> n
            == x || mf[n].right == x) by {
            assert(m.contains_key(n));
            let l = m[n].left;
            let r = m[n].right;
            if n != y && n != zl && n != zr && n != py && n != pz && n != x {
                assert(mf[n] == m[n]);
            }
        }
        if pz != NIL {
            assert(root != z && root != y);
            if m.contains_key(root) {
                assert(mf.contains_key(root));
            }
        }
    }
}

proof fn lemma_fix_remove_left(
    root: u32,
    m: Map<u32, RbNode>,
    b: Map<u32, (int, int)>,
    h: Map<u32, nat>,
    z: u32,
    mf: Map<u32, RbNode>,
)
    requires
        tree_inv(root, m, b),
        colors_ok(m),
        heights_ok(m, h),
        reds_apart_except(m, NIL),
        !is_red(m, root),
        m.contains_key(z),
        m[z].left == NIL,
        dell_shape(m, z, mf),
    ensures
        ({
            let root2 = if m[z].parent == NIL {
                m[z].right
            } else {
                root
            };
            &&& m[z].color == COLOR_RED ==> red_black(root2, mf)
            &&& m[z].color != COLOR_RED && m[z].right != NIL ==> is_red(mf, m[z].right)
                && short_at(root2, mf, h, m[z].right)
        }),
{
    lemma_inv_parts(root, m, b);
    lemma_links(root, m, b);
    lemma_node(root, m, b, z);
    if m[z].right != NIL {
        lemma_node(root, m, b, m[z].right);
    }
    if m[z].parent != NIL {
        lemma_node(root, m, b, m[z].parent);
    }
    lemma_del_left_rb(m, h, root, z, mf);
}

proof fn lemma_fix_remove_right(
    root: u32,
    m: Map<u32, RbNode>,
    b: Map<u32, (int, int)>,
    h: Map<u32, nat>,
    z: u32,
    mf: Map<u32, RbNode>,
)
    requires
        tree_inv(root, m, b),
        colors_ok(m),
        heights_ok(m, h),
        reds_apart_except(m, NIL),
        !is_red(m, root),
        m.contains_key(z),
        m[z].right == NIL,
        delr_shape(m, z, mf),
    ensures
        ({
            let root2 = if m[z].parent == NIL {
                m[z].left
            } else {
                root
            };
            &&& m[z].color == COLOR_RED ==> red_black(root2, mf)
            &&& m[z].color != COLOR_RED && m[z].left != NIL ==> is_red(mf, m[z].left)
                && short_at(root2, mf, h, m[z].left)
        }),
{
    lemma_inv_parts(root, m, b);
    lemma_links(root, m, b);
    lemma_node(root, m, b, z);
    if m[z].left != NIL {
        lemma_node(root, m, b, m[z].left);
    }
    if m[z].parent != NIL {
        lemma_node(root, m, b, m[z].parent);
    }
    lemma_del_right_rb(m, h, root, z, mf);
}

proof fn lemma_fix_remove_two(
    root: u32,
    m: Map<u32, RbNode>,
    b: Map<u32, (int, int)>,
    h: Map<u32, nat>,
    z: u32,
    y: u32,
    mf: Map<u32, RbNode>,
)
    requires
        tree_inv(root, m, b),
        colors_ok(m),
        heights_ok(m, h),
        reds_apart_except(m, NIL),
        !is_red(m, root),
        m.contains_key(z),
        m.contains_key(y),
        m[y].left == NIL,
        del2_nodes(m, z, y),
        del2_shape(m, z, y, mf),
    ensures
        ({
            let root2 = if m[z].parent == NIL {
                y
            } else {
                root
            };
            let x = m[y].right;
            &&& m[y].color == COLOR_RED ==> red_black(root2, mf)
            &&& m[y].color != COLOR_RED && x != NIL ==> is_red(mf, x) && short_at(
                root2,
                mf,
                h.insert(y, h[z]),
                x,
            )
        }),
{
    lemma_inv_parts(root, m, b);
    lemma_links(root, m, b);
    lemma_node(root, m, b, z);
    lemma_del_two_red(m, h, root, z, y, mf);
    lemma_del_two_black(m, h, root, z, y, mf);
    if m[y].color == COLOR_RED {
        let root2 = if m[z].parent == NIL {
            y
        } else {
            root
        };
        assert(heights_ok(mf, h.insert(y, h[z])));
        assert(red_black(root2, mf));
    }
}

/// Blackening `x` where it is red or the root ends the repair.
proof fn lemma_del_finish(root: u32, m: Map<u32, RbNode>, h: Map<u32, nat>, x: u32)
    requires
        links_ok(m),
        short_at(root, m, h, x),
        m.contains_key(x),
        m.contains_key(root),
        m[root].parent == NIL,
        x == root || m[x].color != COLOR_BLACK,
    ensures
        red_black(root, recolored(m, x, COLOR_BLACK)),
{
    reveal(short_at);
    let m2 = recolored(m, x, COLOR_BLACK);
    assert(m2.dom() =~= m.dom());
    assert forall|n: u32| #[trigger] m2.contains_key(n) implies black_height(m2, h, m2[n].left)
        == h[n] && black_height(m2, h, m2[n].right) == h[n] by {
        assert(m.contains_key(n));
        assert(m[n].left != root && m[n].right != root);
    }
    assert(heights_ok(m2, h));
    assert forall|n: u32| #[trigger] m2.contains_key(n) && m2[n].color == COLOR_RED implies (
    is_red(m2, m2[n].left) ==> m2[n].left == NIL) && (is_red(m2, m2[n].right) ==> m2[n].right
        == NIL) by {
        assert(m.contains_key(n));
        assert(n != x);
    }
}

#[verifier::spinoff_prover]
#[verifier::rlimit(80)]
proof fn lemma_fix_del_red_left(
    root: u32,
    m: Map<u32, RbNode>,
    b: Map<u32, (int, int)>,
    h: Map<u32, nat>,
    x: u32,
    xp: u32,
)
    requires
        tree_inv(root, m, b),
        short_at(root, m, h, x),
        m.contains_key(x),
        m[x].color == COLOR_BLACK,
        x != root,
        m[x].parent == xp,
        m[xp].left == x,
        is_red(m, m[xp].right),
    ensures
        ({
            let m1 = recolored(recolored(m, m[xp].right, COLOR_BLACK), xp, COLOR_RED);
            let m3 = rotl_map(m1, xp);
            let root2 = rot_root(m1, root, xp, m[xp].right);
            &&& short_at(root2, m3, h, x)
            &&& m3[x].parent == xp
            &&& m3[xp].left == x
            &&& m3[xp].right != NIL
            &&& !is_red(m3, m3[xp].right)
            &&& root2 != x
        }),
{
    let w = m[xp].right;
    let m1 = recolored(recolored(m, w, COLOR_BLACK), xp, COLOR_RED);
    lemma_inv_parts(root, m, b);
    lemma_links(root, m, b);
    lemma_node(root, m, b, x);
    lemma_node(root, m, b, xp);
    lemma_node(root, m, b, w);
    if m[xp].parent != NIL {
        lemma_node(root, m, b, m[xp].parent);
    }
    if m[w].left != NIL {
        lemma_node(root, m, b, m[w].left);
    }
    if m[w].right != NIL {
        lemma_node(root, m, b, m[w].right);
    }
    assert(m1.dom() =~= m.dom());
    lemma_same_shape(root, m, m1, b);
    lemma_inv_parts(root, m1, b);
    lemma_rotl_shape(m1, b, xp);
    lemma_del_red_sibling_left(m, h, root, x, xp, rotl_map(m1, xp));
}

#[verifier::spinoff_prover]
#[verifier::rlimit(80)]
proof fn lemma_fix_del_inner_left(
    root: u32,
    m: Map<u32, RbNode>,
    b: Map<u32, (int, int)>,
    h: Map<u32, nat>,
    x: u32,
    xp: u32,
)
    requires
        tree_inv(root, m, b),
        short_at(root, m, h, x),
        m.contains_key(x),
        m[x].color == COLOR_BLACK,
        x != root,
        m[x].parent == xp,
        m[xp].left == x,
        m[xp].right != NIL,
        !is_red(m, m[xp].right),
        is_red(m, m[m[xp].right].left),
        !is_red(m, m[m[xp].right].right),
    ensures
        ({
            let w = m[xp].right;
            let m1 = recolored(recolored(m, m[w].left, COLOR_BLACK), w, COLOR_RED);
            let m3 = rotr_map(m1, w);
            &&& rot_root(m1, root, w, m[w].left) == root
            &&& short_at(root, m3, h, x)
            &&& m3[x].parent == xp
            &&& m3[xp].left == x
            &&& m3[xp].right != NIL
            &&& !is_red(m3, m3[xp].right)
            &&& is_red(m3, m3[m3[xp].right].right)
        }),
{
    let w = m[xp].right;
    let wl = m[w].left;
    let m1 = recolored(recolored(m, wl, COLOR_BLACK), w, COLOR_RED);
    lemma_inv_parts(root, m, b);
    lemma_links(root, m, b);
    lemma_node(root, m, b, x);
    lemma_node(root, m, b, xp);
    lemma_node(root, m, b, w);
    lemma_node(root, m, b, wl);
    if m[wl].left != NIL {
        lemma_node(root, m, b, m[wl].left);
    }
    if m[wl].right != NIL {
        lemma_node(root, m, b, m[wl].right);
    }
    assert(m1.dom() =~= m.dom());
    lemma_same_shape(root, m, m1, b);
    lemma_inv_parts(root, m1, b);
    lemma_rotr_shape(m1, b, w);
    lemma_del_inner_left(m, h, root, x, xp, rotr_map(m1, w));
}

#[verifier::spinoff_prover]
#[verifier::rlimit(80)]
proof fn lemma_fix_del_outer_left(
    root: u32,
    m: Map<u32, RbNode>,
    b: Map<u32, (int, int)>,
    h: Map<u32, nat>,
    x: u32,
    xp: u32,
)
    requires
        tree_inv(root, m, b),
        short_at(root, m, h, x),
        m.contains_key(x),
        m[x].color == COLOR_BLACK,
        x != root,
        m[x].parent == xp,
        m[xp].left == x,
        m[xp].right != NIL,
        !is_red(m, m[xp].right),
        is_red(m, m[m[xp].right].right),
    ensures
        ({
            let w = m[xp].right;
            let m2 = recolored(
                recolored(recolored(m, w, m[xp].color), xp, COLOR_BLACK),
                m[w].right,
                COLOR_BLACK,
            );
            let r2 = rot_root(m2, root, xp, w);
            short_at(r2, rotl_map(m2, xp), h.insert(xp, (h[xp] - 1) as nat).insert(w, h[xp]), r2)
        }),
{
    let w = m[xp].right;
    let m2 = recolored(
        recolored(recolored(m, w, m[xp].color), xp, COLOR_BLACK),
        m[w].right,
        COLOR_BLACK,
    );
    lemma_inv_parts(root, m, b);
    lemma_links(root, m, b);
    lemma_node(root, m, b, x);
    lemma_node(root, m, b, xp);
    lemma_node(root, m, b, w);
    if m[xp].parent != NIL {
        lemma_node(root, m, b, m[xp].parent);
    }
    if m[w].left != NIL {
        lemma_node(root, m, b, m[w].left);
    }
    if m[w].right != NIL {
        lemma_node(root, m, b, m[w].right);
    }
    assert(m2.dom() =~= m.dom());
    lemma_same_shape(root, m, m2, b);
    lemma_inv_parts(root, m2, b);
    lemma_rotl_shape(m2, b, xp);
    lemma_del_outer_left(m, h, root, x, xp, rotl_map(m2, xp));
}

#[verifier::spinoff_prover]
#[verifier::rlimit(80)]
proof fn lemma_fix_del_red_right(
    root: u32,
    m: Map<u32, RbNode>,
    b: Map<u32, (int, int)>,
    h: Map<u32, nat>,
    x: u32,
    xp: u32,
)
    requires
        tree_inv(root, m, b),
        short_at(root, m, h, x),
        m.contains_key(x),
        m[x].color == COLOR_BLACK,
        x != root,
        m[x].parent == xp,
        m[xp].right == x,
        is_red(m, m[xp].left),
    ensures
        ({
            let m1 = recolored(recolored(m, m[xp].left, COLOR_BLACK), xp, COLOR_RED);
            let m3 = rotr_map(m1, xp);
            let root2 = rot_root(m1, root, xp, m[xp].left);
            &&& short_at(root2, m3, h, x)
            &&& m3[x].parent == xp
            &&& m3[xp].right == x
            &&& m3[xp].left != NIL
            &&& !is_red(m3, m3[xp].left)
            &&& root2 != x
        }),
{
    let w = m[xp].left;
    let m1 = recolored(recolored(m, w, COLOR_BLACK), xp, COLOR_RED);
    lemma_inv_parts(root, m, b);
    lemma_links(root, m, b);
    lemma_node(root, m, b, x);
    lemma_node(root, m, b, xp);
    lemma_node(root, m, b, w);
    if m[xp].parent != NIL {
        lemma_node(root, m, b, m[xp].parent);
    }
    if m[w].right != NIL {
        lemma_node(root, m, b, m[w].right);
    }
    if m[w].left != NIL {
        lemma_node(root, m, b, m[w].left);
    }
    assert(m1.dom() =~= m.dom());
    lemma_same_shape(root, m, m1, b);
    lemma_inv_parts(root, m1, b);
    lemma_rotr_shape(m1, b, xp);
    lemma_del_red_sibling_right(m, h, root, x, xp, rotr_map(m1, xp));
}

#[verifier::spinoff_prover]
#[verifier::rlimit(80)]
proof fn lemma_fix_del_inner_right(
    root: u32,
    m: Map<u32, RbNode>,
    b: Map<u32, (int, int)>,
    h: Map<u32, nat>,
    x: u32,
    xp: u32,
)
    requires
        tree_inv(root, m, b),
        short_at(root, m, h, x),
        m.contains_key(x),
        m[x].color == COLOR_BLACK,
        x != root,
        m[x].parent == xp,
        m[xp].right == x,
        m[xp].left != NIL,
        !is_red(m, m[xp].left),
        is_red(m, m[m[xp].left].right),
        !is_red(m, m[m[xp].left].left),
    ensures
        ({
            let w = m[xp].left;
            let m1 = recolored(recolored(m, m[w].right, COLOR_BLACK), w, COLOR_RED);
            let m3 = rotl_map(m1, w);
            &&& rot_root(m1, root, w, m[w].right) == root
            &&& short_at(root, m3, h, x)
            &&& m3[x].parent == xp
            &&& m3[xp].right == x
            &&& m3[xp].left != NIL
            &&& !is_red(m3, m3[xp].left)
            &&& is_red(m3, m3[m3[xp].left].left)
        }),
{
    let w = m[xp].left;
    let wl = m[w].right;
    let m1 = recolored(recolored(m, wl, COLOR_BLACK), w, COLOR_RED);
    lemma_inv_parts(root, m, b);
    lemma_links(root, m, b);
    lemma_node(root, m, b, x);
    lemma_node(root, m, b, xp);
    lemma_node(root, m, b, w);
    lemma_node(root, m, b, wl);
    if m[wl].right != NIL {
        lemma_node(root, m, b, m[wl].right);
    }
    if m[wl].left != NIL {
        lemma_node(root, m, b, m[wl].left);
    }
    assert(m1.dom() =~= m.dom());
    lemma_same_shape(root, m, m1, b);
    lemma_inv_parts(root, m1, b);
    lemma_rotl_shape(m1, b, w);
    lemma_del_inner_right(m, h, root, x, xp, rotl_map(m1, w));
}

#[verifier::spinoff_prover]
#[verifier::rlimit(80)]
proof fn lemma_fix_del_outer_right(
    root: u32,
    m: Map<u32, RbNode>,
    b: Map<u32, (int, int)>,
    h: Map<u32, nat>,
    x: u32,
    xp: u32,
)
    requires
        tree_inv(root, m, b),
        short_at(root, m, h, x),
        m.contains_key(x),
        m[x].color == COLOR_BLACK,
        x != root,
        m[x].parent == xp,
        m[xp].right == x,
        m[xp].left != NIL,
        !is_red(m, m[xp].left),
        is_red(m, m[m[xp].left].left),
    ensures
        ({
            let w = m[xp].left;
            let m2 = recolored(
                recolored(recolored(m, w, m[xp].color), xp, COLOR_BLACK),
                m[w].left,
                COLOR_BLACK,
            );
            let r2 = rot_root(m2, root, xp, w);
            short_at(r2, rotr_map(m2, xp), h.insert(xp, (h[xp] - 1) as nat).insert(w, h[xp]), r2)
        }),
{
    let w = m[xp].left;
    let m2 = recolored(
        recolored(recolored(m, w, m[xp].color), xp, COLOR_BLACK),
        m[w].left,
        COLOR_BLACK,
    );
    lemma_inv_parts(root, m, b);
    lemma_links(root, m, b);
    lemma_node(root, m, b, x);
    lemma_node(root, m, b, xp);
    lemma_node(root, m, b, w);
    if m[xp].parent != NIL {
        lemma_node(root, m, b, m[xp].parent);
    }
    if m[w].right != NIL {
        lemma_node(root, m, b, m[w].right);
    }
    if m[w].left != NIL {
        lemma_node(root, m, b, m[w].left);
    }
    assert(m2.dom() =~= m.dom());
    lemma_same_shape(root, m, m2, b);
    lemma_inv_parts(root, m2, b);
    lemma_rotr_shape(m2, b, xp);
    lemma_del_outer_right(m, h, root, x, xp, rotr_map(m2, xp));
}

proof fn lemma_fix_del_recolor(
    root: u32,
    m: Map<u32, RbNode>,
    b: Map<u32, (int, int)>,
    h: Map<u32, nat>,
    x: u32,
    xp: u32,
    w: u32,
)
    requires
        tree_inv(root, m, b),
        short_at(root, m, h, x),
        m.contains_key(x),
        m[x].color == COLOR_BLACK,
        x != root,
        m[x].parent == xp,
        (m[xp].left == x && m[xp].right == w) || (m[xp].right == x && m[xp].left == w),
        w != NIL,
        !is_red(m, w),
        !is_red(m, m[w].left),
        !is_red(m, m[w].right),
    ensures
        short_at(root, recolored(m, w, COLOR_RED), h.insert(xp, (h[xp] - 1) as nat), xp),
{
    lemma_inv_parts(root, m, b);
    lemma_links(root, m, b);
    lemma_node(root, m, b, x);
    lemma_del_recolor_sibling(m, h, root, x, xp, w);
}

/// Under a shortage at the black node `x`, its sibling exists.
proof fn lemma_del_sibling(root: u32, m: Map<u32, RbNode>, h: Map<u32, nat>, x: u32, xp: u32, w: u32)
    requires
        short_at(root, m, h, x),
        x != NIL,
        m.contains_key(x),
        m.contains_key(xp),
        m[x].color == COLOR_BLACK,
        (m[xp].left == x && m[xp].right == w) || (m[xp].right == x && m[xp].left == w),
        w != x,
    ensures
        w != NIL,
{
    reveal(short_at);
    assert(black_height(m, h, x) >= 1);
}

proof fn lemma_short_colors(root: u32, m: Map<u32, RbNode>, h: Map<u32, nat>, x: u32)
    requires
        short_at(root, m, h, x),
    ensures
        colors_ok(m),
{
    reveal(short_at);
}

/// Blackening `x` where it is red or the root ends the repair.
proof fn lemma_fix_del_finish(root: u32, m: Map<u32, RbNode>, b: Map<u32, (int, int)>, h: Map<u32, nat>, x: u32)
    requires
        tree_inv(root, m, b),
        short_at(root, m, h, x),
        m.contains_key(x),
        x == root || m[x].color != COLOR_BLACK,
    ensures
        red_black(root, recolored(m, x, COLOR_BLACK)),
{
    lemma_inv_parts(root, m, b);
    lemma_links(root, m, b);
    lemma_node(root, m, b, x);
    lemma_del_finish(root, m, h, x);
}

impl RbTree {
    #[verifier::spinoff_prover]
    #[verifier::rlimit(100)]
    fn fixup_from_left(&mut self, x: u32, x_parent: u32) -> (r: Option<u32>)
        requires
            old(self).wf(),
            old(self).arena@.contains_key(x),
            old(self).arena@.contains_key(x_parent),
            old(self).arena@[x].parent == x_parent,
            old(self).arena@[x_parent].left == x,
        ensures
            final(self).wf(),
            same_levels(old(self).arena@, final(self).arena@),
            final(self).spec_capacity() == old(self).spec_capacity(),
            final(self).arena.next_slot() == old(self).arena.next_slot(),
            r matches Some(nx) ==> final(self).arena@.contains_key(nx) && (nx == final(self).root
                || final(self).bounds@[nx].1 - final(self).bounds@[nx].0 > old(self).bounds@[x].1
                - old(self).bounds@[x].0),
            r == fix_step_result(old(self).arena@, x_parent, true, final(self).root),
            (old(self).arena@[x].color == COLOR_BLACK && x != old(self).root && exists|
                h: Map<u32, nat>,
            | short_at(old(self).root, old(self).arena@, h, x)) ==> (r matches Some(nx) && exists|
                h: Map<u32, nat>,
            | short_at(final(self).root, final(self).arena@, h, nx)),
    {
        let ghost b0 = self.bounds@;
        let ghost m0 = self.arena@;
        let ghost root0 = self.root;
        let ghost rb = m0[x].color == COLOR_BLACK && x != root0 && exists|h: Map<u32, nat>|
            short_at(root0, m0, h, x);
        let ghost h: Map<u32, nat> = if rb {
            choose|h: Map<u32, nat>| short_at(root0, m0, h, x)
        } else {
            Map::empty()
        };
        proof {
            lemma_node(self.root, self.arena@, self.bounds@, x_parent);
            lemma_node(self.root, self.arena@, self.bounds@, x);
        }
        let mut w = self.arena.get(x_parent).right;
        let ghost w0 = w;
        if w != NIL && self.arena.get(w).color == COLOR_RED {
            self.set_color(w, COLOR_BLACK);
            self.set_color(x_parent, COLOR_RED);
            let ghost m1 = self.arena@;
            proof {
                lemma_inv_parts(self.root, m1, self.bounds@);
                lemma_rotl_shape(m1, self.bounds@, x_parent);
            }
            self.left_rotate(x_parent);
            w = self.arena.get(x_parent).right;
            proof {
                if rb {
                    lemma_fix_del_red_left(root0, m0, b0, h, x, x_parent);
                }
                lemma_node(root0, m0, b0, w0);
                if w != NIL {
                    lemma_node(root0, m0, b0, w);
                    let wl = m0[w].left;
                    let wr = m0[w].right;
                    if wl != NIL {
                        lemma_node(root0, m0, b0, wl);
                    }
                    if wr != NIL {
                        lemma_node(root0, m0, b0, wr);
                    }
                    if m0[x_parent].parent != NIL {
                        lemma_node(root0, m0, b0, m0[x_parent].parent);
                    }
                    assert(self.arena@[w].left == wl && self.arena@[w].right == wr);
                    assert(wl != NIL ==> self.arena@[wl].color == m0[wl].color);
                    assert(wr != NIL ==> self.arena@[wr].color == m0[wr].color);
                }
            }
        }
        proof {
            assert(w == fix_sibling(m0, x_parent, true));
            assert(rb ==> short_at(self.root, self.arena@, h, x) && self.arena@[x].color
                == COLOR_BLACK && x != self.root && w != NIL && !is_red(self.arena@, w)) by {
                if rb {
                    lemma_node(root0, m0, b0, x);
                    lemma_node(root0, m0, b0, x_parent);
                    if !(w0 != NIL && m0[w0].color == COLOR_RED) {
                        lemma_links(root0, m0, b0);
                        lemma_del_sibling(root0, m0, h, x, x_parent, w0);
                    }
                }
            }
        }
        proof {
            assert(self.arena@[x].parent == x_parent);
            assert(self.arena@[x_parent].left == x);
            assert(self.bounds@[x] == b0[x]);
            lemma_node(self.root, self.arena@, self.bounds@, x_parent);
            lemma_node(self.root, self.arena@, self.bounds@, x);
        }
        let (r, Ghost(h2)) = self.fix_with_sibling_left(x, x_parent, w, Ghost(rb), Ghost(h));
        proof {
            if rb {
                assert(short_at(self.root, self.arena@, h2, r->0));
            }
        }
        r
    }

    #[verifier::spinoff_prover]
    #[verifier::rlimit(100)]
    fn fixup_from_right(&mut self, x: u32, x_parent: u32) -> (r: Option<u32>)
        requires
            old(self).wf(),
            old(self).arena@.contains_key(x),
            old(self).arena@.contains_key(x_parent),
            old(self).arena@[x].parent == x_parent,
            old(self).arena@[x_parent].right == x,
        ensures
            final(self).wf(),
            same_levels(old(self).arena@, final(self).arena@),
            final(self).spec_capacity() == old(self).spec_capacity(),
            final(self).arena.next_slot() == old(self).arena.next_slot(),
            r matches Some(nx) ==> final(self).arena@.contains_key(nx) && (nx == final(self).root
                || final(self).bounds@[nx].1 - final(self).bounds@[nx].0 > old(self).bounds@[x].1
                - old(self).bounds@[x].0),
            r == fix_step_result(old(self).arena@, x_parent, false, final(self).root),
            (old(self).arena@[x].color == COLOR_BLACK && x != old(self).root && exists|
                h: Map<u32, nat>,
            | short_at(old(self).root, old(self).arena@, h, x)) ==> (r matches Some(nx) && exists|
                h: Map<u32, nat>,
            | short_at(final(self).root, final(self).arena@, h, nx)),
    {
        let ghost b0 = self.bounds@;
        let ghost m0 = self.arena@;
        let ghost root0 = self.root;
        let ghost rb = m0[x].color == COLOR_BLACK && x != root0 && exists|h: Map<u32, nat>|
            short_at(root0, m0, h, x);
        let ghost h: Map<u32, nat> = if rb {
            choose|h: Map<u32, nat>| short_at(root0, m0, h, x)
        } else {
            Map::empty()
        };
        proof {
            lemma_node(self.root, self.arena@, self.bounds@, x_parent);
            lemma_node(self.root, self.arena@, self.bounds@, x);
        }
        let mut w = self.arena.get(x_parent).left;
        let ghost w0 = w;
        if w != NIL && self.arena.get(w).color == COLOR_RED {
            self.set_color(w, COLOR_BLACK);
            self.set_color(x_parent, COLOR_RED);
            let ghost m1 = self.arena@;
            proof {
                lemma_inv_parts(self.root, m1, self.bounds@);
                lemma_rotr_shape(m1, self.bounds@, x_parent);
            }
            self.right_rotate(x_parent);
            w = self.arena.get(x_parent).left;
            proof {
                if rb {
                    lemma_fix_del_red_right(root0, m0, b0, h, x, x_parent);
                }
                lemma_node(root0, m0, b0, w0);
                if w != NIL {
                    lemma_node(root0, m0, b0, w);
                    let wl = m0[w].right;
                    let wr = m0[w].left;
                    if wl != NIL {
                        lemma_node(root0, m0, b0, wl);
                    }
                    if wr != NIL {
                        lemma_node(root0, m0, b0, wr);
                    }
                    if m0[x_parent].parent != NIL {
                        lemma_node(root0, m0, b0, m0[x_parent].parent);
                    }
                    assert(self.arena@[w].right == wl && self.arena@[w].left == wr);
                    assert(wl != NIL ==> self.arena@[wl].color == m0[wl].color);
                    assert(wr != NIL ==> self.arena@[wr].color == m0[wr].color);
                }
            }
        }
        proof {
            assert(w == fix_sibling(m0, x_parent, false));
            assert(rb ==> short_at(self.root, self.arena@, h, x) && self.arena@[x].color
                == COLOR_BLACK && x != self.root && w != NIL && !is_red(self.arena@, w)) by {
                if rb {
                    lemma_node(root0, m0, b0, x);
                    lemma_node(root0, m0, b0, x_parent);
                    if !(w0 != NIL && m0[w0].color == COLOR_RED) {
                        lemma_links(root0, m0, b0);
                        lemma_del_sibling(root0, m0, h, x, x_parent, w0);
                    }
                }
            }
        }
        proof {
            assert(self.arena@[x].parent == x_parent);
            assert(self.arena@[x_parent].right == x);
            assert(self.bounds@[x] == b0[x]);
            lemma_node(self.root, self.arena@, self.bounds@, x_parent);
            lemma_node(self.root, self.arena@, self.bounds@, x);
        }
        let (r, Ghost(h2)) = self.fix_with_sibling_right(x, x_parent, w, Ghost(rb), Ghost(h));
        proof {
            if rb {
                assert(short_at(self.root, self.arena@, h2, r->0));
            }
        }
        r
    }

    /// With `w` the sibling on the right of `x`: nothing where it is missing; where
    /// both its children are black it turns red and the parent is given back;
    /// otherwise recoloring and rotations end the repair and the root is given back.
    #[verifier::spinoff_prover]
    #[verifier::rlimit(100)]
    fn fix_with_sibling_left(
        &mut self,
        x: u32,
        x_parent: u32,
        w0: u32,
        Ghost(rb): Ghost<bool>,
        Ghost(h): Ghost<Map<u32, nat>>,
    ) -> (res: (Option<u32>, Ghost<Map<u32, nat>>))
        requires
            old(self).wf(),
            old(self).arena@.contains_key(x),
            old(self).arena@.contains_key(x_parent),
            old(self).arena@[x].parent == x_parent,
            old(self).arena@[x_parent].left == x,
            old(self).arena@[x_parent].right == w0,
            rb ==> short_at(old(self).root, old(self).arena@, h, x) && old(self).arena@[x].color
                == COLOR_BLACK && x != old(self).root && w0 != NIL && !is_red(old(self).arena@, w0),
        ensures
            final(self).wf(),
            same_levels(old(self).arena@, final(self).arena@),
            final(self).spec_capacity() == old(self).spec_capacity(),
            final(self).arena.next_slot() == old(self).arena.next_slot(),
            res.0 matches Some(nx) ==> final(self).arena@.contains_key(nx) && (nx == final(self).root
                || final(self).bounds@[nx].1 - final(self).bounds@[nx].0 > old(self).bounds@[x].1
                - old(self).bounds@[x].0),
            res.0 == (if w0 == NIL {
                None
            } else if black_or_nil(old(self).arena@, old(self).arena@[w0].left) && black_or_nil(
                old(self).arena@,
                old(self).arena@[w0].right,
            ) {
                Some(x_parent)
            } else {
                Some(final(self).root)
            }),
            rb ==> (res.0 matches Some(nx) && short_at(final(self).root, final(self).arena@, res.1@, nx)),
    {
        let mut w = w0;
        proof {
            lemma_node(self.root, self.arena@, self.bounds@, x_parent);
            lemma_node(self.root, self.arena@, self.bounds@, x);
            if rb {
                lemma_short_colors(self.root, self.arena@, h, x);
            }
        }
        if w != NIL {
            proof {
                lemma_node(self.root, self.arena@, self.bounds@, w);
            }
            let w_left = self.arena.get(w).left;
            let w_right = self.arena.get(w).right;
            let left_black = w_left == NIL || self.arena.get(w_left).color == COLOR_BLACK;
            let right_black = w_right == NIL || self.arena.get(w_right).color
                == COLOR_BLACK;
            if left_black && right_black {
                proof {
                    if rb {
                        lemma_fix_del_recolor(self.root, self.arena@, self.bounds@, h, x, x_parent, w);
                        let h2 = h.insert(x_parent, (h[x_parent] - 1) as nat);
                        assert(short_at(self.root, recolored(self.arena@, w, COLOR_RED), h2, x_parent));
                    }
                }
                self.set_color(w, COLOR_RED);
                proof {
                    if rb {
                        let h2 = h.insert(x_parent, (h[x_parent] - 1) as nat);
                        assert(short_at(self.root, self.arena@, h2, x_parent));
                    }
                }
                return (Some(x_parent), Ghost(h.insert(x_parent, (h[x_parent] - 1) as nat)));
            } else {
                let ghost ma = self.arena@;
                let ghost ba = self.bounds@;
                let ghost ra = self.root;
                if right_black {
                    if w_left != NIL {
                        self.set_color(w_left, COLOR_BLACK);
                    }
                    self.set_color(w, COLOR_RED);
                    self.right_rotate(w);
                    w = self.arena.get(x_parent).right;
                    proof {
                        if rb {
                            lemma_fix_del_inner_left(ra, ma, ba, h, x, x_parent);
                        }
                    }
                }
                let ghost mb = self.arena@;
                let ghost bb = self.bounds@;
                let ghost rbt = self.root;
                proof {
                    if rb {
                        assert(short_at(rbt, mb, h, x));
                        assert(mb[x].color == COLOR_BLACK);
                        assert(is_red(mb, mb[mb[x_parent].right].right));
                    }
                }
                proof {
                    lemma_node(self.root, self.arena@, self.bounds@, x_parent);
                }
                proof {
                    if rb {
                        assert(w == mb[x_parent].right);
                    }
                }
                let xp_color = self.arena.get(x_parent).color;
                self.set_color(w, xp_color);
                self.set_color(x_parent, COLOR_BLACK);
                proof {
                    lemma_node(self.root, self.arena@, self.bounds@, w);
                }
                let w_right = self.arena.get(w).right;
                if w_right != NIL {
                    self.set_color(w_right, COLOR_BLACK);
                }
                self.left_rotate(x_parent);
                proof {
                    lemma_node(self.root, self.arena@, self.bounds@, x_parent);
                    if rb {
                        lemma_fix_del_outer_left(rbt, mb, bb, h, x, x_parent);
                        let h4 = h.insert(x_parent, (h[x_parent] - 1) as nat).insert(w, h[x_parent]);
                        assert(short_at(self.root, self.arena@, h4, self.root));
                    }
                }
                return (Some(self.root), Ghost(h.insert(x_parent, (h[x_parent] - 1) as nat).insert(w, h[x_parent])));
            }
        } else {
            return (None, Ghost(h));
        }
    }

    /// With `w` the sibling on the left of `x`: nothing where it is missing; where
    /// both its children are black it turns red and the parent is given back;
    /// otherwise recoloring and rotations end the repair and the root is given back.
    #[verifier::spinoff_prover]
    #[verifier::rlimit(100)]
    fn fix_with_sibling_right(
        &mut self,
        x: u32,
        x_parent: u32,
        w0: u32,
        Ghost(rb): Ghost<bool>,
        Ghost(h): Ghost<Map<u32, nat>>,
    ) -> (res: (Option<u32>, Ghost<Map<u32, nat>>))
        requires
            old(self).wf(),
            old(self).arena@.contains_key(x),
            old(self).arena@.contains_key(x_parent),
            old(self).arena@[x].parent == x_parent,
            old(self).arena@[x_parent].right == x,
            old(self).arena@[x_parent].left == w0,
            rb ==> short_at(old(self).root, old(self).arena@, h, x) && old(self).arena@[x].color
                == COLOR_BLACK && x != old(self).root && w0 != NIL && !is_red(old(self).arena@, w0),
        ensures
            final(self).wf(),
            same_levels(old(self).arena@, final(self).arena@),
            final(self).spec_capacity() == old(self).spec_capacity(),
            final(self).arena.next_slot() == old(self).arena.next_slot(),
            res.0 matches Some(nx) ==> final(self).arena@.contains_key(nx) && (nx == final(self).root
                || final(self).bounds@[nx].1 - final(self).bounds@[nx].0 > old(self).bounds@[x].1
                - old(self).bounds@[x].0),
            res.0 == (if w0 == NIL {
                None
            } else if black_or_nil(old(self).arena@, old(self).arena@[w0].right) && black_or_nil(
                old(self).arena@,
                old(self).arena@[w0].left,
            ) {
                Some(x_parent)
            } else {
                Some(final(self).root)
            }),
            rb ==> (res.0 matches Some(nx) && short_at(final(self).root, final(self).arena@, res.1@, nx)),
    {
        let mut w = w0;
        proof {
            lemma_node(self.root, self.arena@, self.bounds@, x_parent);
            lemma_node(self.root, self.arena@, self.bounds@, x);
            if rb {
                lemma_short_colors(self.root, self.arena@, h, x);
            }
        }
        if w != NIL {
            proof {
                lemma_node(self.root, self.arena@, self.bounds@, w);
            }
            let w_right = self.arena.get(w).right;
            let w_left = self.arena.get(w).left;
            let right_black = w_right == NIL || self.arena.get(w_right).color == COLOR_BLACK;
            let left_black = w_left == NIL || self.arena.get(w_left).color
                == COLOR_BLACK;
            if right_black && left_black {
                proof {
                    if rb {
                        lemma_fix_del_recolor(self.root, self.arena@, self.bounds@, h, x, x_parent, w);
                        let h2 = h.insert(x_parent, (h[x_parent] - 1) as nat);
                        assert(short_at(self.root, recolored(self.arena@, w, COLOR_RED), h2, x_parent));
                    }
                }
                self.set_color(w, COLOR_RED);
                proof {
                    if rb {
                        let h2 = h.insert(x_parent, (h[x_parent] - 1) as nat);
                        assert(short_at(self.root, self.arena@, h2, x_parent));
                    }
                }
                return (Some(x_parent), Ghost(h.insert(x_parent, (h[x_parent] - 1) as nat)));
            } else {
                let ghost ma = self.arena@;
                let ghost ba = self.bounds@;
                let ghost ra = self.root;
                if left_black {
                    if w_right != NIL {
                        self.set_color(w_right, COLOR_BLACK);
                    }
                    self.set_color(w, COLOR_RED);
                    self.left_rotate(w);
                    w = self.arena.get(x_parent).left;
                    proof {
                        if rb {
                            lemma_fix_del_inner_right(ra, ma, ba, h, x, x_parent);
                        }
                    }
                }
                let ghost mb = self.arena@;
                let ghost bb = self.bounds@;
                let ghost rbt = self.root;
                proof {
                    if rb {
                        assert(short_at(rbt, mb, h, x));
                        assert(mb[x].color == COLOR_BLACK);
                        assert(is_red(mb, mb[mb[x_parent].left].left));
                    }
                }
                proof {
                    lemma_node(self.root, self.arena@, self.bounds@, x_parent);
                }
                proof {
                    if rb {
                        assert(w == mb[x_parent].left);
                    }
                }
                let xp_color = self.arena.get(x_parent).color;
                self.set_color(w, xp_color);
                self.set_color(x_parent, COLOR_BLACK);
                proof {
                    lemma_node(self.root, self.arena@, self.bounds@, w);
                }
                let w_left = self.arena.get(w).left;
                if w_left != NIL {
                    self.set_color(w_left, COLOR_BLACK);
                }
                self.right_rotate(x_parent);
                proof {
                    lemma_node(self.root, self.arena@, self.bounds@, x_parent);
                    if rb {
                        lemma_fix_del_outer_right(rbt, mb, bb, h, x, x_parent);
                        let h4 = h.insert(x_parent, (h[x_parent] - 1) as nat).insert(w, h[x_parent]);
                        assert(short_at(self.root, self.arena@, h4, self.root));
                    }
                }
                return (Some(self.root), Ghost(h.insert(x_parent, (h[x_parent] - 1) as nat).insert(w, h[x_parent])));
            }
        } else {
            return (None, Ghost(h));
        }
    }

    fn delete_fixup(&mut self, x0: u32)
        requires
            old(self).wf(),
            old(self).arena@.contains_key(x0),
        ensures
            final(self).wf(),
            same_levels(old(self).arena@, final(self).arena@),
            final(self).spec_capacity() == old(self).spec_capacity(),
            final(self).arena.next_slot() == old(self).arena.next_slot(),
            (exists|h: Map<u32, nat>| short_at(old(self).root, old(self).arena@, h, x0)) ==> red_black(
                final(self).root,
                final(self).arena@,
            ),
    {
        let ghost m0 = self.arena@;
        let ghost rb = exists|h: Map<u32, nat>| short_at(self.root, m0, h, x0);
        let ghost mut h: Map<u32, nat> = if rb {
            choose|h: Map<u32, nat>| short_at(self.root, m0, h, x0)
        } else {
            Map::empty()
        };
        let mut x = x0;
        while x != self.root && self.arena.get(x).color == COLOR_BLACK
            invariant_except_break
                self.wf(),
                self.arena@.contains_key(x),
                same_levels(m0, self.arena@),
                self.spec_capacity() == old(self).spec_capacity(),
                self.arena.next_slot() == old(self).arena.next_slot(),
                rb ==> short_at(self.root, self.arena@, h, x),
            ensures
                self.wf(),
                self.arena@.contains_key(x),
                same_levels(m0, self.arena@),
                self.spec_capacity() == old(self).spec_capacity(),
                self.arena.next_slot() == old(self).arena.next_slot(),
                rb ==> short_at(self.root, self.arena@, h, x) && (x == self.root
                    || self.arena@[x].color != COLOR_BLACK),
            decreases upper_limit() - lower_limit() - (self.bounds@[x].1 - self.bounds@[x].0),
        {
            let x_parent = self.arena.get(x).parent;
            proof {
                lemma_node(self.root, self.arena@, self.bounds@, x);
            }
            if x_parent == NIL {
                break;
            }
            let step = if x == self.arena.get(x_parent).left {
                self.fixup_from_left(x, x_parent)
            } else {
                self.fixup_from_right(x, x_parent)
            };
            match step {
                Some(nx) => {
                    proof {
                        lemma_node(self.root, self.arena@, self.bounds@, nx);
                        if nx == self.root {
                            assert(self.bounds@[nx] == (lower_limit(), upper_limit()));
                        }
                    }
                    proof {
                        if rb {
                            h = choose|h2: Map<u32, nat>| short_at(self.root, self.arena@, h2, nx);
                        }
                    }
                    x = nx;
                },
                None => break,
            }
        }
        let ghost mf = self.arena@;
        let ghost bf = self.bounds@;
        proof {
            lemma_node(self.root, mf, bf, x);
            if rb {
                lemma_fix_del_finish(self.root, mf, bf, h, x);
            }
            assert forall|hh: Map<u32, nat>| short_at(old(self).root, old(self).arena@, hh, x0) implies rb by {
                assert(short_at(old(self).root, m0, hh, x0));
            }
        }
        if x != NIL {
            self.set_color(x, COLOR_BLACK);
        }
    }
}

proof fn lemma_del2_ready(root: u32, m: Map<u32, RbNode>, b: Map<u32, (int, int)>, z: u32, y: u32)
    requires
        tree_inv(root, m, b),
        m.contains_key(z),
        m[z].left != NIL,
        m[z].right != NIL,
        m.contains_key(y),
        m[y].left == NIL,
        b[y].0 == b[m[z].right].0,
        b[y].1 <= b[m[z].right].1,
        y != m[z].right ==> m[y].parent != NIL && m[m[y].parent].left == y,
        forall|k: u32|
            #[trigger] m.contains_key(k) && b[m[z].right].0 < m[k].key < m[y].key ==> false,
    ensures
        del2_pre(m, b, z, y),
        ({
            let zl = m[z].left;
            let zr = m[z].right;
            let pz = m[z].parent;
            let x = m[y].right;
            let py = m[y].parent;
            &&& !m.contains_key(NIL)
            &&& m.contains_key(zl) && m.contains_key(zr) && m[zl].parent == z && m[zr].parent == z
            &&& y != z && y != zl && zl != zr && pz != z && pz != y && pz != zl && pz != zr
            &&& pz != NIL ==> m.contains_key(pz) && (m[pz].left == z || m[pz].right == z)
            &&& x != NIL ==> m.contains_key(x) && m[x].parent == y && x != z && x != y && x != zl
                && x != zr && x != pz && x != py
            &&& y == zr ==> py == z
            &&& y != zr ==> m.contains_key(py) && py != z && py != y && py != zl && py != pz
                && m[py].left == y
        }),
{
    lemma_inv_parts(root, m, b);
    assert(edges_ok(m, b, z));
    assert(del2_pre(m, b, z, y));
    lemma_del2_facts(m, b, z, y);
}

impl RbTree {
    /// Unlinks `z`, which has no left child, and frees its slot; returns the node that
    /// took its place.
    fn unlink_left_empty(&mut self, z: u32) -> (x: u32)
        requires
            old(self).wf(),
            old(self).arena@.contains_key(z),
            old(self).arena@[z].left == NIL,
        ensures
            final(self).wf(),
            x == old(self).arena@[z].right,
            x == NIL || final(self).arena@.contains_key(x),
            dell_shape(old(self).arena@, z, final(self).arena@),
            final(self).root == (if old(self).arena@[z].parent == NIL {
                old(self).arena@[z].right
            } else {
                old(self).root
            }),
            same_levels(old(self).arena@.remove(z), final(self).arena@),
            final(self).arena.next_slot() == z,
            final(self).spec_capacity() == old(self).spec_capacity(),
    {
        let ghost m = self.arena@;
        let ghost b = self.bounds@;
        let ghost root0 = self.root;
        proof {
            lemma_node(root0, m, b, z);
            if m[z].parent != NIL {
                lemma_node(root0, m, b, m[z].parent);
            }
            if m[z].right != NIL {
                lemma_node(root0, m, b, m[z].right);
            }
        }
        let z_right = self.arena.get(z).right;
        self.transplant(z, z_right);
        self.arena.dealloc(z);
        self.bounds = Ghost(dell_bounds(m, b, z));
        proof {
            assert(self.arena@.dom() =~= m.dom().remove(z));
            assert(dell_shape(m, z, self.arena@));
            lemma_delete_left_empty(root0, m, b, z, self.arena@);
        }
        z_right
    }

    /// Unlinks `z`, which has no right child, and frees its slot; returns the node that
    /// took its place.
    fn unlink_right_empty(&mut self, z: u32) -> (x: u32)
        requires
            old(self).wf(),
            old(self).arena@.contains_key(z),
            old(self).arena@[z].right == NIL,
        ensures
            final(self).wf(),
            x == old(self).arena@[z].left,
            x == NIL || final(self).arena@.contains_key(x),
            delr_shape(old(self).arena@, z, final(self).arena@),
            final(self).root == (if old(self).arena@[z].parent == NIL {
                old(self).arena@[z].left
            } else {
                old(self).root
            }),
            same_levels(old(self).arena@.remove(z), final(self).arena@),
            final(self).arena.next_slot() == z,
            final(self).spec_capacity() == old(self).spec_capacity(),
    {
        let ghost m = self.arena@;
        let ghost b = self.bounds@;
        let ghost root0 = self.root;
        proof {
            lemma_node(root0, m, b, z);
            if m[z].parent != NIL {
                lemma_node(root0, m, b, m[z].parent);
            }
            if m[z].left != NIL {
                lemma_node(root0, m, b, m[z].left);
            }
        }
        let z_left = self.arena.get(z).left;
        self.transplant(z, z_left);
        self.arena.dealloc(z);
        self.bounds = Ghost(delr_bounds(m, b, z));
        proof {
            assert(self.arena@.dom() =~= m.dom().remove(z));
            assert(delr_shape(m, z, self.arena@));
            lemma_delete_right_empty(root0, m, b, z, self.arena@);
        }
        z_left
    }

    /// Unlinks `z`, which has two children, by moving its successor `y` into its place,
    /// and frees its slot; returns the node that took the old place of `y`, `y` and the
    /// color `y` had.
    #[verifier::rlimit(100)]
    fn unlink_two(&mut self, z: u32) -> (r: (u32, u32, u8))
        requires
            old(self).wf(),
            old(self).arena@.contains_key(z),
            old(self).arena@[z].left != NIL,
            old(self).arena@[z].right != NIL,
        ensures
            final(self).wf(),
            r.0 == NIL || final(self).arena@.contains_key(r.0),
            same_levels(old(self).arena@.remove(z), final(self).arena@),
            r.1 == successor(old(self).arena@, z),
            r.0 == old(self).arena@[r.1].right,
            r.2 == old(self).arena@[r.1].color,
            old(self).arena@.contains_key(r.1),
            old(self).arena@[r.1].left == NIL,
            del2_nodes(old(self).arena@, z, r.1),
            del2_shape(old(self).arena@, z, r.1, final(self).arena@),
            final(self).root == (if old(self).arena@[z].parent == NIL {
                r.1
            } else {
                old(self).root
            }),
            final(self).arena.next_slot() == z,
            final(self).spec_capacity() == old(self).spec_capacity(),
    {
        let ghost m = self.arena@;
        let ghost b = self.bounds@;
        let ghost root0 = self.root;
        proof {
            lemma_node(root0, m, b, z);
        }
        let z_left = self.arena.get(z).left;
        let z_right = self.arena.get(z).right;
        let y = self.minimum(z_right);
        proof {
            lemma_del2_ready(root0, m, b, z, y);
        }
        let y_orig_color = self.arena.get(y).color;
        let x = self.arena.get(y).right;
        if self.arena.get(y).parent == z {
            if x != NIL {
                let mut nx = *self.arena.get(x);
                nx.parent = y;
                self.arena.set(x, nx);
            }
        } else {
            self.transplant(y, x);
            let z_right = self.arena.get(z).right;
            let mut ny = *self.arena.get(y);
            ny.right = z_right;
            self.arena.set(y, ny);
            let mut nr = *self.arena.get(z_right);
            nr.parent = y;
            self.arena.set(z_right, nr);
        }
        self.transplant(z, y);
        let zl = self.arena.get(z).left;
        let mut ny = *self.arena.get(y);
        ny.left = zl;
        self.arena.set(y, ny);
        let mut nl = *self.arena.get(z_left);
        nl.parent = y;
        self.arena.set(z_left, nl);
        let zc = self.arena.get(z).color;
        let mut ny = *self.arena.get(y);
        ny.color = zc;
        self.arena.set(y, ny);
        self.arena.dealloc(z);
        self.bounds = Ghost(del2_bounds(m, b, z, y));
        proof {
            let mf = self.arena@;
            let zr = m[z].right;
            let pz = m[z].parent;
            let py = m[y].parent;
            assert(mf.dom() =~= m.dom().remove(z));
            assert(mf[y] == RbNode {
                left: z_left,
                right: if y == zr {
                    x
                } else {
                    zr
                },
                parent: pz,
                color: m[z].color,
                ..m[y]
            });
            assert(mf[z_left] == RbNode { parent: y, ..m[z_left] });
            assert(y != zr ==> mf[zr] == RbNode {
                parent: y,
                left: if py == zr {
                    x
                } else {
                    m[zr].left
                },
                ..m[zr]
            });
            assert(y != zr && py != zr ==> mf[py] == RbNode { left: x, ..m[py] });
            assert(x != NIL ==> mf[x] == RbNode {
                parent: if y == zr {
                    y
                } else {
                    py
                },
                ..m[x]
            });
            assert(pz != NIL ==> mf[pz] == with_child(m[pz], z, y));
            assert(del2_shape(m, z, y, self.arena@));
            lemma_delete_two(root0, m, b, z, y, self.arena@);
            lemma_successor(root0, m, b, z, y);
            lemma_inv_parts(root0, m, b);
            lemma_del2_facts(m, b, z, y);
        }
        (x, y, y_orig_color)
    }

    /// Removes the level `z`. A red-black tree stays red-black where the node taken out
    /// of its place is red or leaves a child there (`removal_repairable`).
    pub fn delete(&mut self, z: u32)
        requires
            old(self).wf(),
            old(self)@.contains_key(z),
        ensures
            final(self).wf(),
            final(self)@ == old(self)@.remove(z),
            final(self).arena.next_slot() == z,
            final(self).spec_capacity() == old(self).spec_capacity(),
            red_black(old(self).root, old(self).arena@) && removal_repairable(old(self).arena@, z)
                ==> red_black(final(self).root, final(self).arena@),
    {
        proof {
            self.lemma_view();
        }
        let ghost m0 = self.arena@;
        let ghost b0 = self.bounds@;
        let ghost root0 = self.root;
        let ghost rb = red_black(root0, m0) && removal_repairable(m0, z);
        let ghost h: Map<u32, nat> = if rb {
            choose|h: Map<u32, nat>| heights_ok(m0, h)
        } else {
            Map::empty()
        };
        let z_left = self.arena.get(z).left;
        let z_right = self.arena.get(z).right;
        let mut y = z;
        let mut y_orig_color = self.arena.get(y).color;
        let x: u32;
        if z_left == NIL {
            x = self.unlink_left_empty(z);
            proof {
                if rb {
                    lemma_fix_remove_left(root0, m0, b0, h, z, self.arena@);
                }
            }
        } else if z_right == NIL {
            x = self.unlink_right_empty(z);
            proof {
                if rb {
                    lemma_fix_remove_right(root0, m0, b0, h, z, self.arena@);
                }
            }
        } else {
            let (nx, ny, c) = self.unlink_two(z);
            x = nx;
            y = ny;
            y_orig_color = c;
            proof {
                if rb {
                    lemma_fix_remove_two(root0, m0, b0, h, z, y, self.arena@);
                }
            }
        }
        proof {
            if rb {
                assert(y == spliced(m0, z));
                assert(x == splice_child(m0, z));
                assert(y_orig_color == m0[y].color);
                assert(m0.contains_key(y));
                if y_orig_color == COLOR_RED {
                    assert(red_black(self.root, self.arena@));
                } else {
                    assert(y_orig_color == COLOR_BLACK);
                    assert(x != NIL);
                    assert(exists|hh: Map<u32, nat>| short_at(self.root, self.arena@, hh, x));
                }
            }
        }
        if y_orig_color == COLOR_BLACK {
            if x != NIL {
                self.delete_fixup(x);
            }
        }
        proof {
            self.lemma_view();
            assert(self@ =~= old(self)@.remove(z));
        }
    }
}
impl RbTree {
    /// Distinct levels have distinct prices, and the index of a level is never `NIL`.
    pub proof fn lemma_levels(&self)
        requires
            self.wf(),
        ensures
            forall|i: u32, j: u32|
                #[trigger] self@.contains_key(i) && #[trigger] self@.contains_key(j) && self@[i].0
                    == self@[j].0 ==> i == j,
            !self@.contains_key(NIL),
            forall|i: u32| #[trigger] self@.contains_key(i) ==> self@[i] == level_of(self.arena@[i]),
            self@.dom() == self.arena@.dom(),
            self.arena.wf(),
    {
        lemma_inv_parts(self.root, self.arena@, self.bounds@);
        self.lemma_view();
        assert forall|i: u32, j: u32|
            #[trigger] self@.contains_key(i) && #[trigger] self@.contains_key(j) && self@[i].0
                == self@[j].0 implies i == j by {
            assert(self.arena@[i].key == self.arena@[j].key);
        }
    }
}

impl RbTree {
    /// A copy of the tree, node for node.
    pub(crate) fn duplicate(&self) -> (r: Self)
        requires
            self.wf(),
        ensures
            r.wf(),
            r@ == self@,
            r.root == self.root,
            r.arena@ == self.arena@,
            r.bounds@ == self.bounds@,
            r.spec_capacity() == self.spec_capacity(),
            r.is_full() == self.is_full(),
    {
        let r = RbTree { root: self.root, arena: self.arena.duplicate(), bounds: Ghost(self.bounds@) };
        proof {
            assert(r@ =~= self@);
        }
        r
    }
}

} // verus!
