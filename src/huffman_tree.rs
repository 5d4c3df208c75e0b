use vstd::prelude::*;

verus! {

/// The symbols of one Huffman table: slot `i` holds, in order, the symbols whose
/// code is `i + 1` bits long.
pub type HuffmanTable = [Vec<u8>; 16];

/// The symbols of a table, slot by slot.
pub open spec fn table_view(t: &HuffmanTable) -> Seq<Seq<u8>> {
    t@.map_values(|v: Vec<u8>| v@)
}

/// How many codes of `len` bits are still free once every shorter code of `t`
/// has been assigned, left to right.
pub open spec fn open_slots(t: Seq<Seq<u8>>, len: nat) -> int
    decreases len,
{
    if len <= 1 {
        2
    } else {
        2 * (open_slots(t, (len - 1) as nat) - t[len - 2].len())
    }
}

/// The code lengths of `t` satisfy the Kraft inequality: at every length there
/// are at least as many free codes as symbols to place.
pub open spec fn fits(t: Seq<Seq<u8>>) -> bool {
    &&& t.len() == 16
    &&& forall|len: nat| 1 <= len <= 16 ==> t[len - 1].len() <= #[trigger] open_slots(t, len)
}

/// A node of the decode tree. Links are indices into the tree's node arena.
#[derive(Clone, Copy, Debug)]
pub struct HuffmanNode {
    pub value: u8,
    pub parent: Option<usize>,
    pub left_child: Option<usize>,
    pub right_child: Option<usize>,
    /// Whether this node is a leaf that carries a symbol.
    pub valid_code: bool,
}

/// The path from the root to node `i`: `false` for a left step, `true` for a right one.
pub open spec fn code_of(ns: Seq<HuffmanNode>, i: int) -> Seq<bool>
    decreases i,
{
    if 0 < i < ns.len() && ns[i].parent is Some && ns[i].parent->Some_0 < i {
        let p = ns[i].parent->Some_0 as int;
        code_of(ns, p).push(ns[p].right_child == Some(i as usize))
    } else {
        Seq::empty()
    }
}

/// A non-root node's parent comes before it and has it as a child.
pub open spec fn parent_link(ns: Seq<HuffmanNode>, i: int) -> bool {
    ns[i].parent matches Some(p) && p < i && (ns[p as int].left_child == Some(i as usize)
        || ns[p as int].right_child == Some(i as usize))
}

pub open spec fn child_link(ns: Seq<HuffmanNode>, i: int, c: Option<usize>) -> bool {
    c matches Some(k) ==> i < k < ns.len() && ns[k as int].parent == Some(i as usize)
}

/// A node has two distinct children or none, and a leaf with a symbol has none.
pub open spec fn node_ok(ns: Seq<HuffmanNode>, i: int) -> bool {
    &&& (ns[i].left_child is None <==> ns[i].right_child is None)
    &&& child_link(ns, i, ns[i].left_child)
    &&& child_link(ns, i, ns[i].right_child)
    &&& ns[i].left_child is Some ==> ns[i].left_child != ns[i].right_child
    &&& ns[i].valid_code ==> ns[i].left_child is None
}

/// The arena is a binary tree rooted at node 0.
pub open spec fn wf(ns: Seq<HuffmanNode>) -> bool {
    &&& 1 <= ns.len() <= usize::MAX
    &&& ns[0].parent is None
    &&& forall|i: int| 0 < i < ns.len() ==> #[trigger] parent_link(ns, i)
    &&& forall|i: int| 0 <= i < ns.len() ==> #[trigger] node_ok(ns, i)
}

pub open spec fn is_prefix(a: Seq<bool>, b: Seq<bool>) -> bool {
    a.len() <= b.len() && b.subrange(0, a.len() as int) == a
}

/// No leaf's code is a prefix of, or equal to, another leaf's code.
pub open spec fn prefix_free(ns: Seq<HuffmanNode>) -> bool {
    forall|i: int, j: int|
        0 <= i < ns.len() && 0 <= j < ns.len() && i != j && ns[i].valid_code && ns[j].valid_code
            ==> !is_prefix(#[trigger] code_of(ns, i), #[trigger] code_of(ns, j))
}

/// Node `j` is a leaf with a symbol whose code is `len` bits long.
pub open spec fn counted(ns: Seq<HuffmanNode>, len: nat, j: int) -> bool {
    ns[j].valid_code && code_of(ns, j).len() == len
}

/// The symbols of the leaves among the first `n` nodes whose code is `len` bits long,
/// in node order.
pub open spec fn leaf_values(ns: Seq<HuffmanNode>, len: nat, n: int) -> Seq<u8>
    decreases n,
{
    if n <= 0 {
        Seq::empty()
    } else {
        let prev = leaf_values(ns, len, n - 1);
        if counted(ns, len, n - 1) {
            prev.push(ns[n - 1].value)
        } else {
            prev
        }
    }
}

/// Node `j` of `ns` keeps its parent in `ns2`, and its right child if it had children.
pub open spec fn shape_kept(ns: Seq<HuffmanNode>, ns2: Seq<HuffmanNode>, j: int) -> bool {
    &&& ns2[j].parent == ns[j].parent
    &&& ns[j].left_child is Some ==> ns2[j].right_child == ns[j].right_child
}

pub open spec fn keeps_shape(ns: Seq<HuffmanNode>, ns2: Seq<HuffmanNode>) -> bool {
    &&& ns.len() <= ns2.len()
    &&& forall|j: int| 0 <= j < ns.len() ==> #[trigger] shape_kept(ns, ns2, j)
}

proof fn lemma_code_kept(ns: Seq<HuffmanNode>, ns2: Seq<HuffmanNode>, i: int)
    requires
        wf(ns),
        keeps_shape(ns, ns2),
        0 <= i < ns.len(),
    ensures
        code_of(ns2, i) == code_of(ns, i),
    decreases i,
{
    if i > 0 {
        assert(parent_link(ns, i));
        assert(shape_kept(ns, ns2, i));
        let p = ns[i].parent->Some_0 as int;
        assert(node_ok(ns, p));
        assert(shape_kept(ns, ns2, p));
        lemma_code_kept(ns, ns2, p);
    }
}

proof fn lemma_codes_kept(ns: Seq<HuffmanNode>, ns2: Seq<HuffmanNode>)
    requires
        wf(ns),
        keeps_shape(ns, ns2),
    ensures
        forall|i: int| 0 <= i < ns.len() ==> #[trigger] code_of(ns2, i) == code_of(ns, i),
{
    assert forall|i: int| 0 <= i < ns.len() implies #[trigger] code_of(ns2, i) == code_of(ns, i) by {
        lemma_code_kept(ns, ns2, i);
    }
}

/// Leaf listings agree where the nodes that count agree.
proof fn lemma_frame(ns: Seq<HuffmanNode>, ns2: Seq<HuffmanNode>, len: nat, n: int)
    requires
        0 <= n,
        forall|j: int|
            0 <= j < n ==> #[trigger] counted(ns2, len, j) == counted(ns, len, j) && (counted(
                ns,
                len,
                j,
            ) ==> ns2[j].value == ns[j].value),
    ensures
        leaf_values(ns2, len, n) == leaf_values(ns, len, n),
    decreases n,
{
    if n > 0 {
        lemma_frame(ns, ns2, len, n - 1);
        assert(counted(ns2, len, n - 1) == counted(ns, len, n - 1));
    }
}

/// Nodes that do not count add nothing to a listing.
proof fn lemma_skip(ns: Seq<HuffmanNode>, len: nat, n: int, m: int)
    requires
        0 <= n <= m,
        forall|j: int| n <= j < m ==> !#[trigger] counted(ns, len, j),
    ensures
        leaf_values(ns, len, m) == leaf_values(ns, len, n),
    decreases m - n,
{
    if m > n {
        assert(!counted(ns, len, m - 1));
        lemma_skip(ns, len, n, m - 1);
    }
}

/// Equal codes are the same node.
proof fn lemma_code_injective(ns: Seq<HuffmanNode>, a: int, b: int)
    requires
        wf(ns),
        0 <= a < ns.len(),
        0 <= b < ns.len(),
        code_of(ns, a) == code_of(ns, b),
    ensures
        a == b,
    decreases a,
{
    if a > 0 {
        assert(parent_link(ns, a));
    }
    if b > 0 {
        assert(parent_link(ns, b));
    }
    assert(code_of(ns, 0).len() == 0);
    if a > 0 && b > 0 {
        let pa = ns[a].parent->Some_0 as int;
        let pb = ns[b].parent->Some_0 as int;
        assert(code_of(ns, pa) == code_of(ns, a).drop_last());
        assert(code_of(ns, pb) == code_of(ns, b).drop_last());
        lemma_code_injective(ns, pa, pb);
        assert(node_ok(ns, pa));
        assert(code_of(ns, a).last() == (ns[pa].right_child == Some(a as usize)));
        assert(code_of(ns, b).last() == (ns[pa].right_child == Some(b as usize)));
    }
}

/// Every prefix of a node's code is the code of one of its ancestors, and a proper
/// prefix belongs to a node with children.
proof fn lemma_ancestor(ns: Seq<HuffmanNode>, j: int, m: int) -> (a: int)
    requires
        wf(ns),
        0 <= j < ns.len(),
        0 <= m <= code_of(ns, j).len(),
    ensures
        0 <= a < ns.len(),
        m == code_of(ns, j).len() ==> a == j,
        code_of(ns, a) == code_of(ns, j).subrange(0, m),
        m < code_of(ns, j).len() ==> ns[a].left_child is Some,
    decreases j,
{
    if m == code_of(ns, j).len() {
        assert(code_of(ns, j).subrange(0, m) == code_of(ns, j));
        j
    } else {
        assert(j > 0);
        assert(parent_link(ns, j));
        let p = ns[j].parent->Some_0 as int;
        assert(node_ok(ns, p));
        let a = lemma_ancestor(ns, p, m);
        assert(code_of(ns, p).subrange(0, m) == code_of(ns, j).subrange(0, m));
        a
    }
}

/// In a well-formed tree the leaves' codes are prefix-free.
pub proof fn lemma_prefix_free(ns: Seq<HuffmanNode>)
    requires
        wf(ns),
    ensures
        prefix_free(ns),
{
    assert forall|i: int, j: int|
        0 <= i < ns.len() && 0 <= j < ns.len() && i != j && ns[i].valid_code
            && ns[j].valid_code implies !is_prefix(
        #[trigger] code_of(ns, i),
        #[trigger] code_of(ns, j),
    ) by {
        if is_prefix(code_of(ns, i), code_of(ns, j)) {
            assert(code_of(ns, j).subrange(0, code_of(ns, i).len() as int) == code_of(ns, i));
            let m = code_of(ns, i).len() as int;
            let a = lemma_ancestor(ns, j, m);
            lemma_code_injective(ns, a, i);
            assert(node_ok(ns, i));
            assert(node_ok(ns, j));
        }
    }
}

/// Two to the power `e`: the most nodes that a level `e` deep can hold.
pub open spec fn level_cap(e: nat) -> nat
    decreases e,
{
    if e == 0 {
        1
    } else {
        2 * level_cap((e - 1) as nat)
    }
}

proof fn lemma_level_cap(e: nat)
    requires
        e <= 19,
    ensures
        level_cap(e) <= 524288,
    decreases 19 - e,
{
    if e < 19 {
        lemma_level_cap(e + 1);
    } else {
        reveal_with_fuel(level_cap, 20);
    }
}

/// A code read as a binary number, first bit most significant.
pub open spec fn bits_value(c: Seq<bool>) -> int
    decreases c.len(),
{
    if c.len() == 0 {
        0
    } else {
        2 * bits_value(c.drop_last()) + if c.last() {
            1int
        } else {
            0int
        }
    }
}

/// The value of the first code of `len` bits in the canonical code of `t`: codes of
/// one length are consecutive, and each length starts at twice the value that
/// follows the last code of the length before.
pub open spec fn first_code(t: Seq<Seq<u8>>, len: nat) -> int
    decreases len,
{
    if len <= 1 {
        0
    } else {
        2 * (first_code(t, (len - 1) as nat) + t[len - 2].len())
    }
}

/// Leaf `x` has the canonical code: among the leaves with codes of its length, the
/// `j`-th in node order has the code whose value is `first_code` of that length plus `j`.
pub open spec fn canonical_at(ns: Seq<HuffmanNode>, t: Seq<Seq<u8>>, x: int) -> bool {
    bits_value(code_of(ns, x)) == first_code(t, code_of(ns, x).len()) + leaf_values(
        ns,
        code_of(ns, x).len(),
        x,
    ).len()
}

/// Node `j` is the `(j - lo)`-th code of `len` bits after the first.
pub open spec fn in_order(ns: Seq<HuffmanNode>, t: Seq<Seq<u8>>, j: int, lo: int, len: nat) -> bool {
    bits_value(code_of(ns, j)) == first_code(t, len) + (j - lo)
}

/// Codes never get shorter along the arena: shorter codes come first.
pub open spec fn depth_monotone(ns: Seq<HuffmanNode>) -> bool {
    forall|a: int, b: int|
        0 <= a <= b < ns.len() ==> #[trigger] code_of(ns, a).len() <= #[trigger] code_of(ns, b).len()
}

/// The symbols of each code length that a decode tree holds.
pub open spec fn tree_table(ns: Seq<HuffmanNode>) -> Seq<Seq<u8>> {
    Seq::new(16, |l: int| leaf_values(ns, (l + 1) as nat, ns.len() as int))
}

/// A finished canonical decode tree: a well-formed, prefix-free tree of fewer than
/// 2^18 nodes, none deeper than 17 levels, with shorter codes first in the arena;
/// every leaf has a code of 1 to 16 bits, the canonical one for the symbols it holds,
/// and every other childless node is an unused slot 17 levels deep.
pub open spec fn canonical_tree(ns: Seq<HuffmanNode>) -> bool {
    &&& wf(ns)
    &&& prefix_free(ns)
    &&& ns.len() < level_cap(18)
    &&& depth_monotone(ns)
    &&& forall|j: int| 0 <= j < ns.len() ==> (#[trigger] code_of(ns, j)).len() <= 17
    &&& forall|j: int|
        0 <= j < ns.len() && ns[j].valid_code ==> 1 <= (#[trigger] code_of(ns, j)).len() <= 16
            && canonical_at(ns, tree_table(ns), j)
    &&& forall|j: int|
        0 <= j < ns.len() && !ns[j].valid_code && ns[j].left_child is None ==> (#[trigger] code_of(
            ns,
            j,
        )).len() == 17
}

proof fn lemma_bits_push(c: Seq<bool>, b: bool)
    ensures
        bits_value(c.push(b)) == 2 * bits_value(c) + if b {
            1int
        } else {
            0int
        },
{
    assert(c.push(b).drop_last() =~= c);
}

/// A childless node without symbol whose code is `len` bits long.
pub open spec fn frontier_node(ns: Seq<HuffmanNode>, j: int, len: nat) -> bool {
    &&& code_of(ns, j).len() == len
    &&& !ns[j].valid_code
    &&& ns[j].left_child is None
}

/// The code and symbol of every leaf among the first `n` nodes, in node order.
pub open spec fn listing(ns: Seq<HuffmanNode>, n: int) -> Seq<(Seq<bool>, u8)>
    decreases n,
{
    if n <= 0 {
        Seq::empty()
    } else if ns[n - 1].valid_code {
        listing(ns, n - 1).push((code_of(ns, n - 1), ns[n - 1].value))
    } else {
        listing(ns, n - 1)
    }
}

/// A fresh node with no links and no symbol, under `parent` if given.
pub open spec fn empty_node(parent: Option<usize>) -> HuffmanNode {
    HuffmanNode { value: 0, parent, left_child: None, right_child: None, valid_code: false }
}

impl HuffmanNode {
    /// A root node: no links, no symbol.
    pub fn new() -> (r: Self)
        ensures
            r == empty_node(None),
    {
        Self { value: 0, parent: None, left_child: None, right_child: None, valid_code: false }
    }

    /// A node without children or symbol under `parent`.
    pub fn new_with_parent(parent: usize) -> (r: Self)
        ensures
            r == empty_node(Some(parent)),
    {
        Self {
            value: 0,
            parent: Some(parent),
            left_child: None,
            right_child: None,
            valid_code: false,
        }
    }
}

/// A canonical Huffman decode tree, held as an arena of nodes with the root at index 0.
pub struct HuffmanTree {
    nodes: Vec<HuffmanNode>,
}

impl View for HuffmanTree {
    type V = Seq<HuffmanNode>;

    closed spec fn view(&self) -> Seq<HuffmanNode> {
        self.nodes@
    }
}

impl HuffmanTree {
    /// The canonical decode tree of `huffman_table`.
    ///
    /// Its leaves are exactly the table's symbols: for each length, the leaves whose
    /// code has that many bits carry that length's symbols, in table order from left
    /// to right; no leaf has a code outside 1 to 16 bits, and no leaf's code is a
    /// prefix of another's.
    pub fn new(huffman_table: &HuffmanTable) -> (r: Self)
        requires
            fits(table_view(huffman_table)),
        ensures
            wf(r@),
            prefix_free(r@),
            forall|len: nat|
                1 <= len <= 16 ==> #[trigger] leaf_values(r@, len, r@.len() as int)
                    == table_view(huffman_table)[len - 1],
            forall|j: int|
                0 <= j < r@.len() && r@[j].valid_code ==> 1 <= (#[trigger] code_of(r@, j)).len()
                    <= 16,
            forall|x: int|
                0 <= x < r@.len() && r@[x].valid_code ==> #[trigger] canonical_at(
                    r@,
                    table_view(huffman_table),
                    x,
                ),
            r@.len() < level_cap(18),
            forall|j: int| 0 <= j < r@.len() ==> (#[trigger] code_of(r@, j)).len() <= 17,
            depth_monotone(r@),
            forall|j: int|
                0 <= j < r@.len() && !r@[j].valid_code && r@[j].left_child is None ==> (
                #[trigger] code_of(r@, j)).len() == 17,
            tree_table(r@) == table_view(huffman_table),
            canonical_tree(r@),
    {
        let mut tree = Self { nodes: Vec::new() };
        tree.nodes.push(HuffmanNode::new());
        proof {
            assert(tree@ == seq![empty_node(None)]);
        }
        tree.construct_tree(huffman_table);
        proof {
            lemma_prefix_free(tree@);
            assert(tree_table(tree@) =~= table_view(huffman_table));
        }
        tree
    }

    /// Whether the code lengths of `huffman_table` fit in a 16-level tree
    /// (the Kraft inequality), the condition under which a tree can be built.
    pub fn fits_table(huffman_table: &HuffmanTable) -> (r: bool)
        ensures
            r == fits(table_view(huffman_table)),
    {
        let ghost t = table_view(huffman_table);
        let mut open: usize = 2;
        let mut len: usize = 1;
        proof {
            reveal_with_fuel(level_cap, 2);
        }
        while len <= 16
            invariant
                t == table_view(huffman_table),
                1 <= len <= 17,
                open == open_slots(t, len as nat),
                open <= level_cap(len as nat),
                level_cap(len as nat) <= 524288,
                forall|l: nat| 1 <= l < len ==> t[l - 1].len() <= #[trigger] open_slots(t, l),
            decreases 17 - len,
        {
            let count = huffman_table[len - 1].len();
            if count > open {
                return false;
            }
            open = 2 * (open - count);
            proof {
                lemma_level_cap((len + 1) as nat);
            }
            len = len + 1;
        }
        true
    }

    /// The number of nodes in the arena.
    pub fn node_count(&self) -> (r: usize)
        ensures
            r == self@.len(),
    {
        self.nodes.len()
    }

    /// The code of node `i`: one entry per step from the root, `true` for a right step.
    fn code_bits(&self, i: usize) -> (r: Vec<bool>)
        requires
            wf(self@),
            i < self@.len(),
        ensures
            r@ == code_of(self@, i as int),
        decreases i,
    {
        if i == 0 {
            Vec::new()
        } else {
            proof {
                assert(parent_link(self@, i as int));
            }
            let parent = self.nodes[i].parent.unwrap();
            let mut code = self.code_bits(parent);
            code.push(self.nodes[parent].right_child == Some(i));
            code
        }
    }

    /// The code and symbol of every leaf, in arena order, for printing.
    pub fn print_codes(&self) -> (r: Vec<(Vec<bool>, u8)>)
        requires
            wf(self@),
        ensures
            r@.len() == listing(self@, self@.len() as int).len(),
            forall|k: int|
                0 <= k < r@.len() ==> (#[trigger] r@[k]).0@ == listing(self@, self@.len() as int)[k].0
                    && r@[k].1 == listing(self@, self@.len() as int)[k].1,
    {
        let mut out: Vec<(Vec<bool>, u8)> = Vec::new();
        let mut x: usize = 0;
        while x < self.nodes.len()
            invariant
                wf(self@),
                x <= self@.len(),
                out@.len() == listing(self@, x as int).len(),
                forall|k: int|
                    0 <= k < out@.len() ==> (#[trigger] out@[k]).0@ == listing(self@, x as int)[k].0
                        && out@[k].1 == listing(self@, x as int)[k].1,
            decreases self@.len() - x,
        {
            if self.nodes[x].valid_code {
                let code = self.code_bits(x);
                out.push((code, self.nodes[x].value));
            }
            x = x + 1;
        }
        out
    }

    /// Gives node `node_index`, a childless node without symbol, two empty children,
    /// appended to the arena (left first).
    fn add_empty_childs(&mut self, node_index: usize)
        requires
            wf(old(self)@),
            node_index < old(self)@.len(),
            old(self)@[node_index as int].left_child is None,
            !old(self)@[node_index as int].valid_code,
            old(self)@.len() + 2 <= usize::MAX,
        ensures
            final(self)@.len() == old(self)@.len() + 2,
            final(self)@[old(self)@.len() as int] == empty_node(Some(node_index)),
            final(self)@[old(self)@.len() + 1int] == empty_node(Some(node_index)),
            final(self)@[node_index as int] == (HuffmanNode {
                left_child: Some(old(self)@.len() as usize),
                right_child: Some((old(self)@.len() + 1) as usize),
                ..old(self)@[node_index as int]
            }),
            forall|j: int|
                0 <= j < old(self)@.len() && j != node_index ==> #[trigger] final(self)@[j] == old(
                    self,
                )@[j],
            wf(final(self)@),
            keeps_shape(old(self)@, final(self)@),
            code_of(final(self)@, old(self)@.len() as int) == code_of(
                old(self)@,
                node_index as int,
            ).push(false),
            code_of(final(self)@, old(self)@.len() + 1int) == code_of(
                old(self)@,
                node_index as int,
            ).push(true),
    {
        let ghost ns = self@;
        let left_node_index = self.nodes.len();
        self.nodes.push(HuffmanNode::new_with_parent(node_index));
        let right_node_index = self.nodes.len();
        self.nodes.push(HuffmanNode::new_with_parent(node_index));
        let mut node = self.nodes[node_index];
        node.left_child = Some(left_node_index);
        node.right_child = Some(right_node_index);
        self.nodes.set(node_index, node);
        let ghost ns2 = self@;
        proof {
        assert forall|i: int| 0 < i < ns2.len() implies #[trigger] parent_link(ns2, i) by {
            if i < ns.len() {
                assert(parent_link(ns, i));
                assert(node_ok(ns, node_index as int));
            }
        }
        assert forall|i: int| 0 <= i < ns2.len() implies #[trigger] node_ok(ns2, i) by {
            if i < ns.len() && i != node_index {
                assert(node_ok(ns, i));
            }
        }
        assert forall|j: int| 0 <= j < ns.len() implies #[trigger] shape_kept(ns, ns2, j) by {}
        lemma_codes_kept(ns, ns2);
        assert(parent_link(ns2, left_node_index as int));
        assert(parent_link(ns2, right_node_index as int));
        assert(code_of(ns2, node_index as int) == code_of(ns, node_index as int));
        assert(code_of(ns2, left_node_index as int) == code_of(ns2, node_index as int).push(false));
        assert(code_of(ns2, right_node_index as int) == code_of(ns2, node_index as int).push(true));
        }
    }

    /// Builds the canonical code tree of `huffman_table`, level by level.
    ///
    /// Each level's nodes lie next to each other in the arena, in left-to-right
    /// order, so the open slots of the current level are the index range `lo..`
    /// up to the arena's end. The first slots of a level take that length's symbols,
    /// in order; each remaining slot grows two children, which open the next level.
    fn construct_tree(&mut self, huffman_table: &HuffmanTable)
        requires
            fits(table_view(huffman_table)),
            old(self)@ == seq![empty_node(None)],
        ensures
            wf(final(self)@),
            forall|len: nat|
                1 <= len <= 16 ==> #[trigger] leaf_values(final(self)@, len, final(self)@.len() as int)
                    == table_view(huffman_table)[len - 1],
            forall|j: int|
                0 <= j < final(self)@.len() && final(self)@[j].valid_code ==> 1 <= (
                #[trigger] code_of(final(self)@, j)).len() <= 16,
            forall|x: int|
                0 <= x < final(self)@.len() && final(self)@[x].valid_code ==> #[trigger] canonical_at(
                    final(self)@,
                    table_view(huffman_table),
                    x,
                ),
            final(self)@.len() < level_cap(18),
            forall|j: int| 0 <= j < final(self)@.len() ==> (#[trigger] code_of(final(self)@, j)).len() <= 17,
            depth_monotone(final(self)@),
            forall|j: int|
                0 <= j < final(self)@.len() && !final(self)@[j].valid_code
                    && final(self)@[j].left_child is None ==> (#[trigger] code_of(final(self)@, j)).len()
                    == 17,
    {
        let ghost t = table_view(huffman_table);
        proof {
            assert(node_ok(self@, 0));
            reveal_with_fuel(level_cap, 3);
        }
        self.add_empty_childs(0);
        proof {
            assert(code_of(self@, 0).len() == 0);
            lemma_bits_push(code_of(self@, 0), false);
            lemma_bits_push(code_of(self@, 0), true);
            assert(in_order(self@, t, 1, 1, 1));
            assert(in_order(self@, t, 2, 1, 1));
            assert(code_of(self@, 1).len() == 1 && code_of(self@, 2).len() == 1);
            assert forall|a: int, b: int|
                0 <= a <= b < self@.len() implies #[trigger] code_of(self@, a).len()
                <= #[trigger] code_of(self@, b).len() by {}
        }
        let mut lo: usize = 1;
        let mut i: usize = 0;
        while i < 16
            invariant
                fits(t),
                t == table_view(huffman_table),
                0 <= i <= 16,
                wf(self@),
                1 <= lo <= self@.len(),
                self@.len() - lo == open_slots(t, (i + 1) as nat),
                self@.len() - lo <= level_cap((i + 1) as nat),
                self@.len() + 1 <= level_cap((i + 2) as nat),
                forall|j: int| 0 <= j < lo ==> (#[trigger] code_of(self@, j)).len() <= i,
                forall|j: int| lo <= j < self@.len() ==> #[trigger] frontier_node(self@, j, (i + 1) as nat),
                forall|j: int|
                    0 <= j < self@.len() && self@[j].valid_code ==> 1 <= (#[trigger] code_of(
                        self@,
                        j,
                    )).len() <= i,
                forall|len: nat|
                    1 <= len <= i ==> #[trigger] leaf_values(self@, len, self@.len() as int) == t[len
                        - 1],
                forall|j: int| lo <= j < self@.len() ==> #[trigger] in_order(self@, t, j, lo as int, (i + 1) as nat),
                forall|x: int|
                    0 <= x < self@.len() && self@[x].valid_code ==> #[trigger] canonical_at(self@, t, x),
                depth_monotone(self@),
                forall|x: int| 0 <= x < lo ==> (#[trigger] self@[x]).left_child is Some || self@[x].valid_code,
            decreases 16 - i,
        {
            let hi = self.nodes.len();
            let count = Self::symbol_count_of_length(huffman_table, i + 1);
            let ghost level = (i + 1) as nat;
            let ghost ns0 = self@;
            proof {
                assert(t[level - 1].len() <= open_slots(t, level));
                assert forall|len: nat| len >= level implies #[trigger] leaf_values(ns0, len, hi as int)
                    == Seq::<u8>::empty() by {
                    assert forall|x: int| 0 <= x < hi implies !#[trigger] counted(ns0, len, x) by {
                        if x >= lo {
                            assert(frontier_node(ns0, x, level));
                        }
                    }
                    lemma_skip(ns0, len, 0, hi as int);
                }
            }
            // The first `count` open slots of this level become leaves.
            let mut j: usize = 0;
            while j < count
                invariant
                    fits(t),
                    t == table_view(huffman_table),
                    i < 16,
                    level == i + 1,
                    count == t[i as int].len(),
                    lo + count <= hi,
                    hi == ns0.len(),
                    wf(ns0),
                    0 <= j <= count,
                    self@.len() == hi,
                    wf(self@),
                    keeps_shape(ns0, self@),
                    forall|x: int| 0 <= x < hi ==> #[trigger] code_of(self@, x) == code_of(ns0, x),
                    forall|x: int|
                        0 <= x < hi && !(lo <= x < lo + j) ==> #[trigger] self@[x] == ns0[x],
                    forall|x: int|
                        lo <= x < lo + j ==> #[trigger] self@[x] == (HuffmanNode {
                            valid_code: true,
                            value: t[i as int][x - lo],
                            ..ns0[x]
                        }),
                    forall|x: int| lo <= x < hi ==> #[trigger] frontier_node(ns0, x, level),
                    forall|x: int| lo <= x < hi ==> #[trigger] in_order(ns0, t, x, lo as int, level),
                    forall|x: int|
                        0 <= x < hi && self@[x].valid_code ==> #[trigger] canonical_at(self@, t, x),
                    leaf_values(self@, level, hi as int) == t[i as int].take(j as int),
                    forall|len: nat|
                        len != level ==> #[trigger] leaf_values(self@, len, hi as int) == leaf_values(
                            ns0,
                            len,
                            hi as int,
                        ),
                decreases count - j,
            {
                let k = lo + j;
                let ghost prev = self@;
                let mut node = self.nodes[k];
                node.value = huffman_table[i][j];
                node.valid_code = true;
                self.nodes.set(k, node);
                proof {
                    let cur = self@;
                    assert(frontier_node(ns0, k as int, level));
                    assert forall|x: int| 0 < x < cur.len() implies #[trigger] parent_link(cur, x) by {
                        assert(parent_link(prev, x));
                    }
                    assert forall|x: int| 0 <= x < cur.len() implies #[trigger] node_ok(cur, x) by {
                        assert(node_ok(prev, x));
                    }
                    assert forall|x: int| 0 <= x < prev.len() implies #[trigger] shape_kept(
                        prev,
                        cur,
                        x,
                    ) by {}
                    assert forall|x: int| 0 <= x < ns0.len() implies #[trigger] shape_kept(
                        ns0,
                        cur,
                        x,
                    ) by {
                        assert(shape_kept(ns0, prev, x));
                    }
                    lemma_codes_kept(prev, cur);
                    assert forall|len: nat| len != level implies #[trigger] leaf_values(
                        cur,
                        len,
                        hi as int,
                    ) == leaf_values(ns0, len, hi as int) by {
                        assert forall|x: int| 0 <= x < hi implies #[trigger] counted(cur, len, x)
                            == counted(prev, len, x) && (counted(prev, len, x) ==> cur[x].value
                            == prev[x].value) by {
                            assert(code_of(cur, x) == code_of(prev, x));
                        }
                        lemma_frame(prev, cur, len, hi as int);
                    }
                    assert forall|x: int| 0 <= x < k implies #[trigger] counted(cur, level, x)
                        == counted(prev, level, x) && (counted(prev, level, x) ==> cur[x].value
                        == prev[x].value) by {
                        assert(code_of(cur, x) == code_of(prev, x));
                    }
                    lemma_frame(prev, cur, level, k as int);
                    assert forall|x: int| k <= x < hi implies !#[trigger] counted(prev, level, x) by {
                        assert(frontier_node(ns0, x, level));
                    }
                    lemma_skip(prev, level, k as int, hi as int);
                    assert(counted(cur, level, k as int));
                    assert forall|x: int| k + 1 <= x < hi implies !#[trigger] counted(cur, level, x) by {
                        assert(frontier_node(ns0, x, level));
                    }
                    lemma_skip(cur, level, k + 1, hi as int);
                    assert forall|x: int|
                        0 <= x < hi && cur[x].valid_code implies #[trigger] canonical_at(cur, t, x) by {
                        if x == k {
                            assert(in_order(ns0, t, x, lo as int, level));
                            assert(code_of(cur, x) == code_of(prev, x));
                        } else {
                            if x >= k {
                                assert(frontier_node(ns0, x, level));
                            }
                            assert(canonical_at(prev, t, x));
                            let cl = code_of(prev, x).len();
                            assert(code_of(cur, x) == code_of(prev, x));
                            assert forall|y: int| 0 <= y < x implies #[trigger] counted(cur, cl, y)
                                == counted(prev, cl, y) && (counted(prev, cl, y) ==> cur[y].value
                                == prev[y].value) by {
                                assert(code_of(cur, y) == code_of(prev, y));
                            }
                            lemma_frame(prev, cur, cl, x);
                        }
                    }
                    assert(t[i as int].take(j as int).push(t[i as int][j as int]) == t[i as int].take(
                        j + 1,
                    ));
                }
                j = j + 1;
            }
            let ghost ns1 = self@;
            proof {
                assert(t[i as int].take(count as int) == t[i as int]);
                lemma_level_cap(level + 2);
                assert forall|x: int| lo + count <= x < hi implies #[trigger] frontier_node(
                    ns1,
                    x,
                    level,
                ) by {
                    assert(frontier_node(ns0, x, level));
                    assert(code_of(ns1, x) == code_of(ns0, x));
                }
                assert forall|x: int| lo + count <= x < hi implies #[trigger] in_order(
                    ns1,
                    t,
                    x,
                    lo as int,
                    level,
                ) by {
                    assert(in_order(ns0, t, x, lo as int, level));
                    assert(code_of(ns1, x) == code_of(ns0, x));
                }
            }
            // Every other open slot grows two children for the next level.
            let mut k: usize = lo + count;
            while k < hi
                invariant
                    fits(t),
                    t == table_view(huffman_table),
                    i < 16,
                    level == i + 1,
                    lo + count <= k <= hi,
                    hi == ns1.len(),
                    wf(ns1),
                    self@.len() == hi + 2 * (k - lo - count),
                    hi + 1 <= level_cap(level + 1),
                    hi - lo <= level_cap(level),
                    level_cap(level + 2) <= 524288,
                    wf(self@),
                    keeps_shape(ns1, self@),
                    forall|x: int| 0 <= x < hi ==> #[trigger] code_of(self@, x) == code_of(ns1, x),
                    forall|x: int|
                        0 <= x < hi && (x < lo + count || x >= k) ==> #[trigger] self@[x] == ns1[x],
                    forall|x: int| lo + count <= x < k ==> (#[trigger] self@[x]).left_child is Some,
                    forall|x: int|
                        0 <= x < hi ==> #[trigger] self@[x].valid_code == ns1[x].valid_code
                            && self@[x].value == ns1[x].value,
                    forall|x: int| lo + count <= x < hi ==> #[trigger] frontier_node(ns1, x, level),
                    forall|x: int| hi <= x < self@.len() ==> #[trigger] frontier_node(self@, x, level + 1),
                    forall|x: int| lo + count <= x < hi ==> #[trigger] in_order(ns1, t, x, lo as int, level),
                    forall|x: int|
                        hi <= x < self@.len() ==> #[trigger] in_order(self@, t, x, hi as int, level + 1),
                    first_code(t, level + 1) == 2 * (first_code(t, level) + count),
                    forall|x: int|
                        0 <= x < self@.len() && self@[x].valid_code ==> #[trigger] canonical_at(self@, t, x),
                    forall|len: nat|
                        #[trigger] leaf_values(self@, len, self@.len() as int) == leaf_values(
                            ns1,
                            len,
                            hi as int,
                        ),
                decreases hi - k,
            {
                let ghost prev = self@;
                proof {
                    assert(frontier_node(ns1, k as int, level));
                    assert(prev[k as int] == ns1[k as int]);
                }
                self.add_empty_childs(k);
                proof {
                    let cur = self@;
                    assert forall|x: int| 0 <= x < ns1.len() implies #[trigger] shape_kept(
                        ns1,
                        cur,
                        x,
                    ) by {
                        assert(shape_kept(ns1, prev, x));
                        assert(shape_kept(prev, cur, x));
                    }
                    lemma_codes_kept(prev, cur);
                    assert forall|x: int| hi <= x < cur.len() implies #[trigger] frontier_node(
                        cur,
                        x,
                        level + 1,
                    ) by {
                        if x < prev.len() {
                            assert(frontier_node(prev, x, level + 1));
                        }
                    }
                    assert forall|x: int| 0 <= x < hi implies #[trigger] cur[x].valid_code
                        == ns1[x].valid_code && cur[x].value == ns1[x].value by {
                        assert(prev[x].valid_code == ns1[x].valid_code && prev[x].value == ns1[x].value);
                    }
                    assert(in_order(ns1, t, k as int, lo as int, level));
                    lemma_bits_push(code_of(prev, k as int), false);
                    lemma_bits_push(code_of(prev, k as int), true);
                    assert forall|x: int| hi <= x < cur.len() implies #[trigger] in_order(
                        cur,
                        t,
                        x,
                        hi as int,
                        level + 1,
                    ) by {
                        if x < prev.len() {
                            assert(in_order(prev, t, x, hi as int, level + 1));
                            assert(code_of(cur, x) == code_of(prev, x));
                        }
                    }
                    assert forall|x: int|
                        0 <= x < cur.len() && cur[x].valid_code implies #[trigger] canonical_at(
                        cur,
                        t,
                        x,
                    ) by {
                        assert(x < prev.len());
                        assert(canonical_at(prev, t, x));
                        let cl = code_of(prev, x).len();
                        assert(code_of(cur, x) == code_of(prev, x));
                        assert forall|y: int| 0 <= y < x implies #[trigger] counted(cur, cl, y)
                            == counted(prev, cl, y) && (counted(prev, cl, y) ==> cur[y].value
                            == prev[y].value) by {
                            assert(code_of(cur, y) == code_of(prev, y));
                        }
                        lemma_frame(prev, cur, cl, x);
                    }
                    assert forall|len: nat| #[trigger] leaf_values(cur, len, cur.len() as int)
                        == leaf_values(ns1, len, hi as int) by {
                        assert forall|x: int| 0 <= x < prev.len() implies #[trigger] counted(
                            cur,
                            len,
                            x,
                        ) == counted(prev, len, x) && (counted(prev, len, x) ==> cur[x].value
                            == prev[x].value) by {
                            assert(code_of(cur, x) == code_of(prev, x));
                        }
                        lemma_frame(prev, cur, len, prev.len() as int);
                        lemma_skip(cur, len, prev.len() as int, cur.len() as int);
                        assert(leaf_values(prev, len, prev.len() as int) == leaf_values(
                            ns1,
                            len,
                            hi as int,
                        ));
                    }
                }
                k = k + 1;
            }
            proof {
                let ns = self@;
                assert forall|x: int| 0 <= x < hi implies (#[trigger] code_of(ns, x)).len() <= level by {
                    assert(code_of(ns, x) == code_of(ns1, x));
                    assert(code_of(ns1, x) == code_of(ns0, x));
                    if x >= lo {
                        assert(frontier_node(ns0, x, level));
                    }
                }
                assert forall|x: int|
                    0 <= x < ns.len() && ns[x].valid_code implies 1 <= (#[trigger] code_of(
                        ns,
                        x,
                    )).len() <= level by {
                    if x >= hi {
                        assert(frontier_node(ns, x, level + 1));
                    } else {
                        assert(code_of(ns, x) == code_of(ns1, x));
                        assert(code_of(ns1, x) == code_of(ns0, x));
                        assert(ns[x].valid_code == ns1[x].valid_code);
                        if x < lo {
                            assert(ns1[x] == ns0[x]);
                        } else {
                            assert(frontier_node(ns0, x, level));
                        }
                    }
                }
                assert forall|len: nat| 1 <= len <= level implies #[trigger] leaf_values(
                    ns,
                    len,
                    ns.len() as int,
                ) == t[len - 1] by {
                    if len < level {
                        assert(leaf_values(ns1, len, hi as int) == leaf_values(ns0, len, hi as int));
                    }
                }
                assert forall|a: int, b: int|
                    0 <= a <= b < ns.len() implies #[trigger] code_of(ns, a).len()
                    <= #[trigger] code_of(ns, b).len() by {
                    if b < hi {
                        assert(code_of(ns, a) == code_of(ns1, a));
                        assert(code_of(ns1, a) == code_of(ns0, a));
                        assert(code_of(ns, b) == code_of(ns1, b));
                        assert(code_of(ns1, b) == code_of(ns0, b));
                        assert(code_of(ns0, a).len() <= code_of(ns0, b).len());
                    } else if a >= hi {
                        assert(frontier_node(ns, a, level + 1));
                        assert(frontier_node(ns, b, level + 1));
                    } else {
                        assert(code_of(ns, a).len() <= level);
                        assert(frontier_node(ns, b, level + 1));
                    }
                }
                assert forall|x: int| 0 <= x < hi implies (#[trigger] ns[x]).left_child is Some
                    || ns[x].valid_code by {
                    if x < lo {
                        assert(ns1[x] == ns0[x]);
                        assert(ns0[x].left_child is Some || ns0[x].valid_code);
                        assert(ns[x] == ns1[x]);
                    } else if x < lo + count {
                        assert(ns[x] == ns1[x]);
                    }
                }
            }
            lo = hi;
            i = i + 1;
        }
        proof {
            let ns = self@;
            assert forall|j: int| 0 <= j < ns.len() implies (#[trigger] code_of(ns, j)).len() <= 17 by {
                if j >= lo {
                    assert(frontier_node(ns, j, 17));
                }
            }
            assert forall|j: int|
                0 <= j < ns.len() && !ns[j].valid_code && ns[j].left_child is None implies (
                #[trigger] code_of(ns, j)).len() == 17 by {
                if j < lo {
                    assert(ns[j].left_child is Some || ns[j].valid_code);
                } else {
                    assert(frontier_node(ns, j, 17));
                }
            }
        }
    }

    fn symbol_count_of_length(huffman_table: &HuffmanTable, length: usize) -> (r: usize)
        requires
            1 <= length <= 16,
        ensures
            r == table_view(huffman_table)[length - 1].len(),
    {
        huffman_table[length - 1].len()
    }
}

} // verus!
