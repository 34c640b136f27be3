//! The Merkle tree proper: flat node storage, construction, and navigation.
//!
//! Nodes live in one vector; all parent, child and sibling links are indices
//! into it. Slot 0 is reserved for the root. For `n` leaves (`n` a power of
//! two, `n >= 2`) the finished layout is: leaves at `1..=n` in input order,
//! internal nodes appended pairing-by-pairing at `n+1..=2n-2` with every
//! row fully sibling-chained left to right, and the root written into slot 0
//! last. A single leaf is promoted to be the root itself.

use crate::helper::calculate_tree_size;
use crate::helper::is_power_of_two;
use crate::helper::is_power_of_two_exec;
use vstd::prelude::*;

verus! {

/// Index position of the Node in tree.
pub type NodeId = usize;

/// Node represents each node/leaf in the MerkleTree. This can be a parent
/// or child.
pub struct Node<T> {
    pub parent: Option<NodeId>,
    pub sibling_left: Option<NodeId>,
    pub sibling_right: Option<NodeId>,
    pub child_left: Option<NodeId>,
    pub child_right: Option<NodeId>,
    pub value: Option<T>,
    pub digest: Option<u64>,
}

/// How a construction call can fail.
#[derive(Clone, Copy, PartialEq, Eq, Structural, Debug)]
pub enum MerkleError {
    /// The input length is zero or not a power of two; raised before any
    /// node is allocated.
    InvalidInputSize,
    /// An accessor was handed an index beyond the node count.
    IndexOutOfRange,
    /// Construction would need a slot count other than the calculated size.
    CapacityMismatch,
}

/// Merkle Tree structure that holds a vector of Nodes.
pub struct MerkleTree<T> {
    pub nodes: Vec<Node<T>>,
}

/// A freshly created node: no links, no value, no digest.
pub open spec fn blank_node<T>(nd: Node<T>) -> bool {
    &&& nd.parent is None
    &&& nd.sibling_left is None
    &&& nd.sibling_right is None
    &&& nd.child_left is None
    &&& nd.child_right is None
    &&& nd.value is None
    &&& nd.digest is None
}

/// Parent index of the non-root node `j` in a finished tree over `n` leaves:
/// the last pair `(2n-3, 2n-2)` hangs off the root at slot 0; every earlier
/// pair `(j, j+1)` hangs off the node appended for it at `n + (j+1)/2`.
pub open spec fn spec_parent(n: int, j: int) -> int {
    if j >= 2 * n - 3 {
        0
    } else {
        n + (j + 1) / 2
    }
}

/// Left child of the internal node `p` (`p == 0` meaning the root).
pub open spec fn spec_child_left(n: int, p: int) -> int {
    if p == 0 {
        2 * n - 3
    } else {
        2 * (p - n) - 1
    }
}

/// Right child of the internal node `p` (`p == 0` meaning the root).
pub open spec fn spec_child_right(n: int, p: int) -> int {
    if p == 0 {
        2 * n - 2
    } else {
        2 * (p - n)
    }
}

/// Whether slot `j` ends a row. Rows of a tree over `n` leaves end exactly
/// where `2n - j` is a power of two: the leaf row at `n`, the first parent
/// row at `2n - n/2`, and so on up to the two-node row ending at `2n - 2`.
pub open spec fn is_row_end(n: int, j: int) -> bool {
    is_power_of_two((2 * n - j) as nat)
}

/// Whether slot `j` begins a row: slot 1, or the slot right after a row end.
pub open spec fn is_row_start(n: int, j: int) -> bool {
    j == 1 || is_row_end(n, j - 1)
}

/// The leaf at slot `j` (`1 <= j <= n`): it carries a value, has no
/// children, and sits in the fully chained leaf row.
pub open spec fn leaf_links_ok<T>(nodes: Seq<Node<T>>, n: int, j: int) -> bool {
    &&& nodes[j].value is Some
    &&& nodes[j].child_left is None
    &&& nodes[j].child_right is None
    &&& nodes[j].sibling_left == (if j == 1 {
        None::<NodeId>
    } else {
        Some((j - 1) as NodeId)
    })
    &&& nodes[j].sibling_right == (if j == n {
        None::<NodeId>
    } else {
        Some((j + 1) as NodeId)
    })
}

/// The internal node at slot `j` (`n < j <= 2n-2`): no value, and its two
/// children are the pair it was appended for.
pub open spec fn internal_child_links_ok<T>(nodes: Seq<Node<T>>, n: int, j: int) -> bool {
    &&& nodes[j].value is None
    &&& nodes[j].child_left == Some(spec_child_left(n, j) as NodeId)
    &&& nodes[j].child_right == Some(spec_child_right(n, j) as NodeId)
}

/// Sibling links of the internal node at slot `j`: every row is fully
/// chained left to right, with `None` only at the row's two ends.
pub open spec fn internal_sibling_links_ok<T>(nodes: Seq<Node<T>>, n: int, j: int) -> bool {
    &&& nodes[j].sibling_left == (if is_row_start(n, j) {
        None::<NodeId>
    } else {
        Some((j - 1) as NodeId)
    })
    &&& nodes[j].sibling_right == (if is_row_end(n, j) {
        None::<NodeId>
    } else {
        Some((j + 1) as NodeId)
    })
}

/// The non-root node at slot `j` points at the parent the layout assigns it.
pub open spec fn parent_link_ok<T>(nodes: Seq<Node<T>>, n: int, j: int) -> bool {
    nodes[j].parent == Some(spec_parent(n, j) as NodeId)
}

/// The root at slot 0: no parent, no siblings, no value, and the final pair
/// as children.
pub open spec fn root_links_ok<T>(nodes: Seq<Node<T>>, n: int) -> bool {
    &&& nodes[0].parent is None
    &&& nodes[0].sibling_left is None
    &&& nodes[0].sibling_right is None
    &&& nodes[0].value is None
    &&& nodes[0].child_left == Some(spec_child_left(n, 0) as NodeId)
    &&& nodes[0].child_right == Some(spec_child_right(n, 0) as NodeId)
}

/// The finished structure of a tree over `n` leaves. For `n == 1` the sole
/// node is leaf and root at once; otherwise the store holds exactly `2n - 1`
/// nodes laid out as the builder leaves them.
pub open spec fn built<T>(nodes: Seq<Node<T>>, n: int) -> bool {
    if n == 1 {
        &&& nodes.len() == 1
        &&& nodes[0].parent is None
        &&& nodes[0].sibling_left is None
        &&& nodes[0].sibling_right is None
        &&& nodes[0].child_left is None
        &&& nodes[0].child_right is None
        &&& nodes[0].value is Some
    } else {
        &&& n >= 2
        &&& is_power_of_two(n as nat)
        &&& nodes.len() == 2 * n - 1
        &&& root_links_ok(nodes, n)
        &&& forall|j: int| 1 <= j <= n ==> #[trigger] leaf_links_ok(nodes, n, j)
        &&& forall|j: int| n < j <= 2 * n - 2 ==> #[trigger] internal_child_links_ok(nodes, n, j)
        &&& forall|j: int| n < j <= 2 * n - 2 ==> #[trigger] internal_sibling_links_ok(nodes, n, j)
        &&& forall|j: int| 1 <= j <= 2 * n - 2 ==> #[trigger] parent_link_ok(nodes, n, j)
    }
}

/// The staging shape between `new_empty` and `build_parents`: a blank
/// placeholder in slot 0 and a fully chained leaf row behind it.
pub open spec fn staged_leaf_ok<T>(nodes: Seq<Node<T>>, j: int) -> bool {
    &&& nodes[j].value is Some
    &&& nodes[j].digest is None
    &&& nodes[j].parent is None
    &&& nodes[j].child_left is None
    &&& nodes[j].child_right is None
    &&& nodes[j].sibling_left == (if j == 1 {
        None::<NodeId>
    } else {
        Some((j - 1) as NodeId)
    })
    &&& nodes[j].sibling_right == (if j == nodes.len() - 1 {
        None::<NodeId>
    } else {
        Some((j + 1) as NodeId)
    })
}

/// See `staged_leaf_ok`: the store is a placeholder root plus a leaf chain.
pub open spec fn staging<T>(nodes: Seq<Node<T>>) -> bool {
    &&& nodes.len() >= 1
    &&& blank_node(nodes[0])
    &&& forall|j: int| 1 <= j < nodes.len() ==> #[trigger] staged_leaf_ok(nodes, j)
}

/// No digest is present anywhere: the shape of every store before the
/// digest pass, which construction never anticipates.
pub open spec fn digests_absent<T>(nodes: Seq<Node<T>>) -> bool {
    forall|j: int| 0 <= j < nodes.len() ==> (#[trigger] nodes[j]).digest is None
}

/// The builder's state at the head of a pairing step: nodes below `left_id`
/// carry their parent links, nodes from `left_id` on still wait, and every
/// appended internal node already has its children and its final sibling
/// links, except that the newest one's right sibling is still unset. No
/// digest exists anywhere.
pub open spec fn building<T>(nodes: Seq<Node<T>>, n: int, left_id: int) -> bool {
    &&& blank_node(nodes[0])
    &&& digests_absent(nodes)
    &&& forall|j: int| 1 <= j <= n ==> #[trigger] leaf_links_ok(nodes, n, j)
    &&& forall|j: int| n < j < nodes.len() ==> #[trigger] internal_child_links_ok(nodes, n, j)
    &&& forall|j: int|
        n < j < nodes.len() ==> (#[trigger] nodes[j]).sibling_left == (if is_row_start(n, j) {
            None::<NodeId>
        } else {
            Some((j - 1) as NodeId)
        })
    &&& forall|j: int|
        n < j < nodes.len() - 1 ==> (#[trigger] nodes[j]).sibling_right == (if is_row_end(n, j) {
            None::<NodeId>
        } else {
            Some((j + 1) as NodeId)
        })
    &&& nodes.len() > n + 1 ==> nodes[nodes.len() - 1].sibling_right is None
    &&& forall|j: int| 1 <= j < nodes.len() && j < left_id ==> #[trigger] parent_link_ok(nodes, n, j)
    &&& forall|j: int|
        1 <= j < nodes.len() && j >= left_id ==> (#[trigger] nodes[j]).parent is None
}

/// Every link of `nd` stays below `len`.
pub open spec fn node_links_in_bounds<T>(nd: Node<T>, len: int) -> bool {
    &&& (nd.parent is Some ==> nd.parent->Some_0 < len)
    &&& (nd.sibling_left is Some ==> nd.sibling_left->Some_0 < len)
    &&& (nd.sibling_right is Some ==> nd.sibling_right->Some_0 < len)
    &&& (nd.child_left is Some ==> nd.child_left->Some_0 < len)
    &&& (nd.child_right is Some ==> nd.child_right->Some_0 < len)
}

/// Every link in the store lands inside the store.
pub open spec fn links_in_bounds<T>(nodes: Seq<Node<T>>) -> bool {
    forall|j: int|
        0 <= j < nodes.len() ==> #[trigger] node_links_in_bounds(nodes[j], nodes.len() as int)
}

impl<T> MerkleTree<T> {
    /// Leaf count the store length implies: `len == 2n - 1` gives `n`.
    pub open spec fn spec_leaf_count(self) -> int {
        (self.nodes@.len() + 1) as int / 2
    }

    /// The tree is finished: built over its own leaf count.
    pub open spec fn is_built(self) -> bool {
        built(self.nodes@, self.spec_leaf_count())
    }

    /// Slot index of the leaf at input position `i`.
    pub open spec fn spec_leaf_slot(self, i: int) -> int {
        if self.spec_leaf_count() == 1 {
            0
        } else {
            i + 1
        }
    }

    /// Value stored for the leaf at input position `i`.
    pub open spec fn spec_leaf_value(self, i: int) -> T {
        self.nodes@[self.spec_leaf_slot(i)].value->Some_0
    }
}

impl<T> Node<T> {
    /// A blank node: no links, no value, no digest.
    pub fn new() -> (nd: Node<T>)
        ensures
            blank_node(nd),
    {
        Node {
            parent: None,
            sibling_left: None,
            sibling_right: None,
            child_left: None,
            child_right: None,
            value: None,
            digest: None,
        }
    }
}

impl<T> MerkleTree<T> {
    /// Constructor that will return a MerkleTree<T> with the root initialised
    /// to a zero value with no nodes and leafs.
    pub fn new_empty() -> (tree: MerkleTree<T>)
        ensures
            tree.nodes@.len() == 1,
            staging(tree.nodes@),
    {
        let mut nodes: Vec<Node<T>> = Vec::new();
        nodes.push(Node::new());

        MerkleTree { nodes }
    }

    /// Adds a Leaf Node as leaf in the Merkle Tree, chained to the previous
    /// leaf, and returns its slot index.
    pub fn add_leaf(&mut self, val: T) -> (id: NodeId)
        requires
            staging(old(self).nodes@),
        ensures
            staging(final(self).nodes@),
            final(self).nodes@.len() == old(self).nodes@.len() + 1,
            id == old(self).nodes@.len(),
            final(self).nodes@[id as int].value == Some(val),
            forall|j: int|
                1 <= j < old(self).nodes@.len() ==> #[trigger] final(self).nodes@[j].value == old(
                    self,
                ).nodes@[j].value,
    {
        let index = self.nodes.len();
        let mut node = Node::new();

        // Set the value.
        node.value = Some(val);

        // Make sure we avoid assignment to the root node, this is reserved at 0.
        if index > 1 {
            // Assign the left sibling.
            node.sibling_left = Some(index - 1);

            // Assign the new node as the right sibling of the previous node.
            self.nodes[index - 1].sibling_right = Some(index);
        }

        self.nodes.push(node);
        proof {
            assert forall|j: int| 1 <= j < self.nodes@.len() implies #[trigger] staged_leaf_ok(
                self.nodes@,
                j,
            ) by {
                if j < index {
                    assert(staged_leaf_ok(old(self).nodes@, j));
                }
            }
        }
        index as NodeId
    }

    /// Consumes the staged leaf row two nodes at a time, appending a parent
    /// for each pair and chaining each parent row left to right as it grows;
    /// the final pair's parent is written into the reserved slot 0 as the
    /// root. A single staged leaf is promoted to be the root directly, with
    /// no pairing. No digest is written.
    #[verifier::loop_isolation(false)]
    #[verifier::rlimit(100)]
    pub fn build_parents(&mut self)
        requires
            staging(old(self).nodes@),
            old(self).nodes@.len() >= 2,
            is_power_of_two((old(self).nodes@.len() - 1) as nat),
            old(self).nodes@.len() - 1 <= usize::MAX as int / 2,
        ensures
            built(final(self).nodes@, old(self).nodes@.len() - 1),
            digests_absent(final(self).nodes@),
            final(self).spec_leaf_count() == old(self).nodes@.len() - 1,
            forall|i: int|
                0 <= i < old(self).nodes@.len() - 1 ==> #[trigger] final(self).spec_leaf_value(i)
                    == old(self).nodes@[i + 1].value->Some_0,
    {
        let n = self.nodes.len() - 1;

        if n == 1 {
            // A lone leaf becomes the root itself: drop the placeholder in
            // slot 0 and move the leaf there.
            proof {
                assert(staged_leaf_ok(self.nodes@, 1));
            }
            let _ = self.nodes.swap_remove(0);
            return ;
        }
        proof {
            assert(n % 2 == 0);
        }

        let size = 2 * n - 1;
        let mut left_id: usize = 1;
        // The row being consumed, held explicitly: its first slot and its
        // width. The row of width w spans slots 2n-2w+1 ..= 2n-w.
        let mut row_start: usize = 1;
        let mut row_len: usize = n;

        proof {
            assert forall|j: int| 1 <= j <= n implies #[trigger] leaf_links_ok(
                self.nodes@,
                n as int,
                j,
            ) by {
                assert(staged_leaf_ok(self.nodes@, j));
            }
            assert forall|j: int| 1 <= j < self.nodes@.len() implies (#[trigger] self.nodes@[j]).parent
                is None by {
                assert(staged_leaf_ok(self.nodes@, j));
            }
            assert forall|j: int| 0 <= j < self.nodes@.len() implies (#[trigger] self.nodes@[j]).digest
                is None by {
                if j >= 1 {
                    assert(staged_leaf_ok(self.nodes@, j));
                }
            }
        }

        while left_id < size - 2
            invariant
                is_power_of_two(row_len as nat),
                2 <= row_len <= n,
                row_start == 2 * n - 2 * row_len + 1,
                row_start <= left_id <= row_start + row_len - 2,
                (left_id - row_start) % 2 == 0,
                self.nodes@.len() == n + 1 + (left_id - 1) / 2,
                building(self.nodes@, n as int, left_id as int),
                forall|j: int|
                    1 <= j <= n ==> #[trigger] self.nodes@[j].value == old(self).nodes@[j].value,
            decreases size - left_id,
        {
            let ghost pre = self.nodes@;
            let right_id = left_id + 1;
            let parent_id: NodeId = self.nodes.len();

            proof {
                assert(row_len >= 4);
                assert(right_id < parent_id);
                assert(spec_parent(n as int, left_id as int) == parent_id);
                assert(spec_parent(n as int, right_id as int) == parent_id);
                let ni = n as int;
                let pi = parent_id as int;
                let w = row_len as int;
                assert(w % 2 == 0);
                assert(2 * (w / 2) == w);
                if left_id == row_start {
                    assert(pi == 2 * ni - w + 1);
                    assert(is_row_end(ni, pi - 1));
                    assert(is_row_start(ni, pi));
                } else {
                    let li = left_id as int;
                    assert(2 * ((li + 1) / 2) == li + 1);
                    let x = 2 * ni - pi + 1;
                    assert(2 * x == 2 * ni - li + 1);
                    assert(w / 2 + 1 <= x <= w - 1);
                    if is_power_of_two(x as nat) {
                        crate::helper::lemma_pow2_no_between(x as nat, row_len as nat);
                    }
                    assert(!is_row_end(ni, pi - 1));
                    assert(!is_row_start(ni, pi));
                }
            }

            // Create parent and assign child ids to the parent.
            let mut parent = Node::<T>::new();
            parent.child_left = Some(left_id);
            parent.child_right = Some(right_id);

            // Keep the parent row fully chained as it grows: every parent
            // after the row's first is linked to the one appended before it.
            if left_id > row_start {
                parent.sibling_left = Some(parent_id - 1);
                self.nodes[parent_id - 1].sibling_right = Some(parent_id);
            }

            // Assign parents not at root.
            self.nodes[left_id].parent = Some(parent_id);
            self.nodes[right_id].parent = Some(parent_id);
            self.nodes.push(parent);

            proof {
                let ns = self.nodes@;
                let ni = n as int;
                let li = left_id as int;
                let ri = li + 1;
                let pi = parent_id as int;
                assert forall|j: int|
                    0 <= j < pre.len() && j != li && j != ri && j != pi - 1 implies ns[j] == pre[j]
                    by {}
                assert forall|j: int| 1 <= j <= ni implies #[trigger] leaf_links_ok(ns, ni, j) by {
                    assert(leaf_links_ok(pre, ni, j));
                }
                assert forall|j: int| ni < j < ns.len() implies #[trigger] internal_child_links_ok(
                    ns,
                    ni,
                    j,
                ) by {
                    if j < pre.len() {
                        assert(internal_child_links_ok(pre, ni, j));
                    }
                }
                assert forall|j: int|
                    ni < j < ns.len() implies (#[trigger] ns[j]).sibling_left == (if is_row_start(
                    ni,
                    j,
                ) {
                    None::<NodeId>
                } else {
                    Some((j - 1) as NodeId)
                }) by {
                    if j < pre.len() {
                        assert(pre[j].sibling_left == (if is_row_start(ni, j) {
                            None::<NodeId>
                        } else {
                            Some((j - 1) as NodeId)
                        }));
                    }
                }
                assert forall|j: int|
                    ni < j < ns.len() - 1 implies (#[trigger] ns[j]).sibling_right == (if is_row_end(
                    ni,
                    j,
                ) {
                    None::<NodeId>
                } else {
                    Some((j + 1) as NodeId)
                }) by {
                    if j < pre.len() - 1 {
                        assert(pre[j].sibling_right == (if is_row_end(ni, j) {
                            None::<NodeId>
                        } else {
                            Some((j + 1) as NodeId)
                        }));
                    } else {
                        assert(j == pi - 1);
                        assert(pre.len() > ni + 1 ==> pre[pi - 1].sibling_right is None);
                    }
                }
                assert forall|j: int|
                    1 <= j < ns.len() && j < li + 2 implies #[trigger] parent_link_ok(ns, ni, j) by {
                    if j < li {
                        assert(parent_link_ok(pre, ni, j));
                    }
                }
                assert forall|j: int|
                    1 <= j < ns.len() && j >= li + 2 implies (#[trigger] ns[j]).parent is None by {
                    if j < pre.len() {
                        assert(pre[j].parent is None);
                    }
                }
                assert forall|j: int| 0 <= j < ns.len() implies (#[trigger] ns[j]).digest is None by {
                    if j < pre.len() {
                        assert(pre[j].digest is None);
                    }
                }
                assert forall|j: int| 1 <= j <= ni implies #[trigger] ns[j].value == old(
                    self,
                ).nodes@[j].value by {
                    assert(pre[j].value == old(self).nodes@[j].value);
                }
            }

            // Increment the index, moving to the next row when this one is
            // fully consumed.
            left_id += 2;
            if left_id > row_start + row_len - 1 {
                row_start = row_start + row_len;
                row_len = row_len / 2;
            }
        }

        // The last reserved pair parents to the root: write its links into
        // the placeholder at slot 0 and stop. The pair is a whole row of
        // two, already chained when its nodes were appended.
        let ghost pre = self.nodes@;
        let right_id = left_id + 1;
        proof {
            assert(left_id == 2 * n - 3);
            assert(self.nodes@.len() == size);
            assert(spec_parent(n as int, left_id as int) == 0);
            assert(spec_parent(n as int, right_id as int) == 0);
        }

        self.nodes[left_id].parent = Some(0);
        self.nodes[right_id].parent = Some(0);
        self.nodes[0].child_left = Some(left_id);
        self.nodes[0].child_right = Some(right_id);

        proof {
            reveal_with_fuel(is_power_of_two, 2);
            let ns = self.nodes@;
            let ni = n as int;
            let li = left_id as int;
            let ri = li + 1;
            assert(is_row_end(ni, 2 * ni - 2));
            assert forall|j: int| 0 <= j < pre.len() && j != li && j != ri && j != 0 implies ns[j]
                == pre[j] by {}
            assert forall|j: int| 1 <= j <= ni implies #[trigger] leaf_links_ok(ns, ni, j) by {
                assert(leaf_links_ok(pre, ni, j));
            }
            assert forall|j: int|
                ni < j <= 2 * ni - 2 implies #[trigger] internal_child_links_ok(ns, ni, j) by {
                assert(internal_child_links_ok(pre, ni, j));
            }
            assert forall|j: int|
                ni < j <= 2 * ni - 2 implies #[trigger] internal_sibling_links_ok(ns, ni, j) by {
                assert(pre[j].sibling_left == (if is_row_start(ni, j) {
                    None::<NodeId>
                } else {
                    Some((j - 1) as NodeId)
                }));
                if j < 2 * ni - 2 {
                    assert(pre[j].sibling_right == (if is_row_end(ni, j) {
                        None::<NodeId>
                    } else {
                        Some((j + 1) as NodeId)
                    }));
                } else {
                    assert(pre[j].sibling_right is None);
                }
            }
            assert forall|j: int| 1 <= j <= 2 * ni - 2 implies #[trigger] parent_link_ok(
                ns,
                ni,
                j,
            ) by {
                if j < li {
                    assert(parent_link_ok(pre, ni, j));
                }
            }
            assert forall|j: int| 0 <= j < ns.len() implies (#[trigger] ns[j]).digest is None by {
                assert(pre[j].digest is None);
            }
            assert forall|j: int| 1 <= j <= ni implies #[trigger] ns[j].value == old(
                self,
            ).nodes@[j].value by {
                assert(pre[j].value == old(self).nodes@[j].value);
            }
            assert(built(ns, ni));
        }
    }

    /// Constructor that builds a whole tree given a list of values.
    ///
    /// The input length must be a power of two; a zero-length or other
    /// length is rejected as `InvalidInputSize` before any node exists.
    /// On success the leaves sit at slots `1..=n` in input order (the sole
    /// leaf of a one-value input sits at slot 0 as the root).
    #[verifier::loop_isolation(false)]
    pub fn new(input: Vec<T>) -> (r: Result<MerkleTree<T>, MerkleError>)
        requires
            input@.len() <= usize::MAX as int / 2,
        ensures
            match r {
                Ok(tree) => {
                    &&& input@.len() >= 1
                    &&& is_power_of_two(input@.len() as nat)
                    &&& tree.is_built()
                    &&& digests_absent(tree.nodes@)
                    &&& tree.spec_leaf_count() == input@.len()
                    &&& forall|i: int|
                        0 <= i < input@.len() ==> #[trigger] tree.spec_leaf_value(i) == input@[i]
                },
                Err(e) => {
                    &&& e == MerkleError::InvalidInputSize
                    &&& !(input@.len() >= 1 && is_power_of_two(input@.len() as nat))
                },
            },
    {
        let n_leafs = input.len();
        if n_leafs == 0 || !is_power_of_two_exec(n_leafs as u64) {
            return Err(MerkleError::InvalidInputSize);
        }

        // Calculate tree size.
        let tree_size = calculate_tree_size(n_leafs as u64);

        // Create the reserved root slot.
        let mut nodes: Vec<Node<T>> = Vec::with_capacity(tree_size as usize);
        nodes.push(Node::new());

        // Create merkle tree and add all the leafs.
        let mut merkle_tree = MerkleTree { nodes };
        let ghost all = input@;
        let mut vals = input;

        while vals.len() > 0
            invariant
                vals@.len() <= all.len(),
                merkle_tree.nodes@.len() == 1 + all.len() - vals@.len(),
                staging(merkle_tree.nodes@),
                vals@ == all.skip(all.len() - vals@.len()),
                forall|k: int|
                    1 <= k < merkle_tree.nodes@.len() ==> #[trigger] merkle_tree.nodes@[k].value
                        == Some(all[k - 1]),
            decreases vals@.len(),
        {
            let ghost added = all.len() - vals@.len();
            let v = vals.remove(0);
            proof {
                assert(v == all[added as int]);
                assert(vals@ =~= all.skip(all.len() - vals@.len()));
            }
            merkle_tree.add_leaf(v);
        }

        merkle_tree.build_parents();

        Ok(merkle_tree)
    }

    /// Returns the right sibling of a node according to the NodeId.
    pub fn get_sibling_right(&self, id: NodeId) -> (r: Option<&Node<T>>)
        requires
            id < self.nodes@.len(),
            links_in_bounds(self.nodes@),
        ensures
            match self.nodes@[id as int].sibling_right {
                Some(a) => r is Some && *r->Some_0 == self.nodes@[a as int],
                None => r is None,
            },
    {
        proof {
            assert(node_links_in_bounds(self.nodes@[id as int], self.nodes@.len() as int));
        }
        match self.nodes[id].sibling_right {
            Some(a) => Some(&self.nodes[a]),
            None => None,
        }
    }

    /// Returns the left sibling of a node according to the NodeId.
    pub fn get_sibling_left(&self, id: NodeId) -> (r: Option<&Node<T>>)
        requires
            id < self.nodes@.len(),
            links_in_bounds(self.nodes@),
        ensures
            match self.nodes@[id as int].sibling_left {
                Some(a) => r is Some && *r->Some_0 == self.nodes@[a as int],
                None => r is None,
            },
    {
        proof {
            assert(node_links_in_bounds(self.nodes@[id as int], self.nodes@.len() as int));
        }
        match self.nodes[id].sibling_left {
            Some(a) => Some(&self.nodes[a]),
            None => None,
        }
    }

    /// Returns the left child of a node according to the NodeId.
    pub fn get_child_left(&self, id: NodeId) -> (r: Option<&Node<T>>)
        requires
            id < self.nodes@.len(),
            links_in_bounds(self.nodes@),
        ensures
            match self.nodes@[id as int].child_left {
                Some(a) => r is Some && *r->Some_0 == self.nodes@[a as int],
                None => r is None,
            },
    {
        proof {
            assert(node_links_in_bounds(self.nodes@[id as int], self.nodes@.len() as int));
        }
        match self.nodes[id].child_left {
            Some(a) => Some(&self.nodes[a]),
            None => None,
        }
    }

    /// Returns the right child of a node according to the NodeId.
    pub fn get_child_right(&self, id: NodeId) -> (r: Option<&Node<T>>)
        requires
            id < self.nodes@.len(),
            links_in_bounds(self.nodes@),
        ensures
            match self.nodes@[id as int].child_right {
                Some(a) => r is Some && *r->Some_0 == self.nodes@[a as int],
                None => r is None,
            },
    {
        proof {
            assert(node_links_in_bounds(self.nodes@[id as int], self.nodes@.len() as int));
        }
        match self.nodes[id].child_right {
            Some(a) => Some(&self.nodes[a]),
            None => None,
        }
    }

    /// Number of nodes the tree holds.
    pub fn node_count(&self) -> (c: usize)
        ensures
            c == self.nodes@.len(),
    {
        self.nodes.len()
    }

    /// Number of leaves a finished tree was built over.
    pub fn leaf_count(&self) -> (c: usize)
        requires
            self.is_built(),
        ensures
            c == self.spec_leaf_count(),
    {
        if self.nodes.len() == 1 {
            1
        } else {
            self.nodes.len() / 2 + 1
        }
    }
}

/// Every link of a finished tree lands inside the store, so the navigation
/// accessors never need more than a valid starting index.
pub proof fn lemma_built_links_in_bounds<T>(nodes: Seq<Node<T>>, n: int)
    requires
        built(nodes, n),
    ensures
        links_in_bounds(nodes),
{
    assert forall|j: int| 0 <= j < nodes.len() implies #[trigger] node_links_in_bounds(
        nodes[j],
        nodes.len() as int,
    ) by {
        if n != 1 {
            if 1 <= j <= n {
                assert(leaf_links_ok(nodes, n, j));
            }
            if n < j <= 2 * n - 2 {
                assert(internal_child_links_ok(nodes, n, j));
                assert(internal_sibling_links_ok(nodes, n, j));
                assert(is_row_end(n, 2 * n - 2)) by {
                    reveal_with_fuel(is_power_of_two, 2);
                }
            }
            if 1 <= j <= 2 * n - 2 {
                assert(parent_link_ok(nodes, n, j));
            }
        }
    }
}

/// Every link of a staged tree lands inside the store.
pub proof fn lemma_staging_links_in_bounds<T>(nodes: Seq<Node<T>>)
    requires
        staging(nodes),
    ensures
        links_in_bounds(nodes),
{
    assert forall|j: int| 0 <= j < nodes.len() implies #[trigger] node_links_in_bounds(
        nodes[j],
        nodes.len() as int,
    ) by {
        if 1 <= j {
            assert(staged_leaf_ok(nodes, j));
        }
    }
}

/// Structural invariant of a finished tree: the root at slot 0 has no
/// parent; every other node has exactly one parent, which is a slot of the
/// store; every internal node (the root included, when the tree has more
/// than one node) has exactly two children and every leaf has none.
pub proof fn lemma_structural_invariant<T>(nodes: Seq<Node<T>>, n: int)
    requires
        built(nodes, n),
    ensures
        nodes[0].parent is None,
        forall|j: int|
            1 <= j < nodes.len() ==> (#[trigger] nodes[j]).parent is Some
                && nodes[j].parent->Some_0 < nodes.len(),
        forall|j: int|
            1 <= j <= n && n >= 2 ==> (#[trigger] nodes[j]).child_left is None
                && nodes[j].child_right is None,
        forall|j: int|
            n < j <= 2 * n - 2 ==> (#[trigger] nodes[j]).child_left is Some
                && nodes[j].child_right is Some,
        n >= 2 ==> nodes[0].child_left is Some && nodes[0].child_right is Some,
        n == 1 ==> nodes[0].child_left is None && nodes[0].child_right is None,
{
    assert forall|j: int| 1 <= j < nodes.len() implies (#[trigger] nodes[j]).parent is Some
        && nodes[j].parent->Some_0 < nodes.len() by {
        assert(parent_link_ok(nodes, n, j));
    }
    assert forall|j: int| 1 <= j <= n && n >= 2 implies (#[trigger] nodes[j]).child_left is None
        && nodes[j].child_right is None by {
        assert(leaf_links_ok(nodes, n, j));
    }
    assert forall|j: int| n < j <= 2 * n - 2 implies (#[trigger] nodes[j]).child_left is Some
        && nodes[j].child_right is Some by {
        assert(internal_child_links_ok(nodes, n, j));
    }
}

/// Parent and child links of a finished tree agree: every non-root node is
/// one of the two children of the node its parent link names.
pub proof fn lemma_parent_child_agree<T>(tree: MerkleTree<T>, j: int)
    requires
        tree.is_built(),
        1 <= j < tree.nodes@.len(),
    ensures
        tree.nodes@[j].parent is Some,
        ({
            let p = tree.nodes@[j].parent->Some_0 as int;
            tree.nodes@[p].child_left == Some(j as NodeId) || tree.nodes@[p].child_right == Some(
                j as NodeId,
            )
        }),
{
    vstd::std_specs::vec::axiom_spec_len(&tree.nodes);
    let nodes = tree.nodes@;
    let n = tree.spec_leaf_count();
    assert(parent_link_ok(nodes, n, j));
    let p = spec_parent(n, j);
    if p == 0 {
        assert(j == 2 * n - 3 || j == 2 * n - 2);
    } else {
        assert(internal_child_links_ok(nodes, n, p));
        if j % 2 == 1 {
            assert(2 * ((j + 1) / 2) == j + 1);
        } else {
            assert(2 * ((j + 1) / 2) == j);
        }
    }
}

/// Sibling links of a finished tree are symmetric: whenever the right
/// sibling of the node at `a` is the node at `b`, the left sibling of the
/// node at `b` is the node at `a`, and the other way around.
pub proof fn lemma_sibling_symmetry<T>(tree: MerkleTree<T>, a: int, b: int)
    requires
        tree.is_built(),
        0 <= a < tree.nodes@.len(),
        0 <= b < tree.nodes@.len(),
    ensures
        tree.nodes@[a].sibling_right == Some(b as NodeId) ==> tree.nodes@[b].sibling_left == Some(
            a as NodeId,
        ),
        tree.nodes@[a].sibling_left == Some(b as NodeId) ==> tree.nodes@[b].sibling_right == Some(
            a as NodeId,
        ),
{
    vstd::std_specs::vec::axiom_spec_len(&tree.nodes);
    let nodes = tree.nodes@;
    let n = tree.spec_leaf_count();
    if n != 1 {
        if 1 <= a <= n {
            assert(leaf_links_ok(nodes, n, a));
        }
        if n < a <= 2 * n - 2 {
            assert(internal_child_links_ok(nodes, n, a));
            assert(internal_sibling_links_ok(nodes, n, a));
        }
        if 1 <= b <= n {
            assert(leaf_links_ok(nodes, n, b));
        }
        if n < b <= 2 * n - 2 {
            assert(internal_child_links_ok(nodes, n, b));
            assert(internal_sibling_links_ok(nodes, n, b));
        }
    }
}

} // verus!
