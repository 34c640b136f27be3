//! Digest pass and inclusion proofs over byte-string leaves.
//!
//! Once a tree over `Vec<u8>` values is built, `compute_digests` fills every
//! node's digest bottom-up: a leaf hashes its own value, an internal node
//! combines its children's digests left before right. An inclusion proof is
//! the ordered list of sibling digests from a leaf to the root, each tagged
//! with the side it occupies; verification replays that fold from the
//! claimed value's hash without touching any tree.

use crate::hash::combine_digests;
use crate::hash::fnv1a;
use crate::hash::hash_bytes;
use crate::hash::spec_combine;
use crate::merkle_tree::built;
use crate::merkle_tree::internal_child_links_ok;
use crate::merkle_tree::internal_sibling_links_ok;
use crate::merkle_tree::leaf_links_ok;
use crate::merkle_tree::parent_link_ok;
use crate::merkle_tree::spec_parent;
use crate::merkle_tree::MerkleTree;
use crate::merkle_tree::Node;
use vstd::pervasive::unreached;
use vstd::prelude::*;

verus! {

/// Which side a proof step's sibling digest occupies.
#[derive(Clone, Copy, PartialEq, Eq, Structural, Debug)]
pub enum Side {
    Left,
    Right,
}

/// One step of an inclusion proof: a sibling's digest and its side.
#[derive(Clone, Copy, PartialEq, Eq, Structural, Debug)]
pub struct ProofStep {
    pub side: Side,
    pub digest: u64,
}

/// Digest of the node at slot `j` of a tree over `n` leaves whose leaf byte
/// strings are `values`: a leaf hashes its value, an internal node combines
/// its children's digests, left before right.
pub open spec fn spec_node_digest(n: int, j: int, values: Seq<Seq<u8>>) -> u64
    decreases (if j == 0 {
        2 * n
    } else {
        j
    }),
{
    if n == 1 {
        fnv1a(values[0])
    } else if 1 <= j <= n {
        fnv1a(values[j - 1])
    } else if j == 0 && n >= 2 {
        spec_combine(
            spec_node_digest(n, 2 * n - 3, values),
            spec_node_digest(n, 2 * n - 2, values),
        )
    } else if n < j <= 2 * n - 2 {
        spec_combine(
            spec_node_digest(n, 2 * (j - n) - 1, values),
            spec_node_digest(n, 2 * (j - n), values),
        )
    } else {
        0
    }
}

/// The inclusion proof the layout prescribes for a walk starting at slot
/// `j`: one step per link on the way up to the root, each carrying the
/// digest of the sibling met there and the side that sibling occupies.
/// Pairs sit at an odd slot and the slot after it, so an odd slot's sibling
/// is one to the right, an even slot's one to the left.
pub open spec fn spec_proof_path(n: int, j: int, values: Seq<Seq<u8>>) -> Seq<ProofStep>
    decreases (if j == 0 {
        0int
    } else {
        2 * n - j
    }),
{
    if j < 1 || j > 2 * n - 2 {
        Seq::empty()
    } else {
        let st = if j % 2 == 1 {
            ProofStep { side: Side::Right, digest: spec_node_digest(n, j + 1, values) }
        } else {
            ProofStep { side: Side::Left, digest: spec_node_digest(n, j - 1, values) }
        };
        seq![st] + spec_proof_path(n, spec_parent(n, j), values)
    }
}

/// Folds a proof step into the running hash: the recorded digest is the
/// sibling's, so it goes on its recorded side.
pub open spec fn spec_apply_step(h: u64, st: ProofStep) -> u64 {
    match st.side {
        Side::Left => spec_combine(st.digest, h),
        Side::Right => spec_combine(h, st.digest),
    }
}

/// Folds a whole proof, first step first.
pub open spec fn spec_fold_path(h: u64, steps: Seq<ProofStep>) -> u64
    decreases steps.len(),
{
    if steps.len() == 0 {
        h
    } else {
        spec_fold_path(spec_apply_step(h, steps[0]), steps.drop_first())
    }
}

/// What verification accepts: folding the proof from the claimed value's
/// hash must land exactly on the expected root digest.
pub open spec fn spec_verifies(value: Seq<u8>, steps: Seq<ProofStep>, root: u64) -> bool {
    spec_fold_path(fnv1a(value), steps) == root
}

/// Walking one link up from the non-root node at `cur`: pairs sit at an
/// odd slot and the slot after it, so an odd `cur` is a left child with its
/// sibling one to the right, an even `cur` a right child with its sibling
/// one to the left, and the parent's digest combines the two.
pub proof fn lemma_parent_digest(n: int, cur: int, values: Seq<Seq<u8>>)
    requires
        n >= 2,
        1 <= cur <= 2 * n - 2,
    ensures
        spec_parent(n, cur) == 0 || n < spec_parent(n, cur) <= 2 * n - 2,
        cur % 2 == 1 ==> cur + 1 <= 2 * n - 2 && spec_node_digest(n, spec_parent(n, cur), values)
            == spec_combine(
            spec_node_digest(n, cur, values),
            spec_node_digest(n, cur + 1, values),
        ),
        cur % 2 == 0 ==> cur - 1 >= 1 && spec_node_digest(n, spec_parent(n, cur), values)
            == spec_combine(
            spec_node_digest(n, cur - 1, values),
            spec_node_digest(n, cur, values),
        ),
{
    let p = spec_parent(n, cur);
    if cur >= 2 * n - 3 {
        assert(p == 0);
        if cur % 2 == 1 {
            assert(cur == 2 * n - 3);
        } else {
            assert(cur == 2 * n - 2);
        }
    } else {
        assert(p == n + (cur + 1) / 2);
        if cur % 2 == 1 {
            assert(2 * ((cur + 1) / 2) == cur + 1);
        } else {
            assert(2 * ((cur + 1) / 2) == cur);
        }
        assert(n < p <= 2 * n - 2);
    }
}

/// Appending a step to a proof folds that step in last.
#[verifier::rlimit(100)]
pub proof fn lemma_fold_path_push(h: u64, steps: Seq<ProofStep>, st: ProofStep)
    ensures
        spec_fold_path(h, steps.push(st)) == spec_apply_step(spec_fold_path(h, steps), st),
    decreases steps.len(),
{
    if steps.len() == 0 {
        reveal_with_fuel(spec_fold_path, 2);
        assert(steps.push(st)[0] == st);
        assert(steps.push(st).drop_first() =~= Seq::<ProofStep>::empty());
        assert(spec_fold_path(h, steps.push(st)) == spec_apply_step(h, st));
    } else {
        assert(steps.push(st)[0] == steps[0]);
        assert(steps.push(st).drop_first() =~= steps.drop_first().push(st));
        lemma_fold_path_push(spec_apply_step(h, steps[0]), steps.drop_first(), st);
        assert(spec_fold_path(h, steps) == spec_fold_path(
            spec_apply_step(h, steps[0]),
            steps.drop_first(),
        ));
    }
}

/// Two nodes that agree on everything but the digest field.
pub open spec fn same_shape<T>(a: Node<T>, b: Node<T>) -> bool {
    &&& a.parent == b.parent
    &&& a.sibling_left == b.sibling_left
    &&& a.sibling_right == b.sibling_right
    &&& a.child_left == b.child_left
    &&& a.child_right == b.child_right
    &&& a.value == b.value
}

/// The structure of a tree ignores digests: stores whose nodes agree on
/// links and values are built the same way.
pub proof fn lemma_built_same_shape<T>(nodes1: Seq<Node<T>>, nodes2: Seq<Node<T>>, n: int)
    requires
        built(nodes1, n),
        nodes1.len() == nodes2.len(),
        forall|j: int| 0 <= j < nodes1.len() ==> #[trigger] same_shape(nodes1[j], nodes2[j]),
    ensures
        built(nodes2, n),
{
    assert(same_shape(nodes1[0], nodes2[0]));
    if n != 1 {
        assert forall|j: int| 1 <= j <= n implies #[trigger] leaf_links_ok(
            nodes2,
            n,
            j,
        ) by {
            assert(leaf_links_ok(nodes1, n, j));
            assert(same_shape(nodes1[j], nodes2[j]));
        }
        assert forall|j: int|
            n < j <= 2 * n - 2 implies #[trigger] internal_child_links_ok(
            nodes2,
            n,
            j,
        ) by {
            assert(internal_child_links_ok(nodes1, n, j));
            assert(same_shape(nodes1[j], nodes2[j]));
        }
        assert forall|j: int|
            n < j <= 2 * n - 2 implies #[trigger] internal_sibling_links_ok(
            nodes2,
            n,
            j,
        ) by {
            assert(internal_sibling_links_ok(nodes1, n, j));
            assert(same_shape(nodes1[j], nodes2[j]));
        }
        assert forall|j: int| 1 <= j <= 2 * n - 2 implies #[trigger] parent_link_ok(
            nodes2,
            n,
            j,
        ) by {
            assert(parent_link_ok(nodes1, n, j));
            assert(same_shape(nodes1[j], nodes2[j]));
        }
    }
}

impl MerkleTree<Vec<u8>> {
    /// The leaf byte strings in input order.
    pub open spec fn spec_leaf_values(self) -> Seq<Seq<u8>> {
        Seq::new(self.spec_leaf_count() as nat, |i: int| self.spec_leaf_value(i)@)
    }

    /// Every digest field holds the digest the layout assigns its node.
    pub open spec fn digests_done(self) -> bool {
        forall|j: int|
            0 <= j < self.nodes@.len() ==> (#[trigger] self.nodes@[j]).digest == Some(
                spec_node_digest(self.spec_leaf_count(), j, self.spec_leaf_values()),
            )
    }

    /// The root commitment of the finished tree.
    pub open spec fn spec_root_digest(self) -> u64 {
        spec_node_digest(self.spec_leaf_count(), 0, self.spec_leaf_values())
    }

    /// Fills every node's digest bottom-up: all leaves first, then each
    /// parent once both children carry theirs, the root last. The links and
    /// values are left untouched.
    #[verifier::loop_isolation(false)]
    #[verifier::rlimit(100)]
    pub fn compute_digests(&mut self)
        requires
            old(self).is_built(),
        ensures
            final(self).is_built(),
            final(self).spec_leaf_count() == old(self).spec_leaf_count(),
            final(self).spec_leaf_values() == old(self).spec_leaf_values(),
            final(self).digests_done(),
    {
        let ghost n = self.spec_leaf_count();
        let ghost values = self.spec_leaf_values();
        let len = self.nodes.len();

        if len == 1 {
            let d = match &self.nodes[0].value {
                Some(v) => hash_bytes(v),
                None => unreached(),
            };
            self.nodes[0].digest = Some(d);
            proof {
                assert(self.spec_leaf_values() =~= values);
            }
            return ;
        }

        let n_leafs = (len - 1) / 2 + 1;
        proof {
            assert(n_leafs == n);
        }

        let mut i: usize = 1;
        while i < len
            invariant
                1 <= i <= len,
                self.nodes@.len() == len,
                forall|j: int|
                    0 <= j < len ==> #[trigger] same_shape(old(self).nodes@[j], self.nodes@[j]),
                forall|k: int|
                    1 <= k < i ==> (#[trigger] self.nodes@[k]).digest == Some(
                        spec_node_digest(n, k, values),
                    ),
            decreases len - i,
        {
            let ghost pre = self.nodes@;
            if i <= n_leafs {
                proof {
                    assert(leaf_links_ok(old(self).nodes@, n, i as int));
                    assert(same_shape(old(self).nodes@[i as int], self.nodes@[i as int]));
                    assert(self.spec_leaf_value(i - 1) == self.nodes@[i as int].value->Some_0);
                    assert(values[i - 1] == old(self).spec_leaf_value(i - 1)@);
                }
                let d = match &self.nodes[i].value {
                    Some(v) => hash_bytes(v),
                    None => unreached(),
                };
                self.nodes[i].digest = Some(d);
                proof {
                    assert(spec_node_digest(n, i as int, values) == fnv1a(values[i - 1]));
                }
            } else {
                let cl = 2 * (i - n_leafs) - 1;
                let cr = 2 * (i - n_leafs);
                proof {
                    assert(1 <= cl && cr < i);
                }
                let dl = match self.nodes[cl].digest {
                    Some(d) => d,
                    None => unreached(),
                };
                let dr = match self.nodes[cr].digest {
                    Some(d) => d,
                    None => unreached(),
                };
                let d = combine_digests(dl, dr);
                self.nodes[i].digest = Some(d);
                proof {
                    assert(spec_node_digest(n, i as int, values) == spec_combine(
                        spec_node_digest(n, cl as int, values),
                        spec_node_digest(n, cr as int, values),
                    ));
                }
            }
            proof {
                assert forall|j: int| 0 <= j < len implies #[trigger] same_shape(
                    old(self).nodes@[j],
                    self.nodes@[j],
                ) by {
                    assert(same_shape(old(self).nodes@[j], pre[j]));
                }
            }
            i += 1;
        }

        let dl = match self.nodes[len - 2].digest {
            Some(d) => d,
            None => unreached(),
        };
        let dr = match self.nodes[len - 1].digest {
            Some(d) => d,
            None => unreached(),
        };
        let ghost pre = self.nodes@;
        let d = combine_digests(dl, dr);
        self.nodes[0].digest = Some(d);

        proof {
            assert forall|j: int| 0 <= j < len implies #[trigger] same_shape(
                old(self).nodes@[j],
                self.nodes@[j],
            ) by {
                assert(same_shape(old(self).nodes@[j], pre[j]));
            }
            lemma_built_same_shape(old(self).nodes@, self.nodes@, n);
            assert forall|i: int| 0 <= i < n implies self.spec_leaf_value(i)
                == old(self).spec_leaf_value(i) by {
                assert(same_shape(old(self).nodes@[self.spec_leaf_slot(i)], self.nodes@[self.spec_leaf_slot(i)]));
            }
            assert(self.spec_leaf_values() =~= values);
            assert(spec_node_digest(n, 0, values) == spec_combine(
                spec_node_digest(n, len - 2, values),
                spec_node_digest(n, len - 1, values),
            ));
        }
    }

    /// The root digest: present on every finished tree, absent before the
    /// digest pass has run.
    pub fn root_digest(&self) -> (r: Option<u64>)
        requires
            self.nodes@.len() >= 1,
        ensures
            r == self.nodes@[0].digest,
    {
        self.nodes[0].digest
    }

    /// Builds the inclusion proof for the leaf at input position `pos`: the
    /// sibling digests met on the way from that leaf up to the root, each
    /// tagged with the side it occupies. The proof it returns verifies
    /// against this tree's root digest and the leaf's own value.
    #[verifier::loop_isolation(false)]
    #[verifier::rlimit(100)]
    pub fn generate_proof(&self, pos: usize) -> (path: Vec<ProofStep>)
        requires
            self.is_built(),
            self.digests_done(),
            pos < self.spec_leaf_count(),
        ensures
            path@ == spec_proof_path(
                self.spec_leaf_count(),
                self.spec_leaf_slot(pos as int),
                self.spec_leaf_values(),
            ),
            spec_verifies(self.spec_leaf_values()[pos as int], path@, self.spec_root_digest()),
    {
        let ghost n = self.spec_leaf_count();
        let ghost values = self.spec_leaf_values();
        let len = self.nodes.len();
        let mut cur: usize = if len == 1 {
            0
        } else {
            pos + 1
        };
        let ghost start = cur as int;
        let mut path: Vec<ProofStep> = Vec::new();

        proof {
            if len != 1 {
                assert(spec_node_digest(n, cur as int, values) == fnv1a(values[pos as int]));
            }
            assert(path@ + spec_proof_path(n, start, values) =~= spec_proof_path(n, start, values));
        }

        while cur != 0
            invariant
                cur < len,
                spec_fold_path(fnv1a(values[pos as int]), path@) == spec_node_digest(
                    n,
                    cur as int,
                    values,
                ),
                spec_proof_path(n, start, values) == path@ + spec_proof_path(n, cur as int, values),
            decreases (if cur == 0 {
                0int
            } else {
                len - cur
            }),
        {
            proof {
                assert(parent_link_ok(self.nodes@, n, cur as int));
                lemma_parent_digest(n, cur as int, values);
            }
            let p = match self.nodes[cur].parent {
                Some(p) => p,
                None => unreached(),
            };

            let sib: usize;
            let side: Side;
            if cur % 2 == 1 {
                sib = cur + 1;
                side = Side::Right;
            } else {
                sib = cur - 1;
                side = Side::Left;
            }

            proof {
                assert(p == spec_parent(n, cur as int));
                assert((self.nodes@[sib as int]).digest == Some(
                    spec_node_digest(n, sib as int, values),
                ));
            }

            let sd = match self.nodes[sib].digest {
                Some(d) => d,
                None => unreached(),
            };
            let ghost prev_path = path@;
            let st = ProofStep { side, digest: sd };
            path.push(st);
            proof {
                lemma_fold_path_push(fnv1a(values[pos as int]), prev_path, st);
                assert(spec_proof_path(n, cur as int, values) == seq![st] + spec_proof_path(
                    n,
                    p as int,
                    values,
                ));
                assert(path@ =~= prev_path + seq![st]);
                assert(prev_path + (seq![st] + spec_proof_path(n, p as int, values)) =~= (prev_path
                    + seq![st]) + spec_proof_path(n, p as int, values));
            }
            cur = p;
        }

        proof {
            assert(spec_proof_path(n, 0, values) =~= Seq::<ProofStep>::empty());
            assert(path@ + spec_proof_path(n, 0, values) =~= path@);
        }
        path
    }
}

/// Checks an inclusion proof: hashes the claimed value, folds each step's
/// sibling digest in on its recorded side, and accepts exactly when the
/// result equals the expected root digest. Pure: it reads no tree, only
/// the supplied value, proof and root digest.
#[verifier::loop_isolation(false)]
pub fn verify_proof(value: &Vec<u8>, path: &Vec<ProofStep>, root_digest: u64) -> (ok: bool)
    ensures
        ok == spec_verifies(value@, path@, root_digest),
{
    let mut h = hash_bytes(value);
    let mut i: usize = 0;
    while i < path.len()
        invariant
            i <= path@.len(),
            h == spec_fold_path(fnv1a(value@), path@.take(i as int)),
        decreases path@.len() - i,
    {
        let st = path[i];
        let ghost pre = path@.take(i as int);
        h = match st.side {
            Side::Left => combine_digests(st.digest, h),
            Side::Right => combine_digests(h, st.digest),
        };
        proof {
            lemma_fold_path_push(fnv1a(value@), pre, st);
            assert(path@.take(i as int + 1) =~= pre.push(st));
        }
        i += 1;
    }
    proof {
        assert(path@.take(path@.len() as int) =~= path@);
    }
    h == root_digest
}

/// After the digest pass, the root slot carries exactly the commitment
/// that inclusion proofs fold to, so `root_digest` hands verifiers the
/// right expected value.
pub proof fn lemma_root_digest_present(tree: MerkleTree<Vec<u8>>)
    requires
        tree.is_built(),
        tree.digests_done(),
    ensures
        tree.nodes@[0].digest == Some(tree.spec_root_digest()),
{
    assert((#[trigger] tree.nodes@[0]).digest == Some(
        spec_node_digest(tree.spec_leaf_count(), 0, tree.spec_leaf_values()),
    ));
}

/// Digest determinism: trees built over the same leaf byte strings commit
/// to the same root digest, because every digest is a function of the leaf
/// values alone.
pub proof fn lemma_digest_determinism(t1: MerkleTree<Vec<u8>>, t2: MerkleTree<Vec<u8>>)
    requires
        t1.is_built(),
        t1.digests_done(),
        t2.is_built(),
        t2.digests_done(),
        t1.spec_leaf_values() == t2.spec_leaf_values(),
    ensures
        t1.nodes@[0].digest == t2.nodes@[0].digest,
        t1.spec_root_digest() == t2.spec_root_digest(),
{
    assert(t1.spec_leaf_count() == t1.spec_leaf_values().len());
    assert(t2.spec_leaf_count() == t2.spec_leaf_values().len());
    assert((#[trigger] t1.nodes@[0]).digest == Some(
        spec_node_digest(t1.spec_leaf_count(), 0, t1.spec_leaf_values()),
    ));
    assert((#[trigger] t2.nodes@[0]).digest == Some(
        spec_node_digest(t2.spec_leaf_count(), 0, t2.spec_leaf_values()),
    ));
}

} // verus!
