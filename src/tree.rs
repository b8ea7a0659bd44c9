use vstd::prelude::*;
use crate::digest::{Digest, zero_seq, zero_digest, DEPTH, lemma_distinct_digests_differ_in_a_bit};
use crate::hashing::{
    hash_key, hash_kv, root_from_path, spec_hash_key, spec_hash_kv, fold_path, collapse_fold,
    branch_collision,
    kv_collision, lemma_fold_binding, lemma_collapse_vs_fold,
};
use crate::node::{
    Node, no_zero_digests, lemma_fold_siblings, lemma_padded_is_siblings, lemma_collapsed_hash,
};

verus! {

/// Evidence returned by `get`: nothing for an absent key, or the digests
/// beside the key's path, the one next to the leaf first.
#[derive(Debug)]
pub enum SparseMerkleTreeProof {
    NotPresent,
    Present { siblings: Vec<Digest> },
}

pub open spec fn opt_view(o: Option<String>) -> Option<Seq<char>> {
    match o {
        Some(s) => Some(s@),
        None => None,
    }
}

/// Whether a verifier accepts `result` for `key` with proof `pf` against the
/// commitment `comm`. Absence is accepted on assertion alone; a value is
/// accepted when the path of exactly 256 siblings climbs from its leaf digest
/// to `comm`.
pub open spec fn proof_accepted(
    key: Seq<char>,
    result: Option<Seq<char>>,
    pf: SparseMerkleTreeProof,
    comm: Seq<u8>,
) -> bool {
    match result {
        None => pf is NotPresent,
        Some(v) => match pf {
            SparseMerkleTreeProof::NotPresent => false,
            SparseMerkleTreeProof::Present { siblings } => {
                &&& siblings@.len() == 256
                &&& fold_path(spec_hash_kv(key, v), siblings@, spec_hash_key(key)) == comm
            },
        },
    }
}

/// An authenticated key-value store: a sparse Merkle tree of depth 256 over
/// the key digests, with a store from key digest to value beside it.
pub struct SparseMerkleTree {
    root: Node,
    store: Vec<(Digest, String)>,
    /// For each key digest in the store, the key and the value bound to it.
    entries: Ghost<Map<Seq<u8>, (Seq<char>, Seq<char>)>>,
}

impl View for SparseMerkleTree {
    type V = Map<Seq<u8>, Seq<char>>;

    /// The value bound to each key digest.
    closed spec fn view(&self) -> Map<Seq<u8>, Seq<char>> {
        self.entries@.map_values(|e: (Seq<char>, Seq<char>)| e.1)
    }
}

impl SparseMerkleTree {
    spec fn digest_at(self, i: int) -> Seq<u8> {
        self.store@[i].0@
    }

    pub closed spec fn wf(self) -> bool {
        &&& self.root.wf(0)
        &&& forall|i: int, j: int|
            0 <= i < j < self.store@.len() ==> self.digest_at(i) != self.digest_at(j)
        &&& forall|i: int|
            0 <= i < self.store@.len() ==> {
                &&& self.entries@.contains_key(#[trigger] self.digest_at(i))
                &&& self.entries@[self.digest_at(i)].1 == self.store@[i].1@
            }
        &&& forall|h: Seq<u8>| #[trigger]
            self.entries@.contains_key(h) ==> exists|i: int|
                0 <= i < self.store@.len() && #[trigger] self.digest_at(i) == h
        &&& forall|h: Seq<u8>| #[trigger]
            self.entries@.contains_key(h) ==> h.len() == 32 && spec_hash_key(self.entries@[h].0)
                == h
        &&& forall|q: Seq<u8>|
            q.len() == 32 && #[trigger] self.root.leaf_at(q, 0) != zero_seq()
                ==> self.entries@.contains_key(q)
        &&& no_zero_digests() ==> self.root.collapsed()
        &&& no_zero_digests() ==> forall|h: Seq<u8>| #[trigger]
            self.entries@.contains_key(h) ==> {
                &&& self.root.reaches(h, 0)
                &&& self.root.leaf_at(h, 0) == spec_hash_kv(self.entries@[h].0, self.entries@[h].1)
            }
    }

    /// The key that was inserted under key digest `h`.
    pub closed spec fn key_of(self, h: Seq<u8>) -> Seq<char> {
        self.entries@[h].0
    }

    /// The root digest.
    pub closed spec fn commitment(self) -> Seq<u8> {
        self.root.hash@
    }

    /// No binding and a childless root.
    pub closed spec fn is_empty(self) -> bool {
        &&& self.entries@ == Map::<Seq<u8>, (Seq<char>, Seq<char>)>::empty()
        &&& self.root.childless()
    }

    /// The digests beside the path of `h`, the one next to the leaf first,
    /// with the zero digest wherever the path has not been built.
    pub closed spec fn path_siblings(self, h: Seq<u8>) -> Seq<Digest> {
        self.root.padded_siblings(h, 0)
    }

    /// The digest at the end of the path of `h`, or the zero digest where the
    /// path is not built.
    pub closed spec fn leaf_of(self, h: Seq<u8>) -> Seq<u8> {
        self.root.leaf_at(h, 0)
    }

    /// The nodes along the path of `h` exist down to its leaf.
    pub closed spec fn path_built(self, h: Seq<u8>) -> bool {
        self.root.reaches(h, 0)
    }

    /// The tree holds the path of `h` and nothing beside it.
    pub closed spec fn holds_only(self, h: Seq<u8>) -> bool {
        self.root.single_path(h, 0)
    }

    fn find(&self, h: &Digest) -> (r: Option<usize>)
        requires
            self.wf(),
        ensures
            match r {
                Some(i) => i < self.store@.len() && self.digest_at(i as int) == h@,
                None => !self.entries@.contains_key(h@),
            },
    {
        let mut i: usize = 0;
        while i < self.store.len()
            invariant
                self.wf(),
                i <= self.store@.len(),
                forall|j: int| 0 <= j < i ==> self.digest_at(j) != h@,
            decreases self.store@.len() - i,
        {
            if self.store[i].0 == *h {
                return Some(i);
            }
            i = i + 1;
        }
        None
    }

    pub fn new() -> (r: Self)
        ensures
            r.wf(),
            r.is_empty(),
            r@ == Map::<Seq<u8>, Seq<char>>::empty(),
            r.commitment() == zero_seq(),
    {
        let r = SparseMerkleTree {
            root: Node { left: None, right: None, hash: zero_digest() },
            store: Vec::new(),
            entries: Ghost(Map::empty()),
        };
        assert(r@ =~= Map::<Seq<u8>, Seq<char>>::empty());
        r
    }

    pub fn commit(&self) -> (r: Digest)
        ensures
            r@ == self.commitment(),
    {
        self.root.hash
    }
}

/// The store of `t` without the entry for `h`, where `gi` is that entry's
/// index (taken out by swapping in the last one), or `-1` where there is none.
proof fn lemma_store_without(t: SparseMerkleTree, mid: Seq<(Digest, String)>, gi: int, h: Seq<u8>)
    requires
        t.wf(),
        (gi == -1 && !t.entries@.contains_key(h) && mid == t.store@) || (0 <= gi
            < t.store@.len() && t.digest_at(gi) == h && mid == t.store@.update(
            gi,
            t.store@.last(),
        ).drop_last()),
    ensures
        forall|a: int| 0 <= a < mid.len() ==> #[trigger] mid[a].0@ != h,
        forall|a: int, b: int| 0 <= a < b < mid.len() ==> mid[a].0@ != mid[b].0@,
        forall|a: int|
            0 <= a < mid.len() ==> {
                &&& t.entries@.contains_key(#[trigger] mid[a].0@)
                &&& t.entries@[mid[a].0@].1 == mid[a].1@
            },
        forall|g: Seq<u8>|
            #[trigger] t.entries@.contains_key(g) && g != h ==> exists|a: int|
                0 <= a < mid.len() && #[trigger] mid[a].0@ == g,
{
    let n = t.store@.len();
    let oi = |a: int| if a == gi { n - 1 } else { a };
    assert forall|a: int| 0 <= a < mid.len() implies #[trigger] mid[a] == t.store@[oi(a)] by {}
    assert forall|a: int| 0 <= a < mid.len() implies #[trigger] mid[a].0@ != h by {
        assert(mid[a] == t.store@[oi(a)]);
        assert(t.digest_at(oi(a)) == mid[a].0@);
    }
    assert forall|a: int, b: int| 0 <= a < b < mid.len() implies mid[a].0@ != mid[b].0@ by {
        assert(mid[a] == t.store@[oi(a)]);
        assert(mid[b] == t.store@[oi(b)]);
        if oi(a) < oi(b) {
            assert(t.digest_at(oi(a)) != t.digest_at(oi(b)));
        } else {
            assert(t.digest_at(oi(b)) != t.digest_at(oi(a)));
        }
    }
    assert forall|a: int| 0 <= a < mid.len() implies {
        &&& t.entries@.contains_key(#[trigger] mid[a].0@)
        &&& t.entries@[mid[a].0@].1 == mid[a].1@
    } by {
        assert(mid[a] == t.store@[oi(a)]);
        assert(t.digest_at(oi(a)) == mid[a].0@);
    }
    assert forall|g: Seq<u8>| #[trigger] t.entries@.contains_key(g) && g != h implies exists|a: int|
        0 <= a < mid.len() && #[trigger] mid[a].0@ == g by {
        let j = choose|j: int| 0 <= j < n && #[trigger] t.digest_at(j) == g;
        if gi >= 0 && j == n - 1 {
            assert(mid[gi] == t.store@[oi(gi)]);
            assert(mid[gi].0@ == g);
        } else {
            assert(mid[j] == t.store@[oi(j)]);
            assert(mid[j].0@ == g);
        }
    }
}

impl SparseMerkleTree {
    /// What `get` returns for `key`: the value bound to its digest, with a
    /// membership proof that checks against the commitment wherever the path
    /// is built and ends in the leaf digest of `key` and that value, or
    /// wherever the key bound there is `key` itself and no computed digest is
    /// the zero digest.
    pub open spec fn get_post(self, key: Seq<char>, r: (Option<String>, SparseMerkleTreeProof)) -> bool {
        let h = spec_hash_key(key);
        &&& opt_view(r.0) == (if self@.contains_key(h) {
            Some(self@[h])
        } else {
            None
        })
        &&& (r.0 is None <==> r.1 is NotPresent)
        &&& (no_zero_digests() && (self@.contains_key(h) ==> self.key_of(h) == key))
            ==> proof_accepted(key, opt_view(r.0), r.1, self.commitment())
        &&& (self@.contains_key(h) && self.path_built(h) && self.leaf_of(h) == spec_hash_kv(
            key,
            self@[h],
        )) ==> proof_accepted(key, opt_view(r.0), r.1, self.commitment())
    }

    /// What `insert` makes of `self`: `key`'s digest is bound to `value`, its
    /// path is built and ends in the new leaf digest, the siblings along it
    /// are those it had before, and the new commitment climbs from the new
    /// leaf through them; every other leaf stays as it was. A binding that
    /// already held `value` leaves the tree as it was.
    pub open spec fn insert_post(self, key: Seq<char>, value: Seq<char>, new: Self) -> bool {
        let h = spec_hash_key(key);
        &&& new.wf()
        &&& new@ == self@.insert(h, value)
        &&& if self@.contains_key(h) && self@[h] == value {
            new == self
        } else {
            &&& new.key_of(h) == key
            &&& new.path_built(h)
            &&& new.leaf_of(h) == spec_hash_kv(key, value)
            &&& new.path_siblings(h) == self.path_siblings(h)
            &&& new.commitment() == fold_path(spec_hash_kv(key, value), self.path_siblings(h), h)
        }
        &&& forall|g: Seq<u8>|
            g.len() == 32 && g != h ==> #[trigger] new.leaf_of(g) == self.leaf_of(g)
        &&& forall|g: Seq<u8>|
            g.len() == 32 && g != h && #[trigger] self.path_built(g) ==> new.path_built(g)
        &&& forall|g: Seq<u8>|
            g != h && #[trigger] self@.contains_key(g) ==> new.key_of(g) == self.key_of(g)
        &&& self.is_empty() ==> new.holds_only(h)
    }

    /// What `remove` makes of `self`: `key`'s digest is unbound and its leaf
    /// cleared, and the new commitment collapses up from that zero leaf
    /// through the siblings the path had; no leaf gains a digest, and where no
    /// computed digest is zero every other leaf stays as it was. Where the key
    /// was not bound the tree stays as it was.
    pub open spec fn remove_post(self, key: Seq<char>, new: Self) -> bool {
        let h = spec_hash_key(key);
        &&& new.wf()
        &&& new@ == self@.remove(h)
        &&& !self@.contains_key(h) ==> new == self
        &&& self@.contains_key(h) ==> new.leaf_of(h) == zero_seq()
        &&& self@.contains_key(h) ==> new.commitment() == collapse_fold(
            zero_seq(),
            self.path_siblings(h),
            h,
        )
        &&& forall|g: Seq<u8>|
            #[trigger] new.leaf_of(g) == self.leaf_of(g) || new.leaf_of(g) == zero_seq()
        &&& no_zero_digests() ==> forall|g: Seq<u8>|
            g.len() == 32 && g != h ==> #[trigger] new.leaf_of(g) == self.leaf_of(g)
        &&& forall|g: Seq<u8>|
            g != h && #[trigger] new@.contains_key(g) ==> new.key_of(g) == self.key_of(g)
        &&& self@.contains_key(h) && self.holds_only(h) ==> new.commitment() == zero_seq()
    }

    /// The value bound to `key`'s digest, with a proof of membership, or
    /// `None` with `NotPresent`.
    pub fn get(&self, key: String) -> (r: (Option<String>, SparseMerkleTreeProof))
        requires
            self.wf(),
        ensures
            self.get_post(key@, r),
    {
        let h = hash_key(key.as_str());
        match self.find(&h) {
            None => (None, SparseMerkleTreeProof::NotPresent),
            Some(i) => {
                let mut siblings: Vec<Digest> = Vec::new();
                self.root.get_proof(&h, 0, &mut siblings);
                assert(siblings@ =~= self.root.siblings_along(h@, 0));
                proof {
                    assert(self.entries@.contains_key(h@));
                    if self.root.reaches(h@, 0) {
                        lemma_fold_siblings(self.root, h@, 0);
                    }
                }
                (Some(self.store[i].1.clone()), SparseMerkleTreeProof::Present { siblings })
            },
        }
    }

    /// Binds `key` to `value`, replacing an earlier value; the tree is returned
    /// unchanged where `key` is already bound to `value`.
    pub fn insert(self, key: String, value: String) -> (r: Self)
        requires
            self.wf(),
        ensures
            self.insert_post(key@, value@, r),
    {
        let mut tree = self;
        let h = hash_key(key.as_str());
        let leaf = hash_kv(key.as_str(), value.as_str());
        let ghost old_tree = tree;
        let found = tree.find(&h);
        let ghost gi: int = match found {
            Some(i) => i as int,
            None => -1,
        };
        if let Some(i) = found {
            assert(tree.entries@.contains_key(h@));
            if tree.store[i].1 == value {
                assert(tree@.contains_key(h@) && tree@[h@] == value@);
                assert(tree@ =~= tree@.insert(h@, value@));
                return tree;
            }
            let _ = tree.store.swap_remove(i);
        }
        proof {
            lemma_store_without(old_tree, tree.store@, gi, h@);
        }
        let ghost mid = tree.store@;
        tree.store.push((h, value));
        tree.entries = Ghost(tree.entries@.insert(h@, (key@, value@)));
        tree.root.insert_leaf(&h, 0, &leaf);
        proof {
            lemma_fold_siblings(tree.root, h@, 0);
            let n = tree.store@.len() - 1;
            assert(tree.digest_at(n) == h@);
            assert forall|a: int| 0 <= a < n implies #[trigger] tree.store@[a] == mid[a] by {}
            assert forall|g: Seq<u8>| #[trigger] tree.entries@.contains_key(g) implies exists|j: int|
                0 <= j < tree.store@.len() && #[trigger] tree.digest_at(j) == g by {
                if g != h@ {
                    let j = choose|j: int| 0 <= j < n && #[trigger] mid[j].0@ == g;
                    assert(tree.store@[j] == mid[j]);
                    assert(tree.digest_at(j) == g);
                } else {
                    assert(tree.digest_at(n) == g);
                }
            }
            if no_zero_digests() {
                assert forall|g: Seq<u8>| #[trigger] tree.entries@.contains_key(g) implies {
                    &&& tree.root.reaches(g, 0)
                    &&& tree.root.leaf_at(g, 0) == spec_hash_kv(tree.entries@[g].0, tree.entries@[g].1)
                } by {
                    if g != h@ {
                        assert(old_tree.entries@.contains_key(g));
                        lemma_distinct_digests_differ_in_a_bit(h@, g);
                        assert(old_tree.root.reaches(g, 0));
                    }
                }
            }
            assert(tree@ =~= old_tree@.insert(h@, value@));
            assert forall|q: Seq<u8>| q.len() == 32 && q != h@ implies #[trigger] tree.root.leaf_at(q, 0)
                == old_tree.root.leaf_at(q, 0) by {
                lemma_distinct_digests_differ_in_a_bit(h@, q);
            }
            assert forall|q: Seq<u8>|
                q.len() == 32 && #[trigger] tree.root.leaf_at(q, 0) != zero_seq()
                    implies tree.entries@.contains_key(q) by {
                if q != h@ {
                    assert(old_tree.root.leaf_at(q, 0) != zero_seq());
                }
            }
            assert forall|g: Seq<u8>|
                g.len() == 32 && g != h@ && #[trigger] old_tree.path_built(g) implies tree.path_built(g) by {
                lemma_distinct_digests_differ_in_a_bit(h@, g);
            }
            assert forall|g: Seq<u8>|
                g.len() == 32 && g != h@ implies #[trigger] tree.leaf_of(g) == old_tree.leaf_of(g) by {
                assert(tree.root.leaf_at(g, 0) == old_tree.root.leaf_at(g, 0));
            }
            if no_zero_digests() {
                assert(spec_hash_kv(key@, value@) != zero_seq());
            }
            assert(tree.wf());
            assert forall|g: Seq<u8>|
                g != h@ && #[trigger] old_tree@.contains_key(g) implies tree.key_of(g) == old_tree.key_of(g) by {
                assert(old_tree.entries@.contains_key(g));
            }
        }
        tree
    }

    /// Unbinds `key`; the tree is returned unchanged where `key` is not bound.
    pub fn remove(self, key: String) -> (r: Self)
        requires
            self.wf(),
        ensures
            self.remove_post(key@, r),
    {
        let mut tree = self;
        let h = hash_key(key.as_str());
        let ghost old_tree = tree;
        match tree.find(&h) {
            None => {
                assert(!tree@.contains_key(h@));
                assert(tree@ =~= tree@.remove(h@));
                tree
            },
            Some(i) => {
                let _ = tree.store.swap_remove(i);
                tree.entries = Ghost(tree.entries@.remove(h@));
                tree.root.remove_leaf(&h, 0);
                proof {
                    lemma_store_without(old_tree, tree.store@, i as int, h@);
                    assert forall|g: Seq<u8>| #[trigger] tree.entries@.contains_key(g) implies exists|j: int|
                        0 <= j < tree.store@.len() && #[trigger] tree.digest_at(j) == g by {
                        let j = choose|j: int| 0 <= j < tree.store@.len() && #[trigger] tree.store@[j].0@ == g;
                        assert(tree.digest_at(j) == g);
                    }
                    if no_zero_digests() {
                        assert forall|g: Seq<u8>| #[trigger] tree.entries@.contains_key(g) implies {
                            &&& tree.root.reaches(g, 0)
                            &&& tree.root.leaf_at(g, 0) == spec_hash_kv(tree.entries@[g].0, tree.entries@[g].1)
                        } by {
                            assert(old_tree.entries@.contains_key(g));
                            lemma_distinct_digests_differ_in_a_bit(h@, g);
                            assert(old_tree.root.reaches(g, 0));
                        }
                    }
                    assert(tree@ =~= old_tree@.remove(h@));
                    assert(tree.wf());
                    assert forall|g: Seq<u8>|
                        g != h@ && #[trigger] tree@.contains_key(g) implies tree.key_of(g) == old_tree.key_of(g) by {
                        assert(tree.entries@.contains_key(g));
                    }
                }
                tree
            },
        }
    }

    /// Checks `result` for `key` against the commitment `comm` with `pf`,
    /// without any access to a tree: `Some(())` where it is accepted.
    pub fn check_proof(
        key: String,
        result: Option<String>,
        pf: &SparseMerkleTreeProof,
        comm: &Digest,
    ) -> (r: Option<()>)
        ensures
            r is Some <==> proof_accepted(key@, opt_view(result), *pf, comm@),
    {
        match result {
            None => match pf {
                SparseMerkleTreeProof::NotPresent => Some(()),
                SparseMerkleTreeProof::Present { .. } => None,
            },
            Some(v) => match pf {
                SparseMerkleTreeProof::NotPresent => None,
                SparseMerkleTreeProof::Present { siblings } => {
                    if siblings.len() != DEPTH {
                        return None;
                    }
                    let root = root_from_path(siblings.as_slice(), key.as_str(), v.as_str());
                    if root == *comm {
                        Some(())
                    } else {
                        None
                    }
                },
            },
        }
    }
}

/// An update of the store: `(key, Some(value))` inserts, `(key, None)` removes.
pub open spec fn update_post(
    t: SparseMerkleTree,
    op: (Seq<char>, Option<Seq<char>>),
    next: SparseMerkleTree,
) -> bool {
    match op.1 {
        Some(v) => t.insert_post(op.0, v, next),
        None => t.remove_post(op.0, next),
    }
}

/// The plain map from key to value that replays `ops`.
pub open spec fn reference_map(ops: Seq<(Seq<char>, Option<Seq<char>>)>) -> Map<Seq<char>, Seq<char>>
    decreases ops.len(),
{
    if ops.len() == 0 {
        Map::empty()
    } else {
        let m = reference_map(ops.drop_last());
        let op = ops.last();
        match op.1 {
            Some(v) => m.insert(op.0, v),
            None => m.remove(op.0),
        }
    }
}

/// No key of `ops` but `k` itself has the digest of `k`.
pub open spec fn digest_unique_in(ops: Seq<(Seq<char>, Option<Seq<char>>)>, k: Seq<char>) -> bool {
    forall|i: int|
        0 <= i < ops.len() && #[trigger] spec_hash_key(ops[i].0) == spec_hash_key(k) ==> ops[i].0 == k
}

proof fn lemma_replay(
    ops: Seq<(Seq<char>, Option<Seq<char>>)>,
    trees: Seq<SparseMerkleTree>,
    k: Seq<char>,
    n: int,
)
    requires
        trees.len() == ops.len() + 1,
        0 <= n <= ops.len(),
        trees[0].is_empty(),
        forall|i: int| 0 <= i < ops.len() ==> update_post(#[trigger] trees[i], ops[i], trees[i + 1]),
        digest_unique_in(ops, k),
    ensures
        trees[n]@.contains_key(spec_hash_key(k)) == reference_map(ops.take(n)).contains_key(k),
        trees[n]@.contains_key(spec_hash_key(k)) ==> trees[n]@[spec_hash_key(k)] == reference_map(
            ops.take(n),
        )[k],
    decreases n,
{
    let h = spec_hash_key(k);
    if n == 0 {
        assert(trees[0]@ =~= Map::<Seq<u8>, Seq<char>>::empty());
        assert(reference_map(ops.take(0)) =~= Map::<Seq<char>, Seq<char>>::empty());
    } else {
        lemma_replay(ops, trees, k, n - 1);
        assert(ops.take(n).drop_last() =~= ops.take(n - 1));
        assert(update_post(trees[n - 1], ops[n - 1], trees[n]));
        if ops[n - 1].0 != k {
            assert(spec_hash_key(ops[n - 1].0) != h);
        }
    }
}

/// Model equivalence: after any sequence of updates from an empty tree, `get`
/// returns what a plain map from key to value, replaying the same updates,
/// holds for the key, where no other updated key shares its digest.
pub proof fn law_model_equivalence(
    ops: Seq<(Seq<char>, Option<Seq<char>>)>,
    trees: Seq<SparseMerkleTree>,
    k: Seq<char>,
    r: (Option<String>, SparseMerkleTreeProof),
)
    requires
        trees.len() == ops.len() + 1,
        trees[0].is_empty(),
        forall|i: int| 0 <= i < ops.len() ==> update_post(#[trigger] trees[i], ops[i], trees[i + 1]),
        digest_unique_in(ops, k),
        trees.last().get_post(k, r),
    ensures
        opt_view(r.0) == (if reference_map(ops).contains_key(k) {
            Some(reference_map(ops)[k])
        } else {
            None
        }),
{
    lemma_replay(ops, trees, k, ops.len() as int);
    assert(ops.take(ops.len() as int) =~= ops);
}

/// Proof soundness: the proof that `get` returns for `key` checks against the
/// tree's commitment, where the key bound under its digest is `key` itself
/// and no computed digest is the zero digest.
pub proof fn law_get_proof_checks(
    t: SparseMerkleTree,
    key: Seq<char>,
    r: (Option<String>, SparseMerkleTreeProof),
)
    requires
        t.wf(),
        t.get_post(key, r),
        no_zero_digests(),
        t@.contains_key(spec_hash_key(key)) ==> t.key_of(spec_hash_key(key)) == key,
    ensures
        proof_accepted(key, opt_view(r.0), r.1, t.commitment()),
{
}

/// Idempotence: inserting the same pair twice in a row leaves the tree, and
/// its commitment, as the first insertion left it.
pub proof fn law_insert_twice(
    t0: SparseMerkleTree,
    key: Seq<char>,
    value: Seq<char>,
    t1: SparseMerkleTree,
    t2: SparseMerkleTree,
)
    requires
        t0.wf(),
        t0.insert_post(key, value, t1),
        t1.insert_post(key, value, t2),
    ensures
        t2 == t1,
        t2.commitment() == t1.commitment(),
{
}

/// Removal round trip: on an empty tree, inserting a pair and removing its key
/// gives back the commitment of the empty tree.
pub proof fn law_insert_remove_round_trip(
    t0: SparseMerkleTree,
    key: Seq<char>,
    value: Seq<char>,
    t1: SparseMerkleTree,
    t2: SparseMerkleTree,
)
    requires
        t0.wf(),
        t0.is_empty(),
        t0.insert_post(key, value, t1),
        t1.remove_post(key, t2),
    ensures
        t2.commitment() == t0.commitment(),
        t2@ == t0@,
{
    assert(t0@ =~= Map::<Seq<u8>, Seq<char>>::empty());
    assert(t2@ =~= t0@);
}

/// No-op removal: removing a key whose digest is not bound leaves the tree,
/// and its commitment, unchanged.
pub proof fn law_remove_absent(t0: SparseMerkleTree, key: Seq<char>, t1: SparseMerkleTree)
    requires
        t0.wf(),
        !t0@.contains_key(spec_hash_key(key)),
        t0.remove_post(key, t1),
    ensures
        t1 == t0,
        t1.commitment() == t0.commitment(),
{
}

/// The siblings that a proof carries; none for `NotPresent`.
pub open spec fn siblings_of(pf: SparseMerkleTreeProof) -> Seq<Digest> {
    match pf {
        SparseMerkleTreeProof::NotPresent => Seq::empty(),
        SparseMerkleTreeProof::Present { siblings } => siblings@,
    }
}

/// Proof binding: where proofs for two claimed values of `key` both check
/// against one commitment, and the values differ or the proofs differ in some
/// sibling, the digest functions have a collision. Changing one sibling or the
/// claimed value of an accepted proof thus makes it fail unless a collision
/// is found.
pub proof fn law_proof_binding(
    key: Seq<char>,
    v1: Seq<char>,
    pf1: SparseMerkleTreeProof,
    v2: Seq<char>,
    pf2: SparseMerkleTreeProof,
    comm: Seq<u8>,
)
    requires
        proof_accepted(key, Some(v1), pf1, comm),
        proof_accepted(key, Some(v2), pf2, comm),
        v1 != v2 || exists|j: int|
            0 <= j < 256 && #[trigger] siblings_of(pf1)[j]@ != siblings_of(pf2)[j]@,
    ensures
        branch_collision() || kv_collision(key),
{
    let l1 = spec_hash_kv(key, v1);
    let l2 = spec_hash_kv(key, v2);
    if v1 != v2 && l1 == l2 {
        assert(kv_collision(key));
    } else {
        let s1 = siblings_of(pf1);
        let s2 = siblings_of(pf2);
        if l1 == l2 {
            let j = choose|j: int| 0 <= j < 256 && #[trigger] siblings_of(pf1)[j]@ != siblings_of(pf2)[j]@;
            assert(s1[j]@ != s2[j]@);
        }
        lemma_fold_binding(l1, l2, s1, s2, spec_hash_key(key));
    }
}

/// Where the path of `h` is built, the commitment is what climbing from its
/// leaf through its 256 siblings gives.
pub proof fn lemma_commitment_from_path(t: SparseMerkleTree, h: Seq<u8>)
    requires
        t.wf(),
        t.path_built(h),
    ensures
        t.path_siblings(h).len() == 256,
        t.commitment() == fold_path(t.leaf_of(h), t.path_siblings(h), h),
{
    lemma_fold_siblings(t.root, h, 0);
    lemma_padded_is_siblings(t.root, h, 0);
}

/// Where no computed digest is zero and `h` is a 32-byte digest not bound in
/// the tree, the commitment is what collapsing up from a zero leaf through the
/// siblings of `h`'s path gives.
pub proof fn lemma_commitment_without(t: SparseMerkleTree, h: Seq<u8>)
    requires
        t.wf(),
        no_zero_digests(),
        h.len() == 32,
        !t@.contains_key(h),
    ensures
        t.leaf_of(h) == zero_seq(),
        t.commitment() == collapse_fold(zero_seq(), t.path_siblings(h), h),
{
    if t.root.leaf_at(h, 0) != zero_seq() {
        assert(t.entries@.contains_key(h));
    }
    lemma_collapsed_hash(t.root, h, 0);
}

/// Removal round trip with other keys: where no computed digest is zero,
/// inserting a key that is not bound and then removing it gives back the
/// commitment and the bindings the tree had, whatever else it holds.
pub proof fn law_insert_remove_restores(
    t0: SparseMerkleTree,
    key: Seq<char>,
    value: Seq<char>,
    t1: SparseMerkleTree,
    t2: SparseMerkleTree,
)
    requires
        t0.wf(),
        no_zero_digests(),
        !t0@.contains_key(spec_hash_key(key)),
        t0.insert_post(key, value, t1),
        t1.remove_post(key, t2),
    ensures
        t2.commitment() == t0.commitment(),
        t2@ == t0@,
{
    let h = spec_hash_key(key);
    assert(t1.entries@.contains_key(h));
    lemma_commitment_without(t0, h);
    assert(t2@ =~= t0@);
}

/// An insertion leaves the commitment unchanged only where the key was
/// already bound to that value, unless the digest functions have a collision
/// (given no computed digest is zero and the key bound under the digest, if
/// any, is `key` itself).
pub proof fn law_unchanged_commitment_means_bound(
    t0: SparseMerkleTree,
    key: Seq<char>,
    value: Seq<char>,
    t1: SparseMerkleTree,
)
    requires
        t0.wf(),
        no_zero_digests(),
        t0.insert_post(key, value, t1),
        t1.commitment() == t0.commitment(),
        t0@.contains_key(spec_hash_key(key)) ==> t0.key_of(spec_hash_key(key)) == key,
    ensures
        (t0@.contains_key(spec_hash_key(key)) && t0@[spec_hash_key(key)] == value)
            || branch_collision() || kv_collision(key),
{
    let h = spec_hash_key(key);
    if !(t0@.contains_key(h) && t0@[h] == value) {
        assert(t1@.contains_key(h));
        assert(t1.entries@.contains_key(h));
        let x = spec_hash_kv(key, value);
        assert(x != zero_seq());
        if t0@.contains_key(h) {
            assert(t0.entries@.contains_key(h));
            let w = t0@[h];
            lemma_commitment_from_path(t0, h);
            if spec_hash_kv(key, w) == x {
                assert(w != value && spec_hash_kv(key, w) == spec_hash_kv(key, value));
            } else {
                lemma_fold_binding(spec_hash_kv(key, w), x, t0.path_siblings(h), t0.path_siblings(h), h);
            }
        } else {
            lemma_commitment_without(t0, h);
            lemma_collapse_vs_fold(x, t0.path_siblings(h), h);
        }
    }
}

} // verus!
