use vstd::prelude::*;
use crate::digest::{Digest, bit_of, zero_seq, zero_digest, spec_zero_digest, lemma_zero_digest_view, DEPTH};
use crate::hashing::{hash_branch, spec_hash_branch, spec_hash_kv, fold_path, collapse_fold};

verus! {

/// No digest that the tree computes is the zero digest, which stands for an
/// empty subtree. Where this holds, a non-empty subtree is never taken for an
/// empty one.
pub open spec fn no_zero_digests() -> bool {
    &&& forall|l: Seq<u8>, r: Seq<u8>| #[trigger] spec_hash_branch(l, r) != zero_seq()
    &&& forall|k: Seq<char>, v: Seq<char>| #[trigger] spec_hash_kv(k, v) != zero_seq()
}

/// Paths `p` and `q` part at some depth at or below `d`.
pub open spec fn diverges(p: Seq<u8>, q: Seq<u8>, d: int) -> bool {
    exists|i: int| d <= i < 256 && bit_of(p, i) != bit_of(q, i)
}

/// The commitment of one subtree. A node at depth 256 is a leaf record; above
/// that, a node has either no children or both.
#[derive(Debug)]
pub struct Node {
    pub left: Option<Box<Node>>,
    pub right: Option<Box<Node>>,
    pub hash: Digest,
}

impl Node {
    pub open spec fn childless(self) -> bool {
        self.left is None && self.right is None
    }

    /// Well-formed at depth `d`: childless nodes above the leaves hold the zero
    /// digest, and every other inner node holds the branch digest of its
    /// children.
    pub open spec fn wf(self, d: int) -> bool
        decreases self,
    {
        &&& 0 <= d <= 256
        &&& match self.left {
            None => self.right is None && (d < 256 ==> self.hash@ == zero_seq()),
            Some(l) => match self.right {
                None => false,
                Some(r) => {
                    &&& d < 256
                    &&& l.wf(d + 1)
                    &&& r.wf(d + 1)
                    &&& self.hash@ == spec_hash_branch(l.hash@, r.hash@)
                },
            },
        }
    }

    /// The nodes along path `p` exist from depth `d` down to the leaf.
    pub open spec fn reaches(self, p: Seq<u8>, d: int) -> bool
        decreases self,
    {
        if d >= 256 {
            true
        } else if bit_of(p, d) {
            match self.right {
                Some(c) => c.reaches(p, d + 1),
                None => false,
            }
        } else {
            match self.left {
                Some(c) => c.reaches(p, d + 1),
                None => false,
            }
        }
    }

    /// The digest at the end of path `p`, or the zero digest where the path
    /// stops early.
    pub open spec fn leaf_at(self, p: Seq<u8>, d: int) -> Seq<u8>
        decreases self,
    {
        if d >= 256 {
            self.hash@
        } else if bit_of(p, d) {
            match self.right {
                Some(c) => c.leaf_at(p, d + 1),
                None => zero_seq(),
            }
        } else {
            match self.left {
                Some(c) => c.leaf_at(p, d + 1),
                None => zero_seq(),
            }
        }
    }

    /// The digests beside path `p`, from the deepest level up to depth `d`.
    pub open spec fn siblings_along(self, p: Seq<u8>, d: int) -> Seq<Digest>
        decreases self,
    {
        if d >= 256 {
            Seq::empty()
        } else {
            match self.left {
                None => Seq::empty(),
                Some(l) => match self.right {
                    None => Seq::empty(),
                    Some(r) => if bit_of(p, d) {
                        r.siblings_along(p, d + 1).push(l.hash)
                    } else {
                        l.siblings_along(p, d + 1).push(r.hash)
                    },
                },
            }
        }
    }

    /// The digests beside path `p`, from the deepest level up to depth `d`,
    /// with the zero digest wherever the path has not been built.
    pub open spec fn padded_siblings(self, p: Seq<u8>, d: int) -> Seq<Digest>
        decreases self,
    {
        if d >= 256 {
            Seq::empty()
        } else {
            match self.left {
                None => Seq::new((256 - d) as nat, |i: int| spec_zero_digest()),
                Some(l) => match self.right {
                    None => Seq::new((256 - d) as nat, |i: int| spec_zero_digest()),
                    Some(r) => if bit_of(p, d) {
                        r.padded_siblings(p, d + 1).push(l.hash)
                    } else {
                        l.padded_siblings(p, d + 1).push(r.hash)
                    },
                },
            }
        }
    }

    /// An empty placeholder: no children and the zero digest.
    pub open spec fn empty() -> Node {
        Node { left: None, right: None, hash: spec_zero_digest() }
    }

    /// `self` is `old` with path `p` built from depth `d` down: at each level
    /// the child beside the path is the child `old` had there, or an empty
    /// placeholder where `old` had none.
    pub open spec fn grown_from(self, old: Node, p: Seq<u8>, d: int) -> bool
        decreases self,
    {
        if d >= 256 {
            true
        } else {
            match self.left {
                None => false,
                Some(l) => match self.right {
                    None => false,
                    Some(r) => match old.left {
                        Some(ol) => match old.right {
                            None => false,
                            Some(or) => if bit_of(p, d) {
                                *l == *ol && r.grown_from(*or, p, d + 1)
                            } else {
                                *r == *or && l.grown_from(*ol, p, d + 1)
                            },
                        },
                        None => if bit_of(p, d) {
                            *l == Node::empty() && r.grown_from(Node::empty(), p, d + 1)
                        } else {
                            *r == Node::empty() && l.grown_from(Node::empty(), p, d + 1)
                        },
                    },
                },
            }
        }
    }

    /// No inner node keeps two children that both hold the zero digest.
    pub open spec fn collapsed(self) -> bool
        decreases self,
    {
        match self.left {
            None => true,
            Some(l) => match self.right {
                None => true,
                Some(r) => {
                    &&& !(l.hash@ == zero_seq() && r.hash@ == zero_seq())
                    &&& l.collapsed()
                    &&& r.collapsed()
                },
            },
        }
    }

    /// The subtree holds path `p` and nothing else: every node beside it is
    /// an empty placeholder.
    pub open spec fn single_path(self, p: Seq<u8>, d: int) -> bool
        decreases self,
    {
        if d >= 256 {
            true
        } else {
            match self.left {
                None => false,
                Some(l) => match self.right {
                    None => false,
                    Some(r) => if bit_of(p, d) {
                        l.childless() && l.hash@ == zero_seq() && r.single_path(p, d + 1)
                    } else {
                        r.childless() && r.hash@ == zero_seq() && l.single_path(p, d + 1)
                    },
                },
            }
        }
    }
}

/// Climbing from the leaf of a path through the siblings beside it gives back
/// the digest of the subtree.
pub proof fn lemma_fold_siblings(n: Node, p: Seq<u8>, d: int)
    requires
        n.wf(d),
        n.reaches(p, d),
    ensures
        n.siblings_along(p, d).len() == 256 - d,
        fold_path(n.leaf_at(p, d), n.siblings_along(p, d), p) == n.hash@,
    decreases 256 - d,
{
    if d < 256 {
        let l = n.left.unwrap();
        let r = n.right.unwrap();
        if bit_of(p, d) {
            lemma_fold_siblings(*r, p, d + 1);
            assert(n.siblings_along(p, d).drop_last() =~= r.siblings_along(p, d + 1));
        } else {
            lemma_fold_siblings(*l, p, d + 1);
            assert(n.siblings_along(p, d).drop_last() =~= l.siblings_along(p, d + 1));
        }
    }
}

/// Where the path is built, the padded siblings are the siblings themselves.
pub proof fn lemma_padded_is_siblings(n: Node, p: Seq<u8>, d: int)
    requires
        n.wf(d),
        n.reaches(p, d),
    ensures
        n.padded_siblings(p, d) == n.siblings_along(p, d),
    decreases 256 - d,
{
    if d < 256 {
        let l = n.left.unwrap();
        let r = n.right.unwrap();
        if bit_of(p, d) {
            lemma_padded_is_siblings(*r, p, d + 1);
        } else {
            lemma_padded_is_siblings(*l, p, d + 1);
        }
    }
}

/// One padded sibling for each level below `d`.
pub proof fn lemma_padded_len(n: Node, p: Seq<u8>, d: int)
    requires
        n.wf(d),
    ensures
        n.padded_siblings(p, d).len() == 256 - d,
    decreases 256 - d,
{
    if d < 256 {
        match n.left {
            None => {},
            Some(l) => {
                let r = n.right.unwrap();
                lemma_padded_len(*l, p, d + 1);
                lemma_padded_len(*r, p, d + 1);
            },
        }
    }
}

/// Collapsing up from the zero digest through zero siblings gives zero.
pub proof fn lemma_collapse_zeros(n: nat, p: Seq<u8>)
    ensures
        collapse_fold(zero_seq(), Seq::new(n, |i: int| spec_zero_digest()), p) == zero_seq(),
    decreases n,
{
    if n > 0 {
        assert(Seq::new(n, |i: int| spec_zero_digest()).drop_last() =~= Seq::new(
            (n - 1) as nat,
            |i: int| spec_zero_digest(),
        ));
        lemma_collapse_zeros((n - 1) as nat, p);
        lemma_zero_digest_view();
    }
}

/// In a collapsed subtree whose path `p` ends in the zero digest, the digest
/// is what collapsing up from that zero leaf through the padded siblings
/// gives.
pub proof fn lemma_collapsed_hash(n: Node, p: Seq<u8>, d: int)
    requires
        n.wf(d),
        n.collapsed(),
        n.leaf_at(p, d) == zero_seq(),
    ensures
        n.hash@ == collapse_fold(zero_seq(), n.padded_siblings(p, d), p),
    decreases 256 - d,
{
    if d < 256 {
        match n.left {
            None => {
                lemma_collapse_zeros((256 - d) as nat, p);
            },
            Some(l) => {
                let r = n.right.unwrap();
                lemma_padded_len(n, p, d);
                if bit_of(p, d) {
                    lemma_collapsed_hash(*r, p, d + 1);
                    assert(n.padded_siblings(p, d).drop_last() =~= r.padded_siblings(p, d + 1));
                } else {
                    lemma_collapsed_hash(*l, p, d + 1);
                    assert(n.padded_siblings(p, d).drop_last() =~= l.padded_siblings(p, d + 1));
                }
            },
        }
    }
}

/// Under `no_zero_digests`, a subtree that reaches a non-zero leaf does not
/// hold the zero digest.
pub proof fn lemma_nonzero_subtree(n: Node, q: Seq<u8>, d: int)
    requires
        no_zero_digests(),
        n.wf(d),
        n.reaches(q, d),
        n.leaf_at(q, d) != zero_seq(),
    ensures
        n.hash@ != zero_seq(),
{
    if d < 256 {
        let l = n.left.unwrap();
        let r = n.right.unwrap();
        assert(spec_hash_branch(l.hash@, r.hash@) != zero_seq());
    }
}

/// Paths that part at or below `d` but agree at `d` part below `d`.
pub proof fn lemma_diverges_below(p: Seq<u8>, q: Seq<u8>, d: int)
    requires
        diverges(p, q, d),
        bit_of(p, d) == bit_of(q, d),
    ensures
        diverges(p, q, d + 1),
{
    let i = choose|i: int| d <= i < 256 && bit_of(p, i) != bit_of(q, i);
    assert(d + 1 <= i < 256 && bit_of(p, i) != bit_of(q, i));
}

impl Node {
    /// Appends the digests beside path `p`, deepest first, to `siblings`.
    pub fn get_proof(&self, p: &Digest, d: usize, siblings: &mut Vec<Digest>)
        requires
            self.wf(d as int),
        ensures
            final(siblings)@ == old(siblings)@ + self.siblings_along(p@, d as int),
        decreases DEPTH - d,
    {
        match &self.left {
            None => {
                assert(old(siblings)@ + self.siblings_along(p@, d as int) =~= old(siblings)@);
            },
            Some(l) => match &self.right {
                None => {},
                Some(r) => {
                    if p.bit(d) {
                        r.get_proof(p, d + 1, siblings);
                        siblings.push(l.hash);
                    } else {
                        l.get_proof(p, d + 1, siblings);
                        siblings.push(r.hash);
                    }
                    assert(final(siblings)@ =~= old(siblings)@ + self.siblings_along(p@, d as int));
                },
            },
        }
    }

    /// Installs the leaf digest `leaf` at the end of path `p`, creating the
    /// nodes along the path and empty placeholders beside it, and recomputes
    /// the digests on the way up.
    pub fn insert_leaf(&mut self, p: &Digest, d: usize, leaf: &Digest)
        requires
            old(self).wf(d as int),
            d < DEPTH,
        ensures
            final(self).wf(d as int),
            final(self).reaches(p@, d as int),
            final(self).leaf_at(p@, d as int) == leaf@,
            forall|q: Seq<u8>|
                diverges(p@, q, d as int) && #[trigger] old(self).reaches(q, d as int) ==> {
                    &&& final(self).reaches(q, d as int)
                    &&& final(self).leaf_at(q, d as int) == old(self).leaf_at(q, d as int)
                },
            forall|q: Seq<u8>|
                diverges(p@, q, d as int) ==> #[trigger] final(self).leaf_at(q, d as int)
                    == old(self).leaf_at(q, d as int),
            old(self).childless() ==> final(self).single_path(p@, d as int),
            final(self).siblings_along(p@, d as int) == old(self).padded_siblings(p@, d as int),
            final(self).padded_siblings(p@, d as int) == old(self).padded_siblings(p@, d as int),
            no_zero_digests() && leaf@ != zero_seq() && old(self).collapsed()
                ==> final(self).collapsed(),
            final(self).grown_from(*old(self), p@, d as int),
        decreases DEPTH - d,
    {
        let ghost before = *self;
        let mut l: Node = match self.left.take() {
            Some(b) => *b,
            None => Node::default(),
        };
        let mut r: Node = match self.right.take() {
            Some(b) => *b,
            None => Node::default(),
        };
        let ghost l0 = l;
        let ghost r0 = r;
        proof {
            if before.left is Some {
                assert(before.left.unwrap() == l0 && before.right.unwrap() == r0);
            }
        }
        assert(l0.wf(d + 1) && r0.wf(d + 1));
        let right = p.bit(d);
        if d == DEPTH - 1 {
            if right {
                r = Node { left: None, right: None, hash: *leaf };
            } else {
                l = Node { left: None, right: None, hash: *leaf };
            }
        } else {
            if right {
                r.insert_leaf(p, d + 1, leaf);
            } else {
                l.insert_leaf(p, d + 1, leaf);
            }
        }
        assert(l.wf(d + 1) && r.wf(d + 1));
        if right {
            assert(r.reaches(p@, d + 1) && r.leaf_at(p@, d + 1) == leaf@);
            assert(before.childless() ==> r.single_path(p@, d + 1));
        } else {
            assert(l.reaches(p@, d + 1) && l.leaf_at(p@, d + 1) == leaf@);
            assert(before.childless() ==> l.single_path(p@, d + 1));
        }
        self.hash = hash_branch(l.hash, r.hash);
        self.left = Some(Box::new(l));
        self.right = Some(Box::new(r));
        proof {
            let on_new = if right { r } else { l };
            let on_old = if right { r0 } else { l0 };
            let off = if right { l } else { r };
            assert(self.siblings_along(p@, d as int) == on_new.siblings_along(p@, d + 1).push(off.hash));
            assert(on_new.siblings_along(p@, d + 1) == on_old.padded_siblings(p@, d + 1));
            if before.childless() {
                assert(on_old.padded_siblings(p@, d + 1) =~= Seq::new((255 - d) as nat, |i: int| spec_zero_digest()));
                assert(self.siblings_along(p@, d as int) =~= before.padded_siblings(p@, d as int));
            } else {
                assert(before.left.unwrap() == l0 && before.right.unwrap() == r0);
                assert(self.siblings_along(p@, d as int) =~= before.padded_siblings(p@, d as int));
            }
        }
        proof {
            assert forall|q: Seq<u8>|
                diverges(p@, q, d as int) && #[trigger] before.reaches(q, d as int) implies {
                &&& self.reaches(q, d as int)
                &&& self.leaf_at(q, d as int) == before.leaf_at(q, d as int)
            } by {
                assert(before.left.unwrap() == l0 && before.right.unwrap() == r0);
                if bit_of(q, d as int) == right {
                    lemma_diverges_below(p@, q, d as int);
                    if right {
                        assert(r0.reaches(q, d + 1));
                    } else {
                        assert(l0.reaches(q, d + 1));
                    }
                }
            }
            assert forall|q: Seq<u8>| diverges(p@, q, d as int) implies #[trigger] self.leaf_at(q, d as int)
                == before.leaf_at(q, d as int) by {
                if before.left is Some {
                    assert(before.left.unwrap() == l0 && before.right.unwrap() == r0);
                } else {
                    assert(l0.leaf_at(q, d + 1) == zero_seq());
                    assert(r0.leaf_at(q, d + 1) == zero_seq());
                }
                if bit_of(q, d as int) == right {
                    lemma_diverges_below(p@, q, d as int);
                    if right {
                        assert(r.leaf_at(q, d + 1) == r0.leaf_at(q, d + 1));
                    } else {
                        assert(l.leaf_at(q, d + 1) == l0.leaf_at(q, d + 1));
                    }
                }
            }
            lemma_padded_is_siblings(*self, p@, d as int);
            if right {
                assert(r.grown_from(r0, p@, d + 1));
            } else {
                assert(l.grown_from(l0, p@, d + 1));
            }
            if before.left is None {
                assert(l0 == Node::empty() && r0 == Node::empty());
            } else {
                assert(before.left.unwrap() == l0 && before.right.unwrap() == r0);
            }
            assert(self.grown_from(before, p@, d as int));
            if no_zero_digests() && leaf@ != zero_seq() && before.collapsed() {
                if before.left is Some {
                    assert(before.left.unwrap() == l0 && before.right.unwrap() == r0);
                }
                assert(l0.collapsed() && r0.collapsed());
                if right {
                    lemma_nonzero_subtree(r, p@, d + 1);
                    assert(r.collapsed());
                } else {
                    lemma_nonzero_subtree(l, p@, d + 1);
                    assert(l.collapsed());
                }
            }
        }
    }

    /// Clears the leaf at the end of path `p` and drops every inner node on the
    /// way up whose two children both hold the zero digest.
    pub fn remove_leaf(&mut self, p: &Digest, d: usize)
        requires
            old(self).wf(d as int),
        ensures
            final(self).wf(d as int),
            final(self).leaf_at(p@, d as int) == zero_seq(),
            old(self).single_path(p@, d as int) ==> final(self).childless()
                && final(self).hash@ == zero_seq(),
            old(self).childless() ==> final(self).childless() && final(self).hash@ == zero_seq(),
            forall|q: Seq<u8>|
                #[trigger] final(self).leaf_at(q, d as int) == old(self).leaf_at(q, d as int)
                    || final(self).leaf_at(q, d as int) == zero_seq(),
            old(self).collapsed() ==> final(self).collapsed(),
            final(self).hash@ == collapse_fold(zero_seq(), old(self).padded_siblings(p@, d as int), p@),
            no_zero_digests() ==> forall|q: Seq<u8>|
                diverges(p@, q, d as int) && #[trigger] old(self).reaches(q, d as int)
                    && old(self).leaf_at(q, d as int) != zero_seq() ==> {
                    &&& final(self).reaches(q, d as int)
                    &&& final(self).leaf_at(q, d as int) == old(self).leaf_at(q, d as int)
                },
        decreases DEPTH - d,
    {
        let ghost before = *self;
        if self.left.is_none() && self.right.is_none() {
            self.hash = zero_digest();
            proof {
                if d < DEPTH {
                    lemma_collapse_zeros((256 - d) as nat, p@);
                }
            }
            return ;
        }
        let mut l: Node = match self.left.take() {
            Some(b) => *b,
            None => Node::default(),
        };
        let mut r: Node = match self.right.take() {
            Some(b) => *b,
            None => Node::default(),
        };
        let ghost l0 = l;
        let ghost r0 = r;
        let right = p.bit(d);
        if right {
            r.remove_leaf(p, d + 1);
        } else {
            l.remove_leaf(p, d + 1);
        }
        proof {
            assert(before.left.unwrap() == l0 && before.right.unwrap() == r0);
            lemma_padded_len(before, p@, d as int);
            if right {
                assert(before.padded_siblings(p@, d as int).drop_last() =~= r0.padded_siblings(p@, d + 1));
            } else {
                assert(before.padded_siblings(p@, d as int).drop_last() =~= l0.padded_siblings(p@, d + 1));
            }
        }
        if l.hash.is_zero() && r.hash.is_zero() {
            self.hash = zero_digest();
            proof {
                if no_zero_digests() {
                    assert forall|q: Seq<u8>|
                        diverges(p@, q, d as int) && #[trigger] before.reaches(q, d as int)
                            && before.leaf_at(q, d as int) != zero_seq() implies false by {
                        assert(before.left.unwrap() == l0 && before.right.unwrap() == r0);
                        if bit_of(q, d as int) == right {
                            lemma_diverges_below(p@, q, d as int);
                            if right {
                                assert(r0.reaches(q, d + 1));
                                lemma_nonzero_subtree(r, q, d + 1);
                            } else {
                                assert(l0.reaches(q, d + 1));
                                lemma_nonzero_subtree(l, q, d + 1);
                            }
                        } else {
                            if right {
                                lemma_nonzero_subtree(l, q, d + 1);
                            } else {
                                lemma_nonzero_subtree(r, q, d + 1);
                            }
                        }
                    }
                }
            }
            return ;
        }
        self.hash = hash_branch(l.hash, r.hash);
        self.left = Some(Box::new(l));
        self.right = Some(Box::new(r));
        proof {
            assert forall|q: Seq<u8>|
                #[trigger] self.leaf_at(q, d as int) == before.leaf_at(q, d as int)
                    || self.leaf_at(q, d as int) == zero_seq() by {
                if right {
                    assert(r.leaf_at(q, d + 1) == r0.leaf_at(q, d + 1) || r.leaf_at(q, d + 1) == zero_seq());
                } else {
                    assert(l.leaf_at(q, d + 1) == l0.leaf_at(q, d + 1) || l.leaf_at(q, d + 1) == zero_seq());
                }
            }
            if no_zero_digests() {
                assert forall|q: Seq<u8>|
                    diverges(p@, q, d as int) && #[trigger] before.reaches(q, d as int)
                        && before.leaf_at(q, d as int) != zero_seq() implies {
                    &&& self.reaches(q, d as int)
                    &&& self.leaf_at(q, d as int) == before.leaf_at(q, d as int)
                } by {
                    assert(before.left.unwrap() == l0 && before.right.unwrap() == r0);
                    if bit_of(q, d as int) == right {
                        lemma_diverges_below(p@, q, d as int);
                        if right {
                            assert(r0.reaches(q, d + 1));
                        } else {
                            assert(l0.reaches(q, d + 1));
                        }
                    }
                }
            }
        }
    }
}

impl Default for Node {
    /// An empty subtree: no children and the zero digest.
    fn default() -> (r: Node)
        ensures
            r.childless(),
            r.hash@ == zero_seq(),
            r.hash == spec_zero_digest(),
            r == Node::empty(),
    {
        Node { left: None, right: None, hash: zero_digest() }
    }
}

} // verus!
