use vstd::prelude::*;
use vstd::utf8::encode_utf8;
use vstd::string::StringSliceAdditionalSpecFns;
use crate::digest::{Digest, bit_of, zero_seq, DEPTH};

verus! {

/// What SHA-256 returns on a message.
pub uninterp spec fn sha256_of(msg: Seq<u8>) -> Seq<u8>;

/// Relies on sha2::Sha256::digest: the SHA-256 digest of the message, which
/// depends on the message bytes alone.
#[verifier::external_body]
fn sha256(msg: &[u8]) -> (r: Digest)
    ensures
        r@ == sha256_of(msg@),
{
    Digest { bytes: <sha2::Sha256 as sha2::Digest>::digest(msg).into() }
}

/// The eight little-endian bytes of a length.
pub open spec fn length_bytes(n: u64) -> Seq<u8> {
    seq![
        n as u8,
        (n >> 8u64) as u8,
        (n >> 16u64) as u8,
        (n >> 24u64) as u8,
        (n >> 32u64) as u8,
        (n >> 40u64) as u8,
        (n >> 48u64) as u8,
        (n >> 56u64) as u8,
    ]
}

/// A field of a hashed message: its length, then its bytes.
pub open spec fn framed(s: Seq<u8>) -> Seq<u8> {
    length_bytes(s.len() as u64) + s
}

/// The message hashed for one tagged field.
pub open spec fn message_one(tag: Seq<u8>, a: Seq<u8>) -> Seq<u8> {
    framed(tag) + framed(a)
}

/// The message hashed for two tagged fields.
pub open spec fn message_two(tag_a: Seq<u8>, tag_b: Seq<u8>, a: Seq<u8>, b: Seq<u8>) -> Seq<u8> {
    framed(tag_a) + framed(a) + framed(tag_b) + framed(b)
}

pub open spec fn key_tag() -> Seq<u8> {
    encode_utf8("hash_key"@)
}

pub open spec fn kv_key_tag() -> Seq<u8> {
    encode_utf8("hash_kv_K"@)
}

pub open spec fn kv_value_tag() -> Seq<u8> {
    encode_utf8("hash_kv_V"@)
}

pub open spec fn branch_left_tag() -> Seq<u8> {
    encode_utf8("hash_branch_L"@)
}

pub open spec fn branch_right_tag() -> Seq<u8> {
    encode_utf8("hash_branch_R"@)
}

/// The digest of a key: its index in the store and its path in the tree.
pub open spec fn spec_hash_key(k: Seq<char>) -> Seq<u8> {
    sha256_of(message_one(key_tag(), encode_utf8(k)))
}

/// The digest of a leaf holding `v` under key `k`.
pub open spec fn spec_hash_kv(k: Seq<char>, v: Seq<char>) -> Seq<u8> {
    sha256_of(message_two(kv_key_tag(), kv_value_tag(), encode_utf8(k), encode_utf8(v)))
}

/// The digest of an inner node with children digests `l` and `r`.
pub open spec fn spec_hash_branch(l: Seq<u8>, r: Seq<u8>) -> Seq<u8> {
    sha256_of(message_two(branch_left_tag(), branch_right_tag(), l, r))
}

/// The digest reached by climbing from a leaf digest through `sibs`, whose
/// first element is the sibling next to the leaf; the bits of `path` say on
/// which side the running digest stands at each level.
pub open spec fn fold_path(leaf: Seq<u8>, sibs: Seq<Digest>, path: Seq<u8>) -> Seq<u8>
    decreases sibs.len(),
{
    if sibs.len() == 0 {
        leaf
    } else {
        let n = sibs.len();
        let below = fold_path(leaf, sibs.drop_last(), path);
        let s = sibs[n - 1]@;
        if bit_of(path, 256 - n) {
            spec_hash_branch(s, below)
        } else {
            spec_hash_branch(below, s)
        }
    }
}

/// The digest reached by climbing as `fold_path` does, except that a level
/// where both the running digest and the sibling are the zero digest gives
/// the zero digest: an emptied subtree collapses.
pub open spec fn collapse_fold(leaf: Seq<u8>, sibs: Seq<Digest>, path: Seq<u8>) -> Seq<u8>
    decreases sibs.len(),
{
    if sibs.len() == 0 {
        leaf
    } else {
        let n = sibs.len();
        let below = collapse_fold(leaf, sibs.drop_last(), path);
        let s = sibs[n - 1]@;
        if below == zero_seq() && s == zero_seq() {
            zero_seq()
        } else if bit_of(path, 256 - n) {
            spec_hash_branch(s, below)
        } else {
            spec_hash_branch(below, s)
        }
    }
}

/// Two different pairs of child digests have the same branch digest.
pub open spec fn branch_collision() -> bool {
    exists|a: Seq<u8>, b: Seq<u8>, c: Seq<u8>, d: Seq<u8>|
        (a != c || b != d) && #[trigger] spec_hash_branch(a, b) == #[trigger] spec_hash_branch(c, d)
}

/// Two different values have the same leaf digest under key `k`.
pub open spec fn kv_collision(k: Seq<char>) -> bool {
    exists|v1: Seq<char>, v2: Seq<char>|
        v1 != v2 && #[trigger] spec_hash_kv(k, v1) == #[trigger] spec_hash_kv(k, v2)
}

/// Two climbs of equal length that reach the same digest from different leaf
/// digests, or through siblings that differ somewhere, meet a branch collision.
pub proof fn lemma_fold_binding(l1: Seq<u8>, l2: Seq<u8>, s1: Seq<Digest>, s2: Seq<Digest>, p: Seq<u8>)
    requires
        s1.len() == s2.len(),
        fold_path(l1, s1, p) == fold_path(l2, s2, p),
        l1 != l2 || exists|j: int| 0 <= j < s1.len() && #[trigger] s1[j]@ != s2[j]@,
    ensures
        branch_collision(),
    decreases s1.len(),
{
    let n = s1.len();
    if n > 0 {
        let b1 = fold_path(l1, s1.drop_last(), p);
        let b2 = fold_path(l2, s2.drop_last(), p);
        let t1 = s1[n - 1]@;
        let t2 = s2[n - 1]@;
        if b1 != b2 || t1 != t2 {
            if bit_of(p, 256 - n) {
                assert((t1 != t2 || b1 != b2) && spec_hash_branch(t1, b1) == spec_hash_branch(t2, b2));
            } else {
                assert((b1 != b2 || t1 != t2) && spec_hash_branch(b1, t1) == spec_hash_branch(b2, t2));
            }
        } else {
            if l1 == l2 {
                let j = choose|j: int| 0 <= j < s1.len() && #[trigger] s1[j]@ != s2[j]@;
                assert(s1.drop_last()[j]@ != s2.drop_last()[j]@);
            }
            lemma_fold_binding(l1, l2, s1.drop_last(), s2.drop_last(), p);
        }
    }
}

/// A collapsing climb from the zero digest and a plain climb from a non-zero
/// leaf through the same siblings meet only at a branch collision, where no
/// branch digest is zero.
pub proof fn lemma_collapse_vs_fold(x: Seq<u8>, sibs: Seq<Digest>, p: Seq<u8>)
    requires
        x != zero_seq(),
        forall|l: Seq<u8>, r: Seq<u8>| #[trigger] spec_hash_branch(l, r) != zero_seq(),
        collapse_fold(zero_seq(), sibs, p) == fold_path(x, sibs, p),
    ensures
        branch_collision(),
    decreases sibs.len(),
{
    let n = sibs.len();
    if n > 0 {
        let c = collapse_fold(zero_seq(), sibs.drop_last(), p);
        let f = fold_path(x, sibs.drop_last(), p);
        let t = sibs[n - 1]@;
        if c == zero_seq() && t == zero_seq() {
            if bit_of(p, 256 - n) {
                assert(spec_hash_branch(t, f) != zero_seq());
            } else {
                assert(spec_hash_branch(f, t) != zero_seq());
            }
        } else if c != f {
            if bit_of(p, 256 - n) {
                assert(c != f && spec_hash_branch(t, c) == spec_hash_branch(t, f));
                assert(t != t || c != f);
            } else {
                assert((c != f || t != t) && spec_hash_branch(c, t) == spec_hash_branch(f, t));
            }
        } else {
            lemma_collapse_vs_fold(x, sibs.drop_last(), p);
        }
    }
}

fn push_framed(buf: &mut Vec<u8>, s: &[u8])
    ensures
        final(buf)@ == old(buf)@ + framed(s@),
{
    let n: u64 = s.len() as u64;
    buf.push(n as u8);
    buf.push((n >> 8u64) as u8);
    buf.push((n >> 16u64) as u8);
    buf.push((n >> 24u64) as u8);
    buf.push((n >> 32u64) as u8);
    buf.push((n >> 40u64) as u8);
    buf.push((n >> 48u64) as u8);
    buf.push((n >> 56u64) as u8);
    let ghost start = buf@;
    assert(start =~= old(buf)@ + length_bytes(n));
    let mut i: usize = 0;
    while i < s.len()
        invariant
            i <= s@.len(),
            buf@ =~= start + s@.take(i as int),
        decreases s@.len() - i,
    {
        buf.push(s[i]);
        i = i + 1;
        assert(buf@ =~= start + s@.take(i as int));
    }
    assert(s@.take(s@.len() as int) =~= s@);
}

fn hash_one_field(tag: &str, a: &[u8]) -> (r: Digest)
    ensures
        r@ == sha256_of(message_one(tag.spec_bytes(), a@)),
{
    let mut buf: Vec<u8> = Vec::new();
    push_framed(&mut buf, tag.as_bytes());
    push_framed(&mut buf, a);
    assert(buf@ =~= message_one(tag.spec_bytes(), a@));
    sha256(buf.as_slice())
}

fn hash_two_fields(tag_a: &str, tag_b: &str, a: &[u8], b: &[u8]) -> (r: Digest)
    ensures
        r@ == sha256_of(message_two(tag_a.spec_bytes(), tag_b.spec_bytes(), a@, b@)),
{
    let mut buf: Vec<u8> = Vec::new();
    push_framed(&mut buf, tag_a.as_bytes());
    push_framed(&mut buf, a);
    push_framed(&mut buf, tag_b.as_bytes());
    push_framed(&mut buf, b);
    assert(buf@ =~= message_two(tag_a.spec_bytes(), tag_b.spec_bytes(), a@, b@));
    sha256(buf.as_slice())
}

/// Digest of a key, tagged "hash_key".
pub fn hash_key(k: &str) -> (r: Digest)
    ensures
        r@ == spec_hash_key(k@),
{
    hash_one_field("hash_key", k.as_bytes())
}

/// Digest of a key-value pair, tagged "hash_kv_K" and "hash_kv_V".
pub fn hash_kv(k: &str, v: &str) -> (r: Digest)
    ensures
        r@ == spec_hash_kv(k@, v@),
{
    hash_two_fields("hash_kv_K", "hash_kv_V", k.as_bytes(), v.as_bytes())
}

/// Digest of an inner node, tagged "hash_branch_L" and "hash_branch_R".
pub fn hash_branch(l: Digest, r: Digest) -> (d: Digest)
    ensures
        d@ == spec_hash_branch(l@, r@),
{
    hash_two_fields("hash_branch_L", "hash_branch_R", l.bytes.as_slice(), r.bytes.as_slice())
}

/// The root digest implied by the siblings `path` (leaf end first) for the
/// pair `k`, `v`.
pub fn root_from_path(path: &[Digest], k: &str, v: &str) -> (r: Digest)
    requires
        path@.len() <= DEPTH,
    ensures
        r@ == fold_path(spec_hash_kv(k@, v@), path@, spec_hash_key(k@)),
{
    let mut running = hash_kv(k, v);
    let h_k = hash_key(k);
    let mut i: usize = 0;
    while i < path.len()
        invariant
            i <= path@.len() <= DEPTH,
            h_k@ == spec_hash_key(k@),
            running@ == fold_path(spec_hash_kv(k@, v@), path@.take(i as int), h_k@),
        decreases path@.len() - i,
    {
        let sib = path[i];
        assert(path@.take(i + 1).drop_last() =~= path@.take(i as int));
        if h_k.bit(DEPTH - 1 - i) {
            running = hash_branch(sib, running);
        } else {
            running = hash_branch(running, sib);
        }
        i = i + 1;
    }
    assert(path@.take(path@.len() as int) =~= path@);
    running
}

} // verus!
