//! Clusters, merge decisions, and how the digest of a combined cluster is
//! derived from the digests of its children.

use crate::digest::{hash_bytes, sha256, DIGEST_LEN};
use vstd::prelude::*;
use vstd::utf8::encode_utf8;

verus! {

/// A node of the merge tree: one input record, or the result of
/// combining earlier clusters.
#[derive(Clone, Copy, Debug)]
pub struct Cluster {
    /// Identifier, unique within a build. It is chosen by whoever creates
    /// the cluster and says nothing about the content.
    pub id: u64,
    /// For a leaf, the digest of the key's bytes; for a combined cluster,
    /// the digest of the children's digests laid end to end in order.
    pub hash: [u8; 32],
    /// Confidence of the decision that formed this cluster, as the bit
    /// pattern of an IEEE 754 binary32 number. `None` for a leaf.
    pub probability: Option<u32>,
}

/// One decision that two records belong together.
#[derive(Debug)]
pub struct Merge {
    pub left_key: String,
    pub right_key: String,
    /// Confidence of this decision, as the bit pattern of an IEEE 754
    /// binary32 number.
    pub probability: u32,
}

/// The value of a cluster, with the digest as a byte sequence.
pub struct ClusterView {
    pub id: u64,
    pub hash: Seq<u8>,
    pub probability: Option<u32>,
}

impl View for Cluster {
    type V = ClusterView;

    open spec fn view(&self) -> ClusterView {
        ClusterView { id: self.id, hash: self.hash@, probability: self.probability }
    }
}

/// The byte strings of `parts` laid end to end, in order.
pub open spec fn concat(parts: Seq<Seq<u8>>) -> Seq<u8>
    decreases parts.len(),
{
    if parts.len() == 0 {
        Seq::empty()
    } else {
        concat(parts.drop_last()) + parts.last()
    }
}

/// The digests of a sequence of clusters, in order.
pub open spec fn digests_of(clusters: Seq<ClusterView>) -> Seq<Seq<u8>> {
    Seq::new(clusters.len(), |i: int| clusters[i].hash)
}

/// The digest of a combination of `children`: the hash of their digests
/// laid end to end in the order given.
pub open spec fn combined_digest(children: Seq<ClusterView>) -> Seq<u8> {
    sha256(concat(digests_of(children)))
}

/// The cluster that combines `children` under a new id and confidence.
/// The children's own confidences play no part.
pub open spec fn combined(id: u64, children: Seq<ClusterView>, probability: u32) -> ClusterView {
    ClusterView { id, hash: combined_digest(children), probability: Some(probability) }
}

/// The leaf cluster of a key: the digest of the key's UTF-8 bytes, and no
/// confidence.
pub open spec fn leaf(id: u64, key: Seq<char>) -> ClusterView {
    ClusterView { id, hash: sha256(encode_utf8(key)), probability: None }
}

/// Two distinct byte strings with the same digest.
pub open spec fn collide(a: Seq<u8>, b: Seq<u8>) -> bool {
    a != b && sha256(a) == sha256(b)
}

/// The views of a sequence of clusters.
pub open spec fn views_of(clusters: Seq<Cluster>) -> Seq<ClusterView> {
    Seq::new(clusters.len(), |i: int| clusters[i]@)
}

impl Cluster {
    /// Creates the leaf cluster of a key.
    pub fn leaf(id: u64, key: &str) -> (c: Cluster)
        ensures
            c@ == leaf(id, key@),
    {
        Cluster { id, hash: hash_bytes(key.as_bytes()), probability: None }
    }

    /// Combines `clusters`, in the order given, into a new cluster with
    /// the given id and confidence. With no clusters the digest is that of
    /// the empty byte string.
    pub fn combine(id: u64, clusters: Vec<Cluster>, probability: u32) -> (c: Cluster)
        ensures
            c@ == combined(id, views_of(clusters@), probability),
    {
        let concat_hashes = concat_hashes(&clusters);
        Cluster { id, hash: hash_bytes(concat_hashes.as_slice()), probability: Some(probability) }
    }
}

/// Lays the digests of `clusters` end to end, in the order given.
pub fn concat_hashes(clusters: &Vec<Cluster>) -> (buffer: Vec<u8>)
    ensures
        buffer@ == concat(digests_of(views_of(clusters@))),
{
    let ghost parts = digests_of(views_of(clusters@));
    let mut buffer: Vec<u8> = Vec::new();
    let mut i: usize = 0;
    while i < clusters.len()
        invariant
            i <= clusters.len(),
            parts == digests_of(views_of(clusters@)),
            buffer@ == concat(parts.take(i as int)),
        decreases clusters.len() - i,
    {
        let ghost before = buffer@;
        let mut j: usize = 0;
        while j < DIGEST_LEN
            invariant
                i < clusters.len(),
                j <= DIGEST_LEN,
                buffer@ == before + clusters@[i as int].hash@.take(j as int),
            decreases DIGEST_LEN - j,
        {
            buffer.push(clusters[i].hash[j]);
            j += 1;
            assert(clusters@[i as int].hash@.take(j as int) == clusters@[i as int].hash@.take(
                j - 1,
            ).push(clusters@[i as int].hash@[j - 1]));
        }
        proof {
            assert(clusters@[i as int].hash@.take(DIGEST_LEN as int) == clusters@[i as int].hash@);
            assert(parts.take(i + 1).drop_last() == parts.take(i as int));
            assert(parts.take(i + 1).last() == clusters@[i as int].hash@);
        }
        i += 1;
    }
    assert(parts.take(clusters.len() as int) == parts);
    buffer
}

/// The order of two children matters: when their digests differ, the two
/// byte strings that are hashed differ, so the combined digests differ
/// unless SHA-256 collides on exactly these two strings.
pub proof fn lemma_combine_order_sensitive(a: Cluster, b: Cluster)
    requires
        a.hash@ != b.hash@,
    ensures
        concat(digests_of(views_of(seq![a, b]))) == a.hash@ + b.hash@,
        concat(digests_of(views_of(seq![b, a]))) == b.hash@ + a.hash@,
        a.hash@ + b.hash@ != b.hash@ + a.hash@,
        combined_digest(views_of(seq![a, b])) != combined_digest(views_of(seq![b, a])) || collide(
            a.hash@ + b.hash@,
            b.hash@ + a.hash@,
        ),
{
    lemma_concat_pair(a.hash@, b.hash@);
    lemma_concat_pair(b.hash@, a.hash@);
    assert(digests_of(views_of(seq![a, b])) == seq![a.hash@, b.hash@]);
    assert(digests_of(views_of(seq![b, a])) == seq![b.hash@, a.hash@]);
    assert((a.hash@ + b.hash@).subrange(0, 32) == a.hash@);
    assert((b.hash@ + a.hash@).subrange(0, 32) == b.hash@);
}

/// Two byte strings laid end to end.
pub proof fn lemma_concat_pair(x: Seq<u8>, y: Seq<u8>)
    ensures
        concat(seq![x, y]) == x + y,
{
    let both = seq![x, y];
    assert(both.drop_last() == seq![x]);
    assert(seq![x].drop_last() == Seq::<Seq<u8>>::empty());
    assert(concat(seq![x].drop_last()) == Seq::<u8>::empty());
    assert(concat(seq![x]) == Seq::<u8>::empty() + x);
    assert(Seq::<u8>::empty() + x == x);
}

} // verus!
