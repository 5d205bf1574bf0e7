use crate::bytes::put_bytes;
use crate::error::Error;
use crate::hash;
use crate::hash::double_hash;
use crate::serializable;
use vstd::prelude::*;

verus! {

/// A level walked in consecutive pairs, each pair written as one buffer:
/// first element, then second. An unpaired last element is paired with
/// itself.
pub open spec fn paired(level: Seq<Seq<u8>>) -> Seq<Seq<u8>> {
    Seq::new(
        ((level.len() + 1) / 2) as nat,
        |i: int| level[2 * i] + level[if 2 * i + 1 < level.len() { 2 * i + 1 } else { 2 * i }],
    )
}

/// The double hash of every buffer of `items`, in order.
pub open spec fn digests_of(items: Seq<Seq<u8>>) -> Seq<Seq<u8>> {
    Seq::new(items.len(), |i: int| hash::double_sha256(items[i]))
}

/// The level above `level`: the double hash of each of its pairs.
pub open spec fn level_above(level: Seq<Seq<u8>>) -> Seq<Seq<u8>> {
    digests_of(paired(level))
}

/// The hash left when `level` is reduced to the level above it, and that
/// one again, until a level of one hash is reached. A level is reduced at
/// least once: that of a single hash `h` gives the double hash of `h`
/// followed by `h`.
pub open spec fn top_of(level: Seq<Seq<u8>>) -> Seq<u8>
    decreases level.len(),
{
    let above = level_above(level);
    if above.len() <= 1 {
        above[0]
    } else {
        top_of(above)
    }
}

/// Whether the digest primitive can take every buffer of `items`.
pub open spec fn all_hashable(items: Seq<Seq<u8>>) -> bool {
    forall|i: int| 0 <= i < items.len() ==> (#[trigger] items[i]).len() < hash::DIGEST_INPUT_LIMIT
}

/// The merkle root of `leaves`: for no leaves the double hash of the empty
/// buffer; otherwise the top of the level made of the leaves' double
/// hashes. `DigestFailure` where a leaf is too long for the digest
/// primitive.
pub open spec fn merkle_root(leaves: Seq<Seq<u8>>) -> Result<Seq<u8>, Error> {
    if leaves.len() == 0 {
        Ok(hash::double_sha256(Seq::empty()))
    } else if all_hashable(leaves) {
        Ok(top_of(digests_of(leaves)))
    } else {
        Err(Error::DigestFailure)
    }
}

/// Whether every buffer of `level` has the length of a digest.
pub open spec fn all_digests(level: Seq<Seq<u8>>) -> bool {
    forall|i: int| 0 <= i < level.len() ==> (#[trigger] level[i]).len() == hash::DIGEST_LEN
}

/// Writes the consecutive pairs of `values` as one buffer each, the
/// unpaired last one doubled.
pub fn concat_pairs(values: &[Vec<u8>]) -> (pairs: Vec<Vec<u8>>)
    ensures
        serializable::views(pairs@) == paired(serializable::views(values@)),
{
    let ghost level = serializable::views(values@);
    let count: usize = values.len() / 2 + values.len() % 2;
    let mut pairs: Vec<Vec<u8>> = Vec::new();
    let mut k: usize = 0;
    while k < count
        invariant
            level == serializable::views(values@),
            count == (values@.len() + 1) / 2,
            values@.len() <= usize::MAX,
            k <= count,
            pairs@.len() == k,
            forall|j: int| 0 <= j < k ==> (#[trigger] pairs@[j])@ == paired(level)[j],
        decreases count - k,
    {
        assert(2 * k + 1 <= values@.len()) by {
            assert(2 * count <= values@.len() + 1);
        }
        let first: usize = 2 * k;
        let mut pair: Vec<u8> = Vec::new();
        put_bytes(&mut pair, values[first].as_slice());
        if first + 1 < values.len() {
            put_bytes(&mut pair, values[first + 1].as_slice());
        } else {
            put_bytes(&mut pair, values[first].as_slice());
        }
        assert(Seq::<u8>::empty() + level[first as int] =~= level[first as int]);
        assert(pair@ =~= paired(level)[k as int]);
        pairs.push(pair);
        k += 1;
    }
    assert(serializable::views(pairs@) =~= paired(level));
    pairs
}

/// Double-hashes every buffer of `items`.
pub fn hash_each(items: &[Vec<u8>]) -> (r: Result<Vec<Vec<u8>>, Error>)
    ensures
        match r {
            Ok(digests) => all_hashable(serializable::views(items@)) && serializable::views(
                digests@,
            ) == digests_of(serializable::views(items@)) && all_digests(
                serializable::views(digests@),
            ),
            Err(e) => !all_hashable(serializable::views(items@)) && e == Error::DigestFailure,
        },
{
    let ghost all = serializable::views(items@);
    let mut digests: Vec<Vec<u8>> = Vec::new();
    let mut i: usize = 0;
    while i < items.len()
        invariant
            all == serializable::views(items@),
            i <= items@.len(),
            digests@.len() == i,
            forall|k: int| 0 <= k < i ==> (#[trigger] all[k]).len() < hash::DIGEST_INPUT_LIMIT,
            forall|k: int|
                0 <= k < i ==> (#[trigger] digests@[k])@ == hash::double_sha256(all[k])
                    && digests@[k]@.len() == hash::DIGEST_LEN,
        decreases items@.len() - i,
    {
        match double_hash(items[i].as_slice()) {
            Ok(digest) => {
                digests.push(digest);
            },
            Err(e) => {
                assert(all[i as int].len() >= hash::DIGEST_INPUT_LIMIT);
                return Err(e);
            },
        }
        i += 1;
    }
    assert(serializable::views(digests@) =~= digests_of(all));
    Ok(digests)
}

/// Reduces a level of digests to the single hash at its top.
pub fn concat_and_hash(values: &[Vec<u8>]) -> (r: Result<Vec<u8>, Error>)
    requires
        values@.len() > 0,
        all_digests(serializable::views(values@)),
    ensures
        r is Ok,
        r.unwrap()@ == top_of(serializable::views(values@)),
        r.unwrap()@.len() == hash::DIGEST_LEN,
{
    let pairs = concat_pairs(values);
    let mut level = hash_each(pairs.as_slice())?;
    assert(serializable::views(level@).len() == level@.len());
    while level.len() > 1
        invariant
            level@.len() >= 1,
            all_digests(serializable::views(level@)),
            top_of(serializable::views(values@)) == if level@.len() == 1 {
                level@[0]@
            } else {
                top_of(serializable::views(level@))
            },
        decreases level@.len(),
    {
        let pairs = concat_pairs(level.as_slice());
        let above = hash_each(pairs.as_slice())?;
        assert(serializable::views(above@).len() == above@.len());
        assert(serializable::views(above@)[0] == above@[0]@);
        level = above;
    }
    let mut top: Vec<u8> = Vec::new();
    put_bytes(&mut top, level[0].as_slice());
    assert(top@ =~= level@[0]@);
    assert(serializable::views(level@)[0].len() == hash::DIGEST_LEN);
    Ok(top)
}

/// Computes the merkle root of `data`, the serialized leaves in order.
pub fn calculate_merkle(data: &[Vec<u8>]) -> (r: Result<Vec<u8>, Error>)
    ensures
        match r {
            Ok(root) => merkle_root(serializable::views(data@)) == Ok::<Seq<u8>, Error>(root@)
                && root@.len() == hash::DIGEST_LEN,
            Err(e) => merkle_root(serializable::views(data@)) == Err::<Seq<u8>, Error>(e),
        },
{
    if data.len() == 0 {
        let empty: Vec<u8> = Vec::new();
        assert(empty@ =~= Seq::<u8>::empty());
        return double_hash(empty.as_slice());
    }
    let hashes = hash_each(data)?;
    concat_and_hash(hashes.as_slice())
}

/// With no leaves the root is the double hash of the empty buffer.
pub proof fn lemma_merkle_root_of_none()
    ensures
        merkle_root(Seq::<Seq<u8>>::empty()) == hash::double_hash_of(Seq::<u8>::empty()),
        merkle_root(Seq::<Seq<u8>>::empty()) == Ok::<Seq<u8>, Error>(
            hash::double_sha256(Seq::<u8>::empty()),
        ),
{
}

/// A single leaf is paired with itself: the root of `[a]` is the double
/// hash of the leaf's double hash written twice.
pub proof fn lemma_merkle_root_of_one(a: Seq<u8>)
    requires
        a.len() < hash::DIGEST_INPUT_LIMIT,
    ensures
        merkle_root(seq![a]) == Ok::<Seq<u8>, Error>(
            hash::double_sha256(hash::double_sha256(a) + hash::double_sha256(a)),
        ),
{
    let level = digests_of(seq![a]);
    assert(level_above(level).len() == 1);
}

/// The root of two leaves `[a, b]` is the double hash of their double
/// hashes, first then second.
pub proof fn lemma_merkle_root_of_two(a: Seq<u8>, b: Seq<u8>)
    requires
        a.len() < hash::DIGEST_INPUT_LIMIT,
        b.len() < hash::DIGEST_INPUT_LIMIT,
    ensures
        merkle_root(seq![a, b]) == Ok::<Seq<u8>, Error>(
            hash::double_sha256(hash::double_sha256(a) + hash::double_sha256(b)),
        ),
{
    let level = digests_of(seq![a, b]);
    assert(level_above(level).len() == 1);
}

/// With an odd count the last hash of a level is paired with itself: the
/// root of `[a, b, c]` is the double hash of the pair `(a, b)` followed by
/// the pair `(c, c)`, each pair the double hash of its leaves' double
/// hashes.
pub proof fn lemma_merkle_root_of_three(a: Seq<u8>, b: Seq<u8>, c: Seq<u8>)
    requires
        a.len() < hash::DIGEST_INPUT_LIMIT,
        b.len() < hash::DIGEST_INPUT_LIMIT,
        c.len() < hash::DIGEST_INPUT_LIMIT,
    ensures
        merkle_root(seq![a, b, c]) == Ok::<Seq<u8>, Error>(
            hash::double_sha256(
                hash::double_sha256(hash::double_sha256(a) + hash::double_sha256(b))
                    + hash::double_sha256(hash::double_sha256(c) + hash::double_sha256(c)),
            ),
        ),
{
    let level = digests_of(seq![a, b, c]);
    let above = level_above(level);
    assert(above.len() == 2);
    assert(level_above(above).len() == 1);
    assert(above[0] == hash::double_sha256(hash::double_sha256(a) + hash::double_sha256(b)));
    assert(above[1] == hash::double_sha256(hash::double_sha256(c) + hash::double_sha256(c)));
    assert(top_of(above) == level_above(above)[0]);
    assert(top_of(level) == top_of(above));
}

/// The order of the leaves counts: where the double hashes of `a` and `b`
/// differ, the roots of `[a, b]` and `[b, a]` differ, unless the digest
/// collides on the two pairs. The two double hashes are digests, so of one
/// length.
pub proof fn lemma_merkle_root_order(a: Seq<u8>, b: Seq<u8>)
    requires
        a.len() < hash::DIGEST_INPUT_LIMIT,
        b.len() < hash::DIGEST_INPUT_LIMIT,
        hash::double_sha256(a) != hash::double_sha256(b),
        hash::double_sha256(a).len() == hash::double_sha256(b).len(),
        hash::double_sha256(hash::double_sha256(a) + hash::double_sha256(b))
            == hash::double_sha256(hash::double_sha256(b) + hash::double_sha256(a))
            ==> hash::double_sha256(a) + hash::double_sha256(b) == hash::double_sha256(b)
            + hash::double_sha256(a),
    ensures
        merkle_root(seq![a, b]) != merkle_root(seq![b, a]),
{
    lemma_merkle_root_of_two(a, b);
    lemma_merkle_root_of_two(b, a);
    let x = hash::double_sha256(a);
    let y = hash::double_sha256(b);
    if x + y == y + x {
        assert((x + y).subrange(0, x.len() as int) =~= x);
        assert((y + x).subrange(0, y.len() as int) =~= y);
    }
}

} // verus!
