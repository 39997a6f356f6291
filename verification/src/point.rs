//! Points of the Ristretto group, held in their canonical encoding.
use curve25519_dalek::ristretto::{CompressedRistretto, RistrettoPoint};
use curve25519_dalek::scalar::Scalar;
use vstd::prelude::*;

verus! {

/// Whether `CompressedRistretto::decompress` finds a point in `bytes`, that is, whether `bytes`
/// is the canonical encoding of a point.
pub uninterp spec fn ristretto_decodes(bytes: Seq<u8>) -> bool;

/// The encoding of twice the point that `bytes` encodes, as
/// `RistrettoPoint::double_and_compress_batch` computes it for each point of its batch.
pub uninterp spec fn ristretto_double(bytes: Seq<u8>) -> Seq<u8>;

/// The encoding of the product of a scalar, given as 32 little-endian bytes and reduced modulo
/// the order of the group, and the point that `bytes` encodes.
pub uninterp spec fn ristretto_mul(scalar: Seq<u8>, bytes: Seq<u8>) -> Seq<u8>;

/// The encoding of the sum of the points that `encodings` encode.
pub uninterp spec fn ristretto_sum(encodings: Seq<Seq<u8>>) -> Seq<u8>;

/// Calls `CompressedRistretto::decompress`.
///
/// Claimed: whether it succeeds is a property of the bytes alone, named [`ristretto_decodes`].
#[verifier::external_body]
fn decompresses(bytes: &[u8; 32]) -> (result: bool)
    ensures
        result == ristretto_decodes(bytes@),
{
    CompressedRistretto(*bytes).decompress().is_some()
}

/// Calls `RistrettoPoint::double_and_compress_batch`.
///
/// Claimed: each item of the outcome is the encoding of the double of the point in the same
/// place, named [`ristretto_double`]. Doubling loses nothing, because the group has a prime order
/// other than two and its encoding is canonical: no other point has the same double.
#[verifier::external_body]
fn double_and_compress_batch(points: &Vec<[u8; 32]>) -> (doubles: Vec<[u8; 32]>)
    requires
        forall|i: int| 0 <= i < points@.len() ==> ristretto_decodes(#[trigger] points@[i]@),
    ensures
        doubles@.len() == points@.len(),
        forall|i: int|
            0 <= i < points@.len() ==> (#[trigger] doubles@[i])@ == ristretto_double(points@[i]@),
        forall|i: int, other: Seq<u8>|
            0 <= i < points@.len() && ristretto_decodes(other) && #[trigger] ristretto_double(other)
                == (#[trigger] doubles@[i])@ ==> other == points@[i]@,
{
    let decoded: Vec<RistrettoPoint> = points
        .iter()
        .map(|bytes| CompressedRistretto(*bytes).decompress().expect("a canonical encoding"))
        .collect();
    RistrettoPoint::double_and_compress_batch(&decoded).iter().map(|key| key.to_bytes()).collect()
}

/// Calls `Scalar::from_bytes_mod_order` and the product of a `Scalar` and a `RistrettoPoint`.
///
/// Claimed: the encoding of the product is a function of the two encodings, named
/// [`ristretto_mul`], and is the canonical encoding of a point.
#[verifier::external_body]
fn scalar_times_point(scalar: &[u8; 32], point: &[u8; 32]) -> (product: [u8; 32])
    requires
        ristretto_decodes(point@),
    ensures
        product@ == ristretto_mul(scalar@, point@),
        ristretto_decodes(product@),
{
    let decoded = CompressedRistretto(*point).decompress().expect("a canonical encoding");
    (Scalar::from_bytes_mod_order(*scalar) * decoded).compress().to_bytes()
}

/// Calls the `Sum` of `RistrettoPoint`s.
///
/// Claimed: the encoding of the sum is a function of the encodings, named [`ristretto_sum`], and
/// is the canonical encoding of a point. The sum of no points is the identity, which is encoded
/// as zeros, the sum of one point is that point, and the sum of more is that of two: the sum of all
/// but the last, and the last. The group being commutative, the order of the points does not
/// matter.
#[verifier::external_body]
fn sum_of_points(points: &Vec<[u8; 32]>) -> (sum: [u8; 32])
    requires
        forall|i: int| 0 <= i < points@.len() ==> ristretto_decodes(#[trigger] points@[i]@),
    ensures
        sum@ == ristretto_sum(array_views(points@)),
        ristretto_decodes(sum@),
        points@.len() == 0 ==> sum@ == Seq::new(32, |i: int| 0u8),
        points@.len() == 1 ==> sum@ == points@[0]@,
        points@.len() > 0 ==> sum@ == ristretto_sum(
            seq![ristretto_sum(array_views(points@).drop_last()), points@.last()@],
        ),
        forall|other: Seq<Seq<u8>>|
            other.to_multiset() == array_views(points@).to_multiset()
                ==> #[trigger] ristretto_sum(other) == sum@,
{
    let sum: RistrettoPoint = points
        .iter()
        .map(|bytes| CompressedRistretto(*bytes).decompress().expect("a canonical encoding"))
        .sum();
    sum.compress().to_bytes()
}

/// The byte strings that arrays hold.
pub open spec fn array_views(arrays: Seq<[u8; 32]>) -> Seq<Seq<u8>> {
    arrays.map_values(|array: [u8; 32]| array@)
}

/// A point of the Ristretto group, in its canonical encoding of 32 bytes.
#[derive(Clone, Copy)]
pub struct EncodedPoint {
    bytes: [u8; 32],
}

impl View for EncodedPoint {
    type V = Seq<u8>;

    closed spec fn view(&self) -> Seq<u8> {
        self.bytes@
    }
}

impl EncodedPoint {
    /// Every encoded point decodes.
    #[verifier::type_invariant]
    spec fn is_canonical(self) -> bool {
        ristretto_decodes(self.bytes@)
    }

    /// The point that `bytes` encodes, if `bytes` is the canonical encoding of one.
    pub fn from_bytes(bytes: [u8; 32]) -> (result: Option<EncodedPoint>)
        ensures
            result is Some <==> ristretto_decodes(bytes@),
            result matches Some(point) ==> point@ == bytes@,
    {
        if decompresses(&bytes) {
            Some(EncodedPoint { bytes })
        } else {
            None
        }
    }

    /// The canonical encoding of the point.
    pub fn to_bytes(&self) -> (bytes: [u8; 32])
        ensures
            bytes@ == self@,
            ristretto_decodes(self@),
    {
        proof {
            use_type_invariant(self);
        }
        self.bytes
    }

    /// The product of `scalar`, in little-endian bytes, and this point.
    pub fn times(&self, scalar: &[u8; 32]) -> (product: EncodedPoint)
        ensures
            product@ == ristretto_mul(scalar@, self@),
    {
        proof {
            use_type_invariant(self);
        }
        EncodedPoint { bytes: scalar_times_point(scalar, &self.bytes) }
    }

    /// The sum of `points`.
    pub fn sum(points: &Vec<EncodedPoint>) -> (sum: EncodedPoint)
        ensures
            is_sum(points@, sum),
            sum@ == ristretto_sum(points@.map_values(|point: EncodedPoint| point@)),
            points@.len() == 0 ==> sum@ == Seq::new(32, |i: int| 0u8),
            points@.len() > 0 ==> sum@ == ristretto_sum(
                seq![
                    ristretto_sum(
                        points@.drop_last().map_values(|point: EncodedPoint| point@),
                    ),
                    points@.last()@,
                ],
            ),
    {
        let encodings = encodings_of(points);
        let sum = sum_of_points(&encodings);
        proof {
            assert(array_views(encodings@) =~= views(points@));
            if points@.len() > 0 {
                assert(array_views(encodings@).drop_last() =~= points@.drop_last().map_values(
                    |point: EncodedPoint| point@,
                ));
            }
        }
        EncodedPoint { bytes: sum }
    }

    /// The key that decides the point's place among others: the encoding of its double.
    pub open spec fn sort_key(self) -> Seq<u8> {
        ristretto_double(self@)
    }

    /// The point is the only one that has its sort key.
    pub open spec fn is_known_by_sort_key(self) -> bool {
        &&& ristretto_decodes(self@)
        &&& forall|other: Seq<u8>|
            ristretto_decodes(other) && #[trigger] ristretto_double(other) == self.sort_key()
                ==> other == self@
    }
}

/// The encodings of `points`.
pub open spec fn views(points: Seq<EncodedPoint>) -> Seq<Seq<u8>> {
    points.map_values(|point: EncodedPoint| point@)
}

/// `sum` is the sum of `points`, in whatever order they are added up.
pub open spec fn is_sum(points: Seq<EncodedPoint>, sum: EncodedPoint) -> bool {
    &&& sum@ == ristretto_sum(views(points))
    &&& points.len() == 0 ==> sum@ == Seq::new(32, |i: int| 0u8)
    &&& points.len() == 1 ==> sum@ == points[0]@
    &&& forall|other: Seq<Seq<u8>>|
        other.to_multiset() == views(points).to_multiset() ==> #[trigger] ristretto_sum(other)
            == sum@
}

/// Points with the same encoding are the same.
pub proof fn lemma_encoding_identifies_point(a: EncodedPoint, b: EncodedPoint)
    requires
        a@ == b@,
    ensures
        a == b,
{
    assert(a.bytes =~= b.bytes);
}

/// The encodings of `points`, all of which decode.
fn encodings_of(points: &Vec<EncodedPoint>) -> (encodings: Vec<[u8; 32]>)
    ensures
        encodings@.len() == points@.len(),
        forall|i: int|
            0 <= i < points@.len() ==> (#[trigger] encodings@[i])@ == points@[i]@
                && ristretto_decodes(encodings@[i]@),
{
    let mut encodings: Vec<[u8; 32]> = Vec::new();
    let mut i: usize = 0;
    while i < points.len()
        invariant
            i <= points@.len(),
            encodings@.len() == i,
            forall|k: int|
                0 <= k < i ==> (#[trigger] encodings@[k])@ == points@[k]@ && ristretto_decodes(
                    encodings@[k]@,
                ),
        decreases points@.len() - i,
    {
        encodings.push(points[i].to_bytes());
        i += 1;
    }
    encodings
}

/// The sort keys of `points`.
pub fn sort_keys(points: &Vec<EncodedPoint>) -> (keys: Vec<[u8; 32]>)
    ensures
        keys@.len() == points@.len(),
        forall|i: int|
            0 <= i < points@.len() ==> (#[trigger] keys@[i])@ == points@[i].sort_key(),
        forall|i: int|
            0 <= i < points@.len() ==> (#[trigger] points@[i]).is_known_by_sort_key(),
{
    let encodings = encodings_of(points);
    let keys = double_and_compress_batch(&encodings);
    assert forall|i: int| 0 <= i < points@.len() implies (#[trigger]
    points@[i]).is_known_by_sort_key() by {
        assert(encodings@[i]@ == points@[i]@);
        assert(keys@[i]@ == points@[i].sort_key());
    }
    keys
}

} // verus!
