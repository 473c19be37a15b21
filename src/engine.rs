use crate::distance::{hamming, hamming_distance, lemma_hamming_at_most_64};
use mih_rs::Index;
use vstd::prelude::*;

verus! {

/// A `mih_rs::Index` over 64-bit codes. Verus cannot declare the outside
/// type itself (its parameter is bound by an outside trait), so it is held
/// here and described through `index_codes` and `index_blocks`.
#[verifier::external_body]
pub struct MultiIndex {
    inner: Index<u64>,
}

#[verifier::external_type_specification]
#[verifier::external_body]
pub struct ExAnyhowError(anyhow::Error);

/// The codes that a multi-index was built over, in input order.
pub uninterp spec fn index_codes(ix: MultiIndex) -> Seq<u64>;

/// The number of blocks that a multi-index splits each code into.
pub uninterp spec fn index_blocks(ix: MultiIndex) -> nat;

/// Relies on `mih_rs::Index::with_blocks`: it refuses an empty input, more
/// than `u32::MAX` codes, and a block count outside `2..=64`; otherwise it
/// keeps the codes in input order and splits them into `num_blocks` blocks.
#[verifier::external_body]
fn index_with_blocks(codes: Vec<u64>, num_blocks: usize) -> (r: Result<MultiIndex, anyhow::Error>)
    ensures
        r is Ok <==> (codes@.len() > 0 && codes@.len() <= u32::MAX as nat && 2 <= num_blocks
            <= 64),
        r matches Ok(ix) ==> index_codes(ix) == codes@ && index_blocks(ix) == num_blocks as nat,
{
    match Index::with_blocks(codes, num_blocks) {
        Ok(inner) => Ok(MultiIndex { inner }),
        Err(e) => Err(e),
    }
}

/// Relies on `mih_rs::Index::codes`: the codes the index was built over.
#[verifier::external_body]
fn indexed_codes(ix: &MultiIndex) -> (r: &[u64])
    ensures
        r@ == index_codes(*ix),
{
    ix.inner.codes()
}

/// Relies on `mih_rs::RangeSearcher::run`: the positions of all codes within
/// Hamming distance `radius` of `q`, sorted and without repeats. A radius
/// below 64 keeps the per-block search radius below the block width, which
/// the searcher's signature generator asserts.
#[verifier::external_body]
fn range_search(ix: &MultiIndex, q: u64, radius: usize) -> (r: Vec<u32>)
    requires
        radius < 64,
    ensures
        forall|k: int|
            0 <= k < r@.len() ==> (#[trigger] r@[k] as int) < index_codes(*ix).len() && hamming(
                index_codes(*ix)[r@[k] as int],
                q,
            ) <= radius,
        forall|i: int|
            0 <= i < index_codes(*ix).len() && hamming(#[trigger] index_codes(*ix)[i], q)
                <= radius ==> exists|k: int| 0 <= k < r@.len() && r@[k] as int == i,
        forall|k1: int, k2: int| 0 <= k1 < k2 < r@.len() ==> r@[k1] < r@[k2],
{
    ix.inner.range_searcher().run(q, radius).to_vec()
}

/// Relies on `mih_rs::TopkSearcher::run` with `k = 1`: the position of one
/// code nearest to `q`. The searcher widens its per-block radius until it
/// has found a code; with a block count that divides 64 and some code closer
/// than 64 bits, that radius stays below the block width, which its
/// signature generator asserts.
#[verifier::external_body]
fn nearest_search(ix: &MultiIndex, q: u64) -> (r: Vec<u32>)
    requires
        index_blocks(*ix) >= 2,
        64nat % index_blocks(*ix) == 0,
        exists|i: int| 0 <= i < index_codes(*ix).len() && hamming(#[trigger] index_codes(*ix)[i], q) < 64,
    ensures
        r@.len() == 1,
        (r@[0] as int) < index_codes(*ix).len(),
        forall|i: int|
            0 <= i < index_codes(*ix).len() ==> hamming(index_codes(*ix)[r@[0] as int], q)
                <= hamming(#[trigger] index_codes(*ix)[i], q),
{
    ix.inner.topk_searcher().run(q, 1).to_vec()
}

/// Why an engine could not be built.
#[derive(Debug, Clone, Copy, PartialEq, Eq)]
pub enum EngineError {
    /// The block count does not divide the code width.
    BadPartition,
    /// The multi-index refused the input (a single block, or more codes than
    /// it can number).
    BuildError,
}

/// The positions in `r` are exactly those of the codes in `codes` within
/// `radius` of `q`, in ascending order.
pub open spec fn is_range_answer(codes: Seq<u64>, q: u64, radius: nat, r: Seq<usize>) -> bool {
    &&& forall|k: int|
        0 <= k < r.len() ==> (#[trigger] r[k] as int) < codes.len() && hamming(
            codes[r[k] as int],
            q,
        ) <= radius
    &&& forall|i: int|
        0 <= i < codes.len() && hamming(#[trigger] codes[i], q) <= radius ==> exists|k: int|
            0 <= k < r.len() && r[k] as int == i
    &&& forall|k1: int, k2: int| 0 <= k1 < k2 < r.len() ==> r[k1] < r[k2]
}

/// `p` is the first position among those whose code is nearest to `q`.
pub open spec fn is_first_nearest(codes: Seq<u64>, q: u64, p: int) -> bool {
    &&& 0 <= p < codes.len()
    &&& forall|i: int| 0 <= i < codes.len() ==> hamming(codes[p], q) <= hamming(#[trigger] codes[i], q)
    &&& forall|i: int| 0 <= i < p ==> hamming(codes[p], q) < hamming(#[trigger] codes[i], q)
}

/// A multi-index Hamming search engine over a sequence of codes. Positions
/// in its answers refer to that sequence.
pub struct Engine {
    index: Option<MultiIndex>,
}

impl Engine {
    /// The codes the engine was built over, in order.
    pub closed spec fn codes(&self) -> Seq<u64> {
        match self.index {
            Some(ix) => index_codes(ix),
            None => Seq::empty(),
        }
    }

    pub closed spec fn wf(&self) -> bool {
        match self.index {
            Some(ix) => {
                &&& index_codes(ix).len() > 0
                &&& index_codes(ix).len() <= u32::MAX as nat
                &&& index_blocks(ix) >= 2
                &&& 64nat % index_blocks(ix) == 0
            },
            None => true,
        }
    }

    /// A well-formed engine numbers its positions with `u32`.
    pub proof fn lemma_len_bound(&self)
        requires
            self.wf(),
        ensures
            self.codes().len() <= u32::MAX as nat,
    {
    }

    /// Builds an engine over `codes`, splitting each code into `blocks`
    /// blocks. An empty input gives an engine whose every answer is empty.
    pub fn build(codes: Vec<u64>, blocks: usize) -> (r: Result<Engine, EngineError>)
        ensures
            r matches Err(EngineError::BadPartition) <==> !(blocks > 0 && 64usize % blocks == 0),
            r matches Err(EngineError::BuildError) <==> (blocks > 0 && 64usize % blocks == 0
                && codes@.len() > 0 && (blocks < 2 || codes@.len() > u32::MAX as nat)),
            r matches Ok(e) ==> e.wf() && e.codes() == codes@,
    {
        if blocks == 0 || 64 % blocks != 0 {
            return Err(EngineError::BadPartition);
        }
        if codes.len() == 0 {
            return Ok(Engine { index: None });
        }
        if blocks > 64 {
            assert(64usize % blocks == 64) by (nonlinear_arith)
                requires
                    blocks > 64,
            ;
        }
        match index_with_blocks(codes, blocks) {
            Ok(ix) => Ok(Engine { index: Some(ix) }),
            Err(_) => Err(EngineError::BuildError),
        }
    }

    /// Number of codes in the engine.
    pub fn len(&self) -> (r: usize)
        ensures
            r as int == self.codes().len(),
    {
        match &self.index {
            Some(ix) => indexed_codes(ix).len(),
            None => 0,
        }
    }

    /// Every position whose code is within `radius` of `q`, ascending.
    /// A radius of 64 or more takes in every position.
    pub fn range(&self, q: u64, radius: u32) -> (r: Vec<usize>)
        requires
            self.wf(),
        ensures
            is_range_answer(self.codes(), q, radius as nat, r@),
    {
        match &self.index {
            None => Vec::new(),
            Some(ix) => {
                if radius >= 64 {
                    let n = indexed_codes(ix).len();
                    let mut all: Vec<usize> = Vec::new();
                    let mut i: usize = 0;
                    while i < n
                        invariant
                            n == index_codes(*ix).len(),
                            i <= n,
                            radius >= 64,
                            all@.len() == i,
                            forall|k: int| 0 <= k < i ==> #[trigger] all@[k] == k,
                        decreases n - i,
                    {
                        all.push(i);
                        i += 1;
                    }
                    proof {
                        let codes = index_codes(*ix);
                        assert forall|k: int| 0 <= k < all@.len() implies (#[trigger] all@[k] as int)
                            < codes.len() && hamming(codes[all@[k] as int], q) <= radius by {
                            lemma_hamming_at_most_64(codes[all@[k] as int], q);
                        }
                        assert forall|i: int|
                            0 <= i < codes.len() && hamming(#[trigger] codes[i], q)
                                <= radius implies exists|k: int|
                            0 <= k < all@.len() && all@[k] as int == i by {
                            assert(all@[i] as int == i);
                        }
                    }
                    all
                } else {
                    let found = range_search(ix, q, radius as usize);
                    let mut out: Vec<usize> = Vec::new();
                    let mut k: usize = 0;
                    while k < found.len()
                        invariant
                            k <= found@.len(),
                            out@.len() == k,
                            forall|j: int| 0 <= j < k ==> #[trigger] out@[j] as int == found@[j] as int,
                        decreases found@.len() - k,
                    {
                        out.push(found[k] as usize);
                        k += 1;
                    }
                    proof {
                        let codes = index_codes(*ix);
                        assert forall|i: int|
                            0 <= i < codes.len() && hamming(#[trigger] codes[i], q)
                                <= radius implies exists|j: int|
                            0 <= j < out@.len() && out@[j] as int == i by {
                            let j = choose|j: int| 0 <= j < found@.len() && found@[j] as int == i;
                            assert(out@[j] as int == found@[j] as int);
                        }
                        assert forall|k1: int, k2: int| 0 <= k1 < k2 < out@.len() implies out@[k1]
                            < out@[k2] by {
                            assert(out@[k1] as int == found@[k1] as int);
                            assert(out@[k2] as int == found@[k2] as int);
                        }
                        assert forall|j: int| 0 <= j < out@.len() implies (#[trigger] out@[j] as int)
                            < codes.len() && hamming(codes[out@[j] as int], q) <= radius by {
                            assert(out@[j] as int == found@[j] as int);
                        }
                    }
                    out
                }
            },
        }
    }

    /// The first position, in engine order, among those whose code is
    /// nearest to `q`; `None` when the engine is empty.
    pub fn nearest(&self, q: u64) -> (r: Option<usize>)
        requires
            self.wf(),
        ensures
            r is None <==> self.codes().len() == 0,
            r matches Some(p) ==> is_first_nearest(self.codes(), q, p as int),
    {
        match &self.index {
            None => None,
            Some(ix) => {
                let codes = indexed_codes(ix);
                let ghost cs = index_codes(*ix);
                let ghost mut w: int = 0;
                proof {
                    lemma_hamming_at_most_64(cs[0], q);
                }
                if hamming_distance(codes[0], q) == 64 {
                    // The top-k searcher needs some code closer than 64 bits.
                    let closer = range_search(ix, q, 63);
                    if closer.len() == 0 {
                        proof {
                            assert forall|i: int| 0 <= i < cs.len() implies hamming(cs[0], q)
                                <= hamming(#[trigger] cs[i], q) by {
                                lemma_hamming_at_most_64(cs[i], q);
                                if hamming(cs[i], q) <= 63 {
                                    let k = choose|k: int| 0 <= k < closer@.len() && closer@[k] as int == i;
                                }
                            }
                        }
                        return Some(0);
                    }
                    proof {
                        w = closer@[0] as int;
                    }
                }
                assert(0 <= w < cs.len() && hamming(cs[w], q) < 64);
                let best = nearest_search(ix, q);
                let p = best[0] as usize;
                let d = hamming_distance(codes[p], q);
                assert(d < 64) by {
                    assert(hamming(cs[p as int], q) <= hamming(cs[w], q));
                }
                let ties = range_search(ix, q, d as usize);
                proof {
                    assert(hamming(cs[p as int], q) <= d);
                    let k = choose|k: int| 0 <= k < ties@.len() && ties@[k] as int == p as int;
                    assert(ties@.len() > 0);
                    if k > 0 {
                        assert(ties@[0] < ties@[k]);
                    }
                }
                let first = ties[0] as usize;
                proof {
                    assert forall|i: int| 0 <= i < first implies hamming(cs[first as int], q) < hamming(
                        #[trigger] cs[i],
                        q,
                    ) by {
                        if hamming(cs[i], q) <= d {
                            let k = choose|k: int| 0 <= k < ties@.len() && ties@[k] as int == i;
                            if k > 0 {
                                assert(ties@[0] < ties@[k]);
                            }
                        }
                    }
                }
                Some(first)
            },
        }
    }
}

} // verus!
