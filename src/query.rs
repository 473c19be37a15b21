use crate::distance::hamming;
use crate::engine::EngineError;
use crate::ident::{id_lt, lemma_id_lt_asym};
use crate::index::{answer_view, is_nearest_answer, is_within_answer, IndexError, VideoHashIndex};
use crate::videohash::{code_of, is_code_text, CodeError, VideoHash};
use vstd::arithmetic::power2::*;
use vstd::prelude::*;

verus! {

/// Radius of the lookup-or-insert query.
pub const MATCH_RADIUS: u32 = 10;

/// Rows per page when reading the whole warehouse table.
pub const FETCH_PAGE_ROWS: usize = 50000;

/// Most rows in one batched append.
pub const APPEND_BATCH_ROWS: usize = 500;

/// Attempts for a warehouse write.
pub const WRITE_ATTEMPTS: u32 = 3;

/// Attempts for the warehouse health probe.
pub const HEALTH_ATTEMPTS: u32 = 1;

/// First delay between attempts, in milliseconds; each later delay doubles.
pub const BASE_DELAY_MS: u64 = 500;

/// A lookup-or-insert request: the client's identifier and fingerprint
/// text.
#[derive(Debug)]
pub struct SearchRequest {
    pub video_id: String,
    pub hash: String,
}

/// The message of a refused request.
#[derive(Debug)]
pub struct ErrorResponse {
    pub error: String,
}

/// What a lookup-or-insert query found or did.
#[derive(Debug)]
pub struct SearchOutcome {
    /// A stored fingerprint lies within the match radius.
    pub match_found: bool,
    /// The best match and its distance, when one was found.
    pub best: Option<(String, u32)>,
    /// The query fingerprint was stored under its identifier.
    pub hash_added: bool,
    /// The warehouse append before the lookup succeeded.
    pub backed_up: bool,
}

/// Why a lookup-or-insert query failed.
#[derive(Debug, Clone, Copy, PartialEq, Eq)]
pub enum SearchError {
    /// The fingerprint text is not a valid code.
    BadRequest(CodeError),
    /// The store could not answer.
    Internal(IndexError),
}

/// Lookup-or-insert: when some stored fingerprint lies within the match
/// radius of `hash`, reports the nearest one (first in identifier order
/// among equals) and changes nothing; otherwise stores `hash` under
/// `video_id`. `backed_up` is the outcome of the warehouse append that
/// precedes the lookup, and is reported as given.
pub fn lookup_or_insert(
    index: &mut VideoHashIndex,
    video_id: String,
    hash: &VideoHash,
    backed_up: bool,
) -> (r: Result<SearchOutcome, SearchError>)
    requires
        old(index).wf(),
    ensures
        final(index).wf(),
        r matches Err(SearchError::BadRequest(_)) <==> !is_code_text(hash.hash@),
        r is Err && !(r matches Err(SearchError::BadRequest(_))) <==> is_code_text(hash.hash@)
            && old(index)@.len() > u32::MAX as nat,
        r matches Err(SearchError::Internal(e)) ==> e == IndexError::BuildFailed(
            EngineError::BuildError,
        ),
        r is Err ==> final(index)@ == old(index)@,
        r matches Ok(out) ==> {
            let m = old(index)@;
            let q = code_of(hash.hash@);
            &&& out.backed_up == backed_up
            &&& out.match_found == exists|id: Seq<char>|
                #[trigger] m.contains_key(id) && hamming(m[id], q) <= MATCH_RADIUS
            &&& out.match_found ==> {
                &&& out.best matches Some(b) && is_nearest_answer(m, q, b.0@, b.1 as nat)
                    && b.1 <= MATCH_RADIUS
                &&& !out.hash_added
                &&& final(index)@ == m
            }
            &&& !out.match_found ==> {
                &&& out.best is None
                &&& out.hash_added
                &&& final(index)@ == m.insert(video_id@, q)
            }
        },
{
    let neighbors = match index.find_within_distance(hash, MATCH_RADIUS) {
        Ok(v) => v,
        Err(IndexError::InvalidHash(e)) => return Err(SearchError::BadRequest(e)),
        Err(e) => return Err(SearchError::Internal(e)),
    };
    let ghost m = index@;
    let ghost q = code_of(hash.hash@);
    let ghost av = answer_view(neighbors@);
    if neighbors.len() > 0 {
        let best = (neighbors[0].0.clone(), neighbors[0].1);
        proof {
            assert(is_within_answer(m, q, MATCH_RADIUS as nat, av));
            assert(av[0] == (neighbors@[0].0@, neighbors@[0].1 as nat));
            assert(m.contains_key(av[0].0));
            assert forall|o: Seq<char>| #[trigger] m.contains_key(o) implies av[0].1 <= hamming(m[o], q)
                && (hamming(m[o], q) == av[0].1 ==> !id_lt(o, av[0].0)) by {
                lemma_id_lt_asym(o, av[0].0);
                if hamming(m[o], q) <= MATCH_RADIUS {
                    let k = choose|k: int| 0 <= k < av.len() && av[k].0 == o;
                    if k > 0 {
                        assert(av[0].1 < av[k].1 || (av[0].1 == av[k].1 && id_lt(av[0].0, av[k].0)));
                    }
                }
            }
        }
        Ok(SearchOutcome { match_found: true, best: Some(best), hash_added: false, backed_up })
    } else {
        proof {
            assert forall|id: Seq<char>| #[trigger] m.contains_key(id) implies hamming(m[id], q)
                > MATCH_RADIUS by {
                if hamming(m[id], q) <= MATCH_RADIUS {
                    let k = choose|k: int| 0 <= k < av.len() && av[k].0 == id;
                }
            }
        }
        match index.add(video_id, hash) {
            Ok(()) => Ok(
                SearchOutcome { match_found: false, best: None, hash_added: true, backed_up },
            ),
            Err(e) => Err(SearchError::Internal(e)),
        }
    }
}

/// Similarity of two codes at Hamming distance `distance`, as a percentage
/// times 64: the percentage `100 * (64 - distance) / 64` is this value
/// divided by 64.
pub fn similarity_times_64(distance: u32) -> (r: u32)
    requires
        distance <= 64,
    ensures
        r == 100 * (64 - distance),
{
    100 * (64 - distance)
}

/// Delay before the next attempt after `n` failed attempts, in
/// milliseconds: 500 ms doubled for each failure after the first.
pub open spec fn backoff_ms(n: nat) -> nat {
    (BASE_DELAY_MS * pow2((n - 1) as nat)) as nat
}

/// After `failed` failed attempts out of `max_attempts`, how long to wait
/// before the next one, or `None` when no attempt is left.
pub fn retry_delay_ms(failed: u32, max_attempts: u32) -> (r: Option<u64>)
    requires
        failed >= 1,
        failed < max_attempts ==> failed <= 55,
    ensures
        r is None <==> failed >= max_attempts,
        r matches Some(d) ==> d as nat == backoff_ms(failed as nat),
{
    if failed >= max_attempts {
        return None;
    }
    let mut delay: u64 = BASE_DELAY_MS;
    let mut k: u32 = 1;
    proof {
        lemma2_to64();
    }
    while k < failed
        invariant
            1 <= k <= failed,
            failed <= 55,
            delay as nat == backoff_ms(k as nat),
        decreases failed - k,
    {
        proof {
            lemma_pow2_unfold(k as nat);
            if k < 55 {
                lemma_pow2_strictly_increases((k - 1) as nat, 54);
            }
            lemma2_to64_rest();
        }
        delay = delay * 2;
        k += 1;
    }
    Some(delay)
}

/// After a warehouse page of `rows_returned` rows read at `offset`, the
/// offset of the next page, or `None` when this page was the last: it held
/// fewer rows than a full page.
pub fn next_page_offset(offset: usize, rows_returned: usize, page_size: usize) -> (r: Option<usize>)
    requires
        offset + rows_returned <= usize::MAX,
    ensures
        r is None <==> rows_returned < page_size || rows_returned == 0,
        r matches Some(o) ==> o == offset + rows_returned,
{
    if rows_returned < page_size || rows_returned == 0 {
        None
    } else {
        Some(offset + rows_returned)
    }
}

/// A warehouse row is kept when it has a string identifier and a string
/// fingerprint that is a valid code.
pub open spec fn row_is_usable(row: (Option<String>, Option<String>)) -> bool {
    &&& row.0 is Some
    &&& row.1 matches Some(h) && is_code_text(h@)
}

/// Identifiers and fingerprint texts of the usable rows, in order.
pub open spec fn usable_rows(rows: Seq<(Option<String>, Option<String>)>) -> Seq<(Seq<char>, Seq<char>)>
    decreases rows.len(),
{
    if rows.len() == 0 {
        Seq::empty()
    } else {
        let before = usable_rows(rows.drop_last());
        let row = rows.last();
        if row_is_usable(row) {
            before.push((row.0.unwrap()@, row.1.unwrap()@))
        } else {
            before
        }
    }
}

/// Keeps the usable rows of a warehouse page, in order; the others are
/// skipped.
pub fn collect_page(rows: Vec<(Option<String>, Option<String>)>) -> (r: Vec<(String, VideoHash)>)
    ensures
        r@.map_values(|p: (String, VideoHash)| (p.0@, p.1.hash@)) == usable_rows(rows@),
{
    let mut out: Vec<(String, VideoHash)> = Vec::new();
    let mut i: usize = 0;
    while i < rows.len()
        invariant
            i <= rows@.len(),
            out@.map_values(|p: (String, VideoHash)| (p.0@, p.1.hash@)) == usable_rows(
                rows@.take(i as int),
            ),
        decreases rows@.len() - i,
    {
        let ghost before = rows@.take(i as int);
        let ghost after = rows@.take(i + 1);
        assert(after.drop_last() =~= before);
        assert(after.last() == rows@[i as int]);
        let ghost old_out = out@;
        match (&rows[i].0, &rows[i].1) {
            (Some(id), Some(text)) => {
                match VideoHash::from_binary_string(text.as_str()) {
                    Ok(h) => {
                        out.push((id.clone(), h));
                        assert(out@.map_values(|p: (String, VideoHash)| (p.0@, p.1.hash@))
                            =~= old_out.map_values(|p: (String, VideoHash)| (p.0@, p.1.hash@)).push(
                            (id@, text@),
                        ));
                    },
                    Err(_) => {},
                }
            },
            _ => {},
        }
        i += 1;
    }
    assert(rows@.take(rows@.len() as int) =~= rows@);
    out
}

} // verus!
