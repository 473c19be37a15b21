use crate::distance::{hamming, hamming_distance, lemma_hamming_at_most_64, lemma_hamming_zero};
use crate::engine::{is_first_nearest, is_range_answer, Engine, EngineError};
use crate::ident::{compare_ids, id_lt, lemma_id_lt_asym, lemma_id_lt_total, lemma_id_lt_trans};
use crate::videohash::{code_of, is_code_text, CodeError, VideoHash};
use std::cmp::Ordering;
use vstd::prelude::*;

verus! {

/// Number of blocks the engine splits each code into.
pub const ENGINE_BLOCKS: usize = 8;

/// Why a store operation failed.
#[derive(Debug, Clone, Copy, PartialEq, Eq)]
pub enum IndexError {
    /// The fingerprint text is not a valid code.
    InvalidHash(CodeError),
    /// The engine could not be built over the stored codes.
    BuildFailed(EngineError),
    /// An engine answer referred past the identifier vector it was built with.
    StaleIndex,
}

/// `(id, d)` is a nearest stored identifier to `q`, at distance `d`, and
/// the first in identifier order among those as near.
pub open spec fn is_nearest_answer(m: Map<Seq<char>, u64>, q: u64, id: Seq<char>, d: nat) -> bool {
    &&& m.contains_key(id)
    &&& d == hamming(m[id], q)
    &&& forall|o: Seq<char>| #[trigger] m.contains_key(o) ==> d <= hamming(m[o], q)
    &&& forall|o: Seq<char>| #[trigger] m.contains_key(o) && hamming(m[o], q) == d ==> !id_lt(o, id)
}

/// `out` lists exactly the stored identifiers within `radius` of `q`, each
/// with its distance, by ascending distance and then identifier order.
pub open spec fn is_within_answer(
    m: Map<Seq<char>, u64>,
    q: u64,
    radius: nat,
    out: Seq<(Seq<char>, nat)>,
) -> bool {
    &&& forall|k: int|
        0 <= k < out.len() ==> m.contains_key(#[trigger] out[k].0) && out[k].1 == hamming(
            m[out[k].0],
            q,
        ) && out[k].1 <= radius
    &&& forall|id: Seq<char>|
        #[trigger] m.contains_key(id) && hamming(m[id], q) <= radius ==> exists|k: int|
            0 <= k < out.len() && out[k].0 == id
    &&& forall|k1: int, k2: int|
        #![trigger out[k1], out[k2]]
        0 <= k1 < k2 < out.len() ==> out[k1].1 < out[k2].1 || (out[k1].1 == out[k2].1 && id_lt(
            out[k1].0,
            out[k2].0,
        ))
}

/// The identifiers and distances of a search answer.
pub open spec fn answer_view(v: Seq<(String, u32)>) -> Seq<(Seq<char>, nat)> {
    v.map_values(|p: (String, u32)| (p.0@, p.1 as nat))
}

/// Identifiers and codes of rows.
pub open spec fn rows_view(rows: Seq<(String, u64)>) -> Seq<(Seq<char>, u64)> {
    rows.map_values(|r: (String, u64)| (r.0@, r.1))
}

/// The store that rows listed newest first describe: each identifier keeps
/// the code of its first, that is newest, row.
pub open spec fn newest_first_map(rows: Seq<(Seq<char>, u64)>) -> Map<Seq<char>, u64>
    decreases rows.len(),
{
    if rows.len() == 0 {
        Map::empty()
    } else {
        let m = newest_first_map(rows.drop_last());
        if m.contains_key(rows.last().0) {
            m
        } else {
            m.insert(rows.last().0, rows.last().1)
        }
    }
}

/// Last write wins: the store that a sequence of appends, oldest first,
/// describes.
pub open spec fn last_write_wins(rows: Seq<(Seq<char>, u64)>) -> Map<Seq<char>, u64>
    decreases rows.len(),
{
    if rows.len() == 0 {
        Map::empty()
    } else {
        last_write_wins(rows.drop_last()).insert(rows.last().0, rows.last().1)
    }
}

/// Removing an identifier right after adding it leaves a store in which no
/// nearest-neighbour answer names it.
pub proof fn lemma_removed_id_not_nearest(
    m: Map<Seq<char>, u64>,
    id: Seq<char>,
    c: u64,
    found: Seq<char>,
    d: nat,
)
    requires
        is_nearest_answer(m.insert(id, c).remove(id), c, found, d),
    ensures
        found != id,
{
}

/// A second removal of the same identifier finds nothing to remove.
pub proof fn lemma_second_remove_absent(m: Map<Seq<char>, u64>, id: Seq<char>)
    ensures
        !m.remove(id).contains_key(id),
{
}

/// With radius zero, a search answer lists exactly the identifiers stored
/// with the query code itself.
pub proof fn lemma_radius_zero_exact(m: Map<Seq<char>, u64>, q: u64, out: Seq<(Seq<char>, nat)>)
    requires
        is_within_answer(m, q, 0, out),
    ensures
        forall|k: int| 0 <= k < out.len() ==> m[#[trigger] out[k].0] == q,
        forall|id: Seq<char>|
            #[trigger] m.contains_key(id) && m[id] == q ==> exists|k: int|
                0 <= k < out.len() && out[k].0 == id,
{
    assert forall|k: int| 0 <= k < out.len() implies m[#[trigger] out[k].0] == q by {
        lemma_hamming_zero(m[out[k].0], q);
    }
    assert forall|id: Seq<char>| #[trigger] m.contains_key(id) && m[id] == q implies exists|k: int|
        0 <= k < out.len() && out[k].0 == id by {
        lemma_hamming_zero(m[id], q);
    }
}

/// With radius 64, a search answer lists every stored identifier.
pub proof fn lemma_full_radius_lists_all(m: Map<Seq<char>, u64>, q: u64, out: Seq<(Seq<char>, nat)>)
    requires
        is_within_answer(m, q, 64, out),
    ensures
        forall|id: Seq<char>|
            #[trigger] m.contains_key(id) ==> exists|k: int| 0 <= k < out.len() && out[k].0 == id,
{
    assert forall|id: Seq<char>| #[trigger] m.contains_key(id) implies exists|k: int|
        0 <= k < out.len() && out[k].0 == id by {
        lemma_hamming_at_most_64(m[id], q);
    }
}

proof fn lemma_last_write_wins_front(rows: Seq<(Seq<char>, u64)>)
    requires
        rows.len() > 0,
    ensures
        last_write_wins(rows) == ({
            let t = last_write_wins(rows.drop_first());
            if t.contains_key(rows[0].0) {
                t
            } else {
                t.insert(rows[0].0, rows[0].1)
            }
        }),
    decreases rows.len(),
{
    if rows.len() == 1 {
        assert(rows.drop_first() =~= Seq::<(Seq<char>, u64)>::empty());
        assert(rows.drop_last() =~= Seq::<(Seq<char>, u64)>::empty());
    } else {
        let front = rows.drop_last();
        lemma_last_write_wins_front(front);
        assert(rows.drop_first().drop_last() =~= front.drop_first());
        assert(rows.drop_first().last() == rows.last());
        let inner = last_write_wins(front.drop_first());
        let last = rows.last();
        let first = rows[0];
        assert(front[0] == first);
        if inner.contains_key(first.0) {
        } else if last.0 == first.0 {
            assert(inner.insert(first.0, first.1).insert(last.0, last.1) =~= inner.insert(
                last.0,
                last.1,
            ));
        } else {
            assert(inner.insert(first.0, first.1).insert(last.0, last.1) =~= inner.insert(
                last.0,
                last.1,
            ).insert(first.0, first.1));
        }
    }
}

/// Bootstrap round trip: the warehouse hands back a sequence of appends
/// newest first, and the store rebuilt from it is the last-write-wins
/// reduction of the appends.
pub proof fn lemma_bootstrap_round_trip(appends: Seq<(Seq<char>, u64)>)
    ensures
        newest_first_map(appends.reverse()) == last_write_wins(appends),
    decreases appends.len(),
{
    if appends.len() > 0 {
        let rest = appends.drop_first();
        lemma_bootstrap_round_trip(rest);
        lemma_last_write_wins_front(appends);
        assert(appends.reverse().drop_last() =~= rest.reverse());
        assert(appends.reverse().last() == appends[0]);
    } else {
        assert(appends.reverse() =~= appends);
    }
}

/// The store of fingerprints by identifier, with a lazily built engine.
///
/// `entries` holds each identifier once, in identifier order. When the
/// engine is present, position `i` in it stands for `entries[i]`, and the
/// identifier vector beside it lists the same identifiers in the same order.
pub struct VideoHashIndex {
    entries: Vec<(String, u64)>,
    cache: Option<(Engine, Vec<String>)>,
    model: Ghost<Map<Seq<char>, u64>>,
}

impl View for VideoHashIndex {
    type V = Map<Seq<char>, u64>;

    closed spec fn view(&self) -> Map<Seq<char>, u64> {
        self.model@
    }
}

impl VideoHashIndex {
    /// The identifiers in the order the engine numbers them.
    pub closed spec fn order(&self) -> Seq<Seq<char>> {
        self.entries@.map_values(|e: (String, u64)| e.0@)
    }

    /// The codes in engine order.
    pub closed spec fn code_order(&self) -> Seq<u64> {
        self.entries@.map_values(|e: (String, u64)| e.1)
    }

    /// Whether an engine is currently built.
    pub closed spec fn is_built(&self) -> bool {
        self.cache is Some
    }

    pub closed spec fn wf(&self) -> bool {
        let e = self.entries@;
        let m = self.model@;
        &&& forall|i: int, j: int| 0 <= i < j < e.len() ==> id_lt(e[i].0@, e[j].0@)
        &&& forall|i: int| 0 <= i < e.len() ==> #[trigger] m.contains_key(e[i].0@) && m[e[i].0@] == e[i].1
        &&& forall|k: Seq<char>| #[trigger] m.contains_key(k) ==> exists|i: int| 0 <= i < e.len() && e[i].0@ == k
        &&& m.dom().finite()
        &&& m.dom().len() == e.len()
        &&& match self.cache {
            Some((engine, ids)) => {
                &&& engine.wf()
                &&& engine.codes().len() == e.len()
                &&& ids@.len() == e.len()
                &&& forall|i: int| 0 <= i < e.len() ==> #[trigger] engine.codes()[i] == e[i].1
                &&& forall|i: int| 0 <= i < e.len() ==> #[trigger] ids@[i]@ == e[i].0@
            },
            None => true,
        }
    }

    /// An empty store.
    pub fn new() -> (r: VideoHashIndex)
        ensures
            r.wf(),
            r@ == Map::<Seq<char>, u64>::empty(),
    {
        VideoHashIndex { entries: Vec::new(), cache: None, model: Ghost(Map::empty()) }
    }

    /// Number of stored identifiers.
    pub fn len(&self) -> (r: usize)
        requires
            self.wf(),
        ensures
            r as nat == self@.len(),
    {
        self.entries.len()
    }

    /// Whether the store is empty.
    pub fn is_empty(&self) -> (r: bool)
        requires
            self.wf(),
        ensures
            r == (self@.len() == 0),
    {
        self.entries.len() == 0
    }

    /// Whether the store should be filled from the warehouse: it is empty.
    pub fn needs_rebuild(&self) -> (r: bool)
        requires
            self.wf(),
        ensures
            r == (self@.len() == 0),
    {
        self.is_empty()
    }

    /// Stores `code` under `id`, replacing any code it had, and drops the
    /// built engine.
    pub fn insert_code(&mut self, id: String, code: u64)
        requires
            old(self).wf(),
        ensures
            final(self).wf(),
            final(self)@ == old(self)@.insert(id@, code),
            !final(self).is_built(),
    {
        let ghost key = id@;
        let ghost old_e = self.entries@;
        let ghost old_m = self.model@;
        let (found, pos) = self.locate(id.as_str());
        self.cache = None;
        if found {
            self.entries.set(pos, (id, code));
            self.model = Ghost(self.model@.insert(key, code));
            proof {
                let e = self.entries@;
                let m = self.model@;
                assert forall|i: int, j: int| 0 <= i < j < e.len() implies id_lt(e[i].0@, e[j].0@) by {
                    assert(id_lt(old_e[i].0@, old_e[j].0@));
                }
                assert forall|i: int| 0 <= i < e.len() implies #[trigger] m.contains_key(e[i].0@)
                    && m[e[i].0@] == e[i].1 by {
                    if i != pos {
                        assert(old_m.contains_key(old_e[i].0@));
                        if old_e[i].0@ == key {
                            assert(id_lt(old_e[i].0@, old_e[pos as int].0@) || id_lt(old_e[pos as int].0@, old_e[i].0@));
                            lemma_id_lt_asym(key, key);
                        }
                    }
                }
                assert forall|k: Seq<char>| #[trigger] m.contains_key(k) implies exists|i: int|
                    0 <= i < e.len() && e[i].0@ == k by {
                    if k != key {
                        assert(old_m.contains_key(k));
                        let i = choose|i: int| 0 <= i < old_e.len() && old_e[i].0@ == k;
                        assert(e[i].0@ == k);
                    } else {
                        assert(e[pos as int].0@ == k);
                    }
                }
                assert(m.dom() =~= old_m.dom());
            }
        } else {
            self.entries.insert(pos, (id, code));
            self.model = Ghost(self.model@.insert(key, code));
            proof {
                let e = self.entries@;
                let m = self.model@;
                let p = pos as int;
                assert forall|i: int| 0 <= i < e.len() implies #[trigger] e[i] == (if i < p {
                    old_e[i]
                } else if i == p {
                    e[p]
                } else {
                    old_e[i - 1]
                }) by {}
                assert forall|i: int, j: int| 0 <= i < j < e.len() implies id_lt(e[i].0@, e[j].0@) by {
                    if i < p && j < p {
                        assert(id_lt(old_e[i].0@, old_e[j].0@));
                    } else if i < p && j == p {
                    } else if i < p {
                        assert(id_lt(old_e[i].0@, old_e[j - 1].0@));
                    } else if i == p {
                        assert(id_lt(key, old_e[j - 1].0@));
                    } else {
                        assert(id_lt(old_e[i - 1].0@, old_e[j - 1].0@));
                    }
                }
                assert forall|i: int| 0 <= i < e.len() implies #[trigger] m.contains_key(e[i].0@)
                    && m[e[i].0@] == e[i].1 by {
                    if i < p {
                        assert(old_m.contains_key(old_e[i].0@));
                        lemma_id_lt_asym(key, key);
                        assert(id_lt(old_e[i].0@, key));
                    } else if i > p {
                        assert(old_m.contains_key(old_e[i - 1].0@));
                        lemma_id_lt_asym(key, key);
                        assert(id_lt(key, old_e[i - 1].0@));
                    }
                }
                assert forall|k: Seq<char>| #[trigger] m.contains_key(k) implies exists|i: int|
                    0 <= i < e.len() && e[i].0@ == k by {
                    if k != key {
                        assert(old_m.contains_key(k));
                        let i = choose|i: int| 0 <= i < old_e.len() && old_e[i].0@ == k;
                        if i < p {
                            assert(e[i].0@ == k);
                        } else {
                            assert(e[i + 1].0@ == k);
                        }
                    } else {
                        assert(e[p].0@ == k);
                    }
                }
                assert(!old_m.dom().contains(key));
                assert(m.dom() =~= old_m.dom().insert(key));
            }
        }
    }

    /// Stores the fingerprint `hash` under `video_id`, replacing any code it
    /// had, and drops the built engine. A text that is not a valid code is
    /// refused and nothing changes.
    pub fn add(&mut self, video_id: String, hash: &VideoHash) -> (r: Result<(), IndexError>)
        requires
            old(self).wf(),
        ensures
            final(self).wf(),
            r is Ok <==> is_code_text(hash.hash@),
            r is Ok ==> final(self)@ == old(self)@.insert(video_id@, code_of(hash.hash@)),
            r is Ok ==> !final(self).is_built(),
            r matches Err(e) ==> e is InvalidHash && *final(self) == *old(self),
    {
        match hash.code() {
            Ok(code) => {
                self.insert_code(video_id, code);
                Ok(())
            },
            Err(e) => Err(IndexError::InvalidHash(e)),
        }
    }

    /// Removes `video_id`; tells whether it was stored. A removal drops the
    /// built engine.
    pub fn remove(&mut self, video_id: &str) -> (r: Result<bool, IndexError>)
        requires
            old(self).wf(),
        ensures
            final(self).wf(),
            r == Ok::<bool, IndexError>(old(self)@.contains_key(video_id@)),
            final(self)@ == old(self)@.remove(video_id@),
            old(self)@.contains_key(video_id@) ==> !final(self).is_built(),
            !old(self)@.contains_key(video_id@) ==> *final(self) == *old(self),
    {
        let ghost key = video_id@;
        let ghost old_e = self.entries@;
        let ghost old_m = self.model@;
        let (found, pos) = self.locate(video_id);
        if !found {
            assert(self.model@.remove(key) =~= self.model@);
            return Ok(false);
        }
        self.cache = None;
        let _ = self.entries.remove(pos);
        self.model = Ghost(self.model@.remove(key));
        proof {
            let e = self.entries@;
            let m = self.model@;
            let p = pos as int;
            assert forall|i: int| 0 <= i < e.len() implies #[trigger] e[i] == (if i < p {
                old_e[i]
            } else {
                old_e[i + 1]
            }) by {}
            assert forall|i: int, j: int| 0 <= i < j < e.len() implies id_lt(e[i].0@, e[j].0@) by {
                if i < p && j < p {
                    assert(id_lt(old_e[i].0@, old_e[j].0@));
                } else if i < p {
                    assert(id_lt(old_e[i].0@, old_e[j + 1].0@));
                } else {
                    assert(id_lt(old_e[i + 1].0@, old_e[j + 1].0@));
                }
            }
            assert forall|i: int| 0 <= i < e.len() implies #[trigger] m.contains_key(e[i].0@)
                && m[e[i].0@] == e[i].1 by {
                lemma_id_lt_asym(key, key);
                if i < p {
                    assert(old_m.contains_key(old_e[i].0@));
                    assert(id_lt(old_e[i].0@, old_e[p].0@));
                } else {
                    assert(old_m.contains_key(old_e[i + 1].0@));
                    assert(id_lt(old_e[p].0@, old_e[i + 1].0@));
                }
            }
            assert forall|k: Seq<char>| #[trigger] m.contains_key(k) implies exists|i: int|
                0 <= i < e.len() && e[i].0@ == k by {
                assert(old_m.contains_key(k));
                let i = choose|i: int| 0 <= i < old_e.len() && old_e[i].0@ == k;
                if i < p {
                    assert(e[i].0@ == k);
                } else {
                    assert(i != p);
                    assert(e[i - 1].0@ == k);
                }
            }
            assert(m.dom() =~= old_m.dom().remove(key));
        }
        Ok(true)
    }

    /// Whether `video_id` is stored with exactly the code of `hash`.
    pub fn has_exact_match(&self, video_id: &str, hash: &VideoHash) -> (r: Result<bool, IndexError>)
        requires
            self.wf(),
        ensures
            r is Ok <==> is_code_text(hash.hash@),
            r matches Ok(b) ==> b == (self@.contains_key(video_id@) && self@[video_id@] == code_of(
                hash.hash@,
            )),
            r matches Err(e) ==> e is InvalidHash,
    {
        let code = match hash.code() {
            Ok(c) => c,
            Err(e) => return Err(IndexError::InvalidHash(e)),
        };
        let (found, pos) = self.locate(video_id);
        if found {
            Ok(self.entries[pos].1 == code)
        } else {
            Ok(false)
        }
    }

    /// Builds the engine over the stored codes, in identifier order, unless
    /// it is built already or the store is empty.
    fn ensure_index_built(&mut self) -> (r: Result<(), IndexError>)
        requires
            old(self).wf(),
        ensures
            final(self).wf(),
            final(self)@ == old(self)@,
            final(self).entries@ == old(self).entries@,
            r is Ok <==> old(self)@.len() <= u32::MAX as nat,
            r is Ok ==> final(self).is_built() || final(self)@.len() == 0,
            r matches Err(e) ==> e == IndexError::BuildFailed(EngineError::BuildError),
    {
        match &self.cache {
            Some(built) => {
                proof {
                    built.0.lemma_len_bound();
                }
                return Ok(());
            },
            None => {},
        }
        let n = self.entries.len();
        if n == 0 {
            return Ok(());
        }
        let mut codes: Vec<u64> = Vec::new();
        let mut ids: Vec<String> = Vec::new();
        let mut i: usize = 0;
        while i < n
            invariant
                self.wf(),
                self.cache is None,
                n == self.entries@.len(),
                i <= n,
                codes@.len() == i,
                ids@.len() == i,
                forall|k: int| 0 <= k < i ==> #[trigger] codes@[k] == self.entries@[k].1,
                forall|k: int| 0 <= k < i ==> #[trigger] ids@[k]@ == self.entries@[k].0@,
            decreases n - i,
        {
            codes.push(self.entries[i].1);
            ids.push(self.entries[i].0.clone());
            i += 1;
        }
        let ghost cv = codes@;
        match Engine::build(codes, ENGINE_BLOCKS) {
            Ok(engine) => {
                let ghost ec = engine.codes();
                self.cache = Some((engine, ids));
                proof {
                    assert forall|k: int| 0 <= k < n implies #[trigger] ec[k] == self.entries@[k].1 by {
                        assert(cv[k] == self.entries@[k].1);
                    }
                    let built = self.cache.unwrap();
                    assert(built.0.wf());
                    assert(built.0.codes().len() == n);
                    assert(built.1@.len() == n);
                    assert(forall|k: int| 0 <= k < n ==> #[trigger] built.0.codes()[k] == self.entries@[k].1);
                    assert(forall|k: int| 0 <= k < n ==> #[trigger] built.1@[k]@ == self.entries@[k].0@);
                    let e = self.entries@;
                    let m = self.model@;
                    assert(forall|i: int, j: int| 0 <= i < j < e.len() ==> id_lt(e[i].0@, e[j].0@));
                    assert(forall|i: int| 0 <= i < e.len() ==> #[trigger] m.contains_key(e[i].0@) && m[e[i].0@] == e[i].1);
                    assert(forall|k: Seq<char>| #[trigger] m.contains_key(k) ==> exists|i: int| 0 <= i < e.len() && e[i].0@ == k);
                    assert(m.dom().finite());
                    assert(m.dom().len() == e.len());
                    assert(self.wf());
                }
                Ok(())
            },
            Err(e) => {
                assert(self.wf());
                Err(IndexError::BuildFailed(e))
            },
        }
    }

    /// The nearest stored identifier to code `q` and its distance; among
    /// equally near identifiers, the first in identifier order. `None` when
    /// the store is empty.
    pub fn find_nearest(&mut self, q: u64) -> (r: Result<Option<(String, u32)>, IndexError>)
        requires
            old(self).wf(),
        ensures
            final(self).wf(),
            final(self)@ == old(self)@,
            r is Ok <==> old(self)@.len() <= u32::MAX as nat,
            r matches Ok(o) ==> (o is None <==> old(self)@.len() == 0),
            r matches Ok(Some(found)) ==> is_nearest_answer(old(self)@, q, found.0@, found.1 as nat),
            r matches Err(e) ==> e == IndexError::BuildFailed(EngineError::BuildError),
    {
        match self.ensure_index_built() {
            Ok(()) => {},
            Err(e) => return Err(e),
        }
        match &self.cache {
            None => Ok(None),
            Some((engine, ids)) => match engine.nearest(q) {
                None => Ok(None),
                Some(p) => {
                    if p >= ids.len() || p >= self.entries.len() {
                        return Err(IndexError::StaleIndex);
                    }
                    let id = ids[p].clone();
                    let d = hamming_distance(self.entries[p].1, q);
                    proof {
                        let e = self.entries@;
                        let m = self.model@;
                        let cs = engine.codes();
                        assert(is_first_nearest(cs, q, p as int));
                        assert(cs[p as int] == e[p as int].1);
                        assert(m.contains_key(e[p as int].0@));
                        assert forall|o: Seq<char>| #[trigger] m.contains_key(o) implies d <= hamming(
                            m[o],
                            q,
                        ) && (hamming(m[o], q) == d ==> !id_lt(o, id@)) by {
                            let i = choose|i: int| 0 <= i < e.len() && e[i].0@ == o;
                            assert(m.contains_key(e[i].0@));
                            assert(cs[i] == e[i].1);
                            lemma_id_lt_asym(o, id@);
                            if i < p {
                                assert(hamming(cs[p as int], q) < hamming(cs[i], q));
                            } else if i > p {
                                assert(id_lt(e[p as int].0@, e[i].0@));
                            }
                        }
                    }
                    Ok(Some((id, d)))
                },
            },
        }
    }

    /// The stored identifiers within `radius` of code `q`, each with its
    /// distance, by ascending distance and then identifier order.
    pub fn find_within(&mut self, q: u64, radius: u32) -> (r: Result<Vec<(String, u32)>, IndexError>)
        requires
            old(self).wf(),
        ensures
            final(self).wf(),
            final(self)@ == old(self)@,
            r is Ok <==> old(self)@.len() <= u32::MAX as nat,
            r matches Ok(v) ==> is_within_answer(old(self)@, q, radius as nat, answer_view(v@)),
            r matches Err(e) ==> e == IndexError::BuildFailed(EngineError::BuildError),
    {
        match self.ensure_index_built() {
            Ok(()) => {},
            Err(e) => return Err(e),
        }
        match &self.cache {
            None => {
                assert(self.model@.dom() =~= Set::<Seq<char>>::empty());
                let none: Vec<(String, u32)> = Vec::new();
                assert(answer_view(none@) =~= Seq::<(Seq<char>, nat)>::empty());
                assert(is_within_answer(self@, q, radius as nat, answer_view(none@)));
                Ok(none)
            },
            Some((engine, ids)) => {
                let positions = engine.range(q, radius);
                let ghost e = self.entries@;
                let ghost cs = engine.codes();
                let limit: u32 = if radius < 64 {
                    radius
                } else {
                    64
                };
                let mut out: Vec<(String, u32)> = Vec::new();
                let ghost mut chosen: Seq<int> = Seq::empty();
                let mut d: u32 = 0;
                while d <= limit
                    invariant
                        e == self.entries@,
                        ids@.len() == e.len(),
                        cs.len() == e.len(),
                        forall|i: int| 0 <= i < e.len() ==> #[trigger] cs[i] == e[i].1,
                        forall|i: int| 0 <= i < e.len() ==> #[trigger] ids@[i]@ == e[i].0@,
                        is_range_answer(cs, q, radius as nat, positions@),
                        limit <= 64,
                        limit <= radius,
                        radius >= 64 ==> limit == 64,
                        d <= limit + 1,
                        out@.len() == chosen.len(),
                        forall|k: int|
                            0 <= k < chosen.len() ==> 0 <= #[trigger] chosen[k] < e.len()
                                && out@[k].0@ == e[chosen[k]].0@ && out@[k].1 as nat == hamming(
                                e[chosen[k]].1,
                                q,
                            ) && hamming(e[chosen[k]].1, q) <= radius && hamming(e[chosen[k]].1, q) < d,
                        forall|k1: int, k2: int|
                            0 <= k1 < k2 < chosen.len() ==> hamming(e[chosen[k1]].1, q) < hamming(
                                e[chosen[k2]].1,
                                q,
                            ) || (hamming(e[chosen[k1]].1, q) == hamming(e[chosen[k2]].1, q)
                                && chosen[k1] < chosen[k2]),
                        forall|jj: int|
                            0 <= jj < positions@.len() && hamming(
                                e[#[trigger] positions@[jj] as int].1,
                                q,
                            ) < d ==> exists|k: int|
                                0 <= k < chosen.len() && chosen[k] == positions@[jj] as int,
                    decreases limit + 1 - d,
                {
                    let mut j: usize = 0;
                    while j < positions.len()
                        invariant
                            e == self.entries@,
                            ids@.len() == e.len(),
                            cs.len() == e.len(),
                            forall|i: int| 0 <= i < e.len() ==> #[trigger] cs[i] == e[i].1,
                            forall|i: int| 0 <= i < e.len() ==> #[trigger] ids@[i]@ == e[i].0@,
                            is_range_answer(cs, q, radius as nat, positions@),
                            limit <= 64,
                            limit <= radius,
                            d <= limit,
                            j <= positions@.len(),
                            out@.len() == chosen.len(),
                            forall|k: int|
                                0 <= k < chosen.len() ==> 0 <= #[trigger] chosen[k] < e.len()
                                    && out@[k].0@ == e[chosen[k]].0@ && out@[k].1 as nat == hamming(
                                    e[chosen[k]].1,
                                    q,
                                ) && hamming(e[chosen[k]].1, q) <= radius && (hamming(
                                    e[chosen[k]].1,
                                    q,
                                ) < d || (hamming(e[chosen[k]].1, q) == d && (j
                                    < positions@.len() ==> chosen[k] < positions@[j as int]))),
                            forall|k1: int, k2: int|
                                0 <= k1 < k2 < chosen.len() ==> hamming(e[chosen[k1]].1, q) < hamming(
                                    e[chosen[k2]].1,
                                    q,
                                ) || (hamming(e[chosen[k1]].1, q) == hamming(e[chosen[k2]].1, q)
                                    && chosen[k1] < chosen[k2]),
                            forall|jj: int|
                                0 <= jj < positions@.len() && (hamming(
                                    e[#[trigger] positions@[jj] as int].1,
                                    q,
                                ) < d || (hamming(e[positions@[jj] as int].1, q) == d && jj < j))
                                    ==> exists|k: int|
                                    0 <= k < chosen.len() && chosen[k] == positions@[jj] as int,
                        decreases positions@.len() - j,
                    {
                        let p = positions[j];
                        if p >= ids.len() || p >= self.entries.len() {
                            return Err(IndexError::StaleIndex);
                        }
                        let dist = hamming_distance(self.entries[p].1, q);
                        let ghost before = chosen;
                        if dist == d {
                            out.push((ids[p].clone(), dist));
                            proof {
                                chosen = chosen.push(p as int);
                            }
                        }
                        proof {
                            assert(cs[p as int] == e[p as int].1);
                            assert forall|k: int|
                                0 <= k < chosen.len() implies (hamming(e[#[trigger] chosen[k]].1, q)
                                < d || (hamming(e[chosen[k]].1, q) == d && (j + 1 < positions@.len()
                                ==> chosen[k] < positions@[j + 1]))) by {
                                if j + 1 < positions@.len() {
                                    assert(positions@[j as int] < positions@[j + 1]);
                                }
                                if k < before.len() {
                                    assert(chosen[k] == before[k]);
                                }
                            }
                            assert forall|jj: int|
                                0 <= jj < positions@.len() && (hamming(
                                    e[#[trigger] positions@[jj] as int].1,
                                    q,
                                ) < d || (hamming(e[positions@[jj] as int].1, q) == d && jj < j + 1))
                                    implies exists|k: int|
                                    0 <= k < chosen.len() && chosen[k] == positions@[jj] as int by {
                                if jj == j && dist == d {
                                    assert(chosen[chosen.len() - 1] == positions@[jj] as int);
                                } else {
                                    let k = choose|k: int|
                                        0 <= k < before.len() && before[k] == positions@[jj] as int;
                                    assert(chosen[k] == before[k]);
                                }
                            }
                        }
                        j += 1;
                    }
                    d += 1;
                }
                proof {
                    let m = self.model@;
                    let av = answer_view(out@);
                    assert forall|k: int| 0 <= k < av.len() implies m.contains_key(#[trigger] av[k].0)
                        && av[k].1 == hamming(m[av[k].0], q) && av[k].1 <= radius by {
                        assert(m.contains_key(e[chosen[k]].0@));
                    }
                    assert forall|id: Seq<char>|
                        #[trigger] m.contains_key(id) && hamming(m[id], q) <= radius implies exists|
                        k: int,
                    | 0 <= k < av.len() && av[k].0 == id by {
                        let i = choose|i: int| 0 <= i < e.len() && e[i].0@ == id;
                        assert(m.contains_key(e[i].0@));
                        assert(cs[i] == e[i].1);
                        lemma_hamming_at_most_64(e[i].1, q);
                        let jj = choose|jj: int| 0 <= jj < positions@.len() && positions@[jj] as int == i;
                        assert(hamming(e[positions@[jj] as int].1, q) < d);
                        let k = choose|k: int| 0 <= k < chosen.len() && chosen[k] == positions@[jj] as int;
                        assert(av[k].0 == id);
                    }
                    assert forall|k1: int, k2: int|
                        #![trigger av[k1], av[k2]]
                        0 <= k1 < k2 < av.len() implies (av[k1].1 < av[k2].1
                        || (av[k1].1 == av[k2].1 && id_lt(av[k1].0, av[k2].0))) by {
                        let c1 = chosen[k1];
                        let c2 = chosen[k2];
                        assert(av[k1].1 == hamming(e[c1].1, q) && av[k1].0 == e[c1].0@);
                        assert(av[k2].1 == hamming(e[c2].1, q) && av[k2].0 == e[c2].0@);
                        assert(hamming(e[c1].1, q) < hamming(e[c2].1, q) || (hamming(e[c1].1, q)
                            == hamming(e[c2].1, q) && c1 < c2));
                        if c1 < c2 {
                            assert(id_lt(e[c1].0@, e[c2].0@));
                        }
                    }
                    assert(is_within_answer(m, q, radius as nat, av));
                }
                Ok(out)
            },
        }
    }

    /// `find_nearest` for the code of the fingerprint text `hash`.
    pub fn find_nearest_neighbor(&mut self, hash: &VideoHash) -> (r: Result<
        Option<(String, u32)>,
        IndexError,
    >)
        requires
            old(self).wf(),
        ensures
            final(self).wf(),
            final(self)@ == old(self)@,
            r is Ok <==> is_code_text(hash.hash@) && old(self)@.len() <= u32::MAX as nat,
            r matches Ok(o) ==> (o is None <==> old(self)@.len() == 0),
            r matches Ok(Some(found)) ==> is_nearest_answer(
                old(self)@,
                code_of(hash.hash@),
                found.0@,
                found.1 as nat,
            ),
            r matches Err(e) ==> (e is InvalidHash <==> !is_code_text(hash.hash@)),
            r matches Err(e) ==> e is InvalidHash || e == IndexError::BuildFailed(
                EngineError::BuildError,
            ),
    {
        match hash.code() {
            Ok(q) => self.find_nearest(q),
            Err(e) => Err(IndexError::InvalidHash(e)),
        }
    }

    /// `find_within` for the code of the fingerprint text `hash`.
    pub fn find_within_distance(&mut self, hash: &VideoHash, max_distance: u32) -> (r: Result<
        Vec<(String, u32)>,
        IndexError,
    >)
        requires
            old(self).wf(),
        ensures
            final(self).wf(),
            final(self)@ == old(self)@,
            r is Ok <==> is_code_text(hash.hash@) && old(self)@.len() <= u32::MAX as nat,
            r matches Ok(v) ==> is_within_answer(
                old(self)@,
                code_of(hash.hash@),
                max_distance as nat,
                answer_view(v@),
            ),
            r matches Err(e) ==> (e is InvalidHash <==> !is_code_text(hash.hash@)),
            r matches Err(e) ==> e is InvalidHash || e == IndexError::BuildFailed(
                EngineError::BuildError,
            ),
    {
        match hash.code() {
            Ok(q) => self.find_within(q, max_distance),
            Err(e) => Err(IndexError::InvalidHash(e)),
        }
    }

    /// Replaces the store with `rows`, listed newest first: each identifier
    /// keeps the code of its newest row. Drops the built engine.
    pub fn bootstrap(&mut self, rows: &Vec<(String, u64)>)
        requires
            old(self).wf(),
        ensures
            final(self).wf(),
            final(self)@ == newest_first_map(rows_view(rows@)),
            !final(self).is_built(),
    {
        self.entries = Vec::new();
        self.cache = None;
        self.model = Ghost(Map::empty());
        let mut i: usize = 0;
        while i < rows.len()
            invariant
                self.wf(),
                !self.is_built(),
                i <= rows@.len(),
                self@ == newest_first_map(rows_view(rows@).take(i as int)),
            decreases rows@.len() - i,
        {
            let ghost before = rows_view(rows@).take(i as int);
            let ghost after = rows_view(rows@).take(i + 1);
            assert(after.drop_last() =~= before);
            assert(after.last() == (rows@[i as int].0@, rows@[i as int].1));
            let (found, _) = self.locate(rows[i].0.as_str());
            if !found {
                self.insert_code(rows[i].0.clone(), rows[i].1);
            }
            i += 1;
        }
        assert(rows_view(rows@).take(rows@.len() as int) =~= rows_view(rows@));
    }

    /// Replaces the store with warehouse rows listed newest first, when every
    /// row holds a valid fingerprint text; returns the number of stored
    /// identifiers. A row with an invalid text is refused and nothing changes.
    pub fn rebuild_from_rows(&mut self, rows: &Vec<(String, VideoHash)>) -> (r: Result<usize, IndexError>)
        requires
            old(self).wf(),
        ensures
            final(self).wf(),
            r is Ok <==> forall|i: int| 0 <= i < rows@.len() ==> is_code_text(#[trigger] rows@[i].1.hash@),
            r matches Ok(n) ==> final(self)@ == newest_first_map(
                rows@.map_values(|r: (String, VideoHash)| (r.0@, code_of(r.1.hash@))),
            ) && n as nat == final(self)@.len(),
            r matches Err(e) ==> e is InvalidHash && *final(self) == *old(self),
    {
        let mut coded: Vec<(String, u64)> = Vec::new();
        let mut i: usize = 0;
        while i < rows.len()
            invariant
                self.wf(),
                *self == *old(self),
                i <= rows@.len(),
                coded@.len() == i,
                forall|k: int| 0 <= k < i ==> is_code_text(#[trigger] rows@[k].1.hash@),
                forall|k: int|
                    0 <= k < i ==> #[trigger] coded@[k].0@ == rows@[k].0@ && coded@[k].1 == code_of(
                        rows@[k].1.hash@,
                    ),
            decreases rows@.len() - i,
        {
            match rows[i].1.code() {
                Ok(code) => coded.push((rows[i].0.clone(), code)),
                Err(e) => return Err(IndexError::InvalidHash(e)),
            }
            i += 1;
        }
        assert(rows_view(coded@) =~= rows@.map_values(
            |r: (String, VideoHash)| (r.0@, code_of(r.1.hash@)),
        ));
        self.bootstrap(&coded);
        Ok(self.len())
    }

    proof fn lemma_same_position(a: &VideoHashIndex, b: &VideoHashIndex, i: int)
        requires
            a.wf(),
            b.wf(),
            a@ == b@,
            0 <= i < a.entries@.len(),
            forall|k: int| 0 <= k < i ==> #[trigger] a.entries@[k].0@ == b.entries@[k].0@,
        ensures
            a.entries@[i].0@ == b.entries@[i].0@,
    {
        let s = a.entries@;
        let t = b.entries@;
        let m = a@;
        if s[i].0@ != t[i].0@ {
            lemma_id_lt_total(s[i].0@, t[i].0@);
            assert(m.contains_key(s[i].0@));
            assert(m.contains_key(t[i].0@));
            let j = choose|j: int| 0 <= j < t.len() && t[j].0@ == s[i].0@;
            let h = choose|h: int| 0 <= h < s.len() && s[h].0@ == t[i].0@;
            lemma_id_lt_asym(s[i].0@, t[i].0@);
            lemma_id_lt_asym(s[i].0@, s[i].0@);
            if j < i {
                assert(t[j].0@ == s[j].0@);
                assert(id_lt(s[j].0@, s[i].0@));
            } else if j > i {
                assert(id_lt(t[i].0@, t[j].0@));
            }
            if h < i {
                assert(s[h].0@ == t[h].0@);
                assert(id_lt(t[h].0@, t[i].0@));
                lemma_id_lt_asym(t[i].0@, t[i].0@);
            } else if h > i {
                assert(id_lt(s[i].0@, s[h].0@));
            }
        }
    }

    proof fn lemma_same_prefix(a: &VideoHashIndex, b: &VideoHashIndex, n: int)
        requires
            a.wf(),
            b.wf(),
            a@ == b@,
            0 <= n <= a.entries@.len(),
        ensures
            forall|k: int| 0 <= k < n ==> #[trigger] a.entries@[k].0@ == b.entries@[k].0@,
        decreases n,
    {
        if n > 0 {
            Self::lemma_same_prefix(a, b, n - 1);
            Self::lemma_same_position(a, b, n - 1);
        }
    }

    /// Rebuild determinism: two stores with the same contents number their
    /// identifiers and codes in the same order, so engines built over them
    /// are built from the same input and give the same answers.
    pub proof fn lemma_rebuild_deterministic(a: &VideoHashIndex, b: &VideoHashIndex)
        requires
            a.wf(),
            b.wf(),
            a@ == b@,
        ensures
            a.order() == b.order(),
            a.code_order() == b.code_order(),
    {
        let s = a.entries@;
        let t = b.entries@;
        Self::lemma_same_prefix(a, b, s.len() as int);
        assert forall|k: int| 0 <= k < s.len() implies s[k].1 == t[k].1 by {
            assert(a@.contains_key(s[k].0@));
            assert(b@.contains_key(t[k].0@));
        }
        assert(a.order() =~= b.order());
        assert(a.code_order() =~= b.code_order());
    }


    /// Finds where `id` stands, or where it would be inserted.
    fn locate(&self, id: &str) -> (r: (bool, usize))
        requires
            self.wf(),
        ensures
            r.1 <= self.entries@.len(),
            r.0 ==> r.1 < self.entries@.len() && self.entries@[r.1 as int].0@ == id@,
            r.0 == self@.contains_key(id@),
            !r.0 ==> forall|k: int| 0 <= k < r.1 ==> id_lt(#[trigger] self.entries@[k].0@, id@),
            !r.0 ==> forall|k: int|
                r.1 <= k < self.entries@.len() ==> id_lt(id@, #[trigger] self.entries@[k].0@),
    {
        let mut lo: usize = 0;
        let mut hi: usize = self.entries.len();
        while lo < hi
            invariant
                self.wf(),
                lo <= hi <= self.entries@.len(),
                forall|k: int| 0 <= k < lo ==> id_lt(#[trigger] self.entries@[k].0@, id@),
                forall|k: int| hi <= k < self.entries@.len() ==> id_lt(id@, #[trigger] self.entries@[k].0@),
            decreases hi - lo,
        {
            let mid = lo + (hi - lo) / 2;
            match compare_ids(self.entries[mid].0.as_str(), id) {
                Ordering::Less => {
                    proof {
                        assert forall|k: int| 0 <= k < mid + 1 implies id_lt(
                            #[trigger] self.entries@[k].0@,
                            id@,
                        ) by {
                            if k < mid {
                                lemma_id_lt_trans(self.entries@[k].0@, self.entries@[mid as int].0@, id@);
                            }
                        }
                    }
                    lo = mid + 1;
                },
                Ordering::Greater => {
                    proof {
                        assert forall|k: int| mid <= k < self.entries@.len() implies id_lt(
                            id@,
                            #[trigger] self.entries@[k].0@,
                        ) by {
                            if k > mid {
                                lemma_id_lt_trans(id@, self.entries@[mid as int].0@, self.entries@[k].0@);
                            }
                        }
                    }
                    hi = mid;
                },
                Ordering::Equal => {
                    proof {
                        assert(self@.contains_key(self.entries@[mid as int].0@));
                    }
                    return (true, mid);
                },
            }
        }
        proof {
            if self@.contains_key(id@) {
                let i = choose|i: int| 0 <= i < self.entries@.len() && self.entries@[i].0@ == id@;
                lemma_id_lt_asym(id@, id@);
                if i < lo {
                    assert(id_lt(self.entries@[i].0@, id@));
                } else {
                    assert(id_lt(id@, self.entries@[i].0@));
                }
            }
        }
        (false, lo)
    }
}

} // verus!
