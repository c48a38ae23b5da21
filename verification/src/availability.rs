//! The availability cache: what is known of each asset id (its market slug
//! and outcome label), kept between discovery runs so that only unknown
//! assets are looked up again.
use vstd::prelude::*;
use crate::listing::{is_text_order, sort_texts, texts};
use crate::market_order::AssetRecord;
use crate::text::{chars_of, same_chars};

verus! {

broadcast use vstd::seq_lib::group_seq_properties;

/// Slug and outcome label of an asset.
pub type AvailabilityFacts = (Seq<char>, Seq<char>);

/// Asset ids mapped to what is known of them, by a list of entries with
/// distinct ids.
pub struct AvailabilityCache {
    entries: Vec<(String, String, String)>,
}

/// The text of cache entries.
pub open spec fn entry_views(e: Seq<(String, String, String)>) -> Seq<(Seq<char>, Seq<char>, Seq<char>)> {
    e.map_values(|x: (String, String, String)| (x.0@, x.1@, x.2@))
}

/// The map that a list of entries with distinct ids describes.
pub open spec fn entries_map(e: Seq<(Seq<char>, Seq<char>, Seq<char>)>) -> Map<Seq<char>, AvailabilityFacts>
    decreases e.len(),
{
    if e.len() == 0 {
        Map::empty()
    } else {
        entries_map(e.drop_last()).insert(e.last().0, (e.last().1, e.last().2))
    }
}

/// No id occurs twice.
pub open spec fn distinct_ids(e: Seq<(Seq<char>, Seq<char>, Seq<char>)>) -> bool {
    forall|i: int, j: int| 0 <= i < j < e.len() ==> (#[trigger] e[i]).0 != (#[trigger] e[j]).0
}

proof fn lemma_entries_map(e: Seq<(Seq<char>, Seq<char>, Seq<char>)>)
    requires
        distinct_ids(e),
    ensures
        forall|i: int| 0 <= i < e.len() ==> #[trigger] entries_map(e).contains_key(e[i].0)
            && entries_map(e)[e[i].0] == (e[i].1, e[i].2),
        forall|k: Seq<char>| #[trigger] entries_map(e).contains_key(k) ==> exists|i: int|
            0 <= i < e.len() && e[i].0 == k,
        entries_map(e).dom().finite(),
        entries_map(e).len() == e.len(),
    decreases e.len(),
{
    if e.len() > 0 {
        let p = e.drop_last();
        assert(distinct_ids(p)) by {
            assert forall|i: int, j: int| 0 <= i < j < p.len() implies (#[trigger] p[i]).0 != (
            #[trigger] p[j]).0 by {
                assert(p[i] == e[i] && p[j] == e[j]);
            }
        }
        lemma_entries_map(p);
        let last = e.last();
        assert(!entries_map(p).contains_key(last.0)) by {
            if entries_map(p).contains_key(last.0) {
                let i = choose|i: int| 0 <= i < p.len() && p[i].0 == last.0;
                assert(e[i] == p[i]);
                assert(e[e.len() - 1] == last);
            }
        }
        assert forall|i: int| 0 <= i < e.len() implies #[trigger] entries_map(e).contains_key(e[i].0)
            && entries_map(e)[e[i].0] == (e[i].1, e[i].2) by {
            if i < p.len() {
                assert(e[i] == p[i]);
                assert(e[e.len() - 1] == last);
            }
        }
        assert forall|k: Seq<char>| #[trigger] entries_map(e).contains_key(k) implies exists|i: int|
            0 <= i < e.len() && e[i].0 == k by {
            if k == last.0 {
                assert(e[e.len() - 1].0 == k);
            } else {
                assert(entries_map(p).contains_key(k));
                let i = choose|i: int| 0 <= i < p.len() && p[i].0 == k;
                assert(e[i] == p[i]);
            }
        }
    }
}

impl View for AvailabilityCache {
    type V = Map<Seq<char>, AvailabilityFacts>;

    /// The cache's contents.
    closed spec fn view(&self) -> Map<Seq<char>, AvailabilityFacts> {
        entries_map(entry_views(self.entries@))
    }
}

fn find_entry(entries: &Vec<(String, String, String)>, asset_id: &str) -> (r: Option<usize>)
    ensures
        match r {
            Some(i) => i < entries@.len() && entries@[i as int].0@ == asset_id@,
            None => forall|i: int| 0 <= i < entries@.len() ==> #[trigger] entries@[i].0@ != asset_id@,
        },
{
    let key = chars_of(asset_id);
    let mut i: usize = 0;
    while i < entries.len()
        invariant
            i <= entries@.len(),
            key@ == asset_id@,
            forall|j: int| 0 <= j < i ==> #[trigger] entries@[j].0@ != asset_id@,
        decreases entries@.len() - i,
    {
        let c = chars_of(entries[i].0.as_str());
        if same_chars(c.as_slice(), key.as_slice()) {
            return Some(i);
        }
        i = i + 1;
    }
    None
}

impl AvailabilityCache {
    /// The list of entries has no repeated id.
    #[verifier::type_invariant]
    spec fn ids_are_distinct(self) -> bool {
        distinct_ids(entry_views(self.entries@))
    }

    /// An empty cache.
    pub fn new() -> (r: Self)
        ensures
            r.view() == Map::<Seq<char>, AvailabilityFacts>::empty(),
    {
        let r = AvailabilityCache { entries: Vec::new() };
        assert(entry_views(r.entries@) =~= Seq::empty());
        r
    }

    /// Number of assets known.
    pub fn len(&self) -> (r: usize)
        ensures
            r == self.view().len(),
            self.view().dom().finite(),
    {
        proof {
            use_type_invariant(self);
            lemma_entries_map(entry_views(self.entries@));
        }
        self.entries.len()
    }

    /// What is known of `asset_id`, if anything.
    pub fn get(&self, asset_id: &str) -> (r: Option<(String, String)>)
        ensures
            match r {
                Some((slug, outcome)) => self.view().contains_key(asset_id@) && self.view()[asset_id@]
                    == (slug@, outcome@),
                None => !self.view().contains_key(asset_id@),
            },
    {
        let ghost e = entry_views(self.entries@);
        proof {
            use_type_invariant(self);
            lemma_entries_map(e);
        }
        match find_entry(&self.entries, asset_id) {
            Some(i) => {
                assert(e[i as int] == (self.entries@[i as int].0@, self.entries@[i as int].1@, self.entries@[i as int].2@));
                assert(entries_map(e).contains_key(e[i as int].0));
                let slug = self.entries[i].1.clone();
                let outcome = self.entries[i].2.clone();
                Some((slug, outcome))
            },
            None => {
                proof {
                    if self.view().contains_key(asset_id@) {
                        let j = choose|j: int| 0 <= j < e.len() && e[j].0 == asset_id@;
                        assert(self.entries@[j].0@ == asset_id@);
                    }
                }
                None
            },
        }
    }

    /// Records what is known of `asset_id`, replacing what was known.
    pub fn insert(&mut self, asset_id: String, slug: String, outcome: String)
        ensures
            final(self).view() == old(self).view().insert(asset_id@, (slug@, outcome@)),
    {
        proof {
            use_type_invariant(&*self);
        }
        let mut entries: Vec<(String, String, String)> = Vec::new();
        std::mem::swap(&mut entries, &mut self.entries);
        let ghost e0 = entry_views(entries@);
        let ghost k = asset_id@;
        let ghost val = (slug@, outcome@);
        proof {
            lemma_entries_map(e0);
        }
        match find_entry(&entries, asset_id.as_str()) {
            Some(i) => {
                entries.set(i, (asset_id, slug, outcome));
                let ghost e1 = entry_views(entries@);
                proof {
                    assert(e1 =~= e0.update(i as int, (k, val.0, val.1)));
                    assert(distinct_ids(e1)) by {
                        assert forall|a: int, b: int| 0 <= a < b < e1.len() implies (#[trigger] e1[a]).0
                            != (#[trigger] e1[b]).0 by {
                            if a != i && b != i {
                                assert(e1[a] == e0[a] && e1[b] == e0[b]);
                            } else if a == i {
                                assert(e1[b] == e0[b]);
                                assert(e0[a].0 == k);
                            } else {
                                assert(e1[a] == e0[a]);
                                assert(e0[b].0 == k);
                            }
                        }
                    }
                    lemma_entries_map(e1);
                    assert(entries_map(e1) =~= entries_map(e0).insert(k, val)) by {
                        assert forall|x: Seq<char>| #[trigger] entries_map(e1).contains_key(x)
                            <==> entries_map(e0).insert(k, val).contains_key(x) by {
                            if entries_map(e1).contains_key(x) {
                                let j = choose|j: int| 0 <= j < e1.len() && e1[j].0 == x;
                                if j != i {
                                    assert(e1[j] == e0[j]);
                                    assert(entries_map(e0).contains_key(e0[j].0));
                                }
                            }
                            if entries_map(e0).insert(k, val).contains_key(x) {
                                if x == k {
                                    assert(entries_map(e1).contains_key(e1[i as int].0));
                                } else {
                                    let j = choose|j: int| 0 <= j < e0.len() && e0[j].0 == x;
                                    assert(j != i);
                                    assert(e1[j] == e0[j]);
                                    assert(entries_map(e1).contains_key(e1[j].0));
                                }
                            }
                        }
                        assert forall|x: Seq<char>| #[trigger] entries_map(e1).contains_key(x)
                            implies entries_map(e1)[x] == entries_map(e0).insert(k, val)[x] by {
                            let j = choose|j: int| 0 <= j < e1.len() && e1[j].0 == x;
                            assert(entries_map(e1).contains_key(e1[j].0));
                            if j != i {
                                assert(e1[j] == e0[j]);
                                assert(entries_map(e0).contains_key(e0[j].0));
                                if j < i {
                                    assert(e1[j].0 != e1[i as int].0);
                                } else {
                                    assert(e1[i as int].0 != e1[j].0);
                                }
                                assert(x != k);
                            }
                        }
                    }
                }
            },
            None => {
                entries.push((asset_id, slug, outcome));
                let ghost e1 = entry_views(entries@);
                proof {
                    assert(e1 =~= e0.push((k, val.0, val.1)));
                    assert(e1.drop_last() =~= e0);
                    assert(distinct_ids(e1)) by {
                        assert forall|a: int, b: int| 0 <= a < b < e1.len() implies (#[trigger] e1[a]).0
                            != (#[trigger] e1[b]).0 by {
                            assert(e1[a] == e0[a]);
                            if b < e0.len() {
                                assert(e1[b] == e0[b]);
                            } else {
                                assert(entries@[a].0@ != k);
                            }
                        }
                    }
                }
            },
        }
        self.entries = entries;
    }

    /// The entries as asset id, slug and outcome, sorted by asset id: the
    /// order in which the cache is written out.
    pub fn sorted_entries(&self) -> (r: Vec<(String, String, String)>)
        ensures
            r@.len() == self.view().len(),
            forall|i: int| 0 <= i < r@.len() ==> #[trigger] self.view().contains_key(r@[i].0@)
                && self.view()[r@[i].0@] == (r@[i].1@, r@[i].2@),
            forall|i: int, j: int|
                0 <= i < j < r@.len() ==> crate::market_order::text_less(
                    (#[trigger] r@[i]).0@,
                    (#[trigger] r@[j]).0@,
                ),
    {
        let ghost e = entry_views(self.entries@);
        proof {
            use_type_invariant(self);
            lemma_entries_map(e);
        }
        let mut ids: Vec<String> = Vec::new();
        let mut k: usize = 0;
        while k < self.entries.len()
            invariant
                k <= self.entries@.len(),
                ids@.len() == k,
                forall|q: int| 0 <= q < k ==> #[trigger] ids@[q]@ == self.entries@[q].0@,
            decreases self.entries@.len() - k,
        {
            ids.push(self.entries[k].0.clone());
            k = k + 1;
        }
        let sorted = sort_texts(ids.as_slice());
        let ghost order = choose|order: Seq<int>|
            is_text_order(texts(ids@), order) && texts(sorted@) == order.map_values(|p: int| ids@[p]@);
        assert(texts(sorted@).len() == sorted@.len());
        assert(order.len() == ids@.len());
        let mut out: Vec<(String, String, String)> = Vec::new();
        let mut k: usize = 0;
        while k < sorted.len()
            invariant
                order.len() == ids@.len(),
                sorted@.len() == ids@.len(),
                distinct_ids(e),
                e == entry_views(self.entries@),
                k <= sorted@.len(),
                out@.len() == k,
                is_text_order(texts(ids@), order),
                texts(sorted@) == order.map_values(|p: int| ids@[p]@),
                ids@.len() == self.entries@.len(),
                forall|q: int| 0 <= q < ids@.len() ==> #[trigger] ids@[q]@ == self.entries@[q].0@,
                forall|q: int| 0 <= q < k ==> (#[trigger] out@[q]).0@ == sorted@[q]@ && self.view().contains_key(
                    out@[q].0@,
                ) && self.view()[out@[q].0@] == (out@[q].1@, out@[q].2@),
            decreases sorted@.len() - k,
        {
            let ghost idx = order[k as int];
            proof {
                assert(texts(sorted@)[k as int] == sorted@[k as int]@);
                assert(order.map_values(|p: int| ids@[p]@)[k as int] == ids@[idx]@);
                assert(0 <= idx < ids@.len());
                assert(e[idx] == (self.entries@[idx].0@, self.entries@[idx].1@, self.entries@[idx].2@));
                assert(sorted@[k as int]@ == e[idx].0);
                lemma_entries_map(e);
                assert(entries_map(e).contains_key(e[idx].0));
            }
            match self.get(sorted[k].as_str()) {
                Some((slug, outcome)) => {
                    out.push((sorted[k].clone(), slug, outcome));
                },
                None => {
                    assert(false);
                },
            }
            k = k + 1;
        }
        proof {
            assert forall|i: int, j: int| 0 <= i < j < out@.len() implies crate::market_order::text_less(
                (#[trigger] out@[i]).0@,
                (#[trigger] out@[j]).0@,
            ) by {
                let (a, b) = (order[i], order[j]);
                let t = texts(ids@);
                assert(texts(sorted@)[i] == sorted@[i]@ && texts(sorted@)[j] == sorted@[j]@);
                assert(order.map_values(|p: int| ids@[p]@)[i] == ids@[a]@);
                assert(order.map_values(|p: int| ids@[p]@)[j] == ids@[b]@);
                assert(0 <= a < ids@.len() && 0 <= b < ids@.len());
                assert(t[a] == ids@[a]@ && t[b] == ids@[b]@);
                assert(crate::listing::text_ranks_before(t, a, b));
                assert(e[a].0 == self.entries@[a].0@ && e[b].0 == self.entries@[b].0@);
                if !crate::market_order::text_less(t[a], t[b]) {
                    assert(t[a] == t[b] && a < b);
                    assert(e[a].0 != e[b].0);
                }
            }
        }
        out
    }
}

/// Asset ids split by whether the cache knows them: records of the known
/// ones (with `date`) and the unknown ids, each in input order.
pub open spec fn spec_partition_by_cache(ids: Seq<Seq<char>>, date: Seq<char>, cache: Map<Seq<char>, AvailabilityFacts>) -> (Seq<(Seq<char>, Seq<char>, Seq<char>, Seq<char>)>, Seq<Seq<char>>)
    decreases ids.len(),
{
    if ids.len() == 0 {
        (Seq::empty(), Seq::empty())
    } else {
        let (known, unknown) = spec_partition_by_cache(ids.drop_last(), date, cache);
        let id = ids.last();
        if cache.contains_key(id) {
            (known.push((id, cache[id].0, cache[id].1, date)), unknown)
        } else {
            (known, unknown.push(id))
        }
    }
}

/// Splits asset ids into the records the cache already resolves and the
/// ids it does not know (see `spec_partition_by_cache`).
pub fn partition_by_cache(asset_ids: &[String], date: &str, cache: &AvailabilityCache) -> (r: (Vec<AssetRecord>, Vec<String>))
    ensures
        (crate::market_order::record_views(r.0@), texts(r.1@)) == spec_partition_by_cache(
            texts(asset_ids@),
            date@,
            cache.view(),
        ),
{
    let ghost t = texts(asset_ids@);
    let mut known: Vec<AssetRecord> = Vec::new();
    let mut unknown: Vec<String> = Vec::new();
    let mut k: usize = 0;
    while k < asset_ids.len()
        invariant
            k <= asset_ids@.len(),
            t == texts(asset_ids@),
            (crate::market_order::record_views(known@), texts(unknown@)) == spec_partition_by_cache(
                t.take(k as int),
                date@,
                cache.view(),
            ),
        decreases asset_ids@.len() - k,
    {
        proof {
            assert(t.take(k + 1).drop_last() =~= t.take(k as int));
            assert(t.take(k + 1).last() == asset_ids@[k as int]@);
        }
        match cache.get(asset_ids[k].as_str()) {
            Some((slug, outcome)) => {
                let rec = (asset_ids[k].clone(), slug, outcome, String::from_str(date));
                let ghost before = known@;
                known.push(rec);
                assert(crate::market_order::record_views(known@) =~= crate::market_order::record_views(
                    before,
                ).push((rec.0@, rec.1@, rec.2@, rec.3@)));
            },
            None => {
                let ghost before = unknown@;
                let id = asset_ids[k].clone();
                unknown.push(id);
                assert(texts(unknown@) =~= texts(before).push(id@));
            },
        }
        k = k + 1;
    }
    assert(t.take(t.len() as int) =~= t);
    (known, unknown)
}

/// Whether the cache is written out after a new entry: after every
/// hundredth newly resolved asset.
pub fn checkpoint_due(new_entries: usize) -> (r: bool)
    ensures
        r == (new_entries % 100 == 0),
{
    new_entries % 100 == 0
}

/// Reading the cache after recording an asset gives back what was recorded
/// for it, and leaves what is known of every other asset as it was.
pub proof fn cache_read_after_write(cache: Map<Seq<char>, AvailabilityFacts>, asset_id: Seq<char>, facts: AvailabilityFacts, other: Seq<char>)
    requires
        other != asset_id,
    ensures
        cache.insert(asset_id, facts).contains_key(asset_id),
        cache.insert(asset_id, facts)[asset_id] == facts,
        cache.insert(asset_id, facts).contains_key(other) == cache.contains_key(other),
        cache.contains_key(other) ==> cache.insert(asset_id, facts)[other] == cache[other],
{
}

/// What to do after one availability request.
#[derive(Debug, Clone, Copy, PartialEq, Eq, Structural)]
pub enum AvailabilityStep {
    /// Rate limited: wait this long, then retry with the next back-off.
    Wait { wait_secs: u64, next_backoff_secs: u64 },
    /// Rate limited on the last allowed attempt.
    GiveUp,
    /// The service answered with an error status.
    Failed,
    /// The answer can be decoded.
    Decode,
}

/// Attempts allowed per asset.
pub const AVAILABILITY_ATTEMPTS: u32 = 10;

/// The longest back-off, in seconds.
pub const MAX_BACKOFF_SECS: u64 = 60;

/// The step after attempt `attempt` (from zero) answered `status`: a 429
/// waits for the server's `Retry-After` (else the current back-off) and
/// doubles the back-off up to a minute, except on the last attempt; any
/// other status outside 200..=299 fails; a success is decoded.
pub open spec fn spec_availability_step(attempt: u32, status: u16, retry_after_secs: Option<u64>, backoff_secs: u64) -> AvailabilityStep {
    if status == 429 {
        if attempt + 1 >= AVAILABILITY_ATTEMPTS {
            AvailabilityStep::GiveUp
        } else {
            AvailabilityStep::Wait {
                wait_secs: match retry_after_secs {
                    Some(s) => s,
                    None => backoff_secs,
                },
                next_backoff_secs: if 2 * backoff_secs < MAX_BACKOFF_SECS {
                    (2 * backoff_secs) as u64
                } else {
                    MAX_BACKOFF_SECS
                },
            }
        }
    } else if 200 <= status <= 299 {
        AvailabilityStep::Decode
    } else {
        AvailabilityStep::Failed
    }
}

/// Decides the step after an availability answer (see
/// `spec_availability_step`).
pub fn availability_step(attempt: u32, status: u16, retry_after_secs: Option<u64>, backoff_secs: u64) -> (r: AvailabilityStep)
    requires
        backoff_secs <= MAX_BACKOFF_SECS,
    ensures
        r == spec_availability_step(attempt, status, retry_after_secs, backoff_secs),
        r matches AvailabilityStep::Wait { next_backoff_secs, .. } ==> next_backoff_secs
            <= MAX_BACKOFF_SECS,
{
    if status == 429 {
        if attempt >= AVAILABILITY_ATTEMPTS - 1 {
            AvailabilityStep::GiveUp
        } else {
            let wait_secs = match retry_after_secs {
                Some(s) => s,
                None => backoff_secs,
            };
            let doubled = 2 * backoff_secs;
            let next_backoff_secs = if doubled < MAX_BACKOFF_SECS { doubled } else { MAX_BACKOFF_SECS };
            AvailabilityStep::Wait { wait_secs, next_backoff_secs }
        }
    } else if 200 <= status && status <= 299 {
        AvailabilityStep::Decode
    } else {
        AvailabilityStep::Failed
    }
}

/// The back-off before the retry that follows attempt `j`: one second,
/// doubled after each rate-limited attempt, at most a minute.
pub open spec fn backoff_at(j: nat) -> u64
    decreases j,
{
    if j == 0 {
        1
    } else if 2 * backoff_at((j - 1) as nat) < MAX_BACKOFF_SECS {
        (2 * backoff_at((j - 1) as nat)) as u64
    } else {
        MAX_BACKOFF_SECS
    }
}

/// Applying the step from attempt `attempt` (back-off `backoff`) to the
/// answers `(status, Retry-After)` of successive requests: the step that
/// ends the run and the waits before each retry. Running out of answers
/// counts as giving up.
pub open spec fn retry_run(answers: Seq<(u16, Option<u64>)>, attempt: u32, backoff: u64) -> (AvailabilityStep, Seq<u64>)
    decreases answers.len(),
{
    if answers.len() == 0 {
        (AvailabilityStep::GiveUp, Seq::empty())
    } else {
        match spec_availability_step(attempt, answers[0].0, answers[0].1, backoff) {
            AvailabilityStep::Wait { wait_secs, next_backoff_secs } => {
                let rest = retry_run(answers.drop_first(), (attempt + 1) as u32, next_backoff_secs);
                (rest.0, seq![wait_secs] + rest.1)
            },
            other => (other, Seq::empty()),
        }
    }
}

/// Position of the first answer that is not a 429 (the length when all are).
pub open spec fn first_not_limited(answers: Seq<(u16, Option<u64>)>) -> nat
    decreases answers.len(),
{
    if answers.len() == 0 {
        0
    } else if answers[0].0 != 429 {
        0
    } else {
        1 + first_not_limited(answers.drop_first())
    }
}

/// How a non-429 status ends a run: decoded on 200..=299, failed otherwise.
pub open spec fn decided_by(status: u16) -> AvailabilityStep {
    if 200 <= status <= 299 {
        AvailabilityStep::Decode
    } else {
        AvailabilityStep::Failed
    }
}

/// The wait before a retry: the server's `Retry-After` if given, else the
/// back-off.
pub open spec fn wait_for(retry_after: Option<u64>, backoff: u64) -> u64 {
    match retry_after {
        Some(s) => s,
        None => backoff,
    }
}

proof fn lemma_retry_run(answers: Seq<(u16, Option<u64>)>, a: nat)
    requires
        a < AVAILABILITY_ATTEMPTS,
        answers.len() >= AVAILABILITY_ATTEMPTS - a,
    ensures
        ({
            let r = retry_run(answers, a as u32, backoff_at(a));
            let k = first_not_limited(answers);
            &&& k < AVAILABILITY_ATTEMPTS - a ==> r.0 == decided_by(answers[k as int].0) && r.1.len() == k
            &&& k >= AVAILABILITY_ATTEMPTS - a ==> r.0 == AvailabilityStep::GiveUp && r.1.len()
                == AVAILABILITY_ATTEMPTS - 1 - a
            &&& forall|j: int| 0 <= j < r.1.len() ==> #[trigger] r.1[j] == wait_for(answers[j].1, backoff_at(a + j as nat))
        }),
    decreases AVAILABILITY_ATTEMPTS - a,
{
    let r = retry_run(answers, a as u32, backoff_at(a));
    if answers[0].0 == 429 && a + 1 < AVAILABILITY_ATTEMPTS {
        let rest = answers.drop_first();
        lemma_retry_run(rest, a + 1);
        let rr = retry_run(rest, (a + 1) as u32, backoff_at(a + 1));
        assert(r.1 == seq![wait_for(answers[0].1, backoff_at(a))] + rr.1);
        assert(first_not_limited(answers) == 1 + first_not_limited(rest));
        assert forall|j: int| 0 <= j < r.1.len() implies #[trigger] r.1[j] == wait_for(answers[j].1, backoff_at(a + j as nat)) by {
            if j > 0 {
                assert(r.1[j] == rr.1[j - 1]);
                assert(rest[j - 1] == answers[j]);
                assert(a + 1 + (j - 1) as nat == a + j as nat);
            }
        }
        if first_not_limited(rest) < AVAILABILITY_ATTEMPTS - (a + 1) {
            assert(rest[first_not_limited(rest) as int] == answers[first_not_limited(answers) as int]);
        }
    }
}

/// Over the answers to up to ten successive availability requests: at most
/// ten requests are made; if the first ten are all rate limited the run gives
/// up, otherwise the first other answer decides (decoded on 2xx, failed
/// otherwise); and before each retry the wait is the server's `Retry-After`
/// or the back-off 1, 2, 4, ... seconds, at most a minute.
pub proof fn availability_retries_follow_the_schedule(answers: Seq<(u16, Option<u64>)>)
    requires
        answers.len() >= AVAILABILITY_ATTEMPTS,
    ensures
        ({
            let r = retry_run(answers, 0, 1);
            let k = first_not_limited(answers);
            &&& r.1.len() < AVAILABILITY_ATTEMPTS
            &&& k < AVAILABILITY_ATTEMPTS ==> r.0 == decided_by(answers[k as int].0) && r.1.len() == k
            &&& k >= AVAILABILITY_ATTEMPTS ==> r.0 == AvailabilityStep::GiveUp && r.1.len()
                == AVAILABILITY_ATTEMPTS - 1
            &&& forall|j: int| 0 <= j < r.1.len() ==> #[trigger] r.1[j] == wait_for(answers[j].1, backoff_at(j as nat))
        }),
{
    lemma_retry_run(answers, 0);
    assert(backoff_at(0) == 1);
}

} // verus!
