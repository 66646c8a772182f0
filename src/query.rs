//! Answering a keyword query from the index of morsels.

use vstd::prelude::*;
use crate::audit::{AuditStore, FailLogEntry, misses_recorded};
use crate::config::PluginConfig;
use crate::keywords::{keywords_of, split_keywords, views};
use crate::morsels::MorselEntry;
use crate::store::{IndexStore, StoreError, log_failed_keywords};
use crate::trigrams::{Score, Trigrams, lemma_insert_sorted};

verus! {

/// The hint given when nothing matched.
pub const SUGGESTION: &'static str = "Try searching for broader terms like 'security' or 'api'.";

/// A morsel as returned to the caller, with the score of its match.
#[derive(Debug)]
pub struct DbMorsel {
    pub id: String,
    pub content: String,
    pub link: Option<String>,
    pub score: Score,
}

/// The answer to a query.
#[derive(Debug)]
pub enum ToolResponse {
    Success { results_count: usize, morsels: Vec<DbMorsel> },
    NoMatch { searched_keywords: Vec<String>, suggestion: String },
}

/// What a query produced, and which keywords matched nothing.
pub struct Answer {
    pub response: ToolResponse,
    pub failed: Vec<String>,
}

pub open spec fn min_of(a: int, b: int) -> int {
    if a < b {
        a
    } else {
        b
    }
}

/// How many hits the search for keyword `q` gives.
pub open spec fn hits_for(index: Trigrams<MorselEntry>, q: Seq<char>, limit: int, min: Score) -> int {
    min_of(limit, index.kept_count(q, min, index.pair_count() as int) as int)
}

/// How many hits the searches for all keywords give together.
pub open spec fn hit_total(index: Trigrams<MorselEntry>, kws: Seq<Seq<char>>, limit: int, min: Score) -> int
    decreases kws.len(),
{
    if kws.len() == 0 {
        0
    } else {
        hit_total(index, kws.drop_last(), limit, min) + hits_for(index, kws.last(), limit, min)
    }
}

/// The keywords whose search gives no hit, in order.
pub open spec fn missed(index: Trigrams<MorselEntry>, kws: Seq<Seq<char>>, limit: int, min: Score) -> Seq<Seq<char>>
    decreases kws.len(),
{
    if kws.len() == 0 {
        Seq::empty()
    } else if hits_for(index, kws.last(), limit, min) == 0 {
        missed(index, kws.drop_last(), limit, min).push(kws.last())
    } else {
        missed(index, kws.drop_last(), limit, min)
    }
}

/// `m` shows the item of the `k`-th stored name with score `s`.
pub open spec fn shows(index: Trigrams<MorselEntry>, m: DbMorsel, k: int, s: Score) -> bool {
    let item = index.items()[index.pair_item(k)];
    m.id == item.id && m.content == item.content && m.link == item.link && m.score == s
}

proof fn lemma_no_hits_without_limit(index: Trigrams<MorselEntry>, kws: Seq<Seq<char>>, min: Score)
    ensures
        hit_total(index, kws, 0, min) == 0,
    decreases kws.len(),
{
    if kws.len() > 0 {
        lemma_no_hits_without_limit(index, kws.drop_last(), min);
        assert(index.kept_count(kws.last(), min, index.pair_count() as int) >= 0);
    }
}

/// `merged` is a best-first list of all hits of the keywords' searches: as
/// many as they give together, each a match of one keyword with its score.
pub open spec fn merged_hits(
    index: Trigrams<MorselEntry>,
    kws: Seq<Seq<char>>,
    limit: int,
    min: Score,
    merged: Seq<(usize, Score)>,
) -> bool {
    &&& merged.len() == hit_total(index, kws, limit, min)
    &&& forall|t: int|
        #![trigger merged[t]]
        0 <= t < merged.len() ==> merged[t].0 < index.pair_count() && exists|i2: int|
            0 <= i2 < kws.len() && index.kept(merged[t].0 as int, kws[i2], min) && merged[t].1
                == index.pair_score(merged[t].0 as int, kws[i2])
    &&& forall|a: int, b: int|
        #![trigger merged[a], merged[b]]
        0 <= a < b < merged.len() ==> merged[a].1.ge(merged[b].1)
}

/// Each morsel shows the hit at its place in `merged`.
pub open spec fn prefix_shown(index: Trigrams<MorselEntry>, morsels: Seq<DbMorsel>, merged: Seq<(usize, Score)>) -> bool {
    morsels.len() <= merged.len() && forall|t: int|
        0 <= t < morsels.len() ==> #[trigger] shows(index, morsels[t], merged[t].0 as int, merged[t].1)
}

/// A success shows the best `limit` of all hits, best first: those that are
/// left out score no more than the last one shown.
pub open spec fn morsels_of(
    index: Trigrams<MorselEntry>,
    kws: Seq<Seq<char>>,
    limit: int,
    min: Score,
    resp: ToolResponse,
) -> bool {
    resp matches ToolResponse::Success { results_count, morsels } ==> results_count == morsels.len()
        && exists|merged: Seq<(usize, Score)>|
        merged_hits(index, kws, limit, min, merged) && morsels.len() == min_of(
            limit,
            merged.len() as int,
        ) && prefix_shown(index, morsels@, merged)
}

/// `resp` answers the keywords `kws`: no match exactly when their searches
/// give no hit, then naming the keywords and the hint; else the best hits.
pub open spec fn responds(
    index: Trigrams<MorselEntry>,
    kws: Seq<Seq<char>>,
    limit: int,
    min: Score,
    resp: ToolResponse,
) -> bool {
    &&& (resp is NoMatch) <==> hit_total(index, kws, limit, min) == 0
    &&& resp matches ToolResponse::NoMatch { searched_keywords, suggestion } ==> views(
        searched_keywords@,
    ) == kws && suggestion@ == SUGGESTION@
    &&& morsels_of(index, kws, limit, min, resp)
}

/// What a query does to the audit record: with audit on file (`track`) and a
/// record, the keywords that missed are recorded and the record is handed out
/// to be saved when some keyword missed; otherwise nothing changes and nothing
/// is to be saved.
pub open spec fn audit_after(
    missed_kws: Seq<Seq<char>>,
    track: bool,
    before: Option<AuditStore>,
    after: Option<AuditStore>,
    to_save: Option<Vec<FailLogEntry>>,
) -> bool {
    &&& (before is None || !track) ==> after == before && to_save is None
    &&& (to_save is Some) <==> (track && before is Some && missed_kws.len() > 0)
    &&& before matches Some(s0) ==> (after matches Some(s1) && misses_recorded(
        s0.view(),
        s1.view(),
        if track {
            missed_kws
        } else {
            Seq::empty()
        },
    ))
    &&& to_save matches Some(v) ==> (after matches Some(s1) && v@.map_values(
        |e: FailLogEntry| e.view(),
    ) == s1.view())
}

fn copy_link(link: &Option<String>) -> (r: Option<String>)
    ensures
        r == *link,
{
    match link {
        Some(l) => Some(l.clone()),
        None => None,
    }
}

/// Searches each keyword for its best `n_best` hits at threshold
/// `min_score`, merges all hits best first and keeps the best `n_best`.
/// With none, the answer names the keywords searched. When `track_failures`
/// is set, the keywords with no hit are listed.
pub fn answer(
    index: &Trigrams<MorselEntry>,
    keywords: &Vec<String>,
    n_best: usize,
    min_score: Score,
    track_failures: bool,
) -> (r: Answer)
    requires
        index.wf(),
        min_score.den > 0,
    ensures
        views(r.failed@) == if track_failures {
            missed(*index, views(keywords@), n_best as int, min_score)
        } else {
            Seq::empty()
        },
        responds(*index, views(keywords@), n_best as int, min_score, r.response),
{
    let ghost kws = views(keywords@);
    let mut failed: Vec<String> = Vec::new();
    let mut merged: Vec<(usize, Score)> = Vec::new();
    let mut i: usize = 0;
    while i < keywords.len()
        invariant
            index.wf(),
            min_score.den > 0,
            kws == views(keywords@),
            i <= keywords.len(),
            merged.len() == hit_total(*index, kws.take(i as int), n_best as int, min_score),
            views(failed@) == if track_failures {
                missed(*index, kws.take(i as int), n_best as int, min_score)
            } else {
                Seq::empty()
            },
            forall|j: int|
                #![trigger merged@[j]]
                0 <= j < merged.len() ==> merged@[j].1.den > 0 && merged@[j].0 < index.pair_count()
                    && exists|i2: int|
                    0 <= i2 < i && index.kept(merged@[j].0 as int, kws[i2], min_score)
                        && merged@[j].1 == index.pair_score(merged@[j].0 as int, kws[i2]),
            forall|a: int, b: int|
                #![trigger merged@[a], merged@[b]]
                0 <= a < b < merged.len() ==> merged@[a].1.ge(merged@[b].1),
        decreases keywords.len() - i,
    {
        let ghost q = kws[i as int];
        assert(kws.take(i + 1).drop_last() == kws.take(i as int));
        assert(kws.take(i + 1).last() == q);
        assert(keywords@[i as int]@ == q);
        let hits = index.rank(keywords[i].as_str(), n_best, min_score);
        proof {
            index.lemma_ranking_facts(q, n_best as int, min_score, hits@);
        }
        let ghost f0 = failed@;
        if hits.len() == 0 && track_failures {
            failed.push(keywords[i].clone());
            assert(views(failed@) =~= views(f0).push(q));
        }
        let mut h: usize = 0;
        let ghost m0: nat = merged@.len();
        #[verifier::loop_isolation(false)]
        while h < hits.len()
            invariant
                index.wf(),
                h <= hits.len(),
                merged.len() == m0 + h,
                index.is_ranking(q, n_best as int, min_score, hits@),
                forall|j: int|
                    #![trigger hits@[j]]
                    0 <= j < hits.len() ==> hits@[j].1.den > 0 && hits@[j].0 < index.pair_count()
                        && index.kept(hits@[j].0 as int, q, min_score)
                        && hits@[j].1 == index.pair_score(hits@[j].0 as int, q),
                forall|j: int|
                    #![trigger merged@[j]]
                    0 <= j < merged.len() ==> merged@[j].1.den > 0 && merged@[j].0 < index.pair_count()
                        && exists|i2: int|
                        0 <= i2 < i + 1 && index.kept(merged@[j].0 as int, kws[i2], min_score)
                            && merged@[j].1 == index.pair_score(merged@[j].0 as int, kws[i2]),
                forall|a: int, b: int|
                    #![trigger merged@[a], merged@[b]]
                    0 <= a < b < merged.len() ==> merged@[a].1.ge(merged@[b].1),
            decreases hits.len() - h,
        {
            let x = hits[h];
            let mut p: usize = 0;
            while p < merged.len() && merged[p].1.at_least(&x.1)
                invariant
                    p <= merged.len(),
                    forall|j: int| 0 <= j < p ==> merged@[j].1.ge(x.1),
                decreases merged.len() - p,
            {
                p += 1;
            }
            let ghost old_m = merged@;
            merged.insert(p, x);
            proof {
                lemma_insert_sorted(old_m, p as int, x, merged@);
                assert forall|j: int|
                    #![trigger merged@[j]]
                    0 <= j < merged.len() implies merged@[j].1.den > 0 && merged@[j].0
                        < index.pair_count() && exists|i2: int|
                        0 <= i2 < i + 1 && index.kept(merged@[j].0 as int, kws[i2], min_score)
                            && merged@[j].1 == index.pair_score(merged@[j].0 as int, kws[i2]) by {
                    if j < p {
                        assert(merged@[j] == old_m[j]);
                    } else if j == p {
                        assert(merged@[j] == hits@[h as int]);
                        assert(kws[i as int] == q);
                    } else {
                        assert(merged@[j] == old_m[j - 1]);
                    }
                }
            }
            h += 1;
        }
        i += 1;
    }
    assert(kws.take(keywords.len() as int) == kws);
    proof {
        lemma_no_hits_without_limit(*index, kws, min_score);
    }
    let ghost full = merged@;
    merged.truncate(n_best);
    let mut morsels: Vec<DbMorsel> = Vec::new();
    let mut j: usize = 0;
    while j < merged.len()
        invariant
            index.wf(),
            j <= merged.len(),
            morsels.len() == j,
            merged.len() <= full.len(),
            forall|t: int| 0 <= t < merged.len() ==> #[trigger] merged@[t] == full[t],
            forall|t: int|
                #![trigger full[t]]
                0 <= t < full.len() ==> full[t].1.den > 0 && full[t].0 < index.pair_count()
                    && exists|i2: int|
                    0 <= i2 < kws.len() && index.kept(full[t].0 as int, kws[i2], min_score)
                        && full[t].1 == index.pair_score(full[t].0 as int, kws[i2]),
            forall|t: int|
                #![trigger morsels@[t]]
                0 <= t < j ==> shows(*index, morsels@[t], merged@[t].0 as int, merged@[t].1),
        decreases merged.len() - j,
    {
        let (k, score) = merged[j];
        assert(full[j as int] == merged@[j as int]);
        let at: usize = index.item_of_pair(k);
        let item = index.item(at);
        let m = DbMorsel {
            id: item.id.clone(),
            content: item.content.clone(),
            link: copy_link(&item.link),
            score,
        };
        morsels.push(m);
        j += 1;
    }
    proof {
        assert(merged_hits(*index, kws, n_best as int, min_score, full));
        assert(morsels.len() == min_of(n_best as int, full.len() as int));
        assert forall|t: int| 0 <= t < morsels.len() implies #[trigger] shows(
            *index,
            morsels@[t],
            full[t].0 as int,
            full[t].1,
        ) by {
            assert(merged@[t] == full[t]);
        }
        assert(prefix_shown(*index, morsels@, full));
    }
    let response = if morsels.len() > 0 {
        ToolResponse::Success { results_count: morsels.len(), morsels }
    } else {
        let mut searched: Vec<String> = Vec::new();
        let mut s: usize = 0;
        while s < keywords.len()
            invariant
                s <= keywords.len(),
                views(searched@) == views(keywords@).take(s as int),
            decreases keywords.len() - s,
        {
            let ghost s0 = searched@;
            searched.push(keywords[s].clone());
            assert(views(searched@) =~= views(s0).push(keywords@[s as int]@));
            s += 1;
            assert(views(keywords@).take(s as int) =~= views(keywords@).take(s - 1).push(keywords@[s - 1]@));
        }
        assert(views(keywords@).take(keywords.len() as int) == views(keywords@));
        ToolResponse::NoMatch { searched_keywords: searched, suggestion: String::from_str(SUGGESTION) }
    };
    proof {
        if response is Success {
            assert(morsels_of(*index, kws, n_best as int, min_score, response));
        }
    }
    Answer { response, failed }
}

/// The answer to a query, and the audit entries to write out if any.
pub struct Outcome {
    pub response: ToolResponse,
    pub to_save: Option<Vec<FailLogEntry>>,
}

/// Answers the keyword query `query` from the index held in `store`, and
/// records in `audit` the keywords that matched nothing when the audit is kept
/// on file. Fails when no index is loaded yet.
pub fn handle_get_morsel(
    store: &IndexStore<MorselEntry>,
    audit: &mut Option<AuditStore>,
    query: &str,
    config: &PluginConfig,
) -> (r: Result<Outcome, StoreError>)
    requires
        store.wf(),
        *old(audit) matches Some(s) ==> s.wf(),
        config.threshold().den > 0,
    ensures
        *final(audit) matches Some(s) ==> s.wf(),
        store.current() is None ==> r == Err::<Outcome, StoreError>(StoreError::NotInitialized)
            && *final(audit) == *old(audit),
        store.current() matches Some(t) ==> (r matches Ok(o) && responds(
            t,
            keywords_of(query@),
            config.hits_wanted() as int,
            config.threshold(),
            o.response,
        ) && audit_after(
            missed(t, keywords_of(query@), config.hits_wanted() as int, config.threshold()),
            config.failed_keywords_path is Some,
            *old(audit),
            *final(audit),
            o.to_save,
        )),
{
    let index = match store.get() {
        Ok(t) => t,
        Err(e) => return Err(e),
    };
    let keywords = split_keywords(query);
    let track = config.failed_keywords_path.is_some();
    let result = answer(index, &keywords, config.n_best(), config.min_score(), track);
    assert(views(result.failed@).len() == result.failed@.len());
    let to_save = log_failed_keywords(audit, &result.failed, track);
    Ok(Outcome { response: result.response, to_save })
}

} // verus!
