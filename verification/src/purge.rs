//! Which prompts may be offered for deletion.
//!
//! A prompt is offered only on evidence that it has no response: its transcript was found, its turn
//! was found in it, and the turn has none. That something could not be found is no evidence.

use vstd::prelude::*;

use crate::answer::{fetched, fetched_view, recovered, turn_found, Fetched, LoggedPrompt};
use crate::batch::{lookup_of, outcomes_add_up, times, Lookup};
use crate::json::JsonView;
use crate::text::{comes_before, maybe, precedes};

verus! {

/// How far back the time lies before which a turn is surely over, as a modifier of a date.
pub const SETTLE: &'static str = "-48 hours";

/// What is known of a stored prompt.
#[derive(Debug)]
pub struct PromptFacts {
    pub id: i64,
    pub prompt: String,
    pub created_at: String,
    pub cwd: Option<String>,
    /// The response text that was kept.
    pub response: Option<String>,
    /// Whether the collector stored segments.
    pub has_segments: bool,
    pub bookmarked: bool,
    pub tagged: bool,
    /// The time of creation in the form of the clock, where `created_at` is a time.
    pub created: Option<String>,
}

/// A prompt that may be deleted if the user agrees.
#[derive(Debug)]
pub struct PurgeCandidate {
    pub id: i64,
    pub prompt: String,
    pub created_at: String,
    pub cwd: Option<String>,
}

/// What a search for prompts without a response came to.
#[derive(Debug)]
pub struct PurgeScan {
    pub scanned: i64,
    pub recovered: i64,
    pub protected: i64,
    /// The prompts of which nothing can be told, since there is no transcript, it could not be read,
    /// or their turns were not found in it. They are never candidates.
    pub unknown: i64,
    pub candidates: Vec<PurgeCandidate>,
}

/// Whether a prompt has a response, as text or as segments.
pub open spec fn is_answered(f: PromptFacts) -> bool {
    (f.response matches Some(r) && r@.len() > 0) || f.has_segments
}

/// Whether the user marked a prompt as one to keep.
pub open spec fn is_loved(f: PromptFacts) -> bool {
    f.bookmarked || f.tagged
}

/// Whether the turn of a prompt is surely over.
pub open spec fn is_settled(f: PromptFacts, cutoff: Seq<char>) -> bool {
    f.created matches Some(c) && precedes(c@, cutoff)
}

/// Whether the response to a prompt is looked for.
pub open spec fn is_target(f: PromptFacts, cutoff: Seq<char>) -> bool {
    !is_answered(f) && !is_loved(f) && is_settled(f, cutoff)
}

/// The prompts whose responses are looked for, in order.
pub open spec fn targets(facts: Seq<PromptFacts>, cutoff: Seq<char>) -> Seq<PromptFacts> {
    facts.filter(|f: PromptFacts| is_target(f, cutoff))
}

/// How many prompts without a response are kept because the user marked them.
pub open spec fn protected(facts: Seq<PromptFacts>) -> nat {
    facts.filter(|f: PromptFacts| !is_answered(f) && is_loved(f)).len()
}

/// The candidate that a prompt makes.
pub open spec fn candidate_of(f: PromptFacts) -> PurgeCandidate {
    PurgeCandidate { id: f.id, prompt: f.prompt, created_at: f.created_at, cwd: f.cwd }
}

/// The prompts whose turns were found and have no response, in order.
pub open spec fn candidates(list: Seq<PromptFacts>, lookups: Seq<Lookup>) -> Seq<PurgeCandidate>
    decreases list.len(),
{
    if list.len() == 0 {
        Seq::empty()
    } else {
        let before = candidates(list.drop_last(), lookups);
        if lookups[list.len() - 1] == Lookup::Absent {
            before.push(candidate_of(list.last()))
        } else {
            before
        }
    }
}

/// How many times nothing could be told: the transcript or the turn was not found.
pub open spec fn untold(lookups: Seq<Lookup>) -> nat {
    times(lookups, Lookup::Unknown) + times(lookups, Lookup::Unmatched)
}

/// Whether a search says what looking for the responses of the targets came to.
pub open spec fn is_scan(
    scan: PurgeScan,
    facts: Seq<PromptFacts>,
    cutoff: Seq<char>,
    lookups: Seq<Lookup>,
) -> bool {
    let list = targets(facts, cutoff);
    &&& lookups.len() == list.len()
    &&& scan.scanned == list.len()
    &&& scan.protected == protected(facts)
    &&& scan.recovered == times(lookups, Lookup::Recovered)
    &&& scan.unknown == untold(lookups)
    &&& scan.candidates@ == candidates(list, lookups)
}

// ---------------------------------------------------------------------------------------------
// Laws
// ---------------------------------------------------------------------------------------------

/// Whether a candidate was made from a prompt of which it is known that it has no response.
pub open spec fn has_evidence(
    c: PurgeCandidate,
    list: Seq<PromptFacts>,
    lookups: Seq<Lookup>,
) -> bool {
    exists|i: int|
        0 <= i < list.len() && c == candidate_of(#[trigger] list[i]) && lookups[i]
            == Lookup::Absent
}

/// Every candidate is a prompt without a response, that nobody marked, whose turn is over, and
/// whose turn was found and has no response.
pub proof fn candidates_have_evidence(
    facts: Seq<PromptFacts>,
    cutoff: Seq<char>,
    lookups: Seq<Lookup>,
    k: int,
)
    requires
        lookups.len() == targets(facts, cutoff).len(),
        0 <= k < candidates(targets(facts, cutoff), lookups).len(),
    ensures
        has_evidence(
            candidates(targets(facts, cutoff), lookups)[k],
            targets(facts, cutoff),
            lookups,
        ),
        forall|i: int|
            0 <= i < targets(facts, cutoff).len() ==> is_target(
                #[trigger] targets(facts, cutoff)[i],
                cutoff,
            ) && facts.contains(targets(facts, cutoff)[i]),
{
    let list = targets(facts, cutoff);
    let keep = |f: PromptFacts| is_target(f, cutoff);
    assert forall|i: int| 0 <= i < list.len() implies is_target(#[trigger] list[i], cutoff)
        && facts.contains(list[i]) by {
        facts.lemma_filter_contains_rev(keep, list[i]);
        facts.lemma_filter_pred(keep, i);
    }
    lemma_evidence(list, lookups, k);
}

/// A candidate comes from a place where the turn has no response.
proof fn lemma_evidence(list: Seq<PromptFacts>, lookups: Seq<Lookup>, k: int)
    requires
        lookups.len() >= list.len(),
        0 <= k < candidates(list, lookups).len(),
    ensures
        has_evidence(candidates(list, lookups)[k], list, lookups),
    decreases list.len(),
{
    let front = list.drop_last();
    if k < candidates(front, lookups).len() {
        lemma_evidence(front, lookups, k);
        let c = candidates(front, lookups)[k];
        let i = choose|i: int|
            0 <= i < front.len() && c == candidate_of(#[trigger] front[i]) && lookups[i]
                == Lookup::Absent;
        assert(list[i] == front[i]);
    } else {
        assert(list[list.len() - 1] == list.last());
    }
}

/// There are as many candidates as turns without a response: where nothing can be told, nothing is
/// offered.
pub proof fn unknown_is_never_a_candidate(list: Seq<PromptFacts>, lookups: Seq<Lookup>)
    requires
        lookups.len() == list.len(),
    ensures
        candidates(list, lookups).len() == times(lookups, Lookup::Absent),
        candidates(list, lookups).len() + times(lookups, Lookup::Recovered) + untold(lookups)
            == list.len(),
    decreases list.len(),
{
    lemma_candidates_count(list, lookups);
    outcomes_add_up(lookups);
}

/// There are as many candidates as turns without a response.
proof fn lemma_candidates_count(list: Seq<PromptFacts>, lookups: Seq<Lookup>)
    requires
        lookups.len() == list.len(),
    ensures
        candidates(list, lookups).len() == times(lookups, Lookup::Absent),
    decreases list.len(),
{
    if list.len() > 0 {
        lemma_candidates_front(list.drop_last(), lookups);
        lemma_candidates_count(list.drop_last(), lookups.drop_last());
    }
}

/// Candidates depend on the outcomes for their own prompts only.
proof fn lemma_candidates_front(list: Seq<PromptFacts>, lookups: Seq<Lookup>)
    requires
        list.len() < lookups.len(),
    ensures
        candidates(list, lookups) == candidates(list, lookups.drop_last()),
    decreases list.len(),
{
    if list.len() > 0 {
        lemma_candidates_front(list.drop_last(), lookups);
    }
}

/// A prompt that was answered, one that the user marked, and one that may still be in progress is
/// not even looked at.
pub proof fn only_targets_are_scanned(facts: Seq<PromptFacts>, cutoff: Seq<char>, f: PromptFacts)
    ensures
        targets(facts, cutoff).contains(f) <==> facts.contains(f) && !is_answered(f) && !is_loved(f)
            && is_settled(f, cutoff),
{
    let keep = |f: PromptFacts| is_target(f, cutoff);
    if targets(facts, cutoff).contains(f) {
        facts.lemma_filter_contains_rev(keep, f);
        let i = choose|i: int|
            0 <= i < targets(facts, cutoff).len() && targets(facts, cutoff)[i] == f;
        facts.lemma_filter_pred(keep, i);
    }
    if facts.contains(f) && is_target(f, cutoff) {
        let i = choose|i: int| 0 <= i < facts.len() && facts[i] == f;
        facts.lemma_filter_contains(keep, i);
    }
}

/// A response counts as absent exactly where the transcript was found, the turn of the prompt was
/// found in it, and the turn has none: where the prompt has no session or no working directory, its
/// transcript is missing, or nothing in the transcript is the prompt, nothing can be told.
pub proof fn absence_needs_the_turn(
    outcome: Result<Fetched, String>,
    row: LoggedPrompt,
    transcript: Option<Seq<JsonView>>,
    offset: int,
)
    requires
        fetched_view(outcome) == fetched(row, transcript, offset),
    ensures
        lookup_of(outcome) == Lookup::Absent <==> {
            &&& row.session_id is Some
            &&& row.cwd is Some
            &&& transcript matches Some(values) && turn_found(values, row, offset) && recovered(
                values,
                row.prompt@,
                row.created_at@,
                maybe(row.msg_uuid),
                offset,
            ) is None
        },
        transcript is None || row.session_id is None || row.cwd is None ==> lookup_of(outcome)
            == Lookup::Unknown,
        row.session_id is Some && row.cwd is Some && (transcript matches Some(values)
            && !turn_found(values, row, offset)) ==> lookup_of(outcome) == Lookup::Unmatched,
{
}

// ---------------------------------------------------------------------------------------------
// Scanning
// ---------------------------------------------------------------------------------------------

/// Whether a prompt has a response, as text or as segments.
fn answered(f: &PromptFacts) -> (r: bool)
    ensures
        r == is_answered(*f),
{
    match &f.response {
        Some(text) => f.has_segments || !text.as_str().is_empty(),
        None => f.has_segments,
    }
}

/// How many prompts without a response are kept because the user marked them.
pub fn count_protected(facts: &Vec<PromptFacts>) -> (r: i64)
    requires
        facts@.len() <= i64::MAX,
    ensures
        r == protected(facts@),
{
    let ghost keep = |f: PromptFacts| !is_answered(f) && is_loved(f);
    let mut count: i64 = 0;
    let mut i: usize = 0;
    proof {
        reveal(Seq::filter);
    }
    while i < facts.len()
        invariant
            i <= facts@.len() <= i64::MAX,
            keep == (|f: PromptFacts| !is_answered(f) && is_loved(f)),
            0 <= count <= i,
            count == facts@.take(i as int).filter(keep).len(),
        decreases facts@.len() - i,
    {
        proof {
            reveal(Seq::filter);
            assert(facts@.take(i + 1).drop_last() =~= facts@.take(i as int));
        }
        if !answered(&facts[i]) && (facts[i].bookmarked || facts[i].tagged) {
            count = count + 1;
        }
        i = i + 1;
    }
    proof {
        assert(facts@.take(facts@.len() as int) =~= facts@);
    }
    count
}

/// The prompts whose responses are looked for.
pub fn purge_targets(facts: Vec<PromptFacts>, cutoff: &str) -> (r: Vec<PromptFacts>)
    ensures
        r@ == targets(facts@, cutoff@),
{
    let ghost all = facts@;
    let ghost keep = |f: PromptFacts| is_target(f, cutoff@);
    let mut out: Vec<PromptFacts> = Vec::new();
    proof {
        reveal(Seq::filter);
    }
    for f in it: facts
        invariant
            it.seq() == all,
            keep == (|f: PromptFacts| is_target(f, cutoff@)),
            out@ == all.take(it.index()).filter(keep),
    {
        proof {
            reveal(Seq::filter);
            assert(all.take(it.index() + 1).drop_last() =~= all.take(it.index()));
        }
        let settled = match &f.created {
            Some(c) => comes_before(c.as_str(), cutoff),
            None => false,
        };
        if settled && !answered(&f) && !f.bookmarked && !f.tagged {
            out.push(f);
        }
    }
    proof {
        assert(all.take(all.len() as int) =~= all);
    }
    out
}

/// What the search came to, given what looking for the response of each target came to.
pub fn conclude_scan(protected: i64, list: Vec<PromptFacts>, lookups: &Vec<Lookup>) -> (r: PurgeScan)
    requires
        list@.len() == lookups@.len(),
        list@.len() <= i64::MAX,
    ensures
        r.scanned == list@.len(),
        r.protected == protected,
        r.recovered == times(lookups@, Lookup::Recovered),
        r.unknown == untold(lookups@),
        r.candidates@ == candidates(list@, lookups@),
        r.scanned == r.recovered + r.unknown + r.candidates@.len(),
{
    let ghost all = list@;
    let scanned: i64 = list.len() as i64;
    let mut recovered: i64 = 0;
    let mut unknown: i64 = 0;
    let mut out: Vec<PurgeCandidate> = Vec::new();
    let mut at: usize = 0;
    for f in it: list
        invariant
            it.seq() == all,
            at == it.index(),
            all.len() == lookups@.len(),
            all.len() <= i64::MAX,
            0 <= recovered <= it.index(),
            0 <= unknown <= it.index(),
            recovered == times(lookups@.take(it.index()), Lookup::Recovered),
            unknown == untold(lookups@.take(it.index())),
            out@ == candidates(all.take(it.index()), lookups@),
            it.index() == recovered + unknown + out@.len(),
    {
        let ghost n = it.index();
        proof {
            assert(all.take(n + 1).drop_last() =~= all.take(n));
            assert(lookups@.take(n + 1).drop_last() =~= lookups@.take(n));
            assert(at < lookups.len());
        }
        match lookups[at] {
            // The transcript gave the response back.
            Lookup::Recovered => recovered = recovered + 1,
            // There is nothing to tell by, so the prompt is left alone.
            Lookup::Unknown => unknown = unknown + 1,
            Lookup::Unmatched => unknown = unknown + 1,
            // The turn is there and has no response.
            Lookup::Absent => {
                out.push(
                    PurgeCandidate {
                        id: f.id,
                        prompt: f.prompt,
                        created_at: f.created_at,
                        cwd: f.cwd,
                    },
                );
            },
        }
        at = at + 1;
    }
    proof {
        assert(all.take(all.len() as int) =~= all);
        assert(lookups@.take(lookups@.len() as int) =~= lookups@);
    }
    PurgeScan { scanned, recovered, protected, unknown, candidates: out }
}

/// Searches for prompts without a response, and looks for each response once more with `look`,
/// which takes the id of the prompt. Only prompts that are shown to have none are offered.
pub fn scan_unanswered<F: Fn(i64) -> Lookup>(facts: Vec<PromptFacts>, cutoff: &str, look: F) -> (r:
    PurgeScan)
    requires
        facts@.len() <= i64::MAX,
        forall|id: i64| look.requires((id,)),
    ensures
        exists|lookups: Seq<Lookup>|
            {
                &&& #[trigger] is_scan(r, facts@, cutoff@, lookups)
                &&& forall|i: int|
                    0 <= i < lookups.len() ==> look.ensures(
                        (targets(facts@, cutoff@)[i].id,),
                        #[trigger] lookups[i],
                    )
            },
        r.scanned == r.recovered + r.unknown + r.candidates@.len(),
{
    let kept = count_protected(&facts);
    proof {
        let keep = |f: PromptFacts| is_target(f, cutoff@);
        facts@.lemma_filter_len(keep);
    }
    let list = purge_targets(facts, cutoff);
    let mut lookups: Vec<Lookup> = Vec::new();
    let mut i: usize = 0;
    while i < list.len()
        invariant
            i <= list@.len(),
            lookups@.len() == i,
            forall|id: i64| look.requires((id,)),
            forall|k: int|
                0 <= k < i ==> look.ensures((list@[k].id,), #[trigger] lookups@[k]),
        decreases list@.len() - i,
    {
        let found = look(list[i].id);
        lookups.push(found);
        i = i + 1;
    }
    let r = conclude_scan(kept, list, &lookups);
    proof {
        assert(is_scan(r, facts@, cutoff@, lookups@));
    }
    r
}

} // verus!
