//! Looking for many responses at a time, and what came of it.

use vstd::prelude::*;

use crate::answer::{
    build_session_index, epochs_fit, lemma_seconds_fit, replies_to, resolve_uuid, resolved_uuid,
    turns_in, user_turns_view, Fetched,
};
use crate::clock::OFFSET_LIMIT;
use crate::json::{list_view, parse_lines, values_in, JsonView};
use crate::text::{
    blank, comes_before, is_blank, maybe, own, precedes, precedes_is_total, precedes_is_transitive,
    text_eq, texts,
};

verus! {

broadcast use crate::json::lemma_list_view;

// ---------------------------------------------------------------------------------------------
// Counting
// ---------------------------------------------------------------------------------------------

/// What looking for a response came to.
#[derive(Debug, Clone, Copy, PartialEq, Eq, Structural)]
pub enum Lookup {
    /// The transcript has a response.
    Recovered,
    /// The turn is in the transcript, and has no response.
    Absent,
    /// The transcript is there, but the turn was not found in it.
    Unmatched,
    /// There is no transcript to tell by, or it could not be read.
    Unknown,
}

/// How many responses were looked for, and what came of it.
#[derive(Debug, Clone, Copy, PartialEq, Eq, Structural)]
pub struct BatchFetchResult {
    pub total: i64,
    pub fetched: i64,
    pub not_found: i64,
    pub failed: i64,
}

/// How often an outcome occurs.
pub open spec fn times(lookups: Seq<Lookup>, which: Lookup) -> nat
    decreases lookups.len(),
{
    if lookups.len() == 0 {
        0
    } else {
        times(lookups.drop_last(), which) + if lookups.last() == which {
            1nat
        } else {
            0nat
        }
    }
}

/// Every outcome is counted once.
pub proof fn outcomes_add_up(lookups: Seq<Lookup>)
    ensures
        times(lookups, Lookup::Recovered) + times(lookups, Lookup::Absent) + times(
            lookups,
            Lookup::Unmatched,
        ) + times(lookups, Lookup::Unknown) == lookups.len(),
    decreases lookups.len(),
{
    if lookups.len() > 0 {
        outcomes_add_up(lookups.drop_last());
    }
}

/// What the outcome of looking for a response is counted as.
pub open spec fn lookup_of(outcome: Result<Fetched, String>) -> Lookup {
    match outcome {
        Ok(Fetched::Response(_)) => Lookup::Recovered,
        Ok(Fetched::Empty) => Lookup::Absent,
        Ok(Fetched::NoTurn) => Lookup::Unmatched,
        Err(_) => Lookup::Unknown,
    }
}

/// What the outcome of looking for a response is counted as: an error tells nothing of whether
/// there is a response.
pub fn judge(outcome: &Result<Fetched, String>) -> (r: Lookup)
    ensures
        r == lookup_of(*outcome),
{
    match outcome {
        Ok(Fetched::Response(_)) => Lookup::Recovered,
        Ok(Fetched::Empty) => Lookup::Absent,
        Ok(Fetched::NoTurn) => Lookup::Unmatched,
        Err(_) => Lookup::Unknown,
    }
}

/// Whether the counts are those of the outcomes. A turn that was not found counts as a response that
/// was not found.
pub open spec fn is_tally(r: BatchFetchResult, lookups: Seq<Lookup>) -> bool {
    &&& r.total == lookups.len()
    &&& r.fetched == times(lookups, Lookup::Recovered)
    &&& r.not_found == times(lookups, Lookup::Absent) + times(lookups, Lookup::Unmatched)
    &&& r.failed == times(lookups, Lookup::Unknown)
}

/// Counts what looking for responses came to.
pub fn tally(lookups: &Vec<Lookup>) -> (r: BatchFetchResult)
    requires
        lookups@.len() <= i64::MAX,
    ensures
        r.total == lookups@.len(),
        r.fetched == times(lookups@, Lookup::Recovered),
        r.not_found == times(lookups@, Lookup::Absent) + times(lookups@, Lookup::Unmatched),
        r.failed == times(lookups@, Lookup::Unknown),
        r.total == r.fetched + r.not_found + r.failed,
        is_tally(r, lookups@),
{
    let mut r = BatchFetchResult { total: 0, fetched: 0, not_found: 0, failed: 0 };
    let mut i: usize = 0;
    while i < lookups.len()
        invariant
            i <= lookups@.len() <= i64::MAX,
            r.total == i,
            r.fetched == times(lookups@.take(i as int), Lookup::Recovered),
            r.not_found == times(lookups@.take(i as int), Lookup::Absent) + times(
                lookups@.take(i as int),
                Lookup::Unmatched,
            ),
            r.failed == times(lookups@.take(i as int), Lookup::Unknown),
            r.total == r.fetched + r.not_found + r.failed,
        decreases lookups@.len() - i,
    {
        proof {
            assert(lookups@.take(i + 1).drop_last() =~= lookups@.take(i as int));
        }
        r.total = r.total + 1;
        match lookups[i] {
            Lookup::Recovered => r.fetched = r.fetched + 1,
            Lookup::Absent => r.not_found = r.not_found + 1,
            Lookup::Unmatched => r.not_found = r.not_found + 1,
            Lookup::Unknown => r.failed = r.failed + 1,
        }
        i = i + 1;
    }
    proof {
        assert(lookups@.take(lookups@.len() as int) =~= lookups@);
    }
    r
}

// ---------------------------------------------------------------------------------------------
// Prompts by session
// ---------------------------------------------------------------------------------------------

/// A stored prompt whose transcript can be looked for.
#[derive(Debug)]
pub struct StoredPrompt {
    pub id: i64,
    pub session_id: String,
    pub cwd: String,
    pub prompt: String,
    pub created_at: String,
    pub msg_uuid: Option<String>,
}

/// The prompts that share a transcript.
#[derive(Debug)]
pub struct SessionPrompts {
    pub cwd: String,
    pub session_id: String,
    pub rows: Vec<StoredPrompt>,
}

/// Whether a prompt belongs to a session.
pub open spec fn is_of(row: StoredPrompt, cwd: Seq<char>, session_id: Seq<char>) -> bool {
    row.cwd@ == cwd && row.session_id@ == session_id
}

/// The prompts of a session, in order.
pub open spec fn rows_of(
    rows: Seq<StoredPrompt>,
    cwd: Seq<char>,
    session_id: Seq<char>,
) -> Seq<StoredPrompt> {
    rows.filter(|row: StoredPrompt| is_of(row, cwd, session_id))
}

/// Whether a session comes before another: by the working directory, then by the session's name.
pub open spec fn session_before(
    cwd: Seq<char>,
    session_id: Seq<char>,
    cwd2: Seq<char>,
    session_id2: Seq<char>,
) -> bool {
    precedes(cwd, cwd2) || (cwd == cwd2 && precedes(session_id, session_id2))
}

/// Whether one of the groups is that of the given session.
pub open spec fn has_group(
    groups: Seq<SessionPrompts>,
    cwd: Seq<char>,
    session_id: Seq<char>,
) -> bool {
    exists|g: int|
        0 <= g < groups.len() && (#[trigger] groups[g]).cwd@ == cwd && groups[g].session_id@
            == session_id
}

/// How many prompts the groups hold.
pub open spec fn row_total(groups: Seq<SessionPrompts>) -> nat
    decreases groups.len(),
{
    if groups.len() == 0 {
        0
    } else {
        row_total(groups.drop_last()) + groups.last().rows@.len()
    }
}

/// Whether the groups stand in order, no session twice.
pub open spec fn in_order(groups: Seq<SessionPrompts>) -> bool {
    forall|i: int, j: int|
        0 <= i < j < groups.len() ==> session_before(
            (#[trigger] groups[i]).cwd@,
            groups[i].session_id@,
            (#[trigger] groups[j]).cwd@,
            groups[j].session_id@,
        )
}

/// Whether each group holds the prompts of its session, and there is a group for each prompt.
pub open spec fn holds_all(groups: Seq<SessionPrompts>, rows: Seq<StoredPrompt>) -> bool {
    &&& forall|g: int|
        0 <= g < groups.len() ==> (#[trigger] groups[g]).rows@ == rows_of(
            rows,
            groups[g].cwd@,
            groups[g].session_id@,
        )
    &&& forall|g: int| 0 <= g < groups.len() ==> (#[trigger] groups[g]).rows@.len() > 0
    &&& forall|k: int|
        0 <= k < rows.len() ==> has_group(groups, (#[trigger] rows[k]).cwd@, rows[k].session_id@)
}

/// Another prompt joins its own session only.
proof fn lemma_rows_of_push(
    rows: Seq<StoredPrompt>,
    row: StoredPrompt,
    cwd: Seq<char>,
    session_id: Seq<char>,
)
    ensures
        rows_of(rows.push(row), cwd, session_id) == if is_of(row, cwd, session_id) {
            rows_of(rows, cwd, session_id).push(row)
        } else {
            rows_of(rows, cwd, session_id)
        },
{
    reveal(Seq::filter);
    assert(rows.push(row).drop_last() =~= rows);
}

/// A session whose group is missing has no prompt yet.
proof fn lemma_rows_of_none(rows: Seq<StoredPrompt>, cwd: Seq<char>, session_id: Seq<char>)
    requires
        forall|k: int| 0 <= k < rows.len() ==> !is_of(#[trigger] rows[k], cwd, session_id),
    ensures
        rows_of(rows, cwd, session_id) == Seq::<StoredPrompt>::empty(),
    decreases rows.len(),
{
    reveal(Seq::filter);
    if rows.len() > 0 {
        assert(!is_of(rows[rows.len() - 1], cwd, session_id));
        lemma_rows_of_none(rows.drop_last(), cwd, session_id);
    }
}

/// A group that takes the place of another changes the number of prompts by the difference.
proof fn lemma_total_update(groups: Seq<SessionPrompts>, at: int, group: SessionPrompts)
    requires
        0 <= at < groups.len(),
    ensures
        row_total(groups.update(at, group)) + groups[at].rows@.len() == row_total(groups)
            + group.rows@.len(),
    decreases groups.len(),
{
    let after = groups.update(at, group);
    if at == groups.len() - 1 {
        assert(after.drop_last() =~= groups.drop_last());
    } else {
        assert(after.drop_last() =~= groups.drop_last().update(at, group));
        lemma_total_update(groups.drop_last(), at, group);
    }
}

/// A new group adds its prompts.
proof fn lemma_total_insert(groups: Seq<SessionPrompts>, at: int, group: SessionPrompts)
    requires
        0 <= at <= groups.len(),
    ensures
        row_total(groups.insert(at, group)) == row_total(groups) + group.rows@.len(),
    decreases groups.len(),
{
    let after = groups.insert(at, group);
    if at == groups.len() {
        assert(after.drop_last() =~= groups);
    } else {
        assert(after.drop_last() =~= groups.drop_last().insert(at, group));
        assert(after.last() == groups.last());
        lemma_total_insert(groups.drop_last(), at, group);
    }
}

/// Of two different sessions one comes before the other.
proof fn lemma_sessions_total(
    cwd: Seq<char>,
    session_id: Seq<char>,
    cwd2: Seq<char>,
    session_id2: Seq<char>,
)
    ensures
        !session_before(cwd, session_id, cwd, session_id),
        session_before(cwd, session_id, cwd2, session_id2) ==> !session_before(
            cwd2,
            session_id2,
            cwd,
            session_id,
        ),
        !(cwd == cwd2 && session_id == session_id2) ==> session_before(
            cwd,
            session_id,
            cwd2,
            session_id2,
        ) || session_before(cwd2, session_id2, cwd, session_id),
{
    precedes_is_total(cwd, cwd2);
    precedes_is_total(session_id, session_id2);
}

/// Sessions come one before the other in one line.
proof fn lemma_sessions_transitive(
    cwd: Seq<char>,
    session_id: Seq<char>,
    cwd2: Seq<char>,
    session_id2: Seq<char>,
    cwd3: Seq<char>,
    session_id3: Seq<char>,
)
    requires
        session_before(cwd, session_id, cwd2, session_id2),
        session_before(cwd2, session_id2, cwd3, session_id3),
    ensures
        session_before(cwd, session_id, cwd3, session_id3),
{
    if precedes(cwd, cwd2) && precedes(cwd2, cwd3) {
        precedes_is_transitive(cwd, cwd2, cwd3);
    }
    if precedes(session_id, session_id2) && precedes(session_id2, session_id3) {
        precedes_is_transitive(session_id, session_id2, session_id3);
    }
}

/// The place of a session among groups that stand in order.
fn place_of(groups: &Vec<SessionPrompts>, cwd: &str, session_id: &str) -> (r: usize)
    ensures
        r <= groups@.len(),
        forall|i: int|
            0 <= i < r ==> session_before(
                (#[trigger] groups@[i]).cwd@,
                groups@[i].session_id@,
                cwd@,
                session_id@,
            ),
        r < groups@.len() ==> !session_before(
            groups@[r as int].cwd@,
            groups@[r as int].session_id@,
            cwd@,
            session_id@,
        ),
{
    let mut i: usize = 0;
    while i < groups.len() && (comes_before(groups[i].cwd.as_str(), cwd) || (text_eq(
        groups[i].cwd.as_str(),
        cwd,
    ) && comes_before(groups[i].session_id.as_str(), session_id)))
        invariant
            i <= groups@.len(),
            forall|k: int|
                0 <= k < i ==> session_before(
                    (#[trigger] groups@[k]).cwd@,
                    groups@[k].session_id@,
                    cwd@,
                    session_id@,
                ),
        decreases groups@.len() - i,
    {
        i = i + 1;
    }
    i
}

/// The groups stay in order where a session comes in at its place.
proof fn lemma_in_order_insert(groups: Seq<SessionPrompts>, at: int, group: SessionPrompts)
    requires
        in_order(groups),
        0 <= at <= groups.len(),
        forall|i: int|
            0 <= i < at ==> session_before(
                (#[trigger] groups[i]).cwd@,
                groups[i].session_id@,
                group.cwd@,
                group.session_id@,
            ),
        at < groups.len() ==> session_before(
            group.cwd@,
            group.session_id@,
            groups[at].cwd@,
            groups[at].session_id@,
        ),
    ensures
        in_order(groups.insert(at, group)),
{
    let after = groups.insert(at, group);
    assert forall|i: int, j: int| 0 <= i < j < after.len() implies session_before(
        (#[trigger] after[i]).cwd@,
        after[i].session_id@,
        (#[trigger] after[j]).cwd@,
        after[j].session_id@,
    ) by {
        if i < at && j < at {
            assert(after[i] == groups[i] && after[j] == groups[j]);
        } else if i < at && j == at {
            assert(after[i] == groups[i]);
        } else if i < at {
            assert(after[i] == groups[i] && after[j] == groups[j - 1]);
        } else if i == at {
            assert(after[j] == groups[j - 1]);
            if j - 1 > at {
                lemma_sessions_transitive(
                    group.cwd@,
                    group.session_id@,
                    groups[at].cwd@,
                    groups[at].session_id@,
                    groups[j - 1].cwd@,
                    groups[j - 1].session_id@,
                );
            }
        } else {
            assert(after[i] == groups[i - 1] && after[j] == groups[j - 1]);
        }
    }
}

/// Adds a prompt to the group of its session, which is made where it is missing.
fn add_to_session(groups: &mut Vec<SessionPrompts>, row: StoredPrompt, Ghost(rows): Ghost<
    Seq<StoredPrompt>,
>)
    requires
        in_order(old(groups)@),
        holds_all(old(groups)@, rows),
    ensures
        in_order(final(groups)@),
        holds_all(final(groups)@, rows.push(row)),
        row_total(final(groups)@) == row_total(old(groups)@) + 1,
{
    let ghost before = groups@;
    let at = place_of(groups, row.cwd.as_str(), row.session_id.as_str());
    if at < groups.len() && text_eq(groups[at].cwd.as_str(), row.cwd.as_str()) && text_eq(
        groups[at].session_id.as_str(),
        row.session_id.as_str(),
    ) {
        let ghost added = row;
        let mut group = groups.remove(at);
        group.rows.push(row);
        let ghost grown = group;
        groups.insert(at, group);
        proof {
            assert(groups@ =~= before.update(at as int, grown));
            lemma_total_update(before, at as int, grown);
            lemma_session_grew(before, at as int, grown, rows, added);
        }
    } else {
        let mut list: Vec<StoredPrompt> = Vec::new();
        let cwd = row.cwd.clone();
        let session_id = row.session_id.clone();
        let ghost added = row;
        list.push(row);
        let group = SessionPrompts { cwd, session_id, rows: list };
        let ghost made = group;
        groups.insert(at, group);
        proof {
            lemma_total_insert(before, at as int, made);
            if at < before.len() {
                lemma_sessions_total(
                    before[at as int].cwd@,
                    before[at as int].session_id@,
                    added.cwd@,
                    added.session_id@,
                );
            }
            lemma_in_order_insert(before, at as int, made);
            lemma_session_came(before, at as int, made, rows, added);
        }
    }
}

/// What grouping comes to where a prompt joins a group.
proof fn lemma_session_grew(
    groups: Seq<SessionPrompts>,
    at: int,
    grown: SessionPrompts,
    rows: Seq<StoredPrompt>,
    row: StoredPrompt,
)
    requires
        in_order(groups),
        holds_all(groups, rows),
        0 <= at < groups.len(),
        grown.cwd == groups[at].cwd,
        grown.session_id == groups[at].session_id,
        grown.rows@ == groups[at].rows@.push(row),
        is_of(row, grown.cwd@, grown.session_id@),
    ensures
        in_order(groups.update(at, grown)),
        holds_all(groups.update(at, grown), rows.push(row)),
{
    let after = groups.update(at, grown);
    let all = rows.push(row);
    assert forall|i: int, j: int| 0 <= i < j < after.len() implies session_before(
        (#[trigger] after[i]).cwd@,
        after[i].session_id@,
        (#[trigger] after[j]).cwd@,
        after[j].session_id@,
    ) by {
        assert(session_before(
            groups[i].cwd@,
            groups[i].session_id@,
            groups[j].cwd@,
            groups[j].session_id@,
        ));
    }
    assert forall|g: int| 0 <= g < after.len() implies (#[trigger] after[g]).rows@ == rows_of(
        all,
        after[g].cwd@,
        after[g].session_id@,
    ) && after[g].rows@.len() > 0 by {
        lemma_rows_of_push(rows, row, after[g].cwd@, after[g].session_id@);
        assert(groups[g].rows@ == rows_of(rows, groups[g].cwd@, groups[g].session_id@));
        lemma_sessions_total(
            after[g].cwd@,
            after[g].session_id@,
            grown.cwd@,
            grown.session_id@,
        );
        if g < at {
            assert(session_before(
                after[g].cwd@,
                after[g].session_id@,
                after[at].cwd@,
                after[at].session_id@,
            ));
        } else if g > at {
            assert(session_before(
                after[at].cwd@,
                after[at].session_id@,
                after[g].cwd@,
                after[g].session_id@,
            ));
        }
    }
    assert forall|k: int| 0 <= k < all.len() implies has_group(
        after,
        (#[trigger] all[k]).cwd@,
        all[k].session_id@,
    ) by {
        if k < rows.len() {
            assert(has_group(groups, rows[k].cwd@, rows[k].session_id@));
            let g = choose|g: int|
                0 <= g < groups.len() && (#[trigger] groups[g]).cwd@ == rows[k].cwd@
                    && groups[g].session_id@ == rows[k].session_id@;
            assert(after[g].cwd@ == rows[k].cwd@);
        } else {
            assert(after[at].cwd@ == row.cwd@);
        }
    }
}

/// What grouping comes to where a prompt makes a group.
proof fn lemma_session_came(
    groups: Seq<SessionPrompts>,
    at: int,
    made: SessionPrompts,
    rows: Seq<StoredPrompt>,
    row: StoredPrompt,
)
    requires
        holds_all(groups, rows),
        in_order(groups.insert(at, made)),
        0 <= at <= groups.len(),
        made.rows@ == seq![row],
        is_of(row, made.cwd@, made.session_id@),
    ensures
        holds_all(groups.insert(at, made), rows.push(row)),
{
    let after = groups.insert(at, made);
    let all = rows.push(row);
    assert(after[at] == made);
    assert forall|g: int| 0 <= g < groups.len() implies !(groups[g].cwd@ == made.cwd@
        && (#[trigger] groups[g]).session_id@ == made.session_id@) by {
        lemma_sessions_total(
            groups[g].cwd@,
            groups[g].session_id@,
            made.cwd@,
            made.session_id@,
        );
        if g < at {
            assert(after[g] == groups[g]);
        } else {
            assert(after[g + 1] == groups[g]);
        }
    }
    assert forall|k: int| 0 <= k < rows.len() implies !is_of(
        #[trigger] rows[k],
        made.cwd@,
        made.session_id@,
    ) by {
        assert(has_group(groups, rows[k].cwd@, rows[k].session_id@));
    }
    lemma_rows_of_none(rows, made.cwd@, made.session_id@);
    assert forall|g: int| 0 <= g < after.len() implies (#[trigger] after[g]).rows@ == rows_of(
        all,
        after[g].cwd@,
        after[g].session_id@,
    ) && after[g].rows@.len() > 0 by {
        lemma_rows_of_push(rows, row, after[g].cwd@, after[g].session_id@);
        if g < at {
            assert(after[g] == groups[g]);
        } else if g > at {
            assert(after[g] == groups[g - 1]);
        } else {
            assert(Seq::<StoredPrompt>::empty().push(row) =~= seq![row]);
        }
    }
    assert forall|k: int| 0 <= k < all.len() implies has_group(
        after,
        (#[trigger] all[k]).cwd@,
        all[k].session_id@,
    ) by {
        if k < rows.len() {
            assert(has_group(groups, rows[k].cwd@, rows[k].session_id@));
            let g = choose|g: int|
                0 <= g < groups.len() && (#[trigger] groups[g]).cwd@ == rows[k].cwd@
                    && groups[g].session_id@ == rows[k].session_id@;
            if g < at {
                assert(after[g] == groups[g]);
            } else {
                assert(after[g + 1] == groups[g]);
            }
        } else {
            assert(after[at].cwd@ == row.cwd@);
        }
    }
}

/// Groups prompts by their session, so that each transcript is read once. The groups stand in
/// dictionary order of working directory and session, and each holds the prompts of its session in
/// the order given.
pub fn group_by_session(rows: Vec<StoredPrompt>) -> (r: Vec<SessionPrompts>)
    ensures
        in_order(r@),
        holds_all(r@, rows@),
        row_total(r@) == rows@.len(),
{
    let mut groups: Vec<SessionPrompts> = Vec::new();
    let ghost all = rows@;
    for row in it: rows
        invariant
            it.seq() == all,
            in_order(groups@),
            holds_all(groups@, all.take(it.index())),
            row_total(groups@) == it.index(),
    {
        let ghost so_far = all.take(it.index());
        proof {
            assert(all.take(it.index() + 1) =~= so_far.push(row));
        }
        add_to_session(&mut groups, row, Ghost(so_far));
    }
    proof {
        assert(all.take(all.len() as int) =~= all);
    }
    groups
}

// ---------------------------------------------------------------------------------------------
// Fetching the responses of a session again
// ---------------------------------------------------------------------------------------------

/// What fetching a response again came to.
#[derive(Debug)]
pub enum Refetch {
    /// The response takes the place of the stored one.
    Update { response: String, uuid: String },
    /// The turn is in the transcript and has no response; the stored one stays.
    Nothing,
    /// The turn was not found in the transcript; the stored response stays.
    NoTurn,
    /// There is no transcript; the stored response stays.
    NoTranscript,
}

/// What fetching a response again came to, over texts.
pub ghost enum RefetchView {
    Update { response: Seq<char>, uuid: Seq<char> },
    Nothing,
    NoTurn,
    NoTranscript,
}

impl View for Refetch {
    type V = RefetchView;

    open spec fn view(&self) -> RefetchView {
        match self {
            Refetch::Update { response, uuid } => RefetchView::Update {
                response: response@,
                uuid: uuid@,
            },
            Refetch::Nothing => RefetchView::Nothing,
            Refetch::NoTurn => RefetchView::NoTurn,
            Refetch::NoTranscript => RefetchView::NoTranscript,
        }
    }
}

/// The uuid by which the reply to a prompt is fetched: the one that was kept, or the one that time
/// and text point to.
pub open spec fn refetch_uuid(values: Seq<JsonView>, row: StoredPrompt, offset: int) -> Option<
    Seq<char>,
> {
    match maybe(row.msg_uuid) {
        Some(u) => if u.len() > 0 {
            Some(u)
        } else {
            resolved_uuid(turns_in(values), row.created_at@, row.prompt@, offset)
        },
        None => resolved_uuid(turns_in(values), row.created_at@, row.prompt@, offset),
    }
}

/// What fetching the response to a prompt again comes to. A stored response gives way only to one
/// that is more than white space.
pub open spec fn refetched(
    transcript: Option<Seq<JsonView>>,
    row: StoredPrompt,
    offset: int,
) -> RefetchView {
    match transcript {
        None => RefetchView::NoTranscript,
        Some(values) => {
            let replies = replies_to(values, values.len() as int);
            match refetch_uuid(values, row, offset) {
                None => RefetchView::NoTurn,
                Some(uuid) => if !replies.dom().contains(uuid) {
                    RefetchView::NoTurn
                } else if blank(replies[uuid]) {
                    RefetchView::Nothing
                } else {
                    RefetchView::Update { response: replies[uuid], uuid }
                },
            }
        },
    }
}

/// What fetching a response again is counted as.
pub open spec fn counted_as(r: RefetchView) -> Lookup {
    match r {
        RefetchView::Update { .. } => Lookup::Recovered,
        RefetchView::Nothing => Lookup::Absent,
        RefetchView::NoTurn => Lookup::Unmatched,
        RefetchView::NoTranscript => Lookup::Unknown,
    }
}

impl Refetch {
    /// What the outcome is counted as.
    pub fn lookup(&self) -> (r: Lookup)
        ensures
            r == match self@ {
                RefetchView::Update { .. } => Lookup::Recovered,
                RefetchView::Nothing => Lookup::Absent,
                RefetchView::NoTurn => Lookup::Unmatched,
                RefetchView::NoTranscript => Lookup::Unknown,
            },
            r == counted_as(self@),
    {
        match self {
            Refetch::Update { .. } => Lookup::Recovered,
            Refetch::Nothing => Lookup::Absent,
            Refetch::NoTurn => Lookup::Unmatched,
            Refetch::NoTranscript => Lookup::Unknown,
        }
    }
}

/// Fetches the responses to the prompts of one session again, from the lines of its transcript,
/// `None` where there is no transcript. The transcript is read once.
pub fn refetch_session(
    rows: &Vec<StoredPrompt>,
    transcript: Option<&Vec<String>>,
    offset: i64,
) -> (r: Vec<Refetch>)
    requires
        -OFFSET_LIMIT <= offset <= OFFSET_LIMIT,
    ensures
        r@.len() == rows@.len(),
        forall|i: int|
            0 <= i < rows@.len() ==> (#[trigger] r@[i])@ == refetched(
                match transcript {
                    Some(lines) => Some(values_in(texts(lines@))),
                    None => None,
                },
                rows@[i],
                offset as int,
            ),
{
    let mut out: Vec<Refetch> = Vec::new();
    let mut i: usize = 0;
    match transcript {
        None => {
            while i < rows.len()
                invariant
                    i <= rows@.len(),
                    out@.len() == i,
                    forall|k: int| 0 <= k < i ==> (#[trigger] out@[k])@ == RefetchView::NoTranscript,
                decreases rows@.len() - i,
            {
                out.push(Refetch::NoTranscript);
                i = i + 1;
            }
        },
        Some(lines) => {
            let values = parse_lines(lines);
            let index = build_session_index(&values);
            let ghost all = list_view(values@);
            proof {
                assert(all.len() == values@.len());
            }
            while i < rows.len()
                invariant
                    i <= rows@.len(),
                    out@.len() == i,
                    -OFFSET_LIMIT <= offset <= OFFSET_LIMIT,
                    user_turns_view(index.turns@) == turns_in(all),
                    epochs_fit(index.turns@),
                    index.replies() == replies_to(all, all.len() as int),
                    forall|k: int|
                        0 <= k < i ==> (#[trigger] out@[k])@ == refetched(
                            Some(all),
                            rows@[k],
                            offset as int,
                        ),
                decreases rows@.len() - i,
            {
                let row = &rows[i];
                let kept: Option<String> = match &row.msg_uuid {
                    Some(u) => {
                        if u.as_str().is_empty() {
                            None
                        } else {
                            Some(u.clone())
                        }
                    },
                    None => None,
                };
                proof {
                    lemma_seconds_fit(index.turns@, row.created_at@, offset);
                }
                let uuid = match kept {
                    Some(u) => Some(u),
                    None => resolve_uuid(
                        &index.turns,
                        row.created_at.as_str(),
                        row.prompt.as_str(),
                        offset,
                    ),
                };
                let outcome = match uuid {
                    Some(uuid) => match index.response(uuid.as_str()) {
                        Some(reply) => {
                            if is_blank(reply) {
                                Refetch::Nothing
                            } else {
                                Refetch::Update { response: own(reply), uuid }
                            }
                        },
                        None => Refetch::NoTurn,
                    },
                    None => Refetch::NoTurn,
                };
                out.push(outcome);
                i = i + 1;
            }
        },
    }
    out
}

/// A step of fetching every response again. Where a step fails, those after it are not taken.
#[derive(Debug)]
pub enum RefetchStep {
    /// Takes a snapshot of the database.
    Backup,
    /// Fetches the responses of one session again.
    Session(SessionPrompts),
}

/// The sessions of steps that follow a snapshot.
pub open spec fn sessions_in(steps: Seq<RefetchStep>) -> Seq<SessionPrompts> {
    steps.skip(1).map_values(|s: RefetchStep| s->Session_0)
}

/// The steps of fetching every response again: stored responses are overwritten, so a snapshot
/// comes first, then one session after the other.
pub fn refetch_all_responses(rows: Vec<StoredPrompt>) -> (r: Vec<RefetchStep>)
    ensures
        r@.len() > 0,
        r@[0] == RefetchStep::Backup,
        forall|i: int| 0 < i < r@.len() ==> #[trigger] r@[i] is Session,
        in_order(sessions_in(r@)),
        holds_all(sessions_in(r@), rows@),
        row_total(sessions_in(r@)) == rows@.len(),
{
    let groups = group_by_session(rows);
    let ghost all = groups@;
    let mut steps: Vec<RefetchStep> = Vec::new();
    steps.push(RefetchStep::Backup);
    for group in it: groups
        invariant
            it.seq() == all,
            steps@.len() == it.index() + 1,
            steps@[0] == RefetchStep::Backup,
            forall|i: int| 0 < i < steps@.len() ==> steps@[i] == RefetchStep::Session(all[i - 1]),
    {
        steps.push(RefetchStep::Session(group));
    }
    proof {
        assert(sessions_in(steps@) =~= all);
    }
    steps
}

// ---------------------------------------------------------------------------------------------
// Laws
// ---------------------------------------------------------------------------------------------

/// Fetching again never blanks a stored response, and never touches one whose transcript is gone:
/// a response gives way only to one of the transcript that is more than white space.
pub proof fn refetching_never_blanks(
    transcript: Option<Seq<JsonView>>,
    row: StoredPrompt,
    offset: int,
)
    ensures
        refetched(transcript, row, offset) matches RefetchView::Update { response, uuid } ==> {
            &&& !blank(response)
            &&& transcript matches Some(values) && replies_to(
                values,
                values.len() as int,
            ).dom().contains(uuid) && replies_to(values, values.len() as int)[uuid] == response
        },
{
}

} // verus!
