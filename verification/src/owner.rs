//! Which event of a transcript each logged prompt belongs to.
//!
//! A user event owns a turn exactly where the prompt hook fired for it, that is, where a row was
//! logged. The hook firing is the evidence that somebody typed something; the text of an event and
//! what it says about its source are not.

use vstd::prelude::*;

use crate::text::{
    begins_with, chars_of, contains, has_text, head, head_of, is_text, maybe, norm, normal, starts_with,
    text_eq, trim, trimmed,
};
use crate::transcript::{
    content_text, evs_view, is_prompt_like, prompt_like, text_of_content, Ev, EvView,
};

verus! {

/// A logged prompt.
#[derive(Debug)]
pub struct Row {
    pub id: i64,
    pub prompt: String,
    pub created_at: String,
    /// The turn that the hook was told: the transcript's `promptId`.
    pub cc_turn_id: Option<String>,
    /// The event that an earlier run found for the prompt.
    pub msg_uuid: Option<String>,
}

/// What a logged prompt says.
pub struct RowView {
    pub id: i64,
    pub prompt: Seq<char>,
    pub created_at: Seq<char>,
    pub cc_turn_id: Option<Seq<char>>,
    pub msg_uuid: Option<Seq<char>>,
}

impl View for Row {
    type V = RowView;

    open spec fn view(&self) -> RowView {
        RowView {
            id: self.id,
            prompt: self.prompt@,
            created_at: self.created_at@,
            cc_turn_id: maybe(self.cc_turn_id),
            msg_uuid: maybe(self.msg_uuid),
        }
    }
}

/// What the rows of a list say.
pub open spec fn rows_view(rows: Seq<Row>) -> Seq<RowView> {
    rows.map_values(|r: Row| r@)
}

/// A logged prompt together with the event it belongs to.
#[derive(Debug)]
pub struct Owner {
    pub row_id: i64,
    pub ev_idx: usize,
    /// How the event was found: `exact` by the hook's key, `uuid` by the event that an earlier run
    /// found, `fuzzy` by time and text, or `conflict` by one of the latter two after the key and
    /// the text disagreed.
    pub match_kind: &'static str,
    /// Whether the event was injected and not typed.
    pub is_system: bool,
}

/// What an owner says.
pub struct OwnerView {
    pub row_id: i64,
    pub ev_idx: int,
    pub match_kind: Seq<char>,
    pub is_system: bool,
}

impl View for Owner {
    type V = OwnerView;

    open spec fn view(&self) -> OwnerView {
        OwnerView {
            row_id: self.row_id,
            ev_idx: self.ev_idx as int,
            match_kind: self.match_kind@,
            is_system: self.is_system,
        }
    }
}

/// What the owners of a list say.
pub open spec fn owners_view(owners: Seq<Owner>) -> Seq<OwnerView> {
    owners.map_values(|o: Owner| o@)
}

// ---------------------------------------------------------------------------------------------
// What belongs to what
// ---------------------------------------------------------------------------------------------

/// How many seconds apart a prompt and its event may be where only time and text relate them.
pub const WINDOW: i64 = 30;

/// What the score of an event whose text does not fit is worse by.
pub const NO_TEXT_PENALTY: i64 = 1000;

/// A session: the events of its transcript and the prompts that were logged in it. `ev_times` and
/// `row_times` are the times of the events and of the prompts, where they have one; prompts are
/// logged in local time, which is `offset` seconds ahead.
pub struct Session {
    pub evs: Seq<EvView>,
    pub rows: Seq<RowView>,
    pub offset: int,
    pub ev_times: Seq<Option<i64>>,
    pub row_times: Seq<Option<i64>>,
}

/// The places of the events of a turn that look like prompts, in order.
pub open spec fn prompt_events(evs: Seq<EvView>, turn: Seq<char>) -> Seq<int>
    decreases evs.len(),
{
    if evs.len() == 0 {
        Seq::empty()
    } else {
        let before = prompt_events(evs.drop_last(), turn);
        if evs.last().turn_id == Some(turn) && prompt_like(evs.last()) {
            before.push(evs.len() - 1)
        } else {
            before
        }
    }
}

/// The place of the first event of a turn.
pub open spec fn first_of_turn(evs: Seq<EvView>, turn: Seq<char>) -> Option<int>
    decreases evs.len(),
{
    if evs.len() == 0 {
        None
    } else {
        match first_of_turn(evs.drop_last(), turn) {
            Some(i) => Some(i),
            None => if evs.last().turn_id == Some(turn) {
                Some(evs.len() - 1)
            } else {
                None
            },
        }
    }
}

/// The place of the first event with the given uuid.
pub open spec fn first_with_uuid(evs: Seq<EvView>, uuid: Seq<char>) -> Option<int>
    decreases evs.len(),
{
    if evs.len() == 0 {
        None
    } else {
        match first_with_uuid(evs.drop_last(), uuid) {
            Some(i) => Some(i),
            None => if evs.last().uuid == uuid {
                Some(evs.len() - 1)
            } else {
                None
            },
        }
    }
}

/// How many of the rows were logged in the given turn.
pub open spec fn rows_of_turn(rows: Seq<RowView>, turn: Seq<char>) -> nat
    decreases rows.len(),
{
    if rows.len() == 0 {
        0
    } else {
        rows_of_turn(rows.drop_last(), turn) + if rows.last().cc_turn_id == Some(turn) {
            1nat
        } else {
            0nat
        }
    }
}

/// Whether the text of a prompt and that of an event support each other. A slash command is logged
/// as it was typed and expanded in the transcript, so one beginning must occur in the other text.
/// Very short prompts and events without text are no evidence against the key.
pub open spec fn agrees(prompt: Seq<char>, ev: EvView) -> bool {
    let p = normal(prompt);
    let hay = normal(content_text(ev.content));
    ||| p.len() < 4
    ||| hay.len() == 0
    ||| contains(hay, head(p, 16))
    ||| contains(p, head(hay, 16))
}

/// Whether one of the owners has the event at place `i`.
pub open spec fn is_taken(owners: Seq<OwnerView>, i: int) -> bool {
    exists|k: int| 0 <= k < owners.len() && (#[trigger] owners[k]).ev_idx == i
}

/// What the key that the hook was told says of a prompt.
pub enum KeyVerdict {
    /// There is no key, or no event has it.
    Silent,
    /// The event at this place has the key, and the texts agree.
    Agreed(int),
    /// An event has the key, but it is taken or its text disagrees.
    Refused,
}

impl Session {
    /// The event that the key points to for row `k`: prompts that were queued share a turn, so the
    /// n-th row of a turn gets the n-th event of it that looks like a prompt; where there are not
    /// so many, the first event of the turn.
    pub open spec fn key_event(self, k: int, turn: Seq<char>) -> Option<int> {
        let prompts = prompt_events(self.evs, turn);
        let n = rows_of_turn(self.rows.take(k), turn);
        if n < prompts.len() {
            Some(prompts[n as int])
        } else {
            first_of_turn(self.evs, turn)
        }
    }

    /// What the key says of row `k` where `owners` have their events already.
    pub open spec fn key_verdict(self, k: int, owners: Seq<OwnerView>) -> KeyVerdict {
        match self.rows[k].cc_turn_id {
            Some(turn) => if turn.len() == 0 {
                KeyVerdict::Silent
            } else {
                match self.key_event(k, turn) {
                    Some(i) => if !is_taken(owners, i) && agrees(
                        self.rows[k].prompt,
                        self.evs[i],
                    ) {
                        KeyVerdict::Agreed(i)
                    } else {
                        KeyVerdict::Refused
                    },
                    None => KeyVerdict::Silent,
                }
            },
            None => KeyVerdict::Silent,
        }
    }

    /// The event that an earlier run found for row `k`, where it is free and its text agrees.
    pub open spec fn uuid_event(self, k: int, owners: Seq<OwnerView>) -> Option<int> {
        match self.rows[k].msg_uuid {
            Some(uuid) => if uuid.len() == 0 {
                None
            } else {
                match first_with_uuid(self.evs, uuid) {
                    Some(i) => if !is_taken(owners, i) && agrees(
                        self.rows[k].prompt,
                        self.evs[i],
                    ) {
                        Some(i)
                    } else {
                        None
                    },
                    None => None,
                }
            },
            None => None,
        }
    }

    /// How many seconds lie between row `k` and event `i`.
    pub open spec fn distance(self, k: int, i: int) -> int {
        let d = self.ev_times[i]->0 - (self.row_times[k]->0 - self.offset);
        if d < 0 {
            -d
        } else {
            d
        }
    }

    /// Whether event `i` may be that of row `k` by its time: a free user event of some turn that
    /// is at most half a minute away.
    pub open spec fn in_window(self, k: int, i: int, owners: Seq<OwnerView>) -> bool {
        &&& 0 <= i < self.evs.len()
        &&& self.evs[i].etype == "user"@
        &&& self.evs[i].turn_id is Some
        &&& !is_taken(owners, i)
        &&& self.row_times[k] is Some
        &&& self.ev_times[i] is Some
        &&& self.distance(k, i) <= WINDOW
    }

    /// Whether the text of event `i` starts with the beginning of the prompt of row `k` or holds
    /// it.
    pub open spec fn text_fits(self, k: int, i: int) -> bool {
        let beginning = head(normal(self.rows[k].prompt), 24);
        let txt = normal(content_text(self.evs[i].content));
        beginning.len() > 0 && (starts_with(txt, beginning) || contains(txt, trim(beginning)))
    }

    /// How badly event `i` fits row `k`: the seconds between them, and much more where the text
    /// does not fit.
    pub open spec fn score(self, k: int, i: int) -> int {
        self.distance(k, i) + if self.text_fits(k, i) {
            0
        } else {
            NO_TEXT_PENALTY as int
        }
    }

    /// Whether event `i` fits row `k` best of all events in the window: no other scores less, and
    /// none before it scores the same.
    pub open spec fn fits_best(self, k: int, i: int, owners: Seq<OwnerView>) -> bool {
        &&& self.in_window(k, i, owners)
        &&& forall|j: int| #[trigger]
            self.in_window(k, j, owners) ==> self.score(k, i) < self.score(k, j) || (self.score(
                k,
                i,
            ) == self.score(k, j) && i <= j)
    }

    /// The event that fits row `k` best by time and text.
    pub open spec fn fuzzy_event(self, k: int, owners: Seq<OwnerView>) -> Option<int> {
        if exists|i: int| self.fits_best(k, i, owners) {
            Some(choose|i: int| self.fits_best(k, i, owners))
        } else {
            None
        }
    }

    /// Row `k` as the owner of event `i`.
    pub open spec fn owner(self, k: int, i: int, match_kind: Seq<char>) -> OwnerView {
        OwnerView {
            row_id: self.rows[k].id,
            ev_idx: i,
            match_kind,
            is_system: self.evs[i].origin_kind == Some("task-notification"@),
        }
    }

    /// The owner that row `k` makes where `owners` have their events already. The hook's key comes
    /// first, then the event that an earlier run found, then time and text. A row for which
    /// nothing is found makes none.
    pub open spec fn owner_of_row(self, k: int, owners: Seq<OwnerView>) -> Option<OwnerView> {
        let verdict = self.key_verdict(k, owners);
        match verdict {
            KeyVerdict::Agreed(i) => Some(self.owner(k, i, "exact"@)),
            _ => match self.uuid_event(k, owners) {
                Some(i) => Some(
                    self.owner(
                        k,
                        i,
                        if verdict is Refused {
                            "conflict"@
                        } else {
                            "uuid"@
                        },
                    ),
                ),
                None => match self.fuzzy_event(k, owners) {
                    Some(i) => Some(
                        self.owner(
                            k,
                            i,
                            if verdict is Refused {
                                "conflict"@
                            } else {
                                "fuzzy"@
                            },
                        ),
                    ),
                    None => None,
                },
            },
        }
    }

    /// The owners that the first `n` rows make, in the order of the rows.
    pub open spec fn owners_found(self, n: int) -> Seq<OwnerView>
        decreases n,
    {
        if n <= 0 {
            Seq::empty()
        } else {
            let before = self.owners_found(n - 1);
            match self.owner_of_row(n - 1, before) {
                Some(o) => before.push(o),
                None => before,
            }
        }
    }

    /// Whether `owners` are the owners that the rows make, in the order of their events.
    pub open spec fn is_resolved(self, owners: Seq<OwnerView>) -> bool {
        &&& owners.to_multiset() == self.owners_found(self.rows.len() as int).to_multiset()
        &&& by_event(owners)
    }

    /// The owners that the rows make, in the order of their events.
    pub open spec fn resolution(self) -> Seq<OwnerView> {
        choose|owners: Seq<OwnerView>| self.is_resolved(owners)
    }

    /// Whether the times are those of the events and the rows, and the seconds between any two fit
    /// into 64 bits.
    pub open spec fn times_fit(self) -> bool {
        &&& self.ev_times.len() == self.evs.len()
        &&& self.row_times.len() == self.rows.len()
        &&& forall|k: int|
            0 <= k < self.rows.len() && (#[trigger] self.row_times[k]) is Some ==> i64::MIN
                <= self.row_times[k]->0 - self.offset <= i64::MAX
        &&& forall|k: int, i: int|
            #![trigger self.row_times[k], self.ev_times[i]]
            0 <= k < self.rows.len() && self.row_times[k] is Some && 0 <= i < self.evs.len()
                && self.ev_times[i] is Some ==> self.distance(k, i) <= i64::MAX
    }
}

/// Whether the owners are in the order of their events, with no event twice.
pub open spec fn by_event(owners: Seq<OwnerView>) -> bool {
    forall|a: int, b: int|
        0 <= a < b < owners.len() ==> (#[trigger] owners[a]).ev_idx < (#[trigger] owners[b]).ev_idx
}

// ---------------------------------------------------------------------------------------------
// Laws
// ---------------------------------------------------------------------------------------------

/// The first event of a turn is an event of that turn.
proof fn lemma_first_of_turn(evs: Seq<EvView>, turn: Seq<char>)
    ensures
        first_of_turn(evs, turn) matches Some(i) ==> 0 <= i < evs.len() && evs[i].turn_id == Some(
            turn,
        ),
    decreases evs.len(),
{
    if evs.len() > 0 {
        lemma_first_of_turn(evs.drop_last(), turn);
    }
}

/// The first event with a uuid has that uuid.
proof fn lemma_first_with_uuid(evs: Seq<EvView>, uuid: Seq<char>)
    ensures
        first_with_uuid(evs, uuid) matches Some(i) ==> 0 <= i < evs.len() && evs[i].uuid == uuid,
    decreases evs.len(),
{
    if evs.len() > 0 {
        lemma_first_with_uuid(evs.drop_last(), uuid);
    }
}

/// The events of a turn that look like prompts are events of that turn.
proof fn lemma_prompt_events(evs: Seq<EvView>, turn: Seq<char>)
    ensures
        forall|n: int|
            0 <= n < prompt_events(evs, turn).len() ==> 0 <= #[trigger] prompt_events(evs, turn)[n]
                < evs.len() && evs[prompt_events(evs, turn)[n]].turn_id == Some(turn),
    decreases evs.len(),
{
    if evs.len() > 0 {
        let before = prompt_events(evs.drop_last(), turn);
        lemma_prompt_events(evs.drop_last(), turn);
        assert forall|n: int| 0 <= n < prompt_events(evs, turn).len() implies 0
            <= #[trigger] prompt_events(evs, turn)[n] < evs.len() && evs[prompt_events(
            evs,
            turn,
        )[n]].turn_id == Some(turn) by {
            if n < before.len() {
                assert(prompt_events(evs, turn)[n] == before[n]);
                assert(evs.drop_last()[before[n]] == evs[before[n]]);
            }
        }
    }
}

/// What is known of an owner: it stands for a row, its event was free and, unless it was found by
/// time and text, has a text that agrees; `exact` is said only where the event is of the turn that
/// the hook was told, and `conflict` only where the event that the hook's key points to was taken or
/// disagreed.
pub open spec fn is_sound(session: Session, o: OwnerView, k: int, others: Seq<OwnerView>) -> bool {
    &&& 0 <= k < session.rows.len()
    &&& o.row_id == session.rows[k].id
    &&& 0 <= o.ev_idx < session.evs.len()
    &&& !is_taken(others, o.ev_idx)
    &&& o.is_system == (session.evs[o.ev_idx].origin_kind == Some("task-notification"@))
    &&& o.match_kind == "exact"@ || o.match_kind == "uuid"@ || o.match_kind == "fuzzy"@
        || o.match_kind == "conflict"@
    &&& o.match_kind == "exact"@ ==> session.rows[k].cc_turn_id is Some
        && session.evs[o.ev_idx].turn_id == session.rows[k].cc_turn_id && agrees(
        session.rows[k].prompt,
        session.evs[o.ev_idx],
    )
    &&& o.match_kind == "uuid"@ ==> session.rows[k].msg_uuid == Some(session.evs[o.ev_idx].uuid)
        && agrees(session.rows[k].prompt, session.evs[o.ev_idx])
    &&& o.match_kind == "fuzzy"@ ==> session.in_window(k, o.ev_idx, others)
    &&& o.match_kind == "conflict"@ ==> session.key_verdict(k, others) is Refused && (
    session.uuid_event(k, others) == Some(o.ev_idx) || session.in_window(k, o.ev_idx, others))
}

/// The four ways of finding an event have different names.
proof fn lemma_match_kinds()
    ensures
        "exact"@ != "uuid"@,
        "exact"@ != "fuzzy"@,
        "exact"@ != "conflict"@,
        "uuid"@ != "fuzzy"@,
        "uuid"@ != "conflict"@,
        "fuzzy"@ != "conflict"@,
{
    reveal_strlit("exact");
    reveal_strlit("uuid");
    reveal_strlit("fuzzy");
    reveal_strlit("conflict");
    assert("exact"@[0] == 'e');
    assert("uuid"@[0] == 'u');
    assert("fuzzy"@[0] == 'f');
    assert("conflict"@[0] == 'c');
}

/// An owner that a row makes is sound: in particular a key that disagrees with the text of its
/// event is never followed as `exact`.
pub proof fn owner_of_row_is_sound(session: Session, k: int, others: Seq<OwnerView>)
    requires
        0 <= k < session.rows.len(),
    ensures
        session.owner_of_row(k, others) matches Some(o) ==> is_sound(session, o, k, others),
{
    lemma_match_kinds();
    match session.rows[k].cc_turn_id {
        Some(turn) => {
            lemma_first_of_turn(session.evs, turn);
            lemma_prompt_events(session.evs, turn);
        },
        None => {},
    }
    match session.rows[k].msg_uuid {
        Some(uuid) => {
            lemma_first_with_uuid(session.evs, uuid);
        },
        None => {},
    }
    if exists|i: int| session.fits_best(k, i, others) {
        let i = choose|i: int| session.fits_best(k, i, others);
        assert(session.in_window(k, i, others));
    }
}

/// Each owner found among the first rows was made by one of them.
proof fn lemma_found_by_a_row(session: Session, n: int, a: int) -> (k: int)
    requires
        0 <= n <= session.rows.len(),
        0 <= a < session.owners_found(n).len(),
    ensures
        0 <= k < n,
        session.owner_of_row(k, session.owners_found(k)) == Some(session.owners_found(n)[a]),
    decreases n,
{
    let before = session.owners_found(n - 1);
    if a < before.len() {
        assert(session.owners_found(n)[a] == before[a]);
        lemma_found_by_a_row(session, n - 1, a)
    } else {
        n - 1
    }
}

/// Whether some row made the owner, and it is sound.
pub open spec fn is_made_by_a_row(session: Session, o: OwnerView) -> bool {
    exists|k: int|
        #![trigger session.owners_found(k)]
        session.owner_of_row(k, session.owners_found(k)) == Some(o) && is_sound(
            session,
            o,
            k,
            session.owners_found(k),
        )
}

/// Every owner of a resolved session was made by a row and is sound, and no two of them have the
/// same event: of prompts that share a turn each gets an event of its own.
pub proof fn resolved_owners_are_sound(session: Session, owners: Seq<OwnerView>)
    requires
        session.is_resolved(owners),
    ensures
        forall|a: int|
            0 <= a < owners.len() ==> is_made_by_a_row(session, #[trigger] owners[a]),
        forall|a: int, b: int|
            0 <= a < owners.len() && 0 <= b < owners.len() && a != b ==> (
            #[trigger] owners[a]).ev_idx != (#[trigger] owners[b]).ev_idx,
        owners.len() <= session.rows.len(),
{
    let n = session.rows.len() as int;
    let found = session.owners_found(n);
    assert forall|a: int| 0 <= a < owners.len() implies is_made_by_a_row(
        session,
        #[trigger] owners[a],
    ) by {
        assert(owners.contains(owners[a]));
        vstd::seq_lib::to_multiset_contains(owners, owners[a]);
        vstd::seq_lib::to_multiset_contains(found, owners[a]);
        let b = choose|b: int| 0 <= b < found.len() && found[b] == owners[a];
        let k = lemma_found_by_a_row(session, n, b);
        owner_of_row_is_sound(session, k, session.owners_found(k));
        assert(is_sound(session, owners[a], k, session.owners_found(k)));
    }
    lemma_at_most_one_owner_each(session, n);
    vstd::seq_lib::to_multiset_len(owners);
    vstd::seq_lib::to_multiset_len(found);
}

/// Each row owns at most one event: where the rows have ids of their own, so have the owners.
pub proof fn each_row_owns_one_event(session: Session, owners: Seq<OwnerView>)
    requires
        session.is_resolved(owners),
        forall|i: int, j: int|
            0 <= i < j < session.rows.len() ==> (#[trigger] session.rows[i]).id != (
            #[trigger] session.rows[j]).id,
    ensures
        forall|a: int, b: int|
            0 <= a < b < owners.len() ==> (#[trigger] owners[a]).row_id != (
            #[trigger] owners[b]).row_id,
{
    resolved_owners_are_sound(session, owners);
    assert forall|a: int, b: int| 0 <= a < b < owners.len() implies (#[trigger] owners[a]).row_id
        != (#[trigger] owners[b]).row_id by {
        assert(is_made_by_a_row(session, owners[a]));
        assert(is_made_by_a_row(session, owners[b]));
        let i = choose|k: int|
            #![trigger session.owners_found(k)]
            session.owner_of_row(k, session.owners_found(k)) == Some(owners[a]) && is_sound(
                session,
                owners[a],
                k,
                session.owners_found(k),
            );
        let j = choose|k: int|
            #![trigger session.owners_found(k)]
            session.owner_of_row(k, session.owners_found(k)) == Some(owners[b]) && is_sound(
                session,
                owners[b],
                k,
                session.owners_found(k),
            );
        if i == j {
            assert(owners[a].ev_idx < owners[b].ev_idx);
        } else if i < j {
            assert(session.rows[i].id != session.rows[j].id);
        } else {
            assert(session.rows[j].id != session.rows[i].id);
        }
    }
}

/// A row makes at most one owner.
proof fn lemma_at_most_one_owner_each(session: Session, n: int)
    requires
        0 <= n,
    ensures
        session.owners_found(n).len() <= n,
    decreases n,
{
    if n > 0 {
        lemma_at_most_one_owner_each(session, n - 1);
    }
}

/// There is one order of the owners of a session: two lists that resolve it are the same list.
pub proof fn resolution_is_unique(session: Session, a: Seq<OwnerView>, b: Seq<OwnerView>)
    requires
        session.is_resolved(a),
        session.is_resolved(b),
    ensures
        a == b,
{
    lemma_same_order(a, b);
}

/// Owners in the order of their events are in the only such order.
proof fn lemma_same_order(a: Seq<OwnerView>, b: Seq<OwnerView>)
    requires
        by_event(a),
        by_event(b),
        a.to_multiset() == b.to_multiset(),
    ensures
        a == b,
    decreases a.len(),
{
    vstd::seq_lib::to_multiset_len(a);
    vstd::seq_lib::to_multiset_len(b);
    if a.len() == 0 {
        assert(a =~= b);
    } else {
        let n = a.len() - 1;
        assert(a.contains(a[n]));
        assert(b.contains(b[n]));
        vstd::seq_lib::to_multiset_contains(a, a[n]);
        vstd::seq_lib::to_multiset_contains(b, a[n]);
        vstd::seq_lib::to_multiset_contains(a, b[n]);
        vstd::seq_lib::to_multiset_contains(b, b[n]);
        let p = choose|p: int| 0 <= p < b.len() && b[p] == a[n];
        let q = choose|q: int| 0 <= q < a.len() && a[q] == b[n];
        if p < n {
            assert(b[p].ev_idx < b[n].ev_idx);
            if q < n {
                assert(a[q].ev_idx < a[n].ev_idx);
            }
            assert(false);
        }
        assert(a[n] == b[n]);
        let fa = a.drop_last();
        let fb = b.drop_last();
        assert(a.remove(n) =~= fa);
        assert(b.remove(n) =~= fb);
        vstd::seq_lib::to_multiset_remove(a, n);
        vstd::seq_lib::to_multiset_remove(b, n);
        assert forall|i: int, j: int| 0 <= i < j < fa.len() implies (#[trigger] fa[i]).ev_idx < (
        #[trigger] fa[j]).ev_idx by {
            assert(a[i].ev_idx < a[j].ev_idx);
        }
        assert forall|i: int, j: int| 0 <= i < j < fb.len() implies (#[trigger] fb[i]).ev_idx < (
        #[trigger] fb[j]).ev_idx by {
            assert(b[i].ev_idx < b[j].ev_idx);
        }
        lemma_same_order(fa, fb);
        assert(a =~= fa.push(a[n]));
        assert(b =~= fb.push(b[n]));
    }
}

// ---------------------------------------------------------------------------------------------
// Finding the owners
// ---------------------------------------------------------------------------------------------

/// Whether the text of a prompt and that of an event support each other.
///
/// The hook reads its key from a variable that changes under it. If the key were off by one turn,
/// following it blindly would attach the response of the wrong turn with full confidence. This
/// check makes that impossible.
pub fn text_agrees(prompt: &str, ev: &Ev) -> (r: bool)
    ensures
        r == agrees(prompt@, ev@),
{
    let p = norm(prompt);
    let enough = chars_of(p.as_str()).len() >= 4;
    if !enough {
        return true;
    }
    let needle = head_of(p.as_str(), 16);
    let hay = norm(text_of_content(&ev.content).as_str());
    if hay.as_str().is_empty() {
        return true;
    }
    has_text(hay.as_str(), needle.as_str()) || has_text(
        p.as_str(),
        head_of(hay.as_str(), 16).as_str(),
    )
}

/// The place that a found index stands for.
pub open spec fn place(i: Option<usize>) -> Option<int> {
    match i {
        Some(n) => Some(n as int),
        None => None,
    }
}

/// How many of the first `k` rows were logged in the given turn.
fn count_rows_of_turn(rows: &[Row], k: usize, turn: &str) -> (r: usize)
    requires
        k <= rows@.len(),
    ensures
        r == rows_of_turn(rows_view(rows@).take(k as int), turn@),
{
    let ghost all = rows_view(rows@);
    let mut n: usize = 0;
    let mut i: usize = 0;
    while i < k
        invariant
            i <= k <= rows@.len(),
            n <= i,
            all == rows_view(rows@),
            n == rows_of_turn(all.take(i as int), turn@),
        decreases k - i,
    {
        proof {
            assert(all.take(i + 1).drop_last() =~= all.take(i as int));
            assert(all.take(i + 1).last() == rows@[i as int]@);
        }
        if is_text(&rows[i].cc_turn_id, turn) {
            n = n + 1;
        }
        i = i + 1;
    }
    n
}

/// The event that the key points to for row `k`.
fn find_key_event(evs: &[Ev], rows: &[Row], k: usize, turn: &str) -> (r: Option<usize>)
    requires
        k < rows@.len(),
    ensures
        forall|s: Session|
            s.evs == evs_view(evs@) && s.rows == rows_view(rows@) ==> place(r)
                == #[trigger] s.key_event(k as int, turn@),
        r matches Some(i) ==> i < evs@.len(),
{
    let n = count_rows_of_turn(rows, k, turn);
    let ghost all = evs_view(evs@);
    let mut nth: Option<usize> = None;
    let mut first: Option<usize> = None;
    let mut seen: usize = 0;
    let mut i: usize = 0;
    while i < evs.len()
        invariant
            i <= evs@.len(),
            seen <= i,
            all == evs_view(evs@),
            seen == prompt_events(all.take(i as int), turn@).len(),
            place(nth) == if n < seen {
                Some(prompt_events(all.take(i as int), turn@)[n as int])
            } else {
                None
            },
            place(first) == first_of_turn(all.take(i as int), turn@),
            nth matches Some(x) ==> x < i,
            first matches Some(x) ==> x < i,
        decreases evs@.len() - i,
    {
        proof {
            assert(all.take(i + 1).drop_last() =~= all.take(i as int));
            assert(all.take(i + 1).last() == evs@[i as int]@);
        }
        if is_text(&evs[i].turn_id, turn) {
            if first.is_none() {
                first = Some(i);
            }
            if is_prompt_like(&evs[i]) {
                if seen == n {
                    nth = Some(i);
                }
                seen = seen + 1;
            }
        }
        i = i + 1;
    }
    proof {
        assert(all.take(all.len() as int) =~= all);
    }
    match nth {
        Some(x) => Some(x),
        None => first,
    }
}

/// The first event with the given uuid.
fn find_uuid(evs: &[Ev], uuid: &str) -> (r: Option<usize>)
    ensures
        place(r) == first_with_uuid(evs_view(evs@), uuid@),
        r matches Some(i) ==> i < evs@.len(),
{
    let ghost all = evs_view(evs@);
    let mut first: Option<usize> = None;
    let mut i: usize = 0;
    while i < evs.len()
        invariant
            i <= evs@.len(),
            all == evs_view(evs@),
            place(first) == first_with_uuid(all.take(i as int), uuid@),
            first matches Some(x) ==> x < i,
        decreases evs@.len() - i,
    {
        proof {
            assert(all.take(i + 1).drop_last() =~= all.take(i as int));
            assert(all.take(i + 1).last() == evs@[i as int]@);
        }
        if first.is_none() && text_eq(evs[i].uuid.as_str(), uuid) {
            first = Some(i);
        }
        i = i + 1;
    }
    proof {
        assert(all.take(all.len() as int) =~= all);
    }
    first
}

/// The session that the arguments of the functions below describe.
pub open spec fn session_of(
    evs: Seq<Ev>,
    rows: Seq<Row>,
    offset: i64,
    ev_times: Seq<Option<i64>>,
    row_times: Seq<Option<i64>>,
) -> Session {
    Session {
        evs: evs_view(evs),
        rows: rows_view(rows),
        offset: offset as int,
        ev_times,
        row_times,
    }
}

/// No two events fit a row best.
proof fn lemma_one_fits_best(s: Session, k: int, a: int, b: int, owners: Seq<OwnerView>)
    requires
        s.fits_best(k, a, owners),
        s.fits_best(k, b, owners),
    ensures
        a == b,
{
    assert(s.in_window(k, a, owners));
    assert(s.in_window(k, b, owners));
}

/// The event that fits row `k` best by time and text. `taken` marks the events that `owners` have.
fn find_by_time(
    evs: &[Ev],
    rows: &[Row],
    k: usize,
    offset: i64,
    ev_times: &Vec<Option<i64>>,
    row_times: &Vec<Option<i64>>,
    taken: &Vec<bool>,
    Ghost(owners): Ghost<Seq<OwnerView>>,
) -> (r: Option<usize>)
    requires
        k < rows@.len(),
        session_of(evs@, rows@, offset, ev_times@, row_times@).times_fit(),
        taken@.len() == evs@.len(),
        forall|i: int| 0 <= i < evs@.len() ==> #[trigger] taken@[i] == is_taken(owners, i),
    ensures
        place(r) == session_of(evs@, rows@, offset, ev_times@, row_times@).fuzzy_event(
            k as int,
            owners,
        ),
        r matches Some(i) ==> i < evs@.len() && !taken@[i as int],
{
    let ghost s = session_of(evs@, rows@, offset, ev_times@, row_times@);
    let target: i64 = match row_times[k] {
        Some(t) => t - offset,
        None => {
            proof {
                assert forall|i: int| !s.fits_best(k as int, i, owners) by {}
            }
            return None;
        },
    };
    let beginning = head_of(norm(rows[k].prompt.as_str()).as_str(), 24);
    let inner = trimmed(beginning.as_str());
    let mut best: Option<(i64, usize)> = None;
    let mut i: usize = 0;
    while i < evs.len()
        invariant
            s == session_of(evs@, rows@, offset, ev_times@, row_times@),
            s.times_fit(),
            k < rows@.len(),
            taken@.len() == evs@.len(),
            forall|i: int| 0 <= i < evs@.len() ==> #[trigger] taken@[i] == is_taken(owners, i),
            s.row_times[k as int] is Some,
            target == s.row_times[k as int]->0 - offset,
            beginning@ == head(normal(s.rows[k as int].prompt), 24),
            inner@ == trim(beginning@),
            i <= evs@.len(),
            match best {
                None => forall|j: int| 0 <= j < i ==> !#[trigger] s.in_window(k as int, j, owners),
                Some((score, b)) => {
                    &&& b < i
                    &&& s.in_window(k as int, b as int, owners)
                    &&& score == s.score(k as int, b as int)
                    &&& forall|j: int|
                        0 <= j < i && #[trigger] s.in_window(k as int, j, owners) ==> score
                            < s.score(k as int, j) || (score == s.score(k as int, j) && b <= j)
                },
            },
        decreases evs@.len() - i,
    {
        let ghost w = s.in_window(k as int, i as int, owners);
        proof {
            assert(s.evs[i as int] == evs@[i as int]@);
            assert(taken@[i as int] == is_taken(owners, i as int));
        }
        if text_eq(evs[i].etype.as_str(), "user") && evs[i].turn_id.is_some() && !taken[i] {
            match ev_times[i] {
                Some(et) => {
                    proof {
                        assert(s.row_times[k as int] is Some && s.ev_times[i as int] is Some);
                        assert(s.distance(k as int, i as int) <= i64::MAX);
                    }
                    let d: i64 = if et >= target {
                        et - target
                    } else {
                        target - et
                    };
                    if d <= WINDOW {
                        let txt = norm(text_of_content(&evs[i].content).as_str());
                        let textual = !beginning.as_str().is_empty() && (begins_with(
                            txt.as_str(),
                            beginning.as_str(),
                        ) || has_text(txt.as_str(), inner.as_str()));
                        let score: i64 = if textual {
                            d
                        } else {
                            d + NO_TEXT_PENALTY
                        };
                        proof {
                            assert(textual == s.text_fits(k as int, i as int));
                            assert(score == s.score(k as int, i as int));
                            assert(w);
                        }
                        let better = match best {
                            Some((b, _)) => score < b,
                            None => true,
                        };
                        if better {
                            best = Some((score, i));
                        }
                    }
                },
                None => {},
            }
        }
        i = i + 1;
    }
    match best {
        Some((_, b)) => {
            proof {
                assert forall|j: int| #[trigger] s.in_window(k as int, j, owners) implies s.score(
                    k as int,
                    b as int,
                ) < s.score(k as int, j) || (s.score(k as int, b as int) == s.score(k as int, j) && b
                    <= j) by {
                    assert(0 <= j < evs@.len());
                }
                assert(s.fits_best(k as int, b as int, owners));
                let c = choose|i: int| s.fits_best(k as int, i, owners);
                lemma_one_fits_best(s, k as int, b as int, c, owners);
                assert(taken@[b as int] == is_taken(owners, b as int));
            }
            Some(b)
        },
        None => {
            proof {
                assert forall|i: int| !s.fits_best(k as int, i, owners) by {
                    if s.fits_best(k as int, i, owners) {
                        assert(s.in_window(k as int, i, owners));
                    }
                }
            }
            None
        },
    }
}

/// The owner that row `k` makes. `taken` marks the events that `owners` have.
fn find_owner(
    evs: &[Ev],
    rows: &[Row],
    k: usize,
    offset: i64,
    ev_times: &Vec<Option<i64>>,
    row_times: &Vec<Option<i64>>,
    taken: &Vec<bool>,
    Ghost(owners): Ghost<Seq<OwnerView>>,
) -> (r: Option<Owner>)
    requires
        k < rows@.len(),
        session_of(evs@, rows@, offset, ev_times@, row_times@).times_fit(),
        taken@.len() == evs@.len(),
        forall|i: int| 0 <= i < evs@.len() ==> #[trigger] taken@[i] == is_taken(owners, i),
    ensures
        match r {
            Some(o) => session_of(evs@, rows@, offset, ev_times@, row_times@).owner_of_row(
                k as int,
                owners,
            ) == Some(o@) && o.ev_idx < evs@.len() && !taken@[o.ev_idx as int],
            None => session_of(evs@, rows@, offset, ev_times@, row_times@).owner_of_row(
                k as int,
                owners,
            ) is None,
        },
{
    let ghost s = session_of(evs@, rows@, offset, ev_times@, row_times@);
    let row = &rows[k];
    proof {
        assert(s.rows[k as int] == row@);
    }
    let mut hit: Option<(usize, &'static str)> = None;
    let mut conflicted = false;

    // First the key that the hook was told.
    match &row.cc_turn_id {
        Some(turn) => {
            if !turn.as_str().is_empty() {
                match find_key_event(evs, rows, k, turn.as_str()) {
                    Some(i) => {
                        proof {
                            assert(s.key_event(k as int, turn@) == Some(i as int));
                            assert(taken@[i as int] == is_taken(owners, i as int));
                            assert(s.evs[i as int] == evs@[i as int]@);
                        }
                        if !taken[i] && text_agrees(row.prompt.as_str(), &evs[i]) {
                            hit = Some((i, "exact"));
                        } else {
                            conflicted = true;
                        }
                    },
                    None => {
                        proof {
                            assert(s.key_event(k as int, turn@) is None);
                        }
                    },
                }
            }
        },
        None => {},
    }
    proof {
        let verdict = s.key_verdict(k as int, owners);
        assert(conflicted == (verdict is Refused));
        assert(hit is Some == (verdict is Agreed));
        assert(hit matches Some(h) ==> verdict == KeyVerdict::Agreed(h.0 as int) && h.1@ == "exact"@
            && h.0 < evs@.len() && !taken@[h.0 as int]);
    }

    // Then the event that an earlier run found. It was a guess, so its text is checked too.
    if hit.is_none() {
        match &row.msg_uuid {
            Some(uuid) => {
                if !uuid.as_str().is_empty() {
                    match find_uuid(evs, uuid.as_str()) {
                        Some(i) => {
                            proof {
                                assert(taken@[i as int] == is_taken(owners, i as int));
                                assert(s.evs[i as int] == evs@[i as int]@);
                            }
                            if !taken[i] && text_agrees(row.prompt.as_str(), &evs[i]) {
                                hit = Some((i, if conflicted { "conflict" } else { "uuid" }));
                            }
                        },
                        None => {},
                    }
                }
            },
            None => {},
        }
        proof {
            assert(hit is Some == s.uuid_event(k as int, owners) is Some);
            assert(hit matches Some(h) ==> s.uuid_event(k as int, owners) == Some(h.0 as int));
        }
        // Last of all time and text.
        if hit.is_none() {
            match find_by_time(
                evs,
                rows,
                k,
                offset,
                ev_times,
                row_times,
                taken,
                Ghost(owners),
            ) {
                Some(i) => {
                    hit = Some((i, if conflicted { "conflict" } else { "fuzzy" }));
                },
                None => {},
            }
        }
    }
    match hit {
        Some((ev_idx, match_kind)) => {
            proof {
                assert(s.evs[ev_idx as int] == evs@[ev_idx as int]@);
            }
            let is_system = is_text(&evs[ev_idx].origin_kind, "task-notification");
            Some(Owner { row_id: row.id, ev_idx, match_kind, is_system })
        },
        None => None,
    }
}

/// Puts an owner among others that are in the order of their events.
fn insert_by_event(owners: &mut Vec<Owner>, o: Owner)
    requires
        by_event(owners_view(old(owners)@)),
        forall|a: int| 0 <= a < old(owners)@.len() ==> (#[trigger] old(owners)@[a]).ev_idx != o.ev_idx,
    ensures
        by_event(owners_view(final(owners)@)),
        owners_view(final(owners)@).to_multiset() == owners_view(old(owners)@).to_multiset().insert(
            o@,
        ),
        forall|a: int|
            0 <= a < final(owners)@.len() ==> (#[trigger] final(owners)@[a]).ev_idx == o.ev_idx
                || exists|b: int|
                0 <= b < old(owners)@.len() && (#[trigger] old(owners)@[b]).ev_idx
                    == final(owners)@[a].ev_idx,
{
    let ghost before = owners_view(owners@);
    let ghost start = owners@;
    let mut p: usize = owners.len();
    while p > 0 && owners[p - 1].ev_idx > o.ev_idx
        invariant
            p <= owners@.len(),
            owners@ == start,
            forall|a: int| p <= a < owners@.len() ==> (#[trigger] owners@[a]).ev_idx > o.ev_idx,
        decreases p,
    {
        p = p - 1;
    }
    let ghost ov = o@;
    let ghost at = o.ev_idx;
    owners.insert(p, o);
    proof {
        let after = owners_view(owners@);
        assert(after =~= before.insert(p as int, ov));
        vstd::seq_lib::to_multiset_insert(before, p as int, ov);
        assert forall|a: int, b: int| 0 <= a < b < after.len() implies (#[trigger] after[a]).ev_idx < (
        #[trigger] after[b]).ev_idx by {
            assert(forall|x: int| 0 <= x < before.len() ==> #[trigger] before[x] == start[x]@);
            if p > 0 {
                assert(start[p - 1].ev_idx < at);
                assert(before[p - 1] == start[p - 1]@);
            }
            let a0 = if a < p { a } else { a - 1 };
            let b0 = if b < p { b } else { b - 1 };
            if a != p {
                assert(after[a] == before[a0]);
            }
            if b != p {
                assert(after[b] == before[b0]);
            }
            if a == p {
                assert(start[b0].ev_idx > at);
            } else if b == p {
                if a0 < p - 1 {
                    assert(before[a0].ev_idx < before[p - 1].ev_idx);
                }
            }
        }
        assert forall|a: int| 0 <= a < owners@.len() implies (#[trigger] owners@[a]).ev_idx == at
            || exists|b: int|
            0 <= b < start.len() && (#[trigger] start[b]).ev_idx == owners@[a].ev_idx by {
            if a < p {
                assert(owners@[a] == start[a]);
            } else if a > p {
                assert(owners@[a] == start[a - 1]);
            }
        }
    }
}

/// Finds the event of each row. `ev_times` and `row_times` are the times of the events and the
/// rows, where they have one; `offset` is what local time is ahead by, in seconds. A row for which
/// nothing is found makes no owner: it is left as it is.
pub fn resolve_owners_at(
    evs: &[Ev],
    rows: &[Row],
    offset: i64,
    ev_times: &Vec<Option<i64>>,
    row_times: &Vec<Option<i64>>,
) -> (r: Vec<Owner>)
    requires
        session_of(evs@, rows@, offset, ev_times@, row_times@).times_fit(),
    ensures
        session_of(evs@, rows@, offset, ev_times@, row_times@).is_resolved(owners_view(r@)),
        r@.len() <= rows@.len(),
        forall|a: int| 0 <= a < r@.len() ==> (#[trigger] r@[a]).ev_idx < evs@.len(),
{
    let ghost s = session_of(evs@, rows@, offset, ev_times@, row_times@);
    let mut owners: Vec<Owner> = Vec::new();
    let mut taken: Vec<bool> = Vec::new();
    let mut i: usize = 0;
    while i < evs.len()
        invariant
            i <= evs@.len(),
            taken@.len() == i,
            forall|j: int| 0 <= j < i ==> !#[trigger] taken@[j],
        decreases evs@.len() - i,
    {
        taken.push(false);
        i = i + 1;
    }
    let mut k: usize = 0;
    proof {
        assert(owners_view(owners@) =~= s.owners_found(0));
    }
    while k < rows.len()
        invariant
            s == session_of(evs@, rows@, offset, ev_times@, row_times@),
            s.times_fit(),
            k <= rows@.len(),
            taken@.len() == evs@.len(),
            forall|i: int|
                0 <= i < evs@.len() ==> #[trigger] taken@[i] == is_taken(
                    s.owners_found(k as int),
                    i,
                ),
            owners@.len() <= k,
            owners_view(owners@).to_multiset() == s.owners_found(k as int).to_multiset(),
            by_event(owners_view(owners@)),
            forall|a: int|
                0 <= a < owners@.len() ==> (#[trigger] owners@[a]).ev_idx < evs@.len()
                    && taken@[owners@[a].ev_idx as int],
        decreases rows@.len() - k,
    {
        let ghost found = s.owners_found(k as int);
        match find_owner(evs, rows, k, offset, ev_times, row_times, &taken, Ghost(found)) {
            Some(o) => {
                let ghost before = owners@;
                let ghost was = taken@;
                let at: usize = o.ev_idx;
                let ghost ov = o@;
                insert_by_event(&mut owners, o);
                taken.set(at, true);
                proof {
                    let next = s.owners_found(k + 1);
                    assert(next == found.push(ov));
                    vstd::seq_lib::to_multiset_build(found, ov);
                    vstd::seq_lib::to_multiset_len(owners_view(owners@));
                    vstd::seq_lib::to_multiset_len(owners_view(before));
                    assert forall|i: int| 0 <= i < evs@.len() implies #[trigger] taken@[i]
                        == is_taken(next, i) by {
                        assert(was[i] == is_taken(found, i));
                        if is_taken(found, i) {
                            let x = choose|x: int|
                                0 <= x < found.len() && (#[trigger] found[x]).ev_idx == i;
                            assert(next[x] == found[x]);
                        }
                        if i == at {
                            assert(next[found.len() as int] == ov);
                        }
                        if is_taken(next, i) && i != at {
                            let x = choose|x: int|
                                0 <= x < next.len() && (#[trigger] next[x]).ev_idx == i;
                            assert(found[x] == next[x]);
                        }
                    }
                }
            },
            None => {
                proof {
                    assert(s.owners_found(k + 1) == found);
                }
            },
        }
        k = k + 1;
    }
    owners
}

/// A way of reading times: the time that a text writes down, where it writes down one.
pub open spec fn follows<F: Fn(&str) -> Option<i64>>(
    f: F,
    time: spec_fn(Seq<char>) -> Option<i64>,
) -> bool {
    &&& forall|t: &str| #[trigger] call_requires(f, (t,))
    &&& forall|t: &str, r: Option<i64>| #[trigger] call_ensures(f, (t,), r) ==> r == time(t@)
}

/// The session with the times that the texts of its events and rows write down.
pub open spec fn session_by(
    evs: Seq<EvView>,
    rows: Seq<RowView>,
    offset: i64,
    time: spec_fn(Seq<char>) -> Option<i64>,
) -> Session {
    Session {
        evs,
        rows,
        offset: offset as int,
        ev_times: evs.map_values(
            |e: EvView|
                match e.ts {
                    Some(ts) => time(ts),
                    None => None,
                },
        ),
        row_times: rows.map_values(|r: RowView| time(r.created_at)),
    }
}

/// Finds the event of each row. `parse_epoch` reads the times of events and rows; `offset` is what
/// the local time of the rows is ahead by, in seconds. A row for which nothing is found makes no
/// owner: it is left as it is.
pub fn resolve_owners<F: Fn(&str) -> Option<i64>>(
    evs: &[Ev],
    rows: &[Row],
    offset: i64,
    parse_epoch: F,
) -> (r: Vec<Owner>)
    requires
        exists|time: spec_fn(Seq<char>) -> Option<i64>| #[trigger]
            follows(parse_epoch, time) && session_by(
                evs_view(evs@),
                rows_view(rows@),
                offset,
                time,
            ).times_fit(),
    ensures
        forall|time: spec_fn(Seq<char>) -> Option<i64>| #[trigger]
            follows(parse_epoch, time) ==> session_by(
                evs_view(evs@),
                rows_view(rows@),
                offset,
                time,
            ).is_resolved(owners_view(r@)),
        r@.len() <= rows@.len(),
        forall|a: int| 0 <= a < r@.len() ==> (#[trigger] r@[a]).ev_idx < evs@.len(),
{
    let ghost eview = evs_view(evs@);
    let ghost rview = rows_view(rows@);
    let mut ev_times: Vec<Option<i64>> = Vec::new();
    let mut i: usize = 0;
    while i < evs.len()
        invariant
            i <= evs@.len(),
            eview == evs_view(evs@),
            ev_times@.len() == i,
            forall|t: &str| #[trigger] call_requires(parse_epoch, (t,)),
            forall|time: spec_fn(Seq<char>) -> Option<i64>| #[trigger]
                follows(parse_epoch, time) ==> forall|j: int|
                    0 <= j < i ==> #[trigger] ev_times@[j] == session_by(
                        eview,
                        rview,
                        offset,
                        time,
                    ).ev_times[j],
        decreases evs@.len() - i,
    {
        let at = match &evs[i].ts {
            Some(ts) => parse_epoch(ts.as_str()),
            None => None,
        };
        let ghost before = ev_times@;
        ev_times.push(at);
        proof {
            assert(eview[i as int] == evs@[i as int]@);
            assert forall|time: spec_fn(Seq<char>) -> Option<i64>| #[trigger]
                follows(parse_epoch, time) implies forall|j: int|
                0 <= j < i + 1 ==> #[trigger] ev_times@[j] == session_by(
                    eview,
                    rview,
                    offset,
                    time,
                ).ev_times[j] by {
                assert forall|j: int| 0 <= j < i + 1 implies #[trigger] ev_times@[j] == session_by(
                    eview,
                    rview,
                    offset,
                    time,
                ).ev_times[j] by {
                    if j < i {
                        assert(ev_times@[j] == before[j]);
                    }
                }
            }
        }
        i = i + 1;
    }
    let mut row_times: Vec<Option<i64>> = Vec::new();
    let mut k: usize = 0;
    while k < rows.len()
        invariant
            k <= rows@.len(),
            rview == rows_view(rows@),
            row_times@.len() == k,
            forall|t: &str| #[trigger] call_requires(parse_epoch, (t,)),
            forall|time: spec_fn(Seq<char>) -> Option<i64>| #[trigger]
                follows(parse_epoch, time) ==> forall|j: int|
                    0 <= j < k ==> #[trigger] row_times@[j] == session_by(
                        eview,
                        rview,
                        offset,
                        time,
                    ).row_times[j],
        decreases rows@.len() - k,
    {
        let at = parse_epoch(rows[k].created_at.as_str());
        let ghost before = row_times@;
        row_times.push(at);
        proof {
            assert(rview[k as int] == rows@[k as int]@);
            assert forall|time: spec_fn(Seq<char>) -> Option<i64>| #[trigger]
                follows(parse_epoch, time) implies forall|j: int|
                0 <= j < k + 1 ==> #[trigger] row_times@[j] == session_by(
                    eview,
                    rview,
                    offset,
                    time,
                ).row_times[j] by {
                assert forall|j: int| 0 <= j < k + 1 implies #[trigger] row_times@[j] == session_by(
                    eview,
                    rview,
                    offset,
                    time,
                ).row_times[j] by {
                    if j < k {
                        assert(row_times@[j] == before[j]);
                    }
                }
            }
        }
        k = k + 1;
    }
    proof {
        assert forall|time: spec_fn(Seq<char>) -> Option<i64>| #[trigger]
            follows(parse_epoch, time) implies session_by(eview, rview, offset, time) == session_of(
            evs@,
            rows@,
            offset,
            ev_times@,
            row_times@,
        ) by {
            let s = session_by(eview, rview, offset, time);
            assert(s.ev_times =~= ev_times@);
            assert(s.row_times =~= row_times@);
        }
    }
    resolve_owners_at(evs, rows, offset, &ev_times, &row_times)
}

} // verus!
