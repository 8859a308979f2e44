//! Snapshots of the database: how they are named, which of them are pruned, and when the journal
//! mode is switched.

use vstd::prelude::*;
use vstd::relations::{sorted_by, total_ordering};

use crate::clock::{digits_value, is_digit, lemma_digits_in_order};
use crate::text::{
    chars_of, comes_before, lemma_precedes_concat, own, precedes, precedes_is_total,
    precedes_is_transitive, texts,
};

verus! {

/// How many snapshots are kept of those that were taken by the program.
pub const KEEP: usize = 10;

// ---------------------------------------------------------------------------------------------
// Names
// ---------------------------------------------------------------------------------------------

/// Whether a text is a time in the form `YYYYmmdd-HHMMSS`.
pub open spec fn is_stamp(s: Seq<char>) -> bool {
    &&& s.len() == 15
    &&& s[8] == '-'
    &&& forall|i: int| 0 <= i < 15 && i != 8 ==> is_digit(#[trigger] s[i])
}

/// The name of the snapshot that is taken at a time.
pub open spec fn snapshot_name(stamp: Seq<char>) -> Seq<char> {
    "prompts-"@ + stamp + ".db"@
}

/// Whether a file name is that of a snapshot that was taken by the program, not by hand.
pub open spec fn is_auto(name: Seq<char>) -> bool {
    exists|stamp: Seq<char>| #[trigger] is_stamp(stamp) && name == snapshot_name(stamp)
}

/// The name of the snapshot that is taken at a time.
pub fn name_snapshot(stamp: &str) -> (r: String)
    ensures
        r@ == snapshot_name(stamp@),
{
    let mut name = own("prompts-");
    name.append(stamp);
    name.append(".db");
    name
}

/// Whether a file name is that of a snapshot that was taken by the program, not by hand.
pub fn is_auto_snapshot(name: &str) -> (r: bool)
    ensures
        r == is_auto(name@),
{
    let chars = chars_of(name);
    proof {
        reveal_strlit("prompts-");
        reveal_strlit(".db");
    }
    let ghost inner = name@.subrange(8, 23);
    if chars.len() != 26 {
        proof {
            assert(!is_auto(name@));
        }
        return false;
    }
    let mut i: usize = 0;
    let mut digits = true;
    while i < 15
        invariant
            chars@ == name@,
            chars@.len() == 26,
            i <= 15,
            digits == forall|k: int| 0 <= k < i && k != 8 ==> is_digit(#[trigger] name@[8 + k]),
        decreases 15 - i,
    {
        let u: u32 = chars[8 + i] as u32;
        if i != 8 && (u < 48 || u > 57) {
            digits = false;
        }
        proof {
            assert(u == name@[8 + i as int] as u32);
        }
        i = i + 1;
    }
    let r = digits && chars[16] == '-' && chars[0] == 'p' && chars[1] == 'r' && chars[2] == 'o'
        && chars[3] == 'm' && chars[4] == 'p' && chars[5] == 't' && chars[6] == 's' && chars[7]
        == '-' && chars[23] == '.' && chars[24] == 'd' && chars[25] == 'b';
    proof {
        if r {
            assert forall|k: int| 0 <= k < 15 && k != 8 implies is_digit(#[trigger] inner[k]) by {
                assert(inner[k] == name@[8 + k]);
            }
            assert(is_stamp(inner));
            assert(name@ =~= snapshot_name(inner));
        } else if is_auto(name@) {
            let stamp = choose|stamp: Seq<char>|
                #[trigger] is_stamp(stamp) && name@ == snapshot_name(stamp);
            assert forall|k: int| 0 <= k < 15 && k != 8 implies is_digit(#[trigger] name@[8 + k]) by {
                assert(name@[8 + k] == stamp[k]);
            }
            assert(name@[16] == stamp[8]);
        }
    }
    r
}

// ---------------------------------------------------------------------------------------------
// Time order
// ---------------------------------------------------------------------------------------------

/// The time that a stamp stands for, as the number `YYYYmmddHHMMSS`.
pub open spec fn moment(stamp: Seq<char>) -> int {
    digits_value(stamp.subrange(0, 8)) * 1_000_000 + digits_value(stamp.subrange(9, 15))
}

/// A number of six digits is below a million.
proof fn lemma_six_digits(s: Seq<char>)
    requires
        s.len() == 6,
        forall|i: int| 0 <= i < 6 ==> is_digit(#[trigger] s[i]),
    ensures
        0 <= digits_value(s) < 1_000_000,
{
    let s5 = s.drop_last();
    let s4 = s5.drop_last();
    let s3 = s4.drop_last();
    let s2 = s3.drop_last();
    let s1 = s2.drop_last();
    assert(is_digit(s[0]) && is_digit(s[1]) && is_digit(s[2]));
    assert(is_digit(s[3]) && is_digit(s[4]) && is_digit(s[5]));
    assert(digits_value(s1.drop_last()) == 0);
    assert(0 <= digits_value(s1) < 10);
    assert(0 <= digits_value(s2) < 100);
    assert(0 <= digits_value(s3) < 1_000);
    assert(0 <= digits_value(s4) < 10_000);
    assert(0 <= digits_value(s5) < 100_000);
}

/// Snapshots stand in order of their names as they stand in time, so the first by name is the
/// oldest.
pub proof fn names_are_in_time_order(a: Seq<char>, b: Seq<char>)
    requires
        is_stamp(a),
        is_stamp(b),
    ensures
        precedes(snapshot_name(a), snapshot_name(b)) <==> moment(a) < moment(b),
        snapshot_name(a) == snapshot_name(b) <==> moment(a) == moment(b),
{
    let (ad, at) = (a.subrange(0, 8), a.subrange(9, 15));
    let (bd, bt) = (b.subrange(0, 8), b.subrange(9, 15));
    let dash = seq!['-'];
    let start = "prompts-"@;
    let end = ".db"@;
    assert(a =~= ad + (dash + at));
    assert(b =~= bd + (dash + bt));
    assert forall|i: int| 0 <= i < 8 implies is_digit(#[trigger] ad[i]) by {
        assert(ad[i] == a[i]);
    }
    assert forall|i: int| 0 <= i < 8 implies is_digit(#[trigger] bd[i]) by {
        assert(bd[i] == b[i]);
    }
    assert forall|i: int| 0 <= i < 6 implies is_digit(#[trigger] at[i]) by {
        assert(at[i] == a[9 + i]);
    }
    assert forall|i: int| 0 <= i < 6 implies is_digit(#[trigger] bt[i]) by {
        assert(bt[i] == b[9 + i]);
    }
    lemma_digits_in_order(ad, bd);
    lemma_digits_in_order(at, bt);
    lemma_six_digits(at);
    lemma_six_digits(bt);
    lemma_precedes_concat(ad, dash + at, bd, dash + bt);
    lemma_precedes_concat(dash, at, dash, bt);
    precedes_is_total(dash, dash);
    precedes_is_total(start, start);
    precedes_is_total(end, end);
    lemma_precedes_concat(start, a, start, b);
    lemma_precedes_concat(start + a, end, start + b, end);
    if snapshot_name(a) == snapshot_name(b) {
        assert(a =~= snapshot_name(a).subrange(start.len() as int, start.len() + 15int));
        assert(b =~= snapshot_name(b).subrange(start.len() as int, start.len() + 15int));
    }
    assert(start + a == start + b ==> a == b) by {
        assert(a =~= (start + a).skip(start.len() as int));
        assert(b =~= (start + b).skip(start.len() as int));
    }
    if ad == bd && at == bt {
        assert(a == b);
    }
}

// ---------------------------------------------------------------------------------------------
// Pruning
// ---------------------------------------------------------------------------------------------

/// Dictionary order, where a text may stand beside its like.
pub open spec fn not_after() -> spec_fn(Seq<char>, Seq<char>) -> bool {
    |a: Seq<char>, b: Seq<char>| !precedes(b, a)
}

/// The names of the snapshots that were taken by the program.
pub open spec fn autos(names: Seq<Seq<char>>) -> Seq<Seq<char>> {
    names.filter(|name: Seq<char>| is_auto(name))
}

/// The names of the snapshots that were taken by the program, the oldest first.
pub open spec fn oldest_first(names: Seq<Seq<char>>) -> Seq<Seq<char>> {
    autos(names).sort_by(not_after())
}

/// The names of the snapshots that are pruned: all but the newest `keep` of those that were taken
/// by the program.
pub open spec fn pruned(names: Seq<Seq<char>>, keep: int) -> Seq<Seq<char>> {
    let list = oldest_first(names);
    list.take(
        if list.len() > keep {
            list.len() - keep
        } else {
            0
        },
    )
}

/// Dictionary order is a total order.
proof fn lemma_not_after_is_total()
    ensures
        total_ordering(not_after()),
{
    let leq = not_after();
    assert forall|x: Seq<char>| #[trigger] leq(x, x) by {
        precedes_is_total(x, x);
    }
    assert forall|x: Seq<char>, y: Seq<char>| #[trigger] leq(x, y) && #[trigger] leq(y, x) implies x
        == y by {
        precedes_is_total(x, y);
    }
    assert forall|x: Seq<char>, y: Seq<char>, z: Seq<char>| #[trigger]
        leq(x, y) && #[trigger] leq(y, z) implies leq(x, z) by {
        precedes_is_total(x, y);
        precedes_is_total(y, z);
        precedes_is_total(x, z);
        if precedes(z, x) {
            if x == y {
            } else if y == z {
            } else {
                precedes_is_transitive(x, y, z);
            }
        }
    }
    assert forall|x: Seq<char>, y: Seq<char>| #[trigger] leq(x, y) || #[trigger] leq(y, x) by {
        precedes_is_total(x, y);
    }
}

/// A snapshot that was made by hand is never pruned, and of the others the newest are kept: there
/// are `keep` of them, or all, and none of them is older than a pruned one.
pub proof fn only_old_snapshots_are_pruned(names: Seq<Seq<char>>, keep: nat)
    ensures
        forall|i: int|
            0 <= i < pruned(names, keep as int).len() ==> is_auto(
                #[trigger] pruned(names, keep as int)[i],
            ) && names.contains(pruned(names, keep as int)[i]),
        autos(names).len() >= keep ==> pruned(names, keep as int).len() == autos(names).len()
            - keep,
        autos(names).len() < keep ==> pruned(names, keep as int).len() == 0,
        oldest_first(names).to_multiset() == autos(names).to_multiset(),
        forall|i: int, j: int|
            0 <= i < pruned(names, keep as int).len() <= j < oldest_first(names).len()
                ==> !precedes(
                #[trigger] oldest_first(names)[j],
                #[trigger] pruned(names, keep as int)[i],
            ),
{
    broadcast use vstd::seq_lib::group_to_multiset_ensures;

    let list = autos(names);
    let sorted = oldest_first(names);
    let keeps = |name: Seq<char>| is_auto(name);
    lemma_not_after_is_total();
    list.lemma_sort_by_ensures(not_after());
    assert(sorted.len() == list.len()) by {
        assert(sorted.to_multiset().len() == sorted.len());
        assert(list.to_multiset().len() == list.len());
    }
    assert forall|i: int| 0 <= i < pruned(names, keep as int).len() implies is_auto(
        #[trigger] pruned(names, keep as int)[i],
    ) && names.contains(pruned(names, keep as int)[i]) by {
        let name = pruned(names, keep as int)[i];
        assert(sorted[i] == name);
        assert(sorted.contains(name));
        assert(list.contains(name));
        names.lemma_filter_contains_rev(keeps, name);
        let k = choose|k: int| 0 <= k < list.len() && list[k] == name;
        names.lemma_filter_pred(keeps, k);
    }
    assert forall|i: int, j: int|
        0 <= i < pruned(names, keep as int).len() <= j < sorted.len() implies !precedes(
        #[trigger] sorted[j],
        #[trigger] pruned(names, keep as int)[i],
    ) by {
        let leq = not_after();
        assert(leq(sorted[i], sorted[j]));
    }
}

/// Puts a name in its place among names that stand in order.
fn insert_in_order(list: &mut Vec<String>, name: String)
    requires
        sorted_by(texts(old(list)@), not_after()),
    ensures
        sorted_by(texts(final(list)@), not_after()),
        texts(final(list)@).to_multiset() == texts(old(list)@).to_multiset().insert(name@),
{
    let ghost before = texts(list@);
    let ghost leq = not_after();
    let ghost new = name@;
    let mut at: usize = list.len();
    while at > 0 && comes_before(name.as_str(), list[at - 1].as_str())
        invariant
            at <= list@.len(),
            before == texts(list@),
            new == name@,
            forall|k: int| at <= k < before.len() ==> precedes(new, #[trigger] before[k]),
        decreases at,
    {
        at = at - 1;
        proof {
            assert(before[at as int] == list@[at as int]@);
        }
    }
    proof {
        if at > 0 {
            assert(before[at - 1] == list@[at - 1]@);
        }
    }
    list.insert(at, name);
    proof {
        let after = texts(list@);
        lemma_not_after_is_total();
        assert(after =~= before.insert(at as int, new));
        vstd::seq_lib::to_multiset_insert(before, at as int, new);
        assert forall|i: int, j: int| 0 <= i < j < after.len() implies #[trigger] leq(
            after[i],
            after[j],
        ) by {
            if j < at {
                assert(leq(before[i], before[j]));
            } else if j == at {
                if i < at - 1 {
                    assert(leq(before[i], before[at - 1]));
                }
                assert(leq(before[at - 1], new));
            } else if i < at {
                assert(leq(before[i], before[j - 1]));
            } else if i == at {
                precedes_is_total(new, before[j - 1]);
            } else {
                assert(leq(before[i - 1], before[j - 1]));
            }
        }
    }
}

/// The names of the snapshots that are pruned, the oldest first: all but the newest `keep` of those
/// that were taken by the program.
pub fn prune_backups(names: Vec<String>, keep: usize) -> (r: Vec<String>)
    ensures
        texts(r@) == pruned(texts(names@), keep as int),
{
    let ghost all = texts(names@);
    let ghost given = names@;
    let ghost keeps = |name: Seq<char>| is_auto(name);
    let mut list: Vec<String> = Vec::new();
    proof {
        reveal(Seq::filter);
        assert(texts(list@) =~= all.take(0).filter(keeps));
    }
    for name in it: names
        invariant
            it.seq() == given,
            all == texts(given),
            keeps == (|name: Seq<char>| is_auto(name)),
            sorted_by(texts(list@), not_after()),
            texts(list@).to_multiset() == all.take(it.index()).filter(keeps).to_multiset(),
    {
        proof {
            let n = it.index();
            reveal(Seq::filter);
            assert(all.take(n + 1).drop_last() =~= all.take(n));
            assert(all[n] == name@);
            vstd::seq_lib::to_multiset_build(all.take(n).filter(keeps), name@);
        }
        if is_auto_snapshot(name.as_str()) {
            insert_in_order(&mut list, name);
        }
    }
    proof {
        assert(all.take(all.len() as int) =~= all);
        lemma_not_after_is_total();
        autos(all).lemma_sort_by_ensures(not_after());
        vstd::seq_lib::lemma_sorted_unique(texts(list@), oldest_first(all), not_after());
    }
    let total: usize = list.len();
    let cut: usize = if total > keep {
        total - keep
    } else {
        0
    };
    list.truncate(cut);
    proof {
        assert(texts(list@) =~= oldest_first(all).take(cut as int));
    }
    list
}

// ---------------------------------------------------------------------------------------------
// The journal mode
// ---------------------------------------------------------------------------------------------

/// Whether a journal mode is write-ahead logging, in whatever case it is written.
pub open spec fn is_wal(mode: Seq<char>) -> bool {
    &&& mode.len() == 3
    &&& mode[0] == 'w' || mode[0] == 'W'
    &&& mode[1] == 'a' || mode[1] == 'A'
    &&& mode[2] == 'l' || mode[2] == 'L'
}

/// What is done about the journal mode of the database.
#[derive(Debug, Clone, Copy, PartialEq, Eq, Structural)]
pub enum JournalStep {
    /// The mode is right.
    Keep,
    /// A snapshot is taken first; only if that succeeds is the mode switched.
    BackupThenSwitch,
}

/// What is done about a journal mode.
pub open spec fn journal_step(mode: Seq<char>) -> JournalStep {
    if is_wal(mode) {
        JournalStep::Keep
    } else {
        JournalStep::BackupThenSwitch
    }
}

/// What a switch came to, by the mode after it.
pub open spec fn switched(got: Seq<char>) -> Result<Seq<char>, Seq<char>> {
    if is_wal(got) {
        Ok(got)
    } else {
        Err("WAL 전환이 적용되지 않음 (현재 모드: "@ + got + ")"@)
    }
}

/// Whether a journal mode is write-ahead logging, in whatever case it is written.
fn names_wal(mode: &str) -> (r: bool)
    ensures
        r == is_wal(mode@),
{
    let c = chars_of(mode);
    c.len() == 3 && (c[0] == 'w' || c[0] == 'W') && (c[1] == 'a' || c[1] == 'A') && (c[2] == 'l'
        || c[2] == 'L')
}

/// What is done about the journal mode that the database has.
pub fn migrate_journal_mode(mode: &str) -> (r: JournalStep)
    ensures
        r == (if is_wal(mode@) {
            JournalStep::Keep
        } else {
            JournalStep::BackupThenSwitch
        }),
        r == journal_step(mode@),
{
    if names_wal(mode) {
        JournalStep::Keep
    } else {
        JournalStep::BackupThenSwitch
    }
}

/// What a switch came to, given the mode that the database has after it: a database that another
/// connection holds keeps its mode and reports no error.
pub fn confirm_journal_mode(got: String) -> (r: Result<String, String>)
    ensures
        is_wal(got@) ==> r == Ok::<String, String>(got),
        !is_wal(got@) ==> (r matches Err(why) && why@
            == "WAL 전환이 적용되지 않음 (현재 모드: "@ + got@ + ")"@),
        match r {
            Ok(mode) => switched(got@) == Ok::<Seq<char>, Seq<char>>(mode@),
            Err(why) => switched(got@) == Err::<Seq<char>, Seq<char>>(why@),
        },
{
    if names_wal(got.as_str()) {
        Ok(got)
    } else {
        let mut why = own("WAL 전환이 적용되지 않음 (현재 모드: ");
        why.append(got.as_str());
        why.append(")");
        Err(why)
    }
}

} // verus!
