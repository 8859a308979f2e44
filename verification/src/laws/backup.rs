//! Laws of snapshots.

use vstd::prelude::*;

use crate::backup::{
    autos, is_auto, is_stamp, is_wal, oldest_first, only_old_snapshots_are_pruned, pruned,
    snapshot_name, KEEP,
};
use crate::clock::is_digit;
use crate::text::precedes;

verus! {

/// Whether a name is written as the program writes it: `prompts-`, eight digits, a dash, six digits, and
/// `.db`.
pub open spec fn is_written_by_the_program(name: Seq<char>) -> bool {
    &&& name.len() == 26
    &&& name[0] == 'p' && name[1] == 'r' && name[2] == 'o' && name[3] == 'm' && name[4] == 'p'
        && name[5] == 't' && name[6] == 's' && name[7] == '-'
    &&& forall|i: int| 8 <= i < 16 ==> is_digit(#[trigger] name[i])
    &&& name[16] == '-'
    &&& forall|i: int| 17 <= i < 23 ==> is_digit(#[trigger] name[i])
    &&& name[23] == '.' && name[24] == 'd' && name[25] == 'b'
}

/// A snapshot is the program's own exactly where its name is written so: one that was made by hand is
/// not.
pub proof fn own_snapshots_are_told_by_their_names(name: Seq<char>)
    ensures
        is_auto(name) <==> is_written_by_the_program(name),
{
    reveal_strlit("prompts-");
    reveal_strlit(".db");
    if is_written_by_the_program(name) {
        let inner = name.subrange(8, 23);
        assert forall|i: int| 0 <= i < 15 && i != 8 implies is_digit(#[trigger] inner[i]) by {
            assert(inner[i] == name[8 + i]);
        }
        assert(is_stamp(inner));
        assert(name =~= snapshot_name(inner));
    }
    if is_auto(name) {
        let stamp = choose|stamp: Seq<char>|
            #[trigger] is_stamp(stamp) && name == snapshot_name(stamp);
        assert forall|i: int| 8 <= i < 16 implies is_digit(#[trigger] name[i]) by {
            assert(name[i] == stamp[i - 8]);
            assert(is_digit(stamp[i - 8]));
        }
        assert forall|i: int| 17 <= i < 23 implies is_digit(#[trigger] name[i]) by {
            assert(name[i] == stamp[i - 8]);
            assert(is_digit(stamp[i - 8]));
        }
        assert(name[16] == stamp[8]);
    }
}

/// The name of a snapshot says when it was taken, and the program knows it for its own.
pub proof fn names_say_when(stamp: Seq<char>)
    ensures
        snapshot_name(stamp).len() == stamp.len() + 11,
        snapshot_name(stamp).subrange(8, 8 + stamp.len() as int) == stamp,
        is_stamp(stamp) ==> is_written_by_the_program(snapshot_name(stamp)),
        is_stamp(stamp) <==> is_auto(snapshot_name(stamp)),
        KEEP == 10,
{
    reveal_strlit("prompts-");
    reveal_strlit(".db");
    let name = snapshot_name(stamp);
    assert(name.subrange(8, 8 + stamp.len() as int) =~= stamp);
    own_snapshots_are_told_by_their_names(name);
    if is_auto(name) {
        let s = choose|s: Seq<char>| #[trigger] is_stamp(s) && name == snapshot_name(s);
        assert(snapshot_name(s).subrange(8, 8 + s.len() as int) =~= s);
        assert(s == stamp);
    }
}

/// Of the snapshots that the program took, all but the newest `keep` are pruned: as many as there are
/// beyond `keep`, and with each all that come before it. Nothing else is pruned.
pub proof fn the_oldest_are_pruned(
    names: Seq<Seq<char>>,
    keep: nat,
    older: Seq<char>,
    newer: Seq<char>,
)
    ensures
        pruned(names, keep as int).contains(newer) ==> names.contains(newer)
            && is_written_by_the_program(newer),
        pruned(names, keep as int).contains(newer) && names.contains(older)
            && is_written_by_the_program(older) && precedes(older, newer) ==> pruned(
            names,
            keep as int,
        ).contains(older),
        pruned(names, keep as int).len() == if autos(names).len() > keep {
            autos(names).len() - keep
        } else {
            0
        },
{
    broadcast use vstd::seq_lib::group_to_multiset_ensures;

    let gone = pruned(names, keep as int);
    let sorted = oldest_first(names);
    let list = autos(names);
    only_old_snapshots_are_pruned(names, keep);
    own_snapshots_are_told_by_their_names(newer);
    own_snapshots_are_told_by_their_names(older);
    if gone.contains(newer) {
        let i = choose|i: int| 0 <= i < gone.len() && gone[i] == newer;
        assert(is_auto(gone[i]));
        if names.contains(older) && is_written_by_the_program(older) && precedes(older, newer) {
            let k = choose|k: int| 0 <= k < names.len() && names[k] == older;
            names.lemma_filter_contains(|name: Seq<char>| is_auto(name), k);
            assert(list.contains(older));
            vstd::seq_lib::to_multiset_contains(list, older);
            vstd::seq_lib::to_multiset_contains(sorted, older);
            let j = choose|j: int| 0 <= j < sorted.len() && sorted[j] == older;
            if j >= gone.len() {
                assert(!precedes(sorted[j], gone[i]));
            }
            assert(gone[j] == sorted[j]);
        }
    }
}

/// The program's own snapshots are counted one by one.
pub proof fn own_snapshots_are_counted(names: Seq<Seq<char>>, name: Seq<char>)
    ensures
        autos(Seq::empty()).len() == 0,
        autos(names.push(name)).len() == autos(names).len() + if is_written_by_the_program(name) {
            1nat
        } else {
            0nat
        },
{
    reveal(Seq::filter);
    assert(names.push(name).drop_last() =~= names);
    own_snapshots_are_told_by_their_names(name);
}

/// A character in its lower case, where it is an ASCII letter.
pub open spec fn lower(c: char) -> char {
    if c == 'W' {
        'w'
    } else if c == 'A' {
        'a'
    } else if c == 'L' {
        'l'
    } else {
        c
    }
}

/// The journal mode is right where it reads `wal`, whatever the case of its letters.
pub proof fn the_mode_is_told_by_its_letters(mode: Seq<char>)
    ensures
        is_wal(mode) <==> mode.map_values(|c: char| lower(c)) == "wal"@,
{
    reveal_strlit("wal");
    let m = mode.map_values(|c: char| lower(c));
    if is_wal(mode) {
        assert(m =~= "wal"@);
    }
    if m == "wal"@ {
        assert(m.len() == 3);
        assert(lower(mode[0]) == m[0]);
        assert(lower(mode[1]) == m[1]);
        assert(lower(mode[2]) == m[2]);
    }
}

} // verus!
