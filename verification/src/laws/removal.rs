//! Laws of deletions.

use vstd::prelude::*;

use crate::removal::{
    bulk_steps, deletion_takes_what_was_asked, run, single_deletion_is_a_bulk_of_one, single_steps,
    Shelf,
};

verus! {

/// Deleting prompts takes them, and just them, out of every table, and then the tags that no prompt
/// carries any more; what the tables held before is kept as a snapshot, and no transaction stays open.
pub proof fn a_deletion_takes_the_prompts_and_nothing_else(
    shelf: Shelf,
    ids: Seq<i64>,
    id: i64,
    tag: i64,
)
    requires
        ids.len() > 0,
        shelf.begun is None,
    ensures
        ({
            let before = shelf.content;
            let after = run(shelf, bulk_steps(ids)).content;
            &&& after.prompts.contains(id) <==> before.prompts.contains(id) && !ids.contains(id)
            &&& after.bookmarks.contains(id) <==> before.bookmarks.contains(id) && !ids.contains(id)
            &&& after.responses.contains(id) <==> before.responses.contains(id) && !ids.contains(id)
            &&& after.carried.contains((id, tag)) <==> before.carried.contains((id, tag))
                && !ids.contains(id)
            &&& after.tags.contains(tag) <==> before.tags.contains(tag) && exists|x: i64| #[trigger]
                after.carried.contains((x, tag))
            &&& run(shelf, bulk_steps(ids)).snapshots == shelf.snapshots.push(before)
            &&& run(shelf, bulk_steps(ids)).begun is None
        }),
{
    deletion_takes_what_was_asked(shelf, ids);
}

/// Deleting one prompt takes it, and just it, in the same way.
pub proof fn one_deletion_takes_one_prompt(shelf: Shelf, gone: i64, id: i64, tag: i64)
    requires
        shelf.begun is None,
    ensures
        ({
            let before = shelf.content;
            let after = run(shelf, single_steps(gone)).content;
            &&& after.prompts.contains(id) <==> before.prompts.contains(id) && id != gone
            &&& after.bookmarks.contains(id) <==> before.bookmarks.contains(id) && id != gone
            &&& after.responses.contains(id) <==> before.responses.contains(id) && id != gone
            &&& after.carried.contains((id, tag)) <==> before.carried.contains((id, tag)) && id
                != gone
            &&& after.tags.contains(tag) <==> before.tags.contains(tag) && exists|x: i64| #[trigger]
                after.carried.contains((x, tag))
            &&& run(shelf, single_steps(gone)).snapshots == shelf.snapshots.push(before)
        }),
{
    let ids = seq![gone];
    assert(ids.contains(id) <==> id == gone) by {
        assert(ids[0] == gone);
    }
    single_deletion_is_a_bulk_of_one(shelf, gone);
    a_deletion_takes_the_prompts_and_nothing_else(shelf, ids, id, tag);
}

} // verus!
