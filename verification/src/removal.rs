//! Deleting prompts: the steps in which it is done, and what they leave.
//!
//! A deletion cannot be undone, so a snapshot of the database comes first, and nothing is deleted
//! where that fails.

use vstd::prelude::*;

use crate::text::own;

verus! {

/// The tables that speak of a prompt by its id.
#[derive(Debug, Clone, Copy, PartialEq, Eq, Structural)]
pub enum Table {
    Prompts,
    Bookmarks,
    PromptTags,
    Responses,
}

/// A step of a deletion. Where a step fails, those after it are not taken, and an open transaction is
/// taken back.
#[derive(Debug, Clone, Copy, PartialEq, Eq, Structural)]
pub enum Step {
    /// Takes a snapshot of the database.
    Backup,
    /// Opens a transaction.
    Begin,
    /// Deletes what a table holds of a prompt.
    Delete(Table, i64),
    /// Deletes the tags that no prompt carries.
    DropOrphanTags,
    /// Closes the transaction.
    Commit,
}

/// What a deletion came to.
#[derive(Debug)]
pub struct DeleteResult {
    pub deleted: i64,
    pub backup_path: String,
}

// ---------------------------------------------------------------------------------------------
// The steps
// ---------------------------------------------------------------------------------------------

/// The steps that delete one prompt.
pub open spec fn row_steps(id: i64) -> Seq<Step> {
    seq![
        Step::Delete(Table::Prompts, id),
        Step::Delete(Table::Bookmarks, id),
        Step::Delete(Table::PromptTags, id),
        Step::Delete(Table::Responses, id),
    ]
}

/// The steps that delete prompts one after the other.
pub open spec fn rows_steps(ids: Seq<i64>) -> Seq<Step>
    decreases ids.len(),
{
    if ids.len() == 0 {
        Seq::empty()
    } else {
        rows_steps(ids.drop_last()) + row_steps(ids.last())
    }
}

/// The steps of deleting a prompt: a snapshot first.
pub open spec fn single_steps(id: i64) -> Seq<Step> {
    seq![Step::Backup] + row_steps(id) + seq![Step::DropOrphanTags]
}

/// The steps of deleting many prompts: a snapshot first, then all in one transaction. Where there
/// is nothing to delete, nothing is done.
pub open spec fn bulk_steps(ids: Seq<i64>) -> Seq<Step> {
    if ids.len() == 0 {
        Seq::empty()
    } else {
        seq![Step::Backup, Step::Begin] + rows_steps(ids) + seq![Step::DropOrphanTags, Step::Commit]
    }
}

/// Adds the steps that delete one prompt.
fn delete_prompt_row(steps: &mut Vec<Step>, id: i64)
    ensures
        final(steps)@ == old(steps)@ + row_steps(id),
{
    steps.push(Step::Delete(Table::Prompts, id));
    steps.push(Step::Delete(Table::Bookmarks, id));
    steps.push(Step::Delete(Table::PromptTags, id));
    steps.push(Step::Delete(Table::Responses, id));
}

/// The steps of deleting a prompt.
pub fn delete_prompt(id: i64) -> (r: Vec<Step>)
    ensures
        r@ == single_steps(id),
{
    let mut steps: Vec<Step> = Vec::new();
    steps.push(Step::Backup);
    delete_prompt_row(&mut steps, id);
    steps.push(Step::DropOrphanTags);
    steps
}

/// The steps of deleting the prompts that the user confirmed.
pub fn delete_prompts(ids: &Vec<i64>) -> (r: Vec<Step>)
    ensures
        r@ == bulk_steps(ids@),
{
    let mut steps: Vec<Step> = Vec::new();
    if ids.len() == 0 {
        return steps;
    }
    steps.push(Step::Backup);
    steps.push(Step::Begin);
    let mut i: usize = 0;
    while i < ids.len()
        invariant
            i <= ids@.len(),
            steps@ == seq![Step::Backup, Step::Begin] + rows_steps(ids@.take(i as int)),
        decreases ids@.len() - i,
    {
        proof {
            assert(ids@.take(i + 1).drop_last() =~= ids@.take(i as int));
        }
        delete_prompt_row(&mut steps, ids[i]);
        i = i + 1;
    }
    proof {
        assert(ids@.take(ids@.len() as int) =~= ids@);
    }
    steps.push(Step::DropOrphanTags);
    steps.push(Step::Commit);
    steps
}

/// Whether a result says how many prompts were deleted and where the snapshot lies. Where nothing was
/// deleted, none was taken.
pub open spec fn says_deleted(r: DeleteResult, ids: Seq<i64>, backup_path: Seq<char>) -> bool {
    &&& r.deleted == ids.len()
    &&& r.backup_path@ == if ids.len() == 0 {
        Seq::<char>::empty()
    } else {
        backup_path
    }
}

/// What a deletion came to whose steps were all taken, with the path of the snapshot.
pub fn deleted(ids: &Vec<i64>, backup_path: &str) -> (r: DeleteResult)
    requires
        ids@.len() <= i64::MAX,
    ensures
        r.deleted == ids@.len(),
        r.backup_path@ == (if ids@.len() == 0 {
            Seq::<char>::empty()
        } else {
            backup_path@
        }),
        says_deleted(r, ids@, backup_path@),
{
    if ids.len() == 0 {
        DeleteResult { deleted: 0, backup_path: String::new() }
    } else {
        DeleteResult { deleted: ids.len() as i64, backup_path: own(backup_path) }
    }
}

// ---------------------------------------------------------------------------------------------
// What the steps do
// ---------------------------------------------------------------------------------------------

/// What the tables hold, as ids.
pub ghost struct Content {
    pub prompts: Set<i64>,
    pub bookmarks: Set<i64>,
    /// The tags that prompts carry: a prompt and a tag.
    pub carried: Set<(i64, i64)>,
    pub responses: Set<i64>,
    pub tags: Set<i64>,
}

/// The database and the snapshots that were taken of it.
pub ghost struct Shelf {
    pub content: Content,
    pub snapshots: Seq<Content>,
    /// What the tables held when the open transaction began, where one is open.
    pub begun: Option<Content>,
}

/// Whether a prompt carries a tag.
pub open spec fn is_carried(carried: Set<(i64, i64)>, tag: i64) -> bool {
    exists|id: i64| #[trigger] carried.contains((id, tag))
}

/// The tables without what one of them holds of a prompt.
pub open spec fn without(content: Content, table: Table, id: i64) -> Content {
    match table {
        Table::Prompts => Content { prompts: content.prompts.remove(id), ..content },
        Table::Bookmarks => Content { bookmarks: content.bookmarks.remove(id), ..content },
        Table::PromptTags => Content {
            carried: content.carried.filter(|c: (i64, i64)| c.0 != id),
            ..content
        },
        Table::Responses => Content { responses: content.responses.remove(id), ..content },
    }
}

/// What a step does.
pub open spec fn step(shelf: Shelf, s: Step) -> Shelf {
    match s {
        Step::Backup => Shelf { snapshots: shelf.snapshots.push(shelf.content), ..shelf },
        Step::Begin => Shelf { begun: Some(shelf.content), ..shelf },
        Step::Delete(table, id) => Shelf { content: without(shelf.content, table, id), ..shelf },
        Step::DropOrphanTags => Shelf {
            content: Content {
                tags: shelf.content.tags.filter(
                    |t: i64| is_carried(shelf.content.carried, t),
                ),
                ..shelf.content
            },
            ..shelf
        },
        Step::Commit => Shelf { begun: None, ..shelf },
    }
}

/// What steps do, one after the other.
pub open spec fn run(shelf: Shelf, steps: Seq<Step>) -> Shelf
    decreases steps.len(),
{
    if steps.len() == 0 {
        shelf
    } else {
        step(run(shelf, steps.drop_last()), steps.last())
    }
}

/// What is left where a step fails: an open transaction is taken back.
pub open spec fn taken_back(shelf: Shelf) -> Shelf {
    match shelf.begun {
        Some(content) => Shelf { content, begun: None, ..shelf },
        None => shelf,
    }
}

/// What is left where the step at place `k` is the first that fails.
pub open spec fn failed_at(shelf: Shelf, steps: Seq<Step>, k: int) -> Shelf {
    taken_back(run(shelf, steps.take(k)))
}

/// The tables without some prompts.
pub open spec fn without_prompts(content: Content, ids: Seq<i64>) -> Content {
    Content {
        prompts: content.prompts.filter(|id: i64| !ids.contains(id)),
        bookmarks: content.bookmarks.filter(|id: i64| !ids.contains(id)),
        carried: content.carried.filter(|c: (i64, i64)| !ids.contains(c.0)),
        responses: content.responses.filter(|id: i64| !ids.contains(id)),
        tags: content.tags,
    }
}

/// The tables without the tags that no prompt carries.
pub open spec fn without_orphans(content: Content) -> Content {
    Content { tags: content.tags.filter(|t: i64| is_carried(content.carried, t)), ..content }
}

// ---------------------------------------------------------------------------------------------
// Laws
// ---------------------------------------------------------------------------------------------

/// Steps are taken one part after the other.
proof fn lemma_run_concat(shelf: Shelf, a: Seq<Step>, b: Seq<Step>)
    ensures
        run(shelf, a + b) == run(run(shelf, a), b),
    decreases b.len(),
{
    if b.len() == 0 {
        assert(a + b =~= a);
    } else {
        assert((a + b).drop_last() =~= a + b.drop_last());
        lemma_run_concat(shelf, a, b.drop_last());
    }
}

/// What one step more does.
proof fn lemma_run_push(shelf: Shelf, steps: Seq<Step>, s: Step)
    ensures
        run(shelf, steps.push(s)) == step(run(shelf, steps), s),
{
    assert(steps.push(s).drop_last() =~= steps);
}

/// Deleting one prompt takes it out of every table.
proof fn lemma_run_row(shelf: Shelf, id: i64)
    ensures
        run(shelf, row_steps(id)).snapshots == shelf.snapshots,
        run(shelf, row_steps(id)).begun == shelf.begun,
        run(shelf, row_steps(id)).content == without_prompts(shelf.content, seq![id]),
{
    let s0 = Seq::<Step>::empty();
    let s1 = s0.push(Step::Delete(Table::Prompts, id));
    let s2 = s1.push(Step::Delete(Table::Bookmarks, id));
    let s3 = s2.push(Step::Delete(Table::PromptTags, id));
    let s4 = s3.push(Step::Delete(Table::Responses, id));
    lemma_run_push(shelf, s0, Step::Delete(Table::Prompts, id));
    lemma_run_push(shelf, s1, Step::Delete(Table::Bookmarks, id));
    lemma_run_push(shelf, s2, Step::Delete(Table::PromptTags, id));
    lemma_run_push(shelf, s3, Step::Delete(Table::Responses, id));
    assert(row_steps(id) =~= s4);
    let after = run(shelf, s4).content;
    let want = without_prompts(shelf.content, seq![id]);
    assert forall|x: i64| seq![id].contains(x) <==> x == id by {
        assert(seq![id][0] == id);
    }
    assert(after.prompts =~= want.prompts);
    assert(after.bookmarks =~= want.bookmarks);
    assert(after.carried =~= want.carried);
    assert(after.responses =~= want.responses);
}

/// Deleting prompts takes each of them out of every table.
proof fn lemma_run_rows(shelf: Shelf, ids: Seq<i64>)
    ensures
        run(shelf, rows_steps(ids)).snapshots == shelf.snapshots,
        run(shelf, rows_steps(ids)).begun == shelf.begun,
        run(shelf, rows_steps(ids)).content == without_prompts(shelf.content, ids),
    decreases ids.len(),
{
    if ids.len() == 0 {
        let want = without_prompts(shelf.content, ids);
        assert(want.prompts =~= shelf.content.prompts);
        assert(want.bookmarks =~= shelf.content.bookmarks);
        assert(want.carried =~= shelf.content.carried);
        assert(want.responses =~= shelf.content.responses);
    } else {
        let front = ids.drop_last();
        let id = ids.last();
        lemma_run_rows(shelf, front);
        lemma_run_concat(shelf, rows_steps(front), row_steps(id));
        lemma_run_row(run(shelf, rows_steps(front)), id);
        let after = run(shelf, rows_steps(ids)).content;
        let want = without_prompts(shelf.content, ids);
        assert forall|x: i64| ids.contains(x) <==> front.contains(x) || seq![id].contains(x) by {
            assert(seq![id][0] == id);
            if ids.contains(x) {
                let i = choose|i: int| 0 <= i < ids.len() && ids[i] == x;
                if i < front.len() {
                    assert(front[i] == x);
                } else {
                    assert(x == id);
                }
            }
            if front.contains(x) {
                let i = choose|i: int| 0 <= i < front.len() && front[i] == x;
                assert(ids[i] == x);
            }
            if x == id {
                assert(ids[ids.len() - 1] == x);
            }
        }
        assert(after.prompts =~= want.prompts);
        assert(after.bookmarks =~= want.bookmarks);
        assert(after.carried =~= want.carried);
        assert(after.responses =~= want.responses);
    }
}

/// Deleting prompts takes exactly those out of every table, and the tags that no prompt carries any
/// more, and leaves a snapshot of what there was.
pub proof fn deletion_takes_what_was_asked(shelf: Shelf, ids: Seq<i64>)
    requires
        ids.len() > 0,
    ensures
        run(shelf, bulk_steps(ids)).content == without_orphans(
            without_prompts(shelf.content, ids),
        ),
        run(shelf, bulk_steps(ids)).snapshots == shelf.snapshots.push(shelf.content),
        run(shelf, bulk_steps(ids)).begun is None,
{
    let start = seq![Step::Backup, Step::Begin];
    let end = seq![Step::DropOrphanTags, Step::Commit];
    let s0 = Seq::<Step>::empty();
    assert(start =~= s0.push(Step::Backup).push(Step::Begin));
    assert(end =~= s0.push(Step::DropOrphanTags).push(Step::Commit));
    lemma_run_push(shelf, s0, Step::Backup);
    lemma_run_push(shelf, s0.push(Step::Backup), Step::Begin);
    let opened = run(shelf, start);
    lemma_run_concat(shelf, start, rows_steps(ids));
    lemma_run_rows(opened, ids);
    let emptied = run(shelf, start + rows_steps(ids));
    lemma_run_concat(shelf, start + rows_steps(ids), end);
    lemma_run_push(emptied, s0, Step::DropOrphanTags);
    lemma_run_push(emptied, s0.push(Step::DropOrphanTags), Step::Commit);
}

/// Deleting one prompt does what deleting a list of it alone does.
pub proof fn single_deletion_is_a_bulk_of_one(shelf: Shelf, id: i64)
    requires
        shelf.begun is None,
    ensures
        run(shelf, single_steps(id)) == run(shelf, bulk_steps(seq![id])),
{
    deletion_takes_what_was_asked(shelf, seq![id]);
    let s0 = Seq::<Step>::empty();
    assert(seq![Step::Backup] =~= s0.push(Step::Backup));
    assert(seq![Step::DropOrphanTags] =~= s0.push(Step::DropOrphanTags));
    lemma_run_push(shelf, s0, Step::Backup);
    let saved = run(shelf, seq![Step::Backup]);
    lemma_run_concat(shelf, seq![Step::Backup], row_steps(id));
    lemma_run_row(saved, id);
    let emptied = run(shelf, seq![Step::Backup] + row_steps(id));
    lemma_run_concat(shelf, seq![Step::Backup] + row_steps(id), seq![Step::DropOrphanTags]);
    lemma_run_push(emptied, s0, Step::DropOrphanTags);
}

/// An open transaction stays open until it is closed, and keeps what the tables held.
proof fn lemma_transaction_stays(shelf: Shelf, steps: Seq<Step>)
    requires
        shelf.begun is Some,
        forall|i: int|
            0 <= i < steps.len() ==> #[trigger] steps[i] != Step::Begin && steps[i] != Step::Commit,
    ensures
        run(shelf, steps).begun == shelf.begun,
    decreases steps.len(),
{
    if steps.len() > 0 {
        let front = steps.drop_last();
        assert forall|i: int| 0 <= i < front.len() implies #[trigger] front[i] != Step::Begin
            && front[i] != Step::Commit by {
            assert(front[i] == steps[i]);
        }
        lemma_transaction_stays(shelf, front);
        assert(steps[steps.len() - 1] != Step::Begin && steps[steps.len() - 1] != Step::Commit);
    }
}

/// The steps that delete prompts open and close no transaction.
proof fn lemma_rows_steps(ids: Seq<i64>)
    ensures
        forall|i: int| 0 <= i < rows_steps(ids).len() ==> #[trigger] rows_steps(ids)[i] is Delete,
    decreases ids.len(),
{
    if ids.len() > 0 {
        let before = rows_steps(ids.drop_last());
        lemma_rows_steps(ids.drop_last());
        assert forall|i: int| 0 <= i < rows_steps(ids).len() implies #[trigger] rows_steps(
            ids,
        )[i] is Delete by {
            if i < before.len() {
                assert(rows_steps(ids)[i] == before[i]);
            } else {
                assert(rows_steps(ids)[i] == row_steps(ids.last())[i - before.len()]);
            }
        }
    }
}

/// Deleting many prompts takes all of them or none: whichever step fails, the tables hold what they
/// held before.
pub proof fn bulk_deletion_takes_all_or_nothing(shelf: Shelf, ids: Seq<i64>, k: int)
    requires
        shelf.begun is None,
        0 <= k < bulk_steps(ids).len(),
    ensures
        failed_at(shelf, bulk_steps(ids), k).content == shelf.content,
        failed_at(shelf, bulk_steps(ids), k).begun is None,
{
    let steps = bulk_steps(ids);
    let start = seq![Step::Backup, Step::Begin];
    let s0 = Seq::<Step>::empty();
    lemma_run_push(shelf, s0, Step::Backup);
    lemma_run_push(shelf, s0.push(Step::Backup), Step::Begin);
    assert(start =~= s0.push(Step::Backup).push(Step::Begin));
    if k == 0 {
        assert(steps.take(0) =~= s0);
    } else if k == 1 {
        assert(steps.take(1) =~= s0.push(Step::Backup));
    } else {
        let rest = steps.subrange(2, k);
        let opened = run(shelf, start);
        lemma_rows_steps(ids);
        assert forall|i: int| 0 <= i < rest.len() implies #[trigger] rest[i] != Step::Begin
            && rest[i] != Step::Commit by {
            assert(rest[i] == steps[i + 2]);
            if i < rows_steps(ids).len() {
                assert(steps[i + 2] == rows_steps(ids)[i]);
            } else {
                assert(steps[i + 2] == Step::DropOrphanTags);
            }
        }
        lemma_transaction_stays(opened, rest);
        lemma_run_concat(shelf, start, rest);
        assert(steps.take(k) =~= start + rest);
    }
}

/// Whether steps change nothing before a snapshot is taken, wherever they stop.
pub open spec fn saves_first(steps: Seq<Step>) -> bool {
    forall|shelf: Shelf, k: int|
        0 <= k <= steps.len() && (#[trigger] run(shelf, steps.take(k))).content != shelf.content
            ==> run(shelf, steps.take(k)).snapshots.contains(shelf.content)
}

/// Where the first step takes a snapshot, that snapshot stays.
proof fn lemma_snapshot_stays(shelf: Shelf, steps: Seq<Step>)
    requires
        steps.len() > 0,
        steps[0] == Step::Backup,
    ensures
        run(shelf, steps).snapshots.contains(shelf.content),
    decreases steps.len(),
{
    let front = steps.drop_last();
    if front.len() == 0 {
        assert(run(shelf, front) == shelf);
        let after = run(shelf, steps).snapshots;
        assert(after == shelf.snapshots.push(shelf.content));
        assert(after[after.len() - 1] == shelf.content);
    } else {
        lemma_snapshot_stays(shelf, front);
        let before = run(shelf, front).snapshots;
        let after = run(shelf, steps).snapshots;
        let i = choose|i: int| 0 <= i < before.len() && before[i] == shelf.content;
        assert(after[i] == shelf.content);
    }
}

/// Steps that start with a snapshot change nothing before it.
proof fn lemma_saves_first(steps: Seq<Step>)
    requires
        steps.len() > 0 ==> steps[0] == Step::Backup,
    ensures
        saves_first(steps),
{
    assert forall|shelf: Shelf, k: int|
        0 <= k <= steps.len() && (#[trigger] run(shelf, steps.take(k))).content
            != shelf.content implies run(shelf, steps.take(k)).snapshots.contains(shelf.content) by {
        if k > 0 {
            assert(steps.take(k)[0] == steps[0]);
            lemma_snapshot_stays(shelf, steps.take(k));
        } else {
            assert(run(shelf, steps.take(0)) == shelf);
        }
    }
}

/// A snapshot is taken before every delete, of one prompt or of many: wherever the steps stop, what
/// was there is in a snapshot as soon as anything is gone. Where the snapshot fails, nothing is
/// deleted.
pub proof fn nothing_is_deleted_before_a_snapshot(id: i64, ids: Seq<i64>)
    ensures
        saves_first(single_steps(id)),
        saves_first(bulk_steps(ids)),
{
    lemma_saves_first(single_steps(id));
    lemma_saves_first(bulk_steps(ids));
}

} // verus!
