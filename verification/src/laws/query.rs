//! Laws of the query for a list of prompts.

use vstd::prelude::*;

use crate::query::{
    binds_view, bookmark_parts, cwd_parts, from_parts, list_parts, page_parts, rendered,
    search_parts, system_parts, tag_names, tag_parts, to_parts, values, Bind, BindView, Part,
    PromptFilter, Query,
};
use crate::text::{contains, join};
use crate::laws::text::{holding_is_having_as_a_part, pieces_make_the_whole};

verus! {

/// Whether a text asks for something.
pub open spec fn is_asked(text: Option<String>) -> bool {
    text is Some && (text->0)@.len() > 0
}

/// What is bound for a text that may ask for something.
pub open spec fn bound(text: Option<String>) -> Seq<BindView> {
    if is_asked(text) {
        seq![BindView::Text((text->0)@)]
    } else {
        Seq::empty()
    }
}

/// The words, where something is asked for.
pub open spec fn only_if(asked: bool, words: Seq<char>) -> Seq<char> {
    if asked {
        words
    } else {
        Seq::empty()
    }
}

/// The values of parts that stand side by side.
proof fn lemma_side_by_side(a: Seq<Part>, b: Seq<Part>)
    ensures
        values(a + b) == values(a) + values(b),
        rendered(a + b) == rendered(a) + rendered(b),
    decreases b.len(),
{
    if b.len() == 0 {
        assert(a + b =~= a);
        assert(values(a) + values(b) =~= values(a));
        assert(rendered(a) + rendered(b) =~= rendered(a));
    } else {
        assert((a + b).drop_last() =~= a + b.drop_last());
        lemma_side_by_side(a, b.drop_last());
        assert(values(a + b) =~= values(a) + values(b));
        assert(rendered(a + b) =~= rendered(a) + rendered(b));
    }
}

/// The text and the values of one part.
proof fn lemma_one(part: Part)
    ensures
        part matches Part::Words(s) ==> rendered(seq![part]) == s && values(seq![part]) == Seq::<
            BindView,
        >::empty(),
        part matches Part::Place(v) ==> rendered(seq![part]) == "?"@ && values(seq![part]) == seq![v],
{
    assert(seq![part].drop_last() =~= Seq::<Part>::empty());
    assert(values(Seq::<Part>::empty()) =~= Seq::<BindView>::empty());
    assert(rendered(Seq::<Part>::empty()) =~= Seq::<char>::empty());
    match part {
        Part::Words(s) => {
            assert(rendered(seq![part]) =~= s);
        },
        Part::Place(v) => {
            assert(rendered(seq![part]) =~= "?"@);
            assert(values(seq![part]) =~= seq![v]);
        },
    }
}

/// Words, a place, and words behind it.
proof fn lemma_three(a: Seq<char>, v: BindView, b: Seq<char>)
    ensures
        rendered(seq![Part::Words(a), Part::Place(v), Part::Words(b)]) == a + "?"@ + b,
        values(seq![Part::Words(a), Part::Place(v), Part::Words(b)]) == seq![v],
{
    lemma_one(Part::Words(a));
    lemma_one(Part::Place(v));
    lemma_one(Part::Words(b));
    let x = seq![Part::Words(a)];
    let y = seq![Part::Place(v)];
    let z = seq![Part::Words(b)];
    lemma_side_by_side(x, y);
    lemma_side_by_side(x + y, z);
    assert(seq![Part::Words(a), Part::Place(v), Part::Words(b)] =~= x + y + z);
    assert(values(x + y + z) =~= seq![v]);
}

/// Words and a place.
proof fn lemma_two(a: Seq<char>, v: BindView)
    ensures
        rendered(seq![Part::Words(a), Part::Place(v)]) == a + "?"@,
        values(seq![Part::Words(a), Part::Place(v)]) == seq![v],
{
    lemma_one(Part::Words(a));
    lemma_one(Part::Place(v));
    let x = seq![Part::Words(a)];
    let y = seq![Part::Place(v)];
    lemma_side_by_side(x, y);
    assert(seq![Part::Words(a), Part::Place(v)] =~= x + y);
    assert(values(x + y) =~= seq![v]);
}

/// What is bound for a search: the pattern of all texts that hold it, for each of the three places.
pub open spec fn searched(f: PromptFilter) -> Seq<BindView> {
    if is_asked(f.search) {
        let held = BindView::Text(seq!['%'] + (f.search->0)@ + seq!['%']);
        seq![held, held, held]
    } else {
        Seq::empty()
    }
}

/// The text and the values of the search.
proof fn lemma_search(f: PromptFilter)
    ensures
        values(search_parts(f)) == searched(f),
        rendered(search_parts(f)) == only_if(
            is_asked(f.search),
            " AND (p.prompt LIKE "@ + "?"@ + (" OR p.narrative LIKE "@ + "?"@) + (
            " OR p.response LIKE "@ + "?"@ + ")"@),
        ),
{
    if is_asked(f.search) {
        reveal_strlit("%");
        assert("%"@ =~= seq!['%']);
        let held = BindView::Text(seq!['%'] + (f.search->0)@ + seq!['%']);
        lemma_two(" AND (p.prompt LIKE "@, held);
        lemma_two(" OR p.narrative LIKE "@, held);
        lemma_three(" OR p.response LIKE "@, held, ")"@);
        let a = seq![Part::Words(" AND (p.prompt LIKE "@), Part::Place(held)];
        let b = seq![Part::Words(" OR p.narrative LIKE "@), Part::Place(held)];
        let c = seq![Part::Words(" OR p.response LIKE "@), Part::Place(held), Part::Words(")"@)];
        lemma_side_by_side(a, b);
        lemma_side_by_side(a + b, c);
        assert(search_parts(f) =~= a + b + c);
        assert(values(search_parts(f)) =~= searched(f));
    }
}

/// The text and the values of the other conditions.
proof fn lemma_conditions(f: PromptFilter)
    ensures
        values(system_parts(f)) == Seq::<BindView>::empty(),
        rendered(system_parts(f)) == only_if(f.include_system != Some(true), words_without_system()),
        values(cwd_parts(f)) == (if is_asked(f.cwd) && (f.cwd->0)@ == "__NULL__"@ {
            Seq::<BindView>::empty()
        } else {
            bound(f.cwd)
        }),
        rendered(cwd_parts(f)) == only_if(
            is_asked(f.cwd),
            if (f.cwd->0)@ == "__NULL__"@ {
                " AND COALESCE(sf.cwd, p.cwd) IS NULL"@
            } else {
                " AND COALESCE(sf.cwd, p.cwd) = "@ + "?"@
            },
        ),
        values(bookmark_parts(f)) == Seq::<BindView>::empty(),
        rendered(bookmark_parts(f)) == only_if(
            f.only_bookmarked == Some(true),
            " AND b.prompt_id IS NOT NULL"@,
        ),
        values(tag_parts(f)) == bound(f.tag),
        rendered(tag_parts(f)) == only_if(is_asked(f.tag), words_with_tag() + "?"@ + ")"@),
        values(from_parts(f)) == bound(f.date_from),
        rendered(from_parts(f)) == only_if(
            is_asked(f.date_from),
            " AND date(p.created_at) >= date("@ + "?"@ + ")"@,
        ),
        values(to_parts(f)) == bound(f.date_to),
        rendered(to_parts(f)) == only_if(
            is_asked(f.date_to),
            " AND date(p.created_at) <= date("@ + "?"@ + ")"@,
        ),
{
    lemma_one(Part::Words(words_without_system()));
    lemma_one(Part::Words(" AND COALESCE(sf.cwd, p.cwd) IS NULL"@));
    lemma_two(" AND COALESCE(sf.cwd, p.cwd) = "@, BindView::Text((f.cwd->0)@));
    lemma_one(Part::Words(" AND b.prompt_id IS NOT NULL"@));
    lemma_three(words_with_tag(), BindView::Text((f.tag->0)@), ")"@);
    lemma_three(" AND date(p.created_at) >= date("@, BindView::Text((f.date_from->0)@), ")"@);
    lemma_three(" AND date(p.created_at) <= date("@, BindView::Text((f.date_to->0)@), ")"@);
    assert(values(Seq::<Part>::empty()) =~= Seq::<BindView>::empty());
    assert(rendered(Seq::<Part>::empty()) =~= Seq::<char>::empty());
}

/// The condition that leaves injected events out, but for those with a bookmark or a tag.
pub open spec fn words_without_system() -> Seq<char> {
    " AND (p.kind IS NULL OR p.kind <> 'system'
                   OR b.prompt_id IS NOT NULL
                   OR EXISTS (SELECT 1 FROM prompt_tags t WHERE t.prompt_id = p.id))"@
}

/// The condition that a prompt carries a tag, up to the name of the tag.
pub open spec fn words_with_tag() -> Seq<char> {
    " AND p.id IN (SELECT pt.prompt_id FROM prompt_tags pt
                           JOIN tags tg ON tg.id = pt.tag_id
                           WHERE tg.name = "@
}

/// What a query asks of each prompt, with the first directory of each session.
pub open spec fn words_of_all() -> Seq<char> {
    "WITH session_first AS (
    SELECT p.session_id, p.cwd
    FROM prompts p
    INNER JOIN (
        SELECT session_id, MIN(id) as min_id
        FROM prompts
        WHERE session_id IS NOT NULL
        GROUP BY session_id
    ) m ON m.session_id = p.session_id AND m.min_id = p.id
)"@ + " SELECT p.id, p.session_id, p.cwd, p.prompt, p.created_at, b.prompt_id,
                 (SELECT GROUP_CONCAT(t.name, char(1))
                  FROM prompt_tags pt
                  JOIN tags t ON t.id = pt.tag_id
                  WHERE pt.prompt_id = p.id) AS tags,
                 (CASE WHEN (p.response IS NOT NULL AND p.response <> '')
                         OR EXISTS (SELECT 1 FROM turn_segments s WHERE s.prompt_id = p.id)
                       THEN 1 ELSE 0 END) AS has_response,
                 p.kind
          FROM prompts p
          LEFT JOIN session_first sf ON sf.session_id = p.session_id
          LEFT JOIN prompt_bookmarks b ON b.prompt_id = p.id
          WHERE 1=1"@
}

/// The values that are bound are what was asked for, each once and in the order of its condition; a search
/// is bound at each of its three places as the pattern of all texts that hold it. What is not asked for,
/// or asked for with an empty text, binds nothing.
pub proof fn values_are_what_is_asked_for(q: Query, f: PromptFilter)
    requires
        q.is(list_parts(f)),
    ensures
        binds_view(q.binds@) == searched(f) + (if is_asked(f.cwd) && (f.cwd->0)@ == "__NULL__"@ {
            Seq::<BindView>::empty()
        } else {
            bound(f.cwd)
        }) + bound(f.tag) + bound(f.date_from) + bound(f.date_to) + seq![
            BindView::Integer(f.limit as int),
            BindView::Integer(f.offset as int),
        ],
{
    lemma_all_parts(f);
}

/// The text of a query holds a condition for each thing that is asked for, and no other.
pub proof fn conditions_are_what_is_asked_for(q: Query, f: PromptFilter)
    requires
        q.is(list_parts(f)),
    ensures
        q.sql@ == words_of_all() + only_if(f.include_system != Some(true), words_without_system())
            + only_if(
            is_asked(f.search),
            " AND (p.prompt LIKE "@ + "?"@ + (" OR p.narrative LIKE "@ + "?"@) + (
            " OR p.response LIKE "@ + "?"@ + ")"@),
        ) + only_if(
            is_asked(f.cwd),
            if (f.cwd->0)@ == "__NULL__"@ {
                " AND COALESCE(sf.cwd, p.cwd) IS NULL"@
            } else {
                " AND COALESCE(sf.cwd, p.cwd) = "@ + "?"@
            },
        ) + only_if(f.only_bookmarked == Some(true), " AND b.prompt_id IS NOT NULL"@) + only_if(
            is_asked(f.tag),
            words_with_tag() + "?"@ + ")"@,
        ) + only_if(is_asked(f.date_from), " AND date(p.created_at) >= date("@ + "?"@ + ")"@)
            + only_if(is_asked(f.date_to), " AND date(p.created_at) <= date("@ + "?"@ + ")"@)
            + (" ORDER BY p.id DESC LIMIT "@ + "?"@ + (" OFFSET "@ + "?"@)),
{
    lemma_all_parts(f);
}

/// The text and the values of the page.
proof fn lemma_page(f: PromptFilter)
    ensures
        values(page_parts(f)) == seq![
            BindView::Integer(f.limit as int),
            BindView::Integer(f.offset as int),
        ],
        rendered(page_parts(f)) == " ORDER BY p.id DESC LIMIT "@ + "?"@ + (" OFFSET "@ + "?"@),
{
    let limit = BindView::Integer(f.limit as int);
    let offset = BindView::Integer(f.offset as int);
    lemma_two(" ORDER BY p.id DESC LIMIT "@, limit);
    lemma_two(" OFFSET "@, offset);
    let a = seq![Part::Words(" ORDER BY p.id DESC LIMIT "@), Part::Place(limit)];
    let b = seq![Part::Words(" OFFSET "@), Part::Place(offset)];
    lemma_side_by_side(a, b);
    assert(page_parts(f) =~= a + b);
    assert(values(page_parts(f)) =~= seq![limit, offset]);
}

/// The parts of a query side by side.
proof fn lemma_all_parts(f: PromptFilter)
    ensures
        values(list_parts(f)) == values(search_parts(f)) + values(cwd_parts(f)) + values(
            tag_parts(f),
        ) + values(from_parts(f)) + values(to_parts(f)) + values(page_parts(f)),
        rendered(list_parts(f)) == words_of_all() + rendered(system_parts(f)) + rendered(
            search_parts(f),
        ) + rendered(cwd_parts(f)) + rendered(bookmark_parts(f)) + rendered(tag_parts(f))
            + rendered(from_parts(f)) + rendered(to_parts(f)) + rendered(page_parts(f)),
        values(search_parts(f)) == searched(f),
        rendered(search_parts(f)) == only_if(
            is_asked(f.search),
            " AND (p.prompt LIKE "@ + "?"@ + (" OR p.narrative LIKE "@ + "?"@) + (
            " OR p.response LIKE "@ + "?"@ + ")"@),
        ),
        values(cwd_parts(f)) == (if is_asked(f.cwd) && (f.cwd->0)@ == "__NULL__"@ {
            Seq::<BindView>::empty()
        } else {
            bound(f.cwd)
        }),
        rendered(cwd_parts(f)) == only_if(
            is_asked(f.cwd),
            if (f.cwd->0)@ == "__NULL__"@ {
                " AND COALESCE(sf.cwd, p.cwd) IS NULL"@
            } else {
                " AND COALESCE(sf.cwd, p.cwd) = "@ + "?"@
            },
        ),
        rendered(system_parts(f)) == only_if(f.include_system != Some(true), words_without_system()),
        rendered(bookmark_parts(f)) == only_if(
            f.only_bookmarked == Some(true),
            " AND b.prompt_id IS NOT NULL"@,
        ),
        values(tag_parts(f)) == bound(f.tag),
        rendered(tag_parts(f)) == only_if(is_asked(f.tag), words_with_tag() + "?"@ + ")"@),
        values(from_parts(f)) == bound(f.date_from),
        rendered(from_parts(f)) == only_if(
            is_asked(f.date_from),
            " AND date(p.created_at) >= date("@ + "?"@ + ")"@,
        ),
        values(to_parts(f)) == bound(f.date_to),
        rendered(to_parts(f)) == only_if(
            is_asked(f.date_to),
            " AND date(p.created_at) <= date("@ + "?"@ + ")"@,
        ),
        values(page_parts(f)) == seq![
            BindView::Integer(f.limit as int),
            BindView::Integer(f.offset as int),
        ],
        rendered(page_parts(f)) == " ORDER BY p.id DESC LIMIT "@ + "?"@ + (" OFFSET "@ + "?"@),
{
    lemma_search(f);
    lemma_conditions(f);
    lemma_page(f);
    let first = Part::Words(crate::query::SESSION_FIRST_CTE@);
    let second = Part::Words(crate::query::SELECT_PROMPTS@);
    lemma_one(first);
    lemma_one(second);
    lemma_side_by_side(seq![first], seq![second]);
    let start = seq![first, second];
    assert(start =~= seq![first] + seq![second]);
    assert(values(start) =~= Seq::<BindView>::empty());
    let p1 = start + system_parts(f);
    let p2 = p1 + search_parts(f);
    let p3 = p2 + cwd_parts(f);
    let p4 = p3 + bookmark_parts(f);
    let p5 = p4 + tag_parts(f);
    let p6 = p5 + from_parts(f);
    let p7 = p6 + to_parts(f);
    lemma_side_by_side(start, system_parts(f));
    lemma_side_by_side(p1, search_parts(f));
    lemma_side_by_side(p2, cwd_parts(f));
    lemma_side_by_side(p3, bookmark_parts(f));
    lemma_side_by_side(p4, tag_parts(f));
    lemma_side_by_side(p5, from_parts(f));
    lemma_side_by_side(p6, to_parts(f));
    lemma_side_by_side(p7, page_parts(f));
    assert(values(p2) =~= values(search_parts(f)));
    assert(values(p4) =~= values(search_parts(f)) + values(cwd_parts(f)));
}

/// A bound value is the text or the number that it holds.
pub proof fn a_bind_is_its_value(b: Bind)
    ensures
        b matches Bind::Text(s) ==> b@ == BindView::Text(s@),
        b matches Bind::Integer(n) ==> b@ == BindView::Integer(n as int),
{
}

// ---------------------------------------------------------------------------------------------
// What a search finds
// ---------------------------------------------------------------------------------------------

/// Whether a text is like a pattern, as the condition `LIKE` has it: a percent sign stands for any text,
/// an underscore for any character, and any character for itself.
pub open spec fn is_like(text: Seq<char>, pattern: Seq<char>) -> bool
    decreases pattern.len(), text.len(),
{
    if pattern.len() == 0 {
        text.len() == 0
    } else if pattern[0] == '%' {
        is_like(text, pattern.drop_first()) || (text.len() > 0 && is_like(
            text.drop_first(),
            pattern,
        ))
    } else {
        text.len() > 0 && (pattern[0] == '_' || pattern[0] == text[0]) && is_like(
            text.drop_first(),
            pattern.drop_first(),
        )
    }
}

/// Any text is like a percent sign.
proof fn lemma_like_any(text: Seq<char>)
    ensures
        is_like(text, seq!['%']),
    decreases text.len(),
{
    let p = seq!['%'];
    assert(p.drop_first() =~= Seq::<char>::empty());
    if text.len() > 0 {
        lemma_like_any(text.drop_first());
    } else {
        assert(is_like(text, p.drop_first()));
    }
}

/// A text and whatever comes behind it is like the text and a percent sign.
proof fn lemma_like_beginning(q: Seq<char>, b: Seq<char>)
    ensures
        is_like(q + b, q + seq!['%']),
    decreases q.len(),
{
    if q.len() == 0 {
        lemma_like_any(b);
        assert(q + b =~= b);
        assert(q + seq!['%'] =~= seq!['%']);
    } else {
        let rest = q.drop_first();
        lemma_like_beginning(rest, b);
        let text = q + b;
        let p = q + seq!['%'];
        assert(text.drop_first() =~= rest + b);
        assert(p.drop_first() =~= rest + seq!['%']);
        assert(text[0] == q[0]);
        assert(p[0] == q[0]);
        if q[0] == '%' {
            assert(is_like(text.drop_first(), p.drop_first()));
            assert(is_like(text.drop_first(), p));
        }
    }
}

/// A text that holds another is like the pattern of that other text.
proof fn lemma_like_part(a: Seq<char>, q: Seq<char>, b: Seq<char>)
    ensures
        is_like(a + q + b, seq!['%'] + q + seq!['%']),
    decreases a.len(),
{
    let text = a + q + b;
    let p = seq!['%'] + q + seq!['%'];
    assert(p.drop_first() =~= q + seq!['%']);
    if a.len() == 0 {
        assert(text =~= q + b);
        lemma_like_beginning(q, b);
    } else {
        lemma_like_part(a.drop_first(), q, b);
        assert(text.drop_first() =~= a.drop_first() + q + b);
    }
}

/// A search finds every text that holds what is searched for, wherever it stands in it: the text is like
/// each of the three values that are bound for the prompt, the prose and the response.
pub proof fn a_search_finds_every_text_that_holds_it(q: Query, f: PromptFilter, text: Seq<char>)
    requires
        q.is(list_parts(f)),
        is_asked(f.search),
        contains(text, (f.search->0)@),
    ensures
        q.binds@.len() >= 3,
        forall|i: int|
            0 <= i < 3 ==> ((#[trigger] binds_view(q.binds@)[i]) matches BindView::Text(p) && is_like(
                text,
                p,
            )),
{
    values_are_what_is_asked_for(q, f);
    let s = (f.search->0)@;
    holding_is_having_as_a_part(text, s);
    let (a, b) = choose|a: Seq<char>, b: Seq<char>| text == #[trigger] (a + s + b);
    lemma_like_part(a, s, b);
    let held = BindView::Text(seq!['%'] + s + seq!['%']);
    assert(searched(f)[0] == held);
    assert(searched(f)[1] == held);
    assert(searched(f)[2] == held);
    assert(binds_view(q.binds@).len() == q.binds@.len());
}

/// The names of a prompt's tags, put together again with the separator, are what the row holds, and no
/// name holds the separator. A row without tags has none.
pub proof fn tags_are_taken_apart(tags: Option<String>)
    ensures
        !is_asked(tags) ==> tag_names(tags).len() == 0,
        is_asked(tags) ==> join(tag_names(tags), seq!['\x01']) == (tags->0)@,
        is_asked(tags) ==> forall|k: int|
            0 <= k < tag_names(tags).len() ==> !(#[trigger] tag_names(tags)[k]).contains('\x01'),
{
    if is_asked(tags) {
        pieces_make_the_whole((tags->0)@, '\x01');
    }
}

} // verus!
