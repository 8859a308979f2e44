//! Listing prompts: the query that a filter stands for, and the rows that come back.

use vstd::prelude::*;

use crate::text::{own, pieces, split_at_char, text_eq, texts};

verus! {

// ---------------------------------------------------------------------------------------------
// Words of the query
// ---------------------------------------------------------------------------------------------

/// The first working directory of each session, by which its prompts are grouped.
pub const SESSION_FIRST_CTE: &'static str = "WITH session_first AS (
    SELECT p.session_id, p.cwd
    FROM prompts p
    INNER JOIN (
        SELECT session_id, MIN(id) as min_id
        FROM prompts
        WHERE session_id IS NOT NULL
        GROUP BY session_id
    ) m ON m.session_id = p.session_id AND m.min_id = p.id
)";

/// What is asked of each prompt. A prompt has a response if it has a text or segments.
pub const SELECT_PROMPTS: &'static str = " SELECT p.id, p.session_id, p.cwd, p.prompt, p.created_at, b.prompt_id,
                 (SELECT GROUP_CONCAT(t.name, char(1))
                  FROM prompt_tags pt
                  JOIN tags t ON t.id = pt.tag_id
                  WHERE pt.prompt_id = p.id) AS tags,
                 (CASE WHEN (p.response IS NOT NULL AND p.response <> '')
                         OR EXISTS (SELECT 1 FROM turn_segments s WHERE s.prompt_id = p.id)
                       THEN 1 ELSE 0 END) AS has_response,
                 p.kind
          FROM prompts p
          LEFT JOIN session_first sf ON sf.session_id = p.session_id
          LEFT JOIN prompt_bookmarks b ON b.prompt_id = p.id
          WHERE 1=1";

/// Leaves injected events out, but for those that the user marked.
pub const WITHOUT_SYSTEM: &'static str = " AND (p.kind IS NULL OR p.kind <> 'system'
                   OR b.prompt_id IS NOT NULL
                   OR EXISTS (SELECT 1 FROM prompt_tags t WHERE t.prompt_id = p.id))";

/// The working directory that stands for prompts that have none.
pub const NULL_CWD: &'static str = "__NULL__";

// ---------------------------------------------------------------------------------------------
// Filters and queries
// ---------------------------------------------------------------------------------------------

/// Which prompts are listed. An empty text asks for nothing.
#[derive(Debug)]
pub struct PromptFilter {
    pub limit: i64,
    pub offset: i64,
    pub search: Option<String>,
    pub cwd: Option<String>,
    pub only_bookmarked: Option<bool>,
    pub tag: Option<String>,
    pub date_from: Option<String>,
    pub date_to: Option<String>,
    pub include_system: Option<bool>,
}

/// A value that is bound to a place of a query.
#[derive(Debug)]
pub enum Bind {
    Text(String),
    Integer(i64),
}

/// A value that is bound to a place of a query, as a text or a number.
pub ghost enum BindView {
    Text(Seq<char>),
    Integer(int),
}

impl View for Bind {
    type V = BindView;

    open spec fn view(&self) -> BindView {
        match self {
            Bind::Text(s) => BindView::Text(s@),
            Bind::Integer(n) => BindView::Integer(*n as int),
        }
    }
}

/// A query, and the values that are bound to its places in order.
#[derive(Debug)]
pub struct Query {
    pub sql: String,
    pub binds: Vec<Bind>,
}

/// A part of a query: words, or a place with the value that is bound to it.
pub ghost enum Part {
    Words(Seq<char>),
    Place(BindView),
}

/// The values of a list of binds.
pub open spec fn binds_view(binds: Seq<Bind>) -> Seq<BindView> {
    binds.map_values(|b: Bind| b@)
}

/// The text of a query: a place is a question mark.
pub open spec fn rendered(parts: Seq<Part>) -> Seq<char>
    decreases parts.len(),
{
    if parts.len() == 0 {
        Seq::empty()
    } else {
        rendered(parts.drop_last()) + match parts.last() {
            Part::Words(s) => s,
            Part::Place(_) => "?"@,
        }
    }
}

/// The values that are bound to the places of a query, in order.
pub open spec fn values(parts: Seq<Part>) -> Seq<BindView>
    decreases parts.len(),
{
    if parts.len() == 0 {
        Seq::empty()
    } else {
        match parts.last() {
            Part::Words(_) => values(parts.drop_last()),
            Part::Place(b) => values(parts.drop_last()).push(b),
        }
    }
}

/// A text that asks for something.
pub open spec fn asked(text: Option<String>) -> Option<Seq<char>> {
    match text {
        Some(s) => if s@.len() > 0 {
            Some(s@)
        } else {
            None
        },
        None => None,
    }
}

/// The pattern of texts that hold a text.
pub open spec fn pattern(text: Seq<char>) -> Seq<char> {
    "%"@ + text + "%"@
}

/// Injected events are left out unless they are asked for.
pub open spec fn system_parts(f: PromptFilter) -> Seq<Part> {
    if f.include_system == Some(true) {
        Seq::empty()
    } else {
        seq![Part::Words(WITHOUT_SYSTEM@)]
    }
}

/// The search looks in the prompt, in the prose of the response, and in the older response text.
pub open spec fn search_parts(f: PromptFilter) -> Seq<Part> {
    match asked(f.search) {
        Some(q) => seq![
            Part::Words(" AND (p.prompt LIKE "@),
            Part::Place(BindView::Text(pattern(q))),
            Part::Words(" OR p.narrative LIKE "@),
            Part::Place(BindView::Text(pattern(q))),
            Part::Words(" OR p.response LIKE "@),
            Part::Place(BindView::Text(pattern(q))),
            Part::Words(")"@),
        ],
        None => Seq::empty(),
    }
}

/// Prompts are grouped by the first working directory of their session.
pub open spec fn cwd_parts(f: PromptFilter) -> Seq<Part> {
    match asked(f.cwd) {
        Some(c) => if c == NULL_CWD@ {
            seq![Part::Words(" AND COALESCE(sf.cwd, p.cwd) IS NULL"@)]
        } else {
            seq![
                Part::Words(" AND COALESCE(sf.cwd, p.cwd) = "@),
                Part::Place(BindView::Text(c)),
            ]
        },
        None => Seq::empty(),
    }
}

/// Only what is bookmarked, where that is asked for.
pub open spec fn bookmark_parts(f: PromptFilter) -> Seq<Part> {
    if f.only_bookmarked == Some(true) {
        seq![Part::Words(" AND b.prompt_id IS NOT NULL"@)]
    } else {
        Seq::empty()
    }
}

/// Only what carries a tag, where that is asked for.
pub open spec fn tag_parts(f: PromptFilter) -> Seq<Part> {
    match asked(f.tag) {
        Some(t) => seq![
            Part::Words(
                " AND p.id IN (SELECT pt.prompt_id FROM prompt_tags pt
                           JOIN tags tg ON tg.id = pt.tag_id
                           WHERE tg.name = "@,
            ),
            Part::Place(BindView::Text(t)),
            Part::Words(")"@),
        ],
        None => Seq::empty(),
    }
}

/// Only what was created from a date on, where that is asked for.
pub open spec fn from_parts(f: PromptFilter) -> Seq<Part> {
    match asked(f.date_from) {
        Some(d) => seq![
            Part::Words(" AND date(p.created_at) >= date("@),
            Part::Place(BindView::Text(d)),
            Part::Words(")"@),
        ],
        None => Seq::empty(),
    }
}

/// Only what was created up to a date, where that is asked for.
pub open spec fn to_parts(f: PromptFilter) -> Seq<Part> {
    match asked(f.date_to) {
        Some(d) => seq![
            Part::Words(" AND date(p.created_at) <= date("@),
            Part::Place(BindView::Text(d)),
            Part::Words(")"@),
        ],
        None => Seq::empty(),
    }
}

/// The newest first, a page at a time.
pub open spec fn page_parts(f: PromptFilter) -> Seq<Part> {
    seq![
        Part::Words(" ORDER BY p.id DESC LIMIT "@),
        Part::Place(BindView::Integer(f.limit as int)),
        Part::Words(" OFFSET "@),
        Part::Place(BindView::Integer(f.offset as int)),
    ]
}

/// The query that a filter stands for.
pub open spec fn list_parts(f: PromptFilter) -> Seq<Part> {
    seq![Part::Words(SESSION_FIRST_CTE@), Part::Words(SELECT_PROMPTS@)] + system_parts(f)
        + search_parts(f) + cwd_parts(f) + bookmark_parts(f) + tag_parts(f) + from_parts(f)
        + to_parts(f) + page_parts(f)
}

// ---------------------------------------------------------------------------------------------
// Laws
// ---------------------------------------------------------------------------------------------

/// The text of parts that stand side by side.
proof fn lemma_concat(a: Seq<Part>, b: Seq<Part>)
    ensures
        rendered(a + b) == rendered(a) + rendered(b),
    decreases b.len(),
{
    if b.len() == 0 {
        assert(a + b =~= a);
        assert(rendered(a) + rendered(b) =~= rendered(a));
    } else {
        assert((a + b).drop_last() =~= a + b.drop_last());
        lemma_concat(a, b.drop_last());
        assert(rendered(a + b) =~= rendered(a) + rendered(b));
    }
}

/// Whether two texts both ask for something or both for nothing.
pub open spec fn ask_alike(a: Option<String>, b: Option<String>) -> bool {
    asked(a) is Some == asked(b) is Some
}

/// Whether two filters ask for the same kinds of things.
pub open spec fn same_shape(f: PromptFilter, g: PromptFilter) -> bool {
    &&& ask_alike(f.search, g.search)
    &&& ask_alike(f.cwd, g.cwd)
    &&& (asked(f.cwd) == Some(NULL_CWD@)) == (asked(g.cwd) == Some(NULL_CWD@))
    &&& (f.only_bookmarked == Some(true)) == (g.only_bookmarked == Some(true))
    &&& ask_alike(f.tag, g.tag)
    &&& ask_alike(f.date_from, g.date_from)
    &&& ask_alike(f.date_to, g.date_to)
    &&& (f.include_system == Some(true)) == (g.include_system == Some(true))
}

/// Whether two parts read the same.
spec fn read_alike(a: Seq<Part>, b: Seq<Part>) -> bool {
    &&& a.len() == b.len()
    &&& forall|i: int|
        0 <= i < a.len() ==> ((#[trigger] a[i]) is Words && a[i] == b[i]) || (a[i] is Place
            && b[i] is Place)
}

/// Parts that differ in the bound values only read the same.
proof fn lemma_read_alike(a: Seq<Part>, b: Seq<Part>)
    requires
        read_alike(a, b),
    ensures
        rendered(a) == rendered(b),
    decreases a.len(),
{
    if a.len() > 0 {
        let x = a.drop_last();
        let y = b.drop_last();
        assert forall|i: int| 0 <= i < x.len() implies ((#[trigger] x[i]) is Words && x[i] == y[i])
            || (x[i] is Place && y[i] is Place) by {
            assert(x[i] == a[i]);
        }
        lemma_read_alike(x, y);
        assert(a[a.len() - 1] is Words || a[a.len() - 1] is Place);
    }
}

/// What the user types is never part of the text of a query: filters that ask for the same kinds of
/// things have the same text, whatever they ask for.
pub proof fn query_text_holds_no_input(f: PromptFilter, g: PromptFilter)
    requires
        same_shape(f, g),
    ensures
        rendered(list_parts(f)) == rendered(list_parts(g)),
{
    let start = seq![Part::Words(SESSION_FIRST_CTE@), Part::Words(SELECT_PROMPTS@)];
    let (f1, g1) = (start + system_parts(f), start + system_parts(g));
    let (f2, g2) = (f1 + search_parts(f), g1 + search_parts(g));
    let (f3, g3) = (f2 + cwd_parts(f), g2 + cwd_parts(g));
    let (f4, g4) = (f3 + bookmark_parts(f), g3 + bookmark_parts(g));
    let (f5, g5) = (f4 + tag_parts(f), g4 + tag_parts(g));
    let (f6, g6) = (f5 + from_parts(f), g5 + from_parts(g));
    let (f7, g7) = (f6 + to_parts(f), g6 + to_parts(g));
    lemma_add_alike(f1, search_parts(f), g1, search_parts(g));
    lemma_add_alike(f2, cwd_parts(f), g2, cwd_parts(g));
    lemma_add_alike(f3, bookmark_parts(f), g3, bookmark_parts(g));
    lemma_add_alike(f4, tag_parts(f), g4, tag_parts(g));
    lemma_add_alike(f5, from_parts(f), g5, from_parts(g));
    lemma_add_alike(f6, to_parts(f), g6, to_parts(g));
    lemma_add_alike(f7, page_parts(f), g7, page_parts(g));
}

/// Parts that read the same go on reading the same.
proof fn lemma_add_alike(a: Seq<Part>, x: Seq<Part>, b: Seq<Part>, y: Seq<Part>)
    requires
        rendered(a) == rendered(b),
        read_alike(x, y),
    ensures
        rendered(a + x) == rendered(b + y),
{
    lemma_read_alike(x, y);
    lemma_concat(a, x);
    lemma_concat(b, y);
}

// ---------------------------------------------------------------------------------------------
// Making the query
// ---------------------------------------------------------------------------------------------

impl Query {
    /// Whether the query is made of the parts.
    pub open spec fn is(self, parts: Seq<Part>) -> bool {
        self.sql@ == rendered(parts) && binds_view(self.binds@) == values(parts)
    }

    /// Adds words.
    fn words(&mut self, text: &str, Ghost(parts): Ghost<Seq<Part>>)
        requires
            old(self).is(parts),
        ensures
            final(self).is(parts.push(Part::Words(text@))),
    {
        proof {
            assert(parts.push(Part::Words(text@)).drop_last() =~= parts);
        }
        self.sql.append(text);
    }

    /// Adds a place and the text that is bound to it.
    fn text(&mut self, value: String, Ghost(parts): Ghost<Seq<Part>>)
        requires
            old(self).is(parts),
        ensures
            final(self).is(parts.push(Part::Place(BindView::Text(value@)))),
    {
        let ghost before = binds_view(self.binds@);
        let ghost bound = BindView::Text(value@);
        proof {
            assert(parts.push(Part::Place(bound)).drop_last() =~= parts);
        }
        self.sql.append("?");
        self.binds.push(Bind::Text(value));
        proof {
            assert(binds_view(self.binds@) =~= before.push(bound));
        }
    }

    /// Adds a place and the number that is bound to it.
    fn number(&mut self, value: i64, Ghost(parts): Ghost<Seq<Part>>)
        requires
            old(self).is(parts),
        ensures
            final(self).is(parts.push(Part::Place(BindView::Integer(value as int)))),
    {
        let ghost before = binds_view(self.binds@);
        let ghost bound = BindView::Integer(value as int);
        proof {
            assert(parts.push(Part::Place(bound)).drop_last() =~= parts);
        }
        self.sql.append("?");
        self.binds.push(Bind::Integer(value));
        proof {
            assert(binds_view(self.binds@) =~= before.push(bound));
        }
    }
}

/// A text that asks for something.
fn ask(text: &Option<String>) -> (r: Option<&str>)
    ensures
        (match r {
            Some(s) => Some(s@),
            None => None,
        }) == asked(*text),
{
    match text {
        Some(s) => {
            if s.as_str().is_empty() {
                None
            } else {
                Some(s.as_str())
            }
        },
        None => None,
    }
}

/// The pattern of texts that hold a text.
fn holding(text: &str) -> (r: String)
    ensures
        r@ == pattern(text@),
{
    let mut out = own("%");
    out.append(text);
    out.append("%");
    out
}

/// The query that lists the prompts that a filter asks for.
pub fn list_prompts(f: &PromptFilter) -> (r: Query)
    ensures
        r.sql@ == rendered(list_parts(*f)),
        binds_view(r.binds@) == values(list_parts(*f)),
{
    let mut q = Query { sql: String::new(), binds: Vec::new() };
    let ghost mut parts: Seq<Part> = Seq::empty();
    proof {
        assert(binds_view(q.binds@) =~= values(parts));
        assert(q.sql@ =~= rendered(parts));
    }
    q.words(SESSION_FIRST_CTE, Ghost(parts));
    q.words(SELECT_PROMPTS, Ghost(parts.push(Part::Words(SESSION_FIRST_CTE@))));
    proof {
        parts = seq![Part::Words(SESSION_FIRST_CTE@), Part::Words(SELECT_PROMPTS@)];
        assert(parts =~= Seq::<Part>::empty().push(Part::Words(SESSION_FIRST_CTE@)).push(
            Part::Words(SELECT_PROMPTS@),
        ));
    }
    if f.include_system != Some(true) {
        q.words(WITHOUT_SYSTEM, Ghost(parts));
    }
    proof {
        if f.include_system != Some(true) {
            assert(parts + system_parts(*f) =~= parts.push(Part::Words(WITHOUT_SYSTEM@)));
        } else {
            assert(parts + system_parts(*f) =~= parts);
        }
        parts = parts + system_parts(*f);
    }
    add_search(&mut q, f, Ghost(parts));
    proof {
        parts = parts + search_parts(*f);
    }
    add_cwd(&mut q, f, Ghost(parts));
    proof {
        parts = parts + cwd_parts(*f);
    }
    if f.only_bookmarked == Some(true) {
        q.words(" AND b.prompt_id IS NOT NULL", Ghost(parts));
    }
    proof {
        if f.only_bookmarked == Some(true) {
            assert(parts + bookmark_parts(*f) =~= parts.push(
                Part::Words(" AND b.prompt_id IS NOT NULL"@),
            ));
        } else {
            assert(parts + bookmark_parts(*f) =~= parts);
        }
        parts = parts + bookmark_parts(*f);
    }
    add_asked(
        &mut q,
        " AND p.id IN (SELECT pt.prompt_id FROM prompt_tags pt
                           JOIN tags tg ON tg.id = pt.tag_id
                           WHERE tg.name = ",
        &f.tag,
        Ghost(parts),
    );
    proof {
        parts = parts + tag_parts(*f);
    }
    add_asked(&mut q, " AND date(p.created_at) >= date(", &f.date_from, Ghost(parts));
    proof {
        parts = parts + from_parts(*f);
    }
    add_asked(&mut q, " AND date(p.created_at) <= date(", &f.date_to, Ghost(parts));
    proof {
        parts = parts + to_parts(*f);
    }
    q.words(" ORDER BY p.id DESC LIMIT ", Ghost(parts));
    let ghost parts1 = parts.push(Part::Words(" ORDER BY p.id DESC LIMIT "@));
    q.number(f.limit, Ghost(parts1));
    let ghost parts2 = parts1.push(Part::Place(BindView::Integer(f.limit as int)));
    q.words(" OFFSET ", Ghost(parts2));
    let ghost parts3 = parts2.push(Part::Words(" OFFSET "@));
    q.number(f.offset, Ghost(parts3));
    proof {
        assert(parts + page_parts(*f) =~= parts3.push(
            Part::Place(BindView::Integer(f.offset as int)),
        ));
    }
    q
}

/// Adds the search.
fn add_search(q: &mut Query, f: &PromptFilter, Ghost(parts): Ghost<Seq<Part>>)
    requires
        old(q).is(parts),
    ensures
        final(q).is(parts + search_parts(*f)),
{
    match ask(&f.search) {
        Some(s) => {
            let ghost place = Part::Place(BindView::Text(pattern(s@)));
            q.words(" AND (p.prompt LIKE ", Ghost(parts));
            let ghost p1 = parts.push(Part::Words(" AND (p.prompt LIKE "@));
            q.text(holding(s), Ghost(p1));
            let ghost p2 = p1.push(place);
            q.words(" OR p.narrative LIKE ", Ghost(p2));
            let ghost p3 = p2.push(Part::Words(" OR p.narrative LIKE "@));
            q.text(holding(s), Ghost(p3));
            let ghost p4 = p3.push(place);
            q.words(" OR p.response LIKE ", Ghost(p4));
            let ghost p5 = p4.push(Part::Words(" OR p.response LIKE "@));
            q.text(holding(s), Ghost(p5));
            let ghost p6 = p5.push(place);
            q.words(")", Ghost(p6));
            proof {
                assert(parts + search_parts(*f) =~= p6.push(Part::Words(")"@)));
            }
        },
        None => {
            proof {
                assert(parts + search_parts(*f) =~= parts);
            }
        },
    }
}

/// Adds the working directory.
fn add_cwd(q: &mut Query, f: &PromptFilter, Ghost(parts): Ghost<Seq<Part>>)
    requires
        old(q).is(parts),
    ensures
        final(q).is(parts + cwd_parts(*f)),
{
    match ask(&f.cwd) {
        Some(c) => {
            if text_eq(c, NULL_CWD) {
                q.words(" AND COALESCE(sf.cwd, p.cwd) IS NULL", Ghost(parts));
                proof {
                    assert(parts + cwd_parts(*f) =~= parts.push(
                        Part::Words(" AND COALESCE(sf.cwd, p.cwd) IS NULL"@),
                    ));
                }
            } else {
                q.words(" AND COALESCE(sf.cwd, p.cwd) = ", Ghost(parts));
                let ghost p1 = parts.push(Part::Words(" AND COALESCE(sf.cwd, p.cwd) = "@));
                q.text(own(c), Ghost(p1));
                proof {
                    assert(parts + cwd_parts(*f) =~= p1.push(Part::Place(BindView::Text(c@))));
                }
            }
        },
        None => {
            proof {
                assert(parts + cwd_parts(*f) =~= parts);
            }
        },
    }
}

/// Adds a condition with one value in brackets, where it is asked for.
fn add_asked(q: &mut Query, words: &str, value: &Option<String>, Ghost(parts): Ghost<Seq<Part>>)
    requires
        old(q).is(parts),
    ensures
        final(q).is(
            parts + match asked(*value) {
                Some(v) => seq![
                    Part::Words(words@),
                    Part::Place(BindView::Text(v)),
                    Part::Words(")"@),
                ],
                None => Seq::empty(),
            },
        ),
{
    match ask(value) {
        Some(v) => {
            q.words(words, Ghost(parts));
            let ghost p1 = parts.push(Part::Words(words@));
            q.text(own(v), Ghost(p1));
            let ghost p2 = p1.push(Part::Place(BindView::Text(v@)));
            q.words(")", Ghost(p2));
            proof {
                assert(parts + seq![
                    Part::Words(words@),
                    Part::Place(BindView::Text(v@)),
                    Part::Words(")"@),
                ] =~= p2.push(Part::Words(")"@)));
            }
        },
        None => {
            proof {
                assert(parts + Seq::<Part>::empty() =~= parts);
            }
        },
    }
}

// ---------------------------------------------------------------------------------------------
// Rows
// ---------------------------------------------------------------------------------------------

/// A row that the query gives back.
#[derive(Debug)]
pub struct PromptRow {
    pub id: i64,
    pub session_id: Option<String>,
    pub cwd: Option<String>,
    pub prompt: String,
    pub created_at: String,
    /// The id of the prompt where it is bookmarked.
    pub bookmark: Option<i64>,
    /// The names of the tags, with a character of code 1 between them.
    pub tags: Option<String>,
    pub has_response: i64,
    pub kind: Option<String>,
}

/// A prompt as it is listed.
#[derive(Debug)]
pub struct Prompt {
    pub id: i64,
    pub session_id: Option<String>,
    pub cwd: Option<String>,
    pub prompt: String,
    pub created_at: String,
    pub bookmarked: bool,
    pub tags: Vec<String>,
    pub has_response: bool,
    /// Who the prompt is from: a human, the system, or not told yet.
    pub kind: Option<String>,
}

/// The character between the names of tags.
pub const TAG_SEPARATOR: char = '\x01';

/// The names of the tags that a row holds.
pub open spec fn tag_names(tags: Option<String>) -> Seq<Seq<char>> {
    match asked(tags) {
        Some(s) => pieces(s, TAG_SEPARATOR),
        None => Seq::empty(),
    }
}

/// Whether a prompt is the one that a row stands for.
pub open spec fn is_listed_as(row: PromptRow, r: Prompt) -> bool {
    &&& r.id == row.id
    &&& r.session_id == row.session_id
    &&& r.cwd == row.cwd
    &&& r.prompt == row.prompt
    &&& r.created_at == row.created_at
    &&& r.bookmarked == (row.bookmark is Some)
    &&& texts(r.tags@) == tag_names(row.tags)
    &&& r.has_response == (row.has_response != 0)
    &&& r.kind == row.kind
}

/// The prompt that a row stands for.
pub fn row_to_prompt(row: PromptRow) -> (r: Prompt)
    ensures
        r.id == row.id,
        r.session_id == row.session_id,
        r.cwd == row.cwd,
        r.prompt == row.prompt,
        r.created_at == row.created_at,
        r.bookmarked == (row.bookmark is Some),
        texts(r.tags@) == tag_names(row.tags),
        r.has_response == (row.has_response != 0),
        r.kind == row.kind,
        is_listed_as(row, r),
{
    let tags: Vec<String> = match ask(&row.tags) {
        Some(s) => split_at_char(s, TAG_SEPARATOR),
        None => Vec::new(),
    };
    proof {
        if asked(row.tags) is None {
            assert(texts(tags@) =~= Seq::empty());
        }
    }
    Prompt {
        id: row.id,
        session_id: row.session_id,
        cwd: row.cwd,
        prompt: row.prompt,
        created_at: row.created_at,
        bookmarked: row.bookmark.is_some(),
        tags,
        has_response: row.has_response != 0,
        kind: row.kind,
    }
}

} // verus!
