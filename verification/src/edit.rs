//! What people write beside a prompt, and what of a response is shown at once.

use vstd::prelude::*;

use crate::text::{own, text_eq, trim, trimmed};

verus! {

// ---------------------------------------------------------------------------------------------
// Aliases and tags
// ---------------------------------------------------------------------------------------------

/// What is done about the alias of a working directory.
#[derive(Debug)]
pub enum AliasEdit {
    Remove,
    Put(String),
}

/// The alias or the name that was typed: what is left without the white space around it, where
/// anything is.
pub open spec fn name_typed(text: Seq<char>) -> Option<Seq<char>> {
    if trim(text).len() == 0 {
        None
    } else {
        Some(trim(text))
    }
}

/// What is done where an alias was typed: white space around it is dropped, and an alias of nothing
/// else is none.
pub fn set_cwd_alias(alias: &str) -> (r: AliasEdit)
    ensures
        trim(alias@).len() == 0 ==> r is Remove,
        trim(alias@).len() > 0 ==> (r matches AliasEdit::Put(s) && s@ == trim(alias@)),
        r is Remove <==> name_typed(alias@) is None,
        r matches AliasEdit::Put(s) ==> name_typed(alias@) == Some(s@),
{
    let name = trimmed(alias);
    if name.as_str().is_empty() {
        AliasEdit::Remove
    } else {
        AliasEdit::Put(name)
    }
}

/// What it says where a tag has no name.
pub const NO_TAG_NAME: &'static str = "태그 이름이 비어있습니다";

/// The tag that was typed: white space around its name is dropped, and a tag must have a name.
pub fn add_prompt_tag(name: &str) -> (r: Result<String, String>)
    ensures
        trim(name@).len() == 0 ==> (r matches Err(why) && why@ == NO_TAG_NAME@),
        trim(name@).len() > 0 ==> (r matches Ok(s) && s@ == trim(name@)),
        r is Err <==> name_typed(name@) is None,
        r matches Ok(s) ==> name_typed(name@) == Some(s@),
{
    let tag = trimmed(name);
    if tag.as_str().is_empty() {
        Err(own(NO_TAG_NAME))
    } else {
        Ok(tag)
    }
}

// ---------------------------------------------------------------------------------------------
// Segments
// ---------------------------------------------------------------------------------------------

/// The size up to which prose is shown at once, in bytes.
pub const INLINE_BODY_MAX_BYTES: i64 = 24_000;

/// The size up to which prose is shown at once, in lines.
pub const INLINE_BODY_MAX_LINES: i64 = 400;

/// Whether the body of a segment is shown at once: prose that is short.
pub open spec fn is_shown_at_once(kind: Seq<char>, nbytes: i64, nlines: i64) -> bool {
    kind == "text"@ && nbytes <= INLINE_BODY_MAX_BYTES && nlines <= INLINE_BODY_MAX_LINES
}

/// Whether the body of a segment is sent along with its header: prose that is short. What tools
/// were given and gave back is sent only when it is opened.
pub fn is_inline(kind: &str, nbytes: i64, nlines: i64) -> (r: bool)
    ensures
        r == (kind@ == "text"@ && nbytes <= INLINE_BODY_MAX_BYTES && nlines
            <= INLINE_BODY_MAX_LINES),
        r == is_shown_at_once(kind@, nbytes, nlines),
{
    nbytes <= INLINE_BODY_MAX_BYTES && nlines <= INLINE_BODY_MAX_LINES && text_eq(kind, "text")
}

} // verus!
