//! Tags on captions.
use vstd::prelude::*;

use crate::text::{trim, trim_text};
use crate::ts::title::{non_empty, text_opt};

verus! {

/// A tag, as a form sends it.
pub struct TagForm {
    pub tag: String,
}

/// The tags of a caption.
pub struct TagsFragment {
    pub caption_id: i64,
    pub tags: Vec<String>,
}

/// The tags to choose from.
pub struct TagOptionsTemplate {
    pub tags: Vec<String>,
}

/// The tag to add; none where the form is blank.
pub fn tag_to_add(form: &TagForm) -> (tag: Option<String>)
    ensures
        text_opt(tag) == non_empty(trim(form.tag@)),
{
    let tag = trim_text(form.tag.as_str());
    if tag.as_str().is_empty() {
        None
    } else {
        Some(tag)
    }
}

/// The tag to remove.
pub fn tag_to_delete(form: &TagForm) -> (tag: String)
    ensures
        tag@ == trim(form.tag@),
{
    trim_text(form.tag.as_str())
}

} // verus!
