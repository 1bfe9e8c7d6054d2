//! The rich-text schema: which kind of track a group's tag belongs to, and
//! where each kind may stand.

use vstd::prelude::*;
use crate::doc::{Attrs, AttrsV};

verus! {

/// The kind of a group, decided by its `tag`.
#[derive(PartialEq, Eq, Structural, Clone, Copy, Debug)]
pub enum RtfTrack {
    /// Carets (`caret`).
    Markers,
    /// Text blocks (`p`, `h1`..`h6`, `pre`, `html`).
    Blocks,
    /// Nestable list items (`bullet`).
    BlockQuotes,
    /// Blocks without text (`hr`).
    BlockObjects,
}

/// The track of a tag, if the schema knows it.
pub open spec fn tag_track(tag: Seq<char>) -> Option<RtfTrack> {
    if tag == "p"@ || tag == "h1"@ || tag == "h2"@ || tag == "h3"@ || tag == "h4"@ || tag == "h5"@
        || tag == "h6"@ || tag == "pre"@ || tag == "html"@ {
        Some(RtfTrack::Blocks)
    } else if tag == "bullet"@ {
        Some(RtfTrack::BlockQuotes)
    } else if tag == "caret"@ {
        Some(RtfTrack::Markers)
    } else if tag == "hr"@ {
        Some(RtfTrack::BlockObjects)
    } else {
        None
    }
}

/// The attributes carry a `tag`.
pub open spec fn has_tag(a: AttrsV) -> bool {
    a.contains_key("tag"@)
}

/// The track of a group with these attributes.
pub open spec fn attrs_track(a: AttrsV) -> Option<RtfTrack> {
    tag_track(a["tag"@])
}

/// The string holds exactly the text `lit`.
pub fn str_is(s: &String, lit: &str) -> (r: bool)
    ensures
        r == (s@ == lit@),
{
    let l = lit.to_owned();
    *s == l
}

/// The schema of rich-text documents.
pub struct RtfSchema;

impl RtfSchema {
    /// The track of a group, decided by its `tag` attribute.
    pub fn track_type_from_attrs(attrs: &Attrs) -> (r: Option<RtfTrack>)
        requires
            has_tag(attrs@),
        ensures
            r == attrs_track(attrs@),
    {
        let tag = attrs.get("tag").unwrap();
        if str_is(tag, "p") || str_is(tag, "h1") || str_is(tag, "h2") || str_is(tag, "h3") || str_is(
            tag,
            "h4",
        ) || str_is(tag, "h5") || str_is(tag, "h6") || str_is(tag, "pre") || str_is(tag, "html") {
            Some(RtfTrack::Blocks)
        } else if str_is(tag, "bullet") {
            Some(RtfTrack::BlockQuotes)
        } else if str_is(tag, "caret") {
            Some(RtfTrack::Markers)
        } else if str_is(tag, "hr") {
            Some(RtfTrack::BlockObjects)
        } else {
            None
        }
    }
}

/// The tracks under which a track may stand.
pub open spec fn track_parents(t: RtfTrack) -> Seq<RtfTrack> {
    match t {
        RtfTrack::Markers => seq![RtfTrack::Blocks],
        RtfTrack::Blocks => seq![RtfTrack::BlockQuotes],
        RtfTrack::BlockObjects => seq![RtfTrack::BlockQuotes],
        RtfTrack::BlockQuotes => seq![RtfTrack::BlockQuotes],
    }
}

/// The kind of each tag the schema knows: `p`, `h1`..`h6`, `pre` and `html`
/// are text blocks, `bullet` is a nestable list item, `caret` a caret and
/// `hr` a block without text.
pub proof fn law_tag_tracks()
    ensures
        tag_track("p"@) == Some(RtfTrack::Blocks),
        tag_track("h1"@) == Some(RtfTrack::Blocks),
        tag_track("h2"@) == Some(RtfTrack::Blocks),
        tag_track("h3"@) == Some(RtfTrack::Blocks),
        tag_track("h4"@) == Some(RtfTrack::Blocks),
        tag_track("h5"@) == Some(RtfTrack::Blocks),
        tag_track("h6"@) == Some(RtfTrack::Blocks),
        tag_track("pre"@) == Some(RtfTrack::Blocks),
        tag_track("html"@) == Some(RtfTrack::Blocks),
        tag_track("bullet"@) == Some(RtfTrack::BlockQuotes),
        tag_track("caret"@) == Some(RtfTrack::Markers),
        tag_track("hr"@) == Some(RtfTrack::BlockObjects),
{
    reveal_strlit("p");
    reveal_strlit("h1");
    reveal_strlit("h2");
    reveal_strlit("h3");
    reveal_strlit("h4");
    reveal_strlit("h5");
    reveal_strlit("h6");
    reveal_strlit("pre");
    reveal_strlit("html");
    reveal_strlit("bullet");
    reveal_strlit("caret");
    reveal_strlit("hr");
    assert("p"@.len() != "h1"@.len());
    assert("p"@.len() != "h2"@.len());
    assert("p"@.len() != "h3"@.len());
    assert("p"@.len() != "h4"@.len());
    assert("p"@.len() != "h5"@.len());
    assert("p"@.len() != "h6"@.len());
    assert("p"@.len() != "pre"@.len());
    assert("p"@.len() != "html"@.len());
    assert("p"@.len() != "bullet"@.len());
    assert("p"@.len() != "caret"@.len());
    assert("p"@.len() != "hr"@.len());
    assert("h1"@[1] != "h2"@[1]);
    assert("h1"@[1] != "h3"@[1]);
    assert("h1"@[1] != "h4"@[1]);
    assert("h1"@[1] != "h5"@[1]);
    assert("h1"@[1] != "h6"@[1]);
    assert("h1"@.len() != "pre"@.len());
    assert("h1"@.len() != "html"@.len());
    assert("h1"@.len() != "bullet"@.len());
    assert("h1"@.len() != "caret"@.len());
    assert("h1"@[1] != "hr"@[1]);
    assert("h2"@[1] != "h3"@[1]);
    assert("h2"@[1] != "h4"@[1]);
    assert("h2"@[1] != "h5"@[1]);
    assert("h2"@[1] != "h6"@[1]);
    assert("h2"@.len() != "pre"@.len());
    assert("h2"@.len() != "html"@.len());
    assert("h2"@.len() != "bullet"@.len());
    assert("h2"@.len() != "caret"@.len());
    assert("h2"@[1] != "hr"@[1]);
    assert("h3"@[1] != "h4"@[1]);
    assert("h3"@[1] != "h5"@[1]);
    assert("h3"@[1] != "h6"@[1]);
    assert("h3"@.len() != "pre"@.len());
    assert("h3"@.len() != "html"@.len());
    assert("h3"@.len() != "bullet"@.len());
    assert("h3"@.len() != "caret"@.len());
    assert("h3"@[1] != "hr"@[1]);
    assert("h4"@[1] != "h5"@[1]);
    assert("h4"@[1] != "h6"@[1]);
    assert("h4"@.len() != "pre"@.len());
    assert("h4"@.len() != "html"@.len());
    assert("h4"@.len() != "bullet"@.len());
    assert("h4"@.len() != "caret"@.len());
    assert("h4"@[1] != "hr"@[1]);
    assert("h5"@[1] != "h6"@[1]);
    assert("h5"@.len() != "pre"@.len());
    assert("h5"@.len() != "html"@.len());
    assert("h5"@.len() != "bullet"@.len());
    assert("h5"@.len() != "caret"@.len());
    assert("h5"@[1] != "hr"@[1]);
    assert("h6"@.len() != "pre"@.len());
    assert("h6"@.len() != "html"@.len());
    assert("h6"@.len() != "bullet"@.len());
    assert("h6"@.len() != "caret"@.len());
    assert("h6"@[1] != "hr"@[1]);
    assert("pre"@.len() != "html"@.len());
    assert("pre"@.len() != "bullet"@.len());
    assert("pre"@.len() != "caret"@.len());
    assert("pre"@.len() != "hr"@.len());
    assert("html"@.len() != "bullet"@.len());
    assert("html"@.len() != "caret"@.len());
    assert("html"@.len() != "hr"@.len());
    assert("bullet"@.len() != "caret"@.len());
    assert("bullet"@.len() != "hr"@.len());
    assert("caret"@.len() != "hr"@.len());
}

/// Where each kind may stand: a list item inside a list item (lists nest),
/// a text block or a block without text inside a list item, a caret inside
/// a text block, and nothing else inside anything.
pub proof fn law_track_parents(child: RtfTrack, parent: RtfTrack)
    ensures
        track_parents(child).contains(parent) <==> match child {
            RtfTrack::Markers => parent == RtfTrack::Blocks,
            _ => parent == RtfTrack::BlockQuotes,
        },
{
    match child {
        RtfTrack::Markers => assert(seq![RtfTrack::Blocks][0] == RtfTrack::Blocks),
        _ => assert(seq![RtfTrack::BlockQuotes][0] == RtfTrack::BlockQuotes),
    }
}

impl RtfTrack {
    /// The tracks under which this track may stand.
    pub fn parents(&self) -> (r: Vec<RtfTrack>)
        ensures
            r@ == track_parents(*self),
    {
        match self {
            RtfTrack::Markers => vec![RtfTrack::Blocks],
            RtfTrack::Blocks => vec![RtfTrack::BlockQuotes],
            RtfTrack::BlockObjects => vec![RtfTrack::BlockQuotes],
            RtfTrack::BlockQuotes => vec![RtfTrack::BlockQuotes],
        }
    }

    /// Whether this track may stand at the top level of a document.
    pub fn allowed_in_root(&self) -> (r: bool)
        ensures
            r == (*self == RtfTrack::Blocks || *self == RtfTrack::BlockQuotes || *self
                == RtfTrack::BlockObjects),
    {
        match self {
            RtfTrack::Blocks | RtfTrack::BlockQuotes | RtfTrack::BlockObjects => true,
            RtfTrack::Markers => false,
        }
    }

    /// Whether characters may stand directly inside a group of this track.
    pub fn supports_text(&self) -> (r: bool)
        ensures
            r == (*self == RtfTrack::Blocks),
    {
        match self {
            RtfTrack::Blocks => true,
            _ => false,
        }
    }
}

} // verus!
