//! The closed vocabulary of recognized element kinds, with the total,
//! bidirectional mapping between a kind and its tag-name text.

use vstd::prelude::*;
use crate::text::str_eq;

verus! {

/// The closed set of recognized tag names. No attribute storage exists:
/// an element is fully described by its kind.
#[derive(Clone, Copy, Debug, PartialEq, Eq, Structural)]
pub enum HtmlElementKind {
    Html,
    Head,
    Body,
    Title,
    P,
    Div,
    Span,
    H1,
    H2,
}

/// An element of the document tree; a thin wrapper around its kind.
#[derive(Clone, Copy, Debug, PartialEq, Eq, Structural)]
pub struct Element {
    kind: HtmlElementKind,
}

/// The tag-name text of a kind, as a sequence of characters.
pub open spec fn spec_tag_name(k: HtmlElementKind) -> Seq<char> {
    match k {
        HtmlElementKind::Html => "html"@,
        HtmlElementKind::Head => "head"@,
        HtmlElementKind::Body => "body"@,
        HtmlElementKind::Title => "title"@,
        HtmlElementKind::P => "p"@,
        HtmlElementKind::Div => "div"@,
        HtmlElementKind::Span => "span"@,
        HtmlElementKind::H1 => "h1"@,
        HtmlElementKind::H2 => "h2"@,
    }
}

/// The kind whose tag name is `name`, if any: the inverse of `spec_tag_name`.
pub open spec fn spec_kind_of_tag(name: Seq<char>) -> Option<HtmlElementKind> {
    if name == "html"@ {
        Some(HtmlElementKind::Html)
    } else if name == "head"@ {
        Some(HtmlElementKind::Head)
    } else if name == "body"@ {
        Some(HtmlElementKind::Body)
    } else if name == "title"@ {
        Some(HtmlElementKind::Title)
    } else if name == "p"@ {
        Some(HtmlElementKind::P)
    } else if name == "div"@ {
        Some(HtmlElementKind::Div)
    } else if name == "span"@ {
        Some(HtmlElementKind::Span)
    } else if name == "h1"@ {
        Some(HtmlElementKind::H1)
    } else if name == "h2"@ {
        Some(HtmlElementKind::H2)
    } else {
        None
    }
}

impl View for Element {
    type V = HtmlElementKind;

    closed spec fn view(&self) -> HtmlElementKind {
        self.kind
    }
}

impl Element {
    pub fn new(kind: HtmlElementKind) -> (e: Self)
        ensures
            e@ == kind,
    {
        Self { kind }
    }

    pub fn kind(&self) -> (k: &HtmlElementKind)
        ensures
            *k == self@,
    {
        &self.kind
    }

    /// The tag-name text of this element's kind.
    pub fn to_string(&self) -> (s: String)
        ensures
            s@ == spec_tag_name(self@),
    {
        match self.kind {
            HtmlElementKind::Html => "html".to_owned(),
            HtmlElementKind::Head => "head".to_owned(),
            HtmlElementKind::Body => "body".to_owned(),
            HtmlElementKind::Title => "title".to_owned(),
            HtmlElementKind::P => "p".to_owned(),
            HtmlElementKind::Div => "div".to_owned(),
            HtmlElementKind::Span => "span".to_owned(),
            HtmlElementKind::H1 => "h1".to_owned(),
            HtmlElementKind::H2 => "h2".to_owned(),
        }
    }

    /// The element whose tag name is `s`; `None` when `s` is outside the
    /// vocabulary, so that a caller decides whether to skip or abort.
    pub fn from_str(s: &str) -> (r: Option<Element>)
        ensures
            r matches Some(e) ==> spec_kind_of_tag(s@) == Some(e@),
            r is None ==> spec_kind_of_tag(s@) is None,
    {
        if str_eq(s, "html") {
            Some(Element { kind: HtmlElementKind::Html })
        } else if str_eq(s, "head") {
            Some(Element { kind: HtmlElementKind::Head })
        } else if str_eq(s, "body") {
            Some(Element { kind: HtmlElementKind::Body })
        } else if str_eq(s, "title") {
            Some(Element { kind: HtmlElementKind::Title })
        } else if str_eq(s, "p") {
            Some(Element { kind: HtmlElementKind::P })
        } else if str_eq(s, "div") {
            Some(Element { kind: HtmlElementKind::Div })
        } else if str_eq(s, "span") {
            Some(Element { kind: HtmlElementKind::Span })
        } else if str_eq(s, "h1") {
            Some(Element { kind: HtmlElementKind::H1 })
        } else if str_eq(s, "h2") {
            Some(Element { kind: HtmlElementKind::H2 })
        } else {
            None
        }
    }
}

/// The other direction of the bidirectional mapping: a name that resolves to
/// a kind is that kind's tag name.
pub proof fn lemma_kind_of_tag_roundtrip(name: Seq<char>, k: HtmlElementKind)
    requires
        spec_kind_of_tag(name) == Some(k),
    ensures
        spec_tag_name(k) == name,
{
}

/// The mapping between kinds and tag names is bidirectional: reading a kind's
/// tag name back yields the same kind.
pub proof fn lemma_tag_name_roundtrip(k: HtmlElementKind)
    ensures
        spec_kind_of_tag(spec_tag_name(k)) == Some(k),
{
    reveal_strlit("html");
    reveal_strlit("head");
    reveal_strlit("body");
    reveal_strlit("title");
    reveal_strlit("p");
    reveal_strlit("div");
    reveal_strlit("span");
    reveal_strlit("h1");
    reveal_strlit("h2");
    assert("html"@.len() == 4);
    assert("head"@.len() == 4);
    assert("body"@.len() == 4);
    assert("title"@.len() == 5);
    assert("p"@.len() == 1);
    assert("div"@.len() == 3);
    assert("span"@.len() == 4);
    assert("h1"@.len() == 2);
    assert("h2"@.len() == 2);
    assert("html"@[0] == 'h' && "html"@[1] == 't');
    assert("head"@[0] == 'h' && "head"@[1] == 'e');
    assert("body"@[0] == 'b');
    assert("span"@[0] == 's');
    assert("h1"@[1] == '1');
    assert("h2"@[1] == '2');
}

} // verus!
