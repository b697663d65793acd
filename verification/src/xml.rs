//! A plain model of a parsed XML element tree: what the LiveSplit reader looks at.

use vstd::prelude::*;
use crate::text::chars_of;

verus! {

/// An XML element as the parser delivers it.
pub struct XmlElement {
    /// The local part of the element's name.
    pub local_name: String,
    /// The namespace name the element belongs to, if any.
    pub namespace: Option<String>,
    /// Lookups of attributes outside any namespace, as (local name, value if present),
    /// for the names that were asked for when the document was read.
    pub attributes: Vec<(String, Option<String>)>,
    /// The content when it is text only (an empty element has the empty text);
    /// `None` when the element holds child elements or processing instructions.
    pub text: Option<String>,
    /// The child elements, in document order.
    pub children: Vec<XmlElement>,
}

/// The element has this local name and no namespace.
pub open spec fn is_named(e: XmlElement, name: Seq<char>) -> bool {
    e.local_name@ == name && e.namespace is None
}

/// The index of the first element in `s` with the given name.
pub open spec fn first_named(s: Seq<XmlElement>, name: Seq<char>) -> Option<int>
    decreases s.len(),
{
    if s.len() == 0 {
        None
    } else if is_named(s[0], name) {
        Some(0)
    } else {
        match first_named(s.drop_first(), name) {
            Some(i) => Some(i + 1),
            None => None,
        }
    }
}

/// The first child element with the given name.
pub open spec fn child(e: XmlElement, name: Seq<char>) -> Option<XmlElement> {
    match first_named(e.children@, name) {
        Some(i) => Some(e.children@[i]),
        None => None,
    }
}

/// The value of the first attribute with the given name.
pub open spec fn attribute_in(attrs: Seq<(String, Option<String>)>, name: Seq<char>) -> Option<
    Seq<char>,
>
    decreases attrs.len(),
{
    if attrs.len() == 0 {
        None
    } else if attrs[0].0@ == name {
        match attrs[0].1 {
            Some(v) => Some(v@),
            None => None,
        }
    } else {
        attribute_in(attrs.drop_first(), name)
    }
}

pub open spec fn attribute(e: XmlElement, name: Seq<char>) -> Option<Seq<char>> {
    attribute_in(e.attributes@, name)
}

/// The element's text, if it holds text only.
pub open spec fn text_of(e: XmlElement) -> Option<Seq<char>> {
    match e.text {
        Some(t) => Some(t@),
        None => None,
    }
}

/// The element's text, or `default` when it holds more than text.
pub open spec fn text_or(e: XmlElement, default: Seq<char>) -> Seq<char> {
    match e.text {
        Some(t) => t@,
        None => default,
    }
}

/// The children with the given name, in order.
pub open spec fn children_named(e: XmlElement, name: Seq<char>) -> Seq<XmlElement> {
    e.children@.filter(named(name))
}

/// The test "has this name" as a predicate.
pub open spec fn named(name: Seq<char>) -> spec_fn(XmlElement) -> bool {
    |c: XmlElement| is_named(c, name)
}

/// Whether two texts are equal.
pub fn chars_equal(a: &Vec<char>, b: &Vec<char>) -> (res: bool)
    ensures
        res == (a@ == b@),
{
    if a.len() != b.len() {
        return false;
    }
    let mut i: usize = 0;
    while i < a.len()
        invariant
            a@.len() == b@.len(),
            i <= a@.len(),
            forall|j: int| 0 <= j < i ==> a@[j] == b@[j],
        decreases a@.len() - i,
    {
        if a[i] != b[i] {
            return false;
        }
        i = i + 1;
    }
    assert(a@ == b@);
    true
}

/// Whether a string equals a string slice.
pub fn str_equal(a: &String, b: &str) -> (res: bool)
    ensures
        res == (a@ == b@),
{
    let x = chars_of(a.as_str());
    let y = chars_of(b);
    chars_equal(&x, &y)
}

impl XmlElement {
    /// Whether the element has this local name and no namespace.
    pub fn has_name(&self, name: &str) -> (res: bool)
        ensures
            res == is_named(*self, name@),
    {
        self.namespace.is_none() && str_equal(&self.local_name, name)
    }

    /// The first child element with the given name.
    pub fn child(&self, name: &str) -> (res: Option<&XmlElement>)
        ensures
            match res {
                Some(c) => child(*self, name@) == Some(*c),
                None => child(*self, name@) is None,
            },
    {
        let mut i: usize = 0;
        while i < self.children.len()
            invariant
                i <= self.children@.len(),
                forall|j: int| 0 <= j < i ==> !is_named(#[trigger] self.children@[j], name@),
            decreases self.children@.len() - i,
        {
            if self.children[i].has_name(name) {
                proof {
                    lemma_first_named_found(self.children@, name@, i as int);
                }
                return Some(&self.children[i]);
            }
            i = i + 1;
        }
        proof {
            lemma_first_named_absent(self.children@, name@);
        }
        None
    }

    /// The value of the first attribute with the given name.
    pub fn attribute(&self, name: &str) -> (res: Option<&String>)
        ensures
            match res {
                Some(v) => attribute(*self, name@) == Some(v@),
                None => attribute(*self, name@) is None,
            },
    {
        let mut i: usize = 0;
        assert(self.attributes@.skip(0) == self.attributes@);
        while i < self.attributes.len()
            invariant
                i <= self.attributes@.len(),
                attribute(*self, name@) == attribute_in(self.attributes@.skip(i as int), name@),
            decreases self.attributes@.len() - i,
        {
            let ghost rest = self.attributes@.skip(i as int);
            assert(rest.drop_first() == self.attributes@.skip(i + 1));
            if str_equal(&self.attributes[i].0, name) {
                return match &self.attributes[i].1 {
                    Some(v) => Some(v),
                    None => None,
                };
            }
            i = i + 1;
        }
        None
    }

    /// The element's text, if it holds text only.
    pub fn text(&self) -> (res: Option<&String>)
        ensures
            match res {
                Some(t) => text_of(*self) == Some(t@),
                None => text_of(*self) is None,
            },
    {
        match &self.text {
            Some(t) => Some(t),
            None => None,
        }
    }

    /// The children with the given name, in order.
    pub fn children_named(&self, name: &str) -> (res: Vec<&XmlElement>)
        ensures
            res@.len() == children_named(*self, name@).len(),
            forall|i: int| 0 <= i < res@.len() ==> *res@[i] == #[trigger] children_named(*self, name@)[i],
    {
        let mut out: Vec<&XmlElement> = Vec::new();
        let ghost pred = named(name@);
        let mut i: usize = 0;
        while i < self.children.len()
            invariant
                i <= self.children@.len(),
                pred == named(name@),
                out@.len() == self.children@.take(i as int).filter(pred).len(),
                forall|j: int| 0 <= j < out@.len() ==> *out@[j] == #[trigger] self.children@.take(i as int).filter(pred)[j],
            decreases self.children@.len() - i,
        {
            let ghost t = self.children@.take(i + 1);
            let keep = self.children[i].has_name(name);
            proof {
                reveal_with_fuel(Seq::<_>::filter, 1);
                assert(t.drop_last() == self.children@.take(i as int));
                assert(t.last() == self.children@[i as int]);
                assert(is_named(self.children@[i as int], name@) == keep);
                assert(pred(t.last()) == is_named(t.last(), name@));
                if keep {
                    assert(t.filter(pred) == self.children@.take(i as int).filter(pred).push(self.children@[i as int]));
                } else {
                    assert(t.filter(pred) == self.children@.take(i as int).filter(pred));
                }
            }
            if keep {
                out.push(&self.children[i]);
            }
            i = i + 1;
        }
        assert(self.children@.take(self.children@.len() as int) == self.children@);
        out
    }
}

pub proof fn lemma_first_named_found(s: Seq<XmlElement>, name: Seq<char>, i: int)
    requires
        0 <= i < s.len(),
        is_named(s[i], name),
        forall|j: int| 0 <= j < i ==> !is_named(#[trigger] s[j], name),
    ensures
        first_named(s, name) == Some(i),
    decreases i,
{
    if i > 0 {
        assert(!is_named(s[0], name));
        assert forall|j: int| 0 <= j < i - 1 implies !is_named(#[trigger] s.drop_first()[j], name) by {
            assert(s.drop_first()[j] == s[j + 1]);
        }
        lemma_first_named_found(s.drop_first(), name, i - 1);
    }
}

pub proof fn lemma_first_named_absent(s: Seq<XmlElement>, name: Seq<char>)
    requires
        forall|j: int| 0 <= j < s.len() ==> !is_named(#[trigger] s[j], name),
    ensures
        first_named(s, name) is None,
    decreases s.len(),
{
    if s.len() > 0 {
        assert(!is_named(s[0], name));
        assert forall|j: int| 0 <= j < s.len() - 1 implies !is_named(#[trigger] s.drop_first()[j], name) by {
            assert(s.drop_first()[j] == s[j + 1]);
        }
        lemma_first_named_absent(s.drop_first(), name);
    }
}

} // verus!
