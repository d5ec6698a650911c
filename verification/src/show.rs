//! Treaps in print.

use crate::data::Element;
use crate::treap::Treap;
use crate::treap_node::TreapNode;
use core::fmt::Display;
use vstd::prelude::*;
use vstd::string::*;

verus! {

/// Whether `text` is what `to_string` has given for `a`.
pub open spec fn shown<A: Display>(a: A, text: Seq<char>) -> bool {
    exists|s: String| #[trigger] to_string_from_display_ensures::<A>(&a, s) && s@ == text
}

/// An element in print, from its value and its priority in print.
pub open spec fn bracketed(value: Seq<char>, priority: Seq<char>) -> Seq<char> {
    "<"@ + value + ", "@ + priority + ">"@
}

/// A tree in print, from its root and its two subtrees in print.
pub open spec fn framed(left: Seq<char>, element: Seq<char>, right: Seq<char>) -> Seq<char> {
    "( "@ + left + " "@ + element + " "@ + right + " )"@
}

impl<T: Ord + Display, P: Ord + Display> Element<T, P> {
    /// Whether `text` shows this element: its value and its priority
    /// between angle brackets.
    pub open spec fn shows(self, text: Seq<char>) -> bool {
        exists|v: Seq<char>, p: Seq<char>|
            shown(*self.value(), v) && shown(*self.priority(), p) && text == #[trigger] bracketed(
                v,
                p,
            )
    }

    /// The element in print: `<value, priority>`.
    pub fn to_string(&self) -> (text: String)
        ensures
            self.shows(text@),
    {
        let v = self.value().to_string();
        let p = self.priority().to_string();
        let mut text = String::from_str("<");
        text.append(v.as_str());
        text.append(", ");
        text.append(p.as_str());
        text.append(">");
        proof {
            assert(shown(*self.value(), v@));
            assert(shown(*self.priority(), p@));
            assert(text@ == bracketed(v@, p@));
        }
        text
    }
}

impl<T: Ord + Display, P: Ord + Display> TreapNode<T, P> {
    /// Whether `text` shows this tree: between round brackets the left
    /// subtree, the root and the right subtree, with `_` for a subtree that
    /// is not there.
    pub open spec fn shows(self, text: Seq<char>) -> bool
        decreases self,
    {
        exists|l: Seq<char>, e: Seq<char>, r: Seq<char>|
            {
                &&& match self.left {
                    None => l == "_"@,
                    Some(n) => n.shows(l),
                }
                &&& self.element.shows(e)
                &&& match self.right {
                    None => r == "_"@,
                    Some(n) => n.shows(r),
                }
                &&& text == #[trigger] framed(l, e, r)
            }
    }

    /// The tree in print: `( left root right )`.
    pub fn to_string(&self) -> (text: String)
        ensures
            self.shows(text@),
        decreases self,
    {
        let l = match &self.left {
            None => String::from_str("_"),
            Some(n) => n.to_string(),
        };
        let e = self.element.to_string();
        let r = match &self.right {
            None => String::from_str("_"),
            Some(n) => n.to_string(),
        };
        let mut text = String::from_str("( ");
        text.append(l.as_str());
        text.append(" ");
        text.append(e.as_str());
        text.append(" ");
        text.append(r.as_str());
        text.append(" )");
        proof {
            assert(text@ == framed(l@, e@, r@));
        }
        text
    }
}

impl<T: Ord + Display, P: Ord + Display> Treap<T, P> {
    /// Whether `text` shows this treap: its tree, or `nil` where it holds
    /// nothing.
    pub open spec fn shows(self, text: Seq<char>) -> bool {
        match self.tree() {
            None => text == "nil"@,
            Some(n) => n.shows(text),
        }
    }

    /// The treap in print.
    pub fn to_string(&self) -> (text: String)
        ensures
            self.shows(text@),
    {
        match self.root() {
            None => String::from_str("nil"),
            Some(r) => r.to_string(),
        }
    }
}

} // verus!
