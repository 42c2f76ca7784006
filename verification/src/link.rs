//! One entry of the outline: a display title, a destination, and an optional
//! ordered sequence of child entries. Title and destination are plain text
//! with no further interpretation; children default to absent.

use vstd::prelude::*;

verus! {

/// Mathematical view of a `Link`.
pub struct LinkView {
    pub name: Seq<char>,
    pub destination: Seq<char>,
    pub children: Option<Seq<Link>>,
}

/// One link-derived node of the outline.
#[derive(Debug)]
pub struct Link {
    name: String,
    destination: String,
    children: Option<Vec<Link>>,
}

impl View for Link {
    type V = LinkView;

    closed spec fn view(&self) -> LinkView {
        LinkView {
            name: self.name@,
            destination: self.destination@,
            children: match self.children {
                Option::None => Option::None,
                Option::Some(v) => Option::Some(v@),
            },
        }
    }
}

impl Link {
    pub fn new(name: &str, destination: &str) -> (r: Link)
        ensures
            r@.name == name@,
            r@.destination == destination@,
            r@.children is None,
    {
        Link { name: name.to_owned(), destination: destination.to_owned(), children: None }
    }

    pub fn set_children(&mut self, children: Vec<Link>) -> (r: &mut Link)
        ensures
            r@.name == old(self)@.name,
            r@.destination == old(self)@.destination,
            r@.children == Some(children@),
            *final(self) == *final(r),
    {
        self.children = Some(children);
        self
    }

    pub fn name(&self) -> (r: &String)
        ensures
            r@ == self@.name,
    {
        &self.name
    }

    pub fn destination(&self) -> (r: &String)
        ensures
            r@ == self@.destination,
    {
        &self.destination
    }
}

} // verus!
