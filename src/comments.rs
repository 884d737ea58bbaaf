//! The comments a parser collects between declarations: those detached from
//! any declaration, and the one that may yet attach to the next.
use vstd::prelude::*;

verus! {

#[derive(Debug, Clone)]
pub struct Comments {
    detached: Vec<String>,
    current: Option<String>,
}

impl View for Comments {
    type V = (Seq<String>, Option<String>);

    closed spec fn view(&self) -> (Seq<String>, Option<String>) {
        (self.detached@, self.current)
    }
}

impl Comments {
    pub fn new() -> (r: Comments)
        ensures
            r@ == (Seq::<String>::empty(), None::<String>),
    {
        Comments { detached: Vec::new(), current: None }
    }

    /// Records a comment: the one held so far becomes detached.
    pub fn comment(&mut self, comment: String)
        ensures
            final(self)@.0 == match old(self)@.1 {
                Some(c) => old(self)@.0.push(c),
                None => old(self)@.0,
            },
            final(self)@.1 == Some(comment),
    {
        let mut previous = Some(comment);
        std::mem::swap(&mut previous, &mut self.current);
        match previous {
            Some(c) => self.detached.push(c),
            None => {},
        }
    }

    /// Forgets every comment held.
    pub fn reset(&mut self)
        ensures
            final(self)@ == (Seq::<String>::empty(), None::<String>),
    {
        self.detached.clear();
        self.current = None;
    }

    /// Hands out the detached comments and the current one, leaving none.
    pub fn take(&mut self) -> (r: (Vec<String>, Option<String>))
        ensures
            r.0@ == old(self)@.0,
            r.1 == old(self)@.1,
            final(self)@ == (Seq::<String>::empty(), None::<String>),
    {
        let mut detached = Vec::new();
        std::mem::swap(&mut detached, &mut self.detached);
        let mut current = None;
        std::mem::swap(&mut current, &mut self.current);
        (detached, current)
    }
}

} // verus!
