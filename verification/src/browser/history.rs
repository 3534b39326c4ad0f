//! Navigation history: back/forward stacks per tab.

use vstd::prelude::*;

verus! {

/// Per-tab navigation history (back/forward stacks).
pub struct History {
    back: Vec<String>,
    forward: Vec<String>,
}

impl View for History {
    type V = HistoryState;

    closed spec fn view(&self) -> HistoryState {
        HistoryState {
            back: self.back@.map_values(|s: String| s@),
            forward: self.forward@.map_values(|s: String| s@),
        }
    }
}

/// Abstract history state: the back stack and the forward stack, each listed
/// bottom to top.
pub struct HistoryState {
    pub back: Seq<Seq<char>>,
    pub forward: Seq<Seq<char>>,
}

/// Navigating away from `current`: it goes on the back stack and the forward
/// stack is emptied.
pub open spec fn push_state(h: HistoryState, current: Seq<char>) -> HistoryState {
    HistoryState { back: h.back.push(current), forward: Seq::empty() }
}

/// Going back from `current`: the top of the back stack is the destination and
/// `current` goes on the forward stack. Nothing changes when the back stack is empty.
pub open spec fn back_state(h: HistoryState, current: Seq<char>) -> (HistoryState, Option<Seq<char>>) {
    if h.back.len() == 0 {
        (h, None)
    } else {
        (HistoryState { back: h.back.drop_last(), forward: h.forward.push(current) }, Some(h.back.last()))
    }
}

/// Going forward from `current`: the top of the forward stack is the destination
/// and `current` goes on the back stack. Nothing changes when the forward stack is empty.
pub open spec fn forward_state(h: HistoryState, current: Seq<char>) -> (HistoryState, Option<Seq<char>>) {
    if h.forward.len() == 0 {
        (h, None)
    } else {
        (HistoryState { back: h.back.push(current), forward: h.forward.drop_last() }, Some(h.forward.last()))
    }
}

pub open spec fn opt_view(o: Option<String>) -> Option<Seq<char>> {
    match o {
        Some(s) => Some(s@),
        None => None,
    }
}

impl Default for History {
    fn default() -> (h: Self)
        ensures
            h@ == (HistoryState { back: Seq::empty(), forward: Seq::empty() }),
    {
        Self::new()
    }
}

impl History {
    pub fn new() -> (h: Self)
        ensures
            h@ == (HistoryState { back: Seq::empty(), forward: Seq::empty() }),
    {
        let h = History { back: Vec::new(), forward: Vec::new() };
        assert(h@.back =~= Seq::<Seq<char>>::empty());
        assert(h@.forward =~= Seq::<Seq<char>>::empty());
        h
    }

    /// Push current URL onto back stack before navigating away.
    /// Clears the forward stack.
    pub fn push(&mut self, current_url: String)
        ensures
            final(self)@ == push_state(old(self)@, current_url@),
    {
        let ghost u = current_url@;
        self.forward.clear();
        self.back.push(current_url);
        assert(self@.back =~= old(self)@.back.push(u));
        assert(self@.forward =~= Seq::<Seq<char>>::empty());
    }

    /// Go back: pops from back stack, pushes `current_url` onto forward.
    /// Returns the URL to navigate to, or `None` if at start.
    pub fn go_back(&mut self, current_url: &str) -> (r: Option<String>)
        ensures
            (final(self)@, opt_view(r)) == back_state(old(self)@, current_url@),
    {
        match self.back.pop() {
            None => None,
            Some(prev) => {
                self.forward.push(current_url.to_owned());
                assert(self@.back =~= old(self)@.back.drop_last());
                assert(self@.forward =~= old(self)@.forward.push(current_url@));
                Some(prev)
            },
        }
    }

    /// Go forward: pops from forward stack, pushes `current_url` onto back.
    /// Returns the URL to navigate to, or `None` if no forward history.
    pub fn go_forward(&mut self, current_url: &str) -> (r: Option<String>)
        ensures
            (final(self)@, opt_view(r)) == forward_state(old(self)@, current_url@),
    {
        match self.forward.pop() {
            None => None,
            Some(next) => {
                self.back.push(current_url.to_owned());
                assert(self@.forward =~= old(self)@.forward.drop_last());
                assert(self@.back =~= old(self)@.back.push(current_url@));
                Some(next)
            },
        }
    }

    pub fn can_go_back(&self) -> (b: bool)
        ensures
            b == (self@.back.len() > 0),
    {
        !self.back.is_empty()
    }

    pub fn can_go_forward(&self) -> (b: bool)
        ensures
            b == (self@.forward.len() > 0),
    {
        !self.forward.is_empty()
    }
}

/// Going back and then forward again returns to the page one started from and
/// leaves the history as it was.
pub proof fn law_back_then_forward(h: HistoryState, current: Seq<char>)
    requires
        h.back.len() > 0,
    ensures
        ({
            let (h1, prev) = back_state(h, current);
            let (h2, next) = forward_state(h1, prev.unwrap());
            next == Some(current) && h2 == h
        }),
{
    let (h1, prev) = back_state(h, current);
    assert(h1.back.push(prev.unwrap()) =~= h.back);
    assert(h1.forward.drop_last() =~= h.forward);
}

/// Going forward and then back again returns to the page one started from and
/// leaves the history as it was.
pub proof fn law_forward_then_back(h: HistoryState, current: Seq<char>)
    requires
        h.forward.len() > 0,
    ensures
        ({
            let (h1, next) = forward_state(h, current);
            let (h2, prev) = back_state(h1, next.unwrap());
            prev == Some(current) && h2 == h
        }),
{
    let (h1, next) = forward_state(h, current);
    assert(h1.forward.push(next.unwrap()) =~= h.forward);
    assert(h1.back.drop_last() =~= h.back);
}

/// A new navigation discards the forward history: nothing is left to go forward to.
pub proof fn law_push_clears_forward(h: HistoryState, current: Seq<char>, other: Seq<char>)
    ensures
        push_state(h, current).forward.len() == 0,
        forward_state(push_state(h, current), other).1 is None,
        back_state(push_state(h, current), other).1 == Some(current),
{
}

} // verus!
