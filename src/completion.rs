use vstd::prelude::*;

use crate::buffer::{Point, TextBuffer};

verus! {

/// One completion candidate.
#[derive(Clone, Debug, PartialEq)]
pub struct CompletionItem {
    /// The text inserted when this candidate is accepted.
    pub label: String,
    /// A short description, for display only.
    pub detail: Option<String>,
    /// A key to sort by in place of the label.
    pub sort_text: Option<String>,
}

impl CompletionItem {
    pub fn new(label: String) -> (r: Self)
        ensures
            r.label == label,
            r.detail.is_none(),
            r.sort_text.is_none(),
    {
        CompletionItem { label, detail: None, sort_text: None }
    }

    pub fn with_detail(self, detail: String) -> (r: Self)
        ensures
            r.label == self.label,
            r.detail == Some(detail),
            r.sort_text == self.sort_text,
    {
        let mut item = self;
        item.detail = Some(detail);
        item
    }

    pub fn with_sort_text(self, sort_text: String) -> (r: Self)
        ensures
            r.label == self.label,
            r.detail == self.detail,
            r.sort_text == Some(sort_text),
    {
        let mut item = self;
        item.sort_text = Some(sort_text);
        item
    }
}

/// Index after `i` among `n` items, wrapping to the first.
pub open spec fn next_index(i: int, n: int) -> int {
    (i + 1) % n
}

/// Index before `i` among `n` items, wrapping to the last.
pub open spec fn prev_index(i: int, n: int) -> int {
    if i == 0 {
        n - 1
    } else {
        i - 1
    }
}

/// The state of the completion popup.
#[derive(Clone, Debug)]
pub struct AutoCompletionState {
    /// The word fragment being completed; empty when no session is open.
    pub prefix: String,
    /// Position of the start of the fragment when it was last computed.
    pub start_pos: Point,
    /// Position of the end of the fragment when it was last computed.
    pub end_pos: Point,
    /// The candidates, in the order shown.
    pub items: Vec<CompletionItem>,
    /// Index of the highlighted candidate.
    pub selected_index: usize,
    /// Whether a session is open.
    pub is_active: bool,
    /// Whether the popup is to be drawn.
    pub show_popup: bool,
}

impl AutoCompletionState {
    /// The highlighted index lies among the candidates, if there are any.
    pub open spec fn wf(&self) -> bool {
        self.items@.len() > 0 ==> self.selected_index < self.items@.len()
    }

    /// No session: no fragment, no candidates, nothing highlighted or shown.
    pub open spec fn is_cleared(&self) -> bool {
        &&& self.prefix@.len() == 0
        &&& self.items@.len() == 0
        &&& self.selected_index == 0
        &&& !self.is_active
        &&& !self.show_popup
    }

    /// `self` is `before` cleared; the span positions are kept.
    pub open spec fn cleared_from(&self, before: AutoCompletionState) -> bool {
        &&& self.is_cleared()
        &&& self.start_pos == before.start_pos
        &&& self.end_pos == before.end_pos
    }

    /// `self` is `before` with only the highlighted index changed, to `i`.
    pub open spec fn moved_from(&self, before: AutoCompletionState, i: int) -> bool {
        &&& self.selected_index == i
        &&& self.prefix == before.prefix
        &&& self.items == before.items
        &&& self.start_pos == before.start_pos
        &&& self.end_pos == before.end_pos
        &&& self.is_active == before.is_active
        &&& self.show_popup == before.show_popup
    }

    /// Whether `accept_current` applies the highlighted candidate.
    pub open spec fn can_accept(&self) -> bool {
        self.is_active && self.items@.len() > 0 && self.selected_index < self.items@.len()
    }

    pub fn new() -> (r: Self)
        ensures
            r.is_cleared(),
            r.wf(),
            r.start_pos == (Point { x: 0, y: 0 }),
            r.end_pos == (Point { x: 0, y: 0 }),
    {
        AutoCompletionState {
            prefix: String::new(),
            start_pos: Point { x: 0, y: 0 },
            end_pos: Point { x: 0, y: 0 },
            items: Vec::new(),
            selected_index: 0,
            is_active: false,
            show_popup: false,
        }
    }

    /// Closes the session.
    pub fn reset(&mut self)
        ensures
            final(self).cleared_from(*old(self)),
            final(self).wf(),
    {
        self.prefix = String::new();
        self.items.clear();
        self.selected_index = 0;
        self.is_active = false;
        self.show_popup = false;
    }

    /// Highlights the next candidate, wrapping from the last to the first.
    pub fn select_next(&mut self)
        ensures
            final(self).moved_from(
                *old(self),
                if old(self).items@.len() == 0 {
                    old(self).selected_index as int
                } else {
                    next_index(old(self).selected_index as int, old(self).items@.len() as int)
                },
            ),
            old(self).items@.len() > 0 ==> final(self).selected_index < final(self).items@.len(),
            old(self).wf() ==> final(self).wf(),
    {
        let n = self.items.len();
        if n > 0 {
            proof {
                vstd::arithmetic::div_mod::lemma_add_mod_noop_right(
                    1,
                    self.selected_index as int,
                    n as int,
                );
            }
            self.selected_index = (self.selected_index % n + 1) % n;
        }
    }

    /// Highlights the previous candidate, wrapping from the first to the last.
    pub fn select_prev(&mut self)
        ensures
            final(self).moved_from(
                *old(self),
                if old(self).items@.len() == 0 {
                    old(self).selected_index as int
                } else {
                    prev_index(old(self).selected_index as int, old(self).items@.len() as int)
                },
            ),
            old(self).wf() ==> final(self).wf(),
    {
        let n = self.items.len();
        if n > 0 {
            if self.selected_index == 0 {
                self.selected_index = n - 1;
            } else {
                self.selected_index = self.selected_index - 1;
            }
        }
    }

    /// Replaces the fragment before the cursor with the highlighted
    /// candidate and closes the session: deletes as many bytes before the
    /// cursor as the fragment has (fewer only at the start of the text), then
    /// writes the candidate's label. Does nothing, and returns false, unless a session is open with
    /// a candidate highlighted.
    pub fn accept_current(&mut self, buffer: &mut TextBuffer) -> (r: bool)
        requires
            old(buffer).wf(),
        ensures
            r == old(self).can_accept(),
            final(buffer).wf(),
            r ==> final(self).cleared_from(*old(self)),
            r ==> ({
                let t = old(buffer).text();
                let c = old(buffer).cursor();
                let k = vstd::math::min(vstd::utf8::encode_utf8(old(self).prefix@).len() as int, c);
                let label = vstd::utf8::encode_utf8(
                    old(self).items@[old(self).selected_index as int].label@,
                );
                &&& final(buffer).text() == t.subrange(0, c - k) + label + t.subrange(c, t.len() as int)
                &&& final(buffer).cursor() == c - k + label.len()
            }),
            !r ==> *final(self) == *old(self) && *final(buffer) == *old(buffer),
    {
        if self.is_active && self.items.len() > 0 && self.selected_index < self.items.len() {
            let item = &self.items[self.selected_index];
            let n = self.prefix.as_str().as_bytes().len();
            let ghost t = buffer.text();
            let ghost c = buffer.cursor();
            buffer.delete_backward(n);
            let ghost t1 = buffer.text();
            let ghost c1 = buffer.cursor();
            let bytes = item.label.as_str().as_bytes();
            assert(bytes@ == vstd::utf8::encode_utf8(item.label@));
            buffer.write_canon(bytes);
            proof {
                assert(t1.subrange(0, c1) =~= t.subrange(0, c1));
                assert(t1.subrange(c1, t1.len() as int) =~= t.subrange(c, t.len() as int));
                assert(n == vstd::utf8::encode_utf8(self.prefix@).len());
            }
            self.reset();
            true
        } else {
            false
        }
    }
}

impl Default for AutoCompletionState {
    fn default() -> (r: Self)
        ensures
            r.is_cleared(),
            r.wf(),
    {
        Self::new()
    }
}

/// Moving to the next candidate and then to the previous one comes back to
/// the candidate first highlighted, as does moving to the previous and then
/// to the next, for any open list of candidates.
pub proof fn lemma_next_prev_round_trip(
    s0: AutoCompletionState,
    s1: AutoCompletionState,
    s2: AutoCompletionState,
    forward_first: bool,
)
    requires
        s0.wf(),
        s0.items@.len() > 0,
        forward_first ==> s1.moved_from(s0, next_index(s0.selected_index as int, s0.items@.len() as int)),
        forward_first ==> s2.moved_from(s1, prev_index(s1.selected_index as int, s1.items@.len() as int)),
        !forward_first ==> s1.moved_from(s0, prev_index(s0.selected_index as int, s0.items@.len() as int)),
        !forward_first ==> s2.moved_from(s1, next_index(s1.selected_index as int, s1.items@.len() as int)),
    ensures
        s2.selected_index == s0.selected_index,
        s2.items == s0.items,
{
    let n = s0.items@.len() as int;
    let i = s0.selected_index as int;
    if forward_first {
        if i + 1 < n {
            assert(next_index(i, n) == i + 1) by {
                vstd::arithmetic::div_mod::lemma_small_mod((i + 1) as nat, n as nat);
            }
        } else {
            assert(next_index(i, n) == 0) by {
                vstd::arithmetic::div_mod::lemma_mod_self_0(n);
            }
        }
    } else {
        let j = prev_index(i, n);
        if j + 1 < n {
            assert(next_index(j, n) == j + 1) by {
                vstd::arithmetic::div_mod::lemma_small_mod((j + 1) as nat, n as nat);
            }
        } else {
            assert(next_index(j, n) == 0) by {
                vstd::arithmetic::div_mod::lemma_mod_self_0(n);
            }
        }
    }
}

/// Closing a session twice leaves what closing it once leaves: no session,
/// and the span positions of before.
pub proof fn lemma_cancel_twice(s0: AutoCompletionState, s1: AutoCompletionState, s2: AutoCompletionState)
    requires
        s1.cleared_from(s0),
        s2.cleared_from(s1),
    ensures
        s2.cleared_from(s0),
        s2.prefix@ == s1.prefix@,
        s2.items@ == s1.items@,
        s2.selected_index == s1.selected_index,
        s2.is_active == s1.is_active,
        s2.show_popup == s1.show_popup,
{
}

} // verus!
