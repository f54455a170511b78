use vstd::prelude::*;

use crate::buffer::{point_of, Point, TextBuffer};
use crate::completion::{next_index, prev_index, AutoCompletionState};
use crate::provider::{label_bytes, string_of_word, CompletionProvider, WordCompletionProvider};
use crate::words::{byte_chars, extends, is_token, is_word_byte, word_byte};
use vstd::utf8::{encode_utf8, valid_utf8};

verus! {

/// Shortest fragment that opens a session.
pub const MIN_PREFIX_LEN: usize = 2;

/// Start of the run of word bytes that ends at offset `c`.
pub open spec fn fragment_start(t: Seq<u8>, c: int) -> int
    decreases c,
{
    if c > 0 && is_word_byte(t[c - 1]) {
        fragment_start(t, c - 1)
    } else {
        c
    }
}

/// The fragment before offset `c`: the characters whose codes are the word
/// bytes that immediately precede it, one per byte.
pub open spec fn fragment_before(t: Seq<u8>, c: int) -> Seq<char> {
    byte_chars(t.subrange(fragment_start(t, c), c))
}

pub proof fn lemma_fragment_start_bounds(t: Seq<u8>, c: int)
    requires
        0 <= c <= t.len(),
    ensures
        0 <= fragment_start(t, c) <= c,
        forall|k: int| fragment_start(t, c) <= k < c ==> is_word_byte(#[trigger] t[k]),
        fragment_start(t, c) == 0 || !is_word_byte(t[fragment_start(t, c) - 1]),
    decreases c,
{
    if c > 0 && is_word_byte(t[c - 1]) {
        lemma_fragment_start_bounds(t, c - 1);
    }
}

/// What a trigger at offset `c` of `t` leaves, from `before`, in `after`,
/// with `provider` as the source: a fragment whose UTF-8 encoding is shorter
/// than the threshold closes the session; otherwise a session opens on the
/// provider's candidates, spanning the fragment's bytes, or closes when it
/// offers none.
pub open spec fn trigger_outcome<P: CompletionProvider>(
    provider: P,
    before: AutoCompletionState,
    after: AutoCompletionState,
    t: Seq<u8>,
    c: int,
) -> bool {
    let p = fragment_before(t, c);
    if encode_utf8(p).len() < MIN_PREFIX_LEN {
        after.cleared_from(before)
    } else if after.is_active {
        &&& after.prefix@ == p
        &&& provider.offers(t, p, after.items@)
        &&& after.items@.len() > 0
        &&& after.selected_index == 0
        &&& after.show_popup
        &&& after.start_pos == point_of(t, fragment_start(t, c))
        &&& after.end_pos == point_of(t, c)
    } else {
        after.cleared_from(before) && provider.offers(t, p, Seq::empty())
    }
}

/// Drives completion for one buffer: finds the fragment before the cursor,
/// asks the provider for candidates and holds the popup's state.
pub struct AutoCompleter<P: CompletionProvider> {
    pub state: AutoCompletionState,
    pub provider: P,
}

impl<P: CompletionProvider> AutoCompleter<P> {
    pub fn new(provider: P) -> (r: Self)
        ensures
            r.state.is_cleared(),
            r.state.wf(),
            r.provider == provider,
    {
        AutoCompleter { state: AutoCompletionState::new(), provider }
    }

    /// Opens, replaces or closes the session for the fragment before the
    /// cursor.
    pub fn trigger_completion(&mut self, buffer: &TextBuffer)
        requires
            buffer.wf(),
        ensures
            trigger_outcome(
                old(self).provider,
                old(self).state,
                final(self).state,
                buffer.text(),
                buffer.cursor(),
            ),
            final(self).provider == old(self).provider,
            final(self).state.wf(),
    {
        let current_pos = buffer.cursor_logical_pos();
        let current_offset = buffer.cursor_offset();
        let start_offset = self.word_start(buffer, current_offset);
        let prefix = self.extract_prefix(buffer, current_offset);
        let n = prefix.as_str().as_bytes().len();
        if n >= MIN_PREFIX_LEN {
            let completions = self.provider.get_completions(buffer, prefix.as_str());
            if completions.len() > 0 {
                self.state.prefix = prefix;
                self.state.items = completions;
                self.state.selected_index = 0;
                self.state.is_active = true;
                self.state.show_popup = true;
                self.state.start_pos = self.offset_to_point(buffer, start_offset);
                self.state.end_pos = current_pos;
            } else {
                assert(completions@ =~= Seq::empty());
                self.state.reset();
            }
        } else {
            self.state.reset();
        }
    }

    /// Offset at which the run of word bytes ending at `current_offset`
    /// starts, read backward until a separator or the start of the text.
    fn word_start(&self, buffer: &TextBuffer, current_offset: usize) -> (r: usize)
        requires
            current_offset <= buffer.text().len(),
        ensures
            r == fragment_start(buffer.text(), current_offset as int),
            r <= current_offset,
    {
        let ghost t = buffer.text();
        let chunk = buffer.read_backward(current_offset);
        let mut start: usize = current_offset;
        while start > 0 && word_byte(chunk[start - 1])
            invariant
                start <= current_offset <= t.len(),
                chunk@ == t.subrange(0, current_offset as int),
                fragment_start(t, current_offset as int) == fragment_start(t, start as int),
            decreases start,
        {
            assert(chunk@[start - 1] == t[start - 1]);
            start = start - 1;
        }
        proof {
            if start > 0 {
                assert(chunk@[start - 1] == t[start - 1]);
            }
        }
        start
    }

    /// The fragment before `current_offset`: the characters whose codes are
    /// the word bytes that immediately precede it.
    fn extract_prefix(&self, buffer: &TextBuffer, current_offset: usize) -> (r: String)
        requires
            current_offset <= buffer.text().len(),
        ensures
            r@ == fragment_before(buffer.text(), current_offset as int),
    {
        let ghost t = buffer.text();
        let start = self.word_start(buffer, current_offset);
        let chunk = buffer.read_backward(current_offset);
        assert(chunk@.subrange(start as int, current_offset as int) =~= t.subrange(
            start as int,
            current_offset as int,
        ));
        let word = vstd::slice::slice_subrange(chunk, start, current_offset);
        string_of_word(word)
    }

    /// Logical position of `offset` in the buffer.
    fn offset_to_point(&self, buffer: &TextBuffer, offset: usize) -> (r: Point)
        requires
            offset <= buffer.text().len(),
        ensures
            r == point_of(buffer.text(), offset as int),
    {
        buffer.offset_to_point(offset)
    }

    /// The popup's state, for drawing it.
    pub fn get_auto_completion_state(&self) -> (r: &AutoCompletionState)
        ensures
            *r == self.state,
    {
        &self.state
    }

    /// Highlights the next candidate, wrapping from the last to the first.
    pub fn select_next_completion(&mut self)
        ensures
            final(self).state.moved_from(
                old(self).state,
                if old(self).state.items@.len() == 0 {
                    old(self).state.selected_index as int
                } else {
                    next_index(old(self).state.selected_index as int, old(self).state.items@.len() as int)
                },
            ),
            old(self).state.wf() ==> final(self).state.wf(),
            final(self).provider == old(self).provider,
    {
        self.state.select_next();
    }

    /// Highlights the previous candidate, wrapping from the first to the last.
    pub fn select_prev_completion(&mut self)
        ensures
            final(self).state.moved_from(
                old(self).state,
                if old(self).state.items@.len() == 0 {
                    old(self).state.selected_index as int
                } else {
                    prev_index(old(self).state.selected_index as int, old(self).state.items@.len() as int)
                },
            ),
            old(self).state.wf() ==> final(self).state.wf(),
            final(self).provider == old(self).provider,
    {
        self.state.select_prev();
    }

    /// Applies the highlighted candidate to `buffer`, as
    /// `AutoCompletionState::accept_current` does.
    pub fn accept_current_completion(&mut self, buffer: &mut TextBuffer) -> (r: bool)
        requires
            old(buffer).wf(),
        ensures
            r == old(self).state.can_accept(),
            final(buffer).wf(),
            r ==> final(self).state.cleared_from(old(self).state),
            r ==> ({
                let t = old(buffer).text();
                let c = old(buffer).cursor();
                let k = vstd::math::min(vstd::utf8::encode_utf8(old(self).state.prefix@).len() as int, c);
                let label = vstd::utf8::encode_utf8(
                    old(self).state.items@[old(self).state.selected_index as int].label@,
                );
                &&& final(buffer).text() == t.subrange(0, c - k) + label + t.subrange(c, t.len() as int)
                &&& final(buffer).cursor() == c - k + label.len()
            }),
            !r ==> final(self).state == old(self).state && *final(buffer) == *old(buffer),
            final(self).provider == old(self).provider,
    {
        self.state.accept_current(buffer)
    }

    /// Closes the session.
    pub fn cancel_completion(&mut self)
        ensures
            final(self).state.cleared_from(old(self).state),
            final(self).state.wf(),
            final(self).provider == old(self).provider,
    {
        self.state.reset();
    }

    /// Whether a session is open.
    pub fn is_completing(&self) -> (r: bool)
        ensures
            r == self.state.is_active,
    {
        self.state.is_active
    }
}

impl Default for AutoCompleter<WordCompletionProvider> {
    fn default() -> (r: Self)
        ensures
            r.state.is_cleared(),
            r.state.wf(),
    {
        Self::new(WordCompletionProvider)
    }
}

/// With the words of the buffer as the source, a trigger after a fragment
/// of two or more bytes offers every word of the buffer, valid UTF-8, that
/// extends the fragment.
pub proof fn lemma_trigger_offers_extension(
    before: AutoCompletionState,
    after: AutoCompletionState,
    t: Seq<u8>,
    c: int,
    s: int,
    e: int,
)
    requires
        0 <= c <= t.len(),
        trigger_outcome(WordCompletionProvider, before, after, t, c),
        encode_utf8(fragment_before(t, c)).len() >= MIN_PREFIX_LEN,
        is_token(t, s, e),
        valid_utf8(t.subrange(s, e)),
        extends(t.subrange(s, e), encode_utf8(fragment_before(t, c))),
    ensures
        after.is_active,
        label_bytes(after.items@).contains(t.subrange(s, e)),
{
    let w = t.subrange(s, e);
    let p = fragment_before(t, c);
    assert(crate::words::candidates(t, encode_utf8(p)).contains(w));
    if !after.is_active {
        let none = Seq::<crate::completion::CompletionItem>::empty();
        assert(crate::provider::word_completions(t, p, none));
        assert(label_bytes(none) =~= Seq::empty());
        assert(label_bytes(none).contains(w));
    } else {
        assert(crate::provider::word_completions(t, p, after.items@));
    }
}

/// A trigger after a fragment of fewer than two bytes closes the session,
/// whatever the source could offer.
pub proof fn lemma_short_fragment_closes<P: CompletionProvider>(
    provider: P,
    before: AutoCompletionState,
    after: AutoCompletionState,
    t: Seq<u8>,
    c: int,
)
    requires
        trigger_outcome(provider, before, after, t, c),
        encode_utf8(fragment_before(t, c)).len() < MIN_PREFIX_LEN,
    ensures
        after.cleared_from(before),
        !after.is_active,
{
}

} // verus!
