use vstd::prelude::*;

use crate::buffer::TextBuffer;
use crate::completion::CompletionItem;
use crate::words::{
    byte_chars, candidates, collect_chunk, lemma_ranked_unique, ranked, utf8_string, word_seq,
    word_set,
};
use vstd::utf8::encode_utf8;

verus! {

/// A source of completion candidates.
pub trait CompletionProvider {
    /// Whether `items` is what this source offers for `prefix` in a buffer
    /// holding `text`.
    spec fn offers(&self, text: Seq<u8>, prefix: Seq<char>, items: Seq<CompletionItem>) -> bool;

    fn get_completions(&self, buffer: &TextBuffer, prefix: &str) -> (r: Vec<CompletionItem>)
        ensures
            self.offers(buffer.text(), prefix@, r@),
    ;
}

/// The UTF-8 bytes of the labels of `items`, in their order.
pub open spec fn label_bytes(items: Seq<CompletionItem>) -> Seq<Seq<u8>> {
    items.map_values(|it: CompletionItem| encode_utf8(it.label@))
}

/// `items` are the completions of `prefix` in `text`, each once, by their
/// bytes shortest first and equal lengths in lexicographic order, with no
/// detail and no sort key.
pub open spec fn word_completions(text: Seq<u8>, prefix: Seq<char>, items: Seq<CompletionItem>) -> bool {
    &&& ranked(label_bytes(items))
    &&& forall|l: Seq<u8>|
        candidates(text, encode_utf8(prefix)).contains(l) <==> label_bytes(items).contains(l)
    &&& forall|i: int|
        0 <= i < items.len() ==> (#[trigger] items[i]).detail.is_none() && items[i].sort_text.is_none()
}

/// Offers the words of the buffer that extend the prefix.
pub struct WordCompletionProvider;

/// Relies on `String::push`: appends one character at the end.
#[verifier::external_body]
fn push_char(s: &mut String, c: char)
    ensures
        final(s)@ == old(s)@.push(c),
{
    s.push(c)
}

/// The string of the characters whose codes are the bytes of `w`.
pub fn string_of_word(w: &[u8]) -> (r: String)
    ensures
        r@ == byte_chars(w@),
{
    let mut s = String::new();
    let mut i: usize = 0;
    while i < w.len()
        invariant
            i <= w@.len(),
            s@ == byte_chars(w@.subrange(0, i as int)),
        decreases w@.len() - i,
    {
        push_char(&mut s, w[i] as char);
        assert(byte_chars(w@.subrange(0, i + 1)) =~= byte_chars(w@.subrange(0, i as int)).push(
            w@[i as int] as char,
        ));
        i = i + 1;
    }
    assert(w@.subrange(0, w@.len() as int) =~= w@);
    s
}

/// An empty text holds no token.
proof fn lemma_no_candidates_in_empty(t: Seq<u8>, p: Seq<u8>)
    requires
        t.len() == 0,
    ensures
        candidates(t, p) =~= Set::empty(),
{
}

impl CompletionProvider for WordCompletionProvider {
    open spec fn offers(&self, text: Seq<u8>, prefix: Seq<char>, items: Seq<CompletionItem>) -> bool {
        word_completions(text, prefix, items)
    }

    /// Scans the buffer chunk by chunk for tokens that extend `prefix` and
    /// returns their words, each once, shortest first. A token is looked for
    /// within one chunk: one that straddles two chunks is not reassembled.
    fn get_completions(&self, buffer: &TextBuffer, prefix: &str) -> (r: Vec<CompletionItem>) {
        let ghost text = buffer.text();
        let pb = prefix.as_bytes();
        let ghost p = pb@;
        assert(p == encode_utf8(prefix@));
        if pb.len() == 0 {
            return Vec::new();
        }
        let mut words: Vec<Vec<u8>> = Vec::new();
        let mut offset: usize = 0;
        let len = buffer.text_length();
        assert(word_set(words@) =~= Set::empty());
        proof {
            if len == 0 {
                lemma_no_candidates_in_empty(text, p);
            }
        }
        while offset < len
            invariant
                len == text.len(),
                text == buffer.text(),
                pb@ == p,
                p.len() > 0,
                ranked(word_seq(words@)),
                offset == 0 && word_set(words@) == Set::<Seq<u8>>::empty() || offset == len
                    && word_set(words@) == candidates(text, p),
                len == 0 ==> candidates(text, p) == Set::<Seq<u8>>::empty(),
            ensures
                ranked(word_seq(words@)),
                word_set(words@) == candidates(text, p),
            decreases len - offset,
        {
            let chunk = buffer.read_forward(offset);
            if chunk.len() == 0 {
                break;
            }
            assert(chunk@ =~= text);
            collect_chunk(chunk, pb, &mut words);
            assert(word_set(words@) =~= candidates(text, p));
            offset = offset + chunk.len();
        }
        let mut items: Vec<CompletionItem> = Vec::new();
        let mut k: usize = 0;
        while k < words.len()
            invariant
                k <= words@.len(),
                items@.len() == k,
                word_set(words@) == candidates(text, p),
                p.len() > 0,
                forall|j: int|
                    0 <= j < k ==> encode_utf8((#[trigger] items@[j]).label@) == words@[j]@
                        && items@[j].detail.is_none() && items@[j].sort_text.is_none(),
            decreases words@.len() - k,
        {
            assert(word_set(words@).contains(words@[k as int]@));
            let label = match utf8_string(words[k].as_slice()) {
                Some(s) => s,
                None => {
                    assert(false);
                    String::new()
                },
            };
            items.push(CompletionItem::new(label));
            k = k + 1;
        }
        proof {
            assert(label_bytes(items@) =~= word_seq(words@));
            assert forall|l: Seq<u8>| candidates(text, p).contains(l) implies label_bytes(
                items@,
            ).contains(l) by {
                let j = choose|j: int| 0 <= j < words@.len() && l == words@[j]@;
                assert(label_bytes(items@)[j] == l);
            }
            assert forall|l: Seq<u8>| label_bytes(items@).contains(l) implies candidates(
                text,
                p,
            ).contains(l) by {
                let j = choose|j: int| 0 <= j < label_bytes(items@).len() && label_bytes(items@)[j] == l;
                assert(word_set(words@).contains(l));
            }
        }
        items
    }
}

/// For an empty prefix the words of a buffer offer nothing, whatever the
/// buffer holds.
pub proof fn lemma_empty_prefix_offers_nothing(text: Seq<u8>, items: Seq<CompletionItem>)
    requires
        word_completions(text, Seq::empty(), items),
    ensures
        items.len() == 0,
{
    if items.len() > 0 {
        assert(encode_utf8(Seq::<char>::empty()) =~= Seq::<u8>::empty());
        assert(label_bytes(items).contains(label_bytes(items)[0]));
    }
}

/// The words of a buffer offer one sequence of labels for a prefix: two
/// offers for the same text and prefix hold the same labels in the same
/// order.
pub proof fn lemma_completions_determined(
    text: Seq<u8>,
    prefix: Seq<char>,
    a: Seq<CompletionItem>,
    b: Seq<CompletionItem>,
)
    requires
        word_completions(text, prefix, a),
        word_completions(text, prefix, b),
    ensures
        label_bytes(a) == label_bytes(b),
{
    lemma_ranked_unique(label_bytes(a), label_bytes(b));
}

} // verus!
