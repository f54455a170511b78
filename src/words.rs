use vstd::prelude::*;

verus! {

/// A word byte: a byte whose value, read as a character code, is that of
/// an alphanumeric character, or an underscore. That is an ASCII letter or
/// digit, and from the range above ASCII the letters and number signs of
/// Latin-1 (ª ² ³ µ ¹ º ¼ ½ ¾ and À to ÿ but for × and ÷). The bytes of a
/// multi-byte UTF-8 character are classified one by one.
pub open spec fn is_word_byte(b: u8) -> bool {
    ||| 48 <= b <= 57
    ||| 65 <= b <= 90
    ||| 97 <= b <= 122
    ||| b == 95
    ||| b == 0xAA || b == 0xB2 || b == 0xB3 || b == 0xB5
    ||| b == 0xB9 || b == 0xBA || (0xBC <= b <= 0xBE)
    ||| (0xC0 <= b <= 0xFF && b != 0xD7 && b != 0xF7)
}

pub fn word_byte(b: u8) -> (r: bool)
    ensures
        r == is_word_byte(b),
{
    (48 <= b && b <= 57) || (65 <= b && b <= 90) || (97 <= b && b <= 122) || b == 95 || b == 0xAA
        || b == 0xB2 || b == 0xB3 || b == 0xB5 || b == 0xB9 || b == 0xBA || (0xBC <= b && b
        <= 0xBE) || (0xC0 <= b && b != 0xD7 && b != 0xF7)
}

/// The characters whose codes are the bytes of `w`, one per byte.
pub open spec fn byte_chars(w: Seq<u8>) -> Seq<char> {
    w.map_values(|b: u8| b as char)
}

/// Relies on `std::str::from_utf8`: succeeds exactly on valid UTF-8, with a
/// string whose encoding is those bytes.
#[verifier::external_body]
pub(crate) fn utf8_string(b: &[u8]) -> (r: Option<String>)
    ensures
        r is Some <==> vstd::utf8::valid_utf8(b@),
        r matches Some(s) ==> vstd::utf8::encode_utf8(s@) == b@,
{
    std::str::from_utf8(b).ok().map(|s| s.to_string())
}

/// `t[s..e]` is a token: a non-empty, maximal run of word bytes.
pub open spec fn is_token(t: Seq<u8>, s: int, e: int) -> bool {
    &&& 0 <= s < e <= t.len()
    &&& forall|k: int| s <= k < e ==> is_word_byte(#[trigger] t[k])
    &&& (s == 0 || !is_word_byte(t[s - 1]))
    &&& (e == t.len() || !is_word_byte(t[e]))
}

/// `w` starts with `p` and is longer than it.
pub open spec fn extends(w: Seq<u8>, p: Seq<u8>) -> bool {
    &&& p.len() <= w.len()
    &&& w.subrange(0, p.len() as int) == p
    &&& w != p
}

/// A word offered for `p`: valid UTF-8 that extends `p`.
pub open spec fn is_candidate(w: Seq<u8>, p: Seq<u8>) -> bool {
    vstd::utf8::valid_utf8(w) && extends(w, p)
}

/// Words of the tokens of `t` that end before offset `i`, are valid UTF-8
/// and extend `p`.
pub open spec fn candidates_before(t: Seq<u8>, p: Seq<u8>, i: int) -> Set<Seq<u8>> {
    Set::new(
        |w: Seq<u8>|
            exists|s: int, e: int|
                is_token(t, s, e) && e < i && w == t.subrange(s, e) && is_candidate(w, p),
    )
}

/// The completions of `p` in `t`: the distinct words of `t`'s tokens that
/// are valid UTF-8 and extend `p`; a token that is not valid UTF-8 is
/// skipped. None for an empty `p`.
pub open spec fn candidates(t: Seq<u8>, p: Seq<u8>) -> Set<Seq<u8>> {
    if p.len() == 0 {
        Set::empty()
    } else {
        Set::new(
            |w: Seq<u8>|
                exists|s: int, e: int|
                    is_token(t, s, e) && w == t.subrange(s, e) && is_candidate(w, p),
        )
    }
}

/// Lexicographic order on bytes.
pub open spec fn lex_lt(a: Seq<u8>, b: Seq<u8>) -> bool
    decreases a.len(),
{
    if a.len() == 0 {
        b.len() > 0
    } else if b.len() == 0 {
        false
    } else if a[0] != b[0] {
        a[0] < b[0]
    } else {
        lex_lt(a.drop_first(), b.drop_first())
    }
}

/// The order of completions: shorter first, then lexicographic.
pub open spec fn ranks_before(a: Seq<u8>, b: Seq<u8>) -> bool {
    a.len() < b.len() || (a.len() == b.len() && lex_lt(a, b))
}

/// Every label comes strictly before each label after it.
pub open spec fn ranked(ls: Seq<Seq<u8>>) -> bool {
    forall|i: int, j: int| 0 <= i < j < ls.len() ==> ranks_before(#[trigger] ls[i], #[trigger] ls[j])
}

pub proof fn lemma_lex_irreflexive(a: Seq<u8>)
    ensures
        !lex_lt(a, a),
    decreases a.len(),
{
    if a.len() > 0 {
        lemma_lex_irreflexive(a.drop_first());
    }
}

pub proof fn lemma_lex_asymmetric(a: Seq<u8>, b: Seq<u8>)
    ensures
        !(lex_lt(a, b) && lex_lt(b, a)),
    decreases a.len(),
{
    if a.len() > 0 && b.len() > 0 && a[0] == b[0] {
        lemma_lex_asymmetric(a.drop_first(), b.drop_first());
    }
}

pub proof fn lemma_lex_transitive(a: Seq<u8>, b: Seq<u8>, c: Seq<u8>)
    requires
        lex_lt(a, b),
        lex_lt(b, c),
    ensures
        lex_lt(a, c),
    decreases a.len(),
{
    if a.len() > 0 && b.len() > 0 && c.len() > 0 && a[0] == b[0] && b[0] == c[0] {
        lemma_lex_transitive(a.drop_first(), b.drop_first(), c.drop_first());
    }
}

pub proof fn lemma_ranks_transitive(a: Seq<u8>, b: Seq<u8>, c: Seq<u8>)
    requires
        ranks_before(a, b),
        ranks_before(b, c),
    ensures
        ranks_before(a, c),
{
    if a.len() == b.len() && b.len() == c.len() {
        lemma_lex_transitive(a, b, c);
    }
}

/// Two ranked sequences that hold the same words are equal.
pub proof fn lemma_ranked_unique(x: Seq<Seq<u8>>, y: Seq<Seq<u8>>)
    requires
        ranked(x),
        ranked(y),
        forall|l: Seq<u8>| x.contains(l) <==> y.contains(l),
    ensures
        x == y,
    decreases x.len(),
{
    if x.len() == 0 {
        if y.len() > 0 {
            assert(y.contains(y[0]));
        }
        assert(x =~= y);
    } else {
        assert(x.contains(x[0]));
        let j = choose|j: int| 0 <= j < y.len() && y[j] == x[0];
        assert(y.contains(y[0]));
        let i = choose|i: int| 0 <= i < x.len() && x[i] == y[0];
        if x[0] != y[0] {
            assert(ranks_before(y[0], y[j]));
            assert(ranks_before(x[0], x[i]));
            lemma_lex_asymmetric(x[0], y[0]);
        }
        let xt = x.drop_first();
        let yt = y.drop_first();
        assert forall|a: int, b: int| 0 <= a < b < xt.len() implies ranks_before(
            #[trigger] xt[a],
            #[trigger] xt[b],
        ) by {
            assert(xt[a] == x[a + 1] && xt[b] == x[b + 1]);
        }
        assert forall|a: int, b: int| 0 <= a < b < yt.len() implies ranks_before(
            #[trigger] yt[a],
            #[trigger] yt[b],
        ) by {
            assert(yt[a] == y[a + 1] && yt[b] == y[b + 1]);
        }
        assert forall|l: Seq<u8>| xt.contains(l) implies yt.contains(l) by {
            let k = choose|k: int| 0 <= k < xt.len() && xt[k] == l;
            assert(ranks_before(x[0], x[k + 1]));
            lemma_lex_irreflexive(l);
            assert(y.contains(l));
            let m = choose|m: int| 0 <= m < y.len() && y[m] == l;
            assert(m != 0);
            assert(yt[m - 1] == l);
        }
        assert forall|l: Seq<u8>| yt.contains(l) implies xt.contains(l) by {
            let k = choose|k: int| 0 <= k < yt.len() && yt[k] == l;
            assert(ranks_before(y[0], y[k + 1]));
            lemma_lex_irreflexive(l);
            assert(x.contains(l));
            let m = choose|m: int| 0 <= m < x.len() && x[m] == l;
            assert(m != 0);
            assert(xt[m - 1] == l);
        }
        lemma_ranked_unique(xt, yt);
        assert(x =~= seq![x[0]] + xt);
        assert(y =~= seq![y[0]] + yt);
    }
}

/// Compares two words in the order of completions: negative where `a` comes
/// first, zero where they are equal, positive where `b` comes first.
pub fn compare_words(a: &[u8], b: &[u8]) -> (r: i8)
    ensures
        (r < 0) == ranks_before(a@, b@),
        (r == 0) == (a@ == b@),
        (r > 0) == ranks_before(b@, a@),
{
    let ghost aa = a@;
    let ghost bb = b@;
    proof {
        lemma_lex_asymmetric(aa, bb);
        lemma_lex_irreflexive(aa);
    }
    if a.len() < b.len() {
        return -1;
    }
    if a.len() > b.len() {
        return 1;
    }
    let n = a.len();
    let mut i: usize = 0;
    assert(aa.skip(0) =~= aa);
    assert(bb.skip(0) =~= bb);
    while i < n
        invariant
            n == a@.len() == b@.len(),
            i <= n,
            aa == a@,
            bb == b@,
            a@.subrange(0, i as int) == b@.subrange(0, i as int),
            lex_lt(aa, bb) == lex_lt(aa.skip(i as int), bb.skip(i as int)),
            lex_lt(bb, aa) == lex_lt(bb.skip(i as int), aa.skip(i as int)),
        decreases n - i,
    {
        let x = a[i];
        let y = b[i];
        assert(aa.skip(i as int)[0] == x);
        assert(bb.skip(i as int)[0] == y);
        if x < y {
            return -1;
        }
        if x > y {
            return 1;
        }
        assert(aa.skip(i as int).drop_first() =~= aa.skip(i + 1));
        assert(bb.skip(i as int).drop_first() =~= bb.skip(i + 1));
        assert(a@.subrange(0, i + 1) =~= a@.subrange(0, i as int).push(x));
        assert(b@.subrange(0, i + 1) =~= b@.subrange(0, i as int).push(y));
        i = i + 1;
    }
    assert(a@ =~= a@.subrange(0, n as int));
    assert(b@ =~= b@.subrange(0, n as int));
    0
}

/// The words of `ws`.
pub open spec fn word_set(ws: Seq<Vec<u8>>) -> Set<Seq<u8>> {
    Set::new(|w: Seq<u8>| exists|i: int| 0 <= i < ws.len() && w == (ws[i]@))
}

/// The words of `ws`, in their order.
pub open spec fn word_seq(ws: Seq<Vec<u8>>) -> Seq<Seq<u8>> {
    ws.map_values(|w: Vec<u8>| w@)
}

/// Adds `w` to the ranked words `ws`, in its place, unless it is there.
pub fn insert_ranked(ws: &mut Vec<Vec<u8>>, w: Vec<u8>)
    requires
        ranked(word_seq(old(ws)@)),
    ensures
        ranked(word_seq(final(ws)@)),
        word_set(final(ws)@) == word_set(old(ws)@).insert(w@),
{
    let ghost ww = w@;
    let n = ws.len();
    let mut i: usize = 0;
    while i < n
        invariant
            n == ws@.len(),
            i <= n,
            ranked(word_seq(ws@)),
            forall|k: int| 0 <= k < i ==> ranks_before(#[trigger] (ws@[k]@), ww),
            ww == w@,
        ensures
            i <= n,
            i < n ==> ranks_before(ww, (ws@[i as int]@)),
        decreases n - i,
    {
        let c = compare_words(ws[i].as_slice(), w.as_slice());
        if c == 0 {
            assert(word_set(ws@).insert(ww) =~= word_set(ws@)) by {
                assert(ww == (ws@[i as int]@));
            }
            return;
        }
        if c > 0 {
            break;
        }
        i = i + 1;
    }
    // Every word from `i` on comes after `w`.
    assert forall|k: int| i <= k < n implies ranks_before(ww, #[trigger] (ws@[k]@)) by {
        let first = (ws@[i as int]@);
        if k > i {
            assert(word_seq(ws@)[i as int] == first);
            assert(word_seq(ws@)[k] == (ws@[k]@));
            lemma_ranks_transitive(ww, first, (ws@[k]@));
        }
    }
    let ghost old_ws = ws@;
    ws.insert(i, w);
    proof {
        assert forall|a: int, b: int| 0 <= a < b < ws@.len() implies ranks_before(
            #[trigger] word_seq(ws@)[a],
            #[trigger] word_seq(ws@)[b],
        ) by {
            if a < i && b < i {
                assert(word_seq(old_ws)[a] == word_seq(ws@)[a]);
                assert(word_seq(old_ws)[b] == word_seq(ws@)[b]);
            } else if a < i && b == i {
            } else if a < i {
                assert(word_seq(ws@)[b] == (old_ws[b - 1]@));
                assert(word_seq(old_ws)[a] == word_seq(ws@)[a]);
                assert(word_seq(old_ws)[b - 1] == word_seq(ws@)[b]);
            } else if a == i {
                assert(word_seq(ws@)[b] == (old_ws[b - 1]@));
            } else {
                assert(word_seq(old_ws)[a - 1] == word_seq(ws@)[a]);
                assert(word_seq(old_ws)[b - 1] == word_seq(ws@)[b]);
            }
        }
        assert(word_set(ws@) =~= word_set(old_ws).insert(ww)) by {
            assert forall|x: Seq<u8>| word_set(ws@).contains(x) implies word_set(old_ws).insert(
                ww,
            ).contains(x) by {
                let k = choose|k: int| 0 <= k < ws@.len() && x == (ws@[k]@);
                if k < i {
                    assert(ws@[k] == old_ws[k]);
                } else if k > i {
                    assert(ws@[k] == old_ws[k - 1]);
                }
            }
            assert forall|x: Seq<u8>| word_set(old_ws).insert(ww).contains(x) implies word_set(
                ws@,
            ).contains(x) by {
                if x == ww {
                    assert(ws@[i as int] == w);
                } else {
                    let k = choose|k: int| 0 <= k < old_ws.len() && x == (old_ws[k]@);
                    if k < i {
                        assert(ws@[k] == old_ws[k]);
                    } else {
                        assert(ws@[k + 1] == old_ws[k]);
                    }
                }
            }
        }
    }
}


/// A run of word bytes `t[s..e]` that starts a token starts every token
/// ending at `e`.
proof fn lemma_token_start_unique(t: Seq<u8>, s: int, s2: int, e: int)
    requires
        0 <= s < e <= t.len(),
        forall|k: int| s <= k < e ==> is_word_byte(#[trigger] t[k]),
        s == 0 || !is_word_byte(t[s - 1]),
        is_token(t, s2, e),
    ensures
        s2 == s,
{
    if s2 < s {
        assert(is_word_byte(t[s - 1]));
    } else if s2 > s {
        assert(is_word_byte(t[s2 - 1]));
    }
}

/// No token ends at `i` when the byte there is a word byte or the one before
/// it is not.
proof fn lemma_no_token_ends_at(t: Seq<u8>, p: Seq<u8>, i: int)
    requires
        0 <= i <= t.len(),
        (i < t.len() && is_word_byte(t[i])) || i == 0 || !is_word_byte(t[i - 1]),
    ensures
        candidates_before(t, p, i + 1) == candidates_before(t, p, i),
{
    assert forall|w: Seq<u8>| candidates_before(t, p, i + 1).contains(w) implies candidates_before(
        t,
        p,
        i,
    ).contains(w) by {
        let (s, e) = choose|s: int, e: int|
            is_token(t, s, e) && e < i + 1 && w == t.subrange(s, e) && is_candidate(w, p);
        if e == i {
            assert(is_word_byte(t[e - 1]));
        }
    }
    assert(candidates_before(t, p, i + 1) =~= candidates_before(t, p, i));
}

/// The token `t[s..i]` ends at `i`, and is the only one that does.
proof fn lemma_token_ends_at(t: Seq<u8>, p: Seq<u8>, s: int, i: int)
    requires
        0 <= s < i <= t.len(),
        forall|k: int| s <= k < i ==> is_word_byte(#[trigger] t[k]),
        s == 0 || !is_word_byte(t[s - 1]),
        i == t.len() || !is_word_byte(t[i]),
    ensures
        is_token(t, s, i),
        candidates_before(t, p, i + 1) == if is_candidate(t.subrange(s, i), p) {
            candidates_before(t, p, i).insert(t.subrange(s, i))
        } else {
            candidates_before(t, p, i)
        },
{
    let tw = t.subrange(s, i);
    let next = if is_candidate(tw, p) {
        candidates_before(t, p, i).insert(tw)
    } else {
        candidates_before(t, p, i)
    };
    assert forall|w: Seq<u8>| candidates_before(t, p, i + 1).contains(w) implies next.contains(
        w,
    ) by {
        let (s2, e) = choose|s2: int, e: int|
            is_token(t, s2, e) && e < i + 1 && w == t.subrange(s2, e) && is_candidate(w, p);
        if e == i {
            lemma_token_start_unique(t, s, s2, e);
        }
    }
    assert forall|w: Seq<u8>| next.contains(w) implies candidates_before(t, p, i + 1).contains(
        w,
    ) by {
        if w == tw && is_candidate(tw, p) {
            assert(is_token(t, s, i) && i < i + 1 && w == t.subrange(s, i) && is_candidate(
                w,
                p,
            ));
        } else {
            let (s2, e) = choose|s2: int, e: int|
                is_token(t, s2, e) && e < i && w == t.subrange(s2, e) && is_candidate(w, p);
            assert(is_token(t, s2, e) && e < i + 1);
        }
    }
    assert(candidates_before(t, p, i + 1) =~= next);
}

proof fn lemma_candidates_all_before(t: Seq<u8>, p: Seq<u8>)
    requires
        p.len() > 0,
    ensures
        candidates(t, p) == candidates_before(t, p, t.len() + 1int),
{
    assert forall|w: Seq<u8>| candidates(t, p).contains(w) implies candidates_before(
        t,
        p,
        t.len() + 1int,
    ).contains(w) by {
        let (s, e) = choose|s: int, e: int|
            is_token(t, s, e) && w == t.subrange(s, e) && is_candidate(w, p);
        assert(is_token(t, s, e) && e < t.len() + 1);
    }
    assert(candidates(t, p) =~= candidates_before(t, p, t.len() + 1int));
}

/// Whether the word `w` extends `prefix`.
fn word_extends(w: &[u8], prefix: &[u8]) -> (r: bool)
    ensures
        r == extends(w@, prefix@),
{
    let n = prefix.len();
    let ghost ww = w@;
    let ghost pp = prefix@;
    if n >= w.len() {
        proof {
            if n == w@.len() && ww.subrange(0, n as int) == pp {
                assert(ww.subrange(0, n as int) =~= ww);
            }
        }
        return false;
    }
    let mut i: usize = 0;
    while i < n
        invariant
            i <= n < w@.len(),
            n == prefix@.len(),
            ww == w@,
            pp == prefix@,
            forall|k: int| 0 <= k < i ==> w@[k] == prefix@[k],
        decreases n - i,
    {
        if w[i] != prefix[i] {
            proof {
                let x = w@[i as int];
                let y = prefix@[i as int];
                assert(ww.subrange(0, n as int)[i as int] == x);
            }
            return false;
        }
        i = i + 1;
    }
    proof {
        assert(ww.subrange(0, n as int) =~= pp);
        assert(ww.len() != pp.len());
    }
    true
}

/// Adds to the ranked words `ws` the words of `chunk` that are valid UTF-8
/// and extend `prefix`.
pub fn collect_chunk(chunk: &[u8], prefix: &[u8], ws: &mut Vec<Vec<u8>>)
    requires
        ranked(word_seq(old(ws)@)),
        prefix@.len() > 0,
    ensures
        ranked(word_seq(final(ws)@)),
        word_set(final(ws)@) == word_set(old(ws)@).union(
            candidates(chunk@, prefix@),
        ),
{
    let ghost t = chunk@;
    let ghost p = prefix@;
    let ghost w0 = word_set(ws@);
    let n = chunk.len();
    let mut i: usize = 0;
    let mut start: usize = 0;
    let mut in_word = false;
    assert(candidates_before(t, p, 0) =~= Set::empty());
    assert(w0.union(Set::empty()) =~= w0);
    while i < n
        invariant
            n == t.len(),
            i <= n,
            t == chunk@,
            p == prefix@,
            ranked(word_seq(ws@)),
            word_set(ws@) == w0.union(candidates_before(t, p, i as int)),
            in_word ==> start < i && (forall|k: int| start <= k < i ==> is_word_byte(#[trigger] t[k]))
                && (start == 0 || !is_word_byte(t[start - 1])),
            !in_word ==> (i == 0 || !is_word_byte(t[i - 1])),
        decreases n - i,
    {
        let b = chunk[i];
        if word_byte(b) {
            proof {
                lemma_no_token_ends_at(t, p, i as int);
            }
            if !in_word {
                start = i;
                in_word = true;
            }
        } else if in_word {
            proof {
                lemma_token_ends_at(t, p, start as int, i as int);
            }
            let w = vstd::slice::slice_subrange(chunk, start, i);
            if word_extends(w, prefix) && utf8_string(w).is_some() {
                insert_ranked(ws, vstd::slice::slice_to_vec(w));
                assert(word_set(ws@) =~= w0.union(candidates_before(t, p, i + 1)));
            }
            in_word = false;
        } else {
            proof {
                lemma_no_token_ends_at(t, p, i as int);
            }
        }
        i = i + 1;
    }
    proof {
        lemma_candidates_all_before(t, p);
    }
    if in_word {
        proof {
            lemma_token_ends_at(t, p, start as int, n as int);
        }
        let w = vstd::slice::slice_subrange(chunk, start, n);
        if word_extends(w, prefix) && utf8_string(w).is_some() {
            insert_ranked(ws, vstd::slice::slice_to_vec(w));
            assert(word_set(ws@) =~= w0.union(candidates(t, p)));
        }
    } else {
        proof {
            lemma_no_token_ends_at(t, p, n as int);
        }
    }
}

} // verus!
