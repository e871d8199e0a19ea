//! Properties of the decoding protocol as a whole.
use vstd::prelude::*;
use crate::well_formed::{
    is_partial, longest_valid_prefix, maximal_subpart_len,
    lemma_longest_valid_prefix, lemma_valid_extends_partial, lemma_subpart_covers_partial,
    lemma_prefix_of_valid, lemma_valid_first_not_partial,
};
use vstd::utf8::valid_utf8;
use crate::decoder::{resumed, spliced};

verus! {

/// Resuming neither loses nor repeats a byte: the pending bytes followed by
/// the new input are exactly what resolves followed by what is left of the
/// input; while nothing resolves, all of the input joins the pending bytes,
/// which still start a character.
pub proof fn lemma_resume_keeps_every_byte(p: Seq<u8>, input: Seq<u8>)
    requires
        is_partial(p),
    ensures
        match resumed(p, input) {
            None => is_partial(p + input),
            Some((Ok(t), m)) => 0 <= m <= input.len() && p + input == t + input.skip(m),
            Some((Err(t), m)) => 0 <= m <= input.len() && p + input == t + input.skip(m),
        },
{
    reveal(resumed);
    let c = spliced(p, input);
    let len = p.len() as int;
    let k = longest_valid_prefix(c);
    let rest = if input.len() < 4 - len { input.len() as int } else { 4 - len };
    assert(c =~= p + input.take(rest));
    assert(c.take(len) =~= p);
    lemma_longest_valid_prefix(c);
    if valid_utf8(c) {
        assert(p + input =~= c + input.skip(rest));
    } else if k > 0 {
        lemma_valid_extends_partial(c, len, k);
        assert(p + input =~= c.take(k) + input.skip(k - len));
    } else if is_partial(c) {
        assert(input.take(rest) =~= input);
    } else {
        lemma_subpart_covers_partial(c, len);
        let n = maximal_subpart_len(c) as int;
        assert(p + input =~= c.take(n) + input.skip(n - len));
    }
}

/// Across a chunk that ends inside a character and the chunk after it, no
/// byte is lost or repeated: the first chunk's valid part, what resuming
/// resolves and what is left of the second chunk are the two chunks again.
/// While nothing resolves, the pending bytes are the first chunk's cut-off
/// character followed by all of the second chunk.
pub proof fn lemma_chunk_then_resume_keeps_every_byte(a: Seq<u8>, b: Seq<u8>)
    requires
        is_partial(a.skip(longest_valid_prefix(a))),
    ensures
        ({
            let k = longest_valid_prefix(a);
            match resumed(a.skip(k), b) {
                None => is_partial(a.skip(k) + b),
                Some((Ok(t), m)) => a.take(k) + t + b.skip(m) == a + b,
                Some((Err(t), m)) => a.take(k) + t + b.skip(m) == a + b,
            }
        }),
{
    let k = longest_valid_prefix(a);
    lemma_longest_valid_prefix(a);
    let p = a.skip(k);
    lemma_resume_keeps_every_byte(p, b);
    assert(a =~= a.take(k) + p);
    assert(a + b =~= a.take(k) + (p + b));
    match resumed(p, b) {
        Some((Ok(t), m)) => {
            assert(a.take(k) + t + b.skip(m) =~= a.take(k) + (t + b.skip(m)));
        },
        Some((Err(t), m)) => {
            assert(a.take(k) + t + b.skip(m) =~= a.take(k) + (t + b.skip(m)));
        },
        None => {},
    }
}

/// Resumption is bounded: a round that resolves nothing takes all of its
/// input and leaves at most three pending bytes, so once four bytes have been
/// gathered the character resolves.
pub proof fn lemma_resume_is_bounded(p: Seq<u8>, input: Seq<u8>)
    requires
        is_partial(p),
    ensures
        resumed(p, input) is None ==> p.len() + input.len() <= 3,
        p.len() + input.len() >= 4 ==> resumed(p, input) is Some,
{
    lemma_resume_keeps_every_byte(p, input);
}

/// A chunk cut out of the start of valid text never holds an ill-formed
/// sequence: its valid part ends where a character ends, the text from there
/// on is valid again, and the chunk's remaining bytes start that character.
pub proof fn lemma_chunk_of_valid_text(w: Seq<u8>, j: int)
    requires
        valid_utf8(w),
        0 <= j <= w.len(),
    ensures
        valid_utf8(w.take(j)) || is_partial(w.take(j).skip(longest_valid_prefix(w.take(j)))),
        valid_utf8(w.skip(longest_valid_prefix(w.take(j)))),
{
    lemma_prefix_of_valid(w, j);
    let x = w.take(j);
    if longest_valid_prefix(x) == j {
        lemma_longest_valid_prefix(x);
        assert(x.take(j) =~= x);
    }
}

/// Resuming inside valid text never yields an ill-formed sequence. When the
/// character completes, it is valid text, and what follows it in the stream
/// is valid text again; while it does not, the pending bytes grow by the input.
pub proof fn lemma_resume_in_valid_text(p: Seq<u8>, y: Seq<u8>, input: Seq<u8>)
    requires
        valid_utf8(p + y),
        is_partial(p),
        input.len() <= y.len(),
        input == y.take(input.len() as int),
    ensures
        match resumed(p, input) {
            None => is_partial(p + input) && p.len() + input.len() < p.len() + y.len(),
            Some((Ok(t), m)) => {
                &&& 0 <= m <= input.len()
                &&& valid_utf8(t)
                &&& valid_utf8(y.skip(m))
                &&& p + y == t + y.skip(m)
            },
            Some((Err(_), _)) => false,
        },
{
    reveal(resumed);
    lemma_resume_keeps_every_byte(p, input);
    let w = p + y;
    let c = spliced(p, input);
    let len = p.len() as int;
    assert(c =~= w.take(c.len() as int));
    lemma_chunk_of_valid_text(w, c.len() as int);
    let k = longest_valid_prefix(c);
    lemma_longest_valid_prefix(c);
    if valid_utf8(c) {
        assert(c.take(c.len() as int) =~= c);
        lemma_valid_up_to_unique_full(c);
        assert(y.skip(c.len() - len) =~= w.skip(c.len() as int));
        assert(w =~= c + y.skip(c.len() - len));
    } else if k > 0 {
        lemma_valid_extends_partial(c, len, k);
        assert(y.skip(k - len) =~= w.skip(k));
        assert(w =~= c.take(k) + y.skip(k - len));
    } else {
        assert(c.skip(0) =~= c);
        if c.len() == w.len() {
            assert(c =~= w);
            lemma_valid_first_not_partial(w);
        }
    }
}

/// Decoding valid text in two chunks, split at any byte, yields the same text
/// as decoding it in one: the first chunk's valid part, the character that
/// resuming completes, and the rest of the second chunk, which is valid.
pub proof fn lemma_rechunking(a: Seq<u8>, b: Seq<u8>)
    requires
        valid_utf8(a + b),
    ensures
        valid_utf8(a) ==> valid_utf8(b),
        !valid_utf8(a) ==> {
            let k = longest_valid_prefix(a);
            &&& is_partial(a.skip(k))
            &&& valid_utf8(a.take(k))
            &&& match resumed(a.skip(k), b) {
                Some((Ok(t), m)) => valid_utf8(b.skip(m)) && a.take(k) + t + b.skip(m) == a + b,
                _ => false,
            }
        },
{
    let w = a + b;
    assert(w.take(a.len() as int) =~= a);
    lemma_chunk_of_valid_text(w, a.len() as int);
    let k = longest_valid_prefix(a);
    lemma_longest_valid_prefix(a);
    if valid_utf8(a) {
        lemma_valid_up_to_unique_full(a);
        assert(w.skip(a.len() as int) =~= b);
    } else {
        let p = a.skip(k);
        assert(w.skip(k) =~= p + b);
        assert(b.take(b.len() as int) =~= b);
        lemma_resume_in_valid_text(p, b, b);
        assert(a =~= a.take(k) + p);
        assert(a + b =~= a.take(k) + (p + b));
        match resumed(p, b) {
            Some((Ok(t), m)) => {
                assert(a.take(k) + t + b.skip(m) =~= a.take(k) + (t + b.skip(m)));
            },
            _ => {},
        }
    }
}

/// Valid text is its own longest valid prefix.
proof fn lemma_valid_up_to_unique_full(s: Seq<u8>)
    requires
        valid_utf8(s),
    ensures
        longest_valid_prefix(s) == s.len(),
{
    assert(s.take(s.len() as int) =~= s);
    crate::well_formed::lemma_valid_up_to_unique(s, s.len() as int);
}

} // verus!
