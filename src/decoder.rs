//! Chunk-by-chunk decoding: classifying one chunk, and completing a character
//! that was split across chunks.
use vstd::prelude::*;
use vstd::utf8::valid_utf8;
use vstd::string::StringSliceAdditionalSpecFns;
use crate::well_formed::{is_partial, maximal_subpart_len, longest_valid_prefix};
use crate::validate::from_utf8;

verus! {

/// How a chunk of bytes decodes.
#[derive(Debug, Copy, Clone)]
pub enum DecodeResult<'a> {
    /// The whole chunk is valid text.
    Valid(&'a str),
    /// Valid text, then an ill-formed sequence, then the bytes not yet examined.
    Error(&'a str, InvalidSequence<'a>, &'a [u8]),
    /// Valid text, then the start of a character that the chunk cuts off.
    Incomplete(&'a str, IncompleteChar),
}

/// The bytes of an ill-formed sequence (its maximal subpart).
#[derive(Debug, Copy, Clone)]
pub struct InvalidSequence<'a>(pub &'a [u8]);

/// The first bytes of a character whose remaining bytes are still to come.
#[derive(Debug, Copy, Clone)]
pub struct IncompleteChar {
    buffer: [u8; 4],
    buffer_len: u8,
}

impl View for IncompleteChar {
    type V = Seq<u8>;

    /// The pending bytes.
    closed spec fn view(&self) -> Seq<u8> {
        self.buffer@.take(self.buffer_len as int)
    }
}

impl IncompleteChar {
    /// The pending bytes are the start of a character, and there are at most three.
    pub closed spec fn wf(&self) -> bool {
        &&& self.buffer_len <= 3
        &&& is_partial(self@)
    }

    /// A well-formed value holds the start of a character, at most three bytes.
    pub proof fn lemma_wf(&self)
        requires
            self.wf(),
        ensures
            is_partial(self@),
            self@.len() <= 3,
    {
    }

    /// The pending bytes. When the stream ends with a character still
    /// incomplete, these bytes are its last ill-formed sequence.
    pub fn pending_bytes(&self) -> (r: &[u8])
        requires
            self.wf(),
        ensures
            r@ == self@,
    {
        let len = self.buffer_len as usize;
        let r = &self.buffer.as_slice()[0..len];
        assert(r@ =~= self@);
        r
    }

    /// Appends the first bytes of `input` to the pending bytes, up to four in
    /// all, and returns how many it took.
    fn absorb(&mut self, input: &[u8]) -> (m: usize)
        requires
            old(self).wf(),
        ensures
            final(self)@ == spliced(old(self)@, input@),
            final(self).buffer_len == old(self).buffer_len + m,
            final(self).buffer_len <= 4,
            m <= input@.len(),
            m == input@.len() || final(self).buffer_len == 4,
    {
        let len = self.buffer_len as usize;
        let m: usize = if input.len() < 4 - len {
            input.len()
        } else {
            4 - len
        };
        let ghost p = old(self)@;
        let mut i: usize = 0;
        while i < m
            invariant
                len == old(self).buffer_len,
                len <= 3,
                m <= input@.len(),
                len + m <= 4,
                i <= m,
                self.buffer@.len() == 4,
                self.buffer@.take(len as int) == p,
                self.buffer@.subrange(len as int, len + i) == input@.take(i as int),
            decreases m - i,
        {
            self.buffer[len + i] = input[i];
            i = i + 1;
            assert(self.buffer@.take(len as int) =~= p);
            assert(self.buffer@.subrange(len as int, len + i) =~= input@.take(i as int));
        }
        let total = len + m;
        self.buffer_len = total as u8;
        let ghost c = spliced(p, input@);
        proof {
            assert(self.buffer@.take(total as int) =~= self.buffer@.take(len as int)
                + self.buffer@.subrange(len as int, total as int));
            if input@.len() < 4 - len {
                assert(input@.take(m as int) =~= input@);
            }
            assert(self@ =~= c);
        }
        m
    }

    /// Completes the character with the first bytes of `input`. `None`: the
    /// character is still incomplete and has taken all of `input`; call again
    /// with more. `Some((result, rest))`: the text or the ill-formed sequence
    /// that the pending bytes resolve to, and the part of `input` left to
    /// decode; this value is then done with.
    #[verifier::rlimit(20)]
    pub fn try_complete<'char, 'input>(&'char mut self, input: &'input [u8]) -> (r: Option<
        (Result<&'char str, &'char [u8]>, &'input [u8]),
    >)
        requires
            old(self).wf(),
        ensures
            match (r, resumed(old(self)@, input@)) {
                (None, None) => final(self)@ == old(self)@ + input@ && final(self).wf(),
                (Some((Ok(s), rest)), Some((Ok(t), m))) => {
                    &&& s.spec_bytes() == t
                    &&& rest@ == input@.skip(m)
                    &&& old(self)@ + input@ == s.spec_bytes() + rest@
                },
                (Some((Err(b), rest)), Some((Err(t), m))) => {
                    &&& b@ == t
                    &&& rest@ == input@.skip(m)
                    &&& old(self)@ + input@ == b@ + rest@
                },
                _ => false,
            },
    {
        let len = self.buffer_len as usize;
        let ghost p = old(self)@;
        let m = self.absorb(input);
        let total = len + m;
        let ghost c = spliced(p, input@);
        let buffer: &'char [u8; 4] = &self.buffer;
        let spliced_bytes = &buffer.as_slice()[0..total];
        assert(spliced_bytes@ =~= c);
        assert(c.take(len as int) =~= p);
        match from_utf8(spliced_bytes) {
            Ok(s) => {
                assert(input@ =~= input@.take(m as int) + input@.skip(m as int));
                proof {
                    reveal(resumed);
                }
                Some((Ok(s), &input[m..input.len()]))
            },
            Err(e) => {
                let k = e.valid_up_to;
                proof {
                    crate::well_formed::lemma_valid_up_to_unique(c, k as int);
                }
                if k > 0 {
                    proof {
                        crate::well_formed::lemma_valid_extends_partial(c, len as int, k as int);
                    }
                    let s = valid_text(&spliced_bytes[0..k]);
                    let rest = &input[k - len..input.len()];
                    assert(input@ =~= input@.take(k - len) + input@.skip(k - len));
                    assert(c.take(k as int) =~= p + input@.take(k - len));
                    proof {
                        reveal(resumed);
                    }
                    Some((Ok(s), rest))
                } else {
                    assert(c.skip(0) =~= c);
                    match e.error_len {
                        Some(n) => {
                            proof {
                                crate::well_formed::lemma_subpart_covers_partial(c, len as int);
                            }
                            let bad = &spliced_bytes[0..n];
                            let rest = &input[n - len..input.len()];
                            assert(input@ =~= input@.take(n - len) + input@.skip(n - len));
                            assert(c.take(n as int) =~= p + input@.take(n - len));
                            proof {
                                reveal(resumed);
                            }
                            Some((Err(bad), rest))
                        },
                        None => {
                            assert(input@.take(m as int) =~= input@);
                            proof {
                                reveal(resumed);
                            }
                            None
                        },
                    }
                }
            },
        }
    }
}

/// The bytes that resuming examines: the pending bytes `p`, then as many
/// bytes of `input` as fill a buffer of four.
pub open spec fn spliced(p: Seq<u8>, input: Seq<u8>) -> Seq<u8> {
    if input.len() < 4 - p.len() {
        p + input
    } else {
        p + input.take(4 - p.len())
    }
}

/// What resuming with the pending bytes `p` on `input` resolves to: the text
/// or the ill-formed bytes it yields, and how many bytes of `input` that takes;
/// `None` while the character may still complete.
#[verifier::opaque]
pub open spec fn resumed(p: Seq<u8>, input: Seq<u8>) -> Option<(Result<Seq<u8>, Seq<u8>>, int)> {
    let c = spliced(p, input);
    let k = longest_valid_prefix(c);
    if valid_utf8(c) {
        Some((Ok(c), c.len() - p.len()))
    } else if k > 0 {
        Some((Ok(c.take(k)), k - p.len()))
    } else if is_partial(c) {
        None
    } else {
        let n = maximal_subpart_len(c) as int;
        Some((Err(c.take(n)), n - p.len()))
    }
}

/// `b` as text; `b` is known to be valid UTF-8.
fn valid_text<'a>(b: &'a [u8]) -> (s: &'a str)
    requires
        valid_utf8(b@),
    ensures
        s.spec_bytes() == b@,
{
    match from_utf8(b) {
        Ok(s) => s,
        Err(_) => {
            proof {
                assert(b@.take(b@.len() as int) == b@);
            }
            ""
        },
    }
}

/// Decodes one chunk: all of it as text, or the longest valid prefix followed
/// by either an ill-formed sequence or the cut-off start of a character.
pub fn decode<'a>(input: &'a [u8]) -> (r: DecodeResult<'a>)
    ensures
        match r {
            DecodeResult::Valid(s) => valid_utf8(input@) && s.spec_bytes() == input@,
            DecodeResult::Error(v, bad, rest) => {
                let k = longest_valid_prefix(input@);
                let n = maximal_subpart_len(input@.skip(k));
                &&& !valid_utf8(input@)
                &&& !is_partial(input@.skip(k))
                &&& v.spec_bytes() == input@.take(k)
                &&& bad.0@ == input@.subrange(k, k + n)
                &&& rest@ == input@.skip(k + n)
                &&& v.spec_bytes() + bad.0@ + rest@ == input@
            },
            DecodeResult::Incomplete(v, ch) => {
                let k = longest_valid_prefix(input@);
                &&& !valid_utf8(input@)
                &&& is_partial(input@.skip(k))
                &&& v.spec_bytes() == input@.take(k)
                &&& ch@ == input@.skip(k)
                &&& ch.wf()
                &&& v.spec_bytes() + ch@ == input@
            },
        },
{
    let e = match from_utf8(input) {
        Ok(s) => return DecodeResult::Valid(s),
        Err(e) => e,
    };
    let k = e.valid_up_to;
    proof {
        crate::well_formed::lemma_valid_up_to_unique(input@, k as int);
    }
    let (valid, after_valid) = input.split_at(k);
    let valid = valid_text(valid);
    match e.error_len {
        Some(n) => {
            let (bad, rest) = after_valid.split_at(n);
            proof {
                assert(bad@ == input@.subrange(k as int, k + n));
                assert(rest@ == input@.skip(k + n));
                assert(input@ =~= input@.take(k as int) + bad@ + rest@);
            }
            DecodeResult::Error(valid, InvalidSequence(bad), rest)
        },
        None => {
            let mut buffer: [u8; 4] = [0, 0, 0, 0];
            let len = after_valid.len();
            let mut i: usize = 0;
            while i < len
                invariant
                    len == after_valid@.len(),
                    len <= 3,
                    i <= len,
                    buffer@.len() == 4,
                    buffer@.take(i as int) == after_valid@.take(i as int),
                decreases len - i,
            {
                buffer[i] = after_valid[i];
                i = i + 1;
                assert(buffer@.take(i as int) =~= after_valid@.take(i as int));
            }
            let ch = IncompleteChar { buffer, buffer_len: len as u8 };
            assert(ch@ =~= input@.skip(k as int));
            assert(input@ =~= input@.take(k as int) + ch@);
            DecodeResult::Incomplete(valid, ch)
        },
    }
}

} // verus!
