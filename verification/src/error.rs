use vstd::prelude::*;
use vstd::utf8::encode_scalar;
use vstd::utf8::encode_utf8;

use crate::text::lemma_encode_scalar_first_byte;
use crate::text::lemma_encode_scalar_no_newline;

verus! {

/// A half-open byte range into the source text, used to locate a diagnostic.
#[derive(Debug, Clone, Copy, PartialEq, Eq, Structural)]
pub struct ByteSpan {
    /// Byte offset of the range's first byte within the whole input.
    pub offset: usize,
    /// Byte length of the range.
    pub len: usize,
}

impl ByteSpan {
    /// Byte offset of the range's first byte.
    pub fn offset(&self) -> (r: usize)
        ensures
            r == self.offset,
    {
        self.offset
    }

    /// Byte length of the range.
    pub fn len(&self) -> (r: usize)
        ensures
            r == self.len,
    {
        self.len
    }
}

/// Number of newline bytes in a byte sequence.  In UTF-8 the byte 0x0A only
/// ever encodes `'\n'`, so counting bytes counts newline characters.
pub open spec fn count_newlines(bytes: Seq<u8>) -> int
    decreases bytes.len(),
{
    if bytes.len() == 0 {
        0
    } else {
        count_newlines(bytes.drop_last()) + if bytes.last() == 0x0A {
            1int
        } else {
            0int
        }
    }
}

/// 1-based line number of the byte at offset `off`: one more than the number
/// of newline bytes strictly before it.
pub open spec fn line_of(bytes: Seq<u8>, off: int) -> int {
    1 + count_newlines(bytes.take(off))
}

/// Number of newline characters in a character sequence.
pub open spec fn count_newline_chars(s: Seq<char>) -> int
    decreases s.len(),
{
    if s.len() == 0 {
        0
    } else {
        count_newline_chars(s.drop_first()) + if s[0] == '\n' {
            1int
        } else {
            0int
        }
    }
}

proof fn lemma_count_newlines_concat(a: Seq<u8>, b: Seq<u8>)
    ensures
        count_newlines(a + b) == count_newlines(a) + count_newlines(b),
    decreases b.len(),
{
    if b.len() == 0 {
        assert(a + b =~= a);
    } else {
        lemma_count_newlines_concat(a, b.drop_last());
        assert((a + b).drop_last() =~= a + b.drop_last());
        assert((a + b).last() == b.last());
    }
}

/// Counting newline bytes in a UTF-8 encoding counts newline characters: the
/// byte 0x0A only ever encodes `'\n'`, so the line number derived from byte
/// counting is the line number in characters.
pub proof fn lemma_newline_bytes_count_newline_chars(s: Seq<char>)
    ensures
        count_newlines(encode_utf8(s)) == count_newline_chars(s),
    decreases s.len(),
{
    broadcast use vstd::utf8::char_is_scalar;

    if s.len() == 0 {
    } else {
        let u = s[0] as u32;
        vstd::utf8::char_is_scalar(s[0]);
        let e = encode_scalar(u);
        assert(encode_utf8(s) =~= e + encode_utf8(s.drop_first()));
        lemma_count_newlines_concat(e, encode_utf8(s.drop_first()));
        lemma_newline_bytes_count_newline_chars(s.drop_first());
        if s[0] == '\n' {
            assert(u == 0x0A);
            lemma_encode_scalar_first_byte(u);
            assert(e =~= seq![0x0Au8]);
            assert(count_newlines(e) == 1) by {
                assert(e.len() == 1 && e.last() == 0x0A);
                assert(e.drop_last() =~= Seq::<u8>::empty());
                assert(count_newlines(Seq::<u8>::empty()) == 0);
                assert(count_newlines(e.drop_last()) == 0);
            }
        } else {
            assert(u != 0x0A) by {
                vstd::utf8::char_u32_cast(s[0], u);
                vstd::utf8::char_u32_cast('\n', '\n' as u32);
            }
            lemma_encode_scalar_no_newline(u);
            assert(count_newlines(e) == 0) by {
                lemma_count_no_newlines(e);
            }
        }
    }
}

proof fn lemma_count_no_newlines(bytes: Seq<u8>)
    requires
        forall|i: int| 0 <= i < bytes.len() ==> bytes[i] != 0x0A,
    ensures
        count_newlines(bytes) == 0,
    decreases bytes.len(),
{
    if bytes.len() > 0 {
        lemma_count_no_newlines(bytes.drop_last());
    }
}

/// A lexical error: exactly one unrecognized character, located by a byte
/// span within the full source text, which the error carries for rendering.
#[derive(Debug, Clone, PartialEq)]
pub struct SingleTokenError {
    /// The whole source text in which the error occurred.
    pub src: String,
    /// The offending character.
    pub token: char,
    /// Location of the offending character: its byte offset within `src` and
    /// the byte length of its UTF-8 encoding.
    pub err_span: ByteSpan,
}

impl SingleTokenError {
    /// The span is non-empty and lies inside the UTF-8 encoding of `src`.
    pub open spec fn wf(&self) -> bool {
        &&& 1 <= self.err_span.len
        &&& self.err_span.offset + self.err_span.len <= encode_utf8(self.src@).len()
        &&& encode_utf8(self.src@).len() <= usize::MAX
    }

    /// 1-based line number of the offending character, derived by counting
    /// newline bytes in the source text before the error's byte offset.
    pub fn line(&self) -> (r: usize)
        requires
            self.wf(),
        ensures
            r as int == line_of(encode_utf8(self.src@), self.err_span.offset as int),
    {
        let bytes: &[u8] = self.src.as_str().as_bytes();
        let stop: usize = self.err_span.offset;
        let mut count: usize = 0;
        let mut i: usize = 0;
        while i < stop
            invariant
                0 <= i <= stop,
                stop < bytes@.len() <= usize::MAX,
                bytes@ == encode_utf8(self.src@),
                count as int == count_newlines(bytes@.take(i as int)),
                count <= i,
            decreases stop - i,
        {
            proof {
                assert(bytes@.take(i + 1).drop_last() =~= bytes@.take(i as int));
                assert(bytes@.take(i + 1).last() == bytes@[i as int]);
            }
            if bytes[i] == 0x0A {
                count = count + 1;
            }
            i = i + 1;
        }
        count + 1
    }
}

} // verus!
