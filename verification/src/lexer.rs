use vstd::prelude::*;
use vstd::string::StrSliceExecFns;
use vstd::string::StringSliceAdditionalSpecFns;
use vstd::utf8::encode_scalar;
use vstd::utf8::encode_utf8;

use crate::error::ByteSpan;
use crate::error::SingleTokenError;
use crate::text::char_width;
use crate::text::char_utf8_width;
use crate::text::ident_byte;
use crate::text::ident_end;
use crate::text::is_ident_char;
use crate::text::is_ident_byte;
use crate::text::is_ident_start;
use crate::text::is_ident_start_char;
use crate::text::is_ws;
use crate::text::is_ws_char;
use crate::text::lemma_ascii_run;
use crate::text::lemma_char_at_ascii_boundary;
use crate::text::lemma_encode_concat;
use crate::text::lemma_encode_injective;
use crate::text::lemma_encode_scalar_first_byte;
use crate::text::lemma_first_char_boundary;
use crate::text::lemma_ident_end_is;
use crate::text::lemma_ws_end_is;
use crate::text::width_of;
use crate::text::ws_end;
use crate::token::Token;
use crate::token::TokenKind;

verus! {

broadcast use {vstd::utf8::char_is_scalar, vstd::utf8::char_u32_cast, vstd::utf8::encode_utf8_valid_utf8};

/// The spelling of the reserved word that introduces a named block.
pub open spec fn task_word() -> Seq<char> {
    seq!['t', 'a', 's', 'k']
}

/// The mathematical state of a lexer: the whole input, the unconsumed
/// suffix, and the byte offset within the whole input where that suffix
/// starts.
pub struct LexerModel {
    /// The entire input, as a character sequence.
    pub whole: Seq<char>,
    /// The unconsumed suffix of the input.
    pub rest: Seq<char>,
    /// Byte offset of `rest` within the UTF-8 encoding of `whole`.
    pub byte: int,
}

/// An iterator-style scanner over an input string: on each advance it
/// returns either a token or a lexical error, or signals end of input.
pub struct Lexer<'a> {
    whole: &'a str,
    rest: &'a str,
    byte: usize,
}

impl<'a> View for Lexer<'a> {
    type V = LexerModel;

    closed spec fn view(&self) -> LexerModel {
        LexerModel { whole: self.whole@, rest: self.rest@, byte: self.byte as int }
    }
}

/// What one call of [`Lexer::next`] does, as a relation between the state
/// before (`pre`), the state after (`post`), and the returned item `r`:
/// whitespace before the next token is consumed; then the first character
/// decides between end of input, a brace token, an identifier-shaped run
/// (classified as `Task` exactly when it spells the reserved word), and a
/// lexical error covering exactly one character.
pub open spec fn step_spec<'a>(
    pre: LexerModel,
    post: LexerModel,
    r: Option<Result<Token<'a>, SingleTokenError>>,
) -> bool {
    let s = pre.rest;
    let j = ws_end(s, 0);
    let off = pre.byte + width_of(s.take(j));
    &&& post.whole == pre.whole
    &&& if j == s.len() {
        &&& r is None
        &&& post.rest == s.skip(j)
        &&& post.byte == off
    } else {
        let c = s[j];
        if c == '{' || c == '}' {
            &&& (r matches Some(Ok(t)) && t.kind == (if c == '{' {
                TokenKind::LeftBrace
            } else {
                TokenKind::RightBrace
            }) && t.origin@ == s.subrange(j, j + 1) && t.offset == off)
            &&& post.rest == s.skip(j + 1)
            &&& post.byte == off + 1
        } else if is_ident_start_char(c) {
            let e = ident_end(s, j);
            &&& (r matches Some(Ok(t)) && t.kind == (if s.subrange(j, e) == task_word() {
                TokenKind::Task
            } else {
                TokenKind::Ident
            }) && t.origin@ == s.subrange(j, e) && t.offset == off)
            &&& post.rest == s.skip(e)
            &&& post.byte == off + (e - j)
        } else {
            &&& (r matches Some(Err(e)) && e.token == c && e.err_span.offset == off
                && e.err_span.len == char_width(c) && e.src@ == pre.whole && e.wf())
            &&& post.rest == s.skip(j + 1)
            &&& post.byte == off + char_width(c)
        }
    }
}

impl<'a> Lexer<'a> {
    /// The scanner's invariant: the cursor lies on a character boundary
    /// within the input's UTF-8 encoding, and the unconsumed suffix is
    /// exactly what lies at and after the cursor.
    pub open spec fn wf(self) -> bool {
        let wb = encode_utf8(self@.whole);
        let rb = encode_utf8(self@.rest);
        &&& wb.len() <= usize::MAX
        &&& 0 <= self@.byte <= wb.len()
        &&& rb == wb.skip(self@.byte)
    }

    /// A fresh scanner over `input`, with the cursor at offset 0.  An empty
    /// input is legal and immediately yields end of input.
    pub fn new(input: &'a str) -> (r: Lexer<'a>)
        ensures
            r.wf(),
            r@.whole == input@,
            r@.rest == input@,
            r@.byte == 0,
    {
        // a slice length is a usize: the input's encoding fits the machine,
        // which every later cursor bound rests on
        let _len: usize = input.as_bytes().len();
        proof {
            assert(encode_utf8(input@).skip(0) =~= encode_utf8(input@));
        }
        Lexer { whole: input, rest: input, byte: 0 }
    }

    /// Produce the next item: `None` once all input is consumed (terminal
    /// and idempotent), a token on a successful match, or a lexical error
    /// describing exactly one offending character, past which the scan
    /// resumes.  [`step_spec`] states the exact outcome and cursor movement.
    #[verifier::rlimit(60)]
    pub fn next(&mut self) -> (r: Option<Result<Token<'a>, SingleTokenError>>)
        requires
            old(self).wf(),
        ensures
            final(self).wf(),
            step_spec(old(self)@, final(self)@, r),
    {
        let ghost s0: Seq<char> = self.rest@;
        let ghost b0: int = self@.byte;
        let ghost mut j: int = 0;
        loop
            invariant
                self.wf(),
                self@.whole == old(self)@.whole,
                s0 == old(self)@.rest,
                b0 == old(self)@.byte,
                0 <= j <= s0.len(),
                self@.rest == s0.skip(j),
                self@.byte == b0 + width_of(s0.take(j)),
                forall|m: int| 0 <= m < j ==> is_ws_char(s0[m]),
            decreases s0.len() - j,
        {
            let rest_now: &'a str = self.rest;
            let bytes: &[u8] = rest_now.as_bytes();
            let n: usize = bytes.len();
            if n == 0 {
                proof {
                    if rest_now@.len() > 0 {
                        lemma_encode_scalar_first_byte(rest_now@[0] as u32);
                        assert(encode_utf8(rest_now@) =~= encode_scalar(rest_now@[0] as u32)
                            + encode_utf8(rest_now@.drop_first()));
                    }
                    assert(rest_now@.len() == 0);
                    assert(j == s0.len());
                    lemma_ws_end_is(s0, 0, j);
                }
                return None;
            }
            proof {
                // a nonempty encoding means at least one character remains
                assert(rest_now@.len() > 0) by {
                    if rest_now@.len() == 0 {
                        assert(encode_utf8(rest_now@).len() == 0);
                    }
                }
            }
            let c = rest_now.get_char(0);
            let ghost s = rest_now@;
            proof {
                assert(s[0] == s0[j]);
                lemma_first_char_boundary(s);
                // the suffix after this character, and the cost of crossing it
                assert(s.drop_first() =~= s0.skip(j + 1));
                lemma_encode_concat(s0.take(j), seq![s0[j]]);
                assert(s0.take(j + 1) =~= s0.take(j) + seq![s0[j]]);
                crate::text::lemma_encode_singleton(s0[j]);
                assert(width_of(s0.take(j + 1)) == width_of(s0.take(j)) + char_width(s0[j]));
                // the whole input's encoding does not shrink across the split
                assert(encode_utf8(self@.whole).skip(self@.byte + char_width(c)) =~= encode_utf8(
                    s,
                ).skip(char_width(c)));
            }
            if is_ws(c) {
                let w = char_utf8_width(c);
                let (_ws, rest2) = rest_now.split_at(w);
                proof {
                    lemma_encode_injective(rest2@, s.drop_first());
                }
                self.rest = rest2;
                self.byte = self.byte + w;
                proof {
                    j = j + 1;
                }
            } else if c == '{' || c == '}' {
                proof {
                    lemma_ws_end_is(s0, 0, j);
                    assert((c as u32) < 0x80);
                    lemma_encode_scalar_first_byte(c as u32);
                    assert(char_width(c) == 1);
                }
                let (origin, rest2) = rest_now.split_at(1);
                proof {
                    assert(origin.spec_bytes() =~= encode_scalar(c as u32));
                    crate::text::lemma_encode_singleton(c);
                    lemma_encode_injective(origin@, seq![c]);
                    lemma_encode_injective(rest2@, s.drop_first());
                    assert(s0.subrange(j, j + 1) =~= seq![s0[j]]);
                }
                let off = self.byte;
                let kind = if c == '{' {
                    TokenKind::LeftBrace
                } else {
                    TokenKind::RightBrace
                };
                self.rest = rest2;
                self.byte = self.byte + 1;
                return Some(Ok(Token { origin, offset: off, kind }));
            } else if is_ident_start(c) {
                let mut end: usize = 1;
                proof {
                    lemma_ws_end_is(s0, 0, j);
                    assert(forall|m: int|
                        0 <= m < 1 ==> is_ident_char(s[m]) && ((s[m] as u32) < 0x80));
                }
                while end < n && ident_byte(bytes[end])
                    invariant
                        1 <= end <= n,
                        bytes@ == encode_utf8(s),
                        n == bytes@.len(),
                        end <= s.len(),
                        forall|m: int| 0 <= m < end ==> is_ident_char(s[m]) && ((s[m] as u32) < 0x80),
                    decreases n - end,
                {
                    proof {
                        lemma_char_at_ascii_boundary(s, end as int);
                        assert(is_ident_byte(bytes@[end as int]));
                        assert((s[end as int] as u32) == bytes@[end as int] as u32);
                        assert(is_ident_char(s[end as int]));
                    }
                    end = end + 1;
                }
                proof {
                    lemma_char_at_ascii_boundary(s, end as int);
                    if (end as int) < s.len() {
                        assert(!is_ident_byte(bytes@[end as int]));
                        if bytes@[end as int] < 0x80 {
                            assert((s[end as int] as u32) == bytes@[end as int] as u32);
                        }
                        assert(!is_ident_char(s[end as int]));
                    }
                    assert forall|m: int| j <= m < j + end implies is_ident_char(s0[m]) by {
                        assert(s0[m] == s[m - j]);
                    }
                    if j + end < s0.len() {
                        assert(s0[j + end] == s[end as int]);
                    }
                    lemma_ident_end_is(s0, j, j + end);
                    lemma_ascii_run(s, end as int);
                }
                let (origin, rest2) = rest_now.split_at(end);
                let is_task = end == 4 && bytes[0] == 0x74 && bytes[1] == 0x61 && bytes[2] == 0x73
                    && bytes[3] == 0x6B;
                proof {
                    assert(origin.spec_bytes() =~= encode_utf8(s.take(end as int)));
                    lemma_encode_injective(origin@, s.take(end as int));
                    assert(s.take(end as int) =~= s0.subrange(j, j + end));
                    assert(encode_utf8(s).skip(end as int) =~= encode_utf8(s.skip(end as int)));
                    lemma_encode_injective(rest2@, s.skip(end as int));
                    assert(s.skip(end as int) =~= s0.skip(j + end));
                    // the keyword test on bytes decides equality with the
                    // reserved word on characters
                    assert(('t' as u32) == 0x74 && ('a' as u32) == 0x61 && ('s' as u32) == 0x73
                        && ('k' as u32) == 0x6B);
                    if is_task {
                        assert(s[0] as u32 == 0x74 && s[1] as u32 == 0x61 && s[2] as u32 == 0x73
                            && s[3] as u32 == 0x6B);
                        crate::text::lemma_char_eq_of_u32(s[0], 't');
                        crate::text::lemma_char_eq_of_u32(s[1], 'a');
                        crate::text::lemma_char_eq_of_u32(s[2], 's');
                        crate::text::lemma_char_eq_of_u32(s[3], 'k');
                        assert(origin@ =~= task_word());
                    } else {
                        if origin@ == task_word() {
                            assert(end == 4);
                            assert(origin@[0] == 't' && origin@[1] == 'a' && origin@[2] == 's'
                                && origin@[3] == 'k');
                            assert(s[0] == 't' && s[1] == 'a' && s[2] == 's' && s[3] == 'k');
                            assert(bytes@[0] == 0x74 && bytes@[1] == 0x61 && bytes@[2] == 0x73
                                && bytes@[3] == 0x6B);
                            assert(false);
                        }
                    }
                    // the cursor crosses exactly the run's bytes
                    assert(width_of(s0.take(j + end)) == width_of(s0.take(j)) + end) by {
                        lemma_encode_concat(s0.take(j), s.take(end as int));
                        assert(s0.take(j + end) =~= s0.take(j) + s.take(end as int));
                    }
                    assert(encode_utf8(self@.whole).skip(self@.byte + end) =~= encode_utf8(
                        s,
                    ).skip(end as int));
                }
                let off = self.byte;
                let kind = if is_task {
                    TokenKind::Task
                } else {
                    TokenKind::Ident
                };
                self.rest = rest2;
                self.byte = self.byte + end;
                return Some(Ok(Token { origin, offset: off, kind }));
            } else {
                proof {
                    lemma_ws_end_is(s0, 0, j);
                }
                let w = char_utf8_width(c);
                let (_bad, rest2) = rest_now.split_at(w);
                proof {
                    lemma_encode_injective(rest2@, s.drop_first());
                }
                let off = self.byte;
                let err = SingleTokenError {
                    src: self.whole.to_owned(),
                    token: c,
                    err_span: ByteSpan { offset: off, len: w },
                };
                self.rest = rest2;
                self.byte = self.byte + w;
                return Some(Err(err));
            }
        }
    }
}

} // verus!
