use vstd::prelude::*;

use crate::error::SingleTokenError;
use crate::lexer::LexerModel;
use crate::lexer::step_spec;
use crate::lexer::task_word;
use crate::text::char_width;
use crate::text::ident_end;
use crate::text::is_ident_char;
use crate::text::is_ident_start_char;
use crate::text::is_ws_char;
use crate::text::lemma_ascii_run;
use crate::text::lemma_encode_singleton;
use crate::text::lemma_ident_end;
use crate::text::lemma_ident_end_is;
use crate::text::lemma_ws_end;
use crate::text::lemma_ws_end_is;
use crate::text::width_of;
use crate::text::ws_end;
use crate::token::Token;
use crate::token::TokenKind;

verus! {

broadcast use vstd::seq::group_seq_axioms;

/// One item of the full scan of an input: a classified, located token, or a
/// located offending character.
pub enum LexItem {
    /// A token: its kind, its literal text, and its byte offset.
    Tok { kind: TokenKind, text: Seq<char>, offset: int },
    /// A lexical error: the offending character (as a one-character text)
    /// and its byte offset.
    Bad { text: Seq<char>, offset: int },
}

/// A character that no token can start with: not a brace and not an
/// identifier start.  At a position where whitespace has been skipped, such
/// a character is a lexical error.
pub open spec fn is_bad_start(c: char) -> bool {
    !(c == '{' || c == '}') && !is_ident_start_char(c)
}

/// The entire sequence of items the lexer produces when started on the
/// suffix `s` of an input at byte offset `off`: leading whitespace is
/// consumed; then the first character yields a brace token, an
/// identifier-shaped run (`Task` exactly when it spells the reserved word),
/// or an error covering one character; and the scan continues after it.
pub open spec fn scan(s: Seq<char>, off: int) -> Seq<LexItem>
    decreases s.len(),
{
    let j = clip_index(ws_end(s, 0), s.len() as int);
    if j == s.len() {
        seq![]
    } else {
        let c = s[j];
        let off1 = off + width_of(s.take(j));
        if is_bad_start(c) {
            seq![LexItem::Bad { text: s.subrange(j, j + 1), offset: off1 }] + scan(
                s.skip(j + 1),
                off1 + width_of(s.subrange(j, j + 1)),
            )
        } else if c == '{' || c == '}' {
            seq![
                LexItem::Tok {
                    kind: if c == '{' {
                        TokenKind::LeftBrace
                    } else {
                        TokenKind::RightBrace
                    },
                    text: s.subrange(j, j + 1),
                    offset: off1,
                },
            ] + scan(s.skip(j + 1), off1 + 1)
        } else {
            let e = clip_run(ident_end(s, j), j, s.len() as int);
            seq![
                LexItem::Tok {
                    kind: if s.subrange(j, e) == task_word() {
                        TokenKind::Task
                    } else {
                        TokenKind::Ident
                    },
                    text: s.subrange(j, e),
                    offset: off1,
                },
            ] + scan(s.skip(e), off1 + (e - j))
        }
    }
}

/// `i` unless it lies outside `[0, n]`; `ws_end` and `ident_end` never do.
pub open spec fn clip_index(i: int, n: int) -> int {
    if 0 <= i <= n {
        i
    } else {
        0
    }
}

/// `e` unless it lies outside `(j, n]`; a run end starting inside never does.
pub open spec fn clip_run(e: int, j: int, n: int) -> int {
    if j < e <= n {
        e
    } else {
        j + 1
    }
}

/// The same item with its location erased: what remains is the token's kind
/// and text, or the offending character.
pub open spec fn item_shape(it: LexItem) -> LexItem {
    match it {
        LexItem::Tok { kind, text, offset } => LexItem::Tok { kind, text, offset: 0 },
        LexItem::Bad { text, offset } => LexItem::Bad { text, offset: 0 },
    }
}

/// The scan's items with their locations erased.
pub open spec fn shapes(items: Seq<LexItem>) -> Seq<LexItem> {
    items.map_values(|it: LexItem| item_shape(it))
}

/// Erasure distributes over putting one item in front of a scan.
proof fn lemma_shapes_cons(x: LexItem, y: LexItem, a: Seq<LexItem>, b: Seq<LexItem>)
    requires
        item_shape(x) == item_shape(y),
        shapes(a) == shapes(b),
    ensures
        shapes(seq![x] + a) == shapes(seq![y] + b),
{
    assert(shapes(seq![x] + a) =~~= shapes(seq![y] + b)) by {
        assert(a.len() == b.len()) by {
            assert(shapes(a).len() == a.len() && shapes(b).len() == b.len());
        }
        assert forall|i: int|
            0 <= i < shapes(seq![x] + a).len() implies shapes(seq![x] + a)[i] == shapes(
            seq![y] + b,
        )[i] by {
            if i == 0 {
                assert((seq![x] + a)[0] == x && (seq![y] + b)[0] == y);
            } else {
                assert((seq![x] + a)[i] == a[i - 1] && (seq![y] + b)[i] == b[i - 1]);
                assert(shapes(a)[i - 1] == item_shape(a[i - 1]));
                assert(shapes(b)[i - 1] == item_shape(b[i - 1]));
            }
        }
    }
}

/// One call of [`crate::lexer::Lexer::next`] produces exactly the first item
/// of the remaining scan, and leaves a state whose scan is the remainder: an
/// end-of-input signal comes exactly on an item-free rest.
pub proof fn lemma_step_scan<'a>(
    pre: LexerModel,
    post: LexerModel,
    r: Option<Result<Token<'a>, SingleTokenError>>,
)
    requires
        step_spec(pre, post, r),
    ensures
        (r is None) <==> scan(pre.rest, pre.byte) == Seq::<LexItem>::empty(),
        r matches Some(Ok(t)) ==> scan(pre.rest, pre.byte) =~= seq![
            LexItem::Tok { kind: t.kind, text: t.origin@, offset: t.offset as int },
        ] + scan(post.rest, post.byte),
        r matches Some(Err(e)) ==> scan(pre.rest, pre.byte) =~= seq![
            LexItem::Bad { text: seq![e.token], offset: e.err_span.offset as int },
        ] + scan(post.rest, post.byte),
{
    let s = pre.rest;
    let j = ws_end(s, 0);
    let off = pre.byte + width_of(s.take(j));
    lemma_ws_end(s, 0);
    if j == s.len() {
        assert(scan(s, pre.byte) == Seq::<LexItem>::empty());
    } else {
        let c = s[j];
        assert(clip_index(ws_end(s, 0), s.len() as int) == j);
        assert(s.subrange(j, j + 1) =~= seq![c]);
        if c == '{' || c == '}' {
            let k = if c == '{' {
                TokenKind::LeftBrace
            } else {
                TokenKind::RightBrace
            };
            let x = LexItem::Tok { kind: k, text: s.subrange(j, j + 1), offset: off };
            let a = scan(s.skip(j + 1), off + 1);
            assert(!is_bad_start(c));
            assert(scan(s, pre.byte) == seq![x] + a);
            assert(scan(post.rest, post.byte) == a);
        } else if is_ident_start_char(c) {
            let e = ident_end(s, j);
            assert(ident_end(s, j) == ident_end(s, j + 1));
            lemma_ident_end(s, j + 1);
            assert(clip_run(ident_end(s, j), j, s.len() as int) == e);
            let k = if s.subrange(j, e) == task_word() {
                TokenKind::Task
            } else {
                TokenKind::Ident
            };
            let x = LexItem::Tok { kind: k, text: s.subrange(j, e), offset: off };
            let a = scan(s.skip(e), off + (e - j));
            assert(!is_bad_start(c));
            assert(scan(s, pre.byte) == seq![x] + a);
            assert(scan(post.rest, post.byte) == a);
        } else {
            let x = LexItem::Bad { text: s.subrange(j, j + 1), offset: off };
            let a = scan(s.skip(j + 1), off + width_of(s.subrange(j, j + 1)));
            assert(is_bad_start(c));
            assert(scan(s, pre.byte) == seq![x] + a);
            lemma_encode_singleton(c);
            assert(width_of(s.subrange(j, j + 1)) == char_width(c));
            assert(scan(post.rest, post.byte) == a);
            match r {
                Some(Err(err)) => {
                    assert(seq![err.token] =~= s.subrange(j, j + 1));
                },
                _ => {
                },
            }
        }
    }
}

/// Once the scanner has signalled end of input, every further call returns
/// the same signal and leaves the state unchanged: exhaustion is idempotent.
pub proof fn lemma_exhaustion_idempotent<'a>(
    pre: LexerModel,
    post: LexerModel,
    r: Option<Result<Token<'a>, SingleTokenError>>,
)
    requires
        pre.rest.len() == 0,
        step_spec(pre, post, r),
    ensures
        r is None,
        post.whole == pre.whole,
        post.rest == pre.rest,
        post.byte == pre.byte,
{
    assert(pre.rest.take(0) =~= pre.rest);
    assert(pre.rest.skip(0) =~= pre.rest);
}

/// An input consisting of whitespace alone — the empty input included —
/// produces no items at all.
pub proof fn lemma_whitespace_only(s: Seq<char>, off: int)
    requires
        forall|i: int| 0 <= i < s.len() ==> is_ws_char(s[i]),
    ensures
        scan(s, off) == Seq::<LexItem>::empty(),
{
    lemma_ws_end_is(s, 0, s.len() as int);
}

/// Respelling whitespace — replacing any whitespace character by any other,
/// a newline by a space or a space by a newline — changes at most the byte
/// offsets of the items produced: their kinds, their texts, and any
/// offending characters are unchanged.
pub proof fn lemma_whitespace_respelling(s1: Seq<char>, s2: Seq<char>, off1: int, off2: int)
    requires
        s1.len() == s2.len(),
        forall|i: int|
            0 <= i < s1.len() ==> s1[i] == s2[i] || (is_ws_char(s1[i]) && is_ws_char(s2[i])),
    ensures
        shapes(scan(s1, off1)) =~~= shapes(scan(s2, off2)),
    decreases s1.len(),
{
    assert forall|i: int| 0 <= i < s1.len() implies is_ws_char(s1[i]) == is_ws_char(s2[i]) by {
        assert(s1[i] == s2[i] || (is_ws_char(s1[i]) && is_ws_char(s2[i])));
    }
    lemma_ws_end(s1, 0);
    lemma_ws_end(s2, 0);
    let j = ws_end(s1, 0);
    lemma_ws_end_is(s2, 0, j);
    if j == s1.len() {
    } else {
        let c = s1[j];
        assert(s2[j] == c);
        if c == '{' || c == '}' {
            assert(s1.subrange(j, j + 1) =~= s2.subrange(j, j + 1));
            let k = if c == '{' {
                TokenKind::LeftBrace
            } else {
                TokenKind::RightBrace
            };
            let x = LexItem::Tok {
                kind: k,
                text: s1.subrange(j, j + 1),
                offset: off1 + width_of(s1.take(j)),
            };
            let y = LexItem::Tok {
                kind: k,
                text: s2.subrange(j, j + 1),
                offset: off2 + width_of(s2.take(j)),
            };
            let a = scan(s1.skip(j + 1), off1 + width_of(s1.take(j)) + 1);
            let b = scan(s2.skip(j + 1), off2 + width_of(s2.take(j)) + 1);
            assert(scan(s1, off1) == seq![x] + a);
            assert(scan(s2, off2) == seq![y] + b);
            lemma_whitespace_respelling(
                s1.skip(j + 1),
                s2.skip(j + 1),
                off1 + width_of(s1.take(j)) + 1,
                off2 + width_of(s2.take(j)) + 1,
            );
            lemma_shapes_cons(x, y, a, b);
        } else if is_ident_start_char(c) {
            let e = ident_end(s1, j);
            lemma_ident_end(s1, j);
            assert forall|m: int| j <= m < e implies s2[m] == s1[m] && is_ident_char(s2[m]) by {}
            if e < s1.len() {
                assert(s2[e] == s1[e] || (is_ws_char(s1[e]) && is_ws_char(s2[e])));
                if s2[e] != s1[e] {
                    assert(!is_ident_char(s2[e]));
                }
            }
            lemma_ident_end_is(s2, j, e);
            assert(s1.subrange(j, e) =~= s2.subrange(j, e));
            let k = if s1.subrange(j, e) == task_word() {
                TokenKind::Task
            } else {
                TokenKind::Ident
            };
            let x = LexItem::Tok {
                kind: k,
                text: s1.subrange(j, e),
                offset: off1 + width_of(s1.take(j)),
            };
            let y = LexItem::Tok {
                kind: k,
                text: s2.subrange(j, e),
                offset: off2 + width_of(s2.take(j)),
            };
            let a = scan(s1.skip(e), off1 + width_of(s1.take(j)) + (e - j));
            let b = scan(s2.skip(e), off2 + width_of(s2.take(j)) + (e - j));
            assert(scan(s1, off1) == seq![x] + a);
            assert(scan(s2, off2) == seq![y] + b);
            lemma_whitespace_respelling(
                s1.skip(e),
                s2.skip(e),
                off1 + width_of(s1.take(j)) + (e - j),
                off2 + width_of(s2.take(j)) + (e - j),
            );
            lemma_shapes_cons(x, y, a, b);
        } else {
            assert(s1.subrange(j, j + 1) =~= s2.subrange(j, j + 1));
            let x = LexItem::Bad {
                text: s1.subrange(j, j + 1),
                offset: off1 + width_of(s1.take(j)),
            };
            let y = LexItem::Bad {
                text: s2.subrange(j, j + 1),
                offset: off2 + width_of(s2.take(j)),
            };
            let a = scan(
                s1.skip(j + 1),
                off1 + width_of(s1.take(j)) + width_of(s1.subrange(j, j + 1)),
            );
            let b = scan(
                s2.skip(j + 1),
                off2 + width_of(s2.take(j)) + width_of(s2.subrange(j, j + 1)),
            );
            assert(is_bad_start(c));
            assert(scan(s1, off1) == seq![x] + a);
            assert(scan(s2, off2) == seq![y] + b);
            lemma_whitespace_respelling(
                s1.skip(j + 1),
                s2.skip(j + 1),
                off1 + width_of(s1.take(j)) + width_of(s1.subrange(j, j + 1)),
                off2 + width_of(s2.take(j)) + width_of(s2.subrange(j, j + 1)),
            );
            lemma_shapes_cons(x, y, a, b);
        }
    }
}

/// Byte offsets advance one per character over an ASCII prefix.
proof fn lemma_width_ascii(s: Seq<char>, k: int)
    requires
        0 <= k <= s.len(),
        forall|i: int| 0 <= i < k ==> (s[i] as u32) < 0x80,
    ensures
        width_of(s.take(k)) == k,
{
    lemma_ascii_run(s, k);
}

/// For any identifier-shaped word other than the reserved word — a run of
/// ASCII letters, digits and underscores that does not start with a digit —
/// the input `task <word> {}` scans to exactly the reserved word, the word
/// as an identifier, and the two braces, at their byte offsets.
pub proof fn lemma_task_block(word: Seq<char>)
    requires
        word.len() > 0,
        is_ident_start_char(word[0]),
        forall|i: int| 0 <= i < word.len() ==> is_ident_char(word[i]),
        word != task_word(),
    ensures
        scan(task_word() + seq![' '] + word + seq![' ', '{', '}'], 0) =~~= seq![
            LexItem::Tok { kind: TokenKind::Task, text: task_word(), offset: 0 },
            LexItem::Tok { kind: TokenKind::Ident, text: word, offset: 5 },
            LexItem::Tok {
                kind: TokenKind::LeftBrace,
                text: seq!['{'],
                offset: 6 + word.len() as int,
            },
            LexItem::Tok {
                kind: TokenKind::RightBrace,
                text: seq!['}'],
                offset: 7 + word.len() as int,
            },
        ],
{
    let n = word.len() as int;
    let input = task_word() + seq![' '] + word + seq![' ', '{', '}'];
    assert(task_word().len() == 4);
    assert(task_word()[0] == 't' && task_word()[1] == 'a' && task_word()[2] == 's'
        && task_word()[3] == 'k');
    assert(input.len() == n + 8);
    assert(input[0] == 't' && input[1] == 'a' && input[2] == 's' && input[3] == 'k');
    assert(input[4] == ' ');
    assert forall|i: int| 5 <= i < 5 + n implies input[i] == word[i - 5] by {}
    assert(input[n + 5] == ' ' && input[n + 6] == '{' && input[n + 7] == '}');

    // the reserved word at the front
    lemma_ws_end_is(input, 0, 0);
    lemma_ident_end_is(input, 0, 4);
    assert(width_of(input.take(0)) == 0) by {
        lemma_width_ascii(input, 0);
    }
    assert(input.subrange(0, 4) =~= task_word());

    // the word, after one space
    let r1 = input.skip(4);
    assert(r1.len() == n + 4);
    assert(r1[0] == ' ');
    assert forall|i: int| 1 <= i < 1 + n implies r1[i] == word[i - 1] by {}
    assert(r1[n + 1] == ' ' && r1[n + 2] == '{' && r1[n + 3] == '}');
    lemma_ws_end_is(r1, 0, 1);
    lemma_ident_end_is(r1, 1, 1 + n);
    assert(width_of(r1.take(1)) == 1) by {
        lemma_width_ascii(r1, 1);
    }
    assert(r1.subrange(1, 1 + n) =~= word);
    assert(r1.subrange(1, 1 + n) != task_word());

    // the left brace, after one space
    let r2 = r1.skip(1 + n);
    assert(r2 =~= seq![' ', '{', '}']);
    lemma_ws_end_is(r2, 0, 1);
    assert(width_of(r2.take(1)) == 1) by {
        lemma_width_ascii(r2, 1);
    }
    assert(r2.subrange(1, 2) =~= seq!['{']);

    // the right brace, immediately after
    let r3 = r2.skip(2);
    assert(r3 =~= seq!['}']);
    lemma_ws_end_is(r3, 0, 0);
    assert(width_of(r3.take(0)) == 0) by {
        lemma_width_ascii(r3, 0);
    }
    assert(r3.subrange(0, 1) =~= seq!['}']);

    // nothing after the braces
    let r4 = r3.skip(1);
    assert(r4.len() == 0);
    lemma_ws_end_is(r4, 0, 0);
    assert(scan(r4, n + 8) == Seq::<LexItem>::empty());

    assert(scan(r3, n + 7) =~~= seq![
        LexItem::Tok { kind: TokenKind::RightBrace, text: seq!['}'], offset: n + 7 },
    ]);
    assert(scan(r2, n + 5) =~~= seq![
        LexItem::Tok { kind: TokenKind::LeftBrace, text: seq!['{'], offset: n + 6 },
    ] + scan(r3, n + 7)) by {
        assert(r2.skip(2) =~= r3);
    }
    assert(scan(r1, 4) =~~= seq![
        LexItem::Tok { kind: TokenKind::Ident, text: word, offset: 5 },
    ] + scan(r2, n + 5)) by {
        assert(r1.skip(1 + n) =~= r2);
    }
    assert(scan(input, 0) =~~= seq![
        LexItem::Tok { kind: TokenKind::Task, text: task_word(), offset: 0 },
    ] + scan(r1, 4)) by {
        assert(input.skip(4) =~= r1);
    }
}

/// Collects the whole stream into tokens, the all-or-nothing way: the
/// result is `Ok` exactly when the scan of the input has no error item, and
/// then lists every scanned token in order; otherwise it is the first error,
/// and every item before it is a token.
pub fn collect_tokens<'a>(input: &'a str) -> (r: Result<Vec<Token<'a>>, SingleTokenError>)
    ensures
        ({
            let items = scan(input@, 0);
            match r {
                Ok(v) => {
                    &&& v@.len() == items.len()
                    &&& forall|i: int|
                        0 <= i < items.len() ==> items[i] == (LexItem::Tok {
                            kind: v@[i].kind,
                            text: v@[i].origin@,
                            offset: v@[i].offset as int,
                        })
                },
                Err(e) => exists|k: int|
                    {
                        &&& 0 <= k < items.len()
                        &&& items[k] == (LexItem::Bad {
                            text: seq![e.token],
                            offset: e.err_span.offset as int,
                        })
                        &&& forall|i: int| 0 <= i < k ==> #[trigger] items[i] is Tok
                    },
            }
        }),
{
    let ghost items = scan(input@, 0);
    let mut lexer = crate::lexer::Lexer::new(input);
    let mut tokens: Vec<Token<'a>> = Vec::new();
    loop
        invariant
            lexer.wf(),
            items == scan(input@, 0),
            tokens@.len() <= items.len(),
            scan(lexer@.rest, lexer@.byte) == items.skip(tokens@.len() as int),
            forall|i: int|
                0 <= i < tokens@.len() ==> items[i] == (LexItem::Tok {
                    kind: tokens@[i].kind,
                    text: tokens@[i].origin@,
                    offset: tokens@[i].offset as int,
                }),
        decreases lexer@.rest.len(),
    {
        let ghost pre = lexer@;
        let ghost done: int = tokens@.len() as int;
        let item = lexer.next();
        proof {
            lemma_step_scan(pre, lexer@, item);
        }
        match item {
            None => {
                proof {
                    assert(items.skip(done) =~= Seq::<LexItem>::empty());
                    assert(tokens@.len() == items.len());
                }
                return Ok(tokens);
            },
            Some(Ok(t)) => {
                proof {
                    assert(items.skip(done).len() > 0);
                    assert(items[done] == items.skip(done)[0]);
                    assert(items.skip(done).skip(1) =~= items.skip(done + 1));
                    assert(scan(lexer@.rest, lexer@.byte) == items.skip(done + 1));
                    lemma_ws_end(pre.rest, 0);
                    assert(pre.rest.len() > lexer@.rest.len()) by {
                        let j = ws_end(pre.rest, 0);
                        if j < pre.rest.len() && is_ident_start_char(pre.rest[j]) {
                            assert(ident_end(pre.rest, j) == ident_end(pre.rest, j + 1));
                            lemma_ident_end(pre.rest, j + 1);
                        }
                    }
                }
                tokens.push(t);
            },
            Some(Err(e)) => {
                proof {
                    assert(items.skip(done).len() > 0);
                    assert(items[done] == items.skip(done)[0]);
                    assert(0 <= done < items.len());
                    assert(items[done] == (LexItem::Bad {
                        text: seq![e.token],
                        offset: e.err_span.offset as int,
                    }));
                    assert(forall|i: int| 0 <= i < done ==> #[trigger] items[i] is Tok);
                }
                return Err(e);
            },
        }
    }
}

} // verus!
