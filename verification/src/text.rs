use vstd::prelude::*;
use vstd::utf8::*;

verus! {

broadcast use {vstd::utf8::char_is_scalar, vstd::utf8::char_u32_cast, vstd::utf8::encode_utf8_valid_utf8};

/// Unicode whitespace: the code points carrying the `White_Space` property.
pub open spec fn is_ws_char(c: char) -> bool {
    let u = c as u32;
    ||| u == 0x20
    ||| (0x09 <= u && u <= 0x0D)
    ||| u == 0x85
    ||| u == 0xA0
    ||| u == 0x1680
    ||| (0x2000 <= u && u <= 0x200A)
    ||| u == 0x2028
    ||| u == 0x2029
    ||| u == 0x202F
    ||| u == 0x205F
    ||| u == 0x3000
}

/// A character that may begin an identifier: an ASCII letter or `_`.
pub open spec fn is_ident_start_char(c: char) -> bool {
    let u = c as u32;
    ||| (0x61 <= u && u <= 0x7A)
    ||| (0x41 <= u && u <= 0x5A)
    ||| u == 0x5F
}

/// A character that may continue an identifier: an ASCII letter, `_`, or an
/// ASCII digit.  Digits never begin an identifier.
pub open spec fn is_ident_char(c: char) -> bool {
    is_ident_start_char(c) || (0x30 <= c as u32 && c as u32 <= 0x39)
}

/// The same identifier character class, read off a single UTF-8 byte.  All
/// identifier characters are ASCII, so on a valid encoding the byte test and
/// the character test agree.
pub open spec fn is_ident_byte(b: u8) -> bool {
    ||| (0x61 <= b && b <= 0x7A)
    ||| (0x41 <= b && b <= 0x5A)
    ||| b == 0x5F
    ||| (0x30 <= b && b <= 0x39)
}

/// Byte length of one character's UTF-8 encoding.
pub open spec fn char_width(c: char) -> int {
    encode_scalar(c as u32).len() as int
}

/// Total byte length of the UTF-8 encoding of a character sequence.
pub open spec fn width_of(s: Seq<char>) -> int {
    encode_utf8(s).len() as int
}

/// Index of the first non-whitespace character at or after `i`, or `s.len()`.
pub open spec fn ws_end(s: Seq<char>, i: int) -> int
    decreases s.len() - i when 0 <= i <= s.len()
{
    if i < s.len() && is_ws_char(s[i]) {
        ws_end(s, i + 1)
    } else {
        i
    }
}

/// End of the maximal run of identifier characters starting at `i`.
pub open spec fn ident_end(s: Seq<char>, i: int) -> int
    decreases s.len() - i when 0 <= i <= s.len()
{
    if i < s.len() && is_ident_char(s[i]) {
        ident_end(s, i + 1)
    } else {
        i
    }
}

pub proof fn lemma_ws_end(s: Seq<char>, i: int)
    requires
        0 <= i <= s.len(),
    ensures
        i <= ws_end(s, i) <= s.len(),
        forall|m: int| i <= m < ws_end(s, i) ==> is_ws_char(s[m]),
        ws_end(s, i) < s.len() ==> !is_ws_char(s[ws_end(s, i)]),
    decreases s.len() - i,
{
    if i < s.len() && is_ws_char(s[i]) {
        lemma_ws_end(s, i + 1);
    }
}

/// `ws_end` is pinned down by its characteristic properties.
pub proof fn lemma_ws_end_is(s: Seq<char>, i: int, j: int)
    requires
        0 <= i <= j <= s.len(),
        forall|m: int| i <= m < j ==> is_ws_char(s[m]),
        j < s.len() ==> !is_ws_char(s[j]),
    ensures
        ws_end(s, i) == j,
    decreases j - i,
{
    if i < j {
        lemma_ws_end_is(s, i + 1, j);
    }
}

pub proof fn lemma_ident_end(s: Seq<char>, i: int)
    requires
        0 <= i <= s.len(),
    ensures
        i <= ident_end(s, i) <= s.len(),
        forall|m: int| i <= m < ident_end(s, i) ==> is_ident_char(s[m]),
        ident_end(s, i) < s.len() ==> !is_ident_char(s[ident_end(s, i)]),
    decreases s.len() - i,
{
    if i < s.len() && is_ident_char(s[i]) {
        lemma_ident_end(s, i + 1);
    }
}

/// `ident_end` is pinned down by its characteristic properties.
pub proof fn lemma_ident_end_is(s: Seq<char>, i: int, j: int)
    requires
        0 <= i <= j <= s.len(),
        forall|m: int| i <= m < j ==> is_ident_char(s[m]),
        j < s.len() ==> !is_ident_char(s[j]),
    ensures
        ident_end(s, i) == j,
    decreases j - i,
{
    if i < j {
        lemma_ident_end_is(s, i + 1, j);
    }
}

/// Whether `c` is Unicode whitespace.
pub fn is_ws(c: char) -> (r: bool)
    ensures
        r == is_ws_char(c),
{
    let u = c as u32;
    u == 0x20 || (0x09 <= u && u <= 0x0D) || u == 0x85 || u == 0xA0 || u == 0x1680 || (0x2000 <= u
        && u <= 0x200A) || u == 0x2028 || u == 0x2029 || u == 0x202F || u == 0x205F || u == 0x3000
}

/// Whether `c` may begin an identifier.
pub fn is_ident_start(c: char) -> (r: bool)
    ensures
        r == is_ident_start_char(c),
{
    let u = c as u32;
    (0x61 <= u && u <= 0x7A) || (0x41 <= u && u <= 0x5A) || u == 0x5F
}

/// Whether the byte `b` encodes an identifier character.
pub fn ident_byte(b: u8) -> (r: bool)
    ensures
        r == is_ident_byte(b),
{
    (0x61 <= b && b <= 0x7A) || (0x41 <= b && b <= 0x5A) || b == 0x5F || (0x30 <= b && b <= 0x39)
}

/// Byte length of `c`'s UTF-8 encoding, computed from its scalar value.
pub fn char_utf8_width(c: char) -> (r: usize)
    ensures
        r as int == char_width(c),
        1 <= r <= 4,
{
    let u = c as u32;
    proof {
        char_is_scalar(c);
    }
    if u < 0x80 {
        1
    } else if u < 0x800 {
        2
    } else if u < 0x10000 {
        3
    } else {
        4
    }
}

/// The first byte of a scalar's UTF-8 encoding determines whether the scalar
/// is ASCII, and is never a continuation byte.
pub proof fn lemma_encode_scalar_first_byte(u: u32)
    requires
        is_scalar(u),
    ensures
        encode_scalar(u).len() >= 1,
        u < 0x80 ==> encode_scalar(u) =~= seq![u as u8],
        u < 0x80 ==> (u as u8) < 0x80 && (u as u8) as u32 == u,
        u >= 0x80 ==> encode_scalar(u)[0] >= 0xC0,
        !is_continuation_byte(encode_scalar(u)[0]),
{
    if u < 0x80 {
        let b = leading_byte_width_1(u);
        assert(b == (u & 0x7F) as u8);
        assert(b == u as u8 && b < 0x80 && (b as u32) == u) by (bit_vector)
            requires
                b == (u & 0x7F) as u8,
                u < 0x80,
        ;
    } else if u < 0x800 {
        let b = leading_byte_width_2(u);
        assert(b >= 0xC0) by (bit_vector)
            requires
                b == 0xC0 | (((u >> 6) & 0x1F) as u8),
        ;
    } else if has_width_3_encoding(u) {
        let b = leading_byte_width_3(u);
        assert(b >= 0xC0) by (bit_vector)
            requires
                b == 0xE0 | (((u >> 12) & 0x0F) as u8),
        ;
    } else {
        let b = leading_byte_width_4(u);
        assert(b >= 0xC0) by (bit_vector)
            requires
                b == 0xF0 | (((u >> 18) & 0x7) as u8),
        ;
    }
}

/// Encoding distributes over concatenation.
pub proof fn lemma_encode_concat(a: Seq<char>, b: Seq<char>)
    ensures
        encode_utf8(a + b) =~= encode_utf8(a) + encode_utf8(b),
    decreases a.len(),
{
    if a.len() == 0 {
        assert(a + b =~= b);
        assert(encode_utf8(a) =~= Seq::<u8>::empty());
    } else {
        lemma_encode_concat(a.drop_first(), b);
        assert((a + b).drop_first() =~= a.drop_first() + b);
        assert((a + b)[0] == a[0]);
        assert(encode_utf8(a + b) =~= encode_scalar(a[0] as u32) + encode_utf8(
            a.drop_first() + b,
        ));
    }
}

/// Encoding is injective.
pub proof fn lemma_encode_injective(a: Seq<char>, b: Seq<char>)
    requires
        encode_utf8(a) == encode_utf8(b),
    ensures
        a == b,
{
    broadcast use vstd::utf8::encode_utf8_decode_utf8;

    assert(decode_utf8(encode_utf8(a)) == a);
    assert(decode_utf8(encode_utf8(b)) == b);
}

/// Over a prefix of `k` ASCII characters, byte positions and character
/// positions coincide, and each byte is the character's own code.
pub proof fn lemma_ascii_run(s: Seq<char>, k: int)
    requires
        0 <= k <= s.len(),
        forall|i: int| 0 <= i < k ==> (s[i] as u32) < 0x80,
    ensures
        encode_utf8(s).len() == k + encode_utf8(s.skip(k)).len(),
        encode_utf8(s).skip(k) =~= encode_utf8(s.skip(k)),
        encode_utf8(s.take(k)) =~= encode_utf8(s).take(k),
        forall|i: int|
            0 <= i < k ==> encode_utf8(s)[i] == ((s[i] as u32) as u8) && encode_utf8(s)[i] < 0x80
                && (encode_utf8(s)[i] as u32) == s[i] as u32,
    decreases k,
{
    if k == 0 {
        assert(s.skip(0) =~= s);
        assert(s.take(0) =~= Seq::<char>::empty());
        assert(encode_utf8(s).skip(0) =~= encode_utf8(s));
        assert(encode_utf8(s).take(0) =~= Seq::<u8>::empty());
    } else {
        let u = s[0] as u32;
        char_is_scalar(s[0]);
        lemma_encode_scalar_first_byte(u);
        let t = s.drop_first();
        assert(encode_utf8(s) =~= seq![u as u8] + encode_utf8(t));
        lemma_ascii_run(t, k - 1);
        assert(t.skip(k - 1) =~= s.skip(k));
        assert(encode_utf8(s).skip(k) =~= encode_utf8(t).skip(k - 1));
        assert(encode_utf8(s.take(k)) =~= encode_utf8(s).take(k)) by {
            assert(s.take(k).drop_first() =~= t.take(k - 1));
            assert(s.take(k)[0] == s[0]);
            assert(encode_utf8(s.take(k)) =~= seq![u as u8] + encode_utf8(t.take(k - 1)));
            assert(encode_utf8(s).take(k) =~= seq![u as u8] + encode_utf8(t).take(k - 1));
        }
        assert forall|i: int| 0 <= i < k implies encode_utf8(s)[i] == ((s[i] as u32) as u8)
            && encode_utf8(s)[i] < 0x80 && (encode_utf8(s)[i] as u32) == s[i] as u32 by {
            if i > 0 {
                assert(encode_utf8(s)[i] == encode_utf8(t)[i - 1]);
                assert(t[i - 1] == s[i]);
            }
        }
    }
}

/// After a prefix of `k` ASCII characters, byte position `k` is a character
/// boundary, and the byte found there classifies the character found there.
pub proof fn lemma_char_at_ascii_boundary(s: Seq<char>, k: int)
    requires
        0 <= k <= s.len(),
        forall|i: int| 0 <= i < k ==> (s[i] as u32) < 0x80,
    ensures
        is_char_boundary(encode_utf8(s), k),
        k < s.len() <==> k < encode_utf8(s).len(),
        k < s.len() ==> {
            let b = encode_utf8(s)[k];
            let u = s[k] as u32;
            &&& (b < 0x80 ==> u == b as u32)
            &&& (b >= 0x80 ==> u >= 0x80)
        },
{
    broadcast use vstd::utf8::is_char_boundary_start_end_of_seq;
    broadcast use vstd::utf8::is_char_boundary_iff_not_is_continuation_byte;

    lemma_ascii_run(s, k);
    if k < s.len() {
        let t = s.skip(k);
        let u = s[k] as u32;
        assert(t[0] == s[k]);
        char_is_scalar(s[k]);
        lemma_encode_scalar_first_byte(u);
        assert(encode_utf8(t) =~= encode_scalar(u) + encode_utf8(t.drop_first()));
        assert(encode_utf8(t)[0] == encode_scalar(u)[0]);
        assert(encode_utf8(s)[k] == encode_utf8(t)[0]);
        assert(!is_continuation_byte(encode_utf8(s)[k]));
        assert(is_char_boundary(encode_utf8(s), k));
        if encode_utf8(s)[k] < 0x80 {
            assert(u < 0x80 && encode_scalar(u)[0] == u as u8);
        }
    } else {
        assert(s.skip(k) =~= Seq::<char>::empty());
        assert(encode_utf8(s).len() == k);
        assert(is_char_boundary(encode_utf8(s), k));
    }
}

/// The byte width of the first character is a character boundary of the
/// encoding, and splitting there splits off exactly that character.
pub proof fn lemma_first_char_boundary(s: Seq<char>)
    requires
        s.len() > 0,
    ensures
        1 <= char_width(s[0]) <= encode_utf8(s).len(),
        is_char_boundary(encode_utf8(s), char_width(s[0])),
        encode_utf8(s).skip(char_width(s[0])) =~= encode_utf8(s.drop_first()),
        encode_utf8(s).subrange(0, char_width(s[0])) =~= encode_scalar(s[0] as u32),
{
    broadcast use vstd::utf8::is_char_boundary_start_end_of_seq;
    broadcast use vstd::utf8::is_char_boundary_iff_not_is_continuation_byte;

    let u = s[0] as u32;
    let w = char_width(s[0]);
    char_is_scalar(s[0]);
    lemma_encode_scalar_first_byte(u);
    let t = s.drop_first();
    assert(encode_utf8(s) =~= encode_scalar(u) + encode_utf8(t));
    assert(encode_utf8(s).skip(w) =~= encode_utf8(t));
    assert(encode_utf8(s).subrange(0, w) =~= encode_scalar(u));
    if t.len() == 0 {
        assert(encode_utf8(t) =~= Seq::<u8>::empty());
        assert(w == encode_utf8(s).len());
        assert(is_char_boundary(encode_utf8(s), w));
    } else {
        char_is_scalar(t[0]);
        lemma_encode_scalar_first_byte(t[0] as u32);
        assert(encode_utf8(t) =~= encode_scalar(t[0] as u32) + encode_utf8(t.drop_first()));
        assert(encode_utf8(s)[w] == encode_scalar(t[0] as u32)[0]);
        assert(!is_continuation_byte(encode_utf8(s)[w]));
        assert(is_char_boundary(encode_utf8(s), w));
    }
}

/// The encoding of a single character is its scalar's encoding.
pub proof fn lemma_encode_singleton(c: char)
    ensures
        encode_utf8(seq![c]) =~= encode_scalar(c as u32),
{
    assert(seq![c].drop_first() =~= Seq::<char>::empty());
    assert(encode_utf8(Seq::<char>::empty()) =~= Seq::<u8>::empty());
    assert(seq![c][0] == c);
}

/// No byte of the UTF-8 encoding of a scalar other than 0x0A is the byte
/// 0x0A: a one-byte encoding is the scalar itself, and every byte of a
/// longer encoding is 0x80 or above.
pub proof fn lemma_encode_scalar_no_newline(u: u32)
    requires
        is_scalar(u),
        u != 0x0A,
    ensures
        forall|i: int| 0 <= i < encode_scalar(u).len() ==> encode_scalar(u)[i] != 0x0A,
{
    let e = encode_scalar(u);
    lemma_encode_scalar_first_byte(u);
    if u < 0x80 {
        let b0 = e[0];
        assert(b0 != 0x0A) by (bit_vector)
            requires
                b0 == (u & 0x7F) as u8,
                u < 0x80,
                u != 0x0A,
        ;
    } else {
        assert forall|i: int| 0 <= i < e.len() implies e[i] != 0x0A by {
            if i == 0 {
                assert(e[0] >= 0xC0);
            } else {
                let b = e[i];
                assert(b == 0x80 | (((u >> 12) & 0x3F) as u8) || b == 0x80 | (((u >> 6) & 0x3F)
                    as u8) || b == 0x80 | ((u & 0x3F) as u8));
                assert(0x80 | (((u >> 12) & 0x3F) as u8) >= 0x80) by (bit_vector);
                assert(0x80 | (((u >> 6) & 0x3F) as u8) >= 0x80) by (bit_vector);
                assert(0x80 | ((u & 0x3F) as u8) >= 0x80) by (bit_vector);
            }
        }
    }
}

/// Characters with the same scalar value are the same character.
pub proof fn lemma_char_eq_of_u32(a: char, b: char)
    requires
        a as u32 == b as u32,
    ensures
        a == b,
{
    char_u32_cast(a, a as u32);
    char_u32_cast(b, b as u32);
}

} // verus!
