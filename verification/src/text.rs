//! Text measured in bytes, UTF-16 units and characters.
//!
//! A `str` is modelled by its sequence of characters. Byte offsets into the
//! UTF-8 form are related to character indices here, once, so that the modules
//! above reason about characters alone.

use vstd::prelude::*;
use vstd::std_specs::iter::IteratorSpec;
use vstd::string::*;
use vstd::utf8::*;

verus! {

/// Bytes one character takes in UTF-8.
pub open spec fn utf8_width(c: char) -> nat {
    if (c as u32) < 0x80 {
        1
    } else if (c as u32) < 0x800 {
        2
    } else if (c as u32) < 0x10000 {
        3
    } else {
        4
    }
}

/// Code units one character takes in UTF-16.
pub open spec fn utf16_width(c: char) -> nat {
    if (c as u32) < 0x10000 {
        1
    } else {
        2
    }
}

/// Bytes a text takes in UTF-8.
pub open spec fn byte_len(s: Seq<char>) -> nat
    decreases s.len(),
{
    if s.len() == 0 {
        0
    } else {
        byte_len(s.drop_last()) + utf8_width(s.last())
    }
}

/// Byte offset of the character at index `i`.
pub open spec fn byte_offset(s: Seq<char>, i: int) -> nat {
    byte_len(s.take(i))
}

/// The last character index whose byte offset is at most `byte`: the index of
/// the character `byte` lies in, or the end of the text.
pub open spec fn char_index_at(s: Seq<char>, byte: int) -> int
    decreases s.len(),
{
    if s.len() == 0 || byte_len(s) <= byte {
        s.len() as int
    } else {
        char_index_at(s.drop_last(), byte)
    }
}

/// Whether `byte` is the offset of some character of the text, or its end.
pub open spec fn is_boundary(s: Seq<char>, byte: int) -> bool {
    byte_offset(s, char_index_at(s, byte)) == byte
}

pub proof fn lemma_byte_len_concat(a: Seq<char>, b: Seq<char>)
    ensures
        byte_len(a + b) == byte_len(a) + byte_len(b),
    decreases b.len(),
{
    if b.len() == 0 {
        assert(a + b =~= a);
    } else {
        lemma_byte_len_concat(a, b.drop_last());
        assert((a + b).drop_last() =~= a + b.drop_last());
        assert((a + b).last() == b.last());
    }
}

pub proof fn lemma_byte_offset_step(s: Seq<char>, i: int)
    requires
        0 <= i < s.len(),
    ensures
        byte_offset(s, i + 1) == byte_offset(s, i) + utf8_width(s[i]),
{
    assert(s.take(i + 1).drop_last() =~= s.take(i));
}

pub proof fn lemma_byte_offset_monotone(s: Seq<char>, i: int, j: int)
    requires
        0 <= i <= j <= s.len(),
    ensures
        byte_offset(s, i) + (j - i) <= byte_offset(s, j),
    decreases j - i,
{
    if i < j {
        lemma_byte_offset_monotone(s, i, j - 1);
        lemma_byte_offset_step(s, j - 1);
    }
}

pub proof fn lemma_byte_offset_ends(s: Seq<char>)
    ensures
        byte_offset(s, 0) == 0,
        byte_offset(s, s.len() as int) == byte_len(s),
        s.len() <= byte_len(s),
{
    assert(s.take(s.len() as int) =~= s);
    assert(s.take(0).len() == 0);
    lemma_byte_offset_monotone(s, 0, s.len() as int);
}

/// What `char_index_at` picks out, and that nothing else fits.
pub proof fn lemma_char_index_at(s: Seq<char>, byte: int)
    requires
        0 <= byte,
    ensures
        0 <= char_index_at(s, byte) <= s.len(),
        byte_offset(s, char_index_at(s, byte)) <= byte,
        char_index_at(s, byte) < s.len() ==> byte < byte_offset(s, char_index_at(s, byte) + 1),
        byte >= byte_len(s) ==> char_index_at(s, byte) == s.len(),
    decreases s.len(),
{
    lemma_byte_offset_ends(s);
    if s.len() == 0 || byte_len(s) <= byte {
    } else {
        let p = s.drop_last();
        lemma_char_index_at(p, byte);
        let i = char_index_at(p, byte);
        assert(s.take(i) =~= p.take(i));
        if i < p.len() {
            assert(s.take(i + 1) =~= p.take(i + 1));
        } else {
            assert(s.take(i + 1) =~= s);
        }
    }
}

pub proof fn lemma_char_index_unique(s: Seq<char>, byte: int, i: int)
    requires
        0 <= i <= s.len(),
        byte_offset(s, i) <= byte,
        i < s.len() ==> byte < byte_offset(s, i + 1),
    ensures
        char_index_at(s, byte) == i,
{
    lemma_char_index_at(s, byte);
    let j = char_index_at(s, byte);
    if j < i {
        lemma_byte_offset_monotone(s, j + 1, i);
    } else if i < j {
        lemma_byte_offset_monotone(s, i + 1, j);
    }
}

/// The offset of a character leads back to its index.
pub proof fn lemma_char_index_of_offset(s: Seq<char>, i: int)
    requires
        0 <= i <= s.len(),
    ensures
        char_index_at(s, byte_offset(s, i) as int) == i,
        is_boundary(s, byte_offset(s, i) as int),
{
    if i < s.len() {
        lemma_byte_offset_step(s, i);
    }
    lemma_char_index_unique(s, byte_offset(s, i) as int, i);
}

pub proof fn lemma_encode_width(c: char)
    ensures
        encode_scalar(c as u32).len() == utf8_width(c),
{
    char_is_scalar(c);
}

pub proof fn lemma_encode_concat(a: Seq<char>, b: Seq<char>)
    ensures
        encode_utf8(a + b) == encode_utf8(a) + encode_utf8(b),
    decreases a.len(),
{
    if a.len() == 0 {
        assert(a + b =~= b);
        assert(encode_utf8(a) + encode_utf8(b) =~= encode_utf8(b));
    } else {
        lemma_encode_concat(a.drop_first(), b);
        assert((a + b).drop_first() =~= a.drop_first() + b);
        assert(encode_utf8(a + b) =~= encode_utf8(a) + encode_utf8(b));
    }
}

/// The UTF-8 form is as long as the widths of its characters say.
pub proof fn lemma_encode_len(s: Seq<char>)
    ensures
        encode_utf8(s).len() == byte_len(s),
    decreases s.len(),
{
    if s.len() > 0 {
        let p = s.drop_last();
        lemma_encode_len(p);
        lemma_encode_concat(p, seq![s.last()]);
        assert(s =~= p + seq![s.last()]);
        lemma_encode_width(s.last());
        assert(seq![s.last()].drop_first() =~= Seq::<char>::empty());
        reveal_with_fuel(encode_utf8, 2);
    }
}

pub proof fn lemma_encode_split(s: Seq<char>, i: int)
    requires
        0 <= i <= s.len(),
    ensures
        encode_utf8(s).subrange(0, byte_offset(s, i) as int) == encode_utf8(s.take(i)),
        encode_utf8(s).subrange(byte_offset(s, i) as int, byte_len(s) as int) == encode_utf8(
            s.skip(i),
        ),
        byte_offset(s, i) <= byte_len(s),
{
    assert(s =~= s.take(i) + s.skip(i));
    lemma_encode_concat(s.take(i), s.skip(i));
    lemma_encode_len(s.take(i));
    lemma_encode_len(s);
    lemma_encode_len(s.skip(i));
    assert(encode_utf8(s).subrange(0, byte_offset(s, i) as int) =~= encode_utf8(s.take(i)));
    assert(encode_utf8(s).subrange(byte_offset(s, i) as int, byte_len(s) as int) =~= encode_utf8(
        s.skip(i),
    ));
}

/// Texts with one UTF-8 form are one text.
pub proof fn lemma_encode_injective(a: Seq<char>, b: Seq<char>)
    requires
        encode_utf8(a) == encode_utf8(b),
    ensures
        a == b,
{
    encode_utf8_decode_utf8(a);
    encode_utf8_decode_utf8(b);
}

proof fn lemma_offset_is_char_boundary(s: Seq<char>, i: int)
    requires
        0 <= i <= s.len(),
    ensures
        is_char_boundary(encode_utf8(s), byte_offset(s, i) as int),
    decreases s.len(),
{
    let bytes = encode_utf8(s);
    encode_utf8_valid_utf8(s);
    if i == 0 {
        assert(s.take(0).len() == 0);
    } else {
        let t = s.drop_first();
        encode_utf8_first_scalar(s);
        lemma_encode_width(s[0]);
        lemma_encode_len(s);
        assert(pop_first_scalar(bytes) =~= encode_utf8(t));
        assert(s.take(i) =~= seq![s[0]] + t.take(i - 1));
        lemma_byte_len_concat(seq![s[0]], t.take(i - 1));
        assert(seq![s[0]].drop_last() =~= Seq::<char>::empty());
        reveal_with_fuel(byte_len, 2);
        lemma_offset_is_char_boundary(t, i - 1);
        lemma_encode_split(s, i);
    }
}

/// `str` boundaries are exactly the offsets of characters.
pub proof fn lemma_boundaries(s: Seq<char>, byte: int)
    requires
        0 <= byte,
    ensures
        is_char_boundary(encode_utf8(s), byte) == is_boundary(s, byte),
{
    let bytes = encode_utf8(s);
    encode_utf8_valid_utf8(s);
    lemma_char_index_at(s, byte);
    if is_boundary(s, byte) {
        lemma_offset_is_char_boundary(s, char_index_at(s, byte));
    }
    if is_char_boundary(bytes, byte) {
        lemma_encode_len(s);
        assert(byte <= bytes.len());
        valid_utf8_split(bytes, byte);
        decode_utf8_split(bytes, byte);
        encode_utf8_decode_utf8(s);
        let p = decode_utf8(bytes.subrange(0, byte));
        let q = decode_utf8(bytes.subrange(byte, bytes.len() as int));
        assert(s =~= p + q);
        assert(s.take(p.len() as int) =~= p);
        decode_utf8_encode_utf8(bytes.subrange(0, byte));
        lemma_encode_len(p);
        lemma_char_index_of_offset(s, p.len() as int);
    }
}

/// `char::len_utf8`.
pub fn utf8_width_of(c: char) -> (r: usize)
    ensures
        r == utf8_width(c),
{
    let code: u32 = c as u32;
    if code < 0x80 {
        1
    } else if code < 0x800 {
        2
    } else if code < 0x10000 {
        3
    } else {
        4
    }
}

/// `char::len_utf16`.
pub fn utf16_width_of(c: char) -> (r: usize)
    ensures
        r == utf16_width(c),
{
    if (c as u32) < 0x10000 {
        1
    } else {
        2
    }
}

/// Byte length of a text.
pub fn text_len(text: &str) -> (r: usize)
    ensures
        r == byte_len(text@),
{
    proof {
        lemma_encode_len(text@);
    }
    let bytes = text.as_bytes();
    bytes.len()
}

/// The two parts of a text around a character boundary.
pub fn split_text<'a>(text: &'a str, at: usize) -> (r: (&'a str, &'a str))
    requires
        is_boundary(text@, at as int),
    ensures
        r.0@ == text@.take(char_index_at(text@, at as int)),
        r.1@ == text@.skip(char_index_at(text@, at as int)),
{
    proof {
        lemma_boundaries(text@, at as int);
        lemma_char_index_at(text@, at as int);
        lemma_encode_len(text@);
        lemma_encode_split(text@, char_index_at(text@, at as int));
    }
    let r = text.split_at(at);
    proof {
        lemma_encode_injective(r.0@, text@.take(char_index_at(text@, at as int)));
        lemma_encode_injective(r.1@, text@.skip(char_index_at(text@, at as int)));
    }
    r
}

/// The characters of a text, in order.
pub fn chars_of(text: &str) -> (r: Vec<char>)
    ensures
        r@ == text@,
{
    let mut out: Vec<char> = Vec::new();
    let mut it = text.chars();
    loop
        invariant
            out@ + it.remaining() == text@,
            it.obeys_prophetic_iter_laws(),
            it.decrease() is Some,
        ensures
            out@ == text@,
        decreases it.decrease()->0,
    {
        match it.next() {
            Some(c) => {
                proof {
                    assert(out@.push(c) + it.remaining() =~= text@);
                }
                out.push(c);
            },
            None => {
                proof {
                    assert(out@ =~= text@);
                }
                break;
            },
        }
    }
    out
}

// ---------------------------------------------------------------------------
// Building text

/// `String::push` appends one character.
pub assume_specification[ String::push ](s: &mut String, c: char)
    ensures
        final(s)@ == old(s)@.push(c),
;

/// One decimal digit.
pub open spec fn digit(d: int) -> char {
    "0123456789"@[d]
}

/// A number in decimal, without leading zeros.
pub open spec fn decimal_text(n: nat) -> Seq<char>
    decreases n,
{
    if n < 10 {
        seq![digit(n as int)]
    } else {
        decimal_text(n / 10).push(digit((n % 10) as int))
    }
}

/// A signed number in decimal.
pub open spec fn signed_text(n: int) -> Seq<char> {
    if n < 0 {
        "-"@ + decimal_text((-n) as nat)
    } else {
        decimal_text(n as nat)
    }
}

/// A number in decimal.
pub fn decimal(n: u64) -> (r: String)
    ensures
        r@ == decimal_text(n as nat),
    decreases n,
{
    proof {
        reveal_strlit("0123456789");
    }
    let last: char = "0123456789".get_char((n % 10) as usize);
    let mut r: String = if n < 10 {
        String::new()
    } else {
        decimal(n / 10)
    };
    r.push(last);
    assert(n < 10 ==> r@ =~= seq![digit(n as int)]);
    r
}

/// A signed number in decimal.
pub fn signed_decimal(n: i32) -> (r: String)
    ensures
        r@ == signed_text(n as int),
{
    let wide: i64 = n as i64;
    if wide < 0 {
        let mut r: String = "-".to_owned();
        r.append(decimal((-wide) as u64).as_str());
        r
    } else {
        decimal(wide as u64)
    }
}

/// Two texts, one behind the other.
pub fn joined(a: &str, b: &str) -> (r: String)
    ensures
        r@ == a@ + b@,
{
    let mut r: String = a.to_owned();
    r.append(b);
    r
}

/// Whether two texts are equal.
pub fn same_text(a: &str, b: &str) -> (r: bool)
    ensures
        r == (a@ == b@),
{
    let left: String = a.to_owned();
    let right: String = b.to_owned();
    left == right
}

// ---------------------------------------------------------------------------
// Searching text

/// A text begins with another.
pub open spec fn begins_with(text: Seq<char>, prefix: Seq<char>) -> bool {
    prefix.len() <= text.len() && text.take(prefix.len() as int) == prefix
}

/// A text holds another at a place.
pub open spec fn stands_at(text: Seq<char>, part: Seq<char>, at: int) -> bool {
    0 <= at && at + part.len() <= text.len() && text.subrange(at, at + part.len()) == part
}

/// A text holds another somewhere.
pub open spec fn occurs_in(text: Seq<char>, part: Seq<char>) -> bool {
    exists|at: int| stands_at(text, part, at)
}

/// `str::starts_with`.
pub fn starts_with(text: &str, prefix: &str) -> (r: bool)
    ensures
        r == begins_with(text@, prefix@),
{
    let mut left = text.chars();
    let mut right = prefix.chars();
    let ghost mut i: int = 0;
    proof {
        assert(text@.skip(0) =~= text@);
        assert(prefix@.skip(0) =~= prefix@);
    }
    loop
        invariant
            left.obeys_prophetic_iter_laws(),
            right.obeys_prophetic_iter_laws(),
            right.decrease() is Some,
            0 <= i <= text@.len(),
            i <= prefix@.len(),
            left.remaining() == text@.skip(i),
            right.remaining() == prefix@.skip(i),
            text@.take(i) == prefix@.take(i),
        decreases right.decrease()->0,
    {
        match right.next() {
            None => {
                assert(prefix@.take(i) =~= prefix@);
                return true;
            },
            Some(y) => match left.next() {
                None => {
                    return false;
                },
                Some(x) => {
                    proof {
                        assert(x == text@[i] && y == prefix@[i]);
                        assert(text@.skip(i).drop_first() =~= text@.skip(i + 1));
                        assert(prefix@.skip(i).drop_first() =~= prefix@.skip(i + 1));
                    }
                    if x != y {
                        proof {
                            if begins_with(text@, prefix@) {
                                assert(text@.take(prefix@.len() as int)[i] == prefix@[i]);
                            }
                        }
                        return false;
                    }
                    proof {
                        assert(text@.take(i + 1) =~= text@.take(i).push(x));
                        assert(prefix@.take(i + 1) =~= prefix@.take(i).push(y));
                        i = i + 1;
                    }
                },
            },
        }
    }
}

/// `str::contains`.
pub fn contains(text: &str, part: &str) -> (r: bool)
    ensures
        r == occurs_in(text@, part@),
{
    let whole = chars_of(text);
    let wanted = chars_of(part);
    if wanted.len() > whole.len() {
        return false;
    }
    let last: usize = whole.len() - wanted.len();
    let mut at: usize = 0;
    while at <= last
        invariant
            whole@ == text@,
            wanted@ == part@,
            last + wanted.len() == whole.len(),
            at <= last + 1,
            forall|k: int| 0 <= k < at ==> !#[trigger] stands_at(text@, part@, k),
        decreases last + 1 - at,
    {
        let mut n: usize = 0;
        while n < wanted.len() && whole[at + n] == wanted[n]
            invariant
                whole@ == text@,
                wanted@ == part@,
                last + wanted.len() == whole.len(),
                at <= last,
                n <= wanted@.len(),
                forall|k: int| 0 <= k < n ==> whole@[at + k] == #[trigger] wanted@[k],
            decreases wanted.len() - n,
        {
            n += 1;
        }
        if n == wanted.len() {
            proof {
                assert(text@.subrange(at as int, at + part@.len()) =~= part@);
                assert(stands_at(text@, part@, at as int));
            }
            return true;
        }
        proof {
            if stands_at(text@, part@, at as int) {
                assert(text@.subrange(at as int, at + part@.len())[n as int] == part@[n as int]);
            }
        }
        if at == last {
            return false;
        }
        at += 1;
    }
    false
}

/// A text in lower case, as Unicode has it.
pub uninterp spec fn lowercase(text: Seq<char>) -> Seq<char>;

/// Calls `str::to_lowercase`. The folded text is a function of the text.
#[verifier::external_body]
pub(crate) fn fold_case(text: &str) -> (r: String)
    ensures
        r@ == lowercase(text@),
{
    text.to_lowercase()
}

/// Whether a character is a letter or a digit, as Unicode has it.
pub uninterp spec fn alphanumeric(c: char) -> bool;

/// Calls `char::is_alphanumeric`. The answer is a function of the character.
#[verifier::external_body]
pub(crate) fn is_alphanumeric(c: char) -> (r: bool)
    ensures
        r == alphanumeric(c),
{
    c.is_alphanumeric()
}

// ---------------------------------------------------------------------------
// Numbers as text

/// A number's text holds digits only, and at least one.
pub proof fn lemma_decimal_digits(n: nat)
    ensures
        decimal_text(n).len() >= 1,
        forall|i: int| 0 <= i < decimal_text(n).len() ==> '0' <= #[trigger] decimal_text(n)[i] <= '9',
    decreases n,
{
    reveal_strlit("0123456789");
    if n >= 10 {
        lemma_decimal_digits(n / 10);
    }
}

/// Different numbers have different texts.
pub proof fn lemma_decimal_injective(a: nat, b: nat)
    requires
        decimal_text(a) == decimal_text(b),
    ensures
        a == b,
    decreases a,
{
    reveal_strlit("0123456789");
    let x = decimal_text(a);
    let y = decimal_text(b);
    if a < 10 && b < 10 {
        assert(x[0] == y[0]);
    } else if a >= 10 && b >= 10 {
        assert(x.last() == digit((a % 10) as int));
        assert(y.last() == digit((b % 10) as int));
        assert(x.drop_last() =~= decimal_text(a / 10));
        assert(y.drop_last() =~= decimal_text(b / 10));
        lemma_decimal_injective(a / 10, b / 10);
    } else if a < 10 {
        lemma_decimal_digits(b / 10);
        assert(x.len() == 1);
        assert(y.len() >= 2);
    } else {
        lemma_decimal_digits(a / 10);
        assert(y.len() == 1);
        assert(x.len() >= 2);
    }
}

/// Different signed numbers have different texts.
pub proof fn lemma_signed_injective(a: int, b: int)
    requires
        signed_text(a) == signed_text(b),
    ensures
        a == b,
{
    reveal_strlit("-");
    let x = signed_text(a);
    let y = signed_text(b);
    if a < 0 && b < 0 {
        assert(x.skip(1) =~= decimal_text((-a) as nat));
        assert(y.skip(1) =~= decimal_text((-b) as nat));
        lemma_decimal_injective((-a) as nat, (-b) as nat);
    } else if a >= 0 && b >= 0 {
        lemma_decimal_injective(a as nat, b as nat);
    } else if a < 0 {
        lemma_decimal_digits(b as nat);
        assert(x[0] == '-');
        assert('0' <= y[0]);
    } else {
        lemma_decimal_digits(a as nat);
        assert(y[0] == '-');
        assert('0' <= x[0]);
    }
}

} // verus!
