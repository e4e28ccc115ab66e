//! Numbers and text: decimal digits written and read, and bytes turned into
//! the characters that they stand for.
use vstd::prelude::*;
use vstd::utf8::*;

verus! {

/// The digit that stands for `d`, below ten.
pub open spec fn digit(d: nat) -> char {
    ('0' as u32 + d) as char
}

/// `n` in decimal, without leading zeros.
pub open spec fn decimal(n: nat) -> Seq<char>
    decreases n,
{
    if n < 10 {
        seq![digit(n)]
    } else {
        decimal(n / 10).push(digit(n % 10))
    }
}

/// `n` in decimal, with zeros in front where it has fewer than `width` digits.
pub open spec fn padded(n: nat, width: nat) -> Seq<char> {
    let digits = decimal(n);
    if digits.len() < width {
        Seq::new((width - digits.len()) as nat, |i: int| '0') + digits
    } else {
        digits
    }
}

/// `c` is one of the ten ASCII digits.
pub open spec fn is_digit(c: char) -> bool {
    '0' <= c <= '9'
}

/// The number that a sequence of digits writes.
pub open spec fn value(digits: Seq<char>) -> nat
    decreases digits.len(),
{
    if digits.len() == 0 {
        0
    } else {
        value(digits.drop_last()) * 10 + (digits.last() as u32 - '0' as u32) as nat
    }
}

/// Every character of `text` is a digit.
pub open spec fn all_digits(text: Seq<char>) -> bool {
    forall|i: int| 0 <= i < text.len() ==> is_digit(#[trigger] text[i])
}

/// The number that `text` writes: one or more digits. Anything else writes no
/// number.
pub open spec fn number(text: Seq<char>) -> Option<nat> {
    if text.len() > 0 && all_digits(text) {
        Some(value(text))
    } else {
        None
    }
}

/// `c` has the Unicode property White_Space.
pub open spec fn is_white_space(c: char) -> bool {
    ||| '\u{9}' <= c <= '\u{d}'
    ||| c == ' '
    ||| c == '\u{85}'
    ||| c == '\u{a0}'
    ||| c == '\u{1680}'
    ||| '\u{2000}' <= c <= '\u{200a}'
    ||| c == '\u{2028}'
    ||| c == '\u{2029}'
    ||| c == '\u{202f}'
    ||| c == '\u{205f}'
    ||| c == '\u{3000}'
}

/// `text` without the white space that opens it.
pub open spec fn trim_start(text: Seq<char>) -> Seq<char>
    decreases text.len(),
{
    if text.len() > 0 && is_white_space(text[0]) {
        trim_start(text.drop_first())
    } else {
        text
    }
}

/// `text` without the white space that ends it.
pub open spec fn trim_end(text: Seq<char>) -> Seq<char>
    decreases text.len(),
{
    if text.len() > 0 && is_white_space(text.last()) {
        trim_end(text.drop_last())
    } else {
        text
    }
}

/// `text` without the white space around it.
pub open spec fn trim(text: Seq<char>) -> Seq<char> {
    trim_end(trim_start(text))
}

/// What `String::from_utf8_lossy` makes of bytes that are not UTF-8: the text
/// with U+FFFD where a sequence was malformed.
pub uninterp spec fn repaired_utf8(bytes: Seq<u8>) -> Seq<char>;

/// The ASCII bytes of `bytes`, in their order, with one byte that is not ASCII
/// wherever one or more stand between them.
pub open spec fn skeleton(bytes: Seq<u8>) -> Seq<u8>
    decreases bytes.len(),
{
    if bytes.len() == 0 {
        Seq::empty()
    } else if bytes[0] < 0x80 {
        seq![bytes[0]] + skeleton(bytes.drop_first())
    } else if bytes.len() > 1 && bytes[1] >= 0x80 {
        skeleton(bytes.drop_first())
    } else {
        seq![0x80u8] + skeleton(bytes.drop_first())
    }
}

/// The text that `bytes` hold has their ASCII characters, and something between
/// them where `bytes` have something.
pub open spec fn keeps_skeleton(bytes: Seq<u8>) -> bool {
    skeleton(encode_utf8(lossy(bytes))) == skeleton(bytes)
}

/// The text that `bytes` hold: themselves where they are UTF-8, else repaired.
pub open spec fn lossy(bytes: Seq<u8>) -> Seq<char> {
    if valid_utf8(bytes) {
        decode_utf8(bytes)
    } else {
        repaired_utf8(bytes)
    }
}

/// The text that `bytes` hold, where they are UTF-8.
pub open spec fn strict(bytes: Seq<u8>) -> Option<Seq<char>> {
    if valid_utf8(bytes) {
        Some(decode_utf8(bytes))
    } else {
        None
    }
}

/// A number in decimal is made of digits, and they write that number.
pub proof fn lemma_decimal(n: nat)
    ensures
        decimal(n).len() > 0,
        all_digits(decimal(n)),
        value(decimal(n)) == n,
        number(decimal(n)) == Some(n),
    decreases n,
{
    if n < 10 {
        let digits = decimal(n);
        assert(digits.drop_last() =~= Seq::<char>::empty());
        assert(value(digits.drop_last()) == 0);
    } else {
        lemma_decimal(n / 10);
        assert(decimal(n).drop_last() =~= decimal(n / 10));
    }
    assert(is_digit(decimal(n)[0]));
}

/// The first of some digits never write a larger number than all of them.
pub proof fn lemma_value_prefix(digits: Seq<char>, len: int)
    requires
        0 <= len <= digits.len(),
    ensures
        value(digits.take(len)) <= value(digits),
    decreases digits.len(),
{
    if len == digits.len() {
        assert(digits.take(len) == digits);
    } else {
        lemma_value_prefix(digits.drop_last(), len);
        assert(digits.drop_last().take(len) == digits.take(len));
    }
}

/// A number opens with a zero only where it is zero.
pub proof fn lemma_first_digit(n: nat)
    requires
        n > 0,
    ensures
        decimal(n)[0] != '0',
    decreases n,
{
    if n >= 10 {
        lemma_first_digit(n / 10);
        lemma_decimal(n / 10);
    }
}

/// Text is encoded piece by piece.
pub proof fn lemma_encode_concat(a: Seq<char>, b: Seq<char>)
    ensures
        encode_utf8(a + b) == encode_utf8(a) + encode_utf8(b),
    decreases a.len(),
{
    if a.len() == 0 {
        assert(a + b =~= b);
        assert(encode_utf8(a) + encode_utf8(b) =~= encode_utf8(b));
    } else {
        lemma_encode_concat(a.drop_first(), b);
        assert((a + b).drop_first() =~= a.drop_first() + b);
        assert(encode_utf8(a + b) =~= encode_utf8(a) + encode_utf8(b));
    }
}

/// The encoding of one character: itself where it is ASCII, else bytes that
/// are not.
proof fn lemma_encode_scalar(scalar: u32)
    requires
        is_scalar(scalar),
    ensures
        encode_scalar(scalar).len() > 0,
        scalar < 0x80 ==> encode_scalar(scalar) == seq![scalar as u8],
        scalar >= 0x80 ==> forall|i: int|
            0 <= i < encode_scalar(scalar).len() ==> encode_scalar(scalar)[i] >= 0x80,
{
    assert(scalar <= 0x7f ==> (scalar & 0x7f) as u8 == scalar as u8) by (bit_vector);
    assert(0xC0 | ((scalar >> 6) & 0x1F) as u8 >= 0x80u8) by (bit_vector);
    assert(0xE0 | ((scalar >> 12) & 0x0F) as u8 >= 0x80u8) by (bit_vector);
    assert(0xF0 | ((scalar >> 18) & 0x7) as u8 >= 0x80u8) by (bit_vector);
    assert(0x80 | (scalar & 0x3F) as u8 >= 0x80u8) by (bit_vector);
    assert(0x80 | ((scalar >> 6) & 0x3F) as u8 >= 0x80u8) by (bit_vector);
    assert(0x80 | ((scalar >> 12) & 0x3F) as u8 >= 0x80u8) by (bit_vector);
}

/// Text and its encoding hold the same ASCII characters.
pub proof fn lemma_encode_ascii(text: Seq<char>, c: char)
    requires
        c < '\u{80}',
    ensures
        encode_utf8(text).contains(c as u8) <==> text.contains(c),
        encode_utf8(text).len() == 0 <==> text.len() == 0,
    decreases text.len(),
{
    let bytes = encode_utf8(text);
    if text.len() > 0 {
        let first = encode_scalar(text[0] as u32);
        let rest = text.drop_first();
        char_is_scalar(text[0]);
        lemma_encode_scalar(text[0] as u32);
        lemma_encode_ascii(rest, c);
        assert(bytes == first + encode_utf8(rest));
        if bytes.contains(c as u8) {
            let i = choose|i: int| 0 <= i < bytes.len() && bytes[i] == c as u8;
            if i < first.len() {
                let scalar = text[0] as u32;
                assert(first[i] == c as u8);
                assert(c as u32 <= 0x7f);
                assert(scalar < 0x80);
                assert(i == 0 && scalar == c as u32);
                char_u32_cast(text[0], scalar);
                char_u32_cast(c, scalar);
                assert(text[0] == c);
            } else {
                assert(encode_utf8(rest)[i - first.len()] == c as u8);
                let j = choose|j: int| 0 <= j < rest.len() && rest[j] == c;
                assert(text[j + 1] == c);
            }
        }
        if text.contains(c) {
            let i = choose|i: int| 0 <= i < text.len() && text[i] == c;
            if i == 0 {
                assert(bytes[0] == c as u8);
            } else {
                assert(rest[i - 1] == c);
                let j = choose|j: int|
                    0 <= j < encode_utf8(rest).len() && encode_utf8(rest)[j] == c as u8;
                assert(bytes[first.len() + j] == c as u8);
            }
        }
    }
}

/// Every character of `text` is white space.
pub open spec fn all_white(text: Seq<char>) -> bool {
    forall|i: int| 0 <= i < text.len() ==> is_white_space(#[trigger] text[i])
}

/// White space around a text that neither opens nor ends with any is what is
/// trimmed off.
pub proof fn law_white_space_is_trimmed(before: Seq<char>, text: Seq<char>, after: Seq<char>)
    requires
        all_white(before),
        all_white(after),
        text.len() > 0,
        !is_white_space(text[0]),
        !is_white_space(text.last()),
    ensures
        trim(before + text + after) == text,
    decreases before.len() + after.len(),
{
    let all = before + text + after;
    if before.len() > 0 {
        assert(all[0] == before[0]);
        assert(all.drop_first() =~= before.drop_first() + text + after);
        law_white_space_is_trimmed(before.drop_first(), text, after);
    } else {
        assert(all =~= text + after);
        assert(trim_start(all) == all);
        lemma_trim_end(text, after);
    }
}

/// Of white space alone nothing is left.
pub proof fn law_white_space_leaves_nothing(text: Seq<char>)
    requires
        all_white(text),
    ensures
        trim(text) == Seq::<char>::empty(),
    decreases text.len(),
{
    if text.len() > 0 {
        assert(is_white_space(text[0]));
        law_white_space_leaves_nothing(text.drop_first());
    }
}

/// White space behind a text that does not end with any is trimmed off.
proof fn lemma_trim_end(text: Seq<char>, after: Seq<char>)
    requires
        all_white(after),
        text.len() > 0,
        !is_white_space(text.last()),
    ensures
        trim_end(text + after) == text,
    decreases after.len(),
{
    if after.len() > 0 {
        lemma_trim_end(text, after.drop_last());
        assert((text + after).last() == after[after.len() - 1]);
        assert((text + after).drop_last() =~= text + after.drop_last());
    } else {
        assert(text + after =~= text);
    }
}

/// What is trimmed off the front.
proof fn start_trimmed(text: Seq<char>) -> (before: Seq<char>)
    ensures
        all_white(before),
        text == before + trim_start(text),
    decreases text.len(),
{
    if text.len() > 0 && is_white_space(text[0]) {
        let more = start_trimmed(text.drop_first());
        let before = seq![text[0]] + more;
        let left = trim_start(text.drop_first());
        assert(text =~= seq![text[0]] + text.drop_first());
        assert(seq![text[0]] + (more + left) =~= before + left);
        before
    } else {
        assert(text =~= Seq::<char>::empty() + text);
        Seq::empty()
    }
}

/// What is trimmed off the end.
proof fn end_trimmed(text: Seq<char>) -> (after: Seq<char>)
    ensures
        all_white(after),
        text == trim_end(text) + after,
    decreases text.len(),
{
    if text.len() > 0 && is_white_space(text.last()) {
        let more = end_trimmed(text.drop_last());
        let after = more.push(text.last());
        let left = trim_end(text.drop_last());
        assert(text =~= text.drop_last().push(text.last()));
        assert((left + more).push(text.last()) =~= left + after);
        after
    } else {
        assert(text =~= text + Seq::<char>::empty());
        Seq::empty()
    }
}

/// What is trimmed off is white space.
pub proof fn trimmed_off(text: Seq<char>) -> (r: (Seq<char>, Seq<char>))
    ensures
        all_white(r.0),
        all_white(r.1),
        text == r.0 + trim(text) + r.1,
{
    let before = start_trimmed(text);
    let after = end_trimmed(trim_start(text));
    assert(text =~= before + trim(text) + after);
    (before, after)
}

/// Digits write a number, ten times as much by every digit behind, and nothing
/// else does.
pub proof fn law_digits_write_a_number(text: Seq<char>, c: char)
    ensures
        number(text) is Some <==> text.len() > 0 && forall|i: int|
            0 <= i < text.len() ==> '0' <= #[trigger] text[i] <= '9',
        '0' <= c <= '9' ==> number(seq![c]) == Some((c as u32 - 0x30) as nat),
        number(text) is Some && '0' <= c <= '9' ==> number(text.push(c)) == Some(
            (10 * number(text)->0 + (c as u32 - 0x30)) as nat,
        ),
{
    if number(text) is None && text.len() > 0 && forall|i: int|
        0 <= i < text.len() ==> '0' <= #[trigger] text[i] <= '9' {
        assert forall|i: int| 0 <= i < text.len() implies is_digit(#[trigger] text[i]) by {
            assert('0' <= text[i] <= '9');
        }
    }
    if number(text) is Some {
        assert forall|i: int| 0 <= i < text.len() implies '0' <= #[trigger] text[i] <= '9' by {
            assert(is_digit(text[i]));
        }
    }
    if '0' <= c <= '9' {
        let one = seq![c];
        assert(one.drop_last() =~= Seq::<char>::empty());
        reveal_with_fuel(value, 2);
        assert(all_digits(one));
        assert(text.push(c).drop_last() =~= text);
        if number(text) is Some {
            assert(all_digits(text.push(c)));
        }
    }
}

/// A number is written in digits, without needless zeros in front, and they
/// write that number.
pub proof fn law_number_is_written(n: nat)
    ensures
        number(decimal(n)) == Some(n),
        decimal(n).len() > 1 ==> decimal(n)[0] != '0',
{
    lemma_decimal(n);
    if n > 0 {
        lemma_first_digit(n);
    }
}

/// A number that is filled up still is that number, has as many digits as it is
/// filled up to or more, and opens with a zero only as far as it is filled up.
pub proof fn law_number_is_filled_up(n: nat, width: nat)
    ensures
        number(padded(n, width)) == Some(n),
        padded(n, width).len() >= width,
        padded(n, width).len() > width && padded(n, width).len() > 1 ==> padded(n, width)[0]
            != '0',
{
    let all = padded(n, width);
    let digits = decimal(n);
    lemma_decimal(n);
    crate::order::lemma_padded_value(n, width);
    assert forall|i: int| 0 <= i < all.len() implies is_digit(#[trigger] all[i]) by {
        if digits.len() < width && i >= width - digits.len() {
            assert(all[i] == digits[i - (width - digits.len())]);
        }
    }
    if n > 0 {
        lemma_first_digit(n);
    }
}

/// What a skeleton shows: whether there are bytes, the first of them as far as it
/// is ASCII, and which ASCII bytes there are.
pub proof fn lemma_skeleton(bytes: Seq<u8>, x: u8)
    requires
        x < 0x80,
    ensures
        skeleton(bytes).len() == 0 <==> bytes.len() == 0,
        bytes.len() > 0 ==> skeleton(bytes)[0] == if bytes[0] < 0x80 {
            bytes[0]
        } else {
            0x80
        },
        skeleton(bytes).contains(x) <==> bytes.contains(x),
    decreases bytes.len(),
{
    let bones = skeleton(bytes);
    if bytes.len() > 0 {
        let rest = bytes.drop_first();
        let more = skeleton(rest);
        lemma_skeleton(rest, x);
        if bytes.contains(x) {
            let i = choose|i: int| 0 <= i < bytes.len() && bytes[i] == x;
            if i == 0 {
                assert(bones[0] == x);
            } else {
                assert(rest[i - 1] == x);
                let j = choose|j: int| 0 <= j < more.len() && more[j] == x;
                assert(bones[j + (bones.len() - more.len())] == x);
            }
        }
        if bones.contains(x) {
            let i = choose|i: int| 0 <= i < bones.len() && bones[i] == x;
            if bones.len() == more.len() {
                assert(more.contains(x));
            } else if i > 0 {
                assert(more[i - 1] == x);
            }
            if i == 0 && bones.len() > more.len() {
                assert(bytes[0] == x);
            } else {
                let j = choose|j: int| 0 <= j < rest.len() && rest[j] == x;
                assert(bytes[j + 1] == x);
            }
        }
    }
}

/// ASCII bytes hold the characters of the same number.
pub proof fn lemma_ascii_text(bytes: Seq<u8>)
    requires
        forall|i: int| 0 <= i < bytes.len() ==> bytes[i] < 0x80,
    ensures
        valid_utf8(bytes),
        decode_utf8(bytes) == Seq::new(bytes.len(), |i: int| bytes[i] as char),
        encode_utf8(Seq::new(bytes.len(), |i: int| bytes[i] as char)) == bytes,
{
    let chars = Seq::new(bytes.len(), |i: int| bytes[i] as char);
    assert(is_ascii_chars(chars));
    is_ascii_chars_encode_utf8(chars);
    assert(encode_utf8(chars) =~= bytes);
    encode_utf8_valid_utf8(chars);
    encode_utf8_decode_utf8(chars);
}

/// `std::str::from_utf8`. Trusted: it succeeds exactly on well-formed UTF-8,
/// and hands back the characters that the bytes encode.
#[verifier::external_body]
pub(crate) fn from_utf8(bytes: &[u8]) -> (r: Option<&str>)
    ensures
        r is Some <==> valid_utf8(bytes@),
        r matches Some(text) ==> text@ == decode_utf8(bytes@),
{
    std::str::from_utf8(bytes).ok()
}

/// `String::from_utf8_lossy`, owned. Trusted: well-formed UTF-8 is decoded as
/// it stands. What comes of other bytes is decided by the bytes alone; since
/// only malformed sequences are replaced, and each by a character that is not
/// ASCII, the ASCII bytes stay in their order, and something stands between
/// them where something stood. What else that text is, is not stated.
#[verifier::external_body]
fn from_utf8_lossy(bytes: &[u8]) -> (r: String)
    ensures
        valid_utf8(bytes@) ==> r@ == decode_utf8(bytes@),
        !valid_utf8(bytes@) ==> r@ == repaired_utf8(bytes@),
        !valid_utf8(bytes@) ==> skeleton(encode_utf8(r@)) == skeleton(bytes@),
{
    String::from_utf8_lossy(bytes).into_owned()
}

/// The text that `bytes` hold, repaired where they are not UTF-8. Its ASCII
/// characters are those of `bytes`.
pub fn lossy_text(bytes: &[u8]) -> (r: String)
    ensures
        r@ == lossy(bytes@),
        keeps_skeleton(bytes@),
{
    proof {
        if valid_utf8(bytes@) {
            decode_utf8_encode_utf8(bytes@);
        }
    }
    from_utf8_lossy(bytes)
}

/// One digit as text.
fn digit_text(d: u64) -> (r: &'static str)
    requires
        d < 10,
    ensures
        r@ == seq![digit(d as nat)],
{
    proof {
        reveal_strlit("0");
        reveal_strlit("1");
        reveal_strlit("2");
        reveal_strlit("3");
        reveal_strlit("4");
        reveal_strlit("5");
        reveal_strlit("6");
        reveal_strlit("7");
        reveal_strlit("8");
        reveal_strlit("9");
    }
    match d {
        0 => "0",
        1 => "1",
        2 => "2",
        3 => "3",
        4 => "4",
        5 => "5",
        6 => "6",
        7 => "7",
        8 => "8",
        _ => "9",
    }
}

/// Write `n` in decimal after `out`.
pub fn append_decimal(out: &mut String, n: u64)
    ensures
        final(out)@ == old(out)@ + decimal(n as nat),
    decreases n,
{
    if n >= 10 {
        append_decimal(out, n / 10);
    }
    out.append(digit_text(n % 10));
}

/// Write `n` in decimal after `out`, filled up with zeros to `width` digits.
pub fn append_padded(out: &mut String, n: u64, width: usize)
    ensures
        final(out)@ == old(out)@ + padded(n as nat, width as nat),
{
    let mut digits: String = String::new();
    append_decimal(&mut digits, n);
    let ghost written = digits@;
    let mut have: usize = digits.as_str().unicode_len();
    let ghost zeros = Seq::<char>::empty();
    proof {
        reveal_strlit("0");
    }
    while have < width
        invariant
            written == decimal(n as nat),
            digits@ == written,
            have == written.len() + zeros.len(),
            written.len() < width ==> have <= width,
            written.len() >= width ==> zeros.len() == 0,
            out@ == old(out)@ + zeros,
            "0"@ == seq!['0'],
            forall|i: int| 0 <= i < zeros.len() ==> zeros[i] == '0',
        decreases width - have,
    {
        out.append("0");
        proof {
            zeros = zeros.push('0');
        }
        have = have + 1;
    }
    out.append(digits.as_str());
    proof {
        if written.len() < width {
            assert(zeros =~= Seq::new((width - written.len()) as nat, |i: int| '0'));
        }
        assert(out@ =~= old(out)@ + padded(n as nat, width as nat));
    }
}

/// The characters of `text`, one by one.
pub fn chars_of(text: &str) -> (chars: Vec<char>)
    ensures
        chars@ == text@,
{
    let mut chars: Vec<char> = Vec::new();
    for c in it: text.chars()
        invariant
            chars@ == it.seq().take(it.index()),
            it.seq() == text@,
    {
        chars.push(c);
    }
    chars
}

/// The number that `text` writes, where it writes one that a `usize` holds.
pub fn read_number(text: &[char]) -> (r: Option<usize>)
    ensures
        match number(text@) {
            Some(n) => r == if n <= usize::MAX {
                Some(n as usize)
            } else {
                None
            },
            None => r is None,
        },
{
    if text.len() == 0 {
        return None;
    }
    let mut total: usize = 0;
    let mut i: usize = 0;
    while i < text.len()
        invariant
            0 < text.len(),
            i <= text.len(),
            forall|j: int| 0 <= j < i ==> is_digit(#[trigger] text@[j]),
            total == value(text@.take(i as int)),
        decreases text.len() - i,
    {
        let c: char = text[i];
        if c < '0' || c > '9' {
            proof {
                assert(!is_digit(text@[i as int]));
            }
            return None;
        }
        let d: usize = (c as u32 - '0' as u32) as usize;
        proof {
            let longer = text@.take(i + 1);
            assert(longer.drop_last() == text@.take(i as int));
            assert(longer.last() == c);
            lemma_value_prefix(text@, i + 1);
        }
        if total > (usize::MAX - d) / 10 {
            return None;
        }
        total = total * 10 + d;
        i = i + 1;
    }
    proof {
        assert(text@.take(text@.len() as int) == text@);
    }
    Some(total)
}

/// Whether `c` is white space.
fn white_space(c: char) -> (r: bool)
    ensures
        r == is_white_space(c),
{
    ('\u{9}' <= c && c <= '\u{d}') || c == ' ' || c == '\u{85}' || c == '\u{a0}' || c == '\u{1680}'
        || ('\u{2000}' <= c && c <= '\u{200a}') || c == '\u{2028}' || c == '\u{2029}' || c
        == '\u{202f}' || c == '\u{205f}' || c == '\u{3000}'
}

/// `text` without the white space around it.
pub fn trimmed(text: &[char]) -> (r: &[char])
    ensures
        r@ == trim(text@),
{
    let mut start: usize = 0;
    proof {
        assert(text@.skip(0) == text@);
    }
    while start < text.len() && white_space(text[start])
        invariant
            start <= text.len(),
            trim_start(text@) == trim_start(text@.skip(start as int)),
        decreases text.len() - start,
    {
        proof {
            assert(text@.skip(start as int).drop_first() == text@.skip(start + 1));
        }
        start = start + 1;
    }
    let ghost open = text@.skip(start as int);
    let mut end: usize = text.len();
    proof {
        assert(text@.subrange(start as int, end as int) == open);
    }
    while end > start && white_space(text[end - 1])
        invariant
            start <= end <= text.len(),
            trim_end(open) == trim_end(text@.subrange(start as int, end as int)),
        decreases end,
    {
        proof {
            assert(text@.subrange(start as int, end as int).drop_last() == text@.subrange(
                start as int,
                end - 1,
            ));
        }
        end = end - 1;
    }
    vstd::slice::slice_subrange(text, start, end)
}

} // verus!
