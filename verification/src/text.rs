//! Text as requests and names hold it: runs of characters, what is trimmed
//! off them, their case, and their bytes.

use vstd::prelude::*;
use vstd::utf8::*;

verus! {

/// A set of characters that a run can be made of.
#[derive(Debug, Clone, Copy, PartialEq, Eq)]
pub enum Class {
    /// Unicode's White_Space property.
    Space,
    /// The double quote.
    Quote,
    /// The ten ASCII digits.
    Digit,
    /// Everything that does not end a line of a request.
    Line,
    /// Everything but one character.
    Except(char),
}

impl Class {
    /// Whether a character belongs to the set.
    pub open spec fn has(self, c: char) -> bool {
        match self {
            Class::Space => white_space(c),
            Class::Quote => c == '"',
            Class::Digit => '0' <= c <= '9',
            Class::Line => !(c == ';' || c == '\n' || c == '\r'),
            Class::Except(other) => c != other,
        }
    }

    /// Whether a letter and its capital are both in the set or both not.
    pub open spec fn ignores_case(self) -> bool {
        match self {
            Class::Except(c) => !('A' <= c <= 'Z' || 'a' <= c <= 'z'),
            _ => true,
        }
    }

    /// Whether a character belongs to the set.
    #[must_use]
    pub fn contains(self, c: char) -> (yes: bool)
        ensures
            yes == self.has(c),
    {
        match self {
            Class::Space => is_white_space(c),
            Class::Quote => c == '"',
            Class::Digit => '0' <= c && c <= '9',
            Class::Line => !(c == ';' || c == '\n' || c == '\r'),
            Class::Except(other) => c != other,
        }
    }
}

/// Unicode's White_Space property: the characters that trimming takes off.
pub open spec fn white_space(c: char) -> bool {
    ||| '\u{9}' <= c <= '\u{d}'
    ||| c == ' '
    ||| c == '\u{85}'
    ||| c == '\u{a0}'
    ||| c == '\u{1680}'
    ||| '\u{2000}' <= c <= '\u{200a}'
    ||| '\u{2028}' <= c <= '\u{2029}'
    ||| c == '\u{202f}'
    ||| c == '\u{205f}'
    ||| c == '\u{3000}'
}

/// Whether a character is white space, as Unicode's White_Space property has
/// it.
#[must_use]
pub fn is_white_space(c: char) -> (yes: bool)
    ensures
        yes == white_space(c),
{
    ('\u{9}' <= c && c <= '\u{d}') || c == ' ' || c == '\u{85}' || c == '\u{a0}' || c
        == '\u{1680}' || ('\u{2000}' <= c && c <= '\u{200a}') || ('\u{2028}' <= c && c
        <= '\u{2029}') || c == '\u{202f}' || c == '\u{205f}' || c == '\u{3000}'
}

/// How many characters at the start belong to `class`.
pub open spec fn leading(s: Seq<char>, class: Class) -> nat
    decreases s.len(),
{
    if s.len() > 0 && class.has(s[0]) {
        1 + leading(s.drop_first(), class)
    } else {
        0
    }
}

/// How many characters at the end belong to `class`.
pub open spec fn trailing(s: Seq<char>, class: Class) -> nat
    decreases s.len(),
{
    if s.len() > 0 && class.has(s.last()) {
        1 + trailing(s.drop_last(), class)
    } else {
        0
    }
}

/// The text without the characters of `class` that start it.
pub open spec fn trimmed_start(s: Seq<char>, class: Class) -> Seq<char> {
    s.skip(leading(s, class) as int)
}

/// The text without the characters of `class` that end it.
pub open spec fn trimmed_end(s: Seq<char>, class: Class) -> Seq<char> {
    s.take(s.len() - trailing(s, class))
}

/// The text without the characters of `class` at either end.
pub open spec fn trimmed(s: Seq<char>, class: Class) -> Seq<char> {
    trimmed_end(trimmed_start(s, class), class)
}

/// Where `sep` first stands, or the length of the text when it does not.
pub open spec fn place(s: Seq<char>, sep: char) -> int {
    leading(s, Class::Except(sep)) as int
}

/// The lower case of an ASCII capital; every other character is its own.
pub open spec fn lower(c: char) -> char {
    if 'A' <= c <= 'Z' {
        (c as u32 + 32) as char
    } else {
        c
    }
}

/// The text with its ASCII capitals in lower case.
pub open spec fn lowered(s: Seq<char>) -> Seq<char> {
    Seq::new(s.len(), |i: int| lower(s[i]))
}

/// What bytes that are not UTF-8 read as: [`String::from_utf8_lossy`] of
/// them. It says nothing of bytes that are UTF-8, which read as themselves.
pub uninterp spec fn mended(bytes: Seq<u8>) -> Seq<char>;

/// The text that bytes read as.
pub open spec fn read_as(bytes: Seq<u8>) -> Seq<char> {
    if valid_utf8(bytes) {
        decode_utf8(bytes)
    } else {
        mended(bytes)
    }
}

/// Calls [`String::from_utf8_lossy`] and takes the text over. Bytes that are
/// UTF-8 come out as the text that they encode. Of any others the result is
/// named, not spelled out: the standard library says that what is not UTF-8
/// in them is replaced by U+FFFD, and not into how many of these. A null
/// comes out only where a null went in, since neither a character that is
/// kept nor U+FFFD is made from anything else.
#[verifier::external_body]
pub(crate) fn read_text(bytes: &[u8]) -> (res: String)
    ensures
        valid_utf8(bytes@) ==> res@ == decode_utf8(bytes@),
        !valid_utf8(bytes@) ==> res@ == mended(bytes@),
        !bytes@.contains(0) ==> !res@.contains('\0'),
{
    String::from_utf8_lossy(bytes).into_owned()
}

/// [`str::to_ascii_lowercase`]: a copy with `A` to `Z` as `a` to `z` and
/// every other character as it was.
pub assume_specification[ str::to_ascii_lowercase ](s: &str) -> (res: String)
    ensures
        res@ == lowered(s@),
;

/// `leading` is the longest run of the class from the start.
pub proof fn lemma_leading(s: Seq<char>, class: Class)
    ensures
        leading(s, class) <= s.len(),
        forall|i: int| 0 <= i < leading(s, class) ==> class.has(#[trigger] s[i]),
        leading(s, class) < s.len() ==> !class.has(s[leading(s, class) as int]),
    decreases s.len(),
{
    if s.len() > 0 && class.has(s[0]) {
        let rest = s.drop_first();
        lemma_leading(rest, class);
        assert forall|i: int| 0 <= i < leading(s, class) implies class.has(#[trigger] s[i]) by {
            if i > 0 {
                assert(s[i] == rest[i - 1]);
            }
        }
    }
}

/// The longest run of the class from the start is `leading`.
pub proof fn lemma_leading_is(s: Seq<char>, class: Class, n: nat)
    requires
        n <= s.len(),
        forall|i: int| 0 <= i < n ==> class.has(#[trigger] s[i]),
        n < s.len() ==> !class.has(s[n as int]),
    ensures
        leading(s, class) == n,
{
    lemma_leading(s, class);
    if leading(s, class) < n {
        assert(class.has(s[leading(s, class) as int]));
    } else if n < leading(s, class) {
        assert(class.has(s[n as int]));
    }
}

/// `trailing` is the longest run of the class from the end.
pub proof fn lemma_trailing(s: Seq<char>, class: Class)
    ensures
        trailing(s, class) <= s.len(),
        forall|i: int| s.len() - trailing(s, class) <= i < s.len() ==> class.has(#[trigger] s[i]),
        trailing(s, class) < s.len() ==> !class.has(s[s.len() - 1 - trailing(s, class)]),
    decreases s.len(),
{
    if s.len() > 0 && class.has(s.last()) {
        let rest = s.drop_last();
        lemma_trailing(rest, class);
        assert forall|i: int| s.len() - trailing(s, class) <= i < s.len() implies class.has(
            #[trigger] s[i],
        ) by {
            if i < rest.len() {
                assert(s[i] == rest[i]);
            }
        }
    }
}

/// Trimmed text neither starts nor ends with what was trimmed.
pub proof fn lemma_trimmed(s: Seq<char>, class: Class)
    ensures
        trimmed(s, class).len() > 0 ==> !class.has(trimmed(s, class)[0]) && !class.has(
            trimmed(s, class).last(),
        ),
{
    lemma_leading(s, class);
    let rest = trimmed_start(s, class);
    lemma_trailing(rest, class);
}

/// What trimming takes off is of the class.
pub proof fn lemma_trimmed_off(s: Seq<char>, class: Class, i: int)
    requires
        0 <= i < s.len(),
    ensures
        class.has(s[i]) || trimmed(s, class).contains(s[i]),
{
    let from = leading(s, class) as int;
    let rest = trimmed_start(s, class);
    lemma_leading(s, class);
    lemma_trailing(rest, class);
    if i >= from {
        assert(rest[i - from] == s[i]);
        if i - from < trimmed(s, class).len() {
            assert(trimmed(s, class)[i - from] == s[i]);
        }
    }
}

/// Text that neither starts nor ends with the class has nothing to trim.
pub proof fn lemma_nothing_to_trim(s: Seq<char>, class: Class)
    requires
        s.len() > 0 ==> !class.has(s[0]) && !class.has(s.last()),
    ensures
        trimmed(s, class) == s,
{
    assert(s.skip(0) =~= s);
    assert(s.take(s.len() as int) =~= s);
}

/// Trimming twice is trimming once.
pub proof fn lemma_trimmed_twice(s: Seq<char>, class: Class)
    ensures
        trimmed(trimmed(s, class), class) == trimmed(s, class),
{
    lemma_trimmed(s, class);
    lemma_nothing_to_trim(trimmed(s, class), class);
}

/// A first character that stands nowhere before it is at its place.
pub proof fn lemma_place_is(before: Seq<char>, sep: char, after: Seq<char>)
    requires
        !before.contains(sep),
    ensures
        place(before + seq![sep] + after, sep) == before.len(),
{
    let s = before + seq![sep] + after;
    assert forall|i: int| 0 <= i < before.len() implies Class::Except(sep).has(#[trigger] s[i]) by {
        assert(before.contains(before[i]));
    }
    lemma_leading_is(s, Class::Except(sep), before.len());
}

/// A character that stands nowhere has the end of the text for its place.
pub proof fn lemma_no_place(s: Seq<char>, sep: char)
    requires
        !s.contains(sep),
    ensures
        place(s, sep) == s.len(),
{
    assert forall|i: int| 0 <= i < s.len() implies Class::Except(sep).has(#[trigger] s[i]) by {
        assert(s.contains(s[i]));
    }
    lemma_leading_is(s, Class::Except(sep), s.len());
}

/// Lower case is already in lower case, and a class that ignores case does
/// not see the difference.
pub proof fn lemma_lower(c: char, class: Class)
    ensures
        lower(lower(c)) == lower(c),
        class.ignores_case() ==> class.has(lower(c)) == class.has(c),
{
    if 'A' <= c <= 'Z' {
        assert('a' <= lower(c) <= 'z');
    }
}

/// Lower case is already in lower case.
pub proof fn lemma_lowered_twice(s: Seq<char>)
    ensures
        lowered(lowered(s)) == lowered(s),
{
    assert forall|i: int| 0 <= i < s.len() implies lowered(lowered(s))[i] == lowered(s)[i] by {
        lemma_lower(s[i], Class::Space);
    }
    assert(lowered(lowered(s)) =~= lowered(s));
}

/// Case does not change where a run ends.
pub proof fn lemma_lowered_leading(s: Seq<char>, class: Class)
    requires
        class.ignores_case(),
    ensures
        leading(lowered(s), class) == leading(s, class),
    decreases s.len(),
{
    if s.len() > 0 {
        lemma_lower(s[0], class);
        assert(lowered(s).drop_first() =~= lowered(s.drop_first()));
        lemma_lowered_leading(s.drop_first(), class);
    }
}

/// Case does not change where a run from the end starts.
pub proof fn lemma_lowered_trailing(s: Seq<char>, class: Class)
    requires
        class.ignores_case(),
    ensures
        trailing(lowered(s), class) == trailing(s, class),
    decreases s.len(),
{
    if s.len() > 0 {
        lemma_lower(s.last(), class);
        assert(lowered(s).drop_last() =~= lowered(s.drop_last()));
        lemma_lowered_trailing(s.drop_last(), class);
    }
}

/// It does not matter which is done first, trimming or taking the lower case.
pub proof fn lemma_lowered_trimmed(s: Seq<char>, class: Class)
    requires
        class.ignores_case(),
    ensures
        trimmed(lowered(s), class) == lowered(trimmed(s, class)),
{
    let rest = trimmed_start(s, class);
    lemma_leading(s, class);
    lemma_trailing(rest, class);
    lemma_lowered_leading(s, class);
    assert(trimmed_start(lowered(s), class) =~= lowered(rest));
    lemma_lowered_trailing(rest, class);
    assert(trimmed(lowered(s), class) =~= lowered(trimmed(s, class)));
}

/// A character's bytes hold a null only when it is the null character.
proof fn lemma_scalar_nulls(scalar: u32)
    requires
        is_scalar(scalar),
    ensures
        encode_scalar(scalar).contains(0) == (scalar == 0),
{
    let bytes = encode_scalar(scalar);
    if has_width_1_encoding(scalar) {
        assert(scalar <= 0x7f ==> ((scalar & 0x7f) as u8 == 0 <==> scalar == 0)) by (bit_vector);
        if scalar == 0 {
            assert(bytes[0] == 0);
        }
    } else {
        assert(0xC0 | ((scalar >> 6) & 0x1F) as u8 != 0 && 0xE0 | ((scalar >> 12) & 0x0F) as u8
            != 0 && 0xF0 | ((scalar >> 18) & 0x7) as u8 != 0 && 0x80 | (scalar & 0x3F) as u8 != 0
            && 0x80 | ((scalar >> 6) & 0x3F) as u8 != 0 && 0x80 | ((scalar >> 12) & 0x3F) as u8
            != 0) by (bit_vector);
    }
}

/// A text's bytes hold a null only when the text holds the null character.
pub proof fn lemma_encoded_nulls(s: Seq<char>)
    ensures
        encode_utf8(s).contains(0) == s.contains('\0'),
    decreases s.len(),
{
    if s.len() > 0 {
        let first = encode_scalar(s[0] as u32);
        let rest = encode_utf8(s.drop_first());
        let all = encode_utf8(s);
        char_is_scalar(s[0]);
        lemma_scalar_nulls(s[0] as u32);
        lemma_encoded_nulls(s.drop_first());
        assert(all == first + rest);
        if all.contains(0) {
            let i = choose|i: int| 0 <= i < all.len() && all[i] == 0;
            if i < first.len() {
                assert(first[i] == 0);
                assert(s[0] as u32 == 0);
                char_u32_cast(s[0], 0);
            } else {
                assert(rest[i - first.len()] == 0);
                let j = choose|j: int|
                    0 <= j < s.drop_first().len() && s.drop_first()[j] == '\0';
                assert(s[j + 1] == '\0');
            }
        }
        if s.contains('\0') {
            let i = choose|i: int| 0 <= i < s.len() && s[i] == '\0';
            if i == 0 {
                let j = choose|j: int| 0 <= j < first.len() && first[j] == 0;
                assert(all[j] == 0);
            } else {
                assert(s.drop_first()[i - 1] == '\0');
                let j = choose|j: int| 0 <= j < rest.len() && rest[j] == 0;
                assert(all[first.len() + j] == 0);
            }
        }
    }
}

/// Text reads back from its own bytes.
pub proof fn lemma_reads_back(s: Seq<char>)
    ensures
        read_as(encode_utf8(s)) == s,
{
    encode_utf8_valid_utf8(s);
    encode_utf8_decode_utf8(s);
}

/// How many characters at the start of `s` belong to `class`.
pub(crate) fn count_leading(s: &str, class: Class) -> (n: usize)
    ensures
        n == leading(s@, class),
        n <= s@.len(),
{
    let len: usize = s.unicode_len();
    let mut chars = s.chars();
    let mut n: usize = 0;
    while n < len
        invariant
            n <= len,
            len == s@.len(),
            vstd::std_specs::iter::IteratorSpec::remaining(&chars) == s@.skip(n as int),
            forall|i: int| 0 <= i < n ==> class.has(#[trigger] s@[i]),
        decreases len - n,
    {
        if let Some(c) = chars.next() {
            assert(c == s@[n as int]);
            if !class.contains(c) {
                proof {
                    lemma_leading_is(s@, class, n as nat);
                }
                return n;
            }
        }
        n = n + 1;
    }
    proof {
        lemma_leading_is(s@, class, n as nat);
    }
    n
}

/// How many characters at the end of `s` belong to `class`.
fn count_trailing(s: &str, class: Class) -> (n: usize)
    ensures
        n == trailing(s@, class),
        n <= s@.len(),
{
    let len: usize = s.unicode_len();
    let mut chars = s.chars();
    let mut n: usize = 0;
    let mut seen: usize = 0;
    while seen < len
        invariant
            n <= seen <= len,
            len == s@.len(),
            vstd::std_specs::iter::IteratorSpec::remaining(&chars) == s@.skip(seen as int),
            n == trailing(s@.take(seen as int), class),
        decreases len - seen,
    {
        proof {
            let now = s@.take(seen + 1);
            assert(now.drop_last() =~= s@.take(seen as int));
            assert(now.last() == s@[seen as int]);
        }
        if let Some(c) = chars.next() {
            assert(c == s@[seen as int]);
            if class.contains(c) {
                n = n + 1;
            } else {
                n = 0;
            }
        }
        seen = seen + 1;
    }
    assert(s@.take(seen as int) =~= s@);
    n
}

/// The text without the characters of `class` at either end.
pub(crate) fn trim(s: &str, class: Class) -> (res: &str)
    ensures
        res@ == trimmed(s@, class),
{
    let start: usize = count_leading(s, class);
    let rest: &str = s.substring_char(start, s.unicode_len());
    assert(rest@ == trimmed_start(s@, class));
    let end: usize = rest.unicode_len() - count_trailing(rest, class);
    rest.substring_char(0, end)
}

/// The text before the first character outside `class`, and the text after
/// that character. Nothing when there is no such character.
pub(crate) fn split_after<'a>(s: &'a str, class: Class) -> (res: Option<(&'a str, &'a str)>)
    ensures
        match res {
            Some((before, after)) => {
                &&& leading(s@, class) < s@.len()
                &&& before@ == s@.take(leading(s@, class) as int)
                &&& after@ == s@.skip(leading(s@, class) as int + 1)
            },
            None => leading(s@, class) == s@.len(),
        },
{
    let n: usize = count_leading(s, class);
    let len: usize = s.unicode_len();
    if n < len {
        Some((s.substring_char(0, n), s.substring_char(n + 1, len)))
    } else {
        None
    }
}

/// Whether two texts are the same.
pub(crate) fn same(a: &str, b: &str) -> (res: bool)
    ensures
        res == (a@ == b@),
{
    proof {
        vstd::utf8::encode_utf8_decode_utf8(a@);
        vstd::utf8::encode_utf8_decode_utf8(b@);
    }
    let left: &[u8] = a.as_bytes();
    let right: &[u8] = b.as_bytes();
    if left.len() != right.len() {
        return false;
    }
    let mut i: usize = 0;
    while i < left.len()
        invariant
            i <= left@.len(),
            left@.len() == right@.len(),
            left@ == encode_utf8(a@),
            right@ == encode_utf8(b@),
            forall|j: int| 0 <= j < i ==> left@[j] == right@[j],
        decreases left@.len() - i,
    {
        if left[i] != right[i] {
            return false;
        }
        i = i + 1;
    }
    assert(left@ =~= right@);
    true
}

/// Which characters are white space, by their code points.
pub proof fn law_white_space_by_code_point(c: char)
    ensures
        white_space(c) <==> {
            let code = c as u32;
            ||| 0x9 <= code <= 0xD
            ||| code == 0x20 || code == 0x85 || code == 0xA0 || code == 0x1680
            ||| 0x2000 <= code <= 0x200A
            ||| code == 0x2028 || code == 0x2029 || code == 0x202F || code == 0x205F
            ||| code == 0x3000
        },
{
}

/// Which characters each class has.
pub proof fn law_classes_have_their_characters(c: char, other: char)
    ensures
        Class::Space.has(c) == white_space(c),
        Class::Quote.has(c) <==> c as u32 == 0x22,
        Class::Digit.has(c) <==> 0x30 <= c as u32 <= 0x39,
        Class::Line.has(c) <==> c as u32 != 0x3B && c as u32 != 0xA && c as u32 != 0xD,
        Class::Except(other).has(c) <==> c != other,
{
}

/// What is trimmed is exactly the runs at either end: what stands between
/// them comes out, character for character.
pub proof fn law_trimming_takes_the_ends_off(
    before: Seq<char>,
    core: Seq<char>,
    after: Seq<char>,
    class: Class,
)
    requires
        forall|i: int| 0 <= i < before.len() ==> class.has(#[trigger] before[i]),
        forall|i: int| 0 <= i < after.len() ==> class.has(#[trigger] after[i]),
        core.len() > 0 ==> !class.has(core[0]) && !class.has(core.last()),
    ensures
        trimmed(before + core + after, class) == core,
{
    let whole = before + core + after;
    if core.len() == 0 {
        assert forall|i: int| 0 <= i < whole.len() implies class.has(#[trigger] whole[i]) by {
            if i < before.len() {
                assert(whole[i] == before[i]);
            } else {
                assert(whole[i] == after[i - before.len()]);
            }
        }
        lemma_leading_is(whole, class, whole.len());
        assert(trimmed(whole, class) =~= core);
    } else {
        assert forall|i: int| 0 <= i < before.len() implies class.has(#[trigger] whole[i]) by {
            assert(whole[i] == before[i]);
        }
        assert(whole[before.len() as int] == core[0]);
        lemma_leading_is(whole, class, before.len());
        let rest = trimmed_start(whole, class);
        assert(rest =~= core + after);
        lemma_trailing(rest, class);
        let n = trailing(rest, class);
        if n < after.len() {
            assert(rest[rest.len() - 1 - n] == after[after.len() - 1 - n]);
        } else if n > after.len() {
            assert(rest[core.len() - 1] == core.last());
        }
        assert(trimmed(whole, class) =~= core);
    }
}

/// Text as what trimming takes off its start, what it leaves, and what it
/// takes off its end.
pub proof fn lemma_parts_of_trimmed(s: Seq<char>, class: Class) -> (ends: (Seq<char>, Seq<char>))
    ensures
        s == ends.0 + trimmed(s, class) + ends.1,
        forall|i: int| 0 <= i < ends.0.len() ==> class.has(#[trigger] ends.0[i]),
        forall|i: int| 0 <= i < ends.1.len() ==> class.has(#[trigger] ends.1[i]),
{
    let from = leading(s, class) as int;
    let rest = trimmed_start(s, class);
    lemma_leading(s, class);
    lemma_trailing(rest, class);
    let to = rest.len() - trailing(rest, class);
    let before = s.take(from);
    let after = rest.skip(to);
    assert forall|i: int| 0 <= i < after.len() implies class.has(#[trigger] after[i]) by {
        assert(after[i] == rest[to + i]);
    }
    assert(s =~= before + trimmed(s, class) + after);
    (before, after)
}

/// What the lower case of a text is: of the same length, each ASCII capital
/// 32 code points on, and every other character as it was.
pub proof fn law_lower_case_by_code_point(s: Seq<char>, i: int)
    requires
        0 <= i < s.len(),
    ensures
        lowered(s).len() == s.len(),
        0x41 <= s[i] as u32 <= 0x5A ==> lowered(s)[i] as u32 == s[i] as u32 + 32,
        !(0x41 <= s[i] as u32 <= 0x5A) ==> lowered(s)[i] == s[i],
{
}

/// What bytes read as: the text that they encode, where they encode one.
pub proof fn law_bytes_read_as_their_text(bytes: Seq<u8>)
    ensures
        valid_utf8(bytes) ==> encode_utf8(read_as(bytes)) == bytes,
        !valid_utf8(bytes) ==> read_as(bytes) == mended(bytes),
{
    if valid_utf8(bytes) {
        decode_utf8_encode_utf8(bytes);
    }
}

} // verus!
