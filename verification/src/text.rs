//! Characters and strings: equality, searching, trimming, cutting by bytes and
//! writing numbers.

use vstd::prelude::*;
use vstd::string::*;
use vstd::utf8::*;

verus! {

/// `String::push` appends one character at the end of the string.
pub assume_specification[ String::push ](s: &mut String, c: char)
    ensures
        final(s)@ == old(s)@.push(c),
;

/// The characters of an optional string.
pub open spec fn string_view(s: Option<String>) -> Option<Seq<char>> {
    match s {
        Some(s) => Some(s@),
        None => None,
    }
}

/// The characters of an optional string that is borrowed.
pub open spec fn str_view(s: Option<&str>) -> Option<Seq<char>> {
    match s {
        Some(s) => Some(s@),
        None => None,
    }
}

/// The characters of `s`, in order.
pub fn chars_of(s: &str) -> (r: Vec<char>)
    ensures
        r@ == s@,
{
    let mut r: Vec<char> = Vec::new();
    for c in it: s.chars()
        invariant
            it.seq() == s@,
            r@ == it.seq().take(it.index() as int),
    {
        r.push(c);
    }
    r
}

/// Whether two strings hold the same characters.
pub fn same_text(a: &str, b: &str) -> (r: bool)
    ensures
        r == (a@ == b@),
{
    broadcast use group_utf8_lib;

    let x = a.as_bytes();
    let y = b.as_bytes();
    proof {
        encode_utf8_decode_utf8(a@);
        encode_utf8_decode_utf8(b@);
    }
    if x.len() != y.len() {
        return false;
    }
    let mut i: usize = 0;
    while i < x.len()
        invariant
            i <= x.len(),
            x.len() == y.len(),
            x@ == encode_utf8(a@),
            y@ == encode_utf8(b@),
            forall|j: int| 0 <= j < i ==> x@[j] == y@[j],
        decreases x.len() - i,
    {
        if x[i] != y[i] {
            return false;
        }
        i = i + 1;
    }
    assert(x@ =~= y@);
    true
}

/// The characters from `from` up to `to` as a string.
pub fn string_of(chars: &Vec<char>, from: usize, to: usize) -> (r: String)
    requires
        from <= to <= chars.len(),
    ensures
        r@ == chars@.subrange(from as int, to as int),
{
    let mut r = String::new();
    let mut i: usize = from;
    while i < to
        invariant
            from <= i <= to <= chars.len(),
            r@ == chars@.subrange(from as int, i as int),
        decreases to - i,
    {
        r.push(chars[i]);
        i = i + 1;
        proof {
            assert(chars@.subrange(from as int, i as int) =~= chars@.subrange(
                from as int,
                i - 1,
            ).push(chars@[i - 1]));
        }
    }
    r
}

/// Whether a string begins with another one.
pub fn starts_with(s: &str, prefix: &str) -> (r: bool)
    ensures
        r == prefix@.is_prefix_of(s@),
{
    let long = chars_of(s);
    let short = chars_of(prefix);
    if short.len() > long.len() {
        return false;
    }
    let mut i: usize = 0;
    while i < short.len()
        invariant
            i <= short.len() <= long.len(),
            long@ == s@,
            short@ == prefix@,
            forall|j: int| 0 <= j < i ==> long@[j] == short@[j],
        decreases short.len() - i,
    {
        if long[i] != short[i] {
            proof {
                assert(s@.subrange(0, prefix@.len() as int)[i as int] == s@[i as int]);
            }
            return false;
        }
        i = i + 1;
    }
    proof {
        assert(s@.subrange(0, prefix@.len() as int) =~= prefix@);
    }
    true
}

/// The position of the first `c` from `from` up to `to`.
pub fn find_char(chars: &Vec<char>, from: usize, to: usize, c: char) -> (r: Option<usize>)
    requires
        from <= to <= chars.len(),
    ensures
        match chars@.subrange(from as int, to as int).index_of_first(c) {
            Some(k) => 0 <= k && r is Some && r->Some_0 == from + k && from + k < to,
            None => r is None,
        },
{
    let ghost part = chars@.subrange(from as int, to as int);
    proof {
        part.index_of_first_ensures(c);
    }
    let mut i: usize = from;
    while i < to
        invariant
            from <= i <= to <= chars.len(),
            part == chars@.subrange(from as int, to as int),
            forall|j: int| 0 <= j < i - from ==> part[j] != c,
            match part.index_of_first(c) {
                Some(k) => 0 <= k < part.len() && part[k] == c && forall|j: int|
                    0 <= j < k ==> part[j] != c,
                None => !part.contains(c),
            },
        decreases to - i,
    {
        if chars[i] == c {
            proof {
                assert(part[i - from] == c);
            }
            return Some(i);
        }
        i = i + 1;
    }
    None
}

/// The position of the last `c` in a list of characters.
pub fn rfind_char(chars: &Vec<char>, c: char) -> (r: Option<usize>)
    ensures
        match chars@.index_of_last(c) {
            Some(k) => 0 <= k < chars.len() && r is Some && r->Some_0 == k,
            None => r is None,
        },
{
    proof {
        chars@.index_of_last_ensures(c);
    }
    let mut i: usize = chars.len();
    while i > 0
        invariant
            i <= chars.len(),
            forall|j: int| i <= j < chars.len() ==> chars@[j] != c,
            match chars@.index_of_last(c) {
                Some(k) => 0 <= k < chars.len() && chars@[k] == c && forall|j: int|
                    k < j < chars.len() ==> chars@[j] != c,
                None => !chars@.contains(c),
            },
        decreases i,
    {
        i = i - 1;
        if chars[i] == c {
            return Some(i);
        }
    }
    None
}

/// The characters with the Unicode property `White_Space`.
pub open spec fn white_space(c: char) -> bool {
    ||| '\u{9}' <= c <= '\u{d}'
    ||| c == '\u{20}'
    ||| c == '\u{85}'
    ||| c == '\u{a0}'
    ||| c == '\u{1680}'
    ||| '\u{2000}' <= c <= '\u{200a}'
    ||| c == '\u{2028}'
    ||| c == '\u{2029}'
    ||| c == '\u{202f}'
    ||| c == '\u{205f}'
    ||| c == '\u{3000}'
}

/// Whether a character is white space.
pub fn is_white_space(c: char) -> (r: bool)
    ensures
        r == white_space(c),
{
    ('\u{9}' <= c && c <= '\u{d}') || c == '\u{20}' || c == '\u{85}' || c == '\u{a0}' || c
        == '\u{1680}' || ('\u{2000}' <= c && c <= '\u{200a}') || c == '\u{2028}' || c == '\u{2029}'
        || c == '\u{202f}' || c == '\u{205f}' || c == '\u{3000}'
}

/// A text without the white space at its start.
pub open spec fn trimmed_start(s: Seq<char>) -> Seq<char>
    decreases s.len(),
{
    if s.len() > 0 && white_space(s[0]) {
        trimmed_start(s.drop_first())
    } else {
        s
    }
}

/// A text without the white space at its end.
pub open spec fn trimmed_end(s: Seq<char>) -> Seq<char>
    decreases s.len(),
{
    if s.len() > 0 && white_space(s.last()) {
        trimmed_end(s.drop_last())
    } else {
        s
    }
}

/// A text without the white space at either end.
pub open spec fn trimmed(s: Seq<char>) -> Seq<char> {
    trimmed_end(trimmed_start(s))
}

/// A text without the white space at either end.
pub fn trim(s: &str) -> (r: &str)
    ensures
        r@ == trimmed(s@),
{
    let chars = chars_of(s);
    let mut lo: usize = 0;
    proof {
        assert(s@.skip(0) =~= s@);
    }
    while lo < chars.len() && is_white_space(chars[lo])
        invariant
            lo <= chars.len(),
            chars@ == s@,
            trimmed_start(s@) == trimmed_start(s@.skip(lo as int)),
        decreases chars.len() - lo,
    {
        proof {
            assert(s@.skip(lo as int).drop_first() =~= s@.skip(lo + 1));
        }
        lo = lo + 1;
    }
    let mut hi: usize = chars.len();
    proof {
        assert(trimmed_start(s@) == s@.skip(lo as int));
        assert(s@.subrange(lo as int, hi as int) =~= s@.skip(lo as int));
    }
    while lo < hi && is_white_space(chars[hi - 1])
        invariant
            lo <= hi <= chars.len(),
            chars@ == s@,
            trimmed(s@) == trimmed_end(s@.subrange(lo as int, hi as int)),
        decreases hi,
    {
        proof {
            assert(s@.subrange(lo as int, hi as int).drop_last() =~= s@.subrange(
                lo as int,
                hi - 1,
            ));
        }
        hi = hi - 1;
    }
    s.substring_char(lo, hi)
}

/// Where the first `limit` bytes of a text end.
pub open spec fn head_end(s: Seq<char>, limit: nat) -> int {
    if encode_utf8(s).len() <= limit {
        encode_utf8(s).len() as int
    } else {
        limit as int
    }
}

/// Where the last `limit` bytes of a text start.
pub open spec fn tail_start(s: Seq<char>, limit: nat) -> int {
    if encode_utf8(s).len() <= limit {
        0
    } else {
        encode_utf8(s).len() - limit
    }
}

/// Whether the first `limit` bytes of a text end between two characters.
pub open spec fn has_head(s: Seq<char>, limit: nat) -> bool {
    is_char_boundary(encode_utf8(s), head_end(s, limit))
}

/// Whether the last `limit` bytes of a text start between two characters.
pub open spec fn has_tail(s: Seq<char>, limit: nat) -> bool {
    is_char_boundary(encode_utf8(s), tail_start(s, limit))
}

/// The characters that the first `limit` bytes of a text hold.
pub open spec fn head_text(s: Seq<char>, limit: nat) -> Seq<char> {
    decode_utf8(encode_utf8(s).subrange(0, head_end(s, limit)))
}

/// The characters that the last `limit` bytes of a text hold.
pub open spec fn tail_text(s: Seq<char>, limit: nat) -> Seq<char> {
    decode_utf8(encode_utf8(s).subrange(tail_start(s, limit), encode_utf8(s).len() as int))
}

/// What the first bytes of a text hold is a start of the text that is no longer
/// than it may be: the whole text if that is short enough, else all that there is
/// room for.
pub proof fn law_a_head_is_a_short_start(s: Seq<char>, limit: nat)
    requires
        has_head(s, limit),
    ensures
        head_text(s, limit).is_prefix_of(s),
        encode_utf8(head_text(s, limit)).len() <= limit,
        encode_utf8(s).len() <= limit ==> head_text(s, limit) == s,
        encode_utf8(s).len() > limit ==> encode_utf8(head_text(s, limit)).len() == limit,
{
    let bytes = encode_utf8(s);
    let end = head_end(s, limit);
    encode_utf8_valid_utf8(s);
    encode_utf8_decode_utf8(s);
    valid_utf8_split(bytes, end);
    decode_utf8_split(bytes, end);
    decode_utf8_encode_utf8(bytes.subrange(0, end));
    assert(s.subrange(0, head_text(s, limit).len() as int) =~= head_text(s, limit));
    assert(bytes.subrange(0, bytes.len() as int) =~= bytes);
}

/// What the last bytes of a text hold is an end of the text that is no longer
/// than it may be: the whole text if that is short enough, else all that there is
/// room for.
pub proof fn law_a_tail_is_a_short_end(s: Seq<char>, limit: nat)
    requires
        has_tail(s, limit),
    ensures
        tail_text(s, limit).is_suffix_of(s),
        encode_utf8(tail_text(s, limit)).len() <= limit,
        encode_utf8(s).len() <= limit ==> tail_text(s, limit) == s,
        encode_utf8(s).len() > limit ==> encode_utf8(tail_text(s, limit)).len() == limit,
{
    let bytes = encode_utf8(s);
    let start = tail_start(s, limit);
    let count = tail_text(s, limit).len() as int;
    encode_utf8_valid_utf8(s);
    encode_utf8_decode_utf8(s);
    valid_utf8_split(bytes, start);
    decode_utf8_split(bytes, start);
    decode_utf8_encode_utf8(bytes.subrange(start, bytes.len() as int));
    assert(s.subrange(s.len() - count, s.len() as int) =~= tail_text(s, limit));
    assert(bytes.subrange(0, bytes.len() as int) =~= bytes);
}

/// Where the first `limit` bytes of a text end.
fn head_position(s: &str, limit: usize) -> (r: usize)
    ensures
        r == head_end(s@, limit as nat),
{
    let n: usize = s.as_bytes().len();
    if n <= limit {
        n
    } else {
        limit
    }
}

/// Where the last `limit` bytes of a text start.
fn tail_position(s: &str, limit: usize) -> (r: usize)
    ensures
        r == tail_start(s@, limit as nat),
{
    let n: usize = s.as_bytes().len();
    if n <= limit {
        0
    } else {
        n - limit
    }
}

/// Whether the first `limit` bytes of a text end between two characters.
pub fn can_take_head(s: &str, limit: usize) -> (r: bool)
    ensures
        r == has_head(s@, limit as nat),
{
    s.is_char_boundary(head_position(s, limit))
}

/// Whether the last `limit` bytes of a text start between two characters.
pub fn can_take_tail(s: &str, limit: usize) -> (r: bool)
    ensures
        r == has_tail(s@, limit as nat),
{
    s.is_char_boundary(tail_position(s, limit))
}

/// The characters that the first `limit` bytes of a text hold.
pub fn head(s: &str, limit: usize) -> (r: &str)
    requires
        has_head(s@, limit as nat),
    ensures
        r@ == head_text(s@, limit as nat),
{
    let (r, _rest) = s.split_at(head_position(s, limit));
    proof {
        encode_utf8_decode_utf8(r@);
    }
    r
}

/// The characters that the last `limit` bytes of a text hold.
pub fn tail(s: &str, limit: usize) -> (r: &str)
    requires
        has_tail(s@, limit as nat),
    ensures
        r@ == tail_text(s@, limit as nat),
{
    let (_front, r) = s.split_at(tail_position(s, limit));
    proof {
        encode_utf8_decode_utf8(r@);
    }
    r
}

/// The character of a digit, `0` to `9` and then `a` to `f`.
pub open spec fn digit_char(d: int) -> char {
    if d < 10 {
        (d + 48) as char
    } else {
        (d + 87) as char
    }
}

/// The character of a digit.
pub fn digit(d: u8) -> (r: char)
    requires
        d < 16,
    ensures
        r == digit_char(d as int),
{
    if d < 10 {
        (d + 48) as char
    } else {
        (d + 87) as char
    }
}

/// A number in decimal digits.
pub open spec fn decimal(n: nat) -> Seq<char>
    decreases n,
{
    if n < 10 {
        seq![digit_char(n as int)]
    } else {
        decimal(n / 10).push(digit_char((n % 10) as int))
    }
}

/// A number in decimal digits.
pub fn decimal_string(n: usize) -> (r: String)
    ensures
        r@ == decimal(n as nat),
    decreases n,
{
    if n < 10 {
        let mut s = String::new();
        s.push(digit(n as u8));
        proof {
            assert(s@ =~= decimal(n as nat));
        }
        s
    } else {
        let mut s = decimal_string(n / 10);
        s.push(digit((n % 10) as u8));
        s
    }
}

/// A text that is short enough, and one of ASCII characters alone, can be cut at
/// either end.
pub proof fn law_short_and_plain_texts_can_be_cut(s: Seq<char>, limit: nat)
    ensures
        encode_utf8(s).len() <= limit ==> has_head(s, limit) && has_tail(s, limit),
        is_ascii_chars(s) ==> has_head(s, limit) && has_tail(s, limit),
{
    let bytes = encode_utf8(s);
    encode_utf8_valid_utf8(s);
    is_char_boundary_start_end_of_seq(bytes);
    if is_ascii_chars(s) && bytes.len() > limit {
        is_ascii_chars_encode_utf8(s);
        assert forall|k: int| 0 <= k < bytes.len() implies is_char_boundary(bytes, k) by {
            utf8_byte_ranges_bitwise(bytes[k]);
            is_char_boundary_iff_not_is_continuation_byte(bytes, k);
        }
        if limit > 0 {
            assert(is_char_boundary(bytes, bytes.len() - limit));
        }
        assert(is_char_boundary(bytes, limit as int));
    }
}

/// A text is taken apart into white space, what is left when it is trimmed, and
/// white space again; and what is left has no white space at its ends.
pub proof fn law_trimming_takes_white_space_off_both_ends(s: Seq<char>)
    ensures
        exists|before: Seq<char>, after: Seq<char>|
            {
                &&& s == #[trigger] (before + trimmed(s) + after)
                &&& forall|k: int| 0 <= k < before.len() ==> white_space(#[trigger] before[k])
                &&& forall|k: int| 0 <= k < after.len() ==> white_space(#[trigger] after[k])
            },
        trimmed(s).len() > 0 ==> !white_space(trimmed(s)[0]) && !white_space(trimmed(s).last()),
{
    let before = lemma_trimmed_start(s);
    let after = lemma_trimmed_end(trimmed_start(s));
    assert(s =~= before + trimmed(s) + after);
    let rest = trimmed_start(s);
    if trimmed(s).len() > 0 {
        assert(rest[0] == trimmed(s)[0]);
    }
}

/// White space before a text that starts with another character is taken off, and
/// so is white space behind it.
pub proof fn law_what_is_not_white_space_is_kept(before: Seq<char>, s: Seq<char>, after: Seq<char>)
    requires
        forall|k: int| 0 <= k < before.len() ==> white_space(#[trigger] before[k]),
        forall|k: int| 0 <= k < after.len() ==> white_space(#[trigger] after[k]),
        s.len() > 0 ==> !white_space(s[0]) && !white_space(s.last()),
    ensures
        trimmed(before + s + after) == s,
    decreases before.len() + after.len(),
{
    let whole = before + s + after;
    if before.len() > 0 {
        assert(whole[0] == before[0]);
        assert(whole.drop_first() =~= before.drop_first() + s + after);
        assert forall|k: int| 0 <= k < before.drop_first().len() implies white_space(
            #[trigger] before.drop_first()[k],
        ) by {
            assert(before.drop_first()[k] == before[k + 1]);
        }
        law_what_is_not_white_space_is_kept(before.drop_first(), s, after);
    } else if s.len() == 0 {
        assert(whole =~= after);
        if after.len() > 0 {
            assert(whole.drop_first() =~= before + s + after.drop_first());
            assert forall|k: int| 0 <= k < after.drop_first().len() implies white_space(
                #[trigger] after.drop_first()[k],
            ) by {
                assert(after.drop_first()[k] == after[k + 1]);
            }
            law_what_is_not_white_space_is_kept(before, s, after.drop_first());
        }
    } else {
        assert(whole[0] == s[0]);
        assert(trimmed_start(whole) == whole);
        if after.len() > 0 {
            let shorter = before + s + after.drop_last();
            assert(whole.last() == after.last());
            assert(whole.drop_last() =~= shorter);
            assert(shorter[0] == s[0]);
            law_what_is_not_white_space_is_kept(before, s, after.drop_last());
            assert(trimmed_start(shorter) == shorter);
        } else {
            assert(whole =~= s);
        }
    }
}

/// What is taken off the start of a text is white space.
proof fn lemma_trimmed_start(s: Seq<char>) -> (before: Seq<char>)
    ensures
        s == before + trimmed_start(s),
        forall|k: int| 0 <= k < before.len() ==> white_space(#[trigger] before[k]),
        trimmed_start(s).len() > 0 ==> !white_space(trimmed_start(s)[0]),
    decreases s.len(),
{
    if s.len() > 0 && white_space(s[0]) {
        let rest = lemma_trimmed_start(s.drop_first());
        let before = seq![s[0]] + rest;
        assert(s =~= seq![s[0]] + s.drop_first());
        assert(seq![s[0]] + (rest + trimmed_start(s)) =~= before + trimmed_start(s));
        before
    } else {
        assert(s =~= Seq::<char>::empty() + s);
        Seq::empty()
    }
}

/// What is taken off the end of a text is white space.
proof fn lemma_trimmed_end(s: Seq<char>) -> (after: Seq<char>)
    ensures
        s == trimmed_end(s) + after,
        forall|k: int| 0 <= k < after.len() ==> white_space(#[trigger] after[k]),
        trimmed_end(s).len() > 0 ==> !white_space(trimmed_end(s).last()),
    decreases s.len(),
{
    if s.len() > 0 && white_space(s.last()) {
        let rest = lemma_trimmed_end(s.drop_last());
        let after = rest.push(s.last());
        assert(s =~= s.drop_last().push(s.last()));
        assert((trimmed_end(s) + rest).push(s.last()) =~= trimmed_end(s) + after);
        after
    } else {
        assert(s =~= s + Seq::<char>::empty());
        Seq::empty()
    }
}

/// The characters of an optional string are there exactly if the string is.
pub proof fn law_an_optional_text_is_itself(s: Option<String>, t: Option<&str>)
    ensures
        s is Some <==> string_view(s) is Some,
        s is Some ==> string_view(s)->0 == s->0@,
        t is Some <==> str_view(t) is Some,
        t is Some ==> str_view(t)->0 == t->0@,
{
}

/// The value of a decimal digit.
pub open spec fn digit_value(c: char) -> int {
    c as int - '0' as int
}

/// The decimal digits of a number are digits, the first of them is not 0 unless
/// the number is, and the digits before the last stand for ten times less.
pub proof fn law_decimal_digits(n: nat)
    ensures
        decimal(n).len() > 0,
        forall|k: int| 0 <= k < decimal(n).len() ==> '0' <= #[trigger] decimal(n)[k] <= '9',
        decimal(n)[0] == '0' <==> n == 0,
        n < 10 <==> decimal(n).len() == 1,
        n % 10 == digit_value(decimal(n).last()),
        n >= 10 ==> decimal(n).drop_last() == decimal(n / 10),
    decreases n,
{
    if n >= 10 {
        law_decimal_digits(n / 10);
        assert(decimal(n).drop_last() =~= decimal(n / 10));
        assert(decimal(n)[0] == decimal(n / 10)[0]);
    }
}

/// The bytes of a text are those of its first characters and those of the others,
/// and characters meet where the two meet.
proof fn lemma_bytes_split(s: Seq<char>, n: int)
    requires
        0 <= n <= s.len(),
    ensures
        encode_utf8(s) == encode_utf8(s.take(n)) + encode_utf8(s.skip(n)),
        is_char_boundary(encode_utf8(s), encode_utf8(s.take(n)).len() as int),
    decreases n,
{
    let bytes = encode_utf8(s);
    encode_utf8_valid_utf8(s);
    if n == 0 {
        assert(s.take(0) =~= Seq::empty());
        assert(s.skip(0) =~= s);
        assert(bytes =~= encode_utf8(s.take(0)) + encode_utf8(s.skip(0)));
    } else {
        let rest = s.drop_first();
        let front = s.take(n);
        lemma_bytes_split(rest, n - 1);
        encode_utf8_first_scalar(s);
        assert(front[0] == s[0]);
        assert(front.drop_first() =~= rest.take(n - 1));
        assert(s.skip(n) =~= rest.skip(n - 1));
        assert(bytes =~= encode_utf8(front) + encode_utf8(s.skip(n)));
        assert(pop_first_scalar(bytes) =~= encode_utf8(rest));
        encode_utf8_first_scalar(front);
    }
}

/// A text can be cut behind every start of it, and before every end of it, that
/// has as many bytes as there is room for; and that start or end is what is taken.
pub proof fn law_a_text_is_cut_where_characters_meet(s: Seq<char>, limit: nat, part: Seq<char>)
    requires
        encode_utf8(s).len() > limit,
        encode_utf8(part).len() == limit,
    ensures
        part.is_prefix_of(s) ==> has_head(s, limit) && head_text(s, limit) == part,
        part.is_suffix_of(s) ==> has_tail(s, limit) && tail_text(s, limit) == part,
{
    let bytes = encode_utf8(s);
    encode_utf8_decode_utf8(part);
    if part.is_prefix_of(s) {
        let n = part.len() as int;
        assert(s.take(n) =~= part);
        lemma_bytes_split(s, n);
        assert(bytes.subrange(0, limit as int) =~= encode_utf8(part));
    }
    if part.is_suffix_of(s) {
        let n = s.len() - part.len();
        assert(s.skip(n) =~= part);
        lemma_bytes_split(s, n);
        assert(bytes.subrange(bytes.len() - limit, bytes.len() as int) =~= encode_utf8(part));
    }
}

/// The 25 characters of white space are the space, those from the tab to the
/// carriage return, and 19 others of Unicode; letters, digits, punctuation and
/// symbols of ASCII are none, nor is anything behind the ideographic space.
pub proof fn law_white_space(c: char)
    ensures
        ({
            let n = c as int;
            &&& n < 0x80 ==> (white_space(c) <==> n == 32 || 9 <= n <= 13)
            &&& 0x80 <= n < 0x2000 ==> (white_space(c) <==> n == 0x85 || n == 0xa0 || n == 0x1680)
            &&& 0x2000 <= n < 0x3000 ==> (white_space(c) <==> n <= 0x200a || n == 0x2028 || n
                == 0x2029 || n == 0x202f || n == 0x205f)
            &&& n >= 0x3000 ==> (white_space(c) <==> n == 0x3000)
        }),
{
}

} // verus!
