//! Texts as sequences of characters: searching, trimming and measuring.

use vstd::prelude::*;
use vstd::slice::*;
use vstd::utf8::*;
use crate::chars::CharClass;

verus! {

/// The views of the items of a sequence, in order.
pub open spec fn views<T: View>(items: Seq<T>) -> Seq<T::V> {
    items.map_values(|item: T| item@)
}

/// The view of an optional text.
pub open spec fn view_of(text: Option<String>) -> Option<Seq<char>> {
    match text {
        Some(text) => Some(text@),
        None => None,
    }
}

/// The index of the first `c` in `s`, if there is one.
pub open spec fn index_of(s: Seq<char>, c: char) -> Option<int>
    decreases s.len(),
{
    if s.len() == 0 {
        None
    } else if s[0] == c {
        Some(0)
    } else {
        match index_of(s.drop_first(), c) {
            Some(k) => Some(k + 1),
            None => None,
        }
    }
}

/// `index_of` finds the first occurrence, and finds none only where there is none.
pub proof fn lemma_index_of(s: Seq<char>, c: char)
    ensures
        match index_of(s, c) {
            Some(k) => 0 <= k < s.len() && s[k] == c && forall|j: int| 0 <= j < k ==> s[j] != c,
            None => forall|j: int| 0 <= j < s.len() ==> s[j] != c,
        },
    decreases s.len(),
{
    if s.len() > 0 && s[0] != c {
        let t = s.drop_first();
        lemma_index_of(t, c);
        match index_of(t, c) {
            Some(k) => {
                assert forall|j: int| 0 <= j < k + 1 implies s[j] != c by {
                    if j > 0 {
                        assert(s[j] == t[j - 1]);
                    }
                }
            },
            None => {
                assert forall|j: int| 0 <= j < s.len() implies s[j] != c by {
                    if j > 0 {
                        assert(s[j] == t[j - 1]);
                    }
                }
            },
        }
    }
}

/// An index with `c` before which there is no `c` is the one `index_of` gives.
pub proof fn lemma_index_of_is(s: Seq<char>, c: char, k: int)
    requires
        0 <= k < s.len(),
        s[k] == c,
        forall|j: int| 0 <= j < k ==> s[j] != c,
    ensures
        index_of(s, c) == Some(k),
{
    lemma_index_of(s, c);
}

/// Where no character is `c`, `index_of` gives nothing.
pub proof fn lemma_index_of_none(s: Seq<char>, c: char)
    requires
        forall|j: int| 0 <= j < s.len() ==> s[j] != c,
    ensures
        index_of(s, c) is None,
{
    lemma_index_of(s, c);
}

/// Finds the first `c` in `s`.
pub fn position(s: &[char], c: char) -> (r: Option<usize>)
    ensures
        match r {
            Some(k) => index_of(s@, c) == Some(k as int) && k < s@.len(),
            None => index_of(s@, c) is None,
        },
{
    let mut i: usize = 0;
    while i < s.len()
        invariant
            i <= s.len(),
            forall|j: int| 0 <= j < i ==> s@[j] != c,
        decreases s.len() - i,
    {
        if s[i] == c {
            proof {
                lemma_index_of_is(s@, c, i as int);
            }
            return Some(i);
        }
        i += 1;
    }
    proof {
        lemma_index_of_none(s@, c);
    }
    None
}

/// `s` without its leading characters of `class`.
pub open spec fn strip_leading(s: Seq<char>, class: CharClass) -> Seq<char>
    decreases s.len(),
{
    if s.len() > 0 && class.has(s[0]) {
        strip_leading(s.drop_first(), class)
    } else {
        s
    }
}

/// `s` without its trailing characters of `class`.
pub open spec fn strip_trailing(s: Seq<char>, class: CharClass) -> Seq<char>
    decreases s.len(),
{
    if s.len() > 0 && class.has(s.last()) {
        strip_trailing(s.drop_last(), class)
    } else {
        s
    }
}

/// `s` without the characters of `class` at its end and then at its start.
pub open spec fn strip(s: Seq<char>, class: CharClass) -> Seq<char> {
    strip_leading(strip_trailing(s, class), class)
}

/// Whether every character of `s` belongs to `class`.
pub open spec fn all_in(s: Seq<char>, class: CharClass) -> bool {
    forall|i: int| 0 <= i < s.len() ==> class.has(#[trigger] s[i])
}

/// What `strip_leading` leaves is a tail of `s` that does not start in
/// `class`, and all it dropped was of `class`.
pub proof fn lemma_strip_leading(s: Seq<char>, class: CharClass)
    ensures
        ({
            let r = strip_leading(s, class);
            let k = s.len() - r.len();
            &&& 0 <= k <= s.len()
            &&& r == s.skip(k)
            &&& all_in(s.take(k), class)
            &&& (r.len() > 0 ==> !class.has(r[0]))
        }),
    decreases s.len(),
{
    if s.len() > 0 && class.has(s[0]) {
        let t = s.drop_first();
        lemma_strip_leading(t, class);
        let r = strip_leading(t, class);
        let k = t.len() - r.len();
        assert(t.skip(k) == s.skip(k + 1));
        assert forall|i: int| 0 <= i < k + 1 implies class.has(#[trigger] s.take(k + 1)[i]) by {
            if i > 0 {
                assert(s.take(k + 1)[i] == t.take(k)[i - 1]);
            }
        }
    } else {
        assert(s.skip(0) == s);
    }
}

/// What `strip_trailing` leaves is a head of `s` that does not end in
/// `class`, and all it dropped was of `class`.
pub proof fn lemma_strip_trailing(s: Seq<char>, class: CharClass)
    ensures
        ({
            let r = strip_trailing(s, class);
            &&& r.len() <= s.len()
            &&& r == s.take(r.len() as int)
            &&& all_in(s.skip(r.len() as int), class)
            &&& (r.len() > 0 ==> !class.has(r.last()))
        }),
    decreases s.len(),
{
    if s.len() > 0 && class.has(s.last()) {
        let t = s.drop_last();
        lemma_strip_trailing(t, class);
        let r = strip_trailing(t, class);
        let n = r.len() as int;
        assert(t.take(n) == s.take(n));
        assert forall|i: int| 0 <= i < s.len() - n implies class.has(#[trigger] s.skip(n)[i]) by {
            if i < t.len() - n {
                assert(s.skip(n)[i] == t.skip(n)[i]);
            }
        }
    } else {
        assert(s.take(s.len() as int) == s);
    }
}

/// Drops the leading characters of `class`.
pub fn skip_leading<'a>(s: &'a [char], class: CharClass) -> (r: &'a [char])
    ensures
        r@ == strip_leading(s@, class),
{
    let mut i: usize = 0;
    assert(s@.skip(0) == s@);
    while i < s.len() && class.holds(s[i])
        invariant
            i <= s.len(),
            strip_leading(s@, class) == strip_leading(s@.skip(i as int), class),
        decreases s.len() - i,
    {
        proof {
            assert(s@.skip(i as int).drop_first() == s@.skip(i + 1));
        }
        i += 1;
    }
    proof {
        assert(s@.skip(i as int) == s@.subrange(i as int, s@.len() as int));
    }
    slice_subrange(s, i, s.len())
}

/// Drops the trailing characters of `class`.
pub fn skip_trailing<'a>(s: &'a [char], class: CharClass) -> (r: &'a [char])
    ensures
        r@ == strip_trailing(s@, class),
{
    let mut n: usize = s.len();
    assert(s@.take(n as int) == s@);
    while n > 0 && class.holds(s[n - 1])
        invariant
            n <= s.len(),
            strip_trailing(s@, class) == strip_trailing(s@.take(n as int), class),
        decreases n,
    {
        proof {
            assert(s@.take(n as int).drop_last() == s@.take(n - 1));
        }
        n -= 1;
    }
    proof {
        assert(s@.take(n as int) == s@.subrange(0, n as int));
    }
    slice_subrange(s, 0, n)
}

/// Drops the characters of `class` at both ends.
pub fn skip_both<'a>(s: &'a [char], class: CharClass) -> (r: &'a [char])
    ensures
        r@ == strip(s@, class),
{
    skip_leading(skip_trailing(s, class), class)
}

/// Tests whether every character belongs to `class`.
pub fn all_of(s: &[char], class: CharClass) -> (b: bool)
    ensures
        b == all_in(s@, class),
{
    let mut i: usize = 0;
    while i < s.len()
        invariant
            i <= s.len(),
            forall|j: int| 0 <= j < i ==> class.has(#[trigger] s@[j]),
        decreases s.len() - i,
    {
        if !class.holds(s[i]) {
            return false;
        }
        i += 1;
    }
    true
}

/// Whether `needle` stands in `s` at position `p`.
pub open spec fn occurs_at(s: Seq<char>, needle: Seq<char>, p: int) -> bool {
    0 <= p && p + needle.len() <= s.len() && s.subrange(p, p + needle.len()) == needle
}

/// The first position at or after `from` where `needle` stands in `s`.
pub open spec fn find_from(s: Seq<char>, needle: Seq<char>, from: int) -> Option<int>
    decreases s.len() - from + 1,
{
    if from < 0 || from + needle.len() > s.len() {
        None
    } else if occurs_at(s, needle, from) {
        Some(from)
    } else {
        find_from(s, needle, from + 1)
    }
}

/// The last position at or before `upto` where `needle` stands in `s`.
pub open spec fn find_back(s: Seq<char>, needle: Seq<char>, upto: int) -> Option<int>
    decreases upto + 1,
{
    if upto < 0 {
        None
    } else if occurs_at(s, needle, upto) {
        Some(upto)
    } else {
        find_back(s, needle, upto - 1)
    }
}

/// The last position where `needle` stands in `s`.
pub open spec fn find_last(s: Seq<char>, needle: Seq<char>) -> Option<int> {
    find_back(s, needle, s.len() - needle.len())
}

/// Whether `needle` stands somewhere in `s`.
pub open spec fn contains_text(s: Seq<char>, needle: Seq<char>) -> bool {
    exists|p: int| occurs_at(s, needle, p)
}

/// Whether `s` begins with `prefix`.
pub open spec fn starts_with(s: Seq<char>, prefix: Seq<char>) -> bool {
    occurs_at(s, prefix, 0)
}

/// Whether `s` ends with `suffix`.
pub open spec fn ends_with(s: Seq<char>, suffix: Seq<char>) -> bool {
    occurs_at(s, suffix, s.len() - suffix.len())
}

/// `find_from` gives the earliest occurrence from `from` on, and gives none
/// only where there is none.
pub proof fn lemma_find_from(s: Seq<char>, needle: Seq<char>, from: int)
    requires
        0 <= from,
    ensures
        match find_from(s, needle, from) {
            Some(p) => from <= p && occurs_at(s, needle, p) && forall|q: int|
                from <= q < p ==> !occurs_at(s, needle, q),
            None => forall|q: int| from <= q ==> !occurs_at(s, needle, q),
        },
    decreases s.len() - from + 1,
{
    if from + needle.len() <= s.len() && !occurs_at(s, needle, from) {
        lemma_find_from(s, needle, from + 1);
    }
}

/// `find_last` gives the latest occurrence, and gives none only where there is none.
pub proof fn lemma_find_last(s: Seq<char>, needle: Seq<char>)
    ensures
        match find_last(s, needle) {
            Some(p) => occurs_at(s, needle, p) && forall|q: int| p < q ==> !occurs_at(s, needle, q),
            None => !contains_text(s, needle),
        },
{
    lemma_find_back(s, needle, s.len() - needle.len());
}

proof fn lemma_find_back(s: Seq<char>, needle: Seq<char>, upto: int)
    ensures
        match find_back(s, needle, upto) {
            Some(p) => p <= upto && occurs_at(s, needle, p) && forall|q: int|
                p < q <= upto ==> !occurs_at(s, needle, q),
            None => forall|q: int| q <= upto ==> !occurs_at(s, needle, q),
        },
    decreases upto + 1,
{
    if upto >= 0 && !occurs_at(s, needle, upto) {
        lemma_find_back(s, needle, upto - 1);
    }
}

/// Tests whether `needle` stands in `s` at position `p`.
pub fn occurs(s: &[char], needle: &[char], p: usize) -> (b: bool)
    ensures
        b == occurs_at(s@, needle@, p as int),
{
    if p > s.len() || needle.len() > s.len() - p {
        return false;
    }
    let mut j: usize = 0;
    while j < needle.len()
        invariant
            p + needle.len() <= s.len(),
            j <= needle.len(),
            forall|k: int| 0 <= k < j ==> s@[p + k] == needle@[k],
        decreases needle.len() - j,
    {
        if s[p + j] != needle[j] {
            proof {
                assert(s@.subrange(p as int, p + needle.len())[j as int] == s@[p + j]);
            }
            return false;
        }
        j += 1;
    }
    proof {
        assert(s@.subrange(p as int, p + needle.len()) =~= needle@);
    }
    true
}

/// Finds the first position at or after `from` where `needle` stands in `s`.
pub fn find(s: &[char], needle: &[char], from: usize) -> (r: Option<usize>)
    ensures
        match r {
            Some(p) => find_from(s@, needle@, from as int) == Some(p as int) && from <= p
                && p + needle@.len() <= s@.len(),
            None => find_from(s@, needle@, from as int) is None,
        },
{
    if from > s.len() || needle.len() > s.len() - from {
        return None;
    }
    let last: usize = s.len() - needle.len();
    let mut i: usize = from;
    loop
        invariant
            from <= i <= last,
            last == s.len() - needle.len(),
            find_from(s@, needle@, from as int) == find_from(s@, needle@, i as int),
        decreases last - i,
    {
        if occurs(s, needle, i) {
            return Some(i);
        }
        if i == last {
            assert(find_from(s@, needle@, i + 1) is None);
            return None;
        }
        i += 1;
    }
}

/// Finds the last position where `needle` stands in `s`.
pub fn rfind(s: &[char], needle: &[char]) -> (r: Option<usize>)
    ensures
        match r {
            Some(p) => find_last(s@, needle@) == Some(p as int) && p + needle@.len() <= s@.len(),
            None => find_last(s@, needle@) is None,
        },
{
    if needle.len() > s.len() {
        return None;
    }
    let mut i: usize = s.len() - needle.len();
    loop
        invariant
            i <= s.len() - needle.len(),
            find_last(s@, needle@) == find_back(s@, needle@, i as int),
        decreases i,
    {
        if occurs(s, needle, i) {
            return Some(i);
        }
        if i == 0 {
            assert(find_back(s@, needle@, -1) is None);
            return None;
        }
        i -= 1;
    }
}

/// Tests whether `needle` stands somewhere in `s`.
pub fn contains(s: &[char], needle: &[char]) -> (b: bool)
    ensures
        b == contains_text(s@, needle@),
{
    proof {
        lemma_find_from(s@, needle@, 0);
    }
    find(s, needle, 0).is_some()
}

/// The first line of `s`: what stands before the first line feed, without
/// a carriage return that ends it; all of `s` where it has no line feed.
pub open spec fn first_line(s: Seq<char>) -> Seq<char> {
    match index_of(s, '\n') {
        None => s,
        Some(k) => {
            let line = s.take(k);
            if line.len() > 0 && line.last() == '\r' {
                line.drop_last()
            } else {
                line
            }
        },
    }
}

/// Cuts `s` down to its first line.
pub fn first_line_of<'a>(s: &'a [char]) -> (r: &'a [char])
    ensures
        r@ == first_line(s@),
{
    match position(s, '\n') {
        None => s,
        Some(k) => {
            proof {
                lemma_index_of(s@, '\n');
            }
            if k > 0 && s[k - 1] == '\r' {
                assert(s@.take(k as int).drop_last() == s@.subrange(0, k - 1));
                slice_subrange(s, 0, k - 1)
            } else {
                assert(s@.take(k as int) == s@.subrange(0, k as int));
                slice_subrange(s, 0, k)
            }
        },
    }
}

/// How often `c` occurs in `s`.
pub open spec fn count(s: Seq<char>, c: char) -> nat
    decreases s.len(),
{
    if s.len() == 0 {
        0
    } else {
        count(s.drop_last(), c) + if s.last() == c {
            1nat
        } else {
            0nat
        }
    }
}

/// Counts the occurrences of `c` in `s`.
pub fn count_of(s: &[char], c: char) -> (n: usize)
    ensures
        n == count(s@, c),
{
    let mut n: usize = 0;
    let mut i: usize = 0;
    assert(s@.take(0) == Seq::<char>::empty());
    while i < s.len()
        invariant
            i <= s.len(),
            n <= i,
            n == count(s@.take(i as int), c),
        decreases s.len() - i,
    {
        proof {
            assert(s@.take(i + 1).drop_last() == s@.take(i as int));
        }
        if s[i] == c {
            n += 1;
        }
        i += 1;
    }
    assert(s@.take(i as int) == s@);
    n
}

/// The number of bytes that `c` takes in UTF-8.
pub open spec fn char_width(c: char) -> nat {
    encode_scalar(c as u32).len()
}

/// The number of bytes that `s` takes in UTF-8: the length that std reports
/// for a string of these characters.
pub open spec fn byte_len(s: Seq<char>) -> nat {
    encode_utf8(s).len()
}

/// A character takes one to four bytes.
pub proof fn lemma_char_width(c: char)
    ensures
        1 <= char_width(c) <= 4,
        c as u32 <= 0x7F ==> char_width(c) == 1,
{
    char_is_scalar(c);
}

/// The encoding of a concatenation is the concatenation of the encodings.
pub proof fn lemma_encode_concat(a: Seq<char>, b: Seq<char>)
    ensures
        encode_utf8(a + b) == encode_utf8(a) + encode_utf8(b),
        byte_len(a + b) == byte_len(a) + byte_len(b),
    decreases a.len(),
{
    if a.len() == 0 {
        assert(a + b == b);
        assert(encode_utf8(a) + encode_utf8(b) == encode_utf8(b));
    } else {
        assert((a + b).drop_first() == a.drop_first() + b);
        lemma_encode_concat(a.drop_first(), b);
        assert(encode_utf8(a + b) == encode_scalar(a[0] as u32) + encode_utf8(
            a.drop_first() + b,
        ));
        assert(encode_utf8(a + b) =~= encode_utf8(a) + encode_utf8(b));
    }
}

/// One more character adds its width to the byte length.
pub proof fn lemma_byte_len_push(s: Seq<char>, c: char)
    ensures
        byte_len(s.push(c)) == byte_len(s) + char_width(c),
{
    let one = seq![c];
    assert(s.push(c) == s + one);
    lemma_encode_concat(s, one);
    assert(one.drop_first() == Seq::<char>::empty());
    assert(encode_utf8(one.drop_first()) =~= Seq::<u8>::empty());
    assert(encode_utf8(one) =~= encode_scalar(c as u32));
}

/// A head of a text takes no more bytes than the text.
pub proof fn lemma_byte_len_take(s: Seq<char>, k: int)
    requires
        0 <= k <= s.len(),
    ensures
        byte_len(s.take(k)) <= byte_len(s),
{
    assert(s == s.take(k) + s.skip(k));
    lemma_encode_concat(s.take(k), s.skip(k));
}

/// A text takes at least one byte and at most four for each character.
pub proof fn lemma_byte_len_bounds(s: Seq<char>)
    ensures
        s.len() <= byte_len(s) <= 4 * s.len(),
    decreases s.len(),
{
    if s.len() > 0 {
        lemma_byte_len_bounds(s.drop_last());
        assert(s == s.drop_last().push(s.last()));
        lemma_byte_len_push(s.drop_last(), s.last());
        lemma_char_width(s.last());
    }
}

/// The number of bytes that `c` takes in UTF-8.
pub fn width_of(c: char) -> (w: usize)
    ensures
        w == char_width(c),
        1 <= w <= 4,
{
    proof {
        char_is_scalar(c);
    }
    let v: u32 = c as u32;
    if v < 0x80 {
        1
    } else if v < 0x800 {
        2
    } else if v < 0x10000 {
        3
    } else {
        4
    }
}

/// The number of bytes that `s` takes in UTF-8.
pub fn encoded_len(s: &[char]) -> (n: u128)
    ensures
        n == byte_len(s@),
{
    let mut n: u128 = 0;
    let mut i: usize = 0;
    assert(s@.take(0) == Seq::<char>::empty());
    while i < s.len()
        invariant
            i <= s.len(),
            n == byte_len(s@.take(i as int)),
            n <= 4 * i,
        decreases s.len() - i,
    {
        proof {
            assert(s@.take(i + 1) == s@.take(i as int).push(s@[i as int]));
            lemma_byte_len_push(s@.take(i as int), s@[i as int]);
        }
        let w: usize = width_of(s[i]);
        n = n + w as u128;
        i += 1;
    }
    assert(s@.take(i as int) == s@);
    n
}

/// The byte offset of every character position of `s`, and of its end.
pub fn byte_offsets(s: &[char]) -> (table: Vec<usize>)
    requires
        byte_len(s@) <= usize::MAX,
    ensures
        table@.len() == s@.len() + 1,
        forall|i: int| 0 <= i <= s@.len() ==> #[trigger] table@[i] == byte_len(s@.take(i)),
{
    let mut table: Vec<usize> = Vec::new();
    let mut at: usize = 0;
    let mut i: usize = 0;
    assert(s@.take(0) == Seq::<char>::empty());
    table.push(at);
    while i < s.len()
        invariant
            i <= s.len(),
            byte_len(s@) <= usize::MAX,
            at == byte_len(s@.take(i as int)),
            table@.len() == i + 1,
            forall|j: int| 0 <= j <= i ==> #[trigger] table@[j] == byte_len(s@.take(j)),
        decreases s.len() - i,
    {
        proof {
            assert(s@.take(i + 1) == s@.take(i as int).push(s@[i as int]));
            lemma_byte_len_push(s@.take(i as int), s@[i as int]);
            lemma_byte_len_take(s@, i + 1);
        }
        at = at + width_of(s[i]);
        table.push(at);
        i += 1;
    }
    table
}

/// The characters of a string.
pub fn to_chars(s: &str) -> (v: Vec<char>)
    ensures
        v@ == s@,
{
    broadcast use vstd::string::group_string_axioms;

    let mut v: Vec<char> = Vec::new();
    for c in it: s.chars()
        invariant
            it.seq() == s@,
            v@ == it.seq().take(it.index()),
    {
        v.push(c);
    }
    v
}

/// `String::push` of std appends one character. Not proved.
pub assume_specification[ String::push ](s: &mut String, c: char)
    ensures
        final(s)@ == old(s)@.push(c),
;

/// The string made of the given characters.
pub fn to_text(s: &[char]) -> (t: String)
    ensures
        t@ == s@,
{
    let mut t = String::new();
    let mut i: usize = 0;
    while i < s.len()
        invariant
            i <= s.len(),
            t@ == s@.take(i as int),
        decreases s.len() - i,
    {
        t.push(s[i]);
        proof {
            assert(s@.take(i + 1) == s@.take(i as int).push(s@[i as int]));
        }
        i += 1;
    }
    assert(s@.take(i as int) == s@);
    t
}

/// `line` without a carriage return at its end.
pub open spec fn chomp(line: Seq<char>) -> Seq<char> {
    if line.len() > 0 && line.last() == '\r' {
        line.drop_last()
    } else {
        line
    }
}

/// The lines of a text. A line ends with a line feed, or with a carriage
/// return and a line feed; neither belongs to the line. What follows the
/// last line feed is a line too, unless it is empty.
pub open spec fn lines_of(text: Seq<char>) -> Seq<Seq<char>>
    decreases text.len(),
{
    if text.len() == 0 {
        Seq::empty()
    } else {
        match index_of(text, '\n') {
            None => seq![text],
            Some(k) => {
                proof {
                    lemma_index_of(text, '\n');
                }
                seq![chomp(text.take(k))] + lines_of(text.skip(k + 1))
            },
        }
    }
}

/// Splits a text into its lines.
pub fn split_lines(text: &[char]) -> (lines: Vec<String>)
    ensures
        views(lines@) == lines_of(text@),
{
    let mut lines: Vec<String> = Vec::new();
    let mut rest = text;
    proof {
        assert(views(lines@) =~= Seq::<Seq<char>>::empty());
        assert(views(lines@) + lines_of(rest@) =~= lines_of(text@));
    }
    loop
        invariant
            lines_of(text@) == views(lines@) + lines_of(rest@),
        decreases rest@.len(),
    {
        let ghost done = views(lines@);
        if rest.len() == 0 {
            proof {
                assert(done + Seq::<Seq<char>>::empty() =~= done);
            }
            return lines;
        }
        match position(rest, '\n') {
            None => {
                lines.push(to_text(rest));
                proof {
                    assert(views(lines@) =~= done + seq![rest@]);
                }
                return lines;
            },
            Some(k) => {
                let line = if k > 0 && rest[k - 1] == '\r' {
                    assert(rest@.take(k as int).drop_last() == rest@.subrange(0, k - 1));
                    slice_subrange(rest, 0, k - 1)
                } else {
                    assert(rest@.take(k as int) == rest@.subrange(0, k as int));
                    slice_subrange(rest, 0, k)
                };
                lines.push(to_text(line));
                let end = rest.len();
                let tail = slice_subrange(rest, k + 1, end);
                proof {
                    assert(views(lines@) =~= done.push(line@));
                    assert(done + (seq![line@] + lines_of(tail@)) =~= done.push(line@) + lines_of(
                        tail@,
                    ));
                }
                rest = tail;
            },
        }
    }
}

/// The decimal digit for `d`.
pub open spec fn digit(d: nat) -> char {
    if d == 0 {
        '0'
    } else if d == 1 {
        '1'
    } else if d == 2 {
        '2'
    } else if d == 3 {
        '3'
    } else if d == 4 {
        '4'
    } else if d == 5 {
        '5'
    } else if d == 6 {
        '6'
    } else if d == 7 {
        '7'
    } else if d == 8 {
        '8'
    } else {
        '9'
    }
}

/// The number in decimal, without leading zeros.
pub open spec fn decimal(n: nat) -> Seq<char>
    decreases n,
{
    if n < 10 {
        seq![digit(n)]
    } else {
        decimal(n / 10).push(digit(n % 10))
    }
}

fn digit_of(d: usize) -> (c: char)
    requires
        d < 10,
    ensures
        c == digit(d as nat),
{
    if d == 0 {
        '0'
    } else if d == 1 {
        '1'
    } else if d == 2 {
        '2'
    } else if d == 3 {
        '3'
    } else if d == 4 {
        '4'
    } else if d == 5 {
        '5'
    } else if d == 6 {
        '6'
    } else if d == 7 {
        '7'
    } else if d == 8 {
        '8'
    } else {
        '9'
    }
}

/// Appends the number in decimal.
pub fn push_decimal(out: &mut String, n: usize)
    ensures
        final(out)@ == old(out)@ + decimal(n as nat),
    decreases n,
{
    if n >= 10 {
        push_decimal(out, n / 10);
    }
    out.push(digit_of(n % 10));
    proof {
        assert(out@ =~= old(out)@ + decimal(n as nat));
    }
}

} // verus!
