//! Mining patterns from the warning and error call sites of source files.

use vstd::prelude::*;
use vstd::slice::*;
use vstd::utf8::{is_ascii_chars, is_ascii_chars_encode_utf8};
use regex::Regex;
use crate::chars::{alphabetic, CharClass};
use crate::engine::{refusal_text, regex_compiles, regex_source};
use crate::text::{
    all_in, all_of, byte_len, byte_offsets, contains_text, count, count_of, encoded_len, find,
    find_from, first_line, first_line_of, index_of, lemma_find_from, lemma_index_of, occurs,
    occurs_at, position, skip_both, skip_trailing, starts_with, strip, strip_trailing, to_chars,
    to_text, views,
};

verus! {

/// What stands before the first double quote of `s`; nothing where `s` has none.
pub open spec fn before_quote(s: Seq<char>) -> Seq<char> {
    match index_of(s, '"') {
        Some(q) => s.take(q),
        None => Seq::empty(),
    }
}

/// The walk over the comma-separated fields of an argument region. `rest` is
/// what is left of `whole` to walk. After each comma, where only whitespace
/// stands between it and the next double quote, and that quote is closed by
/// another, the text between the two is the literal: its first line, without
/// trailing noise. Where no comma is left, where no double quote follows a
/// comma, and where the quote that follows is never closed, no field gives a
/// literal, and all of `whole` without the noise at its edges is taken.
pub open spec fn walk_fields(whole: Seq<char>, rest: Seq<char>) -> Seq<char>
    decreases rest.len(),
{
    match index_of(rest, ',') {
        None => strip(whole, CharClass::Noise),
        Some(c) => {
            let field = rest.skip(c + 1);
            match index_of(field, '"') {
                None => strip(whole, CharClass::Noise),
                Some(q) => {
                    if all_in(field.take(q), CharClass::Whitespace) {
                        let body = field.skip(q + 1);
                        match index_of(body, '"') {
                            Some(end) => strip_trailing(
                                first_line(body.take(end)),
                                CharClass::Noise,
                            ),
                            None => strip(whole, CharClass::Noise),
                        }
                    } else {
                        proof {
                            lemma_index_of(rest, ',');
                        }
                        walk_fields(whole, field)
                    }
                },
            }
        },
    }
}

/// The format literal of a call's argument region; empty where none is found.
///
/// The region is taken without the whitespace at its edges. Where it then
/// begins with a double quote, the literal is what stands up to the next
/// double quote, without the noise at its edges; it is empty where no
/// double quote follows. Otherwise the fields of the region are walked, see
/// [`walk_fields`].
pub open spec fn literal_of(region: Seq<char>) -> Seq<char> {
    let whole = strip(region, CharClass::Whitespace);
    if whole.len() > 0 && whole[0] == '"' {
        strip(before_quote(whole.skip(1)), CharClass::Noise)
    } else {
        walk_fields(whole, whole)
    }
}

/// Cuts `s` down to what stands before its first double quote.
fn until_quote<'a>(s: &'a [char]) -> (r: &'a [char])
    ensures
        r@ == before_quote(s@),
{
    match position(s, '"') {
        Some(q) => {
            proof {
                lemma_index_of(s@, '"');
            }
            slice_subrange(s, 0, q)
        },
        None => slice_subrange(s, 0, 0),
    }
}

/// Finds the format literal in the argument region of a call.
pub fn extract<'a>(region: &'a [char]) -> (r: &'a [char])
    ensures
        r@ == literal_of(region@),
{
    let whole = skip_both(region, CharClass::Whitespace);
    if whole.len() > 0 && whole[0] == '"' {
        let inner = until_quote(slice_subrange(whole, 1, whole.len()));
        return skip_both(inner, CharClass::Noise);
    }
    let mut rest = whole;
    loop
        invariant
            literal_of(region@) == walk_fields(whole@, rest@),
        decreases rest@.len(),
    {
        match position(rest, ',') {
            None => {
                return skip_both(whole, CharClass::Noise);
            },
            Some(c) => {
                proof {
                    lemma_index_of(rest@, ',');
                }
                let end = rest.len();
                let field = slice_subrange(rest, c + 1, end);
                match position(field, '"') {
                    None => {
                        return skip_both(whole, CharClass::Noise);
                    },
                    Some(q) => {
                        proof {
                            lemma_index_of(field@, '"');
                        }
                        if all_of(slice_subrange(field, 0, q), CharClass::Whitespace) {
                            let end = field.len();
                            let body = slice_subrange(field, q + 1, end);
                            return match position(body, '"') {
                                Some(close) => skip_trailing(
                                    first_line_of(slice_subrange(body, 0, close)),
                                    CharClass::Noise,
                                ),
                                None => skip_both(whole, CharClass::Noise),
                            };
                        }
                        rest = field;
                    },
                }
            },
        }
    }
}

/// Finds the format literal in the argument region of a log call: `None`
/// where the region holds none.
pub fn extract_log_line(line: &str) -> (r: Option<String>)
    ensures
        match r {
            Some(literal) => literal@ == literal_of(line@) && literal@.len() > 0,
            None => literal_of(line@).len() == 0,
        },
{
    let region = to_chars(line);
    let literal = extract(region.as_slice());
    if literal.len() == 0 {
        None
    } else {
        Some(to_text(literal))
    }
}

/// How many placeholders are open at the end of `s`: its opening braces less
/// its closing ones.
pub open spec fn depth(s: Seq<char>) -> int {
    count(s, '{') - count(s, '}')
}

/// `s` with the inside of every placeholder dropped: braces are kept, and so
/// is every other character that stands outside any open brace.
pub open spec fn collapse(s: Seq<char>) -> Seq<char>
    decreases s.len(),
{
    if s.len() == 0 {
        Seq::empty()
    } else {
        let head = s.drop_last();
        let c = s.last();
        if c == '{' || c == '}' || depth(head) <= 0 {
            collapse(head).push(c)
        } else {
            collapse(head)
        }
    }
}

/// The literal with every placeholder reduced to a pair of braces; one that
/// is left open at the end is closed.
pub open spec fn normalise(s: Seq<char>) -> Seq<char> {
    if depth(s) > 0 {
        collapse(s).push('}')
    } else {
        collapse(s)
    }
}

/// Whether a normalised literal is as long as its placeholders alone.
pub open spec fn only_placeholders(normal: Seq<char>) -> bool {
    byte_len(normal) == 2 * count(normal, '{')
}

/// The four characters that are escaped in a pattern.
pub open spec fn is_bracket(c: char) -> bool {
    c == '(' || c == ')' || c == '[' || c == ']'
}

/// The regular expression of a normalised literal: every `{}` becomes `.*`,
/// and a backslash is put before every round or square bracket.
pub open spec fn generalise(s: Seq<char>) -> Seq<char>
    decreases s.len(),
{
    if s.len() == 0 {
        Seq::empty()
    } else if s.len() >= 2 && s[0] == '{' && s[1] == '}' {
        seq!['.', '*'] + generalise(s.skip(2))
    } else if is_bracket(s[0]) {
        seq!['\\', s[0]] + generalise(s.skip(1))
    } else {
        seq![s[0]] + generalise(s.skip(1))
    }
}

/// Whether some character of `s` is alphabetic.
pub open spec fn has_alphabetic(s: Seq<char>) -> bool {
    exists|i: int| 0 <= i < s.len() && alphabetic(#[trigger] s[i])
}

/// The start by which one family of patterns is recognised.
pub open spec fn pov_prefix() -> Seq<char> {
    "PoV size"@
}

/// The pattern that stands for every pattern with that start.
pub open spec fn pov_pattern() -> Seq<char> {
    "PoV size .*"@
}

/// The pattern mined from the argument region of one call, if any.
///
/// None where no literal is found, where the normalised literal is as long
/// as its placeholders alone, where the regular expression holds no
/// alphabetic character, and where it is shorter than ten bytes. A pattern
/// that begins with `PoV size` is replaced by `PoV size .*`.
pub open spec fn pattern_of(region: Seq<char>) -> Option<Seq<char>> {
    let literal = literal_of(region);
    let normal = normalise(literal);
    let general = generalise(normal);
    if literal.len() == 0 || only_placeholders(normal) || !has_alphabetic(general) || byte_len(
        general,
    ) < 10 {
        None
    } else if starts_with(general, pov_prefix()) {
        Some(pov_pattern())
    } else {
        Some(general)
    }
}

/// Reduces every placeholder of a literal to a pair of braces.
pub fn normalise_braces(s: &[char]) -> (r: Vec<char>)
    ensures
        r@ == normalise(s@),
{
    let mut out: Vec<char> = Vec::new();
    let mut opens: usize = 0;
    let mut closes: usize = 0;
    let mut i: usize = 0;
    assert(s@.take(0) == Seq::<char>::empty());
    while i < s.len()
        invariant
            i <= s.len(),
            opens <= i,
            closes <= i,
            opens == count(s@.take(i as int), '{'),
            closes == count(s@.take(i as int), '}'),
            out@ == collapse(s@.take(i as int)),
        decreases s.len() - i,
    {
        let c = s[i];
        proof {
            assert(s@.take(i + 1).drop_last() == s@.take(i as int));
        }
        if c == '{' {
            out.push(c);
            opens += 1;
        } else if c == '}' {
            out.push(c);
            closes += 1;
        } else if opens <= closes {
            out.push(c);
        }
        i += 1;
    }
    assert(s@.take(i as int) == s@);
    if opens > closes {
        out.push('}');
    }
    out
}

/// Turns a normalised literal into a regular expression.
pub fn generalise_literal(s: &[char]) -> (r: Vec<char>)
    ensures
        r@ == generalise(s@),
{
    let mut out: Vec<char> = Vec::new();
    let mut i: usize = 0;
    assert(s@.skip(0) == s@);
    while i < s.len()
        invariant
            i <= s.len(),
            generalise(s@) == out@ + generalise(s@.skip(i as int)),
        decreases s.len() - i,
    {
        let c = s[i];
        let ghost before = out@;
        let ghost rest = s@.skip(i as int);
        if c == '{' && i + 1 < s.len() && s[i + 1] == '}' {
            out.push('.');
            out.push('*');
            proof {
                assert(rest[0] == '{' && rest[1] == '}');
                assert(rest.skip(2) == s@.skip(i + 2));
                assert(out@ == before + seq!['.', '*']);
            }
            i += 2;
        } else {
            if c == '(' || c == ')' || c == '[' || c == ']' {
                out.push('\\');
                out.push(c);
                proof {
                    assert(out@ == before + seq!['\\', c]);
                }
            } else {
                out.push(c);
                proof {
                    assert(out@ == before + seq![c]);
                }
            }
            proof {
                assert(rest[0] == c);
                assert(rest.len() >= 2 ==> rest[1] == s@[i + 1]);
                assert(rest.skip(1) == s@.skip(i + 1));
            }
            i += 1;
        }
    }
    assert(s@.skip(i as int) == Seq::<char>::empty());
    out
}

/// Tests whether some character is alphabetic.
pub fn any_alphabetic(s: &[char]) -> (b: bool)
    ensures
        b == has_alphabetic(s@),
{
    let mut i: usize = 0;
    while i < s.len()
        invariant
            i <= s.len(),
            forall|j: int| 0 <= j < i ==> !alphabetic(#[trigger] s@[j]),
        decreases s.len() - i,
    {
        if s[i].is_alphabetic() {
            return true;
        }
        i += 1;
    }
    false
}

/// Mines the pattern of one call from its argument region.
pub fn mine_region(region: &[char]) -> (r: Option<Vec<char>>)
    ensures
        match r {
            Some(pattern) => pattern_of(region@) == Some(pattern@),
            None => pattern_of(region@) is None,
        },
{
    let literal = extract(region);
    if literal.len() == 0 {
        return None;
    }
    let normal = normalise_braces(literal);
    let braces: usize = count_of(normal.as_slice(), '{');
    if encoded_len(normal.as_slice()) == 2 * (braces as u128) {
        return None;
    }
    let general = generalise_literal(normal.as_slice());
    if !any_alphabetic(general.as_slice()) {
        return None;
    }
    if encoded_len(general.as_slice()) < 10 {
        return None;
    }
    let prefix = to_chars("PoV size");
    if occurs(general.as_slice(), prefix.as_slice(), 0) {
        Some(to_chars("PoV size .*"))
    } else {
        Some(general)
    }
}

/// The log macros whose calls are mined.
#[derive(Clone, Copy, Debug)]
pub enum LogMacro {
    /// `error!`
    Error,
    /// `warn!`
    Warn,
    /// `warn_if_frequent!`
    WarnIfFrequent,
}

impl LogMacro {
    /// The text with which a call of the macro opens.
    pub open spec fn opening(self) -> Seq<char> {
        match self {
            LogMacro::Error => "error!("@,
            LogMacro::Warn => "warn!("@,
            LogMacro::WarnIfFrequent => "warn_if_frequent!("@,
        }
    }

    /// The severity tag of the macro: its name.
    pub open spec fn tag(self) -> Seq<char> {
        match self {
            LogMacro::Error => "error"@,
            LogMacro::Warn => "warn"@,
            LogMacro::WarnIfFrequent => "warn_if_frequent"@,
        }
    }

    /// The text with which a call of the macro opens.
    pub fn opening_text(self) -> (s: &'static str)
        ensures
            s@ == self.opening(),
    {
        match self {
            LogMacro::Error => "error!(",
            LogMacro::Warn => "warn!(",
            LogMacro::WarnIfFrequent => "warn_if_frequent!(",
        }
    }

    /// The severity tag of the macro.
    pub fn tag_text(self) -> (s: &'static str)
        ensures
            s@ == self.tag(),
    {
        match self {
            LogMacro::Error => "error",
            LogMacro::Warn => "warn",
            LogMacro::WarnIfFrequent => "warn_if_frequent",
        }
    }

    /// The severity tag is the opening without its last two characters, `!(`;
    /// and an opening is not empty and holds no closing bracket.
    pub proof fn lemma_opening(self)
        ensures
            self.opening() == self.tag() + "!("@,
            is_opening(self.opening()),
    {
        reveal_strlit("error!(");
        reveal_strlit("warn!(");
        reveal_strlit("warn_if_frequent!(");
        reveal_strlit("error");
        reveal_strlit("warn");
        reveal_strlit("warn_if_frequent");
        reveal_strlit("!(");
        assert(self.opening() =~= self.tag() + "!("@);
    }
}

/// Whether a call ends at `p`: a closing bracket stands there, followed by a
/// semicolon or a comma.
pub open spec fn closes_at(text: Seq<char>, p: int) -> bool {
    0 <= p && p + 2 <= text.len() && text[p] == ')' && (text[p + 1] == ';' || text[p + 1] == ',')
}

/// The first position at or after `from` where a call ends.
pub open spec fn closing_from(text: Seq<char>, from: int) -> Option<int>
    decreases text.len() - from + 1,
{
    if from < 0 || from + 2 > text.len() {
        None
    } else if closes_at(text, from) {
        Some(from)
    } else {
        closing_from(text, from + 1)
    }
}

/// `closing_from` gives the earliest end of a call from `from` on, and gives
/// none only where there is none.
pub proof fn lemma_closing_from(text: Seq<char>, from: int)
    requires
        0 <= from,
    ensures
        match closing_from(text, from) {
            Some(p) => from <= p && closes_at(text, p) && forall|q: int|
                from <= q < p ==> !closes_at(text, q),
            None => forall|q: int| from <= q ==> !closes_at(text, q),
        },
    decreases text.len() - from + 1,
{
    if from + 2 <= text.len() && !closes_at(text, from) {
        lemma_closing_from(text, from + 1);
    }
}

/// Finds the first position at or after `from` where a call ends.
pub fn find_closing(text: &[char], from: usize) -> (r: Option<usize>)
    ensures
        match r {
            Some(p) => closing_from(text@, from as int) == Some(p as int) && from <= p && p + 2
                <= text@.len(),
            None => closing_from(text@, from as int) is None,
        },
{
    let n = text.len();
    if n < 2 || from > n - 2 {
        return None;
    }
    let mut i: usize = from;
    loop
        invariant
            n == text@.len(),
            from <= i <= n - 2,
            closing_from(text@, from as int) == closing_from(text@, i as int),
        decreases n - i,
    {
        if text[i] == ')' && (text[i + 1] == ';' || text[i + 1] == ',') {
            return Some(i);
        }
        if i == n - 2 {
            assert(closing_from(text@, i + 1) is None);
            return None;
        }
        i += 1;
    }
}

/// What an opening must be for a scan to advance: not empty, and without a
/// closing bracket.
pub open spec fn is_opening(opening: Seq<char>) -> bool {
    opening.len() > 0 && forall|i: int| 0 <= i < opening.len() ==> opening[i] != ')'
}

/// The first call at or after `cursor`: where it opens and where it ends.
/// None where no further opening stands, and where the next one never ends.
pub open spec fn next_call(text: Seq<char>, opening: Seq<char>, cursor: int) -> Option<(int, int)> {
    match find_from(text, opening, cursor) {
        None => None,
        Some(start) => match closing_from(text, start) {
            None => None,
            Some(end) => Some((start, end)),
        },
    }
}

/// A call lies behind the cursor, and its end lies behind its opening.
pub proof fn lemma_next_call(text: Seq<char>, opening: Seq<char>, cursor: int)
    requires
        cursor >= 0,
        is_opening(opening),
    ensures
        match next_call(text, opening, cursor) {
            Some((start, end)) => cursor <= start && start + opening.len() <= end && end + 2
                <= text.len() && occurs_at(text, opening, start) && closes_at(text, end),
            None => true,
        },
{
    lemma_find_from(text, opening, cursor);
    match find_from(text, opening, cursor) {
        None => {},
        Some(start) => {
            lemma_closing_from(text, start);
            match closing_from(text, start) {
                None => {},
                Some(end) => {
                    if end < start + opening.len() {
                        assert(text.subrange(start, start + opening.len())[end - start]
                            == text[end]);
                    }
                },
            }
        },
    }
}

/// The calls of one macro from `cursor` on, each with the position where it
/// opens and the position where it ends. The scan goes on from the end of
/// each call, and stops at an opening that never ends.
pub open spec fn calls_from(text: Seq<char>, opening: Seq<char>, cursor: int) -> Seq<(int, int)>
    decreases text.len() - cursor,
    when cursor >= 0 && is_opening(opening)
    via calls_from_decreases
{
    match next_call(text, opening, cursor) {
        None => Seq::empty(),
        Some(call) => seq![call] + calls_from(text, opening, call.1),
    }
}

#[via_fn]
proof fn calls_from_decreases(text: Seq<char>, opening: Seq<char>, cursor: int) {
    lemma_next_call(text, opening, cursor);
}

/// The opening at which the scan from `cursor` stops because the call never
/// ends, if there is one.
pub open spec fn dangling_from(text: Seq<char>, opening: Seq<char>, cursor: int) -> Option<int>
    decreases text.len() - cursor,
    when cursor >= 0 && is_opening(opening)
    via dangling_from_decreases
{
    match find_from(text, opening, cursor) {
        None => None,
        Some(start) => match closing_from(text, start) {
            None => Some(start),
            Some(end) => dangling_from(text, opening, end),
        },
    }
}

#[via_fn]
proof fn dangling_from_decreases(text: Seq<char>, opening: Seq<char>, cursor: int) {
    lemma_next_call(text, opening, cursor);
}

/// Where a pattern was mined: the file, the byte offsets at which the call
/// opens and ends, and the severity tag of the macro.
pub struct Site {
    pub file: Seq<char>,
    pub start: int,
    pub end: int,
    pub ty: Seq<char>,
}

/// Where a pattern was mined.
#[derive(Debug, PartialEq, Eq, Hash)]
pub struct RegexDetails {
    /// The path of the source file.
    pub file: String,
    /// The byte offset in the file at which the call opens.
    pub start: usize,
    /// The byte offset in the file at which the call ends.
    pub end: usize,
    /// The severity tag: the name of the macro.
    pub ty: String,
}

impl View for RegexDetails {
    type V = Site;

    open spec fn view(&self) -> Site {
        Site { file: self.file@, start: self.start as int, end: self.end as int, ty: self.ty@ }
    }
}

impl Clone for RegexDetails {
    fn clone(&self) -> (copy: Self)
        ensures
            copy == *self,
    {
        RegexDetails {
            file: self.file.clone(),
            start: self.start,
            end: self.end,
            ty: self.ty.clone(),
        }
    }
}

impl RegexDetails {
    /// Tests whether two records say the same.
    pub fn same(&self, other: &RegexDetails) -> (b: bool)
        ensures
            b == (self@ == other@),
    {
        self.start == other.start && self.end == other.end && self.file == other.file && self.ty
            == other.ty
    }
}

/// A mined pattern and where it was mined.
pub struct Mined {
    pub pattern: Seq<char>,
    pub site: Site,
}

/// A mined pattern and where it was mined.
#[derive(Debug, PartialEq, Eq)]
pub struct MinedPattern {
    /// The regular expression.
    pub pattern: String,
    /// Where it was mined.
    pub details: RegexDetails,
}

impl View for MinedPattern {
    type V = Mined;

    open spec fn view(&self) -> Mined {
        Mined { pattern: self.pattern@, site: self.details@ }
    }
}

/// A call that opens and never ends.
pub struct Dangling {
    pub file: Seq<char>,
    pub ty: Seq<char>,
    pub start: int,
}

/// A call that opens and never ends: the scan of its file for its macro
/// stopped there.
#[derive(Debug, PartialEq, Eq)]
pub struct Malformed {
    /// The path of the source file.
    pub file: String,
    /// The severity tag of the macro.
    pub ty: String,
    /// The byte offset in the file at which the call opens.
    pub start: usize,
}

impl View for Malformed {
    type V = Dangling;

    open spec fn view(&self) -> Dangling {
        Dangling { file: self.file@, ty: self.ty@, start: self.start as int }
    }
}

/// What one call yields: the pattern of its argument region, which lies
/// between the opening and the end, with the place of the call.
pub open spec fn mined_at(file: Seq<char>, text: Seq<char>, kind: LogMacro, call: (int, int))
    -> Option<Mined> {
    match pattern_of(text.subrange(call.0 + kind.opening().len(), call.1)) {
        Some(pattern) => Some(
            Mined {
                pattern,
                site: Site {
                    file,
                    start: byte_len(text.take(call.0)) as int,
                    end: byte_len(text.take(call.1)) as int,
                    ty: kind.tag(),
                },
            },
        ),
        None => None,
    }
}

/// What the given calls yield, in their order.
pub open spec fn mined_of(
    file: Seq<char>,
    text: Seq<char>,
    kind: LogMacro,
    calls: Seq<(int, int)>,
) -> Seq<Mined>
    decreases calls.len(),
{
    if calls.len() == 0 {
        Seq::empty()
    } else {
        let before = mined_of(file, text, kind, calls.drop_last());
        match mined_at(file, text, kind, calls.last()) {
            Some(found) => before.push(found),
            None => before,
        }
    }
}

/// The patterns mined from the calls of one macro in one file.
pub open spec fn mined_by(file: Seq<char>, text: Seq<char>, kind: LogMacro) -> Seq<Mined> {
    mined_of(file, text, kind, calls_from(text, kind.opening(), 0))
}

/// The patterns mined from one file: those of `error!`, then those of
/// `warn!`, then those of `warn_if_frequent!`, each in the order of the calls.
pub open spec fn mined_in(file: Seq<char>, text: Seq<char>) -> Seq<Mined> {
    mined_by(file, text, LogMacro::Error) + mined_by(file, text, LogMacro::Warn) + mined_by(
        file,
        text,
        LogMacro::WarnIfFrequent,
    )
}

/// The patterns mined from the files, in the order of the files.
pub open spec fn mined(files: Seq<(Seq<char>, Seq<char>)>) -> Seq<Mined>
    decreases files.len(),
{
    if files.len() == 0 {
        Seq::empty()
    } else {
        mined(files.drop_last()) + mined_in(files.last().0, files.last().1)
    }
}

/// The call of one macro in one file that never ends, if the scan met one.
pub open spec fn dangling_by(file: Seq<char>, text: Seq<char>, kind: LogMacro) -> Seq<Dangling> {
    match dangling_from(text, kind.opening(), 0) {
        Some(start) => seq![
            Dangling { file, ty: kind.tag(), start: byte_len(text.take(start)) as int },
        ],
        None => Seq::empty(),
    }
}

/// The calls in one file that never end: at most one for each macro.
pub open spec fn dangling_in(file: Seq<char>, text: Seq<char>) -> Seq<Dangling> {
    dangling_by(file, text, LogMacro::Error) + dangling_by(file, text, LogMacro::Warn)
        + dangling_by(file, text, LogMacro::WarnIfFrequent)
}

/// The calls in the files that never end.
pub open spec fn dangling(files: Seq<(Seq<char>, Seq<char>)>) -> Seq<Dangling>
    decreases files.len(),
{
    if files.len() == 0 {
        Seq::empty()
    } else {
        dangling(files.drop_last()) + dangling_in(files.last().0, files.last().1)
    }
}

/// Scans one file for the calls of one macro.
fn scan(file: &str, text: &[char], offsets: &Vec<usize>, kind: LogMacro) -> (r: (
    Vec<MinedPattern>,
    Vec<Malformed>,
))
    requires
        offsets@.len() == text@.len() + 1,
        forall|i: int| 0 <= i <= text@.len() ==> #[trigger] offsets@[i] == byte_len(text@.take(i)),
    ensures
        views(r.0@) == mined_by(file@, text@, kind),
        views(r.1@) == dangling_by(file@, text@, kind),
{
    let opening = to_chars(kind.opening_text());
    let mut found: Vec<MinedPattern> = Vec::new();
    let mut malformed: Vec<Malformed> = Vec::new();
    let mut cursor: usize = 0;
    let ghost mut done: Seq<(int, int)> = Seq::empty();
    proof {
        kind.lemma_opening();
        assert(views(found@) =~= Seq::<Mined>::empty());
        assert(done + calls_from(text@, opening@, 0) =~= calls_from(text@, opening@, 0));
    }
    loop
        invariant
            opening@ == kind.opening(),
            is_opening(opening@),
            offsets@.len() == text@.len() + 1,
            forall|i: int|
                0 <= i <= text@.len() ==> #[trigger] offsets@[i] == byte_len(text@.take(i)),
            cursor <= text@.len(),
            calls_from(text@, opening@, 0) == done + calls_from(text@, opening@, cursor as int),
            dangling_from(text@, opening@, 0) == dangling_from(text@, opening@, cursor as int),
            views(found@) == mined_of(file@, text@, kind, done),
            malformed@.len() == 0,
        decreases text@.len() - cursor,
    {
        proof {
            lemma_next_call(text@, opening@, cursor as int);
        }
        let start = match find(text, opening.as_slice(), cursor) {
            Some(start) => start,
            None => {
                proof {
                    assert(done + Seq::<(int, int)>::empty() =~= done);
                    assert(views(malformed@) =~= Seq::<Dangling>::empty());
                }
                return (found, malformed);
            },
        };
        let end = match find_closing(text, start) {
            Some(end) => end,
            None => {
                malformed.push(
                    Malformed {
                        file: file.to_owned(),
                        ty: kind.tag_text().to_owned(),
                        start: offsets[start],
                    },
                );
                proof {
                    assert(done + Seq::<(int, int)>::empty() =~= done);
                    assert(views(malformed@) =~= dangling_by(file@, text@, kind));
                }
                return (found, malformed);
            },
        };
        let region = slice_subrange(text, start + opening.len(), end);
        match mine_region(region) {
            Some(pattern) => {
                found.push(
                    MinedPattern {
                        pattern: to_text(pattern.as_slice()),
                        details: RegexDetails {
                            file: file.to_owned(),
                            start: offsets[start],
                            end: offsets[end],
                            ty: kind.tag_text().to_owned(),
                        },
                    },
                );
            },
            None => {},
        }
        proof {
            let call = (start as int, end as int);
            let ghost before = done;
            done = done.push(call);
            assert(done.drop_last() == before);
            assert(before + (seq![call] + calls_from(text@, opening@, end as int)) =~= done
                + calls_from(text@, opening@, end as int));
            assert(views(found@) =~= mined_of(file@, text@, kind, done));
        }
        cursor = end;
    }
}

/// What mining found: the patterns, and the calls that never end.
pub struct MiningReport {
    /// The mined patterns, in scan order.
    pub patterns: Vec<MinedPattern>,
    /// The calls that never end, in scan order.
    pub malformed: Vec<Malformed>,
}

/// The files as the contracts see them: pairs of a path and a text.
pub open spec fn files_view(files: Seq<(String, String)>) -> Seq<(Seq<char>, Seq<char>)> {
    files.map_values(|file: (String, String)| (file.0@, file.1@))
}

/// Mines one source file.
pub fn mine_file(file: &str, content: &str) -> (report: MiningReport)
    ensures
        views(report.patterns@) == mined_in(file@, content@),
        views(report.malformed@) == dangling_in(file@, content@),
{
    let text = to_chars(content);
    let size = content.as_bytes().len();
    let offsets = byte_offsets(text.as_slice());
    let (mut patterns, mut malformed) = scan(file, text.as_slice(), &offsets, LogMacro::Error);
    let (mut warns, mut bad_warns) = scan(file, text.as_slice(), &offsets, LogMacro::Warn);
    let (mut frequent, mut bad_frequent) = scan(
        file,
        text.as_slice(),
        &offsets,
        LogMacro::WarnIfFrequent,
    );
    patterns.append(&mut warns);
    patterns.append(&mut frequent);
    malformed.append(&mut bad_warns);
    malformed.append(&mut bad_frequent);
    proof {
        assert(views(patterns@) =~= mined_in(file@, content@));
        assert(views(malformed@) =~= dangling_in(file@, content@));
    }
    MiningReport { patterns, malformed }
}

/// Mines the source files, in their order.
pub fn mine(data: &Vec<(String, String)>) -> (report: MiningReport)
    ensures
        views(report.patterns@) == mined(files_view(data@)),
        views(report.malformed@) == dangling(files_view(data@)),
{
    let mut patterns: Vec<MinedPattern> = Vec::new();
    let mut malformed: Vec<Malformed> = Vec::new();
    let mut i: usize = 0;
    proof {
        assert(files_view(data@).take(0) =~= Seq::empty());
        assert(views(patterns@) =~= Seq::<Mined>::empty());
        assert(views(malformed@) =~= Seq::<Dangling>::empty());
    }
    while i < data.len()
        invariant
            i <= data.len(),
            views(patterns@) == mined(files_view(data@).take(i as int)),
            views(malformed@) == dangling(files_view(data@).take(i as int)),
        decreases data.len() - i,
    {
        let mut one = mine_file(data[i].0.as_str(), data[i].1.as_str());
        let ghost before = patterns@;
        let ghost bad_before = malformed@;
        let ghost added = one.patterns@;
        let ghost bad_added = one.malformed@;
        patterns.append(&mut one.patterns);
        malformed.append(&mut one.malformed);
        proof {
            let files = files_view(data@);
            assert(files.take(i + 1).drop_last() =~= files.take(i as int));
            assert(files.take(i + 1).last() == (data@[i as int].0@, data@[i as int].1@));
            assert(views(patterns@) =~= views(before) + views(added));
            assert(views(malformed@) =~= views(bad_before) + views(bad_added));
        }
        i += 1;
    }
    proof {
        assert(files_view(data@).take(i as int) =~= files_view(data@));
    }
    MiningReport { patterns, malformed }
}

/// Whether the engine compiles every pattern.
pub open spec fn all_compile(patterns: Seq<Mined>) -> bool {
    forall|i: int| 0 <= i < patterns.len() ==> regex_compiles(#[trigger] patterns[i].pattern)
}

/// Whether `compiled` holds, in order, one expression for each pattern, made
/// from it and paired with the place where it was mined.
pub open spec fn compiled_from(compiled: Seq<(Regex, RegexDetails)>, patterns: Seq<Mined>) -> bool {
    &&& compiled.len() == patterns.len()
    &&& forall|i: int|
        0 <= i < compiled.len() ==> regex_source(&(#[trigger] compiled[i]).0)
            == patterns[i].pattern && compiled[i].1@ == patterns[i].site
}

/// A mined pattern that the engine refused.
#[derive(Debug)]
pub struct BuildError {
    /// The position of the pattern among the mined ones.
    pub index: usize,
    /// The pattern.
    pub pattern: String,
    /// Where it was mined.
    pub details: RegexDetails,
    /// What the engine said of it.
    pub reason: String,
}

impl BuildError {
    /// Whether the error names the first of the patterns that the engine
    /// does not compile.
    pub open spec fn names_first_refused(self, patterns: Seq<Mined>) -> bool {
        &&& self.index < patterns.len()
        &&& !regex_compiles(patterns[self.index as int].pattern)
        &&& forall|j: int| 0 <= j < self.index ==> regex_compiles(#[trigger] patterns[j].pattern)
        &&& self.pattern@ == patterns[self.index as int].pattern
        &&& self.details@ == patterns[self.index as int].site
    }
}

/// Compiles the mined patterns, in their order.
///
/// Gives the compiled expressions where the engine takes every pattern, and
/// else the first pattern that it refused.
pub fn compile_patterns(patterns: &Vec<MinedPattern>) -> (r: Result<
    Vec<(Regex, RegexDetails)>,
    BuildError,
>)
    ensures
        match r {
            Ok(compiled) => all_compile(views(patterns@)) && compiled_from(
                compiled@,
                views(patterns@),
            ),
            Err(error) => error.names_first_refused(views(patterns@)),
        },
{
    let mut compiled: Vec<(Regex, RegexDetails)> = Vec::new();
    let mut i: usize = 0;
    while i < patterns.len()
        invariant
            i <= patterns.len(),
            compiled_from(compiled@, views(patterns@).take(i as int)),
            forall|j: int| 0 <= j < i ==> regex_compiles(#[trigger] views(patterns@)[j].pattern),
        decreases patterns.len() - i,
    {
        let details = patterns[i].details.clone();
        match Regex::new(patterns[i].pattern.as_str()) {
            Ok(regex) => {
                compiled.push((regex, details));
            },
            Err(error) => {
                return Err(
                    BuildError {
                        index: i,
                        pattern: patterns[i].pattern.clone(),
                        details,
                        reason: refusal_text(&error),
                    },
                );
            },
        }
        i += 1;
    }
    proof {
        assert(views(patterns@).take(i as int) =~= views(patterns@));
    }
    Ok(compiled)
}

/// Whether a text has the shape of a mined pattern: it holds an alphabetic
/// character and is at least ten bytes long.
pub open spec fn is_pattern(pattern: Seq<char>) -> bool {
    has_alphabetic(pattern) && byte_len(pattern) >= 10
}

/// Mines the source files and compiles the mined patterns.
///
/// `data` holds one pair of a path and a text for each file. The result
/// holds one compiled expression for each mined pattern, in scan order, with
/// the place where it was mined. Where the engine refuses a pattern, the
/// first such pattern is returned as the error.
pub fn build_regexes(data: Vec<(String, String)>) -> (r: Result<
    Vec<(Regex, RegexDetails)>,
    BuildError,
>)
    ensures
        match r {
            Ok(compiled) => {
                &&& all_compile(mined(files_view(data@)))
                &&& compiled_from(compiled@, mined(files_view(data@)))
                &&& forall|i: int|
                    0 <= i < compiled@.len() ==> {
                        let source = regex_source(&(#[trigger] compiled@[i]).0);
                        regex_compiles(source) && is_pattern(source)
                    }
            },
            Err(error) => error.names_first_refused(mined(files_view(data@))),
        },
{
    let report = mine(&data);
    proof {
        lemma_mined_shape(files_view(data@));
    }
    compile_patterns(&report.patterns)
}

/// Every mined pattern holds an alphabetic character and is at least ten
/// bytes long.
pub proof fn lemma_pattern_shape(region: Seq<char>)
    ensures
        pattern_of(region) matches Some(pattern) ==> is_pattern(pattern),
{
    let pov = pov_pattern();
    reveal_strlit("PoV size .*");
    assert(is_ascii_chars(pov)) by {
        assert forall|i: int| 0 <= i < pov.len() implies '\0' <= #[trigger] pov[i] <= '\u{7f}' by {
        }
    }
    is_ascii_chars_encode_utf8(pov);
    assert(alphabetic(pov[0]));
}

/// Every pattern mined from the given calls has the shape of a pattern.
pub proof fn lemma_mined_of_shape(
    file: Seq<char>,
    text: Seq<char>,
    kind: LogMacro,
    calls: Seq<(int, int)>,
)
    ensures
        forall|i: int|
            0 <= i < mined_of(file, text, kind, calls).len() ==> is_pattern(
                #[trigger] mined_of(file, text, kind, calls)[i].pattern,
            ),
    decreases calls.len(),
{
    if calls.len() > 0 {
        lemma_mined_of_shape(file, text, kind, calls.drop_last());
        lemma_pattern_shape(
            text.subrange(calls.last().0 + kind.opening().len(), calls.last().1),
        );
        let all = mined_of(file, text, kind, calls);
        let before = mined_of(file, text, kind, calls.drop_last());
        assert forall|i: int| 0 <= i < all.len() implies is_pattern(#[trigger] all[i].pattern) by {
            if i < before.len() {
                assert(all[i] == before[i]);
            }
        }
    }
}

/// Every pattern mined from the files has the shape of a pattern.
pub proof fn lemma_mined_shape(files: Seq<(Seq<char>, Seq<char>)>)
    ensures
        forall|i: int|
            0 <= i < mined(files).len() ==> is_pattern(#[trigger] mined(files)[i].pattern),
    decreases files.len(),
{
    if files.len() > 0 {
        lemma_mined_shape(files.drop_last());
        let file = files.last().0;
        let text = files.last().1;
        lemma_mined_of_shape(
            file,
            text,
            LogMacro::Error,
            calls_from(text, LogMacro::Error.opening(), 0),
        );
        lemma_mined_of_shape(
            file,
            text,
            LogMacro::Warn,
            calls_from(text, LogMacro::Warn.opening(), 0),
        );
        lemma_mined_of_shape(
            file,
            text,
            LogMacro::WarnIfFrequent,
            calls_from(text, LogMacro::WarnIfFrequent.opening(), 0),
        );
        let all = mined(files);
        let before = mined(files.drop_last());
        let errors = mined_by(file, text, LogMacro::Error);
        let warns = mined_by(file, text, LogMacro::Warn);
        let frequent = mined_by(file, text, LogMacro::WarnIfFrequent);
        assert(all == before + (errors + warns + frequent));
        assert forall|i: int| 0 <= i < all.len() implies is_pattern(#[trigger] all[i].pattern) by {
            if i < before.len() {
                assert(all[i] == before[i]);
            } else if i < before.len() + errors.len() {
                assert(all[i] == errors[i - before.len()]);
            } else if i < before.len() + errors.len() + warns.len() {
                assert(all[i] == warns[i - before.len() - errors.len()]);
            } else {
                assert(all[i] == frequent[i - before.len() - errors.len() - warns.len()]);
            }
        }
    }
}

/// Turning a literal into a regular expression adds no alphabetic character.
pub proof fn lemma_generalise_adds_no_letter(s: Seq<char>)
    ensures
        has_alphabetic(generalise(s)) ==> has_alphabetic(s),
    decreases s.len(),
{
    if s.len() > 0 && has_alphabetic(generalise(s)) {
        let general = generalise(s);
        let i = choose|i: int| 0 <= i < general.len() && alphabetic(#[trigger] general[i]);
        if s.len() >= 2 && s[0] == '{' && s[1] == '}' {
            let rest = generalise(s.skip(2));
            assert(!alphabetic('.') && !alphabetic('*'));
            assert(i >= 2);
            assert(general[i] == rest[i - 2]);
            lemma_generalise_adds_no_letter(s.skip(2));
            let j = choose|j: int| 0 <= j < s.skip(2).len() && alphabetic(#[trigger] s.skip(2)[j]);
            assert(s[j + 2] == s.skip(2)[j]);
        } else {
            let rest = generalise(s.skip(1));
            let lead: int = if is_bracket(s[0]) {
                2
            } else {
                1
            };
            assert(!alphabetic('\\'));
            if i >= lead {
                assert(general[i] == rest[i - lead]);
                lemma_generalise_adds_no_letter(s.skip(1));
                let j = choose|j: int|
                    0 <= j < s.skip(1).len() && alphabetic(#[trigger] s.skip(1)[j]);
                assert(s[j + 1] == s.skip(1)[j]);
            } else {
                assert(alphabetic(s[0]));
            }
        }
    }
}

/// A literal that holds no alphabetic character outside its placeholders
/// gives no pattern.
pub proof fn lemma_placeholders_alone(region: Seq<char>)
    requires
        !has_alphabetic(normalise(literal_of(region))),
    ensures
        pattern_of(region) is None,
{
    lemma_generalise_adds_no_letter(normalise(literal_of(region)));
}

/// A pattern that begins with `PoV size` is `PoV size .*`, whatever followed
/// in the literal.
pub proof fn lemma_pov_override(region: Seq<char>)
    ensures
        pattern_of(region) matches Some(pattern) ==> (starts_with(pattern, pov_prefix())
            ==> pattern == pov_pattern()),
        pattern_of(region) is Some && starts_with(
            generalise(normalise(literal_of(region))),
            pov_prefix(),
        ) ==> pattern_of(region) == Some(pov_pattern()),
{
}

/// Among the literals that pass the other filters, those whose regular
/// expression is at least ten bytes long give a pattern, and no others.
pub proof fn lemma_length_threshold(region: Seq<char>)
    requires
        literal_of(region).len() > 0,
        !only_placeholders(normalise(literal_of(region))),
        has_alphabetic(generalise(normalise(literal_of(region)))),
    ensures
        pattern_of(region) is Some <==> byte_len(generalise(normalise(literal_of(region)))) >= 10,
{
}

/// In a text where no call ends, a macro that opens somewhere gives no
/// pattern and exactly one malformed call, at its first opening.
pub proof fn lemma_never_closed(file: Seq<char>, text: Seq<char>, kind: LogMacro)
    requires
        forall|q: int| !closes_at(text, q),
        contains_text(text, kind.opening()),
    ensures
        mined_by(file, text, kind) == Seq::<Mined>::empty(),
        dangling_by(file, text, kind).len() == 1,
        find_from(text, kind.opening(), 0) matches Some(start) && dangling_by(
            file,
            text,
            kind,
        )[0].start == byte_len(text.take(start)),
{
    kind.lemma_opening();
    lemma_find_from(text, kind.opening(), 0);
    let start = find_from(text, kind.opening(), 0).unwrap();
    lemma_closing_from(text, start);
}

/// Whether a text holds no brace.
pub open spec fn is_brace_free(s: Seq<char>) -> bool {
    forall|i: int| 0 <= i < s.len() ==> s[i] != '{' && s[i] != '}'
}

/// Whether a text holds neither a brace nor a bracket.
pub open spec fn is_plain(s: Seq<char>) -> bool {
    forall|i: int| 0 <= i < s.len() ==> s[i] != '{' && s[i] != '}' && !is_bracket(s[i])
}

/// Text without braces that follows outside any placeholder is kept as it is.
pub proof fn lemma_collapse_outside(before: Seq<char>, tail: Seq<char>)
    requires
        depth(before) <= 0,
        is_brace_free(tail),
    ensures
        collapse(before + tail) == collapse(before) + tail,
        depth(before + tail) == depth(before),
    decreases tail.len(),
{
    if tail.len() == 0 {
        assert(before + tail == before);
        assert(collapse(before) + tail == collapse(before));
    } else {
        let head = tail.drop_last();
        assert((before + tail).drop_last() == before + head);
        lemma_collapse_outside(before, head);
        assert(collapse(before + tail) == (collapse(before) + head).push(tail.last()));
        assert((collapse(before) + head).push(tail.last()) == collapse(before) + tail);
    }
}

/// Text without braces that follows inside a placeholder is dropped.
pub proof fn lemma_collapse_inside(before: Seq<char>, body: Seq<char>)
    requires
        depth(before) > 0,
        is_brace_free(body),
    ensures
        collapse(before + body) == collapse(before),
        depth(before + body) == depth(before),
    decreases body.len(),
{
    if body.len() == 0 {
        assert(before + body == before);
    } else {
        assert((before + body).drop_last() == before + body.drop_last());
        lemma_collapse_inside(before, body.drop_last());
    }
}

/// Every placeholder is reduced to a pair of braces: in a literal of plain
/// text around one placeholder, whatever stands between the braces is
/// dropped.
pub proof fn lemma_placeholder_reduces(left: Seq<char>, body: Seq<char>, right: Seq<char>)
    requires
        is_brace_free(left),
        is_brace_free(body),
        is_brace_free(right),
    ensures
        normalise(left + seq!['{'] + body + seq!['}'] + right) == left + seq!['{', '}'] + right,
{
    let none = Seq::<char>::empty();
    lemma_collapse_outside(none, left);
    assert(none + left == left);
    let opened = left + seq!['{'];
    assert(opened.drop_last() == left);
    assert(collapse(opened) == left.push('{'));
    assert(depth(opened) == 1);
    lemma_collapse_inside(opened, body);
    let closed = opened + body + seq!['}'];
    assert(closed.drop_last() == opened + body);
    assert(collapse(closed) == left.push('{').push('}'));
    assert(depth(closed) == 0);
    lemma_collapse_outside(closed, right);
    assert(left.push('{').push('}') + right == left + seq!['{', '}'] + right);
}

/// Plain text is its own regular expression.
pub proof fn lemma_generalise_plain(s: Seq<char>)
    requires
        is_plain(s),
    ensures
        generalise(s) == s,
    decreases s.len(),
{
    if s.len() > 0 {
        let rest = s.skip(1);
        assert forall|i: int| 0 <= i < rest.len() implies rest[i] != '{' && rest[i] != '}'
            && !is_bracket(rest[i]) by {
            assert(rest[i] == s[i + 1]);
        }
        lemma_generalise_plain(rest);
        assert(seq![s[0]] + rest == s);
    }
}

/// A pair of braces between plain texts becomes `.*`, and the texts stay.
pub proof fn lemma_generalise_pair(left: Seq<char>, right: Seq<char>)
    requires
        is_plain(left),
        is_plain(right),
    ensures
        generalise(left + seq!['{', '}'] + right) == left + seq!['.', '*'] + right,
    decreases left.len(),
{
    let whole = left + seq!['{', '}'] + right;
    if left.len() == 0 {
        assert(whole.skip(2) == right);
        lemma_generalise_plain(right);
        assert(whole[0] == '{' && whole[1] == '}');
        assert(seq!['.', '*'] + right == left + seq!['.', '*'] + right);
    } else {
        let rest = left.skip(1);
        assert forall|i: int| 0 <= i < rest.len() implies rest[i] != '{' && rest[i] != '}'
            && !is_bracket(rest[i]) by {
            assert(rest[i] == left[i + 1]);
        }
        lemma_generalise_pair(rest, right);
        assert(whole[0] == left[0]);
        assert(whole.skip(1) == rest + seq!['{', '}'] + right);
        assert(seq![left[0]] + (rest + seq!['.', '*'] + right) == left + seq!['.', '*']
            + right);
    }
}

/// A literal of plain text around one placeholder gives the two texts with
/// `.*` between them.
pub proof fn lemma_one_placeholder(left: Seq<char>, body: Seq<char>, right: Seq<char>)
    requires
        is_plain(left),
        is_brace_free(body),
        is_plain(right),
    ensures
        generalise(normalise(left + seq!['{'] + body + seq!['}'] + right)) == left + seq![
            '.',
            '*',
        ] + right,
{
    lemma_placeholder_reduces(left, body, right);
    lemma_generalise_pair(left, right);
}

} // verus!
