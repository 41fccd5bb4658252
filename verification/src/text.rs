//! Character-level helpers: whitespace, words, the token under a cursor,
//! and the arithmetic between UTF-8 byte offsets and character columns.

use vstd::prelude::*;

verus! {

/// The characters that carry the Unicode `White_Space` property.
pub open spec fn is_space(c: char) -> bool {
    let u = c as u32;
    ||| 0x09 <= u <= 0x0D
    ||| u == 0x20
    ||| u == 0x85
    ||| u == 0xA0
    ||| u == 0x1680
    ||| 0x2000 <= u <= 0x200A
    ||| u == 0x2028
    ||| u == 0x2029
    ||| u == 0x202F
    ||| u == 0x205F
    ||| u == 0x3000
}

/// Tests whether `c` is a whitespace character.
pub fn is_whitespace(c: char) -> (b: bool)
    ensures
        b == is_space(c),
{
    let u: u32 = c as u32;
    (0x09 <= u && u <= 0x0D) || u == 0x20 || u == 0x85 || u == 0xA0 || u == 0x1680 || (0x2000 <= u
        && u <= 0x200A) || u == 0x2028 || u == 0x2029 || u == 0x202F || u == 0x205F || u == 0x3000
}

/// The characters of `s`, in order.
pub fn chars_of(s: &str) -> (v: Vec<char>)
    ensures
        v@ == s@,
{
    let mut v: Vec<char> = Vec::new();
    for c in it: s.chars()
        invariant
            it.seq() == s@,
            v@ == it.seq().take(it.index() as int),
    {
        v.push(c);
    }
    v
}

/// A list of strings, such as the lines of a document, as plain values.
pub open spec fn strings_view(strings: Seq<String>) -> Seq<Seq<char>> {
    strings.map_values(|s: String| s@)
}

/// The index of the first character at or after `from` that is not
/// whitespace; the length of `s` if only whitespace is left.
pub open spec fn word_start(s: Seq<char>, from: int) -> int
    decreases s.len() - from,
{
    if 0 <= from < s.len() && is_space(s[from]) {
        word_start(s, from + 1)
    } else {
        from
    }
}

/// The index of the first whitespace character at or after `from`; the
/// length of `s` if there is none.
pub open spec fn word_end(s: Seq<char>, from: int) -> int
    decreases s.len() - from,
{
    if 0 <= from < s.len() && !is_space(s[from]) {
        word_end(s, from + 1)
    } else {
        from
    }
}

/// The first word of `s` at or after `from`: the longest run of characters
/// that are not whitespace, after any leading whitespace. Empty when
/// nothing but whitespace is left.
pub open spec fn word_at(s: Seq<char>, from: int) -> Seq<char> {
    s.subrange(word_start(s, from), word_end(s, word_start(s, from)))
}

/// `word_start` stays within the text and skips nothing but whitespace.
pub proof fn lemma_word_start(s: Seq<char>, from: int)
    requires
        0 <= from <= s.len(),
    ensures
        from <= word_start(s, from) <= s.len(),
        forall|k: int| from <= k < word_start(s, from) ==> is_space(#[trigger] s[k]),
        word_start(s, from) < s.len() ==> !is_space(s[word_start(s, from)]),
    decreases s.len() - from,
{
    if from < s.len() && is_space(s[from]) {
        lemma_word_start(s, from + 1);
    }
}

/// `word_end` stays within the text and skips no whitespace.
pub proof fn lemma_word_end(s: Seq<char>, from: int)
    requires
        0 <= from <= s.len(),
    ensures
        from <= word_end(s, from) <= s.len(),
        forall|k: int| from <= k < word_end(s, from) ==> !is_space(#[trigger] s[k]),
        word_end(s, from) < s.len() ==> is_space(s[word_end(s, from)]),
    decreases s.len() - from,
{
    if from < s.len() && !is_space(s[from]) {
        lemma_word_end(s, from + 1);
    }
}

/// Skips whitespace from `from` on.
pub fn skip_spaces(chars: &Vec<char>, from: usize) -> (at: usize)
    ensures
        at == word_start(chars@, from as int),
        from <= at,
        from <= chars@.len() ==> at <= chars@.len(),
{
    let mut i: usize = from;
    while i < chars.len() && is_whitespace(chars[i])
        invariant
            from <= i,
            from <= chars@.len() ==> i <= chars@.len(),
            word_start(chars@, from as int) == word_start(chars@, i as int),
        decreases chars@.len() - i,
    {
        i += 1;
    }
    i
}

/// Skips everything but whitespace from `from` on.
pub fn skip_word(chars: &Vec<char>, from: usize) -> (at: usize)
    ensures
        at == word_end(chars@, from as int),
        from <= at,
        from <= chars@.len() ==> at <= chars@.len(),
{
    let mut i: usize = from;
    while i < chars.len() && !is_whitespace(chars[i])
        invariant
            from <= i,
            from <= chars@.len() ==> i <= chars@.len(),
            word_end(chars@, from as int) == word_end(chars@, i as int),
        decreases chars@.len() - i,
    {
        i += 1;
    }
    i
}

/// The index of the last whitespace character strictly before `column`;
/// `-1` if there is none.
pub open spec fn space_before(s: Seq<char>, column: int) -> int
    decreases column,
{
    if column <= 0 {
        -1
    } else if column - 1 < s.len() && is_space(s[column - 1]) {
        column - 1
    } else {
        space_before(s, column - 1)
    }
}

/// The index of the first whitespace character at or after `column`; the
/// length of `s` if there is none.
pub open spec fn space_from(s: Seq<char>, column: int) -> int
    decreases s.len() - column,
{
    if column < 0 || column >= s.len() {
        s.len() as int
    } else if is_space(s[column]) {
        column
    } else {
        space_from(s, column + 1)
    }
}

/// The columns `[start, end)` of the token under a cursor at `column`: it
/// reaches from just after the nearest whitespace before the cursor to the
/// nearest whitespace at or after it. `None` when the text has no
/// whitespace on one of the two sides.
pub open spec fn token_span(s: Seq<char>, column: int) -> Option<(int, int)> {
    if space_before(s, column) >= 0 && space_from(s, column) < s.len() {
        Some((space_before(s, column) + 1, space_from(s, column)))
    } else {
        None
    }
}

/// What `space_before` finds is whitespace, and nothing between it and the
/// cursor is.
pub proof fn lemma_space_before(s: Seq<char>, column: int)
    ensures
        -1 <= space_before(s, column) < s.len(),
        space_before(s, column) < column || column < 0,
        space_before(s, column) >= 0 ==> is_space(s[space_before(s, column)]),
        forall|k: int|
            space_before(s, column) < k < column && 0 <= k < s.len() ==> !is_space(
                #[trigger] s[k],
            ),
    decreases column,
{
    if column > 0 && !(column - 1 < s.len() && is_space(s[column - 1])) {
        lemma_space_before(s, column - 1);
    }
}

/// What `space_from` finds is whitespace, and nothing between the cursor
/// and it is.
pub proof fn lemma_space_from(s: Seq<char>, column: int)
    requires
        0 <= column,
    ensures
        space_from(s, column) <= s.len(),
        column <= s.len() ==> column <= space_from(s, column),
        space_from(s, column) < s.len() ==> is_space(s[space_from(s, column)]),
        forall|k: int| column <= k < space_from(s, column) ==> !is_space(#[trigger] s[k]),
    decreases s.len() - column,
{
    if column < s.len() && !is_space(s[column]) {
        lemma_space_from(s, column + 1);
    }
}

/// A token holds no whitespace, includes the cursor's column or ends at
/// it, and has whitespace on both sides.
pub proof fn lemma_token_span(s: Seq<char>, column: int)
    requires
        0 <= column,
        token_span(s, column) is Some,
    ensures
        ({
            let (start, end) = token_span(s, column)->0;
            &&& 0 < start <= column <= end < s.len()
            &&& is_space(s[start - 1])
            &&& is_space(s[end])
            &&& forall|k: int| start <= k < end ==> !is_space(#[trigger] s[k])
        }),
{
    lemma_space_before(s, column);
    lemma_space_from(s, column);
}

/// Finds the token under a cursor at `column`.
pub fn token_span_at(chars: &Vec<char>, column: usize) -> (span: Option<(usize, usize)>)
    ensures
        match span {
            Some((start, end)) => token_span(chars@, column as int) == Some(
                (start as int, end as int),
            ) && start <= end <= chars@.len(),
            None => token_span(chars@, column as int) is None,
        },
{
    let len: usize = chars.len();
    let mut left: usize = if column < len {
        column
    } else {
        len
    };
    proof {
        lemma_space_before_beyond(chars@, column as int);
    }
    let mut found: bool = false;
    while left > 0 && !found
        invariant
            left <= len,
            len == chars@.len(),
            left <= column,
            !found ==> space_before(chars@, column as int) == space_before(chars@, left as int),
            found ==> left < len && space_before(chars@, column as int) == left,
        decreases left + (if found { 0int } else { 1int }),
    {
        if is_whitespace(chars[left - 1]) {
            found = true;
        }
        left -= 1;
    }
    if !found {
        return None;
    }
    let mut right: usize = column;
    while right < len && !is_whitespace(chars[right])
        invariant
            column <= right,
            len == chars@.len(),
            left < len,
            space_before(chars@, column as int) == left,
            space_from(chars@, column as int) == space_from(chars@, right as int),
        decreases len - right,
    {
        right += 1;
    }
    if right >= len {
        return None;
    }
    proof {
        lemma_space_before(chars@, column as int);
    }
    Some((left + 1, right))
}

/// Columns past the end of the text hold no whitespace.
proof fn lemma_space_before_beyond(s: Seq<char>, column: int)
    requires
        0 <= column,
    ensures
        column >= s.len() ==> space_before(s, column) == space_before(s, s.len() as int),
    decreases column,
{
    if column > s.len() {
        lemma_space_before_beyond(s, column - 1);
    }
}

/// The number of bytes that `c` takes in UTF-8.
pub open spec fn utf8_width(c: char) -> int {
    let u = c as u32;
    if u < 0x80 {
        1
    } else if u < 0x800 {
        2
    } else if u < 0x10000 {
        3
    } else {
        4
    }
}

/// The byte offset at which column `column` of `s` begins when `s` is
/// encoded in UTF-8: the widths of the characters before it, added up.
pub open spec fn offset_of(s: Seq<char>, column: int) -> int
    decreases column,
{
    if column <= 0 {
        0
    } else {
        offset_of(s, column - 1) + utf8_width(s[column - 1])
    }
}

/// The column of `s` that begins at byte `offset`, if `offset` is on a
/// character boundary of the text (its end included).
pub open spec fn column_at(s: Seq<char>, offset: int) -> Option<int> {
    if exists|c: int| 0 <= c <= s.len() && offset_of(s, c) == offset {
        Some(choose|c: int| 0 <= c <= s.len() && offset_of(s, c) == offset)
    } else {
        None
    }
}

/// Later columns begin at later offsets.
pub proof fn lemma_offset_of_increases(s: Seq<char>, a: int, b: int)
    requires
        0 <= a < b,
    ensures
        offset_of(s, a) < offset_of(s, b),
    decreases b,
{
    if a < b - 1 {
        lemma_offset_of_increases(s, a, b - 1);
    }
}

/// The column that a byte offset falls on is unique.
pub proof fn lemma_column_at(s: Seq<char>, offset: int, column: int)
    requires
        0 <= column <= s.len(),
        offset_of(s, column) == offset,
    ensures
        column_at(s, offset) == Some(column),
{
    let c = choose|c: int| 0 <= c <= s.len() && offset_of(s, c) == offset;
    if c < column {
        lemma_offset_of_increases(s, c, column);
    }
    if column < c {
        lemma_offset_of_increases(s, column, c);
    }
}

/// The number of bytes that `c` takes in UTF-8.
pub fn width_of(c: char) -> (w: usize)
    ensures
        w == utf8_width(c),
{
    let u: u32 = c as u32;
    if u < 0x80 {
        1
    } else if u < 0x800 {
        2
    } else if u < 0x10000 {
        3
    } else {
        4
    }
}

/// Turns a byte offset into the UTF-8 encoding of `chars` into a character
/// column. `None` when the offset lies inside a character or past the end.
pub fn column_of_offset(chars: &Vec<char>, offset: usize) -> (column: Option<usize>)
    ensures
        match column {
            Some(c) => c <= chars@.len() && column_at(chars@, offset as int) == Some(c as int),
            None => column_at(chars@, offset as int) is None,
        },
{
    let mut i: usize = 0;
    let mut rest: usize = offset;
    while i < chars.len() && rest > 0
        invariant
            i <= chars@.len(),
            offset_of(chars@, i as int) + rest == offset,
        decreases chars@.len() - i,
    {
        let w: usize = width_of(chars[i]);
        if w > rest {
            proof {
                assert forall|c: int| 0 <= c <= chars@.len() implies offset_of(chars@, c)
                    != offset by {
                    if c <= i {
                        if c < i {
                            lemma_offset_of_increases(chars@, c, i as int);
                        }
                    } else {
                        if i + 1 < c {
                            lemma_offset_of_increases(chars@, i + 1, c);
                        }
                    }
                }
            }
            return None;
        }
        rest -= w;
        i += 1;
    }
    if rest == 0 {
        proof {
            lemma_column_at(chars@, offset as int, i as int);
        }
        Some(i)
    } else {
        proof {
            assert forall|c: int| 0 <= c <= chars@.len() implies offset_of(chars@, c)
                != offset by {
                if c < i {
                    lemma_offset_of_increases(chars@, c, i as int);
                }
            }
        }
        None
    }
}

} // verus!
