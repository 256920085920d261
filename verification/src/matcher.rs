use vstd::prelude::*;
use vstd::utf8::encode_scalar;
use vstd::utf8::encode_utf8;
use vstd::utf8::is_char_boundary;
use vstd::string::StringSliceAdditionalSpecFns;

verus! {

/// Bytes that may appear inside a word: ASCII letters, ASCII digits and `_`.
pub open spec fn spec_is_word_byte(b: u8) -> bool {
    ||| 0x30 <= b <= 0x39  // '0'..='9'
    ||| 0x41 <= b <= 0x5a  // 'A'..='Z'
    ||| 0x61 <= b <= 0x7a  // 'a'..='z'
    ||| b == 0x5f  // '_'
}

/// Whether `b` may appear inside a word (see [`spec_is_word_byte`]).
pub fn is_word_byte(b: u8) -> (r: bool)
    ensures
        r == spec_is_word_byte(b),
{
    (0x30 <= b && b <= 0x39) || (0x41 <= b && b <= 0x5a) || (0x61 <= b && b <= 0x7a) || b == 0x5f
}

/// The word bytes are exactly the UTF-8 bytes of the ASCII letters `a` to `z` and `A` to `Z`,
/// the ASCII digits `0` to `9` and the underscore; no other byte is one.
pub proof fn lemma_word_bytes_are_ascii_alphanumeric(b: u8)
    ensures
        spec_is_word_byte(b) <==> {
            ||| 'a' as u32 <= b as u32 <= 'z' as u32
            ||| 'A' as u32 <= b as u32 <= 'Z' as u32
            ||| '0' as u32 <= b as u32 <= '9' as u32
            ||| b as u32 == '_' as u32
        },
{
}


/// A place in a text document: a zero-based line and a zero-based column counted in
/// UTF-16 code units, as the Language Server Protocol counts them.
#[derive(Clone, Copy, Debug, PartialEq, Eq, Structural)]
pub struct Position {
    pub line: u32,
    pub character: u32,
}

/// A stretch of a text document from `start` (inclusive) to `end` (exclusive).
#[derive(Clone, Copy, Debug, PartialEq, Eq, Structural)]
pub struct Range {
    pub start: Position,
    pub end: Position,
}

impl View for Position {
    type V = (nat, nat);

    open spec fn view(&self) -> (nat, nat) {
        (self.line as nat, self.character as nat)
    }
}

/// Number of UTF-16 code units that encode `c`.
pub open spec fn utf16_len(c: char) -> nat {
    if (c as u32) < 0x10000 {
        1
    } else {
        2
    }
}

/// Number of bytes that encode `c` in UTF-8.
pub open spec fn utf8_len(c: char) -> nat {
    encode_scalar(c as u32).len()
}

/// A character takes two UTF-16 code units (a surrogate pair) exactly when it lies beyond
/// the Basic Multilingual Plane, at U+10000 or above, which is exactly when its UTF-8
/// encoding takes four bytes; every other character takes one code unit.
pub proof fn lemma_utf16_len_is_encoding_length(c: char)
    ensures
        utf16_len(c) == 1 <==> c as u32 <= 0xFFFF,
        utf16_len(c) == 2 <==> c as u32 > 0xFFFF,
        utf16_len(c) == 2 <==> utf8_len(c) == 4,
{
}

/// The line and column reached from `p` by reading `c`: a newline starts the next line,
/// any other character moves the column by its UTF-16 length.
pub open spec fn advance(p: (nat, nat), c: char) -> (nat, nat) {
    if c == '\n' {
        (p.0 + 1, 0)
    } else {
        (p.0, p.1 + utf16_len(c))
    }
}

/// The line and column at byte offset `b` of the UTF-8 encoding of `chars`, when reading
/// starts at `p`: every character whose encoding ends at or before `b` has been read.
pub open spec fn locate(p: (nat, nat), chars: Seq<char>, b: int) -> (nat, nat)
    decreases chars.len(),
{
    if chars.len() == 0 || b < utf8_len(chars[0]) {
        p
    } else {
        locate(advance(p, chars[0]), chars.drop_first(), b - utf8_len(chars[0]))
    }
}

/// The line and UTF-16 column of byte offset `b` in a document whose characters are `text`.
pub open spec fn position_at(text: Seq<char>, b: int) -> (nat, nat) {
    locate((0, 0), text, b)
}

/// `p` comes no later than `q` in a document: on an earlier line, or on the same line at
/// no later column.
pub open spec fn pos_le(p: (nat, nat), q: (nat, nat)) -> bool {
    p.0 < q.0 || (p.0 == q.0 && p.1 <= q.1)
}

proof fn lemma_locate_from(p: (nat, nat), chars: Seq<char>, b: int)
    ensures
        pos_le(p, locate(p, chars, b)),
    decreases chars.len(),
{
    if chars.len() > 0 && b >= utf8_len(chars[0]) {
        lemma_locate_from(advance(p, chars[0]), chars.drop_first(), b - utf8_len(chars[0]));
    }
}

proof fn lemma_locate_monotone(p: (nat, nat), chars: Seq<char>, a: int, b: int)
    requires
        a <= b,
    ensures
        pos_le(locate(p, chars, a), locate(p, chars, b)),
    decreases chars.len(),
{
    if chars.len() > 0 {
        let w = utf8_len(chars[0]);
        if a < w {
            lemma_locate_from(p, chars, b);
        } else {
            lemma_locate_monotone(advance(p, chars[0]), chars.drop_first(), a - w, b - w);
        }
    }
}

proof fn lemma_locate_strict(p: (nat, nat), chars: Seq<char>, a: int, b: int)
    requires
        0 <= a < b,
        is_char_boundary(encode_utf8(chars), a),
        is_char_boundary(encode_utf8(chars), b),
    ensures
        locate(p, chars, a) != locate(p, chars, b),
    decreases chars.len(),
{
    broadcast use vstd::utf8::encode_utf8_valid_utf8;

    let bytes = encode_utf8(chars);
    if chars.len() == 0 {
        assert(bytes.len() == 0);
    } else {
        let c = chars[0];
        let rest = chars.drop_first();
        let w = utf8_len(c);
        vstd::utf8::encode_utf8_first_scalar(chars);
        vstd::utf8::char_is_scalar(c);
        assert(vstd::utf8::pop_first_scalar(bytes) =~= encode_utf8(rest));
        assert(vstd::utf8::valid_utf8(bytes));
        assert(vstd::utf8::length_of_first_scalar(bytes) == w);
        assert(is_char_boundary(bytes, b) == is_char_boundary(vstd::utf8::pop_first_scalar(bytes), b - w));
        assert(b >= w && is_char_boundary(encode_utf8(rest), b - w));
        let q = advance(p, c);
        lemma_locate_from(q, rest, b - w);
        assert(w >= 1);
        if a == 0 {
            assert(locate(p, chars, a) == p);
        } else {
            assert(is_char_boundary(bytes, a) == is_char_boundary(vstd::utf8::pop_first_scalar(bytes), a - w));
            assert(a >= w && is_char_boundary(encode_utf8(rest), a - w));
            lemma_locate_strict(q, rest, a - w, b - w);
        }
    }
}

/// The UTF-8 encoding of two texts one after the other is as long as theirs together.
proof fn lemma_encoded_len_concat(a: Seq<char>, b: Seq<char>)
    ensures
        encode_utf8(a + b).len() == encode_utf8(a).len() + encode_utf8(b).len(),
    decreases a.len(),
{
    if a.len() > 0 {
        assert((a + b).drop_first() =~= a.drop_first() + b);
        lemma_encoded_len_concat(a.drop_first(), b);
    } else {
        assert(a + b =~= b);
    }
}

/// Reading `a` and then `b` from `p` reaches where reading `b` from the end of `a` does.
proof fn lemma_locate_concat(p: (nat, nat), a: Seq<char>, b: Seq<char>, x: int)
    requires
        x >= 0,
    ensures
        locate(p, a + b, encode_utf8(a).len() + x) == locate(
            locate(p, a, encode_utf8(a).len() as int),
            b,
            x,
        ),
    decreases a.len(),
{
    if a.len() > 0 {
        let c = a[0];
        assert((a + b)[0] == c);
        assert((a + b).drop_first() =~= a.drop_first() + b);
        assert(encode_utf8(a).len() == utf8_len(c) + encode_utf8(a.drop_first()).len());
        lemma_locate_concat(advance(p, c), a.drop_first(), b, x);
    } else {
        assert(a + b =~= b);
    }
}

/// Every document starts at line 0, column 0.
pub proof fn lemma_position_at_start(text: Seq<char>)
    ensures
        position_at(text, 0) == (0nat, 0nat),
{
}

/// Reading one more character at the end of a text: a newline moves to column 0 of the next
/// line; any other character stays on the line and moves the column on by the number of
/// UTF-16 code units that encode it.
pub proof fn lemma_position_after_char(text: Seq<char>, c: char)
    ensures
        ({
            let end = position_at(text, encode_utf8(text).len() as int);
            position_at(text.push(c), encode_utf8(text.push(c)).len() as int) == if c == '\n' {
                (end.0 + 1, 0nat)
            } else {
                (end.0, end.1 + utf16_len(c))
            }
        }),
{
    let one = seq![c];
    assert(text.push(c) =~= text + one);
    lemma_encoded_len_concat(text, one);
    assert(one.drop_first() =~= Seq::<char>::empty());
    assert(encode_utf8(one).len() == utf8_len(c)) by {
        assert(one[0] == c);
        assert(encode_utf8(one.drop_first()).len() == 0);
    }
    lemma_locate_concat((0, 0), text, one, utf8_len(c) as int);
    let end = position_at(text, encode_utf8(text).len() as int);
    assert(locate(end, one, utf8_len(c) as int) == locate(advance(end, c), one.drop_first(), 0));
}

/// Positions never go back as the byte offset grows, and two different character boundaries
/// of the text lie at two different positions.
pub proof fn lemma_positions_increase(text: Seq<char>, a: int, b: int)
    requires
        0 <= a <= b,
    ensures
        pos_le(position_at(text, a), position_at(text, b)),
        a < b && is_char_boundary(encode_utf8(text), a) && is_char_boundary(encode_utf8(text), b)
            ==> position_at(text, a) != position_at(text, b),
{
    lemma_locate_monotone((0, 0), text, a, b);
    if a < b && is_char_boundary(encode_utf8(text), a) && is_char_boundary(encode_utf8(text), b) {
        lemma_locate_strict((0, 0), text, a, b);
    }
}

/// UTF-8 length of `c`.
fn utf8_width(c: char) -> (w: usize)
    ensures
        w == utf8_len(c),
        1 <= w <= 4,
{
    proof {
        vstd::utf8::char_is_scalar(c);
    }
    let v = c as u32;
    if v < 0x80 {
        1
    } else if v < 0x800 {
        2
    } else if v < 0x10000 {
        3
    } else {
        4
    }
}

/// UTF-16 length of `c`.
fn utf16_width(c: char) -> (w: u32)
    ensures
        w == utf16_len(c),
{
    if (c as u32) < 0x10000 {
        1
    } else {
        2
    }
}

/// The position of every byte offset of `text`, from 0 to its length inclusive.
fn position_table(text: &str) -> (table: Vec<Position>)
    requires
        text.spec_bytes().len() <= u32::MAX,
    ensures
        table.len() == text.spec_bytes().len() + 1,
        forall|j: int| 0 <= j < table.len() ==> #[trigger] table[j]@ == position_at(text@, j),
{
    let mut table: Vec<Position> = Vec::new();
    let mut line: u32 = 0;
    let mut col: u32 = 0;
    let ghost total = encode_utf8(text@).len();
    let ghost mut off: int = 0;
    assert(text@.skip(0) =~= text@);
    for c in it: text.chars()
        invariant
            it.seq() == text@,
            total == text.spec_bytes().len(),
            total <= u32::MAX,
            table.len() == off,
            off + encode_utf8(text@.skip(it.index() as int)).len() == total,
            line + col <= off,
            forall|j: int| 0 <= j < off ==> #[trigger] table[j]@ == position_at(text@, j),
            forall|x: int|
                x >= 0 ==> position_at(text@, off + x) == #[trigger] locate(
                    (line as nat, col as nat),
                    text@.skip(it.index() as int),
                    x,
                ),
    {
        let ghost idx = it.index() as int;
        let ghost rest = text@.skip(idx);
        let ghost p = (line as nat, col as nat);
        let ghost off0 = off;
        assert(rest[0] == c);
        assert(rest.drop_first() =~= text@.skip(idx + 1));
        let w = utf8_width(c);
        assert(encode_utf8(rest).len() == w + encode_utf8(rest.drop_first()).len());
        let mut k: usize = 0;
        while k < w
            invariant
                0 <= k <= w,
                0 <= off0,
                w == utf8_len(c),
                rest.len() > 0,
                rest[0] == c,
                table.len() == off0 + k,
                forall|j: int| 0 <= j < off0 ==> #[trigger] table[j]@ == position_at(text@, j),
                forall|j: int| off0 <= j < off0 + k ==> #[trigger] table[j]@ == p,
                forall|x: int| x >= 0 ==> position_at(text@, off0 + x) == #[trigger] locate(p, rest, x),
                p == (line as nat, col as nat),
            decreases w - k,
        {
            let ghost before = table@;
            table.push(Position { line, character: col });
            assert(table@ == before.push(Position { line, character: col }));
            assert forall|j: int| off0 <= j < off0 + k + 1 implies #[trigger] table[j]@ == p by {
                if j < off0 + k {
                    assert(table[j] == before[j]);
                }
            }
            k = k + 1;
        }
        assert forall|j: int| 0 <= j < off0 + w implies #[trigger] table[j]@ == position_at(text@, j) by {
            if j >= off0 {
                assert(locate(p, rest, j - off0) == p);
            }
        }
        if c == '\n' {
            line = line + 1;
            col = 0;
        } else {
            col = col + utf16_width(c);
        }
        proof {
            off = off0 + w;
            assert forall|x: int| x >= 0 implies position_at(text@, off + x) == #[trigger] locate(
                (line as nat, col as nat),
                text@.skip(idx + 1),
                x,
            ) by {
                assert(locate(p, rest, w + x) == locate(advance(p, c), rest.drop_first(), x));
            }
        }
    }
    assert(text@.skip(text@.len() as int) =~= Seq::<char>::empty());
    assert(locate((line as nat, col as nat), Seq::<char>::empty(), 0) == (line as nat, col as nat));
    table.push(Position { line, character: col });
    table
}


/// Byte offset `b` starts a character of `text`, or is its end.
pub open spec fn is_boundary(text: Seq<char>, b: int) -> bool {
    0 <= b <= encode_utf8(text).len() && is_char_boundary(encode_utf8(text), b)
}

/// The target `t` is placed: it is a character boundary of `text`, and every target that is
/// not one lies after it. (Targets are placed in the order of their offsets; one that is not
/// a character boundary is never met, and stops every later one.)
pub open spec fn is_placed(text: Seq<char>, targets: Seq<usize>, t: int) -> bool {
    &&& is_boundary(text, t)
    &&& forall|j: int|
        0 <= j < targets.len() && !is_boundary(text, #[trigger] targets[j] as int) ==> t < targets[j]
}

/// The position of each byte offset in `targets`, read in `text`: the line, and the column
/// counted in UTF-16 code units. A target that is not placed (see [`is_placed`]) is left at
/// line 0, column 0.
pub fn offsets_to_positions(text: &str, targets: Vec<usize>) -> (result: Vec<Position>)
    requires
        text.spec_bytes().len() <= u32::MAX,
    ensures
        result.len() == targets.len(),
        forall|i: int|
            #![trigger result[i]]
            0 <= i < targets.len() ==> result[i]@ == if is_placed(text@, targets@, targets[i] as int) {
                position_at(text@, targets[i] as int)
            } else {
                (0, 0)
            },
{
    let table = position_table(text);
    let n = text.len();
    // The smallest target that is not a character boundary.
    let mut limit: Option<usize> = None;
    for i in 0..targets.len()
        invariant
            n == text.spec_bytes().len(),
            match limit {
                None => forall|j: int| 0 <= j < i ==> is_boundary(text@, #[trigger] targets[j] as int),
                Some(m) => {
                    &&& exists|j: int| 0 <= j < i && targets[j] == m && !is_boundary(text@, m as int)
                    &&& forall|j: int|
                        0 <= j < i && !is_boundary(text@, #[trigger] targets[j] as int) ==> m <= targets[j]
                },
            },
    {
        let t = targets[i];
        let boundary = t <= n && text.is_char_boundary(t);
        if !boundary {
            let smaller = match limit {
                Some(m) => m <= t,
                None => false,
            };
            if !smaller {
                limit = Some(t);
            }
        }
    }
    let mut result: Vec<Position> = Vec::new();
    for i in 0..targets.len()
        invariant
            n == text.spec_bytes().len(),
            table.len() == n + 1,
            forall|j: int| 0 <= j < table.len() ==> #[trigger] table[j]@ == position_at(text@, j),
            match limit {
                None => forall|j: int| 0 <= j < targets.len() ==> is_boundary(text@, #[trigger] targets[j] as int),
                Some(m) => {
                    &&& exists|j: int| 0 <= j < targets.len() && targets[j] == m && !is_boundary(text@, m as int)
                    &&& forall|j: int|
                        0 <= j < targets.len() && !is_boundary(text@, #[trigger] targets[j] as int) ==> m <= targets[j]
                },
            },
            result.len() == i,
            forall|j: int|
                #![trigger result[j]]
                0 <= j < i ==> result[j]@ == if is_placed(text@, targets@, targets[j] as int) {
                    position_at(text@, targets[j] as int)
                } else {
                    (0, 0)
                },
    {
        let t = targets[i];
        let boundary = t <= n && text.is_char_boundary(t);
        let before_limit = match limit {
            Some(m) => t < m,
            None => true,
        };
        let ghost prev = result@;
        if boundary && before_limit {
            assert(is_placed(text@, targets@, t as int));
            result.push(table[t]);
        } else {
            assert(!is_placed(text@, targets@, t as int)) by {
                if boundary {
                    let m = limit->0;
                    let j = choose|j: int| 0 <= j < targets.len() && targets[j] == m && !is_boundary(text@, m as int);
                    assert(!is_boundary(text@, targets[j] as int));
                }
            }
            result.push(Position { line: 0, character: 0 });
        }
        assert forall|j: int| #![trigger result[j]] 0 <= j < i implies result[j] == prev[j] by {}
    }
    result
}

/// `needle` occurs in `hay` starting at offset `s`.
pub open spec fn occurs_at(hay: Seq<u8>, needle: Seq<u8>, s: int) -> bool {
    &&& 0 <= s
    &&& s + needle.len() <= hay.len()
    &&& hay.subrange(s, s + needle.len()) == needle
}

/// The offset of the first occurrence of `needle` in `haystack`; `None` when `needle` is
/// empty or does not occur.
pub fn find_subslice(haystack: &[u8], needle: &[u8]) -> (r: Option<usize>)
    ensures
        match r {
            Some(i) => {
                &&& needle@.len() > 0
                &&& occurs_at(haystack@, needle@, i as int)
                &&& forall|j: int| 0 <= j < i ==> !occurs_at(haystack@, needle@, j)
            },
            None => needle@.len() == 0 || forall|j: int| !occurs_at(haystack@, needle@, j),
        },
{
    let n = needle.len();
    let h = haystack.len();
    if n == 0 || n > h {
        return None;
    }
    let mut i: usize = 0;
    while i <= h - n
        invariant
            n == needle@.len(),
            h == haystack@.len(),
            0 < n <= h,
            i <= h - n + 1,
            forall|j: int| 0 <= j < i ==> !occurs_at(haystack@, needle@, j),
        decreases h - n + 1 - i,
    {
        let mut k: usize = 0;
        while k < n && haystack[i + k] == needle[k]
            invariant
                n == needle@.len(),
                h == haystack@.len(),
                i + n <= h,
                k <= n,
                forall|m: int| 0 <= m < k ==> haystack@[i + m] == needle@[m],
            decreases n - k,
        {
            k = k + 1;
        }
        if k == n {
            assert(haystack@.subrange(i as int, i + n) =~= needle@);
            return Some(i);
        }
        assert(!occurs_at(haystack@, needle@, i as int)) by {
            if occurs_at(haystack@, needle@, i as int) {
                assert(haystack@.subrange(i as int, i + n)[k as int] == haystack@[i + k]);
            }
        }
        i = i + 1;
    }
    None
}

/// `word` occurs in `bytes` at offset `s` and is not part of a longer word: the bytes just
/// before and just after it, where there are any, are not word bytes.
pub open spec fn whole_word_at(bytes: Seq<u8>, word: Seq<u8>, s: int) -> bool {
    &&& word.len() > 0
    &&& occurs_at(bytes, word, s)
    &&& (s == 0 || !spec_is_word_byte(bytes[s - 1]))
    &&& (s + word.len() == bytes.len() || !spec_is_word_byte(bytes[s + word.len()]))
}

/// The whole-word matches that start at offset `s`, one for each of `words` that matches
/// there, in the order of `words`, as (start, end) byte offsets.
pub open spec fn matches_at(bytes: Seq<u8>, words: Seq<Seq<u8>>, s: int) -> Seq<(int, int)>
    decreases words.len(),
{
    if words.len() == 0 {
        Seq::empty()
    } else {
        matches_at(bytes, words.drop_last(), s) + if whole_word_at(bytes, words.last(), s) {
            seq![(s, s + words.last().len())]
        } else {
            Seq::empty()
        }
    }
}

/// The whole-word matches of `words` that start before offset `n`, ordered by their start,
/// and matches with the same start in the order of `words`.
pub open spec fn spans_before(bytes: Seq<u8>, words: Seq<Seq<u8>>, n: int) -> Seq<(int, int)>
    decreases n,
{
    if n <= 0 {
        Seq::empty()
    } else {
        spans_before(bytes, words, n - 1) + matches_at(bytes, words, n - 1)
    }
}

/// The characters of each of `words`.
pub open spec fn views(words: Seq<String>) -> Seq<Seq<char>> {
    words.map_values(|w: String| w@)
}

/// The UTF-8 encoding of each of `words`.
pub open spec fn words_bytes(words: Seq<Seq<char>>) -> Seq<Seq<u8>> {
    words.map_values(|w: Seq<char>| encode_utf8(w))
}

/// Every whole-word match of `words` in `text`, as byte spans of its UTF-8 encoding,
/// ordered by start offset, and matches with the same start in the order of `words`.
pub open spec fn word_spans(text: Seq<char>, words: Seq<Seq<char>>) -> Seq<(int, int)> {
    let bytes = encode_utf8(text);
    spans_before(bytes, words_bytes(words), bytes.len() as int)
}

/// The spans in `v`, with their offsets as integers.
pub open spec fn int_spans(v: Seq<(usize, usize)>) -> Seq<(int, int)> {
    v.map_values(|p: (usize, usize)| (p.0 as int, p.1 as int))
}

/// The next occurrence of `word` in `bytes` at or after `s`, as `find_subslice` reports
/// occurrences: `None` when the word is empty or occurs no more.
pub open spec fn is_next_occurrence(bytes: Seq<u8>, word: Seq<u8>, s: int, next: Option<usize>) -> bool {
    match next {
        Some(r) => {
            &&& word.len() > 0
            &&& s <= r
            &&& occurs_at(bytes, word, r as int)
            &&& forall|j: int| s <= j < r ==> !occurs_at(bytes, word, j)
        },
        None => word.len() == 0 || forall|j: int| s <= j ==> !occurs_at(bytes, word, j),
    }
}

/// The first occurrence of `word` in `bytes` at or after `from`.
fn next_occurrence(bytes: &[u8], word: &[u8], from: usize) -> (r: Option<usize>)
    requires
        from <= bytes@.len(),
    ensures
        is_next_occurrence(bytes@, word@, from as int, r),
{
    let tail = &bytes[from..bytes.len()];
    assert(tail@ == bytes@.subrange(from as int, bytes@.len() as int));
    let found = find_subslice(tail, word);
    match found {
        Some(r) => {
            assert(bytes@.subrange(from + r, from + r + word@.len()) =~= tail@.subrange(
                r as int,
                r + word@.len(),
            ));
            assert forall|j: int| from <= j < from + r implies !occurs_at(bytes@, word@, j) by {
                if occurs_at(bytes@, word@, j) {
                    assert(tail@.subrange(j - from, j - from + word@.len()) =~= bytes@.subrange(
                        j,
                        j + word@.len(),
                    ));
                    assert(occurs_at(tail@, word@, j - from));
                }
            }
            Some(from + r)
        },
        None => {
            if word.len() > 0 {
                assert forall|j: int| from <= j implies !occurs_at(bytes@, word@, j) by {
                    if occurs_at(bytes@, word@, j) {
                        assert(tail@.subrange(j - from, j - from + word@.len()) =~= bytes@.subrange(
                            j,
                            j + word@.len(),
                        ));
                        assert(occurs_at(tail@, word@, j - from));
                    }
                }
            }
            None
        },
    }
}


/// `span` is a whole-word occurrence of one of `words` in `bytes`.
pub open spec fn is_word_span(bytes: Seq<u8>, words: Seq<Seq<u8>>, span: (int, int)) -> bool {
    exists|k: int|
        0 <= k < words.len() && whole_word_at(bytes, #[trigger] words[k], span.0) && span.1 == span.0
            + words[k].len()
}

proof fn lemma_matches_at(bytes: Seq<u8>, words: Seq<Seq<u8>>, s: int)
    ensures
        forall|i: int|
            0 <= i < matches_at(bytes, words, s).len() ==> (#[trigger] matches_at(bytes, words, s)[i]).0
                == s && is_word_span(bytes, words, matches_at(bytes, words, s)[i]),
    decreases words.len(),
{
    if words.len() > 0 {
        let rest = words.drop_last();
        lemma_matches_at(bytes, rest, s);
        let m = matches_at(bytes, words, s);
        let mr = matches_at(bytes, rest, s);
        assert forall|i: int| 0 <= i < m.len() implies (#[trigger] m[i]).0 == s && is_word_span(bytes, words, m[i]) by {
            if i < mr.len() {
                assert(m[i] == mr[i]);
                let k = choose|k: int|
                    0 <= k < rest.len() && whole_word_at(bytes, #[trigger] rest[k], mr[i].0) && mr[i].1
                        == mr[i].0 + rest[k].len();
                assert(words[k] == rest[k]);
            } else {
                assert(words[words.len() - 1] == words.last());
            }
        }
    }
}

proof fn lemma_spans_before(bytes: Seq<u8>, words: Seq<Seq<u8>>, n: int)
    ensures
        forall|i: int|
            0 <= i < spans_before(bytes, words, n).len() ==> (#[trigger] spans_before(bytes, words, n)[i]).0
                < n && is_word_span(bytes, words, spans_before(bytes, words, n)[i]),
        forall|i: int, j: int|
            0 <= i <= j < spans_before(bytes, words, n).len() ==> (#[trigger] spans_before(
                bytes,
                words,
                n,
            )[i]).0 <= (#[trigger] spans_before(bytes, words, n)[j]).0,
    decreases n,
{
    if n > 0 {
        lemma_spans_before(bytes, words, n - 1);
        lemma_matches_at(bytes, words, n - 1);
        let a = spans_before(bytes, words, n - 1);
        let m = matches_at(bytes, words, n - 1);
        let all = spans_before(bytes, words, n);
        assert(all == a + m);
        assert forall|i: int| 0 <= i < all.len() implies (#[trigger] all[i]).0 < n && is_word_span(bytes, words, all[i]) by {
            if i < a.len() {
                assert(all[i] == a[i]);
            } else {
                assert(all[i] == m[i - a.len()]);
            }
        }
        assert forall|i: int, j: int| 0 <= i <= j < all.len() implies (#[trigger] all[i]).0 <= (
        #[trigger] all[j]).0 by {
            if j < a.len() {
                assert(all[i] == a[i] && all[j] == a[j]);
            } else if i < a.len() {
                assert(all[i] == a[i] && all[j] == m[j - a.len()]);
            } else {
                assert(all[i] == m[i - a.len()] && all[j] == m[j - a.len()]);
            }
        }
    }
}

/// The word spans of `text` are whole-word occurrences of the (non-empty) words, and come in
/// order of their start.
pub proof fn lemma_word_spans_are_ordered_occurrences(text: Seq<char>, words: Seq<Seq<char>>)
    ensures
        forall|i: int|
            0 <= i < word_spans(text, words).len() ==> is_word_span(
                encode_utf8(text),
                words_bytes(words),
                #[trigger] word_spans(text, words)[i],
            ),
        forall|i: int, j: int|
            0 <= i <= j < word_spans(text, words).len() ==> (#[trigger] word_spans(text, words)[i]).0
                <= (#[trigger] word_spans(text, words)[j]).0,
{
    lemma_spans_before(encode_utf8(text), words_bytes(words), encode_utf8(text).len() as int);
}

proof fn lemma_matches_at_complete(bytes: Seq<u8>, words: Seq<Seq<u8>>, s: int, k: int)
    requires
        0 <= k < words.len(),
        whole_word_at(bytes, words[k], s),
    ensures
        matches_at(bytes, words, s).contains((s, s + words[k].len())),
    decreases words.len(),
{
    let m = matches_at(bytes, words, s);
    let rest = words.drop_last();
    let mr = matches_at(bytes, rest, s);
    if k < words.len() - 1 {
        assert(rest[k] == words[k]);
        lemma_matches_at_complete(bytes, rest, s, k);
        let i = choose|i: int| 0 <= i < mr.len() && mr[i] == (s, s + words[k].len());
        assert(m[i] == mr[i]);
    } else {
        assert(m[mr.len() as int] == (s, s + words[k].len()));
    }
}

proof fn lemma_spans_before_complete(bytes: Seq<u8>, words: Seq<Seq<u8>>, n: int, s: int, k: int)
    requires
        0 <= s < n,
        0 <= k < words.len(),
        whole_word_at(bytes, words[k], s),
    ensures
        spans_before(bytes, words, n).contains((s, s + words[k].len())),
    decreases n,
{
    let a = spans_before(bytes, words, n - 1);
    let m = matches_at(bytes, words, n - 1);
    let all = spans_before(bytes, words, n);
    if s < n - 1 {
        lemma_spans_before_complete(bytes, words, n - 1, s, k);
        let i = choose|i: int| 0 <= i < a.len() && a[i] == (s, s + words[k].len());
        assert(all[i] == a[i]);
    } else {
        lemma_matches_at_complete(bytes, words, s, k);
        let i = choose|i: int| 0 <= i < m.len() && m[i] == (s, s + words[k].len());
        assert(all[a.len() + i] == m[i]);
    }
}

/// Every whole-word occurrence of one of the words in `text` is one of its word spans.
pub proof fn lemma_word_spans_complete(text: Seq<char>, words: Seq<Seq<char>>, s: int, k: int)
    requires
        0 <= k < words.len(),
        whole_word_at(encode_utf8(text), encode_utf8(words[k]), s),
    ensures
        word_spans(text, words).contains((s, s + encode_utf8(words[k]).len())),
{
    let bytes = encode_utf8(text);
    let wb = words_bytes(words);
    assert(wb[k] == encode_utf8(words[k]));
    lemma_spans_before_complete(bytes, wb, bytes.len() as int, s, k);
}

/// Each word span stands alone in the text: it is a non-empty stretch of the text's UTF-8
/// bytes that spells one of the words, and the byte just before it and the byte just after
/// it, where there are any, are no word bytes (no ASCII letter, digit or underscore).
pub proof fn lemma_word_spans_stand_alone(text: Seq<char>, words: Seq<Seq<char>>)
    ensures
        forall|i: int|
            #![trigger word_spans(text, words)[i]]
            0 <= i < word_spans(text, words).len() ==> {
                let bytes = encode_utf8(text);
                let s = word_spans(text, words)[i].0;
                let e = word_spans(text, words)[i].1;
                &&& 0 <= s < e <= bytes.len()
                &&& exists|k: int| 0 <= k < words.len() && bytes.subrange(s, e) == encode_utf8(#[trigger] words[k])
                &&& s == 0 || !spec_is_word_byte(bytes[s - 1])
                &&& e == bytes.len() || !spec_is_word_byte(bytes[e])
            },
{
    let bytes = encode_utf8(text);
    let wb = words_bytes(words);
    let spans = word_spans(text, words);
    lemma_word_spans_are_ordered_occurrences(text, words);
    assert forall|i: int| #![trigger spans[i]] 0 <= i < spans.len() implies {
        let s = spans[i].0;
        let e = spans[i].1;
        &&& 0 <= s < e <= bytes.len()
        &&& exists|k: int| 0 <= k < words.len() && bytes.subrange(s, e) == encode_utf8(#[trigger] words[k])
        &&& s == 0 || !spec_is_word_byte(bytes[s - 1])
        &&& e == bytes.len() || !spec_is_word_byte(bytes[e])
    } by {
        assert(is_word_span(bytes, wb, spans[i]));
        let k = choose|k: int|
            0 <= k < wb.len() && whole_word_at(bytes, #[trigger] wb[k], spans[i].0) && spans[i].1
                == spans[i].0 + wb[k].len();
        assert(wb[k] == encode_utf8(words[k]));
    }
}

/// Conversely, every stretch of the text's UTF-8 bytes that spells one of the words (not
/// empty), with no word byte just before it and none just after it, is a word span.
pub proof fn lemma_standing_alone_is_word_span(text: Seq<char>, words: Seq<Seq<char>>, s: int, k: int)
    requires
        0 <= k < words.len(),
        words[k].len() > 0,
        0 <= s,
        s + encode_utf8(words[k]).len() <= encode_utf8(text).len(),
        encode_utf8(text).subrange(s, s + encode_utf8(words[k]).len()) == encode_utf8(words[k]),
        s == 0 || !spec_is_word_byte(encode_utf8(text)[s - 1]),
        s + encode_utf8(words[k]).len() == encode_utf8(text).len() || !spec_is_word_byte(
            encode_utf8(text)[s + encode_utf8(words[k]).len()],
        ),
    ensures
        word_spans(text, words).contains((s, s + encode_utf8(words[k]).len())),
{
    assert(encode_utf8(words[k]).len() > 0) by {
        reveal_with_fuel(encode_utf8, 2);
    }
    lemma_word_spans_complete(text, words, s, k);
}

proof fn lemma_matches_at_concat(bytes: Seq<u8>, w1: Seq<Seq<u8>>, w2: Seq<Seq<u8>>, s: int)
    ensures
        matches_at(bytes, w1 + w2, s) == matches_at(bytes, w1, s) + matches_at(bytes, w2, s),
    decreases w2.len(),
{
    if w2.len() == 0 {
        assert(w1 + w2 =~= w1);
        assert(matches_at(bytes, w1, s) + matches_at(bytes, w2, s) =~= matches_at(bytes, w1, s));
    } else {
        lemma_matches_at_concat(bytes, w1, w2.drop_last(), s);
        assert((w1 + w2).drop_last() =~= w1 + w2.drop_last());
        assert((w1 + w2).last() == w2.last());
        let tail = if whole_word_at(bytes, w2.last(), s) {
            seq![(s, s + w2.last().len())]
        } else {
            Seq::empty()
        };
        assert(matches_at(bytes, w1, s) + matches_at(bytes, w2, s) =~= matches_at(bytes, w1, s)
            + matches_at(bytes, w2.drop_last(), s) + tail);
    }
}

proof fn lemma_spans_before_concat(bytes: Seq<u8>, w1: Seq<Seq<u8>>, w2: Seq<Seq<u8>>, n: int)
    ensures
        spans_before(bytes, w1 + w2, n).to_multiset() =~= spans_before(bytes, w1, n).to_multiset().add(
            spans_before(bytes, w2, n).to_multiset(),
        ),
    decreases n,
{
    broadcast use vstd::seq_lib::lemma_multiset_commutative;
    broadcast use vstd::multiset::group_multiset_axioms;

    if n <= 0 {
        let e = Seq::<(int, int)>::empty();
        assert(e + e =~= e);
        assert((e + e).to_multiset() =~= e.to_multiset().add(e.to_multiset()));
    } else {
        lemma_spans_before_concat(bytes, w1, w2, n - 1);
        lemma_matches_at_concat(bytes, w1, w2, n - 1);
        let a = spans_before(bytes, w1 + w2, n - 1);
        let a1 = spans_before(bytes, w1, n - 1);
        let a2 = spans_before(bytes, w2, n - 1);
        let m1 = matches_at(bytes, w1, n - 1);
        let m2 = matches_at(bytes, w2, n - 1);
        assert((a + (m1 + m2)).to_multiset() =~= a.to_multiset().add((m1 + m2).to_multiset()));
        assert((m1 + m2).to_multiset() =~= m1.to_multiset().add(m2.to_multiset()));
        assert((a1 + m1).to_multiset() =~= a1.to_multiset().add(m1.to_multiset()));
        assert((a2 + m2).to_multiset() =~= a2.to_multiset().add(m2.to_multiset()));
    }
}

/// The word spans of two word lists put together are those of each list: the same spans,
/// counted as often, in a possibly different order.
pub proof fn lemma_word_spans_concat(text: Seq<char>, w1: Seq<Seq<char>>, w2: Seq<Seq<char>>)
    ensures
        word_spans(text, w1 + w2).to_multiset() == word_spans(text, w1).to_multiset().add(
            word_spans(text, w2).to_multiset(),
        ),
{
    let bytes = encode_utf8(text);
    assert(words_bytes(w1 + w2) =~= words_bytes(w1) + words_bytes(w2));
    lemma_spans_before_concat(bytes, words_bytes(w1), words_bytes(w2), bytes.len() as int);
}

/// The positions that the byte spans `spans` cover in `text`.
pub open spec fn span_positions(text: Seq<char>, spans: Seq<(int, int)>) -> Seq<((nat, nat), (nat, nat))> {
    spans.map_values(|span: (int, int)| (position_at(text, span.0), position_at(text, span.1)))
}

proof fn lemma_span_positions_concat(text: Seq<char>, bytes: Seq<u8>, w1: Seq<Seq<u8>>, w2: Seq<Seq<u8>>, n: int)
    ensures
        span_positions(text, spans_before(bytes, w1 + w2, n)).to_multiset() =~= span_positions(
            text,
            spans_before(bytes, w1, n),
        ).to_multiset().add(span_positions(text, spans_before(bytes, w2, n)).to_multiset()),
    decreases n,
{
    broadcast use vstd::seq_lib::lemma_multiset_commutative;
    broadcast use vstd::multiset::group_multiset_axioms;

    if n <= 0 {
        let e = span_positions(text, Seq::<(int, int)>::empty());
        assert(e + e =~= e);
        assert((e + e).to_multiset() =~= e.to_multiset().add(e.to_multiset()));
    } else {
        lemma_span_positions_concat(text, bytes, w1, w2, n - 1);
        lemma_matches_at_concat(bytes, w1, w2, n - 1);
        let a = span_positions(text, spans_before(bytes, w1 + w2, n - 1));
        let a1 = span_positions(text, spans_before(bytes, w1, n - 1));
        let a2 = span_positions(text, spans_before(bytes, w2, n - 1));
        let m1 = span_positions(text, matches_at(bytes, w1, n - 1));
        let m2 = span_positions(text, matches_at(bytes, w2, n - 1));
        assert(span_positions(text, spans_before(bytes, w1 + w2, n)) =~= a + (m1 + m2));
        assert(span_positions(text, spans_before(bytes, w1, n)) =~= a1 + m1);
        assert(span_positions(text, spans_before(bytes, w2, n)) =~= a2 + m2);
        assert((a + (m1 + m2)).to_multiset() =~= a.to_multiset().add((m1 + m2).to_multiset()));
        assert((m1 + m2).to_multiset() =~= m1.to_multiset().add(m2.to_multiset()));
        assert((a1 + m1).to_multiset() =~= a1.to_multiset().add(m1.to_multiset()));
        assert((a2 + m2).to_multiset() =~= a2.to_multiset().add(m2.to_multiset()));
    }
}

/// The ranges found for two word lists put together are those found for each list: the same
/// ranges, counted as often, in a possibly different order.
pub proof fn lemma_ranges_concat(text: Seq<char>, w1: Seq<Seq<char>>, w2: Seq<Seq<char>>)
    ensures
        span_positions(text, word_spans(text, w1 + w2)).to_multiset() == span_positions(
            text,
            word_spans(text, w1),
        ).to_multiset().add(span_positions(text, word_spans(text, w2)).to_multiset()),
{
    let bytes = encode_utf8(text);
    assert(words_bytes(w1 + w2) =~= words_bytes(w1) + words_bytes(w2));
    lemma_span_positions_concat(text, bytes, words_bytes(w1), words_bytes(w2), bytes.len() as int);
}

/// `r` is the range of lines and UTF-16 columns that the byte span `span` covers in `text`.
pub open spec fn range_of_span(text: Seq<char>, span: (int, int), r: Range) -> bool {
    &&& r.start@ == position_at(text, span.0)
    &&& r.end@ == position_at(text, span.1)
}

/// The whole-word occurrences of `words` in `text`, as ranges of lines and UTF-16 columns,
/// in order of occurrence (by start, then by the order of `words`). Empty words match nothing.
pub fn find_ranges(text: &str, words: &[String]) -> (ranges: Vec<Range>)
    requires
        text.spec_bytes().len() <= u32::MAX,
    ensures
        ranges.len() == word_spans(text@, views(words@)).len(),
        forall|i: int|
            #![trigger ranges[i]]
            0 <= i < ranges.len() ==> range_of_span(text@, word_spans(text@, views(words@))[i], ranges[i]),
        ranges@.map_values(|r: Range| (r.start@, r.end@)) == span_positions(
            text@,
            word_spans(text@, views(words@)),
        ),
{
    let bytes = text.as_bytes();
    let n = bytes.len();
    let ghost wb = words_bytes(views(words@));
    let ghost b = bytes@;
    let mut next: Vec<Option<usize>> = Vec::new();
    for k in 0..words.len()
        invariant
            b == bytes@,
            wb == words_bytes(views(words@)),
            next.len() == k,
            forall|j: int| 0 <= j < k ==> is_next_occurrence(b, wb[j], 0, #[trigger] next[j]),
    {
        let w = words[k].as_str().as_bytes();
        assert(w@ == wb[k as int]);
        next.push(next_occurrence(bytes, w, 0));
    }
    let mut spans: Vec<(usize, usize)> = Vec::new();
    for s in 0..n
        invariant
            b == bytes@,
            n == b.len(),
            wb == words_bytes(views(words@)),
            wb.len() == words.len(),
            next.len() == words.len(),
            forall|j: int| 0 <= j < words.len() ==> is_next_occurrence(b, wb[j], s as int, #[trigger] next[j]),
            int_spans(spans@) == spans_before(b, wb, s as int),
            forall|i: int| 0 <= i < spans.len() ==> (#[trigger] spans[i]).0 <= spans[i].1 <= n,
    {
        let ghost base = int_spans(spans@);
        for k in 0..words.len()
            invariant
                b == bytes@,
                n == b.len(),
                s < n,
                wb == words_bytes(views(words@)),
                wb.len() == words.len(),
                next.len() == words.len(),
                forall|j: int|
                    k <= j < words.len() ==> is_next_occurrence(b, wb[j], s as int, #[trigger] next[j]),
                forall|j: int|
                    0 <= j < k ==> is_next_occurrence(b, wb[j], s + 1, #[trigger] next[j]),
                base == spans_before(b, wb, s as int),
                int_spans(spans@) == base + matches_at(b, wb.take(k as int), s as int),
                forall|i: int| 0 <= i < spans.len() ==> (#[trigger] spans[i]).0 <= spans[i].1 <= n,
        {
            let ghost before = spans@;
            let ghost wk = wb[k as int];
            assert(wb.take(k + 1).drop_last() =~= wb.take(k as int));
            assert(wb.take(k + 1).last() == wk);
            let hit = match next[k] {
                Some(r) => r == s,
                None => false,
            };
            if hit {
                let w = words[k].as_str().as_bytes();
                assert(w@ == wk);
                let e = s + w.len();
                let left_ok = s == 0 || !is_word_byte(bytes[s - 1]);
                let right_ok = e == n || !is_word_byte(bytes[e]);
                if left_ok && right_ok {
                    spans.push((s, e));
                    assert(int_spans(spans@) =~= int_spans(before) + seq![(s as int, e as int)]);
                } else {
                    assert(!whole_word_at(b, wk, s as int));
                }
                let following = next_occurrence(bytes, w, s + 1);
                next.set(k, following);
            } else {
                proof {
                    match next[k as int] {
                        Some(r) => assert(!occurs_at(b, wk, s as int)),
                        None => {},
                    }
                }
                assert(!whole_word_at(b, wk, s as int));
            }
        }
        assert(wb.take(words.len() as int) =~= wb);
    }
    let ghost all = spans_before(b, wb, n as int);
    assert(all == word_spans(text@, views(words@)));
    let table = position_table(text);
    let mut ranges: Vec<Range> = Vec::new();
    for i in 0..spans.len()
        invariant
            n == text.spec_bytes().len(),
            table.len() == n + 1,
            forall|j: int| 0 <= j < table.len() ==> #[trigger] table[j]@ == position_at(text@, j),
            forall|j: int| 0 <= j < spans.len() ==> (#[trigger] spans[j]).0 <= spans[j].1 <= n,
            int_spans(spans@) == all,
            ranges.len() == i,
            forall|j: int| #![trigger ranges[j]] 0 <= j < i ==> range_of_span(text@, all[j], ranges[j]),
    {
        assert(all[i as int] == (spans[i as int].0 as int, spans[i as int].1 as int));
        let ghost before = ranges@;
        let r = Range { start: table[spans[i].0], end: table[spans[i].1] };
        assert(r.start@ == position_at(text@, all[i as int].0));
        assert(r.end@ == position_at(text@, all[i as int].1));
        ranges.push(r);
        assert forall|j: int| #![trigger ranges[j]] 0 <= j < i + 1 implies range_of_span(text@, all[j], ranges[j]) by {
            if j < i {
                assert(ranges[j] == before[j]);
            }
        }
    }
    assert(ranges@.map_values(|r: Range| (r.start@, r.end@)) =~= span_positions(text@, all));
    ranges
}

} // verus!
