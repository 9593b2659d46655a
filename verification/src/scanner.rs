//! The token scanner: turns a byte stream into a sequence of structural
//! events (element start, element end, text, a leading metadata block,
//! end of stream) for a simple tag/attribute markup grammar, without
//! building a tree.
//!
//! The grammar is deliberately small (this is not a general markup
//! parser): a tag runs from `<` to the next `>`; `<?..?>` blocks and
//! `<!--..-->` comments are recognized and skipped; a `<!..>` block (with
//! at most one bracketed internal subset) is the opaque metadata payload;
//! text runs verbatim between tags. A decoding failure at a byte offset is
//! fatal for the whole scan: the stream's future structure cannot be
//! trusted after a corrupt token, so the error carries that offset.
//! Unterminated markup is reported at the end-of-stream offset, where the
//! missing byte would have stood.

use vstd::prelude::*;

verus! {

use vstd::utf8::valid_utf8;
use vstd::utf8::decode_utf8;
use crate::text::utf8_fail_offset;
use crate::text::decode_range;

pub const B_LT: u8 = 0x3c;

pub const B_GT: u8 = 0x3e;

pub const B_QUESTION: u8 = 0x3f;

pub const B_BANG: u8 = 0x21;

pub const B_DASH: u8 = 0x2d;

pub const B_SLASH: u8 = 0x2f;

pub const B_LBRACKET: u8 = 0x5b;

pub const B_RBRACKET: u8 = 0x5d;

pub const B_EQ: u8 = 0x3d;

pub const B_QUOT: u8 = 0x22;

pub const B_APOS: u8 = 0x27;

/// One attribute of a start tag.
pub struct Attr {
    pub name: String,
    pub value: String,
}

/// Mathematical model of one attribute.
pub struct AttrModel {
    pub name: Seq<char>,
    pub value: Seq<char>,
}

impl View for Attr {
    type V = AttrModel;

    open spec fn view(&self) -> AttrModel {
        AttrModel { name: self.name@, value: self.value@ }
    }
}

/// The view of a sequence of attributes.
pub open spec fn attrs_view(v: Seq<Attr>) -> Seq<AttrModel> {
    v.map_values(|a: Attr| a@)
}

/// One structural event of the markup stream.
pub enum XmlEvent {
    /// An element start tag; `self_closing` marks an empty `<name/>` form.
    Start { name: String, attrs: Vec<Attr>, self_closing: bool },
    /// An element end tag.
    End { name: String },
    /// A run of character data between tags, taken verbatim.
    Text { content: String },
    /// The leading metadata block, preserved as an opaque payload.
    Meta { raw: Vec<u8> },
    /// A recognized but irrelevant construct (declaration or comment).
    Skip,
    /// The end of the stream.
    Eof,
}

/// Mathematical model of one structural event.
pub enum EventModel {
    Start { name: Seq<char>, attrs: Seq<AttrModel>, self_closing: bool },
    End { name: Seq<char> },
    Text { content: Seq<char> },
    Meta { raw: Seq<u8> },
    Skip,
    Eof,
}

impl View for XmlEvent {
    type V = EventModel;

    open spec fn view(&self) -> EventModel {
        match self {
            XmlEvent::Start { name, attrs, self_closing } => EventModel::Start {
                name: name@,
                attrs: attrs_view(attrs@),
                self_closing: *self_closing,
            },
            XmlEvent::End { name } => EventModel::End { name: name@ },
            XmlEvent::Text { content } => EventModel::Text { content: content@ },
            XmlEvent::Meta { raw } => EventModel::Meta { raw: raw@ },
            XmlEvent::Skip => EventModel::Skip,
            XmlEvent::Eof => EventModel::Eof,
        }
    }
}

/// True of the four whitespace bytes of the grammar.
pub open spec fn is_ws(b: u8) -> bool {
    b == 0x20 || b == 0x09 || b == 0x0a || b == 0x0d
}

/// The first index in `[from, end)` holding byte `b`.
pub open spec fn find_in(bytes: Seq<u8>, from: int, end: int, b: u8) -> Option<int>
    decreases end - from,
{
    if from < 0 || from >= end {
        None
    } else if bytes[from] == b {
        Some(from)
    } else {
        find_in(bytes, from + 1, end, b)
    }
}

/// The first index `i` in `[from, end - 1)` with `bytes[i] == b1` and
/// `bytes[i + 1] == b2`.
pub open spec fn find_two(bytes: Seq<u8>, from: int, end: int, b1: u8, b2: u8) -> Option<int>
    decreases end - from,
{
    if from < 0 || from + 1 >= end {
        None
    } else if bytes[from] == b1 && bytes[from + 1] == b2 {
        Some(from)
    } else {
        find_two(bytes, from + 1, end, b1, b2)
    }
}

/// The first index `i` in `[from, end - 2)` at which `b1 b2 b3` occur.
pub open spec fn find_three(bytes: Seq<u8>, from: int, end: int, b1: u8, b2: u8, b3: u8) -> Option<
    int,
>
    decreases end - from,
{
    if from < 0 || from + 2 >= end {
        None
    } else if bytes[from] == b1 && bytes[from + 1] == b2 && bytes[from + 2] == b3 {
        Some(from)
    } else {
        find_three(bytes, from + 1, end, b1, b2, b3)
    }
}

/// The first index in `[from, end)` holding a non-whitespace byte, or
/// `end` when all of the range is whitespace.
pub open spec fn skip_ws(bytes: Seq<u8>, from: int, end: int) -> int
    decreases end - from,
{
    if from < 0 || from >= end {
        end
    } else if is_ws(bytes[from]) {
        skip_ws(bytes, from + 1, end)
    } else {
        from
    }
}

/// The first whitespace index in `[from, end)`, or `end` when none.
pub open spec fn find_ws(bytes: Seq<u8>, from: int, end: int) -> int
    decreases end - from,
{
    if from < 0 || from >= end {
        end
    } else if is_ws(bytes[from]) {
        from
    } else {
        find_ws(bytes, from + 1, end)
    }
}

pub proof fn lemma_find_in(bytes: Seq<u8>, from: int, end: int, b: u8)
    requires
        0 <= from,
    ensures
        match find_in(bytes, from, end, b) {
            Some(i) => from <= i < end && bytes[i] == b && (forall|j: int|
                from <= j < i ==> bytes[j] != b),
            None => forall|j: int| from <= j < end ==> bytes[j] != b,
        },
    decreases end - from,
{
    if from < 0 || from >= end {
    } else if bytes[from] == b {
    } else {
        lemma_find_in(bytes, from + 1, end, b);
    }
}

pub proof fn lemma_find_two(bytes: Seq<u8>, from: int, end: int, b1: u8, b2: u8)
    requires
        0 <= from,
    ensures
        match find_two(bytes, from, end, b1, b2) {
            Some(i) => from <= i && i + 1 < end && bytes[i] == b1 && bytes[i + 1] == b2 && (forall|
                j: int,
            |
                from <= j < i ==> !((#[trigger] bytes[j]) == b1 && bytes[j + 1] == b2)),
            None => forall|j: int| from <= j && j + 1 < end ==> !((#[trigger] bytes[j]) == b1 && bytes[j + 1] == b2),
        },
    decreases end - from,
{
    if from < 0 || from + 1 >= end {
    } else if bytes[from] == b1 && bytes[from + 1] == b2 {
    } else {
        lemma_find_two(bytes, from + 1, end, b1, b2);
    }
}

pub proof fn lemma_find_three(bytes: Seq<u8>, from: int, end: int, b1: u8, b2: u8, b3: u8)
    requires
        0 <= from,
    ensures
        match find_three(bytes, from, end, b1, b2, b3) {
            Some(i) => from <= i && i + 2 < end && bytes[i] == b1 && bytes[i + 1] == b2 && bytes[i
                + 2] == b3 && (forall|j: int|
                from <= j < i ==> !((#[trigger] bytes[j]) == b1 && bytes[j + 1] == b2 && bytes[j
                    + 2] == b3)),
            None => forall|j: int|
                from <= j && j + 2 < end ==> !((#[trigger] bytes[j]) == b1 && bytes[j + 1] == b2 && bytes[j + 2]
                    == b3),
        },
    decreases end - from,
{
    if from < 0 || from + 2 >= end {
    } else if bytes[from] == b1 && bytes[from + 1] == b2 && bytes[from + 2] == b3 {
    } else {
        lemma_find_three(bytes, from + 1, end, b1, b2, b3);
    }
}

pub proof fn lemma_skip_ws(bytes: Seq<u8>, from: int, end: int)
    requires
        0 <= from <= end,
    ensures
        from <= skip_ws(bytes, from, end) <= end,
        skip_ws(bytes, from, end) < end ==> !is_ws(bytes[skip_ws(bytes, from, end)]),
        forall|j: int| from <= j < skip_ws(bytes, from, end) ==> is_ws(bytes[j]),
    decreases end - from,
{
    if from < 0 || from >= end {
    } else if is_ws(bytes[from]) {
        lemma_skip_ws(bytes, from + 1, end);
    }
}

pub proof fn lemma_find_ws(bytes: Seq<u8>, from: int, end: int)
    requires
        0 <= from <= end,
    ensures
        from <= find_ws(bytes, from, end) <= end,
        find_ws(bytes, from, end) < end ==> is_ws(bytes[find_ws(bytes, from, end)]),
        forall|j: int| from <= j < find_ws(bytes, from, end) ==> !is_ws(bytes[j]),
    decreases end - from,
{
    if from < 0 || from >= end {
    } else if is_ws(bytes[from]) {
    } else {
        lemma_find_ws(bytes, from + 1, end);
    }
}

/// The attributes written in `bytes[from..end)`: a whitespace-separated
/// sequence of `key="value"` (or single-quoted) pairs. On a grammar or
/// decoding failure the error holds the offset of the offending byte.
pub open spec fn parse_attrs(bytes: Seq<u8>, from: int, end: int) -> Result<Seq<AttrModel>, int>
    decreases end - from,
{
    let j = skip_ws(bytes, from, end);
    if from >= end || j >= end {
        Ok(Seq::empty())
    } else {
        match find_in(bytes, j, end, B_EQ) {
            None => Err(j),
            Some(eq) => if eq == j {
                Err(j)
            } else if !valid_utf8(bytes.subrange(j, eq)) {
                Err(j + utf8_fail_offset(bytes.subrange(j, eq)))
            } else if eq + 1 >= end {
                Err(eq + 1)
            } else if bytes[eq + 1] != B_QUOT && bytes[eq + 1] != B_APOS {
                Err(eq + 1)
            } else {
                match find_in(bytes, eq + 2, end, bytes[eq + 1]) {
                    None => Err(end),
                    Some(close) => if !valid_utf8(bytes.subrange(eq + 2, close)) {
                        Err(eq + 2 + utf8_fail_offset(bytes.subrange(eq + 2, close)))
                    } else {
                        let next = if close + 1 > from && close + 1 <= end {
                            close + 1
                        } else {
                            end
                        };
                        match parse_attrs(bytes, next, end) {
                            Err(e) => Err(e),
                            Ok(rest) => Ok(
                                seq![
                                    AttrModel {
                                        name: decode_utf8(bytes.subrange(j, eq)),
                                        value: decode_utf8(bytes.subrange(eq + 2, close)),
                                    },
                                ] + rest,
                            ),
                        }
                    },
                }
            },
        }
    }
}

/// The structural event beginning at offset `pos` of `bytes`, paired with
/// the number of bytes it consumes; or the offset of the byte at which
/// the stream is malformed.
pub open spec fn token_at(bytes: Seq<u8>, pos: int) -> Result<(EventModel, int), int> {
    let len = bytes.len() as int;
    if pos >= len {
        Ok((EventModel::Eof, 0))
    } else if bytes[pos] != B_LT {
        let end = match find_in(bytes, pos, len, B_LT) {
            Some(i) => i,
            None => len,
        };
        if valid_utf8(bytes.subrange(pos, end)) {
            Ok((EventModel::Text { content: decode_utf8(bytes.subrange(pos, end)) }, end - pos))
        } else {
            Err(pos + utf8_fail_offset(bytes.subrange(pos, end)))
        }
    } else if pos + 1 >= len {
        Err(len)
    } else if bytes[pos + 1] == B_QUESTION {
        match find_two(bytes, pos + 2, len, B_QUESTION, B_GT) {
            Some(i) => Ok((EventModel::Skip, i + 2 - pos)),
            None => Err(len),
        }
    } else if bytes[pos + 1] == B_BANG {
        if pos + 3 < len && bytes[pos + 2] == B_DASH && bytes[pos + 3] == B_DASH {
            match find_three(bytes, pos + 4, len, B_DASH, B_DASH, B_GT) {
                Some(i) => Ok((EventModel::Skip, i + 3 - pos)),
                None => Err(len),
            }
        } else {
            match find_in(bytes, pos + 2, len, B_GT) {
                None => Err(len),
                Some(g) => {
                    let lb = find_in(bytes, pos + 2, len, B_LBRACKET);
                    if lb is Some && lb->Some_0 < g {
                        match find_in(bytes, lb->Some_0 + 1, len, B_RBRACKET) {
                            None => Err(len),
                            Some(rb) => match find_in(bytes, rb + 1, len, B_GT) {
                                None => Err(len),
                                Some(g2) => Ok(
                                    (
                                        EventModel::Meta { raw: bytes.subrange(pos, g2 + 1) },
                                        g2 + 1 - pos,
                                    ),
                                ),
                            },
                        }
                    } else {
                        Ok((EventModel::Meta { raw: bytes.subrange(pos, g + 1) }, g + 1 - pos))
                    }
                },
            }
        }
    } else if bytes[pos + 1] == B_SLASH {
        match find_in(bytes, pos + 2, len, B_GT) {
            None => Err(len),
            Some(g) => if valid_utf8(bytes.subrange(pos + 2, g)) {
                Ok((EventModel::End { name: decode_utf8(bytes.subrange(pos + 2, g)) }, g + 1 - pos))
            } else {
                Err(pos + 2 + utf8_fail_offset(bytes.subrange(pos + 2, g)))
            },
        }
    } else {
        match find_in(bytes, pos + 1, len, B_GT) {
            None => Err(len),
            Some(g) => {
                let selfclose = bytes[g - 1] == B_SLASH;
                let cend = if selfclose {
                    g - 1
                } else {
                    g
                };
                if cend <= pos + 1 {
                    Err(pos + 1)
                } else {
                    let ne = find_ws(bytes, pos + 1, cend);
                    if !valid_utf8(bytes.subrange(pos + 1, ne)) {
                        Err(pos + 1 + utf8_fail_offset(bytes.subrange(pos + 1, ne)))
                    } else {
                        match parse_attrs(bytes, ne, cend) {
                            Err(e) => Err(e),
                            Ok(attrs) => Ok(
                                (
                                    EventModel::Start {
                                        name: decode_utf8(bytes.subrange(pos + 1, ne)),
                                        attrs: attrs,
                                        self_closing: selfclose,
                                    },
                                    g + 1 - pos,
                                ),
                            ),
                        }
                    }
                }
            },
        }
    }
}

/// Every token other than end-of-stream consumes at least one byte and no
/// more than the rest of the stream, and a malformed-input offset lies
/// within the stream (or just past it, for unterminated markup).
pub proof fn lemma_token_bounds(bytes: Seq<u8>, pos: int)
    requires
        0 <= pos <= bytes.len(),
    ensures
        match token_at(bytes, pos) {
            Ok(tc) => (tc.0 is Eof ==> tc.1 == 0) && (!(tc.0 is Eof) ==> 1 <= tc.1 && pos + tc.1
                <= bytes.len()),
            Err(e) => 0 <= e <= bytes.len(),
        },
{
    let len = bytes.len() as int;
    if pos >= len {
    } else if bytes[pos] != B_LT {
        lemma_find_in(bytes, pos, len, B_LT);
        let end = match find_in(bytes, pos, len, B_LT) {
            Some(i) => i,
            None => len,
        };
        assert(pos < end <= len);
        if !valid_utf8(bytes.subrange(pos, end)) {
            crate::text::lemma_max_valid_prefix(bytes.subrange(pos, end), end - pos);
        }
    } else if pos + 1 >= len {
    } else if bytes[pos + 1] == B_QUESTION {
        lemma_find_two(bytes, pos + 2, len, B_QUESTION, B_GT);
    } else if bytes[pos + 1] == B_BANG {
        if pos + 3 < len && bytes[pos + 2] == B_DASH && bytes[pos + 3] == B_DASH {
            lemma_find_three(bytes, pos + 4, len, B_DASH, B_DASH, B_GT);
        } else {
            lemma_find_in(bytes, pos + 2, len, B_GT);
            if let Some(g) = find_in(bytes, pos + 2, len, B_GT) {
                lemma_find_in(bytes, pos + 2, len, B_LBRACKET);
                let lb = find_in(bytes, pos + 2, len, B_LBRACKET);
                if lb is Some && lb->Some_0 < g {
                    lemma_find_in(bytes, lb->Some_0 + 1, len, B_RBRACKET);
                    if let Some(rb) = find_in(bytes, lb->Some_0 + 1, len, B_RBRACKET) {
                        lemma_find_in(bytes, rb + 1, len, B_GT);
                    }
                }
            }
        }
    } else if bytes[pos + 1] == B_SLASH {
        lemma_find_in(bytes, pos + 2, len, B_GT);
        if let Some(g) = find_in(bytes, pos + 2, len, B_GT) {
            if !valid_utf8(bytes.subrange(pos + 2, g)) {
                crate::text::lemma_max_valid_prefix(bytes.subrange(pos + 2, g), g - (pos + 2));
            }
        }
    } else {
        lemma_find_in(bytes, pos + 1, len, B_GT);
        if let Some(g) = find_in(bytes, pos + 1, len, B_GT) {
            let selfclose = bytes[g - 1] == B_SLASH;
            let cend = if selfclose {
                g - 1
            } else {
                g
            };
            if cend <= pos + 1 {
            } else {
                lemma_find_ws(bytes, pos + 1, cend);
                let ne = find_ws(bytes, pos + 1, cend);
                if !valid_utf8(bytes.subrange(pos + 1, ne)) {
                    crate::text::lemma_max_valid_prefix(bytes.subrange(pos + 1, ne), ne - (pos + 1));
                } else {
                    lemma_parse_attrs_bounds(bytes, ne, cend);
                }
            }
        }
    }
}

/// A failing attribute parse reports an offset inside `[from, end]`.
pub proof fn lemma_parse_attrs_bounds(bytes: Seq<u8>, from: int, end: int)
    requires
        0 <= from <= end <= bytes.len(),
    ensures
        parse_attrs(bytes, from, end) is Err ==> 0 <= parse_attrs(bytes, from, end)->Err_0 <= end,
    decreases end - from,
{
    lemma_skip_ws(bytes, from, end);
    let j = skip_ws(bytes, from, end);
    if j >= end {
    } else {
        lemma_find_in(bytes, j, end, B_EQ);
        if let Some(eq) = find_in(bytes, j, end, B_EQ) {
            if eq == j {
            } else if !valid_utf8(bytes.subrange(j, eq)) {
                crate::text::lemma_max_valid_prefix(bytes.subrange(j, eq), eq - j);
            } else if eq + 1 >= end {
            } else if bytes[eq + 1] != B_QUOT && bytes[eq + 1] != B_APOS {
            } else {
                lemma_find_in(bytes, eq + 2, end, bytes[eq + 1]);
                if let Some(close) = find_in(bytes, eq + 2, end, bytes[eq + 1]) {
                    if !valid_utf8(bytes.subrange(eq + 2, close)) {
                        crate::text::lemma_max_valid_prefix(
                            bytes.subrange(eq + 2, close),
                            close - (eq + 2),
                        );
                    } else {
                        let next = if close + 1 > from && close + 1 <= end {
                            close + 1
                        } else {
                            end
                        };
                        lemma_parse_attrs_bounds(bytes, next, end);
                    }
                }
            }
        }
    }
}

/// The first index at or after `from` (and before `end`) holding `b`.
fn find_byte_in(bytes: &[u8], from: usize, end: usize, b: u8) -> (r: Option<usize>)
    requires
        from <= end <= bytes@.len(),
    ensures
        match find_in(bytes@, from as int, end as int, b) {
            Some(i) => r is Some && r->Some_0 as int == i,
            None => r is None,
        },
{
    proof {
        lemma_find_in(bytes@, from as int, end as int, b);
    }
    let mut i: usize = from;
    while i < end
        invariant
            from <= i <= end <= bytes@.len(),
            forall|j: int| from <= j < i ==> bytes@[j] != b,
            match find_in(bytes@, from as int, end as int, b) {
                Some(k) => from <= k < end && bytes@[k] == b && (forall|j: int|
                    from <= j < k ==> bytes@[j] != b),
                None => forall|j: int| from <= j < end ==> bytes@[j] != b,
            },
        decreases end - i,
    {
        if bytes[i] == b {
            return Some(i);
        }
        i += 1;
    }
    None
}

/// The first index at which the two-byte pattern `b1 b2` occurs.
fn find_two_in(bytes: &[u8], from: usize, end: usize, b1: u8, b2: u8) -> (r: Option<usize>)
    requires
        from <= end <= bytes@.len(),
    ensures
        match find_two(bytes@, from as int, end as int, b1, b2) {
            Some(i) => r is Some && r->Some_0 as int == i,
            None => r is None,
        },
{
    proof {
        lemma_find_two(bytes@, from as int, end as int, b1, b2);
    }
    if end - from < 2 {
        return None;
    }
    let mut i: usize = from;
    while i + 1 < end
        invariant
            from <= i,
            i + 1 <= end <= bytes@.len(),
            forall|j: int| from <= j < i ==> !((#[trigger] bytes@[j]) == b1 && bytes@[j + 1] == b2),
            match find_two(bytes@, from as int, end as int, b1, b2) {
                Some(k) => from <= k && k + 1 < end && bytes@[k] == b1 && bytes@[k + 1] == b2 && (
                forall|j: int| from <= j < k ==> !((#[trigger] bytes@[j]) == b1 && bytes@[j + 1] == b2)),
                None => forall|j: int|
                    from <= j && j + 1 < end ==> !((#[trigger] bytes@[j]) == b1 && bytes@[j + 1] == b2),
            },
        decreases end - i,
    {
        if bytes[i] == b1 && bytes[i + 1] == b2 {
            return Some(i);
        }
        i += 1;
    }
    None
}

/// The first index at which the three-byte pattern `b1 b2 b3` occurs.
fn find_three_in(bytes: &[u8], from: usize, end: usize, b1: u8, b2: u8, b3: u8) -> (r: Option<
    usize,
>)
    requires
        from <= end <= bytes@.len(),
    ensures
        match find_three(bytes@, from as int, end as int, b1, b2, b3) {
            Some(i) => r is Some && r->Some_0 as int == i,
            None => r is None,
        },
{
    proof {
        lemma_find_three(bytes@, from as int, end as int, b1, b2, b3);
    }
    if end - from < 3 {
        return None;
    }
    let mut i: usize = from;
    while i + 2 < end
        invariant
            from <= i,
            i + 2 <= end <= bytes@.len(),
            forall|j: int|
                from <= j < i ==> !((#[trigger] bytes@[j]) == b1 && bytes@[j + 1] == b2 && bytes@[j + 2] == b3),
            match find_three(bytes@, from as int, end as int, b1, b2, b3) {
                Some(k) => from <= k && k + 2 < end && bytes@[k] == b1 && bytes@[k + 1] == b2
                    && bytes@[k + 2] == b3 && (forall|j: int|
                    from <= j < k ==> !((#[trigger] bytes@[j]) == b1 && bytes@[j + 1] == b2 && bytes@[j + 2]
                        == b3)),
                None => forall|j: int|
                    from <= j && j + 2 < end ==> !((#[trigger] bytes@[j]) == b1 && bytes@[j + 1] == b2
                        && bytes@[j + 2] == b3),
            },
        decreases end - i,
    {
        if bytes[i] == b1 && bytes[i + 1] == b2 && bytes[i + 2] == b3 {
            return Some(i);
        }
        i += 1;
    }
    None
}

/// The first non-whitespace index in `[from, end)`, or `end`.
fn skip_ws_from(bytes: &[u8], from: usize, end: usize) -> (r: usize)
    requires
        from <= end <= bytes@.len(),
    ensures
        r as int == skip_ws(bytes@, from as int, end as int),
        from <= r <= end,
{
    proof {
        lemma_skip_ws(bytes@, from as int, end as int);
    }
    let mut i: usize = from;
    while i < end
        invariant
            from <= i <= end <= bytes@.len(),
            forall|j: int| from <= j < i ==> is_ws(bytes@[j]),
            from <= skip_ws(bytes@, from as int, end as int) <= end,
            skip_ws(bytes@, from as int, end as int) < end ==> !is_ws(
                bytes@[skip_ws(bytes@, from as int, end as int)],
            ),
            forall|j: int| from <= j < skip_ws(bytes@, from as int, end as int) ==> is_ws(bytes@[j]),
        decreases end - i,
    {
        let b = bytes[i];
        if !(b == 0x20 || b == 0x09 || b == 0x0a || b == 0x0d) {
            proof {
                let s = skip_ws(bytes@, from as int, end as int);
                if s < i as int {
                    assert(is_ws(bytes@[s]));
                } else if s > i as int {
                    assert(is_ws(bytes@[i as int]));
                }
            }
            return i;
        }
        i += 1;
    }
    proof {
        let s = skip_ws(bytes@, from as int, end as int);
        if s < end {
            assert(is_ws(bytes@[s]));
        }
    }
    end
}

/// The first whitespace index in `[from, end)`, or `end`.
fn find_ws_from(bytes: &[u8], from: usize, end: usize) -> (r: usize)
    requires
        from <= end <= bytes@.len(),
    ensures
        r as int == find_ws(bytes@, from as int, end as int),
        from <= r <= end,
{
    proof {
        lemma_find_ws(bytes@, from as int, end as int);
    }
    let mut i: usize = from;
    while i < end
        invariant
            from <= i <= end <= bytes@.len(),
            forall|j: int| from <= j < i ==> !is_ws(bytes@[j]),
            from <= find_ws(bytes@, from as int, end as int) <= end,
            find_ws(bytes@, from as int, end as int) < end ==> is_ws(
                bytes@[find_ws(bytes@, from as int, end as int)],
            ),
            forall|j: int|
                from <= j < find_ws(bytes@, from as int, end as int) ==> !is_ws(bytes@[j]),
        decreases end - i,
    {
        let b = bytes[i];
        if b == 0x20 || b == 0x09 || b == 0x0a || b == 0x0d {
            proof {
                let s = find_ws(bytes@, from as int, end as int);
                if s < i as int {
                    assert(!is_ws(bytes@[s]));
                } else if s > i as int {
                    assert(!is_ws(bytes@[i as int]));
                }
            }
            return i;
        }
        i += 1;
    }
    proof {
        let s = find_ws(bytes@, from as int, end as int);
        if s < end {
            assert(!is_ws(bytes@[s]));
        }
    }
    end
}

/// Reads the attribute list written in `bytes[from..end)`.
fn read_attrs(bytes: &[u8], from: usize, end: usize) -> (r: Result<Vec<Attr>, usize>)
    requires
        from <= end <= bytes@.len(),
    ensures
        match parse_attrs(bytes@, from as int, end as int) {
            Ok(s) => r is Ok && attrs_view(r->Ok_0@) == s,
            Err(e) => r is Err && r->Err_0 as int == e,
        },
{
    let mut acc: Vec<Attr> = Vec::new();
    let mut cur: usize = from;
    proof {
        assert(attrs_view(acc@) =~= Seq::<AttrModel>::empty());
    }
    loop
        invariant
            from <= cur <= end <= bytes@.len(),
            parse_attrs(bytes@, from as int, end as int) == (match parse_attrs(
                bytes@,
                cur as int,
                end as int,
            ) {
                Ok(rest) => Ok::<Seq<AttrModel>, int>(attrs_view(acc@) + rest),
                Err(e) => Err::<Seq<AttrModel>, int>(e),
            }),
        decreases end - cur,
    {
        let ghost gcur = cur as int;
        let ghost gend = end as int;
        proof {
            lemma_skip_ws(bytes@, gcur, gend);
        }
        let j = skip_ws_from(bytes, cur, end);
        if j >= end {
            proof {
                assert(parse_attrs(bytes@, gcur, gend) == Ok::<Seq<AttrModel>, int>(Seq::empty()));
                assert(attrs_view(acc@) + Seq::<AttrModel>::empty() =~= attrs_view(acc@));
            }
            return Ok(acc);
        }
        let eq_opt = find_byte_in(bytes, j, end, B_EQ);
        proof {
            lemma_find_in(bytes@, j as int, gend, B_EQ);
        }
        match eq_opt {
            None => {
                return Err(j);
            },
            Some(eq) => {
                if eq == j {
                    return Err(j);
                }
                let key = match decode_range(bytes, j, eq) {
                    Ok(s) => s,
                    Err(o) => {
                        return Err(o);
                    },
                };
                if end - eq < 2 {
                    return Err(eq + 1);
                }
                let q = bytes[eq + 1];
                if q != B_QUOT && q != B_APOS {
                    return Err(eq + 1);
                }
                let close_opt = find_byte_in(bytes, eq + 2, end, q);
                proof {
                    lemma_find_in(bytes@, eq as int + 2, gend, q);
                }
                match close_opt {
                    None => {
                        return Err(end);
                    },
                    Some(close) => {
                        let value = match decode_range(bytes, eq + 2, close) {
                            Ok(s) => s,
                            Err(o) => {
                                return Err(o);
                            },
                        };
                        let ghost prev_acc = acc@;
                        let a = Attr { name: key, value };
                        let ghost am = a@;
                        acc.push(a);
                        proof {
                            assert(attrs_view(acc@) =~= attrs_view(prev_acc).push(am));
                            let rest_r = parse_attrs(bytes@, close + 1, gend);
                            if rest_r is Ok {
                                assert(attrs_view(prev_acc) + (seq![am] + rest_r->Ok_0)
                                    =~= attrs_view(acc@) + rest_r->Ok_0);
                            }
                        }
                        cur = close + 1;
                    },
                }
            },
        }
    }
}

/// Produces the structural event that begins at offset `pos`, with the
/// offset of the following event; or the offset at which the stream is
/// malformed.
pub fn next_event(bytes: &[u8], pos: usize) -> (r: Result<(XmlEvent, usize), usize>)
    requires
        pos <= bytes@.len(),
    ensures
        match token_at(bytes@, pos as int) {
            Ok(tc) => r is Ok && r->Ok_0.0@ == tc.0 && r->Ok_0.1 as int == pos + tc.1,
            Err(e) => r is Err && r->Err_0 as int == e,
        },
{
    let len = bytes.len();
    let ghost gp = pos as int;
    let ghost glen = len as int;
    if pos >= len {
        return Ok((XmlEvent::Eof, pos));
    }
    if bytes[pos] != B_LT {
        proof {
            lemma_find_in(bytes@, gp, glen, B_LT);
        }
        let end = match find_byte_in(bytes, pos, len, B_LT) {
            Some(i) => i,
            None => len,
        };
        match decode_range(bytes, pos, end) {
            Ok(s) => {
                return Ok((XmlEvent::Text { content: s }, end));
            },
            Err(o) => {
                return Err(o);
            },
        }
    }
    if len - pos < 2 {
        return Err(len);
    }
    if bytes[pos + 1] == B_QUESTION {
        proof {
            lemma_find_two(bytes@, gp + 2, glen, B_QUESTION, B_GT);
        }
        match find_two_in(bytes, pos + 2, len, B_QUESTION, B_GT) {
            Some(i) => {
                return Ok((XmlEvent::Skip, i + 2));
            },
            None => {
                return Err(len);
            },
        }
    }
    if bytes[pos + 1] == B_BANG {
        if len - pos > 3 && bytes[pos + 2] == B_DASH && bytes[pos + 3] == B_DASH {
            proof {
                lemma_find_three(bytes@, gp + 4, glen, B_DASH, B_DASH, B_GT);
            }
            match find_three_in(bytes, pos + 4, len, B_DASH, B_DASH, B_GT) {
                Some(i) => {
                    return Ok((XmlEvent::Skip, i + 3));
                },
                None => {
                    return Err(len);
                },
            }
        }
        let g = match find_byte_in(bytes, pos + 2, len, B_GT) {
            Some(i) => i,
            None => {
                return Err(len);
            },
        };
        proof {
            lemma_find_in(bytes@, gp + 2, glen, B_GT);
            lemma_find_in(bytes@, gp + 2, glen, B_LBRACKET);
        }
        let lb_opt = find_byte_in(bytes, pos + 2, len, B_LBRACKET);
        let end = if lb_opt.is_some() && lb_opt.unwrap() < g {
            let l = lb_opt.unwrap();
            proof {
                lemma_find_in(bytes@, l as int + 1, glen, B_RBRACKET);
            }
            let rb = match find_byte_in(bytes, l + 1, len, B_RBRACKET) {
                Some(i) => i,
                None => {
                    return Err(len);
                },
            };
            proof {
                lemma_find_in(bytes@, rb as int + 1, glen, B_GT);
            }
            match find_byte_in(bytes, rb + 1, len, B_GT) {
                Some(i) => i,
                None => {
                    return Err(len);
                },
            }
        } else {
            g
        };
        let raw = vstd::slice::slice_to_vec(vstd::slice::slice_subrange(bytes, pos, end + 1));
        return Ok((XmlEvent::Meta { raw }, end + 1));
    }
    if bytes[pos + 1] == B_SLASH {
        let g = match find_byte_in(bytes, pos + 2, len, B_GT) {
            Some(i) => i,
            None => {
                return Err(len);
            },
        };
        proof {
            lemma_find_in(bytes@, gp + 2, glen, B_GT);
        }
        match decode_range(bytes, pos + 2, g) {
            Ok(s) => {
                return Ok((XmlEvent::End { name: s }, g + 1));
            },
            Err(o) => {
                return Err(o);
            },
        }
    }
    let g = match find_byte_in(bytes, pos + 1, len, B_GT) {
        Some(i) => i,
        None => {
            return Err(len);
        },
    };
    proof {
        lemma_find_in(bytes@, gp + 1, glen, B_GT);
    }
    let selfclose = bytes[g - 1] == B_SLASH;
    let cend = if selfclose {
        g - 1
    } else {
        g
    };
    if cend <= pos + 1 {
        return Err(pos + 1);
    }
    let ne = find_ws_from(bytes, pos + 1, cend);
    let name = match decode_range(bytes, pos + 1, ne) {
        Ok(s) => s,
        Err(o) => {
            return Err(o);
        },
    };
    match read_attrs(bytes, ne, cend) {
        Ok(attrs) => Ok((XmlEvent::Start { name, attrs, self_closing: selfclose }, g + 1)),
        Err(o) => Err(o),
    }
}

} // verus!
