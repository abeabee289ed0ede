//! Cutting string slices at characters, in one pass over the text.

use vstd::prelude::*;
use vstd::std_specs::iter::IteratorSpec;
use vstd::string::StringSliceAdditionalSpecFns;
use vstd::utf8::*;

verus! {

/// The number of bytes that the first `count` characters of `text` take up.
spec fn byte_offset(text: Seq<char>, count: int) -> nat {
    encode_utf8(text.take(count)).len()
}

/// The index of the first `delimiter` in `text`, or the length of `text`
/// where it holds none.
pub open spec fn first_delimiter(text: Seq<char>, delimiter: char) -> nat
    decreases text.len(),
{
    if text.len() == 0 || text[0] == delimiter {
        0
    } else {
        1 + first_delimiter(text.drop_first(), delimiter)
    }
}

/// A line without the carriage return at its end, if it has one.
pub open spec fn strip_return(line: Seq<char>) -> Seq<char> {
    if line.len() > 0 && line.last() == '\r' {
        line.drop_last()
    } else {
        line
    }
}

/// Where `head` holds no delimiter, the first one in `head`, a delimiter and
/// `tail` is the one after `head`.
proof fn lemma_first_delimiter_after(head: Seq<char>, tail: Seq<char>, delimiter: char)
    requires
        !head.contains(delimiter),
    ensures
        first_delimiter(head.push(delimiter) + tail, delimiter) == head.len(),
    decreases head.len(),
{
    let text = head.push(delimiter) + tail;
    if head.len() > 0 {
        assert forall|i: int| 0 <= i < head.drop_first().len() implies head.drop_first()[i]
            != delimiter by {
            assert(head[i + 1] != delimiter);
        }
        assert(text.drop_first() =~= head.drop_first().push(delimiter) + tail);
        lemma_first_delimiter_after(head.drop_first(), tail, delimiter);
    }
}

/// A text without a delimiter has its first delimiter at its end.
proof fn lemma_first_delimiter_none(text: Seq<char>, delimiter: char)
    requires
        !text.contains(delimiter),
    ensures
        first_delimiter(text, delimiter) == text.len(),
    decreases text.len(),
{
    if text.len() > 0 {
        assert forall|i: int| 0 <= i < text.drop_first().len() implies text.drop_first()[i]
            != delimiter by {
            assert(text[i + 1] != delimiter);
        }
        lemma_first_delimiter_none(text.drop_first(), delimiter);
    }
}

/// The bytes of two texts, one after the other, are the bytes of the whole.
proof fn lemma_encode_concat(first: Seq<char>, second: Seq<char>)
    ensures
        encode_utf8(first + second) == encode_utf8(first) + encode_utf8(second),
    decreases first.len(),
{
    if first.len() > 0 {
        let whole = first + second;
        assert(whole.drop_first() =~= first.drop_first() + second);
        lemma_encode_concat(first.drop_first(), second);
    }
}

/// The bytes of a text of one character are the bytes of that character.
proof fn lemma_encode_single(c: char)
    ensures
        encode_utf8(seq![c]) == encode_scalar(c as u32),
{
    let text = seq![c];
    assert(encode_utf8(text.drop_first()) =~= Seq::<u8>::empty());
}

/// A character begins where the characters before it end.
proof fn lemma_offset_is_boundary(text: Seq<char>, count: int)
    requires
        0 <= count <= text.len(),
    ensures
        is_char_boundary(encode_utf8(text), byte_offset(text, count) as int),
        byte_offset(text, count) <= encode_utf8(text).len(),
        encode_utf8(text).subrange(0, byte_offset(text, count) as int) == encode_utf8(
            text.take(count),
        ),
        encode_utf8(text).subrange(
            byte_offset(text, count) as int,
            encode_utf8(text).len() as int,
        ) == encode_utf8(text.skip(count)),
    decreases count,
{
    let bytes = encode_utf8(text);
    let head = text.take(count);
    let tail = text.skip(count);
    assert(text =~= head + tail);
    lemma_encode_concat(head, tail);
    encode_utf8_valid_utf8(text);
    if count > 0 {
        let rest = text.drop_first();
        encode_utf8_first_scalar(text);
        assert(pop_first_scalar(bytes) =~= encode_utf8(rest));
        lemma_offset_is_boundary(rest, count - 1);
        assert(head.drop_first() =~= rest.take(count - 1));
    }
}

/// The number of bytes that a character takes up.
fn encoded_len(c: char) -> (len: usize)
    ensures
        len == encode_scalar(c as u32).len(),
        1 <= len <= 4,
{
    let scalar = c as u32;
    if scalar < 0x80 {
        1
    } else if scalar < 0x800 {
        2
    } else if scalar < 0x10000 {
        3
    } else {
        4
    }
}

/// The characters of `text` from the `from`th up to the `to`th, given the
/// bytes at which they begin and end.
fn between<'a>(
    text: &'a str,
    start: usize,
    end: usize,
    Ghost(from): Ghost<int>,
    Ghost(to): Ghost<int>,
) -> (part: &'a str)
    requires
        0 <= from <= to <= text@.len(),
        start == byte_offset(text@, from),
        end == byte_offset(text@, to),
    ensures
        part@ == text@.subrange(from, to),
{
    proof {
        lemma_offset_is_boundary(text@, to);
    }
    let (front, _) = text.split_at(end);
    proof {
        encode_utf8_decode_utf8(front@);
        encode_utf8_decode_utf8(text@.take(to));
        assert(front@.take(from) =~= text@.take(from));
        lemma_offset_is_boundary(front@, from);
    }
    let (_, part) = front.split_at(start);
    proof {
        encode_utf8_decode_utf8(part@);
        encode_utf8_decode_utf8(front@.skip(from));
    }
    part
}

/// The first delimiter of a text: the byte at which it begins, the number of
/// bytes it takes up, the byte at which the text ends, and the character
/// before the delimiter.
struct Found {
    at: usize,
    width: usize,
    end: usize,
    previous: Option<char>,
    index: Ghost<int>,
}

/// Looks for the first `delimiter` in `text`. `None` where `text` holds none.
fn find(text: &str, delimiter: char) -> (found: Option<Found>)
    ensures
        match found {
            Some(found) => {
                &&& found.index@ == first_delimiter(text@, delimiter)
                &&& 0 <= found.index@ < text@.len()
                &&& found.at == byte_offset(text@, found.index@)
                &&& found.at + found.width == byte_offset(text@, found.index@ + 1)
                &&& found.at + found.width <= found.end == encode_utf8(text@).len()
                &&& found.previous == if found.index@ > 0 {
                    Some(text@[found.index@ - 1])
                } else {
                    None
                }
            },
            None => first_delimiter(text@, delimiter) == text@.len(),
        },
{
    let end = text.as_bytes().len();
    let mut chars = text.chars();
    let mut offset: usize = 0;
    let mut previous: Option<char> = None;
    let ghost mut seen: int = 0;
    loop
        invariant
            0 <= seen <= text@.len(),
            end == encode_utf8(text@).len(),
            offset == byte_offset(text@, seen),
            chars.obeys_prophetic_iter_laws(),
            chars.remaining() == text@.skip(seen),
            !text@.take(seen).contains(delimiter),
            previous == if seen > 0 {
                Some(text@[seen - 1])
            } else {
                None
            },
        decreases text@.len() - seen,
    {
        match chars.next() {
            None => {
                proof {
                    assert(text@.take(seen) =~= text@);
                    lemma_first_delimiter_none(text@, delimiter);
                }
                return None;
            },
            Some(c) => {
                let width = encoded_len(c);
                proof {
                    lemma_offset_is_boundary(text@, seen + 1);
                    lemma_encode_concat(text@.take(seen), seq![c]);
                    assert(text@.take(seen + 1) =~= text@.take(seen) + seq![c]);
                    lemma_encode_single(c);
                }
                if c == delimiter {
                    proof {
                        assert(text@ =~= text@.take(seen).push(delimiter) + text@.skip(seen + 1));
                        lemma_first_delimiter_after(
                            text@.take(seen),
                            text@.skip(seen + 1),
                            delimiter,
                        );
                    }
                    return Some(Found { at: offset, width, end, previous, index: Ghost(seen) });
                }
                offset += width;
                previous = Some(c);
                proof {
                    let grown = text@.take(seen + 1);
                    assert forall|i: int| 0 <= i < grown.len() implies grown[i] != delimiter by {
                        if i < seen {
                            assert(text@.take(seen)[i] != delimiter);
                        }
                    }
                    seen = seen + 1;
                }
            },
        }
    }
}

/// Cuts `text` at its first `delimiter`: what stands before it and what
/// stands after it. `None` where `text` holds no delimiter.
pub(crate) fn split_once<'a>(text: &'a str, delimiter: char) -> (parts: Option<(&'a str, &'a str)>)
    ensures
        match parts {
            Some((head, tail)) => {
                let cut = first_delimiter(text@, delimiter) as int;
                &&& cut < text@.len()
                &&& head@ == text@.take(cut)
                &&& tail@ == text@.skip(cut + 1)
            },
            None => first_delimiter(text@, delimiter) == text@.len(),
        },
{
    match find(text, delimiter) {
        Some(found) => {
            proof {
                assert(text@.take(text@.len() as int) =~= text@);
            }
            let head = between(text, 0, found.at, Ghost(0), found.index);
            let tail = between(
                text,
                found.at + found.width,
                found.end,
                Ghost(found.index@ + 1),
                Ghost(text@.len() as int),
            );
            Some((head, tail))
        },
        None => None,
    }
}

/// Cuts the first line off `text`: the line, without the line feed that ends
/// it and without a carriage return before that line feed, and what follows
/// the line feed. Where `text` holds no line feed, all of it is the line and
/// nothing follows.
pub(crate) fn split_line<'a>(text: &'a str) -> (parts: (&'a str, Option<&'a str>))
    ensures
        match parts.1 {
            Some(tail) => {
                let cut = first_delimiter(text@, '\n') as int;
                &&& cut < text@.len()
                &&& parts.0@ == strip_return(text@.take(cut))
                &&& tail@ == text@.skip(cut + 1)
            },
            None => first_delimiter(text@, '\n') == text@.len() && parts.0@ == text@,
        },
{
    match find(text, '\n') {
        Some(found) => {
            let ghost cut = found.index@;
            proof {
                assert(text@.take(text@.len() as int) =~= text@);
            }
            let tail = between(
                text,
                found.at + found.width,
                found.end,
                Ghost(cut + 1),
                Ghost(text@.len() as int),
            );
            let line = if found.previous == Some('\r') {
                proof {
                    lemma_encode_concat(text@.take(cut - 1), seq!['\r']);
                    assert(text@.take(cut) =~= text@.take(cut - 1) + seq!['\r']);
                    lemma_encode_single('\r');
                }
                between(text, 0, found.at - 1, Ghost(0), Ghost(cut - 1))
            } else {
                between(text, 0, found.at, Ghost(0), Ghost(cut))
            };
            (line, Some(tail))
        },
        None => (text, None),
    }
}

} // verus!
