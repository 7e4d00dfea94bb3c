//! The tag structure of a chunk's bytes: a walk over it that tells whether
//! the bytes can be handed to the decoder.

use vstd::prelude::*;

verus! {

/// How deep lists and compounds may be nested in bytes that are handed to
/// the decoder.
pub const MAX_DEPTH: usize = 512;

/// The unsigned number in the two bytes at `at`, high byte first.
pub open spec fn be_u16(bytes: Seq<u8>, at: int) -> int {
    bytes[at] * 256 + bytes[at + 1]
}

/// The signed number in the four bytes at `at`, high byte first.
pub open spec fn be_i32(bytes: Seq<u8>, at: int) -> int {
    let unsigned = bytes[at] * 16777216 + bytes[at + 1] * 65536 + bytes[at + 2] * 256 + bytes[at
        + 3];
    if unsigned >= 2147483648 {
        unsigned - 4294967296
    } else {
        unsigned
    }
}

/// Where the text that starts at `at` ends: two bytes of length, then that
/// many bytes. Nothing where the bytes stop short.
pub open spec fn text_end(bytes: Seq<u8>, at: int) -> Option<int> {
    if 0 <= at && at + 2 <= bytes.len() && at + 2 + be_u16(bytes, at) <= bytes.len() {
        Some(at + 2 + be_u16(bytes, at))
    } else {
        None
    }
}

/// The number of bytes of a value of a kind with a fixed size: byte, short,
/// int, long, float, double.
pub open spec fn fixed_width(tag: int) -> int {
    if tag == 1 {
        1
    } else if tag == 2 {
        2
    } else if tag == 3 || tag == 5 {
        4
    } else {
        8
    }
}

/// The number of bytes of one element of an array of bytes, ints or longs.
pub open spec fn array_width(tag: int) -> int {
    if tag == 7 {
        1
    } else if tag == 11 {
        4
    } else {
        8
    }
}

/// Where the value of kind `tag` that starts at `at` ends, with lists and
/// compounds nested at most `depth` deep inside it. Nothing where the bytes
/// stop short, a kind is unknown, an array has a negative length, a list of
/// the kind `end` claims elements, or the nesting goes deeper.
pub open spec fn value_end(bytes: Seq<u8>, at: int, tag: int, depth: nat) -> Option<int>
    decreases depth, 0nat, 0nat,
{
    if at < 0 {
        None
    } else if 1 <= tag <= 6 {
        if at + fixed_width(tag) <= bytes.len() {
            Some(at + fixed_width(tag))
        } else {
            None
        }
    } else if tag == 8 {
        text_end(bytes, at)
    } else if tag == 7 || tag == 11 || tag == 12 {
        if at + 4 <= bytes.len() && be_i32(bytes, at) >= 0 && at + 4 + be_i32(bytes, at)
            * array_width(tag) <= bytes.len() {
            Some(at + 4 + be_i32(bytes, at) * array_width(tag))
        } else {
            None
        }
    } else if tag == 9 {
        if depth == 0 || at + 5 > bytes.len() || bytes[at] > 12 {
            None
        } else if be_i32(bytes, at + 1) <= 0 {
            Some(at + 5)
        } else if bytes[at] == 0 {
            None
        } else {
            list_end(
                bytes,
                at + 5,
                bytes[at] as int,
                be_i32(bytes, at + 1) as nat,
                (depth - 1) as nat,
            )
        }
    } else if tag == 10 {
        if depth == 0 {
            None
        } else {
            compound_end(bytes, at, (depth - 1) as nat)
        }
    } else {
        None
    }
}

/// Where `count` values of kind `tag`, one behind the other from `at`, end.
pub open spec fn list_end(bytes: Seq<u8>, at: int, tag: int, count: nat, depth: nat) -> Option<int>
    decreases depth, 1nat, count,
{
    if count == 0 {
        Some(at)
    } else {
        match value_end(bytes, at, tag, depth) {
            None => None,
            Some(next) => list_end(bytes, next, tag, (count - 1) as nat, depth),
        }
    }
}

/// Where the compound whose entries start at `at` ends: each entry is a
/// kind, a name and a value, and the kind `end` closes the compound.
pub open spec fn compound_end(bytes: Seq<u8>, at: int, depth: nat) -> Option<int>
    decreases depth, 1nat, bytes.len() - at,
{
    if at < 0 || at >= bytes.len() {
        None
    } else if bytes[at] == 0 {
        Some(at + 1)
    } else {
        match text_end(bytes, at + 1) {
            None => None,
            Some(named) => match value_end(bytes, named, bytes[at] as int, depth) {
                None => None,
                Some(next) => if next <= at || next > bytes.len() {
                    None
                } else {
                    compound_end(bytes, next, depth)
                },
            },
        }
    }
}

/// The bytes are a named compound, complete, in which no list of the kind
/// `end` claims elements and nothing is nested deeper than [`MAX_DEPTH`].
pub open spec fn payload_is_tame(bytes: Seq<u8>) -> bool {
    &&& bytes.len() >= 1
    &&& bytes[0] == 10
    &&& text_end(bytes, 1) is Some
    &&& compound_end(bytes, text_end(bytes, 1).unwrap(), MAX_DEPTH as nat) is Some
}

/// Reads the two bytes at `at` as an unsigned number.
fn read_u16(data: &Vec<u8>, at: usize) -> (value: usize)
    requires
        at + 2 <= data.len(),
    ensures
        value == be_u16(data@, at as int),
        value < 65536,
{
    (data[at] as usize) * 256 + (data[at + 1] as usize)
}

/// Reads the four bytes at `at` as a signed number.
fn read_i32(data: &Vec<u8>, at: usize) -> (value: i64)
    requires
        at + 4 <= data.len(),
    ensures
        value == be_i32(data@, at as int),
        -2147483648 <= value < 2147483648,
{
    let unsigned: i64 = (data[at] as i64) * 16777216 + (data[at + 1] as i64) * 65536 + (data[at
        + 2] as i64) * 256 + (data[at + 3] as i64);
    if unsigned >= 2147483648 {
        unsigned - 4294967296
    } else {
        unsigned
    }
}

/// Steps over the text that starts at `at`.
fn skip_text(data: &Vec<u8>, at: usize) -> (end: Option<usize>)
    requires
        at <= data.len(),
    ensures
        match end {
            Some(e) => text_end(data@, at as int) == Some(e as int) && at < e <= data.len(),
            None => text_end(data@, at as int) is None,
        },
{
    if data.len() - at < 2 {
        return None;
    }
    let length = read_u16(data, at);
    if data.len() - at - 2 < length {
        return None;
    }
    Some(at + 2 + length)
}

/// Steps over the value of kind `tag` that starts at `at`, going at most
/// `depth` lists and compounds deep.
pub fn skip_value(data: &Vec<u8>, at: usize, tag: u8, depth: usize) -> (end: Option<usize>)
    requires
        at <= data.len(),
    ensures
        match end {
            Some(e) => value_end(data@, at as int, tag as int, depth as nat) == Some(e as int) && e
                <= data.len(),
            None => value_end(data@, at as int, tag as int, depth as nat) is None,
        },
    decreases depth, 0nat,
{
    let left = data.len() - at;
    if 1 <= tag && tag <= 6 {
        let width: usize = if tag == 1 {
            1
        } else if tag == 2 {
            2
        } else if tag == 3 || tag == 5 {
            4
        } else {
            8
        };
        if left < width {
            None
        } else {
            Some(at + width)
        }
    } else if tag == 8 {
        skip_text(data, at)
    } else if tag == 7 || tag == 11 || tag == 12 {
        if left < 4 {
            return None;
        }
        let length = read_i32(data, at);
        if length < 0 {
            return None;
        }
        let width: u64 = if tag == 7 {
            1
        } else if tag == 11 {
            4
        } else {
            8
        };
        let size: u64 = (length as u64) * width;
        if ((left - 4) as u64) < size {
            return None;
        }
        Some(at + 4 + size as usize)
    } else if tag == 9 {
        if depth == 0 || left < 5 || data[at] > 12 {
            return None;
        }
        let element = data[at];
        let count = read_i32(data, at + 1);
        if count <= 0 {
            return Some(at + 5);
        }
        if element == 0 {
            return None;
        }
        let mut cursor: usize = at + 5;
        let mut remaining: i64 = count;
        while remaining > 0
            invariant
                0 <= remaining <= count,
                depth > 0,
                tag == 9,
                at + 5 <= data.len(),
                element == data@[at as int],
                0 < element <= 12,
                count == be_i32(data@, at + 1),
                cursor <= data.len(),
                list_end(
                    data@,
                    cursor as int,
                    element as int,
                    remaining as nat,
                    (depth - 1) as nat,
                ) == list_end(
                    data@,
                    at + 5,
                    element as int,
                    count as nat,
                    (depth - 1) as nat,
                ),
            decreases remaining,
        {
            match skip_value(data, cursor, element, depth - 1) {
                None => {
                    return None;
                },
                Some(next) => {
                    cursor = next;
                    remaining -= 1;
                },
            }
        }
        Some(cursor)
    } else if tag == 10 {
        if depth == 0 {
            None
        } else {
            skip_compound(data, at, depth - 1)
        }
    } else {
        None
    }
}

/// Steps over the entries of a compound that start at `at`, up to and with
/// the `end` that closes it.
pub fn skip_compound(data: &Vec<u8>, at: usize, depth: usize) -> (end: Option<usize>)
    requires
        at <= data.len(),
    ensures
        match end {
            Some(e) => compound_end(data@, at as int, depth as nat) == Some(e as int) && e
                <= data.len(),
            None => compound_end(data@, at as int, depth as nat) is None,
        },
    decreases depth, 1nat,
{
    let mut cursor: usize = at;
    loop
        invariant
            cursor <= data.len(),
            compound_end(data@, cursor as int, depth as nat) == compound_end(
                data@,
                at as int,
                depth as nat,
            ),
        decreases data.len() - cursor,
    {
        if cursor >= data.len() {
            return None;
        }
        let tag = data[cursor];
        if tag == 0 {
            return Some(cursor + 1);
        }
        let named = match skip_text(data, cursor + 1) {
            None => {
                return None;
            },
            Some(named) => named,
        };
        let next = match skip_value(data, named, tag, depth) {
            None => {
                return None;
            },
            Some(next) => next,
        };
        if next <= cursor {
            return None;
        }
        cursor = next;
    }
}

/// Whether the bytes of a chunk can be handed to the decoder: they are a
/// named compound, complete, without a list of the kind `end` that claims
/// elements and without nesting deeper than [`MAX_DEPTH`].
pub fn is_tame_payload(data: &Vec<u8>) -> (tame: bool)
    ensures
        tame == payload_is_tame(data@),
{
    if data.len() < 1 || data[0] != 10 {
        return false;
    }
    match skip_text(data, 1) {
        None => false,
        Some(named) => match skip_compound(data, named, MAX_DEPTH) {
            None => false,
            Some(_) => true,
        },
    }
}

} // verus!
