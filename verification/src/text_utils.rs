//! Conversions between editor positions (UTF-16 code units) and byte
//! offsets within a line.

use vstd::prelude::*;

verus! {

/// How many UTF-16 code units encode `c`.
pub open spec fn spec_utf16_len(c: char) -> int {
    if (c as u32) < 0x10000 {
        1
    } else {
        2
    }
}

/// How many UTF-8 bytes encode `c`.
pub open spec fn spec_utf8_len(c: char) -> int {
    if (c as u32) < 0x80 {
        1
    } else if (c as u32) < 0x800 {
        2
    } else if (c as u32) < 0x10000 {
        3
    } else {
        4
    }
}

fn utf16_len(c: char) -> (r: usize)
    ensures
        r == spec_utf16_len(c),
{
    if (c as u32) < 0x10000 {
        1
    } else {
        2
    }
}

fn utf8_len(c: char) -> (r: usize)
    ensures
        r == spec_utf8_len(c),
{
    if (c as u32) < 0x80 {
        1
    } else if (c as u32) < 0x800 {
        2
    } else if (c as u32) < 0x10000 {
        3
    } else {
        4
    }
}

/// The UTF-16 position of the byte offset `off`: the code units of the
/// characters whose encoding starts before `off`.
pub open spec fn spec_byte_to_utf16(s: Seq<char>, off: int) -> int
    decreases s.len(),
{
    if s.len() == 0 || off <= 0 {
        0
    } else {
        spec_utf16_len(s[0]) + spec_byte_to_utf16(s.drop_first(), off - spec_utf8_len(s[0]))
    }
}

/// The byte offset of the UTF-16 position `ch`: the bytes of the
/// characters consumed strictly before the position is reached; past the
/// end it is the line's byte length.
pub open spec fn spec_utf16_to_byte(s: Seq<char>, ch: int) -> int
    decreases s.len(),
{
    if s.len() == 0 || ch <= 0 {
        0
    } else {
        spec_utf8_len(s[0]) + spec_utf16_to_byte(s.drop_first(), ch - spec_utf16_len(s[0]))
    }
}

/// Convert a byte offset within a line to a UTF-16 position.
pub fn byte_offset_to_utf16_position(line: &str, byte_offset: usize) -> (r: u32)
    requires
        2 * line@.len() <= u32::MAX,
        4 * line@.len() <= usize::MAX,
    ensures
        r == spec_byte_to_utf16(line@, byte_offset as int),
{
    let v = crate::strlib::chars_of(line);
    let n = v.len();
    let mut count: u32 = 0;
    let mut byte_pos: usize = 0;
    let mut i: usize = 0;
    proof {
        assert(line@.subrange(0, n as int) =~= line@);
    }
    while i < n
        invariant
            n == line@.len(),
            v@ == line@,
            i <= n,
            count <= 2 * i,
            byte_pos <= 4 * i,
            spec_byte_to_utf16(line@, byte_offset as int) == count + spec_byte_to_utf16(
                line@.subrange(i as int, n as int),
                byte_offset - byte_pos,
            ),
            2 * n <= u32::MAX,
            4 * n <= usize::MAX,
        decreases n - i,
    {
        if byte_pos >= byte_offset {
            proof {
                assert(spec_byte_to_utf16(line@.subrange(i as int, n as int), byte_offset
                    - byte_pos) == 0);
            }
            return count;
        }
        proof {
            let rest = line@.subrange(i as int, n as int);
            assert(rest[0] == line@[i as int]);
            assert(rest.drop_first() =~= line@.subrange(i + 1, n as int));
        }
        count = count + (utf16_len(v[i]) as u32);
        byte_pos = byte_pos + utf8_len(v[i]);
        i += 1;
    }
    proof {
        assert(line@.subrange(n as int, n as int).len() == 0);
    }
    count
}

/// Convert a UTF-16 position within a line to a byte offset.
pub fn utf16_position_to_byte_offset(line: &str, character: u32) -> (r: usize)
    requires
        4 * line@.len() <= usize::MAX,
    ensures
        r == spec_utf16_to_byte(line@, character as int),
{
    let v = crate::strlib::chars_of(line);
    let n = v.len();
    let mut utf16_count: u64 = 0;
    let mut byte_pos: usize = 0;
    let mut i: usize = 0;
    proof {
        assert(line@.subrange(0, n as int) =~= line@);
    }
    while i < n
        invariant
            n == line@.len(),
            v@ == line@,
            i <= n,
            byte_pos <= 4 * i,
            utf16_count <= 2 * i,
            spec_utf16_to_byte(line@, character as int) == byte_pos + spec_utf16_to_byte(
                line@.subrange(i as int, n as int),
                character - utf16_count,
            ),
            4 * n <= usize::MAX,
        decreases n - i,
    {
        if utf16_count >= character as u64 {
            proof {
                assert(spec_utf16_to_byte(line@.subrange(i as int, n as int), character as int
                    - utf16_count) == 0);
            }
            return byte_pos;
        }
        proof {
            let rest = line@.subrange(i as int, n as int);
            assert(rest[0] == line@[i as int]);
            assert(rest.drop_first() =~= line@.subrange(i + 1, n as int));
        }
        utf16_count = utf16_count + (utf16_len(v[i]) as u64);
        byte_pos = byte_pos + utf8_len(v[i]);
        i += 1;
    }
    proof {
        assert(line@.subrange(n as int, n as int).len() == 0);
    }
    byte_pos
}

} // verus!
