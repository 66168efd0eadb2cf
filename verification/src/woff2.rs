//! A strict WOFF2 → SFNT decoder.
//!
//! WOFF2 (`wOF2`) wraps an OpenType/TrueType font in a single Brotli stream plus a compact table
//! directory. A browser must DECODE a well-formed WOFF2 (so the page's web font renders) and
//! REJECT a malformed one (so it falls back). This decoder is deliberately conservative: anything
//! that doesn't validate cleanly returns `None`, so the caller falls back to the next
//! `@font-face` source.
//!
//! Supported: fonts whose tables are all stored untransformed (the null transform: version 3
//! for `glyf`/`loca`, version 0 for every other table). Rejected: real table transforms and
//! `ttcf` font collections.
//!
//! Table tags are handled as big-endian `u32` values; comparing them numerically is the same
//! as comparing the four tag bytes.

use std::io::Read;
use vstd::prelude::*;

verus! {

/// WOFF2 file signature, `wOF2` big-endian.
pub const WOFF2_SIGNATURE: u32 = 0x774F_4632;

/// `ttcf` — a font collection, which needs a different reconstruction path.
pub const TTC_FLAVOR: u32 = 0x7474_6366;

pub const TAG_GLYF: u32 = 0x676C_7966;

pub const TAG_LOCA: u32 = 0x6C6F_6361;

// ---------------------------------------------------------------------------------------------
// Primitive readers
// ---------------------------------------------------------------------------------------------

/// Big-endian 16-bit value at `off`.
pub open spec fn be16(b: Seq<u8>, off: int) -> int {
    b[off] * 256 + b[off + 1]
}

/// Big-endian 32-bit value at `off`.
pub open spec fn be32(b: Seq<u8>, off: int) -> int {
    ((b[off] * 256 + b[off + 1]) * 256 + b[off + 2]) * 256 + b[off + 3]
}

/// `n` rounded up to a multiple of 4, computed with a saturating `n + 3`.
pub open spec fn spec_round4(n: int) -> int {
    let m = if n + 3 > usize::MAX { usize::MAX as int } else { n + 3 };
    m - m % 4
}

/// Round `n` up to the next multiple of 4 (SFNT/WOFF2 block alignment), saturating.
pub fn round4(n: usize) -> (r: usize)
    ensures
        r == spec_round4(n as int),
{
    let m = n.saturating_add(3);
    assert(m & !3usize == m - m % 4) by (bit_vector);
    m & !3usize
}

/// Rounding up to a multiple of four lands on a multiple of four at most three above `n`.
pub proof fn law_round4(n: int)
    requires
        0 <= n <= usize::MAX - 3,
    ensures
        spec_round4(n) % 4 == 0,
        n <= spec_round4(n) < n + 4,
        n % 4 == 0 ==> spec_round4(n) == n,
{
}

/// Read a big-endian `u16` at `off`, or `None` if out of range.
pub fn read_u16(b: &[u8], off: usize) -> (r: Option<u16>)
    requires
        off <= usize::MAX - 2,
    ensures
        match r {
            Some(v) => off + 2 <= b@.len() && v == be16(b@, off as int),
            None => off + 2 > b@.len(),
        },
{
    if off + 2 > b.len() {
        return None;
    }
    Some((b[off] as u16) * 256 + (b[off + 1] as u16))
}

/// Read a big-endian `u32` at `off`, or `None` if out of range.
pub fn read_u32(b: &[u8], off: usize) -> (r: Option<u32>)
    requires
        off <= usize::MAX - 4,
    ensures
        match r {
            Some(v) => off + 4 <= b@.len() && v == be32(b@, off as int),
            None => off + 4 > b@.len(),
        },
{
    if off + 4 > b.len() {
        return None;
    }
    Some(((((b[off] as u32) * 256 + (b[off + 1] as u32)) * 256 + (b[off + 2] as u32)) * 256) + (
    b[off + 3] as u32))
}

/// A `UIntBase128` read from byte `off`, as the `i`-th byte of the value with `acc` accumulated
/// so far: the value (or `None`) and the offset reached. At most five bytes; a leading `0x80`
/// byte (a leading zero) is rejected, as is any value that would need more than 32 bits.
pub open spec fn base128_from(b: Seq<u8>, off: int, i: int, acc: int) -> (Option<u32>, int)
    decreases 5 - i,
{
    if i >= 5 || off >= b.len() || off < 0 {
        (None, off)
    } else {
        let byte = b[off];
        if i == 0 && byte == 0x80 {
            (None, off + 1)
        } else if acc >= 0x0200_0000 {
            (None, off + 1)
        } else {
            let acc2 = acc * 128 + byte % 128;
            if byte < 128 {
                (Some(acc2 as u32), off + 1)
            } else {
                base128_from(b, off + 1, i + 1, acc2)
            }
        }
    }
}

pub open spec fn spec_read_base128(b: Seq<u8>, off: int) -> (Option<u32>, int) {
    base128_from(b, off, 0, 0)
}

/// Decode a `UIntBase128` value at `*off`, advancing `*off` past every byte examined.
pub fn read_base128(b: &[u8], off: &mut usize) -> (r: Option<u32>)
    ensures
        (r, *final(off) as int) == spec_read_base128(b@, *old(off) as int),
{
    let mut accum: u32 = 0;
    let mut i: usize = 0;
    while i < 5
        invariant
            0 <= i <= 5,
            accum < 0x1_0000_0000,
            i == 0 ==> accum == 0,
            base128_from(b@, *old(off) as int, 0, 0) == base128_from(b@, *off as int, i as int, accum as int),
        decreases 5 - i,
    {
        if *off >= b.len() {
            return None;
        }
        let byte = b[*off];
        *off += 1;
        if i == 0 && byte == 0x80 {
            return None;
        }
        assert((accum & 0xFE00_0000u32 != 0) == (accum >= 0x0200_0000)) by (bit_vector);
        if accum & 0xFE00_0000u32 != 0 {
            return None;
        }
        let low: u32 = (byte as u32) & 0x7F;
        assert(low == byte % 128) by (bit_vector)
            requires
                low == (byte as u32) & 0x7F,
        ;
        assert((accum << 7u32) | low == accum * 128 + low) by (bit_vector)
            requires
                accum < 0x0200_0000,
                low < 128,
        ;
        accum = (accum << 7u32) | low;
        assert((byte & 0x80u8 == 0) == (byte < 128)) by (bit_vector);
        if byte & 0x80u8 == 0 {
            return Some(accum);
        }
        i += 1;
    }
    None
}

pub open spec fn spec_known_tag(i: int) -> u32 {
    if i == 0 {
        0x636D6170 // cmap
    } else if i == 1 {
        0x68656164 // head
    } else if i == 2 {
        0x68686561 // hhea
    } else if i == 3 {
        0x686D7478 // hmtx
    } else if i == 4 {
        0x6D617870 // maxp
    } else if i == 5 {
        0x6E616D65 // name
    } else if i == 6 {
        0x4F532F32 // OS/2
    } else if i == 7 {
        0x706F7374 // post
    } else if i == 8 {
        0x63767420 // cvt 
    } else if i == 9 {
        0x6670676D // fpgm
    } else if i == 10 {
        0x676C7966 // glyf
    } else if i == 11 {
        0x6C6F6361 // loca
    } else if i == 12 {
        0x70726570 // prep
    } else if i == 13 {
        0x43464620 // CFF 
    } else if i == 14 {
        0x564F5247 // VORG
    } else if i == 15 {
        0x45424454 // EBDT
    } else if i == 16 {
        0x45424C43 // EBLC
    } else if i == 17 {
        0x67617370 // gasp
    } else if i == 18 {
        0x68646D78 // hdmx
    } else if i == 19 {
        0x6B65726E // kern
    } else if i == 20 {
        0x4C545348 // LTSH
    } else if i == 21 {
        0x50434C54 // PCLT
    } else if i == 22 {
        0x56444D58 // VDMX
    } else if i == 23 {
        0x76686561 // vhea
    } else if i == 24 {
        0x766D7478 // vmtx
    } else if i == 25 {
        0x42415345 // BASE
    } else if i == 26 {
        0x47444546 // GDEF
    } else if i == 27 {
        0x47504F53 // GPOS
    } else if i == 28 {
        0x47535542 // GSUB
    } else if i == 29 {
        0x45425343 // EBSC
    } else if i == 30 {
        0x4A535446 // JSTF
    } else if i == 31 {
        0x4D415448 // MATH
    } else if i == 32 {
        0x43424454 // CBDT
    } else if i == 33 {
        0x43424C43 // CBLC
    } else if i == 34 {
        0x434F4C52 // COLR
    } else if i == 35 {
        0x4350414C // CPAL
    } else if i == 36 {
        0x53564720 // SVG 
    } else if i == 37 {
        0x73626978 // sbix
    } else if i == 38 {
        0x61636E74 // acnt
    } else if i == 39 {
        0x61766172 // avar
    } else if i == 40 {
        0x62646174 // bdat
    } else if i == 41 {
        0x626C6F63 // bloc
    } else if i == 42 {
        0x62736C6E // bsln
    } else if i == 43 {
        0x63766172 // cvar
    } else if i == 44 {
        0x66647363 // fdsc
    } else if i == 45 {
        0x66656174 // feat
    } else if i == 46 {
        0x666D7478 // fmtx
    } else if i == 47 {
        0x66766172 // fvar
    } else if i == 48 {
        0x67766172 // gvar
    } else if i == 49 {
        0x68737479 // hsty
    } else if i == 50 {
        0x6A757374 // just
    } else if i == 51 {
        0x6C636172 // lcar
    } else if i == 52 {
        0x6D6F7274 // mort
    } else if i == 53 {
        0x6D6F7278 // morx
    } else if i == 54 {
        0x6F706264 // opbd
    } else if i == 55 {
        0x70726F70 // prop
    } else if i == 56 {
        0x7472616B // trak
    } else if i == 57 {
        0x5A617066 // Zapf
    } else if i == 58 {
        0x53696C66 // Silf
    } else if i == 59 {
        0x476C6174 // Glat
    } else if i == 60 {
        0x476C6F63 // Gloc
    } else if i == 61 {
        0x46656174 // Feat
    } else if i == 62 {
        0x53696C6C // Sill
    } else {
        0
    }
}

/// The table tags that a WOFF2 directory entry names by index, in the order the WOFF2
/// specification lists them (index 63 escapes to an explicit tag).
pub open spec fn woff2_tag_name(i: int) -> Seq<char> {
    if i == 0 {
        seq!['c', 'm', 'a', 'p']
    } else if i == 1 {
        seq!['h', 'e', 'a', 'd']
    } else if i == 2 {
        seq!['h', 'h', 'e', 'a']
    } else if i == 3 {
        seq!['h', 'm', 't', 'x']
    } else if i == 4 {
        seq!['m', 'a', 'x', 'p']
    } else if i == 5 {
        seq!['n', 'a', 'm', 'e']
    } else if i == 6 {
        seq!['O', 'S', '/', '2']
    } else if i == 7 {
        seq!['p', 'o', 's', 't']
    } else if i == 8 {
        seq!['c', 'v', 't', ' ']
    } else if i == 9 {
        seq!['f', 'p', 'g', 'm']
    } else if i == 10 {
        seq!['g', 'l', 'y', 'f']
    } else if i == 11 {
        seq!['l', 'o', 'c', 'a']
    } else if i == 12 {
        seq!['p', 'r', 'e', 'p']
    } else if i == 13 {
        seq!['C', 'F', 'F', ' ']
    } else if i == 14 {
        seq!['V', 'O', 'R', 'G']
    } else if i == 15 {
        seq!['E', 'B', 'D', 'T']
    } else if i == 16 {
        seq!['E', 'B', 'L', 'C']
    } else if i == 17 {
        seq!['g', 'a', 's', 'p']
    } else if i == 18 {
        seq!['h', 'd', 'm', 'x']
    } else if i == 19 {
        seq!['k', 'e', 'r', 'n']
    } else if i == 20 {
        seq!['L', 'T', 'S', 'H']
    } else if i == 21 {
        seq!['P', 'C', 'L', 'T']
    } else if i == 22 {
        seq!['V', 'D', 'M', 'X']
    } else if i == 23 {
        seq!['v', 'h', 'e', 'a']
    } else if i == 24 {
        seq!['v', 'm', 't', 'x']
    } else if i == 25 {
        seq!['B', 'A', 'S', 'E']
    } else if i == 26 {
        seq!['G', 'D', 'E', 'F']
    } else if i == 27 {
        seq!['G', 'P', 'O', 'S']
    } else if i == 28 {
        seq!['G', 'S', 'U', 'B']
    } else if i == 29 {
        seq!['E', 'B', 'S', 'C']
    } else if i == 30 {
        seq!['J', 'S', 'T', 'F']
    } else if i == 31 {
        seq!['M', 'A', 'T', 'H']
    } else if i == 32 {
        seq!['C', 'B', 'D', 'T']
    } else if i == 33 {
        seq!['C', 'B', 'L', 'C']
    } else if i == 34 {
        seq!['C', 'O', 'L', 'R']
    } else if i == 35 {
        seq!['C', 'P', 'A', 'L']
    } else if i == 36 {
        seq!['S', 'V', 'G', ' ']
    } else if i == 37 {
        seq!['s', 'b', 'i', 'x']
    } else if i == 38 {
        seq!['a', 'c', 'n', 't']
    } else if i == 39 {
        seq!['a', 'v', 'a', 'r']
    } else if i == 40 {
        seq!['b', 'd', 'a', 't']
    } else if i == 41 {
        seq!['b', 'l', 'o', 'c']
    } else if i == 42 {
        seq!['b', 's', 'l', 'n']
    } else if i == 43 {
        seq!['c', 'v', 'a', 'r']
    } else if i == 44 {
        seq!['f', 'd', 's', 'c']
    } else if i == 45 {
        seq!['f', 'e', 'a', 't']
    } else if i == 46 {
        seq!['f', 'm', 't', 'x']
    } else if i == 47 {
        seq!['f', 'v', 'a', 'r']
    } else if i == 48 {
        seq!['g', 'v', 'a', 'r']
    } else if i == 49 {
        seq!['h', 's', 't', 'y']
    } else if i == 50 {
        seq!['j', 'u', 's', 't']
    } else if i == 51 {
        seq!['l', 'c', 'a', 'r']
    } else if i == 52 {
        seq!['m', 'o', 'r', 't']
    } else if i == 53 {
        seq!['m', 'o', 'r', 'x']
    } else if i == 54 {
        seq!['o', 'p', 'b', 'd']
    } else if i == 55 {
        seq!['p', 'r', 'o', 'p']
    } else if i == 56 {
        seq!['t', 'r', 'a', 'k']
    } else if i == 57 {
        seq!['Z', 'a', 'p', 'f']
    } else if i == 58 {
        seq!['S', 'i', 'l', 'f']
    } else if i == 59 {
        seq!['G', 'l', 'a', 't']
    } else if i == 60 {
        seq!['G', 'l', 'o', 'c']
    } else if i == 61 {
        seq!['F', 'e', 'a', 't']
    } else if i == 62 {
        seq!['S', 'i', 'l', 'l']
    } else {
        seq![]
    }
}

/// A four-character tag as a big-endian `u32`, as it is stored in an SFNT table record.
pub open spec fn tag_code(t: Seq<char>) -> int {
    (t[0] as int) * 0x1000000 + (t[1] as int) * 0x10000 + (t[2] as int) * 0x100 + (t[3] as int)
}

/// Index `i` of a directory entry stands for the `i`-th tag of the WOFF2 specification's list
/// (`cmap`, `head`, `hhea`, `hmtx`, `maxp`, `name`, `OS/2`, `post`, ...), encoded as the
/// SFNT table record stores it; and no two indices name the same table.
pub proof fn law_known_tags_follow_the_specification()
    ensures
        forall|i: int| 0 <= i < 63 ==> #[trigger] spec_known_tag(i) as int == tag_code(woff2_tag_name(i)),
        forall|i: int, j: int| 0 <= i < j < 63 ==> #[trigger] spec_known_tag(i) != #[trigger] spec_known_tag(j),
{
    assert forall|i: int| 0 <= i < 63 implies #[trigger] spec_known_tag(i) as int == tag_code(woff2_tag_name(i)) by {
    }
}

/// The well-known table tag with index `i` (0 for an index outside the table).
fn known_tag(i: u8) -> (t: u32)
    ensures
        t == spec_known_tag(i as int),
{
    match i {
        0 => 0x636D6170,
        1 => 0x68656164,
        2 => 0x68686561,
        3 => 0x686D7478,
        4 => 0x6D617870,
        5 => 0x6E616D65,
        6 => 0x4F532F32,
        7 => 0x706F7374,
        8 => 0x63767420,
        9 => 0x6670676D,
        10 => 0x676C7966,
        11 => 0x6C6F6361,
        12 => 0x70726570,
        13 => 0x43464620,
        14 => 0x564F5247,
        15 => 0x45424454,
        16 => 0x45424C43,
        17 => 0x67617370,
        18 => 0x68646D78,
        19 => 0x6B65726E,
        20 => 0x4C545348,
        21 => 0x50434C54,
        22 => 0x56444D58,
        23 => 0x76686561,
        24 => 0x766D7478,
        25 => 0x42415345,
        26 => 0x47444546,
        27 => 0x47504F53,
        28 => 0x47535542,
        29 => 0x45425343,
        30 => 0x4A535446,
        31 => 0x4D415448,
        32 => 0x43424454,
        33 => 0x43424C43,
        34 => 0x434F4C52,
        35 => 0x4350414C,
        36 => 0x53564720,
        37 => 0x73626978,
        38 => 0x61636E74,
        39 => 0x61766172,
        40 => 0x62646174,
        41 => 0x626C6F63,
        42 => 0x62736C6E,
        43 => 0x63766172,
        44 => 0x66647363,
        45 => 0x66656174,
        46 => 0x666D7478,
        47 => 0x66766172,
        48 => 0x67766172,
        49 => 0x68737479,
        50 => 0x6A757374,
        51 => 0x6C636172,
        52 => 0x6D6F7274,
        53 => 0x6D6F7278,
        54 => 0x6F706264,
        55 => 0x70726F70,
        56 => 0x7472616B,
        57 => 0x5A617066,
        58 => 0x53696C66,
        59 => 0x476C6174,
        60 => 0x476C6F63,
        61 => 0x46656174,
        62 => 0x53696C6C,
        _ => 0,
    }
}

// ---------------------------------------------------------------------------------------------
// Table directory (WOFF2 §5)
// ---------------------------------------------------------------------------------------------

/// Whether a table carries the null transform (the only one this decoder reconstructs):
/// version 3 for `glyf`/`loca`, version 0 for everything else.
pub open spec fn null_transform(tag: u32, version: int) -> bool {
    if tag == TAG_GLYF || tag == TAG_LOCA {
        version == 3
    } else {
        version == 0
    }
}

/// The directory entry at `off`: its tag, its `origLength`, and the offset just past it.
/// `None` for a truncated entry, a malformed length, or a real (non-null) transform.
pub open spec fn spec_entry(data: Seq<u8>, off: int) -> Option<(u32, u32, int)> {
    if off < 0 || off >= data.len() {
        None
    } else {
        let flags = data[off];
        let tag_index = flags % 64;
        let version = flags / 64;
        let explicit = tag_index == 63;
        if explicit && off + 5 > data.len() {
            None
        } else {
            let tag: u32 = if explicit { be32(data, off + 1) as u32 } else { spec_known_tag(tag_index as int) };
            let len_at = if explicit { off + 5 } else { off + 1 };
            match spec_read_base128(data, len_at) {
                (Some(len), next) => if null_transform(tag, version as int) {
                    Some((tag, len, next))
                } else {
                    None
                },
                (None, _) => None,
            }
        }
    }
}

/// Parse one directory entry at `off`.
fn read_entry(data: &[u8], off: usize) -> (r: Option<(u32, u32, usize)>)
    ensures
        match r {
            Some((tag, len, next)) => spec_entry(data@, off as int) == Some((tag, len, next as int)),
            None => spec_entry(data@, off as int) is None,
        },
{
    if off >= data.len() {
        return None;
    }
    let flags = data[off];
    let mut pos = off + 1;
    let tag_index: u8 = flags & 0x3f;
    assert(tag_index == flags % 64) by (bit_vector)
        requires
            tag_index == flags & 0x3f,
    ;
    let tag: u32 = if tag_index == 0x3f {
        if data.len() - pos < 4 {
            return None;
        }
        match read_u32(data, pos) {
            Some(t) => {
                pos = pos + 4;
                t
            },
            None => {
                return None;
            },
        }
    } else {
        known_tag(tag_index)
    };
    let version: u8 = (flags >> 6u8) & 0x3;
    assert(version == flags / 64) by (bit_vector)
        requires
            version == (flags >> 6u8) & 0x3,
    ;
    let len = match read_base128(data, &mut pos) {
        Some(v) => v,
        None => {
            return None;
        },
    };
    let null = if tag == TAG_GLYF || tag == TAG_LOCA {
        version == 3
    } else {
        version == 0
    };
    if !null {
        return None;
    }
    Some((tag, len, pos))
}

/// The entries, the offset reached and the running total of `origLength`s after parsing the
/// first `k` directory entries; `None` once an entry is malformed or the total overflows.
pub open spec fn dir_state(data: Seq<u8>, k: int) -> Option<(Seq<(u32, u32)>, int, int)>
    decreases k,
{
    if k <= 0 {
        Some((seq![], 48int, 0int))
    } else {
        match dir_state(data, k - 1) {
            None => None,
            Some((entries, off, total)) => match spec_entry(data, off) {
                None => None,
                Some((tag, len, next)) => if total + len > usize::MAX {
                    None
                } else {
                    Some((entries.push((tag, len)), next, total + len))
                },
            },
        }
    }
}

/// Sum of the `origLength`s of `entries`.
pub open spec fn lens_sum(entries: Seq<(u32, u32)>) -> int
    decreases entries.len(),
{
    if entries.len() == 0 {
        0
    } else {
        lens_sum(entries.drop_last()) + entries.last().1
    }
}

proof fn lemma_dir_state(data: Seq<u8>, k: int)
    requires
        k >= 0,
        dir_state(data, k) is Some,
    ensures
        ({
            let (entries, off, total) = dir_state(data, k).unwrap();
            &&& entries.len() == k
            &&& total == lens_sum(entries)
            &&& 48 <= off <= data.len() || (k == 0 && off == 48)
            &&& 0 <= total <= usize::MAX
        }),
    decreases k,
{
    if k > 0 {
        lemma_dir_state(data, k - 1);
        let (entries, off, total) = dir_state(data, k - 1).unwrap();
        let (tag, len, next) = spec_entry(data, off).unwrap();
        assert(entries.push((tag, len)).drop_last() =~= entries);
        lemma_base128_offset(data, if data[off] % 64 == 63 { off + 5 } else { off + 1 }, 0, 0);
    }
}

proof fn lemma_base128_offset(b: Seq<u8>, off: int, i: int, acc: int)
    requires
        0 <= off,
        base128_from(b, off, i, acc).0 is Some,
    ensures
        off < base128_from(b, off, i, acc).1 <= b.len(),
    decreases 5 - i,
{
    if i < 5 && off < b.len() {
        let byte = b[off];
        if !(i == 0 && byte == 0x80) && acc < 0x0200_0000 && byte >= 128 {
            lemma_base128_offset(b, off + 1, i + 1, acc * 128 + byte % 128);
        }
    }
}

// ---------------------------------------------------------------------------------------------
// Block layout (WOFF2 §3: blocks are tightly packed, 4-byte aligned)
// ---------------------------------------------------------------------------------------------

/// Where a file whose compressed block starts at `dir_end` must end, given the header's block
/// fields; `None` when the blocks are misplaced, overlap, overflow, or run past `len` bytes.
/// The compressed block is padded to 4 bytes so a following block starts aligned; the final
/// block is not padded.
pub open spec fn spec_blocks_end(
    len: int,
    dir_end: int,
    comp_size: int,
    meta_offset: int,
    meta_length: int,
    priv_offset: int,
    priv_length: int,
) -> Option<int> {
    let comp_end = dir_end + comp_size;
    if comp_end > usize::MAX || comp_end > len {
        None
    } else {
        let after_comp = spec_round4(comp_end);
        if meta_length != 0 {
            let meta_end = meta_offset + meta_length;
            if meta_offset != after_comp || meta_end > usize::MAX || meta_end > len {
                None
            } else if priv_length != 0 {
                let priv_end = priv_offset + priv_length;
                if priv_end > usize::MAX || priv_offset != spec_round4(meta_end) || priv_end > len {
                    None
                } else {
                    Some(priv_end)
                }
            } else if priv_offset != 0 {
                None
            } else {
                Some(meta_end)
            }
        } else if meta_offset != 0 {
            None
        } else if priv_length != 0 {
            let priv_end = priv_offset + priv_length;
            if priv_end > usize::MAX || priv_offset != after_comp || priv_end > len {
                None
            } else {
                Some(priv_end)
            }
        } else if priv_offset != 0 {
            None
        } else {
            Some(after_comp)
        }
    }
}

/// Validate the block layout, returning where the compressed block ends.
fn check_blocks(
    len: usize,
    dir_end: usize,
    comp_size: usize,
    meta_offset: usize,
    meta_length: usize,
    priv_offset: usize,
    priv_length: usize,
) -> (r: Option<usize>)
    ensures
        match r {
            Some(comp_end) => comp_end == dir_end + comp_size && spec_blocks_end(
                len as int,
                dir_end as int,
                comp_size as int,
                meta_offset as int,
                meta_length as int,
                priv_offset as int,
                priv_length as int,
            ) == Some(len as int),
            None => spec_blocks_end(
                len as int,
                dir_end as int,
                comp_size as int,
                meta_offset as int,
                meta_length as int,
                priv_offset as int,
                priv_length as int,
            ) != Some(len as int),
        },
{
    let comp_end = match dir_end.checked_add(comp_size) {
        Some(e) => e,
        None => {
            return None;
        },
    };
    if comp_end > len {
        return None;
    }
    let after_comp = round4(comp_end);
    let mut expected_end = after_comp;
    if meta_length != 0 {
        if meta_offset != after_comp {
            return None;
        }
        let meta_end = match meta_offset.checked_add(meta_length) {
            Some(e) => e,
            None => {
                return None;
            },
        };
        if meta_end > len {
            return None;
        }
        if priv_length != 0 {
            let priv_end = match priv_offset.checked_add(priv_length) {
                Some(e) => e,
                None => {
                    return None;
                },
            };
            if priv_offset != round4(meta_end) || priv_end > len {
                return None;
            }
            expected_end = priv_end;
        } else if priv_offset != 0 {
            return None;
        } else {
            expected_end = meta_end;
        }
    } else if meta_offset != 0 {
        return None;
    } else if priv_length != 0 {
        let priv_end = match priv_offset.checked_add(priv_length) {
            Some(e) => e,
            None => {
                return None;
            },
        };
        if priv_offset != after_comp || priv_end > len {
            return None;
        }
        expected_end = priv_end;
    } else if priv_offset != 0 {
        return None;
    }
    if expected_end != len {
        return None;
    }
    Some(comp_end)
}

// ---------------------------------------------------------------------------------------------
// SFNT assembly
// ---------------------------------------------------------------------------------------------

pub open spec fn be16_bytes(v: int) -> Seq<u8> {
    seq![((v / 256) % 256) as u8, (v % 256) as u8]
}

pub open spec fn be32_bytes(v: int) -> Seq<u8> {
    seq![((v / 16777216) % 256) as u8, ((v / 65536) % 256) as u8, ((v / 256) % 256) as u8, (v % 256) as u8]
}

fn push_be16(out: &mut Vec<u8>, v: u16)
    ensures
        final(out)@ == old(out)@ + be16_bytes(v as int),
{
    out.push((v / 256) as u8);
    out.push((v % 256) as u8);
    assert(final(out)@ =~= old(out)@ + be16_bytes(v as int));
}

fn push_be32(out: &mut Vec<u8>, v: u32)
    ensures
        final(out)@ == old(out)@ + be32_bytes(v as int),
{
    out.push((v / 16777216) as u8);
    out.push(((v / 65536) % 256) as u8);
    out.push(((v / 256) % 256) as u8);
    out.push((v % 256) as u8);
    assert(final(out)@ =~= old(out)@ + be32_bytes(v as int));
}

/// Byte `i` of `b`, or 0 past its end (checksums zero-pad the last word).
pub open spec fn byte_or0(b: Seq<u8>, i: int) -> int {
    if 0 <= i < b.len() {
        b[i] as int
    } else {
        0
    }
}

/// The zero-padded big-endian word starting at byte `i`.
pub open spec fn word_at(b: Seq<u8>, i: int) -> int {
    byte_or0(b, i) * 16777216 + byte_or0(b, i + 1) * 65536 + byte_or0(b, i + 2) * 256 + byte_or0(
        b,
        i + 3,
    )
}

/// The wrapping sum of the first `w` words of `b`.
pub open spec fn checksum_upto(b: Seq<u8>, w: int) -> int
    decreases w,
{
    if w <= 0 {
        0
    } else {
        (checksum_upto(b, w - 1) + word_at(b, 4 * (w - 1))) % 4294967296
    }
}

/// SFNT table checksum: the wrapping sum of the table's big-endian u32 words (zero-padded).
pub open spec fn spec_checksum(b: Seq<u8>) -> int {
    checksum_upto(b, ((b.len() + 3) / 4) as int)
}

/// SFNT table checksum: the wrapping sum of the table's big-endian u32 words (zero-padded).
pub fn checksum(bytes: &[u8]) -> (r: u32)
    ensures
        r == spec_checksum(bytes@),
{
    let n = bytes.len();
    let mut sum: u32 = 0;
    let mut i: usize = 0;
    let mut w: usize = 0;
    while i < n
        invariant
            n == bytes@.len(),
            i == 4 * w || (i == n && w == (n + 3) / 4),
            i <= n,
            0 <= checksum_upto(bytes@, w as int) < 4294967296,
            sum == checksum_upto(bytes@, w as int),
        decreases n - i,
    {
        let b0: u32 = bytes[i] as u32;
        let b1: u32 = if n - i > 1 { bytes[i + 1] as u32 } else { 0 };
        let b2: u32 = if n - i > 2 { bytes[i + 2] as u32 } else { 0 };
        let b3: u32 = if n - i > 3 { bytes[i + 3] as u32 } else { 0 };
        let word: u32 = b0 * 16777216 + b1 * 65536 + b2 * 256 + b3;
        assert(word == word_at(bytes@, i as int));
        sum = sum.wrapping_add(word);
        w = w + 1;
        if n - i <= 4 {
            i = n;
            assert((n + 3) / 4 == w);
        } else {
            i = i + 4;
        }
    }
    assert((n + 3) / 4 == w);
    sum
}

/// `2^e`.
pub open spec fn pow2i(e: nat) -> int
    decreases e,
{
    if e == 0 {
        1
    } else {
        2 * pow2i((e - 1) as nat)
    }
}

/// The largest `e` (scanning up from `e`, at most 16) with `2^e <= n`.
pub open spec fn selector_from(n: int, e: nat) -> nat
    decreases 16 - e,
{
    if e < 16 && pow2i(e + 1) <= n {
        selector_from(n, e + 1)
    } else {
        e
    }
}

/// SFNT `entrySelector`: `floor(log2(numTables))`.
pub open spec fn entry_selector(n: int) -> nat {
    selector_from(n, 0)
}

/// The 12-byte SFNT offset table for `n` tables.
pub open spec fn sfnt_header(flavor: u32, n: int) -> Seq<u8> {
    let es = entry_selector(n);
    let search_range = pow2i(es) * 16;
    let range_shift = (n * 16 - search_range + 65536) % 65536;
    be32_bytes(flavor as int) + be16_bytes(n) + be16_bytes(search_range) + be16_bytes(es as int)
        + be16_bytes(range_shift)
}

/// Sum of the 4-byte-aligned sizes of the first `i` tables.
pub open spec fn aligned_sum(tables: Seq<(u32, Seq<u8>)>, i: int) -> int
    decreases i,
{
    if i <= 0 {
        0
    } else {
        aligned_sum(tables, i - 1) + spec_round4(tables[i - 1].1.len() as int)
    }
}

/// Where table `i`'s data starts in the assembled SFNT.
pub open spec fn table_offset(tables: Seq<(u32, Seq<u8>)>, i: int) -> int {
    12 + 16 * tables.len() + aligned_sum(tables, i)
}

/// The 16-byte table record of table `i`: tag, checksum, offset, length.
pub open spec fn table_record(tables: Seq<(u32, Seq<u8>)>, i: int) -> Seq<u8> {
    be32_bytes(tables[i].0 as int) + be32_bytes(spec_checksum(tables[i].1)) + be32_bytes(
        table_offset(tables, i) % 4294967296,
    ) + be32_bytes((tables[i].1.len() % 4294967296) as int)
}

/// Table data followed by zero bytes up to a multiple of four.
pub open spec fn padded(b: Seq<u8>) -> Seq<u8> {
    b + Seq::new(((4 - b.len() % 4) % 4) as nat, |k: int| 0u8)
}

/// The order in which table records appear: by tag, ties kept in directory order.
pub open spec fn tag_leq(tags: Seq<u32>) -> spec_fn(usize, usize) -> bool {
    |a: usize, b: usize|
        tags[a as int] < tags[b as int] || (tags[a as int] == tags[b as int] && a <= b)
}

pub open spec fn spec_tag_order(tags: Seq<u32>) -> Seq<usize> {
    Seq::new(tags.len(), |i: int| i as usize).sort_by(tag_leq(tags))
}

pub open spec fn tags_of(tables: Seq<(u32, Seq<u8>)>) -> Seq<u32> {
    tables.map_values(|t: (u32, Seq<u8>)| t.0)
}

/// A valid SFNT for `tables`: offset table, table records sorted by tag, then each table's data
/// (in directory order) padded to 4 bytes.
pub open spec fn spec_sfnt(flavor: u32, tables: Seq<(u32, Seq<u8>)>) -> Seq<u8> {
    sfnt_header(flavor, tables.len() as int) + spec_tag_order(tags_of(tables)).map_values(
        |i: usize| table_record(tables, i as int),
    ).flatten() + tables.map_values(|t: (u32, Seq<u8>)| padded(t.1)).flatten()
}

pub open spec fn table_views(tables: Seq<(u32, Vec<u8>)>) -> Seq<(u32, Seq<u8>)> {
    tables.map_values(|t: (u32, Vec<u8>)| (t.0, t.1@))
}

proof fn lemma_tag_leq_total(tags: Seq<u32>)
    ensures
        vstd::relations::total_ordering(tag_leq(tags)),
{
    let leq = tag_leq(tags);
    assert(vstd::relations::reflexive(leq));
    assert(vstd::relations::antisymmetric(leq));
    assert(vstd::relations::transitive(leq));
    assert(vstd::relations::strongly_connected(leq));
}

/// Table indices ordered by tag (stable).
fn tag_order(tags: &Vec<u32>) -> (order: Vec<usize>)
    ensures
        order@ == spec_tag_order(tags@),
        order@.len() == tags@.len(),
        forall|j: int| 0 <= j < order@.len() ==> (#[trigger] order@[j]) < tags@.len(),
{
    broadcast use vstd::seq_lib::group_to_multiset_ensures;

    let n = tags.len();
    let ghost leq = tag_leq(tags@);
    let mut order: Vec<usize> = Vec::new();
    let mut k: usize = 0;
    while k < n
        invariant
            n == tags@.len(),
            0 <= k <= n,
            vstd::relations::sorted_by(order@, leq),
            order@.to_multiset() == Seq::new(k as nat, |i: int| i as usize).to_multiset(),
            forall|j: int| 0 <= j < order@.len() ==> (#[trigger] order@[j]) < k,
            leq == tag_leq(tags@),
        decreases n - k,
    {
        let mut pos: usize = 0;
        while pos < order.len() && tags[order[pos]] <= tags[k]
            invariant
                n == tags@.len(),
                k < n,
                0 <= pos <= order@.len(),
                forall|j: int| 0 <= j < order@.len() ==> (#[trigger] order@[j]) < k,
                forall|j: int| 0 <= j < pos ==> tags@[(#[trigger] order@[j]) as int] <= tags@[k as int],
            decreases order@.len() - pos,
        {
            pos += 1;
        }
        let ghost old_order = order@;
        order.insert(pos, k);
        proof {
            assert(order@ == old_order.insert(pos as int, k));
            assert forall|a: int, b: int| 0 <= a < b < order@.len() implies leq(
                #[trigger] order@[a],
                #[trigger] order@[b],
            ) by {
                if a < pos && b < pos {
                    assert(order@[a] == old_order[a] && order@[b] == old_order[b]);
                } else if a < pos && b == pos {
                    assert(order@[a] == old_order[a]);
                } else if a < pos {
                    assert(order@[a] == old_order[a] && order@[b] == old_order[b - 1]);
                } else if a == pos {
                    assert(order@[b] == old_order[b - 1]);
                    assert(leq(old_order[pos as int], old_order[b - 1]) || b - 1 == pos);
                    assert(tags@[old_order[pos as int] as int] > tags@[k as int]);
                } else {
                    assert(order@[a] == old_order[a - 1] && order@[b] == old_order[b - 1]);
                }
            }
            assert(Seq::new((k + 1) as nat, |i: int| i as usize) =~= Seq::new(
                k as nat,
                |i: int| i as usize,
            ).push(k));
            vstd::seq_lib::to_multiset_insert(old_order, pos as int, k);
            vstd::seq_lib::to_multiset_build(Seq::new(k as nat, |i: int| i as usize), k);
            assert forall|j: int| 0 <= j < order@.len() implies (#[trigger] order@[j]) < k + 1 by {
                if j < pos {
                    assert(order@[j] == old_order[j]);
                } else if j > pos {
                    assert(order@[j] == old_order[j - 1]);
                }
            }
        }
        k += 1;
    }
    proof {
        let all = Seq::new(n as nat, |i: int| i as usize);
        lemma_tag_leq_total(tags@);
        all.lemma_sort_by_ensures(leq);
        vstd::seq_lib::lemma_sorted_unique(order@, all.sort_by(leq), leq);
        vstd::seq_lib::to_multiset_len(order@);
        vstd::seq_lib::to_multiset_len(all);
    }
    order
}

proof fn lemma_aligned_sum_bound(tables: Seq<(u32, Seq<u8>)>, i: int)
    requires
        0 <= i <= tables.len(),
    ensures
        0 <= aligned_sum(tables, i) <= i * 0x1_0000_0000_0000_0000,
    decreases i,
{
    if i > 0 {
        lemma_aligned_sum_bound(tables, i - 1);
        assert((i - 1) * 0x1_0000_0000_0000_0000 + 0x1_0000_0000_0000_0000 == i
            * 0x1_0000_0000_0000_0000) by (nonlinear_arith);
    }
}

/// `entrySelector` and `2^entrySelector` for `n` tables.
fn selector_of(n: usize) -> (r: (u16, u32))
    requires
        n < 4096,
    ensures
        r.0 == entry_selector(n as int),
        r.1 == pow2i(r.0 as nat),
        r.1 < 4096,
{
    let mut entry_selector: u16 = 0;
    let mut p: u32 = 2;
    assert(pow2i(0) == 1);
    assert(pow2i(1) == 2);
    while entry_selector < 16 && p <= n as u32
        invariant
            n < 4096,
            entry_selector <= 16,
            p == pow2i((entry_selector + 1) as nat),
            entry_selector == 0 || pow2i(entry_selector as nat) <= n,
            selector_from(n as int, 0) == selector_from(n as int, entry_selector as nat),
        decreases 16 - entry_selector,
    {
        assert(pow2i((entry_selector + 2) as nat) == 2 * pow2i((entry_selector + 1) as nat));
        entry_selector += 1;
        p = p * 2;
    }
    assert(pow2i((entry_selector + 1) as nat) == 2 * pow2i(entry_selector as nat));
    (entry_selector, p / 2)
}

/// The SFNT offset table: flavor, numTables, searchRange, entrySelector, rangeShift.
fn sfnt_header_bytes(flavor: u32, n: usize) -> (out: Vec<u8>)
    requires
        n < 4096,
    ensures
        out@ == sfnt_header(flavor, n as int),
{
    let num: u16 = n as u16;
    let (selector, pow) = selector_of(n);
    let search_range: u16 = (pow * 16) as u16;
    let m16: u16 = num.wrapping_mul(16);
    assert(m16 == n * 16);
    let range_shift: u16 = m16.wrapping_sub(search_range);
    assert(range_shift == (n * 16 - search_range + 65536) % 65536);
    let mut out: Vec<u8> = Vec::new();
    push_be32(&mut out, flavor);
    push_be16(&mut out, num);
    push_be16(&mut out, search_range);
    push_be16(&mut out, selector);
    push_be16(&mut out, range_shift);
    let ghost es = entry_selector(n as int);
    assert(search_range == pow2i(es) * 16);
    assert(out@ =~= be32_bytes(flavor as int) + be16_bytes(n as int) + be16_bytes(pow2i(es) * 16)
        + be16_bytes(es as int) + be16_bytes((n * 16 - pow2i(es) * 16 + 65536) % 65536));
    out
}

/// Each table's data offset (truncated to 32 bits) and its tag, in directory order.
fn offsets_and_tags(tables: &Vec<(u32, Vec<u8>)>) -> (r: (Vec<u32>, Vec<u32>))
    requires
        tables@.len() < 4096,
    ensures
        r.0@.len() == tables@.len(),
        forall|j: int|
            0 <= j < tables@.len() ==> (#[trigger] r.0@[j]) == table_offset(table_views(tables@), j)
                % 4294967296,
        r.1@ == tags_of(table_views(tables@)),
{
    let ghost tv = table_views(tables@);
    let n = tables.len();
    let mut offsets: Vec<u32> = Vec::new();
    let mut tags: Vec<u32> = Vec::new();
    let mut cur: u128 = 12 + 16 * (n as u128);
    let mut i: usize = 0;
    while i < n
        invariant
            n == tables@.len(),
            n < 4096,
            tv == table_views(tables@),
            0 <= i <= n,
            cur == table_offset(tv, i as int),
            offsets@.len() == i,
            tags@.len() == i,
            forall|j: int| 0 <= j < i ==> (#[trigger] offsets@[j]) == table_offset(tv, j) % 4294967296,
            forall|j: int| 0 <= j < i ==> (#[trigger] tags@[j]) == tables@[j].0,
        decreases n - i,
    {
        offsets.push((cur % 4294967296) as u32);
        tags.push(tables[i].0);
        let r = round4(tables[i].1.len());
        assert(tv[i as int].1.len() == tables@[i as int].1@.len());
        proof {
            lemma_aligned_sum_bound(tv, i + 1);
            assert(i * 0x1_0000_0000_0000_0000 <= 4096 * 0x1_0000_0000_0000_0000) by (nonlinear_arith)
                requires
                    i < 4096,
            ;
        }
        cur = cur + r as u128;
        i += 1;
    }
    assert(tags@ =~= tags_of(tv));
    (offsets, tags)
}

/// Append `bytes` followed by zeros up to a multiple of four.
fn push_padded(out: &mut Vec<u8>, bytes: &Vec<u8>)
    ensures
        final(out)@ == old(out)@ + padded(bytes@),
{
    let mut j: usize = 0;
    while j < bytes.len()
        invariant
            0 <= j <= bytes@.len(),
            out@ == old(out)@ + bytes@.take(j as int),
        decreases bytes@.len() - j,
    {
        out.push(bytes[j]);
        j += 1;
        assert(out@ =~= old(out)@ + bytes@.take(j as int));
    }
    assert(bytes@.take(bytes@.len() as int) =~= bytes@);
    let pad = (4 - bytes.len() % 4) % 4;
    let ghost filled = out@;
    let mut q: usize = 0;
    while q < pad
        invariant
            0 <= q <= pad,
            out@ == filled + Seq::new(q as nat, |k: int| 0u8),
        decreases pad - q,
    {
        out.push(0);
        q += 1;
        assert(out@ =~= filled + Seq::new(q as nat, |k: int| 0u8));
    }
    assert(out@ =~= old(out)@ + padded(bytes@));
}

/// Assemble a valid SFNT: offset table + table directory (records sorted by tag) + 4-byte-padded
/// table data (in the WOFF2 directory order). Table checksums are filled in; `head`'s
/// `checkSumAdjustment` is left as-is.
pub fn assemble_sfnt(flavor: u32, tables: &Vec<(u32, Vec<u8>)>) -> (out: Vec<u8>)
    requires
        tables@.len() < 4096,
    ensures
        out@ == spec_sfnt(flavor, table_views(tables@)),
{
    let ghost tv = table_views(tables@);
    let n = tables.len();
    let mut out = sfnt_header_bytes(flavor, n);
    let ghost header = out@;
    let (offsets, tags) = offsets_and_tags(tables);

    // Table records, sorted by tag (a well-formed SFNT requirement).
    let order = tag_order(&tags);
    let ghost recs = order@.map_values(|t: usize| table_record(tv, t as int));
    let mut k: usize = 0;
    while k < n
        invariant
            n == tables@.len(),
            tv == table_views(tables@),
            order@.len() == n,
            forall|j: int| 0 <= j < n ==> (#[trigger] order@[j]) < n,
            offsets@.len() == n,
            forall|j: int| 0 <= j < n ==> (#[trigger] offsets@[j]) == table_offset(tv, j) % 4294967296,
            recs == order@.map_values(|t: usize| table_record(tv, t as int)),
            0 <= k <= n,
            out@ == header + recs.take(k as int).flatten(),
        decreases n - k,
    {
        let t = order[k];
        let ghost before = out@;
        push_be32(&mut out, tables[t].0);
        push_be32(&mut out, checksum(&tables[t].1));
        push_be32(&mut out, offsets[t]);
        let len = tables[t].1.len();
        push_be32(&mut out, ((len as u64) % 4294967296) as u32);
        proof {
            assert(tv[t as int].1 == tables@[t as int].1@);
            assert(out@ =~= before + table_record(tv, t as int));
            assert(recs.take(k + 1) =~= recs.take(k as int).push(recs[k as int]));
            recs.take(k as int).lemma_flatten_push(recs[k as int]);
        }
        k += 1;
    }
    assert(recs.take(n as int) =~= recs);
    let ghost mid = out@;
    let ghost datas = tv.map_values(|t: (u32, Seq<u8>)| padded(t.1));

    // Table data, in directory order, each padded to a 4-byte boundary.
    let mut i: usize = 0;
    while i < n
        invariant
            n == tables@.len(),
            tv == table_views(tables@),
            datas == tv.map_values(|t: (u32, Seq<u8>)| padded(t.1)),
            0 <= i <= n,
            out@ == mid + datas.take(i as int).flatten(),
        decreases n - i,
    {
        let ghost before = out@;
        push_padded(&mut out, &tables[i].1);
        proof {
            assert(tv[i as int].1 == tables@[i as int].1@);
            assert(datas.take(i + 1) =~= datas.take(i as int).push(datas[i as int]));
            datas.take(i as int).lemma_flatten_push(datas[i as int]);
        }
        i += 1;
    }
    assert(datas.take(n as int) =~= datas);
    out
}


// ---------------------------------------------------------------------------------------------
// Brotli (WOFF2 §6)
// ---------------------------------------------------------------------------------------------

/// What `brotli::Decompressor` makes of `input`, read to the end through an in-memory cursor:
/// the decompressed bytes and how many input bytes the decompressor consumed, or `None` when
/// the stream does not decode.
pub uninterp spec fn brotli_decoded(input: Seq<u8>) -> Option<(Seq<u8>, int)>;

/// Runs `brotli::Decompressor` (buffer size 4096) over `input` with `read_to_end`, and reports
/// the output together with the cursor position it stopped at. The contract claims only that
/// this outcome is a function of `input` alone: the decoder's output and its consumption are not
/// stated here.
#[verifier::external_body]
fn brotli_decompress(input: &[u8]) -> (r: Option<(Vec<u8>, usize)>)
    ensures
        match r {
            Some((out, used)) => brotli_decoded(input@) == Some((out@, used as int)),
            None => brotli_decoded(input@) is None,
        },
{
    let mut out = Vec::new();
    let mut cursor = std::io::Cursor::new(input);
    let mut dec = brotli::Decompressor::new(&mut cursor, 4096);
    if dec.read_to_end(&mut out).is_err() {
        return None;
    }
    drop(dec);
    Some((out, cursor.position() as usize))
}

/// The decompressed stream, if `input` decodes and the decoder consumed all of it.
pub open spec fn spec_brotli_exact(input: Seq<u8>) -> Option<Seq<u8>> {
    match brotli_decoded(input) {
        Some((out, used)) => if used == input.len() {
            Some(out)
        } else {
            None
        },
        None => None,
    }
}

/// Brotli-decompress `input`, returning the output only if the WHOLE input was consumed (no
/// trailing extraneous bytes) and the stream decoded cleanly.
pub fn brotli_decompress_exact(input: &[u8]) -> (r: Option<Vec<u8>>)
    ensures
        match r {
            Some(out) => spec_brotli_exact(input@) == Some(out@),
            None => spec_brotli_exact(input@) is None,
        },
{
    match brotli_decompress(input) {
        Some((out, used)) => {
            if used != input.len() {
                return None;
            }
            Some(out)
        },
        None => None,
    }
}

// ---------------------------------------------------------------------------------------------
// The whole file
// ---------------------------------------------------------------------------------------------

/// The fixed header checks: size, signature, not a collection, exact length, some tables.
pub open spec fn header_ok(data: Seq<u8>) -> bool {
    &&& data.len() >= 48
    &&& be32(data, 0) == WOFF2_SIGNATURE
    &&& be32(data, 4) != TTC_FLAVOR
    &&& be32(data, 8) == data.len()
    &&& be16(data, 12) != 0
}

/// The parsed directory, where it ends, where the compressed block ends, and the sum of the
/// table lengths — for a file whose header, directory and block layout all validate.
pub open spec fn spec_layout(data: Seq<u8>) -> Option<(Seq<(u32, u32)>, int, int, int)> {
    if !header_ok(data) {
        None
    } else {
        match dir_state(data, be16(data, 12)) {
            None => None,
            Some((entries, dir_end, total)) => if spec_blocks_end(
                data.len() as int,
                dir_end,
                be32(data, 20),
                be32(data, 28),
                be32(data, 32),
                be32(data, 40),
                be32(data, 44),
            ) == Some(data.len() as int) {
                Some((entries, dir_end, dir_end + be32(data, 20), total))
            } else {
                None
            },
        }
    }
}

/// The tables cut from the decompressed stream, in directory order.
pub open spec fn tables_of(entries: Seq<(u32, u32)>, stream: Seq<u8>) -> Seq<(u32, Seq<u8>)> {
    Seq::new(
        entries.len(),
        |k: int|
            (
                entries[k].0,
                stream.subrange(lens_sum(entries.take(k)), lens_sum(entries.take(k + 1))),
            ),
    )
}

/// The SFNT a WOFF2 file decodes to, or `None` when it must be rejected.
pub open spec fn spec_decode(data: Seq<u8>) -> Option<Seq<u8>> {
    match spec_layout(data) {
        None => None,
        Some((entries, dir_end, comp_end, total)) => match spec_brotli_exact(
            data.subrange(dir_end, comp_end),
        ) {
            None => None,
            Some(stream) => if stream.len() != total {
                None
            } else {
                Some(spec_sfnt(be32(data, 4) as u32, tables_of(entries, stream)))
            },
        },
    }
}

proof fn lemma_dir_none(data: Seq<u8>, k: int, n: int)
    requires
        0 <= k <= n,
        dir_state(data, k) is None,
    ensures
        dir_state(data, n) is None,
    decreases n - k,
{
    if k < n {
        lemma_dir_none(data, k + 1, n);
    }
}

proof fn lemma_lens_sum_take(entries: Seq<(u32, u32)>, k: int)
    requires
        0 <= k < entries.len(),
    ensures
        lens_sum(entries.take(k + 1)) == lens_sum(entries.take(k)) + entries[k].1,
        lens_sum(entries.take(k + 1)) <= lens_sum(entries),
    decreases entries.len() - k,
{
    assert(entries.take(k + 1).drop_last() =~= entries.take(k));
    if k + 1 < entries.len() {
        lemma_lens_sum_take(entries, k + 1);
    } else {
        assert(entries.take(k + 1) =~= entries);
    }
}

/// A copy of `v[lo..hi]`.
fn copy_range(v: &Vec<u8>, lo: usize, hi: usize) -> (r: Vec<u8>)
    requires
        lo <= hi <= v@.len(),
    ensures
        r@ == v@.subrange(lo as int, hi as int),
{
    let mut r: Vec<u8> = Vec::new();
    let mut i = lo;
    while i < hi
        invariant
            lo <= i <= hi <= v@.len(),
            r@ == v@.subrange(lo as int, i as int),
        decreases hi - i,
    {
        r.push(v[i]);
        i += 1;
        assert(r@ =~= v@.subrange(lo as int, i as int));
    }
    r
}

/// Cut the decompressed font data into its tables: each directory entry `(tag, length)` takes
/// the next `length` bytes of `stream`, in directory order. The stream must hold exactly the
/// tables (`decode` rejects a file whose stream length differs).
pub fn split_tables(entries: &Vec<(u32, u32)>, stream: &Vec<u8>) -> (tables: Vec<(u32, Vec<u8>)>)
    requires
        stream@.len() == lens_sum(entries@),
    ensures
        table_views(tables@) == tables_of(entries@, stream@),
{
    let ghost es = entries@;
    let n = stream.len();
    let mut tables: Vec<(u32, Vec<u8>)> = Vec::new();
    let mut cursor: usize = 0;
    let mut i: usize = 0;
    while i < entries.len()
        invariant
            es == entries@,
            n == stream@.len(),
            stream@.len() == lens_sum(es),
            0 <= i <= es.len(),
            cursor == lens_sum(es.take(i as int)),
            table_views(tables@) == tables_of(es, stream@).take(i as int),
        decreases es.len() - i,
    {
        proof {
            lemma_lens_sum_take(es, i as int);
        }
        let len = entries[i].1 as usize;
        let bytes = copy_range(stream, cursor, cursor + len);
        let ghost before = tables@;
        tables.push((entries[i].0, bytes));
        proof {
            assert(table_views(tables@) =~= table_views(before).push((es[i as int].0, bytes@)));
            assert(tables_of(es, stream@).take(i + 1) =~= tables_of(es, stream@).take(i as int).push(
                tables_of(es, stream@)[i as int],
            ));
        }
        cursor = cursor + len;
        i += 1;
    }
    assert(tables_of(es, stream@).take(es.len() as int) =~= tables_of(es, stream@));
    tables
}

/// Decode `data` (a complete WOFF2 file) into reconstructed SFNT bytes, or `None` if it is not
/// a well-formed, fully-reconstructable WOFF2.
///
/// The `reserved` header field is intentionally not validated, and the optional metadata and
/// private blocks are bounds-checked but never parsed.
pub fn decode(data: &[u8]) -> (r: Option<Vec<u8>>)
    requires
        spec_layout(data@) is Some ==> be16(data@, 12) < 4096,
    ensures
        match r {
            Some(v) => spec_decode(data@) == Some(v@),
            None => spec_decode(data@) is None,
        },
{
    // ---- Header (WOFF2 §4) ----
    if data.len() < 48 {
        return None;
    }
    let signature = match read_u32(data, 0) { Some(v) => v, None => { return None; } };
    if signature != WOFF2_SIGNATURE {
        return None;
    }
    let flavor = match read_u32(data, 4) { Some(v) => v, None => { return None; } };
    if flavor == TTC_FLAVOR {
        return None;
    }
    let length = match read_u32(data, 8) { Some(v) => v, None => { return None; } };
    let num_tables = match read_u16(data, 12) { Some(v) => v, None => { return None; } };
    if length as usize != data.len() || num_tables == 0 {
        return None;
    }
    let total_compressed_size = match read_u32(data, 20) { Some(v) => v, None => { return None; } };
    let meta_offset = match read_u32(data, 28) { Some(v) => v, None => { return None; } };
    let meta_length = match read_u32(data, 32) { Some(v) => v, None => { return None; } };
    let priv_offset = match read_u32(data, 40) { Some(v) => v, None => { return None; } };
    let priv_length = match read_u32(data, 44) { Some(v) => v, None => { return None; } };
    assert(header_ok(data@));

    // ---- Table directory (WOFF2 §5) ----
    let mut off: usize = 48;
    let mut entries: Vec<(u32, u32)> = Vec::new();
    let mut total_len: usize = 0;
    let mut k: u16 = 0;
    while k < num_tables
        invariant
            header_ok(data@),
            num_tables == be16(data@, 12),
            0 <= k <= num_tables,
            dir_state(data@, k as int) == Some((entries@, off as int, total_len as int)),
        decreases num_tables - k,
    {
        proof {
            lemma_dir_state(data@, k as int);
        }
        let (tag, len, next) = match read_entry(data, off) {
            Some(e) => e,
            None => {
                proof {
                    lemma_dir_none(data@, k + 1, num_tables as int);
                }
                return None;
            },
        };
        total_len = match total_len.checked_add(len as usize) {
            Some(t) => t,
            None => {
                proof {
                    lemma_dir_none(data@, k + 1, num_tables as int);
                }
                return None;
            },
        };
        entries.push((tag, len));
        off = next;
        k += 1;
    }
    let dir_end = off;
    proof {
        lemma_dir_state(data@, num_tables as int);
    }

    // ---- Block layout validation (WOFF2 §3) ----
    let comp_end = match check_blocks(
        data.len(),
        dir_end,
        total_compressed_size as usize,
        meta_offset as usize,
        meta_length as usize,
        priv_offset as usize,
        priv_length as usize,
    ) {
        Some(e) => e,
        None => {
            return None;
        },
    };
    assert(spec_layout(data@) == Some((entries@, dir_end as int, comp_end as int, total_len as int)));

    // ---- Decompress the font data (WOFF2 §6) ----
    let compressed = vstd::slice::slice_subrange(data, dir_end, comp_end);
    let stream = match brotli_decompress_exact(compressed) {
        Some(s) => s,
        None => {
            return None;
        },
    };
    // The decompressed stream must be EXACTLY the concatenated tables.
    if stream.len() != total_len {
        return None;
    }

    // ---- Reassemble the SFNT ----
    let tables = split_tables(&entries, &stream);
    Some(assemble_sfnt(flavor, &tables))
}

} // verus!
