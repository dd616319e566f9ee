//! PNG chunk inspection.
//!
//! A PNG file is an eight-byte signature and a row of chunks, the header chunk
//! first. A chunk is its length, its type, as many bytes of data as the length
//! says, and a checksum; numbers are big-endian.

use vstd::prelude::*;

verus! {

/// Where the first chunk starts.
pub const FIRST_CHUNK: usize = 8;

/// Where the header chunk keeps the color type.
pub const COLOR_TYPE: usize = 25;

/// The color type of an image whose pixels are places in a palette.
pub const INDEXED: u8 = 3;

/// The type of a palette chunk, `PLTE`.
pub const PALETTE: u32 = 0x504c_5445;

/// The type of an image data chunk, `IDAT`.
pub const IMAGE_DATA: u32 = 0x4944_4154;

/// The largest file to read, in bytes: too small for 2^32 chunks that carry a
/// 32-bit sequence number.
pub const MAX_FILE: u64 = 0xf_ffff_ffff;

/// A big-endian 32-bit number.
pub open spec fn be32(data: Seq<u8>, at: int) -> int {
    0x100_0000 * data[at] + 0x1_0000 * data[at + 1] + 0x100 * data[at + 2] + data[at + 3]
}

/// Whether each palette chunk from the chunk at `at` up to the image data holds
/// whole colors, three bytes each.
pub open spec fn palettes_are_whole(file: Seq<u8>, at: int) -> bool
    decreases
            if at < file.len() {
                file.len() - at
            } else {
                0
            },
{
    if at < 0 || at + 8 > file.len() || be32(file, at + 4) == IMAGE_DATA {
        true
    } else {
        &&& be32(file, at + 4) == PALETTE ==> be32(file, at) % 3 == 0
        &&& palettes_are_whole(file, at + 12 + be32(file, at))
    }
}

/// Whether a file may be decoded: it is not too large and, if it declares an
/// indexed image, its palette holds whole colors.
pub open spec fn readable(file: Seq<u8>) -> bool {
    &&& file.len() <= MAX_FILE
    &&& file.len() > COLOR_TYPE && file[COLOR_TYPE as int] == INDEXED ==> palettes_are_whole(
        file,
        FIRST_CHUNK as int,
    )
}

fn read_be32(data: &[u8], at: usize) -> (r: u32)
    requires
        at + 4 <= data.len(),
    ensures
        r == be32(data@, at as int),
{
    0x100_0000 * data[at] as u32 + 0x1_0000 * data[at + 1] as u32 + 0x100 * data[at + 2] as u32
        + data[at + 3] as u32
}

/// Whether `file` may be decoded.
pub fn is_readable(file: &[u8]) -> (r: bool)
    ensures
        r == readable(file@),
{
    let n = file.len();
    if n as u64 > MAX_FILE {
        return false;
    }
    if n <= COLOR_TYPE || file[COLOR_TYPE] != INDEXED {
        return true;
    }
    let mut at: usize = FIRST_CHUNK;
    while n - at >= 8
        invariant
            n == file.len(),
            at <= n <= MAX_FILE,
            n > COLOR_TYPE,
            file[COLOR_TYPE as int] == INDEXED,
            palettes_are_whole(file@, at as int) == palettes_are_whole(file@, FIRST_CHUNK as int),
        decreases n - at,
    {
        let len: u32 = read_be32(file, at);
        let kind: u32 = read_be32(file, at + 4);
        if kind == IMAGE_DATA {
            return true;
        }
        if kind == PALETTE && len % 3 != 0 {
            return false;
        }
        if n - at < 12 || n - at - 12 < len as usize {
            assert(palettes_are_whole(file@, at + 12 + len));
            return true;
        }
        at = at + 12 + len as usize;
    }
    true
}

// ── Laws of the chunk walk ──────────────────────────────────────────────

/// Four bytes as a number, the highest first.
pub proof fn lemma_big_endian_number(data: Seq<u8>, at: int)
    ensures
        be32(data, at) == ((data[at] * 256 + data[at + 1]) * 256 + data[at + 2]) * 256 + data[at
            + 3],
{
}

/// A file whose color type is not the indexed one may be decoded, whatever its
/// chunks are, unless it has 64 GiB or more.
pub proof fn lemma_other_images_are_readable(file: Seq<u8>)
    ensures
        file.len() < 0x10_0000_0000 && (file.len() <= 25 || file[25] != 3) ==> readable(file),
        file.len() >= 0x10_0000_0000 ==> !readable(file),
{
}

/// When an indexed image may be decoded. `starts` are the places of its chunks,
/// from the first one on, each behind the other, none of them image data
/// (`IDAT`, `49 44 41 54`). If the last of them is a palette (`PLTE`,
/// `50 4C 54 45`) whose length is no multiple of three, the file is refused; if
/// all palettes among them have whole colors and image data or the end of the
/// file follows, it is not.
pub proof fn lemma_indexed_image_needs_whole_colors(file: Seq<u8>, starts: Seq<int>)
    requires
        26 <= file.len() < 0x10_0000_0000,
        file[25] == 3,
        starts.len() > 0,
        starts[0] == 8,
        forall|k: int|
            #![trigger starts[k]]
            0 <= k < starts.len() - 1 ==> {
                &&& starts[k] + 8 <= file.len()
                &&& starts[k + 1] == starts[k] + 12 + be32(file, starts[k])
                &&& be32(file, starts[k] + 4) != 0x4944_4154
                &&& be32(file, starts[k] + 4) == 0x504c_5445 ==> be32(file, starts[k]) % 3 == 0
            },
    ensures
        ({
            let at = starts.last();
            &&& at + 8 <= file.len() && be32(file, at + 4) == 0x504c_5445 && be32(file, at) % 3 != 0
                ==> !readable(file)
            &&& at + 8 > file.len() || be32(file, at + 4) == 0x4944_4154 ==> readable(file)
        }),
{
    lemma_chunks_along(file, starts, starts.len() - 1);
}

proof fn lemma_chunks_along(file: Seq<u8>, starts: Seq<int>, k: int)
    requires
        0 <= k < starts.len(),
        starts[0] == 8,
        forall|k: int|
            #![trigger starts[k]]
            0 <= k < starts.len() - 1 ==> {
                &&& starts[k] + 8 <= file.len()
                &&& starts[k + 1] == starts[k] + 12 + be32(file, starts[k])
                &&& be32(file, starts[k] + 4) != 0x4944_4154
                &&& be32(file, starts[k] + 4) == 0x504c_5445 ==> be32(file, starts[k]) % 3 == 0
            },
    ensures
        palettes_are_whole(file, starts[k]) == palettes_are_whole(file, 8),
        starts[k] >= 8,
    decreases k,
{
    if k > 0 {
        lemma_chunks_along(file, starts, k - 1);
        assert(starts[k - 1 + 1] == starts[k]);
    }
}

} // verus!
