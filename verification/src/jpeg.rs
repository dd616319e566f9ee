//! JPEG header inspection.

use vstd::prelude::*;

verus! {

/// A big-endian 16-bit number.
pub open spec fn be16(hi: u8, lo: u8) -> u16 {
    (hi * 256 + lo) as u16
}

/// Markers that stand alone, without a length field: `SOI`, `TEM`, `RSTn`.
pub open spec fn is_standalone(marker: u8) -> bool {
    marker == 0xd8 || marker == 0x01 || 0xd0 <= marker <= 0xd7
}

/// Start-of-frame markers; C4, C8 and CC are Huffman and extension segments.
pub open spec fn is_start_of_frame(marker: u8) -> bool {
    0xc0 <= marker < 0xd0 && marker != 0xc4 && marker != 0xc8 && marker != 0xcc
}

/// A stream that opens with the start-of-image marker.
pub open spec fn is_jpeg(data: Seq<u8>) -> bool {
    data.len() >= 4 && data[0] == 0xff && data[1] == 0xd8
}

/// The `(width, height)` of the first start-of-frame segment on the segment
/// walk that starts at `i`: bytes other than `FF` are skipped, a standalone
/// marker takes two bytes, any other segment takes two bytes and its length.
/// The walk ends where fewer than ten bytes are left.
pub open spec fn walk_segments(data: Seq<u8>, i: int) -> Option<(u16, u16)>
    decreases
            if i < data.len() {
                data.len() - i
            } else {
                0
            },
{
    if i < 0 || i + 9 >= data.len() {
        None
    } else if data[i] != 0xff {
        walk_segments(data, i + 1)
    } else if is_standalone(data[i + 1]) {
        walk_segments(data, i + 2)
    } else if is_start_of_frame(data[i + 1]) {
        Some((be16(data[i + 7], data[i + 8]), be16(data[i + 5], data[i + 6])))
    } else {
        walk_segments(data, i + 2 + be16(data[i + 2], data[i + 3]))
    }
}

/// The `(width, height)` that a JPEG stream declares.
pub open spec fn declared_size(data: Seq<u8>) -> Option<(u16, u16)> {
    if is_jpeg(data) {
        walk_segments(data, 2)
    } else {
        None
    }
}

/// Whether `data` opens with the start-of-image marker.
pub fn has_start_of_image(data: &[u8]) -> (r: bool)
    ensures
        r == is_jpeg(data@),
{
    data.len() >= 4 && data[0] == 0xff && data[1] == 0xd8
}

/// Read a JPEG's `(width, height)` from its SOF segment, or `None`.
///
/// Header-only: walks the segment markers rather than decoding pixels, so it
/// is cheap enough to run on every frame.
pub fn jpeg_dimensions(data: &[u8]) -> (r: Option<(u16, u16)>)
    ensures
        r == declared_size(data@),
{
    if !has_start_of_image(data) {
        return None;
    }
    let n = data.len();
    let mut i: usize = 2;
    while i < n && n - i > 9
        invariant
            n == data.len(),
            2 <= i,
            is_jpeg(data@),
            walk_segments(data@, i as int) == walk_segments(data@, 2),
        decreases n - i,
    {
        if data[i] != 0xff {
            i += 1;
            continue ;
        }
        let marker = data[i + 1];
        if marker == 0xd8 || marker == 0x01 || (0xd0 <= marker && marker <= 0xd7) {
            i += 2;
            continue ;
        }
        if 0xc0 <= marker && marker < 0xd0 && marker != 0xc4 && marker != 0xc8 && marker != 0xcc {
            let height: u16 = data[i + 5] as u16 * 256 + data[i + 6] as u16;
            let width: u16 = data[i + 7] as u16 * 256 + data[i + 8] as u16;
            return Some((width, height));
        }
        let len: usize = data[i + 2] as usize * 256 + data[i + 3] as usize;
        if n - i <= 2 + len {
            assert(walk_segments(data@, i + 2 + len) is None);
            return None;
        }
        i += 2 + len;
    }
    None
}

/// The size is read from the header alone:
/// bytes appended to a stream that declares a size do not change that size.
pub proof fn lemma_declared_size_ignores_suffix(data: Seq<u8>, suffix: Seq<u8>)
    requires
        declared_size(data) is Some,
    ensures
        declared_size(data + suffix) == declared_size(data),
{
    lemma_walk_ignores_suffix(data, suffix, 2);
}

proof fn lemma_walk_ignores_suffix(data: Seq<u8>, suffix: Seq<u8>, i: int)
    requires
        walk_segments(data, i) is Some,
    ensures
        walk_segments(data + suffix, i) == walk_segments(data, i),
    decreases
            if i < data.len() {
                data.len() - i
            } else {
                0
            },
{
    if data[i] != 0xff {
        lemma_walk_ignores_suffix(data, suffix, i + 1);
    } else if is_standalone(data[i + 1]) {
        lemma_walk_ignores_suffix(data, suffix, i + 2);
    } else if !is_start_of_frame(data[i + 1]) {
        lemma_walk_ignores_suffix(data, suffix, i + 2 + be16(data[i + 2], data[i + 3]));
    }
}

// ── Laws of the segment walk ────────────────────────────────────────────

/// A stream that does not start with `FF D8`, or is shorter than four bytes,
/// declares no size.
pub proof fn lemma_no_size_without_start_marker(data: Seq<u8>)
    ensures
        is_jpeg(data) <==> data.len() >= 4 && data[0] == 255 && data[1] == 216,
        !(data.len() >= 4 && data[0] == 255 && data[1] == 216) ==> declared_size(data) is None,
{
}

/// Which size a stream declares. `marks` are the places of a walk: it starts
/// behind the start marker and goes on by one byte over what is no marker, by
/// two over a marker that stands alone (`01`, `D0` to `D8`), and over the whole
/// of any other segment that is no frame header. Where it meets a frame header
/// (`C0` to `CF` but `C4`, `C8` and `CC`), height and width are the two numbers
/// behind its length and precision; where fewer than ten bytes are left, there
/// is no size.
pub proof fn lemma_size_is_in_the_first_frame_header(data: Seq<u8>, marks: Seq<int>)
    requires
        data.len() >= 4,
        data[0] == 255,
        data[1] == 216,
        marks.len() > 0,
        marks[0] == 2,
        forall|k: int|
            #![trigger marks[k]]
            0 <= k < marks.len() - 1 ==> marks[k] + 9 < data.len() && ({
                let m = marks[k];
                let alone = data[m + 1] == 1 || 208 <= data[m + 1] <= 216;
                let header = 192 <= data[m + 1] <= 207 && data[m + 1] != 196 && data[m + 1] != 200
                    && data[m + 1] != 204;
                ||| data[m] != 255 && marks[k + 1] == m + 1
                ||| data[m] == 255 && alone && marks[k + 1] == m + 2
                ||| data[m] == 255 && !alone && !header && marks[k + 1] == m + 2 + 256 * data[m + 2]
                    + data[m + 3]
            }),
    ensures
        ({
            let m = marks.last();
            &&& m + 9 >= data.len() ==> declared_size(data) is None
            &&& m + 9 < data.len() && data[m] == 255 && 192 <= data[m + 1] <= 207 && data[m + 1]
                != 196 && data[m + 1] != 200 && data[m + 1] != 204 ==> (declared_size(
                data,
            ) matches Some((w, h)) && w == 256 * data[m + 7] + data[m + 8] && h == 256 * data[m + 5]
                + data[m + 6])
        }),
{
    lemma_walk_along(data, marks, marks.len() - 1);
}

proof fn lemma_walk_along(data: Seq<u8>, marks: Seq<int>, k: int)
    requires
        0 <= k < marks.len(),
        marks[0] == 2,
        forall|k: int|
            #![trigger marks[k]]
            0 <= k < marks.len() - 1 ==> marks[k] + 9 < data.len() && ({
                let m = marks[k];
                let alone = data[m + 1] == 1 || 208 <= data[m + 1] <= 216;
                let header = 192 <= data[m + 1] <= 207 && data[m + 1] != 196 && data[m + 1] != 200
                    && data[m + 1] != 204;
                ||| data[m] != 255 && marks[k + 1] == m + 1
                ||| data[m] == 255 && alone && marks[k + 1] == m + 2
                ||| data[m] == 255 && !alone && !header && marks[k + 1] == m + 2 + 256 * data[m + 2]
                    + data[m + 3]
            }),
    ensures
        walk_segments(data, marks[k]) == walk_segments(data, 2),
        marks[k] >= 2,
    decreases k,
{
    if k > 0 {
        lemma_walk_along(data, marks, k - 1);
        let m = marks[k - 1];
        assert(marks[k - 1 + 1] == marks[k]);
    }
}

} // verus!
