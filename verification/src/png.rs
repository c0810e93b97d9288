use vstd::prelude::*;

verus! {

/// The signed 32-bit integer whose big-endian two's-complement encoding is
/// `b0 b1 b2 b3`.
pub open spec fn be_i32(b0: u8, b1: u8, b2: u8, b3: u8) -> i32 {
    let u: int = b0 * 0x100_0000 + b1 * 0x1_0000 + b2 * 0x100 + b3;
    (if u >= 0x8000_0000 {
        u - 0x1_0000_0000
    } else {
        u
    }) as i32
}

/// The eight bytes every PNG file starts with.
pub open spec fn png_signature() -> Seq<u8> {
    seq![0x89u8, 0x50, 0x4E, 0x47, 0x0D, 0x0A, 0x1A, 0x0A]
}

/// The bytes start with a PNG header: the signature, then a chunk whose type
/// (at offset 12) is `IHDR`, holding the width and height (at offsets 16 and
/// 20).
pub open spec fn has_png_header(bytes: Seq<u8>) -> bool {
    &&& bytes.len() >= 24
    &&& bytes.take(8) == png_signature()
    &&& bytes[12] == 0x49 && bytes[13] == 0x48 && bytes[14] == 0x44 && bytes[15] == 0x52
}

/// Width and height as the PNG header gives them, or `(0, 0)` when the bytes
/// do not start with a PNG header.
pub open spec fn png_dimensions_spec(bytes: Seq<u8>) -> (i32, i32) {
    if has_png_header(bytes) {
        (
            be_i32(bytes[16], bytes[17], bytes[18], bytes[19]),
            be_i32(bytes[20], bytes[21], bytes[22], bytes[23]),
        )
    } else {
        (0, 0)
    }
}

fn read_be_i32(b0: u8, b1: u8, b2: u8, b3: u8) -> (v: i32)
    ensures
        v == be_i32(b0, b1, b2, b3),
{
    let u: i64 = (b0 as i64) * 0x100_0000 + (b1 as i64) * 0x1_0000 + (b2 as i64) * 0x100 + (
    b3 as i64);
    let s: i64 = if u >= 0x8000_0000 {
        u - 0x1_0000_0000
    } else {
        u
    };
    s as i32
}

fn starts_with_png_header(bytes: &[u8]) -> (b: bool)
    ensures
        b == has_png_header(bytes@),
{
    if bytes.len() < 24 {
        return false;
    }
    let ok = bytes[0] == 0x89 && bytes[1] == 0x50 && bytes[2] == 0x4E && bytes[3] == 0x47
        && bytes[4] == 0x0D && bytes[5] == 0x0A && bytes[6] == 0x1A && bytes[7] == 0x0A
        && bytes[12] == 0x49 && bytes[13] == 0x48 && bytes[14] == 0x44 && bytes[15] == 0x52;
    proof {
        if ok {
            assert(bytes@.take(8) =~= png_signature());
        } else if bytes@.take(8) == png_signature() {
            assert(bytes@.take(8)[0] == bytes@[0]);
            assert(bytes@.take(8)[1] == bytes@[1]);
            assert(bytes@.take(8)[2] == bytes@[2]);
            assert(bytes@.take(8)[3] == bytes@[3]);
            assert(bytes@.take(8)[4] == bytes@[4]);
            assert(bytes@.take(8)[5] == bytes@[5]);
            assert(bytes@.take(8)[6] == bytes@[6]);
            assert(bytes@.take(8)[7] == bytes@[7]);
        }
    }
    ok
}

/// Read width/height from a PNG header without decoding the whole image.
/// Returns (0, 0) if the bytes are not a PNG.
pub fn png_dimensions(bytes: &[u8]) -> (dims: (i32, i32))
    ensures
        dims == png_dimensions_spec(bytes@),
{
    if !starts_with_png_header(bytes) {
        return (0, 0);
    }
    let w = read_be_i32(bytes[16], bytes[17], bytes[18], bytes[19]);
    let h = read_be_i32(bytes[20], bytes[21], bytes[22], bytes[23]);
    (w, h)
}

} // verus!
