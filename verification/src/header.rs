use vstd::prelude::*;

verus! {

/// The 14-byte QOI file header: magic, dimensions, channel count and
/// colorspace flag.
#[derive(Clone, Copy, Debug, PartialEq, Eq, Structural)]
pub struct QOIHeader {
    pub width: u32,
    pub height: u32,
    pub has_alpha: bool,
    pub linear_rgb: bool,
}

/// Number of pixels the op-stream must produce: `width * height`.
pub open spec fn spec_image_size(h: QOIHeader) -> int {
    (h.width as int) * (h.height as int)
}

/// The big-endian bytes of a 32-bit value, most significant first.
pub open spec fn spec_be32_bytes(w: u32) -> Seq<u8> {
    seq![
        ((w >> 24) & 0xff) as u8,
        ((w >> 16) & 0xff) as u8,
        ((w >> 8) & 0xff) as u8,
        (w & 0xff) as u8,
    ]
}

/// The 32-bit value read back from four big-endian bytes.
pub open spec fn spec_be32(b0: u8, b1: u8, b2: u8, b3: u8) -> u32 {
    ((b0 as int) * 0x1000000 + (b1 as int) * 0x10000 + (b2 as int) * 0x100 + (b3 as int)) as u32
}

/// Whether a byte stream starts with the ASCII magic `"qoif"` and is long
/// enough to hold the whole 14-byte header.
pub open spec fn magic_ok(bytes: Seq<u8>) -> bool {
    &&& bytes.len() >= 14
    &&& bytes[0] == 0x71u8
    &&& bytes[1] == 0x6fu8
    &&& bytes[2] == 0x69u8
    &&& bytes[3] == 0x66u8
}

/// The header a byte stream with valid magic declares.  Width and height are
/// big-endian; byte 12 stores the channel count (3 or 4); byte 13 is the
/// colorspace flag (0 = sRGB with linear alpha, nonzero = all linear).
pub open spec fn spec_parse_header(bytes: Seq<u8>) -> QOIHeader {
    QOIHeader {
        width: spec_be32(bytes[4], bytes[5], bytes[6], bytes[7]),
        height: spec_be32(bytes[8], bytes[9], bytes[10], bytes[11]),
        has_alpha: bytes[12] == 4u8,
        linear_rgb: bytes[13] != 0u8,
    }
}

/// The exact 14 bytes that serialize a header.
pub open spec fn spec_header_bytes(h: QOIHeader) -> Seq<u8> {
    seq![0x71u8, 0x6fu8, 0x69u8, 0x66u8] + spec_be32_bytes(h.width) + spec_be32_bytes(h.height)
        + seq![if h.has_alpha { 4u8 } else { 3u8 }, if h.linear_rgb { 1u8 } else { 0u8 }]
}

/// Splitting a 32-bit value into big-endian bytes and reading them back is
/// the identity.
pub proof fn lemma_be32_roundtrip(w: u32)
    ensures
        spec_be32(
            ((w >> 24) & 0xff) as u8,
            ((w >> 16) & 0xff) as u8,
            ((w >> 8) & 0xff) as u8,
            (w & 0xff) as u8,
        ) == w,
{
    assert(((w >> 24) & 0xff) * 0x1000000 + ((w >> 16) & 0xff) * 0x10000 + ((w >> 8) & 0xff)
        * 0x100 + (w & 0xff) == w) by (bit_vector);
    assert(((w >> 24) & 0xff) < 256 && ((w >> 16) & 0xff) < 256 && ((w >> 8) & 0xff) < 256 && (w
        & 0xff) < 256) by (bit_vector);
}

/// Serializing a header and parsing the bytes back yields the same header,
/// and the serialized bytes always carry the magic.
pub proof fn lemma_header_roundtrip(h: QOIHeader)
    ensures
        spec_header_bytes(h).len() == 14,
        magic_ok(spec_header_bytes(h)),
        spec_parse_header(spec_header_bytes(h)) == h,
{
    let bytes = spec_header_bytes(h);
    assert(bytes.len() == 14);
    lemma_be32_roundtrip(h.width);
    lemma_be32_roundtrip(h.height);
    assert(bytes[4] == ((h.width >> 24) & 0xff) as u8);
    assert(bytes[8] == ((h.height >> 24) & 0xff) as u8);
    assert(spec_parse_header(bytes).width == h.width);
    assert(spec_parse_header(bytes).height == h.height);
}

impl QOIHeader {
    /// Serializes the header into its 14 wire bytes.
    pub fn to_bytes(&self) -> (r: Vec<u8>)
        ensures
            r@ == spec_header_bytes(*self),
    {
        let mut bytes: Vec<u8> = Vec::with_capacity(14);
        bytes.push(0x71);
        bytes.push(0x6f);
        bytes.push(0x69);
        bytes.push(0x66);
        bytes.push(((self.width >> 24) & 0xff) as u8);
        bytes.push(((self.width >> 16) & 0xff) as u8);
        bytes.push(((self.width >> 8) & 0xff) as u8);
        bytes.push((self.width & 0xff) as u8);
        bytes.push(((self.height >> 24) & 0xff) as u8);
        bytes.push(((self.height >> 16) & 0xff) as u8);
        bytes.push(((self.height >> 8) & 0xff) as u8);
        bytes.push((self.height & 0xff) as u8);
        bytes.push(if self.has_alpha { 4 } else { 3 });
        bytes.push(if self.linear_rgb { 1 } else { 0 });
        proof {
            assert(bytes@ =~= spec_header_bytes(*self));
        }
        bytes
    }

    /// Reads a header back from a byte stream, if the stream starts with the
    /// magic `"qoif"` and is long enough; `None` exactly otherwise.
    pub fn parse(bytes: &Vec<u8>) -> (r: Option<QOIHeader>)
        ensures
            match r {
                Some(h) => magic_ok(bytes@) && h == spec_parse_header(bytes@),
                None => !magic_ok(bytes@),
            },
    {
        if bytes.len() < 14 {
            return None;
        }
        if !(bytes[0] == 0x71 && bytes[1] == 0x6f && bytes[2] == 0x69 && bytes[3] == 0x66) {
            return None;
        }
        let width = be32(bytes[4], bytes[5], bytes[6], bytes[7]);
        let height = be32(bytes[8], bytes[9], bytes[10], bytes[11]);
        Some(QOIHeader { width, height, has_alpha: bytes[12] == 4, linear_rgb: bytes[13] != 0 })
    }

    /// The number of pixels the header declares, `width * height`.
    pub fn image_size(&self) -> (r: usize)
        requires
            spec_image_size(*self) <= usize::MAX,
        ensures
            r == spec_image_size(*self),
    {
        (self.width as usize) * (self.height as usize)
    }
}

/// Assembles a 32-bit value from four big-endian bytes.
fn be32(b0: u8, b1: u8, b2: u8, b3: u8) -> (r: u32)
    ensures
        r == spec_be32(b0, b1, b2, b3),
{
    (b0 as u32) * 0x1000000 + (b1 as u32) * 0x10000 + (b2 as u32) * 0x100 + (b3 as u32)
}

} // verus!
