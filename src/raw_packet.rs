//! Raw packets of a run-length encoded TGA image.
//!
//! A packet starts with a header byte. Its top bit tells a raw packet (0)
//! from a run-length packet (1); its low seven bits hold the number of pixels
//! less one. A raw packet then holds the data of each of its pixels in turn.
use vstd::prelude::*;

verus! {

/// A raw packet, borrowing its pixel data from the input.
#[derive(Debug, PartialEq, Eq)]
pub struct RawPacket<'a> {
    /// Number of pixels of this packet.
    pub num_pixels: u8,
    /// Pixel data in this packet, up to 32 bits (4 bytes) per pixel.
    pub pixel_data: &'a [u8],
}

/// Why a raw packet could not be read.
#[derive(Debug, Clone, Copy, PartialEq, Eq, Structural)]
pub enum PacketError {
    /// The input ends before the packet does.
    Incomplete,
    /// The header announces a run-length packet.
    NotRaw,
}

impl<'a> RawPacket<'a> {
    /// Number of bytes of pixel data in this packet.
    pub fn len(&self) -> (r: usize)
        ensures
            r == self.pixel_data@.len(),
    {
        self.pixel_data.len()
    }
}

/// Number of pixels that a raw packet's header announces.
pub open spec fn pixels_in(header: u8) -> int {
    header as int + 1
}

/// Number of data bytes of a raw packet.
pub open spec fn data_len(header: u8, bytes_per_pixel: u8) -> int {
    pixels_in(header) * bytes_per_pixel as int
}

/// What reading a raw packet from `input` gives.
pub open spec fn raw_packet_result<'a>(
    input: Seq<u8>,
    bytes_per_pixel: u8,
    r: Result<(&'a [u8], RawPacket<'a>), PacketError>,
) -> bool {
    if input.len() == 0 {
        r == Err::<(&'a [u8], RawPacket<'a>), PacketError>(PacketError::Incomplete)
    } else if input[0] >= 128 {
        r == Err::<(&'a [u8], RawPacket<'a>), PacketError>(PacketError::NotRaw)
    } else if input.len() < 1 + data_len(input[0], bytes_per_pixel) {
        r == Err::<(&'a [u8], RawPacket<'a>), PacketError>(PacketError::Incomplete)
    } else {
        let end = 1 + data_len(input[0], bytes_per_pixel);
        match r {
            Ok((rest, p)) => {
                &&& p.num_pixels == pixels_in(input[0])
                &&& p.pixel_data@ == input.subrange(1, end)
                &&& rest@ == input.subrange(end, input.len() as int)
            },
            Err(_) => false,
        }
    }
}

/// Reads one raw packet from the front of `input`, with `bytes_per_pixel`
/// bytes of data per pixel, and returns the input that follows it.
pub fn raw_packet<'a>(input: &'a [u8], bytes_per_pixel: u8) -> (r: Result<(&'a [u8], RawPacket<'a>), PacketError>)
    ensures
        raw_packet_result(input@, bytes_per_pixel, r),
{
    if input.len() == 0 {
        return Err(PacketError::Incomplete);
    }
    let header = input[0];
    if header >= 128 {
        return Err(PacketError::NotRaw);
    }
    let num_pixels: u8 = header + 1;
    assert(num_pixels as usize * bytes_per_pixel as usize <= 128 * 255) by (nonlinear_arith)
        requires num_pixels <= 128;
    let n: usize = num_pixels as usize * bytes_per_pixel as usize;
    if input.len() - 1 < n {
        return Err(PacketError::Incomplete);
    }
    let (_, body) = input.split_at(1);
    let (pixel_data, rest) = body.split_at(n);
    proof {
        assert(pixel_data@ =~= input@.subrange(1, 1 + n));
        assert(rest@ =~= input@.subrange(1 + n, input@.len() as int));
    }
    Ok((rest, RawPacket { num_pixels, pixel_data }))
}

} // verus!
