//! Stream packets of the simulated GigE Vision camera: leader, payload and trailer packets
//! carrying a synthetic gradient image.
use vstd::prelude::*;
use crate::wire::{be_bytes, put_be};
use crate::fake_gige::RGB8;

verus! {

/// GVSP header size in bytes.
pub const GVSP_HEADER_SIZE: usize = 8;

/// Payload type for image data.
pub const PAYLOAD_IMAGE: u16 = 0x0001;

// ---------------------------------------------------------------------------
// Packets
// ---------------------------------------------------------------------------

/// The leader packet of a block: GVSP header, then the image geometry.
pub open spec fn leader_bytes(block_id: u16, width: u32, height: u32, pixel_format: u32) -> Seq<u8> {
    be_bytes(0, 2) + be_bytes(block_id as nat, 2) + seq![1u8, 0u8] + be_bytes(0, 2) + be_bytes(0, 2)
        + be_bytes(PAYLOAD_IMAGE as nat, 2) + be_bytes(0, 8) + be_bytes(pixel_format as nat, 4)
        + be_bytes(width as nat, 4) + be_bytes(height as nat, 4) + be_bytes(0, 4) + be_bytes(0, 4)
        + be_bytes(0, 2) + be_bytes(0, 2)
}

/// The packet header of payload and trailer packets: the packet id's high byte, then the id.
pub open spec fn packet_header(block_id: u16, format: u8, packet_id: u16) -> Seq<u8> {
    be_bytes(0, 2) + be_bytes(block_id as nat, 2) + seq![format, (packet_id / 256) as u8] + be_bytes(
        packet_id as nat,
        2,
    )
}

/// A payload packet carrying `data`.
pub open spec fn payload_bytes(block_id: u16, packet_id: u16, data: Seq<u8>) -> Seq<u8> {
    packet_header(block_id, 3, packet_id) + data
}

/// The trailer packet closing a block.
pub open spec fn trailer_bytes(block_id: u16, packet_id: u16) -> Seq<u8> {
    packet_header(block_id, 2, packet_id) + be_bytes(0, 2) + be_bytes(PAYLOAD_IMAGE as nat, 2)
        + be_bytes(0, 4)
}

/// Build a GVSP leader packet.
pub fn build_leader(block_id: u16, width: u32, height: u32, pixel_format: u32) -> (p: Vec<u8>)
    ensures
        p@ == leader_bytes(block_id, width, height, pixel_format),
{
    let mut buf: Vec<u8> = Vec::new();
    put_be(&mut buf, 0, 2);
    put_be(&mut buf, block_id as u64, 2);
    buf.push(0x01);
    buf.push(0);
    put_be(&mut buf, 0, 2);
    put_be(&mut buf, 0, 2);
    put_be(&mut buf, PAYLOAD_IMAGE as u64, 2);
    put_be(&mut buf, 0, 8);
    put_be(&mut buf, pixel_format as u64, 4);
    put_be(&mut buf, width as u64, 4);
    put_be(&mut buf, height as u64, 4);
    put_be(&mut buf, 0, 4);
    put_be(&mut buf, 0, 4);
    put_be(&mut buf, 0, 2);
    put_be(&mut buf, 0, 2);
    assert(buf@ =~= leader_bytes(block_id, width, height, pixel_format));
    buf
}

fn put_packet_header(buf: &mut Vec<u8>, block_id: u16, format: u8, packet_id: u16)
    ensures
        final(buf)@ == old(buf)@ + packet_header(block_id, format, packet_id),
{
    put_be(buf, 0, 2);
    put_be(buf, block_id as u64, 2);
    buf.push(format);
    buf.push((packet_id / 256) as u8);
    put_be(buf, packet_id as u64, 2);
    assert(buf@ =~= old(buf)@ + packet_header(block_id, format, packet_id));
}

/// Build a GVSP payload packet.
pub fn build_payload(block_id: u16, packet_id: u16, data: &[u8]) -> (p: Vec<u8>)
    ensures
        p@ == payload_bytes(block_id, packet_id, data@),
{
    let mut buf: Vec<u8> = Vec::new();
    put_packet_header(&mut buf, block_id, 0x03, packet_id);
    buf.extend_from_slice(data);
    assert(buf@ =~= payload_bytes(block_id, packet_id, data@));
    buf
}

/// Build a GVSP trailer packet.
pub fn build_trailer(block_id: u16, packet_id: u16) -> (p: Vec<u8>)
    ensures
        p@ == trailer_bytes(block_id, packet_id),
{
    let mut buf: Vec<u8> = Vec::new();
    put_packet_header(&mut buf, block_id, 0x02, packet_id);
    put_be(&mut buf, 0, 2);
    put_be(&mut buf, PAYLOAD_IMAGE as u64, 2);
    put_be(&mut buf, 0, 4);
    assert(buf@ =~= trailer_bytes(block_id, packet_id));
    buf
}

// ---------------------------------------------------------------------------
// Test image
// ---------------------------------------------------------------------------

/// Horizontal step of the gradient: `255 / width` in 16-bit arithmetic.
pub open spec fn gradient_step(width: nat) -> nat {
    255nat / ((if width == 0 { 1nat } else { width }) % 0x1_0000)
}

/// Whether the gradient is defined: the 16-bit width is not zero.
pub open spec fn gradient_ok(width: nat) -> bool {
    (if width == 0 { 1nat } else { width }) % 0x1_0000 != 0
}

/// Byte `i` of the gradient image: red (or gray) rises across a row with the frame's seed,
/// green rises down the image, blue is the seed; other channels stay zero.
pub open spec fn gradient_byte(width: nat, height: nat, bpp: nat, seed: u16, i: int) -> u8 {
    let p = i / bpp as int;
    let c = i % bpp as int;
    let x = p % width as int;
    let y = p / width as int;
    if c == 0 && (bpp == 1 || bpp >= 3) {
        (((x + seed) * gradient_step(width)) % 256) as u8
    } else if c == 1 && bpp >= 3 {
        ((y * 255) / (if height == 0 { 1 } else { height } as int)) as u8
    } else if c == 2 && bpp >= 3 {
        (seed % 256) as u8
    } else {
        0u8
    }
}

proof fn lemma_gradient_value(x: nat, seed: u16, k: u16)
    ensures
        vstd::wrapping::u16_specs::wrapping_mul(
            vstd::wrapping::u16_specs::wrapping_add((x % 0x1_0000) as u16, seed),
            k,
        ) % 256 == ((x + seed) * k) % 256,
{
    let a = (x % 0x1_0000) as u16;
    let s = vstd::wrapping::u16_specs::wrapping_add(a, seed);
    assert(s as int == (a + seed) % 0x1_0000);
    let m = vstd::wrapping::u16_specs::wrapping_mul(s, k);
    assert(m as int == (s * k) % 0x1_0000);
    vstd::arithmetic::div_mod::lemma_mod_mod((s * k) as int, 256, 256);
    assert((s * k) % 0x1_0000 % 256 == (s * k) % 256) by {
        vstd::arithmetic::div_mod::lemma_mod_mod((s * k) as int, 256, 256);
    }
    assert((s * k) % 256 == ((a + seed) * k) % 256) by {
        vstd::arithmetic::div_mod::lemma_mod_mod((a + seed) as int, 256, 256);
        vstd::arithmetic::div_mod::lemma_mul_mod_noop_left(s as int, k as int, 256);
        vstd::arithmetic::div_mod::lemma_mul_mod_noop_left((a + seed) as int, k as int, 256);
        vstd::arithmetic::div_mod::lemma_mod_mod((a + seed) as int, 256, 256);
    }
    assert(((a + seed) * k) % 256 == ((x + seed) * k) % 256) by {
        vstd::arithmetic::div_mod::lemma_mod_mod(x as int, 256, 256);
        vstd::arithmetic::div_mod::lemma_add_mod_noop(a as int, seed as int, 256);
        vstd::arithmetic::div_mod::lemma_add_mod_noop(x as int, seed as int, 256);
        vstd::arithmetic::div_mod::lemma_mul_mod_noop_left((a + seed) as int, k as int, 256);
        vstd::arithmetic::div_mod::lemma_mul_mod_noop_left((x + seed) as int, k as int, 256);
    }
}

/// Generate a gradient test pattern of `width` by `height` pixels of `bpp` bytes.
pub fn generate_gradient(width: usize, height: usize, bpp: usize, seed: u16) -> (data: Vec<u8>)
    requires
        width * height <= usize::MAX,
        width * height * bpp <= usize::MAX,
        height * 255 <= usize::MAX,
        gradient_ok(width as nat),
    ensures
        data@.len() == width * height * bpp,
        forall|i: int| 0 <= i < data@.len() ==> data@[i] == gradient_byte(
            width as nat,
            height as nat,
            bpp as nat,
            seed,
            i,
        ),
{
    let size = width * height * bpp;
    let w1: usize = if width == 0 {
        1
    } else {
        width
    };
    let h1: usize = if height == 0 {
        1
    } else {
        height
    };
    let k: u16 = 255 / ((w1 % 0x1_0000) as u16);
    let mut data: Vec<u8> = Vec::new();
    let mut i: usize = 0;
    while i < size
        invariant
            size == width * height * bpp,
            height * 255 <= usize::MAX,
            gradient_ok(width as nat),
            w1 as int == (if width == 0 { 1 } else { width as int }),
            h1 as int == (if height == 0 { 1 } else { height as int }),
            k as nat == gradient_step(width as nat),
            i <= size,
            data@.len() == i,
            forall|j: int| 0 <= j < i ==> data@[j] == gradient_byte(
                width as nat,
                height as nat,
                bpp as nat,
                seed,
                j,
            ),
        decreases size - i,
    {
        assert(bpp > 0 && width > 0) by {
            if bpp == 0 || width == 0 {
                assert(width * height * bpp == 0) by (nonlinear_arith)
                    requires
                        bpp == 0 || width == 0,
                ;
            }
        }
        let p = i / bpp;
        let c = i % bpp;
        let x = p % width;
        let y = p / width;
        proof {
            assert(p < width * height) by (nonlinear_arith)
                requires
                    p == i / bpp,
                    i < width * height * bpp,
                    bpp > 0,
            ;
            assert(y < height) by (nonlinear_arith)
                requires
                    y == p / width,
                    p < width * height,
                    width > 0,
            ;
            assert(y * 255 <= height * 255) by (nonlinear_arith)
                requires
                    y < height,
            ;
        }
        let b: u8 = if c == 0 && (bpp == 1 || bpp >= 3) {
            let xw = (x % 0x1_0000) as u16;
            let v = xw.wrapping_add(seed).wrapping_mul(k);
            proof {
                lemma_gradient_value(x as nat, seed, k);
            }
            (v % 256) as u8
        } else if c == 1 && bpp >= 3 {
            let g = (y * 255) / h1;
            assert(g < 256) by (nonlinear_arith)
                requires
                    g as int == (y * 255) as int / (h1 as int),
                    y < h1,
            ;
            g as u8
        } else if c == 2 && bpp >= 3 {
            (seed % 256) as u8
        } else {
            0u8
        };
        data.push(b);
        i = i + 1;
    }
    data
}

// ---------------------------------------------------------------------------
// Streaming
// ---------------------------------------------------------------------------

/// Bytes per pixel of the stream's pixel format: three for RGB8, one otherwise.
pub open spec fn stream_bpp(pixel_format: u32) -> nat {
    if pixel_format == RGB8 {
        3
    } else {
        1
    }
}

/// Number of payload packets for an image of `size` bytes sent `per` bytes at a time.
pub open spec fn chunk_count(size: nat, per: nat) -> nat {
    if per == 0 {
        0
    } else {
        ((size + per - 1) / per as int) as nat
    }
}

/// What the sender does with the current register values.
pub enum StreamAction {
    /// No destination or no room for payload: try again later.
    Wait,
    /// Send these packets in order: leader, payload packets, trailer.
    Send(Vec<Vec<u8>>),
}

/// Bytes `k * per` up to `(k + 1) * per` of `image` (fewer at its end).
pub open spec fn chunk_of(image: Seq<u8>, k: int, per: nat) -> Seq<u8> {
    image.subrange(k * per, if (k + 1) * per < image.len() { (k + 1) * per } else { image.len() as int })
}

/// The packets of one frame: the leader, the image cut into packets of `per` bytes
/// (numbered from one), and the trailer numbered after the last payload packet.
pub open spec fn frame_packets(
    block_id: u16,
    width: u32,
    height: u32,
    pixel_format: u32,
    per: nat,
    image: Seq<u8>,
) -> Seq<Seq<u8>> {
    let n = chunk_count(image.len(), per);
    seq![leader_bytes(block_id, width, height, pixel_format)] + Seq::new(
        n,
        |k: int| payload_bytes(block_id, (k + 1) as u16, chunk_of(image, k, per)),
    ) + seq![trailer_bytes(block_id, (n + 1) as u16)]
}

/// Whether a frame of this size can be numbered with 16-bit packet ids and computed without overflow.
pub open spec fn frame_fits(width: u32, height: u32, pixel_format: u32, packet_size: u32) -> bool {
    let size = width * height * stream_bpp(pixel_format);
    &&& size <= u32::MAX
    &&& height * 255 <= usize::MAX
    &&& gradient_ok(width as nat)
    &&& packet_size > GVSP_HEADER_SIZE ==> chunk_count(size as nat, (packet_size - GVSP_HEADER_SIZE) as nat)
        + 1 <= u16::MAX
}

proof fn lemma_chunk_before_end(k: nat, per: nat, size: nat)
    requires
        per > 0,
        k * per < size,
    ensures
        k < chunk_count(size, per),
{
    assert(k + 1 <= (size + per - 1) / per as int) by (nonlinear_arith)
        requires
            per > 0,
            k * per < size,
    {
        assert((k + 1) * per <= size + per - 1);
        vstd::arithmetic::div_mod::lemma_div_is_ordered(((k + 1) * per) as int, (size + per - 1) as int, per as int);
        vstd::arithmetic::div_mod::lemma_div_multiples_vanish((k + 1) as int, per as int);
    }
}

proof fn lemma_chunk_count_at_end(k: nat, per: nat, size: nat)
    requires
        per > 0,
        k * per >= size,
        k >= 1 ==> (k - 1) * per < size,
    ensures
        k == chunk_count(size, per),
{
    let q = (size + per - 1) / per as int;
    vstd::arithmetic::div_mod::lemma_fundamental_div_mod((size + per - 1) as int, per as int);
    let r = (size + per - 1) % per as int;
    assert(0 <= r < per);
    assert(q * per + r == size + per - 1);
    assert(q == k) by (nonlinear_arith)
        requires
            per > 0,
            k * per >= size,
            k >= 1 ==> (k - 1) * per < size,
            q * per + r == size + per - 1,
            0 <= r < per,
            size >= 0,
    {
        if q > k {
            assert(q * per >= (k + 1) * per);
        }
        if q < k {
            assert(q * per <= (k - 1) * per);
        }
    }
}

/// One step of the sender: wait while there is no destination or no payload room,
/// otherwise the packets of a frame with the gradient image seeded by the block id.
pub fn stream_step(
    dest_port: u16,
    dest_unspecified: bool,
    packet_size: u32,
    width: u32,
    height: u32,
    pixel_format: u32,
    block_id: u16,
) -> (a: StreamAction)
    requires
        frame_fits(width, height, pixel_format, packet_size),
    ensures
        (dest_port == 0 || dest_unspecified || packet_size <= GVSP_HEADER_SIZE) ==> a is Wait,
        !(dest_port == 0 || dest_unspecified || packet_size <= GVSP_HEADER_SIZE) ==> (a matches StreamAction::Send(
            ps,
        ) && exists|image: Seq<u8>|
            {
                &&& image.len() == width * height * stream_bpp(pixel_format)
                &&& forall|i: int| #![auto]
                    0 <= i < image.len() ==> image[i] == gradient_byte(
                        width as nat,
                        height as nat,
                        stream_bpp(pixel_format),
                        block_id,
                        i,
                    )
                &&& ps@.map_values(|p: Vec<u8>| p@) == frame_packets(
                    block_id,
                    width,
                    height,
                    pixel_format,
                    (packet_size - GVSP_HEADER_SIZE) as nat,
                    image,
                )
            }),
{
    if dest_port == 0 || dest_unspecified {
        return StreamAction::Wait;
    }
    if packet_size as usize <= GVSP_HEADER_SIZE {
        return StreamAction::Wait;
    }
    let per = packet_size as usize - GVSP_HEADER_SIZE;
    let bpp: u32 = if pixel_format == RGB8 {
        3
    } else {
        1
    };
    let image_size = (width * height * bpp) as usize;
    let image = generate_gradient(width as usize, height as usize, bpp as usize, block_id);
    let mut packets: Vec<Vec<u8>> = Vec::new();
    packets.push(build_leader(block_id, width, height, pixel_format));
    let ghost n = chunk_count(image_size as nat, per as nat);
    let mut packet_id: u16 = 1;
    let mut offset: usize = 0;
    while offset < image_size
        invariant
            image@.len() == image_size,
            per > 0,
            n == chunk_count(image_size as nat, per as nat),
            n + 1 <= u16::MAX,
            packet_id >= 1,
            offset == (if (packet_id - 1) * per < image_size {
                (packet_id - 1) * per
            } else {
                image_size as int
            }),
            packet_id >= 2 ==> (packet_id - 2) * per < image_size,
            packets@.len() == packet_id as int,
            packets@[0]@ == leader_bytes(block_id, width, height, pixel_format),
            forall|k: int| 0 <= k < packet_id - 1 ==> #[trigger] packets@[k + 1]@ == payload_bytes(
                block_id,
                (k + 1) as u16,
                chunk_of(image@, k, per as nat),
            ),
        decreases image_size - offset,
    {
        proof {
            lemma_chunk_before_end((packet_id - 1) as nat, per as nat, image_size as nat);
        }
        let end = if per < image_size - offset {
            offset + per
        } else {
            image_size
        };
        let chunk = vstd::slice::slice_subrange(image.as_slice(), offset, end);
        packets.push(build_payload(block_id, packet_id, chunk));
        proof {
            let k = packet_id - 1;
            assert(k * per + per == (k + 1) * per) by (nonlinear_arith);
        }
        packet_id = packet_id + 1;
        offset = end;
    }
    proof {
        lemma_chunk_count_at_end((packet_id - 1) as nat, per as nat, image_size as nat);
    }
    packets.push(build_trailer(block_id, packet_id));
    assert(packets@.map_values(|p: Vec<u8>| p@) =~= frame_packets(
        block_id,
        width,
        height,
        pixel_format,
        per as nat,
        image@,
    ));
    StreamAction::Send(packets)
}

/// The block id after `b`: one more, skipping zero after wrapping.
pub fn next_block_id(b: u16) -> (r: u16)
    ensures
        r == (if b == u16::MAX { 1 } else { b + 1 }),
        r != 0,
{
    let n = b.wrapping_add(1);
    if n == 0 {
        1
    } else {
        n
    }
}

} // verus!
