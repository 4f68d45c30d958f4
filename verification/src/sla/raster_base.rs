//! Raster images of SLA layers and their encodings: an uncompressed PGM
//! ("P5") file, and an 8-bit PNG file whose image data is a zlib stream at
//! compression level 6.
use std::io::Write;
use vstd::prelude::*;
use crate::geometry::{Coord, ExPolygon, Point};

verus! {

/// An encoded image and its file extension.
#[derive(Debug)]
pub struct EncodedRaster {
    m_buffer: Vec<u8>,
    m_ext: String,
}

impl View for EncodedRaster {
    type V = (Seq<u8>, Seq<char>);

    closed spec fn view(&self) -> (Seq<u8>, Seq<char>) {
        (self.m_buffer@, self.m_ext@)
    }
}

impl EncodedRaster {
    pub fn new(buf: Vec<u8>, ext: String) -> (r: EncodedRaster)
        ensures
            r@ == (buf@, ext@),
    {
        EncodedRaster { m_buffer: buf, m_ext: ext }
    }

    /// Number of encoded bytes.
    pub fn size(&self) -> (r: usize)
        ensures
            r == self@.0.len(),
    {
        self.m_buffer.len()
    }

    /// The encoded bytes.
    pub fn data(&self) -> (r: &[u8])
        ensures
            r@ == self@.0,
    {
        self.m_buffer.as_slice()
    }

    /// The file extension.
    pub fn extension(&self) -> (r: &str)
        ensures
            r@ == self@.1,
    {
        self.m_ext.as_str()
    }
}

impl Default for EncodedRaster {
    fn default() -> (r: EncodedRaster)
        ensures
            r@ == (Seq::<u8>::empty(), Seq::<char>::empty()),
    {
        EncodedRaster { m_buffer: Vec::new(), m_ext: String::new() }
    }
}

/// A resolution in pixels.
#[derive(Clone, Copy, Debug, PartialEq, Eq, Structural)]
pub struct Resolution {
    pub width_px: usize,
    pub height_px: usize,
}

impl Resolution {
    pub fn new(w: usize, h: usize) -> (r: Resolution)
        ensures
            r == (Resolution { width_px: w, height_px: h }),
    {
        Resolution { width_px: w, height_px: h }
    }

    /// Number of pixels.
    pub fn pixels(&self) -> (r: usize)
        requires
            self.width_px * self.height_px <= usize::MAX,
        ensures
            r == self.width_px * self.height_px,
    {
        self.width_px * self.height_px
    }
}

impl Default for Resolution {
    fn default() -> (r: Resolution)
        ensures
            r == (Resolution { width_px: 0, height_px: 0 }),
    {
        Resolution { width_px: 0, height_px: 0 }
    }
}

/// Raster orientation.
#[derive(Clone, Copy, Debug, PartialEq, Eq, Structural)]
pub enum Orientation {
    RoLandscape,
    RoPortrait,
}

/// Mirroring along x and along y.
pub type TMirroring = [bool; 2];

pub const NO_MIRROR: TMirroring = [false, false];

pub const MIRROR_X: TMirroring = [true, false];

pub const MIRROR_Y: TMirroring = [false, true];

pub const MIRROR_XY: TMirroring = [true, true];

/// The transformation from model coordinates to raster coordinates.
#[derive(Clone, Copy, Debug, PartialEq, Eq, Structural)]
pub struct Trafo {
    pub mirror_x: bool,
    pub mirror_y: bool,
    pub flip_xy: bool,
    pub center_x: Coord,
    pub center_y: Coord,
}

impl Trafo {
    /// Portrait orientation swaps x and y, which implicitly mirrors x; y is
    /// always mirrored so that the raster origin is the top left corner.
    pub fn new(o: Orientation, mirror: TMirroring) -> (r: Trafo)
        ensures
            r.mirror_x == (if o == Orientation::RoPortrait {
                !mirror@[0]
            } else {
                mirror@[0]
            }),
            r.mirror_y == !mirror@[1],
            r.flip_xy == (o == Orientation::RoPortrait),
            r.center_x == 0,
            r.center_y == 0,
    {
        Trafo {
            mirror_x: if o == Orientation::RoPortrait {
                !mirror[0]
            } else {
                mirror[0]
            },
            mirror_y: !mirror[1],
            flip_xy: o == Orientation::RoPortrait,
            center_x: 0,
            center_y: 0,
        }
    }

    /// The mirroring as given to `new` for a portrait raster: the x flag is
    /// reported negated whatever the orientation.
    pub fn get_mirror(&self) -> (r: TMirroring)
        ensures
            r@ == seq![!self.mirror_x, self.mirror_y],
    {
        let r: TMirroring = [!self.mirror_x, self.mirror_y];
        assert(r@ =~= seq![!self.mirror_x, self.mirror_y]);
        r
    }

    pub fn get_orientation(&self) -> (r: Orientation)
        ensures
            r == (if self.flip_xy {
                Orientation::RoPortrait
            } else {
                Orientation::RoLandscape
            }),
    {
        if self.flip_xy {
            Orientation::RoPortrait
        } else {
            Orientation::RoLandscape
        }
    }

    pub fn get_center(&self) -> (r: Point)
        ensures
            r == (Point { x: self.center_x, y: self.center_y }),
    {
        Point::new(self.center_x, self.center_y)
    }
}

impl Default for Trafo {
    fn default() -> (r: Trafo)
        ensures
            r == (Trafo {
                mirror_x: false,
                mirror_y: true,
                flip_xy: false,
                center_x: 0,
                center_y: 0,
            }),
    {
        Self::new(Orientation::RoLandscape, NO_MIRROR)
    }
}

/// Something that turns raw pixel data (`w * h * num_components` bytes) into
/// an encoded image.
pub trait RasterEncoder {
    fn encode_pixels(&mut self, ptr: &[u8], w: usize, h: usize, num_components: usize) -> EncodedRaster
        requires
            num_components <= 4,
            w * h <= usize::MAX,
            w * num_components <= usize::MAX,
            w * h * num_components <= ptr@.len(),
    ;
}

/// A raster that polygons can be drawn onto.
pub trait RasterBase {
    /// Draw a polygon with holes.
    fn draw(&mut self, poly: &ExPolygon);

    /// The raster's transformation.
    fn trafo(&self) -> Trafo;

    /// Encode the raster with an encoder.
    fn encode<E: RasterEncoder>(&self, encoder: &mut E) -> EncodedRaster;
}

/// Encodes rasters as PNG files.
#[derive(Clone, Copy, Debug, Default)]
pub struct PNGRasterEncoder;

/// Encodes rasters as binary PGM ("P5") files.
#[derive(Clone, Copy, Debug, Default)]
pub struct PPMRasterEncoder;

// ---------------------------------------------------------------------------
// CRC-32 (IEEE, reflected, polynomial 0xEDB88320)
// ---------------------------------------------------------------------------

/// One bit step of the reflected CRC-32 register.
pub open spec fn crc_bit(c: u32) -> u32 {
    if c & 1u32 == 1u32 {
        (c >> 1u32) ^ 0xEDB8_8320u32
    } else {
        c >> 1u32
    }
}

/// `n` bit steps.
pub open spec fn crc_bits(c: u32, n: nat) -> u32
    decreases n,
{
    if n == 0 {
        c
    } else {
        crc_bit(crc_bits(c, (n - 1) as nat))
    }
}

/// The register after the first `n` bytes of `s`.
pub open spec fn crc_register(c: u32, s: Seq<u8>, n: nat) -> u32
    decreases n,
{
    if n == 0 || n > s.len() {
        c
    } else {
        crc_bits(crc_register(c, s, (n - 1) as nat) ^ (s[n - 1] as u32), 8)
    }
}

/// The CRC-32 of `s`, continuing from the CRC `prev` of earlier data.
pub open spec fn crc32(prev: u32, s: Seq<u8>) -> u32 {
    !crc_register(!prev, s, s.len())
}

proof fn lemma_crc_register_prefix(c: u32, a: Seq<u8>, b: Seq<u8>, n: nat)
    requires
        n <= a.len(),
    ensures
        crc_register(c, a + b, n) == crc_register(c, a, n),
    decreases n,
{
    if n > 0 {
        lemma_crc_register_prefix(c, a, b, (n - 1) as nat);
        assert((a + b)[n - 1] == a[n - 1]);
    }
}

proof fn lemma_crc_register_suffix(c: u32, a: Seq<u8>, b: Seq<u8>, k: nat)
    requires
        k <= b.len(),
    ensures
        crc_register(c, a + b, a.len() + k) == crc_register(crc_register(c, a, a.len()), b, k),
    decreases k,
{
    if k == 0 {
        lemma_crc_register_prefix(c, a, b, a.len());
    } else {
        lemma_crc_register_suffix(c, a, b, (k - 1) as nat);
        assert((a + b)[a.len() + k - 1] == b[k - 1]);
    }
}

/// A CRC can be computed piecewise: continuing the CRC of `a` over `b` gives
/// the CRC of `a` followed by `b`.
pub proof fn lemma_crc32_chain(prev: u32, a: Seq<u8>, b: Seq<u8>)
    ensures
        crc32(crc32(prev, a), b) == crc32(prev, a + b),
{
    let r = crc_register(!prev, a, a.len());
    assert(!!r == r) by (bit_vector);
    lemma_crc_register_suffix(!prev, a, b, b.len());
}

/// The CRC-32 of `data`, continuing from the CRC `prev` of earlier data
/// (0 for a fresh computation).
pub fn mz_crc32(prev: u32, data: &[u8]) -> (r: u32)
    ensures
        r == crc32(prev, data@),
{
    let mut crc: u32 = !prev;
    let mut i: usize = 0;
    while i < data.len()
        invariant
            i <= data@.len(),
            crc == crc_register(!prev, data@, i as nat),
        decreases data@.len() - i,
    {
        let b = data[i];
        crc = crc ^ (b as u32);
        let ghost c0 = crc;
        let mut k: u32 = 0;
        while k < 8
            invariant
                k <= 8,
                crc == crc_bits(c0, k as nat),
            decreases 8 - k,
        {
            let low = crc & 1;
            let mask = (!low).wrapping_add(1);
            proof {
                assert(low == 0u32 || low == 1u32) by (bit_vector)
                    requires
                        low == crc & 1u32,
                ;
                if low == 0u32 {
                    assert(!0u32 == 0xffff_ffffu32) by (bit_vector);
                } else {
                    assert(!1u32 == 0xffff_fffeu32) by (bit_vector);
                }
            }
            let next = (crc >> 1) ^ (0xEDB8_8320 & mask);
            proof {
                if low == 0u32 {
                    assert(mask == 0u32);
                    assert(next == crc >> 1u32) by (bit_vector)
                        requires
                            next == (crc >> 1u32) ^ (0xEDB8_8320u32 & mask),
                            mask == 0u32,
                    ;
                } else {
                    assert(mask == 0xffff_ffffu32);
                    assert(next == (crc >> 1u32) ^ 0xEDB8_8320u32) by (bit_vector)
                        requires
                            next == (crc >> 1u32) ^ (0xEDB8_8320u32 & mask),
                            mask == 0xffff_ffffu32,
                    ;
                }
            }
            crc = next;
            k += 1;
        }
        i += 1;
    }
    !crc
}

// ---------------------------------------------------------------------------
// PNG
// ---------------------------------------------------------------------------

/// What `flate2`'s `ZlibEncoder` makes of `data` at compression level
/// `level`: the zlib stream (RFC 1950 framing around a DEFLATE stream), or
/// `None` where the encoder reports an error. Both depend on the bytes and the
/// level alone: the encoder writes into memory and reads nothing else.
pub uninterp spec fn zlib_stream(data: Seq<u8>, level: u32) -> Option<Seq<u8>>;

/// `flate2::write::ZlibEncoder` at `flate2::Compression::new(level)` over a
/// `Vec<u8>` sink: writes all of `data`, then finishes the stream. The
/// contract claims that the outcome, the stream or `None` when writing or
/// finishing reports an error, is the one `zlib_stream` names for `data` at
/// that level (the encoder is deterministic). It does not say that the
/// outcome is a stream.
#[verifier::external_body]
fn zlib_compress(data: &Vec<u8>, level: u32) -> (r: Option<Vec<u8>>)
    requires
        level <= 9,
    ensures
        zlib_stream(data@, level) == (match r {
            Some(v) => Some(v@),
            None => None::<Seq<u8>>,
        }),
{
    let mut enc = flate2::write::ZlibEncoder::new(Vec::new(), flate2::Compression::new(level));
    match enc.write_all(data) {
        Ok(()) => enc.finish().ok(),
        Err(_) => None,
    }
}

/// The image data PNG compresses: every row of `bpl` bytes prefixed with the
/// filter byte 0 (no filter).
pub open spec fn png_scanlines(img: Seq<u8>, bpl: int, h: int) -> Seq<u8>
    decreases h,
{
    if h <= 0 {
        Seq::empty()
    } else {
        png_scanlines(img, bpl, h - 1) + seq![0u8] + img.subrange((h - 1) * bpl, h * bpl)
    }
}

/// PNG colour type per number of channels: grey, grey+alpha, RGB, RGBA.
pub open spec fn png_color_type(num_chans: int) -> u8 {
    if num_chans == 2 {
        0x04u8
    } else if num_chans == 3 {
        0x02u8
    } else if num_chans == 4 {
        0x06u8
    } else {
        0x00u8
    }
}

/// Signature and IHDR chunk without its CRC (29 bytes). Only the low 16 bits
/// of the width and height are stored.
pub open spec fn png_head(w: usize, h: usize, color: u8) -> Seq<u8> {
    seq![
        0x89u8, 0x50, 0x4e, 0x47, 0x0d, 0x0a, 0x1a, 0x0a,
        0x00, 0x00, 0x00, 0x0d, 0x49, 0x48, 0x44, 0x52,
        0x00, 0x00, (w >> 8usize) as u8, w as u8,
        0x00, 0x00, (h >> 8usize) as u8, h as u8,
        0x08, color, 0x00, 0x00, 0x00,
    ]
}

/// Big-endian bytes of a 32-bit value.
pub open spec fn be_u32(x: u32) -> Seq<u8> {
    seq![(x >> 24u32) as u8, (x >> 16u32) as u8, (x >> 8u32) as u8, x as u8]
}

/// Big-endian bytes of the low 32 bits of a length.
pub open spec fn be_len(x: usize) -> Seq<u8> {
    seq![(x >> 24usize) as u8, (x >> 16usize) as u8, (x >> 8usize) as u8, x as u8]
}

/// A PNG file with a single IDAT chunk holding the compressed stream `z`.
pub open spec fn png_file(w: usize, h: usize, num_chans: int, z: Seq<u8>) -> Seq<u8> {
    let head = png_head(w, h, png_color_type(num_chans));
    let idat = seq![0x49u8, 0x44, 0x41, 0x54] + z;
    head + be_u32(crc32(0, head.subrange(12, 29))) + be_len(z.len() as usize) + idat + be_u32(
        crc32(0, idat),
    ) + seq![0x00u8, 0x00, 0x00, 0x00, 0x49, 0x45, 0x4e, 0x44, 0xae, 0x42, 0x60, 0x82]
}

proof fn lemma_low_16(w: usize)
    ensures
        ((w >> 8usize) as u8) as int * 256 + (w as u8) as int == w % 65536,
{
    assert(((w >> 8usize) as u8) as int * 256 + (w as u8) as int == w % 65536) by (bit_vector);
}

/// A PNG file written by this encoder declares the image's size in its
/// IHDR chunk: bytes 16..20 hold the width and bytes 20..24 the height,
/// big-endian, each taken modulo 65536 (the two high bytes are zero); the
/// file starts with the PNG signature and the IHDR chunk header.
pub proof fn lemma_png_dimensions(w: usize, h: usize, num_chans: int, z: Seq<u8>)
    ensures
        ({
            let f = png_file(w, h, num_chans, z);
            &&& f.len() >= 33
            &&& f.subrange(0, 8) == seq![0x89u8, 0x50, 0x4e, 0x47, 0x0d, 0x0a, 0x1a, 0x0a]
            &&& f.subrange(12, 16) == seq![0x49u8, 0x48, 0x44, 0x52]
            &&& f[16] == 0 && f[17] == 0
            &&& f[18] as int * 256 + f[19] as int == w % 65536
            &&& f[20] == 0 && f[21] == 0
            &&& f[22] as int * 256 + f[23] as int == h % 65536
        }),
{
    let f = png_file(w, h, num_chans, z);
    let head = png_head(w, h, png_color_type(num_chans));
    assert(head.len() == 29);
    assert forall|i: int| 0 <= i < 29 implies f[i] == head[i] by {}
    lemma_low_16(w);
    lemma_low_16(h);
    assert(f.subrange(0, 8) =~= seq![0x89u8, 0x50, 0x4e, 0x47, 0x0d, 0x0a, 0x1a, 0x0a]);
    assert(f.subrange(12, 16) =~= seq![0x49u8, 0x48, 0x44, 0x52]);
}

fn push_be_u32(out: &mut Vec<u8>, x: u32)
    ensures
        final(out)@ == old(out)@ + be_u32(x),
{
    out.push((x >> 24) as u8);
    out.push((x >> 16) as u8);
    out.push((x >> 8) as u8);
    out.push(x as u8);
    assert(out@ =~= old(out)@ + be_u32(x));
}

fn push_be_len(out: &mut Vec<u8>, x: usize)
    ensures
        final(out)@ == old(out)@ + be_len(x),
{
    out.push((x >> 24) as u8);
    out.push((x >> 16) as u8);
    out.push((x >> 8) as u8);
    out.push(x as u8);
    assert(out@ =~= old(out)@ + be_len(x));
}

/// Append all the bytes of `v`.
fn append_bytes(out: &mut Vec<u8>, v: &Vec<u8>)
    ensures
        final(out)@ == old(out)@ + v@,
{
    let mut k: usize = 0;
    while k < v.len()
        invariant
            k <= v@.len(),
            out@ == old(out)@ + v@.take(k as int),
        decreases v@.len() - k,
    {
        out.push(v[k]);
        assert(v@.take(k as int + 1) =~= v@.take(k as int).push(v@[k as int]));
        k += 1;
    }
    assert(v@.take(v@.len() as int) =~= v@);
}

fn png_head_bytes(w: usize, h: usize, color: u8) -> (r: Vec<u8>)
    ensures
        r@ == png_head(w, h, color),
{
    let mut head: Vec<u8> = Vec::new();
    head.push(0x89); head.push(0x50); head.push(0x4e); head.push(0x47);
    head.push(0x0d); head.push(0x0a); head.push(0x1a); head.push(0x0a);
    head.push(0x00); head.push(0x00); head.push(0x00); head.push(0x0d);
    head.push(0x49); head.push(0x48); head.push(0x44); head.push(0x52);
    head.push(0x00); head.push(0x00); head.push((w >> 8) as u8); head.push(w as u8);
    head.push(0x00); head.push(0x00); head.push((h >> 8) as u8); head.push(h as u8);
    head.push(0x08); head.push(color); head.push(0x00); head.push(0x00); head.push(0x00);
    assert(head@ =~= png_head(w, h, color));
    head
}

/// The IEND chunk behind the IDAT CRC: length 0, "IEND", its CRC.
pub open spec fn png_tail() -> Seq<u8> {
    seq![0x00u8, 0x00, 0x00, 0x00, 0x49, 0x45, 0x4e, 0x44, 0xae, 0x42, 0x60, 0x82]
}

fn png_tail_bytes() -> (r: Vec<u8>)
    ensures
        r@ == png_tail(),
{
    let mut t: Vec<u8> = Vec::new();
    t.push(0x00); t.push(0x00); t.push(0x00); t.push(0x00);
    t.push(0x49); t.push(0x45); t.push(0x4e); t.push(0x44);
    t.push(0xae); t.push(0x42); t.push(0x60); t.push(0x82);
    assert(t@ =~= png_tail());
    t
}

/// Assemble a PNG file around a compressed image stream.
pub fn png_from_compressed(z: &Vec<u8>, w: usize, h: usize, num_chans: usize) -> (r: Vec<u8>)
    requires
        num_chans <= 4,
    ensures
        r@ == png_file(w, h, num_chans as int, z@),
{
    let color: u8 = if num_chans == 2 {
        0x04
    } else if num_chans == 3 {
        0x02
    } else if num_chans == 4 {
        0x06
    } else {
        0x00
    };
    let head = png_head_bytes(w, h, color);
    let mut ihdr: Vec<u8> = Vec::new();
    let mut i: usize = 12;
    while i < 29
        invariant
            12 <= i <= 29,
            head@.len() == 29,
            ihdr@ == head@.subrange(12, i as int),
        decreases 29 - i,
    {
        ihdr.push(head[i]);
        assert(head@.subrange(12, i as int + 1) =~= head@.subrange(12, i as int).push(
            head@[i as int],
        ));
        i += 1;
    }
    let c1 = mz_crc32(0, ihdr.as_slice());
    let mut idat: Vec<u8> = Vec::new();
    idat.push(0x49);
    idat.push(0x44);
    idat.push(0x41);
    idat.push(0x54);
    assert(idat@ =~= seq![0x49u8, 0x44, 0x41, 0x54]);
    append_bytes(&mut idat, z);
    let c2 = mz_crc32(0, idat.as_slice());
    let mut out: Vec<u8> = Vec::new();
    append_bytes(&mut out, &head);
    push_be_u32(&mut out, c1);
    push_be_len(&mut out, z.len());
    append_bytes(&mut out, &idat);
    push_be_u32(&mut out, c2);
    let tail = png_tail_bytes();
    append_bytes(&mut out, &tail);
    proof {
        let hd = png_head(w, h, png_color_type(num_chans as int));
        assert(hd == head@);
        assert(Seq::<u8>::empty() + hd =~= hd);
        assert(out@ =~= hd + be_u32(crc32(0, hd.subrange(12, 29))) + be_len(z@.len() as usize)
            + idat@ + be_u32(crc32(0, idat@)) + png_tail());
    }
    out
}

proof fn lemma_row_index(y: int, x: int, bpl: int, h: int)
    requires
        0 <= y < h,
        0 <= x < bpl,
    ensures
        0 <= y * bpl + x < h * bpl,
        (y + 1) * bpl <= h * bpl,
        y * bpl + bpl == (y + 1) * bpl,
{
    assert(0 <= y * bpl + x < h * bpl) by (nonlinear_arith)
        requires
            0 <= y < h,
            0 <= x < bpl,
    ;
    assert((y + 1) * bpl <= h * bpl) by (nonlinear_arith)
        requires
            0 <= y < h,
            0 <= bpl,
    ;
    assert(y * bpl + bpl == (y + 1) * bpl) by (nonlinear_arith);
}

/// Prefix every row with the filter byte.
fn scanlines(img: &[u8], bpl: usize, h: usize) -> (r: Vec<u8>)
    requires
        h * bpl <= img@.len(),
    ensures
        r@ == png_scanlines(img@, bpl as int, h as int),
{
    let len = img.len();
    let mut raw: Vec<u8> = Vec::new();
    let mut y: usize = 0;
    while y < h
        invariant
            y <= h,
            h * bpl <= img@.len(),
            len == img@.len(),
            raw@ == png_scanlines(img@, bpl as int, y as int),
        decreases h - y,
    {
        proof {
            lemma_row_index(y as int, 0, bpl as int + 1, h as int);
            assert(y * bpl + bpl <= h * bpl) by (nonlinear_arith)
                requires
                    y < h,
                    bpl >= 0,
            ;
        }
        let ghost prefix = raw@;
        raw.push(0u8);
        let mut x: usize = 0;
        while x < bpl
            invariant
                x <= bpl,
                y < h,
                h * bpl <= img@.len(),
                len == img@.len(),
                y * bpl + bpl <= h * bpl,
                raw@ == prefix + seq![0u8] + img@.subrange(y * bpl, y * bpl + x),
            decreases bpl - x,
        {
            proof {
                lemma_row_index(y as int, x as int, bpl as int, h as int);
            }
            raw.push(img[y * bpl + x]);
            assert(img@.subrange(y * bpl, y * bpl + x + 1) =~= img@.subrange(
                y * bpl,
                y * bpl + x,
            ).push(img@[y * bpl + x]));
            x += 1;
        }
        proof {
            if bpl > 0 {
                lemma_row_index(y as int, 0, bpl as int, h as int);
            }
            assert((y + 1) * bpl == y * bpl + bpl) by (nonlinear_arith);
        }
        y += 1;
    }
    raw
}

/// The PNG file of `w * h` pixels of `n` channels, if their scanlines
/// compress at level 6.
pub open spec fn png_image(ptr: Seq<u8>, w: usize, h: usize, n: usize) -> Option<Seq<u8>> {
    match zlib_stream(png_scanlines(ptr, w * n, h as int), 6) {
        Some(z) => Some(png_file(w, h, n as int, z)),
        None => None,
    }
}

/// A PNG image of `w * h` pixels of `num_components` channels, or an empty
/// buffer when compression fails.
pub open spec fn png_encoding(ptr: Seq<u8>, w: usize, h: usize, n: usize) -> Seq<u8> {
    match png_image(ptr, w, h, n) {
        Some(f) => f,
        None => Seq::empty(),
    }
}

/// Write `h` rows of `w` pixels of `num_chans` channels as a PNG file in
/// memory: the rows, each behind a filter byte 0, are zlib-compressed at
/// level 6 and framed as a single IDAT chunk. `None` when compression fails.
fn tdefl_write_image_to_png_file_in_memory(p_image: &[u8], w: usize, h: usize, num_chans: usize) -> (r:
    Option<Vec<u8>>)
    requires
        num_chans <= 4,
        w * num_chans <= usize::MAX,
        h * (w * num_chans) <= p_image@.len(),
    ensures
        png_image(p_image@, w, h, num_chans) == (match r {
            Some(v) => Some(v@),
            None => None::<Seq<u8>>,
        }),
{
    let bpl = w * num_chans;
    let raw = scanlines(p_image, bpl, h);
    match zlib_compress(&raw, 6) {
        Some(z) => Some(png_from_compressed(&z, w, h, num_chans)),
        None => None,
    }
}

impl PNGRasterEncoder {
    /// Encode pixel data as a PNG file ("png"); the buffer is empty when
    /// compression failed.
    pub fn call(&mut self, ptr: &[u8], w: usize, h: usize, num_components: usize) -> (r:
        EncodedRaster)
        requires
            num_components <= 4,
            w * num_components <= usize::MAX,
            h * (w * num_components) <= ptr@.len(),
        ensures
            r@.0 == png_encoding(ptr@, w, h, num_components),
            r@.1 == "png"@,
            r@.0.len() > 0 ==> r@.0.len() >= 33 && r@.0[18] as int * 256 + r@.0[19] as int == w
                % 65536 && r@.0[22] as int * 256 + r@.0[23] as int == h % 65536,
    {
        proof {
            match zlib_stream(png_scanlines(ptr@, w * num_components, h as int), 6) {
                Some(zs) => {
                    lemma_png_dimensions(w, h, num_components as int, zs);
                },
                None => {},
            }
        }
        let ext = "png".to_owned();
        match tdefl_write_image_to_png_file_in_memory(ptr, w, h, num_components) {
            Some(v) => EncodedRaster::new(v, ext),
            None => EncodedRaster::new(Vec::new(), ext),
        }
    }
}

// ---------------------------------------------------------------------------
// PGM
// ---------------------------------------------------------------------------

/// Decimal ASCII digits of a number.
pub open spec fn decimal(n: nat) -> Seq<u8>
    decreases n,
{
    if n < 10 {
        seq![(48 + n) as u8]
    } else {
        decimal(n / 10).push((48 + n % 10) as u8)
    }
}

/// The number that a sequence of ASCII decimal digits spells.
pub open spec fn digits_value(s: Seq<u8>) -> int
    decreases s.len(),
{
    if s.len() == 0 {
        0
    } else {
        10 * digits_value(s.drop_last()) + (s.last() - 48)
    }
}

/// Writing a number in decimal gives one or more ASCII digits, the first of
/// them not a leading zero unless the number is 0, and reading them back
/// gives the number.
pub proof fn lemma_decimal_reads_back(n: nat)
    ensures
        decimal(n).len() >= 1,
        forall|i: int| 0 <= i < decimal(n).len() ==> 48 <= #[trigger] decimal(n)[i] <= 57,
        n > 0 ==> decimal(n)[0] != 48,
        digits_value(decimal(n)) == n,
    decreases n,
{
    if n >= 10 {
        lemma_decimal_reads_back(n / 10);
        let d = decimal(n / 10);
        let e = d.push((48 + n % 10) as u8);
        assert(e.drop_last() =~= d);
        assert forall|i: int| 0 <= i < e.len() implies 48 <= #[trigger] e[i] <= 57 by {
            if i < d.len() {
                assert(e[i] == d[i]);
            }
        }
        assert(e[0] == d[0]);
        assert(e.last() == (48 + n % 10) as u8);
        assert(((48 + n % 10) as u8) as int == 48 + n % 10);
        assert(10 * (n / 10) + n % 10 == n);
        assert(digits_value(e) == 10 * digits_value(d) + (e.last() - 48));
    } else {
        let e = decimal(n);
        assert(e == seq![(48 + n) as u8]);
        assert(e.drop_last() =~= Seq::<u8>::empty());
        assert(digits_value(e) == 10 * digits_value(e.drop_last()) + (e.last() - 48));
    }
}

/// The layout of a binary greyscale map: `P5`, a space, the width in
/// decimal, a space, the height in decimal, ` 255 `, then exactly the first
/// `w * h * n` pixel bytes.
pub proof fn lemma_ppm_layout(ptr: Seq<u8>, w: usize, h: usize, n: usize)
    requires
        w * h * n <= ptr.len(),
    ensures
        ({
            let f = ppm_encoding(ptr, w, h, n);
            let lw = decimal(w as nat).len() as int;
            let lh = decimal(h as nat).len() as int;
            &&& f.len() == 3 + lw + 1 + lh + 5 + w * h * n
            &&& f.subrange(0, 3) == seq![0x50u8, 0x35, 0x20]
            &&& digits_value(f.subrange(3, 3 + lw)) == w
            &&& f[3 + lw] == 0x20
            &&& digits_value(f.subrange(4 + lw, 4 + lw + lh)) == h
            &&& f.subrange(4 + lw + lh, 9 + lw + lh) == seq![0x20u8, 0x32, 0x35, 0x35, 0x20]
            &&& f.subrange(9 + lw + lh, f.len() as int) == ptr.take(w * h * n)
        }),
{
    let f = ppm_encoding(ptr, w, h, n);
    let dw = decimal(w as nat);
    let dh = decimal(h as nat);
    let lw = dw.len() as int;
    let lh = dh.len() as int;
    lemma_decimal_reads_back(w as nat);
    lemma_decimal_reads_back(h as nat);
    assert(f.subrange(0, 3) =~= seq![0x50u8, 0x35, 0x20]);
    assert(f.subrange(3, 3 + lw) =~= dw);
    assert(f.subrange(4 + lw, 4 + lw + lh) =~= dh);
    assert(f.subrange(4 + lw + lh, 9 + lw + lh) =~= seq![0x20u8, 0x32, 0x35, 0x35, 0x20]);
    assert(f.subrange(9 + lw + lh, f.len() as int) =~= ptr.take(w * h * n));
}

fn push_decimal(out: &mut Vec<u8>, n: usize)
    ensures
        final(out)@ == old(out)@ + decimal(n as nat),
    decreases n,
{
    if n >= 10 {
        push_decimal(out, n / 10);
    }
    out.push((48 + n % 10) as u8);
    assert(out@ =~= old(out)@ + decimal(n as nat));
}

/// A binary greyscale map: the header `P5 <w> <h> 255 ` and the first
/// `w * h * n` pixel bytes.
pub open spec fn ppm_encoding(ptr: Seq<u8>, w: usize, h: usize, n: usize) -> Seq<u8> {
    seq![0x50u8, 0x35, 0x20] + decimal(w as nat) + seq![0x20u8] + decimal(h as nat) + seq![
        0x20u8,
        0x32,
        0x35,
        0x35,
        0x20,
    ] + ptr.take(w * h * n)
}

impl PPMRasterEncoder {
    /// Encode pixel data as a binary PGM file ("ppm").
    pub fn call(&mut self, ptr: &[u8], w: usize, h: usize, num_components: usize) -> (r:
        EncodedRaster)
        requires
            w * h <= usize::MAX,
            w * h * num_components <= ptr@.len(),
        ensures
            r@.0 == ppm_encoding(ptr@, w, h, num_components),
            r@.1 == "ppm"@,
    {
        let mut buf: Vec<u8> = Vec::new();
        buf.push(0x50);
        buf.push(0x35);
        buf.push(0x20);
        push_decimal(&mut buf, w);
        buf.push(0x20);
        push_decimal(&mut buf, h);
        buf.push(0x20);
        buf.push(0x32);
        buf.push(0x35);
        buf.push(0x35);
        buf.push(0x20);
        let ghost header = buf@;
        let len = ptr.len();
        let sz = w * h * num_components;
        let mut i: usize = 0;
        while i < sz
            invariant
                i <= sz,
                sz <= ptr@.len(),
                buf@ == header + ptr@.take(i as int),
            decreases sz - i,
        {
            buf.push(ptr[i]);
            assert(ptr@.take(i as int + 1) =~= ptr@.take(i as int).push(ptr@[i as int]));
            i += 1;
        }
        assert(buf@ =~= ppm_encoding(ptr@, w, h, num_components));
        EncodedRaster::new(buf, "ppm".to_owned())
    }
}

proof fn lemma_pixel_count(w: usize, h: usize, n: usize)
    ensures
        h * (w * n) == w * h * n,
{
    assert(h * (w * n) == w * h * n) by (nonlinear_arith);
}

impl RasterEncoder for PNGRasterEncoder {
    fn encode_pixels(&mut self, ptr: &[u8], w: usize, h: usize, num_components: usize) -> (r:
        EncodedRaster)
        ensures
            r@.0 == png_encoding(ptr@, w, h, num_components),
            r@.1 == "png"@,
    {
        proof {
            lemma_pixel_count(w, h, num_components);
        }
        self.call(ptr, w, h, num_components)
    }
}

impl RasterEncoder for PPMRasterEncoder {
    fn encode_pixels(&mut self, ptr: &[u8], w: usize, h: usize, num_components: usize) -> (r:
        EncodedRaster)
        ensures
            r@.0 == ppm_encoding(ptr@, w, h, num_components),
            r@.1 == "ppm"@,
    {
        self.call(ptr, w, h, num_components)
    }
}

} // verus!
