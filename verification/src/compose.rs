//! Compositing one complete tile set into the cross-layout canvas.
//!
//! The canvas is a 4x3 grid of tile-sized cells over RGBA bytes, four bytes
//! per pixel. Each face owns one fixed cell; the placement table is a
//! constant of the system. Tiles are decoded and encoded by an external image
//! codec behind trusted wrappers; everything between those two calls is
//! verified byte by byte.

use vstd::prelude::*;

use crate::skybox_tile::SkyboxTilePosition;

verus! {

/// One decoded raster image: RGBA, four bytes per pixel, row-major.
pub struct RawImage {
    pub width: u32,
    pub height: u32,
    pub pixels: Vec<u8>,
}

impl RawImage {
    /// The byte buffer holds exactly four bytes for each of the
    /// `width * height` pixels.
    pub open spec fn wf(&self) -> bool {
        self.pixels@.len() == 4 * self.width * self.height
    }
}

/// The byte index of channel `k` of the pixel at `(x, y)` in a row-major
/// RGBA buffer that is `width` pixels wide.
pub open spec fn px_index(width: int, x: int, y: int, k: int) -> int {
    4 * (y * width + x) + k
}

/// The column of the pixel that byte `i` belongs to.
pub open spec fn px_x(i: int, width: int) -> int {
    (i / 4) % width
}

/// The row of the pixel that byte `i` belongs to.
pub open spec fn px_y(i: int, width: int) -> int {
    (i / 4) / width
}

/// The channel that byte `i` belongs to.
pub open spec fn px_k(i: int) -> int {
    i % 4
}

/// Byte coordinates compose with byte decomposition.
pub proof fn lemma_px_roundtrip(width: int, x: int, y: int, k: int)
    requires
        width > 0,
        0 <= x < width,
        0 <= y,
        0 <= k < 4,
    ensures
        px_index(width, x, y, k) >= 0,
        px_x(px_index(width, x, y, k), width) == x,
        px_y(px_index(width, x, y, k), width) == y,
        px_k(px_index(width, x, y, k)) == k,
{
    let q = y * width + x;
    let i = 4 * q + k;
    assert(q >= 0) by (nonlinear_arith)
        requires
            width > 0,
            0 <= x,
            0 <= y,
            q == y * width + x,
    ;
    assert(i / 4 == q && i % 4 == k) by (nonlinear_arith)
        requires
            q >= 0,
            0 <= k < 4,
            i == 4 * q + k,
    ;
    assert(q % width == x && q / width == y) by (nonlinear_arith)
        requires
            width > 0,
            0 <= x < width,
            0 <= y,
            q == y * width + x,
    ;
}

/// Every byte index is the index of its own coordinates.
pub proof fn lemma_px_decompose(i: int, width: int)
    requires
        width > 0,
        i >= 0,
    ensures
        px_index(width, px_x(i, width), px_y(i, width), px_k(i)) == i,
        0 <= px_k(i) < 4,
        0 <= px_x(i, width) < width,
        0 <= px_y(i, width),
{
    let q = i / 4;
    let r = i % 4;
    let a = q % width;
    let b = q / width;
    assert(i == 4 * q + r && 0 <= r < 4 && q >= 0) by (nonlinear_arith)
        requires
            i >= 0,
            q == i / 4,
            r == i % 4,
    ;
    assert(q == width * b + a && 0 <= a < width && b >= 0) by (nonlinear_arith)
        requires
            q >= 0,
            width > 0,
            a == q % width,
            b == q / width,
    ;
    assert(4 * (b * width + a) + r == i) by (nonlinear_arith)
        requires
            i == 4 * q + r,
            q == width * b + a,
    ;
}

/// A byte whose coordinates lie within `width x height` lies within the
/// buffer.
pub proof fn lemma_px_index_bound(width: int, height: int, x: int, y: int, k: int)
    requires
        0 <= x < width,
        0 <= y < height,
        0 <= k < 4,
    ensures
        0 <= px_index(width, x, y, k) < 4 * width * height,
{
    assert(0 <= 4 * (y * width + x) + k < 4 * width * height) by (nonlinear_arith)
        requires
            0 <= x < width,
            0 <= y < height,
            0 <= k < 4,
    ;
}

/// Whether byte `i` of a canvas `width` pixels wide falls inside the cell
/// whose top-left pixel is `(x0, y0)` and whose size is `w x h` pixels.
pub open spec fn in_cell(i: int, width: int, x0: int, y0: int, w: int, h: int) -> bool {
    &&& x0 <= px_x(i, width) < x0 + w
    &&& y0 <= px_y(i, width) < y0 + h
}

/// The byte of `tile` (a `w x h` image) that lands on byte `i` of the canvas
/// when the tile's top-left pixel is placed at `(x0, y0)`.
pub open spec fn tile_src(i: int, width: int, x0: int, y0: int, w: int) -> int {
    px_index(w, px_x(i, width) - x0, px_y(i, width) - y0, px_k(i))
}

/// The canvas after copying the full content of `tile` into the cell at
/// `(x0, y0)`: bytes inside the cell come from the tile, all others are
/// unchanged.
pub open spec fn place_spec(
    canvas: Seq<u8>,
    width: int,
    tile: Seq<u8>,
    w: int,
    h: int,
    x0: int,
    y0: int,
) -> Seq<u8> {
    Seq::new(
        canvas.len(),
        |i: int|
            if in_cell(i, width, x0, y0, w, h) {
                tile[tile_src(i, width, x0, y0, w)]
            } else {
                canvas[i]
            },
    )
}

/// The canvas after copying only the first `n` bytes of the tile, in the
/// tile's own row-major byte order. `place_partial` with `n = 4 * w * h` is
/// `place_spec`.
pub open spec fn place_partial(
    canvas: Seq<u8>,
    width: int,
    tile: Seq<u8>,
    w: int,
    h: int,
    x0: int,
    y0: int,
    n: int,
) -> Seq<u8> {
    Seq::new(
        canvas.len(),
        |i: int|
            if in_cell(i, width, x0, y0, w, h) && tile_src(i, width, x0, y0, w) < n {
                tile[tile_src(i, width, x0, y0, w)]
            } else {
                canvas[i]
            },
    )
}

/// Copies the full pixel content of `tile` into the cell of `canvas` whose
/// top-left pixel stands at `(x0, y0)`. Every byte outside that cell is left
/// unchanged.
#[verifier::loop_isolation(false)]
pub fn place_tile(canvas: &mut RawImage, tile: &RawImage, x0: u32, y0: u32)
    requires
        old(canvas).wf(),
        tile.wf(),
        tile.width > 0,
        x0 + tile.width <= old(canvas).width,
        y0 + tile.height <= old(canvas).height,
    ensures
        final(canvas).width == old(canvas).width,
        final(canvas).height == old(canvas).height,
        final(canvas).wf(),
        final(canvas).pixels@ == place_spec(
            old(canvas).pixels@,
            old(canvas).width as int,
            tile.pixels@,
            tile.width as int,
            tile.height as int,
            x0 as int,
            y0 as int,
        ),
{
    let cw = canvas.width;
    let ch = canvas.height;
    let w = tile.width;
    let h = tile.height;
    let clen = canvas.pixels.len();
    let tlen = tile.pixels.len();
    let ghost cpx0 = canvas.pixels@;
    let ghost wi = cw as int;
    let ghost x0i = x0 as int;
    let ghost y0i = y0 as int;
    let mut y: u32 = 0;
    while y < h
        invariant
            y <= h,
            canvas.width == cw,
            canvas.height == old(canvas).height,
            canvas.wf(),
            canvas.pixels@ == place_partial(
                cpx0,
                wi,
                tile.pixels@,
                w as int,
                h as int,
                x0i,
                y0i,
                4 * (y * w),
            ),
        decreases h - y,
    {
        let mut x: u32 = 0;
        while x < w
            invariant
                y < h,
                x <= w,
                canvas.width == cw,
                canvas.height == old(canvas).height,
                canvas.wf(),
                canvas.pixels@ == place_partial(
                    cpx0,
                    wi,
                    tile.pixels@,
                    w as int,
                    h as int,
                    x0i,
                    y0i,
                    4 * (y * w + x),
                ),
            decreases w - x,
        {
            let mut k: u32 = 0;
            while k < 4
                invariant
                    y < h,
                    x < w,
                    k <= 4,
                    canvas.width == cw,
                    canvas.height == old(canvas).height,
                    canvas.wf(),
                    canvas.pixels@ == place_partial(
                        cpx0,
                        wi,
                        tile.pixels@,
                        w as int,
                        h as int,
                        x0i,
                        y0i,
                        4 * (y * w + x) + k,
                    ),
                decreases 4 - k,
            {
                proof {
                    lemma_px_index_bound(w as int, h as int, x as int, y as int, k as int);
                    lemma_px_index_bound(wi, ch as int, x0i + x, y0i + y, k as int);
                    assert((y as int) * w >= 0) by (nonlinear_arith)
                        requires
                            0 <= y,
                            0 < w,
                    ;
                    assert((y0i + y) * wi >= 0) by (nonlinear_arith)
                        requires
                            0 <= y0i + y,
                            0 < wi,
                    ;
                }
                let src: usize = 4 * ((y as usize) * (w as usize) + (x as usize)) + (
                k as usize);
                let dst: usize = 4 * (((y0 + y) as usize) * (cw as usize) + ((x0 + x) as usize))
                    + (k as usize);
                let b = tile.pixels[src];
                let ghost before = canvas.pixels@;
                canvas.pixels.set(dst, b);
                proof {
                    let n = 4 * ((y as int) * w + x) + k;
                    lemma_px_roundtrip(w as int, x as int, y as int, k as int);
                    lemma_px_roundtrip(wi, x0i + x, y0i + y, k as int);
                    assert forall|i: int| 0 <= i < canvas.pixels@.len() implies canvas.pixels@[i]
                        == place_partial(
                        cpx0,
                        wi,
                        tile.pixels@,
                        w as int,
                        h as int,
                        x0i,
                        y0i,
                        n + 1,
                    )[i] by {
                        lemma_px_decompose(i, wi);
                        if i == dst {
                            assert(tile_src(i, wi, x0i, y0i, w as int) == n);
                        } else {
                            if in_cell(i, wi, x0i, y0i, w as int, h as int) && tile_src(
                                i,
                                wi,
                                x0i,
                                y0i,
                                w as int,
                            ) == n {
                                lemma_px_roundtrip(
                                    w as int,
                                    px_x(i, wi) - x0i,
                                    px_y(i, wi) - y0i,
                                    px_k(i),
                                );
                                assert(false);
                            }
                        }
                    }
                    assert(canvas.pixels@ =~= place_partial(
                        cpx0,
                        wi,
                        tile.pixels@,
                        w as int,
                        h as int,
                        x0i,
                        y0i,
                        n + 1,
                    ));
                }
                k = k + 1;
            }
            proof {
                assert(4 * ((y as int) * w + x) + 4 == 4 * ((y as int) * w + (x + 1)));
            }
            x = x + 1;
        }
        proof {
            assert(4 * ((y as int) * w + w) == 4 * (((y as int) + 1) * w)) by (nonlinear_arith);
        }
        y = y + 1;
    }
    proof {
        let full = place_spec(
            cpx0,
            wi,
            tile.pixels@,
            w as int,
            h as int,
            x0i,
            y0i,
        );
        assert(4 * ((h as int) * w) == 4 * (w as int) * h) by (nonlinear_arith);
        assert forall|i: int| 0 <= i < canvas.pixels@.len() implies canvas.pixels@[i] == full[i] by {
            lemma_px_decompose(i, wi);
            if in_cell(i, wi, x0i, y0i, w as int, h as int) {
                lemma_px_index_bound(
                    w as int,
                    h as int,
                    px_x(i, wi) - x0i,
                    px_y(i, wi) - y0i,
                    px_k(i),
                );
            }
        }
        assert(canvas.pixels@ =~= full);
    }
}

/// An all-zero RGBA buffer: every unfilled cell of the output stays fully
/// transparent.
pub open spec fn blank_pixels(width: int, height: int) -> Seq<u8> {
    Seq::new((4 * width * height) as nat, |i: int| 0u8)
}

/// Allocates the blank canvas.
pub fn blank_canvas(width: u32, height: u32) -> (r: RawImage)
    requires
        4 * width * height <= usize::MAX,
    ensures
        r.width == width,
        r.height == height,
        r.wf(),
        r.pixels@ == blank_pixels(width as int, height as int),
{
    proof {
        assert((width as int) * (height as int) * 4 == 4 * (width as int) * (height as int))
            by (nonlinear_arith);
    }
    let n: usize = (width as usize) * (height as usize) * 4;
    let mut pixels: Vec<u8> = Vec::new();
    let mut i: usize = 0;
    while i < n
        invariant
            i <= n,
            pixels@.len() == i,
            forall|j: int| 0 <= j < i ==> pixels@[j] == 0u8,
        decreases n - i,
    {
        pixels.push(0u8);
        i = i + 1;
    }
    let r = RawImage { width, height, pixels };
    proof {
        assert(r.pixels@ =~= blank_pixels(width as int, height as int));
    }
    r
}

/// The fixed placement table, horizontal cell: Left 0, Front 1, Up 1,
/// Down 1, Back 3, Right 2.
pub open spec fn cell_x(pos: SkyboxTilePosition) -> int {
    match pos {
        SkyboxTilePosition::Left => 0,
        SkyboxTilePosition::Right => 2,
        SkyboxTilePosition::Up => 1,
        SkyboxTilePosition::Down => 1,
        SkyboxTilePosition::Front => 1,
        SkyboxTilePosition::Back => 3,
    }
}

/// The fixed placement table, vertical cell: Up 0, the horizontal band 1,
/// Down 2.
pub open spec fn cell_y(pos: SkyboxTilePosition) -> int {
    match pos {
        SkyboxTilePosition::Left => 1,
        SkyboxTilePosition::Right => 1,
        SkyboxTilePosition::Up => 0,
        SkyboxTilePosition::Down => 2,
        SkyboxTilePosition::Front => 1,
        SkyboxTilePosition::Back => 1,
    }
}

/// The cell that `pos` occupies in the 4x3 grid, as (column, row). Looked
/// up, never computed.
pub fn placement_offset(pos: &SkyboxTilePosition) -> (r: (u32, u32))
    ensures
        r.0 == cell_x(*pos),
        r.1 == cell_y(*pos),
        r.0 <= 3,
        r.1 <= 2,
{
    match pos {
        SkyboxTilePosition::Left => (0, 1),
        SkyboxTilePosition::Right => (2, 1),
        SkyboxTilePosition::Up => (1, 0),
        SkyboxTilePosition::Down => (1, 2),
        SkyboxTilePosition::Front => (1, 1),
        SkyboxTilePosition::Back => (3, 1),
    }
}

/// What the external codec decodes a byte stream to, read as the system's
/// one raster format: the image's dimensions and its RGBA bytes, or nothing
/// when the stream is not a decodable, non-empty PNG image. The result
/// depends on the bytes alone.
pub uninterp spec fn decode_of(bytes: Seq<u8>) -> Option<(u32, u32, Seq<u8>)>;

/// Relies on image::load_from_memory_with_format with the PNG format and on
/// DynamicImage::to_rgba8. The fixed format dispatches straight to the
/// built-in PNG decoder, never through image's process-global hook
/// registries, so decoding is a function of the byte stream and the default
/// decode limits alone; to_rgba8 keeps the dimensions; and
/// ImageBuffer::into_raw hands back exactly `width * height * 4` samples.
/// An image with a zero dimension counts as a decode failure.
#[verifier::external_body]
fn decode_rgba(bytes: &Vec<u8>) -> (r: Option<RawImage>)
    ensures
        match r {
            Some(img) => decode_of(bytes@) == Some((img.width, img.height, img.pixels@))
                && img.wf() && img.width > 0 && img.height > 0,
            None => decode_of(bytes@) is None,
        },
{
    match image::load_from_memory_with_format(bytes, image::ImageFormat::Png) {
        Ok(decoded) => {
            let buf = decoded.to_rgba8();
            if buf.width() == 0 || buf.height() == 0 {
                return None;
            }
            let (width, height) = (buf.width(), buf.height());
            Some(RawImage { width, height, pixels: buf.into_raw() })
        },
        Err(_) => None,
    }
}

/// One tile handed to the compositor: the face it covers, the path it came
/// from (kept for reporting and deletion), and the raw bytes of its file, or
/// `None` when the file could not be read at all (treated like a stream that
/// does not decode).
pub struct TileSource {
    pub path: String,
    pub position: SkyboxTilePosition,
    pub bytes: Option<Vec<u8>>,
}

/// The mathematical content of one tile source.
pub ghost struct TileSourceView {
    pub path: Seq<char>,
    pub position: SkyboxTilePosition,
    pub bytes: Option<Seq<u8>>,
}

impl View for TileSource {
    type V = TileSourceView;

    open spec fn view(&self) -> TileSourceView {
        TileSourceView {
            path: self.path@,
            position: self.position,
            bytes: match self.bytes {
                Some(b) => Some(b@),
                None => None,
            },
        }
    }
}

/// The views of a sequence of tile sources.
pub open spec fn source_views(tiles: Seq<TileSource>) -> Seq<TileSourceView> {
    Seq::new(tiles.len(), |i: int| tiles[i]@)
}

/// What one tile source decodes to: nothing when its file was unreadable or
/// its bytes are not a decodable image.
pub open spec fn source_decoded(t: TileSourceView) -> Option<(u32, u32, Seq<u8>)> {
    match t.bytes {
        Some(b) => decode_of(b),
        None => None,
    }
}

/// Why one tile's cell was left blank.
#[derive(Clone, Copy, Debug, PartialEq, Eq, Structural)]
pub enum SkipReason {
    DecodeFailed,
    DimensionMismatch,
}

/// Diagnostic for one tile whose cell was left blank.
#[derive(Clone, Copy, Debug, PartialEq, Eq, Structural)]
pub struct TileSkip {
    pub position: SkyboxTilePosition,
    pub reason: SkipReason,
}

/// The diagnostic that tile `t` earns against reference dimensions
/// `w x h`, or `None` when the tile is placed.
pub open spec fn skip_of(t: TileSourceView, w: u32, h: u32) -> Option<TileSkip> {
    match source_decoded(t) {
        None => Some(TileSkip { position: t.position, reason: SkipReason::DecodeFailed }),
        Some(d) => if d.0 != w || d.1 != h {
            Some(TileSkip { position: t.position, reason: SkipReason::DimensionMismatch })
        } else {
            None
        },
    }
}

/// The canvas bytes after processing the first `n` tiles in order: each tile
/// that decodes to exactly the reference dimensions is copied into its
/// face's cell; every other tile leaves the canvas as it was.
pub open spec fn composed_upto(w: u32, h: u32, tiles: Seq<TileSourceView>, n: int) -> Seq<u8>
    decreases n,
{
    if n <= 0 {
        blank_pixels(4 * w, 3 * h)
    } else {
        let prev = composed_upto(w, h, tiles, n - 1);
        let t = tiles[n - 1];
        match source_decoded(t) {
            Some(d) => if d.0 == w && d.1 == h {
                place_spec(
                    prev,
                    4 * w,
                    d.2,
                    w as int,
                    h as int,
                    cell_x(t.position) * w,
                    cell_y(t.position) * h,
                )
            } else {
                prev
            },
            None => prev,
        }
    }
}

/// The finished canvas bytes for one tile set with reference dimensions
/// `w x h`.
pub open spec fn composed_canvas(w: u32, h: u32, tiles: Seq<TileSourceView>) -> Seq<u8> {
    composed_upto(w, h, tiles, tiles.len() as int)
}

/// The skip diagnostics of the first `n` tiles, in tile order.
pub open spec fn skips_upto(w: u32, h: u32, tiles: Seq<TileSourceView>, n: int) -> Seq<TileSkip>
    decreases n,
{
    if n <= 0 {
        Seq::empty()
    } else {
        let rest = skips_upto(w, h, tiles, n - 1);
        match skip_of(tiles[n - 1], w, h) {
            Some(s) => rest.push(s),
            None => rest,
        }
    }
}

/// The skip diagnostics of the whole tile set.
pub open spec fn skips_of(w: u32, h: u32, tiles: Seq<TileSourceView>) -> Seq<TileSkip> {
    skips_upto(w, h, tiles, tiles.len() as int)
}

/// The canvas would not fit the machine: one of its dimensions leaves `u32`,
/// or its byte buffer leaves `usize`.
pub open spec fn canvas_too_large(w: u32, h: u32) -> bool {
    ||| 4 * w > u32::MAX
    ||| 3 * h > u32::MAX
    ||| 4 * (4 * w) * (3 * h) > usize::MAX
}

/// Why one group produced no output. Encoding the finished canvas to memory
/// cannot fail (see `encode_png`), so these two conditions are the only ones;
/// writing the encoded bytes to disk is the caller's side effect and fails on
/// its own account.
#[derive(Clone, Copy, Debug, PartialEq, Eq, Structural)]
pub enum ComposeError {
    /// The reference tile did not decode; nothing is known of the set's
    /// dimensions, so the whole group fails with no output.
    ReferenceDecodeFailed,
    /// The reference dimensions are too large for a canvas on this machine.
    CanvasTooLarge,
}

/// One finished composition: the PNG bytes to write, the canvas dimensions,
/// and the tiles whose cells were left blank.
#[derive(Debug, PartialEq, Eq)]
pub struct ComposeOutput {
    pub bytes: Vec<u8>,
    pub width: u32,
    pub height: u32,
    pub skipped: Vec<TileSkip>,
}

/// What `compose_skybox` promises. The reference tile is the first of the
/// set; its decoded dimensions fix the canvas at four by three cells. Success
/// is owed: whenever the reference decodes and the canvas fits the machine,
/// the result is `Ok`, its bytes are exactly the PNG encoding of the composed
/// canvas, and the skip list names exactly the tiles whose cells stayed
/// blank. Each error names the one condition that produced it, so the
/// outcome is pinned for every input.
pub open spec fn compose_post(
    tiles: Seq<TileSourceView>,
    r: Result<ComposeOutput, ComposeError>,
) -> bool {
    match r {
        Err(ComposeError::ReferenceDecodeFailed) => source_decoded(tiles[0]) is None,
        Err(ComposeError::CanvasTooLarge) => match source_decoded(tiles[0]) {
            Some(d) => canvas_too_large(d.0, d.1),
            None => false,
        },
        Ok(out) => match source_decoded(tiles[0]) {
            Some(d) => {
                &&& !canvas_too_large(d.0, d.1)
                &&& out.width == 4 * d.0
                &&& out.height == 3 * d.1
                &&& out.bytes@ == png_of(
                    (4 * d.0) as u32,
                    (3 * d.1) as u32,
                    composed_canvas(d.0, d.1, tiles),
                )
                &&& out.skipped@ == skips_of(d.0, d.1, tiles)
            },
            None => false,
        },
    }
}

/// What the external codec encodes a `width x height` RGBA buffer to: the
/// bytes of the PNG stream. The result depends on the arguments alone.
pub uninterp spec fn png_of(width: u32, height: u32, pixels: Seq<u8>) -> Seq<u8>;

/// Relies on RgbaImage::from_raw and ImageBuffer::write_to with the PNG
/// format: encoding to an in-memory stream is a function of the dimensions
/// and the pixel bytes alone, and it cannot fail here. from_raw rejects only
/// a container too small for the dimensions, which the well-formedness
/// precondition rules out; the PNG encoder errors only on a zero dimension
/// or an invalid color/bit-depth combination, and eight-bit RGBA of nonzero
/// size is valid; the cursor writes to memory.
#[verifier::external_body]
fn encode_png(img: &RawImage) -> (r: Vec<u8>)
    requires
        img.wf(),
        img.width > 0,
        img.height > 0,
    ensures
        r@ == png_of(img.width, img.height, img.pixels@),
{
    let buf = image::RgbaImage::from_raw(img.width, img.height, img.pixels.clone())
        .expect("the buffer holds exactly width * height * 4 samples");
    let mut out = std::io::Cursor::new(Vec::new());
    buf.write_to(&mut out, image::ImageFormat::Png)
        .expect("in-memory PNG encoding of a well-formed RGBA buffer");
    out.into_inner()
}

/// Composites one tile set into the cross-layout canvas and encodes it.
///
/// The first tile of the set is the reference: its decoded dimensions fix
/// the canvas size, and its failure to decode fails the whole group with no
/// output. Every tile (the reference included) is then decoded and, when its
/// dimensions match the reference, copied into its face's cell; a tile that
/// does not decode or does not match only leaves its own cell blank and is
/// reported in the skip list.
#[verifier::loop_isolation(false)]
pub fn compose_skybox(tiles: &Vec<TileSource>) -> (r: Result<ComposeOutput, ComposeError>)
    requires
        tiles@.len() == 6,
    ensures
        compose_post(source_views(tiles@), r),
{
    let ghost tv = source_views(tiles@);
    let reference = match &tiles[0].bytes {
        Some(b) => decode_rgba(b),
        None => None,
    };
    let rimg = match reference {
        Some(img) => img,
        None => {
            return Err(ComposeError::ReferenceDecodeFailed);
        },
    };
    let w = rimg.width;
    let h = rimg.height;
    proof {
        assert(source_decoded(tv[0]) == Some((w, h, rimg.pixels@)));
    }
    let cw = match w.checked_mul(4) {
        Some(v) => v,
        None => {
            return Err(ComposeError::CanvasTooLarge);
        },
    };
    let ch = match h.checked_mul(3) {
        Some(v) => v,
        None => {
            return Err(ComposeError::CanvasTooLarge);
        },
    };
    let cells = match (cw as usize).checked_mul(ch as usize) {
        Some(v) => v,
        None => {
            proof {
                assert(4 * (cw as int) * (ch as int) >= (cw as int) * (ch as int))
                    by (nonlinear_arith)
                    requires
                        cw >= 0,
                        ch >= 0,
                ;
            }
            return Err(ComposeError::CanvasTooLarge);
        },
    };
    let total = match cells.checked_mul(4) {
        Some(v) => v,
        None => {
            proof {
                assert(((cw as int) * (ch as int)) * 4 == 4 * (cw as int) * (ch as int))
                    by (nonlinear_arith);
            }
            return Err(ComposeError::CanvasTooLarge);
        },
    };
    proof {
        assert(((cw as int) * (ch as int)) * 4 == 4 * (cw as int) * (ch as int))
            by (nonlinear_arith);
    }
    let mut canvas = blank_canvas(cw, ch);
    let mut skipped: Vec<TileSkip> = Vec::new();
    proof {
        assert(canvas.pixels@ == composed_upto(w, h, tv, 0));
        assert(skipped@ =~= skips_upto(w, h, tv, 0));
    }
    let mut i: usize = 0;
    while i < 6
        invariant
            i <= 6,
            canvas.width == cw,
            canvas.height == ch,
            canvas.wf(),
            canvas.pixels@ == composed_upto(w, h, tv, i as int),
            skipped@ == skips_upto(w, h, tv, i as int),
        decreases 6 - i,
    {
        let t = &tiles[i];
        let dec = match &t.bytes {
            Some(b) => decode_rgba(b),
            None => None,
        };
        let ghost old_skipped = skipped@;
        match dec {
            None => {
                skipped.push(TileSkip { position: t.position, reason: SkipReason::DecodeFailed });
                proof {
                    assert(skip_of(tv[i as int], w, h) == Some(
                        TileSkip { position: t.position, reason: SkipReason::DecodeFailed },
                    ));
                    assert(skipped@ =~= skips_upto(w, h, tv, i + 1));
                }
            },
            Some(img) => {
                if img.width != w || img.height != h {
                    skipped.push(
                        TileSkip { position: t.position, reason: SkipReason::DimensionMismatch },
                    );
                    proof {
                        assert(skipped@ =~= skips_upto(w, h, tv, i + 1));
                    }
                } else {
                    let off = placement_offset(&t.position);
                    proof {
                        assert((off.0 as int) * w + w <= 4 * (w as int) && (off.0 as int) * w
                            >= 0) by (nonlinear_arith)
                            requires
                                off.0 <= 3,
                                w >= 0,
                        ;
                        assert((off.1 as int) * h + h <= 3 * (h as int) && (off.1 as int) * h
                            >= 0) by (nonlinear_arith)
                            requires
                                off.1 <= 2,
                                h >= 0,
                        ;
                    }
                    let x0 = off.0 * w;
                    let y0 = off.1 * h;
                    place_tile(&mut canvas, &img, x0, y0);
                    proof {
                        assert(canvas.pixels@ == composed_upto(w, h, tv, i + 1));
                        assert(skipped@ == skips_upto(w, h, tv, i + 1));
                    }
                }
            },
        }
        i = i + 1;
    }
    let out_bytes = encode_png(&canvas);
    Ok(ComposeOutput { bytes: out_bytes, width: cw, height: ch, skipped })
}

/// Whether tile `t` is placed against reference dimensions `w x h`: it
/// decoded, and to exactly those dimensions.
pub open spec fn tile_placed(t: TileSourceView, w: u32, h: u32) -> bool {
    skip_of(t, w, h) is None
}

/// The RGBA bytes that tile `t` decoded to.
pub open spec fn decoded_pixels(t: TileSourceView) -> Seq<u8> {
    match source_decoded(t) {
        Some(d) => d.2,
        None => Seq::empty(),
    }
}

/// No two tiles of the set cover the same face.
pub open spec fn distinct_positions(tiles: Seq<TileSourceView>) -> bool {
    forall|i: int, j: int|
        0 <= i < j < tiles.len() ==> (#[trigger] tiles[i]).position != (
        #[trigger] tiles[j]).position
}

/// The composed canvas always holds exactly the bytes of a 4x3 grid of
/// tile-sized cells.
pub proof fn lemma_composed_len(w: u32, h: u32, tiles: Seq<TileSourceView>, n: int)
    ensures
        composed_upto(w, h, tiles, n).len() == 4 * (4 * w) * (3 * h),
    decreases n,
{
    assert(4 * (4 * (w as int)) * (3 * (h as int)) >= 0) by (nonlinear_arith);
    if n <= 0 {
    } else {
        lemma_composed_len(w, h, tiles, n - 1);
    }
}

/// Distinct faces occupy distinct cells of the placement table.
proof fn lemma_cells_differ(p1: SkyboxTilePosition, p2: SkyboxTilePosition)
    requires
        p1 != p2,
    ensures
        cell_x(p1) != cell_x(p2) || cell_y(p1) != cell_y(p2),
{
}

/// A byte inside one face's cell lies outside every other face's cell.
proof fn lemma_cells_disjoint(
    w: u32,
    h: u32,
    p1: SkyboxTilePosition,
    p2: SkyboxTilePosition,
    i: int,
)
    requires
        w > 0,
        h > 0,
        p1 != p2,
        in_cell(i, 4 * w, cell_x(p1) * w, cell_y(p1) * h, w as int, h as int),
    ensures
        !in_cell(i, 4 * w, cell_x(p2) * w, cell_y(p2) * h, w as int, h as int),
{
    lemma_cells_differ(p1, p2);
    if cell_x(p1) != cell_x(p2) {
        if cell_x(p1) < cell_x(p2) {
            assert((cell_x(p1) + 1) * w <= cell_x(p2) * w) by (nonlinear_arith)
                requires
                    cell_x(p1) + 1 <= cell_x(p2),
                    w > 0,
            ;
            assert(cell_x(p1) * w + w == (cell_x(p1) + 1) * w) by (nonlinear_arith);
        } else {
            assert((cell_x(p2) + 1) * w <= cell_x(p1) * w) by (nonlinear_arith)
                requires
                    cell_x(p2) + 1 <= cell_x(p1),
                    w > 0,
            ;
            assert(cell_x(p2) * w + w == (cell_x(p2) + 1) * w) by (nonlinear_arith);
        }
    } else {
        if cell_y(p1) < cell_y(p2) {
            assert((cell_y(p1) + 1) * h <= cell_y(p2) * h) by (nonlinear_arith)
                requires
                    cell_y(p1) + 1 <= cell_y(p2),
                    h > 0,
            ;
            assert(cell_y(p1) * h + h == (cell_y(p1) + 1) * h) by (nonlinear_arith);
        } else {
            assert((cell_y(p2) + 1) * h <= cell_y(p1) * h) by (nonlinear_arith)
                requires
                    cell_y(p2) + 1 <= cell_y(p1),
                    h > 0,
            ;
            assert(cell_y(p2) * h + h == (cell_y(p2) + 1) * h) by (nonlinear_arith);
        }
    }
}

/// A byte inside the cell of a placed tile holds that tile's byte, whatever
/// else was placed around it.
proof fn lemma_composed_cell_byte(
    w: u32,
    h: u32,
    tiles: Seq<TileSourceView>,
    n: int,
    j: int,
    i: int,
)
    requires
        w > 0,
        h > 0,
        distinct_positions(tiles),
        0 <= j < n <= tiles.len(),
        tile_placed(tiles[j], w, h),
        in_cell(i, 4 * w, cell_x(tiles[j].position) * w, cell_y(tiles[j].position) * h, w as int, h as int),
        0 <= i < 4 * (4 * w) * (3 * h),
    ensures
        composed_upto(w, h, tiles, n)[i] == decoded_pixels(tiles[j])[tile_src(
            i,
            4 * w,
            cell_x(tiles[j].position) * w,
            cell_y(tiles[j].position) * h,
            w as int,
        )],
    decreases n,
{
    lemma_composed_len(w, h, tiles, n - 1);
    if n - 1 == j {
    } else {
        lemma_composed_cell_byte(w, h, tiles, n - 1, j, i);
        let t = tiles[n - 1];
        if tile_placed(t, w, h) {
            lemma_cells_disjoint(w, h, tiles[j].position, t.position, i);
        }
    }
}

/// A byte outside every placed tile's cell stays blank.
proof fn lemma_composed_blank_byte(w: u32, h: u32, tiles: Seq<TileSourceView>, n: int, i: int)
    requires
        w > 0,
        h > 0,
        0 <= n <= tiles.len(),
        0 <= i < 4 * (4 * w) * (3 * h),
        forall|j: int|
            0 <= j < n && tile_placed(#[trigger] tiles[j], w, h) ==> !in_cell(
                i,
                4 * w,
                cell_x(tiles[j].position) * w,
                cell_y(tiles[j].position) * h,
                w as int,
                h as int,
            ),
    ensures
        composed_upto(w, h, tiles, n)[i] == 0,
    decreases n,
{
    lemma_composed_len(w, h, tiles, n - 1);
    if n <= 0 {
    } else {
        lemma_composed_blank_byte(w, h, tiles, n - 1, i);
    }
}

/// Placement correctness: the cell of every placed tile holds exactly that
/// tile's pixel content, channel for channel, whatever happened to the other
/// tiles of the set.
pub proof fn lemma_placed_tile_cell(w: u32, h: u32, tiles: Seq<TileSourceView>, j: int)
    requires
        w > 0,
        h > 0,
        distinct_positions(tiles),
        0 <= j < tiles.len(),
        tile_placed(tiles[j], w, h),
    ensures
        forall|x: int, y: int, k: int|
            0 <= x < w && 0 <= y < h && 0 <= k < 4 ==> composed_canvas(w, h, tiles)[px_index(
                4 * w,
                cell_x(tiles[j].position) * w + x,
                cell_y(tiles[j].position) * h + y,
                k,
            )] == decoded_pixels(tiles[j])[px_index(w as int, x, y, k)],
{
    let pos = tiles[j].position;
    let cx = cell_x(pos);
    let cy = cell_y(pos);
    assert forall|x: int, y: int, k: int|
        0 <= x < w && 0 <= y < h && 0 <= k < 4 implies composed_canvas(w, h, tiles)[px_index(
        4 * w,
        cx * w + x,
        cy * h + y,
        k,
    )] == decoded_pixels(tiles[j])[px_index(w as int, x, y, k)] by {
        assert(cx * w + x >= 0 && cx * w + x + (3 - cx) * w + (w - 1 - x) == 4 * w - 1)
            by (nonlinear_arith)
            requires
                0 <= cx <= 3,
                0 <= x < w,
        ;
        assert((3 - cx) * w >= 0 && (2 - cy) * h >= 0) by (nonlinear_arith)
            requires
                cx <= 3,
                cy <= 2,
                w > 0,
                h > 0,
        ;
        assert(cy * h + y >= 0 && cy * h + y + (2 - cy) * h + (h - 1 - y) == 3 * h - 1)
            by (nonlinear_arith)
            requires
                0 <= cy <= 2,
                0 <= y < h,
        ;
        let i = px_index(4 * w, cx * w + x, cy * h + y, k);
        lemma_px_roundtrip(4 * w, cx * w + x, cy * h + y, k);
        lemma_px_index_bound(4 * w, 3 * h, cx * w + x, cy * h + y, k);
        assert(in_cell(i, 4 * w, cx * w, cy * h, w as int, h as int));
        assert(tile_src(i, 4 * w, cx * w, cy * h, w as int) == px_index(w as int, x, y, k));
        lemma_composed_cell_byte(w, h, tiles, tiles.len() as int, j, i);
    }
}

/// Blank cells: a byte that no placed tile's cell covers is zero in the
/// finished canvas. This covers the six cells of the grid that no face owns,
/// and the cell of every tile that was skipped.
pub proof fn lemma_blank_outside_cells(w: u32, h: u32, tiles: Seq<TileSourceView>, i: int)
    requires
        w > 0,
        h > 0,
        0 <= i < 4 * (4 * w) * (3 * h),
        forall|j: int|
            0 <= j < tiles.len() && tile_placed(#[trigger] tiles[j], w, h) ==> !in_cell(
                i,
                4 * w,
                cell_x(tiles[j].position) * w,
                cell_y(tiles[j].position) * h,
                w as int,
                h as int,
            ),
    ensures
        composed_canvas(w, h, tiles)[i] == 0,
{
    lemma_composed_blank_byte(w, h, tiles, tiles.len() as int, i);
}

/// A skipped tile's cell stays blank, and (by `lemma_placed_tile_cell`) no
/// other cell is affected: the placed tiles still land byte for byte.
pub proof fn lemma_skipped_tile_cell_blank(
    w: u32,
    h: u32,
    tiles: Seq<TileSourceView>,
    j: int,
    i: int,
)
    requires
        w > 0,
        h > 0,
        distinct_positions(tiles),
        0 <= j < tiles.len(),
        !tile_placed(tiles[j], w, h),
        0 <= i < 4 * (4 * w) * (3 * h),
        in_cell(i, 4 * w, cell_x(tiles[j].position) * w, cell_y(tiles[j].position) * h, w as int, h as int),
    ensures
        composed_canvas(w, h, tiles)[i] == 0,
{
    assert forall|j2: int|
        0 <= j2 < tiles.len() && tile_placed(#[trigger] tiles[j2], w, h) implies !in_cell(
        i,
        4 * w,
        cell_x(tiles[j2].position) * w,
        cell_y(tiles[j2].position) * h,
        w as int,
        h as int,
    ) by {
        lemma_cells_disjoint(w, h, tiles[j].position, tiles[j2].position, i);
    }
    lemma_composed_blank_byte(w, h, tiles, tiles.len() as int, i);
}

/// Re-running a composition on unchanged inputs reproduces the very same
/// outcome: whether an output is produced, and its bytes, dimensions and
/// skip list, are functions of the group's own tile bytes alone. In
/// particular, what stands in any other group can never change them.
pub proof fn lemma_compose_deterministic(
    tiles: Seq<TileSourceView>,
    r1: Result<ComposeOutput, ComposeError>,
    r2: Result<ComposeOutput, ComposeError>,
)
    requires
        compose_post(tiles, r1),
        compose_post(tiles, r2),
    ensures
        r1 is Ok <==> r2 is Ok,
        r1 is Err ==> r1 == r2,
        r1 is Ok ==> {
            &&& (r1->Ok_0).bytes@ == (r2->Ok_0).bytes@
            &&& (r1->Ok_0).skipped@ == (r2->Ok_0).skipped@
            &&& (r1->Ok_0).width == (r2->Ok_0).width
            &&& (r1->Ok_0).height == (r2->Ok_0).height
        },
{
}

} // verus!
