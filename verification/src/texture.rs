use vstd::prelude::*;

use image::ImageError;

use crate::chunk_mesh::lemma_split_index;

verus! {

/// Why an image could not be decoded.
#[verifier::external_type_specification]
#[verifier::external_body]
pub struct ExImageError(ImageError);

/// An image in 8-bit RGBA, row by row from the top, four bytes per pixel.
pub struct RgbaPixels {
    pub width: u32,
    pub height: u32,
    pub pixels: Vec<u8>,
}

/// What decoding the encoded bytes in the format their leading signature
/// names (`image::guess_format`, then `image::load_from_memory_with_format`)
/// and converting to RGBA yields: width, height and pixel bytes, or nothing
/// when the bytes are not an image the crate can decode.
pub uninterp spec fn decoded_rgba(bytes: Seq<u8>) -> Option<(u32, u32, Seq<u8>)>;

/// `image::guess_format` then `image::load_from_memory_with_format`: the
/// format is guessed from the bytes' leading signature, as
/// `image::load_from_memory` does, but from the crate's built-in table only,
/// so no format or decoding hooks registered in the process take part. The
/// decoded image is converted to RGBA (`DynamicImage::to_rgba8`,
/// `ImageBuffer::into_raw`). The result is named by `decoded_rgba`; the
/// pixel buffer holds at least four bytes per pixel (the invariant
/// `ImageBuffer` keeps for its buffer).
#[verifier::external_body]
fn decode_rgba(bytes: &[u8]) -> (decoded: Result<RgbaPixels, ImageError>)
    ensures
        match decoded {
            Ok(image) => decoded_rgba(bytes@) == Some((image.width, image.height, image.pixels@))
                && image.pixels@.len() >= 4 * image.width * image.height,
            Err(_) => decoded_rgba(bytes@) is None,
        },
{
    let loaded = match image::guess_format(bytes) {
        Ok(format) => image::load_from_memory_with_format(bytes, format),
        Err(error) => Err(error),
    };
    match loaded {
        Ok(image) => {
            let rgba = image.to_rgba8();
            Ok(RgbaPixels { width: rgba.width(), height: rgba.height(), pixels: rgba.into_raw() })
        },
        Err(error) => Err(error),
    }
}

/// Decodes an encoded texture image into RGBA pixels: `Ok` exactly when the
/// bytes decode (as `decoded_rgba` names), with the decoded width, height
/// and pixel bytes, four bytes per pixel at least.
pub fn decode_image(bytes: &[u8]) -> (decoded: Result<RgbaPixels, ImageError>)
    ensures
        match decoded {
            Ok(i) => decoded_rgba(bytes@) == Some((i.width, i.height, i.pixels@))
                && i.pixels@.len() >= 4 * i.width * i.height,
            Err(_) => decoded_rgba(bytes@) is None,
        },
{
    decode_rgba(bytes)
}

/// Why a texture atlas could not be built, or a texture not found in it.
#[derive(Debug)]
pub enum AtlasError {
    /// No textures were given.
    NoTextures,
    /// The named texture is not an image that can be decoded.
    Decode { name: String },
    /// The named texture is `width` by `height` instead of `expected` square.
    WrongSize { name: String, width: u32, height: u32, expected: u32 },
    /// No texture of that name is in the atlas.
    UnknownTexture { name: String },
}

/// Whether `bytes` decode to a `tile` by `tile` image.
pub open spec fn tile_fits(bytes: Seq<u8>, tile: u32) -> bool {
    decoded_rgba(bytes) matches Some(d) && d.0 == tile && d.1 == tile
}

/// Whether `c` is the smallest number whose square is at least `n`.
pub open spec fn is_ceil_sqrt(c: int, n: int) -> bool {
    c * c >= n && (c == 0 || (c - 1) * (c - 1) < n)
}

/// The tile index of each name: the position of its last occurrence.
pub open spec fn name_indices(names: Seq<Seq<char>>) -> Map<Seq<char>, u32>
    decreases names.len(),
{
    if names.len() == 0 {
        Map::empty()
    } else {
        name_indices(names.drop_last()).insert(names.last(), (names.len() - 1) as u32)
    }
}

/// The byte for channel `c` of atlas pixel `(px, py)`: tiles are laid out
/// row by row, `columns` to a row, tile `t` at column `t % columns` and row
/// `t / columns`; pixels outside every tile are zero.
pub open spec fn atlas_byte(
    tiles: Seq<Seq<u8>>,
    tile: int,
    columns: int,
    px: int,
    py: int,
    c: int,
) -> u8 {
    let t = (py / tile) * columns + px / tile;
    if t < tiles.len() {
        tiles[t][((py % tile) * tile + px % tile) * 4 + c]
    } else {
        0
    }
}

/// The names of the textures, by their views.
pub open spec fn texture_names(textures: Seq<(&str, &[u8])>) -> Seq<Seq<char>> {
    textures.map_values(|t: (&str, &[u8])| t.0@)
}

/// Texture indices by name, with the atlas grid size in tiles.
pub struct TextureAtlas {
    pub indices: Vec<(String, u32)>,
    pub tile_size: u32,
    pub columns: u32,
    pub rows: u32,
}

impl View for TextureAtlas {
    type V = Map<Seq<char>, u32>;

    open spec fn view(&self) -> Map<Seq<char>, u32> {
        Map::new(
            |n: Seq<char>| exists|i: int| 0 <= i < self.indices@.len() && self.indices@[i].0@ == n,
            |n: Seq<char>|
                self.indices@[choose|i: int|
                    0 <= i < self.indices@.len() && self.indices@[i].0@ == n].1,
        )
    }
}

impl TextureAtlas {
    /// No name is stored twice.
    pub open spec fn wf(&self) -> bool {
        forall|i: int, j: int|
            0 <= i < j < self.indices@.len() ==> self.indices@[i].0@ != self.indices@[j].0@
    }

    proof fn lemma_lookup(&self, i: int)
        requires
            self.wf(),
            0 <= i < self.indices@.len(),
        ensures
            self@.contains_key(self.indices@[i].0@),
            self@[self.indices@[i].0@] == self.indices@[i].1,
    {
        let n = self.indices@[i].0@;
        assert(0 <= i < self.indices@.len() && self.indices@[i].0@ == n);
        let j = choose|j: int| 0 <= j < self.indices@.len() && self.indices@[j].0@ == n;
        assert(j == i);
    }

    /// Where `name` is stored, if it is.
    fn find(&self, name: &String) -> (found: Option<usize>)
        requires
            self.wf(),
        ensures
            match found {
                Some(i) => i < self.indices@.len() && self.indices@[i as int].0@ == name@
                    && self@.contains_key(name@) && self@[name@] == self.indices@[i as int].1,
                None => !self@.contains_key(name@),
            },
    {
        let mut i: usize = 0;
        while i < self.indices.len()
            invariant
                i <= self.indices@.len(),
                self.wf(),
                forall|k: int| 0 <= k < i ==> self.indices@[k].0@ != name@,
            decreases self.indices@.len() - i,
        {
            if self.indices[i].0 == *name {
                proof {
                    self.lemma_lookup(i as int);
                }
                return Some(i);
            }
            i += 1;
        }
        None
    }

    /// Records `index` for `name`, replacing an earlier index of that name.
    fn insert(&mut self, name: String, index: u32)
        requires
            old(self).wf(),
        ensures
            final(self).wf(),
            final(self)@ == old(self)@.insert(name@, index),
            final(self).tile_size == old(self).tile_size,
            final(self).columns == old(self).columns,
            final(self).rows == old(self).rows,
    {
        let ghost n = name@;
        match self.find(&name) {
            Some(i) => {
                self.indices.set(i, (name, index));
                proof {
                    assert forall|p: Seq<char>| #[trigger] self@.contains_key(p) == old(self)@.insert(n, index).contains_key(p) by {
                        if old(self)@.contains_key(p) {
                            let k = choose|k: int| 0 <= k < old(self).indices@.len() && old(self).indices@[k].0@ == p;
                            assert(self.indices@[k].0@ == p);
                        }
                        if self@.contains_key(p) {
                            let k = choose|k: int| 0 <= k < self.indices@.len() && self.indices@[k].0@ == p;
                            if k != i {
                                assert(old(self).indices@[k].0@ == p);
                            }
                        }
                    }
                    assert forall|p: Seq<char>| #[trigger] self@.contains_key(p) implies self@[p] == old(self)@.insert(n, index)[p] by {
                        let k = choose|k: int| 0 <= k < self.indices@.len() && self.indices@[k].0@ == p;
                        self.lemma_lookup(k);
                        if p != n {
                            old(self).lemma_lookup(k);
                        }
                    }
                    assert(self@ =~= old(self)@.insert(n, index));
                }
            },
            None => {
                self.indices.push((name, index));
                proof {
                    let len = old(self).indices@.len();
                    assert forall|p: Seq<char>| #[trigger] self@.contains_key(p) == old(self)@.insert(n, index).contains_key(p) by {
                        if old(self)@.contains_key(p) {
                            let k = choose|k: int| 0 <= k < old(self).indices@.len() && old(self).indices@[k].0@ == p;
                            assert(self.indices@[k].0@ == p);
                        }
                        if p == n {
                            assert(self.indices@[len as int].0@ == p);
                        }
                        if self@.contains_key(p) {
                            let k = choose|k: int| 0 <= k < self.indices@.len() && self.indices@[k].0@ == p;
                            if k != len {
                                assert(old(self).indices@[k].0@ == p);
                            }
                        }
                    }
                    assert forall|p: Seq<char>| #[trigger] self@.contains_key(p) implies self@[p] == old(self)@.insert(n, index)[p] by {
                        let k = choose|k: int| 0 <= k < self.indices@.len() && self.indices@[k].0@ == p;
                        self.lemma_lookup(k);
                        if p != n {
                            old(self).lemma_lookup(k);
                        }
                    }
                    assert(self@ =~= old(self)@.insert(n, index));
                }
            },
        }
    }

    /// The tile index of the texture called `name`.
    pub fn index(&self, name: &str) -> (index: Result<u32, AtlasError>)
        requires
            self.wf(),
        ensures
            match index {
                Ok(i) => self@.contains_key(name@) && i == self@[name@],
                Err(AtlasError::UnknownTexture { name: missing }) => !self@.contains_key(name@)
                    && missing@ == name@,
                Err(_) => false,
            },
    {
        let key = name.to_owned();
        match self.find(&key) {
            Some(i) => Ok(self.indices[i].1),
            None => Err(AtlasError::UnknownTexture { name: key }),
        }
    }
}

/// The pixel bytes each texture decodes to.
pub open spec fn decoded_tiles(textures: Seq<(&str, &[u8])>) -> Seq<Seq<u8>> {
    textures.map_values(|t: (&str, &[u8])| decoded_rgba(t.1@).unwrap().2)
}

/// Whether the grid of an atlas of `count` tiles of side `tile` fits the
/// integer types it is computed in: the rounding-up sum, the pixel width
/// and height in `u32`, and the pixel bytes in `usize`.
pub open spec fn layout_fits(count: int, tile: int) -> bool {
    forall|c: int|
        #[trigger] is_ceil_sqrt(c, count) ==> {
            let rows = (count + c - 1) / c;
            &&& count + c - 1 <= u32::MAX
            &&& c * tile <= u32::MAX
            &&& rows * tile <= u32::MAX
            &&& 4 * (c * tile) * (rows * tile) <= usize::MAX
        }
}

/// How the build of an atlas fails at texture `k`.
pub open spec fn fails_at(textures: Seq<(&str, &[u8])>, tile: u32, k: int, error: AtlasError) -> bool {
    &&& 0 <= k < textures.len()
    &&& forall|j: int| 0 <= j < k ==> tile_fits(#[trigger] textures[j].1@, tile)
    &&& !tile_fits(textures[k].1@, tile)
    &&& match error {
        AtlasError::Decode { name } => name@ == textures[k].0@ && decoded_rgba(textures[k].1@) is None,
        AtlasError::WrongSize { name, width, height, expected } => {
            &&& name@ == textures[k].0@
            &&& decoded_rgba(textures[k].1@) matches Some(d) && d.0 == width && d.1 == height
            &&& expected == tile
        },
        _ => false,
    }
}

/// The smallest number whose square is at least `n`.
fn ceil_sqrt(n: u64) -> (c: u64)
    requires
        n <= u32::MAX,
    ensures
        is_ceil_sqrt(c as int, n as int),
        c <= 65536,
{
    let mut c: u64 = 0;
    while c * c < n
        invariant
            c <= 65536,
            c * c <= 0x1_0000_0000,
            n <= u32::MAX,
            c == 0 || (c - 1) * (c - 1) < n,
        decreases n - c,
    {
        assert(c < 65536 && c < n && (c + 1) * (c + 1) <= 0x1_0000_0000) by (nonlinear_arith)
            requires
                c * c < n,
                n <= 0xffff_ffff,
        ;
        c += 1;
    }
    c
}

impl TextureAtlas {
    /// Decodes every texture, checks that each is `tile_size` square, and
    /// lays them out in a grid of `columns` (the smallest number whose
    /// square covers the texture count) by as many rows as needed. Returns
    /// the atlas (texture `i` has tile index `i`) and its RGBA pixels.
    pub fn build(textures: &[(&str, &[u8])], tile_size: u32) -> (built: Result<
        (TextureAtlas, RgbaPixels),
        AtlasError,
    >)
        requires
            textures@.len() <= u32::MAX,
            (forall|i: int| 0 <= i < textures@.len() ==> tile_fits(#[trigger] textures@[i].1@, tile_size))
                ==> layout_fits(textures@.len() as int, tile_size as int),
        ensures
            built is Ok <==> (textures@.len() > 0 && forall|i: int|
                0 <= i < textures@.len() ==> tile_fits(#[trigger] textures@[i].1@, tile_size)),
            built matches Err(AtlasError::NoTextures) <==> textures@.len() == 0,
            textures@.len() > 0 ==> (built matches Err(e) ==> exists|k: int| fails_at(textures@, tile_size, k, e)),
            built matches Ok((atlas, image)) ==> {
                let n = textures@.len() as int;
                let w = atlas.columns * tile_size;
                let h = atlas.rows * tile_size;
                &&& atlas.wf()
                &&& atlas@ == name_indices(texture_names(textures@))
                &&& atlas.tile_size == tile_size
                &&& is_ceil_sqrt(atlas.columns as int, n)
                &&& atlas.rows == (n + atlas.columns - 1) / (atlas.columns as int)
                &&& image.width == w
                &&& image.height == h
                &&& image.pixels@.len() == 4 * w * h
                &&& forall|i: int|
                    0 <= i < image.pixels@.len() ==> #[trigger] image.pixels@[i] == atlas_byte(
                        decoded_tiles(textures@),
                        tile_size as int,
                        atlas.columns as int,
                        (i / 4) % w,
                        (i / 4) / w,
                        i % 4,
                    )
            },
    {
        if textures.len() == 0 {
            return Err(AtlasError::NoTextures);
        }
        let mut images: Vec<RgbaPixels> = Vec::new();
        let mut i: usize = 0;
        while i < textures.len()
            invariant
                i <= textures@.len(),
                images@.len() == i,
                forall|j: int| 0 <= j < i ==> tile_fits(#[trigger] textures@[j].1@, tile_size),
                forall|j: int|
                    0 <= j < i ==> (#[trigger] images@[j]).width == tile_size && images@[j].height
                        == tile_size && images@[j].pixels@ == decoded_rgba(textures@[j].1@).unwrap().2
                        && images@[j].pixels@.len() >= 4 * tile_size * tile_size,
            decreases textures@.len() - i,
        {
            let (name, bytes) = textures[i];
            match decode_rgba(bytes) {
                Err(_) => {
                    let error = AtlasError::Decode { name: name.to_owned() };
                    assert(fails_at(textures@, tile_size, i as int, error));
                    return Err(error);
                },
                Ok(image) => {
                    if image.width != tile_size || image.height != tile_size {
                        let error = AtlasError::WrongSize {
                            name: name.to_owned(),
                            width: image.width,
                            height: image.height,
                            expected: tile_size,
                        };
                        assert(fails_at(textures@, tile_size, i as int, error));
                        return Err(error);
                    }
                    images.push(image);
                },
            }
            i += 1;
        }
        let count = textures.len() as u64;
        let columns = ceil_sqrt(count);
        proof {
            assert(is_ceil_sqrt(columns as int, count as int));
            assert(columns >= 1);
        }
        let rows = (count + columns - 1) / columns;
        let width = columns * (tile_size as u64);
        let height = rows * (tile_size as u64);
        let pixels = compose_tiles(&images, tile_size, columns, rows, Ghost(decoded_tiles(textures@)));
        let mut atlas = TextureAtlas {
            indices: Vec::new(),
            tile_size,
            columns: columns as u32,
            rows: rows as u32,
        };
        proof {
            assert(atlas@ =~= name_indices(texture_names(textures@).subrange(0, 0)));
        }
        let mut index: usize = 0;
        while index < textures.len()
            invariant
                index <= textures@.len(),
                textures@.len() <= u32::MAX,
                atlas.wf(),
                atlas@ == name_indices(texture_names(textures@).subrange(0, index as int)),
                atlas.tile_size == tile_size,
                atlas.columns == columns,
                atlas.rows == rows,
            decreases textures@.len() - index,
        {
            let name = textures[index].0;
            atlas.insert(name.to_owned(), index as u32);
            proof {
                let names = texture_names(textures@);
                assert(names.subrange(0, index + 1).drop_last() =~= names.subrange(0, index as int));
            }
            index += 1;
        }
        proof {
            assert(texture_names(textures@).subrange(0, textures@.len() as int) =~= texture_names(textures@));
        }
        let image = RgbaPixels { width: width as u32, height: height as u32, pixels };
        Ok((atlas, image))
    }
}

/// Lays out square tiles of side `tile` in a grid `columns` wide and `rows`
/// high, row by row, pixel by pixel, zero where there is no tile.
fn compose_tiles(
    images: &Vec<RgbaPixels>,
    tile: u32,
    columns: u64,
    rows: u64,
    tiles: Ghost<Seq<Seq<u8>>>,
) -> (pixels: Vec<u8>)
    requires
        columns >= 1,
        tiles@.len() == images@.len(),
        columns * tile <= u32::MAX,
        rows * tile <= u32::MAX,
        4 * (columns * tile) * (rows * tile) <= usize::MAX,
        forall|j: int|
            0 <= j < images@.len() ==> (#[trigger] images@[j]).pixels@ == tiles@[j]
                && images@[j].pixels@.len() >= 4 * tile * tile,
    ensures
        pixels@.len() == 4 * (columns * tile) * (rows * tile),
        forall|i: int|
            0 <= i < pixels@.len() ==> #[trigger] pixels@[i] == atlas_byte(
                tiles@,
                tile as int,
                columns as int,
                (i / 4) % (columns * tile),
                (i / 4) / (columns * tile),
                i % 4,
            ),
{
    let tile = tile as u64;
    let width = columns * tile;
    let height = rows * tile;
    let mut pixels: Vec<u8> = Vec::new();
    let mut py: u64 = 0;
    while py < height
        invariant
            py <= height,
            width == columns * tile,
            height == rows * tile,
            columns >= 1,
            tiles@.len() == images@.len(),
            4 * width * height <= usize::MAX,
            forall|j: int|
                0 <= j < images@.len() ==> (#[trigger] images@[j]).pixels@ == tiles@[j]
                    && images@[j].pixels@.len() >= 4 * tile * tile,
            pixels@.len() == 4 * (py * width),
            forall|i: int|
                0 <= i < pixels@.len() ==> #[trigger] pixels@[i] == atlas_byte(
                    tiles@,
                    tile as int,
                    columns as int,
                    (i / 4) % (width as int),
                    (i / 4) / (width as int),
                    i % 4,
                ),
        decreases height - py,
    {
        let mut px: u64 = 0;
        while px < width
            invariant
                py < height,
                px <= width,
                width == columns * tile,
                height == rows * tile,
                columns >= 1,
                tiles@.len() == images@.len(),
                4 * width * height <= usize::MAX,
                forall|j: int|
                    0 <= j < images@.len() ==> (#[trigger] images@[j]).pixels@ == tiles@[j]
                        && images@[j].pixels@.len() >= 4 * tile * tile,
                pixels@.len() == 4 * (py * width + px),
                forall|i: int|
                    0 <= i < pixels@.len() ==> #[trigger] pixels@[i] == atlas_byte(
                        tiles@,
                        tile as int,
                        columns as int,
                        (i / 4) % (width as int),
                        (i / 4) / (width as int),
                        i % 4,
                    ),
            decreases width - px,
        {
            proof {
                lemma_tile_bounds(py as int, px as int, tile as int, columns as int, rows as int);
                assert(width * height <= usize::MAX && 4 * tile * tile <= usize::MAX) by (nonlinear_arith)
                    requires
                        4 * width * height <= usize::MAX,
                        width == columns * tile,
                        height == rows * tile,
                        columns >= 1,
                        rows >= 1,
                        tile >= 1,
                ;
            }
            let t = (py / tile) * columns + px / tile;
            let within = ((py % tile) * tile + px % tile) * 4;
            let mut c: u64 = 0;
            while c < 4
                invariant
                    c <= 4,
                    py < height,
                    px < width,
                    width == columns * tile,
                    tile > 0,
                    t == (py / tile) * columns + px / tile,
                    t <= usize::MAX,
                    within == ((py % tile) * tile + px % tile) * 4,
                    within + 4 <= 4 * tile * tile,
                    4 * tile * tile <= usize::MAX,
                    tiles@.len() == images@.len(),
                    4 * width * height <= usize::MAX,
                    py * width + px < width * height,
                    forall|j: int|
                        0 <= j < images@.len() ==> (#[trigger] images@[j]).pixels@ == tiles@[j]
                            && images@[j].pixels@.len() >= 4 * tile * tile,
                    pixels@.len() == 4 * (py * width + px) + c,
                    forall|i: int|
                        0 <= i < pixels@.len() ==> #[trigger] pixels@[i] == atlas_byte(
                            tiles@,
                            tile as int,
                            columns as int,
                            (i / 4) % (width as int),
                            (i / 4) / (width as int),
                            i % 4,
                        ),
                decreases 4 - c,
            {
                let byte = if (t as usize) < images.len() {
                    assert(images@[t as int].pixels@ == tiles@[t as int]);
                    images[t as usize].pixels[(within + c) as usize]
                } else {
                    0
                };
                proof {
                    let j = 4 * (py * width + px) + c;
                    lemma_split_index(c as int, (py * width + px) as int, 4);
                    lemma_split_index(px as int, py as int, width as int);
                    assert(j == c + (py * width + px) * 4);
                    assert(px + py * width == py * width + px);
                    assert((j / 4) % (width as int) == px);
                    assert((j / 4) / (width as int) == py);
                    assert(j % 4 == c);
                    assert(byte == atlas_byte(tiles@, tile as int, columns as int, px as int, py as int, c as int));
                }
                let ghost before = pixels@;
                pixels.push(byte);
                proof {
                    let j = 4 * (py * width + px) + c;
                    assert forall|i: int| 0 <= i < pixels@.len() implies #[trigger] pixels@[i] == atlas_byte(
                        tiles@,
                        tile as int,
                        columns as int,
                        (i / 4) % (width as int),
                        (i / 4) / (width as int),
                        i % 4,
                    ) by {
                        if i < before.len() {
                            assert(pixels@[i] == before[i]);
                        }
                    }
                }
                c += 1;
            }
            px += 1;
        }
        assert(4 * (py * width + width) == 4 * ((py + 1) * width)) by (nonlinear_arith);
        py += 1;
    }
    assert(4 * (height * width) == 4 * (columns * tile) * (rows * tile)) by (nonlinear_arith)
        requires
            width == columns * tile,
            height == rows * tile,
    ;
    pixels
}

/// Where pixel `(px, py)` of a grid of `columns` by `rows` tiles of side
/// `tile` falls: in tile row `py / tile` and column `px / tile`, at offset
/// `(px % tile, py % tile)` inside the tile, all within range.
proof fn lemma_tile_bounds(py: int, px: int, tile: int, columns: int, rows: int)
    requires
        0 <= py < rows * tile,
        0 <= px < columns * tile,
        tile > 0,
        columns >= 1,
    ensures
        rows >= 1,
        py / tile < rows,
        px / tile < columns,
        0 <= (py / tile) * columns + px / tile < columns * rows,
        columns * rows <= (columns * tile) * (rows * tile),
        py * (columns * tile) + px < (columns * tile) * (rows * tile),
        0 <= (py % tile) * tile + px % tile,
        ((py % tile) * tile + px % tile) * 4 + 4 <= 4 * tile * tile,
{
    assert(rows >= 1) by (nonlinear_arith)
        requires
            0 <= py < rows * tile,
            tile > 0,
    ;
    assert(py < tile * rows && px < tile * columns) by (nonlinear_arith)
        requires
            py < rows * tile,
            px < columns * tile,
    ;
    vstd::arithmetic::div_mod::lemma_multiply_divide_lt(py, tile, rows);
    vstd::arithmetic::div_mod::lemma_multiply_divide_lt(px, tile, columns);
    vstd::arithmetic::div_mod::lemma_div_pos_is_pos(py, tile);
    vstd::arithmetic::div_mod::lemma_div_pos_is_pos(px, tile);
    vstd::arithmetic::div_mod::lemma_mod_bound(py, tile);
    vstd::arithmetic::div_mod::lemma_mod_bound(px, tile);
    let a = py / tile;
    let b = px / tile;
    assert(0 <= a * columns + b < columns * rows) by (nonlinear_arith)
        requires
            0 <= a < rows,
            0 <= b < columns,
    ;
    assert(columns * rows <= (columns * tile) * (rows * tile)) by (nonlinear_arith)
        requires
            tile >= 1,
            columns >= 1,
            rows >= 1,
    ;
    assert(py * (columns * tile) + px < (columns * tile) * (rows * tile)) by (nonlinear_arith)
        requires
            0 <= py < rows * tile,
            0 <= px < columns * tile,
    ;
    let m = py % tile;
    let k = px % tile;
    assert(0 <= m * tile + k && (m * tile + k) * 4 + 4 <= 4 * tile * tile) by (nonlinear_arith)
        requires
            0 <= m < tile,
            0 <= k < tile,
    ;
}

} // verus!
