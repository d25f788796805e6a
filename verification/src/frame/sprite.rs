//! One frame of a sprite: the mesh for collision and the tiles for drawing,
//! both made from one image.  An image without an occupied pixel gives a
//! frame without a mesh, which collides with nothing.

use vstd::prelude::*;
use crate::frame::collide::{can_place, collide_spec, view_opt};
use crate::frame::construct::{tree_view, whole, MAX_SPAN};
use crate::frame::debug::{is_debug_buf, is_mask_of};
use crate::frame::dottypes::{DotPoint, DotRect, SpecPoint, SpecRect};
use crate::frame::rows::{lemma_or_nibble, nibble};
use crate::frame::{MeshTree, TreeModel};
use crate::pixels::{PixelBuf, PixelGrid, Rgba};
use crate::tile::tiletypes::{TilePoint, TILE_SIZE};
use crate::tile::{dot_of, Alpha, AltenaAlpha, Color, Dot, Tile, TileModel, ALPHA_MASK};

verus! {

/// The number of tiles that `len` dots need.
pub open spec fn tile_count(len: int) -> int {
    (len + 15) / 16
}

/// The number of tiles that `len` dots need.
pub fn tile_num(len: usize) -> (n: usize)
    requires
        len + TILE_SIZE <= usize::MAX,
    ensures
        n == tile_count(len as int),
{
    (len + TILE_SIZE - 1) / TILE_SIZE
}

/// The place of the tile in column `tx` of row `ty` of a grid of `cols`
/// columns, rows first.
pub open spec fn tile_index(cols: int, tx: int, ty: int) -> int {
    ty * cols + tx
}

/// Tiles are held in the order of their rows and, in a row, of their
/// columns.
pub proof fn lemma_tile_index(cols: int, rows: int, tx: int, ty: int)
    requires
        0 <= tx < cols,
        0 <= ty < rows,
    ensures
        0 <= tile_index(cols, tx, ty) < cols * rows,
        tile_index(cols, 0, ty + 1) == tile_index(cols, tx, ty) + (cols - tx),
        forall|ox: int, oy: int|
            0 <= ox < cols && 0 <= oy && (oy < ty || (oy == ty && ox < tx)) ==> #[trigger] tile_index(
                cols,
                ox,
                oy,
            ) < tile_index(cols, tx, ty),
{
    assert(0 <= ty * cols && ty * cols + cols <= rows * cols && (ty + 1) * cols == ty * cols + cols
        && cols * rows == rows * cols) by (nonlinear_arith)
        requires
            0 <= ty < rows,
            0 < cols,
    ;
    assert forall|ox: int, oy: int|
        0 <= ox < cols && 0 <= oy && (oy < ty || (oy == ty && ox < tx)) implies #[trigger] tile_index(
        cols,
        ox,
        oy,
    ) < tile_index(cols, tx, ty) by {
        if oy < ty {
            assert(oy * cols + cols <= ty * cols) by (nonlinear_arith)
                requires
                    0 <= oy < ty,
                    0 < cols,
            ;
        }
    }
}

/// The dot that the pixel `(x, y)` of an image is drawn as; nothing outside
/// the image.
pub open spec fn grid_dot(grid: PixelGrid, x: int, y: int) -> Dot {
    if grid.in_bounds(x, y) {
        dot_of(grid.pixel(x, y))
    } else {
        None
    }
}

/// The opacity of the pixel `(x, y)` of an image.
pub open spec fn grid_alpha(grid: PixelGrid, x: int, y: int) -> u8 {
    (grid.channel(x, y, 3) & ALPHA_MASK) >> 4
}

/// `alpha` is the greatest opacity of a pixel of the image; 0 for an image
/// without pixels.
pub open spec fn is_max_alpha(grid: PixelGrid, alpha: Alpha) -> bool {
    &&& forall|x: int, y: int| grid.in_bounds(x, y) ==> #[trigger] grid_alpha(grid, x, y) <= alpha.0
    &&& alpha.0 == 0 || exists|x: int, y: int|
        grid.in_bounds(x, y) && #[trigger] grid_alpha(grid, x, y) == alpha.0
}

/// The pixel that a dot of a frame is restored to: the colour of the dot
/// under the opacity of the frame, white without opacity for no dot, and in
/// either case the collision bits of the mesh.
pub open spec fn restored_pixel(dot: Dot, alpha: Alpha, bits: u8) -> Seq<u8> {
    match dot {
        Some(c) => seq![c.r, c.g, c.b, (alpha.0 << 4) | bits],
        None => seq![255u8, 255u8, 255u8, bits],
    }
}

/// `pixel` is what `cnv` may turn the dot `d` into.
pub open spec fn converted<F: Fn(&Dot) -> Rgba>(cnv: &F, d: Dot, pixel: Seq<u8>) -> bool {
    exists|p: Rgba| call_ensures(*cnv, (&d,), p) && p.data@ == pixel
}

/// What a [`Frame`] holds.
pub ghost struct FrameModel {
    pub name: Seq<char>,
    /// The mesh; none where the image has no occupied pixel.
    pub mesh: Option<TreeModel>,
    /// The tiles with their places in the grid of tiles, row by row.
    pub tiles: Seq<(TileModel, TilePoint)>,
    /// The greatest opacity of a pixel of the image.
    pub alpha: Alpha,
    /// Width of the image in dots.
    pub width: nat,
    /// Height of the image in dots.
    pub height: nat,
}

impl FrameModel {
    /// Columns of the grid of tiles.
    pub open spec fn cols(self) -> int {
        tile_count(self.width as int)
    }

    /// Rows of the grid of tiles.
    pub open spec fn rows(self) -> int {
        tile_count(self.height as int)
    }

    /// The image is no larger than the largest mesh; the mesh, if there is
    /// one, is well formed and spans the image; there is a tile of 256 dots
    /// for each place of the grid, and it knows its place.
    pub open spec fn wf(self) -> bool {
        &&& self.alpha.wf()
        &&& self.width <= MAX_SPAN
        &&& self.height <= MAX_SPAN
        &&& self.mesh matches Some(mesh) ==> {
            &&& mesh.wf()
            &&& self.width <= mesh.span()
            &&& self.height <= mesh.span()
        }
        &&& self.tiles.len() == self.cols() * self.rows()
        &&& forall|tx: int, ty: int|
            0 <= tx < self.cols() && 0 <= ty < self.rows() ==> {
                &&& (#[trigger] self.tiles[tile_index(self.cols(), tx, ty)]).0.dots.len() == 256
                &&& self.tiles[tile_index(self.cols(), tx, ty)].1.x == tx
                &&& self.tiles[tile_index(self.cols(), tx, ty)].1.y == ty
            }
    }

    /// The dot at `(x, y)`, counted from the upper left corner of the frame.
    pub open spec fn dot(self, x: int, y: int) -> Dot {
        self.tiles[tile_index(self.cols(), x / 16, y / 16)].0.dot(x % 16, y % 16)
    }

    /// The collision bits of the pixel `(x, y)`; none without a mesh.
    pub open spec fn bits(self, x: int, y: int) -> u8 {
        match self.mesh {
            Some(mesh) => mesh.bits(x, y),
            None => 0,
        }
    }

    /// The bounding box of the occupied pixels; none without a mesh.
    pub open spec fn bbox(self) -> Option<SpecRect> {
        match self.mesh {
            Some(mesh) => Some(mesh.bbox()),
            None => None,
        }
    }

    /// What a collision query answers for two placed frames: what their
    /// meshes answer, and nothing where either has none.
    pub open spec fn collide(self, other: FrameModel, oa: SpecPoint, ob: SpecPoint) -> Option<
        SpecRect,
    > {
        match (self.mesh, other.mesh) {
            (Some(a), Some(b)) => collide_spec(a, b, oa, ob),
            _ => None,
        }
    }

    /// The bounding box of the frame's mesh, if it has one, stays within the
    /// `i16` coordinates where the frame is put at `at`.
    pub open spec fn can_place(self, at: SpecPoint) -> bool {
        self.mesh matches Some(mesh) ==> can_place(mesh.bbox(), at)
    }
}

/// 1 Frame of sprite
pub struct Frame {
    /// name of Frame
    name: String,
    /// collision
    mesh: Option<MeshTree>,
    /// for drawing
    tiles: Vec<(Tile, TilePoint)>,
    alpha: Alpha,
    /// to restore the image
    w_orig: usize,
    h_orig: usize,
}

impl View for Frame {
    type V = FrameModel;

    closed spec fn view(&self) -> FrameModel {
        FrameModel {
            name: self.name@,
            mesh: tree_view(self.mesh),
            tiles: tile_models(self.tiles@),
            alpha: self.alpha,
            width: self.w_orig as nat,
            height: self.h_orig as nat,
        }
    }
}

/// What the tiles of a frame hold.
pub open spec fn tile_models(tiles: Seq<(Tile, TilePoint)>) -> Seq<(TileModel, TilePoint)> {
    Seq::new(tiles.len(), |i: int| (tiles[i].0@, tiles[i].1))
}

/// The tile in column `tile_x` of row `tile_y` of the grid of tiles of an
/// image: the dots of its pixels, and nothing where the image has ended.
pub fn tile_from_buf(buf: &PixelBuf, tile_x: usize, tile_y: usize) -> (tile: Tile)
    requires
        tile_x < 16,
        tile_y < 16,
    ensures
        tile@.dots.len() == 256,
        forall|i: int, j: int|
            0 <= i < 16 && 0 <= j < 16 ==> #[trigger] tile@.dot(i, j) == grid_dot(
                buf@,
                16 * tile_x + i,
                16 * tile_y + j,
            ),
{
    let (w, h) = (buf.width() as usize, buf.height() as usize);
    let sx: usize = TILE_SIZE * tile_x;
    let sy: usize = TILE_SIZE * tile_y;
    let mut tile = Tile::default();
    let mut y: usize = 0;
    while y < TILE_SIZE
        invariant
            0 <= y <= 16,
            w == buf@.width,
            h == buf@.height,
            sx == 16 * tile_x,
            sy == 16 * tile_y,
            tile_x < 16,
            tile_y < 16,
            tile@.dots.len() == 256,
            forall|i: int, j: int|
                0 <= i < 16 && 0 <= j < 16 ==> #[trigger] tile@.dot(i, j) == if j < y {
                    grid_dot(buf@, sx + i, sy + j)
                } else {
                    None
                },
        decreases 16 - y,
    {
        let mut x: usize = 0;
        while x < TILE_SIZE
            invariant
                0 <= x <= 16,
                0 <= y < 16,
                    w == buf@.width,
                h == buf@.height,
                sx == 16 * tile_x,
                sy == 16 * tile_y,
                tile_x < 16,
                tile_y < 16,
                tile@.dots.len() == 256,
                forall|i: int, j: int|
                    0 <= i < 16 && 0 <= j < 16 ==> #[trigger] tile@.dot(i, j) == if j < y || (j == y
                        && i < x) {
                        grid_dot(buf@, sx + i, sy + j)
                    } else {
                        None
                    },
            decreases 16 - x,
        {
            if sx + x < w && sy + y < h {
                let p = buf.get_pixel((sx + x) as u32, (sy + y) as u32);
                let dot = Color::from_rgba(&p);
                let ghost before = tile@;
                tile.set_xy(x, y, dot);
                assert forall|i: int, j: int| 0 <= i < 16 && 0 <= j < 16 implies #[trigger] tile@.dot(
                    i,
                    j,
                ) == if j < y || (j == y && i <= x) {
                    grid_dot(buf@, sx + i, sy + j)
                } else {
                    None
                } by {
                    assert(before.dot(i, j) == before.dots[j * 16 + i]);
                }
            }
            x += 1;
        }
        y += 1;
    }
    tile
}

/// The greatest opacity of a pixel of the image.
pub fn max_alpha(buf: &PixelBuf) -> (alpha: Alpha)
    ensures
        is_max_alpha(buf@, alpha),
        alpha.wf(),
{
    let (w, h) = (buf.width(), buf.height());
    let mut alpha = Alpha(0);
    let ghost mut at: (int, int) = (0, 0);
    let mut y: u32 = 0;
    while y < h
        invariant
            0 <= y <= h,
            w == buf@.width,
            h == buf@.height,
            alpha.wf(),
            forall|i: int, j: int|
                0 <= i < w && 0 <= j < y ==> #[trigger] grid_alpha(buf@, i, j) <= alpha.0,
            alpha.0 == 0 || (buf@.in_bounds(at.0, at.1) && grid_alpha(buf@, at.0, at.1) == alpha.0),
        decreases h - y,
    {
        let mut x: u32 = 0;
        while x < w
            invariant
                0 <= x <= w,
                0 <= y < h,
                    w == buf@.width,
                h == buf@.height,
                alpha.wf(),
                forall|i: int, j: int|
                    0 <= i < w && (0 <= j < y || (j == y && 0 <= i < x)) ==> #[trigger] grid_alpha(
                        buf@,
                        i,
                        j,
                    ) <= alpha.0,
                alpha.0 == 0 || (buf@.in_bounds(at.0, at.1) && grid_alpha(buf@, at.0, at.1)
                    == alpha.0),
            decreases w - x,
        {
            let p = buf.get_pixel(x, y);
            let a = p.alpha();
            assert(a.0 == grid_alpha(buf@, x as int, y as int));
            proof {
                if a.0 > alpha.0 {
                    at = (x as int, y as int);
                }
            }
            alpha.max(a);
            x += 1;
        }
        y += 1;
    }
    alpha
}

impl Frame {
    /// A frame is well formed.
    #[verifier::type_invariant]
    spec fn inv(&self) -> bool {
        self@.wf()
    }

    /// A frame is well formed.  Nothing is done when the program runs.
    pub fn inv_holds(&self)
        ensures
            self@.wf(),
    {
        proof {
            use_type_invariant(self);
        }
    }

    /// The frame of an image and a name: `None` for an image without pixels.
    /// A frame of an image without an occupied pixel has no mesh.  The image
    /// is at most 256 dots wide and high.
    pub fn from_buf(buf: &PixelBuf, name: &str) -> (made: Option<Frame>)
        requires
            whole(buf@).fits(),
        ensures
            made is Some <==> buf@.width > 0 && buf@.height > 0,
            made matches Some(frame) ==> {
                &&& frame@.wf()
                &&& frame@.name == name@
                &&& frame@.mesh == whole(buf@).mesh()
                &&& frame@.width == buf@.width
                &&& frame@.height == buf@.height
                &&& is_max_alpha(buf@, frame@.alpha)
                &&& forall|x: int, y: int|
                    0 <= x < 16 * frame@.cols() && 0 <= y < 16 * frame@.rows() ==> #[trigger] frame@.dot(
                        x,
                        y,
                    ) == grid_dot(buf@, x, y)
            },
    {
        let (h, w) = (buf.height() as usize, buf.width() as usize);
        let cols = tile_num(w);
        let rows = tile_num(h);
        if cols == 0 || rows == 0 {
            return None;
        }
        let mut tiles: Vec<(Tile, TilePoint)> = Vec::new();
        let mut tile_y: usize = 0;
        while tile_y < rows
            invariant
                0 <= tile_y <= rows,
                    0 < cols <= 16,
                rows <= 16,
                tiles@.len() == tile_index(cols as int, 0, tile_y as int),
                forall|ox: int, oy: int|
                    0 <= ox < cols && 0 <= oy < tile_y ==> {
                        &&& (#[trigger] tiles@[tile_index(cols as int, ox, oy)]).0@.dots.len() == 256
                        &&& tiles@[tile_index(cols as int, ox, oy)].1.x == ox
                        &&& tiles@[tile_index(cols as int, ox, oy)].1.y == oy
                        &&& forall|i: int, j: int|
                            0 <= i < 16 && 0 <= j < 16 ==> #[trigger] tiles@[tile_index(
                                cols as int,
                                ox,
                                oy,
                            )].0@.dot(i, j) == grid_dot(buf@, 16 * ox + i, 16 * oy + j)
                    },
            decreases rows - tile_y,
        {
            let mut tile_x: usize = 0;
            while tile_x < cols
                invariant
                    0 <= tile_x <= cols,
                    0 <= tile_y < rows,
                            0 < cols <= 16,
                    rows <= 16,
                    tiles@.len() == tile_index(cols as int, tile_x as int, tile_y as int),
                    forall|ox: int, oy: int|
                        0 <= ox < cols && 0 <= oy && (oy < tile_y || (oy == tile_y && ox < tile_x)) ==> {
                            &&& (#[trigger] tiles@[tile_index(cols as int, ox, oy)]).0@.dots.len()
                                == 256
                            &&& tiles@[tile_index(cols as int, ox, oy)].1.x == ox
                            &&& tiles@[tile_index(cols as int, ox, oy)].1.y == oy
                            &&& forall|i: int, j: int|
                                0 <= i < 16 && 0 <= j < 16 ==> #[trigger] tiles@[tile_index(
                                    cols as int,
                                    ox,
                                    oy,
                                )].0@.dot(i, j) == grid_dot(buf@, 16 * ox + i, 16 * oy + j)
                        },
                decreases cols - tile_x,
            {
                let tile = tile_from_buf(buf, tile_x, tile_y);
                let tile_p = TilePoint { x: tile_x as u8, y: tile_y as u8 };
                proof {
                    lemma_tile_index(cols as int, rows as int, tile_x as int, tile_y as int);
                }
                tiles.push((tile, tile_p));
                tile_x += 1;
            }
            proof {
                lemma_tile_index(cols as int, rows as int, cols as int - 1, tile_y as int);
            }
            tile_y += 1;
        }
        let mesh = MeshTree::from_buf(buf);
        let alpha = max_alpha(buf);
        let owned = name.to_owned();
        let ghost model = FrameModel {
            name: owned@,
            mesh: tree_view(mesh),
            tiles: tile_models(tiles@),
            alpha,
            width: w as nat,
            height: h as nat,
        };
        proof {
            assert(tile_index(cols as int, 0, rows as int) == cols * rows) by (nonlinear_arith);
            assert(model.cols() == cols && model.rows() == rows);
            assert forall|x: int, y: int|
                0 <= x < 16 * model.cols() && 0 <= y < 16 * model.rows() implies #[trigger] model.dot(
                x,
                y,
            ) == grid_dot(buf@, x, y) by {
                let ox = x / 16;
                let oy = y / 16;
                assert(model.tiles[tile_index(cols as int, ox, oy)].0.dot(x % 16, y % 16) == grid_dot(
                    buf@,
                    16 * ox + x % 16,
                    16 * oy + y % 16,
                )) by {
                    lemma_tile_index(cols as int, rows as int, ox, oy);
                    assert(tiles@[tile_index(cols as int, ox, oy)].0@.dot(x % 16, y % 16) == grid_dot(
                        buf@,
                        16 * ox + x % 16,
                        16 * oy + y % 16,
                    ));
                }
            }
            assert forall|tx: int, ty: int| 0 <= tx < model.cols() && 0 <= ty < model.rows() implies {
                &&& (#[trigger] model.tiles[tile_index(model.cols(), tx, ty)]).0.dots.len() == 256
                &&& model.tiles[tile_index(model.cols(), tx, ty)].1.x == tx
                &&& model.tiles[tile_index(model.cols(), tx, ty)].1.y == ty
            } by {
                lemma_tile_index(cols as int, rows as int, tx, ty);
                assert(tiles@[tile_index(cols as int, tx, ty)].0@.dots.len() == 256);
            }
        }
        let frame = Frame { name: owned, mesh, tiles, alpha, w_orig: w, h_orig: h };
        assert(frame@ == model);
        Some(frame)
    }

    /// The bounding box of the mesh; none without a mesh.
    pub fn bbox(&self) -> (bbox: Option<DotRect>)
        ensures
            view_opt(bbox) == self@.bbox(),
    {
        match &self.mesh {
            Some(mesh) => Some(mesh.bbox()),
            None => None,
        }
    }

    /// The mesh of the frame, if it has one.
    pub fn mesh(&self) -> (mesh: Option<&MeshTree>)
        ensures
            match mesh {
                Some(tree) => self@.mesh == Some(tree@),
                None => self@.mesh is None,
            },
    {
        match &self.mesh {
            Some(mesh) => Some(mesh),
            None => None,
        }
    }

    /// Detects collision between this frame, placed with its upper left
    /// corner at `offset_s`, and `other`, placed at `offset_o`.  A frame
    /// without a mesh collides with nothing.
    pub fn collide(&self, other: &Frame, offset_s: DotPoint, offset_o: DotPoint) -> (hit: Option<
        DotRect,
    >)
        requires
            self@.mesh is Some && other@.mesh is Some ==> self@.can_place(offset_s@)
                && other@.can_place(offset_o@),
        ensures
            view_opt(hit) == self@.collide(other@, offset_s@, offset_o@),
    {
        match &self.mesh {
            Some(mesh_s) => match &other.mesh {
                Some(mesh_o) => mesh_s.collide(mesh_o, offset_s, offset_o),
                None => None,
            },
            None => None,
        }
    }

    /// The greatest opacity of a pixel of the image.
    pub fn alpha(&self) -> (alpha: Alpha)
        ensures
            alpha == self@.alpha,
    {
        self.alpha
    }

    /// Width and height of the image in dots.
    pub fn size(&self) -> (size: (usize, usize))
        ensures
            size.0 == self@.width,
            size.1 == self@.height,
    {
        (self.w_orig, self.h_orig)
    }

    /// The name of the frame.
    pub fn name(&self) -> (name: &String)
        ensures
            name@ == self@.name,
    {
        &self.name
    }

    /// The tiles of the frame with their places in the grid of tiles, row
    /// by row.
    pub fn tiles(&self) -> (tiles: &Vec<(Tile, TilePoint)>)
        ensures
            tiles@.len() == self@.tiles.len(),
            forall|i: int|
                0 <= i < tiles@.len() ==> (#[trigger] tiles@[i]).0@ == self@.tiles[i].0 && tiles@[i].1
                    == self@.tiles[i].1,
    {
        &self.tiles
    }

    /// The dots of the frame, row by row, as wide and as high as the image
    /// that the frame was made from.
    pub fn get_debug_buf(&self) -> (made: Option<Vec<Vec<Dot>>>)
        ensures
            made matches Some(buf) && buf@.len() == self@.height && forall|y: int|
                0 <= y < self@.height ==> (#[trigger] buf@[y])@.len() == self@.width && forall|x: int|
                    0 <= x < self@.width ==> (#[trigger] buf@[y]@[x]) == self@.dot(x, y),
    {
        self.inv_holds();
        let (w, h) = (self.w_orig, self.h_orig);
        let cols = tile_num(w);
        let mut buf: Vec<Vec<Dot>> = Vec::new();
        let mut y: usize = 0;
        while y < h
            invariant
                0 <= y <= h,
                self@.wf(),
                w == self@.width,
                h == self@.height,
                cols == self@.cols(),
                buf@.len() == y,
                forall|j: int|
                    0 <= j < y ==> (#[trigger] buf@[j])@.len() == w && forall|i: int|
                        0 <= i < w ==> (#[trigger] buf@[j]@[i]) == self@.dot(i, j),
            decreases h - y,
        {
            let mut row: Vec<Dot> = Vec::new();
            let mut x: usize = 0;
            while x < w
                invariant
                    0 <= x <= w,
                    0 <= y < h,
                    self@.wf(),
                    w == self@.width,
                    h == self@.height,
                    cols == self@.cols(),
                    row@.len() == x,
                    forall|i: int| 0 <= i < x ==> (#[trigger] row@[i]) == self@.dot(i, y as int),
                decreases w - x,
            {
                let dot = self.dot_at(x, y);
                row.push(dot);
                x += 1;
            }
            buf.push(row);
            y += 1;
        }
        Some(buf)
    }

    /// The dot at `(x, y)`, counted from the upper left corner of the frame.
    pub fn dot_at(&self, x: usize, y: usize) -> (dot: Dot)
        requires
            x < self@.width,
            y < self@.height,
        ensures
            dot == self@.dot(x as int, y as int),
    {
        self.inv_holds();
        let cols = tile_num(self.w_orig);
        let tile_x: usize = x / TILE_SIZE;
        let tile_y: usize = y / TILE_SIZE;
        proof {
            lemma_tile_index(self@.cols(), self@.rows(), tile_x as int, tile_y as int);
            assert(self@.tiles[tile_index(self@.cols(), tile_x as int, tile_y as int)].0.dots.len()
                == 256);
            assert(self.tiles@.len() == self@.tiles.len());
            assert(tile_y * cols + tile_x == tile_index(self@.cols(), tile_x as int, tile_y as int));
            assert(0 <= tile_y * cols <= 256) by (nonlinear_arith)
                requires
                    0 <= tile_y <= 16,
                    0 <= cols <= 16,
            ;
        }
        let tile = &self.tiles[tile_y * cols + tile_x].0;
        match tile.get_xy(x % TILE_SIZE, y % TILE_SIZE) {
            Some(dot) => *dot,
            None => None,
        }
    }

    /// The image of the frame's dots, each turned into a pixel by `cnv`.
    pub fn get_color_buf<F: Fn(&Dot) -> Rgba>(&self, cnv: &F) -> (made: Option<PixelBuf>)
        requires
            forall|d: Dot| call_requires(*cnv, (&d,)),
        ensures
            made matches Some(buf) && buf@.width == self@.width && buf@.height
                == self@.height && forall|x: int, y: int|
                buf@.in_bounds(x, y) ==> converted(cnv, self@.dot(x, y), #[trigger] buf@.pixel(x, y)),
    {
        self.inv_holds();
        let (w, h) = (self.w_orig, self.h_orig);
        assert(4 * w * h <= 4 * 256 * 256) by (nonlinear_arith)
            requires
                0 <= w <= 256,
                0 <= h <= 256,
        ;
        let mut buf = PixelBuf::new(w as u32, h as u32);
        let mut y: usize = 0;
        while y < h
            invariant
                0 <= y <= h,
                self@.wf(),
                w == self@.width,
                h == self@.height,
                    buf@.width == w,
                buf@.height == h,
                forall|d: Dot| call_requires(*cnv, (&d,)),
                forall|i: int, j: int|
                    0 <= i < w && 0 <= j < y ==> converted(
                        cnv,
                        self@.dot(i, j),
                        #[trigger] buf@.pixel(i, j),
                    ),
            decreases h - y,
        {
            let mut x: usize = 0;
            while x < w
                invariant
                    0 <= x <= w,
                    0 <= y < h,
                    self@.wf(),
                    w == self@.width,
                    h == self@.height,
                            buf@.width == w,
                    buf@.height == h,
                    forall|d: Dot| call_requires(*cnv, (&d,)),
                    forall|i: int, j: int|
                        0 <= i < w && (0 <= j < y || (j == y && i < x)) ==> converted(
                            cnv,
                            self@.dot(i, j),
                            #[trigger] buf@.pixel(i, j),
                        ),
                decreases w - x,
            {
                let dot = self.dot_at(x, y);
                let p = cnv(&dot);
                let ghost before = buf@;
                buf.put_pixel(x as u32, y as u32, p);
                assert forall|i: int, j: int|
                    0 <= i < w && (0 <= j < y || (j == y && i <= x)) implies converted(
                    cnv,
                    self@.dot(i, j),
                    #[trigger] buf@.pixel(i, j),
                ) by {
                    if i == x && j == y {
                        assert(call_ensures(*cnv, (&self@.dot(i, j),), p) && p.data@ == buf@.pixel(
                            i,
                            j,
                        ));
                    } else {
                        assert(before.in_bounds(i, j));
                        assert(buf@.pixel(i, j) == before.pixel(i, j));
                        assert(converted(cnv, self@.dot(i, j), before.pixel(i, j)));
                    }
                }
                x += 1;
            }
            y += 1;
        }
        Some(buf)
    }

    /// The image that the frame was made from, as far as the frame keeps
    /// it: each dot under the one opacity of the frame, with the collision
    /// bits of the mesh.
    pub fn restore_buf(&self) -> (made: Option<PixelBuf>)
        ensures
            made matches Some(buf) && buf@.width == self@.width && buf@.height
                == self@.height && forall|x: int, y: int|
                buf@.in_bounds(x, y) ==> #[trigger] buf@.pixel(x, y) == restored_pixel(
                    self@.dot(x, y),
                    self@.alpha,
                    self@.bits(x, y),
                ),
    {
        self.inv_holds();
        let alpha = self.alpha;
        let cnv = |d: &Dot| -> (p: Rgba)
            requires
                alpha.wf(),
            ensures
                p.data@ == restored_pixel(*d, alpha, 0),
            {
                match d {
                    Some(rgb) => {
                        assert(alpha.0 << 4 == (alpha.0 << 4) | 0u8) by (bit_vector);
                        let p = Rgba { data: [rgb.r, rgb.g, rgb.b, alpha.0 << 4] };
                        assert(p.data@ =~= restored_pixel(*d, alpha, 0));
                        p
                    },
                    None => {
                        let p = Rgba { data: [255, 255, 255, 0] };
                        assert(p.data@ =~= restored_pixel(*d, alpha, 0));
                        p
                    },
                }
            };
        let mut buf = match self.get_color_buf(&cnv) {
            Some(buf) => buf,
            None => {
                return None;
            },
        };
        let tree = match &self.mesh {
            Some(tree) => tree,
            None => {
                return Some(buf);
            },
        };
        let mesh = tree.get_debug_buf();
        let (w, h) = (self.w_orig, self.h_orig);
        let mut y: usize = 0;
        while y < h
            invariant
                0 <= y <= h,
                self@.wf(),
                alpha == self@.alpha,
                w == self@.width,
                h == self@.height,
                    buf@.width == w,
                buf@.height == h,
                is_debug_buf(tree@, mesh@),
                self@.mesh == Some(tree@),
                forall|i: int, j: int|
                    0 <= i < w && 0 <= j < h ==> #[trigger] buf@.pixel(i, j) == restored_pixel(
                        self@.dot(i, j),
                        alpha,
                        if j < y {
                            tree@.bits(i, j)
                        } else {
                            0
                        },
                    ),
            decreases h - y,
        {
            let mut x: usize = 0;
            while x < w
                invariant
                    0 <= x <= w,
                    0 <= y < h,
                    self@.wf(),
                    alpha == self@.alpha,
                    w == self@.width,
                    h == self@.height,
                            buf@.width == w,
                    buf@.height == h,
                    is_debug_buf(tree@, mesh@),
                    self@.mesh == Some(tree@),
                    forall|i: int, j: int|
                        0 <= i < w && 0 <= j < h ==> #[trigger] buf@.pixel(i, j) == restored_pixel(
                            self@.dot(i, j),
                            alpha,
                            if j < y || (j == y && i < x) {
                                tree@.bits(i, j)
                            } else {
                                0
                            },
                        ),
                decreases w - x,
            {
                let mo: usize = x % TILE_SIZE;
                let col: usize = x / TILE_SIZE;
                let shift: u64 = ((TILE_SIZE - 1 - mo) * 4) as u64;
                assert(is_mask_of(tree@, col as int, y as int, mesh@[y as int]@[col as int]));
                let bits: u8 = ((mesh[y][col] >> shift) & 0xf) as u8;
                proof {
                    lemma_or_nibble(mesh@[y as int]@[col as int], 0, 1, mo as u64);
                    assert(bits == nibble(mesh@[y as int]@[col as int], mo as u64));
                    assert(bits == tree@.bits(x as int, y as int));
                }
                let mut p = buf.get_pixel(x as u32, y as u32);
                let ghost before = buf@;
                let a = p.data[3];
                assert(0u8 | bits == bits && (a | bits == a | bits)) by (bit_vector);
                p = Rgba { data: [p.data[0], p.data[1], p.data[2], a | bits] };
                buf.put_pixel(x as u32, y as u32, p);
                assert forall|i: int, j: int| 0 <= i < w && 0 <= j < h implies #[trigger] buf@.pixel(
                    i,
                    j,
                ) == restored_pixel(
                    self@.dot(i, j),
                    alpha,
                    if j < y || (j == y && i <= x) {
                        tree@.bits(i, j)
                    } else {
                        0
                    },
                ) by {
                    if i == x && j == y {
                        assert(before.pixel(i, j) == restored_pixel(self@.dot(i, j), alpha, 0));
                        assert(((alpha.0 << 4) | 0u8) | bits == (alpha.0 << 4) | bits)
                            by (bit_vector);
                        assert(buf@.pixel(i, j) =~= restored_pixel(self@.dot(i, j), alpha, bits));
                    } else {
                        assert(before.in_bounds(i, j));
                        assert(buf@.pixel(i, j) == before.pixel(i, j));
                    }
                }
                x += 1;
            }
            y += 1;
        }
        Some(buf)
    }
}

/// What can collide: a mesh at a place.  An implementation says by
/// `spec_origin` and `spec_mesh` what its `origin` and `mesh` give.
pub trait Collide {
    /// LeftUp Corner of Object
    spec fn spec_origin(&self) -> DotPoint;

    /// The mesh of the object.
    spec fn spec_mesh(&self) -> &MeshTree;

    /// LeftUp Corner of Object
    fn origin(&self) -> (at: DotPoint)
        ensures
            at == self.spec_origin(),
    ;

    fn mesh(&self) -> (mesh: &MeshTree)
        ensures
            mesh == self.spec_mesh(),
    ;
}

/// Asks the mesh of `this` for its collision with the mesh of `other`, each
/// at its origin.
pub fn collide<S: Collide, O: Collide>(this: &S, other: &O) -> (hit: Option<DotRect>)
    requires
        can_place(this.spec_mesh()@.bbox(), this.spec_origin()@),
        can_place(other.spec_mesh()@.bbox(), other.spec_origin()@),
    ensures
        view_opt(hit) == collide_spec(
            this.spec_mesh()@,
            other.spec_mesh()@,
            this.spec_origin()@,
            other.spec_origin()@,
        ),
{
    let origin_s = this.origin();
    let origin_o = other.origin();
    this.mesh().collide(other.mesh(), origin_s, origin_o)
}

} // verus!
