//! Partitioning of a canvas into regions of equal blocks, and the plan of
//! block copies that scrambles or unscrambles it.
use vstd::prelude::*;
use image::{ColorType, DynamicImage, GenericImageView};
use vstd::arithmetic::div_mod::{
    lemma_fundamental_div_mod, lemma_fundamental_div_mod_converse,
};
use crate::shuffle::{
    index_list, index_range, lemma_permutation_is_bijection, lemma_unshuffle_shuffle, permutation,
    position, shuffle, shuffled, unshuffle, unshuffled,
};

verus! {

/// A block size in pixels, always strictly positive.
#[derive(Debug, Clone, Copy, PartialEq, Eq)]
pub struct BlockSize {
    value: u32,
}

impl BlockSize {
    /// The size in pixels.
    pub closed spec fn spec_value(&self) -> u32 {
        self.value
    }

    #[verifier::type_invariant]
    spec fn positive(&self) -> bool {
        self.value > 0
    }

    /// The size in pixels.
    pub fn get(&self) -> (r: u32)
        ensures
            r == self.spec_value(),
            r > 0,
    {
        proof {
            use_type_invariant(self);
        }
        self.value
    }
}

impl TryFrom<u32> for BlockSize {
    type Error = &'static str;

    /// A block size of `value` pixels; zero is refused.
    fn try_from(value: u32) -> (r: Result<BlockSize, &'static str>)
        ensures
            value == 0 <==> r is Err,
            r matches Ok(b) ==> b.spec_value() == value,
    {
        if value == 0 {
            return Err("BlockSize only accepts value greater than zero");
        }
        Ok(BlockSize { value })
    }
}

impl vstd::std_specs::convert::TryFromSpecImpl<u32> for BlockSize {
    open spec fn obeys_try_from_spec() -> bool {
        true
    }

    closed spec fn try_from_spec(value: u32) -> Result<BlockSize, &'static str> {
        if value == 0 {
            Err("BlockSize only accepts value greater than zero")
        } else {
            Ok(BlockSize { value })
        }
    }
}

impl From<BlockSize> for u32 {
    fn from(value: BlockSize) -> (r: u32) {
        value.value
    }
}

impl vstd::std_specs::convert::FromSpecImpl<BlockSize> for u32 {
    open spec fn obeys_from_spec() -> bool {
        true
    }

    open spec fn from_spec(v: BlockSize) -> u32 {
        v.spec_value()
    }
}

/// An axis-aligned rectangle of pixels.
#[derive(Debug, Clone, Copy, PartialEq, Eq, Structural)]
pub struct Rect {
    pub x: u32,
    pub y: u32,
    pub width: u32,
    pub height: u32,
}

/// Whether a canvas is scrambled or unscrambled.
#[derive(Debug, Clone, Copy, PartialEq, Eq, Structural)]
pub enum Mode {
    Scramble,
    Unscramble,
}

/// `ceil(a / b)`.
pub open spec fn ceil_div(a: nat, b: nat) -> nat {
    a / b + if a % b != 0 { 1nat } else { 0nat }
}

/// Block `k` of the main region of square blocks, `full_cols` to a row.
pub open spec fn main_block(bs: nat, full_cols: nat, k: int) -> Rect {
    Rect {
        x: ((k % full_cols as int) * bs) as u32,
        y: ((k / full_cols as int) * bs) as u32,
        width: bs as u32,
        height: bs as u32,
    }
}

/// Block `k` of the right edge: the narrow last column.
pub open spec fn right_block(w: nat, bs: nat, k: int) -> Rect {
    Rect { x: ((w / bs) * bs) as u32, y: (k * bs) as u32, width: (w % bs) as u32, height: bs as u32 }
}

/// Block `k` of the bottom edge: the short last row.
pub open spec fn bottom_block(h: nat, bs: nat, k: int) -> Rect {
    Rect { x: (k * bs) as u32, y: ((h / bs) * bs) as u32, width: bs as u32, height: (h % bs) as u32 }
}

/// `ceil(a / b)`.
fn div_ceil(a: u32, b: u32) -> (r: u32)
    requires
        b > 0,
    ensures
        r as nat == ceil_div(a as nat, b as nat),
{
    if a % b != 0 {
        proof {
            assert(a / b < a || a == 0 || b == 1) by (nonlinear_arith)
                requires b > 0;
        }
        a / b + 1
    } else {
        a / b
    }
}

/// Splits a `img_width` x `img_height` canvas into blocks of `block_size`
/// pixels, in row-major order, and sorts them by shape: square blocks (main
/// region), narrow blocks of the last column (right edge), short blocks of the
/// last row (bottom edge). The corner block, narrow and short, is left out.
fn get_blocks(img_width: u32, img_height: u32, nb_rows: u32, nb_cols: u32, block_size: u32) -> (r: (
    Vec<Rect>,
    Vec<Rect>,
    Vec<Rect>,
))
    requires
        block_size > 0,
        nb_rows as nat == ceil_div(img_height as nat, block_size as nat),
        nb_cols as nat == ceil_div(img_width as nat, block_size as nat),
    ensures
        ({
            let (w, h, bs) = (img_width as nat, img_height as nat, block_size as nat);
            let (fc, fr) = (w / bs, h / bs);
            &&& r.0@.len() == fr * fc
            &&& forall|k: int| 0 <= k < r.0@.len() ==> #[trigger] r.0@[k] == main_block(bs, fc, k)
            &&& r.1@.len() == if w % bs != 0 { fr } else { 0 }
            &&& forall|k: int| 0 <= k < r.1@.len() ==> #[trigger] r.1@[k] == right_block(w, bs, k)
            &&& r.2@.len() == if h % bs != 0 { fc } else { 0 }
            &&& forall|k: int| 0 <= k < r.2@.len() ==> #[trigger] r.2@[k] == bottom_block(h, bs, k)
        }),
{
    let ghost w = img_width as nat;
    let ghost h = img_height as nat;
    let ghost bs = block_size as nat;
    let ghost fc = w / bs;
    let ghost fr = h / bs;
    let ghost pw = w % bs;
    let ghost ph = h % bs;
    proof {
        lemma_fundamental_div_mod(w as int, bs as int);
        lemma_fundamental_div_mod(h as int, bs as int);
    }
    let mut main: Vec<Rect> = Vec::new();
    let mut right: Vec<Rect> = Vec::new();
    let mut bottom: Vec<Rect> = Vec::new();
    let mut row: u32 = 0;
    while row < nb_rows
        invariant
            bs > 0,
            w == fc * bs + pw,
            h == fr * bs + ph,
            pw < bs,
            ph < bs,
            w == img_width,
            h == img_height,
            bs == block_size,
            fc == w / bs,
            fr == h / bs,
            pw == w % bs,
            ph == h % bs,
            nb_rows as nat == ceil_div(h, bs),
            nb_cols as nat == ceil_div(w, bs),
            row <= nb_rows,
            main@.len() == (if row <= fr { row as nat } else { fr }) * fc,
            right@.len() == if pw != 0 { if row <= fr { row as nat } else { fr } } else { 0 },
            bottom@.len() == if row > fr { fc } else { 0 },
            forall|k: int| 0 <= k < main@.len() ==> #[trigger] main@[k] == main_block(bs, fc, k),
            forall|k: int| 0 <= k < right@.len() ==> #[trigger] right@[k] == right_block(w, bs, k),
            forall|k: int|
                0 <= k < bottom@.len() ==> #[trigger] bottom@[k] == bottom_block(h, bs, k),
        decreases nb_rows - row,
    {
        let mut col: u32 = 0;
        proof {
            assert(row <= fr);
            assert(row as nat * bs <= fr * bs) by (nonlinear_arith)
                requires row <= fr;
            assert(row < fr ==> (row + 1) * bs <= fr * bs) by (nonlinear_arith)
                requires row < fr ==> row + 1 <= fr;
        }
        while col < nb_cols
            invariant
                bs > 0,
                w == fc * bs + pw,
                h == fr * bs + ph,
                pw < bs,
                ph < bs,
                w == img_width,
                h == img_height,
                bs == block_size,
                fc == w / bs,
                fr == h / bs,
                pw == w % bs,
                ph == h % bs,
                nb_rows as nat == ceil_div(h, bs),
                nb_cols as nat == ceil_div(w, bs),
                row < nb_rows,
                row <= fr,
                row as nat * bs <= fr * bs,
                row < fr ==> (row + 1) * bs <= fr * bs,
                col <= nb_cols,
                main@.len() == if row < fr {
                    (row * fc + if col <= fc { col as nat } else { fc }) as nat
                } else {
                    fr * fc
                },
                right@.len() == if pw != 0 {
                    if row < fr {
                        (row + if col > fc { 1nat } else { 0nat }) as nat
                    } else {
                        fr
                    }
                } else {
                    0
                },
                bottom@.len() == if row == fr { if col <= fc { col as nat } else { fc } } else { 0 },
                forall|k: int| 0 <= k < main@.len() ==> #[trigger] main@[k] == main_block(bs, fc, k),
                forall|k: int|
                    0 <= k < right@.len() ==> #[trigger] right@[k] == right_block(w, bs, k),
                forall|k: int|
                    0 <= k < bottom@.len() ==> #[trigger] bottom@[k] == bottom_block(h, bs, k),
            decreases nb_cols - col,
        {
            proof {
                assert(col <= fc);
                assert(col as nat * bs <= fc * bs) by (nonlinear_arith)
                    requires col <= fc;
                assert(col < fc ==> (col + 1) * bs <= fc * bs) by (nonlinear_arith)
                    requires col < fc ==> col + 1 <= fc;
                assert((col + 1) * bs == col * bs + bs) by (nonlinear_arith);
                assert((row + 1) * bs == row * bs + bs) by (nonlinear_arith);
                assert(col < fc <==> img_width - col * bs >= bs);
                assert(row < fr <==> img_height - row * bs >= bs);
            }
            let x: u32 = col * block_size;
            let y: u32 = row * block_size;
            let width: u32 = if img_width - x < block_size { img_width - x } else { block_size };
            let height: u32 = if img_height - y < block_size { img_height - y } else { block_size };
            let block = Rect { x, y, width, height };
            if width == block_size && height == block_size {
                proof {
                    assert(col < fc && row < fr);
                    let k = row * fc + col;
                    lemma_fundamental_div_mod_converse(k, fc as int, row as int, col as int);
                    assert(block == main_block(bs, fc, k));
                }
                main.push(block);
            } else if height == block_size {
                proof {
                    assert(col == fc && row < fr && pw != 0);
                    assert(block == right_block(w, bs, row as int));
                }
                right.push(block);
            } else if width == block_size {
                proof {
                    assert(col < fc && row == fr);
                    assert(block == bottom_block(h, bs, col as int));
                }
                bottom.push(block);
            }
            col = col + 1;
        }
        proof {
            assert(row < fr ==> (row + 1) * fc == row * fc + fc) by (nonlinear_arith);
        }
        row = row + 1;
    }
    (main, right, bottom)
}

/// The square blocks of a canvas, row by row.
pub open spec fn main_blocks(w: nat, h: nat, bs: nat) -> Seq<Rect> {
    Seq::new((h / bs) * (w / bs), |k: int| main_block(bs, w / bs, k))
}

/// The narrow blocks of the last column, top to bottom.
pub open spec fn right_blocks(w: nat, h: nat, bs: nat) -> Seq<Rect> {
    Seq::new(if w % bs != 0 { h / bs } else { 0 }, |k: int| right_block(w, bs, k))
}

/// The short blocks of the last row, left to right.
pub open spec fn bottom_blocks(w: nat, h: nat, bs: nat) -> Seq<Rect> {
    Seq::new(if h % bs != 0 { w / bs } else { 0 }, |k: int| bottom_block(h, bs, k))
}

/// The number of block columns of the main region (and of the bottom edge):
/// all columns but the narrow last one, where there is a right edge.
pub open spec fn main_cols(w: nat, h: nat, bs: nat) -> nat {
    (ceil_div(w, bs) - if right_blocks(w, h, bs).len() > 0 { 1int } else { 0int }) as nat
}

/// For each destination block `i` of a region of `n` blocks, the index of the
/// block whose content it receives.
pub open spec fn moved_indices(n: nat, seed: Seq<u8>, mode: Mode) -> Seq<usize> {
    match mode {
        Mode::Scramble => shuffled(index_range(n), seed),
        Mode::Unscramble => unshuffled(index_range(n), seed),
    }
}

/// The (source, destination) pairs that rearrange a region of `blocks`.
pub open spec fn region_moves(blocks: Seq<Rect>, seed: Seq<u8>, mode: Mode) -> Seq<(Rect, Rect)> {
    Seq::new(
        blocks.len(),
        |i: int| (blocks[moved_indices(blocks.len(), seed, mode)[i] as int], blocks[i]),
    )
}

/// The contents of a region's blocks after its moves are applied to `c`
/// (the content of block `k` at `c[k]`): block `i` receives the content of
/// the source block of move `i`.
pub open spec fn moved_contents<V>(c: Seq<V>, seed: Seq<u8>, mode: Mode) -> Seq<V> {
    Seq::new(c.len(), |i: int| c[moved_indices(c.len(), seed, mode)[i] as int])
}

/// The moved indices of a region are indices of its blocks.
pub proof fn lemma_moved_indices_in_range(n: nat, seed: Seq<u8>, mode: Mode)
    requires
        n <= usize::MAX,
    ensures
        moved_indices(n, seed, mode).len() == n,
        forall|i: int| 0 <= i < n ==> #[trigger] moved_indices(n, seed, mode)[i] < n,
{
    lemma_permutation_is_bijection(seed, n);
    let p = permutation(seed, n);
    assert forall|i: int| 0 <= i < n implies #[trigger] moved_indices(n, seed, mode)[i] < n by {
        if mode == Mode::Unscramble {
            assert(p.contains(i as usize));
            let k = position(p, i);
            assert(0 <= k < n);
        }
    }
}

/// Applying a region's unscramble moves after its scramble moves, with the
/// same seed, gives every block its first content back.
pub proof fn lemma_round_trip<V>(c: Seq<V>, seed: Seq<u8>)
    requires
        c.len() <= usize::MAX,
    ensures
        moved_contents(moved_contents(c, seed, Mode::Scramble), seed, Mode::Unscramble) == c,
{
    let n = c.len();
    lemma_moved_indices_in_range(n, seed, Mode::Unscramble);
    lemma_permutation_is_bijection(seed, n);
    let p = permutation(seed, n);
    let ids = index_range(n);
    assert(moved_contents(c, seed, Mode::Scramble) =~= shuffled(c, seed));
    let s = shuffled(c, seed);
    assert forall|j: int| 0 <= j < n implies moved_contents(s, seed, Mode::Unscramble)[j]
        == unshuffled(s, seed)[j] by {
        assert(p.contains(j as usize));
        let k = position(p, j);
        assert(0 <= k < n);
        assert(ids[k] == k);
    }
    assert(moved_contents(s, seed, Mode::Unscramble) =~= unshuffled(s, seed));
    lemma_unshuffle_shuffle(c, seed);
}

/// Whether `blocks` all have the shape of the first and lie in a grid
/// `cols` to a row from it: block `k` at row `k / cols`, column `k % cols`.
pub open spec fn in_grid(blocks: Seq<Rect>, cols: nat) -> bool {
    &&& blocks[0].width > 0
    &&& blocks[0].height > 0
    &&& forall|k: int|
        0 <= k < blocks.len() ==> {
            &&& #[trigger] blocks[k].width == blocks[0].width
            &&& blocks[k].height == blocks[0].height
            &&& blocks[k].x == blocks[0].x + (k % cols as int) * blocks[0].width
            &&& blocks[k].y == blocks[0].y + (k / cols as int) * blocks[0].height
        }
}

/// The main region lies in a grid, as many columns as it has full columns.
proof fn lemma_main_in_grid(w: nat, h: nat, bs: nat)
    requires
        0 < bs,
        w <= u32::MAX,
        h <= u32::MAX,
        main_blocks(w, h, bs).len() > 0,
    ensures
        in_grid(main_blocks(w, h, bs), w / bs),
{
    let (fc, fr) = (w / bs, h / bs);
    let blocks = main_blocks(w, h, bs);
    lemma_fundamental_div_mod(w as int, bs as int);
    lemma_fundamental_div_mod(h as int, bs as int);
    assert(fr * fc > 0 ==> fr > 0 && fc > 0) by (nonlinear_arith);
    assert(bs <= fc * bs && bs <= fr * bs) by (nonlinear_arith)
        requires fc >= 1, fr >= 1;
    assert(fc * bs <= w && fr * bs <= h);
    assert(bs <= w);
    assert(blocks[0] == main_block(bs, fc, 0));
    lemma_fundamental_div_mod_converse(0, fc as int, 0, 0);
    assert((0int % fc as int) * bs == 0 && (0int / fc as int) * bs == 0) by (nonlinear_arith)
        requires 0int % fc as int == 0, 0int / fc as int == 0;
    assert(blocks[0].x == 0);
    assert(blocks[0].y == 0);
    assert(blocks[0].width == bs);
    assert(blocks[0].height == bs);
    assert forall|k: int| 0 <= k < blocks.len() implies {
        &&& #[trigger] blocks[k].width == blocks[0].width
        &&& blocks[k].height == blocks[0].height
        &&& blocks[k].x == blocks[0].x + (k % fc as int) * blocks[0].width
        &&& blocks[k].y == blocks[0].y + (k / fc as int) * blocks[0].height
    } by {
        lemma_fundamental_div_mod(k, fc as int);
        let (r, c) = (k / fc as int, k % fc as int);
        assert(0 <= c < fc);
        assert(r < fr) by (nonlinear_arith)
            requires k == r * fc + c, 0 <= c, k < fr * fc, fc > 0;
        assert(0 <= r);
        assert(c * bs < fc * bs) by (nonlinear_arith)
            requires c < fc, bs > 0;
        assert(r * bs < fr * bs) by (nonlinear_arith)
            requires r < fr, bs > 0;
        assert(c * bs >= 0 && r * bs >= 0) by (nonlinear_arith)
            requires c >= 0, r >= 0, bs > 0;
        assert(blocks[k] == main_block(bs, fc, k));
        assert(blocks[k].x == c * bs && blocks[k].y == r * bs);
    }
}

/// The right edge lies in a single column.
proof fn lemma_right_in_grid(w: nat, h: nat, bs: nat)
    requires
        0 < bs,
        w <= u32::MAX,
        h <= u32::MAX,
        right_blocks(w, h, bs).len() > 0,
    ensures
        in_grid(right_blocks(w, h, bs), 1),
{
    let (fc, fr) = (w / bs, h / bs);
    let blocks = right_blocks(w, h, bs);
    lemma_fundamental_div_mod(w as int, bs as int);
    lemma_fundamental_div_mod(h as int, bs as int);
    assert(bs <= fr * bs && fc * bs <= w) by (nonlinear_arith)
        requires fr >= 1, w == fc * bs + w % bs, w % bs >= 0;
    assert(blocks[0].y == 0 && blocks[0].height == bs);
    assert(w % bs != 0 && w % bs < bs);
    assert(blocks[0].width == w % bs);
    assert(blocks[0].width > 0 && blocks[0].height > 0);
    assert forall|k: int| 0 <= k < blocks.len() implies {
        &&& #[trigger] blocks[k].width == blocks[0].width
        &&& blocks[k].height == blocks[0].height
        &&& blocks[k].x == blocks[0].x + (k % 1) * blocks[0].width
        &&& blocks[k].y == blocks[0].y + (k / 1) * blocks[0].height
    } by {
        assert(k * bs < fr * bs) by (nonlinear_arith)
            requires k < fr, bs > 0;
        assert(k * bs >= 0) by (nonlinear_arith)
            requires k >= 0, bs > 0;
        lemma_fundamental_div_mod_converse(k, 1, k, 0);
        assert(blocks[k] == right_block(w, bs, k));
    }
}

/// The bottom edge lies in a single row of at most `cols` blocks.
proof fn lemma_bottom_in_grid(w: nat, h: nat, bs: nat, cols: nat)
    requires
        0 < bs,
        w <= u32::MAX,
        h <= u32::MAX,
        bottom_blocks(w, h, bs).len() > 0,
        w / bs <= cols,
    ensures
        in_grid(bottom_blocks(w, h, bs), cols),
{
    let (fc, fr) = (w / bs, h / bs);
    let blocks = bottom_blocks(w, h, bs);
    lemma_fundamental_div_mod(w as int, bs as int);
    lemma_fundamental_div_mod(h as int, bs as int);
    assert(bs <= fc * bs && fr * bs <= h) by (nonlinear_arith)
        requires fc >= 1, h == fr * bs + h % bs, h % bs >= 0;
    assert(blocks[0].x == 0 && blocks[0].width == bs);
    assert forall|k: int| 0 <= k < blocks.len() implies {
        &&& #[trigger] blocks[k].width == blocks[0].width
        &&& blocks[k].height == blocks[0].height
        &&& blocks[k].x == blocks[0].x + (k % cols as int) * blocks[0].width
        &&& blocks[k].y == blocks[0].y + (k / cols as int) * blocks[0].height
    } by {
        lemma_fundamental_div_mod_converse(k, cols as int, 0, k);
        assert(k * bs < fc * bs) by (nonlinear_arith)
            requires k < fc, bs > 0;
        assert(k * bs >= 0) by (nonlinear_arith)
            requires k >= 0, bs > 0;
        assert(blocks[k] == bottom_block(h, bs, k));
    }
}

/// A region of blocks of one shape, laid out `nb_cols` to a row.
pub struct Region {
    /// The blocks, row by row.
    pub blocks: Vec<Rect>,
    /// The number of blocks to a row.
    pub nb_cols: u32,
}

impl Region {
    pub open spec fn wf(&self) -> bool {
        &&& self.blocks@.len() > 0
        &&& self.nb_cols > 0
        &&& in_grid(self.blocks@, self.nb_cols as nat)
    }

    /// A region of `blocks`, `nb_cols` to a row.
    pub fn new(blocks: Vec<Rect>, nb_cols: u32) -> (r: Self)
        requires
            blocks@.len() > 0,
            nb_cols > 0,
            in_grid(blocks@, nb_cols as nat),
        ensures
            r.blocks@ == blocks@,
            r.nb_cols == nb_cols,
    {
        Region { blocks, nb_cols }
    }

    /// The (source, destination) pairs that scramble or unscramble this
    /// region: destination `i` receives the block at the index that the
    /// shuffled (or unshuffled) list of block indices holds at `i`; in the
    /// region's grid that block stands at row `j / nb_cols`, column
    /// `j % nb_cols`.
    pub fn rearrange(&self, seed: &[u8], mode: Mode) -> (r: Vec<(Rect, Rect)>)
        requires
            self.wf(),
            0 < seed@.len(),
        ensures
            r@ == region_moves(self.blocks@, seed@, mode),
    {
        let n = self.blocks.len();
        let indices = index_list(n);
        let moved = match mode {
            Mode::Scramble => shuffle(indices.as_slice(), seed),
            Mode::Unscramble => unshuffle(indices.as_slice(), seed),
        };
        proof {
            lemma_moved_indices_in_range(n as nat, seed@, mode);
            assert(moved@ == moved_indices(n as nat, seed@, mode));
        }
        let start_x = self.blocks[0].x;
        let start_y = self.blocks[0].y;
        let cols = self.nb_cols as usize;
        let mut out: Vec<(Rect, Rect)> = Vec::new();
        let mut i: usize = 0;
        while i < n
            invariant
                n == self.blocks@.len(),
                self.wf(),
                cols == self.nb_cols,
                start_x == self.blocks@[0].x,
                start_y == self.blocks@[0].y,
                moved@ == moved_indices(n as nat, seed@, mode),
                forall|k: int| 0 <= k < n ==> #[trigger] moved@[k] < n,
                i <= n,
                out@.len() == i,
                forall|k: int|
                    0 <= k < i ==> #[trigger] out@[k] == region_moves(self.blocks@, seed@, mode)[k],
            decreases n - i,
        {
            let j = moved[i];
            let block = self.blocks[i];
            let row = j / cols;
            let col = j % cols;
            proof {
                let bs = self.blocks@;
                let bj = bs[j as int];
                assert(in_grid(bs, cols as nat));
                assert(bs[j as int].width == bs[0].width);
                assert(bs[i as int].width == bs[0].width);
                assert(bj.width == block.width && bj.height == block.height);
                assert(col as int * block.width <= bj.x);
                assert(row as int * block.height <= bj.y);
                assert(row <= row * block.height) by (nonlinear_arith)
                    requires block.height > 0;
                assert(col <= col * block.width) by (nonlinear_arith)
                    requires block.width > 0;
            }
            let x = col as u32 * block.width;
            let y = row as u32 * block.height;
            let src = Rect { x: start_x + x, y: start_y + y, width: block.width, height: block.height };
            assert(src == self.blocks@[j as int]);
            out.push((src, block));
            i = i + 1;
        }
        assert(out@ =~= region_moves(self.blocks@, seed@, mode));
        out
    }
}

/// The regions of a canvas: square blocks, the right edge and the bottom
/// edge, each present only where it has a block.
pub struct Regions {
    pub main: Option<Region>,
    pub right: Option<Region>,
    pub bottom: Option<Region>,
}

/// Whether `r` is the region of `blocks`, `cols` to a row, present only where
/// `blocks` is not empty.
pub open spec fn is_region_of(r: Option<Region>, blocks: Seq<Rect>, cols: nat) -> bool {
    match r {
        Some(g) => blocks.len() > 0 && g.blocks@ == blocks && g.nb_cols == cols && g.wf(),
        None => blocks.len() == 0,
    }
}

impl Regions {
    /// Splits a canvas into regions of `block_size` blocks.
    pub fn new(img_width: u32, img_height: u32, block_size: BlockSize) -> (r: Self)
        ensures
            ({
                let (w, h, bs) = (img_width as nat, img_height as nat, block_size.spec_value() as nat);
                &&& is_region_of(r.main, main_blocks(w, h, bs), main_cols(w, h, bs))
                &&& is_region_of(r.right, right_blocks(w, h, bs), 1)
                &&& is_region_of(r.bottom, bottom_blocks(w, h, bs), main_cols(w, h, bs))
            }),
    {
        let block_size = block_size.get();
        let nb_rows = div_ceil(img_height, block_size);
        let nb_cols = div_ceil(img_width, block_size);
        let (main, right, bottom) = get_blocks(img_width, img_height, nb_rows, nb_cols, block_size);
        let ghost (w, h, bs) = (img_width as nat, img_height as nat, block_size as nat);
        proof {
            assert(main@ =~= main_blocks(w, h, bs));
            assert(right@ =~= right_blocks(w, h, bs));
            assert(bottom@ =~= bottom_blocks(w, h, bs));
            let (fr, fc) = (h / bs, w / bs);
            assert(fr * fc > 0 ==> fr > 0 && fc > 0) by (nonlinear_arith);
            if main@.len() > 0 {
                lemma_main_in_grid(w, h, bs);
            }
            if right@.len() > 0 {
                lemma_right_in_grid(w, h, bs);
            }
            if bottom@.len() > 0 {
                lemma_bottom_in_grid(w, h, bs, main_cols(w, h, bs));
            }
        }
        let right_cols: u32 = if right.len() > 0 { 1 } else { 0 };
        let main_cols: u32 = nb_cols - right_cols;
        let bottom_cols = main_cols;
        let main = if main.len() > 0 { Some(Region::new(main, main_cols)) } else { None };
        let right = if right.len() > 0 { Some(Region::new(right, right_cols)) } else { None };
        let bottom = if bottom.len() > 0 { Some(Region::new(bottom, bottom_cols)) } else { None };
        Regions { main, right, bottom }
    }
}

/// The (source, destination) pairs that scramble or unscramble a canvas of
/// `img_width` x `img_height` pixels: the moves of the main region, then of
/// the right edge, then of the bottom edge, each region shuffled with the
/// same seed.
pub fn block_moves(img_width: u32, img_height: u32, block_size: BlockSize, seed: &[u8], mode: Mode) -> (r: Vec<(Rect, Rect)>)
    requires
        0 < seed@.len(),
    ensures
        ({
            let (w, h, bs) = (img_width as nat, img_height as nat, block_size.spec_value() as nat);
            r@ == region_moves(main_blocks(w, h, bs), seed@, mode) + region_moves(
                right_blocks(w, h, bs),
                seed@,
                mode,
            ) + region_moves(bottom_blocks(w, h, bs), seed@, mode)
        }),
{
    let regions = Regions::new(img_width, img_height, block_size);
    let mut out: Vec<(Rect, Rect)> = Vec::new();
    if let Some(region) = &regions.main {
        let mut moves = region.rearrange(seed, mode);
        out.append(&mut moves);
    }
    if let Some(region) = &regions.right {
        let mut moves = region.rearrange(seed, mode);
        out.append(&mut moves);
    }
    if let Some(region) = &regions.bottom {
        let mut moves = region.rearrange(seed, mode);
        out.append(&mut moves);
    }
    proof {
        let (w, h, bs) = (img_width as nat, img_height as nat, block_size.spec_value() as nat);
        assert(region_moves(Seq::<Rect>::empty(), seed@, mode) =~= Seq::empty());
        assert(out@ =~= region_moves(main_blocks(w, h, bs), seed@, mode) + region_moves(
            right_blocks(w, h, bs),
            seed@,
            mode,
        ) + region_moves(bottom_blocks(w, h, bs), seed@, mode));
    }
    out
}

#[verifier::external_type_specification]
#[verifier::external_body]
pub struct ExDynamicImage(DynamicImage);

/// A pixel as `DynamicImage` reads it: red, green, blue, alpha.
pub type Pixel = (u8, u8, u8, u8);

/// A pixel position: column, row.
pub type Point = (u32, u32);

/// The width and height of `img`, in pixels.
pub uninterp spec fn image_dims(img: DynamicImage) -> (u32, u32);

/// The pixels of `img` as `GenericImageView::get_pixel` reads them, at the
/// positions inside its dimensions.
pub uninterp spec fn image_pixels(img: DynamicImage) -> Map<Point, Pixel>;

/// The color type of `img` (`DynamicImage::color`).
pub uninterp spec fn image_color(img: DynamicImage) -> nat;

/// The pixel that reads back from an image of color type `color` where
/// `above` was blended (`Pixel::blend` of `Rgba<u8>`) over `below` and put.
pub uninterp spec fn blended(color: nat, below: Pixel, above: Pixel) -> Pixel;

/// Whether `color` is 8-bit RGB or 8-bit RGBA, where `get_pixel` and
/// `put_pixel` keep an opaque pixel as it is.
pub open spec fn is_rgb8_color(color: nat) -> bool {
    color == 2 || color == 3
}

/// The pixel that overlaying `above` on `below` leaves in an image of color
/// type `color`: `above` itself where it is opaque in an 8-bit RGB(A) image.
pub open spec fn blend_result(color: nat, below: Pixel, above: Pixel) -> Pixel {
    if is_rgb8_color(color) && above.3 == 255 {
        above
    } else {
        blended(color, below, above)
    }
}

/// Whether `p` lies inside an image of dimensions `dims`.
pub open spec fn in_image(dims: (u32, u32), p: Point) -> bool {
    p.0 < dims.0 && p.1 < dims.1
}

/// The corner and size of the rectangle `r` clipped to an image of
/// dimensions `dims`, as `crop_imm` clips it.
pub open spec fn clipped(dims: (u32, u32), r: Rect) -> (nat, nat, nat, nat) {
    let x = if r.x < dims.0 { r.x as nat } else { dims.0 as nat };
    let y = if r.y < dims.1 { r.y as nat } else { dims.1 as nat };
    let w = if r.width as nat <= dims.0 - x { r.width as nat } else { (dims.0 - x) as nat };
    let h = if r.height as nat <= dims.1 - y { r.height as nat } else { (dims.1 - y) as nat };
    (x, y, w, h)
}

/// The pixels `below` of an image of dimensions `dims` and color type
/// `color`, once `above` (offset by (`ax`, `ay`), `w` x `h` pixels) is
/// overlaid at (`x`, `y`): inside the overlap each pixel is blended, the
/// others are kept.
pub open spec fn overlaid(
    below: Map<Point, Pixel>,
    color: nat,
    dims: (u32, u32),
    above: Map<Point, Pixel>,
    ax: nat,
    ay: nat,
    w: nat,
    h: nat,
    x: nat,
    y: nat,
) -> Map<Point, Pixel> {
    Map::new(
        |p: Point| in_image(dims, p),
        |p: Point|
            if x <= p.0 < x + w && y <= p.1 < y + h {
                blend_result(
                    color,
                    below[p],
                    above[((ax + p.0 - x) as u32, (ay + p.1 - y) as u32)],
                )
            } else {
                below[p]
            },
    )
}

/// The pixels of a copy of `img` after the first `k` of `moves` have each
/// overlaid the `src` block of `img` at the corner of their `dst` block.
pub open spec fn painted(img: DynamicImage, moves: Seq<(Rect, Rect)>, k: nat) -> Map<Point, Pixel>
    decreases k,
{
    if k == 0 {
        Map::new(|p: Point| in_image(image_dims(img), p), |p: Point| image_pixels(img)[p])
    } else {
        let (src, dst) = moves[k - 1];
        let (sx, sy, w, h) = clipped(image_dims(img), src);
        overlaid(
            painted(img, moves, (k - 1) as nat),
            image_color(img),
            image_dims(img),
            image_pixels(img),
            sx,
            sy,
            w,
            h,
            dst.x as nat,
            dst.y as nat,
        )
    }
}

/// Whether `p` lies inside the rectangle `r`.
pub open spec fn in_rect(r: Rect, p: Point) -> bool {
    r.x <= p.0 < r.x + r.width && r.y <= p.1 < r.y + r.height
}

/// Whether move `m` of a copy of `img` writes the pixel at `p`: inside its
/// destination, over the size of its source clipped to the image.
pub open spec fn covers(img: DynamicImage, m: (Rect, Rect), p: Point) -> bool {
    let (sx, sy, w, h) = clipped(image_dims(img), m.0);
    m.1.x <= p.0 < m.1.x + w && m.1.y <= p.1 < m.1.y + h
}

/// The pixel that move `m` leaves at `p`: `img`'s pixel of its source at the
/// same offset blended over `img`'s pixel at `p`.
pub open spec fn moved_pixel(img: DynamicImage, m: (Rect, Rect), p: Point) -> Pixel {
    let (sx, sy, w, h) = clipped(image_dims(img), m.0);
    blend_result(
        image_color(img),
        image_pixels(img)[p],
        image_pixels(img)[((sx + p.0 - m.1.x) as u32, (sy + p.1 - m.1.y) as u32)],
    )
}

/// Whether the moves have sources as wide and as high as their destinations,
/// and no two destinations share a pixel.
pub open spec fn disjoint_moves(moves: Seq<(Rect, Rect)>) -> bool {
    &&& forall|i: int|
        0 <= i < moves.len() ==> (#[trigger] moves[i]).0.width == moves[i].1.width
            && moves[i].0.height == moves[i].1.height
    &&& forall|i: int, j: int, p: Point|
        0 <= i < j < moves.len() && #[trigger] in_rect(moves[i].1, p) ==> !#[trigger] in_rect(
            moves[j].1,
            p,
        )
}

/// With disjoint destinations, after the first `k` moves a pixel holds what
/// the one move that covers it left there, or its first value.
pub proof fn lemma_painted_pixel(img: DynamicImage, moves: Seq<(Rect, Rect)>, k: nat, p: Point)
    requires
        k <= moves.len(),
        in_image(image_dims(img), p),
        disjoint_moves(moves),
    ensures
        forall|i: int| 0 <= i < k && #[trigger] covers(img, moves[i], p) ==> painted(img, moves, k)[p]
            == moved_pixel(img, moves[i], p),
        (forall|i: int| 0 <= i < k ==> !#[trigger] covers(img, moves[i], p)) ==> painted(
            img,
            moves,
            k,
        )[p] == image_pixels(img)[p],
    decreases k,
{
    if k > 0 {
        lemma_painted_pixel(img, moves, (k - 1) as nat, p);
        let m = moves[k - 1];
        assert(m.0.width == m.1.width && m.0.height == m.1.height);
        if covers(img, m, p) {
            assert(in_rect(m.1, p));
            assert forall|i: int| 0 <= i < k - 1 implies !#[trigger] covers(img, moves[i], p) by {
                if covers(img, moves[i], p) {
                    assert(moves[i].0.width == moves[i].1.width && moves[i].0.height == moves[i].1.height);
                    assert(in_rect(moves[i].1, p));
                }
            }
        } else {
            assert forall|i: int| 0 <= i < k && #[trigger] covers(img, moves[i], p) implies painted(
                img,
                moves,
                k,
            )[p] == moved_pixel(img, moves[i], p) by {
                assert(i != k - 1);
            }
        }
    }
}

/// The blocks of all regions: main, then right edge, then bottom edge.
pub open spec fn all_blocks(w: nat, h: nat, bs: nat) -> Seq<Rect> {
    main_blocks(w, h, bs) + right_blocks(w, h, bs) + bottom_blocks(w, h, bs)
}

/// The index in `all_blocks` of the block that holds `p`, if any does.
pub open spec fn block_slot(w: nat, h: nat, bs: nat, p: Point) -> int {
    let (fc, fr) = ((w / bs) as int, (h / bs) as int);
    let (c, r) = ((p.0 / bs as u32) as int, (p.1 / bs as u32) as int);
    if c < fc && r < fr {
        r * fc + c
    } else if r < fr {
        fr * fc + r
    } else {
        fr * fc + right_blocks(w, h, bs).len() + c
    }
}

/// `v` lies in `[c * bs, c * bs + bs)` only for `c == v / bs`.
proof fn lemma_band(v: int, c: int, bs: int)
    requires
        bs > 0,
        c * bs <= v < c * bs + bs,
    ensures
        c == v / bs,
{
    lemma_fundamental_div_mod_converse(v, bs, c, v - c * bs);
}

/// A pixel inside block `a` of `all_blocks` has slot `a`.
proof fn lemma_block_slot(w: nat, h: nat, bs: nat, a: int, p: Point)
    requires
        0 < bs,
        bs <= u32::MAX,
        w <= u32::MAX,
        h <= u32::MAX,
        0 <= a < all_blocks(w, h, bs).len(),
        in_rect(all_blocks(w, h, bs)[a], p),
    ensures
        a == block_slot(w, h, bs, p),
{
    let (fc, fr) = (w / bs, h / bs);
    let nm = main_blocks(w, h, bs).len();
    let nr = right_blocks(w, h, bs).len();
    let all = all_blocks(w, h, bs);
    lemma_fundamental_div_mod(w as int, bs as int);
    lemma_fundamental_div_mod(h as int, bs as int);
    vstd::arithmetic::div_mod::lemma_mod_pos_bound(w as int, bs as int);
    vstd::arithmetic::div_mod::lemma_mod_pos_bound(h as int, bs as int);
    assert(fc * bs <= w && fr * bs <= h) by (nonlinear_arith)
        requires
            w == bs * fc + w % bs,
            h == bs * fr + h % bs,
            w % bs >= 0,
            h % bs >= 0;
    let b = all[a];
    if a < nm {
        assert(b == main_block(bs, fc, a));
        assert(fc > 0) by (nonlinear_arith)
            requires a < fr * fc, a >= 0;
        lemma_fundamental_div_mod(a, fc as int);
        let (r, c) = (a / fc as int, a % fc as int);
        assert(r < fr) by (nonlinear_arith)
            requires a == fc * r + c, 0 <= c, a < fr * fc, fc > 0;
        assert(0 <= r);
        assert(c * bs + bs <= fc * bs && r * bs + bs <= fr * bs) by (nonlinear_arith)
            requires c < fc, r < fr, 0 <= c, 0 <= r, bs > 0;
        assert(c * bs >= 0 && r * bs >= 0) by (nonlinear_arith)
            requires c >= 0, r >= 0, bs > 0;
        assert(b.x == c * bs && b.y == r * bs && b.width == bs && b.height == bs);
        lemma_band(p.0 as int, c, bs as int);
        lemma_band(p.1 as int, r, bs as int);
        assert(r * fc + c == a) by (nonlinear_arith)
            requires a == fc * r + c;
    } else if a < nm + nr {
        let k = a - nm;
        assert(b == right_block(w, bs, k));
        assert(k * bs + bs <= fr * bs) by (nonlinear_arith)
            requires k < fr, bs > 0;
        assert(k * bs >= 0) by (nonlinear_arith)
            requires k >= 0, bs > 0;
        lemma_band(p.0 as int, fc as int, bs as int);
        lemma_band(p.1 as int, k, bs as int);
    } else {
        let k = a - nm - nr;
        assert(b == bottom_block(h, bs, k));
        assert(k * bs + bs <= fc * bs) by (nonlinear_arith)
            requires k < fc, bs > 0;
        assert(k * bs >= 0) by (nonlinear_arith)
            requires k >= 0, bs > 0;
        lemma_band(p.0 as int, k, bs as int);
        lemma_band(p.1 as int, fr as int, bs as int);
    }
}

/// The moves of a plan keep each block's shape and write each pixel at most
/// once.
pub proof fn lemma_plan_disjoint(img: DynamicImage, block_size: BlockSize, seed: Seq<u8>, mode: Mode)
    requires
        0 < block_size.spec_value(),
        plan(img, block_size, seed, mode).len() <= usize::MAX,
    ensures
        disjoint_moves(plan(img, block_size, seed, mode)),
{
    let (w, h, bs) = (image_dims(img).0 as nat, image_dims(img).1 as nat, block_size.spec_value() as nat);
    let moves = plan(img, block_size, seed, mode);
    let (m, r, b) = (main_blocks(w, h, bs), right_blocks(w, h, bs), bottom_blocks(w, h, bs));
    let all = all_blocks(w, h, bs);
    lemma_moved_indices_in_range(m.len(), seed, mode);
    lemma_moved_indices_in_range(r.len(), seed, mode);
    lemma_moved_indices_in_range(b.len(), seed, mode);
    assert forall|i: int| 0 <= i < moves.len() implies (#[trigger] moves[i]).0.width
        == moves[i].1.width && moves[i].0.height == moves[i].1.height by {
        if i < m.len() {
            assert(moves[i] == region_moves(m, seed, mode)[i]);
        } else if i < m.len() + r.len() {
            assert(moves[i] == region_moves(r, seed, mode)[i - m.len()]);
        } else {
            assert(moves[i] == region_moves(b, seed, mode)[i - m.len() - r.len()]);
        }
    }
    assert forall|i: int| 0 <= i < moves.len() implies (#[trigger] moves[i]).1 == all[i] by {
        if i < m.len() {
            assert(moves[i] == region_moves(m, seed, mode)[i]);
        } else if i < m.len() + r.len() {
            assert(moves[i] == region_moves(r, seed, mode)[i - m.len()]);
        } else {
            assert(moves[i] == region_moves(b, seed, mode)[i - m.len() - r.len()]);
        }
    }
    assert forall|i: int, j: int, p: Point|
        0 <= i < j < moves.len() && #[trigger] in_rect(moves[i].1, p) implies !#[trigger] in_rect(
            moves[j].1,
            p,
        ) by {
        assert(moves[i].1 == all[i] && moves[j].1 == all[j]);
        lemma_block_slot(w, h, bs, i, p);
        if in_rect(moves[j].1, p) {
            lemma_block_slot(w, h, bs, j, p);
        }
    }
}

/// Whether `color` is one of the two float color types (RGB and RGBA of
/// 32-bit floats). `get_pixel` converts their samples to 8 bits and panics on
/// a NaN, so these images are not rearranged.
pub open spec fn is_float_color(color: nat) -> bool {
    color == 8 || color == 9
}

/// Relies on `DynamicImage::color`: the color type of `img`, numbered in the
/// order of `ColorType`'s variants.
#[verifier::external_body]
fn color_code(img: &DynamicImage) -> (r: u8)
    ensures
        r as nat == image_color(*img),
{
    match img.color() {
        ColorType::L8 => 0,
        ColorType::La8 => 1,
        ColorType::Rgb8 => 2,
        ColorType::Rgba8 => 3,
        ColorType::L16 => 4,
        ColorType::La16 => 5,
        ColorType::Rgb16 => 6,
        ColorType::Rgba16 => 7,
        ColorType::Rgb32F => 8,
        ColorType::Rgba32F => 9,
        _ => 10,
    }
}

/// Whether `img` can be scrambled: its color type is not a float one.
pub fn supports_image(img: &DynamicImage) -> (r: bool)
    ensures
        r == !is_float_color(image_color(*img)),
{
    let c = color_code(img);
    c != 8 && c != 9
}

/// Relies on `DynamicImage::width`: the width in pixels.
#[verifier::external_body]
fn image_width(img: &DynamicImage) -> (r: u32)
    ensures
        r == image_dims(*img).0,
{
    img.width()
}

/// Relies on `DynamicImage::height`: the height in pixels.
#[verifier::external_body]
fn image_height(img: &DynamicImage) -> (r: u32)
    ensures
        r == image_dims(*img).1,
{
    img.height()
}

/// Relies on `Clone` of `DynamicImage`: a copy of the image, of the same
/// dimensions, color type and pixels.
#[verifier::external_body]
fn copy_image(img: &DynamicImage) -> (r: DynamicImage)
    ensures
        image_dims(r) == image_dims(*img),
        image_color(r) == image_color(*img),
        forall|p: Point| in_image(image_dims(*img), p) ==> #[trigger] image_pixels(r)[p]
            == image_pixels(*img)[p],
{
    img.clone()
}

/// Relies on `DynamicImage::crop_imm`: a copy, of the same color type, of
/// the rectangle `r` of `img` clipped to the image.
#[verifier::external_body]
fn crop(img: &DynamicImage, r: Rect) -> (c: DynamicImage)
    ensures
        image_color(c) == image_color(*img),
        image_dims(c).0 == clipped(image_dims(*img), r).2,
        image_dims(c).1 == clipped(image_dims(*img), r).3,
        forall|p: Point|
            p.0 < clipped(image_dims(*img), r).2 && p.1 < clipped(image_dims(*img), r).3
                ==> #[trigger] image_pixels(c)[p] == image_pixels(*img)[(
                (clipped(image_dims(*img), r).0 + p.0) as u32,
                (clipped(image_dims(*img), r).1 + p.1) as u32,
            )],
{
    img.crop_imm(r.x, r.y, r.width, r.height)
}

/// Relies on `image::imageops::overlay`: blends `top` onto `bottom` with its
/// top-left corner at (`x`, `y`), clipped to `bottom`; each pixel of the
/// overlap is read, blended with `top`'s and put back. `Rgba<u8>`'s blend
/// takes an opaque top pixel as it is, and 8-bit RGB(A) images store and read
/// it back unchanged.
#[verifier::external_body]
fn overlay(bottom: &mut DynamicImage, top: &DynamicImage, x: u32, y: u32)
    requires
        !is_float_color(image_color(*old(bottom))),
        !is_float_color(image_color(*top)),
    ensures
        image_dims(*final(bottom)) == image_dims(*old(bottom)),
        image_color(*final(bottom)) == image_color(*old(bottom)),
        forall|p: Point|
            in_image(image_dims(*old(bottom)), p) ==> #[trigger] image_pixels(*final(bottom))[p]
                == if x <= p.0 < x + image_dims(*top).0 && y <= p.1 < y + image_dims(*top).1 {
                if is_rgb8_color(image_color(*old(bottom)))
                    && image_pixels(*top)[((p.0 - x) as u32, (p.1 - y) as u32)].3 == 255 {
                    image_pixels(*top)[((p.0 - x) as u32, (p.1 - y) as u32)]
                } else {
                    blended(
                        image_color(*old(bottom)),
                        image_pixels(*old(bottom))[p],
                        image_pixels(*top)[((p.0 - x) as u32, (p.1 - y) as u32)],
                    )
                }
            } else {
                image_pixels(*old(bottom))[p]
            },
{
    image::imageops::overlay(bottom, top, i64::from(x), i64::from(y))
}

/// Copies the `src` block of `src_img` onto the `dst` block of `dst_img`:
/// the block, clipped to `src_img`, is blended in at the corner of `dst`.
fn copy_paste(src_img: &DynamicImage, dst_img: &mut DynamicImage, src: Rect, dst: Rect)
    requires
        image_dims(*old(dst_img)) == image_dims(*src_img),
        !is_float_color(image_color(*src_img)),
        !is_float_color(image_color(*old(dst_img))),
    ensures
        image_dims(*final(dst_img)) == image_dims(*old(dst_img)),
        image_color(*final(dst_img)) == image_color(*old(dst_img)),
        ({
            let (sx, sy, w, h) = clipped(image_dims(*src_img), src);
            forall|p: Point|
                in_image(image_dims(*src_img), p) ==> #[trigger] image_pixels(*final(dst_img))[p]
                    == overlaid(
                    image_pixels(*old(dst_img)),
                    image_color(*old(dst_img)),
                    image_dims(*src_img),
                    image_pixels(*src_img),
                    sx,
                    sy,
                    w,
                    h,
                    dst.x as nat,
                    dst.y as nat,
                )[p]
        }),
{
    let block = crop(src_img, src);
    overlay(dst_img, &block, dst.x, dst.y);
    proof {
        let (sx, sy, w, h) = clipped(image_dims(*src_img), src);
        assert forall|p: Point| in_image(image_dims(*src_img), p) && dst.x <= p.0 < dst.x + w
            && dst.y <= p.1 < dst.y + h implies #[trigger] image_pixels(block)[(
            (p.0 - dst.x) as u32,
            (p.1 - dst.y) as u32,
        )] == image_pixels(*src_img)[((sx + p.0 - dst.x) as u32, (sy + p.1 - dst.y) as u32)] by {
            let q: Point = ((p.0 - dst.x) as u32, (p.1 - dst.y) as u32);
            assert(q.0 < w && q.1 < h);
            assert(image_pixels(block)[q] == image_pixels(*src_img)[(
                (sx + q.0) as u32,
                (sy + q.1) as u32,
            )]);
        }
    }
}

/// A copy of `img` onto which every move of `block_moves`, in order, has
/// blended its source block of `img` at its destination block.
fn rearrange(img: &DynamicImage, block_size: BlockSize, seed: &[u8], mode: Mode) -> (r: DynamicImage)
    requires
        0 < seed@.len(),
        !is_float_color(image_color(*img)),
    ensures
        image_dims(r) == image_dims(*img),
        image_color(r) == image_color(*img),
        forall|p: Point| in_image(image_dims(*img), p) ==> #[trigger] image_pixels(r)[p]
            == painted(*img, plan(*img, block_size, seed@, mode), plan(*img, block_size, seed@, mode).len())[p],
        forall|k: int, p: Point|
            0 <= k < plan(*img, block_size, seed@, mode).len() && in_image(image_dims(*img), p) && #[trigger] covers(
                *img,
                plan(*img, block_size, seed@, mode)[k],
                p,
            ) ==> image_pixels(r)[p] == moved_pixel(*img, plan(*img, block_size, seed@, mode)[k], p),
        forall|p: Point|
            in_image(image_dims(*img), p) && (forall|k: int|
                0 <= k < plan(*img, block_size, seed@, mode).len() ==> !#[trigger] covers(*img, plan(*img, block_size, seed@, mode)[k], p))
                ==> #[trigger] image_pixels(r)[p] == image_pixels(*img)[p],
{
    let mut canvas = copy_image(img);
    let moves = block_moves(image_width(img), image_height(img), block_size, seed, mode);
    let ghost all = moves@;
    assert(all == plan(*img, block_size, seed@, mode));
    let mut i: usize = 0;
    while i < moves.len()
        invariant
            i <= moves@.len(),
            all == moves@,
            image_dims(canvas) == image_dims(*img),
            image_color(canvas) == image_color(*img),
            !is_float_color(image_color(*img)),
            forall|p: Point| in_image(image_dims(*img), p) ==> #[trigger] image_pixels(canvas)[p]
                == painted(*img, all, i as nat)[p],
        decreases moves@.len() - i,
    {
        let (src, dst) = moves[i];
        let ghost before = canvas;
        copy_paste(img, &mut canvas, src, dst);
        proof {
            let (sx, sy, w, h) = clipped(image_dims(*img), src);
            let prev = painted(*img, all, i as nat);
            assert forall|p: Point| in_image(image_dims(*img), p) implies #[trigger] image_pixels(canvas)[p]
                == painted(*img, all, (i + 1) as nat)[p] by {
                assert(all[i as int] == (src, dst));
                assert(image_pixels(before)[p] == prev[p]);
            }
        }
        i = i + 1;
    }
    proof {
        use_type_invariant(block_size);
        lemma_plan_disjoint(*img, block_size, seed@, mode);
        assert forall|p: Point| in_image(image_dims(*img), p) implies {
            &&& forall|k: int| 0 <= k < all.len() && #[trigger] covers(*img, all[k], p)
                ==> image_pixels(canvas)[p] == moved_pixel(*img, all[k], p)
            &&& (forall|k: int| 0 <= k < all.len() ==> !#[trigger] covers(*img, all[k], p))
                ==> image_pixels(canvas)[p] == image_pixels(*img)[p]
        } by {
            lemma_painted_pixel(*img, all, all.len(), p);
        }
    }
    canvas
}

/// The moves that (un)scramble `img`: `block_moves` over its dimensions.
pub open spec fn plan(img: DynamicImage, block_size: BlockSize, seed: Seq<u8>, mode: Mode) -> Seq<(Rect, Rect)> {
    let (w, h, bs) = (image_dims(img).0 as nat, image_dims(img).1 as nat, block_size.spec_value() as nat);
    region_moves(main_blocks(w, h, bs), seed, mode) + region_moves(right_blocks(w, h, bs), seed, mode)
        + region_moves(bottom_blocks(w, h, bs), seed, mode)
}

/// Splits an image into `block_size` blocks and scrambles them with `seed`:
/// the result holds, at each destination block of the scramble moves, the
/// source block blended over it.
pub fn scramble(img: &DynamicImage, block_size: BlockSize, seed: &[u8]) -> (r: DynamicImage)
    requires
        0 < seed@.len(),
        !is_float_color(image_color(*img)),
    ensures
        image_dims(r) == image_dims(*img),
        image_color(r) == image_color(*img),
        forall|p: Point| in_image(image_dims(*img), p) ==> #[trigger] image_pixels(r)[p]
            == painted(*img, plan(*img, block_size, seed@, Mode::Scramble), plan(*img, block_size, seed@, Mode::Scramble).len())[p],
        forall|k: int, p: Point|
            0 <= k < plan(*img, block_size, seed@, Mode::Scramble).len() && in_image(image_dims(*img), p) && #[trigger] covers(
                *img,
                plan(*img, block_size, seed@, Mode::Scramble)[k],
                p,
            ) ==> image_pixels(r)[p] == moved_pixel(*img, plan(*img, block_size, seed@, Mode::Scramble)[k], p),
        forall|p: Point|
            in_image(image_dims(*img), p) && (forall|k: int|
                0 <= k < plan(*img, block_size, seed@, Mode::Scramble).len() ==> !#[trigger] covers(*img, plan(*img, block_size, seed@, Mode::Scramble)[k], p))
                ==> #[trigger] image_pixels(r)[p] == image_pixels(*img)[p],
{
    rearrange(img, block_size, seed, Mode::Scramble)
}

/// Restores an image split into `block_size` blocks and scrambled with
/// `seed`, by the unscramble moves.
pub fn unscramble(img: &DynamicImage, block_size: BlockSize, seed: &[u8]) -> (r: DynamicImage)
    requires
        0 < seed@.len(),
        !is_float_color(image_color(*img)),
    ensures
        image_dims(r) == image_dims(*img),
        image_color(r) == image_color(*img),
        forall|p: Point| in_image(image_dims(*img), p) ==> #[trigger] image_pixels(r)[p]
            == painted(*img, plan(*img, block_size, seed@, Mode::Unscramble), plan(*img, block_size, seed@, Mode::Unscramble).len())[p],
        forall|k: int, p: Point|
            0 <= k < plan(*img, block_size, seed@, Mode::Unscramble).len() && in_image(image_dims(*img), p) && #[trigger] covers(
                *img,
                plan(*img, block_size, seed@, Mode::Unscramble)[k],
                p,
            ) ==> image_pixels(r)[p] == moved_pixel(*img, plan(*img, block_size, seed@, Mode::Unscramble)[k], p),
        forall|p: Point|
            in_image(image_dims(*img), p) && (forall|k: int|
                0 <= k < plan(*img, block_size, seed@, Mode::Unscramble).len() ==> !#[trigger] covers(*img, plan(*img, block_size, seed@, Mode::Unscramble)[k], p))
                ==> #[trigger] image_pixels(r)[p] == image_pixels(*img)[p],
{
    rearrange(img, block_size, seed, Mode::Unscramble)
}

} // verus!
