//! Latents and their packed form, and where an image-to-image run starts.
use super::request::Image;
use crate::binary32::{
    counts_keep_their_order, is_nearest_quotient, one_keeps_counts, product, product_is_monotone,
    product_of_small_count, scale_count, truncated_product, truncation_rounds_down, unit, Binary32,
    EXACT_LIMIT,
};
use crate::text::{decimal, digits};
use vstd::arithmetic::div_mod::{lemma_fundamental_div_mod, lemma_fundamental_div_mod_converse};
use vstd::prelude::*;
use vstd::string::{StrSliceExecFns, StringExecFns};

verus! {

/// Channels of a latent.
pub const LATENT_CHANNELS: u32 = 16;

/// Image pixels per latent pixel and side.
pub const SPATIAL_SCALE: u32 = 8;

/// Latent pixels per patch and side.
pub const PATCH: u32 = 2;

/// Image pixels per patch and side.
pub const PATCH_PIXELS: u32 = 16;

/// Values per token: the channels of the four latent pixels of a patch.
pub const FEATURES: usize = 64;

/// The bit pattern of one.
pub const ONE: u32 = 0x3f80_0000;

/// Patches per column and per row of an image.
pub open spec fn patch_grid(width: u32, height: u32) -> (int, int) {
    (height as int / 16, width as int / 16)
}

/// Values in the latent of an image with this patch grid.
pub open spec fn latent_volume(lh: int, lw: int) -> int {
    64 * (lh * lw)
}

/// The shape of the noise for an image: one sequence of packed tokens.
pub fn noise_shape(width: u32, height: u32) -> (r: [i32; 3])
    requires
        patch_grid(width, height).0 * patch_grid(width, height).1 <= i32::MAX,
    ensures
        r@ == seq![
            1i32,
            (patch_grid(width, height).0 * patch_grid(width, height).1) as i32,
            64i32,
        ],
{
    let lh: u32 = height / PATCH_PIXELS;
    let lw: u32 = width / PATCH_PIXELS;
    let seq: i32 = (lh * lw) as i32;
    let r: [i32; 3] = [1, seq, 64];
    assert(r@ =~= seq![
        1i32,
        (patch_grid(width, height).0 * patch_grid(width, height).1) as i32,
        64i32,
    ]);
    r
}

/// The shape of the latent of an image: channels, rows and columns.
pub fn latent_shape(width: u32, height: u32) -> (r: [i32; 4])
    ensures
        r@ == seq![
            1i32,
            16i32,
            (2 * patch_grid(width, height).0) as i32,
            (2 * patch_grid(width, height).1) as i32,
        ],
{
    let lh: u32 = height / PATCH_PIXELS;
    let lw: u32 = width / PATCH_PIXELS;
    let r: [i32; 4] = [1, 16, (lh * PATCH) as i32, (lw * PATCH) as i32];
    assert(r@ =~= seq![
        1i32,
        16i32,
        (2 * patch_grid(width, height).0) as i32,
        (2 * patch_grid(width, height).1) as i32,
    ]);
    r
}

/// Where channel `c` of latent pixel `(y, x)` stands in the latent: plane by plane.
pub open spec fn plane_index(lh: int, lw: int, c: int, y: int, x: int) -> int {
    (c * (2 * lh) + y) * (2 * lw) + x
}

/// Where channel `c` of latent pixel `(y, x)` stands among the tokens: patch by patch, in each
/// patch channel by channel.
pub open spec fn token_index(lw: int, c: int, y: int, x: int) -> int {
    ((y / 2) * lw + x / 2) * 64 + c * 4 + (y % 2) * 2 + x % 2
}

/// The channel and latent pixel at a place of the latent.
pub open spec fn plane_place(lh: int, lw: int, i: int) -> (int, int, int) {
    (i / (2 * lw) / (2 * lh), i / (2 * lw) % (2 * lh), i % (2 * lw))
}

/// The channel and latent pixel at a place among the tokens.
pub open spec fn token_place(lw: int, i: int) -> (int, int, int) {
    (
        i % 64 / 4,
        2 * (i / 64 / lw) + i % 64 % 4 / 2,
        2 * (i / 64 % lw) + i % 64 % 2,
    )
}

/// The place belongs to the latent.
pub open spec fn in_latent(lh: int, lw: int, place: (int, int, int)) -> bool {
    0 <= place.0 < 16 && 0 <= place.1 < 2 * lh && 0 <= place.2 < 2 * lw
}

/// The latent of packed tokens.
pub open spec fn unpacked<T>(tokens: Seq<T>, lh: int, lw: int) -> Seq<T> {
    Seq::new(
        latent_volume(lh, lw) as nat,
        |i: int|
            {
                let (c, y, x) = plane_place(lh, lw, i);
                tokens[token_index(lw, c, y, x)]
            },
    )
}

/// The packed tokens of a latent.
pub open spec fn packed<T>(latent: Seq<T>, lh: int, lw: int) -> Seq<T> {
    Seq::new(
        latent_volume(lh, lw) as nat,
        |i: int|
            {
                let (c, y, x) = token_place(lw, i);
                latent[plane_index(lh, lw, c, y, x)]
            },
    )
}

/// Every place of the latent has its index, and every index its place.
proof fn plane_index_of_place(lh: int, lw: int, i: int)
    requires
        0 < lh,
        0 < lw,
        0 <= i < latent_volume(lh, lw),
    ensures
        ({
            let (c, y, x) = plane_place(lh, lw, i);
            in_latent(lh, lw, (c, y, x)) && plane_index(lh, lw, c, y, x) == i
        }),
{
    let (h, w) = (2 * lh, 2 * lw);
    let (c, y, x) = plane_place(lh, lw, i);
    lemma_fundamental_div_mod(i, w);
    lemma_fundamental_div_mod(i / w, h);
    assert(w * (i / w) == (i / w) * w && h * (i / w / h) == (i / w / h) * h) by (nonlinear_arith);
    assert(16 * (h * w) == latent_volume(lh, lw)) by (nonlinear_arith)
        requires
            h == 2 * lh,
            w == 2 * lw,
    ;
    assert(0 <= i / w && 0 <= c && c < 16) by (nonlinear_arith)
        requires
            0 <= i < 16 * (h * w),
            i == w * (i / w) + x,
            0 <= x < w,
            i / w == h * c + y,
            0 <= y < h,
            h > 0,
            w > 0,
    ;
}

proof fn place_of_plane_index(lh: int, lw: int, c: int, y: int, x: int)
    requires
        0 < lh,
        0 < lw,
        in_latent(lh, lw, (c, y, x)),
    ensures
        0 <= plane_index(lh, lw, c, y, x) < latent_volume(lh, lw),
        plane_place(lh, lw, plane_index(lh, lw, c, y, x)) == (c, y, x),
{
    let (h, w) = (2 * lh, 2 * lw);
    let i = plane_index(lh, lw, c, y, x);
    lemma_fundamental_div_mod_converse(i, w, c * h + y, x);
    lemma_fundamental_div_mod_converse(c * h + y, h, c, y);
    assert(0 <= i < 16 * (h * w)) by (nonlinear_arith)
        requires
            i == (c * h + y) * w + x,
            0 <= c < 16,
            0 <= y < h,
            0 <= x < w,
    ;
    assert(16 * (h * w) == latent_volume(lh, lw)) by (nonlinear_arith)
        requires
            h == 2 * lh,
            w == 2 * lw,
    ;
}

/// Every place of the latent has its token, and every value of a token its place.
proof fn token_index_of_place(lh: int, lw: int, i: int)
    requires
        0 < lw,
        0 <= i < latent_volume(lh, lw),
    ensures
        ({
            let (c, y, x) = token_place(lw, i);
            in_latent(lh, lw, (c, y, x)) && token_index(lw, c, y, x) == i
        }),
{
    let (c, y, x) = token_place(lw, i);
    let t = i / 64;
    lemma_fundamental_div_mod(t, lw);
    assert(0 <= t / lw && t / lw < lh) by (nonlinear_arith)
        requires
            0 <= t < lh * lw,
            t == lw * (t / lw) + t % lw,
            0 <= t % lw < lw,
    ;
    assert(y / 2 == t / lw && x / 2 == t % lw);
    assert((t / lw) * lw == lw * (t / lw)) by (nonlinear_arith);
    assert((y / 2) * lw + x / 2 == t);
}

proof fn place_of_token_index(lh: int, lw: int, c: int, y: int, x: int)
    requires
        0 < lh,
        0 < lw,
        in_latent(lh, lw, (c, y, x)),
    ensures
        0 <= token_index(lw, c, y, x) < latent_volume(lh, lw),
        token_place(lw, token_index(lw, c, y, x)) == (c, y, x),
{
    let t = (y / 2) * lw + x / 2;
    let i = token_index(lw, c, y, x);
    assert(0 <= t < lh * lw) by (nonlinear_arith)
        requires
            t == (y / 2) * lw + x / 2,
            0 <= y / 2 < lh,
            0 <= x / 2 < lw,
    ;
    assert(i / 64 == t && i % 64 == c * 4 + (y % 2) * 2 + x % 2);
    lemma_fundamental_div_mod_converse(t, lw, y / 2, x / 2);
}

/// Packing undoes unpacking.
pub proof fn pack_undoes_unpack<T>(tokens: Seq<T>, lh: int, lw: int)
    requires
        0 <= lh,
        0 <= lw,
        tokens.len() == latent_volume(lh, lw),
    ensures
        packed(unpacked(tokens, lh, lw), lh, lw) == tokens,
{
    volume_is_positive(lh, lw);
    assert forall|i: int| 0 <= i < latent_volume(lh, lw) implies packed(
        unpacked(tokens, lh, lw),
        lh,
        lw,
    )[i] == tokens[i] by {
        token_index_of_place(lh, lw, i);
        let (c, y, x) = token_place(lw, i);
        place_of_plane_index(lh, lw, c, y, x);
    }
    assert(packed(unpacked(tokens, lh, lw), lh, lw) =~= tokens);
}

/// Unpacking undoes packing.
pub proof fn unpack_undoes_pack<T>(latent: Seq<T>, lh: int, lw: int)
    requires
        0 <= lh,
        0 <= lw,
        latent.len() == latent_volume(lh, lw),
    ensures
        unpacked(packed(latent, lh, lw), lh, lw) == latent,
{
    volume_is_positive(lh, lw);
    assert forall|i: int| 0 <= i < latent_volume(lh, lw) implies unpacked(
        packed(latent, lh, lw),
        lh,
        lw,
    )[i] == latent[i] by {
        plane_index_of_place(lh, lw, i);
        let (c, y, x) = plane_place(lh, lw, i);
        place_of_token_index(lh, lw, c, y, x);
    }
    assert(unpacked(packed(latent, lh, lw), lh, lw) =~= latent);
}

proof fn volume_is_positive(lh: int, lw: int)
    requires
        0 <= lh,
        0 <= lw,
    ensures
        0 <= latent_volume(lh, lw),
        latent_volume(lh, lw) > 0 ==> lh > 0 && lw > 0,
{
    assert(0 <= lh * lw && (lh * lw > 0 ==> lh > 0 && lw > 0)) by (nonlinear_arith)
        requires
            0 <= lh,
            0 <= lw,
    ;
}

/// Why values cannot be rearranged: their number does not fit the image.
#[derive(Clone, Copy, Debug, PartialEq, Eq, Structural)]
pub struct ShapeError {
    pub len: usize,
    pub expected: u64,
}

/// The number of values that an image of this size has, where it is the number at hand.
fn check_volume(len: usize, width: u32, height: u32) -> (r: Result<(usize, usize), ShapeError>)
    ensures
        ({
            let (lh, lw) = patch_grid(width, height);
            match r {
                Ok((h, w)) => h == lh && w == lw && len == latent_volume(lh, lw),
                Err(e) => {
                    &&& len != latent_volume(lh, lw)
                    &&& e.len == len
                    &&& e.expected == latent_volume(lh, lw)
                },
            }
        }),
{
    let lh: u64 = (height / PATCH_PIXELS) as u64;
    let lw: u64 = (width / PATCH_PIXELS) as u64;
    assert(0 <= lh * lw <= 0x1000_0000 * 0x1000_0000) by (nonlinear_arith)
        requires
            0 <= lh <= 0x1000_0000,
            0 <= lw <= 0x1000_0000,
    ;
    let expected: u64 = 64 * (lh * lw);
    if len as u64 != expected {
        return Err(ShapeError { len, expected });
    }
    Ok(((height / PATCH_PIXELS) as usize, (width / PATCH_PIXELS) as usize))
}

/// Unpack tokens into the latent of an image.
pub fn unpack_latents<T: Copy>(latents: &[T], width: u32, height: u32) -> (r: Result<
    Vec<T>,
    ShapeError,
>)
    ensures
        ({
            let (lh, lw) = patch_grid(width, height);
            match r {
                Ok(v) => {
                    &&& latents@.len() == latent_volume(lh, lw)
                    &&& v@ == unpacked(latents@, lh, lw)
                },
                Err(e) => {
                    &&& latents@.len() != latent_volume(lh, lw)
                    &&& e.len == latents@.len()
                    &&& e.expected == latent_volume(lh, lw)
                },
            }
        }),
{
    let n: usize = latents.len();
    let (lh, lw): (usize, usize) = match check_volume(n, width, height) {
        Ok(p) => p,
        Err(e) => {
            return Err(e);
        },
    };
    let mut r: Vec<T> = Vec::new();
    let mut i: usize = 0;
    let ghost goal = unpacked(latents@, lh as int, lw as int);
    while i < n
        invariant
            i <= n == latents@.len(),
            n == latent_volume(lh as int, lw as int),
            lh <= 0x1000_0000,
            lw <= 0x1000_0000,
            goal == unpacked(latents@, lh as int, lw as int),
            r@ == goal.take(i as int),
        decreases n - i,
    {
        proof {
            volume_is_positive(lh as int, lw as int);
            plane_index_of_place(lh as int, lw as int, i as int);
            let (c, y, x) = plane_place(lh as int, lw as int, i as int);
            place_of_token_index(lh as int, lw as int, c, y, x);
        }
        let row: usize = i / (2 * lw);
        let x: usize = i % (2 * lw);
        let y: usize = row % (2 * lh);
        let c: usize = row / (2 * lh);
        proof {
            let ghost_t = (y as int / 2) * lw + x as int / 2;
            assert(0 <= (y as int / 2) * lw) by (nonlinear_arith)
                requires
                    y >= 0,
                    lw >= 0,
            ;
            assert(token_index(lw as int, c as int, y as int, x as int) < n);
            assert(ghost_t * 64 <= token_index(lw as int, c as int, y as int, x as int));
        }
        let t: usize = (y / 2) * lw + x / 2;
        let k: usize = t * FEATURES + c * 4 + (y % 2) * 2 + x % 2;
        r.push(latents[k]);
        assert(goal.take(i + 1) =~= goal.take(i as int).push(goal[i as int]));
        i = i + 1;
    }
    assert(goal.take(n as int) =~= goal);
    Ok(r)
}

/// Pack the latent of an image into tokens.
pub fn pack_latents<T: Copy>(latents: &[T], width: u32, height: u32) -> (r: Result<
    Vec<T>,
    ShapeError,
>)
    ensures
        ({
            let (lh, lw) = patch_grid(width, height);
            match r {
                Ok(v) => {
                    &&& latents@.len() == latent_volume(lh, lw)
                    &&& v@ == packed(latents@, lh, lw)
                },
                Err(e) => {
                    &&& latents@.len() != latent_volume(lh, lw)
                    &&& e.len == latents@.len()
                    &&& e.expected == latent_volume(lh, lw)
                },
            }
        }),
{
    let n: usize = latents.len();
    let (lh, lw): (usize, usize) = match check_volume(n, width, height) {
        Ok(p) => p,
        Err(e) => {
            return Err(e);
        },
    };
    let mut r: Vec<T> = Vec::new();
    let mut i: usize = 0;
    let ghost goal = packed(latents@, lh as int, lw as int);
    while i < n
        invariant
            i <= n == latents@.len(),
            n == latent_volume(lh as int, lw as int),
            lh <= 0x1000_0000,
            lw <= 0x1000_0000,
            goal == packed(latents@, lh as int, lw as int),
            r@ == goal.take(i as int),
        decreases n - i,
    {
        proof {
            volume_is_positive(lh as int, lw as int);
            token_index_of_place(lh as int, lw as int, i as int);
            let (c, y, x) = token_place(lw as int, i as int);
            place_of_plane_index(lh as int, lw as int, c, y, x);
        }
        let t: usize = i / FEATURES;
        let f: usize = i % FEATURES;
        let c: usize = f / 4;
        let y: usize = 2 * (t / lw) + f % 4 / 2;
        let x: usize = 2 * (t % lw) + f % 2;
        proof {
            let row = c * (2 * lh) + y;
            assert(0 <= c * (2 * lh)) by (nonlinear_arith)
                requires
                    c >= 0,
                    lh >= 0,
            ;
            assert(row <= row * (2 * lw)) by (nonlinear_arith)
                requires
                    row >= 0,
                    lw > 0,
            ;
            assert(plane_index(lh as int, lw as int, c as int, y as int, x as int) < n);
        }
        let k: usize = (c * (2 * lh) + y) * (2 * lw) + x;
        r.push(latents[k]);
        assert(goal.take(i + 1) =~= goal.take(i as int).push(goal[i as int]));
        i = i + 1;
    }
    assert(goal.take(n as int) =~= goal);
    Ok(r)
}

/// The step at which an image-to-image run starts: a share of the steps, at least one; zero for a
/// run without a positive strength.
pub open spec fn start_step(num_steps: int, strength: Option<Binary32>) -> int {
    match strength {
        Some(s) => if (Binary32 { bits: 0 }).less(s) {
            let whole = truncated_product(
                num_steps,
                s.capped(Binary32 { bits: ONE }),
                usize::MAX as int,
            );
            if whole < 1 {
                1
            } else {
                whole
            }
        } else {
            0
        },
        None => 0,
    }
}

/// Where an image-to-image run starts.
pub fn init_time_step(num_steps: usize, strength: Option<Binary32>) -> (r: usize)
    ensures
        r == start_step(num_steps as int, strength),
{
    match strength {
        Some(s) => {
            if !s.gt(&Binary32 { bits: 0 }) {
                return 0;
            }
            let share: Binary32 = s.cap(&Binary32 { bits: ONE });
            let whole: u64 = scale_count(num_steps as u64, share, usize::MAX as u64);
            if whole < 1 {
                1
            } else {
                whole as usize
            }
        },
        None => 0,
    }
}

/// A greater strength never starts a run earlier.
pub proof fn stronger_runs_start_later(num_steps: usize, weak: Binary32, strong: Binary32)
    requires
        (Binary32 { bits: 0 }).less(weak),
        weak.at_most(strong),
    ensures
        1 <= start_step(num_steps as int, Some(weak)) <= start_step(num_steps as int, Some(strong)),
{
    let one = Binary32 { bits: ONE };
    product_is_monotone(
        num_steps as u64,
        weak.capped(one),
        strong.capped(one),
        usize::MAX as int,
    );
}

/// A run starts within its steps, or at one where it has none, and at full strength at their end.
pub proof fn runs_start_within_their_steps(num_steps: usize, strength: Binary32)
    requires
        num_steps <= EXACT_LIMIT,
        (Binary32 { bits: 0 }).less(strength),
    ensures
        1 <= start_step(num_steps as int, Some(strength)),
        num_steps > 0 ==> start_step(num_steps as int, Some(strength)) <= num_steps,
        num_steps == 0 ==> start_step(num_steps as int, Some(strength)) == 1,
        num_steps > 0 && (Binary32 { bits: ONE }).at_most(strength) ==> start_step(
            num_steps as int,
            Some(strength),
        ) == num_steps,
{
    let one = Binary32 { bits: ONE };
    one_keeps_counts(num_steps as int, usize::MAX as int);
    product_is_monotone(num_steps as u64, strength.capped(one), one, usize::MAX as int);
}

/// The values of the first `n` tokens.
pub fn slice_seq<T: Copy>(x: &[T], features: usize, n: usize) -> (r: Vec<T>)
    requires
        n * features <= x@.len(),
    ensures
        r@ == x@.take(n * features),
{
    let len: usize = x.len();
    assert(n * features <= len);
    let end: usize = n * features;
    let mut r: Vec<T> = Vec::new();
    let mut i: usize = 0;
    while i < end
        invariant
            i <= end == n * features,
            end <= x@.len(),
            r@ == x@.take(i as int),
        decreases end - i,
    {
        r.push(x[i]);
        assert(x@.take(i + 1) =~= x@.take(i as int).push(x@[i as int]));
        i = i + 1;
    }
    r
}

/// Taking as many tokens as the noise has gives the noise back, whatever was appended to it.
pub proof fn noise_is_the_prefix<T>(noise: Seq<T>, references: Seq<T>, features: int, n: int)
    requires
        noise.len() == n * features,
    ensures
        (noise + references).take(n * features) == noise,
{
    assert((noise + references).take(n * features) =~= noise);
}

/// An image whose samples do not fill its size.
#[derive(Clone, Copy, Debug, PartialEq, Eq, Structural)]
pub struct BufferError {
    pub len: usize,
    pub width: u32,
    pub height: u32,
}

impl BufferError {
    /// The complaint in words.
    pub open spec fn text(self) -> Seq<char> {
        "init image pixel buffer "@ + digits(self.len as nat) + " != "@ + digits(self.width as nat)
            + "x"@ + digits(self.height as nat) + "x3"@
    }

    /// This complaint in words.
    pub fn message(&self) -> (r: String)
        ensures
            r@ == self.text(),
    {
        let mut r: String = "init image pixel buffer ".to_owned();
        r.append(decimal(self.len as u64).as_str());
        r.append(" != ");
        r.append(decimal(self.width as u64).as_str());
        r.append("x");
        r.append(decimal(self.height as u64).as_str());
        r.append("x3");
        r
    }
}

/// An image has three samples per pixel.
pub open spec fn fills_its_size(image: Image) -> bool {
    image.pixels@.len() == image.width * image.height * 3
}

/// How an image reaches the size of a run.
#[derive(Clone, Copy, Debug, PartialEq, Eq, Structural)]
pub enum Scaling {
    /// It has the size already.
    Keep,
    /// It is resampled.
    Resample,
}

/// What preparing an image for a run of this size takes.
pub fn preprocess_init_image(image: &Image, target_width: u32, target_height: u32) -> (r: Result<
    Scaling,
    BufferError,
>)
    ensures
        match r {
            Ok(s) => fills_its_size(*image) && s == if image.width == target_width && image.height
                == target_height {
                Scaling::Keep
            } else {
                Scaling::Resample
            },
            Err(e) => {
                &&& !fills_its_size(*image)
                &&& e.len == image.pixels@.len()
                &&& e.width == image.width
                &&& e.height == image.height
            },
        },
{
    let len: usize = image.pixels.len();
    let area: u64 = {
        assert(image.width * image.height <= 0xffff_ffff * 0xffff_ffff) by (nonlinear_arith)
            requires
                0 <= image.width <= 0xffff_ffff,
                0 <= image.height <= 0xffff_ffff,
        ;
        image.width as u64 * image.height as u64
    };
    let samples: u128 = area as u128 * 3;
    if len as u128 != samples {
        return Err(BufferError { len, width: image.width, height: image.height });
    }
    if image.width == target_width && image.height == target_height {
        Ok(Scaling::Keep)
    } else {
        Ok(Scaling::Resample)
    }
}

/// The samples of an image plane by plane.
pub open spec fn planes<T>(samples: Seq<T>, channels: int) -> Seq<T> {
    let area = samples.len() as int / channels;
    Seq::new(samples.len(), |i: int| samples[(i % area) * channels + i / area])
}

/// Lay the samples of an image out plane by plane.
pub fn channels_first<T: Copy>(samples: &[T], channels: usize) -> (r: Vec<T>)
    requires
        0 < channels,
        samples@.len() % (channels as nat) == 0,
    ensures
        r@ == planes(samples@, channels as int),
{
    let n: usize = samples.len();
    let area: usize = n / channels;
    let ghost goal = planes(samples@, channels as int);
    let mut r: Vec<T> = Vec::new();
    let mut i: usize = 0;
    proof {
        lemma_fundamental_div_mod(n as int, channels as int);
    }
    while i < n
        invariant
            i <= n == samples@.len(),
            0 < channels,
            area == n as int / channels as int,
            n == channels * area,
            goal == planes(samples@, channels as int),
            r@ == goal.take(i as int),
        decreases n - i,
    {
        proof {
            assert(area > 0) by (nonlinear_arith)
                requires
                    n == channels * area,
                    n > 0,
            ;
            lemma_fundamental_div_mod(i as int, area as int);
            let (p, c) = (i as int % area as int, i as int / area as int);
            assert(0 <= c && c < channels) by (nonlinear_arith)
                requires
                    i == area * c + p,
                    0 <= p < area,
                    0 <= i < channels * area,
            ;
            assert(0 <= p * channels && p * channels + c < n) by (nonlinear_arith)
                requires
                    0 <= p < area,
                    0 <= c < channels,
                    n == channels * area,
            ;
        }
        let k: usize = (i % area) * channels + i / area;
        r.push(samples[k]);
        assert(goal.take(i + 1) =~= goal.take(i as int).push(goal[i as int]));
        i = i + 1;
    }
    assert(goal.take(n as int) =~= goal);
    r
}

/// A token holds a square of two by two places in each of sixteen channels: the value at a channel,
/// row and column of the latent image stands in the token of its square, four values to a channel,
/// two to a row.
pub proof fn tokens_hold_squares<T>(
    tokens: Seq<T>,
    latent: Seq<T>,
    lh: int,
    lw: int,
    c: int,
    y: int,
    x: int,
)
    requires
        0 < lh,
        0 < lw,
        0 <= c < 16,
        0 <= y < 2 * lh,
        0 <= x < 2 * lw,
    ensures
        unpacked(tokens, lh, lw)[(c * (2 * lh) + y) * (2 * lw) + x] == tokens[((y / 2) * lw + x / 2)
            * 64 + c * 4 + (y % 2) * 2 + x % 2],
        packed(latent, lh, lw)[((y / 2) * lw + x / 2) * 64 + c * 4 + (y % 2) * 2 + x % 2]
            == latent[(c * (2 * lh) + y) * (2 * lw) + x],
        unpacked(tokens, lh, lw).len() == 64 * (lh * lw),
        packed(latent, lh, lw).len() == 64 * (lh * lw),
{
    place_of_plane_index(lh, lw, c, y, x);
    place_of_token_index(lh, lw, c, y, x);
}

/// An image has a token for each sixteen by sixteen pixels, and sides that are multiples of sixteen
/// are covered without a rest.
pub proof fn tokens_cover_the_image(width: u32, height: u32)
    ensures
        ({
            let (lh, lw) = patch_grid(width, height);
            &&& lh * 16 <= height < lh * 16 + 16
            &&& lw * 16 <= width < lw * 16 + 16
            &&& height % 16 == 0 ==> lh * 16 == height
            &&& width % 16 == 0 ==> lw * 16 == width
        }),
{
}

/// The planes of an image hold its channels one after the other, each with its pixels in order.
pub proof fn planes_hold_channels<T>(samples: Seq<T>, channels: int, area: int, c: int, p: int)
    requires
        0 < channels,
        samples.len() == area * channels,
        0 <= c < channels,
        0 <= p < area,
    ensures
        planes(samples, channels).len() == samples.len(),
        planes(samples, channels)[c * area + p] == samples[p * channels + c],
{
    let i = c * area + p;
    lemma_fundamental_div_mod_converse(
        samples.len() as int,
        channels,
        area,
        0,
    );
    lemma_fundamental_div_mod_converse(i, area, c, p);
    assert(0 <= i < area * channels) by (nonlinear_arith)
        requires
            i == c * area + p,
            0 <= c < channels,
            0 <= p < area,
    ;
}

/// A strength that is no number, zero or below leaves a run at its first step, as no strength does.
pub proof fn weak_runs_start_at_zero(num_steps: int, strength: Binary32)
    ensures
        start_step(num_steps, None) == 0,
        strength.nan() || strength.rank() <= 0 ==> start_step(num_steps, Some(strength)) == 0,
{
}

/// An image fills its size with three samples to a pixel, and one that does not is described by its
/// numbers.
pub proof fn images_have_three_samples_a_pixel(image: Image, e: BufferError)
    ensures
        fills_its_size(image) <==> image.pixels@.len() == (image.width * image.height) * 3,
        e.text() == "init image pixel buffer "@ + digits(e.len as nat) + " != "@ + digits(
            e.width as nat,
        ) + "x"@ + digits(e.height as nat) + "x3"@,
{
}

/// A run from an image skips as many steps as its strength, at most one, is of all its steps, rounded
/// down, and never none.
pub proof fn runs_skip_their_share(num_steps: int, strength: Binary32)
    requires
        0 <= num_steps <= 0x100_0000,
        (Binary32 { bits: 0 }).less(strength),
    ensures
        ({
            let share = if strength.less(Binary32 { bits: 0x3f80_0000 }) {
                strength
            } else {
                Binary32 { bits: 0x3f80_0000 }
            };
            let start = start_step(num_steps, Some(strength));
            let exact = product(num_steps, share);
            &&& is_nearest_quotient(num_steps * share.scaled_value(), unit(), exact)
            &&& start >= 1
            &&& start > 1 && start < usize::MAX ==> start * unit() <= exact.scaled_value() < (start
                + 1) * unit()
            &&& start == 1 && num_steps > 0 ==> exact.scaled_value() < 2 * unit()
        }),
{
    let share = if strength.less(Binary32 { bits: 0x3f80_0000 }) {
        strength
    } else {
        Binary32 { bits: 0x3f80_0000 }
    };
    product_of_small_count(num_steps, share);
    truncation_rounds_down(num_steps, share, usize::MAX as int);
    counts_keep_their_order(1, 1);
    let (u, exact) = (unit(), product(num_steps, share).scaled_value());
    let whole = truncated_product(num_steps, share, usize::MAX as int);
    if whole < 1 {
        assert((whole + 1) * u <= u) by (nonlinear_arith)
            requires
                whole < 1,
                0 < u,
        ;
    }
}

} // verus!
