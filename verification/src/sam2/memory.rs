//! Memory attention: the grid and the repetition of the rotary position tables.
use vstd::prelude::*;

verus! {

/// How rotary positions apply to a query and a memory sequence.
#[derive(Clone, Copy, Debug, PartialEq, Eq, Structural)]
pub struct RopePlan {
    /// The columns of the position grid.
    pub end_x: i32,
    /// The rows of the position grid.
    pub end_y: i32,
    /// How often each position of the grid repeats along the memory.
    pub repeat: i32,
    /// The number of leading memory tokens that carry a position.
    pub rope_len: i32,
    /// The number of trailing memory tokens that stay as they are.
    pub excluded: i32,
}

/// The grid of a sequence: square where the length is a square, otherwise one row.
pub open spec fn is_grid(len: int, end_x: int, end_y: int) -> bool {
    ||| (end_x >= 0 && end_x == end_y && end_x * end_x == len)
    ||| (end_x == len && end_y == 1 && forall|s: int| s >= 0 ==> #[trigger] (s * s) != len)
}

/// The largest integer whose square does not exceed a number.
pub fn integer_sqrt(n: u32) -> (r: u32)
    ensures
        r * r <= n < (r + 1) * (r + 1),
{
    let mut lo: u64 = 0;
    let mut hi: u64 = 65536;
    assert(65536 * 65536 > n);
    while hi - lo > 1
        invariant
            0 <= lo < hi <= 65536,
            lo * lo <= n < hi * hi,
        decreases hi - lo,
    {
        let mid: u64 = lo + (hi - lo) / 2;
        assert(mid * mid <= 65536 * 65536) by (nonlinear_arith)
            requires
                mid <= 65536,
        ;
        if mid * mid <= n as u64 {
            lo = mid;
        } else {
            hi = mid;
        }
    }
    lo as u32
}

proof fn square_root_is_unique(n: int, r: int, s: int)
    requires
        0 <= r,
        0 <= s,
        r * r <= n < (r + 1) * (r + 1),
        s * s == n,
    ensures
        r == s,
{
    if s < r {
        assert(s * s < r * r) by (nonlinear_arith)
            requires
                0 <= s < r,
        ;
    }
    if s > r {
        assert(s * s >= (r + 1) * (r + 1)) by (nonlinear_arith)
            requires
                s >= r + 1,
                r >= 0,
        ;
    }
}

/// The grid of a sequence of tokens.
pub fn rope_grid(len: i32) -> (r: (i32, i32))
    requires
        0 <= len,
    ensures
        is_grid(len as int, r.0 as int, r.1 as int),
{
    let side: u32 = integer_sqrt(len as u32);
    proof {
        assert(side <= 65535) by (nonlinear_arith)
            requires
                side * side <= 0x7fff_ffff,
        ;
        assert(side * side <= 65535 * 65535) by (nonlinear_arith)
            requires
                side <= 65535,
        ;
    }
    if side * side == len as u32 {
        (side as i32, side as i32)
    } else {
        proof {
            assert forall|s: int| s >= 0 implies #[trigger] (s * s) != len by {
                if s * s == len {
                    square_root_is_unique(len as int, side as int, s);
                }
            }
        }
        (len, 1)
    }
}

/// The plan for a query of `q_len` tokens and a memory of `k_len`, of which the last
/// `num_k_exclude_rope` carry no position.
pub open spec fn rope_planned(
    q_len: int,
    k_len: int,
    num_k_exclude_rope: int,
    rope_k_repeat: bool,
    p: RopePlan,
) -> bool {
    &&& is_grid(q_len, p.end_x as int, p.end_y as int)
    &&& p.repeat == if rope_k_repeat && q_len != 0 {
        k_len / q_len
    } else {
        1
    }
    &&& p.rope_len == k_len - num_k_exclude_rope
    &&& p.excluded == num_k_exclude_rope
}

/// Plan the rotary positions of an attention.
pub fn plan_rope(q_len: i32, k_len: i32, num_k_exclude_rope: i32, rope_k_repeat: bool) -> (p:
    RopePlan)
    requires
        0 <= q_len,
        0 <= k_len,
        0 <= num_k_exclude_rope,
    ensures
        rope_planned(
            q_len as int,
            k_len as int,
            num_k_exclude_rope as int,
            rope_k_repeat,
            p,
        ),
{
    let (end_x, end_y): (i32, i32) = rope_grid(q_len);
    let repeat: i32 = if rope_k_repeat && q_len != 0 {
        k_len / q_len
    } else {
        1
    };
    RopePlan {
        end_x,
        end_y,
        repeat,
        rope_len: k_len - num_k_exclude_rope,
        excluded: num_k_exclude_rope,
    }
}

/// A memory of whole frames followed by fewer extra tokens than a frame has: the repeated grid
/// has one position for every token of the frames.
pub proof fn repeated_grid_covers_the_frames(
    q_len: int,
    frames: int,
    extra: int,
    p: RopePlan,
)
    requires
        0 < q_len,
        0 <= frames,
        0 <= extra < q_len,
        rope_planned(q_len, frames * q_len + extra, extra, true, p),
    ensures
        p.end_x * p.end_y == q_len,
        (p.end_x * p.end_y) * p.repeat == p.rope_len,
{
    let k_len = frames * q_len + extra;
    vstd::arithmetic::div_mod::lemma_fundamental_div_mod_converse(k_len, q_len, frames, extra);
    assert(p.end_x * p.end_y == q_len) by {
        if p.end_y == 1 {
            assert(p.end_x * 1 == p.end_x);
        }
    }
    assert(q_len * frames == frames * q_len) by (nonlinear_arith);
}

} // verus!
