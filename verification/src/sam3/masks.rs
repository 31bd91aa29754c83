//! Masks of tracked objects: thresholding, overlap, and the rules that keep the masks of one
//! prompt from covering the same pixels.
use crate::binary32::{
    as_single, count_ratio, counts_keep_their_order, exact_quotient, is_nearest_quotient,
    one_is_exact, ratio, ratio_of_small_counts, small_counts_are_exact, unit, Binary32,
};
use crate::collect::{
    ascending, in_order, itself, ordered_members, picked, picked_complete, tally,
    tally_bounds, tally_monotone, tally_push,
};
use std::collections::BTreeSet;
use vstd::prelude::*;

verus! {

broadcast use vstd::laws_cmp::group_laws_cmp;

/// Zero, the threshold between background and foreground logits.
pub const ZERO: u32 = 0;

/// Negative infinity.
pub const NEGATIVE_INFINITY: u32 = 0xff80_0000;

/// The logit of a pixel that belongs to no object: minus ten.
pub const NO_OBJ_LOGIT: u32 = 0xc120_0000;

/// The share of its area that a mask must keep under the overlap rules: three tenths.
pub const KEPT_AREA: u32 = 0x3e99_999a;

/// The logit marks foreground.
pub open spec fn positive(v: Binary32) -> bool {
    (Binary32 { bits: ZERO }).less(v)
}

/// Foreground membership per pixel.
pub open spec fn foreground(m: Seq<Binary32>) -> Seq<bool> {
    Seq::new(m.len(), |i: int| positive(m[i]))
}

/// The number of foreground pixels.
pub open spec fn area(m: Seq<Binary32>) -> nat {
    tally(foreground(m))
}

/// The contents of each of several vectors.
pub open spec fn rows<A>(v: Seq<Vec<A>>) -> Seq<Seq<A>> {
    v.map_values(|m: Vec<A>| m@)
}

/// Machine indices as integers.
pub open spec fn indices(v: Seq<usize>) -> Seq<int> {
    v.map_values(|x: usize| x as int)
}

/// The shorter of two lengths.
pub open spec fn common_length(a: Seq<bool>, b: Seq<bool>) -> nat {
    if a.len() <= b.len() {
        a.len()
    } else {
        b.len()
    }
}

/// Pixels that both masks cover.
pub open spec fn both(a: Seq<bool>, b: Seq<bool>) -> Seq<bool> {
    Seq::new(common_length(a, b), |i: int| a[i] && b[i])
}

/// Pixels that at least one mask covers.
pub open spec fn either(a: Seq<bool>, b: Seq<bool>) -> Seq<bool> {
    Seq::new(common_length(a, b), |i: int| a[i] || b[i])
}

/// The larger of a count and one.
pub open spec fn at_least_one(n: nat) -> nat {
    if n == 0 {
        1
    } else {
        n
    }
}

/// Intersection over union, in single precision; zero where both masks are empty.
pub open spec fn iou(a: Seq<bool>, b: Seq<bool>) -> Binary32 {
    ratio(tally(both(a, b)) as int, at_least_one(tally(either(a, b))) as int)
}

/// The index and value that a scan keeps which replaces its candidate whenever a strictly greater
/// value follows, starting from index zero and the value `floor`.
pub open spec fn running_best(values: spec_fn(int) -> Binary32, floor: Binary32, n: nat) -> (
    int,
    Binary32,
)
    decreases n,
{
    if n == 0 {
        (0, floor)
    } else {
        let (best, value) = running_best(values, floor, (n - 1) as nat);
        if value.less(values(n - 1)) {
            (n - 1, values(n - 1))
        } else {
            (best, value)
        }
    }
}

/// Nothing scanned exceeds what the scan kept, which is the floor or a scanned value, and the
/// index is the first one at which that value occurs.
pub proof fn running_best_dominates(values: spec_fn(int) -> Binary32, floor: Binary32, n: nat)
    requires
        !floor.nan(),
    ensures
        ({
            let (best, value) = running_best(values, floor, n);
            &&& 0 <= best
            &&& n > 0 ==> best < n
            &&& floor.at_most(value)
            &&& forall|i: int| 0 <= i < n ==> !value.less(#[trigger] values(i))
            &&& value == floor && best == 0 || (best < n && value == values(best) && floor.less(
                value,
            ) && forall|i: int| 0 <= i < best ==> !value.at_most(#[trigger] values(i)))
        }),
    decreases n,
{
    if n > 0 {
        running_best_dominates(values, floor, (n - 1) as nat);
    }
}

/// Threshold a mask at zero.
pub fn binarize(m: &[Binary32]) -> (r: Vec<bool>)
    ensures
        r@ == foreground(m@),
{
    let zero = Binary32 { bits: ZERO };
    let mut r: Vec<bool> = Vec::new();
    let mut i: usize = 0;
    while i < m.len()
        invariant
            i <= m@.len(),
            zero == (Binary32 { bits: ZERO }),
            r@ == foreground(m@).take(i as int),
        decreases m@.len() - i,
    {
        r.push(m[i].gt(&zero));
        proof {
            assert(r@ =~= foreground(m@).take(i + 1));
        }
        i = i + 1;
    }
    proof {
        assert(r@ =~= foreground(m@));
    }
    r
}

/// Some pixel is covered.
pub fn any_covered(m: &[bool]) -> (r: bool)
    ensures
        r == exists|i: int| 0 <= i < m@.len() && m@[i],
        r == (tally(m@) > 0),
{
    proof {
        tally_bounds(m@);
    }
    let mut i: usize = 0;
    while i < m.len()
        invariant
            i <= m@.len(),
            forall|k: int| 0 <= k < i ==> !m@[k],
            tally(m@) > 0 <==> exists|k: int| 0 <= k < m@.len() && m@[k],
        decreases m@.len() - i,
    {
        if m[i] {
            return true;
        }
        i = i + 1;
    }
    false
}

/// Intersection over union of two masks.
pub fn mask_iou(a: &[bool], b: &[bool]) -> (r: Binary32)
    ensures
        r == iou(a@, b@),
{
    let n: usize = if a.len() <= b.len() {
        a.len()
    } else {
        b.len()
    };
    let mut inter: u64 = 0;
    let mut uni: u64 = 0;
    let mut i: usize = 0;
    let ghost (s, t) = (both(a@, b@), either(a@, b@));
    assert(s.take(0) =~= Seq::<bool>::empty());
    assert(t.take(0) =~= Seq::<bool>::empty());
    while i < n
        invariant
            i <= n,
            n == common_length(a@, b@),
            s == both(a@, b@),
            t == either(a@, b@),
            inter == tally(s.take(i as int)),
            uni == tally(t.take(i as int)),
            inter <= uni <= i,
        decreases n - i,
    {
        proof {
            tally_push(s, i as int);
            tally_push(t, i as int);
        }
        if a[i] && b[i] {
            inter = inter + 1;
        }
        if a[i] || b[i] {
            uni = uni + 1;
        }
        i = i + 1;
    }
    assert(s.take(n as int) =~= s);
    assert(t.take(n as int) =~= t);
    if uni == 0 {
        count_ratio(inter, 1)
    } else {
        count_ratio(inter, uni)
    }
}

/// The distinct values, smallest first.
pub fn unique(v: &[i32]) -> (r: Vec<i32>)
    ensures
        r@ == in_order(v@.to_set()),
        ascending(r@),
        r@.to_set() == v@.to_set(),
{
    let mut seen: BTreeSet<i32> = BTreeSet::new();
    let mut i: usize = 0;
    assert(v@.take(0).to_set() =~= Set::<i32>::empty());
    while i < v.len()
        invariant
            i <= v@.len(),
            seen@ == v@.take(i as int).to_set(),
        decreases v@.len() - i,
    {
        proof {
            let (before, after) = (v@.take(i as int), v@.take(i + 1));
            assert(after =~= before.push(v@[i as int]));
            assert(after.to_set() =~= before.to_set().insert(v@[i as int])) by {
                broadcast use vstd::seq_lib::group_to_multiset_ensures;

                assert forall|x: i32| after.contains(x) <==> before.contains(x) || x
                    == v@[i as int] by {
                    if before.contains(x) {
                        let k = choose|k: int| 0 <= k < before.len() && before[k] == x;
                        assert(after[k] == x);
                    }
                    if x == v@[i as int] {
                        assert(after[i as int] == x);
                    }
                }
            }
        }
        seen.insert(v[i]);
        i = i + 1;
    }
    assert(v@.take(v@.len() as int) =~= v@);
    ordered_members(&seen)
}

/// A copy of a mask.
pub fn copy_mask(m: &[Binary32]) -> (r: Vec<Binary32>)
    ensures
        r@ == m@,
{
    let mut r: Vec<Binary32> = Vec::new();
    let mut i: usize = 0;
    while i < m.len()
        invariant
            i <= m@.len(),
            r@ == m@.take(i as int),
        decreases m@.len() - i,
    {
        r.push(m[i]);
        assert(m@.take(i + 1) =~= m@.take(i as int).push(m@[i as int]));
        i = i + 1;
    }
    assert(m@.take(m@.len() as int) =~= m@);
    r
}

/// The number of foreground pixels of a mask.
pub fn count_foreground(m: &[Binary32]) -> (r: u64)
    ensures
        r == area(m@),
        r <= m@.len(),
{
    let zero = Binary32 { bits: ZERO };
    let ghost s = foreground(m@);
    assert(s.take(0) =~= Seq::<bool>::empty());
    let mut r: u64 = 0;
    let mut i: usize = 0;
    while i < m.len()
        invariant
            i <= m@.len(),
            zero == (Binary32 { bits: ZERO }),
            s == foreground(m@),
            r == tally(s.take(i as int)),
            r <= i,
        decreases m@.len() - i,
    {
        proof {
            tally_push(s, i as int);
        }
        if m[i].gt(&zero) {
            r = r + 1;
        }
        i = i + 1;
    }
    assert(s.take(m@.len() as int) =~= s);
    r
}

/// All masks cover the same number of pixels.
pub open spec fn uniform(masks: Seq<Seq<Binary32>>) -> bool {
    forall|i: int, j: int|
        #![trigger masks[i], masks[j]]
        0 <= i < masks.len() && 0 <= j < masks.len() ==> masks[i].len() == masks[j].len()
}

/// The object answers the prompt.
pub open spec fn answers(prompts: Seq<i32>, prompt: i32) -> spec_fn(int) -> bool {
    |j: int| prompts[j] == prompt
}

/// The objects that answer one prompt, in index order.
pub open spec fn group(prompts: Seq<i32>, prompt: i32) -> Seq<int> {
    picked(prompts.len(), answers(prompts, prompt), itself())
}

/// The logit of pixel `p` in each mask of a group.
pub open spec fn logits_at(masks: Seq<Seq<Binary32>>, members: Seq<int>, p: int) -> spec_fn(
    int,
) -> Binary32 {
    |g: int| masks[members[g]][p]
}

/// The position in the group of the object that owns pixel `p`: the first with the greatest
/// logit.
pub open spec fn owner(masks: Seq<Seq<Binary32>>, members: Seq<int>, p: int) -> int {
    running_best(
        logits_at(masks, members, p),
        Binary32 { bits: NEGATIVE_INFINITY },
        members.len(),
    ).0
}

/// The `g`-th mask of a group, with the pixels that another object owns pushed down to the
/// no-object logit.
pub open spec fn exclusive(masks: Seq<Seq<Binary32>>, members: Seq<int>, g: int) -> Seq<Binary32> {
    let none = Binary32 { bits: NO_OBJ_LOGIT };
    Seq::new(
        masks[members[g]].len(),
        |p: int|
            if owner(masks, members, p) != g && none.less(masks[members[g]][p]) {
                none
            } else {
                masks[members[g]][p]
            },
    )
}

/// A mask with every pixel at or below the no-object logit.
pub open spec fn blanked(m: Seq<Binary32>) -> Seq<Binary32> {
    m.map_values(|v: Binary32| v.capped(Binary32 { bits: NO_OBJ_LOGIT }))
}

/// The mask of the `g`-th member of a group after the overlap rules: its exclusive part, or
/// nothing where too little of its area is left.
pub open spec fn member_mask(masks: Seq<Seq<Binary32>>, members: Seq<int>, g: int) -> Seq<
    Binary32,
> {
    let before = masks[members[g]];
    let after = exclusive(masks, members, g);
    if (Binary32 { bits: KEPT_AREA }).at_most(
        ratio(area(after) as int, at_least_one(area(before)) as int),
    ) {
        after
    } else {
        blanked(before)
    }
}

/// The mask of object `j` after the overlap rules; an object alone in its prompt keeps its mask.
pub open spec fn constrained(masks: Seq<Seq<Binary32>>, prompts: Seq<i32>, j: int) -> Seq<
    Binary32,
> {
    let members = group(prompts, prompts[j]);
    if members.len() <= 1 {
        masks[j]
    } else {
        member_mask(masks, members, members.index_of(j))
    }
}

/// The members of a group are the indices with its prompt, in increasing order.
pub proof fn group_members(prompts: Seq<i32>, prompt: i32)
    ensures
        forall|g: int|
            #![trigger group(prompts, prompt)[g]]
            0 <= g < group(prompts, prompt).len() ==> 0 <= group(prompts, prompt)[g]
                < prompts.len() && prompts[group(prompts, prompt)[g]] == prompt,
        forall|g: int, h: int|
            0 <= g < h < group(prompts, prompt).len() ==> group(prompts, prompt)[g] < group(
                prompts,
                prompt,
            )[h],
        forall|j: int|
            0 <= j < prompts.len() && prompts[j] == prompt ==> #[trigger] group(
                prompts,
                prompt,
            ).contains(j),
{
    let p = answers(prompts, prompt);
    let f = itself();
    group_prefix(prompts.len(), p, f);
    assert forall|j: int| 0 <= j < prompts.len() && prompts[j] == prompt implies #[trigger] group(
        prompts,
        prompt,
    ).contains(j) by {
        picked_complete(prompts.len(), p, f, j);
    }
}

proof fn group_prefix(n: nat, p: spec_fn(int) -> bool, f: spec_fn(int) -> int)
    requires
        forall|j: int| #[trigger] f(j) == j,
    ensures
        forall|g: int|
            #![trigger picked(n, p, f)[g]]
            0 <= g < picked(n, p, f).len() ==> 0 <= picked(n, p, f)[g] < n && p(picked(n, p, f)[g]),
        forall|g: int, h: int|
            0 <= g < h < picked(n, p, f).len() ==> picked(n, p, f)[g] < picked(n, p, f)[h],
    decreases n,
{
    let whole = picked(n, p, f);
    if n > 0 {
        let rest = picked((n - 1) as nat, p, f);
        group_prefix((n - 1) as nat, p, f);
        assert(f(n - 1) == n - 1);
        assert(whole == if p(n - 1) {
            rest.push(n - 1)
        } else {
            rest
        });
        assert forall|g: int| 0 <= g < whole.len() implies 0 <= #[trigger] whole[g] < n && p(
            whole[g],
        ) by {
            if g < rest.len() {
                assert(whole[g] == rest[g]);
            }
        }
        assert forall|g: int, h: int| 0 <= g < h < whole.len() implies whole[g] < whole[h] by {
            assert(whole[g] == rest[g]);
            if h < rest.len() {
                assert(whole[h] == rest[h]);
            }
        }
    } else {
        assert(whole.len() == 0);
    }
}

/// A member stands at its own position in the group.
pub proof fn member_position(prompts: Seq<i32>, prompt: i32, g: int)
    requires
        0 <= g < group(prompts, prompt).len(),
    ensures
        group(prompts, prompt).index_of(group(prompts, prompt)[g]) == g,
{
    group_members(prompts, prompt);
    let s = group(prompts, prompt);
    let h = s.index_of(s[g]);
    assert(s.contains(s[g]));
    assert(0 <= h < s.len() && s[h] == s[g]);
}

/// The indices of a prompt's objects.
pub fn group_indices(prompts: &[i32], prompt: i32) -> (r: Vec<usize>)
    ensures
        r@.len() == group(prompts@, prompt).len(),
        forall|g: int| 0 <= g < r@.len() ==> r@[g] as int == #[trigger] group(prompts@, prompt)[g],
{
    let ghost p = answers(prompts@, prompt);
    let ghost f = itself();
    let mut r: Vec<usize> = Vec::new();
    let mut j: usize = 0;
    while j < prompts.len()
        invariant
            j <= prompts@.len(),
            p == answers(prompts@, prompt),
            f == itself(),
            indices(r@) == picked(j as nat, p, f),
        decreases prompts@.len() - j,
    {
        let ghost before = r@;
        if prompts[j] == prompt {
            r.push(j);
            assert(indices(r@) =~= indices(before).push(j as int));
        }
        j = j + 1;
    }
    assert forall|g: int| 0 <= g < r@.len() implies r@[g] as int == #[trigger] group(
        prompts@,
        prompt,
    )[g] by {
        assert(indices(r@)[g] == r@[g] as int);
    }
    r
}

/// The owner of every pixel within a group.
fn pixel_owners(masks: &[Vec<Binary32>], idxs: &[usize], len: usize) -> (r: Vec<usize>)
    requires
        idxs@.len() > 0,
        forall|g: int|
            #![trigger idxs@[g]]
            0 <= g < idxs@.len() ==> idxs@[g] < masks@.len() && masks@[idxs@[g] as int]@.len()
                == len,
    ensures
        r@.len() == len,
        forall|p: int|
            0 <= p < len ==> r@[p] as int == #[trigger] owner(
                rows(masks@),
                indices(idxs@),
                p,
            ),
{
    let ghost members = indices(idxs@);
    let ghost grid = rows(masks@);
    let mut r: Vec<usize> = Vec::new();
    let mut p: usize = 0;
    while p < len
        invariant
            p <= len,
            idxs@.len() > 0,
            members == indices(idxs@),
            grid == rows(masks@),
            forall|g: int|
                #![trigger idxs@[g]]
                0 <= g < idxs@.len() ==> idxs@[g] < masks@.len() && masks@[idxs@[g] as int]@.len()
                    == len,
            r@.len() == p,
            forall|q: int| 0 <= q < p ==> r@[q] as int == #[trigger] owner(grid, members, q),
        decreases len - p,
    {
        let mut best: usize = 0;
        let mut value = Binary32 { bits: NEGATIVE_INFINITY };
        let mut g: usize = 0;
        let ghost values = logits_at(grid, members, p as int);
        while g < idxs.len()
            invariant
                g <= idxs@.len(),
                p < len,
                members == indices(idxs@),
                grid == rows(masks@),
                values == logits_at(grid, members, p as int),
                forall|g: int|
                    #![trigger idxs@[g]]
                    0 <= g < idxs@.len() ==> idxs@[g] < masks@.len() && masks@[idxs@[g] as int]@.len()
                        == len,
                (best as int, value) == running_best(
                    values,
                    Binary32 { bits: NEGATIVE_INFINITY },
                    g as nat,
                ),
            decreases idxs@.len() - g,
        {
            let v = masks[idxs[g]][p];
            assert(v == values(g as int));
            if v.gt(&value) {
                value = v;
                best = g;
            }
            g = g + 1;
        }
        r.push(best);
        p = p + 1;
    }
    r
}

/// Apply the pixel ownership to one member of a group.
fn exclusive_mask(mask: &[Binary32], owners: &[usize], position: usize) -> (r: Vec<Binary32>)
    requires
        owners@.len() == mask@.len(),
    ensures
        r@.len() == mask@.len(),
        forall|p: int|
            #![trigger r@[p]]
            0 <= p < mask@.len() ==> r@[p] == if owners@[p] != position && (Binary32 {
                bits: NO_OBJ_LOGIT,
            }).less(mask@[p]) {
                Binary32 { bits: NO_OBJ_LOGIT }
            } else {
                mask@[p]
            },
{
    let none = Binary32 { bits: NO_OBJ_LOGIT };
    let mut r: Vec<Binary32> = Vec::new();
    let mut p: usize = 0;
    while p < mask.len()
        invariant
            p <= mask@.len(),
            owners@.len() == mask@.len(),
            none == (Binary32 { bits: NO_OBJ_LOGIT }),
            r@.len() == p,
            forall|q: int|
                #![trigger r@[q]]
                0 <= q < p ==> r@[q] == if owners@[q] != position && none.less(mask@[q]) {
                    none
                } else {
                    mask@[q]
                },
        decreases mask@.len() - p,
    {
        if owners[p] != position && mask[p].gt(&none) {
            r.push(none);
        } else {
            r.push(mask[p]);
        }
        p = p + 1;
    }
    r
}

/// Push every pixel of a mask down to the no-object logit or below.
fn blank_mask(mask: &[Binary32]) -> (r: Vec<Binary32>)
    ensures
        r@ == blanked(mask@),
{
    let none = Binary32 { bits: NO_OBJ_LOGIT };
    let mut r: Vec<Binary32> = Vec::new();
    let mut p: usize = 0;
    while p < mask.len()
        invariant
            p <= mask@.len(),
            none == (Binary32 { bits: NO_OBJ_LOGIT }),
            r@ == blanked(mask@).take(p as int),
        decreases mask@.len() - p,
    {
        r.push(mask[p].cap(&none));
        assert(r@ =~= blanked(mask@).take(p + 1));
        p = p + 1;
    }
    assert(r@ =~= blanked(mask@));
    r
}

/// Taking pixels away never adds area.
pub proof fn exclusive_area(masks: Seq<Seq<Binary32>>, members: Seq<int>, g: int)
    ensures
        area(exclusive(masks, members, g)) <= area(masks[members[g]]),
{
    let (a, b) = (
        foreground(exclusive(masks, members, g)),
        foreground(masks[members[g]]),
    );
    assert forall|i: int| 0 <= i < a.len() && a[i] implies b[i] by {}
    tally_monotone(a, b);
}

/// Non-overlap within each prompt, and suppression of masks that lose too much of their area.
pub fn suppress_pw_area_shrinkage(masks: &[Vec<Binary32>], prompts: &[i32]) -> (r: Vec<
    Vec<Binary32>,
>)
    requires
        prompts@.len() == masks@.len(),
        uniform(rows(masks@)),
    ensures
        r@.len() == masks@.len(),
        forall|j: int|
            0 <= j < masks@.len() ==> (#[trigger] r@[j])@ == constrained(
                rows(masks@),
                prompts@,
                j,
            ),
{
    let n: usize = masks.len();
    let ghost grid = rows(masks@);
    let mut out: Vec<Vec<Binary32>> = Vec::new();
    let mut c: usize = 0;
    while c < n
        invariant
            c <= n == masks@.len(),
            out@.len() == c,
            forall|j: int| 0 <= j < c ==> (#[trigger] out@[j])@ == masks@[j]@,
        decreases n - c,
    {
        out.push(copy_mask(&masks[c]));
        c = c + 1;
    }
    let groups: Vec<i32> = unique(prompts);
    let mut k: usize = 0;
    while k < groups.len()
        invariant
            k <= groups@.len(),
            n == masks@.len() == prompts@.len() == out@.len(),
            grid == rows(masks@),
            uniform(grid),
            ascending(groups@),
            groups@.to_set() == prompts@.to_set(),
            forall|j: int|
                #![trigger out@[j]]
                0 <= j < n ==> out@[j]@ == if groups@.take(k as int).contains(prompts@[j]) {
                    constrained(grid, prompts@, j)
                } else {
                    masks@[j]@
                },
        decreases groups@.len() - k,
    {
        let pg: i32 = groups[k];
        let idxs: Vec<usize> = group_indices(prompts, pg);
        let ghost members = group(prompts@, pg);
        let ghost before = out@;
        proof {
            group_members(prompts@, pg);
            assert(indices(idxs@) =~= members);
            assert(groups@.take(k + 1) =~= groups@.take(k as int).push(pg));
            assert forall|j: int| 0 <= j < n implies groups@.take(k + 1).contains(#[trigger] prompts@[j])
                == (groups@.take(k as int).contains(prompts@[j]) || prompts@[j] == pg) by {
                if groups@.take(k as int).contains(prompts@[j]) {
                    let t = choose|t: int|
                        0 <= t < k && groups@.take(k as int)[t] == prompts@[j];
                    assert(groups@.take(k + 1)[t] == prompts@[j]);
                }
                if prompts@[j] == pg {
                    assert(groups@.take(k + 1)[k as int] == pg);
                }
            }
            assert(!groups@.take(k as int).contains(pg)) by {
                if groups@.take(k as int).contains(pg) {
                    let t = choose|t: int| 0 <= t < k && groups@.take(k as int)[t] == pg;
                    assert(groups@[t] < groups@[k as int]);
                }
            }
        }
        if idxs.len() > 1 {
            let len: usize = masks[0].len();
            assert(idxs@[0] as int == members[0]);
            assert(grid[0].len() == len);
            assert(forall|j: int| 0 <= j < masks@.len() ==> (#[trigger] grid[j]).len() == len);
            assert forall|g: int| #![trigger idxs@[g]] 0 <= g < idxs@.len() implies idxs@[g]
                < masks@.len() && masks@[idxs@[g] as int]@.len() == len by {
                assert(members[g] == idxs@[g]);
                assert(grid[members[g]].len() == len);
            }
            let owners: Vec<usize> = pixel_owners(masks, &idxs, len);
            let mut g: usize = 0;
            while g < idxs.len()
                invariant
                    g <= idxs@.len(),
                    idxs@.len() == members.len() > 1,
                    n == masks@.len() == prompts@.len() == out@.len() == before.len(),
                    grid == rows(masks@),
                    members == group(prompts@, pg),
                    indices(idxs@) == members,
                    forall|h: int|
                        #![trigger idxs@[h]]
                        0 <= h < idxs@.len() ==> idxs@[h] < masks@.len() && masks@[idxs@[h] as int]@.len()
                            == len,
                    owners@.len() == len,
                    forall|p: int|
                        0 <= p < len ==> owners@[p] as int == #[trigger] owner(grid, members, p),
                    forall|j: int|
                        #![trigger out@[j]]
                        0 <= j < n ==> out@[j]@ == if members.take(g as int).contains(j) {
                            member_mask(grid, members, members.index_of(j))
                        } else {
                            before[j]@
                        },
                decreases idxs@.len() - g,
            {
                let j: usize = idxs[g];
                let ghost prior = out@;
                proof {
                    assert(members[g as int] == j);
                    member_position(prompts@, pg, g as int);
                    group_members(prompts@, pg);
                    exclusive_area(grid, members, g as int);
                }
                let kept: Vec<Binary32> = exclusive_mask(&masks[j], &owners, g);
                assert(kept@ =~= exclusive(grid, members, g as int)) by {
                    assert forall|p: int| 0 <= p < len implies kept@[p] == exclusive(
                        grid,
                        members,
                        g as int,
                    )[p] by {
                        assert(owners@[p] as int == owner(grid, members, p));
                    }
                }
                let had: u64 = count_foreground(&masks[j]);
                let has: u64 = count_foreground(&kept);
                let before_area: u64 = if had == 0 {
                    1
                } else {
                    had
                };
                let share = count_ratio(has, before_area);
                if share.ge(&Binary32 { bits: KEPT_AREA }) {
                    out[j] = kept;
                } else {
                    let blank: Vec<Binary32> = blank_mask(&masks[j]);
                    out[j] = blank;
                }
                proof {
                    assert(out@[j as int]@ == member_mask(grid, members, g as int));
                    assert(members.take(g + 1) =~= members.take(g as int).push(j as int));
                    assert forall|i: int| #![trigger out@[i]] 0 <= i < n implies out@[i]@
                        == if members.take(g + 1).contains(i) {
                        member_mask(grid, members, members.index_of(i))
                    } else {
                        before[i]@
                    } by {
                        if i == j {
                            assert(members.take(g + 1)[g as int] == j);
                        } else {
                            assert(out@[i] == prior[i]);
                            if members.take(g as int).contains(i) {
                                let t = choose|t: int|
                                    0 <= t < g && members.take(g as int)[t] == i;
                                assert(members.take(g + 1)[t] == i);
                            }
                            if members.take(g + 1).contains(i) {
                                let more = members.take(g + 1);
                                let t = choose|t: int| 0 <= t < more.len() && more[t] == i;
                                assert(t < g);
                                assert(members.take(g as int)[t] == i);
                            }
                        }
                    }
                }
                g = g + 1;
            }
            assert(members.take(members.len() as int) =~= members);
        }
        proof {
            assert forall|j: int| #![trigger out@[j]] 0 <= j < n implies out@[j]@
                == if groups@.take(k + 1).contains(prompts@[j]) {
                constrained(grid, prompts@, j)
            } else {
                masks@[j]@
            } by {
                if prompts@[j] == pg {
                    assert(members.contains(j));
                } else if members.contains(j) {
                    let t = choose|t: int| 0 <= t < members.len() && members[t] == j;
                    assert(prompts@[members[t]] == pg);
                }
                assert(before[j]@ == if groups@.take(k as int).contains(prompts@[j]) {
                    constrained(grid, prompts@, j)
                } else {
                    masks@[j]@
                });
            }
        }
        k = k + 1;
    }
    proof {
        assert(groups@.take(groups@.len() as int) =~= groups@);
        assert forall|j: int| 0 <= j < masks@.len() implies (#[trigger] out@[j])@ == constrained(
            grid,
            prompts@,
            j,
        ) by {
            assert(prompts@.to_set().contains(prompts@[j]));
            assert(groups@.contains(prompts@[j]));
        }
    }
    out
}

/// Overlap does not depend on the order of the two masks.
pub proof fn iou_is_symmetric(a: Seq<bool>, b: Seq<bool>)
    ensures
        iou(a, b) == iou(b, a),
{
    assert(both(a, b) =~= both(b, a));
    assert(either(a, b) =~= either(b, a));
}

/// A mask that covers something overlaps itself by exactly one; an empty mask overlaps nothing.
pub proof fn iou_with_itself(a: Seq<bool>)
    requires
        a.len() <= u64::MAX,
    ensures
        tally(a) > 0 ==> iou(a, a) == (Binary32 { bits: 0x3f80_0000 }),
        tally(a) == 0 ==> iou(a, a) == (Binary32 { bits: ZERO }),
{
    assert(both(a, a) =~= a);
    assert(either(a, a) =~= a);
    tally_bounds(a);
    let n = tally(a) as u64;
    if n > 0 {
        counts_keep_their_order(n, n);
        one_is_exact(crate::binary32::as_single(n as int).scaled_value());
    } else {
        let zero = Binary32 { bits: ZERO };
        assert(zero.scaled_value() == 0);
        counts_keep_their_order(1, 1);
        small_counts_are_exact(0);
        small_counts_are_exact(1);
        exact_quotient(0, unit(), zero);
    }
}

/// Within one prompt, no pixel exceeds the no-object logit in two masks; in particular none is
/// foreground in two.
pub proof fn constrained_masks_are_disjoint(
    masks: Seq<Seq<Binary32>>,
    prompts: Seq<i32>,
    i: int,
    j: int,
    p: int,
)
    requires
        masks.len() == prompts.len(),
        uniform(masks),
        0 <= i < masks.len(),
        0 <= j < masks.len(),
        i != j,
        prompts[i] == prompts[j],
        0 <= p < masks[i].len(),
    ensures
        ({
            let none = Binary32 { bits: NO_OBJ_LOGIT };
            !(none.less(constrained(masks, prompts, i)[p]) && none.less(
                constrained(masks, prompts, j)[p],
            ))
        }),
        !(positive(constrained(masks, prompts, i)[p]) && positive(
            constrained(masks, prompts, j)[p],
        )),
{
    let members = group(prompts, prompts[i]);
    group_members(prompts, prompts[i]);
    assert(members.contains(i) && members.contains(j));
    let (g, h) = (members.index_of(i), members.index_of(j));
    assert(members[g] == i && members[h] == j && g != h);
    assert(members.len() > 1);
    assert(masks[i].len() == masks[j].len());
    let none = Binary32 { bits: NO_OBJ_LOGIT };
    let (a, b) = (constrained(masks, prompts, i)[p], constrained(masks, prompts, j)[p]);
    assert(forall|v: Binary32| !none.less(#[trigger] v.capped(none)));
    assert(none.less(a) ==> owner(masks, members, p) == g);
    assert(none.less(b) ==> owner(masks, members, p) == h);
    assert(positive(a) ==> none.less(a));
    assert(positive(b) ==> none.less(b));
}

/// The overlap rules only ever lower a logit, and leave a mask alone in its prompt untouched.
pub proof fn constrained_masks_shrink(
    masks: Seq<Seq<Binary32>>,
    prompts: Seq<i32>,
    j: int,
    p: int,
)
    requires
        masks.len() == prompts.len(),
        0 <= j < masks.len(),
        0 <= p < masks[j].len(),
    ensures
        constrained(masks, prompts, j).len() == masks[j].len(),
        !masks[j][p].nan() ==> constrained(masks, prompts, j)[p].at_most(masks[j][p]),
        positive(constrained(masks, prompts, j)[p]) ==> constrained(masks, prompts, j)[p]
            == masks[j][p],
        group(prompts, prompts[j]).len() <= 1 ==> constrained(masks, prompts, j) == masks[j],
{
    let members = group(prompts, prompts[j]);
    group_members(prompts, prompts[j]);
    assert(members.contains(j));
    let g = members.index_of(j);
    assert(members[g] == j);
    let none = Binary32 { bits: NO_OBJ_LOGIT };
    assert(!positive(none));
}

/// A pixel is foreground where its logit is greater than zero: a positive number or positive
/// infinity, neither a zero nor a number below it nor one that is no number.
pub proof fn foreground_is_above_zero(m: Seq<Binary32>, p: int)
    requires
        0 <= p < m.len(),
    ensures
        foreground(m).len() == m.len(),
        foreground(m)[p] <==> 0 < m[p].bits <= 0x7f80_0000,
{
}

/// The overlap of two masks of one size is the single nearest to the pixels they share over the
/// pixels that either covers.
pub proof fn overlap_is_shared_over_covered(a: Seq<bool>, b: Seq<bool>)
    requires
        a.len() == b.len() <= 0x100_0000,
        exists|p: int| 0 <= p < a.len() && (#[trigger] a[p] || b[p]),
    ensures
        ({
            let shared = tally(Seq::new(a.len(), |p: int| a[p] && b[p]));
            let covered = tally(Seq::new(a.len(), |p: int| a[p] || b[p]));
            is_nearest_quotient(shared as int, covered as int, iou(a, b))
        }),
{
    let shared = tally(both(a, b));
    let covered = tally(either(a, b));
    assert(both(a, b) =~= Seq::new(a.len(), |p: int| a[p] && b[p]));
    assert(either(a, b) =~= Seq::new(a.len(), |p: int| a[p] || b[p]));
    tally_bounds(both(a, b));
    tally_bounds(either(a, b));
    let p = choose|p: int| 0 <= p < a.len() && (#[trigger] a[p] || b[p]);
    assert(either(a, b)[p]);
    assert(covered > 0);
    ratio_of_small_counts(shared as int, covered as int);
}

/// Masks without a common pixel overlap by zero.
pub proof fn disjoint_masks_do_not_overlap(a: Seq<bool>, b: Seq<bool>)
    requires
        a.len() <= u64::MAX,
        forall|p: int| 0 <= p < a.len() && p < b.len() ==> !(#[trigger] a[p] && b[p]),
    ensures
        iou(a, b) == (Binary32 { bits: 0 }),
{
    let zero = Binary32 { bits: 0 };
    assert forall|p: int| 0 <= p < both(a, b).len() implies !#[trigger] both(a, b)[p] by {
        assert(!(a[p] && b[p]));
    }
    tally_bounds(both(a, b));
    tally_bounds(either(a, b));
    assert(tally(both(a, b)) == 0);
    let d = at_least_one(tally(either(a, b))) as u64;
    counts_keep_their_order(d, d);
    assert(zero.scaled_value() == 0);
    exact_quotient(0, 1, zero);
    exact_quotient(0, as_single(d as int).scaled_value(), zero);
}

/// Another object of the prompt of object `j` has a greater logit at pixel `p`, or an equal one and
/// comes first.
pub open spec fn beaten(masks: Seq<Seq<Binary32>>, prompts: Seq<i32>, j: int, p: int) -> bool {
    exists|i: int|
        0 <= i < masks.len() && i != j && prompts[i] == prompts[j] && (masks[j][p].less(
            #[trigger] masks[i][p],
        ) || (i < j && masks[i][p].rank() == masks[j][p].rank()))
}

/// The foreground pixels of object `j` that no other object of its prompt takes.
pub open spec fn held(masks: Seq<Seq<Binary32>>, prompts: Seq<i32>, j: int) -> Seq<bool> {
    Seq::new(
        masks[j].len(),
        |p: int| positive(masks[j][p]) && !beaten(masks, prompts, j, p),
    )
}

proof fn the_owner_is_not_beaten(masks: Seq<Seq<Binary32>>, prompts: Seq<i32>, j: int, p: int)
    requires
        masks.len() == prompts.len(),
        uniform(masks),
        0 <= j < masks.len(),
        0 <= p < masks[j].len(),
        forall|i: int| 0 <= i < masks.len() ==> !(#[trigger] masks[i][p]).nan(),
    ensures
        ({
            let members = group(prompts, prompts[j]);
            (owner(masks, members, p) == members.index_of(j)) == !beaten(masks, prompts, j, p)
        }),
{
    let members = group(prompts, prompts[j]);
    group_members(prompts, prompts[j]);
    assert(members.contains(j));
    let g = members.index_of(j);
    let values = logits_at(masks, members, p);
    let floor = Binary32 { bits: NEGATIVE_INFINITY };
    running_best_dominates(values, floor, members.len());
    let (best, value) = running_best(values, floor, members.len());
    let i = members[best];
    assert(prompts[i] == prompts[j]);
    assert(values(best) == masks[i][p]);
    assert(values(g) == masks[j][p]);
    assert(!masks[i][p].nan());
    assert(!masks[j][p].nan());
    if best != g {
        assert(i != j);
        if !masks[j][p].less(masks[i][p]) {
            assert(masks[i][p].rank() == masks[j][p].rank());
            if g < best {
                assert(!value.at_most(values(g)));
            }
        }
        assert(beaten(masks, prompts, j, p));
    } else if beaten(masks, prompts, j, p) {
        let k = choose|k: int|
            0 <= k < masks.len() && k != j && prompts[k] == prompts[j] && (masks[j][p].less(
                #[trigger] masks[k][p],
            ) || (k < j && masks[k][p].rank() == masks[j][p].rank()));
        assert(members.contains(k));
        let h = members.index_of(k);
        assert(values(h) == masks[k][p]);
        assert(!value.less(values(h)));
        if k < j {
            if h > g {
                assert(members[g] < members[h]);
            }
            assert(h < g);
            assert(!value.at_most(values(h)));
        }
    }
}

/// Of objects that share a prompt, each keeps a pixel unless another has a greater logit there; a
/// lost pixel is lowered to minus ten. An object that would keep less than three tenths of its
/// foreground is lowered to minus ten everywhere instead. An object alone with its prompt keeps its
/// mask.
pub proof fn pixels_go_to_the_greatest_logit(
    masks: Seq<Seq<Binary32>>,
    prompts: Seq<i32>,
    j: int,
)
    requires
        masks.len() == prompts.len(),
        uniform(masks),
        0 <= j < masks.len(),
        forall|i: int, p: int|
            0 <= i < masks.len() && 0 <= p < masks[j].len() ==> !(#[trigger] masks[i][p]).nan(),
    ensures
        ({
            let after = constrained(masks, prompts, j);
            let none = Binary32 { bits: 0xc120_0000 };
            let shared = exists|i: int|
                0 <= i < masks.len() && i != j && #[trigger] prompts[i] == prompts[j];
            let whole = if area(masks[j]) == 0 {
                1
            } else {
                area(masks[j])
            };
            let enough = (Binary32 { bits: 0x3e99_999a }).at_most(
                ratio(tally(held(masks, prompts, j)) as int, whole as int),
            );
            &&& after.len() == masks[j].len()
            &&& !shared ==> after == masks[j]
            &&& shared ==> forall|p: int|
                0 <= p < after.len() ==> #[trigger] after[p] == if enough && !beaten(
                    masks,
                    prompts,
                    j,
                    p,
                ) || masks[j][p].less(none) {
                    masks[j][p]
                } else {
                    none
                }
        }),
{
    let members = group(prompts, prompts[j]);
    group_members(prompts, prompts[j]);
    assert(members.contains(j));
    let g = members.index_of(j);
    let after = constrained(masks, prompts, j);
    let none = Binary32 { bits: 0xc120_0000 };
    let shared = exists|i: int|
        0 <= i < masks.len() && i != j && #[trigger] prompts[i] == prompts[j];
    if shared {
        let i = choose|i: int| 0 <= i < masks.len() && i != j && #[trigger] prompts[i] == prompts[j];
        assert(members.contains(i));
        assert(members.index_of(i) != g);
        assert(members.len() > 1);
        let taken = exclusive(masks, members, g);
        assert forall|p: int| 0 <= p < masks[j].len() implies #[trigger] taken[p] == (if !beaten(
            masks,
            prompts,
            j,
            p,
        ) || !none.less(masks[j][p]) {
            masks[j][p]
        } else {
            none
        }) by {
            the_owner_is_not_beaten(masks, prompts, j, p);
        }
        assert(foreground(taken) =~= held(masks, prompts, j));
        assert forall|p: int| 0 <= p < after.len() implies !(#[trigger] masks[j][p]).nan() by {}
        assert forall|p: int| 0 <= p < after.len() && !none.less(masks[j][p]) && !masks[j][p].less(
            none,
        ) implies #[trigger] masks[j][p] == none by {
            assert(masks[j][p].rank() == none.rank());
        }
    } else {
        assert(members.len() <= 1) by {
            if members.len() > 1 {
                let h = if g == 0 {
                    1int
                } else {
                    0int
                };
                assert(members[h] != j);
                assert(prompts[members[h]] == prompts[j]);
            }
        }
    }
}

} // verus!
