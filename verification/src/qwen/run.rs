//! The order of work in a generation: what to encode, the steps of each image with their progress,
//! and where a run stops.
use vstd::prelude::*;

verus! {

/// One piece of work.
#[derive(Clone, Copy, Debug, PartialEq, Eq, Structural)]
pub enum Work {
    /// Run the vision tower over the first reference.
    EncodeVision,
    /// Encode the prompt.
    EncodePositive,
    /// Encode the negative prompt.
    EncodeNegative,
    /// Encode image `index` of the plan into packed latents.
    EncodeImage { index: usize },
    /// Draw the noise of an image; where `blend` holds, blend it with the encoded image at the
    /// noise level of the first step.
    Noise { seed: u64, blend: bool },
    /// Predict and take step `index` of the schedule, then report `current` of `total`.
    Step { index: usize, current: u32, total: u32 },
    /// Report decoding, then decode the latents of an image.
    Decode { image: u32 },
    /// Stop: the run was cancelled.
    Cancelled,
    /// All images are there.
    Finished,
}

/// What a run is made of.
#[derive(Debug)]
pub struct RunPlan {
    /// The work before the first image.
    pub prepare: Vec<Work>,
    /// The number of images.
    pub count: u32,
    /// The seed of the first image.
    pub base_seed: u64,
    /// The first step of each image.
    pub start: u32,
    /// The steps of the schedule.
    pub steps: u32,
    /// The latents start from an encoded image.
    pub blend: bool,
}

/// The seed of image `i`: consecutive, modulo the range of seeds.
pub open spec fn seed_of(base: u64, i: int) -> u64 {
    ((base + i) % 0x1_0000_0000_0000_0000) as u64
}

impl RunPlan {
    /// The schedule reaches the first step.
    pub open spec fn wf(self) -> bool {
        self.start <= self.steps
    }

    /// The steps taken per image.
    pub open spec fn total(self) -> int {
        self.steps - self.start
    }

    /// The steps of one image.
    pub open spec fn steps_work(self) -> Seq<Work> {
        Seq::new(
            self.total() as nat,
            |j: int|
                Work::Step {
                    index: (self.start + j) as usize,
                    current: (j + 1) as u32,
                    total: self.total() as u32,
                },
        )
    }

    /// The work for image `i`.
    pub open spec fn image_work(self, i: int) -> Seq<Work> {
        seq![Work::Noise { seed: seed_of(self.base_seed, i), blend: self.blend }]
            + self.steps_work() + seq![Work::Decode { image: i as u32 }]
    }

    /// The work for the first `n` images.
    pub open spec fn images_work(self, n: nat) -> Seq<Work>
        decreases n,
    {
        if n == 0 {
            Seq::empty()
        } else {
            self.images_work((n - 1) as nat) + self.image_work(n - 1)
        }
    }

    /// All the work of a run that is not cancelled.
    pub open spec fn script(self) -> Seq<Work> {
        self.prepare@ + self.images_work(self.count as nat)
    }

    /// Where the work for image `i` begins.
    pub open spec fn begins(self, i: int) -> int {
        self.prepare@.len() + i * (self.total() + 2)
    }
}

proof fn images_work_length(plan: RunPlan, n: nat)
    requires
        plan.wf(),
    ensures
        plan.images_work(n).len() == n * (plan.total() + 2),
    decreases n,
{
    if n > 0 {
        images_work_length(plan, (n - 1) as nat);
        assert(plan.image_work(n - 1).len() == plan.total() + 2);
        assert((n - 1) * (plan.total() + 2) + (plan.total() + 2) == n * (plan.total() + 2))
            by (nonlinear_arith);
    } else {
        assert(0 * (plan.total() + 2) == 0);
    }
}

proof fn images_work_at(plan: RunPlan, n: nat, i: int, j: int)
    requires
        plan.wf(),
        0 <= i < n,
        0 <= j < plan.total() + 2,
    ensures
        0 <= i * (plan.total() + 2) + j < plan.images_work(n).len(),
        plan.images_work(n)[i * (plan.total() + 2) + j] == plan.image_work(i)[j],
    decreases n,
{
    let l = plan.total() + 2;
    let k = i * l + j;
    images_work_length(plan, n);
    images_work_length(plan, (n - 1) as nat);
    assert(0 <= k) by (nonlinear_arith)
        requires
            k == i * l + j,
            i >= 0,
            j >= 0,
            l >= 0,
    ;
    assert(plan.image_work(n - 1).len() == l);
    if i == n - 1 {
        assert(plan.images_work(n)[k] == plan.image_work(n - 1)[k - (n - 1) * l]);
    } else {
        images_work_at(plan, (n - 1) as nat, i, j);
        assert(plan.images_work(n)[k] == plan.images_work((n - 1) as nat)[k]);
    }
    assert((n - 1) * l + l == n * l) by (nonlinear_arith);
}

/// The length of a run: its preparation, and for each image a start, its steps and a decoding.
pub proof fn length_of_a_run(plan: RunPlan)
    requires
        plan.wf(),
    ensures
        plan.script().len() == plan.begins(plan.count as int),
{
    images_work_length(plan, plan.count as nat);
}

/// Each image draws its noise from its own seed, takes every step from the first to the last in
/// order, reporting one more each time until all are reported, and is decoded.
pub proof fn work_for_an_image(plan: RunPlan, i: int, j: int)
    requires
        plan.wf(),
        0 <= i < plan.count,
        0 <= j < plan.total(),
    ensures
        ({
            let s = plan.script();
            let b = plan.begins(i);
            &&& 0 <= b
            &&& b + plan.total() + 1 < s.len()
            &&& s[b] == (Work::Noise { seed: seed_of(plan.base_seed, i), blend: plan.blend })
            &&& s[b + 1 + j] == (Work::Step {
                index: (plan.start + j) as usize,
                current: (j + 1) as u32,
                total: plan.total() as u32,
            })
            &&& s[b + plan.total() + 1] == (Work::Decode { image: i as u32 })
        }),
{
    let n = plan.count as nat;
    script_at(plan, i, 0);
    script_at(plan, i, 1 + j);
    script_at(plan, i, plan.total() + 1);
}

proof fn script_at(plan: RunPlan, i: int, j: int)
    requires
        plan.wf(),
        0 <= i < plan.count,
        0 <= j < plan.total() + 2,
    ensures
        0 <= plan.begins(i) + j < plan.script().len(),
        plan.script()[plan.begins(i) + j] == plan.image_work(i)[j],
        plan.begins(i) >= plan.prepare@.len(),
{
    images_work_at(plan, plan.count as nat, i, j);
    assert(0 <= i * (plan.total() + 2)) by (nonlinear_arith)
        requires
            i >= 0,
            plan.total() >= 0,
    ;
}

/// Images of one run have different seeds.
pub proof fn seeds_differ(base: u64, i: int, j: int)
    requires
        0 <= i < j <= u32::MAX,
    ensures
        seed_of(base, i) != seed_of(base, j),
{
}

/// A run under way.
#[derive(Debug)]
pub struct Run {
    pub plan: RunPlan,
    /// How much of the preparation is done.
    pub prepared: usize,
    /// The image at hand.
    pub image: u32,
    /// How much of the work for the image at hand is done.
    pub within: u64,
}

impl Run {
    /// The place of a run in its plan.
    pub open spec fn wf(self) -> bool {
        &&& self.plan.wf()
        &&& self.prepared <= self.plan.prepare@.len()
        &&& self.prepared < self.plan.prepare@.len() ==> self.image == 0 && self.within == 0
        &&& self.image <= self.plan.count
        &&& self.within < self.plan.total() + 2
        &&& self.image == self.plan.count ==> self.within == 0
    }

    /// How much of the script is done.
    pub open spec fn done(self) -> int {
        self.prepared + self.image * (self.plan.total() + 2) + self.within
    }

    /// Begin a run.
    pub fn begin(plan: RunPlan) -> (r: Run)
        requires
            plan.wf(),
        ensures
            r.wf(),
            r.plan == plan,
            r.done() == 0,
    {
        assert(0 * (plan.total() + 2) == 0);
        Run { plan, prepared: 0, image: 0, within: 0 }
    }

    /// The next piece of work. A cancelled run stops before its next step, and stays there.
    pub fn next(&mut self, cancelled: bool) -> (r: Work)
        requires
            old(self).wf(),
        ensures
            final(self).wf(),
            final(self).plan == old(self).plan,
            ({
                let script = old(self).plan.script();
                let k = old(self).done();
                if k >= script.len() {
                    r == Work::Finished && *final(self) == *old(self)
                } else if cancelled && script[k] is Step {
                    r == Work::Cancelled && *final(self) == *old(self)
                } else {
                    r == script[k] && final(self).done() == k + 1
                }
            }),
    {
        let ghost plan = self.plan;
        let ghost k = self.done();
        let ghost l = plan.total() + 2;
        proof {
            length_of_a_run(plan);
        }
        if self.prepared < self.plan.prepare.len() {
            let w: Work = self.plan.prepare[self.prepared];
            assert(0 * l == 0);
            assert(k == self.prepared);
            assert(plan.script()[k] == plan.prepare@[k]);
            assert(k < plan.script().len()) by {
                assert(0 <= plan.count * l) by (nonlinear_arith)
                    requires
                        plan.count >= 0,
                        l >= 0,
                ;
            }
            if cancelled {
                if let Work::Step { .. } = w {
                    return Work::Cancelled;
                }
            }
            self.prepared = self.prepared + 1;
            return w;
        }
        if self.image >= self.plan.count {
            return Work::Finished;
        }
        let total: u32 = self.plan.steps - self.plan.start;
        let image: u32 = self.image;
        let within: u64 = self.within;
        proof {
            script_at(plan, image as int, within as int);
            assert(k == plan.begins(image as int) + within);
        }
        if within == 0 {
            let seed: u64 = self.plan.base_seed.wrapping_add(image as u64);
            self.within = 1;
            assert(seed == seed_of(plan.base_seed, image as int));
            return Work::Noise { seed, blend: self.plan.blend };
        }
        if within <= total as u64 {
            if cancelled {
                return Work::Cancelled;
            }
            let j: u32 = (within - 1) as u32;
            let index: u32 = self.plan.start + j;
            self.within = within + 1;
            return Work::Step { index: index as usize, current: j + 1, total };
        }
        self.image = image + 1;
        self.within = 0;
        assert((image + 1) * l == image * l + l) by (nonlinear_arith);
        Work::Decode { image }
    }
}

/// The first image goes by the seed of the run, and each one after it by the next seed; the greatest
/// seed is followed by zero.
pub proof fn seeds_count_up(base: u64, i: int)
    requires
        0 <= i,
    ensures
        seed_of(base, 0) == base,
        seed_of(base, i) < u64::MAX ==> seed_of(base, i + 1) == seed_of(base, i) + 1,
        seed_of(base, i) == u64::MAX ==> seed_of(base, i + 1) == 0,
{
}

/// A run starts with its preparation, and makes as many images as it was asked for, each from one
/// noise and to one decoding, with the steps from its first to its last between them.
pub proof fn runs_prepare_first(plan: RunPlan, k: int)
    requires
        plan.wf(),
        0 <= k < plan.prepare@.len(),
    ensures
        plan.script()[k] == plan.prepare@[k],
        plan.script().len() == plan.prepare@.len() + plan.count * (plan.steps - plan.start + 2),
{
    length_of_a_run(plan);
}

} // verus!
