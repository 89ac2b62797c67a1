use vstd::prelude::*;
use vstd::arithmetic::div_mod::{lemma_div_is_ordered, lemma_div_multiples_vanish};
use crate::image_buf::{average_spec, draw_rectangles, rect_in_image, RGBAImage};
use crate::math::MAX_CANDIDATE_ERROR;
use crate::ranking::{insert_index, last_big, sorted_by_error, Candidate, Ranking};
use crate::rect::{lemma_rects_area_prefix_step, rects_area_sum, Point, Rectangle};
use crate::score::{error_image, error_spec};

verus! {

/// Emitting a frame requires the scaled total error to improve by more
/// than this: 10.000001 in the ten-millionth units that candidate errors
/// are carried in.
pub const ERROR_RATE_SAVE_FRAME: u64 = 100000010;

/// A candidate the engine may hold: a non-degenerate rectangle inside a
/// `w` by `h` image, with a bounded error.
pub open spec fn candidate_ok(c: Candidate, w: int, h: int) -> bool {
    &&& c.rect.non_degenerate()
    &&& c.rect.bottom_right.x <= w
    &&& c.rect.bottom_right.y <= h
    &&& c.error <= MAX_CANDIDATE_ERROR
}

/// Total pixel count of a sequence of candidates.
pub open spec fn area_sum(s: Seq<Candidate>) -> int
    decreases s.len(),
{
    if s.len() == 0 {
        0
    } else {
        area_sum(s.drop_last()) + s.last().rect.area_spec()
    }
}

/// Error-weighted area of a sequence of candidates.
pub open spec fn weighted_sum(s: Seq<Candidate>) -> int
    decreases s.len(),
{
    if s.len() == 0 {
        0
    } else {
        weighted_sum(s.drop_last()) + s.last().error * s.last().rect.area_spec()
    }
}

/// The scaled total error of a candidate set over a `w` by `h` image: the
/// error-weighted area per image pixel.
pub open spec fn total_error_spec(s: Seq<Candidate>, w: int, h: int) -> int {
    weighted_sum(s) / (w * h)
}

/// Whether some candidate of `cs` covers the pixel at `(x, y)`.
pub open spec fn cover_of(cs: Seq<Candidate>, x: int, y: int) -> bool {
    exists|i: int| 0 <= i < cs.len() && (#[trigger] cs[i].rect.contains(x, y))
}

/// Every pixel covered by a candidate of `cs2` is covered by a candidate
/// of `cs1` as well.
pub open spec fn covered_by(cs2: Seq<Candidate>, cs1: Seq<Candidate>) -> bool {
    forall|j: int, x: int, y: int|
        0 <= j < cs2.len() && (#[trigger] cs2[j].rect.contains(x, y)) ==> cover_of(cs1, x, y)
}

/// Between `before` and `after`, no pixel of the image outside every
/// candidate of `cs` has changed.
pub open spec fn untouched_outside(
    cs: Seq<Candidate>,
    im: RGBAImage,
    before: RGBAImage,
    after: RGBAImage,
) -> bool {
    forall|x: int, y: int|
        #![trigger after.pixel_spec(x, y)]
        im.in_bounds(x, y) && !cover_of(cs, x, y) ==> after.pixel_spec(x, y) == before.pixel_spec(
            x,
            y,
        )
}

/// Every pixel of `after` either keeps its `before` value or carries the
/// average color of some non-degenerate region of `im` that contains it.
pub open spec fn repainted_with_averages(
    im: RGBAImage,
    before: RGBAImage,
    after: RGBAImage,
) -> bool {
    forall|x: int, y: int|
        #![trigger after.pixel_spec(x, y)]
        im.in_bounds(x, y) ==> after.pixel_spec(x, y) == before.pixel_spec(x, y) || (exists|rr: Rectangle|
            rr.non_degenerate() && rect_in_image(rr, im) && (#[trigger] rr.contains(x, y))
                && after.pixel_spec(x, y) == average_spec(im, rr))
}

/// Rank the rectangles of `children` into `s`, in order, each at the
/// stable position of its weighted error on `im`.
pub open spec fn rank_children(s: Seq<Candidate>, children: Seq<Rectangle>, im: RGBAImage) -> Seq<Candidate>
    decreases children.len(),
{
    if children.len() == 0 {
        s
    } else {
        let c = Candidate { error: error_spec(im, children[0]) as u64, rect: children[0] };
        rank_children(
            s.insert(insert_index(s, c.error), c),
            children.subrange(1, children.len() as int),
            im,
        )
    }
}

/// One internal pass of the engine over the candidate set, for image `im`
/// and size filter `m`: the last candidate large enough for the filter is
/// removed and the children of its midpoint split are ranked in, each
/// with its weighted error.
pub open spec fn step_rel(pre: Seq<Candidate>, post: Seq<Candidate>, im: RGBAImage, m: int) -> bool {
    let k = last_big(pre, m);
    &&& k >= 0
    &&& post == rank_children(pre.subrange(0, k), pre[k].rect.split_spec(), im)
}

/// `post` follows from `pre` by exactly `n` passes.
pub open spec fn reachable(
    pre: Seq<Candidate>,
    post: Seq<Candidate>,
    im: RGBAImage,
    m: int,
    n: nat,
) -> bool
    decreases n,
{
    if n == 0 {
        post == pre
    } else {
        exists|mid: Seq<Candidate>|
            #[trigger] step_rel(pre, mid, im, m) && reachable(mid, post, im, m, (n - 1) as nat)
    }
}

/// A pass appended after a chain of passes extends the chain.
pub proof fn lemma_reachable_snoc(
    pre: Seq<Candidate>,
    mid: Seq<Candidate>,
    post: Seq<Candidate>,
    im: RGBAImage,
    m: int,
    n: nat,
)
    requires
        reachable(pre, mid, im, m, n),
        step_rel(mid, post, im, m),
    ensures
        reachable(pre, post, im, m, n + 1),
    decreases n,
{
    if n == 0 {
        assert(step_rel(pre, post, im, m) && reachable(post, post, im, m, 0));
    } else {
        let mid1 = choose|mid1: Seq<Candidate>|
            #[trigger] step_rel(pre, mid1, im, m) && reachable(mid1, mid, im, m, (n - 1) as nat);
        lemma_reachable_snoc(mid1, mid, post, im, m, (n - 1) as nat);
        assert(step_rel(pre, mid1, im, m) && reachable(mid1, post, im, m, n));
    }
}

/// Ranking one more child is one more stable insertion.
pub proof fn lemma_rank_children_push(
    s: Seq<Candidate>,
    children: Seq<Rectangle>,
    r: Rectangle,
    im: RGBAImage,
)
    ensures
        rank_children(s, children.push(r), im) == ({
            let t = rank_children(s, children, im);
            let c = Candidate { error: error_spec(im, r) as u64, rect: r };
            t.insert(insert_index(t, c.error), c)
        }),
    decreases children.len(),
{
    let p = children.push(r);
    if children.len() == 0 {
        assert(p[0] == r);
        assert(p.subrange(1, p.len() as int) =~= Seq::<Rectangle>::empty());
        let c = Candidate { error: error_spec(im, r) as u64, rect: r };
        let s1 = s.insert(insert_index(s, c.error), c);
        assert(rank_children(s, p, im) == rank_children(s1, p.subrange(1, p.len() as int), im));
        assert(rank_children(s1, p.subrange(1, p.len() as int), im) == s1);
        assert(rank_children(s, children, im) == s);
    } else {
        assert(p[0] == children[0]);
        let c0 = Candidate { error: error_spec(im, children[0]) as u64, rect: children[0] };
        let s1 = s.insert(insert_index(s, c0.error), c0);
        let ch1 = children.subrange(1, children.len() as int);
        assert(p.subrange(1, p.len() as int) =~= ch1.push(r));
        lemma_rank_children_push(s1, ch1, r, im);
        assert(rank_children(s, p, im) == rank_children(s1, p.subrange(1, p.len() as int), im));
        assert(rank_children(s, children, im) == rank_children(s1, ch1, im));
    }
}

/// Extending a candidate prefix by one adds that candidate's area.
pub proof fn lemma_area_sum_prefix_step(s: Seq<Candidate>, k: int)
    requires
        0 <= k < s.len(),
    ensures
        area_sum(s.subrange(0, k + 1)) == area_sum(s.subrange(0, k)) + s[k].rect.area_spec(),
{
    let p = s.subrange(0, k + 1);
    assert(p.drop_last() =~= s.subrange(0, k));
    assert(p.last() == s[k]);
}

/// Extending a candidate prefix by one adds that candidate's weighted area.
pub proof fn lemma_weighted_sum_prefix_step(s: Seq<Candidate>, k: int)
    requires
        0 <= k < s.len(),
    ensures
        weighted_sum(s.subrange(0, k + 1)) == weighted_sum(s.subrange(0, k)) + s[k].error * s[
            k
        ].rect.area_spec(),
{
    let p = s.subrange(0, k + 1);
    assert(p.drop_last() =~= s.subrange(0, k));
    assert(p.last() == s[k]);
}

/// Dropping a suffix of candidates with non-negative areas cannot increase
/// the total area.
pub proof fn lemma_area_sum_prefix(s: Seq<Candidate>, k: int)
    requires
        0 <= k <= s.len(),
        forall|i: int| 0 <= i < s.len() ==> (#[trigger] s[i]).rect.area_spec() >= 0,
    ensures
        area_sum(s.subrange(0, k)) <= area_sum(s),
    decreases s.len(),
{
    if k == s.len() {
        assert(s.subrange(0, k) =~= s);
    } else {
        let d = s.drop_last();
        assert(s.subrange(0, k) =~= d.subrange(0, k));
        lemma_area_sum_prefix(d, k);
    }
}

/// Inserting a candidate anywhere adds exactly its area to the total.
pub proof fn lemma_area_sum_insert(s: Seq<Candidate>, k: int, c: Candidate)
    requires
        0 <= k <= s.len(),
    ensures
        area_sum(s.insert(k, c)) == area_sum(s) + c.rect.area_spec(),
    decreases s.len(),
{
    let t = s.insert(k, c);
    if k == s.len() {
        assert(t.drop_last() =~= s);
        assert(t.last() == c);
    } else {
        assert(t.drop_last() =~= s.drop_last().insert(k, c));
        assert(t.last() == s.last());
        lemma_area_sum_insert(s.drop_last(), k, c);
    }
}

/// The weighted area of candidates inside a `w` by `h` image is
/// non-negative and at most the maximal candidate error times their total
/// area.
pub proof fn lemma_weighted_sum_bounds(s: Seq<Candidate>, w: int, h: int)
    requires
        forall|i: int| 0 <= i < s.len() ==> candidate_ok(#[trigger] s[i], w, h),
    ensures
        0 <= weighted_sum(s),
        weighted_sum(s) <= MAX_CANDIDATE_ERROR * area_sum(s),
        0 <= area_sum(s),
    decreases s.len(),
{
    if s.len() > 0 {
        let d = s.drop_last();
        lemma_weighted_sum_bounds(d, w, h);
        let c = s.last();
        let a = c.rect.area_spec();
        assert(a >= 1) by (nonlinear_arith)
            requires c.rect.width_spec() >= 1, c.rect.height_spec() >= 1, a == c.rect.width_spec() * c.rect.height_spec(),
        ;
        assert(0 <= c.error * a <= MAX_CANDIDATE_ERROR * a) by (nonlinear_arith)
            requires 0 <= c.error <= MAX_CANDIDATE_ERROR, a >= 0,
        ;
        assert(MAX_CANDIDATE_ERROR * (area_sum(d) + a) == MAX_CANDIDATE_ERROR * area_sum(d)
            + MAX_CANDIDATE_ERROR * a) by (nonlinear_arith);
    }
}

/// The adaptive approximation session: a read-only source image, the result
/// image being painted, and the ranked subdivision candidates.
#[derive(Debug)]
pub struct ImageApproximation {
    /// The source image; immutable for the lifetime of the session.
    pub im: RGBAImage,
    /// The result image the engine paints.
    pub im_result: RGBAImage,
    /// Iteration cap.
    pub max_iter: u32,
    /// The ranked subdivision candidates.
    pub rectangles: Ranking,
    /// Iterations performed so far.
    pub current_iter: u32,
    /// Scaled total error recorded at the last emitted frame; nothing
    /// before the first measurement.
    pub previous_error: Option<u64>,
    /// A popped candidate whose width or height does not strictly exceed
    /// this many pixels is discarded instead of split.
    pub min_split_dim: u32,
}

impl ImageApproximation {
    /// The source image.
    pub open spec fn source(self) -> RGBAImage {
        self.im
    }

    /// The result image.
    pub open spec fn result(self) -> RGBAImage {
        self.im_result
    }

    /// The current candidates, ascending by error.
    pub open spec fn candidates(self) -> Seq<Candidate> {
        self.rectangles.candidates()
    }

    /// The recorded error is the scaled total error of the current
    /// candidates of a `w` by `h` image.
    pub open spec fn measured(self, w: int, h: int) -> bool {
        self.previous_error == Some(total_error_spec(self.candidates(), w, h) as u64)
    }

    /// The session can make no further progress: the last recorded error
    /// equals the current total error, or the total error is zero.
    pub open spec fn stalled(self, w: int, h: int) -> bool {
        &&& self.previous_error is Some
        &&& (self.previous_error == Some(total_error_spec(self.candidates(), w, h) as u64)
            || total_error_spec(self.candidates(), w, h) == 0)
    }

    /// The session invariant: both buffers are well formed and share
    /// dimensions, the candidates are sorted, each is a valid region of the
    /// image, and together they cover no more than the image.
    pub open spec fn wf(self) -> bool {
        &&& self.source().wf()
        &&& self.result().wf()
        &&& self.result().width_spec() == self.source().width_spec()
        &&& self.result().height_spec() == self.source().height_spec()
        &&& sorted_by_error(self.candidates())
        &&& forall|i: int|
            0 <= i < self.candidates().len() ==> candidate_ok(
                #[trigger] self.candidates()[i],
                self.source().width_spec(),
                self.source().height_spec(),
            )
        &&& area_sum(self.candidates()) <= self.source().width_spec() * self.source().height_spec()
    }

    /// Start a session on `im` with the given iteration cap.  The result
    /// starts as a copy of the source, and the single initial candidate is
    /// the full image rectangle with error zero; an image without pixels
    /// gets no candidate at all.
    pub fn constructor(im: RGBAImage, max_iter: u32) -> (s: Self)
        requires
            im.wf(),
        ensures
            s.wf(),
            s.source() == im,
            s.result().bytes() == im.bytes(),
            s.max_iter == max_iter,
            s.current_iter == 0,
            s.previous_error is None,
            s.min_split_dim == 0,
            im.width_spec() >= 1 && im.height_spec() >= 1 ==> s.candidates().len() == 1
                && s.candidates()[0].error == 0 && s.candidates()[0].rect == (Rectangle {
                top_left: Point { x: 0, y: 0 },
                bottom_right: Point {
                    x: im.width_spec() as usize,
                    y: im.height_spec() as usize,
                },
            }),
            im.width_spec() == 0 || im.height_spec() == 0 ==> s.candidates().len() == 0,
    {
        let im_result = im.duplicate();
        let mut rectangles = Ranking::new();
        let w = im.width();
        let h = im.height();
        if w >= 1 && h >= 1 {
            let full = Rectangle {
                top_left: Point { x: 0, y: 0 },
                bottom_right: Point { x: w as usize, y: h as usize },
            };
            rectangles.insert(0, full);
            proof {
                let c = Candidate { error: 0, rect: full };
                assert(rectangles.candidates() =~= seq![c]);
                assert(seq![c].drop_last() =~= Seq::<Candidate>::empty());
                assert(area_sum(Seq::<Candidate>::empty()) == 0);
                assert(seq![c].last() == c);
                assert(area_sum(seq![c]) == full.area_spec());
            }
        }
        ImageApproximation {
            im,
            im_result,
            max_iter,
            rectangles,
            current_iter: 0,
            previous_error: None,
            min_split_dim: 0,
        }
    }

    /// Read access to the current result image.
    pub fn result_buffer(&self) -> (r: &RGBAImage)
        ensures
            *r == self.result(),
    {
        &self.im_result
    }

    /// Read access to the source image.
    pub fn source_buffer(&self) -> (r: &RGBAImage)
        ensures
            *r == self.source(),
    {
        &self.im
    }

    /// Advance the approximation: repeatedly pop the highest-error
    /// candidate, split it, paint each child with its average color, score
    /// and re-rank the children, until the total error improves enough to
    /// emit a frame (result `false`) or the session is over (result
    /// `true`): the iteration cap is reached, the candidates ran out, or
    /// the total error stopped moving.
    pub fn next(&mut self) -> (done: bool)
        requires
            old(self).wf(),
        ensures
            final(self).wf(),
            final(self).source() == old(self).source(),
            final(self).max_iter == old(self).max_iter,
            final(self).min_split_dim == old(self).min_split_dim,
            final(self).current_iter >= old(self).current_iter,
            old(self).current_iter < old(self).max_iter ==> final(self).current_iter <= old(
                self,
            ).max_iter,
            old(self).current_iter >= old(self).max_iter ==> done && *final(self) == *old(self),
            !done ==> final(self).current_iter > old(self).current_iter,
            done ==> final(self).previous_error == old(self).previous_error,
            !done ==> (old(self).previous_error matches Some(p) ==> p > total_error_spec(
                final(self).candidates(),
                old(self).source().width_spec(),
                old(self).source().height_spec(),
            ) + ERROR_RATE_SAVE_FRAME),
            untouched_outside(
                old(self).candidates(),
                old(self).source(),
                old(self).result(),
                final(self).result(),
            ),
            repainted_with_averages(old(self).source(), old(self).result(), final(self).result()),
            ({
                let m = old(self).min_split_dim as int;
                let n = (final(self).current_iter - old(self).current_iter) as nat;
                exists|mid: Seq<Candidate>|
                    #[trigger] reachable(old(self).candidates(), mid, old(self).source(), m, n)
                        && (final(self).candidates() == mid || (last_big(mid, m) == -1
                        && final(self).candidates().len() == 0))
            }),
            !done ==> final(self).measured(
                old(self).source().width_spec(),
                old(self).source().height_spec(),
            ),
            done ==> final(self).current_iter >= final(self).max_iter
                || final(self).candidates().len() == 0
                || final(self).stalled(
                old(self).source().width_spec(),
                old(self).source().height_spec(),
            ),
    {
        if self.current_iter >= self.max_iter {
            proof {
                assert(reachable(
                    old(self).candidates(),
                    old(self).candidates(),
                    old(self).source(),
                    old(self).min_split_dim as int,
                    (self.current_iter - old(self).current_iter) as nat,
                ));
            }
            return true;
        }
        let ghost gw = self.im.width_spec();
        let ghost gh = self.im.height_spec();
        proof {
            assert forall|j: int, x: int, y: int|
                0 <= j < self.candidates().len() && (#[trigger] self.candidates()[j].rect.contains(
                    x,
                    y,
                )) implies cover_of(old(self).candidates(), x, y) by {
                assert(0 <= j < old(self).candidates().len() && old(
                    self,
                ).candidates()[j].rect.contains(x, y));
            }
        }
        loop
            invariant
                self.wf(),
                self.im == old(self).im,
                gw == self.im.width_spec(),
                gh == self.im.height_spec(),
                self.max_iter == old(self).max_iter,
                self.min_split_dim == old(self).min_split_dim,
                self.current_iter >= old(self).current_iter,
                self.current_iter <= self.max_iter,
                old(self).current_iter < old(self).max_iter,
                self.previous_error == old(self).previous_error,
                covered_by(self.candidates(), old(self).candidates()),
                untouched_outside(
                    old(self).candidates(),
                    self.im,
                    old(self).im_result,
                    self.im_result,
                ),
                repainted_with_averages(self.im, old(self).im_result, self.im_result),
                reachable(
                    old(self).candidates(),
                    self.candidates(),
                    old(self).im,
                    old(self).min_split_dim as int,
                    (self.current_iter - old(self).current_iter) as nat,
                ),
            decreases self.max_iter - self.current_iter,
        {
            if self.current_iter >= self.max_iter {
                proof {
                    assert(reachable(
                        old(self).candidates(),
                        self.candidates(),
                        old(self).source(),
                        old(self).min_split_dim as int,
                        (self.current_iter - old(self).current_iter) as nat,
                    ));
                }
                return true;
            }
            proof {
                assert forall|i: int|
                    0 <= i < self.rectangles.candidates().len() implies ((
                #[trigger] self.rectangles.candidates()[i]).rect.top_left.x
                    <= self.rectangles.candidates()[i].rect.bottom_right.x
                    && self.rectangles.candidates()[i].rect.top_left.y
                    <= self.rectangles.candidates()[i].rect.bottom_right.y) by {
                    assert(candidate_ok(self.rectangles.candidates()[i], gw, gh));
                }
            }
            let ghost cands_before = self.rectangles.candidates();
            let maybe_rect = self.rectangles.remove_until(self.min_split_dim);
            let r: Rectangle;
            match maybe_rect {
                None => {
                    proof {
                        assert forall|i: int|
                            0 <= i < self.rectangles.candidates().len() implies candidate_ok(
                            #[trigger] self.rectangles.candidates()[i],
                            gw,
                            gh,
                        ) by {}
                        assert(area_sum(self.rectangles.candidates()) == 0);
                        self.im.lemma_dims_bounds();
                        assert(gw * gh >= 0) by (nonlinear_arith)
                            requires gw >= 0, gh >= 0,
                        ;
                        crate::ranking::lemma_last_big_properties(
                            cands_before,
                            self.min_split_dim as int,
                        );
                        assert(last_big(cands_before, self.min_split_dim as int) == -1);
                        assert(reachable(
                            old(self).candidates(),
                            cands_before,
                            old(self).source(),
                            old(self).min_split_dim as int,
                            (self.current_iter - old(self).current_iter) as nat,
                        ));
                    }
                    return true;
                },
                Some(cand) => {
                    r = cand.rect;
                },
            }
            self.current_iter = self.current_iter + 1;
            let ghost iter_now = self.current_iter;
            let ghost k = last_big(cands_before, self.min_split_dim as int);
            let ghost popped = cands_before[k];
            proof {
                crate::ranking::lemma_last_big_properties(cands_before, self.min_split_dim as int);
                assert(popped.rect == r);
                assert(self.rectangles.candidates() == cands_before.subrange(0, k));
                assert forall|i: int|
                    0 <= i < self.rectangles.candidates().len() implies candidate_ok(
                    #[trigger] self.rectangles.candidates()[i],
                    gw,
                    gh,
                ) by {
                    assert(self.rectangles.candidates()[i] == cands_before[i]);
                }
                assert forall|i: int|
                    0 <= i < cands_before.len() implies (#[trigger] cands_before[i]).rect.area_spec()
                    >= 0 by {
                    let cc = cands_before[i];
                    assert(cc.rect.area_spec() >= 0) by (nonlinear_arith)
                        requires cc.rect.width_spec() >= 0, cc.rect.height_spec() >= 0,
                    ;
                }
                lemma_area_sum_prefix_step(cands_before, k);
                lemma_area_sum_prefix(cands_before, k + 1);
                assert forall|j: int, x: int, y: int|
                    0 <= j < self.rectangles.candidates().len() && (
                #[trigger] self.rectangles.candidates()[j].rect.contains(x, y)) implies cover_of(
                    old(self).candidates(),
                    x,
                    y,
                ) by {
                    assert(self.rectangles.candidates()[j] == cands_before[j]);
                    assert(cands_before[j].rect.contains(x, y));
                }
            }
            // The popped candidate is a region of the image, so the image has
            // at least one pixel in each dimension.
            proof {
                assert(gw >= 1 && gh >= 1);
                self.im.lemma_dims_bounds();
            }
            // Reading the byte length as a machine integer bounds the
            // coordinate arithmetic of the split by the address space.
            let bytes_len = self.im.data().len();
            proof {
                assert(gw * 4 <= gw * gh * 4 && gh * 4 <= gw * gh * 4) by (nonlinear_arith)
                    requires gw >= 1, gh >= 1,
                ;
            }
            let splits = r.split();
            proof {
                r.lemma_split_properties();
                r.lemma_split_area();
            }
            let ghost base = self.rectangles.candidates();
            proof {
                assert forall|j: int|
                    0 <= j < splits@.len() implies (#[trigger] splits@[j]).non_degenerate()
                    && rect_in_image(splits@[j], self.im) by {}
                assert forall|j: int, x: int, y: int|
                    0 <= j < splits@.len() && (#[trigger] splits@[j].contains(x, y)) implies
                    cover_of(old(self).candidates(), x, y) by {
                    assert(r.split_spec()[j] == splits@[j]);
                    assert(r.contains(x, y));
                    assert(cands_before[k].rect.contains(x, y));
                }
            }
            let ghost res_before = self.im_result;
            draw_rectangles(&mut self.im_result, &self.im, &splits);
            proof {
                assert forall|x: int, y: int|
                    #![trigger self.im_result.pixel_spec(x, y)]
                    self.im.in_bounds(x, y) && !cover_of(old(self).candidates(), x, y) implies self
                    .im_result.pixel_spec(x, y) == old(self).im_result.pixel_spec(x, y) by {
                    assert forall|j: int|
                        0 <= j < splits@.len() implies !(#[trigger] splits@[j].contains(x, y)) by {
                        if splits@[j].contains(x, y) {
                            assert(cover_of(old(self).candidates(), x, y));
                        }
                    }
                    assert(self.im_result.pixel_spec(x, y) == res_before.pixel_spec(x, y));
                }
                assert forall|x: int, y: int|
                    #![trigger self.im_result.pixel_spec(x, y)]
                    self.im.in_bounds(x, y) implies self.im_result.pixel_spec(x, y) == old(
                    self,
                ).im_result.pixel_spec(x, y) || (exists|rr: Rectangle|
                    rr.non_degenerate() && rect_in_image(rr, self.im) && (#[trigger] rr.contains(
                        x,
                        y,
                    )) && self.im_result.pixel_spec(x, y) == average_spec(self.im, rr)) by {
                    if exists|j: int| 0 <= j < splits@.len() && (#[trigger] splits@[j].contains(x, y)) {
                        let j = choose|j: int| 0 <= j < splits@.len() && (#[trigger] splits@[j].contains(x, y));
                        assert(self.im_result.pixel_spec(x, y) == average_spec(self.im, splits@[j]));
                        assert(splits@[j].non_degenerate() && rect_in_image(splits@[j], self.im)
                            && splits@[j].contains(x, y));
                    } else {
                        assert forall|j: int|
                            0 <= j < splits@.len() implies !(#[trigger] splits@[j].contains(x, y)) by {}
                        assert(self.im_result.pixel_spec(x, y) == res_before.pixel_spec(x, y));
                        assert(res_before.pixel_spec(x, y) == old(self).im_result.pixel_spec(x, y)
                            || (exists|rr: Rectangle|
                            rr.non_degenerate() && rect_in_image(rr, self.im) && (#[trigger] rr.contains(
                                x,
                                y,
                            )) && res_before.pixel_spec(x, y) == average_spec(self.im, rr)));
                    }
                }
            }
            let n_splits = splits.len();
            proof {
                assert(splits@.subrange(0, 0) =~= Seq::<Rectangle>::empty());
                assert(rank_children(base, splits@.subrange(0, 0), old(self).im) == base);
            }
            let mut i: usize = 0;
            while i < n_splits
                invariant
                    self.im == old(self).im,
                    self.max_iter == old(self).max_iter,
                    self.min_split_dim == old(self).min_split_dim,
                    self.current_iter >= old(self).current_iter,
                    self.current_iter <= self.max_iter,
                    old(self).current_iter < old(self).max_iter,
                    self.current_iter == iter_now,
                    self.current_iter > old(self).current_iter,
                    gw == self.im.width_spec(),
                    gh == self.im.height_spec(),
                    self.im.wf(),
                    self.im_result.wf(),
                    self.im_result.width_spec() == gw,
                    self.im_result.height_spec() == gh,
                    i <= n_splits,
                    n_splits == splits@.len(),
                    splits@ == r.split_spec(),
                    forall|j: int|
                        0 <= j < splits@.len() ==> (#[trigger] splits@[j]).non_degenerate()
                            && rect_in_image(splits@[j], self.im),
                    sorted_by_error(self.rectangles.candidates()),
                    forall|j: int|
                        0 <= j < self.rectangles.candidates().len() ==> candidate_ok(
                            #[trigger] self.rectangles.candidates()[j],
                            gw,
                            gh,
                        ),
                    area_sum(self.rectangles.candidates()) <= area_sum(base) + rects_area_sum(
                        splits@.subrange(0, i as int),
                    ),
                    area_sum(base) + rects_area_sum(splits@) <= gw * gh,
                    self.previous_error == old(self).previous_error,
                    forall|j: int, x: int, y: int|
                        0 <= j < splits@.len() && (#[trigger] splits@[j].contains(x, y))
                            ==> cover_of(old(self).candidates(), x, y),
                    covered_by(self.rectangles.candidates(), old(self).candidates()),
                    untouched_outside(
                        old(self).candidates(),
                        self.im,
                        old(self).im_result,
                        self.im_result,
                    ),
                    repainted_with_averages(self.im, old(self).im_result, self.im_result),
                    k == last_big(cands_before, self.min_split_dim as int),
                    0 <= k < cands_before.len(),
                    popped == cands_before[k],
                    r == popped.rect,
                    base == cands_before.subrange(0, k),
                    reachable(
                        old(self).candidates(),
                        cands_before,
                        old(self).im,
                        old(self).min_split_dim as int,
                        (iter_now - 1 - old(self).current_iter) as nat,
                    ),
                    self.rectangles.candidates() == rank_children(
                        base,
                        splits@.subrange(0, i as int),
                        old(self).im,
                    ),
                decreases n_splits - i,
            {
                let s_rect = splits[i];
                let e = error_image(&s_rect, &self.im);
                let ghost prev = self.rectangles.candidates();
                let ghost at = crate::ranking::insert_index(prev, e);
                self.rectangles.insert(e, s_rect);
                proof {
                    crate::ranking::lemma_insert_index_bounds(prev, e);
                    let c = Candidate { error: e, rect: s_rect };
                    let now = self.rectangles.candidates();
                    assert forall|j: int|
                        0 <= j < now.len() implies candidate_ok(#[trigger] now[j], gw, gh) by {
                        if j < at {
                            assert(now[j] == prev[j]);
                        } else if j == at {
                            assert(now[j] == c);
                        } else {
                            assert(now[j] == prev[j - 1]);
                        }
                    }
                    lemma_area_sum_insert(prev, at, c);
                    lemma_rects_area_prefix_step(splits@, i as int);
                    crate::rect::lemma_rects_area_prefix(splits@, i as int + 1);
                    lemma_rank_children_push(
                        base,
                        splits@.subrange(0, i as int),
                        splits@[i as int],
                        old(self).im,
                    );
                    assert(splits@.subrange(0, i as int + 1) =~= splits@.subrange(
                        0,
                        i as int,
                    ).push(splits@[i as int]));
                    assert(c == Candidate {
                        error: error_spec(old(self).im, splits@[i as int]) as u64,
                        rect: splits@[i as int],
                    });
                    assert(now == rank_children(
                        base,
                        splits@.subrange(0, i as int + 1),
                        old(self).im,
                    ));
                    assert forall|j2: int, x: int, y: int|
                        0 <= j2 < now.len() && (#[trigger] now[j2].rect.contains(x, y)) implies
                        cover_of(old(self).candidates(), x, y) by {
                        if j2 < at {
                            assert(now[j2] == prev[j2]);
                            assert(prev[j2].rect.contains(x, y));
                        } else if j2 == at {
                            assert(now[j2] == c);
                            assert(splits@[i as int].contains(x, y));
                        } else {
                            assert(now[j2] == prev[j2 - 1]);
                            assert(prev[j2 - 1].rect.contains(x, y));
                        }
                    }
                }
                i = i + 1;
            }
            // Total error over the current candidate set.
            proof {
                assert(splits@.subrange(0, n_splits as int) =~= splits@);
                assert(self.rectangles.candidates() == rank_children(base, splits@, old(self).im));
                assert(step_rel(
                    cands_before,
                    self.rectangles.candidates(),
                    old(self).im,
                    old(self).min_split_dim as int,
                ));
                lemma_reachable_snoc(
                    old(self).candidates(),
                    cands_before,
                    self.rectangles.candidates(),
                    old(self).im,
                    old(self).min_split_dim as int,
                    (iter_now - 1 - old(self).current_iter) as nat,
                );
            }
            let n_cands = self.rectangles.len();
            let ghost cs = self.rectangles.candidates();
            proof {
                lemma_weighted_sum_bounds(cs, gw, gh);
                assert(cs.subrange(0, 0) =~= Seq::<Candidate>::empty());
            }
            let mut sum: u128 = 0;
            let mut idx: usize = 0;
            while idx < n_cands
                invariant
                    self.wf(),
                    self.im == old(self).im,
                    self.max_iter == old(self).max_iter,
                    self.min_split_dim == old(self).min_split_dim,
                    self.current_iter >= old(self).current_iter,
                    self.current_iter <= self.max_iter,
                    old(self).current_iter < old(self).max_iter,
                    self.current_iter == iter_now,
                    self.current_iter > old(self).current_iter,
                    cs == self.rectangles.candidates(),
                    n_cands == cs.len(),
                    gw == self.im.width_spec(),
                    gh == self.im.height_spec(),
                    gw >= 1,
                    gh >= 1,
                    forall|j: int| 0 <= j < cs.len() ==> candidate_ok(#[trigger] cs[j], gw, gh),
                    area_sum(cs) <= gw * gh,
                    idx <= n_cands,
                    sum == weighted_sum(cs.subrange(0, idx as int)),
                    self.previous_error == old(self).previous_error,
                    covered_by(self.rectangles.candidates(), old(self).candidates()),
                    untouched_outside(
                        old(self).candidates(),
                        self.im,
                        old(self).im_result,
                        self.im_result,
                    ),
                    repainted_with_averages(self.im, old(self).im_result, self.im_result),
                    reachable(
                        old(self).candidates(),
                        self.rectangles.candidates(),
                        old(self).im,
                        old(self).min_split_dim as int,
                        (self.current_iter - old(self).current_iter) as nat,
                    ),
                decreases n_cands - idx,
            {
                let cand = self.rectangles.get(idx);
                proof {
                    self.im.lemma_dims_bounds();
                    assert(candidate_ok(cs[idx as int], gw, gh));
                    lemma_weighted_sum_prefix_step(cs, idx as int);
                    lemma_weighted_sum_bounds(cs.subrange(0, idx as int + 1), gw, gh);
                    lemma_weighted_sum_bounds(cs.subrange(0, idx as int), gw, gh);
                    assert forall|j: int|
                        0 <= j < cs.len() implies (#[trigger] cs[j]).rect.area_spec() >= 0 by {
                        let cc = cs[j];
                        assert(cc.rect.area_spec() >= 0) by (nonlinear_arith)
                            requires cc.rect.width_spec() >= 0, cc.rect.height_spec() >= 0,
                        ;
                    }
                    lemma_area_sum_prefix(cs, idx as int + 1);
                    assert(MAX_CANDIDATE_ERROR * area_sum(cs.subrange(0, idx as int + 1))
                        <= MAX_CANDIDATE_ERROR * (gw * gh)) by (nonlinear_arith)
                        requires
                            area_sum(cs.subrange(0, idx as int + 1)) <= area_sum(cs) <= gw * gh,
                    ;
                    assert(gw * gh <= 18446744073709551616) by (nonlinear_arith)
                        requires 0 <= gw < 4294967296, 0 <= gh < 4294967296,
                    ;
                }
                let a = cand.rect.area();
                sum = sum + (cand.error as u128) * (a as u128);
                idx = idx + 1;
            }
            proof {
                assert(cs.subrange(0, n_cands as int) =~= cs);
            }
            let w = self.im.width();
            let h = self.im.height();
            proof {
                self.im.lemma_dims_bounds();
                assert(gw * gh <= 18446744073709551616) by (nonlinear_arith)
                    requires 0 <= gw < 4294967296, 0 <= gh < 4294967296,
                ;
                assert(gw * gh >= 1) by (nonlinear_arith)
                    requires gw >= 1, gh >= 1,
                ;
                lemma_weighted_sum_bounds(cs, gw, gh);
                assert(MAX_CANDIDATE_ERROR * area_sum(cs) <= MAX_CANDIDATE_ERROR * (gw * gh))
                    by (nonlinear_arith)
                    requires area_sum(cs) <= gw * gh, area_sum(cs) >= 0,
                ;
                lemma_div_is_ordered(
                    weighted_sum(cs),
                    MAX_CANDIDATE_ERROR * (gw * gh),
                    gw * gh,
                );
                lemma_div_multiples_vanish(MAX_CANDIDATE_ERROR as int, gw * gh);
                assert((gw * gh) * (MAX_CANDIDATE_ERROR as int) == MAX_CANDIDATE_ERROR * (gw
                    * gh)) by (nonlinear_arith);
                vstd::arithmetic::div_mod::lemma_div_pos_is_pos(weighted_sum(cs), gw * gh);
            }
            let denom = (w as u128) * (h as u128);
            let total = (sum / denom) as u64;
            proof {
                assert(total == total_error_spec(cs, gw, gh));
            }
            proof {
                assert(reachable(
                    old(self).candidates(),
                    self.candidates(),
                    old(self).source(),
                    old(self).min_split_dim as int,
                    (self.current_iter - old(self).current_iter) as nat,
                ));
            }
            match self.previous_error {
                None => {
                    self.previous_error = Some(total);
                    return false;
                },
                Some(p) => {
                    if p > total && p - total > ERROR_RATE_SAVE_FRAME {
                        self.previous_error = Some(total);
                        return false;
                    } else if p == total || total == 0 {
                        return true;
                    }
                },
            }
        }
    }
}

} // verus!
