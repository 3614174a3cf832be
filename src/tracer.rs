use vstd::prelude::*;

verus! {

/// `rays`, `hits` and `colors` record one traced path with at most `bounces`
/// bounces. `rays[0]` is the first ray; each hit `hits[i]` is where
/// `rays[i]` strikes a surface and `rays[i + 1]` is the ray that bounces
/// off it. The path ends in `background` when the bounces run out, or in the
/// sky seen along the last ray when that ray strikes nothing. Walking back,
/// each colour is the hit's shading of the colour that follows it.
pub open spec fn is_path<R, H, C, FH, FS, FN, FC>(
    hit: FH,
    sky: FS,
    next: FN,
    shade: FC,
    bounces: nat,
    background: C,
    rays: Seq<R>,
    hits: Seq<H>,
    colors: Seq<C>,
) -> bool where
    FH: Fn(R) -> Option<H>,
    FS: Fn(R) -> C,
    FN: Fn(R, H) -> R,
    FC: Fn(H, C) -> C,
 {
    let m = hits.len();
    &&& rays.len() == m + 1
    &&& colors.len() == m + 1
    &&& m <= bounces
    &&& forall|i: int| 0 <= i < m ==> hit.ensures((rays[i],), Some(#[trigger] hits[i]))
    &&& forall|i: int| 0 < i <= m ==> next.ensures((rays[i - 1], hits[i - 1]), #[trigger] rays[i])
    &&& forall|i: int| 0 <= i < m ==> shade.ensures((hits[i], colors[i + 1]), #[trigger] colors[i])
    &&& if m == bounces {
        colors[m as int] == background
    } else {
        hit.ensures((rays[m as int],), None) && sky.ensures((rays[m as int],), colors[m as int])
    }
}

/// `out` is the colour seen along `ray` when it may bounce at most `bounces`
/// times.
pub open spec fn traces<R, H, C, FH, FS, FN, FC>(
    hit: FH,
    sky: FS,
    next: FN,
    shade: FC,
    bounces: nat,
    background: C,
    ray: R,
    out: C,
) -> bool where
    FH: Fn(R) -> Option<H>,
    FS: Fn(R) -> C,
    FN: Fn(R, H) -> R,
    FC: Fn(H, C) -> C,
 {
    exists|rays: Seq<R>, hits: Seq<H>, colors: Seq<C>|
        #[trigger] is_path(hit, sky, next, shade, bounces, background, rays, hits, colors)
            && rays[0] == ray && colors[0] == out
}

/// Follows `ray` through at most `bounces` bounces. With no bounce left the
/// result is `background`. Otherwise the nearest hit is looked up: with none,
/// the result is the sky along the ray; with one, the ray bounces off it and
/// the hit shades what the bounced ray sees.
pub fn trace<R: Copy, H: Copy, C: Copy, FH, FS, FN, FC>(
    ray: R,
    bounces: u32,
    background: C,
    hit: FH,
    sky: FS,
    next: FN,
    shade: FC,
) -> (r: C) where
    FH: Fn(R) -> Option<H>,
    FS: Fn(R) -> C,
    FN: Fn(R, H) -> R,
    FC: Fn(H, C) -> C,

    requires
        forall|x: R| hit.requires((x,)),
        forall|x: R| sky.requires((x,)),
        forall|x: R, h: H| next.requires((x, h)),
        forall|h: H, c: C| shade.requires((h, c)),
    ensures
        traces(hit, sky, next, shade, bounces as nat, background, ray, r),
        bounces == 0 ==> r == background,
{
    let ghost mut rays: Seq<R> = seq![ray];
    let mut hits: Vec<H> = Vec::new();
    let mut current = ray;
    let mut taken: u32 = 0;
    let mut base = background;
    let mut missed = false;
    while !missed && taken < bounces
        invariant
            forall|x: R| hit.requires((x,)),
            forall|x: R| sky.requires((x,)),
            forall|x: R, h: H| next.requires((x, h)),
            taken == hits@.len(),
            taken <= bounces,
            rays.len() == hits@.len() + 1,
            rays[0] == ray,
            rays.last() == current,
            forall|i: int| 0 <= i < taken ==> hit.ensures((rays[i],), Some(#[trigger] hits@[i])),
            forall|i: int|
                0 < i <= taken ==> next.ensures((rays[i - 1], hits@[i - 1]), #[trigger] rays[i]),
            missed ==> taken < bounces && hit.ensures((current,), None) && sky.ensures(
                (current,),
                base,
            ),
            !missed ==> base == background,
        decreases bounces - taken + (if missed {
            0int
        } else {
            1int
        }),
    {
        match hit(current) {
            None => {
                base = sky(current);
                missed = true;
            },
            Some(h) => {
                let following = next(current, h);
                hits.push(h);
                proof {
                    rays = rays.push(following);
                }
                current = following;
                taken = taken + 1;
            },
        }
    }
    let m = hits.len();
    let ghost mut colors: Seq<C> = Seq::new((m + 1) as nat, |i: int| base);
    let mut color = base;
    let mut k: usize = m;
    while k > 0
        invariant
            forall|h: H, c: C| shade.requires((h, c)),
            m == hits@.len(),
            k <= m,
            colors.len() == m + 1,
            colors[m as int] == base,
            colors[k as int] == color,
            forall|i: int| k <= i < m ==> shade.ensures((hits@[i], colors[i + 1]), #[trigger] colors[i]),
        decreases k,
    {
        k = k - 1;
        color = shade(hits[k], color);
        proof {
            colors = colors.update(k as int, color);
        }
    }
    proof {
        assert(is_path(hit, sky, next, shade, bounces as nat, background, rays, hits@, colors));
    }
    color
}

/// `next` is the nearest hit after `found` is weighed against `prev`, the
/// nearest so far: a missing hit never replaces it, the first hit always does,
/// and a later hit replaces it exactly when `closer` judges it nearer.
pub open spec fn keeps_nearest<H, FC: Fn(H, H) -> bool>(
    closer: FC,
    found: Option<H>,
    prev: Option<H>,
    next: Option<H>,
) -> bool {
    match (found, prev) {
        (None, _) => next == prev,
        (Some(h), None) => next == Some(h),
        (Some(h), Some(b)) => (closer.ensures((h, b), true) && next == Some(h)) || (
        closer.ensures((h, b), false) && next == Some(b)),
    }
}

/// Where no ray strikes anything, a ray allowed at least one bounce sees the
/// sky along itself.
pub proof fn lemma_empty_scene_sees_sky<R, H, C, FH, FS, FN, FC>(
    hit: FH,
    sky: FS,
    next: FN,
    shade: FC,
    bounces: nat,
    background: C,
    ray: R,
    out: C,
) where
    FH: Fn(R) -> Option<H>,
    FS: Fn(R) -> C,
    FN: Fn(R, H) -> R,
    FC: Fn(H, C) -> C,

    requires
        forall|x: R, o: Option<H>| hit.ensures((x,), o) ==> o is None,
        bounces > 0,
        traces(hit, sky, next, shade, bounces, background, ray, out),
    ensures
        sky.ensures((ray,), out),
{
    let (rays, hits, colors) = choose|rays: Seq<R>, hits: Seq<H>, colors: Seq<C>|
        #[trigger] is_path(hit, sky, next, shade, bounces, background, rays, hits, colors)
            && rays[0] == ray && colors[0] == out;
    if hits.len() > 0 {
        assert(hit.ensures((rays[0],), Some(hits[0])));
    }
}

/// `found[i]` is what `entities[i]` yields for `ray`, and `best[i]` is the
/// nearest of the first `i` of those hits.
pub open spec fn is_nearest_scan<E, R, H, FI, FC>(
    intersect: FI,
    closer: FC,
    ray: R,
    entities: Seq<E>,
    found: Seq<Option<H>>,
    best: Seq<Option<H>>,
) -> bool where FI: Fn(E, R) -> Option<H>, FC: Fn(H, H) -> bool {
    &&& found.len() == entities.len()
    &&& best.len() == entities.len() + 1
    &&& best[0] is None
    &&& forall|i: int|
        0 <= i < entities.len() ==> intersect.ensures((entities[i], ray), #[trigger] found[i])
    &&& forall|i: int|
        0 <= i < entities.len() ==> keeps_nearest(closer, #[trigger] found[i], best[i], best[i + 1])
}

/// `out` is the nearest hit of `ray` among `entities`, or none when every
/// entity misses.
pub open spec fn resolves<E, R, H, FI, FC>(
    intersect: FI,
    closer: FC,
    ray: R,
    entities: Seq<E>,
    out: Option<H>,
) -> bool where FI: Fn(E, R) -> Option<H>, FC: Fn(H, H) -> bool {
    exists|found: Seq<Option<H>>, best: Seq<Option<H>>|
        #[trigger] is_nearest_scan(intersect, closer, ray, entities, found, best) && best.last()
            == out
}

/// The nearest hit of `ray` among `entities`: each entity is intersected in
/// turn and a hit is kept when there is none yet or `closer` judges it nearer
/// than the one kept.
pub fn resolve<E: Copy, R: Copy, H: Copy, FI, FC>(
    ray: R,
    entities: &Vec<E>,
    intersect: FI,
    closer: FC,
) -> (r: Option<H>) where FI: Fn(E, R) -> Option<H>, FC: Fn(H, H) -> bool
    requires
        forall|e: E, x: R| intersect.requires((e, x)),
        forall|a: H, b: H| closer.requires((a, b)),
    ensures
        resolves(intersect, closer, ray, entities@, r),
        entities@.len() == 0 ==> r is None,
{
    let ghost mut found: Seq<Option<H>> = Seq::empty();
    let ghost mut best: Seq<Option<H>> = seq![None];
    let mut nearest: Option<H> = None;
    let mut i: usize = 0;
    while i < entities.len()
        invariant
            forall|e: E, x: R| intersect.requires((e, x)),
            forall|a: H, b: H| closer.requires((a, b)),
            i <= entities@.len(),
            found.len() == i,
            best.len() == i + 1,
            best[0] is None,
            best.last() == nearest,
            forall|j: int| 0 <= j < i ==> intersect.ensures((entities@[j], ray), #[trigger] found[j]),
            forall|j: int| 0 <= j < i ==> keeps_nearest(closer, #[trigger] found[j], best[j], best[j + 1]),
        decreases entities@.len() - i,
    {
        let candidate = intersect(entities[i], ray);
        let ghost previous = nearest;
        match candidate {
            None => {},
            Some(h) => {
                match nearest {
                    None => {
                        nearest = Some(h);
                    },
                    Some(b) => {
                        if closer(h, b) {
                            nearest = Some(h);
                        }
                    },
                }
            },
        }
        proof {
            assert(keeps_nearest(closer, candidate, previous, nearest));
            found = found.push(candidate);
            best = best.push(nearest);
        }
        i = i + 1;
    }
    proof {
        assert(is_nearest_scan(intersect, closer, ray, entities@, found, best));
    }
    nearest
}

proof fn lemma_nearest_prefix<E, R, H, FI, FC>(
    intersect: FI,
    closer: FC,
    ray: R,
    entities: Seq<E>,
    found: Seq<Option<H>>,
    best: Seq<Option<H>>,
    dist: spec_fn(H) -> int,
    k: int,
) where FI: Fn(E, R) -> Option<H>, FC: Fn(H, H) -> bool
    requires
        0 <= k <= entities.len(),
        is_nearest_scan(intersect, closer, ray, entities, found, best),
        forall|a: H, b: H, r: bool| closer.ensures((a, b), r) ==> r == (dist(a) < dist(b)),
    ensures
        best[k] is None <==> forall|i: int| 0 <= i < k ==> #[trigger] found[i] is None,
        best[k] matches Some(h) ==> {
            &&& exists|i: int| 0 <= i < k && #[trigger] found[i] == Some(h)
            &&& forall|i: int|
                0 <= i < k ==> (#[trigger] found[i] matches Some(g) ==> dist(h) <= dist(g))
        },
    decreases k,
{
    if k > 0 {
        let p = k - 1;
        lemma_nearest_prefix(intersect, closer, ray, entities, found, best, dist, p);
        assert(keeps_nearest(closer, found[p], best[p], best[k]));
        if let Some(f) = found[p] {
            if let Some(b) = best[p] {
                let j = choose|i: int| 0 <= i < p && #[trigger] found[i] == Some(b);
                if best[k] == Some(f) {
                    assert(found[p] == Some(f));
                } else {
                    assert(found[j] == Some(b));
                }
            } else {
                assert(found[p] == Some(f));
            }
        }
    }
}

/// When `closer` compares hits by a distance, the nearest hit is one of the
/// hits found, no hit found is nearer, and there is none exactly when every
/// entity misses.
pub proof fn lemma_nearest_is_closest<E, R, H, FI, FC>(
    intersect: FI,
    closer: FC,
    ray: R,
    entities: Seq<E>,
    found: Seq<Option<H>>,
    best: Seq<Option<H>>,
    dist: spec_fn(H) -> int,
) where FI: Fn(E, R) -> Option<H>, FC: Fn(H, H) -> bool
    requires
        is_nearest_scan(intersect, closer, ray, entities, found, best),
        forall|a: H, b: H, r: bool| closer.ensures((a, b), r) ==> r == (dist(a) < dist(b)),
    ensures
        best.last() is None <==> forall|i: int| 0 <= i < found.len() ==> #[trigger] found[i] is None,
        best.last() matches Some(h) ==> {
            &&& exists|i: int| 0 <= i < found.len() && #[trigger] found[i] == Some(h)
            &&& forall|i: int|
                0 <= i < found.len() ==> (#[trigger] found[i] matches Some(g) ==> dist(h) <= dist(g))
        },
{
    lemma_nearest_prefix(intersect, closer, ray, entities, found, best, dist, entities.len() as int);
}

} // verus!
