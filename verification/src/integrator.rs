//! The path tracer's walk along one path: what is gathered for a ray, given
//! what each ray of the path meets.
//!
//! Rays and colors are the caller's: this module never looks into them. The
//! caller says what a ray meets (`trace`, which may draw random samples) and
//! how a surface's albedo weakens the light that comes back along the path
//! (`blend`). The walk is a loop; the albedos of the surfaces on the path wait
//! in a vector, not on the call stack, until the path has ended.

use vstd::prelude::*;

verus! {

/// What a ray met.
#[derive(Debug)]
pub enum Met<R, C> {
    /// Nothing: the color of the sky where the ray leaves the scene.
    Sky(C),
    /// A light: the color that it sends out. The path ends at a light.
    Light(C),
    /// A surface that sends out no light: its albedo at the point that was
    /// hit, and the ray that leaves the point.
    Surface { albedo: C, scattered: R },
}

/// Whether `trace` can be asked about every ray and `blend` about every two
/// colors.
pub open spec fn always_answer<R, C, T: Fn(&R) -> Met<R, C>, B: Fn(&C, &C) -> C>(
    trace: T,
    blend: B,
) -> bool {
    &&& forall|ray: R| #[trigger] trace.requires((&ray,))
    &&& forall|albedo: C, light: C| #[trigger] blend.requires((&albedo, &light))
}

/// Whether `trace` may say that `ray` met `met`.
pub open spec fn meets<R, C, T: Fn(&R) -> Met<R, C>>(trace: T, ray: R, met: Met<R, C>) -> bool {
    trace.ensures((&ray,), met)
}

/// Whether `blend` may make `out` of `albedo` and `light`.
pub open spec fn blends<C, B: Fn(&C, &C) -> C>(blend: B, albedo: C, light: C, out: C) -> bool {
    blend.ensures((&albedo, &light), out)
}

/// Whether `out` may be gathered for `ray` with `depth` rays left to trace:
/// with none left, black; else what the ray met decides. The sky's color or
/// a light's color is gathered as it is. A surface has the ray that leaves it
/// gathered for, with one ray less left, and its albedo blended with what
/// came of that.
pub open spec fn gathers<R, C, T: Fn(&R) -> Met<R, C>, B: Fn(&C, &C) -> C>(
    trace: T,
    blend: B,
    black: C,
    ray: R,
    depth: nat,
    out: C,
) -> bool
    decreases depth,
{
    if depth == 0 {
        out == black
    } else {
        ||| meets(trace, ray, Met::Sky(out))
        ||| meets(trace, ray, Met::Light(out))
        ||| exists|albedo: C, scattered: R, rest: C|
            {
                &&& #[trigger] meets(trace, ray, Met::Surface { albedo, scattered })
                &&& gathers(trace, blend, black, scattered, (depth - 1) as nat, rest)
                &&& #[trigger] blends(blend, albedo, rest, out)
            }
    }
}

/// Whether `rays` and `albedos` are a path of surfaces: each ray but the last
/// met a surface with the albedo of its place, and the next ray left it.
pub open spec fn bounces<R, C, T: Fn(&R) -> Met<R, C>>(
    trace: T,
    rays: Seq<R>,
    albedos: Seq<C>,
) -> bool {
    &&& rays.len() == albedos.len() + 1
    &&& forall|k: int|
        0 <= k < albedos.len() ==> trace.ensures(
            (&#[trigger] rays[k],),
            Met::Surface { albedo: albedos[k], scattered: rays[k + 1] },
        )
}

/// The color of `ray`: what is gathered along the path that begins with it,
/// of at most `depth` rays.
pub fn ray_color<R, C, T: Fn(&R) -> Met<R, C>, B: Fn(&C, &C) -> C>(
    ray: R,
    depth: u32,
    trace: &T,
    blend: &B,
    black: C,
) -> (out: C)
    requires
        always_answer(*trace, *blend),
    ensures
        gathers(*trace, *blend, black, ray, depth as nat, out),
        depth == 0 ==> out == black,
{
    let ghost mut rays: Seq<R> = seq![ray];
    let mut albedos: Vec<C> = Vec::new();
    let mut current: R = ray;
    let mut left: u32 = depth;
    let mut ended: Option<C> = None;
    while left > 0 && ended.is_none()
        invariant
            always_answer(*trace, *blend),
            bounces(*trace, rays, albedos@),
            rays[0] == ray,
            rays.last() == current,
            left + albedos@.len() == depth,
            ended matches Some(color) ==> left > 0 && gathers(
                *trace,
                *blend,
                black,
                current,
                left as nat,
                color,
            ),
        decreases left + (if ended is None { 1nat } else { 0nat }),
    {
        match trace(&current) {
            Met::Sky(color) => {
                proof {
                    lemma_path_ends(*trace, *blend, black, current, left as nat, Met::Sky(color));
                }
                ended = Some(color);
            },
            Met::Light(color) => {
                proof {
                    lemma_path_ends(*trace, *blend, black, current, left as nat, Met::Light(color));
                }
                ended = Some(color);
            },
            Met::Surface { albedo, scattered } => {
                proof {
                    let before = rays;
                    rays = rays.push(scattered);
                    assert forall|k: int| 0 <= k < albedos@.len() + 1 implies trace.ensures(
                        (&#[trigger] rays[k],),
                        Met::Surface { albedo: albedos@.push(albedo)[k], scattered: rays[k + 1] },
                    ) by {
                        if k < albedos@.len() {
                            assert(before[k] == rays[k]);
                        }
                    }
                }
                albedos.push(albedo);
                current = scattered;
                left = left - 1;
            },
        }
    }
    let mut out: C = match ended {
        Some(color) => color,
        None => black,
    };
    assert(rays.take(albedos@.len() as int + 1) =~= rays);
    while albedos.len() > 0
        invariant
            always_answer(*trace, *blend),
            bounces(*trace, rays.take(albedos@.len() as int + 1), albedos@),
            albedos@.len() < rays.len(),
            albedos@.len() <= depth,
            rays[0] == ray,
            gathers(
                *trace,
                *blend,
                black,
                rays[albedos@.len() as int],
                (depth - albedos@.len()) as nat,
                out,
            ),
        decreases albedos@.len(),
    {
        let ghost path = rays.take(albedos@.len() as int + 1);
        let ghost before = albedos@;
        let ghost rest = out;
        let albedo = albedos.pop().unwrap();
        out = blend(&albedo, &out);
        proof {
            let m = albedos@.len() as int;
            assert(path[m] == rays[m]);
            assert(path[m + 1] == rays[m + 1]);
            assert(trace.ensures(
                (&path[m],),
                Met::Surface { albedo: before[m], scattered: path[m + 1] },
            ));
            lemma_path_goes_on(
                *trace,
                *blend,
                black,
                rays[m],
                (depth - m) as nat,
                albedo,
                rays[m + 1],
                rest,
                out,
            );
            assert forall|k: int| 0 <= k < m implies trace.ensures(
                (&#[trigger] rays.take(m + 1)[k],),
                Met::Surface { albedo: albedos@[k], scattered: rays.take(m + 1)[k + 1] },
            ) by {
                assert(path[k] == rays.take(m + 1)[k]);
                assert(path[k + 1] == rays.take(m + 1)[k + 1]);
                assert(before[k] == albedos@[k]);
            }
        }
    }
    out
}

/// A ray that met the sky or a light has its color gathered.
pub proof fn lemma_path_ends<R, C, T: Fn(&R) -> Met<R, C>, B: Fn(&C, &C) -> C>(
    trace: T,
    blend: B,
    black: C,
    ray: R,
    depth: nat,
    met: Met<R, C>,
)
    requires
        depth > 0,
        trace.ensures((&ray,), met),
        !(met is Surface),
    ensures
        met matches Met::Sky(color) ==> gathers(trace, blend, black, ray, depth, color),
        met matches Met::Light(color) ==> gathers(trace, blend, black, ray, depth, color),
{
    assert(meets(trace, ray, met));
}

/// A ray that met a surface has gathered what the surface's albedo makes of
/// what the ray that leaves it has gathered.
pub proof fn lemma_path_goes_on<R, C, T: Fn(&R) -> Met<R, C>, B: Fn(&C, &C) -> C>(
    trace: T,
    blend: B,
    black: C,
    ray: R,
    depth: nat,
    albedo: C,
    scattered: R,
    rest: C,
    out: C,
)
    requires
        depth > 0,
        trace.ensures((&ray,), Met::Surface { albedo, scattered }),
        gathers(trace, blend, black, scattered, (depth - 1) as nat, rest),
        blend.ensures((&albedo, &rest), out),
    ensures
        gathers(trace, blend, black, ray, depth, out),
{
    assert(blends(blend, albedo, rest, out));
    assert(meets(trace, ray, Met::Surface { albedo, scattered }));
}

/// With no ray left to trace, black is gathered.
pub proof fn lemma_no_depth_is_black<R, C, T: Fn(&R) -> Met<R, C>, B: Fn(&C, &C) -> C>(
    trace: T,
    blend: B,
    black: C,
    ray: R,
    out: C,
)
    requires
        gathers(trace, blend, black, ray, 0, out),
    ensures
        out == black,
{
}

/// A ray that can meet nothing but the sky of one color has that color
/// gathered: a scene without primitives shows the sky at every pixel.
pub proof fn lemma_sky_is_gathered<R, C, T: Fn(&R) -> Met<R, C>, B: Fn(&C, &C) -> C>(
    trace: T,
    blend: B,
    black: C,
    ray: R,
    depth: nat,
    sky: C,
    out: C,
)
    requires
        depth > 0,
        forall|met: Met<R, C>| #[trigger] meets(trace, ray, met) ==> met == Met::<R, C>::Sky(sky),
        gathers(trace, blend, black, ray, depth, out),
    ensures
        out == sky,
{
}

/// A ray that can meet nothing but a light of one color has that color
/// gathered, and nothing behind the light is looked at.
pub proof fn lemma_light_ends_the_path<R, C, T: Fn(&R) -> Met<R, C>, B: Fn(&C, &C) -> C>(
    trace: T,
    blend: B,
    black: C,
    ray: R,
    depth: nat,
    light: C,
    out: C,
)
    requires
        depth > 0,
        forall|met: Met<R, C>| #[trigger] meets(trace, ray, met) ==> met == Met::<R, C>::Light(light),
        gathers(trace, blend, black, ray, depth, out),
    ensures
        out == light,
{
}

/// A ray that can meet nothing but one surface has the surface's albedo
/// blended with what is gathered for the ray that leaves it, with one ray
/// less left to trace.
pub proof fn lemma_surface_weakens<R, C, T: Fn(&R) -> Met<R, C>, B: Fn(&C, &C) -> C>(
    trace: T,
    blend: B,
    black: C,
    ray: R,
    depth: nat,
    albedo: C,
    scattered: R,
    out: C,
)
    requires
        depth > 0,
        forall|met: Met<R, C>| #[trigger]
            meets(trace, ray, met) ==> met == (Met::<R, C>::Surface { albedo, scattered }),
        gathers(trace, blend, black, ray, depth, out),
    ensures
        exists|rest: C|
            gathers(trace, blend, black, scattered, (depth - 1) as nat, rest) && #[trigger] blends(
                blend,
                albedo,
                rest,
                out,
            ),
{
}

/// What is gathered depends on what the rays meet, not on how that is found
/// out: two ways to trace that may say the same of every ray, such as a walk
/// of the hierarchy and a scan of all primitives that find the same nearest
/// hit, have the same colors gathered for every ray and every depth.
pub proof fn lemma_same_hits_same_color<
    R,
    C,
    T1: Fn(&R) -> Met<R, C>,
    T2: Fn(&R) -> Met<R, C>,
    B: Fn(&C, &C) -> C,
>(first: T1, second: T2, blend: B, black: C, ray: R, depth: nat, out: C)
    requires
        forall|any: R, met: Met<R, C>| #[trigger] meets(first, any, met) <==> meets(second, any, met),
    ensures
        gathers(first, blend, black, ray, depth, out) <==> gathers(
            second,
            blend,
            black,
            ray,
            depth,
            out,
        ),
    decreases depth,
{
    if depth > 0 {
        assert(meets(first, ray, Met::Sky(out)) <==> meets(second, ray, Met::Sky(out)));
        assert(meets(first, ray, Met::Light(out)) <==> meets(second, ray, Met::Light(out)));
        if gathers(first, blend, black, ray, depth, out) && !meets(first, ray, Met::Sky(out))
            && !meets(first, ray, Met::Light(out)) {
            let (albedo, scattered, rest) = choose|albedo: C, scattered: R, rest: C|
                {
                    &&& #[trigger] meets(first, ray, Met::Surface { albedo, scattered })
                    &&& gathers(first, blend, black, scattered, (depth - 1) as nat, rest)
                    &&& #[trigger] blends(blend, albedo, rest, out)
                };
            lemma_same_hits_same_color(
                first,
                second,
                blend,
                black,
                scattered,
                (depth - 1) as nat,
                rest,
            );
            assert(meets(second, ray, Met::Surface { albedo, scattered }));
            assert(blends(blend, albedo, rest, out));
        }
        if gathers(second, blend, black, ray, depth, out) && !meets(second, ray, Met::Sky(out))
            && !meets(second, ray, Met::Light(out)) {
            let (albedo, scattered, rest) = choose|albedo: C, scattered: R, rest: C|
                {
                    &&& #[trigger] meets(second, ray, Met::Surface { albedo, scattered })
                    &&& gathers(second, blend, black, scattered, (depth - 1) as nat, rest)
                    &&& #[trigger] blends(blend, albedo, rest, out)
                };
            lemma_same_hits_same_color(
                first,
                second,
                blend,
                black,
                scattered,
                (depth - 1) as nat,
                rest,
            );
            assert(meets(first, ray, Met::Surface { albedo, scattered }));
            assert(blends(blend, albedo, rest, out));
        }
    }
}

} // verus!
