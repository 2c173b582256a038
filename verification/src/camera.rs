//! Taking a photo: the settings of a shot, and the colour that a ray brings
//! back from the scene.

use crate::painter::Painter;
use vstd::prelude::*;

verus! {

/// The settings of a shot of a world through a camera: how many times a ray
/// may be scattered before it is given up, the height of the picture in
/// pixels, and how the picture is rendered.
#[derive(Debug)]
pub struct TakePhotoSettings<C, W> {
    pub camera: C,
    pub world: W,
    pub depth: usize,
    pub picture_height: usize,
    pub gamma: bool,
    pub samples: usize,
    pub threads: usize,
    pub parallel: bool,
}

impl<C, W> TakePhotoSettings<C, W> {
    /// The settings of a shot as they stand before any is changed: rays are
    /// followed through 8 scatterings, the picture is 108 pixels high, 50
    /// samples are taken for each pixel, colours are gamma corrected, and
    /// rows are rendered in parallel by as many workers as the machine has
    /// processors.
    pub fn new(camera: C, world: W) -> (settings: Self)
        ensures
            settings == (TakePhotoSettings {
                camera,
                world,
                depth: 8,
                picture_height: 108,
                gamma: true,
                samples: 50,
                threads: 0,
                parallel: true,
            }),
    {
        Self {
            camera,
            world,
            depth: 8,
            picture_height: 108,
            gamma: true,
            samples: 50,
            threads: 0,
            parallel: true,
        }
    }

    /// The same settings, with another number of scatterings through which
    /// a ray is followed.
    pub fn depth(self, depth: usize) -> (settings: Self)
        ensures
            settings == (TakePhotoSettings { depth, ..self }),
    {
        Self { depth, ..self }
    }

    /// The same settings, with another height of the picture.
    pub fn height(self, height: usize) -> (settings: Self)
        ensures
            settings == (TakePhotoSettings { picture_height: height, ..self }),
    {
        Self { picture_height: height, ..self }
    }

    /// The same settings, with gamma correction switched on or off.
    pub fn gamma(self, gamma: bool) -> (settings: Self)
        ensures
            settings == (TakePhotoSettings { gamma, ..self }),
    {
        Self { gamma, ..self }
    }

    /// The same settings, with another number of samples for each pixel.
    pub fn samples(self, samples: usize) -> (settings: Self)
        ensures
            settings == (TakePhotoSettings { samples, ..self }),
    {
        Self { samples, ..self }
    }

    /// The same settings, with another number of worker threads; 0 asks for
    /// as many as the machine has processors.
    pub fn threads(self, threads: usize) -> (settings: Self)
        ensures
            settings == (TakePhotoSettings { threads, ..self }),
    {
        Self { threads, ..self }
    }

    /// The same settings, rendering rows in parallel or one after the other.
    pub fn parallel(self, parallel: bool) -> (settings: Self)
        ensures
            settings == (TakePhotoSettings { parallel, ..self }),
    {
        Self { parallel, ..self }
    }

    /// The painter that renders the shot, for a picture of the given width.
    pub fn painter(&self, width: usize) -> (painter: Painter)
        ensures
            painter == (Painter {
                width,
                height: self.picture_height,
                samples: self.samples,
                gamma: self.gamma,
                threads: self.threads,
                parallel: self.parallel,
            }),
    {
        Painter::new(width, self.picture_height).gamma(self.gamma).samples(self.samples).threads(
            self.threads,
        ).parallel(self.parallel)
    }
}

/// What a ray meets in the scene.
#[derive(Debug)]
pub enum Encounter<L, Y> {
    /// Nothing: the light of the background comes back along the ray.
    Miss { background: L },
    /// A surface that takes the ray up: only the light that it emits comes
    /// back.
    Absorbed { emitted: L },
    /// A surface that scatters the ray: the light that it emits comes back,
    /// and with it the light that the scattered ray brings, attenuated.
    Scattered { emitted: L, attenuation: L, ray: Y },
}

/// Whether `light` is what a ray may bring back when it is followed through
/// `depth` scatterings at most, given what `meet` may answer for a ray and
/// what `blend` may make of emitted light, attenuation and incoming light.
///
/// A ray that may not be followed at all brings back `black`. Else the ray
/// meets the scene. Where it is scattered, the scattered ray is followed
/// through one scattering less, and what it brings back is blended with the
/// surface's own light.
pub open spec fn ray_brings<L, Y, MF: Fn(&Y) -> Encounter<L, Y>, BF: Fn(L, L, L) -> L>(
    ray: Y,
    depth: nat,
    black: L,
    meet: MF,
    blend: BF,
    light: L,
) -> bool
    decreases depth,
{
    if depth == 0 {
        light == black
    } else {
        exists|encounter: Encounter<L, Y>, incoming: L| #[trigger]
            ray_step(ray, depth, black, meet, blend, encounter, incoming, light) && (
            encounter matches Encounter::Scattered { emitted, attenuation, ray: next }
                ==> ray_brings(next, (depth - 1) as nat, black, meet, blend, incoming))
    }
}

/// One step of following a ray: what it meets, what the scattered ray brings
/// back if the ray is scattered, and the light that comes back along it.
pub open spec fn ray_step<L, Y, MF: Fn(&Y) -> Encounter<L, Y>, BF: Fn(L, L, L) -> L>(
    ray: Y,
    depth: nat,
    black: L,
    meet: MF,
    blend: BF,
    encounter: Encounter<L, Y>,
    incoming: L,
    light: L,
) -> bool {
    &&& call_ensures(meet, (&ray,), encounter)
    &&& match encounter {
        Encounter::Miss { background } => light == background,
        Encounter::Absorbed { emitted } => light == emitted,
        Encounter::Scattered { emitted, attenuation, ray: next } => call_ensures(
            blend,
            (emitted, attenuation, incoming),
            light,
        ),
    }
}

/// The light that a ray brings back from the scene when it is followed
/// through `depth` scatterings at most. `meet` says what a ray meets;
/// `blend` gives the light that leaves a surface which emits the first
/// light and attenuates by the second the third, the incoming light;
/// `black` is no light at all.
///
/// With no scattering left the answer is black, whatever the scene holds.
pub fn ray_color<L, Y, MF: Fn(&Y) -> Encounter<L, Y>, BF: Fn(L, L, L) -> L>(
    ray: Y,
    depth: usize,
    black: L,
    meet: &MF,
    blend: &BF,
) -> (light: L)
    requires
        forall|y: &Y| call_requires(*meet, (y,)),
        forall|emitted: L, attenuation: L, incoming: L|
            call_requires(*blend, (emitted, attenuation, incoming)),
    ensures
        depth == 0 ==> light == black,
        ray_brings(ray, depth as nat, black, *meet, *blend, light),
    decreases depth,
{
    if depth == 0 {
        return black;
    }
    let encounter = meet(&ray);
    let ghost met = encounter;
    match encounter {
        Encounter::Miss { background } => {
            proof {
                assert(ray_step(ray, depth as nat, black, *meet, *blend, met, background, background));
            }
            background
        },
        Encounter::Absorbed { emitted } => {
            proof {
                assert(ray_step(ray, depth as nat, black, *meet, *blend, met, emitted, emitted));
            }
            emitted
        },
        Encounter::Scattered { emitted, attenuation, ray: next } => {
            let incoming = ray_color(next, depth - 1, black, meet, blend);
            let ghost brought = incoming;
            let light = blend(emitted, attenuation, incoming);
            proof {
                assert(ray_step(ray, depth as nat, black, *meet, *blend, met, brought, light));
            }
            light
        },
    }
}

/// The light that a ray brings back where what a ray meets and how light is
/// blended are functions.
pub open spec fn light_of<L, Y>(
    ray: Y,
    depth: nat,
    black: L,
    meets: spec_fn(Y) -> Encounter<L, Y>,
    blends: spec_fn(L, L, L) -> L,
) -> L
    decreases depth,
{
    if depth == 0 {
        black
    } else {
        match meets(ray) {
            Encounter::Miss { background } => background,
            Encounter::Absorbed { emitted } => emitted,
            Encounter::Scattered { emitted, attenuation, ray: next } => blends(
                emitted,
                attenuation,
                light_of(next, (depth - 1) as nat, black, meets, blends),
            ),
        }
    }
}

/// Whether `meet` answers as the function does.
pub open spec fn meets_as<L, Y, MF: Fn(&Y) -> Encounter<L, Y>>(
    meet: MF,
    meets: spec_fn(Y) -> Encounter<L, Y>,
) -> bool {
    forall|ray: Y, encounter: Encounter<L, Y>| #[trigger]
        call_ensures(meet, (&ray,), encounter) ==> encounter == meets(ray)
}

/// Whether `blend` answers as the function does.
pub open spec fn blends_as<L, BF: Fn(L, L, L) -> L>(
    blend: BF,
    blends: spec_fn(L, L, L) -> L,
) -> bool {
    forall|emitted: L, attenuation: L, incoming: L, light: L| #[trigger]
        call_ensures(blend, (emitted, attenuation, incoming), light) ==> light == blends(
            emitted,
            attenuation,
            incoming,
        )
}

/// The same ray brings the same light. Where what a ray meets and how light
/// is blended are functions, as they are when every random draw comes from
/// a generator with a fixed seed, a ray brings back one light only: the
/// light that `light_of` says.
pub proof fn lemma_light_is_determined<L, Y, MF: Fn(&Y) -> Encounter<L, Y>, BF: Fn(L, L, L) -> L>(
    ray: Y,
    depth: nat,
    black: L,
    meet: MF,
    blend: BF,
    light: L,
    meets: spec_fn(Y) -> Encounter<L, Y>,
    blends: spec_fn(L, L, L) -> L,
)
    requires
        ray_brings(ray, depth, black, meet, blend, light),
        meets_as(meet, meets),
        blends_as(blend, blends),
    ensures
        light == light_of(ray, depth, black, meets, blends),
    decreases depth,
{
    if depth > 0 {
        let (encounter, incoming) = choose|encounter: Encounter<L, Y>, incoming: L| #[trigger]
            ray_step(ray, depth, black, meet, blend, encounter, incoming, light) && (
            encounter matches Encounter::Scattered { emitted, attenuation, ray: next }
                ==> ray_brings(next, (depth - 1) as nat, black, meet, blend, incoming));
        if let Encounter::Scattered { emitted, attenuation, ray: next } = encounter {
            lemma_light_is_determined(
                next,
                (depth - 1) as nat,
                black,
                meet,
                blend,
                incoming,
                meets,
                blends,
            );
        }
    }
}

} // verus!
