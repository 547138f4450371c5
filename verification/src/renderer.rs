//! The camera and the pixel loop.

use crate::frame::painted;
use crate::frame::painted_up_to;
use crate::frame::put_pixel;
use crate::ieee::format::Value;
use crate::point::Point3;
use crate::point::origin;
use crate::ray::Ray;
use crate::ray::RayModel;
use crate::scalar::ONE;
use crate::scalar::Scalar;
use crate::scalar::TWO;
use crate::scalar::ZERO;
use crate::scalar::decode;
use crate::scalar::minus;
use crate::scalar::of_integer;
use crate::scalar::over;
use crate::scalar::times;
use crate::scene::Scene;
use crate::scene::SceneModel;
use crate::vec3::Triple;
use crate::vec3::Vec3;
use vstd::prelude::*;

verus! {

/// The unit vector along `x`.
pub open spec fn unit_x() -> Triple {
    Triple { x: decode(ONE), y: decode(ZERO), z: decode(ZERO) }
}

/// The unit vector along `y`.
pub open spec fn unit_y() -> Triple {
    Triple { x: decode(ZERO), y: decode(ONE), z: decode(ZERO) }
}

/// The way from the viewport to the eye: the focal length, 1, along `z`.
pub open spec fn depth() -> Triple {
    Triple { x: decode(ZERO), y: decode(ZERO), z: decode(ONE) }
}

/// The width of the viewport as a vector: twice the aspect ratio of the
/// picture, along `x`.
pub open spec fn horizontal(width: nat, height: nat) -> Triple {
    unit_x().scaled(times(decode(TWO), over(of_integer(width), of_integer(height))))
}

/// The height of the viewport as a vector: 2, along `y`.
pub open spec fn vertical() -> Triple {
    unit_y().scaled(decode(TWO))
}

/// The lower left corner of the viewport, which lies centered one focal
/// length in front of the eye.
pub open spec fn lower_left(width: nat, height: nat) -> Triple {
    origin().minus(horizontal(width, height).over(decode(TWO))).minus(
        vertical().over(decode(TWO)),
    ).minus(depth())
}

/// The ray from the eye, at the origin, through the point of the viewport
/// `u` of the way across and `v` of the way up.
pub open spec fn viewport_ray(width: nat, height: nat, u: Value, v: Value) -> RayModel {
    RayModel {
        origin: origin(),
        direction: lower_left(width, height).plus(horizontal(width, height).scaled(u)).plus(
            vertical().scaled(v),
        ).minus(origin()),
    }
}

/// How far across the viewport pixel `i` lies: its column over the
/// greatest column.
pub open spec fn across(width: nat, i: int) -> Value {
    over(of_integer((i % (width as int)) as nat), of_integer((width - 1) as nat))
}

/// How far up the viewport pixel `i` lies: row 0 is the top.
pub open spec fn up(width: nat, height: nat, i: int) -> Value {
    minus(
        decode(ONE),
        over(of_integer((i / (width as int)) as nat), of_integer((height - 1) as nat)),
    )
}

/// The four bytes of pixel `i`, counted in row order from the top left.
pub open spec fn pixel(scene: SceneModel, i: int) -> Seq<u8> {
    viewport_ray(
        scene.width,
        scene.height,
        across(scene.width, i),
        up(scene.width, scene.height, i),
    ).color(scene).bytes()
}

/// Two renderings with the same pixels into buffers of one length agree
/// wherever the buffers agreed past their last whole pixel.
pub proof fn lemma_render_deterministic(
    before1: Seq<u8>,
    after1: Seq<u8>,
    before2: Seq<u8>,
    after2: Seq<u8>,
    pixels: spec_fn(int) -> Seq<u8>,
)
    requires
        painted(before1, after1, pixels),
        painted(before2, after2, pixels),
        before1.len() == before2.len(),
        forall|j: int| (before1.len() / 4) * 4 <= j < before1.len() ==> before1[j] == before2[j],
    ensures
        after1 == after2,
{
    assert(after1 =~= after2);
}

/// Rendering over a rendering changes nothing.
pub proof fn lemma_render_idempotent(
    before: Seq<u8>,
    once: Seq<u8>,
    twice: Seq<u8>,
    pixels: spec_fn(int) -> Seq<u8>,
)
    requires
        painted(before, once, pixels),
        painted(once, twice, pixels),
    ensures
        twice == once,
{
    lemma_render_deterministic(before, once, once, twice, pixels);
}

/// Paints pictures of scenes.
pub struct Renderer;

/// The colour seen through the viewport of a `width` by `height` picture.
pub(crate) fn shade(u: Scalar, v: Scalar, scene: &Scene, width: u32, height: u32) -> (bytes: [
    u8;
    4
])
    ensures
        bytes@ == viewport_ray(width as nat, height as nat, u@, v@).color(scene@).bytes(),
{
    let zero = Scalar::from_bits(ZERO);
    let one = Scalar::from_bits(ONE);
    let two = Scalar::from_bits(TWO);
    let aspect = Scalar::from_u64(width as u64).div(Scalar::from_u64(height as u64));
    let focal_length = one;
    let origin = Point3::default();
    let vertical = Vec3::new(zero, one, zero).scale(two);
    let horizontal = Vec3::new(one, zero, zero).scale(two.mul(aspect));
    let llc = Vec3::from(origin).sub(horizontal.div(two)).sub(vertical.div(two)).sub(
        Vec3::new(zero, zero, focal_length),
    );
    let ray = Ray::new(
        origin,
        llc.add(horizontal.scale(u)).add(vertical.scale(v)).sub(Vec3::from(origin)),
    );
    ray.color(scene).to_255()
}

/// Paints a `width` by `height` picture of the scene's objects.
pub(crate) fn paint(scene: &Scene, width: u32, height: u32, frame: &mut [u8])
    requires
        width >= 1,
        height >= 1,
    ensures
        painted(
            old(frame)@,
            final(frame)@,
            |i: int|
                pixel(
                    SceneModel {
                        objects: scene@.objects,
                        width: width as nat,
                        height: height as nat,
                    },
                    i,
                ),
        ),
{
    let count: usize = frame.len() / 4;
    let ghost model = SceneModel {
        objects: scene@.objects,
        width: width as nat,
        height: height as nat,
    };
    let ghost pixels = |i: int| pixel(model, i);
    let one = Scalar::from_bits(ONE);
    let mut i: usize = 0;
    while i < count
        invariant
            i <= count,
            count == old(frame)@.len() / 4,
            width >= 1,
            height >= 1,
            one@ == decode(ONE),
            model == (SceneModel {
                objects: scene@.objects,
                width: width as nat,
                height: height as nat,
            }),
            pixels == (|i: int| pixel(model, i)),
            painted_up_to(old(frame)@, frame@, pixels, i as int),
        decreases count - i,
    {
        let x: usize = i % (width as usize);
        let y: usize = i / (width as usize);
        let u = Scalar::from_u64(x as u64).div(Scalar::from_u64((width - 1) as u64));
        let v = one.sub(Scalar::from_u64(y as u64).div(Scalar::from_u64((height - 1) as u64)));
        let bytes = shade(u, v, scene, width, height);
        assert(bytes@ == pixels(i as int));
        put_pixel(frame, i, bytes);
        i = i + 1;
    }
}

impl Renderer {
    /// Paints the scene into `frame`, one ray a pixel, in row order from
    /// the top left. The picture must be at least one pixel each way; a
    /// picture one pixel wide or high has no greatest column or row to
    /// measure against, and its pixels come out as the arithmetic has them.
    pub fn render(scene: &Scene, frame: &mut [u8])
        requires
            scene.dimensions.0 >= 1,
            scene.dimensions.1 >= 1,
        ensures
            painted(old(frame)@, final(frame)@, |i: int| pixel(scene@, i)),
    {
        paint(scene, scene.dimensions.0, scene.dimensions.1, frame);
        assert(scene@ == (SceneModel {
            objects: scene@.objects,
            width: scene.dimensions.0 as nat,
            height: scene.dimensions.1 as nat,
        }));
    }

    /// The colour seen at the point of the viewport `u` of the way across
    /// and `v` of the way up.
    pub fn single(u: Scalar, v: Scalar, scene: &Scene) -> (bytes: [u8; 4])
        ensures
            bytes@ == viewport_ray(scene@.width, scene@.height, u@, v@).color(scene@).bytes(),
    {
        shade(u, v, scene, scene.dimensions.0, scene.dimensions.1)
    }
}

} // verus!
