//! The scene that is shown, and the window it is shown in.

use crate::frame::painted;
use crate::hittable::SphereModel;
use crate::renderer::paint;
use crate::renderer::pixel;
use crate::scalar::HALF;
use crate::scalar::Scalar;
use crate::scalar::ZERO;
use crate::scalar::decode;
use crate::scene::Scene;
use crate::scene::SceneModel;
use crate::vec3::Triple;
use crate::vec3::Vec3;
use vstd::prelude::*;

verus! {

/// The encoding of -1.
pub const MINUS_ONE: u32 = 0xbf80_0000;

/// The size of the picture in pixels, and the title of the window.
#[derive(Clone, Copy)]
pub struct WindowOptions {
    pub width: u32,
    pub height: u32,
    pub name: &'static str,
}

/// What an engine is made with.
pub struct EngineOptions {
    pub window: WindowOptions,
}

/// A scene together with the window it is shown in.
pub struct Engine {
    pub scene: Scene,
    pub options: EngineOptions,
}

/// The sphere that is shown: radius one half, one unit in front of the eye.
pub open spec fn subject() -> SphereModel {
    SphereModel {
        center: Triple { x: decode(ZERO), y: decode(ZERO), z: decode(MINUS_ONE) },
        radius: decode(HALF),
    }
}

impl Engine {
    /// The scene as the window will show it.
    pub open spec fn shown(&self) -> SceneModel {
        SceneModel {
            objects: self.scene@.objects,
            width: self.options.window.width as nat,
            height: self.options.window.height as nat,
        }
    }

    /// An engine that shows one sphere in a picture the size of the window.
    pub fn new(options: EngineOptions) -> (e: Engine)
        ensures
            e.options == options,
            e.scene.dimensions == (options.window.width, options.window.height),
            e.scene@.objects == seq![subject()],
    {
        let wo = options.window;
        let mut scene = Scene::new((wo.width, wo.height));
        let zero = Scalar::from_bits(ZERO);
        scene.add_sphere(
            Vec3::new(zero, zero, Scalar::from_bits(MINUS_ONE)),
            Scalar::from_bits(HALF),
        );
        assert(scene@.objects =~= seq![subject()]);
        Engine { scene, options }
    }

    /// Paints the scene into `frame` at the size of the window.
    pub fn render(&self, frame: &mut [u8])
        requires
            self.options.window.width >= 1,
            self.options.window.height >= 1,
        ensures
            painted(old(frame)@, final(frame)@, |i: int| pixel(self.shown(), i)),
    {
        let wo = self.options.window;
        paint(&self.scene, wo.width, wo.height, frame);
    }
}

} // verus!
