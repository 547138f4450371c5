//! A small ray tracer: one ray per pixel, spheres, normal shading over a sky
//! gradient. All arithmetic is IEEE 754 binary arithmetic carried out on
//! integers, so every pixel is a mathematical function of the scene.

pub mod app;
pub mod color;
pub mod engine;
pub mod frame;
pub mod hittable;
pub mod ieee;
pub mod point;
pub mod ray;
pub mod renderer;
pub mod scalar;
pub mod scene;
pub mod vec3;
