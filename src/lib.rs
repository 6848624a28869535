//! Escape-time fractal rendering over a rectangle of the complex plane:
//! fixed-point coordinate mapping and iteration, gradient palettes,
//! a time-sliced progressive scanner and a drag-to-zoom selection machine.

pub mod fixed;
pub mod mandelbrot;
pub mod display;
pub mod palette;
pub mod selection;
pub mod renderer;
