pub mod app;
pub mod camera;
pub mod color;
pub mod console;
pub mod controls;
pub mod drawing;
pub mod editor;
pub mod probe;
pub mod probing;
pub mod scene;
pub mod simulation;
pub mod strokes;
