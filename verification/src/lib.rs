pub mod mesh;
pub mod representations;
pub mod connect;
pub mod isoline_map;
pub mod crossing;
pub mod circles;
pub mod geometry;
pub mod chunks;
pub mod processor_state;
pub mod stl;
