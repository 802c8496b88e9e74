//! A renderer's engine logic: render graph, resource tables, shadow atlas,
//! texture formats, input and the decisions of its Vulkan backend.

pub mod app_config;
pub mod atmosphere;
pub mod authoring;
pub mod bindless;
pub mod capture;
pub mod cascades;
pub mod cloud_noise;
pub mod dds;
pub mod engine;
pub mod fog;
pub mod gltf_scene;
pub mod graph;
pub mod heightmap;
pub mod ibl;
pub mod input;
pub mod lights;
pub mod memory;
pub mod mesh;
pub mod meshlets;
pub mod null_gpu;
pub mod occupancy;
pub mod overlay;
pub mod packing;
pub mod plugin;
pub mod rank;
pub mod resources;
pub mod rhi;
pub mod shadow_atlas;
pub mod shadow_order;
pub mod spd;
pub mod sssr;
pub mod surface;
pub mod terrain;
pub mod text;
pub mod vk_frames;
pub mod vk_image;
pub mod vk_pipeline;
