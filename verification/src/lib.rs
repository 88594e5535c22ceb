pub mod clip_map;
pub mod clipped_surface;
pub mod color_management;
pub mod cursor;
pub mod display_configuration;
pub mod dmabuf_feedback;
pub mod drm_helpers;
pub mod fixed_point;
pub mod geometry;
pub mod hw_color_pipeline;
pub mod natural;
pub mod output_config;
pub mod output_power;
pub mod perceptual_quantizer;
pub mod postprocess;
pub mod real_power;
pub mod screencopy;
pub mod startup;
pub mod surface;
pub mod surface_handle;
pub mod text;
pub mod tf;
