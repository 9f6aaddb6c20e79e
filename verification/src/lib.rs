//! A pixel-buffer transformation engine: deterministic-given-a-random-stream
//! algorithms that mutate an RGBA8 raster in place to produce glitch-art
//! artifacts. Every effect operates on a flat byte buffer of whole pixels,
//! borrowed mutably for the duration of one call.

pub mod binary_xor;
pub mod buffer;
pub mod byte_corrupt;
pub mod channel_shift;
pub mod chunk_swap;
pub mod data_bend;
pub mod engine;
pub mod image_blend;
pub mod options;
pub mod pixel_sort;
pub mod point_ops;
pub mod rng;

pub use engine::GlitchEffect;
pub use engine::GlitchError;
pub use options::BendChannel;
pub use options::BendMode;
pub use options::BinaryXorOptions;
pub use options::BlendMode;
pub use options::ByteCorruptOptions;
pub use options::ChannelShiftOptions;
pub use options::ChunkSwapOptions;
pub use options::CorruptMode;
pub use options::DataBendOptions;
pub use options::GlitchOptions;
pub use options::ImageBlendOptions;
pub use options::PixelSortOptions;
pub use options::ShiftDirection;
pub use options::SortChannel;
pub use options::XorMode;
pub use rng::RandomSource;
