//! Object pools that hand out slots from batch-allocated segments and
//! recycle released slots, together with small append-only buffers.

pub mod layout;
pub mod pool;
pub mod registry;
pub mod small_buffer;
pub mod state;
pub mod tiny_buffer;
