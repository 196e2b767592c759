pub mod engine;
pub mod fault;
pub mod loop_buffer;
pub mod loop_stack;
pub mod ring;
pub mod shared_control;
pub mod state_machine;
