//! The blocks of a pipeline: the transforming stages, the sink, their workers,
//! and the loops that the workers run.
pub mod blocks;
pub mod in_block;
pub mod inout_block;

pub use blocks::{BlockMode, LoopBody, LoopStatus, MonitorLoop, OrderingMode, PipelineBlock};
pub use in_block::{cursor_after, sink_entry, spec_sink_entry, In, InBlock, InWorker, SinkEntry};
pub use inout_block::{
    dropped_turn, is_last_replica, spec_dropped_turn, spec_is_last_replica, spec_stage_output,
    spec_stop_turn, spec_value_turn, stage_output, stop_token, stop_turn, value_turn, InOut,
    InOutBlock, InOutWorker, StageTurn,
};
