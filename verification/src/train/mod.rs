//! Training: batch geometry, the plan of a run, learning-rate phases,
//! parameter groups, ranks and memory figures.
pub mod course;
pub mod dist;
pub mod mem;
pub mod optim;
pub mod schedule;
pub mod train_loop;
