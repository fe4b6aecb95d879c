//! Process/thread management and synchronization core of a small teaching
//! operating-system kernel: control-block lifecycle (fork/exec/spawn/exit/wait),
//! a stride-scheduling ready queue, cooperative synchronization primitives
//! (mutex, semaphore, condition variable), and a Banker's-algorithm deadlock
//! detector that gates lock and semaphore acquisition.
//!
//! All kernel state is passed explicitly: the process world lives in a
//! [`task::Kernel`], the per-process synchronization world in a
//! [`sync::ProcSync`].  External collaborators (virtual memory, file system,
//! timer hardware) are modeled as plain data inside those structures.

pub mod ledger;
pub mod process;
pub mod sched;
pub mod sync;
pub mod task;
