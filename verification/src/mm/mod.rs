//! Memory management: page tables, frames, mapping backends, address spaces.
pub mod flags;
pub mod paging;
pub mod frame_table;
pub mod frame_runs;
pub mod file_map;
pub mod file_fault;
pub mod backend;
pub mod reclaim;
pub mod tlb;
pub mod unmap;
pub mod protect;
pub mod populate;
pub mod anon;
pub mod fault;
pub mod area;
pub mod aspace;
pub mod remap;
pub mod space_fault;
pub mod fault_rules;
pub mod prepared_rules;
pub mod fork;
pub mod space_ops;
pub mod fresh;
pub mod space_data;
pub mod retire;
pub mod asid;
pub mod pt_lock;
pub mod kernel;
