//! The memory subsystem: bounded free-list queues, slab memory pools, the
//! size-class-routing memory manager, and the generational handle arenas.

pub mod indexed_data_store;
pub mod memory_manager;
pub mod memory_pool;
pub mod memory_pool64;
pub mod nullable;
pub mod page;
pub mod queue;
pub mod resource_manager;

pub use queue::QueueU32;
pub use queue::QueueUsize;
pub use queue::QUEUE_NULL;
pub use queue::QUEUE_U32_NULL;

pub use indexed_data_store::IndexedData;
pub use indexed_data_store::IndexedDataStore;
pub use indexed_data_store::IndexedHandle;
pub use indexed_data_store::IndexedRef;
pub use memory_manager::MemoryManager;
pub use nullable::MaybeNull;
pub use nullable::Nullable;
pub use resource_manager::ResourceData;
pub use resource_manager::ResourceHandle;
pub use resource_manager::ResourceManager;
pub use resource_manager::ResourceRef;
pub use memory_pool::MemoryPool;
pub use memory_pool64::MemoryPool64;
