pub mod codec;
pub mod database;
pub mod error;
pub mod event;
pub mod mem_bucket;
pub mod mem_storage;
pub mod mem_stream;
pub mod name_map;
pub mod storage;
pub mod stream;
pub mod timestamp;

pub use codec::{decode_entry, encode_entry, key_name};
pub use database::Database;
pub use error::Error;
pub use event::Event;
pub use mem_bucket::{MemBucket, MemObject, MemObjectUploader};
pub use mem_storage::MemStorage;
pub use mem_stream::MemStream;
pub use storage::{Bucket, Object, ObjectUploader};
pub use stream::Stream;
pub use timestamp::Timestamp;
