pub mod frame;
pub mod num;
pub mod buffer;
pub mod text;
pub mod codec;
pub mod codec_laws;
pub mod cache;
pub mod db;
pub mod recovery;
pub mod cmd;
pub mod raft_node;
pub mod raft_storage;
pub mod db_laws;
pub mod raft_laws;
