//! The verified core of a terminal and SSH client: the journal that keeps
//! terminal output, the models behind its views, and the decisions of its
//! file transfer, SSH and storage code.
pub mod ansi;
pub mod atlas_laws;
pub mod bytes;
pub mod cache_swap;
pub mod checkpoint;
pub mod checkpoint_laws;
pub mod collector;
pub mod connection_laws;
pub mod decode_laws;
pub mod format_laws;
pub mod forwarding;
pub mod glyph_atlas;
pub mod history_search;
pub mod host_laws;
pub mod index_laws;
pub mod journal;
pub mod known_hosts;
pub mod known_hosts_laws;
pub mod line_blocks;
pub mod line_index;
pub mod log_page;
pub mod log_reflow;
pub mod log_surface;
pub mod migration;
pub mod outside;
pub mod page_laws;
pub mod paint;
pub mod paint_laws;
pub mod profiles;
pub mod proxy;
pub mod reflow_laws;
pub mod scroll_laws;
pub mod search_laws;
pub mod search_query;
pub mod segment_laws;
pub mod segmented;
pub mod selection_laws;
pub mod session_laws;
pub mod sftp;
pub mod span_laws;
pub mod ssh;
pub mod storage_laws;
pub mod style_laws;
pub mod surface;
pub mod terminal;
pub mod terminal_interaction;
pub mod text;
pub mod text_laws;
pub mod transfer;
pub mod transfer_laws;
pub mod window_laws;
pub mod word_laws;
pub mod writer;
pub mod writer_laws;
