//! What an export holds, and what a run makes of it.

pub mod chat_dirs;
pub mod chat_enroll;
pub mod chat_fix;
pub mod chat_join;
pub mod chat_media;
pub mod chat_run;
pub mod chat_scan;
pub mod digest;
pub mod exif;
pub mod exif_block;
pub mod ffmpeg;
pub mod fix_run;
pub mod history;
pub mod history_run;
pub mod ledger;
pub mod local_fix;
pub mod manifest;
pub mod memory_plan;
pub mod model;
pub mod out_root;
pub mod outputs;
pub mod redact;
pub mod state;
