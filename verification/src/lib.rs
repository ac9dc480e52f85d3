//! DiskForge: a disk space analyser for NTFS volumes.

pub mod about;
pub mod applog;
pub mod bytes;
pub mod calendar;
pub mod candidate_laws;
pub mod categorize;
pub mod category_laws;
pub mod compact_tree;
pub mod crash_logger;
pub mod dedup;
pub mod dedup_laws;
pub mod digest;
pub mod dir_enum;
pub mod dir_laws;
pub mod disk_laws;
pub mod dup_tree;
pub mod export;
pub mod export_laws;
pub mod file_groups;
pub mod file_ops;
pub mod filetime_laws;
pub mod find;
pub mod find_laws;
pub mod folder_walk;
pub mod format;
pub mod fs_attrs;
pub mod grouping;
pub mod index_laws;
pub mod index_model;
pub mod index_numbering;
pub mod index_queries;
pub mod index_rebuild;
pub mod job_laws;
pub mod layered_probe;
pub mod list_search;
pub mod list_view;
pub mod lock_check;
pub mod lock_dialog;
pub mod lock_laws;
pub mod matcher;
pub mod matcher_laws;
pub mod mft_laws;
pub mod mft_load;
pub mod mft_scan;
pub mod mft_space;
pub mod mft_tree;
pub mod migrate;
pub mod migrate_laws;
pub mod model;
pub mod model_laws;
pub mod order_laws;
pub mod ordering;
pub mod owner_laws;
pub mod owners;
pub mod pane;
pub mod pools;
pub mod record_laws;
pub mod row_laws;
pub mod scan;
pub mod scan_laws;
pub mod scan_model;
pub mod scan_walk;
pub mod screen;
pub mod search_index;
pub mod search_progress;
pub mod session;
pub mod session_actions;
pub mod session_find;
pub mod session_jobs;
pub mod session_laws;
pub mod session_tabs;
pub mod size_laws;
pub mod sorting;
pub mod tab_laws;
pub mod tabs;
pub mod text;
pub mod text_laws;
pub mod theme;
pub mod tree_laws;
pub mod tree_list;
pub mod ui;
