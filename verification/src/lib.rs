pub mod config;
pub mod cycles;
pub mod deps_report;
pub mod diff;
pub mod elm;
pub mod fix;
pub mod fix_order;
pub mod fix_overlap;
pub mod fix_plan;
pub mod graph;
pub mod lint_cache;
pub mod lint_export;
pub mod lint_result;
pub mod rule;
pub mod sorting;
pub mod stats;
pub mod text;
pub mod tui_model;
pub mod tui_nav;
pub mod tui_review;
pub mod tui_data;
pub mod tui_keys;
pub mod tui_update;
pub mod view_helpers;
