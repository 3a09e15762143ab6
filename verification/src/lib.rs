//! The core of a Ninja-compatible build executor: manifests, depfiles and dyndep
//! files, the dependency log and the build log, and the graph of what a build
//! needs.
pub mod asking;
pub mod binding;
pub mod board;
pub mod build_laws;
pub mod build_line;
pub mod build_log;
pub mod build_log_compaction;
pub mod build_log_laws;
pub mod closure;
pub mod closure_laws;
pub mod collections;
pub mod command;
pub mod completion;
pub mod cycle;
pub mod declaration_laws;
pub mod declared_dirt;
pub mod declared_laws;
pub mod default_laws;
pub mod depfile;
pub mod depfile_laws;
pub mod deps_log;
pub mod deps_log_laws;
pub mod deps_log_order;
pub mod diagnostic;
pub mod dirty_plan;
pub mod discovery;
pub mod dyndep;
pub mod dyndep_apply;
pub mod dyndep_files;
pub mod dyndep_laws;
pub mod dyndep_load_laws;
pub mod dyndep_plan;
pub mod dyndep_text_laws;
pub mod elide;
pub mod escape_laws;
pub mod expand;
pub mod finalize;
pub mod freshness;
pub mod line_laws;
pub mod lines;
pub mod links;
pub mod loader;
pub mod loader_laws;
pub mod manifest;
pub mod manifest_laws;
pub mod msvc;
pub mod numbers;
pub mod paths;
pub mod plan_laws;
pub mod policy;
pub mod pool_laws;
pub mod pools;
pub mod prediction;
pub mod printer;
pub mod progress_laws;
pub mod queue;
pub mod reach;
pub mod relative;
pub mod relative_laws;
pub mod render;
pub mod run_laws;
pub mod schedule;
pub mod scheduler;
pub mod scheduler_laws;
pub mod sorting;
pub mod soundness;
pub mod spell;
pub mod stale_laws;
pub mod staleness;
pub mod statement;
pub mod status;
pub mod status_laws;
pub mod targets;
pub mod text;
pub mod told_laws;
pub mod validate;
pub mod version;

pub use diagnostic::Diagnostic;
pub use dyndep_apply::apply_dyndep_files;
pub use loader::parse_manifest;
pub use manifest::program_name;
pub use manifest::unknown_target_message;
pub use manifest::Edge;
pub use manifest::Manifest;
pub use manifest::Pool;
pub use manifest::Rule;
pub use paths::canonicalize_owned_path;
pub use paths::canonicalize_path;
pub use render::render_unescaped_binding;
pub use spell::spellcheck;
pub use targets::resolve_target_path;
