//! Operation layer of a media catalog: scanning and ingest bookkeeping,
//! the index pass's decisions and failure ledger, search and browse rules,
//! sync bookkeeping, PARA references, the describer configuration,
//! `doctor`'s checks, the scheduling policy and the notices sink, each
//! stated over a mathematical model and proved.
pub mod autopilot;
pub mod text;
pub mod error;
pub mod notices;
pub mod para;
pub mod sync;
pub mod index;
pub mod index_run;
pub mod search;
pub mod describer_config;
pub mod doctor;
pub mod iso8601;
pub mod scan;
pub mod inbox_manifest;
pub mod heal;
pub mod browse;
pub mod ingest;
pub mod catalog;
pub mod blobs;
pub mod clock;
