//! A per-identity, per-route request rate limiter with a sliding time window.
//!
//! A [`QuotaTable`] maps route names to a window length and a maximum number
//! of admitted requests within that window. A [`Limiter`] records, per
//! identity and per route, the timestamps of admitted requests, decides each
//! admission under the configured quota, and trims expired timestamps on a
//! periodic sweep. Time enters the library only as an argument, in
//! milliseconds on a monotonic clock; the caller reads the clock and holds
//! the lock that serialises calls.

mod kv;
mod laws;
mod limiter;
mod model;
mod quota;

pub use laws::lemma_admission_bound;
pub use laws::lemma_at_limit_denies_all;
pub use laws::lemma_concurrent_admissions;
pub use laws::lemma_expiry_frees_capacity;
pub use laws::lemma_first_touch_admits;
pub use laws::lemma_independent_identities;
pub use laws::lemma_sweep_frame;
pub use laws::lemma_untouched_routes;
pub use laws::run_requests;

pub use limiter::Limiter;
pub use limiter::LimiterError;

pub use model::admitted;
pub use model::after_request;
pub use model::after_sweep;
pub use model::all_at_most;
pub use model::contains_time;
pub use model::lemma_live_times_all_expired;
pub use model::lemma_live_times_props;
pub use model::live_times;
pub use model::nondecreasing;
pub use model::swept_identity;
pub use model::touch_admits;
pub use model::touched_identity;
pub use model::StateView;
pub use model::TableView;

pub use quota::QuotaEntry;
pub use quota::QuotaTable;
