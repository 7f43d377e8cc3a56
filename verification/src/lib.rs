//! A copy-on-write snapshot lifecycle engine for an append-only data volume:
//! periodic snapshot creation keyed by block height, bounded policy-driven
//! retention, rollback target resolution, and the request/response protocol
//! used to delegate snapshot creation to a separate daemon process.

mod catalog;
mod config;
mod errors;
mod math;
mod protocol;
mod resolve;
mod retention;

pub use catalog::{
    all_digits, catalog_from, catalog_of, dec_int, insert_desc, is_dec, lemma_create_idempotent,
    lemma_desc_unique, line_end, line_vals, parse_catalog, reversed, rollback_target,
    strictly_descending,
};
pub use config::{
    algo_of_lower, lower_bytes, mode_of_lower, BtmCfg, SnapAlgo, SnapMode, CAP_MAX, STEP_CNT,
};
pub use errors::BtmErr;
pub use protocol::{
    dec_digits, false_lit, idx_key, lemma_resp_bytes_injective, req_bytes, resp_bytes,
    server_parse, server_reply, success_key, true_lit, ClientCall, Req, Resp, MSG_MAX, RETRY_CNT,
    TIMEOUT_MS,
};
pub use resolve::{resolve, resolve_post, strictly_ascending};
pub use retention::{
    clean_deletion_plan, clean_plan, descending, eligible, fade_deletes_at, fade_deletion_plan,
    fade_modulus, fade_plan, fade_plan_from, fair_deletion_plan, fair_plan, fair_retained,
    lemma_eligible_exists, lemma_eligible_spacing, lemma_fade_density,
    lemma_fade_plan_membership, lemma_fair_retention_bound, policy_plan,
};
