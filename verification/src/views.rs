//! View assembly: combines aggregate rows with the relative-time formatter
//! and the outcome classifier into presentation-ready row structures,
//! preserving the ordering produced by the originating query.

use crate::aggregate::{first_seen_val, last_seen_val, IPAggregate};
use crate::model::{
    classify, clone_opt_string, outcome_code, spec_classify, spec_outcome_code, AuthAttempt,
};
use crate::timefmt::{elapsed_of, format_relative, relative_phrase};
use vstd::prelude::*;

verus! {

/// Presentation row for the per-IP rollup table: counts as they are, the
/// first/last-seen timestamps rendered as relative phrases.
pub struct IPAggregateView {
    pub ip: String,
    pub first_seen: String,
    pub last_seen: String,
    pub sessions: u64,
    pub auth_attempts: u64,
    pub commands: u64,
    pub downloads: u64,
}

/// Presentation row for one authentication attempt.
pub struct AuthView {
    pub id: String,
    pub username: Option<String>,
    pub password: Option<String>,
    /// Outcome code: failure 0, success 1, unknown 2.
    pub success: i8,
    pub client: Option<String>,
    /// Relative time of the attempt, such as "3 minutes ago".
    pub time: String,
}

/// View of an optional owned string.
pub open spec fn opt_view(o: Option<String>) -> Option<Seq<char>> {
    match o {
        Option::Some(s) => Option::Some(s@),
        Option::None => Option::None,
    }
}

/// How a rollup row maps to its presentation row at reference time `now`:
/// counts are copied, timestamps (absent ones clamped to the epoch) are
/// rendered as one-unit relative phrases.
pub open spec fn rollup_view_ok(row: IPAggregate, v: IPAggregateView, now: u64) -> bool {
    &&& v.ip@ == row.ip@
    &&& v.first_seen@ == relative_phrase(elapsed_of(first_seen_val(row), now), 1)
    &&& v.last_seen@ == relative_phrase(elapsed_of(last_seen_val(row), now), 1)
    &&& v.sessions == row.sessions
    &&& v.auth_attempts == row.auth_attempts
    &&& v.commands == row.commands
    &&& v.downloads == row.downloads
}

/// How an attempt maps to its presentation row at reference time `now`:
/// fields are copied, the outcome is classified to its code, and the
/// timestamp is rendered as a two-unit relative phrase.
pub open spec fn auth_view_ok(a: AuthAttempt, v: AuthView, now: u64) -> bool {
    &&& v.id@ == a.id@
    &&& opt_view(v.username) == opt_view(a.username)
    &&& opt_view(v.password) == opt_view(a.password)
    &&& v.success == spec_outcome_code(spec_classify(a.success))
    &&& opt_view(v.client) == opt_view(a.client)
    &&& v.time@ == relative_phrase(elapsed_of(a.timestamp, now), 2)
}

/// Renders rollup rows for presentation, in the order given.
pub fn ip_aggregate_views(rows: &Vec<IPAggregate>, now: u64) -> (out: Vec<IPAggregateView>)
    ensures
        out@.len() == rows@.len(),
        forall|m: int| 0 <= m < rows@.len() ==> rollup_view_ok(rows@[m], #[trigger] out@[m], now),
{
    let mut out: Vec<IPAggregateView> = Vec::new();
    let mut m: usize = 0;
    while m < rows.len()
        invariant
            m <= rows.len(),
            out@.len() == m,
            forall|k: int| 0 <= k < m ==> rollup_view_ok(rows@[k], #[trigger] out@[k], now),
        decreases rows.len() - m,
    {
        let first_raw = match rows[m].first_seen {
            Option::Some(t) => t,
            Option::None => 0,
        };
        let last_raw = match rows[m].last_seen {
            Option::Some(t) => t,
            Option::None => 0,
        };
        out.push(
            IPAggregateView {
                ip: rows[m].ip.clone(),
                first_seen: format_relative(first_raw, now, 1),
                last_seen: format_relative(last_raw, now, 1),
                sessions: rows[m].sessions,
                auth_attempts: rows[m].auth_attempts,
                commands: rows[m].commands,
                downloads: rows[m].downloads,
            },
        );
        m = m + 1;
    }
    out
}

/// Renders attempt rows for presentation, in the order given.
pub fn auth_views(rows: &Vec<AuthAttempt>, now: u64) -> (out: Vec<AuthView>)
    ensures
        out@.len() == rows@.len(),
        forall|m: int| 0 <= m < rows@.len() ==> auth_view_ok(rows@[m], #[trigger] out@[m], now),
{
    let mut out: Vec<AuthView> = Vec::new();
    let mut m: usize = 0;
    while m < rows.len()
        invariant
            m <= rows.len(),
            out@.len() == m,
            forall|k: int| 0 <= k < m ==> auth_view_ok(rows@[k], #[trigger] out@[k], now),
        decreases rows.len() - m,
    {
        let o = classify(rows[m].success);
        out.push(
            AuthView {
                id: rows[m].id.clone(),
                username: clone_opt_string(&rows[m].username),
                password: clone_opt_string(&rows[m].password),
                success: outcome_code(o),
                client: clone_opt_string(&rows[m].client),
                time: format_relative(rows[m].timestamp, now, 2),
            },
        );
        m = m + 1;
    }
    out
}

} // verus!
