//! The three aggregation queries over raw event rows: per-IP rollup,
//! per-minute authentication trend, and per-IP attempt detail. All three are
//! total functions over in-memory rows; the event store accessor that fetches
//! the rows lives outside the core.

use crate::model::{classify, spec_classify, AuthAttempt, Command, Download, Outcome, Session};
use vstd::pervasive::VecAdditionalExecFns;
use vstd::prelude::*;

verus! {

/// Whether some session carries identifier `sid` and source address `ip`.
pub open spec fn session_has_ip(sessions: Seq<Session>, sid: Seq<char>, ip: Seq<char>) -> bool {
    exists|j: int|
        0 <= j < sessions.len() && sessions[j].id@ == sid && sessions[j].ip@ == ip
}

/// Whether an attempt belongs, through its owning session, to `ip`.
pub open spec fn attempt_of_ip(sessions: Seq<Session>, a: AuthAttempt, ip: Seq<char>) -> bool {
    session_has_ip(sessions, a.session@, ip)
}

/// The attempts owned by sessions of `ip`, in their stored order.
pub open spec fn attempts_of_ip(
    sessions: Seq<Session>,
    auths: Seq<AuthAttempt>,
    ip: Seq<char>,
) -> Seq<AuthAttempt> {
    auths.filter(|a: AuthAttempt| attempt_of_ip(sessions, a, ip))
}

fn has_session_with(sessions: &Vec<Session>, sid: &String, ip: &String) -> (b: bool)
    ensures
        b == session_has_ip(sessions@, sid@, ip@),
{
    let mut j: usize = 0;
    while j < sessions.len()
        invariant
            j <= sessions.len(),
            forall|k: int|
                0 <= k < j ==> !(sessions@[k].id@ == sid@ && sessions@[k].ip@ == ip@),
        decreases sessions.len() - j,
    {
        if sessions[j].id == *sid && sessions[j].ip == *ip {
            return true;
        }
        j = j + 1;
    }
    false
}

/// Per-IP auth-attempt detail: every attempt whose owning session's source
/// address equals `ip`, in the stored order. An address with no matching
/// attempts yields an empty vector, never an error.
pub fn ip_auth_attempts(
    sessions: &Vec<Session>,
    auths: &Vec<AuthAttempt>,
    ip: &String,
) -> (r: Vec<AuthAttempt>)
    ensures
        r@ == attempts_of_ip(sessions@, auths@, ip@),
{
    let mut r: Vec<AuthAttempt> = Vec::new();
    let mut i: usize = 0;
    proof {
        reveal_with_fuel(Seq::<_>::filter, 2);
        assert(auths@.take(0) =~= Seq::<AuthAttempt>::empty());
        assert(r@ =~= attempts_of_ip(sessions@, auths@.take(0), ip@));
    }
    while i < auths.len()
        invariant
            i <= auths.len(),
            r@ == attempts_of_ip(sessions@, auths@.take(i as int), ip@),
        decreases auths.len() - i,
    {
        let keep = has_session_with(sessions, &auths[i].session, ip);
        if keep {
            r.push(auths[i].clone());
        }
        proof {
            reveal_with_fuel(Seq::<_>::filter, 2);
            assert(auths@.take(i + 1).drop_last() =~= auths@.take(i as int));
            assert(auths@.take(i + 1).last() == auths@[i as int]);
            assert(r@ == attempts_of_ip(sessions@, auths@.take(i + 1), ip@));
        }
        i = i + 1;
    }
    proof {
        assert(auths@.take(auths@.len() as int) =~= auths@);
    }
    r
}

/// An address whose sessions own no attempts at all has an empty detail
/// sequence.
pub proof fn lemma_detail_empty_when_no_attempts(
    sessions: Seq<Session>,
    auths: Seq<AuthAttempt>,
    ip: Seq<char>,
)
    requires
        forall|j: int| 0 <= j < auths.len() ==> !attempt_of_ip(sessions, #[trigger] auths[j], ip),
    ensures
        attempts_of_ip(sessions, auths, ip) == Seq::<AuthAttempt>::empty(),
    decreases auths.len(),
{
    reveal_with_fuel(Seq::<_>::filter, 2);
    if auths.len() == 0 {
        assert(attempts_of_ip(sessions, auths, ip) =~= Seq::<AuthAttempt>::empty());
    } else {
        assert(auths.last() == auths[auths.len() - 1]);
        lemma_detail_empty_when_no_attempts(sessions, auths.drop_last(), ip);
    }
}

/// Every session row, in the stored order.
pub fn list_recent(sessions: &Vec<Session>) -> (r: Vec<Session>)
    ensures
        r@ == sessions@,
{
    let mut r: Vec<Session> = Vec::new();
    let mut i: usize = 0;
    while i < sessions.len()
        invariant
            i <= sessions.len(),
            r@ == sessions@.take(i as int),
        decreases sessions.len() - i,
    {
        r.push(sessions[i].clone());
        proof {
            assert(r@ =~= sessions@.take(i + 1));
        }
        i = i + 1;
    }
    proof {
        assert(sessions@.take(sessions@.len() as int) =~= sessions@);
    }
    r
}

/// Per-minute trend row: a minute-aligned bucket with the number of
/// successful and failed attempts whose owning session started in it.
pub struct AuthByMinute {
    /// Minute-truncated session start time; always present in computed rows.
    pub time: Option<u64>,
    pub success: u64,
    pub failure: u64,
}

/// Session identifiers are unique, as the store's primary key makes them.
pub open spec fn unique_session_ids(sessions: Seq<Session>) -> bool {
    forall|i: int, j: int|
        0 <= i < j < sessions.len() ==> sessions[i].id@ != sessions[j].id@
}

/// Whether a session start falls in the trailing window of `hours` hours
/// before `now` (strictly later than the window's lower edge).
pub open spec fn in_window(start: u64, now: u64, hours: u64) -> bool {
    start as int > now as int - hours as int * 3600
}

/// The minute-aligned bucket of a start time: seconds zeroed.
pub open spec fn minute_of(t: u64) -> u64 {
    (t - (t % 60)) as u64
}

/// Whether attempt `a` is eligible for the window and, through its owning
/// session's start time, falls in bucket `b`.
pub open spec fn attempt_in_bucket(
    sessions: Seq<Session>,
    a: AuthAttempt,
    now: u64,
    hours: u64,
    b: u64,
) -> bool {
    exists|j: int|
        0 <= j < sessions.len() && sessions[j].id@ == a.session@ && in_window(
            sessions[j].starttime,
            now,
            hours,
        ) && minute_of(sessions[j].starttime) == b
}

/// How many attempts fall in bucket `b` with the given classified outcome.
pub open spec fn bucket_outcome_count(
    sessions: Seq<Session>,
    auths: Seq<AuthAttempt>,
    now: u64,
    hours: u64,
    b: u64,
    oc: Outcome,
) -> nat
    decreases auths.len(),
{
    if auths.len() == 0 {
        0
    } else {
        bucket_outcome_count(sessions, auths.drop_last(), now, hours, b, oc) + if attempt_in_bucket(
            sessions,
            auths.last(),
            now,
            hours,
            b,
        ) && spec_classify(auths.last().success) == oc {
            1nat
        } else {
            0nat
        }
    }
}

/// Whether some attempt falls in bucket `b` for this window.
pub open spec fn bucket_nonempty(
    sessions: Seq<Session>,
    auths: Seq<AuthAttempt>,
    now: u64,
    hours: u64,
    b: u64,
) -> bool {
    exists|j: int| 0 <= j < auths.len() && attempt_in_bucket(sessions, #[trigger] auths[j], now, hours, b)
}

/// With unique identifiers, two sessions sharing one identifier are the same
/// row.
proof fn lemma_unique_owner(sessions: Seq<Session>, j1: int, j2: int)
    requires
        unique_session_ids(sessions),
        0 <= j1 < sessions.len(),
        0 <= j2 < sessions.len(),
        sessions[j1].id@ == sessions[j2].id@,
    ensures
        j1 == j2,
{
    if j1 < j2 {
        assert(sessions[j1].id@ != sessions[j2].id@);
    } else if j2 < j1 {
        assert(sessions[j2].id@ != sessions[j1].id@);
    }
}

/// The bucket the attempt falls in, if its owning session exists and started
/// inside the window. With unique session identifiers the bucket is
/// determined: the second clause says no other bucket fits.
fn bucket_of_attempt(sessions: &Vec<Session>, a: &AuthAttempt, now: u64, hours: u64) -> (r: Option<
    u64,
>)
    requires
        unique_session_ids(sessions@),
    ensures
        r matches Some(b) ==> attempt_in_bucket(sessions@, *a, now, hours, b),
        forall|b: u64| attempt_in_bucket(sessions@, *a, now, hours, b) ==> r == Some(b),
{
    let mut j: usize = 0;
    while j < sessions.len()
        invariant
            j <= sessions.len(),
            unique_session_ids(sessions@),
            forall|k: int| 0 <= k < j ==> sessions@[k].id@ != a.session@,
        decreases sessions.len() - j,
    {
        if sessions[j].id == a.session {
            let st = sessions[j].starttime;
            let lower: i128 = now as i128 - (hours as i128) * 3600;
            if (st as i128) > lower {
                let b = st - st % 60;
                proof {
                    assert(attempt_in_bucket(sessions@, *a, now, hours, b));
                    assert forall|b2: u64|
                        attempt_in_bucket(sessions@, *a, now, hours, b2) implies b2 == b by {
                        let j2 = choose|j2: int|
                            0 <= j2 < sessions@.len() && sessions@[j2].id@ == a.session@
                                && in_window(sessions@[j2].starttime, now, hours) && minute_of(
                                sessions@[j2].starttime,
                            ) == b2;
                        lemma_unique_owner(sessions@, j2, j as int);
                    }
                }
                return Option::Some(b);
            } else {
                proof {
                    assert forall|b2: u64| !attempt_in_bucket(
                        sessions@,
                        *a,
                        now,
                        hours,
                        b2,
                    ) by {
                        if attempt_in_bucket(sessions@, *a, now, hours, b2) {
                            let j2 = choose|j2: int|
                                0 <= j2 < sessions@.len() && sessions@[j2].id@ == a.session@
                                    && in_window(sessions@[j2].starttime, now, hours) && minute_of(
                                    sessions@[j2].starttime,
                                ) == b2;
                            lemma_unique_owner(sessions@, j2, j as int);
                        }
                    }
                }
                return Option::None;
            }
        }
        j = j + 1;
    }
    proof {
        assert forall|b2: u64| !attempt_in_bucket(sessions@, *a, now, hours, b2) by {
            if attempt_in_bucket(sessions@, *a, now, hours, b2) {
                let j2 = choose|j2: int|
                    0 <= j2 < sessions@.len() && sessions@[j2].id@ == a.session@ && in_window(
                        sessions@[j2].starttime,
                        now,
                        hours,
                    ) && minute_of(sessions@[j2].starttime) == b2;
            }
        }
    }
    Option::None
}

fn contains_u64(v: &Vec<u64>, x: u64) -> (b: bool)
    ensures
        b == v@.contains(x),
{
    let mut j: usize = 0;
    while j < v.len()
        invariant
            j <= v.len(),
            forall|k: int| 0 <= k < j ==> v@[k] != x,
        decreases v.len() - j,
    {
        if v[j] == x {
            assert(v@.contains(x));
            return true;
        }
        j = j + 1;
    }
    assert(!v@.contains(x));
    false
}

fn count_bucket(
    sessions: &Vec<Session>,
    auths: &Vec<AuthAttempt>,
    now: u64,
    hours: u64,
    b: u64,
    oc: Outcome,
) -> (c: u64)
    requires
        unique_session_ids(sessions@),
    ensures
        c == bucket_outcome_count(sessions@, auths@, now, hours, b, oc),
{
    let mut c: u64 = 0;
    let mut i: usize = 0;
    proof {
        assert(auths@.take(0) =~= Seq::<AuthAttempt>::empty());
    }
    while i < auths.len()
        invariant
            i <= auths.len(),
            c <= i,
            unique_session_ids(sessions@),
            c == bucket_outcome_count(sessions@, auths@.take(i as int), now, hours, b, oc),
        decreases auths.len() - i,
    {
        let r = bucket_of_attempt(sessions, &auths[i], now, hours);
        let matched: bool = match r {
            Option::Some(b2) => {
                if b2 == b {
                    let o = classify(auths[i].success);
                    o == oc
                } else {
                    false
                }
            },
            Option::None => false,
        };
        proof {
            assert(matched == (attempt_in_bucket(sessions@, auths@[i as int], now, hours, b)
                && spec_classify(auths@[i as int].success) == oc));
            assert(auths@.take(i + 1).drop_last() =~= auths@.take(i as int));
            assert(auths@.take(i + 1).last() == auths@[i as int]);
        }
        if matched {
            c = c + 1;
        }
        i = i + 1;
    }
    proof {
        assert(auths@.take(auths@.len() as int) =~= auths@);
    }
    c
}

/// Per-minute auth trend: one row per distinct minute bucket holding at least
/// one attempt whose owning session started within the trailing `hours`-hour
/// window before `now`. Each row counts attempts classified as success and as
/// failure separately; unknown outcomes are excluded from both counters.
/// Rows appear in order of first occurrence; callers needing chronological
/// order sort the result.
pub fn recent_auth_attempts(
    sessions: &Vec<Session>,
    auths: &Vec<AuthAttempt>,
    now: u64,
    hours: u64,
) -> (rows: Vec<AuthByMinute>)
    requires
        hours >= 1,
        unique_session_ids(sessions@),
    ensures
        forall|k: int|
            0 <= k < rows@.len() ==> ((#[trigger] rows@[k].time) matches Some(b) && b % 60 == 0
                && bucket_nonempty(sessions@, auths@, now, hours, b)
                && rows@[k].success == bucket_outcome_count(
                sessions@,
                auths@,
                now,
                hours,
                b,
                Outcome::Success,
            ) && rows@[k].failure == bucket_outcome_count(
                sessions@,
                auths@,
                now,
                hours,
                b,
                Outcome::Failure,
            )),
        forall|k1: int, k2: int|
            0 <= k1 < k2 < rows@.len() ==> rows@[k1].time != rows@[k2].time,
        forall|j: int, b: u64|
            0 <= j < auths@.len() && #[trigger] attempt_in_bucket(sessions@, auths@[j], now, hours, b)
                ==> exists|k: int| 0 <= k < rows@.len() && rows@[k].time == Some(b),
{
    let mut buckets: Vec<u64> = Vec::new();
    let mut i: usize = 0;
    while i < auths.len()
        invariant
            i <= auths.len(),
            unique_session_ids(sessions@),
            forall|k1: int, k2: int|
                0 <= k1 < k2 < buckets@.len() ==> buckets@[k1] != buckets@[k2],
            forall|k: int|
                0 <= k < buckets@.len() ==> (#[trigger] buckets@[k]) % 60 == 0 && bucket_nonempty(
                    sessions@,
                    auths@,
                    now,
                    hours,
                    buckets@[k],
                ),
            forall|j: int, b: u64|
                0 <= j < i && #[trigger] attempt_in_bucket(sessions@, auths@[j], now, hours, b)
                    ==> buckets@.contains(b),
        decreases auths.len() - i,
    {
        let r = bucket_of_attempt(sessions, &auths[i], now, hours);
        match r {
            Option::Some(b) => {
                proof {
                    let a = auths@[i as int];
                    assert(attempt_in_bucket(sessions@, a, now, hours, b));
                    let j = choose|j: int|
                        0 <= j < sessions@.len() && sessions@[j].id@ == a.session@ && in_window(
                            sessions@[j].starttime,
                            now,
                            hours,
                        ) && minute_of(sessions@[j].starttime) == b;
                    let t = sessions@[j].starttime;
                    assert(b == (t - (t % 60)) as u64);
                    assert(b % 60 == 0);
                    assert(bucket_nonempty(sessions@, auths@, now, hours, b)) by {
                        assert(attempt_in_bucket(sessions@, auths@[i as int], now, hours, b));
                    }
                }
                if !contains_u64(&buckets, b) {
                    let ghost before = buckets@;
                    buckets.push(b);
                    proof {
                        assert(buckets@[buckets@.len() - 1] == b);
                        assert(buckets@.contains(b));
                        assert forall|x: u64| before.contains(x) implies buckets@.contains(x) by {
                            let idx = choose|idx: int| 0 <= idx < before.len() && before[idx] == x;
                            assert(buckets@[idx] == x);
                        }
                    }
                }
            },
            Option::None => {},
        }
        i = i + 1;
    }
    let mut rows: Vec<AuthByMinute> = Vec::new();
    let mut k: usize = 0;
    while k < buckets.len()
        invariant
            k <= buckets.len(),
            rows@.len() == k,
            unique_session_ids(sessions@),
            forall|k1: int, k2: int|
                0 <= k1 < k2 < buckets@.len() ==> buckets@[k1] != buckets@[k2],
            forall|m: int|
                0 <= m < buckets@.len() ==> (#[trigger] buckets@[m]) % 60 == 0 && bucket_nonempty(
                    sessions@,
                    auths@,
                    now,
                    hours,
                    buckets@[m],
                ),
            forall|j: int, b: u64|
                0 <= j < auths@.len() && #[trigger] attempt_in_bucket(
                    sessions@,
                    auths@[j],
                    now,
                    hours,
                    b,
                ) ==> buckets@.contains(b),
            forall|m: int|
                0 <= m < k ==> (#[trigger] rows@[m]).time == Some(buckets@[m])
                    && rows@[m].success == bucket_outcome_count(
                    sessions@,
                    auths@,
                    now,
                    hours,
                    buckets@[m],
                    Outcome::Success,
                ) && rows@[m].failure == bucket_outcome_count(
                    sessions@,
                    auths@,
                    now,
                    hours,
                    buckets@[m],
                    Outcome::Failure,
                ),
        decreases buckets.len() - k,
    {
        let b = buckets[k];
        let s = count_bucket(sessions, auths, now, hours, b, Outcome::Success);
        let f = count_bucket(sessions, auths, now, hours, b, Outcome::Failure);
        rows.push(AuthByMinute { time: Option::Some(b), success: s, failure: f });
        k = k + 1;
    }
    proof {
        assert forall|j: int, b: u64|
            0 <= j < auths@.len() && #[trigger] attempt_in_bucket(
                sessions@,
                auths@[j],
                now,
                hours,
                b,
            ) implies exists|kk: int| 0 <= kk < rows@.len() && rows@[kk].time == Some(b) by {
            assert(buckets@.contains(b));
            let m = choose|m: int| 0 <= m < buckets@.len() && buckets@[m] == b;
            assert(rows@[m].time == Some(b));
        }
    }
    rows
}


/// Whether some session carries source address `ip`.
pub open spec fn ip_present(sessions: Seq<Session>, ip: Seq<char>) -> bool {
    exists|j: int| 0 <= j < sessions.len() && (#[trigger] sessions[j]).ip@ == ip
}

/// Whether `ip` appears in a list of addresses.
pub open spec fn ip_listed(ips: Seq<String>, ip: Seq<char>) -> bool {
    exists|a: int| 0 <= a < ips.len() && (#[trigger] ips[a])@ == ip
}

/// Per-IP aggregate row (derived, never persisted): activity counts and
/// first/last session start for one source address.
pub struct IPAggregate {
    pub ip: String,
    /// Earliest session start for this address; present whenever the address
    /// has a session at all.
    pub first_seen: Option<u64>,
    /// Latest session start for this address.
    pub last_seen: Option<u64>,
    pub sessions: u64,
    pub auth_attempts: u64,
    pub commands: u64,
    pub downloads: u64,
}

/// How many sessions carry source address `ip`.
pub open spec fn count_ip_sessions(sessions: Seq<Session>, ip: Seq<char>) -> nat
    decreases sessions.len(),
{
    if sessions.len() == 0 {
        0
    } else {
        count_ip_sessions(sessions.drop_last(), ip) + if sessions.last().ip@ == ip {
            1nat
        } else {
            0nat
        }
    }
}

/// How many of the given owning-session identifiers belong to a session of
/// `ip` (left-join semantics: an identifier that matches no session counts
/// for no address).
pub open spec fn count_owned(sessions: Seq<Session>, sids: Seq<String>, ip: Seq<char>) -> nat
    decreases sids.len(),
{
    if sids.len() == 0 {
        0
    } else {
        count_owned(sessions, sids.drop_last(), ip) + if session_has_ip(
            sessions,
            sids.last()@,
            ip,
        ) {
            1nat
        } else {
            0nat
        }
    }
}

/// `t` is the earliest session start among sessions of `ip`.
pub open spec fn is_earliest_start(sessions: Seq<Session>, ip: Seq<char>, t: u64) -> bool {
    (exists|j: int|
        0 <= j < sessions.len() && (#[trigger] sessions[j]).ip@ == ip && sessions[j].starttime
            == t) && (forall|j: int|
        0 <= j < sessions.len() && (#[trigger] sessions[j]).ip@ == ip ==> t
            <= sessions[j].starttime)
}

/// `t` is the latest session start among sessions of `ip`.
pub open spec fn is_latest_start(sessions: Seq<Session>, ip: Seq<char>, t: u64) -> bool {
    (exists|j: int|
        0 <= j < sessions.len() && (#[trigger] sessions[j]).ip@ == ip && sessions[j].starttime
            == t) && (forall|j: int|
        0 <= j < sessions.len() && (#[trigger] sessions[j]).ip@ == ip ==> sessions[j].starttime
            <= t)
}

/// The owning-session identifiers of a sequence of attempts.
pub open spec fn auth_session_ids(auths: Seq<AuthAttempt>) -> Seq<String> {
    auths.map_values(|a: AuthAttempt| a.session)
}

/// The owning-session identifiers of a sequence of commands.
pub open spec fn command_session_ids(commands: Seq<Command>) -> Seq<String> {
    commands.map_values(|c: Command| c.session)
}

/// The owning-session identifiers of a sequence of downloads.
pub open spec fn download_session_ids(downloads: Seq<Download>) -> Seq<String> {
    downloads.map_values(|d: Download| d.session)
}

/// A rollup row is exact for its address, with the owning-session
/// identifiers of the three joined event kinds given directly.
pub open spec fn rollup_row_ok_ids(
    sessions: Seq<Session>,
    auth_sids: Seq<String>,
    cmd_sids: Seq<String>,
    dl_sids: Seq<String>,
    row: IPAggregate,
) -> bool {
    &&& row.sessions == count_ip_sessions(sessions, row.ip@)
    &&& row.auth_attempts == count_owned(sessions, auth_sids, row.ip@)
    &&& row.commands == count_owned(sessions, cmd_sids, row.ip@)
    &&& row.downloads == count_owned(sessions, dl_sids, row.ip@)
    &&& (row.first_seen matches Some(fs) && is_earliest_start(sessions, row.ip@, fs))
    &&& (row.last_seen matches Some(ls) && is_latest_start(sessions, row.ip@, ls))
}

/// A rollup row is exact for its address: the session count, the three
/// left-joined event counts, and the first/last session start all match the
/// raw rows.
pub open spec fn rollup_row_ok(
    sessions: Seq<Session>,
    auths: Seq<AuthAttempt>,
    commands: Seq<Command>,
    downloads: Seq<Download>,
    row: IPAggregate,
) -> bool {
    rollup_row_ok_ids(
        sessions,
        auth_session_ids(auths),
        command_session_ids(commands),
        download_session_ids(downloads),
        row,
    )
}

/// The first-seen time a row carries, defaulting to zero when absent.
pub open spec fn first_seen_val(row: IPAggregate) -> u64 {
    match row.first_seen {
        Option::Some(t) => t,
        Option::None => 0,
    }
}

/// The last-seen time a row carries, defaulting to zero when absent.
pub open spec fn last_seen_val(row: IPAggregate) -> u64 {
    match row.last_seen {
        Option::Some(t) => t,
        Option::None => 0,
    }
}

/// An address whose sessions own no auth attempts rolls up with an
/// auth-attempt count of exactly zero: the left join fills zero in, it never
/// omits the row.
pub proof fn lemma_rollup_zero_auth(
    sessions: Seq<Session>,
    auths: Seq<AuthAttempt>,
    commands: Seq<Command>,
    downloads: Seq<Download>,
    row: IPAggregate,
)
    requires
        rollup_row_ok(sessions, auths, commands, downloads, row),
        forall|j: int|
            0 <= j < auths.len() ==> !session_has_ip(
                sessions,
                (#[trigger] auths[j]).session@,
                row.ip@,
            ),
    ensures
        row.auth_attempts == 0,
{
    lemma_count_owned_zero(sessions, auth_session_ids(auths), row.ip@);
}

proof fn lemma_count_owned_zero(sessions: Seq<Session>, sids: Seq<String>, ip: Seq<char>)
    requires
        forall|k: int| 0 <= k < sids.len() ==> !session_has_ip(sessions, (#[trigger] sids[k])@, ip),
    ensures
        count_owned(sessions, sids, ip) == 0,
    decreases sids.len(),
{
    if sids.len() > 0 {
        assert(sids.last() == sids[sids.len() - 1]);
        lemma_count_owned_zero(sessions, sids.drop_last(), ip);
    }
}

fn contains_string(v: &Vec<String>, x: &String) -> (b: bool)
    ensures
        b == exists|k: int| 0 <= k < v@.len() && (#[trigger] v@[k])@ == x@,
{
    let mut j: usize = 0;
    while j < v.len()
        invariant
            j <= v.len(),
            forall|k: int| 0 <= k < j ==> (#[trigger] v@[k])@ != x@,
        decreases v.len() - j,
    {
        if v[j] == *x {
            return true;
        }
        j = j + 1;
    }
    false
}

/// The distinct source addresses of the sessions, in first-occurrence order.
fn distinct_ips(sessions: &Vec<Session>) -> (ips: Vec<String>)
    ensures
        forall|a: int, b: int| 0 <= a < b < ips@.len() ==> ips@[a]@ != ips@[b]@,
        forall|a: int| 0 <= a < ips@.len() ==> ip_present(sessions@, (#[trigger] ips@[a])@),
        forall|j: int|
            0 <= j < sessions@.len() ==> ip_listed(ips@, (#[trigger] sessions@[j]).ip@),
{
    let mut ips: Vec<String> = Vec::new();
    let mut i: usize = 0;
    while i < sessions.len()
        invariant
            i <= sessions.len(),
            forall|a: int, b: int| 0 <= a < b < ips@.len() ==> ips@[a]@ != ips@[b]@,
            forall|a: int| 0 <= a < ips@.len() ==> ip_present(sessions@, (#[trigger] ips@[a])@),
            forall|j: int| 0 <= j < i ==> ip_listed(ips@, (#[trigger] sessions@[j]).ip@),
        decreases sessions.len() - i,
    {
        let seen = contains_string(&ips, &sessions[i].ip);
        if !seen {
            let ghost before = ips@;
            ips.push(sessions[i].ip.clone());
            proof {
                assert(ips@[ips@.len() - 1]@ == sessions@[i as int].ip@);
                assert(ip_present(sessions@, sessions@[i as int].ip@));
                assert forall|j: int|
                    0 <= j < i + 1 implies ip_listed(ips@, (#[trigger] sessions@[j]).ip@) by {
                    if j < i {
                        let a = choose|a: int|
                            0 <= a < before.len() && (#[trigger] before[a])@ == sessions@[j].ip@;
                        assert(ips@[a]@ == sessions@[j].ip@);
                    } else {
                        assert(ips@[ips@.len() - 1]@ == sessions@[j].ip@);
                    }
                }
            }
        } else {
            proof {
                assert(ip_listed(ips@, sessions@[i as int].ip@));
            }
        }
        i = i + 1;
    }
    ips
}

/// Session count and earliest/latest start for one address, which must have
/// at least one session.
fn session_stats(sessions: &Vec<Session>, ip: &String) -> (r: (u64, u64, u64))
    requires
        ip_present(sessions@, ip@),
    ensures
        r.0 == count_ip_sessions(sessions@, ip@),
        is_earliest_start(sessions@, ip@, r.1),
        is_latest_start(sessions@, ip@, r.2),
{
    let mut cnt: u64 = 0;
    let mut fs: u64 = 0;
    let mut ls: u64 = 0;
    let mut j: usize = 0;
    proof {
        assert(sessions@.take(0) =~= Seq::<Session>::empty());
    }
    while j < sessions.len()
        invariant
            j <= sessions.len(),
            cnt <= j,
            cnt == count_ip_sessions(sessions@.take(j as int), ip@),
            cnt > 0 ==> exists|k: int|
                0 <= k < j && (#[trigger] sessions@[k]).ip@ == ip@ && sessions@[k].starttime == fs,
            cnt > 0 ==> exists|k: int|
                0 <= k < j && (#[trigger] sessions@[k]).ip@ == ip@ && sessions@[k].starttime == ls,
            forall|k: int|
                0 <= k < j && (#[trigger] sessions@[k]).ip@ == ip@ ==> cnt > 0 && fs
                    <= sessions@[k].starttime && sessions@[k].starttime <= ls,
        decreases sessions.len() - j,
    {
        proof {
            assert(sessions@.take(j + 1).drop_last() =~= sessions@.take(j as int));
            assert(sessions@.take(j + 1).last() == sessions@[j as int]);
        }
        if sessions[j].ip == *ip {
            let st = sessions[j].starttime;
            if cnt == 0 {
                fs = st;
                ls = st;
            } else {
                if st < fs {
                    fs = st;
                }
                if st > ls {
                    ls = st;
                }
            }
            cnt = cnt + 1;
        }
        j = j + 1;
    }
    proof {
        assert(sessions@.take(sessions@.len() as int) =~= sessions@);
    }
    (cnt, fs, ls)
}

fn count_owned_exec(sessions: &Vec<Session>, sids: &Vec<String>, ip: &String) -> (c: u64)
    ensures
        c == count_owned(sessions@, sids@, ip@),
{
    let mut c: u64 = 0;
    let mut i: usize = 0;
    proof {
        assert(sids@.take(0) =~= Seq::<String>::empty());
    }
    while i < sids.len()
        invariant
            i <= sids.len(),
            c <= i,
            c == count_owned(sessions@, sids@.take(i as int), ip@),
        decreases sids.len() - i,
    {
        proof {
            assert(sids@.take(i + 1).drop_last() =~= sids@.take(i as int));
            assert(sids@.take(i + 1).last() == sids@[i as int]);
        }
        let owned = has_session_with(sessions, &sids[i], ip);
        if owned {
            c = c + 1;
        }
        i = i + 1;
    }
    proof {
        assert(sids@.take(sids@.len() as int) =~= sids@);
    }
    c
}

fn auth_sids_of(auths: &Vec<AuthAttempt>) -> (r: Vec<String>)
    ensures
        r@ == auth_session_ids(auths@),
{
    let mut r: Vec<String> = Vec::new();
    let mut i: usize = 0;
    while i < auths.len()
        invariant
            i <= auths.len(),
            r@.len() == i,
            forall|k: int| 0 <= k < i ==> r@[k] == auths@[k].session,
        decreases auths.len() - i,
    {
        r.push(auths[i].session.clone());
        i = i + 1;
    }
    proof {
        assert(r@ =~= auth_session_ids(auths@));
    }
    r
}

fn command_sids_of(commands: &Vec<Command>) -> (r: Vec<String>)
    ensures
        r@ == command_session_ids(commands@),
{
    let mut r: Vec<String> = Vec::new();
    let mut i: usize = 0;
    while i < commands.len()
        invariant
            i <= commands.len(),
            r@.len() == i,
            forall|k: int| 0 <= k < i ==> r@[k] == commands@[k].session,
        decreases commands.len() - i,
    {
        r.push(commands[i].session.clone());
        i = i + 1;
    }
    proof {
        assert(r@ =~= command_session_ids(commands@));
    }
    r
}

fn download_sids_of(downloads: &Vec<Download>) -> (r: Vec<String>)
    ensures
        r@ == download_session_ids(downloads@),
{
    let mut r: Vec<String> = Vec::new();
    let mut i: usize = 0;
    while i < downloads.len()
        invariant
            i <= downloads.len(),
            r@.len() == i,
            forall|k: int| 0 <= k < i ==> r@[k] == downloads@[k].session,
        decreases downloads.len() - i,
    {
        r.push(downloads[i].session.clone());
        i = i + 1;
    }
    proof {
        assert(r@ =~= download_session_ids(downloads@));
    }
    r
}

/// Builds the exact rollup row for one address.
fn aggregate_one(
    sessions: &Vec<Session>,
    auth_sids: &Vec<String>,
    cmd_sids: &Vec<String>,
    dl_sids: &Vec<String>,
    ip: &String,
) -> (row: IPAggregate)
    requires
        ip_present(sessions@, ip@),
    ensures
        row.ip@ == ip@,
        rollup_row_ok_ids(sessions@, auth_sids@, cmd_sids@, dl_sids@, row),
{
    let stats = session_stats(sessions, ip);
    let auth_attempts = count_owned_exec(sessions, auth_sids, ip);
    let commands = count_owned_exec(sessions, cmd_sids, ip);
    let downloads = count_owned_exec(sessions, dl_sids, ip);
    IPAggregate {
        ip: ip.clone(),
        first_seen: Option::Some(stats.1),
        last_seen: Option::Some(stats.2),
        sessions: stats.0,
        auth_attempts,
        commands,
        downloads,
    }
}

/// How many entries of a marker sequence are set.
pub open spec fn count_true(s: Seq<bool>) -> nat
    decreases s.len(),
{
    if s.len() == 0 {
        0
    } else {
        count_true(s.drop_last()) + if s.last() {
            1nat
        } else {
            0nat
        }
    }
}

proof fn lemma_count_true_zero(s: Seq<bool>)
    requires
        forall|k: int| 0 <= k < s.len() ==> !(#[trigger] s[k]),
    ensures
        count_true(s) == 0,
    decreases s.len(),
{
    if s.len() > 0 {
        assert(s.last() == s[s.len() - 1]);
        lemma_count_true_zero(s.drop_last());
    }
}

proof fn lemma_count_true_all(s: Seq<bool>)
    requires
        forall|k: int| 0 <= k < s.len() ==> #[trigger] s[k],
    ensures
        count_true(s) == s.len(),
    decreases s.len(),
{
    if s.len() > 0 {
        assert(s.last() == s[s.len() - 1]);
        lemma_count_true_all(s.drop_last());
    }
}

proof fn lemma_count_true_le(s: Seq<bool>)
    ensures
        count_true(s) <= s.len(),
    decreases s.len(),
{
    if s.len() > 0 {
        lemma_count_true_le(s.drop_last());
    }
}

proof fn lemma_count_true_full(s: Seq<bool>)
    requires
        count_true(s) == s.len(),
    ensures
        forall|k: int| 0 <= k < s.len() ==> s[k],
    decreases s.len(),
{
    if s.len() > 0 {
        lemma_count_true_le(s.drop_last());
        assert(s.last() == s[s.len() - 1]);
        lemma_count_true_full(s.drop_last());
        assert forall|k: int| 0 <= k < s.len() implies s[k] by {
            if k < s.len() - 1 {
                assert(s.drop_last()[k]);
            }
        }
    }
}

proof fn lemma_count_true_set(s: Seq<bool>, i: int)
    requires
        0 <= i < s.len(),
        !s[i],
    ensures
        count_true(s.update(i, true)) == count_true(s) + 1,
    decreases s.len(),
{
    let t = s.update(i, true);
    if i == s.len() - 1 {
        assert(t.drop_last() =~= s.drop_last());
        assert(t.last());
        assert(!s.last());
    } else {
        assert(t.drop_last() =~= s.drop_last().update(i, true));
        assert(t.last() == s.last());
        lemma_count_true_set(s.drop_last(), i);
    }
}
/// Some address both marked as used and equal to `ip`.
pub open spec fn marked_ip(ips: Seq<String>, used: Seq<bool>, ip: Seq<char>) -> bool {
    exists|b: int|
        0 <= b < ips.len() && b < used.len() && used[b] && (#[trigger] ips[b])@ == ip
}

/// Some row carries address `ip`.
pub open spec fn row_with_ip(rows: Seq<IPAggregate>, ip: Seq<char>) -> bool {
    exists|m: int| 0 <= m < rows.len() && (#[trigger] rows[m]).ip@ == ip
}

/// One step of the selection that orders rollup rows: pushing the row of the
/// unused address with the greatest last-seen time preserves every property
/// of the partial result.
proof fn lemma_select_push(
    sessions: Seq<Session>,
    asids: Seq<String>,
    csids: Seq<String>,
    dsids: Seq<String>,
    ips: Seq<String>,
    lasts: Seq<u64>,
    prev_used: Seq<bool>,
    used: Seq<bool>,
    prev: Seq<IPAggregate>,
    rows: Seq<IPAggregate>,
    best: int,
    row: IPAggregate,
)
    requires
        ips.len() == lasts.len(),
        ips.len() == used.len(),
        ips.len() == prev_used.len(),
        0 <= best < ips.len(),
        !prev_used[best],
        used == prev_used.update(best, true),
        rows == prev.push(row),
        forall|b: int, c: int| 0 <= b < c < ips.len() ==> ips[b]@ != ips[c]@,
        forall|b: int| 0 <= b < ips.len() ==> is_latest_start(sessions, ips[b]@, #[trigger] lasts[b]),
        row.ip@ == ips[best]@,
        rollup_row_ok_ids(sessions, asids, csids, dsids, row),
        forall|m: int|
            0 <= m < prev.len() ==> rollup_row_ok_ids(sessions, asids, csids, dsids, #[trigger] prev[m]),
        forall|m: int| 0 <= m < prev.len() ==> marked_ip(ips, prev_used, (#[trigger] prev[m]).ip@),
        forall|b: int|
            0 <= b < ips.len() && (#[trigger] prev_used[b]) ==> row_with_ip(prev, ips[b]@),
        forall|m1: int, m2: int| 0 <= m1 < m2 < prev.len() ==> prev[m1].ip@ != prev[m2].ip@,
        forall|m1: int, m2: int|
            0 <= m1 <= m2 < prev.len() ==> last_seen_val(prev[m1]) >= last_seen_val(prev[m2]),
        forall|b: int|
            0 <= b < ips.len() && !(#[trigger] prev_used[b]) ==> (prev.len() == 0 || lasts[b]
                <= last_seen_val(prev[prev.len() - 1])),
        forall|k: int| 0 <= k < ips.len() && !(#[trigger] prev_used[k]) ==> lasts[k] <= lasts[best],
    ensures
        forall|m: int|
            0 <= m < rows.len() ==> rollup_row_ok_ids(sessions, asids, csids, dsids, #[trigger] rows[m]),
        forall|m: int| 0 <= m < rows.len() ==> marked_ip(ips, used, (#[trigger] rows[m]).ip@),
        forall|b: int| 0 <= b < ips.len() && (#[trigger] used[b]) ==> row_with_ip(rows, ips[b]@),
        forall|m1: int, m2: int| 0 <= m1 < m2 < rows.len() ==> rows[m1].ip@ != rows[m2].ip@,
        forall|m1: int, m2: int|
            0 <= m1 <= m2 < rows.len() ==> last_seen_val(rows[m1]) >= last_seen_val(rows[m2]),
        forall|b: int|
            0 <= b < ips.len() && !(#[trigger] used[b]) ==> (rows.len() == 0 || lasts[b]
                <= last_seen_val(rows[rows.len() - 1])),
{
    let last = rows.len() - 1;
    assert(rows[last] == row);
    assert(is_latest_start(sessions, ips[best]@, lasts[best]));
    assert(row.last_seen matches Some(ls) && is_latest_start(sessions, row.ip@, ls));
    assert(last_seen_val(row) == lasts[best]) by {
        let ls = last_seen_val(row);
        assert(is_latest_start(sessions, ips[best]@, ls));
        let j1 = choose|j: int|
            0 <= j < sessions.len() && (#[trigger] sessions[j]).ip@ == ips[best]@
                && sessions[j].starttime == ls;
        let j2 = choose|j: int|
            0 <= j < sessions.len() && (#[trigger] sessions[j]).ip@ == ips[best]@
                && sessions[j].starttime == lasts[best];
        assert(ls <= lasts[best]);
        assert(lasts[best] <= ls);
    }
    assert forall|m: int| 0 <= m < rows.len() implies marked_ip(
        ips,
        used,
        (#[trigger] rows[m]).ip@,
    ) by {
        if m < last {
            let b = choose|b: int|
                0 <= b < ips.len() && b < prev_used.len() && prev_used[b] && (#[trigger] ips[b])@
                    == prev[m].ip@;
            assert(used[b] && ips[b]@ == rows[m].ip@);
        } else {
            assert(used[best] && ips[best]@ == rows[m].ip@);
        }
    }
    assert forall|b: int| 0 <= b < ips.len() && (#[trigger] used[b]) implies row_with_ip(
        rows,
        ips[b]@,
    ) by {
        if b == best {
            assert(rows[last].ip@ == ips[best]@);
        } else {
            assert(prev_used[b]);
            let m = choose|m: int| 0 <= m < prev.len() && (#[trigger] prev[m]).ip@ == ips[b]@;
            assert(rows[m].ip@ == ips[b]@);
        }
    }
    assert forall|m1: int, m2: int|
        0 <= m1 < m2 < rows.len() implies rows[m1].ip@ != rows[m2].ip@ by {
        if m2 == last {
            if rows[m1].ip@ == row.ip@ {
                let b = choose|b: int|
                    0 <= b < ips.len() && b < prev_used.len() && prev_used[b] && (#[trigger] ips[b])@
                        == prev[m1].ip@;
                assert(ips[b]@ == ips[best]@);
                assert(b == best);
                assert(false);
            }
        }
    }
    assert forall|m1: int, m2: int|
        0 <= m1 <= m2 < rows.len() implies last_seen_val(rows[m1]) >= last_seen_val(rows[m2]) by {
        if m2 == last && m1 < last {
            assert(lasts[best] <= last_seen_val(prev[prev.len() - 1]));
            assert(last_seen_val(prev[m1]) >= last_seen_val(prev[prev.len() - 1]));
        }
    }
    assert forall|b: int|
        0 <= b < ips.len() && !(#[trigger] used[b]) implies lasts[b] <= last_seen_val(
        rows[rows.len() - 1],
    ) by {
        assert(!prev_used[b]);
        assert(lasts[b] <= lasts[best]);
    }
}

/// Per-IP rollup: one exact row per distinct source address, ordered by
/// last-seen descending and truncated to the `limit` most recently active
/// addresses. An address with sessions but no joined events still appears,
/// with zero-filled counts.
pub fn ip_aggregate(
    sessions: &Vec<Session>,
    auths: &Vec<AuthAttempt>,
    commands: &Vec<Command>,
    downloads: &Vec<Download>,
    limit: usize,
) -> (rows: Vec<IPAggregate>)
    ensures
        rows@.len() <= limit,
        forall|m: int|
            0 <= m < rows@.len() ==> rollup_row_ok(
                sessions@,
                auths@,
                commands@,
                downloads@,
                #[trigger] rows@[m],
            ),
        forall|m: int|
            0 <= m < rows@.len() ==> first_seen_val(#[trigger] rows@[m]) <= last_seen_val(
                rows@[m],
            ),
        forall|m1: int, m2: int|
            0 <= m1 < m2 < rows@.len() ==> rows@[m1].ip@ != rows@[m2].ip@,
        forall|m1: int, m2: int|
            0 <= m1 <= m2 < rows@.len() ==> last_seen_val(rows@[m1]) >= last_seen_val(rows@[m2]),
        forall|j: int|
            0 <= j < sessions@.len() ==> row_with_ip(rows@, (#[trigger] sessions@[j]).ip@) || (
            rows@.len() == limit && (rows@.len() > 0 ==> sessions@[j].starttime <= last_seen_val(
                rows@[rows@.len() - 1],
            ))),
{
    let auth_sids = auth_sids_of(auths);
    let cmd_sids = command_sids_of(commands);
    let dl_sids = download_sids_of(downloads);
    let ips = distinct_ips(sessions);
    let n = ips.len();
    let mut lasts: Vec<u64> = Vec::new();
    let mut a: usize = 0;
    while a < n
        invariant
            a <= n,
            n == ips@.len(),
            lasts@.len() == a,
            forall|b: int, c: int| 0 <= b < c < ips@.len() ==> ips@[b]@ != ips@[c]@,
            forall|b: int| 0 <= b < ips@.len() ==> ip_present(sessions@, (#[trigger] ips@[b])@),
            forall|j: int|
                0 <= j < sessions@.len() ==> ip_listed(ips@, (#[trigger] sessions@[j]).ip@),
            forall|b: int| 0 <= b < a ==> is_latest_start(sessions@, ips@[b]@, #[trigger] lasts@[b]),
        decreases n - a,
    {
        let stats = session_stats(sessions, &ips[a]);
        lasts.push(stats.2);
        a = a + 1;
    }
    let target = if limit < n {
        limit
    } else {
        n
    };
    let mut used: Vec<bool> = Vec::new();
    let mut a2: usize = 0;
    while a2 < n
        invariant
            a2 <= n,
            used@.len() == a2,
            forall|k: int| 0 <= k < a2 ==> !(#[trigger] used@[k]),
        decreases n - a2,
    {
        used.push(false);
        a2 = a2 + 1;
    }
    proof {
        lemma_count_true_zero(used@);
    }
    let mut rows: Vec<IPAggregate> = Vec::new();
    while rows.len() < target
        invariant
            target <= limit,
            target <= n,
            n == ips@.len(),
            n == lasts@.len(),
            n == used@.len(),
            rows@.len() <= target,
            count_true(used@) == rows@.len(),
            forall|b: int, c: int| 0 <= b < c < ips@.len() ==> ips@[b]@ != ips@[c]@,
            forall|b: int| 0 <= b < ips@.len() ==> ip_present(sessions@, (#[trigger] ips@[b])@),
            forall|j: int|
                0 <= j < sessions@.len() ==> ip_listed(ips@, (#[trigger] sessions@[j]).ip@),
            forall|b: int| 0 <= b < n ==> is_latest_start(sessions@, ips@[b]@, #[trigger] lasts@[b]),
            forall|m: int|
                0 <= m < rows@.len() ==> rollup_row_ok_ids(
                    sessions@,
                    auth_sids@,
                    cmd_sids@,
                    dl_sids@,
                    #[trigger] rows@[m],
                ),
            forall|m: int|
                0 <= m < rows@.len() ==> marked_ip(ips@, used@, (#[trigger] rows@[m]).ip@),
            forall|b: int|
                0 <= b < n && (#[trigger] used@[b]) ==> row_with_ip(rows@, ips@[b]@),
            forall|m1: int, m2: int|
                0 <= m1 < m2 < rows@.len() ==> rows@[m1].ip@ != rows@[m2].ip@,
            forall|m1: int, m2: int|
                0 <= m1 <= m2 < rows@.len() ==> last_seen_val(rows@[m1]) >= last_seen_val(
                    rows@[m2],
                ),
            forall|b: int|
                0 <= b < n && !(#[trigger] used@[b]) ==> (rows@.len() == 0 || lasts@[b]
                    <= last_seen_val(rows@[rows@.len() - 1])),
        decreases target - rows.len(),
    {
        let mut best: usize = n;
        let mut c: usize = 0;
        while c < n
            invariant
                c <= n,
                n == ips@.len(),
                n == lasts@.len(),
                n == used@.len(),
                best == n || (best < n && !used@[best as int]),
                (best == n) == (forall|k: int| 0 <= k < c ==> #[trigger] used@[k]),
                best < n ==> forall|k: int|
                    0 <= k < c && !(#[trigger] used@[k]) ==> lasts@[k] <= lasts@[best as int],
            decreases n - c,
        {
            if !used[c] {
                if best == n || lasts[c] > lasts[best] {
                    best = c;
                }
            }
            c = c + 1;
        }
        proof {
            if best == n {
                lemma_count_true_all(used@);
                assert(rows@.len() == n);
                assert(false);
            }
        }
        let row = aggregate_one(sessions, &auth_sids, &cmd_sids, &dl_sids, &ips[best]);
        let ghost prev = rows@;
        let ghost prev_used = used@;
        proof {
            lemma_count_true_set(used@, best as int);
        }
        used.set(best, true);
        rows.push(row);
        proof {
            lemma_select_push(
                sessions@,
                auth_sids@,
                cmd_sids@,
                dl_sids@,
                ips@,
                lasts@,
                prev_used,
                used@,
                prev,
                rows@,
                best as int,
                row,
            );
        }
    }
    proof {
        assert(rows@.len() == target);
        assert forall|m: int| 0 <= m < rows@.len() implies rollup_row_ok(
            sessions@,
            auths@,
            commands@,
            downloads@,
            #[trigger] rows@[m],
        ) by {
            assert(rollup_row_ok_ids(sessions@, auth_sids@, cmd_sids@, dl_sids@, rows@[m]));
        }
        assert forall|m: int| 0 <= m < rows@.len() implies first_seen_val(#[trigger] rows@[m])
            <= last_seen_val(rows@[m]) by {
            let row = rows@[m];
            assert(row.first_seen matches Some(fs) && is_earliest_start(sessions@, row.ip@, fs));
            assert(row.last_seen matches Some(ls) && is_latest_start(sessions@, row.ip@, ls));
            let j1 = choose|j: int|
                0 <= j < sessions@.len() && (#[trigger] sessions@[j]).ip@ == row.ip@
                    && sessions@[j].starttime == first_seen_val(row);
            assert(sessions@[j1].starttime <= last_seen_val(row));
        }
        assert forall|j: int| 0 <= j < sessions@.len() implies row_with_ip(
            rows@,
            (#[trigger] sessions@[j]).ip@,
        ) || (rows@.len() == limit && (rows@.len() > 0 ==> sessions@[j].starttime <= last_seen_val(
            rows@[rows@.len() - 1],
        ))) by {
            assert(ip_listed(ips@, sessions@[j].ip@));
            let b = choose|b: int|
                0 <= b < ips@.len() && (#[trigger] ips@[b])@ == sessions@[j].ip@;
            if used@[b] {
                assert(row_with_ip(rows@, ips@[b]@));
                assert(row_with_ip(rows@, sessions@[j].ip@));
            } else {
                lemma_count_true_le(used@);
                if rows@.len() == n {
                    lemma_count_true_full(used@);
                    assert(used@[b]);
                    assert(false);
                }
                assert(rows@.len() < n);
                assert(target < n);
                assert(target == limit);
                if rows@.len() > 0 {
                    assert(lasts@[b] <= last_seen_val(rows@[rows@.len() - 1]));
                    assert(is_latest_start(sessions@, ips@[b]@, lasts@[b]));
                    assert(sessions@[j].starttime <= lasts@[b]);
                }
            }
        }
    }
    rows
}


} // verus!
