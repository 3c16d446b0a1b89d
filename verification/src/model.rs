//! Raw event rows as the store hands them out, and the tri-state outcome
//! classifier. Timestamps are epoch seconds in the store's time frame.

use vstd::prelude::*;

verus! {

/// One honeypot connection lifecycle record.
pub struct Session {
    /// Opaque identifier; foreign references from other events point here.
    pub id: String,
    /// Start of the connection, epoch seconds.
    pub starttime: u64,
    /// End of the connection, absent while it is still open.
    pub endtime: Option<u64>,
    /// Identifier of the sensor that captured the connection.
    pub sensor: i32,
    /// Source address of the connection.
    pub ip: String,
    /// Terminal size descriptor reported by the client, if any.
    pub termsize: Option<String>,
    /// Client identifier, if any.
    pub client: Option<i32>,
}

/// One login attempt tied to a session.
pub struct AuthAttempt {
    pub id: String,
    /// Identifier of the owning session.
    pub session: String,
    /// Raw tri-state outcome as stored: absent, zero, or non-zero.
    pub success: Option<i8>,
    pub username: Option<String>,
    pub password: Option<String>,
    pub client: Option<String>,
    /// When the attempt happened, epoch seconds.
    pub timestamp: u64,
}

/// One command entered during a session.
pub struct Command {
    pub id: u64,
    /// Identifier of the owning session.
    pub session: String,
}

/// One file download observed during a session.
pub struct Download {
    pub id: u64,
    /// Identifier of the owning session.
    pub session: String,
}

/// Classified authentication outcome.
#[derive(Clone, Copy, Debug, PartialEq, Eq, Structural)]
pub enum Outcome {
    Success,
    Failure,
    Unknown,
}

/// What `classify` returns for a raw stored flag: absent means the outcome
/// was never recorded, zero means the attempt failed, and anything else
/// counts as a success.
pub open spec fn spec_classify(raw: Option<i8>) -> Outcome {
    match raw {
        Option::None => Outcome::Unknown,
        Option::Some(n) => if n == 0 {
            Outcome::Failure
        } else {
            Outcome::Success
        },
    }
}

/// Maps the raw stored flag to an `Outcome`. Total: every input is covered.
pub fn classify(raw: Option<i8>) -> (o: Outcome)
    ensures
        o == spec_classify(raw),
{
    match raw {
        Option::None => Outcome::Unknown,
        Option::Some(n) => if n == 0 {
            Outcome::Failure
        } else {
            Outcome::Success
        },
    }
}

/// The canonical raw form of a stored flag: the representative the store
/// would use if it only ever wrote the three canonical values.
pub open spec fn spec_classify_raw_form(raw: Option<i8>) -> Option<i8> {
    match spec_classify(raw) {
        Outcome::Unknown => Option::None,
        Outcome::Failure => Option::Some(0),
        Outcome::Success => Option::Some(1),
    }
}

/// Normalizes a raw stored flag to its canonical form.
pub fn classify_raw_form(raw: Option<i8>) -> (r: Option<i8>)
    ensures
        r == spec_classify_raw_form(raw),
{
    match classify(raw) {
        Outcome::Unknown => Option::None,
        Outcome::Failure => Option::Some(0),
        Outcome::Success => Option::Some(1),
    }
}

/// The bounded discrete code a presentation row carries for an outcome:
/// failure is 0, success is 1, unknown is 2.
pub open spec fn spec_outcome_code(o: Outcome) -> i8 {
    match o {
        Outcome::Failure => 0,
        Outcome::Success => 1,
        Outcome::Unknown => 2,
    }
}

/// Maps a classified outcome to its presentation code.
pub fn outcome_code(o: Outcome) -> (c: i8)
    ensures
        c == spec_outcome_code(o),
{
    match o {
        Outcome::Failure => 0,
        Outcome::Success => 1,
        Outcome::Unknown => 2,
    }
}

/// Classification is idempotent: normalizing a raw flag to its canonical
/// form and classifying again gives the same outcome as classifying the
/// flag directly.
pub proof fn lemma_classify_idempotent(raw: Option<i8>)
    ensures
        spec_classify(spec_classify_raw_form(raw)) == spec_classify(raw),
{
}

/// Clones an optional owned string, keeping the value.
pub fn clone_opt_string(o: &Option<String>) -> (r: Option<String>)
    ensures
        r == *o,
{
    match o {
        Option::Some(s) => Option::Some(s.clone()),
        Option::None => Option::None,
    }
}

impl Clone for Session {
    fn clone(&self) -> (res: Self)
        ensures
            res == *self,
    {
        Session {
            id: self.id.clone(),
            starttime: self.starttime,
            endtime: self.endtime,
            sensor: self.sensor,
            ip: self.ip.clone(),
            termsize: clone_opt_string(&self.termsize),
            client: self.client,
        }
    }
}

impl Clone for AuthAttempt {
    fn clone(&self) -> (res: Self)
        ensures
            res == *self,
    {
        AuthAttempt {
            id: self.id.clone(),
            session: self.session.clone(),
            success: self.success,
            username: clone_opt_string(&self.username),
            password: clone_opt_string(&self.password),
            client: clone_opt_string(&self.client),
            timestamp: self.timestamp,
        }
    }
}

} // verus!
