//! Relative-time formatting: turns an absolute timestamp and a reference
//! "now" (both epoch seconds in the same time frame) into a human phrase such
//! as "3 minutes ago" or "2 hours, 14 minutes ago", showing up to a requested
//! number of units of decreasing magnitude. A timestamp at or after "now"
//! (clock skew) is clamped and formats as "just now".

use vstd::arithmetic::div_mod::{
    lemma_div_by_self, lemma_div_decreases, lemma_div_is_ordered, lemma_fundamental_div_mod,
    lemma_mod_bound,
};
use vstd::prelude::*;

verus! {

/// Seconds per display unit of decreasing magnitude: year (365 days),
/// month (30 days), week, day, hour, minute, second.
pub open spec fn unit_secs(u: int) -> nat {
    if u <= 0 {
        31536000
    } else if u == 1 {
        2592000
    } else if u == 2 {
        604800
    } else if u == 3 {
        86400
    } else if u == 4 {
        3600
    } else if u == 5 {
        60
    } else {
        1
    }
}

/// English singular name of a display unit.
pub open spec fn unit_name(u: int) -> Seq<char> {
    if u <= 0 {
        "year"@
    } else if u == 1 {
        "month"@
    } else if u == 2 {
        "week"@
    } else if u == 3 {
        "day"@
    } else if u == 4 {
        "hour"@
    } else if u == 5 {
        "minute"@
    } else {
        "second"@
    }
}

fn unit_secs_at(u: usize) -> (s: u64)
    requires
        u < 7,
    ensures
        s == unit_secs(u as int),
        s >= 1,
{
    match u {
        0 => 31536000,
        1 => 2592000,
        2 => 604800,
        3 => 86400,
        4 => 3600,
        5 => 60,
        _ => 1,
    }
}

fn unit_name_at(u: usize) -> (r: &'static str)
    requires
        u < 7,
    ensures
        r@ == unit_name(u as int),
{
    match u {
        0 => "year",
        1 => "month",
        2 => "week",
        3 => "day",
        4 => "hour",
        5 => "minute",
        _ => "second",
    }
}

/// The decimal digit character for a value below ten.
pub open spec fn dec_digit(d: nat) -> char {
    if d == 0 {
        '0'
    } else if d == 1 {
        '1'
    } else if d == 2 {
        '2'
    } else if d == 3 {
        '3'
    } else if d == 4 {
        '4'
    } else if d == 5 {
        '5'
    } else if d == 6 {
        '6'
    } else if d == 7 {
        '7'
    } else if d == 8 {
        '8'
    } else {
        '9'
    }
}

/// Decimal rendering of a natural number, most significant digit first.
pub open spec fn dec_str(n: nat) -> Seq<char>
    decreases n,
    via dec_str_decreases
{
    if n < 10 {
        seq![dec_digit(n)]
    } else {
        dec_str(n / 10).push(dec_digit(n % 10))
    }
}

#[via_fn]
proof fn dec_str_decreases(n: nat) {
    if n >= 10 {
        lemma_div_decreases(n as int, 10);
    }
}

fn digit_str(d: u64) -> (r: &'static str)
    requires
        d < 10,
    ensures
        r@ == seq![dec_digit(d as nat)],
{
    proof {
        reveal_strlit("0");
        reveal_strlit("1");
        reveal_strlit("2");
        reveal_strlit("3");
        reveal_strlit("4");
        reveal_strlit("5");
        reveal_strlit("6");
        reveal_strlit("7");
        reveal_strlit("8");
        reveal_strlit("9");
        assert("0"@ =~= seq![dec_digit(0)]);
        assert("1"@ =~= seq![dec_digit(1)]);
        assert("2"@ =~= seq![dec_digit(2)]);
        assert("3"@ =~= seq![dec_digit(3)]);
        assert("4"@ =~= seq![dec_digit(4)]);
        assert("5"@ =~= seq![dec_digit(5)]);
        assert("6"@ =~= seq![dec_digit(6)]);
        assert("7"@ =~= seq![dec_digit(7)]);
        assert("8"@ =~= seq![dec_digit(8)]);
        assert("9"@ =~= seq![dec_digit(9)]);
    }
    match d {
        0 => "0",
        1 => "1",
        2 => "2",
        3 => "3",
        4 => "4",
        5 => "5",
        6 => "6",
        7 => "7",
        8 => "8",
        _ => "9",
    }
}

/// Appends the decimal rendering of `n` to `s`.
fn push_dec(s: &mut String, n: u64)
    ensures
        final(s)@ == old(s)@ + dec_str(n as nat),
    decreases n,
{
    if n >= 10 {
        proof {
            lemma_div_decreases(n as int, 10);
        }
        push_dec(s, n / 10);
        let d = digit_str(n % 10);
        s.append(d);
        proof {
            assert(dec_str(n as nat) == dec_str((n as nat) / 10).push(dec_digit((n as nat) % 10)));
            assert((n / 10) as nat == (n as nat) / 10);
            assert((n % 10) as nat == (n as nat) % 10);
            assert(final(s)@ =~= old(s)@ + dec_str(n as nat));
        }
    } else {
        let d = digit_str(n);
        s.append(d);
        proof {
            assert(dec_str(n as nat) == seq![dec_digit(n as nat)]);
            assert(final(s)@ =~= old(s)@ + dec_str(n as nat));
        }
    }
}

/// Text of one displayed unit: the count, a space, the unit name, and a
/// plural "s" for every count other than one.
pub open spec fn part_text(u: int, c: nat) -> Seq<char> {
    dec_str(c) + " "@ + unit_name(u) + (if c == 1 {
        Seq::<char>::empty()
    } else {
        "s"@
    })
}

/// The displayed units for an elapsed duration: starting from the largest
/// unit that fits, each unit's count is taken greedily from what remains,
/// until the budget of units runs out, the remainder reaches zero, or the
/// units are exhausted.
pub open spec fn parts_from(elapsed: nat, u: int, budget: nat) -> Seq<(int, nat)>
    decreases 7 - u,
{
    if u < 0 || u >= 7 || budget == 0 || elapsed == 0 {
        Seq::empty()
    } else if elapsed >= unit_secs(u) {
        seq![(u, elapsed / unit_secs(u))] + parts_from(
            elapsed % unit_secs(u),
            u + 1,
            (budget - 1) as nat,
        )
    } else {
        parts_from(elapsed, u + 1, budget)
    }
}

/// The displayed units joined with ", ".
pub open spec fn parts_text(ps: Seq<(int, nat)>) -> Seq<char>
    decreases ps.len(),
{
    if ps.len() == 0 {
        Seq::empty()
    } else if ps.len() == 1 {
        part_text(ps[0].0, ps[0].1)
    } else {
        part_text(ps[0].0, ps[0].1) + ", "@ + parts_text(ps.drop_first())
    }
}

/// Elapsed seconds between a timestamp and the reference "now", clamped to
/// zero when the timestamp is not in the past.
pub open spec fn elapsed_of(ts: u64, now: u64) -> nat {
    if now > ts {
        (now - ts) as nat
    } else {
        0
    }
}

/// The full relative phrase for an elapsed duration: "just now" for a zero
/// (or clamped) duration, otherwise the displayed units followed by " ago".
pub open spec fn relative_phrase(elapsed: nat, max_units: nat) -> Seq<char> {
    if elapsed == 0 {
        "just now"@
    } else {
        parts_text(parts_from(elapsed, 0, max_units)) + " ago"@
    }
}

proof fn lemma_parts_text_append(a: Seq<(int, nat)>, b: Seq<(int, nat)>)
    requires
        a.len() > 0,
    ensures
        parts_text(a + b) == if b.len() == 0 {
            parts_text(a)
        } else {
            parts_text(a) + ", "@ + parts_text(b)
        },
    decreases a.len(),
{
    if b.len() == 0 {
        assert(a + b =~= a);
    } else if a.len() == 1 {
        assert((a + b)[0] == a[0]);
        assert((a + b).drop_first() =~= b);
        assert(parts_text(a + b) == part_text(a[0].0, a[0].1) + ", "@ + parts_text(b));
    } else {
        assert((a + b)[0] == a[0]);
        assert((a + b).drop_first() =~= a.drop_first() + b);
        lemma_parts_text_append(a.drop_first(), b);
        assert(parts_text(a + b) == part_text(a[0].0, a[0].1) + ", "@ + parts_text(
            a.drop_first() + b,
        ));
        assert(part_text(a[0].0, a[0].1) + ", "@ + (parts_text(a.drop_first()) + ", "@
            + parts_text(b)) =~= (part_text(a[0].0, a[0].1) + ", "@ + parts_text(a.drop_first()))
            + ", "@ + parts_text(b));
    }
}

/// Formats the elapsed duration between `ts` and `now` as a relative phrase,
/// showing up to `max_units` units of decreasing magnitude. A timestamp at
/// or after `now` formats as "just now".
pub fn format_relative(ts: u64, now: u64, max_units: usize) -> (r: String)
    requires
        max_units >= 1,
    ensures
        r@ == relative_phrase(elapsed_of(ts, now), max_units as nat),
{
    if now <= ts {
        return String::from_str("just now");
    }
    let ghost e0: nat = (now - ts) as nat;
    let mut elapsed: u64 = now - ts;
    let mut s = String::new();
    let mut u: usize = 0;
    let mut budget: usize = max_units;
    let mut first: bool = true;
    let ghost mut done: Seq<(int, nat)> = Seq::empty();
    while u < 7 && budget > 0 && elapsed > 0
        invariant
            u <= 7,
            parts_from(e0, 0, max_units as nat) == done + parts_from(
                elapsed as nat,
                u as int,
                budget as nat,
            ),
            s@ == parts_text(done),
            first == (done.len() == 0),
        decreases 7 - u,
    {
        let us = unit_secs_at(u);
        if elapsed >= us {
            let c = elapsed / us;
            let rem = elapsed % us;
            if !first {
                s.append(", ");
            }
            push_dec(&mut s, c);
            s.append(" ");
            let name = unit_name_at(u);
            s.append(name);
            if c != 1 {
                s.append("s");
            }
            proof {
                let p = (u as int, c as nat);
                assert(c as nat == (elapsed as nat) / unit_secs(u as int));
                assert(rem as nat == (elapsed as nat) % unit_secs(u as int));
                assert(parts_from(elapsed as nat, u as int, budget as nat) == seq![p]
                    + parts_from(rem as nat, u as int + 1, (budget - 1) as nat));
                if done.len() == 0 {
                    assert(done + seq![p] =~= seq![p]);
                    assert(parts_text(seq![p]) == part_text(p.0, p.1));
                    assert(s@ =~= parts_text(done + seq![p]));
                } else {
                    lemma_parts_text_append(done, seq![p]);
                    assert(parts_text(seq![p]) == part_text(p.0, p.1));
                    assert(s@ =~= parts_text(done) + ", "@ + parts_text(seq![p]));
                    assert(s@ == parts_text(done + seq![p]));
                }
                assert(done + (seq![p] + parts_from(rem as nat, u as int + 1, (budget - 1) as nat))
                    =~= (done + seq![p]) + parts_from(rem as nat, u as int + 1, (budget - 1) as nat));
                done = done + seq![p];
            }
            elapsed = rem;
            budget = budget - 1;
            first = false;
        } else {
            proof {
                assert(parts_from(elapsed as nat, u as int, budget as nat) == parts_from(
                    elapsed as nat,
                    u as int + 1,
                    budget as nat,
                ));
            }
        }
        u = u + 1;
    }
    proof {
        assert(parts_from(elapsed as nat, u as int, budget as nat) =~= Seq::<(int, nat)>::empty());
        assert(done + Seq::<(int, nat)>::empty() =~= done);
        assert(parts_from(e0, 0, max_units as nat) == done);
    }
    s.append(" ago");
    proof {
        assert(s@ == relative_phrase(e0, max_units as nat));
    }
    s
}

/// The largest display unit, searching from `u` downward in magnitude, whose
/// span fits in the elapsed duration; seconds fit any positive duration.
pub open spec fn lead_unit_from(e: nat, u: int) -> int
    decreases 7 - u,
{
    if u < 0 || u >= 6 {
        6
    } else if e >= unit_secs(u) {
        u
    } else {
        lead_unit_from(e, u + 1)
    }
}

/// The unit a one-unit phrase displays for a positive elapsed duration.
pub open spec fn lead_unit(e: nat) -> int {
    lead_unit_from(e, 0)
}

/// The duration a formatted phrase stands for when one unit is shown: the
/// displayed count times the displayed unit's span.
pub open spec fn implied_magnitude(e: nat) -> nat {
    if e == 0 {
        0
    } else {
        (e / unit_secs(lead_unit(e))) * unit_secs(lead_unit(e))
    }
}

proof fn lemma_lead_unit_props(e: nat, u: int)
    requires
        e > 0,
        0 <= u <= 6,
    ensures
        u <= lead_unit_from(e, u) <= 6,
        e >= unit_secs(lead_unit_from(e, u)),
        forall|v: int| u <= v < lead_unit_from(e, u) ==> e < unit_secs(v),
    decreases 7 - u,
{
    if u >= 6 {
    } else if e >= unit_secs(u) {
    } else {
        lemma_lead_unit_props(e, u + 1);
    }
}

proof fn lemma_lead_unit_monotone(e1: nat, e2: nat, u: int)
    requires
        e1 >= e2,
        e2 > 0,
        0 <= u <= 6,
    ensures
        lead_unit_from(e1, u) <= lead_unit_from(e2, u),
    decreases 7 - u,
{
    if u >= 6 {
    } else if e2 >= unit_secs(u) {
    } else if e1 >= unit_secs(u) {
        lemma_lead_unit_props(e2, u);
    } else {
        lemma_lead_unit_monotone(e1, e2, u + 1);
    }
}

proof fn lemma_parts_single(e: nat, u: int)
    requires
        e > 0,
        0 <= u <= 6,
    ensures
        parts_from(e, u, 1) == seq![
            (lead_unit_from(e, u), e / unit_secs(lead_unit_from(e, u))),
        ],
    decreases 7 - u,
{
    if e >= unit_secs(u) {
        assert(parts_from(e, u, 1) == seq![(u, e / unit_secs(u))] + parts_from(
            e % unit_secs(u),
            u + 1,
            0,
        ));
        assert(seq![(u, e / unit_secs(u))] + Seq::<(int, nat)>::empty() =~= seq![
            (u, e / unit_secs(u)),
        ]);
    } else {
        lemma_parts_single(e, u + 1);
    }
}

/// A longer elapsed duration never implies a smaller displayed magnitude.
proof fn lemma_implied_magnitude_monotonic(e1: nat, e2: nat)
    requires
        e1 >= e2,
    ensures
        implied_magnitude(e1) >= implied_magnitude(e2),
{
    if e2 > 0 {
        let u1 = lead_unit(e1);
        let u2 = lead_unit(e2);
        lemma_lead_unit_props(e1, 0);
        lemma_lead_unit_props(e2, 0);
        lemma_lead_unit_monotone(e1, e2, 0);
        let s1 = unit_secs(u1) as int;
        let s2 = unit_secs(u2) as int;
        let q1 = e1 as int / s1;
        let q2 = e2 as int / s2;
        if u1 == u2 {
            lemma_div_is_ordered(e2 as int, e1 as int, s1);
            assert(q1 * s1 >= q2 * s1) by (nonlinear_arith)
                requires
                    q1 >= q2,
                    s1 >= 1,
            ;
        } else {
            assert(u1 < u2);
            assert(e2 < unit_secs(u1));
            lemma_fundamental_div_mod(e2 as int, s2);
            lemma_mod_bound(e2 as int, s2);
            assert(q2 * s2 <= e2 as int) by (nonlinear_arith)
                requires
                    e2 as int == s2 * q2 + e2 as int % s2,
                    e2 as int % s2 >= 0,
            ;
            lemma_div_is_ordered(s1, e1 as int, s1);
            lemma_div_by_self(s1);
            assert(q1 >= 1);
            assert(q1 * s1 >= s1) by (nonlinear_arith)
                requires
                    q1 >= 1,
                    s1 >= 1,
            ;
            assert(s1 > e2 as int);
        }
    }
}

/// Relative-time formatting is monotonic in elapsed duration: for a fixed
/// reference time, an older timestamp never formats to a phrase standing for
/// a smaller duration than a newer timestamp's phrase.
pub proof fn lemma_relative_time_monotonic(t1: u64, t2: u64, now: u64)
    requires
        t1 < t2 <= now,
    ensures
        implied_magnitude(elapsed_of(t1, now)) >= implied_magnitude(elapsed_of(t2, now)),
{
    lemma_implied_magnitude_monotonic(elapsed_of(t1, now), elapsed_of(t2, now));
}

/// A one-unit phrase displays exactly the leading unit and its count, and
/// the implied magnitude is that count times the unit's span.
pub proof fn lemma_phrase_shows_lead(e: nat)
    requires
        e > 0,
    ensures
        relative_phrase(e, 1) == part_text(lead_unit(e), e / unit_secs(lead_unit(e))) + " ago"@,
        implied_magnitude(e) == (e / unit_secs(lead_unit(e))) * unit_secs(lead_unit(e)),
{
    lemma_parts_single(e, 0);
    let p = (lead_unit(e), e / unit_secs(lead_unit(e)));
    assert(parts_text(seq![p]) == part_text(p.0, p.1));
}

} // verus!
