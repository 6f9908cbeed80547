//! Time report formatter: renders a guild's entry list against a given UTC
//! instant, one line per entry with the local civil time in that entry's
//! zone, then a fixed disclaimer. An entry whose stored zone is no longer
//! recognized makes the report fail loudly for that entry instead of being
//! skipped.

use vstd::prelude::*;
use vstd::string::StringExecFns;
use core::str::FromStr;
use crate::codec::digit_char;
use crate::registry::Entry;
use crate::registry::EntryV;

verus! {

/// The local (hour, minute) that the timezone database gives for the zone
/// named `tz` at `secs` seconds past the Unix epoch, or nothing where the
/// name is not a recognized zone. A name for the result of the chrono-tz
/// lookup, which depends on the zone name and the instant alone.
pub uninterp spec fn local_hm_of(tz: Seq<char>, secs: i64) -> Option<(u8, u8)>;

/// Relies on chrono-tz's `Tz::from_str`, an exact case-sensitive lookup of
/// the zone name in its compiled-in table, and on chrono's
/// `DateTime::from_timestamp`, `with_timezone` and `Timelike::hour`/`minute`:
/// the local civil time is a function of the zone name and the instant
/// alone, and chrono documents the hour in 0..24 and the minute in 0..60.
#[verifier::external_body]
fn local_time_of_day(tz: &str, secs: i64) -> (r: Option<(u8, u8)>)
    requires
        0 <= secs <= 253402300799,
    ensures
        r == local_hm_of(tz@, secs),
        r matches Some(hm) ==> hm.0 < 24 && hm.1 < 60,
{
    match chrono_tz::Tz::from_str(tz) {
        Err(_) => None,
        Ok(zone) => match chrono::DateTime::<chrono::Utc>::from_timestamp(secs, 0) {
            None => None,
            Some(utc) => {
                let local = utc.with_timezone(&zone);
                Some((chrono::Timelike::hour(&local) as u8, chrono::Timelike::minute(&local) as u8))
            },
        },
    }
}

/// The fixed line for a guild with no entries.
pub open spec fn no_data_line() -> Seq<char> {
    "No timezone data for this server, use /tzadd <who> <timezone>"@
}

/// The fixed trailing disclaimer line.
pub open spec fn disclaimer_line() -> Seq<char> {
    "\nI'm a bot, message joey if something went wrong or needs changing"@
}

/// `HH:MM`, zero-padded, 24-hour.
pub open spec fn time_digits(h: u8, m: u8) -> Seq<char> {
    seq![
        digit_char((h / 10) as nat),
        digit_char((h % 10) as nat),
        ':',
        digit_char((m / 10) as nat),
        digit_char((m % 10) as nat),
    ]
}

/// The report line for one entry at its local time.
pub open spec fn line_for(e: EntryV, hm: (u8, u8)) -> Seq<char> {
    "\nfor "@ + e.person + " it is "@ + time_digits(hm.0, hm.1)
}

/// Every entry's zone resolves at this instant.
pub open spec fn report_ok(es: Seq<EntryV>, secs: i64) -> bool {
    forall|i: int| 0 <= i < es.len() ==> (#[trigger] local_hm_of(es[i].tz, secs)) is Some
}

/// The report lines of the first `k` entries, in list order.
pub open spec fn lines_upto(es: Seq<EntryV>, secs: i64, k: int) -> Seq<char>
    decreases k,
{
    if k <= 0 {
        Seq::empty()
    } else {
        lines_upto(es, secs, k - 1) + line_for(es[k - 1], local_hm_of(es[k - 1].tz, secs).unwrap())
    }
}

/// The whole report: the per-entry lines (or the fixed line when there are
/// none), then the disclaimer.
pub open spec fn full_report(es: Seq<EntryV>, secs: i64) -> Seq<char> {
    (if es.len() == 0 {
        no_data_line()
    } else {
        lines_upto(es, secs, es.len() as int)
    }) + disclaimer_line()
}

/// Index of the first entry whose zone does not resolve.
pub open spec fn first_unresolvable(es: Seq<EntryV>, secs: i64) -> int
    decreases es.len(),
{
    if es.len() == 0 {
        0
    } else if local_hm_of(es[0].tz, secs) is None {
        0
    } else {
        1 + first_unresolvable(es.drop_first(), secs)
    }
}

/// `first_unresolvable` is the first index at which the lookup fails.
proof fn lemma_first_unresolvable(es: Seq<EntryV>, secs: i64, i: int)
    requires
        0 <= i < es.len(),
        forall|j: int| 0 <= j < i ==> (#[trigger] local_hm_of(es[j].tz, secs)) is Some,
        local_hm_of(es[i].tz, secs) is None,
    ensures
        first_unresolvable(es, secs) == i,
    decreases es.len(),
{
    if i > 0 {
        assert forall|j: int| 0 <= j < i - 1 implies (#[trigger] local_hm_of(
            es.drop_first()[j].tz,
            secs,
        )) is Some by {
            assert(es.drop_first()[j] == es[j + 1]);
        }
        assert(es.drop_first()[i - 1] == es[i]);
        lemma_first_unresolvable(es.drop_first(), secs, i - 1);
    }
}

/// A report request that hit an entry whose stored zone no longer resolves:
/// the position of that entry and the identifier that failed.
#[derive(Debug)]
pub struct ReportError {
    pub index: usize,
    pub zone: String,
}

/// Renders the report for `entries` at the instant `secs` seconds past the
/// Unix epoch. Pure: the result is a function of the entries and the
/// instant. Succeeds exactly when every stored zone still resolves;
/// otherwise reports the first entry whose zone does not.
pub fn format_report(entries: &Vec<Entry>, secs: i64) -> (r: Result<String, ReportError>)
    requires
        0 <= secs <= 253402300799,
    ensures
        ({
            let es = entries@.map_values(|e: Entry| e@);
            &&& report_ok(es, secs) ==> (r matches Ok(s) && s@ == full_report(es, secs))
            &&& !report_ok(es, secs) ==> (r matches Err(er) && er.index == first_unresolvable(
                es,
                secs,
            ) && er.index < es.len() && local_hm_of(es[er.index as int].tz, secs) is None
                && er.zone@ == es[er.index as int].tz)
        }),
{
    let ghost es = entries@.map_values(|e: Entry| e@);
    let n = entries.len();
    let mut out = String::new();
    if n == 0 {
        out.append("No timezone data for this server, use /tzadd <who> <timezone>");
    } else {
        let mut i: usize = 0;
        proof {
            assert(out@ =~= lines_upto(es, secs, 0));
        }
        while i < n
            invariant
                0 <= secs <= 253402300799,
                n == entries@.len(),
                es == entries@.map_values(|e: Entry| e@),
                es.len() == n,
                0 <= i <= n,
                out@ == lines_upto(es, secs, i as int),
                forall|j: int| 0 <= j < i ==> (#[trigger] local_hm_of(es[j].tz, secs)) is Some,
            decreases n - i,
        {
            let e = &entries[i];
            match local_time_of_day(e.tz.as_str(), secs) {
                None => {
                    proof {
                        lemma_first_unresolvable(es, secs, i as int);
                    }
                    return Err(ReportError { index: i, zone: e.tz.clone() });
                },
                Some(hm) => {
                    out.append("\nfor ");
                    out.append(e.person.as_str());
                    out.append(" it is ");
                    let (h, m) = hm;
                    crate::codec::append_digit((h / 10) as u64, &mut out);
                    crate::codec::append_digit((h % 10) as u64, &mut out);
                    proof {
                        reveal_strlit(":");
                    }
                    out.append(":");
                    crate::codec::append_digit((m / 10) as u64, &mut out);
                    crate::codec::append_digit((m % 10) as u64, &mut out);
                    proof {
                        assert(":"@ =~= seq![':']);
                        assert(out@ =~= lines_upto(es, secs, i as int) + line_for(
                            es[i as int],
                            hm,
                        ));
                        assert(out@ =~= lines_upto(es, secs, i as int + 1));
                    }
                },
            }
            i = i + 1;
        }
    }
    out.append("\nI'm a bot, message joey if something went wrong or needs changing");
    proof {
        assert(out@ =~= full_report(es, secs));
    }
    Ok(out)
}

/// Law: the report for a guild with no entries is exactly the fixed "no
/// data" line followed by the disclaimer, whatever the instant.
pub proof fn lemma_empty_report(secs: i64)
    ensures
        full_report(Seq::<EntryV>::empty(), secs) == no_data_line() + disclaimer_line(),
{
}

} // verus!
