//! Settings the command line decides, and the run summary.

use vstd::prelude::*;
use crate::probe::strings_view;
use crate::text::{chars_of, decimal, push_decimal, string_from_chars};

verus! {

/// The schemes to try for a bare host: only `https`, only `http`, or `https` then `http`.
pub fn schemes_for(https_only: bool, http_only: bool) -> (schemes: Vec<String>)
    ensures
        strings_view(schemes@) == if https_only {
            seq!["https"@]
        } else if http_only {
            seq!["http"@]
        } else {
            seq!["https"@, "http"@]
        },
{
    let mut schemes: Vec<String> = Vec::new();
    if https_only {
        schemes.push("https".to_owned());
    } else if http_only {
        schemes.push("http".to_owned());
    } else {
        schemes.push("https".to_owned());
        schemes.push("http".to_owned());
    }
    assert(strings_view(schemes@) =~= if https_only {
        seq!["https"@]
    } else if http_only {
        seq!["http"@]
    } else {
        seq!["https"@, "http"@]
    });
    schemes
}

/// How many probes run at once: as asked, but at least one.
pub fn concurrency_limit(requested: usize) -> (n: usize)
    ensures
        n == if requested == 0 { 1 } else { requested },
{
    if requested == 0 {
        1
    } else {
        requested
    }
}

/// Counts of the records written: all of them, and those with a response.
pub struct Tally {
    pub total: u64,
    pub ok: u64,
}

/// The closing line of a run.
pub open spec fn summary_text(total: u64, ok: u64) -> Seq<char> {
    "vedette: probed "@ + decimal(total as nat) + " host(s), "@ + decimal(ok as nat) + " responded"@
}

impl Tally {
    /// No records yet.
    pub fn new() -> (t: Tally)
        ensures
            t.total == 0,
            t.ok == 0,
    {
        Tally { total: 0, ok: 0 }
    }

    /// Counts one record; `ok` tells whether it got a response. The counters wrap at 2^64.
    pub fn record(&mut self, ok: bool)
        ensures
            final(self).total == (old(self).total + 1) % 0x1_0000_0000_0000_0000,
            final(self).ok == if ok {
                (old(self).ok + 1) % 0x1_0000_0000_0000_0000
            } else {
                old(self).ok as int
            },
    {
        self.total = self.total.wrapping_add(1);
        if ok {
            self.ok = self.ok.wrapping_add(1);
        }
    }

    /// `vedette: probed <total> host(s), <ok> responded`.
    pub fn summary(&self) -> (line: String)
        ensures
            line@ == summary_text(self.total, self.ok),
    {
        let mut out = chars_of("vedette: probed ");
        push_decimal(&mut out, self.total);
        let mut mid = chars_of(" host(s), ");
        out.append(&mut mid);
        push_decimal(&mut out, self.ok);
        let mut end = chars_of(" responded");
        out.append(&mut end);
        let line = string_from_chars(out.as_slice());
        assert(line@ =~= summary_text(self.total, self.ok));
        line
    }
}

} // verus!
