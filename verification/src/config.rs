//! Configuration as the library consumes it: a plain record of the
//! command-line choices, and the parse of the `host[:port]` argument. The
//! argument parser itself lives in the shell; it hands over this record.

use vstd::prelude::*;

use crate::text::{digits_val, is_digit};

verus! {

/// The run's configuration: the target host (optionally `host:port`), where
/// the report and the downloads go (absent: no report file, crawl-only),
/// the boundary-policy toggle, the two per-exchange timeouts in seconds,
/// and the verbosity toggle.
pub struct CliArgs {
    pub host: String,
    pub log_path_prefix: Option<String>,
    pub download_path_prefix: Option<String>,
    pub trace_external: bool,
    pub conn_timeout: u64,
    pub resp_timeout: u64,
    pub disable_verbose: bool,
}

/// The start of the maximal digit run ending just before `j`.
pub open spec fn digit_run_start(s: Seq<char>, j: int) -> int
    decreases j,
{
    if j <= 0 {
        0
    } else if 0 < j <= s.len() && is_digit(s[j - 1]) {
        digit_run_start(s, j - 1)
    } else {
        j
    }
}

/// The start of the maximal colon run ending just before `j`.
pub open spec fn colon_run_start(s: Seq<char>, j: int) -> int
    decreases j,
{
    if j <= 0 {
        0
    } else if 0 < j <= s.len() && s[j - 1] == ':' {
        colon_run_start(s, j - 1)
    } else {
        j
    }
}

/// The port a `host[:port]` argument names: the value of its maximal
/// trailing digit run, when that run is non-empty and fits in an unsigned
/// 16-bit integer; the protocol's default port otherwise.
pub open spec fn host_port(s: Seq<char>) -> u16 {
    let t = digit_run_start(s, s.len() as int);
    let p = s.skip(t);
    if p.len() > 0 && digits_val(p) <= 65535 {
        digits_val(p) as u16
    } else {
        70
    }
}

/// The domain a `host[:port]` argument names: everything before the
/// trailing digit run and the colons just before it.
pub open spec fn host_domain(s: Seq<char>) -> Seq<char> {
    let t = digit_run_start(s, s.len() as int);
    s.take(colon_run_start(s, t))
}

/// Every character of the maximal trailing digit run is a digit, and the
/// run lies within bounds.
proof fn lemma_digit_run(s: Seq<char>, j: int)
    requires
        0 <= j <= s.len(),
    ensures
        0 <= digit_run_start(s, j) <= j,
        forall|k: int| digit_run_start(s, j) <= k < j ==> is_digit(#[trigger] s[k]),
    decreases j,
{
    if j > 0 && is_digit(s[j - 1]) {
        lemma_digit_run(s, j - 1);
    }
}

/// The split of a `host[:port]` argument: the domain before the trailing
/// colons and digit run, and the port that run names — the protocol's
/// default when the run is empty or too large.
pub fn parse_host(host: &str) -> (r: (String, u16))
    ensures
        r.0@ == host_domain(host@),
        r.1 == host_port(host@),
{
    let n = host.unicode_len();
    let mut t: usize = n;
    loop
        invariant
            t <= n,
            n == host@.len(),
            digit_run_start(host@, n as int) == digit_run_start(host@, t as int),
        ensures
            t <= n,
            digit_run_start(host@, n as int) == t as int,
        decreases t,
    {
        if t == 0 {
            proof {
                assert(digit_run_start(host@, 0) == 0);
            }
            break;
        }
        let c = host.get_char(t - 1);
        if c as u32 >= 48 && c as u32 <= 57 {
            proof {
                assert(digit_run_start(host@, t as int) == digit_run_start(host@, t as int - 1));
            }
            t = t - 1;
        } else {
            proof {
                assert(digit_run_start(host@, t as int) == t as int);
            }
            break;
        }
    }
    proof {
        lemma_digit_run(host@, n as int);
        assert(crate::text::all_digits(host@.skip(t as int))) by {
            assert(forall|i: int|
                0 <= i < host@.skip(t as int).len() ==> #[trigger] host@.skip(t as int)[i]
                    == host@[t as int + i]);
        }
    }
    let pstr = host.substring_char(t, n);
    proof {
        assert(pstr@ =~= host@.skip(t as int));
    }
    let port: u16 = match crate::codec::parse_port(pstr) {
        Some(p) => p,
        None => 70,
    };
    let mut c: usize = t;
    loop
        invariant
            c <= t <= n,
            n == host@.len(),
            colon_run_start(host@, t as int) == colon_run_start(host@, c as int),
        ensures
            c <= n,
            colon_run_start(host@, t as int) == c as int,
        decreases c,
    {
        if c == 0 {
            proof {
                assert(colon_run_start(host@, 0) == 0);
            }
            break;
        }
        if host.get_char(c - 1) as u32 == 58 {
            proof {
                assert(colon_run_start(host@, c as int) == colon_run_start(host@, c as int - 1));
            }
            c = c - 1;
        } else {
            proof {
                assert(colon_run_start(host@, c as int) == c as int);
            }
            break;
        }
    }
    let domain = host.substring_char(0, c).to_owned();
    proof {
        assert(domain@ =~= host_domain(host@));
    }
    (domain, port)
}

} // verus!
