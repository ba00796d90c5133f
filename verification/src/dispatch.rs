//! What the request dispatcher decides, as pure functions: which admin
//! mutation (if any) a request's path and query select, which client
//! identity a forwarded-for header carries, and whether a probe or forward
//! outcome counts as success. The I/O around these decisions — sockets,
//! header maps, response bodies — lives outside the crate and hands in the
//! path, the query string and the status code as plain values.

use vstd::prelude::*;
use vstd::string::StrSliceExecFns;

use crate::balancer::opt_str_view;
use crate::pool::Strategy;
use crate::text::{
    contains_seq, find_char, first_index_of, parse_u32_spec, parse_u32_str, parse_u64_spec,
    parse_u64_str, str_contains, str_eq_str, trim_spec, trim_str,
};

verus! {

/// What the dispatcher is to do with an inbound request: perform one of the
/// three admin mutations and reply, or forward the request to a backend.
/// Requests whose admin path carries no recognizable command fall through
/// to ordinary forwarding.
pub enum RequestAction {
    /// Replace the policy.
    SetStrategy(Strategy),
    /// Set the weight of the backend named `host:port` in the query (the
    /// admin surface addresses backends as `http://{host:port}`).
    SetWeight { backend: String, weight: u32 },
    /// Replace the session TTL, in seconds.
    SetSessionTimeout(u64),
    /// No admin command: forward to a selected backend.
    Forward,
}

/// Mathematical model of a [`RequestAction`].
pub enum ActionModel {
    SetStrategy(Strategy),
    SetWeight(Seq<char>, u32),
    SetSessionTimeout(u64),
    Forward,
}

impl View for RequestAction {
    type V = ActionModel;

    open spec fn view(&self) -> ActionModel {
        match self {
            RequestAction::SetStrategy(s) => ActionModel::SetStrategy(*s),
            RequestAction::SetWeight { backend, weight } => ActionModel::SetWeight(
                backend@,
                *weight,
            ),
            RequestAction::SetSessionTimeout(t) => ActionModel::SetSessionTimeout(*t),
            RequestAction::Forward => ActionModel::Forward,
        }
    }
}

/// One `key=value` query segment folded into the weight command's state:
/// `backend` replaces the backend seen so far, `weight` replaces the parsed
/// weight (a malformed number clears it), anything else — including a
/// segment without exactly one `=` — is ignored.
pub open spec fn weight_segment(
    seg: Seq<char>,
    b: Option<Seq<char>>,
    w: Option<u32>,
) -> (Option<Seq<char>>, Option<u32>) {
    let p = first_index_of(seg, '=');
    if p == seg.len() {
        (b, w)
    } else {
        let key = seg.subrange(0, p);
        let value = seg.subrange(p + 1, seg.len() as int);
        if first_index_of(value, '=') != value.len() {
            (b, w)
        } else if key == "backend"@ {
            (Some(value), w)
        } else if key == "weight"@ {
            (b, parse_u32_spec(value))
        } else {
            (b, w)
        }
    }
}

/// The `&`-separated segments of `q` folded left to right through
/// [`weight_segment`], starting from `(b, w)`.
pub open spec fn weight_fold(q: Seq<char>, b: Option<Seq<char>>, w: Option<u32>) -> (
    Option<Seq<char>>,
    Option<u32>,
)
    decreases q.len(),
    via weight_fold_decreases
{
    let k = first_index_of(q, '&');
    let folded = weight_segment(q.subrange(0, k), b, w);
    if k == q.len() {
        folded
    } else {
        weight_fold(q.subrange(k + 1, q.len() as int), folded.0, folded.1)
    }
}

#[via_fn]
proof fn weight_fold_decreases(q: Seq<char>, b: Option<Seq<char>>, w: Option<u32>) {
    crate::text::lemma_first_index_of_props(q, '&');
}

/// What one query segment contributes to the session-timeout command: the
/// parsed value of a well-formed `seconds=...` segment, else nothing.
pub open spec fn seconds_segment(seg: Seq<char>) -> Option<u64> {
    let p = first_index_of(seg, '=');
    if p == seg.len() {
        None
    } else {
        let key = seg.subrange(0, p);
        let value = seg.subrange(p + 1, seg.len() as int);
        if first_index_of(value, '=') != value.len() {
            None
        } else if key == "seconds"@ {
            parse_u64_spec(value)
        } else {
            None
        }
    }
}

/// The first `&`-separated segment of `q` that yields a session timeout.
pub open spec fn seconds_scan(q: Seq<char>) -> Option<u64>
    decreases q.len(),
    via seconds_scan_decreases
{
    let k = first_index_of(q, '&');
    match seconds_segment(q.subrange(0, k)) {
        Some(v) => Some(v),
        None => if k == q.len() {
            None
        } else {
            seconds_scan(q.subrange(k + 1, q.len() as int))
        },
    }
}

#[via_fn]
proof fn seconds_scan_decreases(q: Seq<char>) {
    crate::text::lemma_first_index_of_props(q, '&');
}

/// The action a request selects. The three reserved paths are matched
/// exactly; their queries are read as the fold specifications above say;
/// everything else — malformed queries included — forwards.
pub open spec fn classify_spec(path: Seq<char>, query: Option<Seq<char>>) -> ActionModel {
    if path == "/admin/strategy"@ {
        let q = match query {
            Some(q) => q,
            None => Seq::<char>::empty(),
        };
        if contains_seq(q, "type=weighted"@) {
            ActionModel::SetStrategy(Strategy::WeightedRoundRobin)
        } else if contains_seq(q, "type=roundrobin"@) {
            ActionModel::SetStrategy(Strategy::RoundRobin)
        } else if contains_seq(q, "type=sticky"@) {
            ActionModel::SetStrategy(Strategy::StickySession)
        } else {
            ActionModel::Forward
        }
    } else if path == "/admin/weight"@ {
        match query {
            None => ActionModel::Forward,
            Some(q) => {
                let folded = weight_fold(q, None, None);
                match folded.0 {
                    Some(b) => match folded.1 {
                        Some(w) => ActionModel::SetWeight(b, w),
                        None => ActionModel::Forward,
                    },
                    None => ActionModel::Forward,
                }
            },
        }
    } else if path == "/admin/session-timeout"@ {
        match query {
            None => ActionModel::Forward,
            Some(q) => match seconds_scan(q) {
                Some(v) => ActionModel::SetSessionTimeout(v),
                None => ActionModel::Forward,
            },
        }
    } else {
        ActionModel::Forward
    }
}

/// The view of an optional query string.
pub open spec fn opt_query_view(q: Option<&str>) -> Option<Seq<char>> {
    match q {
        Some(s) => Some(s@),
        None => None,
    }
}

/// One query segment applied to the weight command's running state.
fn weight_segment_exec(seg: &str, b: Option<String>, w: Option<u32>) -> (r: (
    Option<String>,
    Option<u32>,
))
    ensures
        (opt_str_view(r.0), r.1) == weight_segment(seg@, opt_str_view(b), w),
{
    let n = seg.unicode_len();
    let p = find_char(seg, '=');
    proof {
        crate::text::lemma_first_index_of_props(seg@, '=');
    }
    if p == n {
        return (b, w);
    }
    let key = seg.substring_char(0, p);
    let value = seg.substring_char(p + 1, n);
    if find_char(value, '=') != value.unicode_len() {
        return (b, w);
    }
    if str_eq_str(key, "backend") {
        (Some(value.to_owned()), w)
    } else if str_eq_str(key, "weight") {
        (b, parse_u32_str(value))
    } else {
        (b, w)
    }
}

/// The whole query folded into the weight command's state, segment by
/// segment.
fn weight_fold_exec(q: &str, b: Option<String>, w: Option<u32>) -> (r: (
    Option<String>,
    Option<u32>,
))
    ensures
        (opt_str_view(r.0), r.1) == weight_fold(q@, opt_str_view(b), w),
    decreases q@.len(),
{
    let n = q.unicode_len();
    let k = find_char(q, '&');
    proof {
        crate::text::lemma_first_index_of_props(q@, '&');
    }
    let folded = weight_segment_exec(q.substring_char(0, k), b, w);
    if k == n {
        folded
    } else {
        weight_fold_exec(q.substring_char(k + 1, n), folded.0, folded.1)
    }
}

/// One query segment read for the session-timeout command.
fn seconds_segment_exec(seg: &str) -> (r: Option<u64>)
    ensures
        r == seconds_segment(seg@),
{
    let n = seg.unicode_len();
    let p = find_char(seg, '=');
    proof {
        crate::text::lemma_first_index_of_props(seg@, '=');
    }
    if p == n {
        return None;
    }
    let key = seg.substring_char(0, p);
    let value = seg.substring_char(p + 1, n);
    if find_char(value, '=') != value.unicode_len() {
        return None;
    }
    if str_eq_str(key, "seconds") {
        parse_u64_str(value)
    } else {
        None
    }
}

/// The query scanned for its first segment that yields a session timeout.
fn seconds_scan_exec(q: &str) -> (r: Option<u64>)
    ensures
        r == seconds_scan(q@),
    decreases q@.len(),
{
    let n = q.unicode_len();
    let k = find_char(q, '&');
    proof {
        crate::text::lemma_first_index_of_props(q@, '&');
    }
    match seconds_segment_exec(q.substring_char(0, k)) {
        Some(v) => Some(v),
        None => if k == n {
            None
        } else {
            seconds_scan_exec(q.substring_char(k + 1, n))
        },
    }
}

/// Decide what to do with a request from its path and query string: one of
/// the three admin commands on the reserved paths, else forwarding. An
/// unrecognized or malformed admin query falls through to forwarding.
pub fn classify_request(path: &str, query: Option<&str>) -> (r: RequestAction)
    ensures
        r@ == classify_spec(path@, opt_query_view(query)),
{
    if str_eq_str(path, "/admin/strategy") {
        let q = match query {
            Some(q) => q,
            None => "",
        };
        proof {
            reveal_strlit("");
            assert(""@ =~= Seq::<char>::empty());
        }
        if str_contains(q, "type=weighted") {
            RequestAction::SetStrategy(Strategy::WeightedRoundRobin)
        } else if str_contains(q, "type=roundrobin") {
            RequestAction::SetStrategy(Strategy::RoundRobin)
        } else if str_contains(q, "type=sticky") {
            RequestAction::SetStrategy(Strategy::StickySession)
        } else {
            RequestAction::Forward
        }
    } else if str_eq_str(path, "/admin/weight") {
        match query {
            None => RequestAction::Forward,
            Some(q) => {
                let folded = weight_fold_exec(q, None, None);
                match folded.0 {
                    Some(b) => match folded.1 {
                        Some(w) => RequestAction::SetWeight { backend: b, weight: w },
                        None => RequestAction::Forward,
                    },
                    None => RequestAction::Forward,
                }
            },
        }
    } else if str_eq_str(path, "/admin/session-timeout") {
        match query {
            None => RequestAction::Forward,
            Some(q) => match seconds_scan_exec(q) {
                Some(v) => RequestAction::SetSessionTimeout(v),
                None => RequestAction::Forward,
            },
        }
    } else {
        RequestAction::Forward
    }
}

/// The client identity carried by a forwarded-for header value: its
/// leftmost comma-separated entry, trimmed.
pub open spec fn client_token_spec(h: Seq<char>) -> Seq<char> {
    trim_spec(h.subrange(0, first_index_of(h, ',')))
}

/// The client identity in a forwarded-for header value: the leftmost
/// comma-separated entry, trimmed of surrounding whitespace.
pub fn client_token(header: &str) -> (r: String)
    ensures
        r@ == client_token_spec(header@),
{
    proof {
        crate::text::lemma_first_index_of_props(header@, ',');
    }
    let k = find_char(header, ',');
    let first = header.substring_char(0, k);
    let t = trim_str(first);
    t.to_owned()
}

/// Whether an HTTP status from a probe or a forwarded response counts as
/// success: exactly the 2xx statuses do.
pub fn probe_success(status: u16) -> (r: bool)
    ensures
        r == (200 <= status < 300),
{
    200 <= status && status < 300
}

} // verus!
