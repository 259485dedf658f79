//! Which requests the server takes: only those addressed to the loopback host.
use vstd::prelude::*;
use crate::paths::{last_index_in, last_index_of};
use crate::text::{chars_eq_range, chars_of};

verus! {

/// The host name of a `Host` header: the text before its last `:`, or all of it.
pub open spec fn host_name(h: Seq<char>) -> Seq<char> {
    let d = last_index_of(h, ':');
    if d >= 0 {
        h.subrange(0, d)
    } else {
        h
    }
}

/// A loopback host name.
pub open spec fn is_loopback_name(n: Seq<char>) -> bool {
    n == "127.0.0.1"@ || n == "localhost"@ || n == "[::1]"@ || n == "::1"@
}

/// A request passes when its `Host` header (given when present and readable
/// as text) names a loopback host; this keeps rebinding attacks out.
pub open spec fn host_allowed_spec(host: Option<Seq<char>>) -> bool {
    match host {
        Some(h) => is_loopback_name(host_name(h)),
        None => false,
    }
}

/// Whether a request with this `Host` header may go on.
pub fn guard_host(host: Option<&str>) -> (b: bool)
    ensures
        b == host_allowed_spec(match host {
            Some(h) => Some(h@),
            None => None,
        }),
{
    match host {
        None => false,
        Some(h) => {
            let v = chars_of(h);
            let n = v.len();
            let end = match last_index_in(&v, 0, n, ':') {
                Some(k) => k,
                None => n,
            };
            assert(v@.subrange(0, n as int) == v@);
            chars_eq_range(&chars_of("127.0.0.1"), &v, 0, end) || chars_eq_range(
                &chars_of("localhost"),
                &v,
                0,
                end,
            ) || chars_eq_range(&chars_of("[::1]"), &v, 0, end) || chars_eq_range(
                &chars_of("::1"),
                &v,
                0,
                end,
            )
        },
    }
}

proof fn lemma_last_colon(a: Seq<char>, t: Seq<char>)
    requires
        a.len() > 0,
        a.last() == ':',
        forall|k: int| 0 <= k < t.len() ==> t[k] != ':',
    ensures
        last_index_of(a + t, ':') == a.len() - 1,
    decreases t.len(),
{
    if t.len() == 0 {
        assert(a + t == a);
    } else {
        assert((a + t).last() == t.last());
        assert((a + t).drop_last() == a + t.drop_last());
        lemma_last_colon(a, t.drop_last());
    }
}

/// A `Host` header made of a host name and a port passes exactly when the
/// host name is a loopback one; the port plays no part.
pub proof fn lemma_host_with_port(n: Seq<char>, port: Seq<char>)
    requires
        forall|k: int| 0 <= k < port.len() ==> port[k] != ':',
    ensures
        host_allowed_spec(Some(n + seq![':'] + port)) <==> is_loopback_name(n),
{
    let a = n + seq![':'];
    lemma_last_colon(a, port);
    assert((n + seq![':'] + port).subrange(0, n.len() as int) == n);
}

} // verus!
