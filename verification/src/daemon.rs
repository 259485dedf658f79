//! The background server's bookkeeping: where its port is recorded, how the
//! record is written and read back, how the launcher starts it and recognises it.
use vstd::prelude::*;
use crate::numtext::{dec_digits, hex16, hex_digits, lemma_hex16_injective, lemma_hex_len, port_text};
use crate::paths::{join, join_spec};
use crate::text::{
    chars_eq_range, chars_of, find_char_from, has_infix, has_prefix, lowercase, next_index, str_contains,
    str_is_empty, str_starts_with, to_lowercase,
};

verus! {

/// The hash that `DefaultHasher::new()` gives of the root path.
pub uninterp spec fn path_hash(root: Seq<char>) -> u64;

/// Hashes `Path::new(root)` with a `std::collections::hash_map::DefaultHasher`
/// made by `new()` (fixed keys, so the same path gives the same hash in every
/// run of one build); the result is named `path_hash` of the text.
#[verifier::external_body]
fn hash_path(root: &str) -> (h: u64)
    ensures
        h == path_hash(root@),
{
    let mut hasher = std::collections::hash_map::DefaultHasher::new();
    std::hash::Hash::hash(std::path::Path::new(root), &mut hasher);
    std::hash::Hasher::finish(&hasher)
}

/// An environment variable's value that counts: set and not empty.
pub open spec fn usable(v: Option<Seq<char>>) -> bool {
    v is Some && v->0.len() > 0
}

/// The state directory: `$XDG_STATE_HOME/madore`, else `$HOME/.local/state/madore`,
/// else `madore` under the temporary directory.
pub open spec fn state_dir_spec(
    xdg: Option<Seq<char>>,
    home: Option<Seq<char>>,
    temp: Seq<char>,
) -> Seq<char> {
    if usable(xdg) {
        join_spec(xdg->0, "madore"@)
    } else if usable(home) {
        join_spec(home->0, ".local/state/madore"@)
    } else {
        join_spec(temp, "madore"@)
    }
}

pub open spec fn opt_str(o: Option<&str>) -> Option<Seq<char>> {
    match o {
        Some(s) => Some(s@),
        None => None,
    }
}

/// The directory where ports and logs are kept, from the values of
/// `XDG_STATE_HOME` and `HOME` (`None` when unset or not Unicode) and the
/// temporary directory.
pub fn state_dir(xdg: Option<&str>, home: Option<&str>, temp: &str) -> (r: String)
    ensures
        r@ == state_dir_spec(opt_str(xdg), opt_str(home), temp@),
{
    match xdg {
        Some(x) => {
            if !str_is_empty(x) {
                return join(x, "madore");
            }
        },
        None => {},
    }
    match home {
        Some(h) => {
            if !str_is_empty(h) {
                return join(h, ".local/state/madore");
            }
        },
        None => {},
    }
    join(temp, "madore")
}

/// The file that records the port of the server of `root`: named after the
/// hash of the root path, in 16 hexadecimal digits.
pub open spec fn record_file_spec(dir: Seq<char>, root: Seq<char>) -> Seq<char> {
    join_spec(dir, "server-"@ + hex_digits(path_hash(root) as nat, 16) + ".port"@)
}

/// The file under the state directory `dir` that records the port of the
/// server of `root`.
pub fn record_file(dir: &str, root: &str) -> (r: String)
    ensures
        r@ == record_file_spec(dir@, root@),
{
    let mut name = "server-".to_owned();
    let hex = hex16(hash_path(root));
    name.append(hex.as_str());
    name.append(".port");
    join(dir, name.as_str())
}

/// The log file of the server on `port`, under the state directory `dir`.
pub fn log_file(dir: &str, port: u16) -> (r: String)
    ensures
        r@ == join_spec(dir@, "server-"@ + dec_digits(port as nat) + ".log"@),
{
    let mut name = "server-".to_owned();
    let p = port_text(port);
    name.append(p.as_str());
    name.append(".log");
    join(dir, name.as_str())
}

/// The address of the server on `port`.
pub fn server_url(port: u16) -> (r: String)
    ensures
        r@ == "http://127.0.0.1:"@ + dec_digits(port as nat),
{
    let mut url = "http://127.0.0.1:".to_owned();
    let p = port_text(port);
    url.append(p.as_str());
    url
}

/// The arguments with which the launcher starts the server of `root` on `port`.
pub fn server_args(root: &str, port: u16) -> (r: Vec<String>)
    ensures
        r@.len() == 5,
        r@[0]@ == root@,
        r@[1]@ == "--foreground"@,
        r@[2]@ == "--port"@,
        r@[3]@ == dec_digits(port as nat),
        r@[4]@ == "--no-open"@,
{
    let mut v: Vec<String> = Vec::new();
    v.push(root.to_owned());
    v.push("--foreground".to_owned());
    v.push("--port".to_owned());
    v.push(port_text(port));
    v.push("--no-open".to_owned());
    v
}

/// The text that marks a health reply as this viewer's.
pub open spec fn app_marker() -> Seq<char> {
    "\"app\":\"madore\""@
}

/// Whether a health reply comes from this viewer serving `root`: it holds the
/// app marker and the root path.
pub fn health_matches(body: &str, root: &str) -> (b: bool)
    ensures
        b == (has_infix(body@, app_marker()) && has_infix(body@, root@)),
{
    str_contains(body, "\"app\":\"madore\"") && str_contains(body, root)
}

/// A reply whose status code is 200: the three characters after the first
/// space of the reply are `200`.
pub open spec fn status_200(resp: Seq<char>) -> bool {
    let i = next_index(resp, ' ', 0);
    i + 4 <= resp.len() && resp.subrange(i + 1, i + 4) == "200"@
}

/// Whether the reply to a shutdown request accepts it: an HTTP/1 reply whose
/// status code is 200.
pub fn shutdown_accepted(resp: &str) -> (b: bool)
    ensures
        b == (has_prefix(resp@, "HTTP/1."@) && status_200(resp@)),
{
    if !str_starts_with(resp, "HTTP/1.") {
        return false;
    }
    let v = chars_of(resp);
    let i = find_char_from(&v, ' ', 0);
    if i >= v.len() || v.len() - i < 4 {
        return false;
    }
    chars_eq_range(&chars_of("200"), &v, i + 1, i + 4)
}

/// Whether the text of `/proc/version` tells of WSL (it names Microsoft, in any case).
pub fn is_wsl_version(version: &str) -> (b: bool)
    ensures
        b == has_infix(lowercase(version@), "microsoft"@),
{
    let lower = to_lowercase(version);
    str_contains(lower.as_str(), "microsoft")
}

/// Roots whose paths hash differently get different record files, so one
/// root's server is never taken for another's.
pub proof fn lemma_record_files_distinct(dir: Seq<char>, r1: Seq<char>, r2: Seq<char>)
    requires
        path_hash(r1) != path_hash(r2),
    ensures
        record_file_spec(dir, r1) != record_file_spec(dir, r2),
{
    reveal_strlit("server-");
    reveal_strlit(".port");
    let h1 = hex_digits(path_hash(r1) as nat, 16);
    let h2 = hex_digits(path_hash(r2) as nat, 16);
    lemma_hex_len(path_hash(r1) as nat, 16);
    lemma_hex_len(path_hash(r2) as nat, 16);
    let a1 = "server-"@ + h1 + ".port"@;
    let a2 = "server-"@ + h2 + ".port"@;
    if record_file_spec(dir, r1) == record_file_spec(dir, r2) {
        assert(a1[0] == 's' && a2[0] == 's');
        let j1 = join_spec(dir, a1);
        let j2 = join_spec(dir, a2);
        let off = j1.len() - a1.len();
        assert(j1.subrange(off, j1.len() as int) == a1);
        assert(j2.subrange(off, j2.len() as int) == a2);
        assert(a1 == a2);
        assert(a1.subrange(7, 23) == h1);
        assert(a2.subrange(7, 23) == h2);
        lemma_hex16_injective(path_hash(r1), path_hash(r2));
    }
}

} // verus!
