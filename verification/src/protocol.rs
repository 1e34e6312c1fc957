//! The text protocol between the tool and the enclosing shell.
//!
//! A child process cannot change its parent shell's working directory, so
//! the tool prints the destination on a single marker line and a generated
//! shell-side wrapper function extracts everything after the marker token
//! and performs the actual `cd`. Every other output line is ordinary
//! logging and must not carry the marker.

use vstd::prelude::*;
use vstd::string::StringSliceAdditionalSpecFns;
use crate::codec::append_bytes;

verus! {

/// Prefix of the one output line that carries a destination path: the
/// query tag followed by the marker token `Path=`. The shell wrapper takes
/// everything after the token on that line.
pub open spec fn spec_marker_prefix() -> Seq<u8> {
    "[CDQ][QUERY]: Path=".spec_bytes()
}

/// The exact line emitted for a destination path.
pub open spec fn spec_marker_line(path: Seq<u8>) -> Seq<u8> {
    spec_marker_prefix() + path
}

/// Builds the marker line for a destination path.
pub fn format_marker_line(path: &[u8]) -> (r: Vec<u8>)
    ensures
        r@ == spec_marker_line(path@),
{
    let mut out: Vec<u8> = Vec::new();
    let prefix: &str = "[CDQ][QUERY]: Path=";
    append_bytes(&mut out, prefix.as_bytes());
    append_bytes(&mut out, path);
    out
}

/// What the shell wrapper reads from one output line: the destination when
/// the line starts with the marker prefix, nothing otherwise.
pub open spec fn spec_extract(line: Seq<u8>) -> Option<Seq<u8>> {
    if line.len() >= spec_marker_prefix().len() && line.take(spec_marker_prefix().len() as int)
        == spec_marker_prefix() {
        Some(line.skip(spec_marker_prefix().len() as int))
    } else {
        None
    }
}

/// `s` begins with `prefix`.
pub fn starts_with(s: &[u8], prefix: &[u8]) -> (r: bool)
    ensures
        r == (s@.len() >= prefix@.len() && s@.take(prefix@.len() as int) == prefix@),
{
    if s.len() < prefix.len() {
        return false;
    }
    let mut k: usize = 0;
    while k < prefix.len()
        invariant
            0 <= k <= prefix@.len() <= s@.len(),
            forall|m: int| 0 <= m < k ==> s@[m] == prefix@[m],
        decreases prefix@.len() - k,
    {
        if s[k] != prefix[k] {
            proof {
                if s@.take(prefix@.len() as int) == prefix@ {
                    assert(s@.take(prefix@.len() as int)[k as int] == s@[k as int]);
                }
            }
            return false;
        }
        k = k + 1;
    }
    proof {
        assert(s@.take(prefix@.len() as int) =~= prefix@);
    }
    true
}

/// Reads a destination from one output line, as the shell wrapper does.
pub fn extract_marker_value(line: &[u8]) -> (r: Option<Vec<u8>>)
    ensures
        spec_extract(line@) is Some ==> r is Some && r->0@ == spec_extract(line@)->0,
        spec_extract(line@) is None ==> r is None,
{
    let prefix: &str = "[CDQ][QUERY]: Path=";
    let pb = prefix.as_bytes();
    if starts_with(line, pb) {
        let value = vstd::slice::slice_to_vec(&line[pb.len()..line.len()]);
        proof {
            assert(value@ =~= line@.skip(spec_marker_prefix().len() as int));
        }
        Some(value)
    } else {
        None
    }
}

/// The wrapper reads back exactly the path the tool put on a marker line.
pub proof fn lemma_marker_round_trip(path: Seq<u8>)
    ensures
        spec_extract(spec_marker_line(path)) == Some(path),
{
    let line = spec_marker_line(path);
    assert(line.take(spec_marker_prefix().len() as int) =~= spec_marker_prefix());
    assert(line.skip(spec_marker_prefix().len() as int) =~= path);
}

pub open spec fn spec_info_prefix() -> Seq<u8> {
    "[CDQ][INFO]: ".spec_bytes()
}

pub open spec fn spec_warn_prefix() -> Seq<u8> {
    "[CDQ][WARN]: ".spec_bytes()
}

pub open spec fn spec_error_prefix() -> Seq<u8> {
    "[CDQ][ERROR]: ".spec_bytes()
}

pub open spec fn spec_query_prefix() -> Seq<u8> {
    "[CDQ][QUERY]: ".spec_bytes()
}

pub open spec fn spec_debug_prefix() -> Seq<u8> {
    "[CDQ][DEBUG]: ".spec_bytes()
}

/// Builders of the console message lines. The calling binary prints them,
/// with color on the tag; it must route every message through these so that
/// only marker lines carry the marker token.
pub struct Logger;

impl Logger {
    /// Line for information on the current state of the program.
    pub fn info(msg: &str) -> (r: Vec<u8>)
        ensures
            r@ == spec_info_prefix() + msg.spec_bytes(),
    {
        let mut out: Vec<u8> = Vec::new();
        let prefix: &str = "[CDQ][INFO]: ";
        append_bytes(&mut out, prefix.as_bytes());
        append_bytes(&mut out, msg.as_bytes());
        out
    }

    /// Line for a warning that may affect behaviour but allows execution to
    /// continue.
    pub fn warn(msg: &str) -> (r: Vec<u8>)
        ensures
            r@ == spec_warn_prefix() + msg.spec_bytes(),
    {
        let mut out: Vec<u8> = Vec::new();
        let prefix: &str = "[CDQ][WARN]: ";
        append_bytes(&mut out, prefix.as_bytes());
        append_bytes(&mut out, msg.as_bytes());
        out
    }

    /// Line for an error after which the program terminates.
    pub fn error(msg: &str) -> (r: Vec<u8>)
        ensures
            r@ == spec_error_prefix() + msg.spec_bytes(),
    {
        let mut out: Vec<u8> = Vec::new();
        let prefix: &str = "[CDQ][ERROR]: ";
        append_bytes(&mut out, prefix.as_bytes());
        append_bytes(&mut out, msg.as_bytes());
        out
    }

    /// Line for a performed query, in the format the shell wrapper scans.
    pub fn query(msg: &str) -> (r: Vec<u8>)
        ensures
            r@ == spec_query_prefix() + msg.spec_bytes(),
    {
        let mut out: Vec<u8> = Vec::new();
        let prefix: &str = "[CDQ][QUERY]: ";
        append_bytes(&mut out, prefix.as_bytes());
        append_bytes(&mut out, msg.as_bytes());
        out
    }

    /// Line for a debugging message.
    pub fn debug(msg: &str) -> (r: Vec<u8>)
        ensures
            r@ == spec_debug_prefix() + msg.spec_bytes(),
    {
        let mut out: Vec<u8> = Vec::new();
        let prefix: &str = "[CDQ][DEBUG]: ";
        append_bytes(&mut out, prefix.as_bytes());
        append_bytes(&mut out, msg.as_bytes());
        out
    }
}

/// Ordinary log lines are never mistaken for a marker line, whatever the
/// message: the wrapper extracts nothing from an info, warn, error or debug
/// line. Only the query channel carries a destination.
pub proof fn lemma_log_lines_carry_no_marker(msg: Seq<u8>)
    ensures
        spec_extract(spec_info_prefix() + msg) is None,
        spec_extract(spec_warn_prefix() + msg) is None,
        spec_extract(spec_error_prefix() + msg) is None,
        spec_extract(spec_debug_prefix() + msg) is None,
{
    reveal_strlit("[CDQ][QUERY]: Path=");
    reveal_strlit("[CDQ][INFO]: ");
    reveal_strlit("[CDQ][WARN]: ");
    reveal_strlit("[CDQ][ERROR]: ");
    reveal_strlit("[CDQ][DEBUG]: ");
    vstd::string::is_ascii_spec_bytes("[CDQ][QUERY]: Path=");
    vstd::string::is_ascii_spec_bytes("[CDQ][INFO]: ");
    vstd::string::is_ascii_spec_bytes("[CDQ][WARN]: ");
    vstd::string::is_ascii_spec_bytes("[CDQ][ERROR]: ");
    vstd::string::is_ascii_spec_bytes("[CDQ][DEBUG]: ");
    let m = spec_marker_prefix();
    assert(m[6] == 'Q' as u8);
    assert(spec_info_prefix()[6] == 'I' as u8);
    assert(spec_warn_prefix()[6] == 'W' as u8);
    assert(spec_error_prefix()[6] == 'E' as u8);
    assert(spec_debug_prefix()[6] == 'D' as u8);
    assert(spec_extract(spec_info_prefix() + msg) is None) by {
        let line = spec_info_prefix() + msg;
        assert(line[6] == spec_info_prefix()[6]);
        if line.len() >= m.len() && line.take(m.len() as int) == m {
            assert(line.take(m.len() as int)[6] == line[6]);
        }
    };
    assert(spec_extract(spec_warn_prefix() + msg) is None) by {
        let line = spec_warn_prefix() + msg;
        assert(line[6] == spec_warn_prefix()[6]);
        if line.len() >= m.len() && line.take(m.len() as int) == m {
            assert(line.take(m.len() as int)[6] == line[6]);
        }
    };
    assert(spec_extract(spec_error_prefix() + msg) is None) by {
        let line = spec_error_prefix() + msg;
        assert(line[6] == spec_error_prefix()[6]);
        if line.len() >= m.len() && line.take(m.len() as int) == m {
            assert(line.take(m.len() as int)[6] == line[6]);
        }
    };
    assert(spec_extract(spec_debug_prefix() + msg) is None) by {
        let line = spec_debug_prefix() + msg;
        assert(line[6] == spec_debug_prefix()[6]);
        if line.len() >= m.len() && line.take(m.len() as int) == m {
            assert(line.take(m.len() as int)[6] == line[6]);
        }
    };
}

pub open spec fn spec_executor_head() -> Seq<u8> {
    "\ncdq() {\n    local output=$(".spec_bytes()
}

pub open spec fn spec_executor_tail() -> Seq<u8> {
    " $1)\n    echo \"$output\"\n    local dir=$(echo \"$output\" | awk -F'Path=' '{print $2}')\n    if [ -d \"$dir\" ]; then\n        echo \"Proceeding to the $dir\"\n        cd \"$dir\"\n    fi\n}\n".spec_bytes()
}

/// The shell-side wrapper function: a fixed template parameterized only by
/// the path of the tool's executable. It runs the tool, echoes its output,
/// extracts the value after the marker token, and changes directory only
/// when that value names an existing directory.
pub open spec fn spec_executor(exe_path: Seq<u8>) -> Seq<u8> {
    spec_executor_head() + exe_path + spec_executor_tail()
}

/// Renders the shell-side wrapper function installed into the user's shell
/// startup file.
pub fn get_cdq_func_executor(exe_path: &[u8]) -> (r: Vec<u8>)
    ensures
        r@ == spec_executor(exe_path@),
{
    let mut out: Vec<u8> = Vec::new();
    let head: &str = "\ncdq() {\n    local output=$(";
    append_bytes(&mut out, head.as_bytes());
    append_bytes(&mut out, exe_path);
    let tail: &str =
        " $1)\n    echo \"$output\"\n    local dir=$(echo \"$output\" | awk -F'Path=' '{print $2}')\n    if [ -d \"$dir\" ]; then\n        echo \"Proceeding to the $dir\"\n        cd \"$dir\"\n    fi\n}\n";
    append_bytes(&mut out, tail.as_bytes());
    out
}

} // verus!
