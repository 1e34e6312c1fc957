//! The tool's persistent configuration: the user's shell and the path of
//! its startup file, stored as two lines in the tool's own config file.

use vstd::prelude::*;
use vstd::slice::slice_to_vec;
use vstd::string::StringSliceAdditionalSpecFns;
use crate::codec::{
    append_bytes, find_byte, first_index_of, lemma_first_index_of, lemma_first_index_of_concat,
};
use crate::entry::NL;
use crate::errors::NavError;
use crate::protocol::starts_with;

verus! {

/// Shell kinds supported out of the box; any other shell is `Other` and is
/// configured by the user.
#[derive(Clone, Copy, Debug, PartialEq, Eq, Structural)]
pub enum ShellType {
    Bash,
    Fish,
    Zsh,
    Other,
}

pub open spec fn spec_shell_label(t: ShellType) -> Seq<u8> {
    match t {
        ShellType::Bash => "Bash".spec_bytes(),
        ShellType::Fish => "Fish".spec_bytes(),
        ShellType::Zsh => "Zsh".spec_bytes(),
        ShellType::Other => "Other".spec_bytes(),
    }
}

/// The shell kind a stored label names; unknown labels mean `Other`.
pub open spec fn spec_shell_type_of(label: Seq<u8>) -> ShellType {
    if label == "Bash".spec_bytes() {
        ShellType::Bash
    } else if label == "Fish".spec_bytes() {
        ShellType::Fish
    } else if label == "Zsh".spec_bytes() {
        ShellType::Zsh
    } else {
        ShellType::Other
    }
}

/// The shell kind named by the last path component of a `$SHELL` value:
/// the lower-case program names.
pub open spec fn spec_shell_type_of_program(name: Seq<u8>) -> Option<ShellType> {
    if name == "bash".spec_bytes() {
        Some(ShellType::Bash)
    } else if name == "fish".spec_bytes() {
        Some(ShellType::Fish)
    } else if name == "zsh".spec_bytes() {
        Some(ShellType::Zsh)
    } else {
        None
    }
}

fn bytes_eq(a: &[u8], b: &[u8]) -> (r: bool)
    ensures
        r == (a@ == b@),
{
    if a.len() != b.len() {
        return false;
    }
    let mut k: usize = 0;
    while k < a.len()
        invariant
            0 <= k <= a@.len() == b@.len(),
            forall|m: int| 0 <= m < k ==> a@[m] == b@[m],
        decreases a@.len() - k,
    {
        if a[k] != b[k] {
            return false;
        }
        k = k + 1;
    }
    proof {
        assert(a@ =~= b@);
    }
    true
}

/// Byte value of the path separator in a `$SHELL` value.
pub const SLASH: u8 = 47;

/// The bytes after the last path separator: the program name of a
/// `$SHELL`-style value.
pub open spec fn spec_after_last_slash(s: Seq<u8>) -> Seq<u8>
    decreases s.len(),
    via spec_after_last_slash_decreases
{
    if !s.contains(SLASH) {
        s
    } else {
        spec_after_last_slash(s.skip(first_index_of(s, SLASH) + 1))
    }
}

#[via_fn]
proof fn spec_after_last_slash_decreases(s: Seq<u8>) {
    lemma_first_index_of(s, SLASH);
}

/// The part of `s` after its last slash (all of `s` when it has none).
pub fn after_last_slash(s: &[u8]) -> (r: &[u8])
    ensures
        r@ == spec_after_last_slash(s@),
{
    let mut pos: usize = 0;
    let n = s.len();
    proof {
        assert(s@.skip(0) =~= s@);
    }
    loop
        invariant
            pos <= n == s@.len(),
            spec_after_last_slash(s@) == spec_after_last_slash(s@.skip(pos as int)),
        decreases s@.len() - pos,
    {
        let ghost t = s@.skip(pos as int);
        proof {
            assert(forall|k: int| 0 <= k < t.len() ==> t[k] == s@[k + pos]);
        }
        match find_byte(s, pos, SLASH) {
            None => {
                proof {
                    if t.contains(SLASH) {
                        let w = choose|k: int| 0 <= k < t.len() && t[k] == SLASH;
                        assert(s@[w + pos] == SLASH);
                    }
                }
                return &s[pos..n];
            },
            Some(k) => {
                proof {
                    lemma_first_index_of(t, SLASH);
                    assert(t[k - pos] == s@[k as int]);
                    assert(t.contains(SLASH));
                    assert(first_index_of(t, SLASH) == k - pos);
                    assert(t.skip(k - pos + 1) =~= s@.skip(k + 1));
                }
                pos = k + 1;
            },
        }
    }
}

fn shell_type_of_bytes(label: &[u8]) -> (t: ShellType)
    ensures
        t == spec_shell_type_of(label@),
{
    if bytes_eq(label, "Bash".as_bytes()) {
        ShellType::Bash
    } else if bytes_eq(label, "Fish".as_bytes()) {
        ShellType::Fish
    } else if bytes_eq(label, "Zsh".as_bytes()) {
        ShellType::Zsh
    } else {
        ShellType::Other
    }
}

impl ShellType {
    /// The shell kind a label from the config file names; unknown labels
    /// fall back to `Other`.
    pub fn from(label: &str) -> (t: ShellType)
        ensures
            t == spec_shell_type_of(label.spec_bytes()),
    {
        shell_type_of_bytes(label.as_bytes())
    }

    /// The shell kind of a program name, as found in the last path
    /// component of the `SHELL` environment variable.
    pub fn from_program_name(name: &str) -> (t: Option<ShellType>)
        ensures
            t == spec_shell_type_of_program(name.spec_bytes()),
    {
        Self::program_bytes(name.as_bytes())
    }

    fn program_bytes(name: &[u8]) -> (t: Option<ShellType>)
        ensures
            t == spec_shell_type_of_program(name@),
    {
        if bytes_eq(name, "bash".as_bytes()) {
            Some(ShellType::Bash)
        } else if bytes_eq(name, "fish".as_bytes()) {
            Some(ShellType::Fish)
        } else if bytes_eq(name, "zsh".as_bytes()) {
            Some(ShellType::Zsh)
        } else {
            None
        }
    }

    /// The shell kind a whole `$SHELL` value names: the program after the
    /// last path separator decides.
    pub fn from_shell_var(value: &str) -> (t: Option<ShellType>)
        ensures
            t == spec_shell_type_of_program(spec_after_last_slash(value.spec_bytes())),
    {
        let name = after_last_slash(value.as_bytes());
        Self::program_bytes(name)
    }

    /// The label written into the config file for this shell kind.
    pub fn label(&self) -> (r: Vec<u8>)
        ensures
            r@ == spec_shell_label(*self),
    {
        let mut out: Vec<u8> = Vec::new();
        match self {
            ShellType::Bash => append_bytes(&mut out, "Bash".as_bytes()),
            ShellType::Fish => append_bytes(&mut out, "Fish".as_bytes()),
            ShellType::Zsh => append_bytes(&mut out, "Zsh".as_bytes()),
            ShellType::Other => append_bytes(&mut out, "Other".as_bytes()),
        }
        out
    }

    /// The default startup file name of a supported shell, relative to the
    /// home directory; a shell of kind `Other` has none.
    pub fn config_file_name(&self) -> (r: Option<&'static str>)
        ensures
            *self == ShellType::Zsh ==> r is Some && r->0@ == ".zshrc"@,
            *self == ShellType::Bash ==> r is Some && r->0@ == ".bashrc"@,
            *self == ShellType::Fish ==> r is Some && r->0@ == "config.fish"@,
            *self == ShellType::Other ==> r is None,
    {
        match self {
            ShellType::Zsh => Some(".zshrc"),
            ShellType::Bash => Some(".bashrc"),
            ShellType::Fish => Some("config.fish"),
            ShellType::Other => None,
        }
    }
}

/// A user's shell: its kind and the path of its startup file.
pub struct Shell {
    pub name: ShellType,
    pub path: Vec<u8>,
}

impl Shell {
    pub fn new(name: ShellType, path: Vec<u8>) -> (s: Shell)
        ensures
            s.name == name,
            s.path == path,
    {
        Shell { name: name, path: path }
    }

    /// Two display lines describing the shell, for the console.
    pub fn describe(&self) -> (r: Vec<u8>)
        ensures
            r@ == "Shell type: ".spec_bytes() + spec_shell_label(self.name)
                + "\nShell config file path: ".spec_bytes() + self.path@,
    {
        let mut out: Vec<u8> = Vec::new();
        append_bytes(&mut out, "Shell type: ".as_bytes());
        let label = self.name.label();
        append_bytes(&mut out, label.as_slice());
        append_bytes(&mut out, "\nShell config file path: ".as_bytes());
        append_bytes(&mut out, self.path.as_slice());
        out
    }
}

/// Persistent configuration: the user's shell and where its startup file
/// lives, as stored in the tool's config file.
pub struct Config {
    pub shell: Shell,
}

pub open spec fn spec_shell_line_prefix() -> Seq<u8> {
    "SHELL=".spec_bytes()
}

pub open spec fn spec_path_line_prefix() -> Seq<u8> {
    "SHELL_CONFIG_PATH=".spec_bytes()
}

/// Meaning of the config file's bytes: a `SHELL=` line naming the shell
/// kind, then a `SHELL_CONFIG_PATH=` line with a non-empty startup file
/// path.
pub open spec fn spec_parse_config(s: Seq<u8>) -> Option<(ShellType, Seq<u8>)> {
    let i = first_index_of(s, NL);
    if i >= s.len() {
        None
    } else {
        let line0 = s.take(i);
        let rest = s.skip(i + 1);
        let j = first_index_of(rest, NL);
        let line1 = rest.take(j);
        if line0.len() >= spec_shell_line_prefix().len() && line0.take(
            spec_shell_line_prefix().len() as int,
        ) == spec_shell_line_prefix() && line1.len() > spec_path_line_prefix().len()
            && line1.take(spec_path_line_prefix().len() as int) == spec_path_line_prefix() {
            Some(
                (
                    spec_shell_type_of(line0.skip(spec_shell_line_prefix().len() as int)),
                    line1.skip(spec_path_line_prefix().len() as int),
                ),
            )
        } else {
            None
        }
    }
}

impl Config {
    /// Reads a configuration from the text of the config file; a file that
    /// does not hold the two expected lines is corrupt.
    pub fn from_string(content: &str) -> (r: Result<Config, NavError>)
        ensures
            spec_parse_config(content.spec_bytes()) is Some ==> r is Ok
                && (r->Ok_0).shell.name == (spec_parse_config(content.spec_bytes())->0).0
                && (r->Ok_0).shell.path@ == (spec_parse_config(content.spec_bytes())->0).1,
            spec_parse_config(content.spec_bytes()) is None ==> r == Err::<Config, NavError>(
                NavError::CorruptState,
            ),
    {
        let s = content.as_bytes();
        proof {
            lemma_first_index_of(s@, NL);
        }
        let i = match find_byte(s, 0, NL) {
            None => {
                return Err(NavError::CorruptState);
            },
            Some(i) => i,
        };
        proof {
            assert(first_index_of(s@, NL) == i);
        }
        let n = s.len();
        let line0: &[u8] = &s[0..i];
        let rest: &[u8] = &s[i + 1..n];
        proof {
            assert(line0@ =~= s@.take(i as int));
            assert(rest@ =~= s@.skip(i + 1));
            lemma_first_index_of(rest@, NL);
        }
        let rn = rest.len();
        let j = match find_byte(rest, 0, NL) {
            None => rn,
            Some(j) => j,
        };
        proof {
            assert(first_index_of(rest@, NL) == j);
        }
        let line1: &[u8] = &rest[0..j];
        proof {
            assert(line1@ =~= rest@.take(j as int));
        }
        let sp = "SHELL=".as_bytes();
        let pp = "SHELL_CONFIG_PATH=".as_bytes();
        if !starts_with(line0, sp) {
            return Err(NavError::CorruptState);
        }
        if line1.len() <= pp.len() || !starts_with(line1, pp) {
            return Err(NavError::CorruptState);
        }
        let label: &[u8] = &line0[sp.len()..line0.len()];
        proof {
            assert(label@ =~= line0@.skip(spec_shell_line_prefix().len() as int));
        }
        let name = shell_type_of_bytes(label);
        let path = slice_to_vec(&line1[pp.len()..line1.len()]);
        proof {
            assert(path@ =~= line1@.skip(spec_path_line_prefix().len() as int));
        }
        Ok(Config { shell: Shell { name: name, path: path } })
    }
}

/// Writing a shell's configuration and reading it back yields the same
/// shell kind and the same startup file path, for every shell kind and
/// every non-empty path free of newlines.
pub proof fn lemma_config_round_trip(t: ShellType, path: Seq<u8>)
    requires
        path.len() > 0,
        !path.contains(NL),
    ensures
        spec_parse_config(
            spec_shell_line_prefix() + spec_shell_label(t) + seq![NL] + spec_path_line_prefix()
                + path + seq![NL],
        ) == Some((t, path)),
{
    reveal_strlit("SHELL=");
    reveal_strlit("SHELL_CONFIG_PATH=");
    reveal_strlit("Bash");
    reveal_strlit("Fish");
    reveal_strlit("Zsh");
    reveal_strlit("Other");
    vstd::string::is_ascii_spec_bytes("SHELL=");
    vstd::string::is_ascii_spec_bytes("SHELL_CONFIG_PATH=");
    vstd::string::is_ascii_spec_bytes("Bash");
    vstd::string::is_ascii_spec_bytes("Fish");
    vstd::string::is_ascii_spec_bytes("Zsh");
    vstd::string::is_ascii_spec_bytes("Other");
    let sp = spec_shell_line_prefix();
    let pp = spec_path_line_prefix();
    let lb = spec_shell_label(t);
    let s = sp + lb + seq![NL] + pp + path + seq![NL];
    let head = sp + lb;
    let tail = seq![NL] + pp + path + seq![NL];
    assert(s =~= head + tail);
    assert(forall|k: int| 0 <= k < sp.len() ==> sp[k] != NL);
    assert(forall|k: int| 0 <= k < lb.len() ==> lb[k] != NL);
    assert(forall|k: int| 0 <= k < pp.len() ==> pp[k] != NL);
    assert(!head.contains(NL)) by {
        if head.contains(NL) {
            let w = choose|k: int| 0 <= k < head.len() && head[k] == NL;
        }
    };
    lemma_first_index_of_concat(head, tail, NL);
    assert(tail[0] == NL);
    assert(first_index_of(tail, NL) == 0);
    let i = first_index_of(s, NL);
    assert(i == head.len());
    assert(head.len() < s.len());
    assert(s.take(i) =~= head);
    let rest = s.skip(i + 1);
    assert(rest =~= (pp + path) + seq![NL]);
    assert(!(pp + path).contains(NL)) by {
        if (pp + path).contains(NL) {
            let w = choose|k: int| 0 <= k < (pp + path).len() && (pp + path)[k] == NL;
            if w >= pp.len() {
                assert(path[w - pp.len()] == NL);
            }
        }
    };
    lemma_first_index_of_concat(pp + path, seq![NL], NL);
    assert(seq![NL][0] == NL);
    assert(first_index_of(seq![NL], NL) == 0);
    assert(first_index_of(rest, NL) == first_index_of((pp + path) + seq![NL], NL));
    let j = first_index_of(rest, NL);
    assert(j == pp.len() + path.len());
    let line1 = rest.take(j);
    assert(line1 =~= pp + path);
    assert(head.take(sp.len() as int) =~= sp);
    assert(line1.take(pp.len() as int) =~= pp);
    assert(head.skip(sp.len() as int) =~= lb);
    assert(line1.skip(pp.len() as int) =~= path);
    assert(spec_shell_type_of(lb) == t) by {
        assert("Bash".spec_bytes().len() == 4);
        assert("Fish".spec_bytes().len() == 4);
        assert("Zsh".spec_bytes().len() == 3);
        assert("Other".spec_bytes().len() == 5);
        assert("Bash".spec_bytes()[0] == 'B' as u8);
        assert("Fish".spec_bytes()[0] == 'F' as u8);
        match t {
            ShellType::Bash => {},
            ShellType::Fish => {
                assert(lb != "Bash".spec_bytes());
            },
            ShellType::Zsh => {
                assert(lb != "Bash".spec_bytes());
                assert(lb != "Fish".spec_bytes());
            },
            ShellType::Other => {
                assert(lb != "Bash".spec_bytes());
                assert(lb != "Fish".spec_bytes());
                assert(lb != "Zsh".spec_bytes());
            },
        }
    };
}

/// Renders the two lines written into the tool's config file for a shell.
pub fn config_file_contents(shell: &Shell) -> (r: Vec<u8>)
    ensures
        r@ == spec_shell_line_prefix() + spec_shell_label(shell.name) + seq![NL]
            + spec_path_line_prefix() + shell.path@ + seq![NL],
{
    let mut out: Vec<u8> = Vec::new();
    append_bytes(&mut out, "SHELL=".as_bytes());
    let label = shell.name.label();
    append_bytes(&mut out, label.as_slice());
    out.push(NL);
    append_bytes(&mut out, "SHELL_CONFIG_PATH=".as_bytes());
    append_bytes(&mut out, shell.path.as_slice());
    out.push(NL);
    proof {
        assert(out@ =~= spec_shell_line_prefix() + spec_shell_label(shell.name) + seq![NL]
            + spec_path_line_prefix() + shell.path@ + seq![NL]);
    }
    out
}

} // verus!
