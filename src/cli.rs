//! What the command line decides before any I/O: how a `run` is set up, which
//! socket is used, and where the graphical client's binary is looked for.

use vstd::prelude::*;
use crate::sink::line_views;
use crate::text::{extract_server_name, file_name, same};

verus! {

/// The socket that the hub listens on, and that clients connect to, by default.
pub const DEFAULT_SOCKET: &'static str = "/tmp/reticle.sock";

/// The socket path in use: the one given on the command line, else the one
/// from the environment, else the default.
pub fn socket_path(flag: Option<String>, env: Option<String>) -> (r: String)
    ensures
        r@ == match flag {
            Some(f) => f@,
            None => match env {
                Some(e) => e@,
                None => DEFAULT_SOCKET@,
            },
        },
{
    match flag {
        Some(f) => f,
        None => match env {
            Some(e) => e,
            None => String::from_str(DEFAULT_SOCKET),
        },
    }
}

/// How a wrapped server is started: the program, its arguments, and the name
/// that the session reports.
#[derive(Clone, Debug)]
pub struct RunPlan {
    pub program: String,
    pub args: Vec<String>,
    pub server_name: String,
}

pub open spec fn server_name_for(name: Option<Seq<char>>, program: Seq<char>) -> Seq<char> {
    match name {
        Some(n) => n,
        None => match file_name(program) {
            Some(f) => f,
            None => "mcp-server"@,
        },
    }
}

/// Sets up a `run`: the first word of the command is the program and the
/// rest its arguments; the session is named as given, else after the
/// program. An empty command is a configuration error, and gives `None`.
pub fn plan_run(name: Option<String>, command: Vec<String>) -> (r: Option<RunPlan>)
    ensures
        r is None <==> command@.len() == 0,
        r matches Some(p) ==> p.program@ == command@[0]@ && line_views(p.args@) == line_views(
            command@,
        ).drop_first() && p.server_name@ == server_name_for(
            match name {
                Some(n) => Some(n@),
                None => None,
            },
            command@[0]@,
        ),
{
    if command.len() == 0 {
        return None;
    }
    let program = command[0].clone();
    let mut args: Vec<String> = Vec::new();
    let mut i: usize = 1;
    while i < command.len()
        invariant
            1 <= i <= command@.len(),
            args@.len() == i - 1,
            forall|k: int| 0 <= k < args@.len() ==> #[trigger] args@[k]@ == command@[k + 1]@,
        decreases command@.len() - i,
    {
        args.push(command[i].clone());
        i = i + 1;
    }
    assert(line_views(args@) =~= line_views(command@).drop_first());
    let server_name = match name {
        Some(n) => n,
        None => extract_server_name(program.as_str()),
    };
    Some(RunPlan { program, args, server_name })
}

/// The operating system's word in a release asset's name.
pub open spec fn os_label(os: Seq<char>) -> Option<Seq<char>> {
    if os == "macos"@ {
        Some("darwin"@)
    } else if os == "linux"@ {
        Some("linux"@)
    } else if os == "windows"@ {
        Some("windows"@)
    } else {
        None
    }
}

pub open spec fn arch_supported(arch: Seq<char>) -> bool {
    arch == "x86_64"@ || arch == "aarch64"@
}

/// The name that the graphical client's release asset has for this platform,
/// given as std names the system and architecture (`macos`, `x86_64`).
pub fn get_platform_asset_name(os: &str, arch: &str) -> (r: Result<String, String>)
    ensures
        match os_label(os@) {
            None => r matches Err(e) && e@ == "Unsupported operating system"@,
            Some(label) => if arch_supported(arch@) {
                r matches Ok(n) && n@ == "reticle-app-"@ + label + "-"@ + arch@
            } else {
                r matches Err(e) && e@ == "Unsupported architecture"@
            },
        },
{
    let label = if same(os, "macos") {
        "darwin"
    } else if same(os, "linux") {
        "linux"
    } else if same(os, "windows") {
        "windows"
    } else {
        return Err(String::from_str("Unsupported operating system"));
    };
    if !(same(arch, "x86_64") || same(arch, "aarch64")) {
        return Err(String::from_str("Unsupported architecture"));
    }
    let mut n = String::from_str("reticle-app-");
    n.append(label);
    n.append("-");
    n.append(arch);
    Ok(n)
}

/// `rel` appended to the directory `dir`, with one slash between them.
pub open spec fn joined_path(dir: Seq<char>, rel: Seq<char>) -> Seq<char> {
    if dir.len() == 0 || dir.last() == '/' {
        dir + rel
    } else {
        dir + "/"@ + rel
    }
}

pub fn join_path(dir: &str, rel: &str) -> (r: String)
    ensures
        r@ == joined_path(dir@, rel@),
{
    let n = dir.unicode_len();
    let mut r = String::from_str(dir);
    if !(n == 0 || dir.get_char(n - 1) == '/') {
        r.append("/");
    }
    r.append(rel);
    r
}

/// Where a debug build of the graphical client may stand under the project
/// root, in the order they are tried.
pub open spec fn debug_gui_paths(root: Seq<char>) -> Seq<Seq<char>> {
    seq![
        joined_path(root, "target/debug/reticle-app"@),
        joined_path(root, "src-tauri/target/debug/reticle-app"@),
    ]
}

pub fn debug_gui_candidates(root: &str) -> (r: Vec<String>)
    ensures
        line_views(r@) == debug_gui_paths(root@),
{
    let mut r: Vec<String> = Vec::new();
    r.push(join_path(root, "target/debug/reticle-app"));
    r.push(join_path(root, "src-tauri/target/debug/reticle-app"));
    assert(line_views(r@) =~= debug_gui_paths(root@));
    r
}

/// The first of `paths` that `present` marks as existing.
pub open spec fn first_present(paths: Seq<Seq<char>>, present: Seq<bool>) -> Option<Seq<char>>
    decreases paths.len(),
{
    if paths.len() == 0 {
        None
    } else if present.len() > 0 && present[0] {
        Some(paths[0])
    } else {
        first_present(paths.drop_first(), if present.len() > 0 {
            present.drop_first()
        } else {
            present
        })
    }
}

/// The debug build of the graphical client: with no project root there is
/// none; otherwise the first candidate (see `debug_gui_candidates`) that
/// `present` marks as existing, entry for entry.
pub fn find_debug_gui_binary(project_root: Option<&str>, present: &[bool]) -> (r: Option<String>)
    ensures
        match project_root {
            None => r is None,
            Some(root) => match first_present(debug_gui_paths(root@), present@) {
                None => r is None,
                Some(p) => r matches Some(x) && x@ == p,
            },
        },
{
    let root = match project_root {
        None => return None,
        Some(root) => root,
    };
    let paths = debug_gui_candidates(root);
    let ghost all = line_views(paths@);
    let ghost p = present@;
    let ghost p1 = if p.len() > 0 {
        p.drop_first()
    } else {
        p
    };
    assert(all.drop_first().drop_first().len() == 0);
    assert(first_present(all.drop_first().drop_first(), if p1.len() > 0 {
        p1.drop_first()
    } else {
        p1
    }) is None);
    assert(all[0] == paths@[0]@ && all[1] == paths@[1]@);
    assert(all.drop_first()[0] == all[1]);
    if present.len() > 0 && present[0] {
        return Some(paths[0].clone());
    }
    assert(first_present(all, p) == first_present(all.drop_first(), p1));
    if present.len() > 1 && present[1] {
        assert(p1[0] == p[1]);
        return Some(paths[1].clone());
    }
    assert(p1.len() > 0 ==> !p1[0]);
    None
}

/// Whether `p` occurs in `s` starting at `i`.
pub open spec fn occurs_at(s: Seq<char>, p: Seq<char>, i: int) -> bool {
    0 <= i && i + p.len() <= s.len() && s.subrange(i, i + p.len()) == p
}

pub open spec fn contains_text(s: Seq<char>, p: Seq<char>) -> bool {
    exists|i: int| occurs_at(s, p, i)
}

/// Whether `pattern` occurs in `s`.
pub fn contains_str(s: &str, pattern: &str) -> (r: bool)
    ensures
        r == contains_text(s@, pattern@),
{
    let n = s.unicode_len();
    let m = pattern.unicode_len();
    if m > n {
        assert(!contains_text(s@, pattern@));
        return false;
    }
    let mut i: usize = 0;
    loop
        invariant
            n == s@.len(),
            m == pattern@.len(),
            m <= n,
            0 <= i <= n - m,
            forall|k: int| 0 <= k < i ==> !occurs_at(s@, pattern@, k),
        ensures
            forall|k: int| 0 <= k <= n - m ==> !occurs_at(s@, pattern@, k),
        decreases n - m - i,
    {
        if same(s.substring_char(i, i + m), pattern) {
            assert(occurs_at(s@, pattern@, i as int));
            return true;
        }
        assert(!occurs_at(s@, pattern@, i as int));
        if i == n - m {
            break;
        }
        i = i + 1;
    }
    assert(!contains_text(s@, pattern@)) by {
        if contains_text(s@, pattern@) {
            let k = choose|k: int| occurs_at(s@, pattern@, k);
            assert(k <= n - m);
        }
    }
    false
}

/// Which release asset to download: the first whose name holds the
/// platform's asset name.
pub fn pick_asset(names: &Vec<String>, asset_name: &str) -> (r: Option<usize>)
    ensures
        match r {
            Some(i) => i < names@.len() && contains_text(names@[i as int]@, asset_name@) && forall|
                j: int,
            |
                0 <= j < i ==> !contains_text(#[trigger] names@[j]@, asset_name@),
            None => forall|j: int|
                0 <= j < names@.len() ==> !contains_text(#[trigger] names@[j]@, asset_name@),
        },
{
    let mut i: usize = 0;
    while i < names.len()
        invariant
            0 <= i <= names@.len(),
            forall|j: int| 0 <= j < i ==> !contains_text(#[trigger] names@[j]@, asset_name@),
        decreases names@.len() - i,
    {
        if contains_str(names[i].as_str(), asset_name) {
            return Some(i);
        }
        i = i + 1;
    }
    None
}

/// How a downloaded release asset holds the binary.
#[derive(Clone, Copy, Debug, PartialEq, Eq, Structural)]
pub enum AssetKind {
    /// A gzip-compressed tar archive.
    TarGz,
    /// A zip archive.
    Zip,
    /// The binary itself.
    Binary,
}

pub open spec fn ends_with(s: Seq<char>, suffix: Seq<char>) -> bool {
    suffix.len() <= s.len() && s.subrange(s.len() - suffix.len(), s.len() as int) == suffix
}

fn ends_with_str(s: &str, suffix: &str) -> (r: bool)
    ensures
        r == ends_with(s@, suffix@),
{
    let n = s.unicode_len();
    let m = suffix.unicode_len();
    if m > n {
        return false;
    }
    same(s.substring_char(n - m, n), suffix)
}

/// The kind of an asset, by the end of its file name.
pub fn asset_kind(file_name: &str) -> (r: AssetKind)
    ensures
        r == (if ends_with(file_name@, ".tar.gz"@) {
            AssetKind::TarGz
        } else if ends_with(file_name@, ".zip"@) {
            AssetKind::Zip
        } else {
            AssetKind::Binary
        }),
{
    if ends_with_str(file_name, ".tar.gz") {
        AssetKind::TarGz
    } else if ends_with_str(file_name, ".zip") {
        AssetKind::Zip
    } else {
        AssetKind::Binary
    }
}

} // verus!
