//! Hot reloading: the message the build tool sends when a module was
//! rebuilt, the names it gives the rebuilt libraries, and how a client
//! swaps a reloaded module in.
use crate::text::{decimal, push_decimal};
use vstd::prelude::*;

verus! {

/// What the build tool tells a running engine.
pub enum WeaverMessage {
    ReloadModule { module_name: String, dynamic_lib_path: String },
}

/// A hot-reloadable module. Every module library defines an `allocate`
/// function that hands one out.
pub trait ModuleHandle {
    fn name(&self) -> &str;

    fn tick(&mut self);
}

/// The operating systems the build tool produces libraries for.
#[derive(Clone, Copy, Debug, PartialEq, Eq, Structural)]
pub enum TargetOs {
    Windows,
    Linux,
    MacOs,
}

/// The file extension of a dynamic library.
pub open spec fn spec_dylib_extension(os: TargetOs) -> Seq<char> {
    match os {
        TargetOs::Windows => "dll"@,
        TargetOs::Linux => "so"@,
        TargetOs::MacOs => "dylib"@,
    }
}

pub fn dylib_extension(os: TargetOs) -> (r: &'static str)
    ensures
        r@ == spec_dylib_extension(os),
{
    match os {
        TargetOs::Windows => "dll",
        TargetOs::Linux => "so",
        TargetOs::MacOs => "dylib",
    }
}

/// The name of build `version` of the library of module `name`:
/// `name_version.extension`.
pub open spec fn spec_artifact_name(name: Seq<char>, version: nat, os: TargetOs) -> Seq<char> {
    name + "_"@ + decimal(version) + "."@ + spec_dylib_extension(os)
}

pub fn versioned_artifact_name(name: &str, version: u64, os: TargetOs) -> (r: String)
    ensures
        r@ == spec_artifact_name(name@, version as nat, os),
{
    let mut artifact = String::from_str(name);
    artifact.append("_");
    push_decimal(&mut artifact, version);
    artifact.append(".");
    artifact.append(dylib_extension(os));
    proof {
        assert(artifact@ =~= spec_artifact_name(name@, version as nat, os));
    }
    artifact
}

/// The code generator modules are compiled with: Cranelift on Linux, the
/// default elsewhere.
pub fn codegen_backend(os: TargetOs) -> (r: Option<&'static str>)
    ensures
        os == TargetOs::Linux ==> (r matches Some(b) && b@ == "cranelift"@),
        os != TargetOs::Linux ==> r is None,
{
    match os {
        TargetOs::Linux => Some("cranelift"),
        _ => None,
    }
}

/// The first module called `name`.
pub fn find_module_by_name(names: &Vec<String>, name: &String) -> (r: Option<usize>)
    ensures
        r matches Some(i) ==> i < names@.len() && names@[i as int]@ == name@ && forall|j: int|
            0 <= j < i ==> (#[trigger] names@[j])@ != name@,
        r is None ==> forall|j: int| 0 <= j < names@.len() ==> (#[trigger] names@[j])@ != name@,
{
    let mut i: usize = 0;
    while i < names.len()
        invariant
            i <= names@.len(),
            forall|j: int| 0 <= j < i ==> (#[trigger] names@[j])@ != name@,
        decreases names@.len() - i,
    {
        if names[i] == *name {
            return Some(i);
        }
        i = i + 1;
    }
    None
}

/// When module `reloaded` is reloaded, the modules that stay: all those with
/// another name, in order.
pub fn modules_kept_on_reload(names: &Vec<String>, reloaded: &String) -> (r: Vec<usize>)
    ensures
        r@ == Seq::new(names@.len(), |j: int| j as usize).filter(|j: usize| names@[j as int]@ != reloaded@),
{
    let ghost all = Seq::new(names@.len(), |j: int| j as usize);
    let ghost keep = |j: usize| names@[j as int]@ != reloaded@;
    let mut kept: Vec<usize> = Vec::new();
    let mut i: usize = 0;
    while i < names.len()
        invariant
            i <= names@.len(),
            all == Seq::new(names@.len(), |j: int| j as usize),
            keep == (|j: usize| names@[j as int]@ != reloaded@),
            kept@ == all.take(i as int).filter(keep),
        decreases names@.len() - i,
    {
        proof {
            reveal_with_fuel(Seq::<_>::filter, 1);
            assert(all.take(i + 1).drop_last() =~= all.take(i as int));
        }
        if names[i] != *reloaded {
            kept.push(i);
        }
        i = i + 1;
    }
    proof {
        assert(all.take(names@.len() as int) =~= all);
    }
    kept
}

/// A module build: the source file, the library to write, the crate name,
/// the crates to link against as (name, path) pairs, library search paths
/// and the incremental-compilation directory.
pub struct CompileJob {
    pub source: String,
    pub output: String,
    pub crate_name: String,
    pub extern_flags: Vec<(String, String)>,
    pub search_paths: Vec<String>,
    pub incremental_dir: String,
}

/// `--extern name=path` for each linked crate.
pub open spec fn extern_args(flags: Seq<(String, String)>) -> Seq<Seq<char>>
    decreases flags.len(),
{
    if flags.len() == 0 {
        seq![]
    } else {
        extern_args(flags.drop_last()) + seq!["--extern"@, flags.last().0@ + "="@ + flags.last().1@]
    }
}

/// `-L path` for each search path.
pub open spec fn search_args(paths: Seq<String>) -> Seq<Seq<char>>
    decreases paths.len(),
{
    if paths.len() == 0 {
        seq![]
    } else {
        search_args(paths.drop_last()) + seq!["-L"@, paths.last()@]
    }
}

/// The arguments `rustc` is run with to build a module as a dynamic
/// library, unoptimised and incrementally, with `backend` as code generator
/// when there is one.
pub open spec fn spec_rustc_args(job: CompileJob, backend: Option<Seq<char>>) -> Seq<Seq<char>> {
    seq![
        "--edition"@,
        "2021"@,
        "--crate-type"@,
        "cdylib"@,
        "--crate-name"@,
        job.crate_name@,
        "-C"@,
        "opt-level=0"@,
        "-C"@,
        "prefer-dynamic"@,
        "-C"@,
        "incremental="@ + job.incremental_dir@,
    ] + match backend {
        Some(b) => seq!["-Z"@, "codegen-backend="@ + b],
        None => seq![],
    } + extern_args(job.extern_flags@) + search_args(job.search_paths@) + seq![
        "-o"@,
        job.output@,
        job.source@,
    ]
}

/// Each search path gets its own `-L` flag, in order.
pub proof fn lemma_search_args_shape(paths: Seq<String>)
    ensures
        search_args(paths).len() == 2 * paths.len(),
        forall|k: int| 0 <= k < paths.len() ==> (#[trigger] search_args(paths)[2 * k]) == "-L"@,
        forall|k: int| 0 <= k < paths.len() ==> (#[trigger] search_args(paths)[2 * k + 1]) == paths[k]@,
    decreases paths.len(),
{
    if paths.len() > 0 {
        let front = paths.drop_last();
        lemma_search_args_shape(front);
        let whole = search_args(paths);
        let first = search_args(front);
        assert(whole == first + seq!["-L"@, paths.last()@]);
        assert forall|k: int| 0 <= k < paths.len() implies (#[trigger] search_args(paths)[2 * k]) == "-L"@
            && search_args(paths)[2 * k + 1] == paths[k]@ by {
            if k < paths.len() - 1 {
                assert(paths[k] == front[k]);
                assert(whole[2 * k] == first[2 * k]);
                assert(whole[2 * k + 1] == first[2 * k + 1]);
            } else {
                assert(2 * k == first.len());
            }
        }
        assert(search_args(paths).len() == 2 * paths.len());
    }
}

/// Each linked crate gets its own `--extern name=path` pair, in order.
pub proof fn lemma_extern_args_shape(flags: Seq<(String, String)>)
    ensures
        extern_args(flags).len() == 2 * flags.len(),
        forall|k: int| 0 <= k < flags.len() ==> (#[trigger] extern_args(flags)[2 * k]) == "--extern"@,
        forall|k: int|
            0 <= k < flags.len() ==> (#[trigger] extern_args(flags)[2 * k + 1]) == flags[k].0@ + "="@ + flags[k].1@,
    decreases flags.len(),
{
    if flags.len() > 0 {
        let front = flags.drop_last();
        lemma_extern_args_shape(front);
        let whole = extern_args(flags);
        let first = extern_args(front);
        assert(whole == first + seq!["--extern"@, flags.last().0@ + "="@ + flags.last().1@]);
        assert forall|k: int| 0 <= k < flags.len() implies (#[trigger] extern_args(flags)[2 * k]) == "--extern"@
            && extern_args(flags)[2 * k + 1] == flags[k].0@ + "="@ + flags[k].1@ by {
            if k < flags.len() - 1 {
                assert(flags[k] == front[k]);
                assert(whole[2 * k] == first[2 * k]);
                assert(whole[2 * k + 1] == first[2 * k + 1]);
            } else {
                assert(2 * k == first.len());
            }
        }
    }
}

/// The command line ends with the search paths, each behind its own `-L`,
/// then `-o`, the output and the source; the linked crates come just before
/// the search paths, each behind its own `--extern`.
pub proof fn lemma_rustc_args_tail(job: CompileJob, backend: Option<Seq<char>>)
    ensures
        ({
            let a = spec_rustc_args(job, backend);
            let n = a.len() as int;
            let paths = job.search_paths@;
            let flags = job.extern_flags@;
            let s = n - 3 - 2 * paths.len();
            let e = s - 2 * flags.len();
            &&& e >= 12
            &&& a[n - 3] == "-o"@
            &&& a[n - 2] == job.output@
            &&& a[n - 1] == job.source@
            &&& forall|k: int| 0 <= k < paths.len() ==> a[s + 2 * k] == "-L"@ && a[s + 2 * k + 1] == (#[trigger] paths[k])@
            &&& forall|k: int|
                0 <= k < flags.len() ==> a[e + 2 * k] == "--extern"@ && a[e + 2 * k + 1] == (#[trigger] flags[k]).0@
                    + "="@ + flags[k].1@
        }),
{
    let paths = job.search_paths@;
    let flags = job.extern_flags@;
    lemma_search_args_shape(paths);
    lemma_extern_args_shape(flags);
    let head = seq![
        "--edition"@,
        "2021"@,
        "--crate-type"@,
        "cdylib"@,
        "--crate-name"@,
        job.crate_name@,
        "-C"@,
        "opt-level=0"@,
        "-C"@,
        "prefer-dynamic"@,
        "-C"@,
        "incremental="@ + job.incremental_dir@,
    ];
    let back: Seq<Seq<char>> = match backend {
        Some(b) => seq!["-Z"@, "codegen-backend="@ + b],
        None => seq![],
    };
    let ex = extern_args(flags);
    let se = search_args(paths);
    let tail = seq!["-o"@, job.output@, job.source@];
    let a = spec_rustc_args(job, backend);
    assert(a == head + back + ex + se + tail);
    let e = head.len() + back.len();
    let s = e + ex.len();
    assert forall|k: int| 0 <= k < paths.len() implies a[s + 2 * k] == "-L"@ && a[s + 2 * k + 1] == (#[trigger] paths[k])@ by {
        assert(se[2 * k] == "-L"@ && se[2 * k + 1] == paths[k]@);
        assert(a[s + 2 * k] == se[2 * k]);
        assert(a[s + 2 * k + 1] == se[2 * k + 1]);
    }
    assert forall|k: int| 0 <= k < flags.len() implies a[e + 2 * k] == "--extern"@ && a[e + 2 * k + 1] == (#[trigger] flags[k]).0@ + "="@ + flags[k].1@ by {
        assert(ex[2 * k] == "--extern"@ && ex[2 * k + 1] == flags[k].0@ + "="@ + flags[k].1@);
        assert(a[e + 2 * k] == ex[2 * k]);
        assert(a[e + 2 * k + 1] == ex[2 * k + 1]);
    }
}

/// The command line starts by building crate `crate_name` as a dynamic
/// library for the 2021 edition, unoptimised, linked against the shared
/// standard library and compiled incrementally into the job's directory;
/// the code generator flag follows exactly when a backend is given, and the
/// line holds nothing besides these, the linked crates, the search paths and
/// the output and source.
pub proof fn lemma_rustc_args_head(job: CompileJob, backend: Option<Seq<char>>)
    ensures
        ({
            let a = spec_rustc_args(job, backend);
            let extra = if backend is Some { 2int } else { 0int };
            &&& a.len() == 12 + extra + 2 * job.extern_flags@.len() + 2 * job.search_paths@.len() + 3
            &&& a[0] == "--edition"@ && a[1] == "2021"@
            &&& a[2] == "--crate-type"@ && a[3] == "cdylib"@
            &&& a[4] == "--crate-name"@ && a[5] == job.crate_name@
            &&& a[6] == "-C"@ && a[7] == "opt-level=0"@
            &&& a[8] == "-C"@ && a[9] == "prefer-dynamic"@
            &&& a[10] == "-C"@ && a[11] == "incremental="@ + job.incremental_dir@
            &&& backend matches Some(b) ==> a[12] == "-Z"@ && a[13] == "codegen-backend="@ + b
        }),
{
    lemma_search_args_shape(job.search_paths@);
    lemma_extern_args_shape(job.extern_flags@);
}

fn push_str_arg(args: &mut Vec<String>, arg: &str)
    ensures
        final(args)@.map_values(|a: String| a@) == old(args)@.map_values(|a: String| a@).push(arg@),
{
    args.push(String::from_str(arg));
    proof {
        assert(final(args)@.map_values(|a: String| a@) =~= old(args)@.map_values(|a: String| a@).push(arg@));
    }
}

fn push_joined_arg(args: &mut Vec<String>, first: &str, second: &str)
    ensures
        final(args)@.map_values(|a: String| a@) == old(args)@.map_values(|a: String| a@).push(first@ + second@),
{
    let mut arg = String::from_str(first);
    arg.append(second);
    args.push(arg);
    proof {
        assert(final(args)@.map_values(|a: String| a@) =~= old(args)@.map_values(|a: String| a@).push(
            first@ + second@,
        ));
    }
}

/// The command line for building `job`.
pub fn rustc_args(job: &CompileJob, backend: Option<&str>) -> (r: Vec<String>)
    ensures
        r@.map_values(|a: String| a@) == spec_rustc_args(
            *job,
            match backend {
                Some(b) => Some(b@),
                None => None,
            },
        ),
{
    let mut args: Vec<String> = Vec::new();
    push_str_arg(&mut args, "--edition");
    push_str_arg(&mut args, "2021");
    push_str_arg(&mut args, "--crate-type");
    push_str_arg(&mut args, "cdylib");
    push_str_arg(&mut args, "--crate-name");
    push_str_arg(&mut args, job.crate_name.as_str());
    push_str_arg(&mut args, "-C");
    push_str_arg(&mut args, "opt-level=0");
    push_str_arg(&mut args, "-C");
    push_str_arg(&mut args, "prefer-dynamic");
    push_str_arg(&mut args, "-C");
    push_joined_arg(&mut args, "incremental=", job.incremental_dir.as_str());
    // Cranelift where supported
    if let Some(b) = backend {
        push_str_arg(&mut args, "-Z");
        push_joined_arg(&mut args, "codegen-backend=", b);
    }
    let ghost before_externs = args@.map_values(|a: String| a@);
    let mut i: usize = 0;
    while i < job.extern_flags.len()
        invariant
            i <= job.extern_flags@.len(),
            args@.map_values(|a: String| a@) == before_externs + extern_args(job.extern_flags@.take(i as int)),
        decreases job.extern_flags@.len() - i,
    {
        let ghost mid = args@.map_values(|a: String| a@);
        let (name, path) = &job.extern_flags[i];
        push_str_arg(&mut args, "--extern");
        let mut flag = name.clone();
        flag.append("=");
        flag.append(path.as_str());
        let ghost flag_text = flag@;
        args.push(flag);
        proof {
            let flags = job.extern_flags@;
            assert(flags.take(i + 1).drop_last() =~= flags.take(i as int));
            assert(flags.take(i + 1).last() == flags[i as int]);
            assert(flag_text == flags[i as int].0@ + "="@ + flags[i as int].1@);
            assert(args@.map_values(|a: String| a@) =~= mid.push("--extern"@).push(flag_text));
            assert(args@.map_values(|a: String| a@) =~= before_externs + extern_args(flags.take(i + 1)));
        }
        i = i + 1;
    }
    proof {
        assert(job.extern_flags@.take(job.extern_flags@.len() as int) =~= job.extern_flags@);
    }
    let ghost before_search = args@.map_values(|a: String| a@);
    let mut i: usize = 0;
    while i < job.search_paths.len()
        invariant
            i <= job.search_paths@.len(),
            args@.map_values(|a: String| a@) == before_search + search_args(job.search_paths@.take(i as int)),
        decreases job.search_paths@.len() - i,
    {
        push_str_arg(&mut args, "-L");
        push_str_arg(&mut args, job.search_paths[i].as_str());
        proof {
            let paths = job.search_paths@;
            assert(paths.take(i + 1).drop_last() =~= paths.take(i as int));
            assert(args@.map_values(|a: String| a@) =~= before_search + search_args(paths.take(i + 1)));
        }
        i = i + 1;
    }
    proof {
        assert(job.search_paths@.take(job.search_paths@.len() as int) =~= job.search_paths@);
    }
    push_str_arg(&mut args, "-o");
    push_str_arg(&mut args, job.output.as_str());
    push_str_arg(&mut args, job.source.as_str());
    proof {
        assert(args@.map_values(|a: String| a@) =~= spec_rustc_args(
            *job,
            match backend {
                Some(b) => Some(b@),
                None => None,
            },
        ));
    }
    args
}

/// The kinds of websocket message a client can receive.
#[derive(Clone, Copy, Debug, PartialEq, Eq, Structural)]
pub enum ServerMessageKind {
    Text,
    Binary,
    Close,
    Ping,
    Pong,
}

/// What the client's listener does with a received message.
#[derive(Clone, Copy, Debug, PartialEq, Eq, Structural)]
pub enum ListenerAction {
    /// Skip the message.
    Ignore,
    /// Stop listening: the server closed the connection.
    Stop,
    /// Answer a ping with a pong carrying the same data.
    Pong,
    /// Parse the text as a `WeaverMessage` and queue it.
    Parse,
}

/// The listener first skips every message that carries no data (text or
/// binary), so closes and pings are skipped too; of the data messages only
/// text is parsed.
pub fn listener_action(kind: ServerMessageKind) -> (r: ListenerAction)
    ensures
        kind == ServerMessageKind::Text ==> r == ListenerAction::Parse,
        kind != ServerMessageKind::Text ==> r == ListenerAction::Ignore,
{
    let is_data = kind == ServerMessageKind::Text || kind == ServerMessageKind::Binary;
    if !is_data {
        return ListenerAction::Ignore;
    }
    if kind == ServerMessageKind::Close {
        return ListenerAction::Stop;
    }
    if kind == ServerMessageKind::Ping {
        return ListenerAction::Pong;
    }
    if kind != ServerMessageKind::Text {
        return ListenerAction::Ignore;
    }
    ListenerAction::Parse
}

/// `text` starts with `prefix`.
pub open spec fn has_prefix(text: Seq<char>, prefix: Seq<char>) -> bool {
    prefix.len() <= text.len() && text.subrange(0, prefix.len() as int) == prefix
}

/// `text` ends with `suffix`.
pub open spec fn has_suffix(text: Seq<char>, suffix: Seq<char>) -> bool {
    suffix.len() <= text.len() && text.subrange(text.len() - suffix.len(), text.len() as int) == suffix
}

fn matches_at(text: &str, text_len: usize, pattern: &str, start: usize) -> (r: bool)
    requires
        text_len == text@.len(),
        start + pattern@.len() <= text_len,
    ensures
        r == (text@.subrange(start as int, start + pattern@.len()) == pattern@),
{
    let n = pattern.unicode_len();
    let mut i: usize = 0;
    while i < n
        invariant
            n == pattern@.len(),
            text_len == text@.len(),
            start + n <= text_len,
            i <= n,
            forall|j: int| 0 <= j < i ==> text@[start + j] == pattern@[j],
        decreases n - i,
    {
        if text.get_char(start + i) != pattern.get_char(i) {
            proof {
                assert(text@.subrange(start as int, start + n)[i as int] != pattern@[i as int]);
            }
            return false;
        }
        i = i + 1;
    }
    proof {
        assert(text@.subrange(start as int, start + n) =~= pattern@);
    }
    true
}

/// A file of the toolchain's standard library that a hot-reload directory
/// needs: `std-*.dll` or `std-*.pdb`.
pub fn is_std_runtime_file(name: &str) -> (r: bool)
    ensures
        r == (has_prefix(name@, "std-"@) && (has_suffix(name@, ".dll"@) || has_suffix(name@, ".pdb"@))),
{
    proof {
        reveal_strlit("std-");
        reveal_strlit(".dll");
        reveal_strlit(".pdb");
    }
    let len = name.unicode_len();
    if len < 4 {
        return false;
    }
    let starts = matches_at(name, len, "std-", 0);
    let dll = matches_at(name, len, ".dll", len - 4);
    let pdb = matches_at(name, len, ".pdb", len - 4);
    starts && (dll || pdb)
}

} // verus!
