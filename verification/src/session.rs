use vstd::prelude::*;
use crate::options::{word_exec_matches};
use crate::paths::{path_key, same_path};
use crate::text::eq_ignore_case;

verus! {

/// The name of the environment variable that carries a launch session's file.
pub const SESSION_ENV: &'static str = "UNITY_ROSLYN_SESSION";

/// The launcher's configuration. Paths are held as text.
pub struct Config {
    /// The Unity editor; empty when it is to be found from the project's version.
    pub unity: String,
    /// The `dotnet` host that runs the replacement compiler.
    pub dotnet: String,
    /// The replacement compiler, `csc.dll`.
    pub csc: String,
    /// The default C# language version of project assemblies.
    pub lang_version: String,
    /// Whether IDE project files are kept at the same language version.
    pub sync_ide: bool,
}

/// What one launch of Unity shares with its hook and compiler proxy.
pub struct Session {
    pub config: Config,
    pub project: String,
    pub hook: String,
    pub proxy: String,
    pub directory: String,
    pub original_csc: String,
    pub original_dotnet: String,
    pub bee: String,
    pub extra_propagate: Vec<String>,
}

/// Whether IDE synchronisation is on when the configuration does not say.
pub fn default_sync_ide() -> (r: bool)
    ensures
        r,
{
    true
}

/// The word `exec`.
pub open spec fn word_exec() -> Seq<char> {
    seq!['e', 'x', 'e', 'c']
}

/// The compiler arguments of a command line that runs Unity's own compiler
/// (`<Unity dotnet> exec <Unity csc.dll> ARGS...`, paths compared by
/// [`same_path`], `exec` without ASCII case): `ARGS`; otherwise `None`.
pub open spec fn compiler_args_spec(
    args: Seq<Seq<char>>,
    original_dotnet: Seq<char>,
    original_csc: Seq<char>,
) -> Option<Seq<Seq<char>>> {
    if args.len() >= 3 && path_key(args[0]) == path_key(original_dotnet) && eq_ignore_case(args[1], word_exec())
        && path_key(args[2]) == path_key(original_csc) {
        Some(args.skip(3))
    } else {
        None
    }
}

/// The arguments that Unity hands its own compiler, when `args` runs it.
pub fn compiler_args(args: &[String], session: &Session) -> (r: Option<Vec<String>>)
    ensures
        match r {
            Some(v) => compiler_args_spec(args.deep_view(), session.original_dotnet@, session.original_csc@)
                == Some(v.deep_view()),
            None => compiler_args_spec(args.deep_view(), session.original_dotnet@, session.original_csc@) is None,
        },
{
    if args.len() >= 3 && same_path(args[0].as_str(), session.original_dotnet.as_str()) && word_exec_matches(
        args[1].as_str(),
    ) && same_path(args[2].as_str(), session.original_csc.as_str()) {
        let mut out: Vec<String> = Vec::new();
        let mut i: usize = 3;
        while i < args.len()
            invariant
                3 <= i <= args.len(),
                out.deep_view() == args.deep_view().subrange(3, i as int),
            decreases args.len() - i,
        {
            let ghost before = out.deep_view();
            out.push(args[i].clone());
            assert(out.deep_view() =~= before.push(args[i as int]@));
            i = i + 1;
            assert(out.deep_view() =~= args.deep_view().subrange(3, i as int));
        }
        assert(args.deep_view().skip(3) =~= args.deep_view().subrange(3, args.len() as int));
        Some(out)
    } else {
        None
    }
}

/// Unity's own compiler run, `<dotnet> exec <csc.dll> REST...` with its paths
/// in any spelling that names the same files and `exec` in any ASCII case,
/// yields exactly `REST`; a command line whose first three arguments are not
/// those (or that has fewer) yields none.
pub proof fn compiler_run_yields_its_arguments(
    d: Seq<char>,
    e: Seq<char>,
    c: Seq<char>,
    rest: Seq<Seq<char>>,
    dotnet: Seq<char>,
    csc: Seq<char>,
    short: Seq<Seq<char>>,
)
    ensures
        path_key(d) == path_key(dotnet) && eq_ignore_case(e, word_exec()) && path_key(c) == path_key(csc)
            ==> compiler_args_spec(seq![d, e, c] + rest, dotnet, csc) == Some(rest),
        path_key(d) != path_key(dotnet) ==> compiler_args_spec(seq![d, e, c] + rest, dotnet, csc) is None,
        path_key(c) != path_key(csc) ==> compiler_args_spec(seq![d, e, c] + rest, dotnet, csc) is None,
        !eq_ignore_case(e, word_exec()) ==> compiler_args_spec(seq![d, e, c] + rest, dotnet, csc) is None,
        short.len() < 3 ==> compiler_args_spec(short, dotnet, csc) is None,
{
    let all = seq![d, e, c] + rest;
    assert(all[0] == d && all[1] == e && all[2] == c);
    assert(all.skip(3) =~= rest);
}

} // verus!
