use vstd::prelude::*;
use crate::args::{command, command_spec, split_args, split_args_inverts_command, split_spec};
use crate::launcher::proxy_args_spec;
use crate::paths::{file_name_is, has_file_name, join_path, join_relative, path_key, same_path, search_key, search_key_exec};
use crate::session::{compiler_args, compiler_args_spec, Session};
use crate::text::{contains_chars, contains_seq};

verus! {

/// What the hooked process-creation call does with one request.
pub enum CreateAction {
    /// Run the request unchanged.
    PassThrough,
    /// Run the compiler proxy instead: the application and its command line.
    Redirect(String, String),
    /// Run the request with the hook injected into the child.
    Inject,
    /// Refuse the request: no session could be loaded, and an unhooked child
    /// could silently run Unity's own compiler.
    Refuse,
}

/// [`CreateAction`] over plain values.
pub enum CreateDecision {
    PassThrough,
    Redirect(Seq<char>, Seq<char>),
    Inject,
    Refuse,
}

impl View for CreateAction {
    type V = CreateDecision;

    open spec fn view(&self) -> CreateDecision {
        match self {
            CreateAction::PassThrough => CreateDecision::PassThrough,
            CreateAction::Redirect(a, c) => CreateDecision::Redirect(a@, c@),
            CreateAction::Inject => CreateDecision::Inject,
            CreateAction::Refuse => CreateDecision::Refuse,
        }
    }
}

/// The session file's name.
pub open spec fn session_json() -> Seq<char> {
    seq!['s', 'e', 's', 's', 'i', 'o', 'n', '.', 'j', 's', 'o', 'n']
}

/// The command line that runs the compiler proxy for the compiler arguments `c`.
pub open spec fn proxy_command(session: Session, c: Seq<Seq<char>>) -> Seq<char> {
    command_spec(
        seq![
            session.proxy@,
            seq!['-', '-', 's', 'e', 's', 's', 'i', 'o', 'n'],
            join_relative(session.directory@, session_json()),
            seq!['-', '-'],
        ] + c,
    )
}

/// Whether a request runs Unity's compiler through `cmd.exe`: the application
/// is `cmd.exe` and the command line names Unity's `csc.dll` (compared with `/`
/// as `\` and in lower case).
pub open spec fn is_compiler_shell(application: Seq<char>, raw: Seq<char>, original_csc: Seq<char>) -> bool {
    has_file_name(application, seq!['c', 'm', 'd', '.', 'e', 'x', 'e']) && contains_seq(
        search_key(raw),
        search_key(original_csc),
    )
}

/// Whether the hook follows `application` into its children: Unity's build
/// backend, or a program the session names.
pub open spec fn propagates_to(session: Session, application: Seq<char>) -> bool {
    ||| path_key(application) == path_key(session.bee@)
    ||| exists|i: int| 0 <= i < session.extra_propagate@.len() && path_key(application) == path_key(
        #[trigger] session.extra_propagate@[i]@,
    )
}

/// What to do with a request to start `app` (`None` when not given) with the
/// command line `raw`: a command line that does not split runs unchanged; one
/// that runs Unity's own `dotnet exec csc.dll`, with that `dotnet` as the
/// application, runs the compiler proxy on the same compiler arguments; a
/// `cmd.exe` that runs Unity's compiler, Unity's build backend and the programs
/// the session names get the hook; everything else runs unchanged.
pub open spec fn plan_spec(session: Session, app: Option<Seq<char>>, raw: Seq<char>) -> CreateDecision {
    match split_spec(raw, false) {
        None => CreateDecision::PassThrough,
        Some(args) => {
            let application = match app {
                Some(a) => a,
                None => if args.len() > 0 {
                    args[0]
                } else {
                    seq![]
                },
            };
            match compiler_args_spec(args, session.original_dotnet@, session.original_csc@) {
                Some(c) if path_key(application) == path_key(session.original_dotnet@) => CreateDecision::Redirect(
                    session.proxy@,
                    proxy_command(session, c),
                ),
                _ => if is_compiler_shell(application, raw, session.original_csc@) || propagates_to(
                    session,
                    application,
                ) {
                    CreateDecision::Inject
                } else {
                    CreateDecision::PassThrough
                },
            }
        },
    }
}

fn propagates_exec(session: &Session, application: &str) -> (r: bool)
    ensures
        r == propagates_to(*session, application@),
{
    if same_path(application, session.bee.as_str()) {
        return true;
    }
    let mut i: usize = 0;
    while i < session.extra_propagate.len()
        invariant
            i <= session.extra_propagate@.len(),
            forall|j: int| 0 <= j < i ==> path_key(application@) != path_key(
                #[trigger] session.extra_propagate@[j]@,
            ),
        decreases session.extra_propagate.len() - i,
    {
        if same_path(application, session.extra_propagate[i].as_str()) {
            return true;
        }
        i = i + 1;
    }
    false
}

/// Decides what the hooked process creation does with a request to start
/// `app` (`None` when not given) with the command line `cmd`.
pub fn plan_create_process(session: &Session, app: Option<&str>, cmd: &str) -> (r: CreateAction)
    ensures
        r@ == plan_spec(
            *session,
            match app {
                Some(a) => Some(a@),
                None => None,
            },
            cmd@,
        ),
{
    let args = match split_args(cmd, false) {
        Ok(a) => a,
        Err(_) => {
            return CreateAction::PassThrough;
        },
    };
    let application: String = match app {
        Some(a) => String::from_str(a),
        None => if args.len() > 0 {
            args[0].clone()
        } else {
            String::new()
        },
    };
    assert(args.len() > 0 ==> args.deep_view()[0] == args@[0]@);
    match compiler_args(args.as_slice(), session) {
        Some(c) => {
            if same_path(application.as_str(), session.original_dotnet.as_str()) {
                let mut replacement: Vec<String> = Vec::new();
                replacement.push(session.proxy.clone());
                replacement.push(String::from_str("--session"));
                proof {
                    reveal_strlit("--session");
                    reveal_strlit("session.json");
                    reveal_strlit("--");
                }
                assert("--session"@ =~= seq!['-', '-', 's', 'e', 's', 's', 'i', 'o', 'n']);
                assert("session.json"@ =~= session_json());
                assert("--"@ =~= seq!['-', '-']);
                replacement.push(join_path(session.directory.as_str(), "session.json"));
                replacement.push(String::from_str("--"));
                let ghost head = replacement.deep_view();
                let mut i: usize = 0;
                while i < c.len()
                    invariant
                        i <= c.len(),
                        replacement.deep_view() == head + c.deep_view().take(i as int),
                    decreases c.len() - i,
                {
                    let ghost b = replacement.deep_view();
                    replacement.push(c[i].clone());
                    assert(replacement.deep_view() =~= b.push(c[i as int]@));
                    assert(c.deep_view().take(i + 1) =~= c.deep_view().take(i as int).push(c[i as int]@));
                    i = i + 1;
                }
                assert(c.deep_view().take(c.len() as int) =~= c.deep_view());
                assert(head =~~= seq![
                    session.proxy@,
                    seq!['-', '-', 's', 'e', 's', 's', 'i', 'o', 'n'],
                    join_relative(session.directory@, session_json()),
                    seq!['-', '-'],
                ]);
                let line = command(replacement.as_slice());
                return CreateAction::Redirect(session.proxy.clone(), line);
            }
        },
        None => {},
    }
    let cmd_exe = vec!['c', 'm', 'd', '.', 'e', 'x', 'e'];
    assert(cmd_exe@ =~= seq!['c', 'm', 'd', '.', 'e', 'x', 'e']);
    let shell = file_name_is(application.as_str(), &cmd_exe) && contains_chars(
        &search_key_exec(cmd),
        &search_key_exec(session.original_csc.as_str()),
    );
    if shell || propagates_exec(session, application.as_str()) {
        CreateAction::Inject
    } else {
        CreateAction::PassThrough
    }
}


/// Decides what the hooked wide process creation does with a request, under
/// the session when one could be loaded: without one every request is
/// refused; with one, [`plan_create_process`] decides.
pub fn plan_hooked_request(session: Option<&Session>, app: Option<&str>, cmd: &str) -> (r: CreateAction)
    ensures
        match session {
            None => r@ == CreateDecision::Refuse,
            Some(s) => r@ == plan_spec(
                *s,
                match app {
                    Some(a) => Some(a@),
                    None => None,
                },
                cmd@,
            ),
        },
{
    match session {
        None => CreateAction::Refuse,
        Some(s) => plan_create_process(s, app, cmd),
    }
}


/// Whether an ANSI process-creation request concerns this session: the
/// application and command line, joined by a space, name Unity's compiler, its
/// build backend or a program the session names (compared by [`search_key`]).
pub open spec fn ansi_request_matches(session: Session, app: Seq<char>, cmd: Seq<char>) -> bool {
    let candidate = search_key(app + seq![' '] + cmd);
    ||| contains_seq(candidate, search_key(session.original_csc@))
    ||| contains_seq(candidate, search_key(session.bee@))
    ||| exists|i: int| 0 <= i < session.extra_propagate@.len() && contains_seq(
        candidate,
        search_key(#[trigger] session.extra_propagate@[i]@),
    )
}

/// Whether the hook takes over an ANSI process-creation request with the
/// application text `app` and command line `cmd`; others run byte for byte as given.
pub fn ansi_request_matches_exec(session: &Session, app: &str, cmd: &str) -> (r: bool)
    ensures
        r == ansi_request_matches(*session, app@, cmd@),
{
    let mut joined = String::from_str(app);
    proof {
        reveal_strlit(" ");
    }
    joined.append(" ");
    joined.append(cmd);
    assert(joined@ =~= app@ + seq![' '] + cmd@);
    let candidate = search_key_exec(joined.as_str());
    if contains_chars(&candidate, &search_key_exec(session.original_csc.as_str())) {
        return true;
    }
    if contains_chars(&candidate, &search_key_exec(session.bee.as_str())) {
        return true;
    }
    let mut i: usize = 0;
    while i < session.extra_propagate.len()
        invariant
            i <= session.extra_propagate@.len(),
            candidate@ == search_key(app@ + seq![' '] + cmd@),
            forall|j: int| 0 <= j < i ==> !contains_seq(
                candidate@,
                search_key(#[trigger] session.extra_propagate@[j]@),
            ),
        decreases session.extra_propagate.len() - i,
    {
        if contains_chars(&candidate, &search_key_exec(session.extra_propagate[i].as_str())) {
            return true;
        }
        i = i + 1;
    }
    false
}


/// `EXTENDED_STARTUPINFO_PRESENT`: the start-up information is a `STARTUPINFOEX`.
pub const EXTENDED_STARTUPINFO_PRESENT: u32 = 0x80000;

/// Why the hook refuses an ANSI request that it takes over.
pub enum AnsiRefusal {
    /// No start-up information was given.
    MissingStartupInfo,
    /// The start-up information is a `STARTUPINFOEX`, whose attribute list a
    /// conversion to the wide form would cut off.
    ExtendedStartupInfo,
}

/// What the hook does with an ANSI process-creation request.
pub enum AnsiAction {
    /// Run it byte for byte as given.
    PassThrough,
    /// Refuse it.
    Refuse(AnsiRefusal),
    /// Convert it to the wide form and handle it as a wide request.
    Convert,
}

/// What to do with an ANSI request to start `app` with the command line
/// `cmd` (as wide text), with start-up information when `has_startup` and the
/// creation flags `flags`, under `session` when one could be loaded: a request
/// that does not concern the session runs as given; one that does, or any when
/// no session was loaded, is refused without start-up information or with a
/// `STARTUPINFOEX`, and is converted otherwise.
pub open spec fn ansi_plan_spec(
    session: Option<Session>,
    app: Seq<char>,
    cmd: Seq<char>,
    has_startup: bool,
    flags: u32,
) -> AnsiAction {
    if session matches Some(s) && !ansi_request_matches(s, app, cmd) {
        AnsiAction::PassThrough
    } else if !has_startup {
        AnsiAction::Refuse(AnsiRefusal::MissingStartupInfo)
    } else if flags & EXTENDED_STARTUPINFO_PRESENT != 0 {
        AnsiAction::Refuse(AnsiRefusal::ExtendedStartupInfo)
    } else {
        AnsiAction::Convert
    }
}

/// Decides what the hooked ANSI process creation does with one request.
pub fn plan_ansi_request(session: Option<&Session>, app: &str, cmd: &str, has_startup: bool, flags: u32) -> (r:
    AnsiAction)
    ensures
        r == ansi_plan_spec(
            match session {
                Some(s) => Some(*s),
                None => None,
            },
            app@,
            cmd@,
            has_startup,
            flags,
        ),
{
    if let Some(s) = session {
        if !ansi_request_matches_exec(s, app, cmd) {
            return AnsiAction::PassThrough;
        }
    }
    if !has_startup {
        AnsiAction::Refuse(AnsiRefusal::MissingStartupInfo)
    } else if flags & EXTENDED_STARTUPINFO_PRESENT != 0 {
        AnsiAction::Refuse(AnsiRefusal::ExtendedStartupInfo)
    } else {
        AnsiAction::Convert
    }
}


/// A request that is redirected runs the compiler proxy with a command line
/// from which the proxy reads back this session's file and exactly the
/// compiler arguments that Unity gave its own compiler.
pub proof fn redirect_hands_proxy_the_compiler_args(session: Session, app: Option<Seq<char>>, raw: Seq<char>)
    requires
        plan_spec(session, app, raw) is Redirect,
    ensures
        ({
            let args = split_spec(raw, false)->0;
            let c = compiler_args_spec(args, session.original_dotnet@, session.original_csc@)->0;
            let line = plan_spec(session, app, raw)->Redirect_1;
            let program_args = split_spec(line, false)->0;
            &&& split_spec(line, false) is Some
            &&& program_args[0] == session.proxy@
            &&& proxy_args_spec(program_args.drop_first()) == Some(
                (join_relative(session.directory@, session_json()), c),
            )
        }),
{
    let args = split_spec(raw, false)->0;
    let c = compiler_args_spec(args, session.original_dotnet@, session.original_csc@)->0;
    let all = seq![
        session.proxy@,
        seq!['-', '-', 's', 'e', 's', 's', 'i', 'o', 'n'],
        join_relative(session.directory@, session_json()),
        seq!['-', '-'],
    ] + c;
    split_args_inverts_command(all, false);
    assert(all.drop_first().skip(3) =~= c);
    assert(all.drop_first()[0] == all[1]);
    assert(all.drop_first()[2] == all[3]);
}

/// Every run of Unity's own compiler is redirected to the compiler proxy: a
/// command line that splits into `<Unity dotnet> exec <Unity csc.dll> ARGS...`
/// runs the proxy on `ARGS`, whether the application is not given (so the
/// command line's first argument is the program) or is given as Unity's
/// `dotnet` in any spelling that names the same file. A request whose given
/// application is some other program is never redirected.
pub proof fn unity_compiler_runs_are_redirected(session: Session, app: Option<Seq<char>>, raw: Seq<char>)
    ensures
        ({
            let args = split_spec(raw, false);
            let runs_compiler = args is Some && compiler_args_spec(args->0, session.original_dotnet@, session.original_csc@) is Some;
            &&& (runs_compiler && (app is None || path_key(app->0) == path_key(session.original_dotnet@))) ==> plan_spec(
                session,
                app,
                raw,
            ) == CreateDecision::Redirect(
                session.proxy@,
                proxy_command(session, compiler_args_spec(args->0, session.original_dotnet@, session.original_csc@)->0),
            )
            &&& (app is Some && path_key(app->0) != path_key(session.original_dotnet@)) ==> plan_spec(session, app, raw) !is Redirect
            &&& !runs_compiler ==> plan_spec(session, app, raw) !is Redirect
        }),
{
}

/// The hooked ANSI entry takes over every request that concerns the session:
/// one whose application and command line, joined by a space, name Unity's
/// compiler (`csc.dll`), its build backend, or a program the session names
/// (compared with `/` as `\` and in lower case). With start-up information and
/// no `STARTUPINFOEX` it is converted and handled as a wide request; a
/// request that names none of them runs byte for byte as given.
pub proof fn ansi_requests_for_the_session_are_taken_over(
    session: Session,
    app: Seq<char>,
    cmd: Seq<char>,
    has_startup: bool,
    flags: u32,
)
    ensures
        ({
            let candidate = search_key(app + seq![' '] + cmd);
            let names_program = contains_seq(candidate, search_key(session.original_csc@)) || contains_seq(
                candidate,
                search_key(session.bee@),
            ) || exists|i: int| 0 <= i < session.extra_propagate@.len() && contains_seq(
                candidate,
                search_key(#[trigger] session.extra_propagate@[i]@),
            );
            let plan = ansi_plan_spec(Some(session), app, cmd, has_startup, flags);
            &&& contains_seq(candidate, search_key(session.original_csc@)) ==> ansi_request_matches(session, app, cmd)
            &&& contains_seq(candidate, search_key(session.bee@)) ==> ansi_request_matches(session, app, cmd)
            &&& forall|i: int| 0 <= i < session.extra_propagate@.len() && contains_seq(
                candidate,
                search_key(#[trigger] session.extra_propagate@[i]@),
            ) ==> ansi_request_matches(session, app, cmd)
            &&& names_program ==> plan !is PassThrough
            &&& names_program && has_startup && flags & EXTENDED_STARTUPINFO_PRESENT == 0 ==> plan == AnsiAction::Convert
            &&& !names_program ==> plan == AnsiAction::PassThrough
        }),
{
}

/// The hook follows Unity's build into the processes that may run the
/// compiler, and no further: a request (that splits and does not run Unity's
/// compiler) for Unity's build backend, for a program the session names, or
/// for a `cmd.exe` whose command line names Unity's `csc.dll` gets the hook;
/// a request for any other program runs unchanged.
pub proof fn hook_follows_the_build(session: Session, app: Option<Seq<char>>, raw: Seq<char>)
    ensures
        ({
            let args = split_spec(raw, false);
            let application = match app {
                Some(a) => a,
                None => if args is Some && args->0.len() > 0 {
                    args->0[0]
                } else {
                    seq![]
                },
            };
            let plain = args is Some && compiler_args_spec(args->0, session.original_dotnet@, session.original_csc@) is None;
            &&& plain && path_key(application) == path_key(session.bee@) ==> plan_spec(session, app, raw)
                == CreateDecision::Inject
            &&& plain && (exists|i: int| 0 <= i < session.extra_propagate@.len() && path_key(application)
                == path_key(#[trigger] session.extra_propagate@[i]@)) ==> plan_spec(session, app, raw)
                == CreateDecision::Inject
            &&& plain && has_file_name(application, seq!['c', 'm', 'd', '.', 'e', 'x', 'e']) && contains_seq(
                search_key(raw),
                search_key(session.original_csc@),
            ) ==> plan_spec(session, app, raw) == CreateDecision::Inject
            &&& plain && path_key(application) != path_key(session.bee@) && (forall|i: int|
                0 <= i < session.extra_propagate@.len() ==> path_key(application) != path_key(
                    #[trigger] session.extra_propagate@[i]@,
                )) && !(has_file_name(application, seq!['c', 'm', 'd', '.', 'e', 'x', 'e']) && contains_seq(
                search_key(raw),
                search_key(session.original_csc@),
            )) ==> plan_spec(session, app, raw) == CreateDecision::PassThrough
            &&& args is None ==> plan_spec(session, app, raw) == CreateDecision::PassThrough
        }),
{
}

} // verus!
