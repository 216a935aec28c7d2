use vstd::prelude::*;
use crate::error::LauncherError;
use crate::paths::{is_path_sep, join_path, join_relative, trim_verbatim, verbatim_prefix};
use crate::text::{chars_of, copy_chars, is_whitespace, is_ws, lines_of, split_at_char, split_char, string_of_range, strip_cr, trim_range, trim_ws};

verus! {

/// What the launcher's command line asks for.
pub struct LaunchOptions {
    /// `--project DIR`: the Unity project, else found from the current directory.
    pub project: Option<String>,
    /// `--config FILE`: the configuration, else found beside the project or the launcher.
    pub config: Option<String>,
    /// `--wait`: wait for Unity and return its exit code.
    pub wait: bool,
    /// `--dry-run`: check the configuration only.
    pub dry_run: bool,
    /// `--self-test`: run the injection chain probe.
    pub self_test: bool,
    /// `--rebuild`: archive the compilation caches whatever the fingerprint.
    pub rebuild: bool,
    /// The arguments after `--`, handed to Unity.
    pub unity_args: Vec<String>,
}

/// [`LaunchOptions`] over plain values.
pub struct LaunchPlan {
    pub project: Option<Seq<char>>,
    pub config: Option<Seq<char>>,
    pub wait: bool,
    pub dry_run: bool,
    pub self_test: bool,
    pub rebuild: bool,
    pub unity_args: Seq<Seq<char>>,
}

/// The launcher's command, or why its command line was refused.
pub enum LauncherCommand {
    /// `--help` or `-h`: print the usage.
    Help,
    /// Launch with these options.
    Launch(LaunchOptions),
    /// `--project` is last, with no directory after it.
    MissingProjectPath,
    /// `--config` is last, with no file after it.
    MissingConfigPath,
    /// An argument the launcher does not know.
    UnknownArgument(String),
}

/// [`LauncherCommand`] over plain values.
pub enum LauncherCommandSpec {
    Help,
    Launch(LaunchPlan),
    MissingProjectPath,
    MissingConfigPath,
    UnknownArgument(Seq<char>),
}

impl View for LaunchOptions {
    type V = LaunchPlan;

    open spec fn view(&self) -> LaunchPlan {
        LaunchPlan {
            project: match self.project {
                Some(p) => Some(p@),
                None => None,
            },
            config: match self.config {
                Some(c) => Some(c@),
                None => None,
            },
            wait: self.wait,
            dry_run: self.dry_run,
            self_test: self.self_test,
            rebuild: self.rebuild,
            unity_args: self.unity_args.deep_view(),
        }
    }
}

impl View for LauncherCommand {
    type V = LauncherCommandSpec;

    open spec fn view(&self) -> LauncherCommandSpec {
        match self {
            LauncherCommand::Help => LauncherCommandSpec::Help,
            LauncherCommand::Launch(o) => LauncherCommandSpec::Launch(o@),
            LauncherCommand::MissingProjectPath => LauncherCommandSpec::MissingProjectPath,
            LauncherCommand::MissingConfigPath => LauncherCommandSpec::MissingConfigPath,
            LauncherCommand::UnknownArgument(a) => LauncherCommandSpec::UnknownArgument(a@),
        }
    }
}

pub open spec fn flag_help() -> Seq<char> {
    seq!['-', '-', 'h', 'e', 'l', 'p']
}

pub open spec fn flag_h() -> Seq<char> {
    seq!['-', 'h']
}

pub open spec fn flag_project() -> Seq<char> {
    seq!['-', '-', 'p', 'r', 'o', 'j', 'e', 'c', 't']
}

pub open spec fn flag_config() -> Seq<char> {
    seq!['-', '-', 'c', 'o', 'n', 'f', 'i', 'g']
}

pub open spec fn flag_wait() -> Seq<char> {
    seq!['-', '-', 'w', 'a', 'i', 't']
}

pub open spec fn flag_dry_run() -> Seq<char> {
    seq!['-', '-', 'd', 'r', 'y', '-', 'r', 'u', 'n']
}

pub open spec fn flag_self_test() -> Seq<char> {
    seq!['-', '-', 's', 'e', 'l', 'f', '-', 't', 'e', 's', 't']
}

pub open spec fn flag_rebuild() -> Seq<char> {
    seq!['-', '-', 'r', 'e', 'b', 'u', 'i', 'l', 'd']
}

/// The launcher's command line from position `i` on, with the options read so
/// far in `st`. Options are read left to right; `--help` or `-h` wins where it
/// stands; `--` hands everything after it to Unity.
pub open spec fn parse_from(args: Seq<Seq<char>>, i: int, st: LaunchPlan) -> LauncherCommandSpec
    decreases args.len() - i,
{
    if i < 0 || i >= args.len() {
        LauncherCommandSpec::Launch(st)
    } else {
        let a = args[i];
        if a == flag_help() || a == flag_h() {
            LauncherCommandSpec::Help
        } else if a == flag_project() {
            if i + 1 < args.len() {
                parse_from(args, i + 2, LaunchPlan { project: Some(args[i + 1]), ..st })
            } else {
                LauncherCommandSpec::MissingProjectPath
            }
        } else if a == flag_config() {
            if i + 1 < args.len() {
                parse_from(args, i + 2, LaunchPlan { config: Some(args[i + 1]), ..st })
            } else {
                LauncherCommandSpec::MissingConfigPath
            }
        } else if a == flag_wait() {
            parse_from(args, i + 1, LaunchPlan { wait: true, ..st })
        } else if a == flag_dry_run() {
            parse_from(args, i + 1, LaunchPlan { dry_run: true, ..st })
        } else if a == flag_self_test() {
            parse_from(args, i + 1, LaunchPlan { self_test: true, ..st })
        } else if a == flag_rebuild() {
            parse_from(args, i + 1, LaunchPlan { rebuild: true, ..st })
        } else if a == seq!['-', '-'] {
            LauncherCommandSpec::Launch(LaunchPlan { unity_args: st.unity_args + args.skip(i + 1), ..st })
        } else {
            LauncherCommandSpec::UnknownArgument(a)
        }
    }
}

/// The options in force when none is given.
pub open spec fn default_plan() -> LaunchPlan {
    LaunchPlan {
        project: None,
        config: None,
        wait: false,
        dry_run: false,
        self_test: false,
        rebuild: false,
        unity_args: seq![],
    }
}

fn is_word(a: &str, w: &str) -> (r: bool)
    ensures
        r == (a@ == w@),
{
    let x = chars_of(a);
    let y = chars_of(w);
    assert(x@.subrange(0, x.len() as int) =~= x@);
    crate::text::eq_range(&x, 0, x.len(), &y)
}

/// Reads the launcher's command line (without the program name).
pub fn parse_launcher_args(args: &[String]) -> (r: LauncherCommand)
    ensures
        r@ == parse_from(args.deep_view(), 0, default_plan()),
{
    let mut opts = LaunchOptions {
        project: None,
        config: None,
        wait: false,
        dry_run: false,
        self_test: false,
        rebuild: false,
        unity_args: Vec::new(),
    };
    assert(opts@.unity_args =~= Seq::<Seq<char>>::empty());
    proof {
        reveal_strlit("--help");
        reveal_strlit("-h");
        reveal_strlit("--project");
        reveal_strlit("--config");
        reveal_strlit("--wait");
        reveal_strlit("--dry-run");
        reveal_strlit("--self-test");
        reveal_strlit("--rebuild");
        reveal_strlit("--");
    }
    assert("--help"@ =~= flag_help());
    assert("-h"@ =~= flag_h());
    assert("--project"@ =~= flag_project());
    assert("--config"@ =~= flag_config());
    assert("--wait"@ =~= flag_wait());
    assert("--dry-run"@ =~= flag_dry_run());
    assert("--self-test"@ =~= flag_self_test());
    assert("--rebuild"@ =~= flag_rebuild());
    assert("--"@ =~= seq!['-', '-']);
    let ghost a = args.deep_view();
    let mut i: usize = 0;
    while i < args.len()
        invariant
            i <= args.len(),
            a == args.deep_view(),
            "--help"@ == flag_help(),
            "-h"@ == flag_h(),
            "--project"@ == flag_project(),
            "--config"@ == flag_config(),
            "--wait"@ == flag_wait(),
            "--dry-run"@ == flag_dry_run(),
            "--self-test"@ == flag_self_test(),
            "--rebuild"@ == flag_rebuild(),
            "--"@ == seq!['-', '-'],
            parse_from(a, 0, default_plan()) == parse_from(a, i as int, opts@),
        decreases args.len() - i,
    {
        let arg = args[i].as_str();
        assert(a[i as int] == arg@);
        if is_word(arg, "--help") || is_word(arg, "-h") {
            return LauncherCommand::Help;
        } else if is_word(arg, "--project") {
            if i + 1 >= args.len() {
                return LauncherCommand::MissingProjectPath;
            }
            assert(a[i + 1] == args[i + 1]@);
            opts.project = Some(args[i + 1].clone());
            i = i + 2;
        } else if is_word(arg, "--config") {
            if i + 1 >= args.len() {
                return LauncherCommand::MissingConfigPath;
            }
            assert(a[i + 1] == args[i + 1]@);
            opts.config = Some(args[i + 1].clone());
            i = i + 2;
        } else if is_word(arg, "--wait") {
            opts.wait = true;
            i = i + 1;
        } else if is_word(arg, "--dry-run") {
            opts.dry_run = true;
            i = i + 1;
        } else if is_word(arg, "--self-test") {
            opts.self_test = true;
            i = i + 1;
        } else if is_word(arg, "--rebuild") {
            opts.rebuild = true;
            i = i + 1;
        } else if is_word(arg, "--") {
            let ghost before = opts.unity_args.deep_view();
            let mut pass = opts.unity_args;
            let mut j: usize = i + 1;
            while j < args.len()
                invariant
                    i < j <= args.len(),
                    a == args.deep_view(),
                    pass.deep_view() == before + a.subrange(i + 1, j as int),
                decreases args.len() - j,
            {
                let ghost b = pass.deep_view();
                pass.push(args[j].clone());
                assert(pass.deep_view() =~= b.push(args[j as int]@));
                assert(a.subrange(i + 1, j + 1) =~= a.subrange(i + 1, j as int).push(a[j as int]));
                j = j + 1;
            }
            assert(a.skip(i + 1) =~= a.subrange(i + 1, args.len() as int));
            return LauncherCommand::Launch(LaunchOptions {
                project: opts.project,
                config: opts.config,
                wait: opts.wait,
                dry_run: opts.dry_run,
                self_test: opts.self_test,
                rebuild: opts.rebuild,
                unity_args: pass,
            });
        } else {
            return LauncherCommand::UnknownArgument(args[i].clone());
        }
    }
    LauncherCommand::Launch(opts)
}


/// Whether a configured language version is a fixed number: not empty, ASCII
/// digits and dots only (so not `latest` or `preview`).
pub open spec fn valid_lang_version_spec(v: Seq<char>) -> bool {
    v.len() > 0 && forall|i: int| 0 <= i < v.len() ==> (('0' <= #[trigger] v[i] && v[i] <= '9') || v[i] == '.')
}

/// Checks a configured language version.
pub fn check_lang_version(v: &str) -> (r: Result<(), LauncherError>)
    ensures
        r is Ok <==> valid_lang_version_spec(v@),
        r matches Err(e) ==> e == LauncherError::InvalidLangVersion,
{
    let c = chars_of(v);
    if c.len() == 0 {
        return Err(LauncherError::InvalidLangVersion);
    }
    let mut i: usize = 0;
    while i < c.len()
        invariant
            i <= c.len(),
            c@ == v@,
            forall|j: int| 0 <= j < i ==> (('0' <= #[trigger] c@[j] && c@[j] <= '9') || c@[j] == '.'),
        decreases c.len() - i,
    {
        if !(('0' <= c[i] && c[i] <= '9') || c[i] == '.') {
            return Err(LauncherError::InvalidLangVersion);
        }
        i = i + 1;
    }
    Ok(())
}

/// `m_EditorVersion:`.
pub open spec fn editor_version_key() -> Seq<char> {
    seq!['m', '_', 'E', 'd', 'i', 't', 'o', 'r', 'V', 'e', 'r', 's', 'i', 'o', 'n', ':']
}

/// The position of the first line of `lines` from `i` on that starts with the
/// editor version key, or the number of lines.
pub open spec fn first_version_line(lines: Seq<Seq<char>>, i: int) -> int
    decreases lines.len() - i,
{
    if i < 0 || i >= lines.len() || (lines[i].len() >= 16 && lines[i].take(16) == editor_version_key()) {
        i
    } else {
        first_version_line(lines, i + 1)
    }
}

/// Whether a Unity version is ASCII letters, digits and dots, and not empty.
pub open spec fn valid_unity_version(v: Seq<char>) -> bool {
    v.len() > 0 && forall|i: int| 0 <= i < v.len() ==> (('0' <= #[trigger] v[i] && v[i] <= '9') || ('a' <= v[i] && v[i] <= 'z')
        || ('A' <= v[i] && v[i] <= 'Z') || v[i] == '.')
}

/// The editor version that a project's `ProjectVersion.txt` names: what follows
/// `m_EditorVersion:` on its first such line, without surrounding whitespace.
pub open spec fn editor_version_spec(text: Seq<char>) -> Result<Seq<char>, LauncherError> {
    let lines = lines_of(text);
    let k = first_version_line(lines, 0);
    if k >= lines.len() {
        Err(LauncherError::NoEditorVersion)
    } else {
        let v = trim_ws(lines[k].skip(16));
        if valid_unity_version(v) {
            Ok(v)
        } else {
            Err(LauncherError::InvalidUnityVersion)
        }
    }
}

/// Reads the editor version from the text of a project's `ProjectVersion.txt`.
pub fn editor_version(text: &str) -> (r: Result<String, LauncherError>)
    ensures
        match r {
            Ok(v) => editor_version_spec(text@) == Ok::<Seq<char>, LauncherError>(v@),
            Err(e) => editor_version_spec(text@) == Err::<Seq<char>, LauncherError>(e),
        },
{
    let chars = chars_of(text);
    let pieces = split_char(&chars, '\n');
    proof {
        crate::text::lemma_split_at_char_len(text@, '\n');
    }
    let np = pieces.len();
    let count = if pieces[np - 1].len() == 0 { np - 1 } else { np };
    let ghost lines = lines_of(text@);
    assert(lines.len() == count);
    let key = vec!['m', '_', 'E', 'd', 'i', 't', 'o', 'r', 'V', 'e', 'r', 's', 'i', 'o', 'n', ':'];
    assert(key@ =~= editor_version_key());
    let mut i: usize = 0;
    while i < count
        invariant
            i <= count,
            count <= np,
            np == pieces@.len(),
            lines == lines_of(text@),
            lines.len() == count,
            np == split_at_char(text@, '\n').len(),
            forall|j: int| 0 <= j < np ==> #[trigger] pieces@[j]@ == split_at_char(text@, '\n')[j],
            key@ == editor_version_key(),
            first_version_line(lines, i as int) == first_version_line(lines, 0),
        decreases count - i,
    {
        let piece = &pieces[i];
        let mut end = piece.len();
        if i + 1 < np && end > 0 && piece[end - 1] == '\r' {
            end = end - 1;
        }
        assert(lines[i as int] == piece@.subrange(0, end as int));
        if end >= 16 && crate::text::eq_range(piece, 0, 16, &key) {
            assert(piece@.subrange(0, end as int).take(16) =~= piece@.subrange(0, 16));
            let (a, b) = trim_range(piece, 16, end);
            assert(piece@.subrange(0, end as int).skip(16) =~= piece@.subrange(16, end as int));
            let v = copy_chars(piece, a, b);
            let mut ok = v.len() > 0;
            let mut t: usize = 0;
            while t < v.len()
                invariant
                    t <= v.len(),
                    ok == (v@.len() > 0 && forall|j: int| 0 <= j < t ==> (('0' <= #[trigger] v@[j] && v@[j] <= '9')
                        || ('a' <= v@[j] && v@[j] <= 'z') || ('A' <= v@[j] && v@[j] <= 'Z') || v@[j] == '.')),
                decreases v.len() - t,
            {
                let ch = v[t];
                if !(('0' <= ch && ch <= '9') || ('a' <= ch && ch <= 'z') || ('A' <= ch && ch <= 'Z') || ch == '.') {
                    ok = false;
                }
                t = t + 1;
            }
            if ok {
                return Ok(crate::text::string_from_chars(&v));
            } else {
                return Err(LauncherError::InvalidUnityVersion);
            }
        }
        proof {
            if end >= 16 {
                assert(piece@.subrange(0, end as int).take(16) =~= piece@.subrange(0, 16));
            }
        }
        i = i + 1;
    }
    Err(LauncherError::NoEditorVersion)
}

/// `D:/UnityEditors`, where the launcher looks for editors by default.
pub open spec fn default_editor_root() -> Seq<char> {
    seq!['D', ':', '/', 'U', 'n', 'i', 't', 'y', 'E', 'd', 'i', 't', 'o', 'r', 's']
}

/// `Unity/Hub/Editor`, where Unity Hub installs editors under Program Files.
pub open spec fn hub_editors() -> Seq<char> {
    seq!['U', 'n', 'i', 't', 'y', '/', 'H', 'u', 'b', '/', 'E', 'd', 'i', 't', 'o', 'r']
}

/// `Editor/Unity.exe`, the editor under a version's directory.
pub open spec fn editor_exe() -> Seq<char> {
    seq!['E', 'd', 'i', 't', 'o', 'r', '/', 'U', 'n', 'i', 't', 'y', '.', 'e', 'x', 'e']
}

/// The directories that may hold editors, in the order they are tried:
/// `UNITY_EDITOR_ROOT` when set, the default root, then Unity Hub's.
pub open spec fn editor_roots(editor_root: Option<Seq<char>>, program_files: Option<Seq<char>>) -> Seq<Seq<char>> {
    let first = match editor_root {
        Some(r) => seq![r],
        None => seq![],
    };
    let last = match program_files {
        Some(p) => seq![join_relative(p, hub_editors())],
        None => seq![],
    };
    first + seq![default_editor_root()] + last
}

/// The editor executables to try for `version`, in order.
pub open spec fn unity_candidates_spec(version: Seq<char>, editor_root: Option<Seq<char>>, program_files: Option<Seq<char>>) -> Seq<Seq<char>> {
    let roots = editor_roots(editor_root, program_files);
    Seq::new(roots.len(), |i: int| join_relative(join_relative(roots[i], version), editor_exe()))
}

/// The editor executables to try for `version`, in order, from the
/// `UNITY_EDITOR_ROOT` and `ProgramFiles` settings when they are set.
pub fn unity_candidates(version: &str, editor_root: Option<&str>, program_files: Option<&str>) -> (r: Vec<String>)
    ensures
        r.deep_view() == unity_candidates_spec(
            version@,
            match editor_root {
                Some(x) => Some(x@),
                None => None,
            },
            match program_files {
                Some(x) => Some(x@),
                None => None,
            },
        ),
{
    proof {
        reveal_strlit("D:/UnityEditors");
        reveal_strlit("Unity/Hub/Editor");
        reveal_strlit("Editor/Unity.exe");
    }
    assert("D:/UnityEditors"@ =~= default_editor_root());
    assert("Unity/Hub/Editor"@ =~= hub_editors());
    assert("Editor/Unity.exe"@ =~= editor_exe());
    let mut roots: Vec<String> = Vec::new();
    match editor_root {
        Some(x) => roots.push(String::from_str(x)),
        None => {},
    }
    roots.push(String::from_str("D:/UnityEditors"));
    match program_files {
        Some(x) => roots.push(join_path(x, "Unity/Hub/Editor")),
        None => {},
    }
    let ghost spec_roots = editor_roots(
        match editor_root {
            Some(x) => Some(x@),
            None => None,
        },
        match program_files {
            Some(x) => Some(x@),
            None => None,
        },
    );
    assert(roots.deep_view() =~= spec_roots);
    let mut out: Vec<String> = Vec::new();
    let mut i: usize = 0;
    while i < roots.len()
        invariant
            i <= roots.len(),
            roots.deep_view() == spec_roots,
            "Editor/Unity.exe"@ == editor_exe(),
            out@.len() == i,
            forall|j: int| 0 <= j < i ==> #[trigger] out@[j]@ == join_relative(join_relative(spec_roots[j], version@), editor_exe()),
        decreases roots.len() - i,
    {
        assert(spec_roots[i as int] == roots@[i as int]@);
        let dir = join_path(roots[i].as_str(), version);
        out.push(join_path(dir.as_str(), "Editor/Unity.exe"));
        i = i + 1;
    }
    proof {
        let target = Seq::new(spec_roots.len(), |k: int| join_relative(join_relative(spec_roots[k], version@), editor_exe()));
        assert(out.deep_view() =~= target);
    }
    out
}

/// Whether the runtime directory named by `runtime.json` is a relative path
/// whose components are all plain names: not empty, no root or drive, no `.`
/// first and no `..` anywhere.
pub open spec fn valid_runtime_directory_spec(d: Seq<char>) -> bool {
    let pieces = crate::paths::path_pieces(d, false);
    &&& d.len() > 0
    &&& !is_path_sep(false, d[0])
    &&& !(d.len() >= 2 && d[1] == ':' && (('a' <= d[0] && d[0] <= 'z') || ('A' <= d[0] && d[0] <= 'Z')))
    &&& pieces[0] != seq!['.']
    &&& forall|i: int| 0 <= i < pieces.len() ==> #[trigger] pieces[i] != seq!['.', '.']
}

/// Checks the runtime directory named by `runtime.json`.
pub fn check_runtime_directory(d: &str) -> (r: Result<(), LauncherError>)
    ensures
        r is Ok <==> valid_runtime_directory_spec(d@),
        r matches Err(e) ==> e == LauncherError::InvalidRuntimeDirectory,
{
    let c = chars_of(d);
    let n = c.len();
    if n == 0 || c[0] == '\\' || c[0] == '/' {
        return Err(LauncherError::InvalidRuntimeDirectory);
    }
    if n >= 2 && c[1] == ':' && (('a' <= c[0] && c[0] <= 'z') || ('A' <= c[0] && c[0] <= 'Z')) {
        return Err(LauncherError::InvalidRuntimeDirectory);
    }
    let pieces = crate::paths::pieces(&c);
    proof {
        crate::paths::lemma_path_pieces_len(d@, false);
    }
    let p0 = &pieces[0];
    if p0.len() == 1 && p0[0] == '.' {
        assert(p0@ =~= seq!['.']);
        return Err(LauncherError::InvalidRuntimeDirectory);
    }
    assert(pieces@[0]@ != seq!['.']) by {
        if p0@ == seq!['.'] {
            assert(p0@[0] == '.');
        }
    }
    let mut i: usize = 0;
    while i < pieces.len()
        invariant
            i <= pieces@.len(),
            pieces@.len() == crate::paths::path_pieces(d@, false).len(),
            forall|j: int| 0 <= j < pieces@.len() ==> #[trigger] pieces@[j]@ == crate::paths::path_pieces(d@, false)[j],
            forall|j: int| 0 <= j < i ==> #[trigger] crate::paths::path_pieces(d@, false)[j] != seq!['.', '.'],
        decreases pieces.len() - i,
    {
        let x = &pieces[i];
        if x.len() == 2 && x[0] == '.' && x[1] == '.' {
            assert(x@ =~= seq!['.', '.']);
            return Err(LauncherError::InvalidRuntimeDirectory);
        }
        assert(x@ != seq!['.', '.']) by {
            if x@ == seq!['.', '.'] {
                assert(x@[0] == '.' && x@[1] == '.');
            }
        }
        i = i + 1;
    }
    Ok(())
}

/// The text that the member `key` of the JSON value in `bytes` holds: `None`
/// when `bytes` is not JSON, `Some(None)` when the value has no member `key`
/// that is a string.
pub uninterp spec fn json_string_member(bytes: Seq<u8>, key: Seq<char>) -> Option<Option<Seq<char>>>;

/// `serde_json::from_slice` into a `serde_json::Value`, then the member `key`
/// read as a string (`Value::get`, `Value::as_str`). The crate's source parses
/// the bytes alone, so the result depends on `bytes` and `key` alone; it is
/// named by [`json_string_member`], not written out.
#[verifier::external_body]
fn json_member_text(bytes: &[u8], key: &str) -> (r: Option<Option<String>>)
    ensures
        match r {
            None => json_string_member(bytes@, key@) is None,
            Some(None) => json_string_member(bytes@, key@) == Some(None::<Seq<char>>),
            Some(Some(t)) => json_string_member(bytes@, key@) == Some(Some(t@)),
        },
{
    match serde_json::from_slice::<serde_json::Value>(bytes) {
        Ok(value) => Some(value.get(key).and_then(|member| member.as_str()).map(String::from)),
        Err(_) => None,
    }
}

/// The word `directory`.
pub open spec fn word_directory() -> Seq<char> {
    seq!['d', 'i', 'r', 'e', 'c', 't', 'o', 'r', 'y']
}

/// The runtime directory that a `runtime.json` manifest with the bytes
/// `manifest` names: its `directory` string, when that is a valid runtime
/// directory.
pub open spec fn runtime_directory_spec(manifest: Seq<u8>) -> Result<Seq<char>, LauncherError> {
    match json_string_member(manifest, word_directory()) {
        None => Err(LauncherError::RuntimeManifestNotJson),
        Some(None) => Err(LauncherError::InvalidRuntimeManifest),
        Some(Some(d)) => if valid_runtime_directory_spec(d) {
            Ok(d)
        } else {
            Err(LauncherError::InvalidRuntimeDirectory)
        },
    }
}

/// Reads the runtime directory from the bytes of `runtime.json`.
pub fn runtime_directory(manifest: &[u8]) -> (r: Result<String, LauncherError>)
    ensures
        match r {
            Ok(d) => runtime_directory_spec(manifest@) == Ok::<Seq<char>, LauncherError>(d@),
            Err(e) => runtime_directory_spec(manifest@) == Err::<Seq<char>, LauncherError>(e),
        },
{
    proof {
        reveal_strlit("directory");
    }
    assert("directory"@ =~= word_directory());
    match json_member_text(manifest, "directory") {
        None => Err(LauncherError::RuntimeManifestNotJson),
        Some(None) => Err(LauncherError::InvalidRuntimeManifest),
        Some(Some(d)) => match check_runtime_directory(d.as_str()) {
            Ok(()) => Ok(d),
            Err(e) => Err(e),
        },
    }
}

/// `s` without one `.0` at its end.
pub open spec fn without_point_zero(s: Seq<char>) -> Seq<char> {
    if s.len() >= 2 && s[s.len() - 2] == '.' && s[s.len() - 1] == '0' {
        s.take(s.len() - 2)
    } else {
        s
    }
}

/// The first word of `line` (a run of characters that are not whitespace).
pub open spec fn first_word(line: Seq<char>) -> Option<Seq<char>>
    decreases line.len(),
{
    if line.len() == 0 {
        None
    } else if is_ws(line[0]) {
        first_word(line.drop_first())
    } else {
        Some(line.take(word_end(line, 0)))
    }
}

/// Where the run of non-whitespace characters at `i` ends.
pub open spec fn word_end(line: Seq<char>, i: int) -> int
    decreases line.len() - i,
{
    if i < 0 || i >= line.len() || is_ws(line[i]) {
        i
    } else {
        word_end(line, i + 1)
    }
}

/// Whether the compiler's list of language versions (`-langversion:?`) holds
/// `version`: a line whose first word equals it, a trailing `.0` ignored on both.
pub open spec fn lists_language_spec(output: Seq<char>, version: Seq<char>) -> bool {
    let lines = lines_of(output);
    exists|i: int| 0 <= i < lines.len() && match first_word(#[trigger] lines[i]) {
        Some(w) => without_point_zero(w) == without_point_zero(version),
        None => false,
    }
}


proof fn lemma_first_word(line: Seq<char>, i: int)
    requires
        0 <= i <= line.len(),
        forall|j: int| 0 <= j < i ==> is_ws(#[trigger] line[j]),
    ensures
        first_word(line) == first_word(line.skip(i)),
    decreases i,
{
    if i > 0 {
        assert(is_ws(line[0]));
        assert(line.drop_first().skip(i - 1) =~= line.skip(i));
        lemma_first_word(line.drop_first(), i - 1);
    } else {
        assert(line.skip(0) =~= line);
    }
}

proof fn lemma_word_end_skip(line: Seq<char>, i: int, k: int)
    requires
        0 <= i <= k <= line.len(),
    ensures
        word_end(line.skip(i), k - i) == word_end(line, k) - i,
    decreases line.len() - k,
{
    if k < line.len() && !is_ws(line[k]) {
        lemma_word_end_skip(line, i, k + 1);
    }
}

/// The first word of `line[from..to]`: where it starts and ends, when there is one.
fn first_word_range(line: &[char], to: usize) -> (r: Option<(usize, usize)>)
    requires
        to <= line.len(),
    ensures
        match r {
            Some((a, b)) => a <= b <= to && first_word(line@.take(to as int)) == Some(line@.subrange(a as int, b as int)),
            None => first_word(line@.take(to as int)) is None,
        },
{
    let ghost t = line@.take(to as int);
    let mut a: usize = 0;
    while a < to && is_whitespace(line[a])
        invariant
            a <= to <= line.len(),
            t == line@.take(to as int),
            forall|j: int| 0 <= j < a ==> is_ws(#[trigger] t[j]),
        decreases to - a,
    {
        a = a + 1;
    }
    proof {
        lemma_first_word(t, a as int);
    }
    if a == to {
        assert(t.skip(a as int).len() == 0);
        return None;
    }
    let mut b: usize = a;
    while b < to && !is_whitespace(line[b])
        invariant
            a <= b <= to <= line.len(),
            t == line@.take(to as int),
            word_end(t, b as int) == word_end(t, a as int),
        decreases to - b,
    {
        b = b + 1;
    }
    proof {
        lemma_word_end_skip(t, a as int, a as int);
        assert(t.skip(a as int)[0] == t[a as int]);
        assert(t.skip(a as int).take(word_end(t.skip(a as int), 0)) =~= line@.subrange(a as int, b as int));
    }
    Some((a, b))
}

fn without_point_zero_range(s: &[char], a: usize, b: usize) -> (r: usize)
    requires
        a <= b <= s.len(),
    ensures
        a <= r <= b,
        s@.subrange(a as int, r as int) == without_point_zero(s@.subrange(a as int, b as int)),
{
    if b - a >= 2 && s[b - 2] == '.' && s[b - 1] == '0' {
        assert(s@.subrange(a as int, b as int).take(b - a - 2) =~= s@.subrange(a as int, b - 2));
        b - 2
    } else {
        b
    }
}

/// Whether the compiler's list of language versions (`-langversion:?`) holds `version`.
pub fn lists_language(output: &str, version: &str) -> (r: bool)
    ensures
        r == lists_language_spec(output@, version@),
{
    let v = chars_of(version);
    let vend = without_point_zero_range(&v, 0, v.len());
    assert(v@.subrange(0, v.len() as int) =~= v@);
    let chars = chars_of(output);
    let pieces = split_char(&chars, '\n');
    proof {
        crate::text::lemma_split_at_char_len(output@, '\n');
    }
    let np = pieces.len();
    let count = if pieces[np - 1].len() == 0 { np - 1 } else { np };
    let ghost lines = lines_of(output@);
    let ghost target = without_point_zero(version@);
    assert(lines.len() == count);
    let mut i: usize = 0;
    while i < count
        invariant
            i <= count,
            count <= np,
            np == pieces@.len(),
            lines == lines_of(output@),
            lines.len() == count,
            target == without_point_zero(version@),
            v@ == version@,
            vend <= v.len(),
            v@.subrange(0, vend as int) == target,
            np == split_at_char(output@, '\n').len(),
            forall|j: int| 0 <= j < np ==> #[trigger] pieces@[j]@ == split_at_char(output@, '\n')[j],
            forall|j: int| 0 <= j < i ==> !(match first_word(#[trigger] lines[j]) {
                Some(w) => without_point_zero(w) == target,
                None => false,
            }),
        decreases count - i,
    {
        let piece = &pieces[i];
        let mut end = piece.len();
        if i + 1 < np && end > 0 && piece[end - 1] == '\r' {
            end = end - 1;
        }
        assert(lines[i as int] == piece@.subrange(0, end as int));
        assert(piece@.take(end as int) =~= piece@.subrange(0, end as int));
        match first_word_range(piece, end) {
            Some((a, b)) => {
                let e = without_point_zero_range(piece, a, b);
                if crate::text::eq_range(piece, a, e, &copy_chars(&v, 0, vend)) {
                    assert(match first_word(lines[i as int]) {
                        Some(w) => without_point_zero(w) == target,
                        None => false,
                    });
                    return true;
                }
            },
            None => {},
        }
        i = i + 1;
    }
    false
}

/// `p` without the verbatim prefixes `\\?\` at its start.
pub fn without_verbatim_prefix(p: &str) -> (r: String)
    ensures
        r@ == trim_verbatim(p@),
{
    let c = chars_of(p);
    let mut k: usize = 0;
    assert(c@.skip(0) =~= c@);
    while c.len() - k >= 4 && c[k] == '\\' && c[k + 1] == '\\' && c[k + 2] == '?' && c[k + 3] == '\\'
        invariant
            k <= c.len(),
            c@ == p@,
            trim_verbatim(c@.skip(k as int)) == trim_verbatim(p@),
        decreases c.len() - k,
    {
        assert(c@.skip(k as int).take(4) =~= verbatim_prefix());
        assert(c@.skip(k as int).skip(4) =~= c@.skip(k + 4));
        k = k + 4;
    }
    if c.len() - k >= 4 {
        assert(c@.skip(k as int).take(4)[0] == c@[k as int]);
        assert(c@.skip(k as int).take(4)[1] == c@[k + 1]);
        assert(c@.skip(k as int).take(4)[2] == c@[k + 2]);
        assert(c@.skip(k as int).take(4)[3] == c@[k + 3]);
    }
    let r = string_of_range(&c, k, c.len());
    assert(r@ =~= c@.skip(k as int));
    r
}

/// The compiler proxy's command line, `--session FILE -- ARGS...`: the session
/// file and the compiler arguments.
pub open spec fn proxy_args_spec(args: Seq<Seq<char>>) -> Option<(Seq<char>, Seq<Seq<char>>)> {
    if args.len() < 3 || args[0] != seq!['-', '-', 's', 'e', 's', 's', 'i', 'o', 'n'] || args[2] != seq!['-', '-'] {
        None
    } else {
        Some((args[1], args.skip(3)))
    }
}

/// Reads the compiler proxy's command line (without the program name).
pub fn parse_proxy_args(args: &[String]) -> (r: Result<(String, Vec<String>), LauncherError>)
    ensures
        match r {
            Ok((f, c)) => proxy_args_spec(args.deep_view()) == Some((f@, c.deep_view())),
            Err(e) => proxy_args_spec(args.deep_view()) is None && e == LauncherError::ProxyUsage,
        },
{
    proof {
        reveal_strlit("--session");
        reveal_strlit("--");
    }
    assert("--session"@ =~= seq!['-', '-', 's', 'e', 's', 's', 'i', 'o', 'n']);
    assert("--"@ =~= seq!['-', '-']);
    if args.len() < 3 || !is_word(args[0].as_str(), "--session") || !is_word(args[2].as_str(), "--") {
        return Err(LauncherError::ProxyUsage);
    }
    let mut rest: Vec<String> = Vec::new();
    let mut i: usize = 3;
    while i < args.len()
        invariant
            3 <= i <= args.len(),
            rest.deep_view() == args.deep_view().subrange(3, i as int),
        decreases args.len() - i,
    {
        let ghost b = rest.deep_view();
        rest.push(args[i].clone());
        assert(rest.deep_view() =~= b.push(args[i as int]@));
        i = i + 1;
    }
    assert(args.deep_view().skip(3) =~= args.deep_view().subrange(3, args.len() as int));
    Ok((args[1].clone(), rest))
}

/// `p` with the on/off option numbered `f` set: 0 `wait`, 1 `dry_run`,
/// 2 `self_test`, 3 `rebuild`.
pub open spec fn with_option(p: LaunchPlan, f: int) -> LaunchPlan {
    if f == 0 {
        LaunchPlan { wait: true, ..p }
    } else if f == 1 {
        LaunchPlan { dry_run: true, ..p }
    } else if f == 2 {
        LaunchPlan { self_test: true, ..p }
    } else {
        LaunchPlan { rebuild: true, ..p }
    }
}

/// `c` with the option numbered `f` set when it launches.
pub open spec fn command_with_option(c: LauncherCommandSpec, f: int) -> LauncherCommandSpec {
    match c {
        LauncherCommandSpec::Launch(p) => LauncherCommandSpec::Launch(with_option(p, f)),
        other => other,
    }
}

/// The switch that sets the option numbered `f`.
pub open spec fn option_switch(f: int) -> Seq<char> {
    if f == 0 {
        flag_wait()
    } else if f == 1 {
        flag_dry_run()
    } else if f == 2 {
        flag_self_test()
    } else {
        flag_rebuild()
    }
}

proof fn lemma_parse_with_option(args: Seq<Seq<char>>, i: int, st: LaunchPlan, f: int)
    requires
        0 <= f < 4,
    ensures
        parse_from(args, i, with_option(st, f)) == command_with_option(parse_from(args, i, st), f),
    decreases args.len() - i,
{
    if 0 <= i < args.len() {
        let a = args[i];
        if a == flag_help() || a == flag_h() {
        } else if a == flag_project() {
            if i + 1 < args.len() {
                lemma_parse_with_option(args, i + 2, LaunchPlan { project: Some(args[i + 1]), ..st }, f);
                assert(LaunchPlan { project: Some(args[i + 1]), ..with_option(st, f) } == with_option(
                    LaunchPlan { project: Some(args[i + 1]), ..st },
                    f,
                ));
            }
        } else if a == flag_config() {
            if i + 1 < args.len() {
                lemma_parse_with_option(args, i + 2, LaunchPlan { config: Some(args[i + 1]), ..st }, f);
                assert(LaunchPlan { config: Some(args[i + 1]), ..with_option(st, f) } == with_option(
                    LaunchPlan { config: Some(args[i + 1]), ..st },
                    f,
                ));
            }
        } else if a == flag_wait() {
            lemma_parse_with_option(args, i + 1, LaunchPlan { wait: true, ..st }, f);
            assert(LaunchPlan { wait: true, ..with_option(st, f) } == with_option(LaunchPlan { wait: true, ..st }, f));
        } else if a == flag_dry_run() {
            lemma_parse_with_option(args, i + 1, LaunchPlan { dry_run: true, ..st }, f);
            assert(LaunchPlan { dry_run: true, ..with_option(st, f) } == with_option(
                LaunchPlan { dry_run: true, ..st },
                f,
            ));
        } else if a == flag_self_test() {
            lemma_parse_with_option(args, i + 1, LaunchPlan { self_test: true, ..st }, f);
            assert(LaunchPlan { self_test: true, ..with_option(st, f) } == with_option(
                LaunchPlan { self_test: true, ..st },
                f,
            ));
        } else if a == flag_rebuild() {
            lemma_parse_with_option(args, i + 1, LaunchPlan { rebuild: true, ..st }, f);
            assert(LaunchPlan { rebuild: true, ..with_option(st, f) } == with_option(
                LaunchPlan { rebuild: true, ..st },
                f,
            ));
        } else if a == seq!['-', '-'] {
            assert(LaunchPlan { unity_args: st.unity_args + args.skip(i + 1), ..with_option(st, f) } == with_option(
                LaunchPlan { unity_args: st.unity_args + args.skip(i + 1), ..st },
                f,
            ));
        }
    }
}

/// Each of `--wait`, `--dry-run`, `--self-test` and `--rebuild` sets its own
/// option and no other: in front of any command line it gives that command
/// line's command with just that option on (a command that does not launch
/// stays as it is). With none of them, all four options are off, and `--`
/// hands everything after it to Unity untouched.
pub proof fn launcher_switches_set_their_own_option(args: Seq<Seq<char>>)
    ensures
        parse_from(seq![flag_wait()] + args, 0, default_plan()) == command_with_option(
            parse_from(args, 0, default_plan()),
            0,
        ),
        parse_from(seq![flag_dry_run()] + args, 0, default_plan()) == command_with_option(
            parse_from(args, 0, default_plan()),
            1,
        ),
        parse_from(seq![flag_self_test()] + args, 0, default_plan()) == command_with_option(
            parse_from(args, 0, default_plan()),
            2,
        ),
        parse_from(seq![flag_rebuild()] + args, 0, default_plan()) == command_with_option(
            parse_from(args, 0, default_plan()),
            3,
        ),
        parse_from(seq![], 0, default_plan()) == LauncherCommandSpec::Launch(default_plan()),
        !default_plan().wait && !default_plan().dry_run && !default_plan().self_test && !default_plan().rebuild,
        parse_from(seq![seq!['-', '-']] + args, 0, default_plan()) == LauncherCommandSpec::Launch(
            LaunchPlan { unity_args: args, ..default_plan() },
        ),
{
    lemma_prefix_option(args, 0);
    lemma_prefix_option(args, 1);
    lemma_prefix_option(args, 2);
    lemma_prefix_option(args, 3);
    let dd = seq![seq!['-', '-']] + args;
    assert(dd[0] == seq!['-', '-']);
    assert(dd.skip(1) =~= args);
    assert(Seq::<Seq<char>>::empty() + args =~= args);
}

proof fn lemma_prefix_option(args: Seq<Seq<char>>, f: int)
    requires
        0 <= f < 4,
    ensures
        parse_from(seq![option_switch(f)] + args, 0, default_plan()) == command_with_option(
            parse_from(args, 0, default_plan()),
            f,
        ),
{
    let all = seq![option_switch(f)] + args;
    assert(all[0] == option_switch(f));
    assert(all.skip(1) =~= args);
    lemma_parse_skip(all, 1, with_option(default_plan(), f), args);
    lemma_parse_with_option(args, 0, default_plan(), f);
}

/// Reading a command line from position `k` on is reading its tail `rest`
/// from the start.
proof fn lemma_parse_skip(all: Seq<Seq<char>>, k: int, st: LaunchPlan, rest: Seq<Seq<char>>)
    requires
        0 <= k <= all.len(),
        all.skip(k) == rest,
    ensures
        parse_from(all, k, st) == parse_from(rest, 0, st),
    decreases all.len() - k,
{
    assert(all.skip(k) =~= rest);
    lemma_parse_shift(all, k, st, rest, 0);
}

proof fn lemma_parse_shift(all: Seq<Seq<char>>, k: int, st: LaunchPlan, rest: Seq<Seq<char>>, j: int)
    requires
        0 <= k <= all.len(),
        0 <= j <= rest.len(),
        all.skip(k) == rest,
    ensures
        parse_from(all, k + j, st) == parse_from(rest, j, st),
    decreases rest.len() - j,
{
    assert(all.len() == k + rest.len());
    if j < rest.len() {
        assert(all[k + j] == rest[j]);
        if j + 1 < rest.len() {
            assert(all[k + j + 1] == rest[j + 1]);
        }
        let a = rest[j];
        if a == flag_project() || a == flag_config() {
            if j + 2 <= rest.len() {
                lemma_parse_shift(all, k, LaunchPlan { project: Some(rest[j + 1]), ..st }, rest, j + 2);
                lemma_parse_shift(all, k, LaunchPlan { config: Some(rest[j + 1]), ..st }, rest, j + 2);
            }
        } else {
            lemma_parse_shift(all, k, LaunchPlan { wait: true, ..st }, rest, j + 1);
            lemma_parse_shift(all, k, LaunchPlan { dry_run: true, ..st }, rest, j + 1);
            lemma_parse_shift(all, k, LaunchPlan { self_test: true, ..st }, rest, j + 1);
            lemma_parse_shift(all, k, LaunchPlan { rebuild: true, ..st }, rest, j + 1);
            assert(all.skip(k + j + 1) =~= rest.skip(j + 1));
        }
    }
}

proof fn lemma_parse_keeps_paths(args: Seq<Seq<char>>, i: int, st: LaunchPlan)
    ensures
        parse_from(args, i, st) matches LauncherCommandSpec::Launch(p) ==> (st.project is Some ==> p.project is Some)
            && (st.config is Some ==> p.config is Some),
    decreases args.len() - i,
{
    if 0 <= i < args.len() {
        lemma_parse_keeps_paths(args, i + 1, LaunchPlan { wait: true, ..st });
        lemma_parse_keeps_paths(args, i + 1, LaunchPlan { dry_run: true, ..st });
        lemma_parse_keeps_paths(args, i + 1, LaunchPlan { self_test: true, ..st });
        lemma_parse_keeps_paths(args, i + 1, LaunchPlan { rebuild: true, ..st });
        if i + 1 < args.len() {
            lemma_parse_keeps_paths(args, i + 2, LaunchPlan { project: Some(args[i + 1]), ..st });
            lemma_parse_keeps_paths(args, i + 2, LaunchPlan { config: Some(args[i + 1]), ..st });
        }
    }
}

/// `c` launching with the project `v` where it names none itself.
pub open spec fn command_with_project(c: LauncherCommandSpec, v: Seq<char>) -> LauncherCommandSpec {
    match c {
        LauncherCommandSpec::Launch(p) => LauncherCommandSpec::Launch(
            LaunchPlan { project: if p.project is None { Some(v) } else { p.project }, ..p },
        ),
        other => other,
    }
}

/// `c` launching with the configuration `v` where it names none itself.
pub open spec fn command_with_config(c: LauncherCommandSpec, v: Seq<char>) -> LauncherCommandSpec {
    match c {
        LauncherCommandSpec::Launch(p) => LauncherCommandSpec::Launch(
            LaunchPlan { config: if p.config is None { Some(v) } else { p.config }, ..p },
        ),
        other => other,
    }
}

proof fn lemma_parse_with_path(args: Seq<Seq<char>>, i: int, st: LaunchPlan, v: Seq<char>, config: bool)
    requires
        if config { st.config is None } else { st.project is None },
    ensures
        config ==> parse_from(args, i, LaunchPlan { config: Some(v), ..st }) == command_with_config(
            parse_from(args, i, st),
            v,
        ),
        !config ==> parse_from(args, i, LaunchPlan { project: Some(v), ..st }) == command_with_project(
            parse_from(args, i, st),
            v,
        ),
    decreases args.len() - i,
{
    let st2 = if config { LaunchPlan { config: Some(v), ..st } } else { LaunchPlan { project: Some(v), ..st } };
    if 0 <= i < args.len() {
        let a = args[i];
        if a == flag_help() || a == flag_h() {
        } else if a == flag_project() {
            if i + 1 < args.len() {
                let n = LaunchPlan { project: Some(args[i + 1]), ..st };
                if config {
                    lemma_parse_with_path(args, i + 2, n, v, config);
                    assert(LaunchPlan { project: Some(args[i + 1]), ..st2 } == LaunchPlan { config: Some(v), ..n });
                } else {
                    lemma_parse_keeps_paths(args, i + 2, n);
                    assert(LaunchPlan { project: Some(args[i + 1]), ..st2 } == n);
                    if let LauncherCommandSpec::Launch(p) = parse_from(args, i + 2, n) {
                        assert(LaunchPlan { project: p.project, ..p } == p);
                    }
                }
            }
        } else if a == flag_config() {
            if i + 1 < args.len() {
                let n = LaunchPlan { config: Some(args[i + 1]), ..st };
                if !config {
                    lemma_parse_with_path(args, i + 2, n, v, config);
                    assert(LaunchPlan { config: Some(args[i + 1]), ..st2 } == LaunchPlan { project: Some(v), ..n });
                } else {
                    lemma_parse_keeps_paths(args, i + 2, n);
                    assert(LaunchPlan { config: Some(args[i + 1]), ..st2 } == n);
                    if let LauncherCommandSpec::Launch(p) = parse_from(args, i + 2, n) {
                        assert(LaunchPlan { config: p.config, ..p } == p);
                    }
                }
            }
        } else if a == flag_wait() {
            let n = LaunchPlan { wait: true, ..st };
            lemma_parse_with_path(args, i + 1, n, v, config);
            assert(LaunchPlan { wait: true, ..st2 } == if config { LaunchPlan { config: Some(v), ..n } } else {
                LaunchPlan { project: Some(v), ..n }
            });
        } else if a == flag_dry_run() {
            let n = LaunchPlan { dry_run: true, ..st };
            lemma_parse_with_path(args, i + 1, n, v, config);
            assert(LaunchPlan { dry_run: true, ..st2 } == if config { LaunchPlan { config: Some(v), ..n } } else {
                LaunchPlan { project: Some(v), ..n }
            });
        } else if a == flag_self_test() {
            let n = LaunchPlan { self_test: true, ..st };
            lemma_parse_with_path(args, i + 1, n, v, config);
            assert(LaunchPlan { self_test: true, ..st2 } == if config { LaunchPlan { config: Some(v), ..n } } else {
                LaunchPlan { project: Some(v), ..n }
            });
        } else if a == flag_rebuild() {
            let n = LaunchPlan { rebuild: true, ..st };
            lemma_parse_with_path(args, i + 1, n, v, config);
            assert(LaunchPlan { rebuild: true, ..st2 } == if config { LaunchPlan { config: Some(v), ..n } } else {
                LaunchPlan { project: Some(v), ..n }
            });
        }
    }
}

/// `--project DIR` and `--config FILE` name the project and the configuration,
/// each its own and nothing else: in front of any command line they give that
/// command line's command with that path, unless the rest names its own,
/// which comes later and wins.
pub proof fn launcher_paths_set_their_own_option(args: Seq<Seq<char>>, v: Seq<char>)
    ensures
        parse_from(seq![flag_project(), v] + args, 0, default_plan()) == command_with_project(
            parse_from(args, 0, default_plan()),
            v,
        ),
        parse_from(seq![flag_config(), v] + args, 0, default_plan()) == command_with_config(
            parse_from(args, 0, default_plan()),
            v,
        ),
{
    let a1 = seq![flag_project(), v] + args;
    assert(a1[0] == flag_project() && a1[1] == v);
    assert(a1.skip(2) =~= args);
    lemma_parse_skip(a1, 2, LaunchPlan { project: Some(v), ..default_plan() }, args);
    lemma_parse_with_path(args, 0, default_plan(), v, false);
    let a2 = seq![flag_config(), v] + args;
    assert(a2[0] == flag_config() && a2[1] == v);
    assert(a2.skip(2) =~= args);
    lemma_parse_skip(a2, 2, LaunchPlan { config: Some(v), ..default_plan() }, args);
    lemma_parse_with_path(args, 0, default_plan(), v, true);
    assert(flag_project() != flag_help() && flag_project() != flag_h()) by {
        assert(flag_project().len() != flag_help().len());
        assert(flag_project().len() != flag_h().len());
    }
    assert(flag_config() != flag_help() && flag_config() != flag_h() && flag_config() != flag_project()) by {
        assert(flag_config().len() != flag_help().len());
        assert(flag_config().len() != flag_h().len());
        assert(flag_config()[2] != flag_project()[2]);
    }
}

/// The editors are looked for in a fixed order: under `UNITY_EDITOR_ROOT` when
/// it is set, then under the default root, then under Unity Hub's directory
/// in Program Files when that is set; each candidate is `ROOT\VERSION\Editor/Unity.exe`.
pub proof fn editor_candidates_in_order(version: Seq<char>, root: Option<Seq<char>>, program_files: Option<Seq<char>>)
    ensures
        ({
            let c = unity_candidates_spec(version, root, program_files);
            let at_default = if root is Some { 1int } else { 0int };
            &&& c.len() == at_default + 1 + if program_files is Some { 1int } else { 0int }
            &&& root matches Some(r) ==> c[0] == join_relative(join_relative(r, version), editor_exe())
            &&& c[at_default] == join_relative(join_relative(default_editor_root(), version), editor_exe())
            &&& program_files matches Some(p) ==> c[c.len() - 1] == join_relative(
                join_relative(join_relative(p, hub_editors()), version),
                editor_exe(),
            )
        }),
{
}

/// A fixed language version is accepted, a symbolic one refused: any
/// non-empty run of digits, with `.` between them or not, is valid, and any
/// version that holds a letter (such as `latest` or `preview`) is not.
pub proof fn fixed_language_versions_are_accepted(v: Seq<char>, digits: Seq<char>)
    ensures
        digits.len() > 0 && (forall|i: int| 0 <= i < digits.len() ==> '0' <= #[trigger] digits[i] <= '9')
            ==> valid_lang_version_spec(digits) && valid_lang_version_spec(digits + seq!['.', '0']),
        (exists|i: int| 0 <= i < v.len() && ('a' <= #[trigger] v[i] <= 'z' || 'A' <= v[i] <= 'Z'))
            ==> !valid_lang_version_spec(v),
        !valid_lang_version_spec(seq![]),
{
    let d = digits + seq!['.', '0'];
    if digits.len() > 0 && (forall|i: int| 0 <= i < digits.len() ==> '0' <= #[trigger] digits[i] <= '9') {
        assert forall|i: int| 0 <= i < d.len() implies (('0' <= #[trigger] d[i] && d[i] <= '9') || d[i] == '.') by {
            if i < digits.len() {
                assert(d[i] == digits[i]);
            }
        }
    }
}

} // verus!
