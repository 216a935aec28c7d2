use launcher_core::{
    ansi_request_matches_exec, check_lang_version, check_runtime_directory, command, compiler_args, decode_response,
    default_sync_ide, editor_version, effective_language, expand_compiler_response, expand_response, fingerprint, is_unconfigured_package,
    is_unity_response, join_path, language_option, lists_language, merge_environment, package_responses,
    parse_launcher_args, parse_proxy_args, plan_create_process, plan_hooked_request, prepare_args, quote, response_file_text, same_path,
    plan_ansi_request, runtime_directory, split_args, unity_candidates, without_define, without_verbatim_prefix,
    AnsiAction, AnsiRefusal, Config, CreateAction, Expansion,
    FingerprintFile, LauncherCommand, LauncherError, ResponseFile, Session,
};

fn strings(v: &[&str]) -> Vec<String> {
    v.iter().map(|s| s.to_string()).collect()
}

fn session() -> Session {
    Session {
        config: Config {
            unity: "C:\\Unity\\Editor\\Unity.exe".into(),
            dotnet: "C:\\dotnet\\dotnet.exe".into(),
            csc: "C:\\roslyn\\csc.dll".into(),
            lang_version: "12".into(),
            sync_ide: true,
        },
        project: "C:\\Game".into(),
        hook: "C:\\tool\\unity_roslyn_hook.dll".into(),
        proxy: "C:\\tool\\compiler-proxy.exe".into(),
        directory: "C:\\Game\\Library\\RoslynLauncher\\sessions\\1".into(),
        original_csc: "C:\\Unity\\Editor\\Data\\DotNetSdkRoslyn\\csc.dll".into(),
        original_dotnet: "C:\\Unity\\Editor\\Data\\NetCoreRuntime\\dotnet.exe".into(),
        bee: "C:\\Unity\\Editor\\Data\\bee_backend.exe".into(),
        extra_propagate: vec!["C:\\tool\\chain-probe.exe".into()],
    }
}

#[test]
fn quote_doubles_backslashes_only_before_quotes_and_the_end() {
    assert_eq!(quote(""), "\"\"");
    assert_eq!(quote("plain"), "\"plain\"");
    assert_eq!(quote("a\\b"), "\"a\\b\"");
    assert_eq!(quote("a\\\"b"), "\"a\\\\\\\"b\"");
    assert_eq!(quote("C:\\x\\"), "\"C:\\x\\\\\"");
    assert_eq!(command(&strings(&["a b", "c"])), "\"a b\" \"c\"");
    assert_eq!(command(&[]), "");
}

#[test]
fn command_round_trip_keeps_awkward_arguments() {
    let input = strings(&["#not a comment", "\u{feff}bom", "\t", "\"\"", "a\\\\", " ", "\u{3000}"]);
    assert_eq!(split_args(&command(&input), false).unwrap(), input);
    assert_eq!(split_args(&command(&input), true).unwrap(), input);
}

#[test]
fn response_file_round_trip() {
    let input = strings(&["/r:a b.dll", "x\"y", "", "C:\\dir\\"]);
    let text = response_file_text(&input);
    assert_eq!(text, "\"/r:a b.dll\"\n\"x\\\"y\"\n\"\"\n\"C:\\dir\\\\\"");
    assert_eq!(split_args(&text, true).unwrap(), input);
}

#[test]
fn split_args_rules() {
    assert_eq!(split_args("a  b\t\tc", false).unwrap(), ["a", "b", "c"]);
    assert_eq!(split_args("\"a\"\"b\"", false).unwrap(), ["a\"b"]);
    assert_eq!(split_args("\u{feff}\u{feff}x", false).unwrap(), ["x"]);
    assert_eq!(split_args("a\u{3000}b", false).unwrap(), ["a", "b"]);
    assert_eq!(split_args("#x y", false).unwrap(), ["#x", "y"]);
    assert_eq!(split_args("#x y\nz", true).unwrap(), ["z"]);
    assert_eq!(split_args("a\\\\\"b c\"", false).unwrap(), ["a\\b c"]);
    assert_eq!(split_args("", true).unwrap(), Vec::<String>::new());
    assert_eq!(split_args("a\"b", false), Err(LauncherError::UnclosedQuote));
}

#[test]
fn language_switches() {
    assert_eq!(language_option("-LangVersion:latest"), Some("latest"));
    assert_eq!(language_option("/langversion:a:b"), Some("a:b"));
    assert_eq!(language_option("/langversion"), None);
    assert_eq!(language_option("langversion:1"), None);
    assert_eq!(language_option("--langversion:1"), None);
    assert_eq!(language_option("-langversionx:1"), None);
    assert_eq!(effective_language(&strings(&["a.cs"]), "12"), "12");
    assert_eq!(effective_language(&strings(&["-langversion:9", "/LANGVERSION:10", "b.cs"]), "12"), "10");
}

#[test]
fn prepared_language_law_on_values() {
    let explicit = prepare_args(strings(&["-langversion:9.0", "/shared"]), "12");
    assert_eq!(effective_language(&explicit, "x"), "9.0");
    let none = prepare_args(strings(&["/Shared:pipe", "--NOCONFIG", "a.cs"]), "12");
    assert_eq!(none, ["/langversion:12", "a.cs"]);
    assert_eq!(effective_language(&none, "x"), "12");
    assert_eq!(prepare_args(strings(&["/shared+", "-shared-", "/sharedx"]), "14"), ["/langversion:14", "/sharedx"]);
}

#[test]
fn defines_are_rewritten_and_removal_is_idempotent() {
    let args = strings(&["/D:a,B;;c", "-define:b", "/defines:b", "/d", "x.cs"]);
    let once = without_define(args, "b");
    assert_eq!(once, ["/define:a;c", "/defines:b", "/d", "x.cs"]);
    assert_eq!(without_define(once.clone(), "b"), once);
    assert_eq!(without_define(strings(&["//define:;;"]), "z"), Vec::<String>::new());
}

#[test]
fn paths_compare_by_windows_rules() {
    assert!(same_path("C:/A/b", "c:\\a\\B"));
    assert!(same_path("\\\\?\\C:\\a", "C:\\a"));
    assert!(same_path("C:\\Ä", "c:\\ä"));
    assert!(!same_path("C:\\a", "C:\\a\\b"));
    assert_eq!(join_path("C:", "x"), "C:x");
    assert_eq!(join_path("a\\", "b"), "a\\b");
    assert_eq!(join_path("a/", "b"), "a/b");
    assert_eq!(join_path("a", "b/c"), "a\\b/c");
    assert_eq!(join_path("", "b"), "b");
    assert_eq!(without_verbatim_prefix("\\\\?\\\\\\?\\C:\\x"), "C:\\x");
}

#[test]
fn unity_responses_are_recognised() {
    let project = "C:\\Game";
    assert!(is_unity_response("C:/game/library/bee/artifacts/1900b0aE.dag/Assembly.RSP", project));
    assert!(!is_unity_response("C:\\Game\\Library\\Bee\\artifacts\\Assembly.rsp", project));
    assert!(!is_unity_response("C:\\Game\\Library\\Bee\\artifacts\\x.dag\\Assembly.txt", project));
    assert!(!is_unity_response("C:\\Game\\Assets\\x.dag\\csc.rsp", project));
    assert!(!is_unity_response("C:\\Other\\Library\\Bee\\artifacts\\x.dag\\a.rsp", project));
}

#[test]
fn compiler_invocations_are_recognised() {
    let s = session();
    let args = strings(&[
        "c:/unity/editor/data/netcoreruntime/dotnet.exe",
        "EXEC",
        "C:\\Unity\\Editor\\Data\\DotNetSdkRoslyn\\csc.dll",
        "/noconfig",
        "@a.rsp",
    ]);
    assert_eq!(compiler_args(&args, &s), Some(strings(&["/noconfig", "@a.rsp"])));
    assert_eq!(compiler_args(&args[..2], &s), None);
    assert_eq!(compiler_args(&strings(&["x", "exec", "y"]), &s), None);
    assert!(default_sync_ide());
}

#[test]
fn response_bytes_decode() {
    assert_eq!(decode_response(b"\xef\xbb\xbfa b").unwrap(), "\u{feff}a b");
    let be: Vec<u8> = "\u{feff}x\u{1F600}".encode_utf16().flat_map(u16::to_be_bytes).collect();
    assert_eq!(decode_response(&be).unwrap(), "x\u{1F600}");
    assert_eq!(decode_response(&[0xff, 0xfe, 0x41]), Err(LauncherError::OddUtf16Length));
    assert_eq!(decode_response(&[0xff, 0xfe, 0x00, 0xd8]), Err(LauncherError::InvalidUtf16));
    assert_eq!(decode_response(&[0x61, 0xff]), Err(LauncherError::InvalidUtf8));
}

#[test]
fn expansion_reports_what_it_needs_and_fails() {
    let args = strings(&["a", "@x.rsp", "@y.rsp"]);
    match expand_response(&args, &[], 0) {
        Expansion::NeedsFile(r) => assert_eq!(r, "x.rsp"),
        _ => panic!("expected a request for x.rsp"),
    }
    let unreadable = vec![ResponseFile { reference: "x.rsp".into(), path: "x.rsp".into(), contents: None }];
    assert!(matches!(expand_response(&args, &unreadable, 0), Expansion::Failed(LauncherError::ResponseUnreadable)));
    let broken = vec![ResponseFile { reference: "x.rsp".into(), path: "x.rsp".into(), contents: Some(b"\"a".to_vec()) }];
    assert!(matches!(expand_response(&args, &broken, 0), Expansion::Failed(LauncherError::UnclosedQuote)));
    assert!(matches!(expand_response(&strings(&["a"]), &[], 17), Expansion::Failed(LauncherError::ResponseNesting)));
    let cycle = vec![
        ResponseFile { reference: "x.rsp".into(), path: "x.rsp".into(), contents: Some(b"@y.rsp".to_vec()) },
        ResponseFile { reference: "y.rsp".into(), path: "y.rsp".into(), contents: Some(b"@x.rsp".to_vec()) },
    ];
    assert!(matches!(expand_response(&strings(&["@x.rsp"]), &cycle, 0), Expansion::Failed(LauncherError::ResponseNesting)));
    let fine = vec![
        ResponseFile { reference: "x.rsp".into(), path: "x.rsp".into(), contents: Some(b"b \"c d\"".to_vec()) },
        ResponseFile { reference: "y.rsp".into(), path: "y.rsp".into(), contents: Some(Vec::new()) },
    ];
    match expand_response(&args, &fine, 0) {
        Expansion::Expanded(v) => assert_eq!(v, ["a", "b", "c d"]),
        _ => panic!("expected an expansion"),
    }
}

#[test]
fn only_unity_generated_responses_lose_their_language_switch() {
    let project = "C:\\Game";
    let bee = "C:\\Game\\Library\\Bee\\artifacts\\a.dag\\A.rsp";
    let files = vec![
        ResponseFile { reference: "user.rsp".into(), path: "C:\\Game\\user.rsp".into(),
            contents: Some(b"-langversion:9.0 @inner.rsp".to_vec()) },
        ResponseFile { reference: "inner.rsp".into(), path: bee.into(),
            contents: Some(b"-langversion:10 x.cs".to_vec()) },
        ResponseFile { reference: "A.rsp".into(), path: bee.into(),
            contents: Some(b"-langversion:9.0 /langversion:14 y.cs".to_vec()) },
    ];
    for expand in [
        expand_compiler_response(&strings(&["@user.rsp"]), &files, project),
        expand_response(&strings(&["@user.rsp"]), &files, 0),
    ] {
        match expand {
            Expansion::Expanded(v) => assert_eq!(v, ["-langversion:9.0", "-langversion:10", "x.cs"]),
            _ => panic!("expected an expansion"),
        }
    }
    match expand_compiler_response(&strings(&["@A.rsp"]), &files, project) {
        Expansion::Expanded(v) => assert_eq!(v, ["/langversion:14", "y.cs"]),
        _ => panic!("expected an expansion"),
    }
}

#[test]
fn package_sources_and_their_response_files() {
    let project = "C:\\Game";
    let local = strings(&["Packages/com.me.tool/Editor/A.cs", "Library/Bee/artifacts/Gen.cs", "-nowarn:1"]);
    assert_eq!(
        package_responses(&local, project).unwrap(),
        ["C:\\Game\\Packages/com.me.tool/Editor/csc.rsp", "C:\\Game\\Packages/com.me.tool/csc.rsp"]
    );
    assert!(is_unconfigured_package(&local, project, &[]));
    assert!(is_unconfigured_package(&local, project, &strings(&["C:\\Game\\Assets\\csc.rsp", "C:\\Game\\Assets/csc.rsp"])));
    assert!(!is_unconfigured_package(&local, project, &strings(&["C:\\Game\\Packages/com.me.tool/csc.rsp"])));
    let two = strings(&["Packages/a/A.cs", "Packages/b/B.cs"]);
    assert_eq!(package_responses(&two, project), None);
    assert!(!is_unconfigured_package(&two, project, &[]));
    assert_eq!(package_responses(&strings(&["-out:x.dll"]), project), None);
    let upper = strings(&["LIBRARY/PACKAGECACHE/p/A.cs"]);
    assert_eq!(
        package_responses(&upper, project).unwrap(),
        ["C:\\Game\\LIBRARY/PACKAGECACHE/p/csc.rsp", "C:\\Game\\LIBRARY/PACKAGECACHE/csc.rsp", "C:\\Game\\LIBRARY/csc.rsp", "C:\\Game\\csc.rsp", "C:\\csc.rsp"]
    );
}

#[test]
fn hook_redirects_compiler_and_proxy_reads_it_back() {
    let s = session();
    let cmd = "\"C:\\Unity\\Editor\\Data\\NetCoreRuntime\\dotnet.exe\" exec \"C:\\Unity\\Editor\\Data\\DotNetSdkRoslyn\\csc.dll\" /shared @\"a b.rsp\"";
    match plan_create_process(&s, None, cmd) {
        CreateAction::Redirect(app, line) => {
            assert_eq!(app, s.proxy);
            let words = split_args(&line, false).unwrap();
            assert_eq!(words[0], s.proxy);
            let (file, args) = parse_proxy_args(&words[1..]).unwrap();
            assert_eq!(file, "C:\\Game\\Library\\RoslynLauncher\\sessions\\1\\session.json");
            assert_eq!(args, ["/shared", "@a b.rsp"]);
        }
        _ => panic!("expected a redirect"),
    }
    assert!(matches!(plan_create_process(&s, Some("C:\\other\\dotnet.exe"), cmd), CreateAction::PassThrough));
}

#[test]
fn hook_injects_where_it_must() {
    let s = session();
    let shell = "cmd.exe /c \"c:/unity/editor/data/dotnetsdkroslyn/csc.dll\"";
    assert!(matches!(plan_create_process(&s, Some("C:\\Windows\\System32\\CMD.EXE"), shell), CreateAction::Inject));
    assert!(matches!(plan_create_process(&s, Some("C:\\Windows\\System32\\cmd.exe"), "cmd.exe /c dir"), CreateAction::PassThrough));
    assert!(matches!(plan_create_process(&s, None, "C:/Unity/Editor/Data/bee_backend.exe --x"), CreateAction::Inject));
    assert!(matches!(plan_create_process(&s, Some("c:\\tool\\chain-probe.exe"), ""), CreateAction::Inject));
    assert!(matches!(plan_create_process(&s, None, "notepad.exe"), CreateAction::PassThrough));
    assert!(matches!(plan_create_process(&s, None, "\"broken"), CreateAction::PassThrough));
    assert!(ansi_request_matches_exec(&s, "", "C:/Unity/Editor/Data/bee_backend.exe x"));
    assert!(ansi_request_matches_exec(&s, "C:\\TOOL\\CHAIN-PROBE.EXE", ""));
    assert!(!ansi_request_matches_exec(&s, "C:\\x.exe", "y"));
}

fn wide(s: &str) -> Vec<u16> {
    s.encode_utf16().collect()
}

#[test]
fn environment_is_merged_and_ordered() {
    let entries = vec![wide("windir=C:\\Windows"), wide("unity_roslyn_session=old"), wide("Path=C:\\x"), wide("ALLUSERSPROFILE=y")];
    let block = merge_environment(&entries, "D:\\s\u{1F600}");
    let mut expected = Vec::new();
    for e in ["ALLUSERSPROFILE=y", "Path=C:\\x", "UNITY_ROSLYN_SESSION=D:\\s\u{1F600}\\session.json", "windir=C:\\Windows"] {
        expected.extend(wide(e));
        expected.push(0);
    }
    expected.push(0);
    assert_eq!(block, expected);
    let lone = vec![vec![0xd800u16, 0x41], wide("a=1")];
    let block = merge_environment(&lone, "d");
    let mut expected = Vec::new();
    for e in [wide("a=1"), wide("UNITY_ROSLYN_SESSION=d\\session.json"), vec![0xd800u16, 0x41]] {
        expected.extend(e);
        expected.push(0);
    }
    expected.push(0);
    assert_eq!(block, expected);
}

#[test]
fn launcher_command_line() {
    assert!(matches!(parse_launcher_args(&strings(&["--wait", "-h"])), LauncherCommand::Help));
    assert!(matches!(parse_launcher_args(&strings(&["--project"])), LauncherCommand::MissingProjectPath));
    assert!(matches!(parse_launcher_args(&strings(&["--config"])), LauncherCommand::MissingConfigPath));
    match parse_launcher_args(&strings(&["--bogus"])) {
        LauncherCommand::UnknownArgument(a) => assert_eq!(a, "--bogus"),
        _ => panic!("expected an unknown argument"),
    }
    match parse_launcher_args(&strings(&["--project", "P", "--rebuild", "--", "-batchmode", "--help"])) {
        LauncherCommand::Launch(o) => {
            assert_eq!(o.project.as_deref(), Some("P"));
            assert!(o.rebuild && !o.wait && !o.dry_run && !o.self_test);
            assert_eq!(o.config, None);
            assert_eq!(o.unity_args, ["-batchmode", "--help"]);
        }
        _ => panic!("expected a launch"),
    }
    assert_eq!(parse_proxy_args(&strings(&["--session", "f"])), Err(LauncherError::ProxyUsage));
    assert_eq!(parse_proxy_args(&strings(&["--session", "f", "-"])), Err(LauncherError::ProxyUsage));
}

#[test]
fn configuration_checks() {
    assert_eq!(check_lang_version("12"), Ok(()));
    assert_eq!(check_lang_version("14.0"), Ok(()));
    assert_eq!(check_lang_version("latest"), Err(LauncherError::InvalidLangVersion));
    assert_eq!(check_lang_version(""), Err(LauncherError::InvalidLangVersion));
    assert_eq!(check_runtime_directory("runtime/abc"), Ok(()));
    assert_eq!(check_runtime_directory("a/./b"), Ok(()));
    for bad in ["", "../x", "a\\..\\b", "/abs", "\\abs", "C:x", "./x", "."] {
        assert_eq!(check_runtime_directory(bad), Err(LauncherError::InvalidRuntimeDirectory), "{bad}");
    }
}

#[test]
fn editor_versions_and_candidates() {
    let text = "m_EditorVersion: 2022.3.40f1c1\r\nm_EditorVersionWithRevision: 2022.3.40f1c1 (abc)\n";
    assert_eq!(editor_version(text).unwrap(), "2022.3.40f1c1");
    assert_eq!(editor_version("x\n"), Err(LauncherError::NoEditorVersion));
    assert_eq!(editor_version("m_EditorVersion: 2022 3"), Err(LauncherError::InvalidUnityVersion));
    assert_eq!(editor_version("m_EditorVersion:   \n"), Err(LauncherError::InvalidUnityVersion));
    assert_eq!(
        unity_candidates("6000.0.1f1", Some("E:\\Editors"), Some("C:\\Program Files")),
        [
            "E:\\Editors\\6000.0.1f1\\Editor/Unity.exe",
            "D:/UnityEditors\\6000.0.1f1\\Editor/Unity.exe",
            "C:\\Program Files\\Unity/Hub/Editor\\6000.0.1f1\\Editor/Unity.exe",
        ]
    );
    assert_eq!(unity_candidates("1", None, None), ["D:/UnityEditors\\1\\Editor/Unity.exe"]);
}

#[test]
fn compiler_language_lists() {
    let out = "Supported language versions:\ndefault\n12.0 (default)\n  14.0\r\nlatest";
    assert!(lists_language(out, "12"));
    assert!(lists_language(out, "14"));
    assert!(lists_language(out, "latest"));
    assert!(!lists_language(out, "13"));
    assert!(!lists_language("", "12"));
}

#[test]
fn fingerprint_digests_configuration_then_files() {
    let abc = "ba7816bf8f01cfea414140de5dae2223b00361a396177a9cb410ff61f20015ad";
    assert_eq!(fingerprint(b"abc", &[]), abc);
    let files = vec![FingerprintFile { path: "b".into(), contents: b"c".to_vec() }];
    assert_eq!(fingerprint(b"a", &files), abc);
    assert_ne!(fingerprint(b"ab", &files), abc);
}

#[test]
fn error_messages() {
    assert_eq!(LauncherError::UnclosedQuote.message(), "Unclosed quote in compiler arguments");
    assert_eq!(LauncherError::ResponseNesting.message(), "Response files nested too deeply / cyclic response file");
    assert_eq!(LauncherError::ProxyUsage.message(), "Expected --session <file> -- <compiler arguments>");
}

#[test]
fn fingerprint_is_sixty_four_lower_case_hex_digits() {
    let f = fingerprint(b"{}", &[FingerprintFile { path: "C:\\x".into(), contents: vec![0, 255] }]);
    assert_eq!(f.len(), 64);
    assert!(f.chars().all(|c| c.is_ascii_digit() || ('a'..='f').contains(&c)));
}

#[test]
fn unquoted_command_lines_split_at_whitespace() {
    for s in ["\u{feff}a  b\tc\\d ", "x\\\\ \\y", "  ", "#a b"] {
        let words: Vec<String> = s.trim_start_matches('\u{feff}').split_whitespace().map(String::from).collect();
        assert_eq!(split_args(s, false).unwrap(), words);
    }
    let no_comment = "/r:a.dll  b.cs";
    assert_eq!(split_args(no_comment, true), split_args(no_comment, false));
    assert_eq!(split_args("#a b", true).unwrap(), Vec::<String>::new());
}

#[test]
fn defines_keep_everything_but_the_symbol() {
    let out = without_define(
        strings(&["a.cs", "-define:X;mira_advance,,Y", "/nullable:enable", "/d:MIRA_ADVANCE", "b.cs"]),
        "MIRA_ADVANCE",
    );
    assert_eq!(out, ["a.cs", "/define:X;Y", "/nullable:enable", "b.cs"]);
}

#[test]
fn paths_ignore_ascii_case_separators_and_verbatim_prefix() {
    assert!(same_path("C:\\Game\\Assets", "c:/GAME/assets"));
    assert!(same_path("\\\\?\\C:\\Game", "C:/Game"));
    assert!(!same_path("C:\\Game", "C:\\Gam"));
}

#[test]
fn ansi_requests_are_refused_or_converted() {
    let s = session();
    let bee = "C:\\Unity\\Editor\\Data\\bee_backend.exe";
    assert!(matches!(plan_ansi_request(Some(&s), "C:\\x.exe", "x", true, 0), AnsiAction::PassThrough));
    assert!(matches!(plan_ansi_request(Some(&s), bee, "", false, 0), AnsiAction::Refuse(AnsiRefusal::MissingStartupInfo)));
    assert!(matches!(
        plan_ansi_request(Some(&s), bee, "", true, 0x80000),
        AnsiAction::Refuse(AnsiRefusal::ExtendedStartupInfo)
    ));
    assert!(matches!(plan_ansi_request(Some(&s), bee, "", true, 0x400), AnsiAction::Convert));
    assert!(matches!(plan_ansi_request(None, "C:\\x.exe", "x", true, 0), AnsiAction::Convert));
}

#[test]
fn runtime_manifest_names_the_directory() {
    assert_eq!(runtime_directory(br#"{"directory": "runtime/abc-123"}"#), Ok("runtime/abc-123".to_string()));
    assert_eq!(runtime_directory(br#"{"directory": "../x"}"#), Err(LauncherError::InvalidRuntimeDirectory));
    assert_eq!(runtime_directory(br#"{"directory": 3}"#), Err(LauncherError::InvalidRuntimeManifest));
    assert_eq!(runtime_directory(br#"{}"#), Err(LauncherError::InvalidRuntimeManifest));
    assert_eq!(runtime_directory(b"directory"), Err(LauncherError::RuntimeManifestNotJson));
    assert_eq!(LauncherError::InvalidRuntimeManifest.message(), "Invalid runtime.json");
}

#[test]
fn fingerprint_does_not_depend_on_file_order() {
    let a = FingerprintFile { path: "C:\\r\\b.dll".into(), contents: b"bb".to_vec() };
    let b = FingerprintFile { path: "C:\\r\\a.dll".into(), contents: b"aa".to_vec() };
    let c = FingerprintFile { path: "C:\\tool\\hook.dll".into(), contents: vec![1, 2, 3] };
    let one = fingerprint(b"{}", &[a.clone_file(), b.clone_file(), c.clone_file()]);
    let two = fingerprint(b"{}", &[c.clone_file(), a.clone_file(), b.clone_file()]);
    assert_eq!(one, two);
    let in_order = fingerprint(b"{}", &[b.clone_file(), a.clone_file(), c.clone_file()]);
    assert_eq!(one, in_order);
    assert_ne!(one, fingerprint(b"{ }", &[a, b, c]));
}

trait CloneFile {
    fn clone_file(&self) -> FingerprintFile;
}

impl CloneFile for FingerprintFile {
    fn clone_file(&self) -> FingerprintFile {
        FingerprintFile { path: self.path.clone(), contents: self.contents.clone() }
    }
}

#[test]
fn hooked_requests_are_refused_without_a_session() {
    assert!(matches!(plan_hooked_request(None, None, "notepad.exe"), CreateAction::Refuse));
    let s = session();
    assert!(matches!(plan_hooked_request(Some(&s), None, "notepad.exe"), CreateAction::PassThrough));
}

#[test]
fn non_ascii_paths_still_ignore_ascii_case() {
    assert!(same_path("C:\\Données\\Projet", "c:/DONNéES/projet"));
    assert!(!same_path("C:\\Données", "C:\\DONNÉES2"));
}

#[test]
fn compiler_expansion_drops_only_switches_of_top_level_unity_responses() {
    let project = "C:\\Game";
    let bee = "C:\\Game\\Library\\Bee\\artifacts\\a.dag\\A.rsp";
    let files = vec![
        ResponseFile { reference: "A.rsp".into(), path: bee.into(),
            contents: Some(b"-langversion:9.0 /define:X @user.rsp".to_vec()) },
        ResponseFile { reference: "user.rsp".into(), path: "C:\\Game\\user.rsp".into(),
            contents: Some(b"-langversion:14 u.cs".to_vec()) },
    ];
    let args = strings(&["-x", "@A.rsp", "@user.rsp"]);
    match (expand_compiler_response(&args, &files, project), expand_response(&args, &files, 0)) {
        (Expansion::Expanded(c), Expansion::Expanded(p)) => {
            assert_eq!(p, ["-x", "-langversion:9.0", "/define:X", "-langversion:14", "u.cs", "-langversion:14", "u.cs"]);
            assert_eq!(c, ["-x", "/define:X", "-langversion:14", "u.cs", "-langversion:14", "u.cs"]);
        }
        _ => panic!("expected expansions"),
    }
}
