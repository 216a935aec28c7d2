use launcher_core::{command, prepare_args, split_args, without_define};

#[test]
fn package_drops_advance_define_without_dropping_unity_defines() {
    assert_eq!(
        without_define(
            vec!["-define:UNITY_EDITOR;MIRA_ADVANCE;DEBUG".into(), "/nullable:enable".into()],
            "MIRA_ADVANCE"
        ),
        ["/define:UNITY_EDITOR;DEBUG", "/nullable:enable"]
    );
    assert!(without_define(vec!["/d:MIRA_ADVANCE".into()], "MIRA_ADVANCE").is_empty());
}

#[test]
fn quoting_round_trip() {
    let input: Vec<String> = [
        "",
        "plain",
        "a b",
        "中文路径\\",
        "a\\\"b",
        "x\"y",
        "C:\\path with space\\",
    ]
    .into_iter()
    .map(String::from)
    .collect();
    assert_eq!(split_args(&command(&input), false).unwrap(), input);
}

#[test]
fn response_comments_and_defines() {
    assert_eq!(
        split_args("# comment\n/r:\"a b.dll\"\n/define:X;Y\n\"a#b.cs\"", true).unwrap(),
        ["/r:a b.dll", "/define:X;Y", "a#b.cs"]
    );
}

#[test]
fn explicit_language_overrides_default_and_server_is_disabled() {
    let a = [
        "-langversion:9.0",
        "/shared",
        "-shared:pipe",
        "-noconfig",
        "/r:UnityEngine.dll",
        "a.cs",
    ]
    .into_iter()
    .map(String::from)
    .collect();
    assert_eq!(
        prepare_args(a, "12"),
        [
            "/langversion:12",
            "-langversion:9.0",
            "/r:UnityEngine.dll",
            "a.cs"
        ]
    );
}

#[test]
fn rejects_broken_quotes() {
    assert!(split_args("\"broken", true).is_err());
}

use launcher_core::{
    effective_language, expand_compiler_response, expand_response, is_unconfigured_package, package_responses,
    Expansion, ResponseFile,
};
use std::collections::HashMap;

/// A stand-in for the file system: file paths (with `/`) and their bytes.
type Files = HashMap<String, Vec<u8>>;

fn resolve(cwd: &str, reference: &str) -> String {
    if reference.starts_with('/') {
        reference.to_string()
    } else {
        format!("{cwd}/{reference}")
    }
}

/// Gives an expansion the response files it asks for until it is done.
fn expand_from(args: &[String], cwd: &str, project: Option<&str>, disk: &Files) -> Result<Vec<String>, String> {
    let mut files: Vec<ResponseFile> = Vec::new();
    loop {
        let step = match project {
            Some(p) => expand_compiler_response(args, &files, p),
            None => expand_response(args, &files, 0),
        };
        match step {
            Expansion::Expanded(v) => return Ok(v),
            Expansion::Failed(e) => return Err(e.message().to_string()),
            Expansion::NeedsFile(reference) => {
                let path = resolve(cwd, &reference);
                let contents = disk.get(&path).cloned();
                files.push(ResponseFile { reference, path, contents });
            }
        }
    }
}

/// The library names files the Windows way; the stand-in file system uses `/`.
fn unconfigured(args: &[String], project: &str, disk: &Files) -> bool {
    let existing: Vec<String> = package_responses(args, project)
        .unwrap_or_default()
        .into_iter()
        .filter(|p| disk.contains_key(&p.replace('\\', "/")))
        .collect();
    is_unconfigured_package(args, project, &existing)
}

#[test]
fn unconfigured_package_uses_unity_but_package_response_opts_in() {
    let project = "C:\\Temp\\roslyn-package-test";
    let package = format!("{project}\\Library/PackageCache/com.example@1.0.0/Runtime");
    let mut disk = Files::new();
    let args = vec![
        "-out:Library/Bee/artifacts/Example.dll".into(),
        "Library/PackageCache/com.example@1.0.0/Runtime/Example.cs".into(),
        "-langversion:preview".into(),
    ];
    assert!(unconfigured(&args, project, &disk));
    assert!(!unconfigured(&["Assets/Scripts/Game.cs".into()], project, &disk));
    assert!(!unconfigured(&[args[1].clone(), "Assets/Game.cs".into()], project, &disk));
    let absolute = vec![format!("{package}\\Example.cs")];
    assert!(unconfigured(&absolute, project, &disk));
    disk.insert(format!("{package}/csc.rsp").replace('\\', "/"), b"-langversion:14".to_vec());
    assert!(!unconfigured(&args, project, &disk));
}

#[test]
fn bee_default_is_distinct_from_explicit_user_overrides() {
    let project = "/tmp/roslyn-bee-test";
    let response = format!("{project}/Library/Bee/artifacts/test.dag/Example.rsp");
    let input = vec![format!("@{response}")];
    let mut disk = Files::new();
    for (user, expected) in [
        ("", "12"),
        ("/langversion:14", "14"),
        ("-langversion:9.0", "9.0"),
        ("/langversion:14 /langversion:10", "10"),
        ("/LANGVERSION:preview", "preview"),
    ] {
        disk.insert(response.clone(), format!("-langversion:9.0 /define:KEEP_ME {user}").into_bytes());
        let prepared = prepare_args(expand_from(&input, project, Some(project), &disk).unwrap(), "12");
        assert_eq!(effective_language(&prepared, "12"), expected);
        assert!(prepared.contains(&"/define:KEEP_ME".to_string()));
    }
    disk.insert(format!("{project}/custom.rsp"), b"-langversion:14 /nullable:enable".to_vec());
    disk.insert(response.clone(), b"-langversion:9.0 @custom.rsp".to_vec());
    let prepared = prepare_args(expand_from(&input, project, Some(project), &disk).unwrap(), "12");
    assert_eq!(effective_language(&prepared, "12"), "14");
    assert!(prepared.contains(&"/nullable:enable".to_string()));
    // A directly supplied custom response has no generated default to strip.
    let prepared = prepare_args(
        expand_from(&["@custom.rsp".into()], project, Some(project), &disk).unwrap(),
        "12",
    );
    assert_eq!(effective_language(&prepared, "12"), "14");
}

#[test]
fn nested_unicode_response_and_cycle() {
    let root = "/tmp/roslyn-rsp-test";
    let utf16: Vec<u8> = "\u{feff}/r:\"中文 space.dll\"\n-langversion:9.0"
        .encode_utf16()
        .flat_map(u16::to_le_bytes)
        .collect();
    let mut disk = Files::new();
    disk.insert(format!("{root}/inner.rsp"), utf16);
    disk.insert(format!("{root}/outer.rsp"), b"# comment\n@inner.rsp\n\"code file.cs\"".to_vec());
    let args = expand_from(&["@outer.rsp".into()], root, None, &disk).unwrap();
    assert_eq!(
        prepare_args(args, "12"),
        ["/langversion:12", "/r:中文 space.dll", "-langversion:9.0", "code file.cs"]
    );
    disk.insert(format!("{root}/outer.rsp"), b"@outer.rsp".to_vec());
    assert!(expand_from(&["@outer.rsp".into()], root, None, &disk).is_err());
}
