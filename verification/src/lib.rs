//! Argument, response-file and path rules of a Unity launcher that routes
//! Unity's C# compilations to a newer Roslyn compiler.

pub mod args;
pub mod environment;
pub mod error;
pub mod fingerprint;
pub mod hook;
pub mod launcher;
pub mod options;
pub mod package;
pub mod paths;
pub mod response;
pub mod session;
pub mod text;

pub use args::{command, quote, response_file_text, split_args};
pub use environment::merge_environment;
pub use error::LauncherError;
pub use fingerprint::{fingerprint, FingerprintFile};
pub use hook::{ansi_request_matches_exec, plan_ansi_request, plan_create_process, plan_hooked_request, AnsiAction, AnsiRefusal, CreateAction};
pub use launcher::{
    check_lang_version, check_runtime_directory, editor_version, lists_language, parse_launcher_args,
    parse_proxy_args, runtime_directory, unity_candidates, without_verbatim_prefix, LaunchOptions, LauncherCommand,
};
pub use options::{effective_language, language_option, prepare_args, without_define};
pub use package::{is_unconfigured_package, package_responses};
pub use paths::{is_unity_response, join_path, same_path};
pub use response::{decode_response, expand_compiler_response, expand_response, Expansion, ResponseFile};
pub use session::{compiler_args, default_sync_ide, Config, Session, SESSION_ENV};
