use vstd::prelude::*;

verus! {

/// Why an argument list or a response file was refused.
#[derive(Debug, Clone, Copy, PartialEq, Eq, Structural)]
pub enum LauncherError {
    /// A quote opened in an argument list was never closed.
    UnclosedQuote,
    /// A UTF-16 response file (it starts with a byte order mark) has an odd length.
    OddUtf16Length,
    /// A UTF-16 response file does not decode.
    InvalidUtf16,
    /// A UTF-8 response file does not decode.
    InvalidUtf8,
    /// Response files are nested deeper than the limit, or refer to themselves.
    ResponseNesting,
    /// A response file could not be read.
    ResponseUnreadable,
    /// The project's version file names no editor version.
    NoEditorVersion,
    /// The project's editor version holds characters other than ASCII letters, digits and dots.
    InvalidUnityVersion,
    /// The configured language version is not a fixed number such as `12` or `14.0`.
    InvalidLangVersion,
    /// The runtime directory is not a relative path without traversal.
    InvalidRuntimeDirectory,
    /// `runtime.json` is not JSON.
    RuntimeManifestNotJson,
    /// `runtime.json` names no runtime directory.
    InvalidRuntimeManifest,
    /// The compiler proxy's command line is not `--session FILE -- ARGS...`.
    ProxyUsage,
}


impl LauncherError {
    /// What the error says to a user.
    pub open spec fn message_spec(self) -> Seq<char> {
        match self {
            LauncherError::UnclosedQuote => "Unclosed quote in compiler arguments"@,
            LauncherError::OddUtf16Length => "Odd UTF-16 response file length"@,
            LauncherError::InvalidUtf16 => "Invalid UTF-16 in response file"@,
            LauncherError::InvalidUtf8 => "Invalid UTF-8 in response file"@,
            LauncherError::ResponseNesting => "Response files nested too deeply / cyclic response file"@,
            LauncherError::ResponseUnreadable => "Cannot read response file"@,
            LauncherError::NoEditorVersion => "ProjectVersion.txt has no m_EditorVersion"@,
            LauncherError::InvalidUnityVersion => "Invalid Unity version"@,
            LauncherError::InvalidLangVersion => "lang_version must be fixed, e.g. 12 or 14.0 (not latest/preview)"@,
            LauncherError::InvalidRuntimeDirectory => "Runtime directory must be a relative path without traversal"@,
            LauncherError::RuntimeManifestNotJson => "runtime.json is not valid JSON"@,
            LauncherError::InvalidRuntimeManifest => "Invalid runtime.json"@,
            LauncherError::ProxyUsage => "Expected --session <file> -- <compiler arguments>"@,
        }
    }

    /// What the error says to a user.
    pub fn message(&self) -> (r: &'static str)
        ensures
            r@ == self.message_spec(),
    {
        match self {
            LauncherError::UnclosedQuote => "Unclosed quote in compiler arguments",
            LauncherError::OddUtf16Length => "Odd UTF-16 response file length",
            LauncherError::InvalidUtf16 => "Invalid UTF-16 in response file",
            LauncherError::InvalidUtf8 => "Invalid UTF-8 in response file",
            LauncherError::ResponseNesting => "Response files nested too deeply / cyclic response file",
            LauncherError::ResponseUnreadable => "Cannot read response file",
            LauncherError::NoEditorVersion => "ProjectVersion.txt has no m_EditorVersion",
            LauncherError::InvalidUnityVersion => "Invalid Unity version",
            LauncherError::InvalidLangVersion => "lang_version must be fixed, e.g. 12 or 14.0 (not latest/preview)",
            LauncherError::InvalidRuntimeDirectory => "Runtime directory must be a relative path without traversal",
            LauncherError::RuntimeManifestNotJson => "runtime.json is not valid JSON",
            LauncherError::InvalidRuntimeManifest => "Invalid runtime.json",
            LauncherError::ProxyUsage => "Expected --session <file> -- <compiler arguments>",
        }
    }
}

} // verus!
