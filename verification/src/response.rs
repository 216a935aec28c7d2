use vstd::prelude::*;
use vstd::utf8::{decode_utf8, encode_utf8, valid_utf8};
use crate::args::{split_args, split_spec};
use crate::error::LauncherError;
use crate::options::{language_option, language_option_spec};
use crate::paths::{is_unity_response, is_unity_response_spec};
use crate::environment::{encode_utf16, utf16_of_char};

verus! {

/// The characters that the UTF-16 code units `w` encode, or `None` when a
/// surrogate is unpaired.
pub open spec fn decode_utf16(w: Seq<u16>) -> Option<Seq<char>>
    decreases w.len(),
{
    if w.len() == 0 {
        Some(seq![])
    } else if w[0] < 0xd800 || w[0] > 0xdfff {
        match decode_utf16(w.drop_first()) {
            Some(rest) => Some(seq![(w[0] as u32) as char] + rest),
            None => None,
        }
    } else if w[0] <= 0xdbff && w.len() >= 2 && 0xdc00 <= w[1] <= 0xdfff {
        let v = 0x10000 + (w[0] - 0xd800) * 0x400 + (w[1] - 0xdc00);
        match decode_utf16(w.skip(2)) {
            Some(rest) => Some(seq![(v as u32) as char] + rest),
            None => None,
        }
    } else {
        None
    }
}

/// `String::from_utf8`: std documents that it fails exactly when the bytes are
/// not valid UTF-8, and otherwise holds the characters they encode.
#[verifier::external_body]
fn utf8_string(bytes: Vec<u8>) -> (r: Option<String>)
    ensures
        match r {
            Some(s) => valid_utf8(bytes@) && s@ == decode_utf8(bytes@),
            None => !valid_utf8(bytes@),
        },
{
    String::from_utf8(bytes).ok()
}

/// `String::from_utf16`: std documents that it fails exactly when the units
/// hold an unpaired surrogate, and otherwise holds the characters they encode.
#[verifier::external_body]
fn utf16_string(words: &[u16]) -> (r: Option<String>)
    ensures
        match r {
            Some(s) => decode_utf16(words@) == Some(s@),
            None => decode_utf16(words@) is None,
        },
{
    String::from_utf16(words).ok()
}

/// The 16-bit units of `b`, two bytes each, in little- or big-endian order.
pub open spec fn utf16_units(b: Seq<u8>, little: bool) -> Seq<u16> {
    Seq::new(
        b.len() / 2,
        |i: int|
            if little {
                (b[2 * i] + b[2 * i + 1] * 256) as u16
            } else {
                (b[2 * i] * 256 + b[2 * i + 1]) as u16
            },
    )
}

/// Whether `b` starts with a UTF-16 byte order mark.
pub open spec fn has_utf16_bom(b: Seq<u8>) -> bool {
    b.len() >= 2 && ((b[0] == 0xff && b[1] == 0xfe) || (b[0] == 0xfe && b[1] == 0xff))
}

/// The text of a response file: UTF-16 in the order its byte order mark gives
/// (the mark itself left out), otherwise UTF-8.
pub open spec fn response_text(b: Seq<u8>) -> Result<Seq<char>, LauncherError> {
    if has_utf16_bom(b) {
        if b.len() % 2 != 0 {
            Err(LauncherError::OddUtf16Length)
        } else {
            match decode_utf16(utf16_units(b.skip(2), b[0] == 0xff)) {
                Some(t) => Ok(t),
                None => Err(LauncherError::InvalidUtf16),
            }
        }
    } else if valid_utf8(b) {
        Ok(decode_utf8(b))
    } else {
        Err(LauncherError::InvalidUtf8)
    }
}

/// Decodes the bytes of a response file.
pub fn decode_response(bytes: &[u8]) -> (r: Result<String, LauncherError>)
    ensures
        match r {
            Ok(s) => response_text(bytes@) == Ok::<Seq<char>, LauncherError>(s@),
            Err(e) => response_text(bytes@) == Err::<Seq<char>, LauncherError>(e),
        },
{
    let n = bytes.len();
    if n >= 2 && ((bytes[0] == 0xff && bytes[1] == 0xfe) || (bytes[0] == 0xfe && bytes[1] == 0xff)) {
        if n % 2 != 0 {
            return Err(LauncherError::OddUtf16Length);
        }
        let little = bytes[0] == 0xff;
        let ghost rest = bytes@.skip(2);
        let mut words: Vec<u16> = Vec::new();
        let mut i: usize = 2;
        while i + 1 < n
            invariant
                2 <= i <= n,
                n == bytes.len(),
                n % 2 == 0,
                i % 2 == 0,
                rest == bytes@.skip(2),
                words@ == utf16_units(rest, little).take((i - 2) / 2),
            decreases n - i,
        {
            let lo = if little { bytes[i] } else { bytes[i + 1] };
            let hi = if little { bytes[i + 1] } else { bytes[i] };
            let w: u16 = (hi as u16) * 256 + (lo as u16);
            assert(rest[i - 2] == bytes@[i as int]);
            assert(rest[i - 1] == bytes@[i + 1]);
            words.push(w);
            i = i + 2;
            assert(words@ =~= utf16_units(rest, little).take((i - 2) / 2));
        }
        assert(words@ =~= utf16_units(rest, little));
        match utf16_string(&words) {
            Some(s) => Ok(s),
            None => Err(LauncherError::InvalidUtf16),
        }
    } else {
        let mut copy: Vec<u8> = Vec::new();
        let mut i: usize = 0;
        while i < n
            invariant
                i <= n,
                n == bytes.len(),
                copy@ == bytes@.take(i as int),
            decreases n - i,
        {
            copy.push(bytes[i]);
            i = i + 1;
            assert(copy@ =~= bytes@.take(i as int));
        }
        assert(copy@ =~= bytes@);
        match utf8_string(copy) {
            Some(s) => Ok(s),
            None => Err(LauncherError::InvalidUtf8),
        }
    }
}


/// The most deeply response files may nest.
pub const MAX_RESPONSE_DEPTH: usize = 16;

/// A response file as the caller read it: the reference that names it (the text
/// after `@`), the path it was read from, and its bytes, or `None` when it could
/// not be read.
pub struct ResponseFile {
    pub reference: String,
    pub path: String,
    pub contents: Option<Vec<u8>>,
}

/// Where an expansion stands: done, refused, or waiting for a response file
/// that the caller has not read yet.
pub enum Expansion {
    Expanded(Vec<String>),
    Failed(LauncherError),
    NeedsFile(String),
}

/// [`Expansion`] over plain values.
pub enum ExpandOutcome {
    Expanded(Seq<Seq<char>>),
    Failed(LauncherError),
    NeedsFile(Seq<char>),
}

impl View for Expansion {
    type V = ExpandOutcome;

    open spec fn view(&self) -> ExpandOutcome {
        match self {
            Expansion::Expanded(v) => ExpandOutcome::Expanded(v.deep_view()),
            Expansion::Failed(e) => ExpandOutcome::Failed(*e),
            Expansion::NeedsFile(r) => ExpandOutcome::NeedsFile(r@),
        }
    }
}

/// The first file from `i` on whose reference is `r`, or the number of files.
pub open spec fn find_file(files: Seq<ResponseFile>, r: Seq<char>, i: int) -> int
    decreases files.len() - i,
{
    if i < 0 || i >= files.len() || files[i].reference@ == r {
        i
    } else {
        find_file(files, r, i + 1)
    }
}

/// The position of the first language version switch in `tokens` from `i` on,
/// or the number of tokens.
pub open spec fn first_language_option(tokens: Seq<Seq<char>>, i: int) -> int
    decreases tokens.len() - i,
{
    if i < 0 || i >= tokens.len() || language_option_spec(tokens[i]) is Some {
        i
    } else {
        first_language_option(tokens, i + 1)
    }
}

/// `tokens` without their first language version switch.
pub open spec fn without_first_language_option(tokens: Seq<Seq<char>>) -> Seq<Seq<char>> {
    let i = first_language_option(tokens, 0);
    if 0 <= i < tokens.len() {
        tokens.remove(i)
    } else {
        tokens
    }
}

/// `first` followed by `rest`, the first failure or missing file deciding.
pub open spec fn then_outcome(first: ExpandOutcome, rest: ExpandOutcome) -> ExpandOutcome {
    match first {
        ExpandOutcome::Expanded(x) => match rest {
            ExpandOutcome::Expanded(y) => ExpandOutcome::Expanded(x + y),
            other => other,
        },
        other => other,
    }
}

/// `args` with every `@file` argument replaced by the arguments of that response
/// file, read from `files`, at nesting `depth`. Past [`MAX_RESPONSE_DEPTH`] the
/// expansion fails, so a file that refers to itself fails too. With a Unity
/// `project`, a response file that Unity generated for it and that is named
/// directly (at depth 0) loses its first language version switch: that one is
/// Unity's built-in setting, while the ones after it are the user's.
pub open spec fn expand_spec(
    files: Seq<ResponseFile>,
    args: Seq<Seq<char>>,
    depth: nat,
    project: Option<Seq<char>>,
) -> ExpandOutcome
    decreases 17 - depth, args.len(),
{
    if depth > 16 {
        ExpandOutcome::Failed(LauncherError::ResponseNesting)
    } else if args.len() == 0 {
        ExpandOutcome::Expanded(seq![])
    } else {
        let a = args[0];
        let first = if a.len() > 0 && a[0] == '@' {
            let r = a.drop_first();
            let k = find_file(files, r, 0);
            if k < 0 || k >= files.len() {
                ExpandOutcome::NeedsFile(r)
            } else {
                let f = files[k];
                match f.contents {
                    None => ExpandOutcome::Failed(LauncherError::ResponseUnreadable),
                    Some(bytes) => match response_text(bytes@) {
                        Err(e) => ExpandOutcome::Failed(e),
                        Ok(text) => match split_spec(text, true) {
                            None => ExpandOutcome::Failed(LauncherError::UnclosedQuote),
                            Some(tokens) => {
                                let unity = depth == 0 && match project {
                                    Some(p) => is_unity_response_spec(f.path@, p),
                                    None => false,
                                };
                                let tokens2 = if unity {
                                    without_first_language_option(tokens)
                                } else {
                                    tokens
                                };
                                expand_spec(files, tokens2, depth + 1, project)
                            },
                        },
                    },
                }
            }
        } else {
            ExpandOutcome::Expanded(seq![a])
        };
        then_outcome(first, expand_spec(files, args.drop_first(), depth, project))
    }
}

proof fn lemma_then_outcome_assoc(x: Seq<Seq<char>>, y: Seq<Seq<char>>, o: ExpandOutcome)
    ensures
        then_outcome(ExpandOutcome::Expanded(x), then_outcome(ExpandOutcome::Expanded(y), o))
            == then_outcome(ExpandOutcome::Expanded(x + y), o),
{
    match o {
        ExpandOutcome::Expanded(z) => {
            assert(x + (y + z) =~= (x + y) + z);
        },
        _ => {},
    }
}

fn find_file_exec(files: &[ResponseFile], r: &str) -> (k: usize)
    ensures
        k == find_file(files@, r@, 0),
{
    let mut k: usize = 0;
    while k < files.len() && !(files[k].reference == String::from_str(r))
        invariant
            k <= files.len(),
            find_file(files@, r@, k as int) == find_file(files@, r@, 0),
        decreases files.len() - k,
    {
        k = k + 1;
    }
    k
}

fn drop_first_language_option(tokens: &mut Vec<String>)
    ensures
        final(tokens).deep_view() == without_first_language_option(old(tokens).deep_view()),
{
    let ghost t = tokens.deep_view();
    let mut i: usize = 0;
    while i < tokens.len() && language_option(tokens[i].as_str()).is_none()
        invariant
            i <= tokens.len(),
            t == tokens.deep_view(),
            first_language_option(t, i as int) == first_language_option(t, 0),
        decreases tokens.len() - i,
    {
        i = i + 1;
    }
    if i < tokens.len() {
        tokens.remove(i);
        assert(tokens.deep_view() =~= t.remove(i as int));
    }
}

/// The text after the `@` of a response file argument.
fn reference_of(a: &str) -> (r: Option<String>)
    ensures
        match r {
            Some(x) => a@.len() > 0 && a@[0] == '@' && x@ == a@.drop_first(),
            None => !(a@.len() > 0 && a@[0] == '@'),
        },
{
    let chars = crate::text::chars_of(a);
    if chars.len() > 0 && chars[0] == '@' {
        Some(crate::text::string_of_range(&chars, 1, chars.len()))
    } else {
        None
    }
}

fn expand_inner(files: &[ResponseFile], args: &[String], depth: usize, project: Option<&str>) -> (r: Expansion)
    ensures
        r@ == expand_spec(
            files@,
            args.deep_view(),
            depth as nat,
            match project {
                Some(p) => Some(p@),
                None => None,
            },
        ),
    decreases 17 - depth,
{
    let ghost proj = match project {
        Some(p) => Some(p@),
        None => None::<Seq<char>>,
    };
    if depth > 16 {
        return Expansion::Failed(LauncherError::ResponseNesting);
    }
    let mut result: Vec<String> = Vec::new();
    let mut i: usize = 0;
    assert(args.deep_view().skip(0) =~= args.deep_view());
    while i < args.len()
        invariant
            i <= args.len(),
            depth <= 16,
            proj == match project {
                Some(p) => Some(p@),
                None => None::<Seq<char>>,
            },
            expand_spec(files@, args.deep_view(), depth as nat, proj) == then_outcome(
                ExpandOutcome::Expanded(result.deep_view()),
                expand_spec(files@, args.deep_view().skip(i as int), depth as nat, proj),
            ),
        decreases args.len() - i,
    {
        let ghost rest = args.deep_view().skip(i as int);
        let ghost before = result.deep_view();
        assert(rest[0] == args[i as int]@);
        assert(rest.drop_first() =~= args.deep_view().skip(i + 1));
        match reference_of(args[i].as_str()) {
            None => {
                result.push(args[i].clone());
                assert(result.deep_view() =~= before + seq![args[i as int]@]);
                proof {
                    lemma_then_outcome_assoc(before, seq![args[i as int]@],
                        expand_spec(files@, rest.drop_first(), depth as nat, proj));
                }
            },
            Some(reference) => {
                let k = find_file_exec(files, reference.as_str());
                if k >= files.len() {
                    return Expansion::NeedsFile(reference);
                }
                let f = &files[k];
                let bytes = match &f.contents {
                    None => {
                        return Expansion::Failed(LauncherError::ResponseUnreadable);
                    },
                    Some(b) => b,
                };
                let text = match decode_response(bytes.as_slice()) {
                    Ok(t) => t,
                    Err(e) => {
                        return Expansion::Failed(e);
                    },
                };
                let mut tokens = match split_args(text.as_str(), true) {
                    Ok(t) => t,
                    Err(e) => {
                        return Expansion::Failed(e);
                    },
                };
                let unity = depth == 0 && match project {
                    Some(p) => is_unity_response(f.path.as_str(), p),
                    None => false,
                };
                if unity {
                    drop_first_language_option(&mut tokens);
                }
                match expand_inner(files, tokens.as_slice(), depth + 1, project) {
                    Expansion::Expanded(v) => {
                        let mut j: usize = 0;
                        let ghost mid = result.deep_view();
                        while j < v.len()
                            invariant
                                j <= v.len(),
                                result.deep_view() == mid + v.deep_view().take(j as int),
                            decreases v.len() - j,
                        {
                            let ghost b2 = result.deep_view();
                            result.push(v[j].clone());
                            assert(result.deep_view() =~= b2.push(v[j as int]@));
                            assert(v.deep_view().take(j + 1) =~= v.deep_view().take(j as int).push(v[j as int]@));
                            j = j + 1;
                        }
                        assert(v.deep_view().take(v.len() as int) =~= v.deep_view());
                        assert(expand_spec(files@, rest, depth as nat, proj) == then_outcome(
                            ExpandOutcome::Expanded(v.deep_view()),
                            expand_spec(files@, rest.drop_first(), depth as nat, proj),
                        ));
                        proof {
                            lemma_then_outcome_assoc(mid, v.deep_view(),
                                expand_spec(files@, rest.drop_first(), depth as nat, proj));
                        }
                    },
                    other => {
                        return other;
                    },
                }
            },
        }
        i = i + 1;
    }
    assert(args.deep_view().skip(args.len() as int) =~= Seq::<Seq<char>>::empty());
    assert(result.deep_view() + Seq::<Seq<char>>::empty() =~= result.deep_view());
    Expansion::Expanded(result)
}

/// Expands the `@file` arguments of `args`, at nesting `depth`, from the
/// response files in `files`.
pub fn expand_response(args: &[String], files: &[ResponseFile], depth: usize) -> (r: Expansion)
    ensures
        r@ == expand_spec(files@, args.deep_view(), depth as nat, None),
{
    expand_inner(files, args, depth, None)
}

/// Expands the `@file` arguments that Unity hands its compiler for `project`:
/// a response file that Unity generated for the project and that is named
/// directly loses its first language version switch.
pub fn expand_compiler_response(args: &[String], files: &[ResponseFile], project: &str) -> (r: Expansion)
    ensures
        r@ == expand_spec(files@, args.deep_view(), 0, Some(project@)),
{
    expand_inner(files, args, 0, Some(project))
}


/// A response file that refers to itself is refused for nesting too deeply,
/// from whatever depth it is reached: `files` holds the file `r`, and its text
/// is the single argument `@r`.
pub proof fn self_reference_is_refused(
    files: Seq<ResponseFile>,
    r: Seq<char>,
    depth: nat,
    project: Option<Seq<char>>,
)
    requires
        depth <= 17,
        0 <= find_file(files, r, 0) < files.len(),
        files[find_file(files, r, 0)].contents matches Some(bytes) && (match response_text(bytes@) {
            Ok(text) => split_spec(text, true) == Some(seq![seq!['@'] + r]),
            Err(_) => false,
        }),
    ensures
        expand_spec(files, seq![seq!['@'] + r], depth, project) == ExpandOutcome::Failed(
            LauncherError::ResponseNesting,
        ),
    decreases 17 - depth,
{
    let a = seq!['@'] + r;
    assert(a.drop_first() =~= r);
    if depth <= 16 {
        self_reference_is_refused(files, r, depth + 1, project);
        let tokens = seq![a];
        assert(first_language_option(tokens, 1) == 1);
        assert(language_option_spec(a) is None);
        assert(first_language_option(tokens, 0) == 1);
        assert(without_first_language_option(tokens) == tokens);
    }
}

/// Response files that the user nests are expanded whole: below the top level
/// (`depth` at least 1) no language version switch is ever dropped, so
/// expanding for a Unity project gives exactly what plain expansion gives.
pub proof fn nested_responses_are_kept_whole(
    files: Seq<ResponseFile>,
    args: Seq<Seq<char>>,
    depth: nat,
    project: Seq<char>,
)
    requires
        depth >= 1,
    ensures
        expand_spec(files, args, depth, Some(project)) == expand_spec(files, args, depth, None),
    decreases 17 - depth, args.len(),
{
    if depth <= 16 && args.len() > 0 {
        nested_responses_are_kept_whole(files, args.drop_first(), depth, project);
        let a = args[0];
        if a.len() > 0 && a[0] == '@' {
            let k = find_file(files, a.drop_first(), 0);
            if 0 <= k < files.len() {
                if let Some(bytes) = files[k].contents {
                    if let Ok(text) = response_text(bytes@) {
                        if let Some(tokens) = split_spec(text, true) {
                            nested_responses_are_kept_whole(files, tokens, depth + 1, project);
                        }
                    }
                }
            }
        }
    }
}

/// Only Unity's generated response files lose a language version switch:
/// where no response file in `files` is one that Unity generated for
/// `project`, expanding the compiler's arguments gives exactly what plain
/// expansion gives, so a user's own response file keeps its first argument.
pub proof fn user_responses_are_kept_whole(files: Seq<ResponseFile>, args: Seq<Seq<char>>, project: Seq<char>)
    requires
        forall|i: int| 0 <= i < files.len() ==> !is_unity_response_spec(#[trigger] files[i].path@, project),
    ensures
        expand_spec(files, args, 0, Some(project)) == expand_spec(files, args, 0, None),
    decreases args.len(),
{
    if args.len() > 0 {
        user_responses_are_kept_whole(files, args.drop_first(), project);
        let a = args[0];
        if a.len() > 0 && a[0] == '@' {
            let k = find_file(files, a.drop_first(), 0);
            if 0 <= k < files.len() {
                assert(!is_unity_response_spec(files[k].path@, project));
                if let Some(bytes) = files[k].contents {
                    if let Ok(text) = response_text(bytes@) {
                        if let Some(tokens) = split_spec(text, true) {
                            nested_responses_are_kept_whole(files, tokens, 1, project);
                        }
                    }
                }
            }
        }
    }
}

proof fn lemma_then_assoc(a: ExpandOutcome, b: ExpandOutcome, c: ExpandOutcome)
    ensures
        then_outcome(a, then_outcome(b, c)) == then_outcome(then_outcome(a, b), c),
{
    match (a, b, c) {
        (ExpandOutcome::Expanded(x), ExpandOutcome::Expanded(y), ExpandOutcome::Expanded(z)) => {
            assert(x + (y + z) =~= (x + y) + z);
        },
        _ => {},
    }
}

proof fn lemma_then_empty(a: ExpandOutcome)
    ensures
        then_outcome(a, ExpandOutcome::Expanded(seq![])) == a,
        then_outcome(ExpandOutcome::Expanded(seq![]), a) == a,
{
    match a {
        ExpandOutcome::Expanded(x) => {
            assert(x + Seq::<Seq<char>>::empty() =~= x);
            assert(Seq::<Seq<char>>::empty() + x =~= x);
        },
        _ => {},
    }
}

/// Expansion goes argument by argument: expanding `x` followed by `y` gives the
/// expansion of `x` followed by that of `y`, the first failure or missing file
/// deciding.
pub proof fn expansion_is_argument_by_argument(
    files: Seq<ResponseFile>,
    x: Seq<Seq<char>>,
    y: Seq<Seq<char>>,
    depth: nat,
    project: Option<Seq<char>>,
)
    ensures
        expand_spec(files, x + y, depth, project) == then_outcome(
            expand_spec(files, x, depth, project),
            expand_spec(files, y, depth, project),
        ),
    decreases x.len(),
{
    if depth > 16 {
    } else if x.len() == 0 {
        assert(x + y =~= y);
        lemma_then_empty(expand_spec(files, y, depth, project));
    } else {
        expansion_is_argument_by_argument(files, x.drop_first(), y, depth, project);
        assert((x + y).drop_first() =~= x.drop_first() + y);
        assert((x + y)[0] == x[0]);
        let first = expand_spec(files, x, depth, project);
        reveal_with_fuel(expand_spec, 1);
        let a = x[0];
        let f = if a.len() > 0 && a[0] == '@' {
            let r = a.drop_first();
            let k = find_file(files, r, 0);
            if k < 0 || k >= files.len() {
                ExpandOutcome::NeedsFile(r)
            } else {
                match files[k].contents {
                    None => ExpandOutcome::Failed(LauncherError::ResponseUnreadable),
                    Some(bytes) => match response_text(bytes@) {
                        Err(e) => ExpandOutcome::Failed(e),
                        Ok(text) => match split_spec(text, true) {
                            None => ExpandOutcome::Failed(LauncherError::UnclosedQuote),
                            Some(tokens) => {
                                let unity = depth == 0 && match project {
                                    Some(p) => is_unity_response_spec(files[k].path@, p),
                                    None => false,
                                };
                                let tokens2 = if unity {
                                    without_first_language_option(tokens)
                                } else {
                                    tokens
                                };
                                expand_spec(files, tokens2, depth + 1, project)
                            },
                        },
                    },
                }
            }
        } else {
            ExpandOutcome::Expanded(seq![a])
        };
        assert(expand_spec(files, x, depth, project) == then_outcome(f, expand_spec(files, x.drop_first(), depth, project)));
        assert(expand_spec(files, x + y, depth, project) == then_outcome(f, expand_spec(files, x.drop_first() + y, depth, project)));
        lemma_then_assoc(f, expand_spec(files, x.drop_first(), depth, project), expand_spec(files, y, depth, project));
    }
}

/// What Unity's own response file loses: named directly as the compiler's
/// argument `@r`, a response file that Unity generated for `project` expands,
/// with the same success or the same failure, to what plain expansion gives
/// less one argument, its own first language version switch (nothing from the
/// files it nests); without such a switch it expands as plainly.
pub proof fn unity_response_loses_only_its_first_switch(files: Seq<ResponseFile>, r: Seq<char>, project: Seq<char>)
    requires
        0 <= find_file(files, r, 0) < files.len(),
        is_unity_response_spec(files[find_file(files, r, 0)].path@, project),
    ensures
        ({
            let plain = expand_spec(files, seq![seq!['@'] + r], 0, None);
            let unity = expand_spec(files, seq![seq!['@'] + r], 0, Some(project));
            &&& (plain is Expanded <==> unity is Expanded)
            &&& (plain !is Expanded ==> unity == plain)
            &&& (plain matches ExpandOutcome::Expanded(v) ==> (unity == plain || exists|j: int|
                0 <= j < v.len() && language_option_spec(#[trigger] v[j]) is Some && unity
                    == ExpandOutcome::Expanded(v.remove(j))))
            &&& match files[find_file(files, r, 0)].contents {
                Some(bytes) => match response_text(bytes@) {
                    Ok(text) => match split_spec(text, true) {
                        Some(tokens) => {
                            let i = first_language_option(tokens, 0);
                            &&& plain == expand_spec(files, tokens, 1, None)
                            &&& unity == if 0 <= i < tokens.len() {
                                expand_spec(files, tokens.remove(i), 1, None)
                            } else {
                                plain
                            }
                        },
                        None => true,
                    },
                    Err(_) => true,
                },
                None => true,
            }
        }),
{
    let a = seq!['@'] + r;
    let arg = seq![a];
    assert(a.drop_first() =~= r);
    assert(arg.drop_first() =~= Seq::<Seq<char>>::empty());
    let k = find_file(files, r, 0);
    let f = files[k];
    let plain = expand_spec(files, arg, 0, None);
    let unity = expand_spec(files, arg, 0, Some(project));
    assert(arg[0] == a);
    assert(a[0] == '@');
    assert(expand_spec(files, arg.drop_first(), 0, None) == ExpandOutcome::Expanded(seq![]));
    assert(expand_spec(files, arg.drop_first(), 0, Some(project)) == ExpandOutcome::Expanded(seq![]));
    if let Some(bytes) = f.contents {
        if let Ok(text) = response_text(bytes@) {
            if let Some(tokens) = split_spec(text, true) {
                lemma_then_empty(expand_spec(files, tokens, 1, None));
                let t2 = without_first_language_option(tokens);
                lemma_then_empty(expand_spec(files, t2, 1, Some(project)));
                nested_responses_are_kept_whole(files, t2, 1, project);
                assert(plain == expand_spec(files, tokens, 1, None));
                assert(unity == expand_spec(files, t2, 1, None));
                let i = first_language_option(tokens, 0);
                if 0 <= i < tokens.len() {
                    let t = tokens[i];
                    let pre = tokens.take(i);
                    let post = tokens.skip(i + 1);
                    assert(tokens.remove(i) =~= pre + post);
                    assert(tokens =~= pre + (seq![t] + post));
                    expansion_is_argument_by_argument(files, pre, post, 1, None);
                    expansion_is_argument_by_argument(files, pre, seq![t] + post, 1, None);
                    expansion_is_argument_by_argument(files, seq![t], post, 1, None);
                    lemma_first_language_option_found(tokens, 0);
                    assert(language_option_spec(t) is Some);
                    assert(t.len() > 0 && t[0] != '@');
                    assert(seq![t].drop_first() =~= Seq::<Seq<char>>::empty());
                    lemma_then_empty(ExpandOutcome::Expanded(seq![t]));
                    assert(seq![t][0] == t);
                    assert(expand_spec(files, Seq::<Seq<char>>::empty(), 1, None) == ExpandOutcome::Expanded(seq![]));
                    assert(expand_spec(files, seq![t], 1, None) == ExpandOutcome::Expanded(seq![t]));
                    let ea = expand_spec(files, pre, 1, None);
                    let ec = expand_spec(files, post, 1, None);
                    match (ea, ec) {
                        (ExpandOutcome::Expanded(x), ExpandOutcome::Expanded(z)) => {
                            let v = x + (seq![t] + z);
                            assert(v.remove(x.len() as int) =~= x + z);
                            assert(v[x.len() as int] == t);
                        },
                        _ => {},
                    }
                    assert(t2 == tokens.remove(i));
                    assert(unity == expand_spec(files, tokens.remove(i), 1, None));
                } else {
                    assert(t2 == tokens);
                    assert(unity == plain);
                }
            }
        }
    }
}

proof fn lemma_first_language_option_found(tokens: Seq<Seq<char>>, i: int)
    requires
        0 <= i <= tokens.len(),
    ensures
        i <= first_language_option(tokens, i) <= tokens.len(),
        first_language_option(tokens, i) < tokens.len() ==> language_option_spec(
            tokens[first_language_option(tokens, i)],
        ) is Some,
    decreases tokens.len() - i,
{
    if i < tokens.len() && language_option_spec(tokens[i]) is None {
        lemma_first_language_option_found(tokens, i + 1);
    }
}

/// The arguments of `v` at the positions that `keep` marks, in order.
pub open spec fn kept_of(v: Seq<Seq<char>>, keep: Seq<bool>) -> Seq<Seq<char>>
    decreases v.len(),
{
    if v.len() == 0 || keep.len() == 0 {
        seq![]
    } else if keep[0] {
        seq![v[0]] + kept_of(v.drop_first(), keep.drop_first())
    } else {
        kept_of(v.drop_first(), keep.drop_first())
    }
}

/// Whether `w` is `v` with some of its language version switches left out
/// and everything else kept, in order.
pub open spec fn drops_only_language_switches(v: Seq<Seq<char>>, w: Seq<Seq<char>>) -> bool {
    exists|keep: Seq<bool>|
        #![trigger kept_of(v, keep)]
        keep.len() == v.len() && w == kept_of(v, keep) && forall|i: int|
            0 <= i < v.len() && !#[trigger] keep[i] ==> language_option_spec(v[i]) is Some
}

proof fn lemma_kept_all(v: Seq<Seq<char>>)
    ensures
        kept_of(v, Seq::new(v.len(), |i: int| true)) == v,
    decreases v.len(),
{
    if v.len() > 0 {
        let k = Seq::new(v.len(), |i: int| true);
        assert(k.drop_first() =~= Seq::new(v.drop_first().len(), |i: int| true));
        lemma_kept_all(v.drop_first());
        assert(seq![v[0]] + v.drop_first() =~= v);
    }
}

proof fn lemma_kept_concat(v1: Seq<Seq<char>>, k1: Seq<bool>, v2: Seq<Seq<char>>, k2: Seq<bool>)
    requires
        k1.len() == v1.len(),
    ensures
        kept_of(v1 + v2, k1 + k2) == kept_of(v1, k1) + kept_of(v2, k2),
    decreases v1.len(),
{
    if v1.len() == 0 {
        assert(v1 + v2 =~= v2);
        assert(k1 + k2 =~= k2);
        assert(Seq::<Seq<char>>::empty() + kept_of(v2, k2) =~= kept_of(v2, k2));
    } else {
        assert((v1 + v2).drop_first() =~= v1.drop_first() + v2);
        assert((k1 + k2).drop_first() =~= k1.drop_first() + k2);
        assert((v1 + v2)[0] == v1[0]);
        assert((k1 + k2)[0] == k1[0]);
        lemma_kept_concat(v1.drop_first(), k1.drop_first(), v2, k2);
        if k1[0] {
            assert(seq![v1[0]] + (kept_of(v1.drop_first(), k1.drop_first()) + kept_of(v2, k2)) =~= (seq![v1[0]]
                + kept_of(v1.drop_first(), k1.drop_first())) + kept_of(v2, k2));
        }
    }
}

proof fn lemma_kept_remove(v: Seq<Seq<char>>, j: int)
    requires
        0 <= j < v.len(),
    ensures
        kept_of(v, Seq::new(v.len(), |i: int| i != j)) == v.remove(j),
    decreases v.len(),
{
    let k = Seq::new(v.len(), |i: int| i != j);
    if j == 0 {
        assert(k.drop_first() =~= Seq::new(v.drop_first().len(), |i: int| true));
        lemma_kept_all(v.drop_first());
        assert(v.remove(0) =~= v.drop_first());
    } else {
        assert(k.drop_first() =~= Seq::new(v.drop_first().len(), |i: int| i != j - 1));
        lemma_kept_remove(v.drop_first(), j - 1);
        assert(seq![v[0]] + v.drop_first().remove(j - 1) =~= v.remove(j));
    }
}

proof fn lemma_drops_refl(v: Seq<Seq<char>>)
    ensures
        drops_only_language_switches(v, v),
{
    let k = Seq::new(v.len(), |i: int| true);
    lemma_kept_all(v);
    assert(k.len() == v.len() && v == kept_of(v, k) && forall|i: int|
        0 <= i < v.len() && !#[trigger] k[i] ==> language_option_spec(v[i]) is Some);
}

proof fn lemma_drops_concat(v1: Seq<Seq<char>>, w1: Seq<Seq<char>>, v2: Seq<Seq<char>>, w2: Seq<Seq<char>>)
    requires
        drops_only_language_switches(v1, w1),
        drops_only_language_switches(v2, w2),
    ensures
        drops_only_language_switches(v1 + v2, w1 + w2),
{
    let k1 = choose|keep: Seq<bool>|
        #![trigger kept_of(v1, keep)]
        keep.len() == v1.len() && w1 == kept_of(v1, keep) && forall|i: int|
            0 <= i < v1.len() && !#[trigger] keep[i] ==> language_option_spec(v1[i]) is Some;
    let k2 = choose|keep: Seq<bool>|
        #![trigger kept_of(v2, keep)]
        keep.len() == v2.len() && w2 == kept_of(v2, keep) && forall|i: int|
            0 <= i < v2.len() && !#[trigger] keep[i] ==> language_option_spec(v2[i]) is Some;
    let k = k1 + k2;
    let v = v1 + v2;
    lemma_kept_concat(v1, k1, v2, k2);
    assert forall|i: int| 0 <= i < v.len() && !#[trigger] k[i] implies language_option_spec(v[i]) is Some by {
        if i < v1.len() {
            assert(k[i] == k1[i]);
            assert(v[i] == v1[i]);
        } else {
            assert(k[i] == k2[i - v1.len()]);
            assert(v[i] == v2[i - v1.len()]);
        }
    }
    assert(k.len() == v.len() && w1 + w2 == kept_of(v, k));
}

/// One argument of Unity's compiler expands, for the project, as it expands
/// plainly, less at most one language version switch.
proof fn lemma_compiler_argument(files: Seq<ResponseFile>, a: Seq<char>, project: Seq<char>)
    ensures
        ({
            let plain = expand_spec(files, seq![a], 0, None);
            let unity = expand_spec(files, seq![a], 0, Some(project));
            &&& (plain is Expanded <==> unity is Expanded)
            &&& (plain !is Expanded ==> unity == plain)
            &&& (plain matches ExpandOutcome::Expanded(v) ==> (unity matches ExpandOutcome::Expanded(w)
                && drops_only_language_switches(v, w)))
        }),
{
    let arg = seq![a];
    let plain = expand_spec(files, arg, 0, None);
    let unity = expand_spec(files, arg, 0, Some(project));
    assert(arg[0] == a);
    assert(arg.drop_first() =~= Seq::<Seq<char>>::empty());
    assert(expand_spec(files, arg.drop_first(), 0, None) == ExpandOutcome::Expanded(seq![]));
    assert(expand_spec(files, arg.drop_first(), 0, Some(project)) == ExpandOutcome::Expanded(seq![]));
    let r = a.drop_first();
    let k = find_file(files, r, 0);
    if a.len() > 0 && a[0] == '@' && 0 <= k < files.len() {
        assert(seq!['@'] + r =~= a);
        if is_unity_response_spec(files[k].path@, project) {
            unity_response_loses_only_its_first_switch(files, r, project);
            if let ExpandOutcome::Expanded(v) = plain {
                if unity == plain {
                    lemma_drops_refl(v);
                } else {
                    let j = choose|j: int|
                        0 <= j < v.len() && language_option_spec(#[trigger] v[j]) is Some && unity
                            == ExpandOutcome::Expanded(v.remove(j));
                    let keep = Seq::new(v.len(), |i: int| i != j);
                    lemma_kept_remove(v, j);
                    assert(keep.len() == v.len() && v.remove(j) == kept_of(v, keep) && forall|i: int|
                        0 <= i < v.len() && !#[trigger] keep[i] ==> language_option_spec(v[i]) is Some);
                }
            }
        } else {
            if let Some(bytes) = files[k].contents {
                if let Ok(text) = response_text(bytes@) {
                    if let Some(tokens) = split_spec(text, true) {
                        nested_responses_are_kept_whole(files, tokens, 1, project);
                        lemma_then_empty(expand_spec(files, tokens, 1, None));
                    }
                }
            }
            assert(unity == plain);
            if let ExpandOutcome::Expanded(v) = plain {
                lemma_drops_refl(v);
            }
        }
    } else {
        assert(unity == plain);
        if let ExpandOutcome::Expanded(v) = plain {
            lemma_drops_refl(v);
        }
    }
}

/// How Unity's compiler arguments expand for the project, against plain
/// expansion, for every argument list: the two succeed together, fail alike,
/// and on success the compiler's arguments are the plain ones less some
/// language version switches, and nothing else. Which switches go is stated by
/// [`unity_response_loses_only_its_first_switch`] for each top-level argument
/// ([`expansion_is_argument_by_argument`]): the first one of each response file
/// that Unity generated for the project and that is named at the top level;
/// where there is none, the two are equal ([`user_responses_are_kept_whole`]).
pub proof fn compiler_expansion_drops_only_unity_switches(
    files: Seq<ResponseFile>,
    args: Seq<Seq<char>>,
    project: Seq<char>,
)
    ensures
        ({
            let plain = expand_spec(files, args, 0, None);
            let unity = expand_spec(files, args, 0, Some(project));
            &&& (plain is Expanded <==> unity is Expanded)
            &&& (plain !is Expanded ==> unity == plain)
            &&& (plain matches ExpandOutcome::Expanded(v) ==> (unity matches ExpandOutcome::Expanded(w)
                && drops_only_language_switches(v, w)))
        }),
    decreases args.len(),
{
    if args.len() == 0 {
        lemma_drops_refl(seq![]);
    } else {
        let a = args[0];
        let rest = args.drop_first();
        assert(seq![a] + rest =~= args);
        compiler_expansion_drops_only_unity_switches(files, rest, project);
        lemma_compiler_argument(files, a, project);
        expansion_is_argument_by_argument(files, seq![a], rest, 0, None);
        expansion_is_argument_by_argument(files, seq![a], rest, 0, Some(project));
        let p1 = expand_spec(files, seq![a], 0, None);
        let u1 = expand_spec(files, seq![a], 0, Some(project));
        let p2 = expand_spec(files, rest, 0, None);
        let u2 = expand_spec(files, rest, 0, Some(project));
        if let (ExpandOutcome::Expanded(v1), ExpandOutcome::Expanded(v2)) = (p1, p2) {
            let w1 = u1->Expanded_0;
            let w2 = u2->Expanded_0;
            lemma_drops_concat(v1, w1, v2, w2);
        }
    }
}

/// A response file written as UTF-8 (without a byte order mark) reads back as
/// exactly the text written, whatever characters it holds.
pub proof fn utf8_response_files_read_back(text: Seq<char>)
    ensures
        response_text(encode_utf8(text)) == Ok::<Seq<char>, LauncherError>(text),
{
    let b = encode_utf8(text);
    vstd::utf8::encode_utf8_valid_utf8(text);
    vstd::utf8::encode_utf8_decode_utf8(text);
    if b.len() >= 2 {
        assert(vstd::utf8::valid_first_scalar(b));
        assert(b[0] <= 0xf7);
    }
}

/// The bytes of the 16-bit units `w`, each with its low byte first.
pub open spec fn le_bytes(w: Seq<u16>) -> Seq<u8> {
    Seq::new(2 * w.len(), |i: int| if i % 2 == 0 { (w[i / 2] % 256) as u8 } else { (w[i / 2] / 256) as u8 })
}

proof fn lemma_encode_utf16_front(s: Seq<char>)
    requires
        s.len() > 0,
    ensures
        encode_utf16(s) == utf16_of_char(s[0]) + encode_utf16(s.drop_first()),
    decreases s.len(),
{
    if s.len() == 1 {
        assert(s.drop_last() =~= Seq::<char>::empty());
        assert(s.drop_first() =~= Seq::<char>::empty());
        assert(encode_utf16(s.drop_last()) == Seq::<u16>::empty());
        assert(encode_utf16(s.drop_first()) == Seq::<u16>::empty());
        assert(s.last() == s[0]);
        assert(encode_utf16(s) =~= utf16_of_char(s[0]));
    } else {
        lemma_encode_utf16_front(s.drop_last());
        assert(s.drop_last().drop_first() =~= s.drop_first().drop_last());
        assert(s.drop_first().last() == s.last());
        assert(s.drop_last()[0] == s[0]);
        assert(encode_utf16(s) =~= utf16_of_char(s[0]) + encode_utf16(s.drop_first()));
    }
}

proof fn lemma_decode_encode_utf16(s: Seq<char>)
    ensures
        decode_utf16(encode_utf16(s)) == Some(s),
    decreases s.len(),
{
    if s.len() == 0 {
        assert(encode_utf16(s) =~= Seq::<u16>::empty());
    } else {
        let c = s[0];
        let v = c as u32;
        lemma_encode_utf16_front(s);
        lemma_decode_encode_utf16(s.drop_first());
        vstd::utf8::char_is_scalar(c);
        vstd::utf8::char_u32_cast(c, v);
        let w = encode_utf16(s);
        let rest = encode_utf16(s.drop_first());
        if v < 0x10000 {
            assert(w[0] == v as u16);
            assert(w.drop_first() =~= rest);
            assert((w[0] as u32) == v);
        } else {
            let q = (v - 0x10000) / 0x400;
            let r = (v - 0x10000) % 0x400;
            assert(w[0] == (0xd800 + q) as u16);
            assert(w[1] == (0xdc00 + r) as u16);
            assert(w.skip(2) =~= rest);
            assert(0x10000 + (w[0] - 0xd800) * 0x400 + (w[1] - 0xdc00) == v);
        }
        assert(seq![c] + s.drop_first() =~= s);
    }
}

/// A response file written as UTF-16 with its byte order mark, low byte first
/// (as Windows writes it), reads back as exactly the text written, whatever
/// characters it holds, those outside the basic plane included.
pub proof fn utf16_response_files_read_back(text: Seq<char>)
    ensures
        response_text(seq![0xffu8, 0xfeu8] + le_bytes(encode_utf16(text))) == Ok::<Seq<char>, LauncherError>(text),
{
    let w = encode_utf16(text);
    let b = seq![0xffu8, 0xfeu8] + le_bytes(w);
    assert(b[0] == 0xff && b[1] == 0xfe);
    let units = utf16_units(b.skip(2), true);
    assert(b.skip(2) =~= le_bytes(w));
    assert forall|i: int| 0 <= i < w.len() implies #[trigger] units[i] == w[i] by {
        let lo = le_bytes(w)[2 * i];
        let hi = le_bytes(w)[2 * i + 1];
        assert(lo == (w[i] % 256) as u8);
        assert(hi == (w[i] / 256) as u8);
        assert((w[i] % 256) + (w[i] / 256) * 256 == w[i]);
    }
    assert(units =~= w);
    lemma_decode_encode_utf16(text);
}

} // verus!
