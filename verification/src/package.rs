use vstd::prelude::*;
use crate::options::is_switch_char;
use crate::paths::{components, components_of, is_path_sep, join_path, join_relative, lemma_path_pieces_len, path_pieces};
use crate::text::{chars_of, eq_ignore_case, eq_ignore_case_range, string_from_chars};

verus! {

/// `s` with every `\` written as `/`.
pub open spec fn forward_slashed(s: Seq<char>) -> Seq<char> {
    s.map_values(|c: char| if c == '\\' { '/' } else { c })
}

/// `s` without the `./` pairs at its start.
pub open spec fn trim_dot_slash(s: Seq<char>) -> Seq<char>
    decreases s.len(),
{
    if s.len() >= 2 && s[0] == '.' && s[1] == '/' {
        trim_dot_slash(s.skip(2))
    } else {
        s
    }
}

/// A source file's path relative to the project, with `/` separators: the path
/// without the project's own directory in front when it starts with it (without
/// ASCII case), else the path without leading `./`.
pub open spec fn package_relative(a: Seq<char>, project: Seq<char>) -> Seq<char> {
    let norm = forward_slashed(a);
    let prefix = forward_slashed(project).push('/');
    if prefix.len() <= norm.len() && eq_ignore_case(norm.take(prefix.len() as int), prefix) {
        norm.skip(prefix.len() as int)
    } else {
        trim_dot_slash(norm)
    }
}

pub open spec fn word_library() -> Seq<char> {
    seq!['L', 'i', 'b', 'r', 'a', 'r', 'y']
}

pub open spec fn word_package_cache() -> Seq<char> {
    seq!['P', 'a', 'c', 'k', 'a', 'g', 'e', 'C', 'a', 'c', 'h', 'e']
}

pub open spec fn word_packages() -> Seq<char> {
    seq!['P', 'a', 'c', 'k', 'a', 'g', 'e', 's']
}

pub open spec fn library_bee_dir() -> Seq<char> {
    seq!['l', 'i', 'b', 'r', 'a', 'r', 'y', '/', 'b', 'e', 'e', '/']
}

/// How one compiler argument bears on whether an assembly is a package's.
pub enum PackageSource {
    /// A switch, a file that is not C# source, or a source that Unity generated.
    Ignored,
    /// A source file of the package whose directory is `root`, at `source`.
    Package(Seq<char>, Seq<char>),
    /// A source file outside packages.
    Outside,
}

/// Whether `a` is a C# source file name, `.cs` without ASCII case.
pub open spec fn is_cs_source(a: Seq<char>) -> bool {
    a.len() >= 3 && eq_ignore_case(a.skip(a.len() - 3), seq!['.', 'c', 's'])
}

/// Where a source argument `a` stands: in a package under `Library/PackageCache/<name>`
/// or `Packages/<name>` of the project (folder names without ASCII case), among
/// Unity's generated sources under `Library/Bee/`, or elsewhere.
pub open spec fn classify_source(a: Seq<char>, project: Seq<char>) -> PackageSource {
    if (a.len() > 0 && is_switch_char(a[0])) || !is_cs_source(a) {
        PackageSource::Ignored
    } else {
        let rel = package_relative(a, project);
        let parts = path_pieces(rel, false);
        if parts.len() >= 4 && eq_ignore_case(parts[0], word_library()) && eq_ignore_case(
            parts[1],
            word_package_cache(),
        ) {
            PackageSource::Package(
                join_relative(join_relative(project, word_library() + seq!['/'] + word_package_cache()), parts[2]),
                join_relative(project, rel),
            )
        } else if parts.len() >= 3 && eq_ignore_case(parts[0], word_packages()) {
            PackageSource::Package(join_relative(join_relative(project, word_packages()), parts[1]), join_relative(project, rel))
        } else if rel.len() >= 12 && eq_ignore_case(rel.take(12), library_bee_dir()) {
            PackageSource::Ignored
        } else {
            PackageSource::Outside
        }
    }
}

/// The package directory and the package sources of `args`, or `None` when an
/// argument is a source outside packages or in a second package.
pub open spec fn scan_sources(args: Seq<Seq<char>>, project: Seq<char>) -> Option<(Option<Seq<char>>, Seq<Seq<char>>)>
    decreases args.len(),
{
    if args.len() == 0 {
        Some((None, seq![]))
    } else {
        match scan_sources(args.drop_last(), project) {
            None => None,
            Some((root, sources)) => match classify_source(args.last(), project) {
                PackageSource::Ignored => Some((root, sources)),
                PackageSource::Outside => None,
                PackageSource::Package(r, s) => match root {
                    Some(prior) => if components(prior, false) != components(r, false) {
                        None
                    } else {
                        Some((Some(r), sources.push(s)))
                    },
                    None => Some((Some(r), sources.push(s))),
                },
            },
        }
    }
}

/// The file name `csc.rsp`.
pub open spec fn csc_rsp() -> Seq<char> {
    seq!['c', 's', 'c', '.', 'r', 's', 'p']
}

/// Where the walk up from a source ends when it never meets the package
/// directory: in the current directory for a relative path, in the current
/// directory of its drive for a drive-relative path, else at the root.
pub open spec fn top_response(s: Seq<char>) -> Seq<Seq<char>> {
    let drive = s.len() >= 2 && s[1] == ':' && (('a' <= s[0] && s[0] <= 'z') || ('A' <= s[0] && s[0] <= 'Z'));
    if drive {
        if s.len() == 2 || !is_path_sep(false, s[2]) {
            seq![s.take(2) + csc_rsp()]
        } else {
            seq![]
        }
    } else if s.len() == 0 || !is_path_sep(false, s[0]) {
        seq![csc_rsp()]
    } else {
        seq![]
    }
}

/// The `csc.rsp` files that opt a package source `s` in: one in each directory
/// above the file, from its own up to the package directory (components
/// `root`), or to the top when it is never met.
pub open spec fn response_walk(s: Seq<char>, root: Seq<Seq<char>>, q: int) -> Seq<Seq<char>>
    decreases q,
{
    if q <= 0 || q > s.len() {
        top_response(s)
    } else if is_path_sep(false, s[q - 1]) {
        let file = s.take(q) + csc_rsp();
        if components(s.take(q), false) == root {
            seq![file]
        } else {
            seq![file] + response_walk(s, root, q - 1)
        }
    } else {
        response_walk(s, root, q - 1)
    }
}

/// The `csc.rsp` files that opt the sources in, source after source.
pub open spec fn response_walks(sources: Seq<Seq<char>>, root: Seq<Seq<char>>) -> Seq<Seq<char>>
    decreases sources.len(),
{
    if sources.len() == 0 {
        seq![]
    } else {
        response_walks(sources.drop_last(), root) + response_walk(sources.last(), root, sources.last().len() as int)
    }
}

/// The `csc.rsp` files whose absence makes `args` an unconfigured package
/// assembly, or `None` when `args` is not one package's sources whatever files exist.
pub open spec fn package_responses_spec(args: Seq<Seq<char>>, project: Seq<char>) -> Option<Seq<Seq<char>>> {
    match scan_sources(args, project) {
        Some((Some(root), sources)) => Some(response_walks(sources, components(root, false))),
        _ => None,
    }
}


/// Whether two lists of components are equal.
fn same_components(a: &Vec<Vec<char>>, b: &Vec<Vec<char>>) -> (r: bool)
    ensures
        r == (a@.len() == b@.len() && forall|i: int| 0 <= i < a@.len() ==> #[trigger] a@[i]@ == b@[i]@),
{
    if a.len() != b.len() {
        return false;
    }
    let mut i: usize = 0;
    while i < a.len()
        invariant
            i <= a.len(),
            a.len() == b.len(),
            forall|k: int| 0 <= k < i ==> #[trigger] a@[k]@ == b@[k]@,
        decreases a.len() - i,
    {
        let x = &a[i];
        let y = &b[i];
        if x.len() != y.len() || !crate::text::eq_range(x.as_slice(), 0, x.len(), y.as_slice()) {
            assert(x@.subrange(0, x.len() as int) =~= x@);
            return false;
        }
        assert(x@.subrange(0, x.len() as int) =~= x@);
        i = i + 1;
    }
    true
}

fn forward_chars(s: &str) -> (out: Vec<char>)
    ensures
        out@ == forward_slashed(s@),
{
    let chars = chars_of(s);
    let mut out: Vec<char> = Vec::new();
    let mut i: usize = 0;
    while i < chars.len()
        invariant
            i <= chars.len(),
            chars@ == s@,
            out@ == forward_slashed(s@).take(i as int),
        decreases chars.len() - i,
    {
        let c = chars[i];
        out.push(if c == '\\' { '/' } else { c });
        i = i + 1;
        assert(out@ =~= forward_slashed(s@).take(i as int));
    }
    assert(forward_slashed(s@).take(chars.len() as int) =~= forward_slashed(s@));
    out
}

/// [`PackageSource`] with its paths computed.
enum Classified {
    Ignored,
    Package(String, String),
    Outside,
}

fn classify(a: &str, project: &str) -> (r: Classified)
    ensures
        match r {
            Classified::Ignored => classify_source(a@, project@) is Ignored,
            Classified::Outside => classify_source(a@, project@) is Outside,
            Classified::Package(root, source) => classify_source(a@, project@) == PackageSource::Package(
                root@,
                source@,
            ),
        },
{
    let chars = chars_of(a);
    let n = chars.len();
    if n > 0 && (chars[0] == '-' || chars[0] == '/') {
        return Classified::Ignored;
    }
    let cs = vec!['.', 'c', 's'];
    assert(cs@ =~= seq!['.', 'c', 's']);
    if n < 3 {
        return Classified::Ignored;
    }
    assert(a@.skip(n - 3) =~= chars@.subrange(n - 3, n as int));
    if !eq_ignore_case_range(&chars, n - 3, n, &cs) {
        return Classified::Ignored;
    }
    let norm = forward_chars(a);
    let mut prefix = forward_chars(project);
    prefix.push('/');
    let ghost rel_spec = package_relative(a@, project@);
    let rel: Vec<char> = if prefix.len() <= norm.len() && eq_ignore_case_range(&norm, 0, prefix.len(), &prefix) {
        assert(norm@.subrange(0, prefix.len() as int) =~= norm@.take(prefix.len() as int));
        let r = crate::text::copy_chars(&norm, prefix.len(), norm.len());
        assert(r@ =~= norm@.skip(prefix.len() as int));
        r
    } else {
        proof {
            if prefix.len() <= norm.len() {
                assert(norm@.subrange(0, prefix.len() as int) =~= norm@.take(prefix.len() as int));
            }
        }
        let mut k: usize = 0;
        assert(norm@.skip(0) =~= norm@);
        while norm.len() - k >= 2 && norm[k] == '.' && norm[k + 1] == '/'
            invariant
                k <= norm.len(),
                trim_dot_slash(norm@.skip(k as int)) == trim_dot_slash(norm@),
            decreases norm.len() - k,
        {
            assert(norm@.skip(k as int).skip(2) =~= norm@.skip(k + 2));
            k = k + 2;
        }
        let r = crate::text::copy_chars(&norm, k, norm.len());
        assert(r@ =~= norm@.skip(k as int));
        r
    };
    assert(rel@ == rel_spec);
    let parts = crate::paths::pieces(&rel);
    let library = vec!['L', 'i', 'b', 'r', 'a', 'r', 'y'];
    let package_cache = vec!['P', 'a', 'c', 'k', 'a', 'g', 'e', 'C', 'a', 'c', 'h', 'e'];
    let packages = vec!['P', 'a', 'c', 'k', 'a', 'g', 'e', 's'];
    assert(library@ =~= word_library());
    assert(package_cache@ =~= word_package_cache());
    assert(packages@ =~= word_packages());
    let np = parts.len();
    if np >= 4 && eq_ignore_case_range(&parts[0], 0, parts[0].len(), &library) && eq_ignore_case_range(
        &parts[1],
        0,
        parts[1].len(),
        &package_cache,
    ) {
        assert(parts@[0]@.subrange(0, parts@[0]@.len() as int) =~= parts@[0]@);
        assert(parts@[1]@.subrange(0, parts@[1]@.len() as int) =~= parts@[1]@);
        proof {
            reveal_strlit("Library/PackageCache");
        }
        assert("Library/PackageCache"@ =~= word_library() + seq!['/'] + word_package_cache());
        let base = join_path(project, "Library/PackageCache");
        let name = string_from_chars(&parts[2]);
        let root = join_path(base.as_str(), name.as_str());
        let rel_text = string_from_chars(&rel);
        let source = join_path(project, rel_text.as_str());
        return Classified::Package(root, source);
    }
    proof {
        if np >= 4 {
            assert(parts@[0]@.subrange(0, parts@[0]@.len() as int) =~= parts@[0]@);
            assert(parts@[1]@.subrange(0, parts@[1]@.len() as int) =~= parts@[1]@);
        }
    }
    if np >= 3 && eq_ignore_case_range(&parts[0], 0, parts[0].len(), &packages) {
        assert(parts@[0]@.subrange(0, parts@[0]@.len() as int) =~= parts@[0]@);
        proof {
            reveal_strlit("Packages");
        }
        assert("Packages"@ =~= word_packages());
        let base = join_path(project, "Packages");
        let name = string_from_chars(&parts[1]);
        let root = join_path(base.as_str(), name.as_str());
        let rel_text = string_from_chars(&rel);
        let source = join_path(project, rel_text.as_str());
        return Classified::Package(root, source);
    }
    proof {
        if np >= 3 {
            assert(parts@[0]@.subrange(0, parts@[0]@.len() as int) =~= parts@[0]@);
        }
    }
    let bee = vec!['l', 'i', 'b', 'r', 'a', 'r', 'y', '/', 'b', 'e', 'e', '/'];
    assert(bee@ =~= library_bee_dir());
    if rel.len() >= 12 && eq_ignore_case_range(&rel, 0, 12, &bee) {
        assert(rel@.subrange(0, 12) =~= rel@.take(12));
        Classified::Ignored
    } else {
        proof {
            if rel.len() >= 12 {
                assert(rel@.subrange(0, 12) =~= rel@.take(12));
            }
        }
        Classified::Outside
    }
}


/// The `csc.rsp` files that opt the source `s` in, walking up to `root`.
fn walk_source(s: &str, root: &Vec<Vec<char>>, out: &mut Vec<String>)
    ensures
        final(out).deep_view() == old(out).deep_view() + response_walk(
            s@,
            Seq::new(root@.len(), |i: int| root@[i]@),
            s@.len() as int,
        ),
{
    let ghost rk = Seq::new(root@.len(), |i: int| root@[i]@);
    let chars = chars_of(s);
    let n = chars.len();
    let ghost start = out.deep_view();
    let mut q: usize = n;
    while q > 0
        invariant
            q <= n,
            n == chars.len(),
            chars@ == s@,
            rk == Seq::new(root@.len(), |i: int| root@[i]@),
            start == old(out).deep_view(),
            start + response_walk(s@, rk, n as int) == out.deep_view() + response_walk(s@, rk, q as int),
        decreases q,
    {
        if chars[q - 1] == '\\' || chars[q - 1] == '/' {
            let mut file = crate::text::string_of_range(&chars, 0, q);
            proof {
                reveal_strlit("csc.rsp");
            }
            file.append("csc.rsp");
            assert(file@ =~= s@.take(q as int) + csc_rsp());
            let comps = components_of(&chars, q, false);
            let same = same_components(&comps, root);
            let ghost before = out.deep_view();
            out.push(file);
            assert(out.deep_view() =~= before + seq![s@.take(q as int) + csc_rsp()]);
            if same {
                assert(components(s@.take(q as int), false) =~= rk) by {
                    assert(chars@.take(q as int) =~= s@.take(q as int));
                    assert forall|i: int| 0 <= i < rk.len() implies #[trigger] components(s@.take(q as int), false)[i]
                        == rk[i] by {
                        assert(comps@[i]@ == root@[i]@);
                    }
                }
                assert(response_walk(s@, rk, q as int) == seq![s@.take(q as int) + csc_rsp()]);
                assert(start + response_walk(s@, rk, n as int) =~= out.deep_view());
                return;
            } else {
                assert(components(s@.take(q as int), false) != rk) by {
                    if components(s@.take(q as int), false) == rk {
                        assert(comps@.len() == rk.len());
                        assert forall|i: int| 0 <= i < comps@.len() implies #[trigger] comps@[i]@ == root@[i]@ by {
                            assert(rk[i] == root@[i]@);
                        }
                    }
                }
                assert(response_walk(s@, rk, q as int) == seq![s@.take(q as int) + csc_rsp()] + response_walk(
                    s@,
                    rk,
                    q - 1,
                ));
                assert(before + (seq![s@.take(q as int) + csc_rsp()] + response_walk(s@, rk, q - 1)) =~= out.deep_view()
                    + response_walk(s@, rk, q - 1));
            }
        }
        q = q - 1;
    }
    push_top_response(&chars, out);
    assert(response_walk(s@, rk, 0) == top_response(s@));
}

/// Adds the `csc.rsp` where a walk from `s` ends when it never meets the package directory.
fn push_top_response(s: &[char], out: &mut Vec<String>)
    ensures
        final(out).deep_view() == old(out).deep_view() + top_response(s@),
{
    let n = s.len();
    let drive = n >= 2 && s[1] == ':' && (('a' <= s[0] && s[0] <= 'z') || ('A' <= s[0] && s[0] <= 'Z'));
    proof {
        reveal_strlit("csc.rsp");
    }
    let ghost before = out.deep_view();
    if drive {
        if n == 2 || !(s[2] == '\\' || s[2] == '/') {
            let mut file = crate::text::string_of_range(s, 0, 2);
            file.append("csc.rsp");
            assert(file@ =~= s@.take(2) + csc_rsp());
            out.push(file);
            assert(out.deep_view() =~= before + top_response(s@));
        } else {
            assert(out.deep_view() =~= before + top_response(s@));
        }
    } else if n == 0 || !(s[0] == '\\' || s[0] == '/') {
        let file = String::from_str("csc.rsp");
        assert(file@ =~= csc_rsp());
        out.push(file);
        assert(out.deep_view() =~= before + top_response(s@));
    } else {
        assert(out.deep_view() =~= before + top_response(s@));
    }
}


proof fn lemma_scan_stays_none(args: Seq<Seq<char>>, project: Seq<char>, j: int, k: int)
    requires
        0 <= j <= k <= args.len(),
        scan_sources(args.take(j), project) is None,
    ensures
        scan_sources(args.take(k), project) is None,
    decreases k - j,
{
    if k > j {
        lemma_scan_stays_none(args, project, j, k - 1);
        assert(args.take(k).drop_last() =~= args.take(k - 1));
    }
}

/// The `csc.rsp` files whose absence makes `args` an unconfigured package
/// assembly of `project`, in the order they are looked for; `None` when `args`
/// is not one package's sources, whatever files exist.
pub fn package_responses(args: &[String], project: &str) -> (r: Option<Vec<String>>)
    ensures
        match r {
            Some(v) => package_responses_spec(args.deep_view(), project@) == Some(v.deep_view()),
            None => package_responses_spec(args.deep_view(), project@) is None,
        },
{
    let ghost a = args.deep_view();
    let mut root: Option<String> = None;
    let mut root_key: Vec<Vec<char>> = Vec::new();
    let mut sources: Vec<String> = Vec::new();
    let mut i: usize = 0;
    assert(a.take(0) =~= Seq::<Seq<char>>::empty());
    while i < args.len()
        invariant
            i <= args.len(),
            a == args.deep_view(),
            scan_sources(a.take(i as int), project@) == Some(
                (
                    match root {
                        Some(r) => Some(r@),
                        None => None::<Seq<char>>,
                    },
                    sources.deep_view(),
                ),
            ),
            match root {
                Some(r) => components(r@, false) == Seq::new(root_key@.len(), |k: int| root_key@[k]@),
                None => true,
            },
        decreases args.len() - i,
    {
        let ghost prev = a.take(i as int);
        assert(a.take(i + 1).drop_last() =~= prev);
        assert(a.take(i + 1).last() == args[i as int]@);
        match classify(args[i].as_str(), project) {
            Classified::Ignored => {},
            Classified::Outside => {
                proof {
                    lemma_scan_stays_none(a, project@, i + 1, a.len() as int);
                    assert(a.take(a.len() as int) =~= a);
                }
                return None;
            },
            Classified::Package(r, source) => {
                let rchars = chars_of(r.as_str());
                let key = components_of(&rchars, rchars.len(), false);
                assert(rchars@.take(rchars.len() as int) =~= r@);
                let ghost key_view = Seq::new(key@.len(), |k: int| key@[k]@);
                assert(key_view =~= components(r@, false));
                let conflict = match &root {
                    Some(prior) => !same_components(&root_key, &key),
                    None => false,
                };
                if conflict {
                    proof {
                        let prior = root->0;
                        assert(components(prior@, false) != components(r@, false)) by {
                            if components(prior@, false) == components(r@, false) {
                                assert forall|k: int| 0 <= k < root_key@.len() implies #[trigger] root_key@[k]@
                                    == key@[k]@ by {
                                    assert(Seq::new(root_key@.len(), |k: int| root_key@[k]@)[k] == root_key@[k]@);
                                    assert(key_view[k] == key@[k]@);
                                }
                            }
                        }
                        lemma_scan_stays_none(a, project@, i + 1, a.len() as int);
                        assert(a.take(a.len() as int) =~= a);
                    }
                    return None;
                }
                proof {
                    if root is Some {
                        let prior = root->0;
                        assert(Seq::new(root_key@.len(), |k: int| root_key@[k]@) =~= key_view);
                    }
                }
                let ghost before = sources.deep_view();
                root = Some(r);
                root_key = key;
                sources.push(source);
                assert(sources.deep_view() =~= before.push(sources@[before.len() as int]@));
            },
        }
        i = i + 1;
    }
    assert(a.take(args.len() as int) =~= a);
    let root_text = match root {
        Some(r) => r,
        None => {
            return None;
        },
    };
    let ghost rk = components(root_text@, false);
    let mut out: Vec<String> = Vec::new();
    let mut j: usize = 0;
    assert(sources.deep_view().take(0) =~= Seq::<Seq<char>>::empty());
    while j < sources.len()
        invariant
            j <= sources.len(),
            rk == Seq::new(root_key@.len(), |k: int| root_key@[k]@),
            out.deep_view() == response_walks(sources.deep_view().take(j as int), rk),
        decreases sources.len() - j,
    {
        let ghost before = out.deep_view();
        walk_source(sources[j].as_str(), &root_key, &mut out);
        assert(sources.deep_view().take(j + 1).drop_last() =~= sources.deep_view().take(j as int));
        assert(sources.deep_view().take(j + 1).last() == sources[j as int]@);
        j = j + 1;
    }
    assert(sources.deep_view().take(sources.len() as int) =~= sources.deep_view());
    Some(out)
}

/// Whether none of `files` is among `existing`.
pub open spec fn none_exist(files: Seq<Seq<char>>, existing: Seq<Seq<char>>) -> bool {
    forall|i: int, j: int| 0 <= i < files.len() && 0 <= j < existing.len() ==> #[trigger] files[i] != #[trigger] existing[j]
}

/// Whether `args` compile a package assembly that no package-owned `csc.rsp`
/// opts in, when the `csc.rsp` files in `existing` are the ones that exist.
pub open spec fn is_unconfigured_package_spec(args: Seq<Seq<char>>, project: Seq<char>, existing: Seq<Seq<char>>) -> bool {
    match package_responses_spec(args, project) {
        Some(files) => none_exist(files, existing),
        None => false,
    }
}

/// Whether a compilation is a package assembly that no package-owned `csc.rsp`
/// opts in to the replacement compiler, given the `csc.rsp` files among
/// [`package_responses`] that exist: every C# source of `args` lies in one and
/// the same package (under `Library/PackageCache` or `Packages`, Unity's
/// generated sources aside), and no `csc.rsp` stands in a directory from a
/// source's own up to the package directory. A project-wide `Assets/csc.rsp`
/// is no package opt-in.
pub fn is_unconfigured_package(args: &[String], project: &str, existing: &[String]) -> (r: bool)
    ensures
        r == is_unconfigured_package_spec(args.deep_view(), project@, existing.deep_view()),
{
    let files = match package_responses(args, project) {
        Some(f) => f,
        None => {
            return false;
        },
    };
    let ghost fd = files.deep_view();
    let ghost ed = existing.deep_view();
    let mut i: usize = 0;
    while i < files.len()
        invariant
            i <= files.len(),
            fd == files.deep_view(),
            ed == existing.deep_view(),
            package_responses_spec(args.deep_view(), project@) == Some(fd),
            forall|x: int, y: int| 0 <= x < i && 0 <= y < ed.len() ==> #[trigger] fd[x] != #[trigger] ed[y],
        decreases files.len() - i,
    {
        let mut j: usize = 0;
        while j < existing.len()
            invariant
                i < files.len(),
                j <= existing.len(),
                fd == files.deep_view(),
                ed == existing.deep_view(),
                package_responses_spec(args.deep_view(), project@) == Some(fd),
                forall|x: int, y: int| 0 <= x < i && 0 <= y < ed.len() ==> #[trigger] fd[x] != #[trigger] ed[y],
                forall|y: int| 0 <= y < j ==> fd[i as int] != #[trigger] ed[y],
            decreases existing.len() - j,
        {
            if files[i] == existing[j] {
                assert(fd[i as int] == ed[j as int]);
                return false;
            }
            assert(fd[i as int] != ed[j as int]);
            j = j + 1;
        }
        i = i + 1;
    }
    true
}

/// Only a package's own `csc.rsp` files opt it in: a file that is not one of
/// the [`package_responses`] of `args` (a project-wide `Assets/csc.rsp`, say)
/// changes nothing by existing.
pub proof fn only_package_responses_opt_in(
    args: Seq<Seq<char>>,
    project: Seq<char>,
    existing: Seq<Seq<char>>,
    extra: Seq<char>,
)
    requires
        package_responses_spec(args, project) matches Some(files) ==> !files.contains(extra),
    ensures
        is_unconfigured_package_spec(args, project, existing.push(extra)) == is_unconfigured_package_spec(
            args,
            project,
            existing,
        ),
{
    if let Some(files) = package_responses_spec(args, project) {
        let more = existing.push(extra);
        if none_exist(files, existing) {
            assert forall|i: int, j: int| 0 <= i < files.len() && 0 <= j < more.len() implies #[trigger] files[i]
                != #[trigger] more[j] by {
                if j == existing.len() {
                    assert(more[j] == extra);
                } else {
                    assert(more[j] == existing[j]);
                }
            }
        } else {
            let (i, j) = choose|i: int, j: int| 0 <= i < files.len() && 0 <= j < existing.len() && #[trigger] files[i]
                == #[trigger] existing[j];
            assert(more[j] == existing[j]);
        }
    }
}

} // verus!
