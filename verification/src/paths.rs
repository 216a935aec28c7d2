use vstd::prelude::*;
use crate::options::{first_index, lemma_first_index};
use crate::text::{ascii_lower, ascii_lower_seq, chars_of, eq_ignore_case, eq_ignore_case_range, is_ascii_text, push_char, string_from_chars, string_of_range};

verus! {

/// Unicode lower case of `s`, as `str::to_lowercase` computes it.
pub uninterp spec fn lowercase(s: Seq<char>) -> Seq<char>;

/// `str::to_lowercase`: std documents it as the Unicode `Lowercase` mapping of
/// each character (with the final-sigma rule); its result depends on `s` alone
/// and is named here by [`lowercase`], not written out. Of the mapping, two
/// facts are stated: ASCII text maps to its ASCII lower case, and the result
/// is the same when ASCII capital letters are made small first (the mapping
/// goes character by character, and the final-sigma rule treats small and
/// capital ASCII letters alike, as cased letters).
#[verifier::external_body]
pub(crate) fn to_lowercase(s: &str) -> (r: String)
    ensures
        r@ == lowercase(s@),
        r@ == lowercase(ascii_lower_seq(s@)),
        is_ascii_text(s@) ==> r@ == ascii_lower_seq(s@),
{
    s.to_lowercase()
}

/// `s` with every `/` written as `\`.
pub open spec fn backslashed(s: Seq<char>) -> Seq<char> {
    s.map_values(|c: char| if c == '/' { '\\' } else { c })
}

/// The verbatim path prefix `\\?\`.
pub open spec fn verbatim_prefix() -> Seq<char> {
    seq!['\\', '\\', '?', '\\']
}

/// `s` without the verbatim prefixes at its start.
pub open spec fn trim_verbatim(s: Seq<char>) -> Seq<char>
    decreases s.len(),
{
    if s.len() >= 4 && s.take(4) == verbatim_prefix() {
        trim_verbatim(s.skip(4))
    } else {
        s
    }
}

/// The form in which two paths are compared: separators as `\`, without
/// verbatim prefixes, in Unicode lower case (which `str::to_lowercase` gives
/// alike whether ASCII letters come small or capital).
pub open spec fn path_key(p: Seq<char>) -> Seq<char> {
    lowercase(ascii_lower_seq(trim_verbatim(backslashed(p))))
}

fn backslashed_chars(s: &str) -> (out: Vec<char>)
    ensures
        out@ == backslashed(s@),
{
    let chars = chars_of(s);
    let mut out: Vec<char> = Vec::new();
    let mut i: usize = 0;
    while i < chars.len()
        invariant
            i <= chars.len(),
            chars@ == s@,
            out@ == backslashed(s@).take(i as int),
        decreases chars.len() - i,
    {
        let c = chars[i];
        out.push(if c == '/' { '\\' } else { c });
        i = i + 1;
        assert(out@ =~= backslashed(s@).take(i as int));
    }
    assert(backslashed(s@).take(chars.len() as int) =~= backslashed(s@));
    out
}

fn path_key_exec(p: &str) -> (out: String)
    ensures
        out@ == path_key(p@),
        is_ascii_text(p@) ==> out@ == ascii_path_key(p@),
{
    let chars = backslashed_chars(p);
    let mut k: usize = 0;
    assert(chars@.skip(0) =~= chars@);
    while chars.len() - k >= 4 && chars[k] == '\\' && chars[k + 1] == '\\' && chars[k + 2] == '?'
        && chars[k + 3] == '\\'
        invariant
            k <= chars.len(),
            trim_verbatim(chars@.skip(k as int)) == trim_verbatim(chars@),
        decreases chars.len() - k,
    {
        assert(chars@.skip(k as int).take(4) =~= verbatim_prefix());
        assert(chars@.skip(k as int).skip(4) =~= chars@.skip(k + 4));
        k = k + 4;
    }
    if chars.len() - k >= 4 {
        assert(chars@.skip(k as int).take(4)[0] == chars@[k as int]);
        assert(chars@.skip(k as int).take(4)[1] == chars@[k + 1]);
        assert(chars@.skip(k as int).take(4)[2] == chars@[k + 2]);
        assert(chars@.skip(k as int).take(4)[3] == chars@[k + 3]);
    }
    let trimmed = string_of_range(&chars, k, chars.len());
    assert(trimmed@ =~= chars@.skip(k as int));
    proof {
        if is_ascii_text(p@) {
            lemma_ascii_key(p@);
        }
    }
    to_lowercase(trimmed.as_str())
}

/// Whether `a` and `b` name the same file by Windows rules: `/` and `\` alike,
/// verbatim prefixes ignored, compared without case.
pub fn same_path(a: &str, b: &str) -> (r: bool)
    ensures
        r == (path_key(a@) == path_key(b@)),
        is_ascii_text(a@) && is_ascii_text(b@) ==> r == (ascii_path_key(a@) == ascii_path_key(b@)),
{
    let ka = path_key_exec(a);
    let kb = path_key_exec(b);
    ka == kb
}


/// Whether `p` starts with the verbatim prefix, where only `\` separates.
pub open spec fn is_verbatim(p: Seq<char>) -> bool {
    p.len() >= 4 && p.take(4) == verbatim_prefix()
}

/// Whether `c` separates the components of a path (a verbatim path takes `\` only).
pub open spec fn is_path_sep(verbatim: bool, c: char) -> bool {
    c == '\\' || (!verbatim && c == '/')
}

/// Whether `p` is a bare drive such as `C:`.
pub open spec fn is_drive(p: Seq<char>) -> bool {
    p.len() == 2 && p[1] == ':' && (('a' <= p[0] && p[0] <= 'z') || ('A' <= p[0] && p[0] <= 'Z'))
}

/// `base` joined with the relative path `rel` by Windows rules: a `\` goes
/// between them unless `base` is empty, ends with a separator or is a bare drive.
pub open spec fn join_relative(base: Seq<char>, rel: Seq<char>) -> Seq<char> {
    if base.len() == 0 || is_path_sep(is_verbatim(base), base.last()) || is_drive(base) {
        base + rel
    } else {
        base + seq!['\\'] + rel
    }
}

/// Joins the relative path `rel` to `base`.
pub fn join_path(base: &str, rel: &str) -> (r: String)
    ensures
        r@ == join_relative(base@, rel@),
{
    let chars = chars_of(base);
    let n = chars.len();
    let verbatim = n >= 4 && chars[0] == '\\' && chars[1] == '\\' && chars[2] == '?' && chars[3] == '\\';
    assert(verbatim == is_verbatim(base@)) by {
        if n >= 4 {
            assert(verbatim_prefix() =~= seq!['\\', '\\', '?', '\\']);
            if verbatim {
                assert(base@.take(4) =~= verbatim_prefix());
            } else if base@.take(4) == verbatim_prefix() {
                assert(base@.take(4)[0] == base@[0]);
                assert(base@.take(4)[1] == base@[1]);
                assert(base@.take(4)[2] == base@[2]);
                assert(base@.take(4)[3] == base@[3]);
            }
        }
    }
    let drive = n == 2 && chars[1] == ':' && (('a' <= chars[0] && chars[0] <= 'z') || ('A' <= chars[0]
        && chars[0] <= 'Z'));
    let mut out = String::from_str(base);
    if !(n == 0 || chars[n - 1] == '\\' || (!verbatim && chars[n - 1] == '/') || drive) {
        push_char(&mut out, '\\');
    }
    out.append(rel);
    out
}

/// The pieces of `p` between separators, empty ones included.
pub open spec fn path_pieces(p: Seq<char>, verbatim: bool) -> Seq<Seq<char>>
    decreases p.len(),
{
    if p.len() == 0 {
        seq![seq![]]
    } else {
        let init = path_pieces(p.drop_last(), verbatim);
        if is_path_sep(verbatim, p.last()) {
            init.push(seq![])
        } else {
            init.update(init.len() - 1, init.last().push(p.last()))
        }
    }
}

pub proof fn lemma_path_pieces_len(p: Seq<char>, verbatim: bool)
    ensures
        path_pieces(p, verbatim).len() >= 1,
    decreases p.len(),
{
    if p.len() > 0 {
        lemma_path_pieces_len(p.drop_last(), verbatim);
    }
}

/// Whether a piece is a component: empty pieces are not, nor is `.` outside
/// verbatim paths.
pub open spec fn keeps_piece(piece: Seq<char>, verbatim: bool) -> bool {
    piece.len() > 0 && (verbatim || piece != seq!['.'])
}

/// The components of `p`, separated as in a verbatim path when `verbatim`.
pub open spec fn components(p: Seq<char>, verbatim: bool) -> Seq<Seq<char>> {
    path_pieces(p, verbatim).filter(|x: Seq<char>| keeps_piece(x, verbatim))
}

/// The components of `p`.
pub open spec fn segments(p: Seq<char>) -> Seq<Seq<char>> {
    components(p, is_verbatim(p))
}

/// A component that names a file or directory (not `.` or `..`).
pub open spec fn named(x: Seq<char>) -> Option<Seq<char>> {
    if x == seq!['.'] || x == seq!['.', '.'] {
        None
    } else {
        Some(x)
    }
}

/// The last component of `p`, when it is a name.
pub open spec fn file_name(p: Seq<char>) -> Option<Seq<char>> {
    let s = segments(p);
    if s.len() >= 1 {
        named(s.last())
    } else {
        None
    }
}

/// The name of the directory that holds the last component of `p`.
pub open spec fn parent_name(p: Seq<char>) -> Option<Seq<char>> {
    let s = segments(p);
    if s.len() >= 2 {
        named(s[s.len() - 2])
    } else {
        None
    }
}

/// The position of the last `c` in `s` before `end`, or -1.
pub open spec fn last_index(s: Seq<char>, c: char, end: int) -> int
    decreases end,
{
    if end <= 0 || end > s.len() {
        -1
    } else if s[end - 1] == c {
        end - 1
    } else {
        last_index(s, c, end - 1)
    }
}

/// The extension of a file name: what follows its last dot, when a dot stands
/// after its first character.
pub open spec fn extension(name: Seq<char>) -> Option<Seq<char>> {
    let k = last_index(name, '.', name.len() as int);
    if name == seq!['.', '.'] || k <= 0 {
        None
    } else {
        Some(name.skip(k + 1))
    }
}

/// Whether `name` is a name with the extension `ext`, compared without ASCII case.
pub open spec fn has_extension(name: Option<Seq<char>>, ext: Seq<char>) -> bool {
    match name {
        Some(n) => match extension(n) {
            Some(e) => eq_ignore_case(e, ext),
            None => false,
        },
        None => false,
    }
}

/// The components of `p`, computed.
fn path_segments(p: &[char]) -> (out: Vec<Vec<char>>)
    ensures
        out@.len() == segments(p@).len(),
        forall|i: int| 0 <= i < out@.len() ==> #[trigger] out@[i]@ == segments(p@)[i],
{
    let n = p.len();
    let verbatim = n >= 4 && p[0] == '\\' && p[1] == '\\' && p[2] == '?' && p[3] == '\\';
    assert(verbatim == is_verbatim(p@)) by {
        if n >= 4 {
            if verbatim {
                assert(p@.take(4) =~= verbatim_prefix());
            } else if p@.take(4) == verbatim_prefix() {
                assert(p@.take(4)[0] == p@[0]);
                assert(p@.take(4)[1] == p@[1]);
                assert(p@.take(4)[2] == p@[2]);
                assert(p@.take(4)[3] == p@[3]);
            }
        }
    }
    let out = components_of(p, p.len(), verbatim);
    assert(p@.take(p.len() as int) =~= p@);
    out
}

/// The components of `p[..n]`, separated as in a verbatim path when `verbatim`.
pub fn components_of(p: &[char], n: usize, verbatim: bool) -> (out: Vec<Vec<char>>)
    requires
        n <= p.len(),
    ensures
        out@.len() == components(p@.take(n as int), verbatim).len(),
        forall|i: int| 0 <= i < out@.len() ==> #[trigger] out@[i]@ == components(p@.take(n as int), verbatim)[i],
{
    let ghost q = p@.take(n as int);
    let ghost pred = |x: Seq<char>| keeps_piece(x, verbatim);
    let mut out: Vec<Vec<char>> = Vec::new();
    let mut start: usize = 0;
    let mut j: usize = 0;
    proof {
        assert(q.take(0) =~= Seq::<char>::empty());
        assert(path_pieces(q.take(0), verbatim) =~= seq![Seq::<char>::empty()]);
        assert(path_pieces(q.take(0), verbatim).drop_last() =~= Seq::<Seq<char>>::empty());
        reveal_with_fuel(Seq::<_>::filter, 1);
        assert(q.subrange(0, 0) =~= Seq::<char>::empty());
    }
    while j < n
        invariant
            n <= p.len(),
            q == p@.take(n as int),
            start <= j <= n,
            pred == (|x: Seq<char>| keeps_piece(x, verbatim)),
            path_pieces(q.take(j as int), verbatim).len() >= 1,
            path_pieces(q.take(j as int), verbatim).last() == q.subrange(start as int, j as int),
            out@.len() == path_pieces(q.take(j as int), verbatim).drop_last().filter(pred).len(),
            forall|i: int| 0 <= i < out@.len() ==> #[trigger] out@[i]@
                == path_pieces(q.take(j as int), verbatim).drop_last().filter(pred)[i],
        decreases n - j,
    {
        let ghost parts = path_pieces(q.take(j as int), verbatim);
        let ghost next = path_pieces(q.take(j + 1), verbatim);
        let ghost done = parts.drop_last().filter(pred);
        assert(q.take(j + 1).drop_last() =~= q.take(j as int));
        assert(q.take(j + 1).last() == p@[j as int]);
        proof {
            lemma_path_pieces_len(q.take(j as int), verbatim);
        }
        if p[j] == '\\' || (!verbatim && p[j] == '/') {
            let dot = vec!['.'];
            let keep = j > start && (verbatim || !crate::text::eq_range(p, start, j, &dot));
            assert(dot@ =~= seq!['.']);
            assert(q.subrange(start as int, j as int) =~= p@.subrange(start as int, j as int));
            proof {
                reveal_with_fuel(Seq::<_>::filter, 1);
                assert(parts.drop_last().push(parts.last()) =~= parts);
            }
            if keep {
                out.push(crate::text::copy_chars(p, start, j));
                assert(parts.filter(pred) =~= done.push(parts.last()));
            } else {
                assert(parts.filter(pred) =~= done);
            }
            assert(next =~= parts.push(Seq::<char>::empty()));
            assert(next.drop_last() =~= parts);
            assert(q.subrange(j + 1, j + 1) =~= Seq::<char>::empty());
            start = j + 1;
        } else {
            assert(next =~= parts.update(parts.len() - 1, parts.last().push(p@[j as int])));
            assert(next.drop_last() =~= parts.drop_last());
            assert(next.last() =~= q.subrange(start as int, j + 1));
        }
        j = j + 1;
    }
    let ghost parts = path_pieces(q.take(n as int), verbatim);
    let ghost done = parts.drop_last().filter(pred);
    assert(q.take(n as int) =~= q);
    proof {
        reveal_with_fuel(Seq::<_>::filter, 1);
        assert(parts.drop_last().push(parts.last()) =~= parts);
    }
    let dot = vec!['.'];
    assert(dot@ =~= seq!['.']);
    assert(q.subrange(start as int, n as int) =~= p@.subrange(start as int, n as int));
    if n > start && (verbatim || !crate::text::eq_range(p, start, n, &dot)) {
        out.push(crate::text::copy_chars(p, start, n));
        assert(parts.filter(pred) =~= done.push(parts.last()));
    } else {
        assert(parts.filter(pred) =~= done);
    }
    out
}

fn named_extension_is(seg: &[char], ext: &[char]) -> (r: bool)
    ensures
        r == has_extension(named(seg@), ext@),
{
    let n = seg.len();
    if (n == 1 && seg[0] == '.') || (n == 2 && seg[0] == '.' && seg[1] == '.') {
        assert(seg@ =~= seq!['.'] || seg@ =~= seq!['.', '.']);
        return false;
    }
    assert(seg@ != seq!['.'] && seg@ != seq!['.', '.']) by {
        if seg@ == seq!['.'] {
            assert(seg@[0] == '.');
        }
        if seg@ == seq!['.', '.'] {
            assert(seg@[0] == '.' && seg@[1] == '.');
        }
    }
    let mut k: usize = n;
    while k > 0 && seg[k - 1] != '.'
        invariant
            k <= n,
            n == seg.len(),
            last_index(seg@, '.', k as int) == last_index(seg@, '.', n as int),
        decreases k,
    {
        k = k - 1;
    }
    if k <= 1 {
        return false;
    }
    assert(seg@.skip(k as int) =~= seg@.subrange(k as int, n as int));
    eq_ignore_case_range(seg, k, n, ext)
}

/// The directory of Unity's generated response files under a project.
pub open spec fn bee_artifacts() -> Seq<char> {
    seq!['L', 'i', 'b', 'r', 'a', 'r', 'y', '/', 'B', 'e', 'e', '/', 'a', 'r', 't', 'i', 'f', 'a', 'c', 't', 's']
}

/// Whether `path` is a response file that Unity's build generated for `project`:
/// it lies under `Library/Bee/artifacts` of the project (compared with `/` as `\`
/// and in lower case), has the extension `rsp`, and its directory has the
/// extension `dag`.
pub open spec fn is_unity_response_spec(path: Seq<char>, project: Seq<char>) -> bool {
    let key = lowercase(ascii_lower_seq(backslashed(path)));
    let base = lowercase(ascii_lower_seq(backslashed(join_relative(project, bee_artifacts())))) + seq!['\\'];
    &&& base.len() <= key.len()
    &&& key.take(base.len() as int) == base
    &&& has_extension(file_name(path), seq!['r', 's', 'p'])
    &&& has_extension(parent_name(path), seq!['d', 'a', 'g'])
}

/// Whether `path` is a response file that Unity's build generated for `project`.
pub fn is_unity_response(path: &str, project: &str) -> (r: bool)
    ensures
        r == is_unity_response_spec(path@, project@),
{
    let key_chars = backslashed_chars(path);
    let key_text = string_from_chars(&key_chars);
    let key = chars_of(to_lowercase(key_text.as_str()).as_str());
    proof {
        reveal_strlit("Library/Bee/artifacts");
    }
    let joined = join_path(project, "Library/Bee/artifacts");
    assert("Library/Bee/artifacts"@ =~= bee_artifacts());
    let base_chars = backslashed_chars(joined.as_str());
    let base_text = string_from_chars(&base_chars);
    let mut base = chars_of(to_lowercase(base_text.as_str()).as_str());
    base.push('\\');
    let ghost spec_base = lowercase(ascii_lower_seq(backslashed(join_relative(project@, bee_artifacts())))) + seq![
        '\\',
    ];
    assert(base@ =~= spec_base);
    if base.len() > key.len() || !crate::text::eq_range(&key, 0, base.len(), &base) {
        return false;
    }
    let path_chars = chars_of(path);
    let segs = path_segments(&path_chars);
    let n = segs.len();
    if n < 2 {
        return false;
    }
    let rsp = vec!['r', 's', 'p'];
    let dag = vec!['d', 'a', 'g'];
    assert(rsp@ =~= seq!['r', 's', 'p']);
    assert(dag@ =~= seq!['d', 'a', 'g']);
    named_extension_is(&segs[n - 1], &rsp) && named_extension_is(&segs[n - 2], &dag)
}


/// Whether the last component of `p` is the name `name`, without ASCII case.
pub open spec fn has_file_name(p: Seq<char>, name: Seq<char>) -> bool {
    match file_name(p) {
        Some(f) => eq_ignore_case(f, name),
        None => false,
    }
}

/// Whether the last component of `p` is the name `name`, without ASCII case.
pub fn file_name_is(p: &str, name: &[char]) -> (r: bool)
    ensures
        r == has_file_name(p@, name@),
{
    let chars = chars_of(p);
    let segs = path_segments(&chars);
    let n = segs.len();
    if n == 0 {
        return false;
    }
    let last = &segs[n - 1];
    let m = last.len();
    if (m == 1 && last[0] == '.') || (m == 2 && last[0] == '.' && last[1] == '.') {
        assert(last@ =~= seq!['.'] || last@ =~= seq!['.', '.']);
        return false;
    }
    assert(last@ != seq!['.'] && last@ != seq!['.', '.']) by {
        if last@ == seq!['.'] {
            assert(last@[0] == '.');
        }
        if last@ == seq!['.', '.'] {
            assert(last@[0] == '.' && last@[1] == '.');
        }
    }
    assert(last@.subrange(0, m as int) =~= last@);
    eq_ignore_case_range(last, 0, m, name)
}

/// The form in which path text is searched: `/` as `\`, in Unicode lower case.
pub open spec fn search_key(p: Seq<char>) -> Seq<char> {
    lowercase(ascii_lower_seq(backslashed(p)))
}

/// [`search_key`], computed.
pub fn search_key_exec(p: &str) -> (r: Vec<char>)
    ensures
        r@ == search_key(p@),
{
    let b = backslashed_chars(p);
    let t = string_from_chars(&b);
    let l = to_lowercase(t.as_str());
    chars_of(l.as_str())
}


/// The pieces of `p` between `/` and `\` separators, empty ones included.
pub fn pieces(p: &[char]) -> (out: Vec<Vec<char>>)
    ensures
        out@.len() == path_pieces(p@, false).len(),
        forall|i: int| 0 <= i < out@.len() ==> #[trigger] out@[i]@ == path_pieces(p@, false)[i],
{
    let n = p.len();
    let mut out: Vec<Vec<char>> = Vec::new();
    let mut start: usize = 0;
    let mut j: usize = 0;
    assert(p@.take(0) =~= Seq::<char>::empty());
    assert(p@.subrange(0, 0) =~= Seq::<char>::empty());
    while j < n
        invariant
            n == p.len(),
            start <= j <= n,
            path_pieces(p@.take(j as int), false).len() >= 1,
            path_pieces(p@.take(j as int), false).last() == p@.subrange(start as int, j as int),
            out@.len() + 1 == path_pieces(p@.take(j as int), false).len(),
            forall|i: int| 0 <= i < out@.len() ==> #[trigger] out@[i]@ == path_pieces(p@.take(j as int), false)[i],
        decreases n - j,
    {
        let ghost parts = path_pieces(p@.take(j as int), false);
        let ghost next = path_pieces(p@.take(j + 1), false);
        assert(p@.take(j + 1).drop_last() =~= p@.take(j as int));
        assert(p@.take(j + 1).last() == p@[j as int]);
        proof {
            lemma_path_pieces_len(p@.take(j as int), false);
        }
        if p[j] == '\\' || p[j] == '/' {
            out.push(crate::text::copy_chars(p, start, j));
            assert(next =~= parts.push(Seq::<char>::empty()));
            assert(p@.subrange(j + 1, j + 1) =~= Seq::<char>::empty());
            start = j + 1;
        } else {
            assert(next =~= parts.update(parts.len() - 1, parts.last().push(p@[j as int])));
            assert(next.last() =~= p@.subrange(start as int, j + 1));
        }
        j = j + 1;
    }
    assert(p@.take(n as int) =~= p@);
    out.push(crate::text::copy_chars(p, start, n));
    out
}

/// Whether `a` and `b` are the same text up to which of `/` and `\` stands at
/// each separator.
pub open spec fn same_up_to_separators(a: Seq<char>, b: Seq<char>) -> bool {
    &&& a.len() == b.len()
    &&& forall|i: int| 0 <= i < a.len() ==> #[trigger] a[i] == b[i] || ((a[i] == '/' || a[i] == '\\') && (b[i] == '/'
        || b[i] == '\\'))
}

proof fn lemma_lower_fixed(c: char, d: char)
    requires
        ascii_lower(c) == ascii_lower(d),
        !('A' <= c && c <= 'Z'),
        !('a' <= c && c <= 'z'),
    ensures
        c == d,
{
    if 'A' <= d && d <= 'Z' {
        assert((((d as u32) + 32) as char) as u32 == (d as u32) + 32);
        assert(false);
    }
}

proof fn lemma_backslashed_case(x: Seq<char>, y: Seq<char>)
    requires
        eq_ignore_case(x, y),
    ensures
        eq_ignore_case(backslashed(x), backslashed(y)),
{
    assert forall|i: int| 0 <= i < x.len() implies ascii_lower(#[trigger] backslashed(x)[i]) == ascii_lower(
        backslashed(y)[i],
    ) by {
        assert(ascii_lower(x[i]) == ascii_lower(y[i]));
        if x[i] == '/' {
            lemma_lower_fixed(x[i], y[i]);
        } else if y[i] == '/' {
            lemma_lower_fixed(y[i], x[i]);
        }
    }
}

proof fn lemma_trim_verbatim_case(x: Seq<char>, y: Seq<char>)
    requires
        eq_ignore_case(x, y),
    ensures
        eq_ignore_case(trim_verbatim(x), trim_verbatim(y)),
    decreases x.len(),
{
    if x.len() >= 4 {
        if x.take(4) == verbatim_prefix() || y.take(4) == verbatim_prefix() {
            assert forall|j: int| 0 <= j < 4 implies x[j] == y[j] by {
                assert(ascii_lower(x[j]) == ascii_lower(y[j]));
                if x.take(4) == verbatim_prefix() {
                    assert(x[j] == x.take(4)[j]);
                    lemma_lower_fixed(x[j], y[j]);
                } else {
                    assert(y[j] == y.take(4)[j]);
                    lemma_lower_fixed(y[j], x[j]);
                }
            }
            assert(x.take(4) =~= y.take(4));
            assert forall|i: int| 0 <= i < x.skip(4).len() implies ascii_lower(#[trigger] x.skip(4)[i]) == ascii_lower(
                y.skip(4)[i],
            ) by {
                assert(x.skip(4)[i] == x[i + 4]);
                assert(y.skip(4)[i] == y[i + 4]);
            }
            lemma_trim_verbatim_case(x.skip(4), y.skip(4));
        }
    }
}

proof fn lemma_ascii_suffix(x: Seq<char>, n: int)
    requires
        is_ascii_text(x),
        0 <= n <= x.len(),
    ensures
        is_ascii_text(x.skip(n)),
{
    assert forall|i: int| 0 <= i < x.skip(n).len() implies (#[trigger] x.skip(n)[i] as u32) < 128 by {
        assert(x.skip(n)[i] == x[i + n]);
    }
}

proof fn lemma_trim_verbatim_suffix(x: Seq<char>)
    ensures
        exists|n: int| 0 <= n <= x.len() && trim_verbatim(x) == #[trigger] x.skip(n),
    decreases x.len(),
{
    if x.len() >= 4 && x.take(4) == verbatim_prefix() {
        lemma_trim_verbatim_suffix(x.skip(4));
        let n = choose|n: int| 0 <= n <= x.skip(4).len() && trim_verbatim(x.skip(4)) == #[trigger] x.skip(4).skip(n);
        assert(x.skip(4).skip(n) =~= x.skip(n + 4));
    } else {
        assert(x.skip(0) =~= x);
    }
}

proof fn lemma_ascii_key(x: Seq<char>)
    requires
        is_ascii_text(x),
    ensures
        is_ascii_text(trim_verbatim(backslashed(x))),
{
    let b = backslashed(x);
    assert forall|i: int| 0 <= i < b.len() implies (#[trigger] b[i] as u32) < 128 by {
        assert((x[i] as u32) < 128);
    }
    lemma_trim_verbatim_suffix(b);
    let n = choose|n: int| 0 <= n <= b.len() && trim_verbatim(b) == #[trigger] b.skip(n);
    lemma_ascii_suffix(b, n);
}

/// The comparison form of an ASCII path: [`path_key`] with ASCII lower case,
/// which is what `str::to_lowercase` gives on ASCII text.
pub open spec fn ascii_path_key(p: Seq<char>) -> Seq<char> {
    ascii_lower_seq(trim_verbatim(backslashed(p)))
}

/// Path comparison is an equivalence that ignores which separator is written,
/// a leading `\\?\` prefix and the case of ASCII letters, in any path; ASCII
/// paths, which [`same_path`] also compares by [`ascii_path_key`], compare
/// alike by that form.
pub proof fn path_comparison_laws(a: Seq<char>, b: Seq<char>, c: Seq<char>, a2: Seq<char>)
    ensures
        path_key(a) == path_key(a),
        (path_key(a) == path_key(b)) == (path_key(b) == path_key(a)),
        path_key(a) == path_key(b) && path_key(b) == path_key(c) ==> path_key(a) == path_key(c),
        same_up_to_separators(a, a2) ==> path_key(a2) == path_key(a) && ascii_path_key(a2) == ascii_path_key(a),
        path_key(verbatim_prefix() + a) == path_key(a),
        ascii_path_key(verbatim_prefix() + a) == ascii_path_key(a),
        eq_ignore_case(a, a2) ==> path_key(a2) == path_key(a),
        is_ascii_text(a) && is_ascii_text(a2) && eq_ignore_case(a, a2) ==> ascii_path_key(a2) == ascii_path_key(a),
{
    if same_up_to_separators(a, a2) {
        assert(backslashed(a) =~= backslashed(a2));
    }
    let p = verbatim_prefix() + a;
    assert(backslashed(p).take(4) =~= verbatim_prefix());
    assert(backslashed(p).skip(4) =~= backslashed(a));
    if eq_ignore_case(a, a2) {
        lemma_backslashed_case(a, a2);
        lemma_trim_verbatim_case(backslashed(a), backslashed(a2));
        let ka = trim_verbatim(backslashed(a));
        let kb = trim_verbatim(backslashed(a2));
        assert(ascii_lower_seq(ka) =~= ascii_lower_seq(kb));
    }
}

proof fn lemma_last_index_at(s: Seq<char>, c: char, end: int, stop: int)
    requires
        1 <= stop <= end <= s.len(),
        s[stop - 1] == c,
        forall|t: int| stop <= t < end ==> s[t] != c,
    ensures
        last_index(s, c, end) == stop - 1,
    decreases end,
{
    if end > stop {
        lemma_last_index_at(s, c, end - 1, stop);
    }
}

/// The extension of a file name is what follows its last dot: whatever dots
/// `a` holds, `a.b` has the extension `b` when `b` holds none.
pub proof fn extension_is_after_last_dot(a: Seq<char>, b: Seq<char>)
    requires
        a.len() > 0,
        b.len() > 0,
        !b.contains('.'),
    ensures
        extension(a + seq!['.'] + b) == Some(b),
{
    let name = a + seq!['.'] + b;
    assert(name[a.len() as int] == '.');
    assert forall|t: int| a.len() + 1 <= t < name.len() implies name[t] != '.' by {
        assert(name[t] == b[t - a.len() - 1]);
        if name[t] == '.' {
            assert(b.contains('.'));
        }
    }
    lemma_last_index_at(name, '.', name.len() as int, a.len() as int + 1);
    assert(name.skip(a.len() as int + 1) =~= b);
    assert(name != seq!['.', '.']) by {
        assert(name.len() >= 3);
    }
}

/// Whether `n` holds no path separator.
pub open spec fn no_separator(n: Seq<char>) -> bool {
    forall|i: int| 0 <= i < n.len() ==> #[trigger] n[i] != '/' && n[i] != '\\'
}

proof fn lemma_pieces_append(p: Seq<char>, n: Seq<char>, verbatim: bool)
    requires
        no_separator(n),
    ensures
        path_pieces(p + seq!['\\'] + n, verbatim) == path_pieces(p, verbatim).push(n),
    decreases n.len(),
{
    if n.len() == 0 {
        assert(p + seq!['\\'] + n =~= p.push('\\'));
        assert(p.push('\\').drop_last() =~= p);
        assert(p.push('\\').last() == '\\');
        assert(n =~= Seq::<char>::empty());
    } else {
        let m = n.drop_last();
        lemma_pieces_append(p, m, verbatim);
        let q = p + seq!['\\'] + n;
        assert(q.drop_last() =~= p + seq!['\\'] + m);
        assert(q.last() == n.last());
        assert(!is_path_sep(verbatim, n[n.len() - 1]));
        let init = path_pieces(p, verbatim).push(m);
        assert(m.push(n.last()) =~= n);
        assert(init.last() == m);
        assert(init.update(init.len() - 1, init.last().push(q.last())) =~= path_pieces(p, verbatim).push(n));
    }
}

proof fn lemma_components_append(p: Seq<char>, n: Seq<char>, verbatim: bool)
    requires
        no_separator(n),
        n.len() > 0,
        n != seq!['.'],
    ensures
        components(p + seq!['\\'] + n, verbatim) == components(p, verbatim).push(n),
{
    lemma_pieces_append(p, n, verbatim);
    let pred = |x: Seq<char>| keeps_piece(x, verbatim);
    let s = path_pieces(p, verbatim).push(n);
    reveal_with_fuel(Seq::<_>::filter, 1);
    assert(s.drop_last() =~= path_pieces(p, verbatim));
    assert(pred(n));
}

/// Where Unity's build writes an assembly's response file,
/// `DIR\H.dag\NAME.rsp`, the file name has the extension `rsp` and its
/// directory the extension `dag`, whatever dots `H` and `NAME` hold, so that
/// such a file under the project's `Library/Bee/artifacts` is recognised
/// ([`is_unity_response_spec`]) for an assembly such as `Unity.TextMeshPro`.
pub proof fn generated_response_names_are_recognised(dir: Seq<char>, h: Seq<char>, name: Seq<char>)
    requires
        h.len() > 0,
        name.len() > 0,
        no_separator(h),
        no_separator(name),
    ensures
        ({
            let p = dir + seq!['\\'] + (h + seq!['.', 'd', 'a', 'g']) + seq!['\\'] + (name + seq!['.', 'r', 's', 'p']);
            &&& file_name(p) == Some(name + seq!['.', 'r', 's', 'p'])
            &&& parent_name(p) == Some(h + seq!['.', 'd', 'a', 'g'])
            &&& has_extension(file_name(p), seq!['r', 's', 'p'])
            &&& has_extension(parent_name(p), seq!['d', 'a', 'g'])
        }),
{
    let dag = h + seq!['.', 'd', 'a', 'g'];
    let rsp = name + seq!['.', 'r', 's', 'p'];
    let q = dir + seq!['\\'] + dag;
    let p = q + seq!['\\'] + rsp;
    assert(h + seq!['.'] + seq!['d', 'a', 'g'] =~= dag);
    assert(name + seq!['.'] + seq!['r', 's', 'p'] =~= rsp);
    assert(!seq!['d', 'a', 'g'].contains('.')) by {
        if seq!['d', 'a', 'g'].contains('.') {
            let i = choose|i: int| 0 <= i < 3 && seq!['d', 'a', 'g'][i] == '.';
        }
    }
    assert(!seq!['r', 's', 'p'].contains('.')) by {
        if seq!['r', 's', 'p'].contains('.') {
            let i = choose|i: int| 0 <= i < 3 && seq!['r', 's', 'p'][i] == '.';
        }
    }
    extension_is_after_last_dot(h, seq!['d', 'a', 'g']);
    extension_is_after_last_dot(name, seq!['r', 's', 'p']);
    assert(no_separator(dag)) by {
        assert forall|i: int| 0 <= i < dag.len() implies #[trigger] dag[i] != '/' && dag[i] != '\\' by {
            if i < h.len() {
                assert(dag[i] == h[i]);
            }
        }
    }
    assert(no_separator(rsp)) by {
        assert forall|i: int| 0 <= i < rsp.len() implies #[trigger] rsp[i] != '/' && rsp[i] != '\\' by {
            if i < name.len() {
                assert(rsp[i] == name[i]);
            }
        }
    }
    assert(dag != seq!['.'] && dag != seq!['.', '.']) by {
        assert(dag.len() >= 5);
    }
    assert(rsp != seq!['.'] && rsp != seq!['.', '.']) by {
        assert(rsp.len() >= 5);
    }
    let v = is_verbatim(p);
    lemma_components_append(dir, dag, v);
    lemma_components_append(q, rsp, v);
    let segs = segments(p);
    assert(segs == components(dir, v).push(dag).push(rsp));
    assert(segs.last() == rsp);
    assert(segs[segs.len() - 2] == dag);
    assert(eq_ignore_case(seq!['r', 's', 'p'], seq!['r', 's', 'p']));
    assert(eq_ignore_case(seq!['d', 'a', 'g'], seq!['d', 'a', 'g']));
}

} // verus!
