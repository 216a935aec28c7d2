use vstd::prelude::*;
use vstd::utf8::encode_utf8;
use sha2::Digest;
use crate::environment::{key_le, key_le_exec, lemma_key_le_reflexive, lemma_key_le_total, lemma_key_le_transitive};

verus! {

/// The SHA-256 digest of `data`, as the `sha2` crate computes it.
pub uninterp spec fn sha256(data: Seq<u8>) -> Seq<u8>;

/// `sha2::Sha256::digest`: the SHA-256 digest of `data`, named by [`sha256`];
/// the crate fixes its output size at 32 bytes.
#[verifier::external_body]
fn sha256_digest(data: &[u8]) -> (r: Vec<u8>)
    ensures
        r@ == sha256(data@),
        r@.len() == 32,
{
    sha2::Sha256::digest(data).to_vec()
}

/// A file that enters the compiler fingerprint: its path and its bytes.
pub struct FingerprintFile {
    pub path: String,
    pub contents: Vec<u8>,
}

/// A fingerprint file as plain values: its path and its bytes.
pub open spec fn file_view(f: FingerprintFile) -> (Seq<char>, Seq<u8>) {
    (f.path@, f.contents@)
}

/// The bytes that the fingerprint digests: the configuration's JSON, then
/// each file's path (UTF-8) and bytes, in order.
pub open spec fn fingerprint_message(config_json: Seq<u8>, files: Seq<(Seq<char>, Seq<u8>)>) -> Seq<u8>
    decreases files.len(),
{
    if files.len() == 0 {
        config_json
    } else {
        fingerprint_message(config_json, files.drop_last()) + encode_utf8(files.last().0) + files.last().1
    }
}

/// The position in `sorted` from `i` on before which a file with the path `p`
/// goes: after every file whose path is not above `p`.
pub open spec fn path_insert_pos(sorted: Seq<(Seq<char>, Seq<u8>)>, p: Seq<char>, i: int) -> int
    decreases sorted.len() - i,
{
    if i < 0 || i >= sorted.len() || !key_le(sorted[i].0, p) {
        i
    } else {
        path_insert_pos(sorted, p, i + 1)
    }
}

/// `files` ordered by path, character by character; files with the same path
/// in their first order.
pub open spec fn sort_by_path(files: Seq<(Seq<char>, Seq<u8>)>) -> Seq<(Seq<char>, Seq<u8>)>
    decreases files.len(),
{
    if files.len() == 0 {
        seq![]
    } else {
        let sorted = sort_by_path(files.drop_last());
        let x = files.last();
        let p = path_insert_pos(sorted, x.0, 0);
        if 0 <= p <= sorted.len() {
            sorted.insert(p, x)
        } else {
            sorted
        }
    }
}

/// Whether `s` is ordered by path.
pub open spec fn sorted_by_path(s: Seq<(Seq<char>, Seq<u8>)>) -> bool {
    forall|i: int, j: int| 0 <= i < j < s.len() ==> key_le(#[trigger] s[i].0, #[trigger] s[j].0)
}

/// The lower-case hexadecimal digit of `n`.
pub open spec fn hex_digit(n: int) -> char {
    if n < 10 {
        (('0' as u32) + n) as char
    } else {
        (('a' as u32) + n - 10) as char
    }
}

/// `data` in lower-case hexadecimal, two digits a byte.
pub open spec fn hex_lower(data: Seq<u8>) -> Seq<char>
    decreases data.len(),
{
    if data.len() == 0 {
        seq![]
    } else {
        hex_lower(data.drop_last()) + seq![hex_digit(data.last() as int / 16), hex_digit(data.last() as int % 16)]
    }
}

/// Whether `c` is a lower-case hexadecimal digit, `0`-`9` or `a`-`f`.
pub open spec fn is_lower_hex_digit(c: char) -> bool {
    ('0' <= c && c <= '9') || ('a' <= c && c <= 'f')
}

/// `hex_lower` writes two lower-case hexadecimal digits for each byte.
pub proof fn lemma_hex_lower(data: Seq<u8>)
    ensures
        hex_lower(data).len() == 2 * data.len(),
        forall|i: int| 0 <= i < hex_lower(data).len() ==> is_lower_hex_digit(#[trigger] hex_lower(data)[i]),
    decreases data.len(),
{
    if data.len() > 0 {
        lemma_hex_lower(data.drop_last());
        let h = hex_lower(data.drop_last());
        let b = data.last() as int;
        assert(is_lower_hex_digit(hex_digit(b / 16)));
        assert(is_lower_hex_digit(hex_digit(b % 16)));
        let t = h + seq![hex_digit(b / 16), hex_digit(b % 16)];
        assert forall|i: int| 0 <= i < t.len() implies is_lower_hex_digit(#[trigger] t[i]) by {
            if i < h.len() {
                assert(t[i] == h[i]);
            }
        }
    }
}

fn hex_char(n: u8) -> (c: char)
    requires
        n < 16,
    ensures
        c == hex_digit(n as int),
{
    if n < 10 {
        (48u8 + n) as char
    } else {
        (97u8 + n - 10) as char
    }
}

/// The fingerprint of the compiler setup: the SHA-256 digest, in lower-case
/// hexadecimal, of the configuration's JSON followed by each file's path and
/// bytes, the files ordered by path. A change of configuration, compiler,
/// launcher, proxy or hook changes it, and the compilation caches are archived.
pub fn fingerprint(config_json: &[u8], files: &[FingerprintFile]) -> (r: String)
    ensures
        r@ == hex_lower(sha256(fingerprint_message(config_json@, sort_by_path(files@.map_values(|f: FingerprintFile| file_view(f)))))),
        r@.len() == 64,
        forall|i: int| 0 <= i < r@.len() ==> is_lower_hex_digit(#[trigger] r@[i]),
{
    let ghost views = files@.map_values(|f: FingerprintFile| file_view(f));
    let mut sorted: Vec<&FingerprintFile> = Vec::new();
    let mut sorted_keys: Vec<Vec<char>> = Vec::new();
    let mut t: usize = 0;
    assert(views.take(0) =~= Seq::<(Seq<char>, Seq<u8>)>::empty());
    while t < files.len()
        invariant
            t <= files.len(),
            views == files@.map_values(|f: FingerprintFile| file_view(f)),
            sorted@.map_values(|f: &FingerprintFile| file_view(*f)) == sort_by_path(views.take(t as int)),
            sorted_keys@.len() == sorted@.len(),
            forall|j: int| 0 <= j < sorted@.len() ==> #[trigger] sorted_keys@[j]@ == sorted@[j].path@,
        decreases files.len() - t,
    {
        let ghost sv = sorted@.map_values(|f: &FingerprintFile| file_view(*f));
        let k = crate::text::chars_of(files[t].path.as_str());
        let mut p: usize = 0;
        while p < sorted.len() && key_le_exec(sorted_keys[p].as_slice(), k.as_slice())
            invariant
                p <= sorted.len(),
                sv == sorted@.map_values(|f: &FingerprintFile| file_view(*f)),
                sorted_keys@.len() == sorted@.len(),
                forall|j: int| 0 <= j < sorted@.len() ==> #[trigger] sorted_keys@[j]@ == sorted@[j].path@,
                path_insert_pos(sv, k@, p as int) == path_insert_pos(sv, k@, 0),
            decreases sorted.len() - p,
        {
            assert(sv[p as int] == file_view(*sorted@[p as int]));
            p = p + 1;
        }
        proof {
            if p < sorted.len() {
                assert(sv[p as int] == file_view(*sorted@[p as int]));
            }
            assert(views.take(t + 1).drop_last() =~= views.take(t as int));
            assert(views.take(t + 1).last() == file_view(files@[t as int]));
        }
        let ghost old_s = sorted@;
        let ghost old_k = sorted_keys@;
        sorted.insert(p, &files[t]);
        sorted_keys.insert(p, k);
        assert(sorted@.map_values(|f: &FingerprintFile| file_view(*f)) =~= sv.insert(p as int, file_view(files@[t as int])));
        assert forall|j: int| 0 <= j < sorted@.len() implies #[trigger] sorted_keys@[j]@ == sorted@[j].path@ by {
            if j < p {
                assert(sorted@[j] == old_s[j]);
                assert(sorted_keys@[j] == old_k[j]);
            } else if j > p {
                assert(sorted@[j] == old_s[j - 1]);
                assert(sorted_keys@[j] == old_k[j - 1]);
            }
        }
        t = t + 1;
    }
    assert(views.take(files.len() as int) =~= views);
    let ghost ordered = sort_by_path(views);
    let mut message: Vec<u8> = Vec::new();
    let mut i: usize = 0;
    while i < config_json.len()
        invariant
            i <= config_json.len(),
            message@ == config_json@.take(i as int),
        decreases config_json.len() - i,
    {
        message.push(config_json[i]);
        i = i + 1;
        assert(message@ =~= config_json@.take(i as int));
    }
    assert(config_json@.take(config_json.len() as int) =~= config_json@);
    let mut f: usize = 0;
    while f < sorted.len()
        invariant
            f <= sorted.len(),
            ordered == sorted@.map_values(|f: &FingerprintFile| file_view(*f)),
            message@ == fingerprint_message(config_json@, ordered.take(f as int)),
        decreases sorted.len() - f,
    {
        let file = sorted[f];
        let path = file.path.as_str().as_bytes();
        let ghost start = message@;
        let mut k: usize = 0;
        while k < path.len()
            invariant
                k <= path.len(),
                message@ == start + path@.take(k as int),
            decreases path.len() - k,
        {
            message.push(path[k]);
            k = k + 1;
            assert(message@ =~= start + path@.take(k as int));
        }
        assert(path@.take(path.len() as int) =~= path@);
        let ghost mid = message@;
        let mut k: usize = 0;
        while k < file.contents.len()
            invariant
                k <= file.contents.len(),
                message@ == mid + file.contents@.take(k as int),
            decreases file.contents.len() - k,
        {
            message.push(file.contents[k]);
            k = k + 1;
            assert(message@ =~= mid + file.contents@.take(k as int));
        }
        assert(file.contents@.take(file.contents.len() as int) =~= file.contents@);
        assert(ordered.take(f + 1).drop_last() =~= ordered.take(f as int));
        assert(ordered.take(f + 1).last() == file_view(*sorted@[f as int]));
        f = f + 1;
    }
    assert(ordered.take(sorted.len() as int) =~= ordered);
    let digest = sha256_digest(&message);
    let mut out = String::new();
    let mut j: usize = 0;
    while j < digest.len()
        invariant
            j <= digest.len(),
            out@ == hex_lower(digest@.take(j as int)),
        decreases digest.len() - j,
    {
        let b = digest[j];
        crate::text::push_char(&mut out, hex_char(b / 16));
        crate::text::push_char(&mut out, hex_char(b % 16));
        assert(digest@.take(j + 1).drop_last() =~= digest@.take(j as int));
        assert(digest@.take(j + 1).last() == b);
        j = j + 1;
    }
    assert(digest@.take(digest.len() as int) =~= digest@);
    proof {
        lemma_hex_lower(digest@);
    }
    out
}

proof fn lemma_path_insert_pos(s: Seq<(Seq<char>, Seq<u8>)>, k: Seq<char>, i: int)
    requires
        0 <= i <= s.len(),
    ensures
        i <= path_insert_pos(s, k, i) <= s.len(),
        forall|j: int| i <= j < path_insert_pos(s, k, i) ==> key_le(#[trigger] s[j].0, k),
        path_insert_pos(s, k, i) < s.len() ==> !key_le(s[path_insert_pos(s, k, i)].0, k),
    decreases s.len() - i,
{
    if i < s.len() && key_le(s[i].0, k) {
        lemma_path_insert_pos(s, k, i + 1);
    }
}

proof fn lemma_insert_sorted_path(s: Seq<(Seq<char>, Seq<u8>)>, x: (Seq<char>, Seq<u8>))
    requires
        sorted_by_path(s),
    ensures
        0 <= path_insert_pos(s, x.0, 0) <= s.len(),
        sorted_by_path(s.insert(path_insert_pos(s, x.0, 0), x)),
{
    let k = x.0;
    let p = path_insert_pos(s, k, 0);
    lemma_path_insert_pos(s, k, 0);
    let r = s.insert(p, x);
    assert forall|i: int, j: int| 0 <= i < j < r.len() implies key_le(#[trigger] r[i].0, #[trigger] r[j].0) by {
        if j < p {
            assert(r[i] == s[i] && r[j] == s[j]);
        } else if j == p {
            assert(r[i] == s[i] && r[j] == x);
        } else if i == p {
            assert(r[i] == x && r[j] == s[j - 1]);
            lemma_key_le_total(s[p].0, k);
            if j - 1 > p {
                lemma_key_le_transitive(k, s[p].0, s[j - 1].0);
            }
        } else if i < p {
            assert(r[i] == s[i] && r[j] == s[j - 1]);
            if i < j - 1 {
            } else {
                lemma_key_le_reflexive(s[i].0);
            }
        } else {
            assert(r[i] == s[i - 1] && r[j] == s[j - 1]);
        }
    }
}

/// Files come out of [`sort_by_path`] ordered by path, and they are the same
/// files, as many times each, as went in.
pub proof fn sorted_files_are_ordered_permutation(files: Seq<(Seq<char>, Seq<u8>)>)
    ensures
        sorted_by_path(sort_by_path(files)),
        sort_by_path(files).to_multiset() == files.to_multiset(),
    decreases files.len(),
{
    if files.len() == 0 {
        assert(files =~= Seq::<(Seq<char>, Seq<u8>)>::empty());
    } else {
        let init = files.drop_last();
        sorted_files_are_ordered_permutation(init);
        let sorted = sort_by_path(init);
        let x = files.last();
        lemma_insert_sorted_path(sorted, x);
        let p = path_insert_pos(sorted, x.0, 0);
        vstd::seq_lib::to_multiset_insert(sorted, p, x);
        vstd::seq_lib::to_multiset_build(init, x);
        assert(init.push(x) =~= files);
    }
}

proof fn lemma_key_le_antisymmetric(a: Seq<char>, b: Seq<char>)
    requires
        key_le(a, b),
        key_le(b, a),
    ensures
        a == b,
    decreases a.len(),
{
    if a.len() == 0 {
        assert(b.len() == 0);
        assert(a =~= b);
    } else {
        assert(b.len() > 0);
        assert((a[0] as u32) == (b[0] as u32));
        vstd::utf8::char_u32_cast(a[0], a[0] as u32);
        vstd::utf8::char_u32_cast(b[0], b[0] as u32);
        assert(a[0] == b[0]);
        lemma_key_le_antisymmetric(a.drop_first(), b.drop_first());
        assert(a =~= seq![a[0]] + a.drop_first());
        assert(b =~= seq![b[0]] + b.drop_first());
    }
}

/// Whether files that share a path are the same file, bytes included.
pub open spec fn paths_name_files(files: Seq<(Seq<char>, Seq<u8>)>) -> bool {
    forall|x: (Seq<char>, Seq<u8>), y: (Seq<char>, Seq<u8>)|
        #![trigger files.contains(x), files.contains(y)]
        files.contains(x) && files.contains(y) && x.0 == y.0 ==> x == y
}

proof fn lemma_sorted_unique(s: Seq<(Seq<char>, Seq<u8>)>, t: Seq<(Seq<char>, Seq<u8>)>)
    requires
        sorted_by_path(s),
        sorted_by_path(t),
        s.to_multiset() == t.to_multiset(),
        paths_name_files(s),
    ensures
        s == t,
    decreases s.len(),
{
    vstd::seq_lib::to_multiset_len(s);
    vstd::seq_lib::to_multiset_len(t);
    if s.len() == 0 {
        assert(s =~= t);
    } else {
        vstd::seq_lib::to_multiset_contains(s, t[0]);
        vstd::seq_lib::to_multiset_contains(t, t[0]);
        vstd::seq_lib::to_multiset_contains(t, s[0]);
        vstd::seq_lib::to_multiset_contains(s, s[0]);
        assert(t.contains(t[0]));
        assert(s.contains(s[0]));
        let i = choose|i: int| 0 <= i < s.len() && s[i] == t[0];
        let j = choose|j: int| 0 <= j < t.len() && t[j] == s[0];
        if i > 0 {
            assert(key_le(s[0].0, s[i].0));
        } else {
            lemma_key_le_reflexive(s[0].0);
        }
        if j > 0 {
            assert(key_le(t[0].0, t[j].0));
        } else {
            lemma_key_le_reflexive(t[0].0);
        }
        lemma_key_le_antisymmetric(s[0].0, t[0].0);
        assert(s.contains(t[0]));
        assert(s[0] == t[0]);
        let s1 = s.drop_first();
        let t1 = t.drop_first();
        vstd::seq_lib::to_multiset_remove(s, 0);
        vstd::seq_lib::to_multiset_remove(t, 0);
        assert(s.remove(0) =~= s1);
        assert(t.remove(0) =~= t1);
        assert forall|a: int, b: int| 0 <= a < b < s1.len() implies key_le(#[trigger] s1[a].0, #[trigger] s1[b].0) by {
            assert(s1[a] == s[a + 1] && s1[b] == s[b + 1]);
        }
        assert forall|a: int, b: int| 0 <= a < b < t1.len() implies key_le(#[trigger] t1[a].0, #[trigger] t1[b].0) by {
            assert(t1[a] == t[a + 1] && t1[b] == t[b + 1]);
        }
        assert forall|x: (Seq<char>, Seq<u8>), y: (Seq<char>, Seq<u8>)|
            s1.contains(x) && s1.contains(y) && x.0 == y.0 implies x == y by {
            let a = choose|a: int| 0 <= a < s1.len() && s1[a] == x;
            let b = choose|b: int| 0 <= b < s1.len() && s1[b] == y;
            assert(s[a + 1] == x);
            assert(s[b + 1] == y);
            assert(s.contains(x) && s.contains(y));
        }
        lemma_sorted_unique(s1, t1);
        assert(s =~= seq![s[0]] + s1);
        assert(t =~= seq![t[0]] + t1);
    }
}

/// The order in which the files are handed over does not matter: file lists
/// that hold the same files (as many times each), where one path always names
/// the same bytes, are ordered alike, so they give the same fingerprint.
pub proof fn fingerprint_ignores_file_order(
    config_json: Seq<u8>,
    a: Seq<(Seq<char>, Seq<u8>)>,
    b: Seq<(Seq<char>, Seq<u8>)>,
)
    requires
        a.to_multiset() == b.to_multiset(),
        paths_name_files(a),
    ensures
        sort_by_path(a) == sort_by_path(b),
        fingerprint_message(config_json, sort_by_path(a)) == fingerprint_message(config_json, sort_by_path(b)),
{
    sorted_files_are_ordered_permutation(a);
    sorted_files_are_ordered_permutation(b);
    let sa = sort_by_path(a);
    assert forall|x: (Seq<char>, Seq<u8>), y: (Seq<char>, Seq<u8>)|
        sa.contains(x) && sa.contains(y) && x.0 == y.0 implies x == y by {
        vstd::seq_lib::to_multiset_contains(sa, x);
        vstd::seq_lib::to_multiset_contains(sa, y);
        vstd::seq_lib::to_multiset_contains(a, x);
        vstd::seq_lib::to_multiset_contains(a, y);
        assert(a.contains(x) && a.contains(y));
    }
    lemma_sorted_unique(sa, sort_by_path(b));
}

proof fn lemma_message_concat(config_json: Seq<u8>, x: Seq<(Seq<char>, Seq<u8>)>, y: Seq<(Seq<char>, Seq<u8>)>)
    ensures
        fingerprint_message(config_json, x + y) == fingerprint_message(config_json, x) + fingerprint_message(
            seq![],
            y,
        ),
    decreases y.len(),
{
    if y.len() == 0 {
        assert(x + y =~= x);
        assert(fingerprint_message(config_json, x) + Seq::<u8>::empty() =~= fingerprint_message(config_json, x));
    } else {
        lemma_message_concat(config_json, x, y.drop_last());
        assert((x + y).drop_last() =~= x + y.drop_last());
        assert((x + y).last() == y.last());
        let a = fingerprint_message(config_json, x);
        let b = fingerprint_message(Seq::<u8>::empty(), y.drop_last());
        let t = encode_utf8(y.last().0) + y.last().1;
        assert(a + b + encode_utf8(y.last().0) + y.last().1 =~= a + (b + encode_utf8(y.last().0) + y.last().1));
    }
}

/// Every byte counts: the digested message changes when the configuration
/// changes, and when the bytes of any one file change, its path and the other
/// files staying as they are, so replacing the hook, the proxy, `dotnet` or a
/// compiler file changes the fingerprint's input.
pub proof fn fingerprint_covers_every_byte(
    config_json: Seq<u8>,
    other_json: Seq<u8>,
    files: Seq<(Seq<char>, Seq<u8>)>,
    i: int,
    bytes: Seq<u8>,
)
    requires
        0 <= i < files.len(),
    ensures
        other_json != config_json ==> fingerprint_message(other_json, files) != fingerprint_message(config_json, files),
        bytes != files[i].1 ==> fingerprint_message(config_json, files.update(i, (files[i].0, bytes)))
            != fingerprint_message(config_json, files),
{
    let e = Seq::<(Seq<char>, Seq<u8>)>::empty();
    lemma_message_concat(config_json, e, files);
    lemma_message_concat(other_json, e, files);
    assert(e + files =~= files);
    let t = fingerprint_message(Seq::<u8>::empty(), files);
    assert(fingerprint_message(config_json, e) == config_json);
    assert(fingerprint_message(other_json, e) == other_json);
    if other_json != config_json && fingerprint_message(other_json, files) == fingerprint_message(config_json, files) {
        assert((other_json + t).len() == (config_json + t).len());
        assert(other_json =~= (other_json + t).take(other_json.len() as int));
        assert(config_json =~= (config_json + t).take(config_json.len() as int));
    }
    let g = files.update(i, (files[i].0, bytes));
    let pre = files.take(i);
    let post = files.skip(i + 1);
    assert(files =~= pre + (seq![files[i]] + post));
    assert(g =~= pre + (seq![g[i]] + post));
    lemma_message_concat(config_json, pre, seq![files[i]] + post);
    lemma_message_concat(config_json, pre, seq![g[i]] + post);
    lemma_message_concat(Seq::<u8>::empty(), seq![files[i]], post);
    lemma_message_concat(Seq::<u8>::empty(), seq![g[i]], post);
    assert(seq![files[i]].drop_last() =~= e);
    assert(seq![g[i]].drop_last() =~= e);
    let a = fingerprint_message(config_json, pre) + encode_utf8(files[i].0);
    let r = fingerprint_message(Seq::<u8>::empty(), post);
    assert(seq![files[i]].last() == files[i]);
    assert(seq![g[i]].last() == g[i]);
    assert(g[i] == (files[i].0, bytes));
    assert(fingerprint_message(Seq::<u8>::empty(), e) == Seq::<u8>::empty());
    assert(fingerprint_message(Seq::<u8>::empty(), seq![files[i]]) =~= encode_utf8(files[i].0) + files[i].1);
    assert(fingerprint_message(Seq::<u8>::empty(), seq![g[i]]) =~= encode_utf8(files[i].0) + bytes);
    assert(fingerprint_message(config_json, files) =~= a + files[i].1 + r);
    assert(fingerprint_message(config_json, g) =~= a + bytes + r);
    if bytes != files[i].1 && fingerprint_message(config_json, g) == fingerprint_message(config_json, files) {
        let m1 = a + files[i].1 + r;
        let m2 = a + bytes + r;
        if bytes.len() == files[i].1.len() {
            assert(bytes =~= m2.subrange(a.len() as int, a.len() + bytes.len() as int));
            assert(files[i].1 =~= m1.subrange(a.len() as int, a.len() + bytes.len() as int));
        } else {
            assert(m1.len() != m2.len());
        }
    }
}

} // verus!
