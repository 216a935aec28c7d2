use vstd::prelude::*;
use crate::paths::{join_path, join_relative};
use crate::session::Session;
use crate::text::{ascii_upper_seq, is_ascii_text};

verus! {

/// Unicode upper case of `s`, as `str::to_uppercase` computes it.
pub uninterp spec fn uppercase(s: Seq<char>) -> Seq<char>;

/// `str::to_uppercase`: std documents it as the Unicode `Uppercase` mapping of
/// each character; its result depends on `s` alone and is named here by
/// [`uppercase`], not written out. Of the mapping, only that ASCII text maps
/// to its ASCII upper case is stated.
#[verifier::external_body]
fn to_uppercase(s: &str) -> (r: String)
    ensures
        r@ == uppercase(s@),
        is_ascii_text(s@) ==> r@ == ascii_upper_seq(s@),
{
    s.to_uppercase()
}

/// The characters of the UTF-16 units `w`, each unpaired surrogate read as
/// U+FFFD.
pub open spec fn decode_utf16_lossy(w: Seq<u16>) -> Seq<char>
    decreases w.len(),
{
    if w.len() == 0 {
        seq![]
    } else if w[0] < 0xd800 || w[0] > 0xdfff {
        seq![(w[0] as u32) as char] + decode_utf16_lossy(w.drop_first())
    } else if w[0] <= 0xdbff && w.len() >= 2 && 0xdc00 <= w[1] <= 0xdfff {
        let v = 0x10000 + (w[0] - 0xd800) * 0x400 + (w[1] - 0xdc00);
        seq![(v as u32) as char] + decode_utf16_lossy(w.skip(2))
    } else {
        seq!['\u{fffd}'] + decode_utf16_lossy(w.drop_first())
    }
}

/// `String::from_utf16_lossy`: std documents that it decodes UTF-16 and puts
/// U+FFFD in place of each unpaired surrogate.
#[verifier::external_body]
fn utf16_lossy(w: &[u16]) -> (r: String)
    ensures
        r@ == decode_utf16_lossy(w@),
{
    String::from_utf16_lossy(w)
}

/// The UTF-16 units of one character.
pub open spec fn utf16_of_char(c: char) -> Seq<u16> {
    let v = c as u32;
    if v < 0x10000 {
        seq![v as u16]
    } else {
        seq![(0xd800 + (v - 0x10000) / 0x400) as u16, (0xdc00 + (v - 0x10000) % 0x400) as u16]
    }
}

/// The UTF-16 units of `s`.
pub open spec fn encode_utf16(s: Seq<char>) -> Seq<u16>
    decreases s.len(),
{
    if s.len() == 0 {
        seq![]
    } else {
        encode_utf16(s.drop_last()) + utf16_of_char(s.last())
    }
}

/// The UTF-16 units of `s`, as `str::encode_utf16` gives them.
fn utf16_units_of(s: &str) -> (r: Vec<u16>)
    ensures
        r@ == encode_utf16(s@),
{
    let chars = crate::text::chars_of(s);
    let mut out: Vec<u16> = Vec::new();
    let mut i: usize = 0;
    while i < chars.len()
        invariant
            i <= chars.len(),
            chars@ == s@,
            out@ == encode_utf16(s@.take(i as int)),
        decreases chars.len() - i,
    {
        let v = chars[i] as u32;
        if v < 0x10000 {
            out.push(v as u16);
        } else {
            out.push((0xd800 + (v - 0x10000) / 0x400) as u16);
            out.push((0xdc00 + (v - 0x10000) % 0x400) as u16);
        }
        proof {
            assert(s@.take(i + 1).drop_last() =~= s@.take(i as int));
            assert(s@.take(i + 1).last() == chars@[i as int]);
        }
        i = i + 1;
        assert(out@ =~= encode_utf16(s@.take(i as int)));
    }
    assert(s@.take(chars.len() as int) =~= s@);
    out
}

/// The key by which an environment entry is found and ordered: its text in
/// upper case.
pub open spec fn env_key(e: Seq<u16>) -> Seq<char> {
    uppercase(decode_utf16_lossy(e))
}

/// Whether `a` comes before `b` or equals it, character by character.
pub open spec fn key_le(a: Seq<char>, b: Seq<char>) -> bool
    decreases a.len(),
{
    if a.len() == 0 {
        true
    } else if b.len() == 0 {
        false
    } else if (a[0] as u32) == (b[0] as u32) {
        key_le(a.drop_first(), b.drop_first())
    } else {
        (a[0] as u32) < (b[0] as u32)
    }
}

/// The position in `sorted` from `i` on before which an entry with key `k`
/// goes: after every entry whose key is not above `k`.
pub open spec fn insert_pos(sorted: Seq<Seq<u16>>, k: Seq<char>, i: int) -> int
    decreases sorted.len() - i,
{
    if i < 0 || i >= sorted.len() || !key_le(env_key(sorted[i]), k) {
        i
    } else {
        insert_pos(sorted, k, i + 1)
    }
}

/// `entries` ordered by key, entries with equal keys in their first order.
pub open spec fn sort_by_key(entries: Seq<Seq<u16>>) -> Seq<Seq<u16>>
    decreases entries.len(),
{
    if entries.len() == 0 {
        seq![]
    } else {
        let sorted = sort_by_key(entries.drop_last());
        let x = entries.last();
        let p = insert_pos(sorted, env_key(x), 0);
        if 0 <= p <= sorted.len() {
            sorted.insert(p, x)
        } else {
            sorted
        }
    }
}

/// `UNITY_ROSLYN_SESSION=`.
pub open spec fn session_prefix() -> Seq<char> {
    seq![
        'U', 'N', 'I', 'T', 'Y', '_', 'R', 'O', 'S', 'L', 'Y', 'N', '_', 'S', 'E', 'S', 'S', 'I', 'O', 'N', '=',
    ]
}

/// Whether an entry sets the session variable (in any case).
pub open spec fn sets_session(e: Seq<u16>) -> bool {
    let k = env_key(e);
    k.len() >= session_prefix().len() && k.take(session_prefix().len() as int) == session_prefix()
}

/// The entry that points children at the session file in `directory`.
pub open spec fn session_entry(directory: Seq<char>) -> Seq<u16> {
    encode_utf16(
        session_prefix() + join_relative(directory, seq!['s', 'e', 's', 's', 'i', 'o', 'n', '.', 'j', 's', 'o', 'n']),
    )
}

/// Entries laid out as an environment block: each ended by a 0, then a final 0.
pub open spec fn env_block(entries: Seq<Seq<u16>>) -> Seq<u16>
    decreases entries.len(),
{
    if entries.len() == 0 {
        seq![0]
    } else {
        env_block(entries.drop_last()).drop_last() + entries.last() + seq![0u16, 0u16]
    }
}

/// The environment a child gets from a caller-supplied block with `entries`:
/// any setting of the session variable is replaced by one that names this
/// session's file, and the entries are ordered by key, as Windows expects.
pub open spec fn merged_environment(entries: Seq<Seq<u16>>, directory: Seq<char>) -> Seq<u16> {
    env_block(sort_by_key(entries.filter(|e: Seq<u16>| !sets_session(e)).push(session_entry(directory))))
}


pub(crate) fn key_le_exec(a: &[char], b: &[char]) -> (r: bool)
    ensures
        r == key_le(a@, b@),
{
    let mut i: usize = 0;
    assert(a@.skip(0) =~= a@);
    assert(b@.skip(0) =~= b@);
    while i < a.len() && i < b.len() && (a[i] as u32) == (b[i] as u32)
        invariant
            i <= a.len(),
            i <= b.len(),
            key_le(a@.skip(i as int), b@.skip(i as int)) == key_le(a@, b@),
        decreases a.len() - i,
    {
        assert(a@.skip(i as int).drop_first() =~= a@.skip(i + 1));
        assert(b@.skip(i as int).drop_first() =~= b@.skip(i + 1));
        i = i + 1;
    }
    if i == a.len() {
        assert(a@.skip(i as int).len() == 0);
        true
    } else if i == b.len() {
        assert(b@.skip(i as int).len() == 0);
        false
    } else {
        assert(a@.skip(i as int)[0] == a@[i as int]);
        assert(b@.skip(i as int)[0] == b@[i as int]);
        (a[i] as u32) < (b[i] as u32)
    }
}

fn copy_units(v: &[u16]) -> (out: Vec<u16>)
    ensures
        out@ == v@,
{
    let mut out: Vec<u16> = Vec::new();
    let mut i: usize = 0;
    while i < v.len()
        invariant
            i <= v.len(),
            out@ == v@.take(i as int),
        decreases v.len() - i,
    {
        out.push(v[i]);
        i = i + 1;
        assert(out@ =~= v@.take(i as int));
    }
    assert(v@.take(v.len() as int) =~= v@);
    out
}

fn key_of(e: &[u16]) -> (k: Vec<char>)
    ensures
        k@ == env_key(e@),
{
    let text = utf16_lossy(e);
    let upper = to_uppercase(text.as_str());
    crate::text::chars_of(upper.as_str())
}

/// Builds the environment block for a child from the entries of the block its
/// caller supplied (each without its ending 0): the session variable names this
/// session's file in `directory`, and the entries are ordered by key.
pub fn merge_environment(entries: &Vec<Vec<u16>>, directory: &str) -> (block: Vec<u16>)
    ensures
        block@ == merged_environment(entries.deep_view(), directory@),
{
    let ghost pred = |e: Seq<u16>| !sets_session(e);
    let prefix = vec![
        'U', 'N', 'I', 'T', 'Y', '_', 'R', 'O', 'S', 'L', 'Y', 'N', '_', 'S', 'E', 'S', 'S', 'I', 'O', 'N', '=',
    ];
    assert(prefix@ =~= session_prefix());
    let mut kept: Vec<Vec<u16>> = Vec::new();
    let mut kept_keys: Vec<Vec<char>> = Vec::new();
    let mut i: usize = 0;
    assert(entries.deep_view().take(0) =~= Seq::<Seq<u16>>::empty());
    while i < entries.len()
        invariant
            i <= entries.len(),
            prefix@ == session_prefix(),
            pred == (|e: Seq<u16>| !sets_session(e)),
            kept.deep_view() == entries.deep_view().take(i as int).filter(pred),
            kept_keys@.len() == kept@.len(),
            forall|j: int| 0 <= j < kept@.len() ==> #[trigger] kept_keys@[j]@ == env_key(kept@[j]@),
        decreases entries.len() - i,
    {
        let e = &entries[i];
        let k = key_of(e.as_slice());
        let n = prefix.len();
        let session = k.len() >= n && crate::text::eq_range(&k, 0, n, &prefix);
        assert(session == sets_session(e@)) by {
            if k.len() >= n {
                assert(k@.subrange(0, n as int) =~= k@.take(n as int));
            }
        }
        let ghost before = kept.deep_view();
        proof {
            reveal_with_fuel(Seq::<_>::filter, 1);
            assert(entries.deep_view().take(i + 1).drop_last() =~= entries.deep_view().take(i as int));
            assert(entries.deep_view().take(i + 1).last() == e@);
        }
        if !session {
            kept.push(copy_units(e.as_slice()));
            kept_keys.push(k);
            assert(kept.deep_view() =~= before.push(e@));
        }
        i = i + 1;
    }
    assert(entries.deep_view().take(entries.len() as int) =~= entries.deep_view());
    proof {
        reveal_strlit("UNITY_ROSLYN_SESSION=");
        reveal_strlit("session.json");
    }
    let mut text = String::from_str("UNITY_ROSLYN_SESSION=");
    let file = join_path(directory, "session.json");
    text.append(file.as_str());
    assert("session.json"@ =~= seq!['s', 'e', 's', 's', 'i', 'o', 'n', '.', 'j', 's', 'o', 'n']);
    assert(text@ =~= session_prefix() + join_relative(directory@, seq!['s', 'e', 's', 's', 'i', 'o', 'n', '.', 'j', 's', 'o', 'n']));
    let entry = utf16_units_of(text.as_str());
    let entry_key = key_of(entry.as_slice());
    assert(entry.deep_view() =~= entry@);
    let ghost ev = entry@;
    let ghost all = kept.deep_view().push(ev);
    let ghost before = kept.deep_view();
    kept.push(entry);
    kept_keys.push(entry_key);
    assert(kept.deep_view() =~= all);
    let mut sorted: Vec<Vec<u16>> = Vec::new();
    let mut sorted_keys: Vec<Vec<char>> = Vec::new();
    let mut t: usize = 0;
    assert(all.take(0) =~= Seq::<Seq<u16>>::empty());
    while t < kept.len()
        invariant
            t <= kept.len(),
            all == kept.deep_view(),
            kept_keys@.len() == kept@.len(),
            forall|j: int| 0 <= j < kept@.len() ==> #[trigger] kept_keys@[j]@ == env_key(kept@[j]@),
            sorted.deep_view() == sort_by_key(all.take(t as int)),
            sorted_keys@.len() == sorted@.len(),
            forall|j: int| 0 <= j < sorted@.len() ==> #[trigger] sorted_keys@[j]@ == env_key(sorted@[j]@),
        decreases kept.len() - t,
    {
        let k = &kept_keys[t];
        let ghost sv = sorted.deep_view();
        let mut p: usize = 0;
        while p < sorted.len() && key_le_exec(sorted_keys[p].as_slice(), k.as_slice())
            invariant
                p <= sorted.len(),
                sv == sorted.deep_view(),
                sorted_keys@.len() == sorted@.len(),
                forall|j: int| 0 <= j < sorted@.len() ==> #[trigger] sorted_keys@[j]@ == env_key(sorted@[j]@),
                insert_pos(sv, k@, p as int) == insert_pos(sv, k@, 0),
            decreases sorted.len() - p,
        {
            assert(sv[p as int] == sorted@[p as int]@);
            p = p + 1;
        }
        proof {
            if p < sorted.len() {
                assert(sv[p as int] == sorted@[p as int]@);
            }
            assert(all.take(t + 1).drop_last() =~= all.take(t as int));
            assert(all.take(t + 1).last() == kept@[t as int]@);
        }
        let ghost old_s = sorted@;
        let ghost old_k = sorted_keys@;
        let kc = crate::text::copy_chars(k.as_slice(), 0, k.len());
        assert(k@.subrange(0, k.len() as int) =~= k@);
        sorted.insert(p, copy_units(kept[t].as_slice()));
        sorted_keys.insert(p, kc);
        assert(sorted.deep_view() =~= sv.insert(p as int, kept@[t as int]@));
        assert forall|j: int| 0 <= j < sorted@.len() implies #[trigger] sorted_keys@[j]@ == env_key(sorted@[j]@) by {
            if j < p {
                assert(sorted@[j] == old_s[j]);
                assert(sorted_keys@[j] == old_k[j]);
            } else if j > p {
                assert(sorted@[j] == old_s[j - 1]);
                assert(sorted_keys@[j] == old_k[j - 1]);
            }
        }
        t = t + 1;
    }
    assert(all.take(kept.len() as int) =~= all);
    let mut block: Vec<u16> = Vec::new();
    let mut u: usize = 0;
    while u < sorted.len()
        invariant
            u <= sorted.len(),
            block@ == env_block(sorted.deep_view().take(u as int)).drop_last(),
        decreases sorted.len() - u,
    {
        let e = &sorted[u];
        let mut x: usize = 0;
        let ghost start = block@;
        while x < e.len()
            invariant
                x <= e.len(),
                block@ == start + e@.take(x as int),
            decreases e.len() - x,
        {
            block.push(e[x]);
            x = x + 1;
            assert(block@ =~= start + e@.take(x as int));
        }
        block.push(0);
        assert(sorted.deep_view().take(u + 1).drop_last() =~= sorted.deep_view().take(u as int));
        assert(e@.take(e.len() as int) =~= e@);
        assert(block@ =~= env_block(sorted.deep_view().take(u + 1)).drop_last());
        u = u + 1;
    }
    block.push(0);
    assert(sorted.deep_view().take(sorted.len() as int) =~= sorted.deep_view());
    assert(block@ =~= env_block(sorted.deep_view()));
    block
}


pub(crate) proof fn lemma_key_le_reflexive(a: Seq<char>)
    ensures
        key_le(a, a),
    decreases a.len(),
{
    if a.len() > 0 {
        lemma_key_le_reflexive(a.drop_first());
    }
}

pub(crate) proof fn lemma_key_le_total(a: Seq<char>, b: Seq<char>)
    ensures
        key_le(a, b) || key_le(b, a),
    decreases a.len(),
{
    if a.len() > 0 && b.len() > 0 && (a[0] as u32) == (b[0] as u32) {
        lemma_key_le_total(a.drop_first(), b.drop_first());
    }
}

pub(crate) proof fn lemma_key_le_transitive(a: Seq<char>, b: Seq<char>, c: Seq<char>)
    requires
        key_le(a, b),
        key_le(b, c),
    ensures
        key_le(a, c),
    decreases a.len(),
{
    if a.len() > 0 && b.len() > 0 && c.len() > 0 && (a[0] as u32) == (b[0] as u32) && (b[0] as u32) == (c[0] as u32) {
        lemma_key_le_transitive(a.drop_first(), b.drop_first(), c.drop_first());
    }
}

/// Whether `s` is ordered by key.
pub open spec fn sorted_by_key(s: Seq<Seq<u16>>) -> bool {
    forall|i: int, j: int| 0 <= i < j < s.len() ==> key_le(#[trigger] env_key(s[i]), #[trigger] env_key(s[j]))
}

proof fn lemma_insert_pos(s: Seq<Seq<u16>>, k: Seq<char>, i: int)
    requires
        0 <= i <= s.len(),
    ensures
        i <= insert_pos(s, k, i) <= s.len(),
        forall|j: int| i <= j < insert_pos(s, k, i) ==> key_le(#[trigger] env_key(s[j]), k),
        insert_pos(s, k, i) < s.len() ==> !key_le(env_key(s[insert_pos(s, k, i)]), k),
    decreases s.len() - i,
{
    if i < s.len() && key_le(env_key(s[i]), k) {
        lemma_insert_pos(s, k, i + 1);
    }
}

proof fn lemma_insert_sorted(s: Seq<Seq<u16>>, x: Seq<u16>)
    requires
        sorted_by_key(s),
    ensures
        0 <= insert_pos(s, env_key(x), 0) <= s.len(),
        sorted_by_key(s.insert(insert_pos(s, env_key(x), 0), x)),
{
    let k = env_key(x);
    let p = insert_pos(s, k, 0);
    lemma_insert_pos(s, k, 0);
    let r = s.insert(p, x);
    assert forall|i: int, j: int| 0 <= i < j < r.len() implies key_le(#[trigger] env_key(r[i]), #[trigger] env_key(r[j])) by {
        if j < p {
            assert(r[i] == s[i] && r[j] == s[j]);
        } else if j == p {
            assert(r[i] == s[i] && r[j] == x);
        } else if i == p {
            assert(r[i] == x && r[j] == s[j - 1]);
            lemma_key_le_total(env_key(s[p]), k);
            if j - 1 > p {
                lemma_key_le_transitive(k, env_key(s[p]), env_key(s[j - 1]));
            }
        } else if i < p {
            assert(r[i] == s[i] && r[j] == s[j - 1]);
            if i < j - 1 {
            } else {
                lemma_key_le_reflexive(env_key(s[i]));
            }
        } else {
            assert(r[i] == s[i - 1] && r[j] == s[j - 1]);
        }
    }
}

/// Environment entries come out of [`sort_by_key`] ordered by key, and they
/// are the same entries, as many times each, as went in.
pub proof fn sorted_environment_is_ordered_permutation(entries: Seq<Seq<u16>>)
    ensures
        sorted_by_key(sort_by_key(entries)),
        sort_by_key(entries).to_multiset() == entries.to_multiset(),
    decreases entries.len(),
{
    if entries.len() == 0 {
        assert(entries =~= Seq::<Seq<u16>>::empty());
    } else {
        let init = entries.drop_last();
        sorted_environment_is_ordered_permutation(init);
        let sorted = sort_by_key(init);
        let x = entries.last();
        lemma_insert_sorted(sorted, x);
        let p = insert_pos(sorted, env_key(x), 0);
        vstd::seq_lib::to_multiset_insert(sorted, p, x);
        vstd::seq_lib::to_multiset_build(init, x);
        assert(init.push(x) =~= entries);
    }
}

/// A child always learns this launch's session: the block it gets holds, in
/// key order, the caller's entries that do not set the session variable and
/// the entry that names this session's file, each as many times as it came;
/// a setting of the variable that the caller made is replaced, and one that
/// the caller stripped is put back.
pub proof fn child_environment_names_this_session(entries: Seq<Seq<u16>>, directory: Seq<char>)
    ensures
        ({
            let kept = entries.filter(|e: Seq<u16>| !sets_session(e));
            let merged = sort_by_key(kept.push(session_entry(directory)));
            &&& merged_environment(entries, directory) == env_block(merged)
            &&& sorted_by_key(merged)
            &&& merged.to_multiset() == kept.to_multiset().insert(session_entry(directory))
            &&& merged.contains(session_entry(directory))
            &&& forall|e: Seq<u16>| #[trigger] merged.contains(e) ==> e == session_entry(directory) || (
                entries.contains(e) && !sets_session(e))
        }),
{
    let pred = |e: Seq<u16>| !sets_session(e);
    let kept = entries.filter(pred);
    let all = kept.push(session_entry(directory));
    let merged = sort_by_key(all);
    sorted_environment_is_ordered_permutation(all);
    vstd::seq_lib::to_multiset_build(kept, session_entry(directory));
    vstd::seq_lib::to_multiset_contains(merged, session_entry(directory));
    vstd::seq_lib::to_multiset_contains(all, session_entry(directory));
    assert(all[all.len() - 1] == session_entry(directory));
    assert forall|e: Seq<u16>| #[trigger] merged.contains(e) implies e == session_entry(directory) || (
        entries.contains(e) && !sets_session(e)) by {
        vstd::seq_lib::to_multiset_contains(merged, e);
        vstd::seq_lib::to_multiset_contains(all, e);
        vstd::seq_lib::to_multiset_contains(kept, e);
        if e != session_entry(directory) {
            let i = choose|i: int| 0 <= i < kept.len() && kept[i] == e;
            entries.lemma_filter_contains_rev(pred, e);
            broadcast use vstd::seq_lib::group_filter_ensures;
            assert(pred(kept[i]));
        }
    }
}

} // verus!
