use vstd::prelude::*;

verus! {

/// The characters of `s`, in order.
pub fn chars_of(s: &str) -> (out: Vec<char>)
    ensures
        out@ == s@,
{
    let mut out: Vec<char> = Vec::new();
    for c in it: s.chars()
        invariant
            out@ == it.seq().take(it.index() as int),
            it.seq() == s@,
    {
        out.push(c);
    }
    out
}

/// Appends one character; `String::push`.
#[verifier::external_body]
pub(crate) fn push_char(s: &mut String, c: char)
    ensures
        final(s)@ == old(s)@.push(c),
{
    s.push(c);
}


/// Unicode `White_Space` characters, as listed in the Unicode PropList.
pub open spec fn is_ws(c: char) -> bool {
    let u = c as u32;
    ||| 0x9 <= u <= 0xd
    ||| u == 0x20
    ||| u == 0x85
    ||| u == 0xa0
    ||| u == 0x1680
    ||| 0x2000 <= u <= 0x200a
    ||| u == 0x2028
    ||| u == 0x2029
    ||| u == 0x202f
    ||| u == 0x205f
    ||| u == 0x3000
}

/// Whether `c` is Unicode whitespace (`White_Space`), as `char::is_whitespace` tells.
pub(crate) fn is_whitespace(c: char) -> (b: bool)
    ensures
        b == is_ws(c),
{
    let u = c as u32;
    (0x9 <= u && u <= 0xd) || u == 0x20 || u == 0x85 || u == 0xa0 || u == 0x1680 || (0x2000 <= u && u <= 0x200a)
        || u == 0x2028 || u == 0x2029 || u == 0x202f || u == 0x205f || u == 0x3000
}

/// `n` backslashes.
pub open spec fn backslashes(n: nat) -> Seq<char> {
    Seq::new(n, |i: int| '\\')
}

/// Appends `n` backslashes to `s`.
pub fn push_backslashes(s: &mut String, n: usize)
    ensures
        final(s)@ == old(s)@ + backslashes(n as nat),
{
    let mut i: usize = 0;
    while i < n
        invariant
            i <= n,
            s@ == old(s)@ + backslashes(i as nat),
        decreases n - i,
    {
        push_char(s, '\\');
        i = i + 1;
        assert(s@ =~= old(s)@ + backslashes(i as nat));
    }
}

/// The string whose characters are `v`.
pub fn string_from_chars(v: &[char]) -> (s: String)
    ensures
        s@ == v@,
{
    let mut s = String::new();
    let mut i: usize = 0;
    while i < v.len()
        invariant
            i <= v.len(),
            s@ == v@.take(i as int),
        decreases v.len() - i,
    {
        push_char(&mut s, v[i]);
        i = i + 1;
        assert(s@ =~= v@.take(i as int));
    }
    assert(v@.take(v.len() as int) =~= v@);
    s
}


/// `c` with an ASCII capital letter made small.
pub open spec fn ascii_lower(c: char) -> char {
    if 'A' <= c && c <= 'Z' {
        ((c as u32) + 32) as char
    } else {
        c
    }
}

/// Whether every character of `s` is ASCII.
pub open spec fn is_ascii_text(s: Seq<char>) -> bool {
    forall|i: int| 0 <= i < s.len() ==> (#[trigger] s[i] as u32) < 128
}

/// `c` with an ASCII small letter made capital.
pub open spec fn ascii_upper(c: char) -> char {
    if 'a' <= c && c <= 'z' {
        ((c as u32) - 32) as char
    } else {
        c
    }
}

/// `s` with every ASCII small letter made capital.
pub open spec fn ascii_upper_seq(s: Seq<char>) -> Seq<char> {
    s.map_values(|c: char| ascii_upper(c))
}

/// `s` with every ASCII capital letter made small.
pub open spec fn ascii_lower_seq(s: Seq<char>) -> Seq<char> {
    s.map_values(|c: char| ascii_lower(c))
}

/// Whether `a` and `b` are equal when ASCII letters are compared without case.
pub open spec fn eq_ignore_case(a: Seq<char>, b: Seq<char>) -> bool {
    &&& a.len() == b.len()
    &&& forall|i: int| 0 <= i < a.len() ==> ascii_lower(#[trigger] a[i]) == ascii_lower(b[i])
}

pub fn to_ascii_lower(c: char) -> (r: char)
    ensures
        r == ascii_lower(c),
{
    if 'A' <= c && c <= 'Z' {
        let b = (c as u8) + 32;
        b as char
    } else {
        c
    }
}

/// Whether `a[from..to]` equals `b` when ASCII letters are compared without case.
pub fn eq_ignore_case_range(a: &[char], from: usize, to: usize, b: &[char]) -> (r: bool)
    requires
        from <= to <= a.len(),
    ensures
        r == eq_ignore_case(a@.subrange(from as int, to as int), b@),
{
    if to - from != b.len() {
        return false;
    }
    let mut i: usize = 0;
    while i < b.len()
        invariant
            to - from == b.len(),
            from <= to <= a.len(),
            i <= b.len(),
            forall|j: int| 0 <= j < i ==> ascii_lower(a@[from + j]) == ascii_lower(b@[j]),
        decreases b.len() - i,
    {
        if to_ascii_lower(a[from + i]) != to_ascii_lower(b[i]) {
            assert(a@.subrange(from as int, to as int)[i as int] == a@[from + i]);
            return false;
        }
        i = i + 1;
    }
    assert forall|j: int| 0 <= j < b.len() implies ascii_lower(
        #[trigger] a@.subrange(from as int, to as int)[j],
    ) == ascii_lower(b@[j]) by {
        assert(a@.subrange(from as int, to as int)[j] == a@[from + j]);
    }
    true
}

/// Whether `a[from..to]` equals `b`.
pub fn eq_range(a: &[char], from: usize, to: usize, b: &[char]) -> (r: bool)
    requires
        from <= to <= a.len(),
    ensures
        r == (a@.subrange(from as int, to as int) == b@),
{
    if to - from != b.len() {
        return false;
    }
    let mut i: usize = 0;
    while i < b.len()
        invariant
            to - from == b.len(),
            from <= to <= a.len(),
            i <= b.len(),
            forall|j: int| 0 <= j < i ==> a@[from + j] == b@[j],
        decreases b.len() - i,
    {
        if a[from + i] != b[i] {
            assert(a@.subrange(from as int, to as int)[i as int] == a@[from + i]);
            return false;
        }
        i = i + 1;
    }
    assert(a@.subrange(from as int, to as int) =~= b@);
    true
}

/// The characters of `s` from `from` to `to` as a new string.
pub fn string_of_range(s: &[char], from: usize, to: usize) -> (r: String)
    requires
        from <= to <= s.len(),
    ensures
        r@ == s@.subrange(from as int, to as int),
{
    let mut r = String::new();
    let mut i: usize = from;
    while i < to
        invariant
            from <= i <= to <= s.len(),
            r@ == s@.subrange(from as int, i as int),
        decreases to - i,
    {
        push_char(&mut r, s[i]);
        i = i + 1;
        assert(r@ =~= s@.subrange(from as int, i as int));
    }
    r
}


/// Whether `needle` occurs in `hay`.
pub open spec fn contains_seq(hay: Seq<char>, needle: Seq<char>) -> bool {
    exists|k: int| 0 <= k && k + needle.len() <= hay.len() && #[trigger] hay.subrange(k, k + needle.len()) == needle
}

/// Whether `needle` occurs in `hay`.
pub fn contains_chars(hay: &[char], needle: &[char]) -> (r: bool)
    ensures
        r == contains_seq(hay@, needle@),
{
    if needle.len() > hay.len() {
        return false;
    }
    let last = hay.len() - needle.len();
    let mut k: usize = 0;
    loop
        invariant
            last == hay.len() - needle.len(),
            needle.len() <= hay.len(),
            k <= last,
            forall|j: int| 0 <= j < k ==> #[trigger] hay@.subrange(j, j + needle.len()) != needle@,
        decreases last - k,
    {
        if eq_range(hay, k, k + needle.len(), needle) {
            return true;
        }
        if k == last {
            return false;
        }
        k = k + 1;
    }
}


/// The pieces of `v` between `c` characters, empty ones included.
pub open spec fn split_at_char(v: Seq<char>, c: char) -> Seq<Seq<char>>
    decreases v.len(),
{
    if v.len() == 0 {
        seq![seq![]]
    } else {
        let init = split_at_char(v.drop_last(), c);
        if v.last() == c {
            init.push(seq![])
        } else {
            init.update(init.len() - 1, init.last().push(v.last()))
        }
    }
}

pub proof fn lemma_split_at_char_len(v: Seq<char>, c: char)
    ensures
        split_at_char(v, c).len() >= 1,
    decreases v.len(),
{
    if v.len() > 0 {
        lemma_split_at_char_len(v.drop_last(), c);
    }
}

/// The pieces of `p` between `c` characters.
pub fn split_char(p: &[char], c: char) -> (out: Vec<Vec<char>>)
    ensures
        out@.len() == split_at_char(p@, c).len(),
        forall|i: int| 0 <= i < out@.len() ==> #[trigger] out@[i]@ == split_at_char(p@, c)[i],
{
    let n = p.len();
    let mut out: Vec<Vec<char>> = Vec::new();
    let mut start: usize = 0;
    let mut j: usize = 0;
    assert(p@.take(0) =~= Seq::<char>::empty());
    assert(p@.subrange(0, 0) =~= Seq::<char>::empty());
    while j < n
        invariant
            n == p.len(),
            start <= j <= n,
            split_at_char(p@.take(j as int), c).len() >= 1,
            split_at_char(p@.take(j as int), c).last() == p@.subrange(start as int, j as int),
            out@.len() + 1 == split_at_char(p@.take(j as int), c).len(),
            forall|i: int| 0 <= i < out@.len() ==> #[trigger] out@[i]@ == split_at_char(p@.take(j as int), c)[i],
        decreases n - j,
    {
        let ghost parts = split_at_char(p@.take(j as int), c);
        let ghost next = split_at_char(p@.take(j + 1), c);
        assert(p@.take(j + 1).drop_last() =~= p@.take(j as int));
        assert(p@.take(j + 1).last() == p@[j as int]);
        proof {
            lemma_split_at_char_len(p@.take(j as int), c);
        }
        if p[j] == c {
            out.push(copy_chars(p, start, j));
            assert(next =~= parts.push(Seq::<char>::empty()));
            assert(p@.subrange(j + 1, j + 1) =~= Seq::<char>::empty());
            start = j + 1;
        } else {
            assert(next =~= parts.update(parts.len() - 1, parts.last().push(p@[j as int])));
            assert(next.last() =~= p@.subrange(start as int, j + 1));
        }
        j = j + 1;
    }
    assert(p@.take(n as int) =~= p@);
    out.push(copy_chars(p, start, n));
    out
}

/// `p[from..to]` as a new vector.
pub fn copy_chars(p: &[char], from: usize, to: usize) -> (out: Vec<char>)
    requires
        from <= to <= p.len(),
    ensures
        out@ == p@.subrange(from as int, to as int),
{
    let mut out: Vec<char> = Vec::new();
    let mut t: usize = from;
    while t < to
        invariant
            from <= t <= to <= p.len(),
            out@ == p@.subrange(from as int, t as int),
        decreases to - t,
    {
        out.push(p[t]);
        t = t + 1;
        assert(out@ =~= p@.subrange(from as int, t as int));
    }
    out
}

/// `s` without a `\r` at its end.
pub open spec fn strip_cr(s: Seq<char>) -> Seq<char> {
    if s.len() > 0 && s.last() == '\r' {
        s.drop_last()
    } else {
        s
    }
}

/// The lines of `t` as `str::lines` gives them: split at `\n`, a `\r` before a
/// `\n` dropped, and no empty line after a final `\n`.
pub open spec fn lines_of(t: Seq<char>) -> Seq<Seq<char>> {
    let p = split_at_char(t, '\n');
    let n = if p.last().len() == 0 { p.len() - 1 } else { p.len() as int };
    Seq::new(n as nat, |i: int| if i < p.len() - 1 { strip_cr(p[i]) } else { p[i] })
}

/// `s` without Unicode whitespace at either end.
pub open spec fn trim_ws(s: Seq<char>) -> Seq<char>
    decreases s.len(),
{
    if s.len() > 0 && is_ws(s[0]) {
        trim_ws(s.drop_first())
    } else if s.len() > 0 && is_ws(s.last()) {
        trim_ws(s.drop_last())
    } else {
        s
    }
}

/// [`trim_ws`] of `s[from..to]`: where it starts and ends.
pub fn trim_range(s: &[char], from: usize, to: usize) -> (r: (usize, usize))
    requires
        from <= to <= s.len(),
    ensures
        from <= r.0 <= r.1 <= to,
        s@.subrange(r.0 as int, r.1 as int) == trim_ws(s@.subrange(from as int, to as int)),
{
    let mut a = from;
    let mut b = to;
    while a < b && is_whitespace(s[a])
        invariant
            from <= a <= b,
            b == to,
            to <= s.len(),
            trim_ws(s@.subrange(a as int, b as int)) == trim_ws(s@.subrange(from as int, to as int)),
        decreases b - a,
    {
        assert(s@.subrange(a as int, b as int).drop_first() =~= s@.subrange(a + 1, b as int));
        a = a + 1;
    }
    while a < b && is_whitespace(s[b - 1])
        invariant
            from <= a <= b <= to,
            to <= s.len(),
            a < b ==> !is_ws(s@[a as int]),
            trim_ws(s@.subrange(a as int, b as int)) == trim_ws(s@.subrange(from as int, to as int)),
        decreases b - a,
    {
        assert(s@.subrange(a as int, b as int)[0] == s@[a as int]);
        assert(s@.subrange(a as int, b as int).drop_last() =~= s@.subrange(a as int, b - 1));
        b = b - 1;
    }
    if a < b {
        assert(s@.subrange(a as int, b as int)[0] == s@[a as int]);
        assert(s@.subrange(a as int, b as int).last() == s@[b - 1]);
    }
    (a, b)
}

} // verus!
