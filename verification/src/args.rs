use vstd::prelude::*;
use crate::error::LauncherError;
use crate::text::{backslashes, chars_of, is_whitespace, is_ws, push_backslashes, push_char, string_from_chars};

verus! {

/// Windows CRT quoting of `s` from position `i`, with `pending` backslashes seen
/// and not yet written: a run of backslashes is doubled when a quote or the end
/// follows it, a quote is escaped, and every other character is kept.
pub open spec fn quote_from(s: Seq<char>, i: int, pending: nat) -> Seq<char>
    decreases s.len() - i,
{
    if i < 0 || i >= s.len() {
        backslashes(2 * pending)
    } else if s[i] == '\\' {
        quote_from(s, i + 1, pending + 1)
    } else if s[i] == '"' {
        backslashes(2 * pending + 1) + seq!['"'] + quote_from(s, i + 1, 0)
    } else {
        backslashes(pending) + seq![s[i]] + quote_from(s, i + 1, 0)
    }
}

/// `s` as one quoted argument.
pub open spec fn quote_spec(s: Seq<char>) -> Seq<char> {
    seq!['"'] + quote_from(s, 0, 0) + seq!['"']
}

/// Quotes `s` as one argument by the Windows CRT rules, which Roslyn's
/// response-file tokenizer accepts as well.
pub fn quote(s: &str) -> (out: String)
    ensures
        out@ == quote_spec(s@),
{
    let chars = chars_of(s);
    let mut out = String::new();
    push_char(&mut out, '"');
    let mut slashes: usize = 0;
    let mut i: usize = 0;
    while i < chars.len()
        invariant
            i <= chars.len(),
            chars@ == s@,
            slashes <= i,
            out@ + quote_from(s@, i as int, slashes as nat) == seq!['"'] + quote_from(s@, 0, 0),
        decreases chars.len() - i,
    {
        let c = chars[i];
        if c == '\\' {
            slashes = slashes + 1;
        } else {
            push_backslashes(&mut out, slashes);
            if c == '"' {
                push_backslashes(&mut out, slashes);
                push_char(&mut out, '\\');
            }
            slashes = 0;
            push_char(&mut out, c);
        }
        i = i + 1;
    }
    push_backslashes(&mut out, slashes);
    push_backslashes(&mut out, slashes);
    push_char(&mut out, '"');
    out
}


/// The arguments `args`, each quoted, separated by single `sep` characters.
pub open spec fn quoted_joined(args: Seq<Seq<char>>, sep: char) -> Seq<char>
    decreases args.len(),
{
    if args.len() == 0 {
        seq![]
    } else if args.len() == 1 {
        quote_spec(args[0])
    } else {
        quote_spec(args[0]) + seq![sep] + quoted_joined(args.drop_first(), sep)
    }
}

/// The arguments `args`, each quoted, separated by single spaces.
pub open spec fn command_spec(args: Seq<Seq<char>>) -> Seq<char> {
    quoted_joined(args, ' ')
}

/// The text of a response file that holds `args`, each quoted, one per line.
pub open spec fn response_file_spec(args: Seq<Seq<char>>) -> Seq<char> {
    quoted_joined(args, '\n')
}

proof fn lemma_joined_push(args: Seq<Seq<char>>, a: Seq<char>, sep: char)
    ensures
        quoted_joined(args.push(a), sep) == if args.len() == 0 {
            quote_spec(a)
        } else {
            quoted_joined(args, sep) + seq![sep] + quote_spec(a)
        },
    decreases args.len(),
{
    if args.len() > 0 {
        assert(args.push(a).drop_first() =~= args.drop_first().push(a));
        lemma_joined_push(args.drop_first(), a, sep);
        if args.len() > 1 {
            assert(quoted_joined(args.push(a), sep) =~= quoted_joined(args, sep) + seq![sep] + quote_spec(a));
        }
    }
}

fn join_quoted(args: &[String], sep: char) -> (out: String)
    ensures
        out@ == quoted_joined(args.deep_view(), sep),
{
    let mut out = String::new();
    let mut i: usize = 0;
    while i < args.len()
        invariant
            i <= args.len(),
            out@ == quoted_joined(args.deep_view().take(i as int), sep),
        decreases args.len() - i,
    {
        let q = quote(args[i].as_str());
        proof {
            assert(args.deep_view().take(i + 1) =~= args.deep_view().take(i as int).push(args[i as int]@));
            lemma_joined_push(args.deep_view().take(i as int), args[i as int]@, sep);
        }
        if i > 0 {
            push_char(&mut out, sep);
        }
        out.append(q.as_str());
        i = i + 1;
    }
    assert(args.deep_view().take(args.len() as int) =~= args.deep_view());
    out
}

/// Joins the arguments into one command line, each quoted by [`quote`].
pub fn command(args: &[String]) -> (out: String)
    ensures
        out@ == command_spec(args.deep_view()),
{
    join_quoted(args, ' ')
}

/// The text of a response file that holds `args`: each quoted by [`quote`], one per line.
pub fn response_file_text(args: &[String]) -> (out: String)
    ensures
        out@ == response_file_spec(args.deep_view()),
{
    join_quoted(args, '\n')
}

/// `s` without its leading byte order marks.
pub open spec fn trim_bom(s: Seq<char>) -> Seq<char>
    decreases s.len(),
{
    if s.len() > 0 && s[0] == '\u{feff}' {
        trim_bom(s.drop_first())
    } else {
        s
    }
}

/// The number of backslashes that follow one another from position `i`.
pub open spec fn bs_run(c: Seq<char>, i: int) -> nat
    decreases c.len() - i,
{
    if 0 <= i < c.len() && c[i] == '\\' {
        1 + bs_run(c, i + 1)
    } else {
        0
    }
}

/// The position of the first line feed at or after `i`, or the end.
pub open spec fn line_end(c: Seq<char>, i: int) -> int
    decreases c.len() - i,
{
    if i < 0 || i >= c.len() || c[i] == '\n' {
        i
    } else {
        line_end(c, i + 1)
    }
}

pub proof fn lemma_bs_run_bound(c: Seq<char>, i: int)
    requires
        0 <= i <= c.len(),
    ensures
        i + bs_run(c, i) <= c.len(),
        i + bs_run(c, i) < c.len() ==> c[i + bs_run(c, i)] != '\\',
    decreases c.len() - i,
{
    if 0 <= i < c.len() && c[i] == '\\' {
        lemma_bs_run_bound(c, i + 1);
    }
}

pub proof fn lemma_line_end_bound(c: Seq<char>, i: int)
    requires
        0 <= i <= c.len(),
    ensures
        i <= line_end(c, i) <= c.len(),
    decreases c.len() - i,
{
    if i < c.len() && c[i] != '\n' {
        lemma_line_end_bound(c, i + 1);
    }
}

/// Reads the rest of one argument from position `i`, inside quotes when `quoted`:
/// the position where it ends, its text, and whether a quote is still open there.
/// Backslashes before a quote are halved, an odd one escapes the quote; inside
/// quotes a doubled quote stands for one quote.
pub open spec fn token_from(c: Seq<char>, i: int, quoted: bool) -> (int, Seq<char>, bool)
    decreases c.len() - i,
{
    if !(0 <= i < c.len() && (quoted || !is_ws(c[i]))) {
        (i, seq![], quoted)
    } else {
        let k = bs_run(c, i);
        let m = i + k;
        proof {
            lemma_bs_run_bound(c, i);
        }
        if m < c.len() && c[m] == '"' {
            if k % 2 == 1 {
                let r = token_from(c, m + 1, quoted);
                (r.0, backslashes(k / 2) + seq!['"'] + r.1, r.2)
            } else if quoted && m + 1 < c.len() && c[m + 1] == '"' {
                let r = token_from(c, m + 2, quoted);
                (r.0, backslashes(k / 2) + seq!['"'] + r.1, r.2)
            } else {
                let r = token_from(c, m + 1, !quoted);
                (r.0, backslashes(k / 2) + r.1, r.2)
            }
        } else if m < c.len() && (quoted || !is_ws(c[m])) {
            let r = token_from(c, m + 1, quoted);
            (r.0, backslashes(k) + seq![c[m]] + r.1, r.2)
        } else if k > 0 {
            let r = token_from(c, m, quoted);
            (r.0, backslashes(k) + r.1, r.2)
        } else {
            (i, seq![], quoted)
        }
    }
}

pub proof fn lemma_token_from_bound(c: Seq<char>, i: int, quoted: bool)
    requires
        0 <= i <= c.len(),
    ensures
        i <= token_from(c, i, quoted).0 <= c.len(),
        0 <= i < c.len() && (quoted || !is_ws(c[i])) ==> i < token_from(c, i, quoted).0,
    decreases c.len() - i,
{
    if 0 <= i < c.len() && (quoted || !is_ws(c[i])) {
        let k = bs_run(c, i);
        let m = i + k;
        lemma_bs_run_bound(c, i);
        if m < c.len() && c[m] == '"' {
            if k % 2 == 1 {
                lemma_token_from_bound(c, m + 1, quoted);
            } else if quoted && m + 1 < c.len() && c[m + 1] == '"' {
                lemma_token_from_bound(c, m + 2, quoted);
            } else {
                lemma_token_from_bound(c, m + 1, !quoted);
            }
        } else if m < c.len() && (quoted || !is_ws(c[m])) {
            lemma_token_from_bound(c, m + 1, quoted);
        } else if k > 0 {
            lemma_token_from_bound(c, m, quoted);
        }
    }
}

/// `rest` with `front` placed before it, or `None` when `rest` is `None`.
pub open spec fn prepend(front: Seq<Seq<char>>, rest: Option<Seq<Seq<char>>>) -> Option<Seq<Seq<char>>> {
    match rest {
        Some(r) => Some(front + r),
        None => None,
    }
}

/// The arguments of `c` from position `i`, or `None` when a quote is left open.
/// Whitespace separates arguments; in a response file a `#` where an argument
/// would start makes the rest of its line a comment.
pub open spec fn split_from(c: Seq<char>, i: int, response: bool) -> Option<Seq<Seq<char>>>
    decreases c.len() - i,
{
    if i < 0 || i >= c.len() {
        Some(seq![])
    } else if is_ws(c[i]) {
        split_from(c, i + 1, response)
    } else if response && c[i] == '#' {
        proof {
            lemma_line_end_bound(c, i + 1);
        }
        split_from(c, line_end(c, i + 1), response)
    } else {
        let t = token_from(c, i, false);
        proof {
            lemma_token_from_bound(c, i, false);
        }
        if t.2 {
            None
        } else {
            prepend(seq![t.1], split_from(c, t.0, response))
        }
    }
}

/// The arguments of `s`: leading byte order marks are dropped first.
pub open spec fn split_spec(s: Seq<char>, response: bool) -> Option<Seq<Seq<char>>> {
    split_from(trim_bom(s), 0, response)
}

fn trimmed_chars(s: &str) -> (out: Vec<char>)
    ensures
        out@ == trim_bom(s@),
{
    let chars = chars_of(s);
    let mut start: usize = 0;
    assert(chars@.skip(0) =~= chars@);
    while start < chars.len() && chars[start] == '\u{feff}'
        invariant
            start <= chars.len(),
            chars@ == s@,
            trim_bom(chars@.skip(start as int)) == trim_bom(s@),
        decreases chars.len() - start,
    {
        assert(chars@.skip(start as int).drop_first() =~= chars@.skip(start + 1));
        start = start + 1;
    }
    let mut out: Vec<char> = Vec::new();
    let mut i: usize = start;
    while i < chars.len()
        invariant
            start <= i <= chars.len(),
            out@ == chars@.subrange(start as int, i as int),
        decreases chars.len() - i,
    {
        out.push(chars[i]);
        i = i + 1;
        assert(out@ =~= chars@.subrange(start as int, i as int));
    }
    assert(out@ =~= chars@.skip(start as int));
    out
}

/// Splits a command line, or the text of a response file when `response`, into
/// arguments by the Windows CRT rules. Fails exactly when a quote is left open.
pub fn split_args(s: &str, response: bool) -> (res: Result<Vec<String>, LauncherError>)
    ensures
        match res {
            Ok(v) => split_spec(s@, response) == Some(v.deep_view()),
            Err(e) => split_spec(s@, response) is None && e == LauncherError::UnclosedQuote,
        },
{
    let chars = trimmed_chars(s);
    let ghost c = chars@;
    let n = chars.len();
    let mut i: usize = 0;
    let mut out: Vec<String> = Vec::new();
    while i < n
        invariant
            n == chars.len(),
            c == chars@,
            c == trim_bom(s@),
            i <= n,
            split_from(c, 0, response) == prepend(out.deep_view(), split_from(c, i as int, response)),
        decreases n - i,
    {
        if is_whitespace(chars[i]) {
            i = i + 1;
        } else if response && chars[i] == '#' {
            let ghost start = i;
            proof {
                lemma_line_end_bound(c, i + 1);
            }
            i = i + 1;
            while i < n && chars[i] != '\n'
                invariant
                    n == chars.len(),
                    c == chars@,
                    start < i <= line_end(c, start + 1) <= n,
                    line_end(c, i as int) == line_end(c, start + 1),
                decreases n - i,
            {
                proof {
                    lemma_line_end_bound(c, i + 1);
                }
                i = i + 1;
            }
        } else {
            let ghost start = i;
            let mut token = String::new();
            let mut quoted = false;
            proof {
                lemma_token_from_bound(c, i as int, false);
            }
            while i < n && (quoted || !is_whitespace(chars[i]))
                invariant
                    n == chars.len(),
                    c == chars@,
                    start <= i <= n,
                    ({
                        let t0 = token_from(c, start as int, false);
                        let t = token_from(c, i as int, quoted);
                        t0.0 == t.0 && t0.1 == token@ + t.1 && t0.2 == t.2
                    }),
                decreases n - i,
            {
                let ghost i0 = i;
                let ghost tok0 = token@;
                let mut slash: usize = 0;
                while i < n && chars[i] == '\\'
                    invariant
                        n == chars.len(),
                        c == chars@,
                        i0 <= i <= n,
                        i == i0 + slash,
                        bs_run(c, i0 as int) == slash + bs_run(c, i as int),
                    decreases n - i,
                {
                    slash = slash + 1;
                    i = i + 1;
                }
                assert(bs_run(c, i as int) == 0);
                proof {
                    lemma_bs_run_bound(c, i0 as int);
                }
                if i < n && chars[i] == '"' {
                    push_backslashes(&mut token, slash / 2);
                    if slash % 2 == 1 {
                        push_char(&mut token, '"');
                    } else if quoted && i + 1 < n && chars[i + 1] == '"' {
                        push_char(&mut token, '"');
                        i = i + 1;
                    } else {
                        quoted = !quoted;
                    }
                    i = i + 1;
                } else {
                    push_backslashes(&mut token, slash);
                    if i < n && (quoted || !is_whitespace(chars[i])) {
                        push_char(&mut token, chars[i]);
                        i = i + 1;
                    }
                }
                assert(token@ =~= tok0 + (token@.subrange(tok0.len() as int, token@.len() as int)));
            }
            assert(token_from(c, i as int, quoted) == (i as int, Seq::<char>::empty(), quoted));
            assert(token_from(c, start as int, false).1 == token@);
            if quoted {
                assert(split_from(c, start as int, response) is None);
                assert(split_from(c, 0, response) is None);
                assert(split_spec(s@, response) is None);
                return Err(LauncherError::UnclosedQuote);
            }
            let ghost before = out.deep_view();
            out.push(token);
            assert(out.deep_view() =~= before + seq![token_from(c, start as int, false).1]);
        }
    }
    Ok(out)
}


proof fn lemma_quote_from_run(s: Seq<char>, i: int, p: nat)
    requires
        0 <= i <= s.len(),
    ensures
        i + bs_run(s, i) <= s.len(),
        quote_from(s, i, p) == quote_from(s, i + bs_run(s, i), p + bs_run(s, i)),
    decreases s.len() - i,
{
    if i < s.len() && s[i] == '\\' {
        lemma_quote_from_run(s, i + 1, p + 1);
    }
}

proof fn lemma_bs_run_exact(c: Seq<char>, j: int, n: nat)
    requires
        0 <= j,
        j + n <= c.len(),
        forall|t: int| j <= t < j + n ==> c[t] == '\\',
        j + n < c.len() ==> c[j + n] != '\\',
    ensures
        bs_run(c, j) == n,
    decreases n,
{
    if n > 0 {
        lemma_bs_run_exact(c, j + 1, (n - 1) as nat);
    }
}

proof fn lemma_bs_run_all(s: Seq<char>, i: int)
    requires
        0 <= i <= s.len(),
    ensures
        forall|t: int| i <= t < i + bs_run(s, i) ==> s[t] == '\\',
    decreases s.len() - i,
{
    if i < s.len() && s[i] == '\\' {
        lemma_bs_run_all(s, i + 1);
    }
}

/// Reading a quoted argument back: after an opening quote, the text that
/// [`quote_from`] wrote for `s` from `i`, its closing quote and then whitespace
/// or the end, give back `s` from `i`.
proof fn lemma_token_quoted(c: Seq<char>, j: int, s: Seq<char>, i: int)
    requires
        0 <= i <= s.len(),
        0 <= j,
        j + quote_from(s, i, 0).len() + 1 <= c.len(),
        c.subrange(j, j + quote_from(s, i, 0).len() + 1) == quote_from(s, i, 0) + seq!['"'],
        j + quote_from(s, i, 0).len() + 1 == c.len() || is_ws(c[j + quote_from(s, i, 0).len() + 1]),
    ensures
        token_from(c, j, true) == (j + quote_from(s, i, 0).len() + 1, s.skip(i), false),
    decreases s.len() - i,
{
    let q = quote_from(s, i, 0) + seq!['"'];
    let e = j + q.len();
    lemma_quote_from_run(s, i, 0);
    lemma_bs_run_all(s, i);
    lemma_bs_run_bound(s, i);
    let k = bs_run(s, i);
    let m = i + k;
    assert(forall|t: int| 0 <= t < q.len() ==> c[j + t] == q[t]) by {
        assert forall|t: int| 0 <= t < q.len() implies c[j + t] == q[t] by {
            assert(c.subrange(j, e)[t] == c[j + t]);
        }
    }
    if m == s.len() {
        assert(quote_from(s, m, k) == backslashes(2 * k));
        let n2 = 2 * k;
        assert(q =~= backslashes(n2) + seq!['"']);
        assert forall|t: int| j <= t < j + n2 implies c[t] == '\\' by {
            assert(c[j + (t - j)] == q[t - j]);
        }
        assert(c[j + n2] == q[n2 as int]);
        lemma_bs_run_exact(c, j, n2);
        let mq = j + n2;
        assert(c[mq] == '"');
        assert(token_from(c, mq + 1, false) == (mq + 1, Seq::<char>::empty(), false));
        assert(s.skip(i) =~= backslashes(k));
        assert(n2 / 2 == k);
        assert(token_from(c, j, true).1 =~= backslashes(k) + Seq::<char>::empty());
    } else if s[m] == '"' {
        let n2 = 2 * k + 1;
        let rest = quote_from(s, m + 1, 0);
        assert(quote_from(s, m, k) == backslashes(n2) + seq!['"'] + rest);
        assert(q =~= backslashes(n2) + seq!['"'] + (rest + seq!['"']));
        assert forall|t: int| j <= t < j + n2 implies c[t] == '\\' by {
            assert(c[j + (t - j)] == q[t - j]);
        }
        assert(c[j + n2] == q[n2 as int]);
        lemma_bs_run_exact(c, j, n2);
        let j2 = j + n2 + 1;
        assert(c.subrange(j2, j2 + rest.len() + 1) =~= rest + seq!['"']) by {
            assert forall|t: int| 0 <= t < rest.len() + 1 implies c.subrange(j2, j2 + rest.len() + 1)[t]
                == (rest + seq!['"'])[t] by {
                assert(c[j + (n2 + 1 + t)] == q[n2 + 1 + t]);
            }
        }
        lemma_token_quoted(c, j2, s, m + 1);
        assert(n2 / 2 == k);
        assert(n2 % 2 == 1);
        assert(s.skip(i) =~= backslashes(k) + seq!['"'] + s.skip(m + 1));
    } else {
        let x = s[m];
        let rest = quote_from(s, m + 1, 0);
        assert(quote_from(s, m, k) == backslashes(k) + seq![x] + rest);
        assert(q =~= backslashes(k) + seq![x] + (rest + seq!['"']));
        assert forall|t: int| j <= t < j + k implies c[t] == '\\' by {
            assert(c[j + (t - j)] == q[t - j]);
        }
        assert(c[j + k] == q[k as int]);
        lemma_bs_run_exact(c, j, k);
        let j2 = j + k + 1;
        assert(c.subrange(j2, j2 + rest.len() + 1) =~= rest + seq!['"']) by {
            assert forall|t: int| 0 <= t < rest.len() + 1 implies c.subrange(j2, j2 + rest.len() + 1)[t]
                == (rest + seq!['"'])[t] by {
                assert(c[j + (k + 1 + t)] == q[k + 1 + t]);
            }
        }
        lemma_token_quoted(c, j2, s, m + 1);
        assert(s.skip(i) =~= backslashes(k) + seq![x] + s.skip(m + 1));
    }
}

proof fn lemma_split_joined(c: Seq<char>, p: int, args: Seq<Seq<char>>, sep: char, response: bool)
    requires
        is_ws(sep),
        0 <= p,
        p + quoted_joined(args, sep).len() == c.len(),
        c.subrange(p, c.len() as int) == quoted_joined(args, sep),
    ensures
        split_from(c, p, response) == Some(args),
    decreases args.len(),
{
    if args.len() == 0 {
        assert(args =~= Seq::<Seq<char>>::empty());
    } else {
        let a = args[0];
        let qa = quote_from(a, 0, 0);
        let cmd = quoted_joined(args, sep);
        assert(cmd.len() >= quote_spec(a).len());
        assert forall|t: int| 0 <= t < quote_spec(a).len() implies c[p + t] == quote_spec(a)[t] by {
            assert(c.subrange(p, c.len() as int)[t] == c[p + t]);
        }
        assert(c[p + 0] == quote_spec(a)[0]);
        assert(c[p] == '"');
        lemma_bs_run_exact(c, p, 0);
        let e = p + 1 + qa.len() + 1;
        assert(c.subrange(p + 1, p + 1 + qa.len() + 1) =~= qa + seq!['"']) by {
            assert forall|t: int| 0 <= t < qa.len() + 1 implies c.subrange(p + 1, p + 1 + qa.len() + 1)[t]
                == (qa + seq!['"'])[t] by {
                assert(c[p + (1 + t)] == quote_spec(a)[1 + t]);
            }
        }
        if args.len() > 1 {
            assert(c.subrange(p, c.len() as int)[e - p] == c[e]);
            assert(c[e] == sep);
        }
        lemma_token_quoted(c, p + 1, a, 0);
        assert(a.skip(0) =~= a);
        assert(token_from(c, p, false) == (e, a, false));
        if args.len() == 1 {
            assert(split_from(c, e, response) == Some(Seq::<Seq<char>>::empty()));
            assert(seq![a] =~= args);
        } else {
            let rest = quoted_joined(args.drop_first(), sep);
            assert(c.subrange(e + 1, c.len() as int) =~= rest) by {
                assert forall|t: int| 0 <= t < rest.len() implies c.subrange(e + 1, c.len() as int)[t]
                    == rest[t] by {
                    assert(c.subrange(p, c.len() as int)[e + 1 - p + t] == c[e + 1 + t]);
                }
            }
            lemma_split_joined(c, e + 1, args.drop_first(), sep, response);
            assert(split_from(c, e, response) == split_from(c, e + 1, response));
            assert(seq![a] + args.drop_first() =~= args);
        }
    }
}

/// Splitting a command line that [`command`] joined gives back exactly the
/// arguments it joined, whatever they hold, as a command line or as the text
/// of a response file.
pub proof fn split_args_inverts_command(args: Seq<Seq<char>>, response: bool)
    ensures
        split_spec(command_spec(args), response) == Some(args),
{
    let c = command_spec(args);
    if args.len() > 0 {
        assert(c[0] == '"');
    }
    assert(trim_bom(c) == c);
    assert(c.subrange(0, c.len() as int) =~= c);
    lemma_split_joined(c, 0, args, ' ', response);
}

/// Reading a response file that [`response_file_text`] wrote gives back
/// exactly the arguments it holds, whatever they hold.
pub proof fn split_args_inverts_response_file(args: Seq<Seq<char>>)
    ensures
        split_spec(response_file_spec(args), true) == Some(args),
{
    let c = response_file_spec(args);
    if args.len() > 0 {
        assert(c[0] == '"');
    }
    assert(trim_bom(c) == c);
    assert(c.subrange(0, c.len() as int) =~= c);
    lemma_split_joined(c, 0, args, '\n', true);
}

/// The position of the first whitespace character in `c` at or after `i`, or the end.
pub open spec fn word_end(c: Seq<char>, i: int) -> int
    decreases c.len() - i,
{
    if i < 0 || i >= c.len() || is_ws(c[i]) {
        i
    } else {
        word_end(c, i + 1)
    }
}

/// The runs of non-whitespace characters of `c` from position `i`, in order,
/// as `str::split_whitespace` gives them.
pub open spec fn words_from(c: Seq<char>, i: int) -> Seq<Seq<char>>
    decreases c.len() - i, 1int,
{
    if i < 0 || i >= c.len() {
        seq![]
    } else if is_ws(c[i]) {
        words_from(c, i + 1)
    } else {
        proof {
            lemma_word_end_bound(c, i);
        }
        seq![c.subrange(i, word_end(c, i))] + words_from(c, word_end(c, i))
    }
}

pub proof fn lemma_word_end_bound(c: Seq<char>, i: int)
    requires
        0 <= i < c.len(),
        !is_ws(c[i]),
    ensures
        i < word_end(c, i) <= c.len(),
    decreases c.len() - i,
{
    if i + 1 < c.len() && !is_ws(c[i + 1]) {
        lemma_word_end_bound(c, i + 1);
    } else {
        assert(word_end(c, i + 1) == i + 1);
    }
}

proof fn lemma_word_end_skip(c: Seq<char>, i: int, j: int)
    requires
        0 <= i <= j <= c.len(),
        forall|t: int| i <= t < j ==> !is_ws(#[trigger] c[t]),
    ensures
        word_end(c, i) == word_end(c, j),
    decreases j - i,
{
    if i < j {
        lemma_word_end_skip(c, i + 1, j);
    }
}

proof fn lemma_bs_run_text(c: Seq<char>, i: int)
    requires
        0 <= i <= c.len(),
    ensures
        i + bs_run(c, i) <= c.len(),
        c.subrange(i, i + bs_run(c, i)) == backslashes(bs_run(c, i)),
{
    lemma_bs_run_bound(c, i);
    lemma_bs_run_all(c, i);
    assert(c.subrange(i, i + bs_run(c, i)) =~= backslashes(bs_run(c, i)));
}

/// Without quotes an argument is one run of non-whitespace characters, read as
/// it stands (backslashes included).
proof fn lemma_token_plain(c: Seq<char>, i: int)
    requires
        0 <= i <= c.len(),
        forall|t: int| i <= t < c.len() ==> #[trigger] c[t] != '"',
    ensures
        i <= word_end(c, i) <= c.len(),
        token_from(c, i, false) == (word_end(c, i), c.subrange(i, word_end(c, i)), false),
    decreases c.len() - i,
{
    if 0 <= i < c.len() && !is_ws(c[i]) {
        lemma_word_end_bound(c, i);
        let k = bs_run(c, i);
        let m = i + k;
        lemma_bs_run_text(c, i);
        lemma_bs_run_all(c, i);
        assert forall|t: int| i <= t < m implies !is_ws(#[trigger] c[t]) by {
            assert(c[t] == '\\');
        }
        if m < c.len() && !is_ws(c[m]) {
            lemma_token_plain(c, m + 1);
            assert forall|t: int| i <= t < m + 1 implies !is_ws(#[trigger] c[t]) by {
                if t < m {
                    assert(c[t] == '\\');
                }
            }
            lemma_word_end_skip(c, i, m + 1);
            let e = word_end(c, i);
            assert(c.subrange(i, e) =~= c.subrange(i, m) + seq![c[m]] + c.subrange(m + 1, e));
        } else {
            lemma_word_end_skip(c, i, m);
            assert(k > 0) by {
                if k == 0 {
                    assert(m == i);
                }
            }
            lemma_token_plain(c, m);
            assert(word_end(c, m) == m);
            assert(c.subrange(m, m) =~= Seq::<char>::empty());
            assert(backslashes(k) + Seq::<char>::empty() =~= backslashes(k));
        }
    }
}

proof fn lemma_split_plain(c: Seq<char>, i: int)
    requires
        0 <= i <= c.len(),
        forall|t: int| 0 <= t < c.len() ==> #[trigger] c[t] != '"',
    ensures
        split_from(c, i, false) == Some(words_from(c, i)),
    decreases c.len() - i,
{
    if i < c.len() {
        if is_ws(c[i]) {
            lemma_split_plain(c, i + 1);
        } else {
            lemma_token_plain(c, i);
            lemma_word_end_bound(c, i);
            lemma_split_plain(c, word_end(c, i));
        }
    }
}

proof fn lemma_split_without_comments(c: Seq<char>, i: int)
    requires
        0 <= i <= c.len(),
        forall|t: int| 0 <= t < c.len() ==> #[trigger] c[t] != '#',
    ensures
        split_from(c, i, true) == split_from(c, i, false),
    decreases c.len() - i,
{
    if i < c.len() {
        if is_ws(c[i]) {
            lemma_split_without_comments(c, i + 1);
        } else {
            lemma_token_from_bound(c, i, false);
            let t = token_from(c, i, false);
            if !t.2 {
                lemma_split_without_comments(c, t.0);
            }
        }
    }
}

proof fn lemma_trim_bom_skip(s: Seq<char>)
    ensures
        exists|n: int| 0 <= n <= s.len() && trim_bom(s) == #[trigger] s.skip(n),
    decreases s.len(),
{
    if s.len() > 0 && s[0] == '\u{feff}' {
        lemma_trim_bom_skip(s.drop_first());
        let n = choose|n: int| 0 <= n <= s.drop_first().len() && trim_bom(s.drop_first()) == #[trigger] s.drop_first().skip(n);
        assert(s.drop_first().skip(n) =~= s.skip(n + 1));
    } else {
        assert(s.skip(0) =~= s);
    }
}

/// A command line without quotes splits at whitespace and nowhere else, as
/// `str::split_whitespace` splits it once leading byte order marks are dropped;
/// backslashes are kept as they stand. A text without `#` splits the same
/// way as a command line and as a response file: comments are all that the
/// response mode adds.
pub proof fn unquoted_arguments_split_at_whitespace(s: Seq<char>)
    ensures
        !s.contains('"') ==> split_spec(s, false) == Some(words_from(trim_bom(s), 0)),
        !s.contains('#') ==> split_spec(s, true) == split_spec(s, false),
{
    lemma_trim_bom_skip(s);
    let c = trim_bom(s);
    let n = choose|n: int| 0 <= n <= s.len() && trim_bom(s) == #[trigger] s.skip(n);
    if !s.contains('"') {
        assert forall|t: int| 0 <= t < c.len() implies #[trigger] c[t] != '"' by {
            assert(c[t] == s[t + n]);
        }
        lemma_split_plain(c, 0);
    }
    if !s.contains('#') {
        assert forall|t: int| 0 <= t < c.len() implies #[trigger] c[t] != '#' by {
            assert(c[t] == s[t + n]);
        }
        lemma_split_without_comments(c, 0);
    }
}

} // verus!
