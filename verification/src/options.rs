use vstd::prelude::*;
use crate::text::{ascii_lower, ascii_lower_seq, chars_of, eq_ignore_case, eq_ignore_case_range, eq_range, push_char, string_of_range, to_ascii_lower};

verus! {

/// The position of the first `c` in `s` at or after `i`, or the length of `s`.
pub open spec fn first_index(s: Seq<char>, c: char, i: int) -> int
    decreases s.len() - i,
{
    if i < 0 || i >= s.len() || s[i] == c {
        i
    } else {
        first_index(s, c, i + 1)
    }
}

pub proof fn lemma_first_index(s: Seq<char>, c: char, i: int)
    requires
        0 <= i <= s.len(),
    ensures
        i <= first_index(s, c, i) <= s.len(),
        first_index(s, c, i) < s.len() ==> s[first_index(s, c, i)] == c,
        forall|j: int| i <= j < first_index(s, c, i) ==> s[j] != c,
    decreases s.len() - i,
{
    if i < s.len() && s[i] != c {
        lemma_first_index(s, c, i + 1);
    }
}

/// The word `langversion`.
pub open spec fn langversion_word() -> Seq<char> {
    seq!['l', 'a', 'n', 'g', 'v', 'e', 'r', 's', 'i', 'o', 'n']
}

/// Whether `c` may start a compiler switch.
pub open spec fn is_switch_char(c: char) -> bool {
    c == '-' || c == '/'
}

/// The value of a language version switch: `-langversion:V` or `/langversion:V`,
/// the key compared without ASCII case; the value is everything after the first
/// colon.
pub open spec fn language_option_spec(a: Seq<char>) -> Option<Seq<char>> {
    if a.len() > 0 && is_switch_char(a[0]) {
        let body = a.drop_first();
        let k = first_index(body, ':', 0);
        if k < body.len() && eq_ignore_case(body.take(k), langversion_word()) {
            Some(body.skip(k + 1))
        } else {
            None
        }
    } else {
        None
    }
}

/// The value of `argument` when it is a language version switch.
pub fn language_option(argument: &str) -> (r: Option<&str>)
    ensures
        match r {
            Some(v) => language_option_spec(argument@) == Some(v@),
            None => language_option_spec(argument@) is None,
        },
{
    let chars = chars_of(argument);
    let n = chars.len();
    if n == 0 || !(chars[0] == '-' || chars[0] == '/') {
        return None;
    }
    let ghost body = argument@.drop_first();
    let mut k: usize = 1;
    while k < n && chars[k] != ':'
        invariant
            1 <= k <= n,
            n == chars.len(),
            chars@ == argument@,
            body == argument@.drop_first(),
            first_index(body, ':', k - 1) == first_index(body, ':', 0),
        decreases n - k,
    {
        assert(body[k - 1] == chars@[k as int]);
        k = k + 1;
    }
    proof {
        lemma_first_index(body, ':', 0);
        assert(first_index(body, ':', k - 1) == k - 1);
    }
    if k == n {
        return None;
    }
    let word = vec!['l', 'a', 'n', 'g', 'v', 'e', 'r', 's', 'i', 'o', 'n'];
    assert(word@ =~= langversion_word());
    assert(chars@.subrange(1, k as int) =~= body.take(k - 1));
    if eq_ignore_case_range(&chars, 1, k, &word) {
        let v = argument.substring_char(k + 1, n);
        assert(v@ =~= body.skip(k as int));
        Some(v)
    } else {
        None
    }
}

/// The language version that the compiler takes from `args`: that of the last
/// language version switch, else `default`.
pub open spec fn effective_language_spec(args: Seq<Seq<char>>, default: Seq<char>) -> Seq<char>
    decreases args.len(),
{
    if args.len() == 0 {
        default
    } else {
        match language_option_spec(args.last()) {
            Some(v) => v,
            None => effective_language_spec(args.drop_last(), default),
        }
    }
}

/// The language version that the compiler will use for `args`.
pub fn effective_language<'a>(args: &'a [String], default: &'a str) -> (r: &'a str)
    ensures
        r@ == effective_language_spec(args.deep_view(), default@),
{
    let mut i: usize = args.len();
    assert(args.deep_view().take(args.len() as int) =~= args.deep_view());
    while i > 0
        invariant
            i <= args.len(),
            effective_language_spec(args.deep_view(), default@)
                == effective_language_spec(args.deep_view().take(i as int), default@),
        decreases i,
    {
        let ghost prefix = args.deep_view().take(i as int);
        assert(prefix.last() == args[i - 1]@);
        match language_option(args[i - 1].as_str()) {
            Some(v) => {
                return v;
            },
            None => {
                assert(prefix.drop_last() =~= args.deep_view().take(i - 1));
                i = i - 1;
            },
        }
    }
    default
}


/// `a` without the switch characters `-` and `/` at its start.
pub open spec fn switch_body(a: Seq<char>) -> Seq<char>
    decreases a.len(),
{
    if a.len() > 0 && is_switch_char(a[0]) {
        switch_body(a.drop_first())
    } else {
        a
    }
}

/// Where the switch characters at the start of `a` end.
fn switch_body_start(a: &[char]) -> (k: usize)
    ensures
        k <= a.len(),
        switch_body(a@) == a@.skip(k as int),
{
    let mut k: usize = 0;
    assert(a@.skip(0) =~= a@);
    while k < a.len() && (a[k] == '-' || a[k] == '/')
        invariant
            k <= a.len(),
            switch_body(a@.skip(k as int)) == switch_body(a@),
        decreases a.len() - k,
    {
        assert(a@.skip(k as int).drop_first() =~= a@.skip(k + 1));
        k = k + 1;
    }
    k
}

/// Where the first `c` in `a` at or after `from` stands, or the length of `a`.
fn find_char(a: &[char], c: char, from: usize) -> (k: usize)
    requires
        from <= a.len(),
    ensures
        k == first_index(a@, c, from as int),
{
    let mut k: usize = from;
    while k < a.len() && a[k] != c
        invariant
            from <= k <= a.len(),
            first_index(a@, c, k as int) == first_index(a@, c, from as int),
        decreases a.len() - k,
    {
        k = k + 1;
    }
    k
}

pub proof fn lemma_first_index_skip(s: Seq<char>, c: char, k: int, i: int)
    requires
        0 <= k <= s.len(),
        0 <= i <= s.len() - k,
    ensures
        first_index(s.skip(k), c, i) == first_index(s, c, k + i) - k,
    decreases s.len() - k - i,
{
    if i < s.len() - k && s[k + i] != c {
        lemma_first_index_skip(s, c, k, i + 1);
    }
}

pub open spec fn word_shared() -> Seq<char> {
    seq!['s', 'h', 'a', 'r', 'e', 'd']
}

pub open spec fn word_noconfig() -> Seq<char> {
    seq!['n', 'o', 'c', 'o', 'n', 'f', 'i', 'g']
}

/// Whether `a` asks for the shared compiler server (`shared`, `shared+`, `shared-`,
/// `shared:NAME`) or for no default response file (`noconfig`), written after
/// any number of `-` and `/` and without ASCII case.
pub open spec fn is_server_switch(a: Seq<char>) -> bool {
    let t = switch_body(a);
    ||| eq_ignore_case(t, word_shared())
    ||| eq_ignore_case(t, word_shared().push('+'))
    ||| eq_ignore_case(t, word_shared().push('-'))
    ||| (t.len() >= 7 && eq_ignore_case(t.take(7), word_shared().push(':')))
    ||| eq_ignore_case(t, word_noconfig())
}

/// The switch `/langversion:V`.
pub open spec fn langversion_switch(v: Seq<char>) -> Seq<char> {
    seq!['/'] + langversion_word() + seq![':'] + v
}

/// The arguments that the replacement compiler receives: the default language
/// version first (the compiler takes the last language switch, so any in `args`
/// still decides), then `args` without the shared-server and `noconfig` switches.
pub open spec fn prepare_args_spec(args: Seq<Seq<char>>, version: Seq<char>) -> Seq<Seq<char>> {
    seq![langversion_switch(version)] + args.filter(|a: Seq<char>| !is_server_switch(a))
}

fn is_server_switch_exec(a: &str) -> (r: bool)
    ensures
        r == is_server_switch(a@),
{
    let chars = chars_of(a);
    let n = chars.len();
    let k = switch_body_start(&chars);
    let ghost t = a@.skip(k as int);
    assert(chars@.subrange(k as int, n as int) =~= t);
    let shared = vec!['s', 'h', 'a', 'r', 'e', 'd'];
    let shared_plus = vec!['s', 'h', 'a', 'r', 'e', 'd', '+'];
    let shared_minus = vec!['s', 'h', 'a', 'r', 'e', 'd', '-'];
    let shared_colon = vec!['s', 'h', 'a', 'r', 'e', 'd', ':'];
    let noconfig = vec!['n', 'o', 'c', 'o', 'n', 'f', 'i', 'g'];
    assert(shared@ =~= word_shared());
    assert(shared_plus@ =~= word_shared().push('+'));
    assert(shared_minus@ =~= word_shared().push('-'));
    assert(shared_colon@ =~= word_shared().push(':'));
    assert(noconfig@ =~= word_noconfig());
    let prefix = if n - k >= 7 {
        assert(chars@.subrange(k as int, k + 7) =~= t.take(7));
        eq_ignore_case_range(&chars, k, k + 7, &shared_colon)
    } else {
        false
    };
    eq_ignore_case_range(&chars, k, n, &shared) || eq_ignore_case_range(&chars, k, n, &shared_plus)
        || eq_ignore_case_range(&chars, k, n, &shared_minus) || prefix
        || eq_ignore_case_range(&chars, k, n, &noconfig)
}

/// Prepares compiler arguments for the replacement compiler: prepends the
/// default language version and removes the switches that Roslyn's shared
/// compiler server and default response file would need.
pub fn prepare_args(args: Vec<String>, version: &str) -> (out: Vec<String>)
    ensures
        out.deep_view() == prepare_args_spec(args.deep_view(), version@),
{
    let ghost pred = |a: Seq<char>| !is_server_switch(a);
    let mut first = String::from_str("/langversion:");
    proof {
        reveal_strlit("/langversion:");
    }
    first.append(version);
    assert(first@ =~= langversion_switch(version@));
    let mut out: Vec<String> = Vec::new();
    out.push(first);
    let mut i: usize = 0;
    while i < args.len()
        invariant
            i <= args.len(),
            pred == (|a: Seq<char>| !is_server_switch(a)),
            out.deep_view() == seq![langversion_switch(version@)] + args.deep_view().take(i as int).filter(pred),
        decreases args.len() - i,
    {
        let ghost before = out.deep_view();
        let ghost prefix = args.deep_view().take(i + 1);
        assert(prefix.drop_last() =~= args.deep_view().take(i as int));
        assert(prefix.last() == args[i as int]@);
        proof {
            reveal_with_fuel(Seq::<_>::filter, 1);
        }
        if !is_server_switch_exec(args[i].as_str()) {
            out.push(args[i].clone());
            assert(out.deep_view() =~= before.push(args[i as int]@));
        } else {
            assert(out.deep_view() =~= before);
        }
        i = i + 1;
    }
    assert(args.deep_view().take(args.len() as int) =~= args.deep_view());
    out
}


/// Whether `c` separates the symbols of a define switch.
pub open spec fn is_define_sep(c: char) -> bool {
    c == ';' || c == ','
}

/// The pieces of `v` between `;` and `,` separators, empty ones included.
pub open spec fn split_symbols(v: Seq<char>) -> Seq<Seq<char>>
    decreases v.len(),
{
    if v.len() == 0 {
        seq![seq![]]
    } else {
        let init = split_symbols(v.drop_last());
        if is_define_sep(v.last()) {
            init.push(seq![])
        } else {
            init.update(init.len() - 1, init.last().push(v.last()))
        }
    }
}

pub proof fn lemma_split_symbols_len(v: Seq<char>)
    ensures
        split_symbols(v).len() >= 1,
    decreases v.len(),
{
    if v.len() > 0 {
        lemma_split_symbols_len(v.drop_last());
    }
}

/// The pieces `parts` joined by `;`.
pub open spec fn join_symbols(parts: Seq<Seq<char>>) -> Seq<char>
    decreases parts.len(),
{
    if parts.len() == 0 {
        seq![]
    } else if parts.len() == 1 {
        parts[0]
    } else {
        join_symbols(parts.drop_last()) + seq![';'] + parts.last()
    }
}

pub open spec fn word_define() -> Seq<char> {
    seq!['d', 'e', 'f', 'i', 'n', 'e']
}

/// Whether a define symbol stays: it is not empty and is not `symbol` in any ASCII case.
pub open spec fn keeps_symbol(part: Seq<char>, symbol: Seq<char>) -> bool {
    part.len() > 0 && !eq_ignore_case(part, symbol)
}

/// What becomes of one argument when `symbol` is removed: an argument that is
/// not a define switch (`define` or `d` after any `-` and `/`, then a colon,
/// without ASCII case) stays as it is; a define switch is written again as
/// `/define:` with its remaining symbols joined by `;`, or is dropped (`None`)
/// when none remain.
pub open spec fn without_define_one(a: Seq<char>, symbol: Seq<char>) -> Option<Seq<char>> {
    let body = switch_body(a);
    let k = first_index(body, ':', 0);
    if k >= body.len() {
        Some(a)
    } else if !(eq_ignore_case(body.take(k), word_define()) || eq_ignore_case(body.take(k), seq!['d'])) {
        Some(a)
    } else {
        let kept = split_symbols(body.skip(k + 1)).filter(|p: Seq<char>| keeps_symbol(p, symbol));
        if kept.len() == 0 {
            None
        } else {
            Some(seq!['/'] + word_define() + seq![':'] + join_symbols(kept))
        }
    }
}

/// `args` with `symbol` removed from every define switch, in order.
pub open spec fn without_define_spec(args: Seq<Seq<char>>, symbol: Seq<char>) -> Seq<Seq<char>>
    decreases args.len(),
{
    if args.len() == 0 {
        seq![]
    } else {
        let init = without_define_spec(args.drop_last(), symbol);
        match without_define_one(args.last(), symbol) {
            Some(a) => init.push(a),
            None => init,
        }
    }
}

/// Adds the symbol `chars[start..end]` to `joined` when it stays.
fn add_symbol(joined: &mut String, count: &mut usize, chars: &[char], start: usize, end: usize, symbol: &[char])
    requires
        start <= end <= chars.len(),
        *old(count) < end,
    ensures
        ({
            let part = chars@.subrange(start as int, end as int);
            if keeps_symbol(part, symbol@) {
                &&& *final(count) == *old(count) + 1
                &&& final(joined)@ == (if *old(count) > 0 { old(joined)@ + seq![';'] } else { old(joined)@ }) + part
            } else {
                &&& *final(count) == *old(count)
                &&& final(joined)@ == old(joined)@
            }
        }),
{
    if end > start && !eq_ignore_case_range(chars, start, end, symbol) {
        if *count > 0 {
            push_char(joined, ';');
        }
        let part = string_of_range(chars, start, end);
        joined.append(part.as_str());
        *count = *count + 1;
    }
}

proof fn lemma_join_symbols_push(parts: Seq<Seq<char>>, x: Seq<char>)
    ensures
        join_symbols(parts.push(x)) == (if parts.len() > 0 { join_symbols(parts) + seq![';'] } else {
            join_symbols(parts)
        }) + x,
{
    assert(parts.push(x).drop_last() =~= parts);
    if parts.len() == 0 {
        assert(join_symbols(parts) + x =~= x);
    }
}

fn without_define_arg(a: &str, symbol: &[char]) -> (r: Option<String>)
    ensures
        match r {
            Some(x) => without_define_one(a@, symbol@) == Some(x@),
            None => without_define_one(a@, symbol@) is None,
        },
{
    let chars = chars_of(a);
    let n = chars.len();
    let k = switch_body_start(&chars);
    let ghost body = a@.skip(k as int);
    let colon = find_char(&chars, ':', k);
    proof {
        lemma_first_index_skip(a@, ':', k as int, 0);
        lemma_first_index(a@, ':', k as int);
    }
    if colon == n {
        return Some(String::from_str(a));
    }
    let define = vec!['d', 'e', 'f', 'i', 'n', 'e'];
    let d = vec!['d'];
    assert(define@ =~= word_define());
    assert(d@ =~= seq!['d']);
    assert(chars@.subrange(k as int, colon as int) =~= body.take(colon - k));
    if !(eq_ignore_case_range(&chars, k, colon, &define) || eq_ignore_case_range(&chars, k, colon, &d)) {
        return Some(String::from_str(a));
    }
    let ghost value = body.skip(colon - k + 1);
    let ghost pred = |p: Seq<char>| keeps_symbol(p, symbol@);
    let vstart = colon + 1;
    assert(value =~= chars@.subrange(vstart as int, n as int));
    let mut joined = String::new();
    let mut count: usize = 0;
    let mut start: usize = vstart;
    let mut j: usize = vstart;
    proof {
        assert(value.take(0) =~= Seq::<char>::empty());
        assert(split_symbols(value.take(0)) =~= seq![Seq::<char>::empty()]);
        assert(split_symbols(value.take(0)).drop_last() =~= Seq::<Seq<char>>::empty());
        reveal_with_fuel(Seq::<_>::filter, 1);
        assert(chars@.subrange(vstart as int, vstart as int) =~= Seq::<char>::empty());
    }
    while j < n
        invariant
            n == chars.len(),
            chars@ == a@,
            1 <= vstart <= start <= j <= n,
            count <= j - vstart,
            value == chars@.subrange(vstart as int, n as int),
            pred == (|p: Seq<char>| keeps_symbol(p, symbol@)),
            split_symbols(value.take(j - vstart)).len() >= 1,
            split_symbols(value.take(j - vstart)).last() == chars@.subrange(start as int, j as int),
            split_symbols(value.take(j - vstart)).drop_last().filter(pred).len() == count,
            join_symbols(split_symbols(value.take(j - vstart)).drop_last().filter(pred)) == joined@,
        decreases n - j,
    {
        let ghost t = (j - vstart) as int;
        let ghost parts = split_symbols(value.take(t));
        let ghost next = split_symbols(value.take(t + 1));
        assert(value.take(t + 1).drop_last() =~= value.take(t));
        assert(value.take(t + 1).last() == chars@[j as int]);
        if chars[j] == ';' || chars[j] == ',' {
            let ghost done = parts.drop_last().filter(pred);
            add_symbol(&mut joined, &mut count, &chars, start, j, symbol);
            proof {
                reveal_with_fuel(Seq::<_>::filter, 1);
                assert(parts.drop_last().push(parts.last()) =~= parts);
                lemma_join_symbols_push(done, parts.last());
                if pred(parts.last()) {
                    assert(parts.filter(pred) =~= done.push(parts.last()));
                } else {
                    assert(parts.filter(pred) =~= done);
                }
                assert(next =~= parts.push(Seq::<char>::empty()));
                assert(next.drop_last() =~= parts);
                assert(chars@.subrange(j + 1, j + 1) =~= Seq::<char>::empty());
            }
            start = j + 1;
        } else {
            assert(next =~= parts.update(parts.len() - 1, parts.last().push(chars@[j as int])));
            assert(next.drop_last() =~= parts.drop_last());
            assert(next.last() =~= chars@.subrange(start as int, j + 1));
        }
        j = j + 1;
    }
    let ghost parts = split_symbols(value.take(j - vstart));
    let ghost done = parts.drop_last().filter(pred);
    add_symbol(&mut joined, &mut count, &chars, start, n, symbol);
    proof {
        assert(value.take(j - vstart) =~= value);
        reveal_with_fuel(Seq::<_>::filter, 1);
        assert(parts.drop_last().push(parts.last()) =~= parts);
        lemma_join_symbols_push(done, parts.last());
        if pred(parts.last()) {
            assert(parts.filter(pred) =~= done.push(parts.last()));
        } else {
            assert(parts.filter(pred) =~= done);
        }
    }
    if count == 0 {
        None
    } else {
        let mut out = String::from_str("/define:");
        proof {
            reveal_strlit("/define:");
        }
        out.append(joined.as_str());
        assert(out@ =~= seq!['/'] + word_define() + seq![':'] + joined@);
        Some(out)
    }
}

/// Removes `symbol` from every define switch of `args`: a define switch keeps
/// its other non-empty symbols, written again as `/define:A;B`, and is dropped
/// when none remain. Other arguments stay as they are.
pub fn without_define(args: Vec<String>, symbol: &str) -> (out: Vec<String>)
    ensures
        out.deep_view() == without_define_spec(args.deep_view(), symbol@),
{
    let sym = chars_of(symbol);
    let mut out: Vec<String> = Vec::new();
    let mut i: usize = 0;
    while i < args.len()
        invariant
            i <= args.len(),
            sym@ == symbol@,
            out.deep_view() == without_define_spec(args.deep_view().take(i as int), symbol@),
        decreases args.len() - i,
    {
        let ghost before = out.deep_view();
        let ghost prefix = args.deep_view().take(i + 1);
        assert(prefix.drop_last() =~= args.deep_view().take(i as int));
        assert(prefix.last() == args[i as int]@);
        match without_define_arg(args[i].as_str(), &sym) {
            Some(a) => {
                out.push(a);
                assert(out.deep_view() =~= before.push(without_define_one(args[i as int]@, symbol@)->0));
            },
            None => {},
        }
        i = i + 1;
    }
    assert(args.deep_view().take(args.len() as int) =~= args.deep_view());
    out
}


/// Whether `a` is the word `exec` in any ASCII case.
pub fn word_exec_matches(a: &str) -> (r: bool)
    ensures
        r == eq_ignore_case(a@, seq!['e', 'x', 'e', 'c']),
{
    let chars = chars_of(a);
    let exec = vec!['e', 'x', 'e', 'c'];
    assert(chars@.subrange(0, chars.len() as int) =~= chars@);
    eq_ignore_case_range(&chars, 0, chars.len(), &exec)
}


proof fn lemma_effective_concat(x: Seq<Seq<char>>, y: Seq<Seq<char>>, d: Seq<char>)
    ensures
        effective_language_spec(x + y, d) == effective_language_spec(y, effective_language_spec(x, d)),
    decreases y.len(),
{
    if y.len() == 0 {
        assert(x + y =~= x);
    } else {
        assert((x + y).drop_last() =~= x + y.drop_last());
        assert((x + y).last() == y.last());
        lemma_effective_concat(x, y.drop_last(), d);
    }
}

proof fn lemma_server_switch_is_not_language(a: Seq<char>)
    requires
        is_server_switch(a),
    ensures
        language_option_spec(a) is None,
{
    if language_option_spec(a) is Some {
        let body = a.drop_first();
        let k = first_index(body, ':', 0);
        lemma_first_index(body, ':', 0);
        assert(body.take(k).len() == 11);
        assert(ascii_lower(body.take(k)[0]) == ascii_lower(langversion_word()[0]));
        assert(body[0] == body.take(k)[0]);
        assert(!is_switch_char(body[0]));
        assert(switch_body(body) == body);
        assert(a.drop_first() == body);
        assert(switch_body(a) == body);
        let t = body;
        assert(ascii_lower(t[0]) == 'l');
        if eq_ignore_case(t, word_shared()) {
            assert(ascii_lower(t[0]) == ascii_lower(word_shared()[0]));
        }
        if eq_ignore_case(t, word_shared().push('+')) {
            assert(ascii_lower(t[0]) == ascii_lower(word_shared().push('+')[0]));
        }
        if eq_ignore_case(t, word_shared().push('-')) {
            assert(ascii_lower(t[0]) == ascii_lower(word_shared().push('-')[0]));
        }
        if t.len() >= 7 && eq_ignore_case(t.take(7), word_shared().push(':')) {
            assert(ascii_lower(t.take(7)[0]) == ascii_lower(word_shared().push(':')[0]));
        }
        if eq_ignore_case(t, word_noconfig()) {
            assert(ascii_lower(t[0]) == ascii_lower(word_noconfig()[0]));
        }
    }
}

proof fn lemma_effective_filter(a: Seq<Seq<char>>, v: Seq<char>)
    ensures
        effective_language_spec(a.filter(|x: Seq<char>| !is_server_switch(x)), v) == effective_language_spec(a, v),
    decreases a.len(),
{
    let pred = |x: Seq<char>| !is_server_switch(x);
    reveal_with_fuel(Seq::<_>::filter, 1);
    if a.len() > 0 {
        lemma_effective_filter(a.drop_last(), v);
        let f0 = a.drop_last().filter(pred);
        if pred(a.last()) {
            assert(a.filter(pred) == f0.push(a.last()));
            assert(f0.push(a.last()).drop_last() =~= f0);
        } else {
            lemma_server_switch_is_not_language(a.last());
        }
    }
}

/// The language version that the compiler uses after [`prepare_args`] is the
/// one that the arguments themselves set (their last language version switch),
/// and the configured default only when they set none: an explicit setting,
/// lower or higher, always overrides the default.
pub proof fn prepared_language_is_explicit_or_default(args: Seq<Seq<char>>, version: Seq<char>, fallback: Seq<char>)
    ensures
        effective_language_spec(prepare_args_spec(args, version), fallback) == effective_language_spec(args, version),
{
    let head = seq![langversion_switch(version)];
    let rest = args.filter(|x: Seq<char>| !is_server_switch(x));
    lemma_effective_concat(head, rest, fallback);
    let body = langversion_switch(version).drop_first();
    assert(body =~= langversion_word() + seq![':'] + version);
    lemma_first_index(body, ':', 0);
    assert(first_index(body, ':', 0) == 11) by {
        assert forall|j: int| 0 <= j < 11 implies body[j] != ':' by {
            assert(body[j] == langversion_word()[j]);
        }
        if first_index(body, ':', 0) < 11 {
            assert(body[first_index(body, ':', 0)] == ':');
        }
        assert(body[11] == ':');
    }
    assert(body.take(11) =~= langversion_word());
    assert(body.skip(12) =~= version);
    assert(language_option_spec(langversion_switch(version)) == Some(version));
    assert(head.drop_last() =~= Seq::<Seq<char>>::empty());
    assert(effective_language_spec(head, fallback) == version);
    lemma_effective_filter(args, version);
}


/// Whether `v` holds no symbol separator.
pub open spec fn no_define_sep(v: Seq<char>) -> bool {
    forall|i: int| 0 <= i < v.len() ==> !is_define_sep(#[trigger] v[i])
}

proof fn lemma_split_symbols_plain(w: Seq<char>)
    requires
        no_define_sep(w),
    ensures
        split_symbols(w) == seq![w],
    decreases w.len(),
{
    if w.len() > 0 {
        lemma_split_symbols_plain(w.drop_last());
        assert(w.drop_last().push(w.last()) =~= w);
        assert(!is_define_sep(w[w.len() - 1]));
    } else {
        assert(w =~= Seq::<char>::empty());
    }
}

proof fn lemma_split_symbols_append(v: Seq<char>, w: Seq<char>)
    requires
        no_define_sep(w),
    ensures
        split_symbols(v + seq![';'] + w) == split_symbols(v).push(w),
    decreases w.len(),
{
    lemma_split_symbols_len(v);
    let sv = split_symbols(v);
    if w.len() == 0 {
        assert(w =~= Seq::<char>::empty());
        assert((v + seq![';'] + w).drop_last() =~= v);
        assert((v + seq![';'] + w).last() == ';');
        assert(split_symbols(v + seq![';'] + w) == sv.push(Seq::<char>::empty()));
    } else {
        let u = w.drop_last();
        lemma_split_symbols_append(v, u);
        let x = v + seq![';'] + w;
        assert(x.drop_last() =~= v + seq![';'] + u);
        assert(x.last() == w.last());
        assert(!is_define_sep(w[w.len() - 1]));
        assert(u.push(w.last()) =~= w);
        let init = sv.push(u);
        assert(split_symbols(x) == init.update(init.len() - 1, init.last().push(x.last())));
        assert(init.update(init.len() - 1, init.last().push(x.last())) =~= sv.push(w));
    }
}

proof fn lemma_split_join(parts: Seq<Seq<char>>)
    requires
        parts.len() >= 1,
        forall|i: int| 0 <= i < parts.len() ==> no_define_sep(#[trigger] parts[i]),
    ensures
        split_symbols(join_symbols(parts)) == parts,
    decreases parts.len(),
{
    if parts.len() == 1 {
        lemma_split_symbols_plain(parts[0]);
        assert(seq![parts[0]] =~= parts);
    } else {
        let init = parts.drop_last();
        lemma_split_join(init);
        assert(no_define_sep(parts[parts.len() - 1]));
        lemma_split_symbols_append(join_symbols(init), parts.last());
        assert(init.push(parts.last()) =~= parts);
    }
}

proof fn lemma_split_symbols_pieces(v: Seq<char>)
    ensures
        forall|i: int| 0 <= i < split_symbols(v).len() ==> no_define_sep(#[trigger] split_symbols(v)[i]),
    decreases v.len(),
{
    lemma_split_symbols_len(v);
    if v.len() > 0 {
        lemma_split_symbols_pieces(v.drop_last());
        lemma_split_symbols_len(v.drop_last());
        let init = split_symbols(v.drop_last());
        if !is_define_sep(v.last()) {
            let last = init.last().push(v.last());
            assert(no_define_sep(init[init.len() - 1]));
            assert forall|i: int| 0 <= i < last.len() implies !is_define_sep(#[trigger] last[i]) by {
                if i < last.len() - 1 {
                    assert(last[i] == init[init.len() - 1][i]);
                }
            }
        } else {
            assert(no_define_sep(Seq::<char>::empty()));
        }
    }
}

proof fn lemma_filter_all<A>(s: Seq<A>, pred: spec_fn(A) -> bool)
    requires
        forall|i: int| 0 <= i < s.len() ==> pred(#[trigger] s[i]),
    ensures
        s.filter(pred) == s,
    decreases s.len(),
{
    reveal_with_fuel(Seq::<_>::filter, 1);
    if s.len() > 0 {
        lemma_filter_all(s.drop_last(), pred);
        assert(pred(s[s.len() - 1]));
        assert(s.drop_last().push(s.last()) =~= s);
    }
}

proof fn lemma_filter_preserves<A>(s: Seq<A>, pred: spec_fn(A) -> bool, prop: spec_fn(A) -> bool)
    requires
        forall|i: int| 0 <= i < s.len() ==> prop(#[trigger] s[i]),
    ensures
        forall|i: int| 0 <= i < s.filter(pred).len() ==> prop(#[trigger] s.filter(pred)[i]),
        forall|i: int| 0 <= i < s.filter(pred).len() ==> pred(#[trigger] s.filter(pred)[i]),
    decreases s.len(),
{
    reveal_with_fuel(Seq::<_>::filter, 1);
    if s.len() > 0 {
        let f0 = s.drop_last().filter(pred);
        assert forall|i: int| 0 <= i < s.len() - 1 implies prop(#[trigger] s.drop_last()[i]) by {
            assert(s.drop_last()[i] == s[i]);
        }
        lemma_filter_preserves(s.drop_last(), pred, prop);
        assert(prop(s[s.len() - 1]));
        if pred(s.last()) {
            assert(s.filter(pred) == f0.push(s.last()));
            assert forall|i: int| 0 <= i < s.filter(pred).len() implies prop(#[trigger] s.filter(pred)[i]) && pred(
                s.filter(pred)[i],
            ) by {
                if i < f0.len() {
                    assert(s.filter(pred)[i] == f0[i]);
                }
            }
        } else {
            assert(s.filter(pred) == f0);
        }
    }
}

proof fn lemma_define_switch_again(kept: Seq<Seq<char>>, symbol: Seq<char>)
    requires
        kept.len() > 0,
        forall|i: int| 0 <= i < kept.len() ==> no_define_sep(#[trigger] kept[i]),
        forall|i: int| 0 <= i < kept.len() ==> keeps_symbol(#[trigger] kept[i], symbol),
    ensures
        without_define_one(seq!['/'] + word_define() + seq![':'] + join_symbols(kept), symbol) == Some(
            seq!['/'] + word_define() + seq![':'] + join_symbols(kept),
        ),
{
    let a = seq!['/'] + word_define() + seq![':'] + join_symbols(kept);
    let body = a.drop_first();
    assert(switch_body(body) == body);
    assert(switch_body(a) == body);
    lemma_first_index(body, ':', 0);
    assert(first_index(body, ':', 0) == 6) by {
        assert forall|j: int| 0 <= j < 6 implies body[j] != ':' by {
            assert(body[j] == word_define()[j]);
        }
        if first_index(body, ':', 0) < 6 {
            assert(body[first_index(body, ':', 0)] == ':');
        }
        assert(body[6] == ':');
    }
    assert(body.take(6) =~= word_define());
    assert(body.skip(7) =~= join_symbols(kept));
    lemma_split_join(kept);
    lemma_filter_all(kept, |p: Seq<char>| keeps_symbol(p, symbol));
}

proof fn lemma_without_define_one_again(a: Seq<char>, symbol: Seq<char>)
    requires
        without_define_one(a, symbol) is Some,
    ensures
        without_define_one(without_define_one(a, symbol)->0, symbol) == without_define_one(a, symbol),
{
    let body = switch_body(a);
    let k = first_index(body, ':', 0);
    if k < body.len() && (eq_ignore_case(body.take(k), word_define()) || eq_ignore_case(body.take(k), seq!['d'])) {
        let pred = |p: Seq<char>| keeps_symbol(p, symbol);
        let parts = split_symbols(body.skip(k + 1));
        let kept = parts.filter(pred);
        lemma_split_symbols_pieces(body.skip(k + 1));
        lemma_filter_preserves(parts, pred, |p: Seq<char>| no_define_sep(p));
        assert forall|i: int| 0 <= i < kept.len() implies keeps_symbol(#[trigger] kept[i], symbol) by {
            assert(pred(kept[i]));
        }
        lemma_define_switch_again(kept, symbol);
    }
}

/// Removing a define symbol leaves nothing of it: removing it again changes
/// nothing.
pub proof fn without_define_removes_symbol(args: Seq<Seq<char>>, symbol: Seq<char>)
    ensures
        without_define_spec(without_define_spec(args, symbol), symbol) == without_define_spec(args, symbol),
    decreases args.len(),
{
    if args.len() > 0 {
        let init = without_define_spec(args.drop_last(), symbol);
        without_define_removes_symbol(args.drop_last(), symbol);
        match without_define_one(args.last(), symbol) {
            Some(x) => {
                lemma_without_define_one_again(args.last(), symbol);
                assert(init.push(x).drop_last() =~= init);
                assert(init.push(x).last() == x);
            },
            None => {},
        }
    }
}

/// The symbols of `a` when it is a define switch (`define` or `d` after any
/// `-` and `/`, then a colon, without ASCII case): the pieces after the colon
/// between `;` and `,`; `None` for any other argument.
pub open spec fn define_symbols(a: Seq<char>) -> Option<Seq<Seq<char>>> {
    let body = switch_body(a);
    let k = first_index(body, ':', 0);
    if k < body.len() && (eq_ignore_case(body.take(k), word_define()) || eq_ignore_case(body.take(k), seq!['d'])) {
        Some(split_symbols(body.skip(k + 1)))
    } else {
        None
    }
}

proof fn lemma_define_switch_symbols(kept: Seq<Seq<char>>)
    requires
        kept.len() > 0,
        forall|i: int| 0 <= i < kept.len() ==> no_define_sep(#[trigger] kept[i]),
    ensures
        define_symbols(seq!['/'] + word_define() + seq![':'] + join_symbols(kept)) == Some(kept),
{
    let a = seq!['/'] + word_define() + seq![':'] + join_symbols(kept);
    let body = a.drop_first();
    assert(switch_body(body) == body);
    assert(switch_body(a) == body);
    lemma_first_index(body, ':', 0);
    assert(first_index(body, ':', 0) == 6) by {
        assert forall|j: int| 0 <= j < 6 implies body[j] != ':' by {
            assert(body[j] == word_define()[j]);
        }
        if first_index(body, ':', 0) < 6 {
            assert(body[first_index(body, ':', 0)] == ':');
        }
        assert(body[6] == ':');
    }
    assert(body.take(6) =~= word_define());
    assert(body.skip(7) =~= join_symbols(kept));
    lemma_split_join(kept);
}

proof fn lemma_without_define_one_keeps(a: Seq<char>, symbol: Seq<char>)
    ensures
        define_symbols(a) is None ==> without_define_one(a, symbol) == Some(a),
        without_define_one(a, symbol) matches Some(x) ==> match define_symbols(x) {
            Some(parts) => forall|j: int| 0 <= j < parts.len() ==> keeps_symbol(#[trigger] parts[j], symbol),
            None => x == a,
        },
{
    let body = switch_body(a);
    let k = first_index(body, ':', 0);
    if k < body.len() && (eq_ignore_case(body.take(k), word_define()) || eq_ignore_case(body.take(k), seq!['d'])) {
        let pred = |p: Seq<char>| keeps_symbol(p, symbol);
        let parts = split_symbols(body.skip(k + 1));
        let kept = parts.filter(pred);
        lemma_split_symbols_pieces(body.skip(k + 1));
        lemma_filter_preserves(parts, pred, |p: Seq<char>| no_define_sep(p));
        if kept.len() > 0 {
            lemma_define_switch_symbols(kept);
            assert forall|j: int| 0 <= j < kept.len() implies keeps_symbol(#[trigger] kept[j], symbol) by {
                assert(pred(kept[j]));
            }
        }
    }
}

/// Removing a define symbol removes it and nothing else: every define switch
/// that remains holds only non-empty symbols other than `symbol` (in any ASCII
/// case), and the arguments that are not define switches stay, unchanged and
/// in their order.
pub proof fn without_define_keeps_the_rest(args: Seq<Seq<char>>, symbol: Seq<char>)
    ensures
        ({
            let out = without_define_spec(args, symbol);
            &&& forall|i: int| 0 <= i < out.len() ==> (#[trigger] define_symbols(out[i]) matches Some(parts)
                ==> forall|j: int| 0 <= j < parts.len() ==> keeps_symbol(#[trigger] parts[j], symbol))
            &&& out.filter(|x: Seq<char>| define_symbols(x) is None) == args.filter(
                |x: Seq<char>| define_symbols(x) is None,
            )
        }),
    decreases args.len(),
{
    let pred = |x: Seq<char>| define_symbols(x) is None;
    reveal_with_fuel(Seq::<_>::filter, 1);
    if args.len() == 0 {
        assert(args.filter(pred) =~= Seq::<Seq<char>>::empty());
    } else {
        without_define_keeps_the_rest(args.drop_last(), symbol);
        let init = without_define_spec(args.drop_last(), symbol);
        let a = args.last();
        lemma_without_define_one_keeps(a, symbol);
        match without_define_one(a, symbol) {
            Some(x) => {
                let out = init.push(x);
                assert(out.drop_last() =~= init);
                assert forall|i: int| 0 <= i < out.len() implies (#[trigger] define_symbols(out[i]) matches Some(parts)
                    ==> forall|j: int| 0 <= j < parts.len() ==> keeps_symbol(#[trigger] parts[j], symbol)) by {
                    if i < init.len() {
                        assert(out[i] == init[i]);
                    }
                }
                if define_symbols(x) is None {
                    assert(x == a);
                }
                if define_symbols(a) is None {
                    assert(x == a);
                }
            },
            None => {},
        }
    }
}

proof fn lemma_langversion_switch_value(version: Seq<char>)
    ensures
        language_option_spec(langversion_switch(version)) == Some(version),
{
    let body = langversion_switch(version).drop_first();
    assert(body =~= langversion_word() + seq![':'] + version);
    lemma_first_index(body, ':', 0);
    assert(first_index(body, ':', 0) == 11) by {
        assert forall|j: int| 0 <= j < 11 implies body[j] != ':' by {
            assert(body[j] == langversion_word()[j]);
        }
        if first_index(body, ':', 0) < 11 {
            assert(body[first_index(body, ':', 0)] == ':');
        }
        assert(body[11] == ':');
    }
    assert(body.take(11) =~= langversion_word());
    assert(body.skip(12) =~= version);
}

/// The compiler takes the last language version switch, not the highest and
/// not the first: with no switch the default holds; a switch `/langversion:V`
/// at the end makes `V` the language whatever came before; an argument at the
/// end that is no such switch changes nothing.
pub proof fn last_language_switch_wins(args: Seq<Seq<char>>, default: Seq<char>, v: Seq<char>, other: Seq<char>)
    ensures
        effective_language_spec(seq![], default) == default,
        effective_language_spec(args.push(langversion_switch(v)), default) == v,
        language_option_spec(other) is None ==> effective_language_spec(args.push(other), default)
            == effective_language_spec(args, default),
{
    lemma_langversion_switch_value(v);
    assert(args.push(langversion_switch(v)).last() == langversion_switch(v));
    assert(args.push(other).last() == other);
    assert(args.push(other).drop_last() =~= args);
}

/// The replacement compiler gets the default language version first, then
/// every argument Unity gave, unchanged and in order, except the switches for
/// the shared compiler server and for no default response file, none of which
/// is left.
pub proof fn prepared_arguments_keep_all_but_server_switches(args: Seq<Seq<char>>, version: Seq<char>)
    ensures
        ({
            let out = prepare_args_spec(args, version);
            &&& out[0] == langversion_switch(version)
            &&& forall|i: int| 1 <= i < out.len() ==> !is_server_switch(#[trigger] out[i])
            &&& (forall|i: int| 0 <= i < args.len() ==> !is_server_switch(#[trigger] args[i])) ==> out == seq![
                langversion_switch(version),
            ] + args
            &&& forall|i: int| 0 <= i < args.len() && !is_server_switch(#[trigger] args[i]) ==> out.contains(args[i])
        }),
{
    let pred = |a: Seq<char>| !is_server_switch(a);
    let kept = args.filter(pred);
    let out = prepare_args_spec(args, version);
    broadcast use vstd::seq_lib::group_filter_ensures;
    assert forall|i: int| 1 <= i < out.len() implies !is_server_switch(#[trigger] out[i]) by {
        assert(out[i] == kept[i - 1]);
        assert(pred(kept[i - 1]));
    }
    if forall|i: int| 0 <= i < args.len() ==> !is_server_switch(#[trigger] args[i]) {
        lemma_filter_all(args, pred);
    }
    assert forall|i: int| 0 <= i < args.len() && !is_server_switch(#[trigger] args[i]) implies out.contains(args[i]) by {
        assert(pred(args[i]));
        assert(kept.contains(args[i]));
        let j = choose|j: int| 0 <= j < kept.len() && kept[j] == args[i];
        assert(out[j + 1] == args[i]);
    }
}

} // verus!
