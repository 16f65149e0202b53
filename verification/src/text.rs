//! Small text utilities over `String`, with their models as `Seq<char>`.
use vstd::prelude::*;

verus! {

/// Calls `String::push`. Trusted: the text afterwards is the text before
/// with `c` added at its end.
#[verifier::external_body]
pub(crate) fn push_char(s: &mut String, c: char)
    ensures
        final(s)@ == old(s)@.push(c),
{
    s.push(c);
}

/// Appends every character of a string slice to `s`.
pub(crate) fn push_str(s: &mut String, t: &str)
    ensures
        final(s)@ == old(s)@ + t@,
{
    s.append(t);
}

/// Lines joined with a `\n` after each one, including the last.
pub open spec fn terminated_lines(lines: Seq<Seq<char>>) -> Seq<char>
    decreases lines.len(),
{
    if lines.len() == 0 {
        Seq::empty()
    } else {
        terminated_lines(lines.drop_last()) + lines.last() + seq!['\n']
    }
}

pub const DIGITS: [char; 10] = ['0', '1', '2', '3', '4', '5', '6', '7', '8', '9'];

/// The decimal digits of `n`, most significant first, without leading zeros.
pub open spec fn decimal(n: nat) -> Seq<char>
    decreases n,
{
    if n < 10 {
        seq![DIGITS@[n as int]]
    } else {
        decimal(n / 10).push(DIGITS@[(n % 10) as int])
    }
}

/// Appends the decimal form of `n`.
pub(crate) fn push_decimal(s: &mut String, n: u64)
    ensures
        final(s)@ == old(s)@ + decimal(n as nat),
    decreases n,
{
    if n >= 10 {
        push_decimal(s, n / 10);
    }
    push_char(s, DIGITS[(n % 10) as usize]);
    proof {
        if n < 10 {
            assert(n % 10 == n);
        }
    }
}

/// A negative number is written with a leading `-`.
pub open spec fn signed_decimal(n: int) -> Seq<char> {
    if n < 0 { seq!['-'] + decimal((-n) as nat) } else { decimal(n as nat) }
}

/// Appends the decimal form of a signed `n`.
pub(crate) fn push_signed_decimal(s: &mut String, n: i64)
    ensures
        final(s)@ == old(s)@ + signed_decimal(n as int),
{
    if n < 0 {
        push_char(s, '-');
        let m: u64 = if n == i64::MIN { 0x8000_0000_0000_0000 } else { (-n) as u64 };
        push_decimal(s, m);
    } else {
        push_decimal(s, n as u64);
    }
}

/// Unicode `White_Space`, as `char::is_whitespace` tests it.
pub open spec fn is_whitespace(c: char) -> bool {
    ||| ('\u{9}' <= c && c <= '\u{D}')
    ||| c == ' '
    ||| c == '\u{85}'
    ||| c == '\u{A0}'
    ||| c == '\u{1680}'
    ||| ('\u{2000}' <= c && c <= '\u{200A}')
    ||| c == '\u{2028}'
    ||| c == '\u{2029}'
    ||| c == '\u{202F}'
    ||| c == '\u{205F}'
    ||| c == '\u{3000}'
}

pub(crate) fn char_is_whitespace(c: char) -> (r: bool)
    ensures
        r == is_whitespace(c),
{
    ('\u{9}' <= c && c <= '\u{D}') || c == ' ' || c == '\u{85}' || c == '\u{A0}' || c == '\u{1680}'
        || ('\u{2000}' <= c && c <= '\u{200A}') || c == '\u{2028}' || c == '\u{2029}'
        || c == '\u{202F}' || c == '\u{205F}' || c == '\u{3000}'
}

/// Position of the first `c` in `s`, or `s.len()` when there is none.
pub open spec fn find_char(s: Seq<char>, c: char) -> int
    decreases s.len(),
{
    if s.len() == 0 {
        0
    } else if s[0] == c {
        0
    } else {
        1 + find_char(s.drop_first(), c)
    }
}

/// Position of the first whitespace character in `s`, or `s.len()`.
pub open spec fn find_whitespace(s: Seq<char>) -> int
    decreases s.len(),
{
    if s.len() == 0 {
        0
    } else if is_whitespace(s[0]) {
        0
    } else {
        1 + find_whitespace(s.drop_first())
    }
}

pub proof fn lemma_find_char(s: Seq<char>, c: char)
    ensures
        0 <= find_char(s, c) <= s.len(),
        find_char(s, c) < s.len() ==> s[find_char(s, c)] == c,
        forall|i: int| 0 <= i < find_char(s, c) ==> s[i] != c,
    decreases s.len(),
{
    if s.len() > 0 && s[0] != c {
        lemma_find_char(s.drop_first(), c);
        assert forall|i: int| 0 <= i < find_char(s, c) implies s[i] != c by {
            if i > 0 {
                assert(s[i] == s.drop_first()[i - 1]);
            }
        }
    }
}

pub proof fn lemma_find_whitespace(s: Seq<char>)
    ensures
        0 <= find_whitespace(s) <= s.len(),
        find_whitespace(s) < s.len() ==> is_whitespace(s[find_whitespace(s)]),
        forall|i: int| 0 <= i < find_whitespace(s) ==> !is_whitespace(#[trigger] s[i]),
    decreases s.len(),
{
    if s.len() > 0 && !is_whitespace(s[0]) {
        lemma_find_whitespace(s.drop_first());
        assert forall|i: int| 0 <= i < find_whitespace(s) implies !is_whitespace(#[trigger] s[i]) by {
            if i > 0 {
                assert(s[i] == s.drop_first()[i - 1]);
            }
        }
    }
}

/// The lines of `s`, as `str::lines` splits them: at each `\n`, with no empty
/// final line after a trailing `\n`. (A `\r` before the `\n` stays in the line
/// here; it is whitespace to every consumer of the lines.)
pub open spec fn lines(s: Seq<char>) -> Seq<Seq<char>>
    decreases s.len(),
{
    if s.len() == 0 {
        Seq::empty()
    } else {
        let k = find_char(s, '\n');
        proof { lemma_find_char(s, '\n'); }
        if k >= s.len() {
            seq![s]
        } else {
            seq![s.subrange(0, k)] + lines(s.subrange(k + 1, s.len() as int))
        }
    }
}

/// The whitespace-separated words of `s`, as `str::split_whitespace` yields
/// them.
pub open spec fn words(s: Seq<char>) -> Seq<Seq<char>>
    decreases s.len(),
{
    if s.len() == 0 {
        Seq::empty()
    } else if is_whitespace(s[0]) {
        words(s.drop_first())
    } else {
        let k = find_whitespace(s);
        proof { lemma_find_whitespace(s); }
        seq![s.subrange(0, k)] + words(s.subrange(k, s.len() as int))
    }
}

/// The pieces of `s` between occurrences of `c`, as `str::split` yields them
/// (always at least one piece).
pub open spec fn split_char(s: Seq<char>, c: char) -> Seq<Seq<char>>
    decreases s.len(),
{
    let k = find_char(s, c);
    proof { lemma_find_char(s, c); }
    if k >= s.len() {
        seq![s]
    } else {
        seq![s.subrange(0, k)] + split_char(s.subrange(k + 1, s.len() as int), c)
    }
}

pub proof fn lemma_find_char_at(s: Seq<char>, c: char, k: int)
    requires
        0 <= k <= s.len(),
        forall|i: int| 0 <= i < k ==> s[i] != c,
        k < s.len() ==> s[k] == c,
    ensures
        find_char(s, c) == k,
    decreases s.len(),
{
    if s.len() > 0 && k > 0 {
        assert forall|i: int| 0 <= i < k - 1 implies s.drop_first()[i] != c by {
            assert(s.drop_first()[i] == s[i + 1]);
        }
        lemma_find_char_at(s.drop_first(), c, k - 1);
    }
}

proof fn lemma_find_whitespace_at(s: Seq<char>, k: int)
    requires
        0 <= k <= s.len(),
        forall|i: int| 0 <= i < k ==> !is_whitespace(#[trigger] s[i]),
        k < s.len() ==> is_whitespace(s[k]),
    ensures
        find_whitespace(s) == k,
    decreases s.len(),
{
    if s.len() > 0 && k > 0 {
        assert forall|i: int| 0 <= i < k - 1 implies !is_whitespace(#[trigger] s.drop_first()[i]) by {
            assert(s.drop_first()[i] == s[i + 1]);
        }
        lemma_find_whitespace_at(s.drop_first(), k - 1);
    }
}

/// Splitting at `c` distributes over a `c` between two texts.
pub proof fn lemma_split_char_concat(a: Seq<char>, b: Seq<char>, c: char)
    ensures
        split_char(a + seq![c] + b, c) == split_char(a, c) + split_char(b, c),
    decreases a.len(),
{
    let s = a + seq![c] + b;
    let k = find_char(a, c);
    lemma_find_char(a, c);
    if k < a.len() {
        lemma_find_char_at(s, c, k);
        let a2 = a.subrange(k + 1, a.len() as int);
        lemma_split_char_concat(a2, b, c);
        assert(s.subrange(0, k) == a.subrange(0, k));
        assert(s.subrange(k + 1, s.len() as int) == a2 + seq![c] + b);
        assert(split_char(a, c) == seq![a.subrange(0, k)] + split_char(a2, c));
        assert(split_char(s, c) == seq![a.subrange(0, k)] + (split_char(a2, c) + split_char(b, c)));
    } else {
        lemma_find_char_at(s, c, a.len() as int);
        assert(s.subrange(0, a.len() as int) == a);
        assert(s.subrange(a.len() + 1int, s.len() as int) == b);
        assert(a.subrange(0, a.len() as int) == a);
    }
}

/// Position of the first `c` in `chars[start..end]`, or `end` when there is
/// none.
pub(crate) fn find_in(chars: &Vec<char>, start: usize, end: usize, c: char) -> (k: usize)
    requires
        start <= end <= chars@.len(),
    ensures
        k == start + find_char(chars@.subrange(start as int, end as int), c),
        start <= k <= end,
{
    let ghost sub = chars@.subrange(start as int, end as int);
    let mut i = start;
    while i < end && chars[i] != c
        invariant
            start <= i <= end <= chars@.len(),
            forall|j: int| start <= j < i ==> chars@[j] != c,
        decreases end - i,
    {
        i = i + 1;
    }
    proof {
        lemma_find_char_at(sub, c, i - start);
    }
    i
}

/// Position of the first whitespace character in `chars[start..end]`, or `end`.
pub(crate) fn find_whitespace_in(chars: &Vec<char>, start: usize, end: usize) -> (k: usize)
    requires
        start <= end <= chars@.len(),
    ensures
        k == start + find_whitespace(chars@.subrange(start as int, end as int)),
        start <= k <= end,
{
    let ghost sub = chars@.subrange(start as int, end as int);
    let mut i = start;
    while i < end && !char_is_whitespace(chars[i])
        invariant
            start <= i <= end <= chars@.len(),
            forall|j: int| start <= j < i ==> !is_whitespace(#[trigger] chars@[j]),
        decreases end - i,
    {
        i = i + 1;
    }
    proof {
        assert forall|j: int| 0 <= j < i - start implies !is_whitespace(#[trigger] sub[j]) by {
            assert(sub[j] == chars@[start + j]);
        }
        lemma_find_whitespace_at(sub, i - start);
    }
    i
}

/// The words of `chars[start..end]` as `(start, end)` ranges into `chars`.
pub(crate) fn words_in(chars: &Vec<char>, start: usize, end: usize) -> (r: Vec<(usize, usize)>)
    requires
        start <= end <= chars@.len(),
    ensures
        r@.len() == words(chars@.subrange(start as int, end as int)).len(),
        forall|i: int| 0 <= i < r@.len() ==> start <= (#[trigger] r@[i]).0 <= r@[i].1 <= end,
        forall|i: int| 0 <= i < r@.len() ==> chars@.subrange((#[trigger] r@[i]).0 as int, r@[i].1 as int)
            == words(chars@.subrange(start as int, end as int))[i],
{
    let ghost all = words(chars@.subrange(start as int, end as int));
    let ghost mut done: Seq<Seq<char>> = Seq::empty();
    let mut r: Vec<(usize, usize)> = Vec::new();
    let mut pos = start;
    while pos < end
        invariant
            start <= pos <= end <= chars@.len(),
            all == done + words(chars@.subrange(pos as int, end as int)),
            r@.len() == done.len(),
            forall|i: int| 0 <= i < r@.len() ==> start <= (#[trigger] r@[i]).0 <= r@[i].1 <= end,
            forall|i: int| 0 <= i < r@.len() ==> chars@.subrange((#[trigger] r@[i]).0 as int, r@[i].1 as int) == done[i],
        decreases end - pos,
    {
        let ghost rest = chars@.subrange(pos as int, end as int);
        if char_is_whitespace(chars[pos]) {
            proof {
                assert(rest.drop_first() == chars@.subrange(pos + 1, end as int));
            }
            pos = pos + 1;
        } else {
            let k = find_whitespace_in(chars, pos, end);
            proof {
                lemma_find_whitespace(rest);
                let w = rest.subrange(0, k - pos);
                assert(w == chars@.subrange(pos as int, k as int));
                assert(rest.subrange(k - pos, rest.len() as int) == chars@.subrange(k as int, end as int));
                assert(words(rest) == seq![w] + words(chars@.subrange(k as int, end as int)));
                assert(all == done.push(w) + words(chars@.subrange(k as int, end as int)));
                done = done.push(w);
            }
            r.push((pos, k));
            pos = k;
        }
    }
    proof {
        assert(chars@.subrange(pos as int, end as int) == Seq::<char>::empty());
        assert(all == done);
    }
    r
}

/// The characters of a string slice, in order.
pub(crate) fn chars_of(s: &str) -> (v: Vec<char>)
    ensures
        v@ == s@,
{
    broadcast use vstd::string::group_string_axioms;
    let mut v: Vec<char> = Vec::new();
    for c in it: s.chars()
        invariant
            it.seq() == s@,
            v@ == it.seq().take(it.index() as int),
    {
        v.push(c);
    }
    v
}

/// Whether two string slices hold the same characters.
pub(crate) fn str_equals(a: &str, b: &str) -> (r: bool)
    ensures
        r == (a@ == b@),
{
    let x = chars_of(a);
    let y = chars_of(b);
    if x.len() != y.len() {
        return false;
    }
    let mut i: usize = 0;
    while i < x.len()
        invariant
            x@ == a@,
            y@ == b@,
            x@.len() == y@.len(),
            i <= x@.len(),
            forall|j: int| 0 <= j < i ==> x@[j] == y@[j],
        decreases x@.len() - i,
    {
        if x[i] != y[i] {
            return false;
        }
        i = i + 1;
    }
    assert(x@ =~= y@);
    true
}

/// A trailing whitespace character adds no word.
pub proof fn lemma_words_trailing_whitespace(s: Seq<char>, c: char)
    requires
        is_whitespace(c),
    ensures
        words(s.push(c)) == words(s),
    decreases s.len(),
{
    let t = s.push(c);
    assert(t[0] == if s.len() == 0 { c } else { s[0] });
    if s.len() == 0 {
        assert(t.drop_first() =~= Seq::<char>::empty());
        assert(words(t) == words(t.drop_first()));
    } else if is_whitespace(s[0]) {
        assert(t.drop_first() =~= s.drop_first().push(c));
        lemma_words_trailing_whitespace(s.drop_first(), c);
        assert(words(t) == words(t.drop_first()));
    } else {
        lemma_find_whitespace(s);
        let k = find_whitespace(s);
        assert forall|i: int| 0 <= i < k implies !is_whitespace(#[trigger] t[i]) by {
            assert(t[i] == s[i]);
        }
        if k < s.len() {
            assert(t[k] == s[k]);
            lemma_find_whitespace_at(t, k);
            assert(t.subrange(0, k) =~= s.subrange(0, k));
            assert(t.subrange(k, t.len() as int) =~= s.subrange(k, s.len() as int).push(c));
            lemma_words_trailing_whitespace(s.subrange(k, s.len() as int), c);
            assert(words(t) == seq![t.subrange(0, k)] + words(t.subrange(k, t.len() as int)));
            assert(words(s) == seq![s.subrange(0, k)] + words(s.subrange(k, s.len() as int)));
        } else {
            lemma_find_whitespace_at(t, k);
            assert(t.subrange(0, k) =~= s);
            assert(t.subrange(k, t.len() as int) =~= seq![c]);
            assert(seq![c].drop_first() =~= Seq::<char>::empty());
            assert(s.subrange(k, s.len() as int) =~= Seq::<char>::empty());
            assert(s.subrange(0, k) =~= s);
            assert(words(seq![c]) == words(seq![c].drop_first()));
            assert(words(t) == seq![t.subrange(0, k)] + words(t.subrange(k, t.len() as int)));
            assert(words(s) == seq![s.subrange(0, k)] + words(s.subrange(k, s.len() as int)));
        }
    }
}

/// Lines each ended by `\n`, written first line first.
proof fn lemma_terminated_lines_front(ls: Seq<Seq<char>>)
    requires
        ls.len() >= 1,
    ensures
        terminated_lines(ls) == ls[0] + seq!['\n'] + terminated_lines(ls.drop_first()),
    decreases ls.len(),
{
    if ls.len() == 1 {
        assert(ls.drop_last() =~= Seq::<Seq<char>>::empty());
        assert(ls.drop_first() =~= Seq::<Seq<char>>::empty());
        assert(terminated_lines(ls.drop_last()) == Seq::<char>::empty());
        assert(ls.last() == ls[0]);
        assert(terminated_lines(ls) == Seq::<char>::empty() + ls[0] + seq!['\n']);
        assert(terminated_lines(ls) =~= ls[0] + seq!['\n'] + Seq::<char>::empty());
    } else {
        lemma_terminated_lines_front(ls.drop_last());
        assert(ls.drop_last().drop_first() =~= ls.drop_first().drop_last());
        assert(ls.drop_first().last() == ls.last());
        assert(ls.drop_last()[0] == ls[0]);
        let a = ls[0] + seq!['\n'];
        let b = terminated_lines(ls.drop_first().drop_last());
        assert(terminated_lines(ls) == a + b + ls.last() + seq!['\n']);
        assert(terminated_lines(ls.drop_first()) == b + ls.last() + seq!['\n']);
        assert(a + b + ls.last() + seq!['\n'] =~= a + (b + ls.last() + seq!['\n']));
    }
}

/// Splitting lines that were each ended by `\n` gives them back, when no
/// line holds a `\n` of its own.
pub proof fn lemma_lines_of_terminated(ls: Seq<Seq<char>>)
    requires
        forall|i: int| 0 <= i < ls.len() ==> !(#[trigger] ls[i]).contains('\n'),
    ensures
        lines(terminated_lines(ls)) == ls,
    decreases ls.len(),
{
    if ls.len() == 0 {
        assert(terminated_lines(ls) == Seq::<char>::empty());
    } else {
        lemma_terminated_lines_front(ls);
        let l = ls[0];
        let rest = ls.drop_first();
        assert forall|i: int| 0 <= i < rest.len() implies !(#[trigger] rest[i]).contains('\n') by {
            assert(rest[i] == ls[i + 1]);
        }
        lemma_lines_of_terminated(rest);
        let t = terminated_lines(ls);
        assert forall|i: int| 0 <= i < l.len() implies t[i] != '\n' by {
            assert(t[i] == l[i]);
            if l[i] == '\n' {
                assert(l.contains('\n'));
            }
        }
        assert(t[l.len() as int] == '\n');
        lemma_find_char_at(t, '\n', l.len() as int);
        assert(t.subrange(0, l.len() as int) =~= l);
        assert(t.subrange(l.len() + 1int, t.len() as int) =~= terminated_lines(rest));
        assert(seq![l] + rest =~= ls);
    }
}

} // verus!
