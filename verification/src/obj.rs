//! Wavefront OBJ reader for the minimal subset.
//!
//! Supported records: `v` (position), `vn` (normal), `vt` (accepted and
//! ignored), `f` (faces in all four index forms `v`, `v/vt`, `v//vn`,
//! `v/vt/vn`; 1-based and negative indices; polygons fan-triangulated).
//! Unknown records are ignored; `#` starts a comment. Coordinates are kept as
//! the validated `f32` literals they were written as.
use vstd::prelude::*;
use crate::text::{words, find_char, split_char, lines, signed_decimal, decimal, find_in, words_in, chars_of,
    push_str, push_char, push_decimal, push_signed_decimal, lemma_find_char, lemma_find_char_at,
    lemma_words_trailing_whitespace, lemma_lines_of_terminated, terminated_lines, DIGITS};

verus! {

pub open spec fn is_digit(c: char) -> bool {
    '0' <= c && c <= '9'
}

/// Number of leading decimal digits.
pub open spec fn digit_run(s: Seq<char>) -> int
    decreases s.len(),
{
    if s.len() > 0 && is_digit(s[0]) { 1 + digit_run(s.drop_first()) } else { 0 }
}

proof fn lemma_digit_run(s: Seq<char>)
    ensures
        0 <= digit_run(s) <= s.len(),
        forall|i: int| 0 <= i < digit_run(s) ==> is_digit(#[trigger] s[i]),
        digit_run(s) < s.len() ==> !is_digit(s[digit_run(s)]),
    decreases s.len(),
{
    if s.len() > 0 && is_digit(s[0]) {
        lemma_digit_run(s.drop_first());
        assert forall|i: int| 0 <= i < digit_run(s) implies is_digit(#[trigger] s[i]) by {
            if i > 0 {
                assert(s[i] == s.drop_first()[i - 1]);
            }
        }
    }
}

proof fn lemma_digit_run_at(s: Seq<char>, k: int)
    requires
        0 <= k <= s.len(),
        forall|i: int| 0 <= i < k ==> is_digit(#[trigger] s[i]),
        k < s.len() ==> !is_digit(s[k]),
    ensures
        digit_run(s) == k,
    decreases s.len(),
{
    if k > 0 {
        assert forall|i: int| 0 <= i < k - 1 implies is_digit(#[trigger] s.drop_first()[i]) by {
            assert(s.drop_first()[i] == s[i + 1]);
        }
        lemma_digit_run_at(s.drop_first(), k - 1);
    }
}

/// `s` without one leading `+` or `-`.
pub open spec fn strip_sign(s: Seq<char>) -> Seq<char> {
    if s.len() > 0 && (s[0] == '+' || s[0] == '-') { s.drop_first() } else { s }
}

/// The code point of `c` with ASCII upper case folded to lower case.
pub open spec fn lower_code(c: char) -> u32 {
    if 'A' <= c && c <= 'Z' { (c as u32 + 32) as u32 } else { c as u32 }
}

/// `s` equals the lower-case ASCII `word` ignoring ASCII case.
pub open spec fn eq_ignore_case(s: Seq<char>, word: Seq<char>) -> bool {
    s.len() == word.len() && forall|i: int| 0 <= i < s.len() ==> lower_code(#[trigger] s[i]) == word[i] as u32
}

/// An exponent part: empty, or `e`/`E`, an optional sign, and digits.
pub open spec fn exponent_ok(r: Seq<char>) -> bool {
    r.len() == 0 || ((r[0] == 'e' || r[0] == 'E') && {
        let d = strip_sign(r.drop_first());
        d.len() > 0 && digit_run(d) == d.len()
    })
}

/// A decimal number: `Digit+`, `Digit+ '.' Digit*` or `Digit* '.' Digit+`,
/// then an optional exponent.
pub open spec fn decimal_ok(b: Seq<char>) -> bool {
    let a = digit_run(b);
    let r = b.subrange(a, b.len() as int);
    if r.len() > 0 && r[0] == '.' {
        let t = r.drop_first();
        let f = digit_run(t);
        a + f > 0 && exponent_ok(t.subrange(f, t.len() as int))
    } else {
        a > 0 && exponent_ok(r)
    }
}

/// Whether `f32::from_str` accepts `t`: an optional sign, then `inf`,
/// `infinity` or `nan` in any ASCII case, or a decimal number.
pub open spec fn is_f32_literal(t: Seq<char>) -> bool {
    let b = strip_sign(t);
    eq_ignore_case(b, seq!['i', 'n', 'f'])
        || eq_ignore_case(b, seq!['i', 'n', 'f', 'i', 'n', 'i', 't', 'y'])
        || eq_ignore_case(b, seq!['n', 'a', 'n'])
        || decimal_ok(b)
}

/// The value of a run of decimal digits.
pub open spec fn digits_value(d: Seq<char>) -> int
    decreases d.len(),
{
    if d.len() == 0 { 0 } else { digits_value(d.drop_last()) * 10 + (d.last() as int - '0' as int) }
}

/// What `i64::from_str` returns for `t`: an optional sign and at least one
/// digit, in range.
pub open spec fn i64_literal(t: Seq<char>) -> Option<int> {
    let b = strip_sign(t);
    if b.len() == 0 || digit_run(b) != b.len() {
        None
    } else {
        let v = if t[0] == '-' { -digits_value(b) } else { digits_value(b) };
        if i64::MIN <= v <= i64::MAX { Some(v) } else { None }
    }
}

/// Number of leading digits of `chars[s..e]`.
fn digit_run_at(chars: &Vec<char>, s: usize, e: usize) -> (k: usize)
    requires
        s <= e <= chars@.len(),
    ensures
        k == digit_run(chars@.subrange(s as int, e as int)),
        k <= e - s,
{
    let ghost sub = chars@.subrange(s as int, e as int);
    let mut i = s;
    while i < e && '0' <= chars[i] && chars[i] <= '9'
        invariant
            s <= i <= e <= chars@.len(),
            forall|j: int| s <= j < i ==> is_digit(#[trigger] chars@[j]),
        decreases e - i,
    {
        i = i + 1;
    }
    proof {
        assert forall|j: int| 0 <= j < i - s implies is_digit(#[trigger] sub[j]) by {
            assert(sub[j] == chars@[s + j]);
        }
        lemma_digit_run_at(sub, i - s);
    }
    i - s
}

/// Whether `chars[s..e]` equals `word` ignoring ASCII case.
fn matches_word(chars: &Vec<char>, s: usize, e: usize, word: &[char]) -> (r: bool)
    requires
        s <= e <= chars@.len(),
    ensures
        r == eq_ignore_case(chars@.subrange(s as int, e as int), word@),
{
    let ghost sub = chars@.subrange(s as int, e as int);
    if e - s != word.len() {
        return false;
    }
    let mut i: usize = 0;
    while i < word.len()
        invariant
            e - s == word@.len(),
            s <= e <= chars@.len(),
            i <= word@.len(),
            sub == chars@.subrange(s as int, e as int),
            forall|j: int| 0 <= j < i ==> lower_code(#[trigger] sub[j]) == word@[j] as u32,
        decreases word@.len() - i,
    {
        let c = chars[s + i];
        let lc: u32 = if 'A' <= c && c <= 'Z' { c as u32 + 32 } else { c as u32 };
        assert(sub[i as int] == c);
        if lc != word[i] as u32 {
            return false;
        }
        i = i + 1;
    }
    true
}

fn exponent_ok_at(chars: &Vec<char>, s: usize, e: usize) -> (r: bool)
    requires
        s <= e <= chars@.len(),
    ensures
        r == exponent_ok(chars@.subrange(s as int, e as int)),
{
    let ghost sub = chars@.subrange(s as int, e as int);
    if s == e {
        return true;
    }
    if chars[s] != 'e' && chars[s] != 'E' {
        return false;
    }
    let mut d = s + 1;
    if d < e && (chars[d] == '+' || chars[d] == '-') {
        d = d + 1;
    }
    proof {
        assert(sub.drop_first() == chars@.subrange(s + 1, e as int));
        assert(strip_sign(sub.drop_first()) == chars@.subrange(d as int, e as int));
    }
    let k = digit_run_at(chars, d, e);
    d < e && k == e - d
}

/// Whether `f32::from_str` accepts `chars[s..e]`.
pub(crate) fn f32_literal_at(chars: &Vec<char>, s: usize, e: usize) -> (r: bool)
    requires
        s <= e <= chars@.len(),
    ensures
        r == is_f32_literal(chars@.subrange(s as int, e as int)),
{
    let ghost t = chars@.subrange(s as int, e as int);
    let b = if s < e && (chars[s] == '+' || chars[s] == '-') { s + 1 } else { s };
    let ghost bs = chars@.subrange(b as int, e as int);
    assert(strip_sign(t) == bs);
    if matches_word(chars, b, e, &['i', 'n', 'f']) {
        return true;
    }
    if matches_word(chars, b, e, &['i', 'n', 'f', 'i', 'n', 'i', 't', 'y']) {
        return true;
    }
    if matches_word(chars, b, e, &['n', 'a', 'n']) {
        return true;
    }
    let a = digit_run_at(chars, b, e);
    let r = b + a;
    proof {
        assert(bs.subrange(a as int, bs.len() as int) == chars@.subrange(r as int, e as int));
    }
    if r < e && chars[r] == '.' {
        let t0 = r + 1;
        let f = digit_run_at(chars, t0, e);
        proof {
            let rr = chars@.subrange(r as int, e as int);
            assert(rr.drop_first() == chars@.subrange(t0 as int, e as int));
            let tt = rr.drop_first();
            assert(tt.subrange(f as int, tt.len() as int) == chars@.subrange(t0 + f, e as int));
        }
        a + f > 0 && exponent_ok_at(chars, t0 + f, e)
    } else {
        a > 0 && exponent_ok_at(chars, r, e)
    }
}

proof fn lemma_digits_value_prefix(d: Seq<char>, k: int)
    requires
        0 <= k <= d.len(),
        forall|i: int| 0 <= i < d.len() ==> is_digit(#[trigger] d[i]),
    ensures
        digits_value(d.subrange(0, k)) <= digits_value(d),
        0 <= digits_value(d),
    decreases d.len(),
{
    if d.len() > 0 {
        assert forall|i: int| 0 <= i < d.drop_last().len() implies is_digit(#[trigger] d.drop_last()[i]) by {
            assert(d.drop_last()[i] == d[i]);
        }
        if k == d.len() {
            assert(d.subrange(0, k) == d);
            lemma_digits_value_prefix(d.drop_last(), k - 1);
        } else {
            assert(d.drop_last().subrange(0, k) == d.subrange(0, k));
            lemma_digits_value_prefix(d.drop_last(), k);
        }
        assert(is_digit(d.last()));
    }
}

/// What `i64::from_str` returns for `chars[s..e]`.
pub(crate) fn i64_literal_at(chars: &Vec<char>, s: usize, e: usize) -> (r: Option<i64>)
    requires
        s <= e <= chars@.len(),
    ensures
        match i64_literal(chars@.subrange(s as int, e as int)) {
            Some(v) => r == Some(v as i64),
            None => r is None,
        },
{
    let ghost t = chars@.subrange(s as int, e as int);
    let negative = s < e && chars[s] == '-';
    let b = if s < e && (chars[s] == '+' || chars[s] == '-') { s + 1 } else { s };
    let ghost bs = chars@.subrange(b as int, e as int);
    assert(strip_sign(t) == bs);
    if b == e {
        return None;
    }
    let mut acc: u64 = 0;
    let mut i = b;
    while i < e
        invariant
            s <= b <= i <= e <= chars@.len(),
            bs == chars@.subrange(b as int, e as int),
            strip_sign(chars@.subrange(s as int, e as int)) == bs,
            forall|j: int| b <= j < i ==> is_digit(#[trigger] chars@[j]),
            acc == digits_value(chars@.subrange(b as int, i as int)),
            acc <= 0x8000_0000_0000_0000,
        decreases e - i,
    {
        let c = chars[i];
        if !('0' <= c && c <= '9') {
            proof {
                lemma_digit_run(bs);
                assert(bs[i - b] == c);
                assert(!is_digit(bs[i - b]));
            }
            return None;
        }
        let d = (c as u32 - '0' as u32) as u64;
        proof {
            let pre = chars@.subrange(b as int, i + 1);
            assert(pre.drop_last() == chars@.subrange(b as int, i as int));
        }
        if acc > 0x0CCC_CCCC_CCCC_CCCC {
            // acc·10 + d exceeds 2^63 already; so does any longer digit run.
            proof {
                let pre = chars@.subrange(b as int, i + 1);
                assert(pre.last() == c);
                assert(digits_value(pre) == acc * 10 + d);
                assert(digits_value(pre) > 0x8000_0000_0000_0000);
                assert(bs.subrange(0, i + 1 - b) == pre);
                assert forall|j: int| 0 <= j < i + 1 - b implies is_digit(#[trigger] bs[j]) by {
                    assert(bs[j] == chars@[b + j]);
                }
                lemma_digits_not_fitting(bs, i + 1 - b);
            }
            return None;
        }
        proof {
            let pre = chars@.subrange(b as int, i + 1);
            assert(pre.last() == c);
        }
        acc = acc * 10 + d;
        i = i + 1;
        if acc > 0x8000_0000_0000_0000 {
            proof {
                assert(bs.subrange(0, i - b) == chars@.subrange(b as int, i as int));
                assert forall|j: int| 0 <= j < i - b implies is_digit(#[trigger] bs[j]) by {
                    assert(bs[j] == chars@[b + j]);
                }
                lemma_digits_not_fitting(bs, i - b);
            }
            return None;
        }
    }
    proof {
        assert(bs == chars@.subrange(b as int, i as int));
        assert forall|j: int| 0 <= j < bs.len() implies is_digit(#[trigger] bs[j]) by {
            assert(bs[j] == chars@[b + j]);
        }
        lemma_digit_run_at(bs, bs.len() as int);
    }
    if negative {
        if acc == 0x8000_0000_0000_0000 {
            Some(i64::MIN)
        } else {
            Some(-(acc as i64))
        }
    } else {
        if acc > 0x7FFF_FFFF_FFFF_FFFF {
            None
        } else {
            Some(acc as i64)
        }
    }
}

/// Once a prefix of a digit run exceeds `2^63`, the string is no `i64`
/// literal: either a later character is not a digit, or the value is too big.
proof fn lemma_digits_not_fitting(bs: Seq<char>, k: int)
    requires
        0 < k <= bs.len(),
        forall|i: int| 0 <= i < k ==> is_digit(#[trigger] bs[i]),
        digits_value(bs.subrange(0, k)) > 0x8000_0000_0000_0000,
    ensures
        digit_run(bs) != bs.len() || digits_value(bs) > 0x8000_0000_0000_0000,
{
    lemma_digit_run(bs);
    if digit_run(bs) == bs.len() {
        lemma_digits_value_prefix(bs, k);
    }
}

/// The model of a parsed OBJ document: coordinate triples (as written),
/// file normals, triangles as 0-based position indices, and for each triangle
/// corner the file normal it named, if any.
pub struct ObjData {
    pub positions: Seq<(Seq<char>, Seq<char>, Seq<char>)>,
    pub normals: Seq<(Seq<char>, Seq<char>, Seq<char>)>,
    pub triangles: Seq<[u32; 3]>,
    pub triangle_normals: Seq<[Option<u32>; 3]>,
}

pub open spec fn empty_obj() -> ObjData {
    ObjData { positions: Seq::empty(), normals: Seq::empty(), triangles: Seq::empty(), triangle_normals: Seq::empty() }
}

pub open spec fn missing_component(record: Seq<char>, axis: Seq<char>) -> Seq<char> {
    record + ": missing "@ + axis + " component"@
}

pub open spec fn invalid_component(record: Seq<char>, axis: Seq<char>) -> Seq<char> {
    record + ": invalid "@ + axis + " component"@
}

/// Component `k` (1, 2 or 3) of a `v`/`vn` record's words.
pub open spec fn component(ws: Seq<Seq<char>>, k: int, record: Seq<char>, axis: Seq<char>) -> Result<Seq<char>, Seq<char>> {
    if ws.len() <= k {
        Err(missing_component(record, axis))
    } else if !is_f32_literal(ws[k]) {
        Err(invalid_component(record, axis))
    } else {
        Ok(ws[k])
    }
}

/// The three coordinates of a `v`/`vn` record, read x, then y, then z; words
/// after the third are ignored.
pub open spec fn record_vec3(ws: Seq<Seq<char>>, record: Seq<char>)
    -> Result<(Seq<char>, Seq<char>, Seq<char>), Seq<char>>
{
    match component(ws, 1, record, "x"@) {
        Err(m) => Err(m),
        Ok(x) => match component(ws, 2, record, "y"@) {
            Err(m) => Err(m),
            Ok(y) => match component(ws, 3, record, "z"@) {
                Err(m) => Err(m),
                Ok(z) => Ok((x, y, z)),
            },
        },
    }
}

/// An OBJ index to a 0-based one: positive indices are 1-based, negative ones
/// count back from the end of the `len` items read so far; an empty index is
/// absent.
pub open spec fn resolved_index(token: Seq<char>, len: nat, what: Seq<char>) -> Result<Option<u32>, Seq<char>> {
    if token.len() == 0 {
        Ok(None)
    } else {
        match i64_literal(token) {
            None => Err("invalid "@ + what + " index '"@ + token + "'"@),
            Some(idx) => {
                let resolved = if idx > 0 { idx - 1 } else { len + idx };
                if idx == 0 || resolved < 0 || resolved >= len {
                    Err(what + " index "@ + signed_decimal(idx) + " out of range (have "@ + decimal(len) + ")"@)
                } else {
                    Ok(Some(resolved as u32))
                }
            },
        }
    }
}

/// A face corner `v`, `v/vt`, `v//vn` or `v/vt/vn`: its position index and
/// its normal index, if given. The texture index is not read.
pub open spec fn parsed_corner(token: Seq<char>, position_count: nat, normal_count: nat)
    -> Result<(u32, Option<u32>), Seq<char>>
{
    let parts = split_char(token, '/');
    match resolved_index(parts[0], position_count, "vertex"@) {
        Err(m) => Err(m),
        Ok(None) => Err("face corner '"@ + token + "' has no vertex index"@),
        Ok(Some(p)) => if parts.len() >= 3 {
            match resolved_index(parts[2], normal_count, "normal"@) {
                Err(m) => Err(m),
                Ok(n) => Ok((p, n)),
            }
        } else {
            Ok((p, None))
        },
    }
}

/// The corners of a face, read left to right; the first bad corner is the
/// error.
pub open spec fn face_corners(tokens: Seq<Seq<char>>, position_count: nat, normal_count: nat)
    -> Result<Seq<(u32, Option<u32>)>, Seq<char>>
    decreases tokens.len(),
{
    if tokens.len() == 0 {
        Ok(Seq::empty())
    } else {
        match face_corners(tokens.drop_last(), position_count, normal_count) {
            Err(m) => Err(m),
            Ok(cs) => match parsed_corner(tokens.last(), position_count, normal_count) {
                Err(m) => Err(m),
                Ok(c) => Ok(cs.push(c)),
            },
        }
    }
}

/// Fan triangulation of a polygon: `(c0, c1, c2), (c0, c2, c3), …`.
pub open spec fn fan(cs: Seq<(u32, Option<u32>)>) -> Seq<[(u32, Option<u32>); 3]> {
    Seq::new((cs.len() - 2) as nat, |k: int| [cs[0], cs[k + 1], cs[k + 2]])
}

pub open spec fn corner_positions(t: [(u32, Option<u32>); 3]) -> [u32; 3] {
    [t[0].0, t[1].0, t[2].0]
}

pub open spec fn corner_normals(t: [(u32, Option<u32>); 3]) -> [Option<u32>; 3] {
    [t[0].1, t[1].1, t[2].1]
}

/// The text before the first `#`.
pub open spec fn strip_comment(line: Seq<char>) -> Seq<char> {
    line.subrange(0, find_char(line, '#'))
}

/// Read one line into the document so far.
pub open spec fn parse_line(d: ObjData, line: Seq<char>) -> Result<ObjData, Seq<char>> {
    let ws = words(strip_comment(line));
    if ws.len() == 0 {
        Ok(d)
    } else if ws[0] == seq!['v'] {
        match record_vec3(ws, "v"@) {
            Err(m) => Err(m),
            Ok(p) => Ok(ObjData { positions: d.positions.push(p), ..d }),
        }
    } else if ws[0] == seq!['v', 'n'] {
        match record_vec3(ws, "vn"@) {
            Err(m) => Err(m),
            Ok(n) => Ok(ObjData { normals: d.normals.push(n), ..d }),
        }
    } else if ws[0] == seq!['f'] {
        match face_corners(ws.drop_first(), d.positions.len(), d.normals.len()) {
            Err(m) => Err(m),
            Ok(cs) => if cs.len() < 3 {
                Err("face needs at least 3 vertices"@)
            } else {
                let tris = fan(cs);
                Ok(ObjData {
                    triangles: d.triangles + tris.map_values(|t: [(u32, Option<u32>); 3]| corner_positions(t)),
                    triangle_normals: d.triangle_normals + tris.map_values(|t: [(u32, Option<u32>); 3]| corner_normals(t)),
                    ..d
                })
            },
        }
    } else {
        Ok(d)
    }
}

/// Read lines in order; the first failing line gives the error, with its
/// 1-based number.
pub open spec fn parse_lines(ls: Seq<Seq<char>>) -> Result<ObjData, (nat, Seq<char>)>
    decreases ls.len(),
{
    if ls.len() == 0 {
        Ok(empty_obj())
    } else {
        match parse_lines(ls.drop_last()) {
            Err(e) => Err(e),
            Ok(d) => match parse_line(d, ls.last()) {
                Err(m) => Err((ls.len(), m)),
                Ok(d2) => Ok(d2),
            },
        }
    }
}

pub open spec fn parse_obj_spec(source: Seq<char>) -> Result<ObjData, (nat, Seq<char>)> {
    parse_lines(lines(source))
}

/// Parse failure, with the 1-based source line.
#[derive(Debug, Clone, PartialEq, Eq)]
pub struct ObjError {
    pub line: usize,
    pub message: String,
}

impl ObjError {
    /// `OBJ parse error at line <line>: <message>`.
    pub fn to_text(&self) -> (s: String)
        ensures
            s@ == "OBJ parse error at line "@ + decimal(self.line as nat) + ": "@ + self.message@,
    {
        let mut s = String::new();
        push_str(&mut s, "OBJ parse error at line ");
        push_decimal(&mut s, self.line as u64);
        push_str(&mut s, ": ");
        push_str(&mut s, self.message.as_str());
        s
    }
}

fn err(line: usize, message: String) -> (e: ObjError)
    ensures
        e.line == line,
        e.message == message,
{
    ObjError { line, message }
}

/// A parsed OBJ document; see [`ObjData`].
#[derive(Debug)]
pub struct ObjModel {
    pub positions: Vec<(String, String, String)>,
    pub normals: Vec<(String, String, String)>,
    pub triangles: Vec<[u32; 3]>,
    pub triangle_normals: Vec<[Option<u32>; 3]>,
}

pub open spec fn triple_view(t: (String, String, String)) -> (Seq<char>, Seq<char>, Seq<char>) {
    (t.0@, t.1@, t.2@)
}

impl View for ObjModel {
    type V = ObjData;

    open spec fn view(&self) -> ObjData {
        ObjData {
            positions: self.positions@.map_values(|t: (String, String, String)| triple_view(t)),
            normals: self.normals@.map_values(|t: (String, String, String)| triple_view(t)),
            triangles: self.triangles@,
            triangle_normals: self.triangle_normals@,
        }
    }
}

/// The characters `chars[a..b]` as a string.
fn string_of_range(chars: &Vec<char>, a: usize, b: usize) -> (s: String)
    requires
        a <= b <= chars@.len(),
    ensures
        s@ == chars@.subrange(a as int, b as int),
{
    let mut s = String::new();
    push_range(&mut s, chars, a, b);
    s
}

fn push_range(s: &mut String, chars: &Vec<char>, a: usize, b: usize)
    requires
        a <= b <= chars@.len(),
    ensures
        final(s)@ == old(s)@ + chars@.subrange(a as int, b as int),
{
    let mut i = a;
    while i < b
        invariant
            a <= i <= b <= chars@.len(),
            s@ == old(s)@ + chars@.subrange(a as int, i as int),
        decreases b - i,
    {
        push_char(s, chars[i]);
        i = i + 1;
        assert(chars@.subrange(a as int, i as int) == chars@.subrange(a as int, i - 1).push(chars@[i - 1]));
    }
}

/// Whether `chars[a..b]` is exactly the one character `c0`.
fn range_is_char(chars: &Vec<char>, a: usize, b: usize, c0: char) -> (r: bool)
    requires
        a <= b <= chars@.len(),
    ensures
        r == (chars@.subrange(a as int, b as int) == seq![c0]),
{
    let ghost sub = chars@.subrange(a as int, b as int);
    if b - a == 1 && chars[a] == c0 {
        assert(sub =~= seq![c0]);
        true
    } else {
        assert(sub.len() != 1 || sub[0] != c0);
        false
    }
}

/// Whether `chars[a..b]` is exactly the two characters `c0 c1`.
fn range_is_pair(chars: &Vec<char>, a: usize, b: usize, c0: char, c1: char) -> (r: bool)
    requires
        a <= b <= chars@.len(),
    ensures
        r == (chars@.subrange(a as int, b as int) == seq![c0, c1]),
{
    let ghost sub = chars@.subrange(a as int, b as int);
    if b - a == 2 && chars[a] == c0 && chars[a + 1] == c1 {
        assert(sub =~= seq![c0, c1]);
        true
    } else {
        assert(sub.len() != 2 || sub[0] != c0 || sub[1] != c1);
        false
    }
}

fn resolve_index_at(chars: &Vec<char>, a: usize, b: usize, len: usize, what: &str) -> (r: Result<Option<u32>, String>)
    requires
        a <= b <= chars@.len(),
    ensures
        match resolved_index(chars@.subrange(a as int, b as int), len as nat, what@) {
            Ok(v) => r == Ok::<Option<u32>, String>(v),
            Err(m) => r matches Err(msg) && msg@ == m,
        },
{
    let ghost token = chars@.subrange(a as int, b as int);
    if a == b {
        return Ok(None);
    }
    match i64_literal_at(chars, a, b) {
        None => {
            let mut msg = String::new();
            push_str(&mut msg, "invalid ");
            push_str(&mut msg, what);
            push_str(&mut msg, " index '");
            push_range(&mut msg, chars, a, b);
            push_str(&mut msg, "'");
            Err(msg)
        },
        Some(idx) => {
            let n = len as i128;
            let resolved: i128 = if idx > 0 { idx as i128 - 1 } else { n + idx as i128 };
            if idx == 0 || resolved < 0 || resolved >= n {
                let mut msg = String::new();
                push_str(&mut msg, what);
                push_str(&mut msg, " index ");
                push_signed_decimal(&mut msg, idx);
                push_str(&mut msg, " out of range (have ");
                push_decimal(&mut msg, len as u64);
                push_str(&mut msg, ")");
                Err(msg)
            } else {
                Ok(Some(resolved as u32))
            }
        },
    }
}

proof fn lemma_split_char_unfold(s: Seq<char>, c: char)
    ensures
        ({
            let k = find_char(s, c);
            &&& 0 <= k <= s.len()
            &&& split_char(s, c)[0] == s.subrange(0, k)
            &&& k >= s.len() ==> split_char(s, c).len() == 1
            &&& k < s.len() ==> split_char(s, c) == seq![s.subrange(0, k)] + split_char(s.subrange(k + 1, s.len() as int), c)
        }),
{
    lemma_find_char(s, c);
    if find_char(s, c) >= s.len() {
        assert(s.subrange(0, s.len() as int) == s);
    }
}

proof fn lemma_split_char_nonempty(s: Seq<char>, c: char)
    ensures
        split_char(s, c).len() >= 1,
{
    lemma_split_char_unfold(s, c);
}

fn face_corner_at(chars: &Vec<char>, a: usize, b: usize, position_count: usize, normal_count: usize)
    -> (r: Result<(u32, Option<u32>), String>)
    requires
        a <= b <= chars@.len(),
    ensures
        match parsed_corner(chars@.subrange(a as int, b as int), position_count as nat, normal_count as nat) {
            Ok(v) => r == Ok::<(u32, Option<u32>), String>(v),
            Err(m) => r matches Err(msg) && msg@ == m,
        },
{
    let ghost token = chars@.subrange(a as int, b as int);
    let k0 = find_in(chars, a, b, '/');
    proof {
        lemma_split_char_unfold(token, '/');
        assert(token.subrange(0, k0 - a) == chars@.subrange(a as int, k0 as int));
    }
    let pos = match resolve_index_at(chars, a, k0, position_count, "vertex") {
        Err(m) => return Err(m),
        Ok(None) => {
            let mut msg = String::new();
            push_str(&mut msg, "face corner '");
            push_range(&mut msg, chars, a, b);
            push_str(&mut msg, "' has no vertex index");
            return Err(msg);
        },
        Ok(Some(p)) => p,
    };
    if k0 >= b {
        return Ok((pos, None));
    }
    // Second piece: the texture index, which is not read.
    let s1 = k0 + 1;
    let k1 = find_in(chars, s1, b, '/');
    let ghost rest1 = token.subrange(k0 - a + 1, token.len() as int);
    proof {
        assert(rest1 == chars@.subrange(s1 as int, b as int));
        lemma_split_char_unfold(rest1, '/');
        lemma_split_char_nonempty(rest1, '/');
    }
    if k1 >= b {
        proof {
            assert(split_char(token, '/').len() == 2);
        }
        return Ok((pos, None));
    }
    let s2 = k1 + 1;
    let k2 = find_in(chars, s2, b, '/');
    let ghost rest2 = rest1.subrange(k1 - s1 + 1, rest1.len() as int);
    proof {
        assert(rest2 == chars@.subrange(s2 as int, b as int));
        lemma_split_char_unfold(rest2, '/');
        assert(rest2.subrange(0, k2 - s2) == chars@.subrange(s2 as int, k2 as int));
        assert(split_char(token, '/')[2] == split_char(rest2, '/')[0]);
        assert(split_char(token, '/').len() >= 3);
    }
    match resolve_index_at(chars, s2, k2, normal_count, "normal") {
        Err(m) => Err(m),
        Ok(n) => Ok((pos, n)),
    }
}

/// Resolve one OBJ index token against the `len` items read so far; errors
/// carry the 1-based source `line`.
pub fn resolve_index(token: &str, len: usize, line: usize, what: &str) -> (r: Result<Option<u32>, ObjError>)
    ensures
        match resolved_index(token@, len as nat, what@) {
            Ok(v) => r == Ok::<Option<u32>, ObjError>(v),
            Err(m) => r matches Err(e) && e.line == line && e.message@ == m,
        },
{
    let chars = chars_of(token);
    assert(chars@.subrange(0, chars@.len() as int) == token@);
    match resolve_index_at(&chars, 0, chars.len(), len, what) {
        Ok(v) => Ok(v),
        Err(m) => Err(err(line, m)),
    }
}

/// Parse one face corner (`v`, `v/vt`, `v//vn` or `v/vt/vn`) into its
/// 0-based position index and optional normal index; errors carry `line`.
pub fn parse_face_corner(token: &str, position_count: usize, normal_count: usize, line: usize)
    -> (r: Result<(u32, Option<u32>), ObjError>)
    ensures
        match parsed_corner(token@, position_count as nat, normal_count as nat) {
            Ok(v) => r == Ok::<(u32, Option<u32>), ObjError>(v),
            Err(m) => r matches Err(e) && e.line == line && e.message@ == m,
        },
{
    let chars = chars_of(token);
    assert(chars@.subrange(0, chars@.len() as int) == token@);
    match face_corner_at(&chars, 0, chars.len(), position_count, normal_count) {
        Ok(v) => Ok(v),
        Err(m) => Err(err(line, m)),
    }
}

/// The words of a line as ranges into `chars`, with their spec values.
pub open spec fn ranges_are_words(chars: Seq<char>, ws: Seq<(usize, usize)>, words: Seq<Seq<char>>) -> bool {
    &&& ws.len() == words.len()
    &&& forall|i: int| 0 <= i < ws.len() ==> (#[trigger] ws[i]).0 <= ws[i].1 <= chars.len()
    &&& forall|i: int| 0 <= i < ws.len() ==> chars.subrange((#[trigger] ws[i]).0 as int, ws[i].1 as int) == words[i]
}

fn component_at(
    chars: &Vec<char>,
    ws: &Vec<(usize, usize)>,
    k: usize,
    record: &str,
    axis: &str,
    Ghost(words): Ghost<Seq<Seq<char>>>,
) -> (r: Result<String, String>)
    requires
        ranges_are_words(chars@, ws@, words),
    ensures
        match component(words, k as int, record@, axis@) {
            Ok(t) => r matches Ok(v) && v@ == t,
            Err(m) => r matches Err(msg) && msg@ == m,
        },
{
    if ws.len() <= k {
        let mut msg = String::new();
        push_str(&mut msg, record);
        push_str(&mut msg, ": missing ");
        push_str(&mut msg, axis);
        push_str(&mut msg, " component");
        return Err(msg);
    }
    let (a, b) = ws[k];
    assert(chars@.subrange(a as int, b as int) == words[k as int]);
    if !f32_literal_at(chars, a, b) {
        let mut msg = String::new();
        push_str(&mut msg, record);
        push_str(&mut msg, ": invalid ");
        push_str(&mut msg, axis);
        push_str(&mut msg, " component");
        return Err(msg);
    }
    Ok(string_of_range(chars, a, b))
}

fn record_vec3_at(
    chars: &Vec<char>,
    ws: &Vec<(usize, usize)>,
    record: &str,
    Ghost(words): Ghost<Seq<Seq<char>>>,
) -> (r: Result<(String, String, String), String>)
    requires
        ranges_are_words(chars@, ws@, words),
    ensures
        match record_vec3(words, record@) {
            Ok(t) => r matches Ok(v) && triple_view(v) == t,
            Err(m) => r matches Err(msg) && msg@ == m,
        },
{
    let x = match component_at(chars, ws, 1, record, "x", Ghost(words)) {
        Ok(v) => v,
        Err(m) => return Err(m),
    };
    let y = match component_at(chars, ws, 2, record, "y", Ghost(words)) {
        Ok(v) => v,
        Err(m) => return Err(m),
    };
    let z = match component_at(chars, ws, 3, record, "z", Ghost(words)) {
        Ok(v) => v,
        Err(m) => return Err(m),
    };
    Ok((x, y, z))
}

/// A failing prefix of the corners fails the whole face the same way.
proof fn lemma_face_corners_error_stays(t: Seq<Seq<char>>, k: int, position_count: nat, normal_count: nat)
    requires
        0 <= k <= t.len(),
        face_corners(t.subrange(0, k), position_count, normal_count) is Err,
    ensures
        face_corners(t, position_count, normal_count) == face_corners(t.subrange(0, k), position_count, normal_count),
    decreases t.len(),
{
    if k == t.len() {
        assert(t.subrange(0, k) == t);
    } else {
        assert(t.drop_last().subrange(0, k) == t.subrange(0, k));
        lemma_face_corners_error_stays(t.drop_last(), k, position_count, normal_count);
    }
}

fn face_corners_at(
    chars: &Vec<char>,
    ws: &Vec<(usize, usize)>,
    position_count: usize,
    normal_count: usize,
    Ghost(words): Ghost<Seq<Seq<char>>>,
) -> (r: Result<Vec<(u32, Option<u32>)>, String>)
    requires
        ranges_are_words(chars@, ws@, words),
        words.len() >= 1,
    ensures
        match face_corners(words.drop_first(), position_count as nat, normal_count as nat) {
            Ok(cs) => r matches Ok(v) && v@ == cs,
            Err(m) => r matches Err(msg) && msg@ == m,
        },
{
    let ghost tokens = words.drop_first();
    let mut out: Vec<(u32, Option<u32>)> = Vec::new();
    let mut i: usize = 1;
    while i < ws.len()
        invariant
            ranges_are_words(chars@, ws@, words),
            tokens == words.drop_first(),
            1 <= i <= ws@.len(),
            face_corners(tokens.subrange(0, i - 1), position_count as nat, normal_count as nat)
                == Ok::<Seq<(u32, Option<u32>)>, Seq<char>>(out@),
        decreases ws@.len() - i,
    {
        let (a, b) = ws[i];
        proof {
            assert(chars@.subrange(a as int, b as int) == tokens[i - 1]);
            assert(tokens.subrange(0, i as int).drop_last() == tokens.subrange(0, i - 1));
            assert(tokens.subrange(0, i as int).last() == tokens[i - 1]);
        }
        match face_corner_at(chars, a, b, position_count, normal_count) {
            Err(m) => {
                proof {
                    lemma_face_corners_error_stays(tokens, i as int, position_count as nat, normal_count as nat);
                }
                return Err(m);
            },
            Ok(c) => out.push(c),
        }
        i = i + 1;
    }
    assert(tokens.subrange(0, ws@.len() - 1) == tokens);
    Ok(out)
}

fn push_fan(model: &mut ObjModel, cs: &Vec<(u32, Option<u32>)>)
    requires
        cs@.len() >= 3,
    ensures
        final(model)@ == (ObjData {
            triangles: old(model)@.triangles + fan(cs@).map_values(|t: [(u32, Option<u32>); 3]| corner_positions(t)),
            triangle_normals: old(model)@.triangle_normals + fan(cs@).map_values(|t: [(u32, Option<u32>); 3]| corner_normals(t)),
            ..old(model)@
        }),
{
    let ghost tris = fan(cs@);
    let ghost t0 = old(model)@.triangles;
    let ghost n0 = old(model)@.triangle_normals;
    let mut i: usize = 1;
    while i < cs.len() - 1
        invariant
            cs@.len() >= 3,
            1 <= i <= cs@.len() - 1,
            tris == fan(cs@),
            model.positions@ == old(model).positions@,
            model.normals@ == old(model).normals@,
            model.triangles@ == t0 + tris.subrange(0, i - 1).map_values(|t: [(u32, Option<u32>); 3]| corner_positions(t)),
            model.triangle_normals@ == n0 + tris.subrange(0, i - 1).map_values(|t: [(u32, Option<u32>); 3]| corner_normals(t)),
        decreases cs@.len() - i,
    {
        let c0 = cs[0];
        let c1 = cs[i];
        let c2 = cs[i + 1];
        model.triangles.push([c0.0, c1.0, c2.0]);
        model.triangle_normals.push([c0.1, c1.1, c2.1]);
        proof {
            let t = tris[i - 1];
            assert(t == [cs@[0], cs@[i as int], cs@[i + 1]]);
            assert(tris.subrange(0, i as int) == tris.subrange(0, i - 1).push(t));
            assert(corner_positions(t) == [c0.0, c1.0, c2.0]);
            assert(corner_normals(t) == [c0.1, c1.1, c2.1]);
            assert(model.triangles@ =~= t0 + tris.subrange(0, i as int).map_values(|t: [(u32, Option<u32>); 3]| corner_positions(t)));
            assert(model.triangle_normals@ =~= n0 + tris.subrange(0, i as int).map_values(|t: [(u32, Option<u32>); 3]| corner_normals(t)));
        }
        i = i + 1;
    }
    assert(tris.subrange(0, i - 1) == tris);
}

fn parse_line_at(chars: &Vec<char>, a: usize, b: usize, model: &mut ObjModel) -> (r: Result<(), String>)
    requires
        a <= b <= chars@.len(),
    ensures
        match parse_line(old(model)@, chars@.subrange(a as int, b as int)) {
            Ok(d) => r is Ok && final(model)@ == d,
            Err(m) => r matches Err(msg) && msg@ == m,
        },
{
    let ghost line = chars@.subrange(a as int, b as int);
    let h = find_in(chars, a, b, '#');
    proof {
        lemma_find_char(line, '#');
        assert(strip_comment(line) == chars@.subrange(a as int, h as int));
    }
    let ws = words_in(chars, a, h);
    let ghost words = words(chars@.subrange(a as int, h as int));
    assert(ranges_are_words(chars@, ws@, words));
    if ws.len() == 0 {
        return Ok(());
    }
    let (w0a, w0b) = ws[0];
    assert(chars@.subrange(w0a as int, w0b as int) == words[0]);
    if range_is_char(chars, w0a, w0b, 'v') {
        assert(words[0] == seq!['v']);
        match record_vec3_at(chars, &ws, "v", Ghost(words)) {
            Err(m) => Err(m),
            Ok(p) => {
                let ghost before = model.positions@;
                model.positions.push(p);
                assert(model.positions@.map_values(|t: (String, String, String)| triple_view(t))
                    =~= before.map_values(|t: (String, String, String)| triple_view(t)).push(triple_view(p)));
                assert(model@ == ObjData { positions: old(model)@.positions.push(triple_view(p)), ..old(model)@ });
                Ok(())
            },
        }
    } else if range_is_pair(chars, w0a, w0b, 'v', 'n') {
        assert(words[0] != seq!['v']);
        assert(words[0] == seq!['v', 'n']);
        match record_vec3_at(chars, &ws, "vn", Ghost(words)) {
            Err(m) => Err(m),
            Ok(n) => {
                let ghost before = model.normals@;
                model.normals.push(n);
                assert(model.normals@.map_values(|t: (String, String, String)| triple_view(t))
                    =~= before.map_values(|t: (String, String, String)| triple_view(t)).push(triple_view(n)));
                assert(model@ == ObjData { normals: old(model)@.normals.push(triple_view(n)), ..old(model)@ });
                Ok(())
            },
        }
    } else if range_is_char(chars, w0a, w0b, 'f') {
        assert(words[0] != seq!['v']);
        assert(words[0] != seq!['v', 'n']);
        assert(words[0] == seq!['f']);
        let np = model.positions.len();
        let nn = model.normals.len();
        match face_corners_at(chars, &ws, np, nn, Ghost(words)) {
            Err(m) => Err(m),
            Ok(cs) => {
                if cs.len() < 3 {
                    let mut msg = String::new();
                    push_str(&mut msg, "face needs at least 3 vertices");
                    assert(msg@ =~= "face needs at least 3 vertices"@);
                    Err(msg)
                } else {
                    push_fan(model, &cs);
                    assert(model@.positions == old(model)@.positions);
                    Ok(())
                }
            },
        }
    } else {
        assert(words[0] != seq!['v']);
        assert(words[0] != seq!['v', 'n']);
        assert(words[0] != seq!['f']);
        Ok(())
    }
}

proof fn lemma_lines_unfold(s: Seq<char>)
    requires
        s.len() > 0,
    ensures
        ({
            let k = find_char(s, '\n');
            &&& 0 <= k <= s.len()
            &&& k >= s.len() ==> lines(s) == seq![s]
            &&& k < s.len() ==> lines(s) == seq![s.subrange(0, k)] + lines(s.subrange(k + 1, s.len() as int))
        }),
{
    lemma_find_char(s, '\n');
}

/// Parse OBJ text. The first malformed line stops the parse, and the error
/// names it.
pub fn parse_obj(source: &str) -> (r: Result<ObjModel, ObjError>)
    ensures
        match parse_obj_spec(source@) {
            Ok(d) => r matches Ok(m) && m@ == d,
            Err((line, msg)) => r matches Err(e) && e.line == line && e.message@ == msg,
        },
{
    let chars = chars_of(source);
    let n = chars.len();
    let ghost all = lines(chars@);
    let ghost mut done: Seq<Seq<char>> = Seq::empty();
    let mut model = ObjModel {
        positions: Vec::new(),
        normals: Vec::new(),
        triangles: Vec::new(),
        triangle_normals: Vec::new(),
    };
    assert(model@.positions =~= Seq::<(Seq<char>, Seq<char>, Seq<char>)>::empty());
    assert(model@.normals =~= Seq::<(Seq<char>, Seq<char>, Seq<char>)>::empty());
    assert(model@ == empty_obj());
    assert(chars@.subrange(0, n as int) == chars@);
    let mut pos: usize = 0;
    let mut line_no: usize = 0;
    while pos < n
        invariant
            n == chars@.len(),
            chars@ == source@,
            pos <= n,
            all == lines(chars@),
            all == done + lines(chars@.subrange(pos as int, n as int)),
            line_no == done.len(),
            line_no <= pos,
            parse_lines(done) == Ok::<ObjData, (nat, Seq<char>)>(model@),
        decreases n - pos,
    {
        let ghost rest = chars@.subrange(pos as int, n as int);
        let nl = find_in(&chars, pos, n, '\n');
        proof {
            lemma_lines_unfold(rest);
            assert(rest.subrange(0, nl - pos) == chars@.subrange(pos as int, nl as int));
            if nl < n {
                assert(rest.subrange(nl - pos + 1, rest.len() as int) == chars@.subrange(nl + 1, n as int));
            } else {
                assert(chars@.subrange(n as int, n as int) == Seq::<char>::empty());
            }
        }
        let ghost line = chars@.subrange(pos as int, nl as int);
        let ghost prev = model@;
        line_no = line_no + 1;
        let result = parse_line_at(&chars, pos, nl, &mut model);
        proof {
            let d2 = done.push(line);
            assert(d2.drop_last() == done);
            assert(d2.last() == line);
            done = d2;
        }
        match result {
            Err(msg) => {
                proof {
                    assert(all.subrange(0, done.len() as int) == done);
                    assert(parse_lines(done) is Err);
                    lemma_parse_lines_error_stays(all, done.len() as int);
                }
                return Err(err(line_no, msg));
            },
            Ok(()) => {},
        }
        pos = if nl < n { nl + 1 } else { n };
    }
    proof {
        assert(chars@.subrange(pos as int, n as int) == Seq::<char>::empty());
        assert(done == all);
    }
    Ok(model)
}

/// A failing prefix of the lines fails the whole document the same way.
proof fn lemma_parse_lines_error_stays(ls: Seq<Seq<char>>, k: int)
    requires
        0 <= k <= ls.len(),
        parse_lines(ls.subrange(0, k)) is Err,
    ensures
        parse_lines(ls) == parse_lines(ls.subrange(0, k)),
    decreases ls.len(),
{
    if k == ls.len() {
        assert(ls.subrange(0, k) == ls);
    } else {
        assert(ls.drop_last().subrange(0, k) == ls.subrange(0, k));
        lemma_parse_lines_error_stays(ls.drop_last(), k);
    }
}

impl ObjData {
    /// Every triangle corner names an existing position, and every file
    /// normal a corner names exists.
    pub open spec fn indices_in_range(self) -> bool {
        &&& self.triangles.len() == self.triangle_normals.len()
        &&& forall|i: int, j: int| 0 <= i < self.triangles.len() && 0 <= j < 3
            ==> (#[trigger] self.triangles[i][j]) < self.positions.len()
        &&& forall|i: int, j: int| 0 <= i < self.triangle_normals.len() && 0 <= j < 3
            ==> ((#[trigger] self.triangle_normals[i][j]) matches Some(n) ==> n < self.normals.len())
    }
}

proof fn lemma_resolved_index_in_range(token: Seq<char>, len: nat, what: Seq<char>)
    ensures
        resolved_index(token, len, what) matches Ok(Some(v)) ==> v < len,
{
    if let Some(idx) = i64_literal(token) {
        let resolved = if idx > 0 { idx - 1 } else { len + idx };
        if token.len() > 0 && !(idx == 0 || resolved < 0 || resolved >= len) {
            if resolved <= u32::MAX {
                assert(resolved as u32 == resolved);
            }
        }
    }
}

proof fn lemma_face_corners_in_range(tokens: Seq<Seq<char>>, pc: nat, nc: nat)
    ensures
        face_corners(tokens, pc, nc) matches Ok(cs) ==> forall|k: int| 0 <= k < cs.len() ==> {
            &&& (#[trigger] cs[k]).0 < pc
            &&& cs[k].1 matches Some(n) ==> n < nc
        },
    decreases tokens.len(),
{
    if tokens.len() > 0 {
        lemma_face_corners_in_range(tokens.drop_last(), pc, nc);
        let t = tokens.last();
        let parts = split_char(t, '/');
        lemma_resolved_index_in_range(parts[0], pc, "vertex"@);
        lemma_resolved_index_in_range(parts[2], nc, "normal"@);
    }
}

proof fn lemma_parse_line_in_range(d: ObjData, line: Seq<char>)
    requires
        d.indices_in_range(),
    ensures
        parse_line(d, line) matches Ok(d2) ==> d2.indices_in_range(),
{
    let ws = words(strip_comment(line));
    if ws.len() > 0 && ws[0] != seq!['v'] && ws[0] != seq!['v', 'n'] && ws[0] == seq!['f'] {
        let pc = d.positions.len();
        let nc = d.normals.len();
        lemma_face_corners_in_range(ws.drop_first(), pc, nc);
        if let Ok(cs) = face_corners(ws.drop_first(), pc, nc) {
            if cs.len() >= 3 {
                let tris = fan(cs);
                let tp = tris.map_values(|t: [(u32, Option<u32>); 3]| corner_positions(t));
                let tn = tris.map_values(|t: [(u32, Option<u32>); 3]| corner_normals(t));
                let d2 = ObjData { triangles: d.triangles + tp, triangle_normals: d.triangle_normals + tn, ..d };
                assert forall|i: int, j: int| 0 <= i < d2.triangles.len() && 0 <= j < 3
                    implies (#[trigger] d2.triangles[i][j]) < d2.positions.len() by {
                    if i >= d.triangles.len() {
                        let k = i - d.triangles.len();
                        assert(d2.triangles[i] == tp[k]);
                        assert(tris[k] == [cs[0], cs[k + 1], cs[k + 2]]);
                        assert(cs[0].0 < pc && cs[k + 1].0 < pc && cs[k + 2].0 < pc);
                    } else {
                        assert(d2.triangles[i] == d.triangles[i]);
                    }
                }
                assert forall|i: int, j: int| 0 <= i < d2.triangle_normals.len() && 0 <= j < 3
                    implies ((#[trigger] d2.triangle_normals[i][j]) matches Some(n) ==> n < d2.normals.len()) by {
                    if i >= d.triangle_normals.len() {
                        let k = i - d.triangle_normals.len();
                        assert(d2.triangle_normals[i] == tn[k]);
                        assert(tris[k] == [cs[0], cs[k + 1], cs[k + 2]]);
                        assert(cs[0].1 matches Some(n) ==> n < nc);
                        assert(cs[k + 1].1 matches Some(n) ==> n < nc);
                        assert(cs[k + 2].1 matches Some(n) ==> n < nc);
                    } else {
                        assert(d2.triangle_normals[i] == d.triangle_normals[i]);
                    }
                }
                assert(parse_line(d, line) == Ok::<ObjData, Seq<char>>(d2));
            }
        }
    }
}

proof fn lemma_parse_lines_in_range(ls: Seq<Seq<char>>)
    ensures
        parse_lines(ls) matches Ok(d) ==> d.indices_in_range(),
    decreases ls.len(),
{
    if ls.len() > 0 {
        lemma_parse_lines_in_range(ls.drop_last());
        if let Ok(d) = parse_lines(ls.drop_last()) {
            lemma_parse_line_in_range(d, ls.last());
        }
    }
}

/// Every index of a parsed document points into what was read: each
/// triangle corner at a position, each named normal at a file normal.
pub proof fn lemma_parse_obj_indices_in_range(source: Seq<char>)
    ensures
        parse_obj_spec(source) matches Ok(d) ==> d.indices_in_range(),
{
    lemma_parse_lines_in_range(lines(source));
}

/// What the face corners naming a vertex have said of its file normal so
/// far: nothing, one file normal every time, or different ones.
#[derive(Clone, Copy, Debug, PartialEq, Eq, Structural)]
pub enum NormalVote {
    Unnamed,
    Named(u32),
    Conflicting,
}

/// A vote after one more corner, which names the file normal `o` if any.
pub open spec fn vote(v: NormalVote, o: Option<u32>) -> NormalVote {
    match o {
        None => v,
        Some(n) => match v {
            NormalVote::Unnamed => NormalVote::Named(n),
            NormalVote::Named(m) => if m == n { v } else { NormalVote::Conflicting },
            NormalVote::Conflicting => v,
        },
    }
}

pub open spec fn cast_vote(s: Seq<NormalVote>, v: u32, o: Option<u32>) -> Seq<NormalVote> {
    s.update(v as int, vote(s[v as int], o))
}

/// For each of `n` vertices, the vote of the corners of the first `k`
/// triangles, corners in order.
pub open spec fn normal_votes_upto(n: nat, tris: Seq<[u32; 3]>, nrms: Seq<[Option<u32>; 3]>, k: int) -> Seq<NormalVote>
    decreases k,
{
    if k <= 0 {
        Seq::new(n, |i: int| NormalVote::Unnamed)
    } else {
        let prev = normal_votes_upto(n, tris, nrms, k - 1);
        let t = tris[k - 1];
        let m = nrms[k - 1];
        cast_vote(cast_vote(cast_vote(prev, t[0], m[0]), t[1], m[1]), t[2], m[2])
    }
}

/// A vertex keeps a file normal only when every corner naming one for it
/// names the same one.
pub open spec fn vote_source(v: NormalVote) -> Option<u32> {
    match v {
        NormalVote::Named(n) => Some(n),
        _ => None,
    }
}

/// Per vertex: the file normal, where every face corner that names a file
/// normal for it names the same one; `None` where no corner names one or
/// corners disagree, so the normal is derived from the surrounding faces.
pub open spec fn normal_sources_of(n: nat, tris: Seq<[u32; 3]>, nrms: Seq<[Option<u32>; 3]>) -> Seq<Option<u32>> {
    normal_votes_upto(n, tris, nrms, tris.len() as int).map_values(|v: NormalVote| vote_source(v))
}

fn next_vote(v: NormalVote, o: Option<u32>) -> (r: NormalVote)
    ensures
        r == vote(v, o),
{
    match o {
        None => v,
        Some(n) => match v {
            NormalVote::Unnamed => NormalVote::Named(n),
            NormalVote::Named(m) => if m == n { v } else { NormalVote::Conflicting },
            NormalVote::Conflicting => v,
        },
    }
}

/// Where each vertex's normal comes from: the file normal that every face
/// corner naming one for it agrees on, or `None` when no corner names one or
/// they disagree, and the normal is to be derived from the faces around it.
pub fn normal_sources(vertex_count: usize, triangles: &Vec<[u32; 3]>, triangle_normals: &Vec<[Option<u32>; 3]>)
    -> (r: Vec<Option<u32>>)
    requires
        triangles@.len() == triangle_normals@.len(),
        forall|i: int, j: int| 0 <= i < triangles@.len() && 0 <= j < 3 ==> (#[trigger] triangles@[i][j]) < vertex_count,
    ensures
        r@ == normal_sources_of(vertex_count as nat, triangles@, triangle_normals@),
{
    let mut votes: Vec<NormalVote> = Vec::new();
    let mut v: usize = 0;
    while v < vertex_count
        invariant
            v <= vertex_count,
            votes@ == Seq::new(v as nat, |i: int| NormalVote::Unnamed),
        decreases vertex_count - v,
    {
        votes.push(NormalVote::Unnamed);
        v = v + 1;
        assert(votes@ =~= Seq::new(v as nat, |i: int| NormalVote::Unnamed));
    }
    let mut k: usize = 0;
    while k < triangles.len()
        invariant
            k <= triangles@.len(),
            triangles@.len() == triangle_normals@.len(),
            forall|i: int, j: int| 0 <= i < triangles@.len() && 0 <= j < 3 ==> (#[trigger] triangles@[i][j]) < vertex_count,
            votes@.len() == vertex_count,
            votes@ == normal_votes_upto(vertex_count as nat, triangles@, triangle_normals@, k as int),
        decreases triangles@.len() - k,
    {
        let t = triangles[k];
        let m = triangle_normals[k];
        let ghost prev = votes@;
        let mut j: usize = 0;
        while j < 3
            invariant
                0 <= j <= 3,
                k < triangles@.len(),
                t == triangles@[k as int],
                m == triangle_normals@[k as int],
                forall|i: int, jj: int| 0 <= i < triangles@.len() && 0 <= jj < 3 ==> (#[trigger] triangles@[i][jj]) < vertex_count,
                votes@.len() == vertex_count,
                j == 0 ==> votes@ == prev,
                j == 1 ==> votes@ == cast_vote(prev, t[0], m[0]),
                j == 2 ==> votes@ == cast_vote(cast_vote(prev, t[0], m[0]), t[1], m[1]),
                j == 3 ==> votes@ == cast_vote(cast_vote(cast_vote(prev, t[0], m[0]), t[1], m[1]), t[2], m[2]),
            decreases 3 - j,
        {
            let vtx = t[j];
            assert(triangles@[k as int][j as int] < vertex_count);
            let nv = next_vote(votes[vtx as usize], m[j]);
            votes.set(vtx as usize, nv);
            j = j + 1;
        }
        k = k + 1;
    }
    let ghost all = votes@;
    let mut r: Vec<Option<u32>> = Vec::new();
    let mut i: usize = 0;
    while i < votes.len()
        invariant
            votes@ == all,
            i <= all.len(),
            r@ == all.subrange(0, i as int).map_values(|v: NormalVote| vote_source(v)),
        decreases all.len() - i,
    {
        let src = match votes[i] {
            NormalVote::Named(n) => Some(n),
            _ => None,
        };
        r.push(src);
        i = i + 1;
        assert(r@ =~= all.subrange(0, i as int).map_values(|v: NormalVote| vote_source(v)));
    }
    assert(all.subrange(0, all.len() as int) == all);
    r
}

/// A carriage return ending a line changes nothing about how it reads.
pub proof fn lemma_parse_line_ignores_carriage_return(d: ObjData, line: Seq<char>)
    ensures
        parse_line(d, line.push('\r')) == parse_line(d, line),
{
    let l2 = line.push('\r');
    lemma_find_char(line, '#');
    let k = find_char(line, '#');
    assert forall|i: int| 0 <= i < k implies l2[i] != '#' by {
        assert(l2[i] == line[i]);
    }
    if k < line.len() {
        assert(l2[k] == line[k]);
        lemma_find_char_at(l2, '#', k);
        assert(strip_comment(l2) =~= strip_comment(line));
    } else {
        assert(l2[k] == '\r');
        lemma_find_char_at(l2, '#', k + 1);
        assert(strip_comment(l2) =~= strip_comment(line).push('\r'));
        assert(strip_comment(line) =~= line.subrange(0, k));
        lemma_words_trailing_whitespace(strip_comment(line), '\r');
    }
    assert(words(strip_comment(l2)) == words(strip_comment(line)));
}

/// The lines with a carriage return added to each.
pub open spec fn with_carriage_returns(ls: Seq<Seq<char>>) -> Seq<Seq<char>> {
    ls.map_values(|l: Seq<char>| l.push('\r'))
}

proof fn lemma_parse_lines_crlf(ls: Seq<Seq<char>>)
    ensures
        parse_lines(with_carriage_returns(ls)) == parse_lines(ls),
    decreases ls.len(),
{
    let cs = with_carriage_returns(ls);
    if ls.len() > 0 {
        assert(cs.drop_last() =~= with_carriage_returns(ls.drop_last()));
        assert(cs.last() == ls.last().push('\r'));
        lemma_parse_lines_crlf(ls.drop_last());
        if let Ok(d) = parse_lines(ls.drop_last()) {
            lemma_parse_line_ignores_carriage_return(d, ls.last());
        }
    }
}

/// Line endings do not matter: a document whose lines end in `\r\n` reads
/// exactly as the same document with `\n` line ends, errors and their line
/// numbers included.
pub proof fn lemma_parse_obj_crlf(ls: Seq<Seq<char>>)
    requires
        forall|i: int| 0 <= i < ls.len() ==> !(#[trigger] ls[i]).contains('\n'),
    ensures
        parse_obj_spec(terminated_lines(with_carriage_returns(ls))) == parse_obj_spec(terminated_lines(ls)),
{
    let cs = with_carriage_returns(ls);
    assert forall|i: int| 0 <= i < cs.len() implies !(#[trigger] cs[i]).contains('\n') by {
        assert(cs[i] == ls[i].push('\r'));
        if cs[i].contains('\n') {
            let j = choose|j: int| 0 <= j < cs[i].len() && cs[i][j] == '\n';
            assert(j < ls[i].len());
            assert(ls[i][j] == '\n');
            assert(ls[i].contains('\n'));
        }
    }
    lemma_lines_of_terminated(ls);
    lemma_lines_of_terminated(cs);
    lemma_parse_lines_crlf(ls);
}

/// The decimal form of a number reads back as that number: only digits,
/// no leading zero, and their value is `n`.
pub proof fn lemma_decimal_reads_back(n: nat)
    ensures
        decimal(n).len() >= 1,
        forall|i: int| 0 <= i < decimal(n).len() ==> is_digit(#[trigger] decimal(n)[i]),
        n > 0 ==> decimal(n)[0] != '0',
        digits_value(decimal(n)) == n,
    decreases n,
{
    assert(DIGITS@ == seq!['0', '1', '2', '3', '4', '5', '6', '7', '8', '9']);
    if n < 10 {
        let d = decimal(n);
        assert(d == seq![DIGITS@[n as int]]);
        assert(d.drop_last() =~= Seq::<char>::empty());
        assert(digits_value(d) == digits_value(d.drop_last()) * 10 + (d.last() as int - '0' as int));
    } else {
        lemma_decimal_reads_back(n / 10);
        let p = decimal(n / 10);
        let d = decimal(n);
        let last = DIGITS@[(n % 10) as int];
        assert(d == p.push(last));
        assert(d.drop_last() =~= p);
        assert(last as int - '0' as int == n % 10);
        assert(digits_value(d) == digits_value(p) * 10 + (last as int - '0' as int));
        assert forall|i: int| 0 <= i < d.len() implies is_digit(#[trigger] d[i]) by {
            if i < p.len() {
                assert(d[i] == p[i]);
            }
        }
        assert(d[0] == p[0]);
    }
}

} // verus!
