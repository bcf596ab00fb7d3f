//! Character-level text handling: whitespace, lines, fields, decimal numbers.

use vstd::prelude::*;

verus! {

/// `String::push` appends one character.
pub assume_specification[ String::push ](s: &mut String, ch: char)
    ensures
        final(s)@ == old(s)@.push(ch),
;

/// Unicode `White_Space`, the property behind `char::is_whitespace`,
/// which `str::trim` and `str::split_whitespace` use.
pub open spec fn is_ws(c: char) -> bool {
    ||| ('\u{9}' <= c && c <= '\u{d}')
    ||| c == ' '
    ||| c == '\u{85}'
    ||| c == '\u{a0}'
    ||| c == '\u{1680}'
    ||| ('\u{2000}' <= c && c <= '\u{200a}')
    ||| c == '\u{2028}'
    ||| c == '\u{2029}'
    ||| c == '\u{202f}'
    ||| c == '\u{205f}'
    ||| c == '\u{3000}'
}

/// Executable `is_ws`.
pub fn is_whitespace(c: char) -> (r: bool)
    ensures
        r == is_ws(c),
{
    ('\u{9}' <= c && c <= '\u{d}') || c == ' ' || c == '\u{85}' || c == '\u{a0}' || c == '\u{1680}'
        || ('\u{2000}' <= c && c <= '\u{200a}') || c == '\u{2028}' || c == '\u{2029}'
        || c == '\u{202f}' || c == '\u{205f}' || c == '\u{3000}'
}

/// The characters of `s`, in order.
pub fn chars_of(s: &str) -> (r: Vec<char>)
    ensures
        r@ == s@,
{
    let mut out: Vec<char> = Vec::new();
    for c in it: s.chars()
        invariant
            out@ == it.seq().take(it.index()),
    {
        out.push(c);
    }
    out
}


/// The views of a sequence of character vectors.
pub open spec fn views(v: Seq<Vec<char>>) -> Seq<Seq<char>> {
    v.map_values(|x: Vec<char>| x@)
}

/// The pieces of `s` between `'\n'` characters, in order; `n` newlines give
/// `n + 1` pieces.
pub open spec fn split_lines(s: Seq<char>) -> Seq<Seq<char>>
    decreases s.len(),
{
    if s.len() == 0 {
        seq![Seq::<char>::empty()]
    } else {
        let pre = split_lines(s.drop_last());
        if s.last() == '\n' {
            pre.push(Seq::<char>::empty())
        } else {
            pre.update(pre.len() - 1, pre.last().push(s.last()))
        }
    }
}

/// What `str::lines` yields: the pieces between `'\n'` characters, without
/// a final empty piece, and with the `'\r'` of a `"\r\n"` line ending
/// removed.
pub open spec fn std_lines(s: Seq<char>) -> Seq<Seq<char>> {
    let pieces = split_lines(s);
    let kept = if pieces.last().len() == 0 {
        pieces.drop_last()
    } else {
        pieces
    };
    Seq::new(
        kept.len(),
        |i: int|
            if i + 1 < pieces.len() && kept[i].len() > 0 && kept[i].last() == '\r' {
                kept[i].drop_last()
            } else {
                kept[i]
            },
    )
}

pub proof fn lemma_split_lines_nonempty(s: Seq<char>)
    ensures
        split_lines(s).len() >= 1,
    decreases s.len(),
{
    if s.len() > 0 {
        lemma_split_lines_nonempty(s.drop_last());
    }
}

/// The maximal runs of non-whitespace characters of `s`, in order: what
/// `str::split_whitespace` yields.
pub open spec fn fields(s: Seq<char>) -> Seq<Seq<char>>
    decreases s.len(),
{
    if s.len() == 0 {
        Seq::<Seq<char>>::empty()
    } else {
        let pre = fields(s.drop_last());
        let c = s.last();
        if is_ws(c) {
            pre
        } else if s.len() >= 2 && !is_ws(s[s.len() - 2]) {
            pre.update(pre.len() - 1, pre.last().push(c))
        } else {
            pre.push(seq![c])
        }
    }
}

/// Every field holds at least one character, none of them whitespace.
pub proof fn lemma_fields_wellformed(s: Seq<char>)
    ensures
        forall|i: int| 0 <= i < fields(s).len() ==> #[trigger] fields(s)[i].len() > 0,
        forall|i: int, j: int|
            0 <= i < fields(s).len() && 0 <= j < fields(s)[i].len() ==> !is_ws(
                #[trigger] fields(s)[i][j],
            ),
    decreases s.len(),
{
    if s.len() > 0 {
        lemma_fields_wellformed(s.drop_last());
        let pre = fields(s.drop_last());
        let c = s.last();
        if !is_ws(c) && s.len() >= 2 && !is_ws(s[s.len() - 2]) {
            assert(pre.len() > 0) by {
                lemma_fields_last(s.drop_last());
            }
        }
    }
}

/// A string that ends in a non-whitespace character has at least one field.
pub proof fn lemma_fields_last(s: Seq<char>)
    requires
        s.len() > 0,
        !is_ws(s.last()),
    ensures
        fields(s).len() > 0,
    decreases s.len(),
{
    if s.len() >= 2 && !is_ws(s[s.len() - 2]) {
        lemma_fields_last(s.drop_last());
    }
}

/// `str::trim_start`: `s` without its leading whitespace.
pub open spec fn trim_start(s: Seq<char>) -> Seq<char>
    decreases s.len(),
{
    if s.len() > 0 && is_ws(s[0]) {
        trim_start(s.drop_first())
    } else {
        s
    }
}

/// A string has no fields exactly when it is all whitespace.
proof fn lemma_fields_empty(s: Seq<char>)
    ensures
        fields(s).len() == 0 <==> forall|i: int| 0 <= i < s.len() ==> is_ws(#[trigger] s[i]),
    decreases s.len(),
{
    if s.len() > 0 {
        let pre = s.drop_last();
        lemma_fields_empty(pre);
        if !is_ws(s.last()) {
            lemma_fields_last(s);
        } else {
            assert forall|i: int| 0 <= i < s.len() && (forall|j: int| 0 <= j < pre.len() ==> is_ws(#[trigger] pre[j])) implies is_ws(#[trigger] s[i]) by {
                if i < pre.len() {
                    assert(is_ws(pre[i]));
                }
            }
            assert((forall|i: int| 0 <= i < s.len() ==> is_ws(#[trigger] s[i])) ==> (forall|j: int| 0 <= j < pre.len() ==> is_ws(#[trigger] pre[j]))) by {
                if forall|i: int| 0 <= i < s.len() ==> is_ws(#[trigger] s[i]) {
                    assert forall|j: int| 0 <= j < pre.len() implies is_ws(#[trigger] pre[j]) by {
                        assert(is_ws(s[j]));
                    }
                }
            }
        }
    }
}

/// The first field starts with the first non-whitespace character.
proof fn lemma_fields_first(s: Seq<char>, f: int)
    requires
        0 <= f < s.len(),
        !is_ws(s[f]),
        forall|i: int| 0 <= i < f ==> is_ws(#[trigger] s[i]),
    ensures
        fields(s).len() > 0,
        fields(s)[0].len() > 0,
        fields(s)[0][0] == s[f],
    decreases s.len(),
{
    let pre = s.drop_last();
    let c = s.last();
    lemma_fields_wellformed(s);
    if f == s.len() - 1 {
        lemma_fields_empty(pre);
        assert forall|i: int| 0 <= i < pre.len() implies is_ws(#[trigger] pre[i]) by {
            assert(is_ws(s[i]));
        }
        assert(fields(pre).len() == 0);
        if s.len() >= 2 {
            assert(is_ws(s[s.len() - 2]));
        }
    } else {
        assert forall|i: int| 0 <= i < f implies is_ws(#[trigger] pre[i]) by {
            assert(is_ws(s[i]));
        }
        lemma_fields_first(pre, f);
        lemma_fields_wellformed(pre);
    }
}

/// What trimming the start leaves: nothing when all is whitespace, else
/// something that starts at the first non-whitespace character.
proof fn lemma_trim_start(s: Seq<char>)
    ensures
        (forall|i: int| 0 <= i < s.len() ==> is_ws(#[trigger] s[i])) ==> trim_start(s).len() == 0,
        forall|f: int|
            0 <= f < s.len() && !is_ws(s[f]) && (forall|i: int| 0 <= i < f ==> is_ws(#[trigger] s[i]))
                ==> trim_start(s).len() > 0 && trim_start(s)[0] == #[trigger] s[f],
    decreases s.len(),
{
    if s.len() > 0 {
        let rest = s.drop_first();
        lemma_trim_start(rest);
        if is_ws(s[0]) {
            assert((forall|i: int| 0 <= i < s.len() ==> is_ws(#[trigger] s[i])) ==> (forall|i: int| 0 <= i < rest.len() ==> is_ws(#[trigger] rest[i]))) by {
                if forall|i: int| 0 <= i < s.len() ==> is_ws(#[trigger] s[i]) {
                    assert forall|i: int| 0 <= i < rest.len() implies is_ws(#[trigger] rest[i]) by {
                        assert(is_ws(s[i + 1]));
                    }
                }
            }
            assert forall|f: int|
                0 <= f < s.len() && !is_ws(s[f]) && (forall|i: int| 0 <= i < f ==> is_ws(#[trigger] s[i]))
                    implies trim_start(s).len() > 0 && trim_start(s)[0] == #[trigger] s[f] by {
                assert(f > 0);
                assert(rest[f - 1] == s[f]);
                assert forall|i: int| 0 <= i < f - 1 implies is_ws(#[trigger] rest[i]) by {
                    assert(is_ws(s[i + 1]));
                }
            }
        } else {
            assert forall|f: int|
                0 <= f < s.len() && !is_ws(s[f]) && (forall|i: int| 0 <= i < f ==> is_ws(#[trigger] s[i]))
                    implies trim_start(s).len() > 0 && trim_start(s)[0] == #[trigger] s[f] by {
                if f > 0 {
                    assert(is_ws(s[0]));
                }
            }
        }
    }
}

/// Whether a line trims to nothing, and the first character it trims to,
/// can be read off its fields.
pub proof fn lemma_trim_by_fields(s: Seq<char>)
    ensures
        (trim_start(s).len() == 0) == (fields(s).len() == 0),
        fields(s).len() > 0 ==> fields(s)[0].len() > 0 && trim_start(s)[0] == fields(s)[0][0],
{
    lemma_fields_empty(s);
    lemma_trim_start(s);
    if fields(s).len() > 0 {
        let f = choose|f: int| 0 <= f < s.len() && !is_ws(s[f]);
        let g = lemma_first_non_ws(s, f);
        lemma_fields_first(s, g);
    }
}

proof fn lemma_first_non_ws(s: Seq<char>, f: int) -> (g: int)
    requires
        0 <= f < s.len(),
        !is_ws(s[f]),
    ensures
        0 <= g <= f,
        !is_ws(s[g]),
        forall|i: int| 0 <= i < g ==> is_ws(#[trigger] s[i]),
    decreases f,
{
    if exists|h: int| 0 <= h < f && !is_ws(s[h]) {
        let h = choose|h: int| 0 <= h < f && !is_ws(s[h]);
        lemma_first_non_ws(s, h)
    } else {
        f
    }
}

/// Splits `chars` at every `'\n'`.
pub fn lines_of(chars: &Vec<char>) -> (r: Vec<Vec<char>>)
    ensures
        views(r@) == split_lines(chars@),
{
    let mut done: Vec<Vec<char>> = Vec::new();
    let mut cur: Vec<char> = Vec::new();
    let n = chars.len();
    let mut i: usize = 0;
    while i < n
        invariant
            n == chars@.len(),
            i <= n,
            views(done@).push(cur@) == split_lines(chars@.take(i as int)),
        decreases n - i,
    {
        let c = chars[i];
        let ghost before = views(done@).push(cur@);
        proof {
            assert(chars@.take(i + 1).drop_last() == chars@.take(i as int));
        }
        if c == '\n' {
            done.push(cur);
            cur = Vec::new();
            assert(views(done@).push(cur@) == before.push(Seq::<char>::empty()));
        } else {
            cur.push(c);
            assert(views(done@).push(cur@) == before.update(before.len() - 1, before.last().push(c)));
        }
        i = i + 1;
    }
    proof {
        assert(chars@.take(n as int) == chars@);
    }
    let ghost before = views(done@).push(cur@);
    done.push(cur);
    assert(views(done@) == before);
    done
}


/// Splits `line` into its whitespace-separated fields.
pub fn fields_of(line: &Vec<char>) -> (r: Vec<Vec<char>>)
    ensures
        views(r@) == fields(line@),
{
    let mut done: Vec<Vec<char>> = Vec::new();
    let mut cur: Vec<char> = Vec::new();
    let n = line.len();
    let mut i: usize = 0;
    while i < n
        invariant
            n == line@.len(),
            i <= n,
            fields(line@.take(i as int)) == (if cur@.len() > 0 {
                views(done@).push(cur@)
            } else {
                views(done@)
            }),
            cur@.len() > 0 <==> (i > 0 && !is_ws(line@[i - 1])),
        decreases n - i,
    {
        let c = line[i];
        let ghost pre = fields(line@.take(i as int));
        proof {
            assert(line@.take(i + 1).drop_last() == line@.take(i as int));
        }
        if is_whitespace(c) {
            if cur.len() > 0 {
                let ghost d = views(done@);
                done.push(cur);
                cur = Vec::new();
                assert(views(done@) == d.push(pre.last()));
            }
        } else {
            let ghost d = views(done@);
            cur.push(c);
            if cur.len() > 1 {
                assert(views(done@).push(cur@) == pre.update(pre.len() - 1, pre.last().push(c)));
            } else {
                assert(cur@ == seq![c]);
                assert(views(done@).push(cur@) == pre.push(seq![c]));
            }
        }
        i = i + 1;
    }
    proof {
        assert(line@.take(n as int) == line@);
    }
    if cur.len() > 0 {
        let ghost d = views(done@);
        let ghost last = cur@;
        done.push(cur);
        assert(views(done@) == d.push(last));
    }
    done
}


pub open spec fn is_digit(c: char) -> bool {
    '0' <= c && c <= '9'
}

pub open spec fn digit_value(c: char) -> nat {
    (c as int - '0' as int) as nat
}

pub open spec fn all_digits(d: Seq<char>) -> bool {
    forall|i: int| 0 <= i < d.len() ==> is_digit(#[trigger] d[i])
}

/// The number that the decimal digits `d` spell, most significant first.
pub open spec fn decimal_value(d: Seq<char>) -> nat
    decreases d.len(),
{
    if d.len() == 0 {
        0
    } else {
        decimal_value(d.drop_last()) * 10 + digit_value(d.last())
    }
}

/// What `str::parse::<u32>` gives: an optional `'+'`, then one or more ASCII
/// digits (leading zeros allowed) whose value fits in a `u32`; anything else
/// is refused.
pub open spec fn parse_u32_spec(s: Seq<char>) -> Option<u32> {
    let d = if s.len() > 0 && s[0] == '+' {
        s.drop_first()
    } else {
        s
    };
    if d.len() > 0 && all_digits(d) && decimal_value(d) <= u32::MAX {
        Some(decimal_value(d) as u32)
    } else {
        None
    }
}

proof fn lemma_decimal_prefix(d: Seq<char>, k: int)
    requires
        0 <= k <= d.len(),
    ensures
        decimal_value(d.take(k)) <= decimal_value(d),
    decreases d.len(),
{
    if k < d.len() {
        assert(d.drop_last().take(k) == d.take(k));
        lemma_decimal_prefix(d.drop_last(), k);
    } else {
        assert(d.take(k) == d);
    }
}

/// Parses `s` as a `u32` the way `str::parse` does.
pub fn parse_u32(s: &Vec<char>) -> (r: Option<u32>)
    ensures
        r == parse_u32_spec(s@),
{
    let n = s.len();
    let start: usize = if n > 0 && s[0] == '+' {
        1
    } else {
        0
    };
    let ghost d = if s@.len() > 0 && s@[0] == '+' {
        s@.drop_first()
    } else {
        s@
    };
    assert(d == s@.subrange(start as int, n as int));
    if start == n {
        return None;
    }
    let mut v: u64 = 0;
    let mut i: usize = start;
    while i < n
        invariant
            n == s@.len(),
            start <= i <= n,
            d == s@.subrange(start as int, n as int),
            d == (if s@.len() > 0 && s@[0] == '+' {
                s@.drop_first()
            } else {
                s@
            }),
            all_digits(s@.subrange(start as int, i as int)),
            v == decimal_value(s@.subrange(start as int, i as int)),
            v <= u32::MAX,
        decreases n - i,
    {
        let c = s[i];
        if !('0' <= c && c <= '9') {
            assert(d[i - start] == c);
            return None;
        }
        let dv = (c as u32 - '0' as u32) as u64;
        proof {
            let pre = s@.subrange(start as int, i as int);
            let next = s@.subrange(start as int, i + 1);
            assert(next.drop_last() == pre);
            assert(next.last() == c);
            assert(all_digits(next));
        }
        v = v * 10 + dv;
        i = i + 1;
        if v > 0xffff_ffff {
            proof {
                let k = i - start;
                assert(d.take(k) == s@.subrange(start as int, i as int));
                if all_digits(d) {
                    lemma_decimal_prefix(d, k);
                }
            }
            return None;
        }
    }
    assert(s@.subrange(start as int, n as int) == d);
    Some(v as u32)
}


/// `char::to_ascii_lowercase`.
pub open spec fn ascii_lower(c: char) -> char {
    if 'A' <= c && c <= 'Z' {
        (c as int + 32) as char
    } else {
        c
    }
}

/// `str::eq_ignore_ascii_case`.
pub open spec fn eq_ignore_case(a: Seq<char>, b: Seq<char>) -> bool {
    &&& a.len() == b.len()
    &&& forall|i: int| 0 <= i < a.len() ==> ascii_lower(#[trigger] a[i]) == ascii_lower(b[i])
}

pub fn to_ascii_lower(c: char) -> (r: char)
    ensures
        r == ascii_lower(c),
{
    if 'A' <= c && c <= 'Z' {
        ((c as u8) + 32) as char
    } else {
        c
    }
}

/// Whether `a` and `b` are equal up to ASCII case.
pub fn equal_ignoring_case(a: &Vec<char>, b: &Vec<char>) -> (r: bool)
    ensures
        r == eq_ignore_case(a@, b@),
{
    if a.len() != b.len() {
        return false;
    }
    let n = a.len();
    let mut i: usize = 0;
    while i < n
        invariant
            n == a@.len(),
            n == b@.len(),
            i <= n,
            forall|j: int| 0 <= j < i ==> ascii_lower(#[trigger] a@[j]) == ascii_lower(b@[j]),
        decreases n - i,
    {
        if to_ascii_lower(a[i]) != to_ascii_lower(b[i]) {
            return false;
        }
        i = i + 1;
    }
    true
}


/// Appends the characters of `cs` to `out`.
pub fn push_chars(out: &mut String, cs: &Vec<char>)
    ensures
        final(out)@ == old(out)@ + cs@,
{
    let n = cs.len();
    let mut i: usize = 0;
    while i < n
        invariant
            n == cs@.len(),
            i <= n,
            out@ == old(out)@ + cs@.take(i as int),
        decreases n - i,
    {
        out.push(cs[i]);
        assert(cs@.take(i + 1) == cs@.take(i as int).push(cs@[i as int]));
        i = i + 1;
    }
    assert(cs@.take(n as int) == cs@);
}

/// A `String` holding the characters of `cs`.
pub fn string_of(cs: &Vec<char>) -> (r: String)
    ensures
        r@ == cs@,
{
    let mut out = String::new();
    push_chars(&mut out, cs);
    out
}

/// The words of `ws` joined by single spaces: `[T]::join(" ")`.
pub open spec fn join_words(ws: Seq<Seq<char>>) -> Seq<char>
    decreases ws.len(),
{
    if ws.len() == 0 {
        Seq::<char>::empty()
    } else if ws.len() == 1 {
        ws[0]
    } else {
        join_words(ws.drop_last()) + seq![' '] + ws.last()
    }
}

/// Joins the fields `fs[from..]` with single spaces.
pub fn join_from(fs: &Vec<Vec<char>>, from: usize) -> (r: Vec<char>)
    requires
        from <= fs@.len(),
    ensures
        r@ == join_words(views(fs@).skip(from as int)),
{
    let ghost vs = views(fs@);
    let n = fs.len();
    let mut out: Vec<char> = Vec::new();
    let mut j: usize = from;
    while j < n
        invariant
            n == fs@.len(),
            vs == views(fs@),
            from <= j <= n,
            out@ == join_words(vs.subrange(from as int, j as int)),
        decreases n - j,
    {
        let ghost before = out@;
        let ghost next = vs.subrange(from as int, j + 1);
        assert(next.drop_last() == vs.subrange(from as int, j as int));
        assert(next.last() == fs@[j as int]@);
        if j > from {
            out.push(' ');
        }
        let w = &fs[j];
        let m = w.len();
        let mut k: usize = 0;
        while k < m
            invariant
                m == w@.len(),
                k <= m,
                out@ == (if j > from {
                    before + seq![' ']
                } else {
                    before
                }) + w@.take(k as int),
            decreases m - k,
        {
            out.push(w[k]);
            assert(w@.take(k + 1) == w@.take(k as int).push(w@[k as int]));
            k = k + 1;
        }
        assert(w@.take(m as int) == w@);
        if j == from {
            assert(before == Seq::<char>::empty());
            assert(out@ == w@);
        }
        j = j + 1;
    }
    assert(vs.subrange(from as int, n as int) == vs.skip(from as int));
    out
}

pub open spec fn digit_char(d: nat) -> char {
    ('0' as int + d) as char
}

/// The decimal digits of `n`, most significant first, without leading
/// zeros: what `u32::to_string` gives.
pub open spec fn decimal(n: nat) -> Seq<char>
    decreases n,
{
    if n < 10 {
        seq![digit_char(n)]
    } else {
        decimal(n / 10).push(digit_char(n % 10))
    }
}

/// Every character of `decimal(n)` is an ASCII digit.
pub proof fn lemma_decimal_digits(n: nat)
    ensures
        decimal(n).len() > 0,
        forall|i: int| 0 <= i < decimal(n).len() ==> is_digit(#[trigger] decimal(n)[i]),
    decreases n,
{
    if n >= 10 {
        lemma_decimal_digits(n / 10);
    }
}

/// Different numbers have different decimal digits.
pub proof fn lemma_decimal_injective(a: nat, b: nat)
    requires
        decimal(a) == decimal(b),
    ensures
        a == b,
    decreases a,
{
    lemma_decimal_digits(a);
    lemma_decimal_digits(b);
    if a >= 10 && b >= 10 {
        lemma_decimal_digits(a / 10);
        lemma_decimal_digits(b / 10);
        assert(decimal(a).drop_last() == decimal(a / 10));
        assert(decimal(b).drop_last() == decimal(b / 10));
        lemma_decimal_injective(a / 10, b / 10);
        assert(decimal(a).last() == digit_char(a % 10));
        assert(decimal(b).last() == digit_char(b % 10));
        lemma_digit_char_injective(a % 10, b % 10);
        assert(a == (a / 10) * 10 + a % 10);
        assert(b == (b / 10) * 10 + b % 10);
    } else if a >= 10 {
        lemma_decimal_digits(a / 10);
        assert(decimal(a).len() >= 2);
    } else if b >= 10 {
        lemma_decimal_digits(b / 10);
        assert(decimal(b).len() >= 2);
    } else {
        assert(decimal(a) == seq![digit_char(a)]);
        assert(decimal(b) == seq![digit_char(b)]);
        assert(decimal(a)[0] == digit_char(a));
        assert(decimal(b)[0] == digit_char(b));
        lemma_digit_char_injective(a, b);
    }
}

proof fn lemma_digit_char_injective(x: nat, y: nat)
    requires
        x < 10,
        y < 10,
        digit_char(x) == digit_char(y),
    ensures
        x == y,
{
    assert(digit_char(x) as int == '0' as int + x);
    assert(digit_char(y) as int == '0' as int + y);
}

/// Appends the decimal digits of `n` to `out`.
pub fn push_decimal(out: &mut String, n: u32)
    ensures
        final(out)@ == old(out)@ + decimal(n as nat),
    decreases n,
{
    if n >= 10 {
        push_decimal(out, n / 10);
    }
    let d = (n % 10) as u8;
    out.push((48u8 + d) as char);
}


/// The contents of several files read one after another, each followed by a
/// newline unless what was read so far already ends with one.
pub open spec fn concatenated(texts: Seq<Seq<char>>) -> Seq<char>
    decreases texts.len(),
{
    if texts.len() == 0 {
        Seq::<char>::empty()
    } else {
        let b = concatenated(texts.drop_last()) + texts.last();
        if b.len() > 0 && b.last() == '\n' {
            b
        } else {
            b.push('\n')
        }
    }
}

/// Concatenates file contents in order, making sure each ends a line.
pub fn concat_files(texts: &Vec<String>) -> (r: String)
    ensures
        r@ == concatenated(texts@.map_values(|s: String| s@)),
{
    let ghost ts = texts@.map_values(|s: String| s@);
    let mut buf = String::new();
    let mut ends_line = false;
    let n = texts.len();
    let mut i: usize = 0;
    while i < n
        invariant
            n == texts@.len(),
            ts == texts@.map_values(|s: String| s@),
            i <= n,
            buf@ == concatenated(ts.take(i as int)),
            ends_line == (buf@.len() > 0 && buf@.last() == '\n'),
        decreases n - i,
    {
        let chars = chars_of(texts[i].as_str());
        proof {
            assert(ts.take(i + 1).drop_last() == ts.take(i as int));
            assert(ts.take(i + 1).last() == chars@);
        }
        let ghost before = buf@;
        push_chars(&mut buf, &chars);
        if chars.len() > 0 {
            ends_line = chars[chars.len() - 1] == '\n';
        }
        assert(ends_line == (buf@.len() > 0 && buf@.last() == '\n'));
        if !ends_line {
            buf.push('\n');
            ends_line = true;
        }
        i = i + 1;
    }
    assert(ts.take(n as int) == ts);
    buf
}

} // verus!
