//! Text helpers with their meaning stated: prefixes, lines, joining,
//! decimal numbers, and whitespace trimming.

use vstd::prelude::*;

verus! {

/// Whether `s` starts with `p`.
pub fn starts_with(s: &str, p: &str) -> (r: bool)
    ensures
        r == p@.is_prefix_of(s@),
{
    let n = s.unicode_len();
    let m = p.unicode_len();
    if m > n {
        return false;
    }
    let mut i: usize = 0;
    while i < m
        invariant
            n == s@.len(),
            m == p@.len(),
            m <= n,
            i <= m,
            forall|j: int| 0 <= j < i ==> s@[j] == p@[j],
        decreases m - i,
    {
        if s.get_char(i) != p.get_char(i) {
            return false;
        }
        i = i + 1;
    }
    true
}

/// The characters of `s` from `from` on.
pub fn suffix_from(s: &str, from: usize) -> (r: String)
    requires
        from <= s@.len(),
    ensures
        r@ == s@.subrange(from as int, s@.len() as int),
{
    let n = s.unicode_len();
    s.substring_char(from, n).to_owned()
}

/// The pieces of `s` between `\n` characters; there is always one more
/// piece than there are newlines.
pub open spec fn split_newlines(s: Seq<char>) -> Seq<Seq<char>>
    decreases s.len(),
{
    if s.len() == 0 {
        seq![Seq::empty()]
    } else {
        let rest = split_newlines(s.drop_last());
        if s.last() == '\n' {
            rest.push(Seq::empty())
        } else {
            rest.update(rest.len() - 1, rest.last().push(s.last()))
        }
    }
}

pub open spec fn strip_cr(l: Seq<char>) -> Seq<char> {
    if l.len() > 0 && l.last() == '\r' {
        l.drop_last()
    } else {
        l
    }
}

/// The lines of `s`, as `str::lines` gives them: split at `\n` or `\r\n`;
/// a final line ending adds no empty line.
pub open spec fn lines_of(s: Seq<char>) -> Seq<Seq<char>> {
    let p = split_newlines(s);
    if s.len() == 0 {
        Seq::empty()
    } else if s.last() == '\n' {
        p.drop_last().map_values(|l: Seq<char>| strip_cr(l))
    } else {
        p.drop_last().map_values(|l: Seq<char>| strip_cr(l)).push(p.last())
    }
}

pub proof fn lemma_split_newlines_nonempty(s: Seq<char>)
    ensures
        split_newlines(s).len() >= 1,
    decreases s.len(),
{
    if s.len() > 0 {
        lemma_split_newlines_nonempty(s.drop_last());
    }
}

/// Drops one `\r` that ends `l`.
fn without_cr(l: &str) -> (r: String)
    ensures
        r@ == strip_cr(l@),
{
    let n = l.unicode_len();
    if n > 0 && l.get_char(n - 1) == '\r' {
        l.substring_char(0, n - 1).to_owned()
    } else {
        l.to_owned()
    }
}

/// The lines of `s`.
pub fn split_lines(s: &str) -> (r: Vec<String>)
    ensures
        r@.map_values(|l: String| l@) == lines_of(s@),
{
    let n = s.unicode_len();
    let mut out: Vec<String> = Vec::new();
    let mut start: usize = 0;
    let mut i: usize = 0;
    proof {
        assert(s@.subrange(0, 0) =~= Seq::<char>::empty());
        assert(split_newlines(Seq::<char>::empty()).drop_last() =~= Seq::<Seq<char>>::empty());
        assert(out@.map_values(|l: String| l@) =~= split_newlines(s@.subrange(0, 0)).drop_last().map_values(|l: Seq<char>| strip_cr(l)));
        assert(s@.subrange(0, 0) =~= s@.subrange(start as int, 0));
    }
    while i < n
        invariant
            n == s@.len(),
            start <= i <= n,
            split_newlines(s@.subrange(0, i as int)).last() == s@.subrange(start as int, i as int),
            out@.map_values(|l: String| l@) == split_newlines(s@.subrange(0, i as int)).drop_last().map_values(
                |l: Seq<char>| strip_cr(l),
            ),
            i > 0 ==> (s@[i - 1] == '\n' <==> start == i),
        decreases n - i,
    {
        let c = s.get_char(i);
        let ghost t0 = s@.subrange(0, i as int);
        let ghost t1 = s@.subrange(0, i as int + 1);
        let ghost o0 = out@;
        proof {
            assert(t1.drop_last() =~= t0);
            assert(t1.last() == c);
            lemma_split_newlines_nonempty(t0);
        }
        if c == '\n' {
            let piece = s.substring_char(start, i);
            out.push(without_cr(piece));
            proof {
                let pieces_before = split_newlines(t0);
                assert(split_newlines(t1) == pieces_before.push(Seq::<char>::empty()));
                assert(split_newlines(t1).drop_last() =~= pieces_before);
                assert(pieces_before =~= pieces_before.drop_last().push(pieces_before.last()));
                assert(out@.map_values(|l: String| l@) =~= o0.map_values(|l: String| l@).push(strip_cr(pieces_before.last())));
                assert(pieces_before.map_values(|l: Seq<char>| strip_cr(l)) =~= pieces_before.drop_last().map_values(|l: Seq<char>| strip_cr(l)).push(strip_cr(pieces_before.last())));
                assert(s@.subrange(i as int + 1, i as int + 1) =~= Seq::<char>::empty());
            }
            start = i + 1;
        } else {
            proof {
                let pieces_before = split_newlines(t0);
                let pieces_after = split_newlines(t1);
                assert(pieces_after == pieces_before.update(pieces_before.len() - 1, pieces_before.last().push(c)));
                assert(pieces_after.drop_last() =~= pieces_before.drop_last());
                assert(pieces_after.last() =~= s@.subrange(start as int, i as int + 1));
            }
        }
        i = i + 1;
    }
    proof {
        assert(s@.subrange(0, n as int) =~= s@);
    }
    if start < n {
        let last = s.substring_char(start, n);
        let ghost o0 = out@;
        out.push(last.to_owned());
        proof {
            assert(out@.map_values(|l: String| l@) =~= o0.map_values(|l: String| l@).push(last@));
        }
    } else {
        proof {
            if n > 0 {
                assert(s@.last() == '\n');
            }
        }
    }
    out
}

/// The parts joined with `sep` between each two.
pub open spec fn joined(parts: Seq<Seq<char>>, sep: Seq<char>) -> Seq<char>
    decreases parts.len(),
{
    if parts.len() == 0 {
        Seq::empty()
    } else if parts.len() == 1 {
        parts[0]
    } else {
        joined(parts.drop_last(), sep) + sep + parts.last()
    }
}

pub fn join(parts: &Vec<String>, sep: &str) -> (r: String)
    ensures
        r@ == joined(parts@.map_values(|p: String| p@), sep@),
{
    let ghost ps = parts@.map_values(|p: String| p@);
    let mut out = String::new();
    let mut i: usize = 0;
    proof {
        assert(ps.subrange(0, 0) =~= Seq::<Seq<char>>::empty());
    }
    while i < parts.len()
        invariant
            ps == parts@.map_values(|p: String| p@),
            i <= parts@.len(),
            out@ == joined(ps.subrange(0, i as int), sep@),
        decreases parts@.len() - i,
    {
        let ghost t = ps.subrange(0, i as int + 1);
        proof {
            assert(t.drop_last() =~= ps.subrange(0, i as int));
            assert(t.last() == parts@[i as int]@);
        }
        if i > 0 {
            out.append(sep);
        } else {
            proof {
                assert(out@ =~= Seq::<char>::empty());
            }
        }
        out.append(parts[i].as_str());
        i = i + 1;
    }
    proof {
        assert(ps.subrange(0, parts@.len() as int) =~= ps);
    }
    out
}

/// The characters that `char::is_whitespace` accepts: those of Unicode's
/// `White_Space` property.
pub open spec fn is_white(c: char) -> bool {
    ('\u{9}' <= c && c <= '\u{d}') || c == ' ' || c == '\u{85}' || c == '\u{a0}' || c == '\u{1680}' || (
    '\u{2000}' <= c && c <= '\u{200a}') || c == '\u{2028}' || c == '\u{2029}' || c == '\u{202f}' || c
        == '\u{205f}' || c == '\u{3000}'
}

/// `s` without its leading whitespace.
pub open spec fn drop_leading_white(s: Seq<char>) -> Seq<char>
    decreases s.len(),
{
    if s.len() > 0 && is_white(s[0]) {
        drop_leading_white(s.drop_first())
    } else {
        s
    }
}

/// `s` without its trailing whitespace.
pub open spec fn drop_trailing_white(s: Seq<char>) -> Seq<char>
    decreases s.len(),
{
    if s.len() > 0 && is_white(s.last()) {
        drop_trailing_white(s.drop_last())
    } else {
        s
    }
}

/// `s` without its leading and trailing whitespace, as `str::trim` gives it.
pub open spec fn trimmed(s: Seq<char>) -> Seq<char> {
    drop_trailing_white(drop_leading_white(s))
}

fn white(c: char) -> (r: bool)
    ensures
        r == is_white(c),
{
    ('\u{9}' <= c && c <= '\u{d}') || c == ' ' || c == '\u{85}' || c == '\u{a0}' || c == '\u{1680}' || (
    '\u{2000}' <= c && c <= '\u{200a}') || c == '\u{2028}' || c == '\u{2029}' || c == '\u{202f}' || c
        == '\u{205f}' || c == '\u{3000}'
}

/// `s` without its leading and trailing whitespace.
pub fn trim(s: &str) -> (r: String)
    ensures
        r@ == trimmed(s@),
{
    let n = s.unicode_len();
    let mut a: usize = 0;
    proof {
        assert(s@.subrange(0, n as int) =~= s@);
    }
    while a < n && white(s.get_char(a))
        invariant
            n == s@.len(),
            a <= n,
            drop_leading_white(s@) == drop_leading_white(s@.subrange(a as int, n as int)),
        decreases n - a,
    {
        proof {
            assert(s@.subrange(a as int, n as int).drop_first() =~= s@.subrange(a as int + 1, n as int));
        }
        a = a + 1;
    }
    let ghost lead = s@.subrange(a as int, n as int);
    proof {
        assert(drop_leading_white(lead) == lead);
    }
    let mut b: usize = n;
    while b > a && white(s.get_char(b - 1))
        invariant
            n == s@.len(),
            a <= b <= n,
            lead == s@.subrange(a as int, n as int),
            drop_trailing_white(lead) == drop_trailing_white(s@.subrange(a as int, b as int)),
        decreases b,
    {
        proof {
            assert(s@.subrange(a as int, b as int).drop_last() =~= s@.subrange(a as int, b as int - 1));
        }
        b = b - 1;
    }
    s.substring_char(a, b).to_owned()
}

pub open spec fn is_digit(c: char) -> bool {
    '0' <= c && c <= '9'
}

/// The number that a run of decimal digits writes.
pub open spec fn decimal_value(d: Seq<char>) -> nat
    decreases d.len(),
{
    if d.len() == 0 {
        0
    } else {
        decimal_value(d.drop_last()) * 10 + (d.last() as nat - '0' as nat) as nat
    }
}

/// The digits that `u64::from_str` reads: after an optional `+`.
pub open spec fn decimal_digits(s: Seq<char>) -> Seq<char> {
    if s.len() > 0 && s[0] == '+' {
        s.drop_first()
    } else {
        s
    }
}

/// `s` is what `u64::from_str` accepts: an optional `+`, then one or more
/// digits, for a value that fits in 64 bits.
pub open spec fn is_u64_text(s: Seq<char>) -> bool {
    let d = decimal_digits(s);
    &&& d.len() > 0
    &&& forall|i: int| 0 <= i < d.len() ==> is_digit(#[trigger] d[i])
    &&& decimal_value(d) <= u64::MAX
}

/// Reads an unsigned 64-bit decimal number.
pub fn parse_u64(s: &str) -> (r: Option<u64>)
    ensures
        match r {
            Some(v) => is_u64_text(s@) && v as nat == decimal_value(decimal_digits(s@)),
            None => !is_u64_text(s@),
        },
{
    let n = s.unicode_len();
    let mut i: usize = 0;
    if n > 0 && s.get_char(0) == '+' {
        i = 1;
    }
    let ghost d = decimal_digits(s@);
    let ghost first = i as int;
    proof {
        assert(d =~= s@.subrange(first, n as int));
    }
    if i == n {
        return None;
    }
    let mut v: u64 = 0;
    proof {
        assert(d.subrange(0, 0) =~= Seq::<char>::empty());
    }
    while i < n
        invariant
            n == s@.len(),
            0 <= first <= i <= n,
            d == s@.subrange(first, n as int),
            d == decimal_digits(s@),
            forall|j: int| 0 <= j < (i as int) - first ==> is_digit(#[trigger] d[j]),
            v as nat == decimal_value(d.subrange(0, (i as int) - first)),
        decreases n - i,
    {
        let c = s.get_char(i);
        let ghost t = d.subrange(0, (i as int) - first + 1);
        proof {
            assert(d[(i as int) - first] == c);
            assert(t.drop_last() =~= d.subrange(0, (i as int) - first));
            assert(t.last() == c);
        }
        if !('0' <= c && c <= '9') {
            proof {
                let k = (i as int) - first;
                assert(!is_digit(decimal_digits(s@)[k]));
                assert(!is_u64_text(s@));
            }
            return None;
        }
        let digit: u64 = (c as u32 - '0' as u32) as u64;
        proof {
            assert(digit as nat == (c as nat - '0' as nat) as nat);
        }
        if v > (u64::MAX - digit) / 10 {
            proof {
                assert(decimal_value(t) > u64::MAX) by (nonlinear_arith)
                    requires
                        decimal_value(t) == v * 10 + digit,
                        v > (u64::MAX - digit) / 10,
                        digit <= 9,
                ;
                if forall|j: int| 0 <= j < d.len() ==> is_digit(#[trigger] d[j]) {
                    lemma_decimal_grows(d, (i as int) - first + 1);
                }
            }
            return None;
        }
        proof {
            assert(v * 10 + digit <= u64::MAX) by (nonlinear_arith)
                requires
                    v <= (u64::MAX - digit) / 10,
                    digit <= 9,
            ;
        }
        v = v * 10 + digit;
        i = i + 1;
    }
    proof {
        assert(d.subrange(0, n - first) =~= d);
    }
    Some(v)
}

/// A longer run of digits never writes a smaller number.
pub proof fn lemma_decimal_grows(d: Seq<char>, k: int)
    requires
        0 <= k <= d.len(),
        forall|i: int| 0 <= i < d.len() ==> is_digit(#[trigger] d[i]),
    ensures
        decimal_value(d.subrange(0, k)) <= decimal_value(d),
    decreases d.len() - k,
{
    if k < d.len() {
        lemma_decimal_grows(d, k + 1);
        let t = d.subrange(0, k + 1);
        assert(t.drop_last() =~= d.subrange(0, k));
        assert(is_digit(t.last()));
    } else {
        assert(d.subrange(0, k) =~= d);
    }
}

/// Whether two texts are equal.
pub fn same_text(a: &str, b: &str) -> (r: bool)
    ensures
        r == (a@ == b@),
{
    let n = a.unicode_len();
    if n != b.unicode_len() {
        return false;
    }
    let mut i: usize = 0;
    while i < n
        invariant
            n == a@.len(),
            n == b@.len(),
            i <= n,
            forall|j: int| 0 <= j < i ==> a@[j] == b@[j],
        decreases n - i,
    {
        if a.get_char(i) != b.get_char(i) {
            return false;
        }
        i = i + 1;
    }
    proof {
        assert(a@ =~= b@);
    }
    true
}

} // verus!
