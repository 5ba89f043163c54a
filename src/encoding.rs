//! The canonical text that a build hash is taken over: quoted strings with
//! `\` and `"` escaped, grouped in bracketed lists. Every part can be read
//! back from the text, so distinct inputs give distinct texts.

use vstd::prelude::*;

verus! {

pub open spec fn escape_char(c: char) -> Seq<char> {
    if c == '\\' || c == '"' {
        seq!['\\', c]
    } else {
        seq![c]
    }
}

/// `s` with each `\` and `"` preceded by `\`.
pub open spec fn escaped(s: Seq<char>) -> Seq<char>
    decreases s.len(),
{
    if s.len() == 0 {
        Seq::empty()
    } else {
        escaped(s.drop_last()) + escape_char(s.last())
    }
}

/// `s` escaped and put between double quotes.
pub open spec fn quoted(s: Seq<char>) -> Seq<char> {
    seq!['"'] + escaped(s) + seq!['"']
}

/// The quoted forms of `xs`, one after another.
pub open spec fn quoted_all(xs: Seq<Seq<char>>) -> Seq<char>
    decreases xs.len(),
{
    if xs.len() == 0 {
        Seq::empty()
    } else {
        quoted_all(xs.drop_last()) + quoted(xs.last())
    }
}

/// The quoted forms of `xs` between `[` and `]`.
pub open spec fn bracketed(xs: Seq<Seq<char>>) -> Seq<char> {
    seq!['['] + quoted_all(xs) + seq![']']
}

pub proof fn lemma_escaped_front(s: Seq<char>)
    requires
        s.len() > 0,
    ensures
        escaped(s) == escape_char(s[0]) + escaped(s.drop_first()),
    decreases s.len(),
{
    if s.len() == 1 {
        assert(s.drop_last() =~= Seq::<char>::empty());
        assert(s.drop_first() =~= Seq::<char>::empty());
        assert(escaped(s.drop_first()) =~= Seq::<char>::empty());
        assert(escaped(s) =~= escape_char(s[0]));
    } else {
        lemma_escaped_front(s.drop_last());
        assert(s.drop_last().drop_first() =~= s.drop_first().drop_last());
        assert(s.drop_first().last() == s.last());
        assert(escaped(s) =~= escape_char(s[0]) + escaped(s.drop_first()));
    }
}

pub proof fn lemma_quoted_all_front(xs: Seq<Seq<char>>)
    requires
        xs.len() > 0,
    ensures
        quoted_all(xs) == quoted(xs[0]) + quoted_all(xs.drop_first()),
    decreases xs.len(),
{
    if xs.len() == 1 {
        assert(xs.drop_last() =~= Seq::<Seq<char>>::empty());
        assert(xs.drop_first() =~= Seq::<Seq<char>>::empty());
        assert(quoted_all(xs.drop_first()) =~= Seq::<char>::empty());
        assert(quoted_all(xs) =~= quoted(xs[0]));
    } else {
        lemma_quoted_all_front(xs.drop_last());
        assert(xs.drop_last().drop_first() =~= xs.drop_first().drop_last());
        assert(xs.drop_first().last() == xs.last());
        assert(quoted_all(xs) =~= quoted(xs[0]) + quoted_all(xs.drop_first()));
    }
}

/// An escaped text followed by a closing quote can be read back.
pub proof fn lemma_escaped_prefix(a: Seq<char>, b: Seq<char>, x: Seq<char>, y: Seq<char>)
    requires
        escaped(a) + seq!['"'] + x == escaped(b) + seq!['"'] + y,
    ensures
        a == b,
        x == y,
    decreases a.len() + b.len(),
{
    let l = escaped(a) + seq!['"'] + x;
    let r = escaped(b) + seq!['"'] + y;
    if a.len() == 0 && b.len() == 0 {
        assert(escaped(a) =~= Seq::<char>::empty());
        assert(escaped(b) =~= Seq::<char>::empty());
        assert(x =~= l.drop_first());
        assert(y =~= r.drop_first());
    } else if a.len() == 0 {
        lemma_escaped_front(b);
        assert(escaped(a) =~= Seq::<char>::empty());
        assert(l[0] == '"');
        assert(r[0] == escape_char(b[0])[0]);
    } else if b.len() == 0 {
        lemma_escaped_front(a);
        assert(escaped(b) =~= Seq::<char>::empty());
        assert(r[0] == '"');
        assert(l[0] == escape_char(a[0])[0]);
    } else {
        lemma_escaped_front(a);
        lemma_escaped_front(b);
        let ea = escape_char(a[0]);
        let eb = escape_char(b[0]);
        assert(l[0] == ea[0]);
        assert(r[0] == eb[0]);
        if ea.len() == 2 {
            assert(l[1] == ea[1]);
            assert(r[1] == eb[1]);
        }
        assert(a[0] == b[0]);
        let n = ea.len() as int;
        assert(l.subrange(n, l.len() as int) =~= escaped(a.drop_first()) + seq!['"'] + x);
        assert(r.subrange(n, r.len() as int) =~= escaped(b.drop_first()) + seq!['"'] + y);
        lemma_escaped_prefix(a.drop_first(), b.drop_first(), x, y);
        assert(a =~= seq![a[0]] + a.drop_first());
        assert(b =~= seq![b[0]] + b.drop_first());
    }
}

/// A quoted text can be read back from the front of a longer one.
pub proof fn lemma_quoted_prefix(a: Seq<char>, b: Seq<char>, x: Seq<char>, y: Seq<char>)
    requires
        quoted(a) + x == quoted(b) + y,
    ensures
        a == b,
        x == y,
{
    let l = quoted(a) + x;
    let r = quoted(b) + y;
    assert(l.drop_first() =~= escaped(a) + seq!['"'] + x);
    assert(r.drop_first() =~= escaped(b) + seq!['"'] + y);
    lemma_escaped_prefix(a, b, x, y);
}

/// A run of quoted texts closed by `]` can be read back.
pub proof fn lemma_quoted_all_prefix(xs: Seq<Seq<char>>, ys: Seq<Seq<char>>, x: Seq<char>, y: Seq<char>)
    requires
        quoted_all(xs) + seq![']'] + x == quoted_all(ys) + seq![']'] + y,
    ensures
        xs == ys,
        x == y,
    decreases xs.len() + ys.len(),
{
    let l = quoted_all(xs) + seq![']'] + x;
    let r = quoted_all(ys) + seq![']'] + y;
    if xs.len() == 0 && ys.len() == 0 {
        assert(quoted_all(xs) =~= Seq::<char>::empty());
        assert(quoted_all(ys) =~= Seq::<char>::empty());
        assert(x =~= l.drop_first());
        assert(y =~= r.drop_first());
    } else if xs.len() == 0 {
        lemma_quoted_all_front(ys);
        assert(quoted_all(xs) =~= Seq::<char>::empty());
        assert(l[0] == ']');
        assert(r[0] == '"');
    } else if ys.len() == 0 {
        lemma_quoted_all_front(xs);
        assert(quoted_all(ys) =~= Seq::<char>::empty());
        assert(r[0] == ']');
        assert(l[0] == '"');
    } else {
        lemma_quoted_all_front(xs);
        lemma_quoted_all_front(ys);
        assert(l =~= quoted(xs[0]) + (quoted_all(xs.drop_first()) + seq![']'] + x));
        assert(r =~= quoted(ys[0]) + (quoted_all(ys.drop_first()) + seq![']'] + y));
        lemma_quoted_prefix(xs[0], ys[0], quoted_all(xs.drop_first()) + seq![']'] + x, quoted_all(ys.drop_first()) + seq![']'] + y);
        lemma_quoted_all_prefix(xs.drop_first(), ys.drop_first(), x, y);
        assert(xs =~= seq![xs[0]] + xs.drop_first());
        assert(ys =~= seq![ys[0]] + ys.drop_first());
    }
}

/// A bracketed list can be read back from the front of a longer text.
pub proof fn lemma_bracketed_prefix(xs: Seq<Seq<char>>, ys: Seq<Seq<char>>, x: Seq<char>, y: Seq<char>)
    requires
        bracketed(xs) + x == bracketed(ys) + y,
    ensures
        xs == ys,
        x == y,
{
    let l = bracketed(xs) + x;
    let r = bracketed(ys) + y;
    assert(l.drop_first() =~= quoted_all(xs) + seq![']'] + x);
    assert(r.drop_first() =~= quoted_all(ys) + seq![']'] + y);
    lemma_quoted_all_prefix(xs, ys, x, y);
}

} // verus!

verus! {

/// Appends the quoted form of `s` to `out`.
pub fn append_quoted(out: &mut String, s: &str)
    ensures
        final(out)@ == old(out)@ + quoted(s@),
{
    proof {
        reveal_strlit("\"");
        reveal_strlit("\\");
    }
    out.append("\"");
    let n = s.unicode_len();
    let mut i: usize = 0;
    proof {
        assert(s@.subrange(0, 0) =~= Seq::<char>::empty());
        assert(escaped(s@.subrange(0, 0)) =~= Seq::<char>::empty());
        assert(out@ =~= old(out)@ + seq!['"'] + escaped(s@.subrange(0, 0)));
    }
    while i < n
        invariant
            n == s@.len(),
            i <= n,
            out@ == old(out)@ + seq!['"'] + escaped(s@.subrange(0, i as int)),
        decreases n - i,
    {
        let c = s.get_char(i);
        let ghost before = out@;
        if c == '\\' || c == '"' {
            out.append("\\");
            proof {
                reveal_strlit("\\");
                assert("\\"@ =~= seq!['\\']);
            }
        }
        let ghost mid = out@;
        proof {
            assert(mid + seq![c] =~= before + escape_char(c));
        }
        out.append(s.substring_char(i, i + 1));
        proof {
            let t = s@.subrange(0, i as int + 1);
            assert(t.drop_last() =~= s@.subrange(0, i as int));
            assert(t.last() == c);
            assert(s@.subrange(i as int, i as int + 1) =~= seq![c]);
            assert(out@ =~= mid + seq![c]);
        }
        i = i + 1;
    }
    out.append("\"");
    proof {
        assert(s@.subrange(0, n as int) =~= s@);
    }
}

/// Appends the bracketed list of the quoted forms of `items` to `out`.
pub fn append_bracketed(out: &mut String, items: &Vec<String>)
    ensures
        final(out)@ == old(out)@ + bracketed(items@.map_values(|p: String| p@)),
{
    proof {
        reveal_strlit("[");
        reveal_strlit("]");
    }
    let ghost xs = items@.map_values(|p: String| p@);
    out.append("[");
    let mut i: usize = 0;
    proof {
        assert(xs.subrange(0, 0) =~= Seq::<Seq<char>>::empty());
        assert(out@ =~= old(out)@ + seq!['['] + quoted_all(xs.subrange(0, 0)));
    }
    while i < items.len()
        invariant
            xs == items@.map_values(|p: String| p@),
            i <= items@.len(),
            out@ == old(out)@ + seq!['['] + quoted_all(xs.subrange(0, i as int)),
        decreases items@.len() - i,
    {
        append_quoted(out, items[i].as_str());
        proof {
            let t = xs.subrange(0, i as int + 1);
            assert(t.drop_last() =~= xs.subrange(0, i as int));
            assert(t.last() == items@[i as int]@);
        }
        i = i + 1;
    }
    out.append("]");
    proof {
        assert(xs.subrange(0, items@.len() as int) =~= xs);
    }
}

} // verus!
