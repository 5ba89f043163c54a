//! Baking build parameters into an RPM spec file: `--with X`, `--without X`
//! and `--define "NAME value"` rewrite the matching `%bcond_with`,
//! `%bcond_without` and `%global` lines.

use vstd::prelude::*;
use crate::text::{split_lines, lines_of, starts_with, joined, join, trim, trimmed, same_text};

verus! {

pub open spec fn is_blank(c: char) -> bool {
    c == ' ' || c == '\t'
}

/// The first index from `i` on that holds no space or tab.
pub open spec fn skip_blanks(l: Seq<char>, i: int) -> int
    decreases l.len() - i,
{
    if i >= l.len() || !is_blank(l[i]) {
        i
    } else {
        skip_blanks(l, i + 1)
    }
}

/// The first index from `i` on that holds a space or tab.
pub open spec fn skip_word(l: Seq<char>, i: int) -> int
    decreases l.len() - i,
{
    if i >= l.len() || is_blank(l[i]) {
        i
    } else {
        skip_word(l, i + 1)
    }
}

/// A line `<directive><blanks><word>[<blanks><rest>]`: its word and rest.
/// With `blank_after_word`, blanks must follow the word.
pub open spec fn directive_parts(l: Seq<char>, d: Seq<char>, blank_after_word: bool) -> Option<(Seq<char>, Seq<char>)> {
    if d.is_prefix_of(l) && l.len() > d.len() && is_blank(l[d.len() as int]) {
        let a = skip_blanks(l, d.len() as int);
        let b = skip_word(l, a);
        let c = skip_blanks(l, b);
        if a >= l.len() || (blank_after_word && c == b) {
            None
        } else {
            Some((l.subrange(a, b), l.subrange(c, l.len() as int)))
        }
    } else {
        None
    }
}

/// The options that the parameters give: features to enable, features to
/// disable, and macro definitions in order.
pub struct ParamOptions {
    pub with_features: Vec<String>,
    pub without_features: Vec<String>,
    pub defines: Vec<(String, String)>,
}

/// The index of the first space from `i` on, or the length.
pub open spec fn first_space(s: Seq<char>, i: int) -> int
    decreases s.len() - i,
{
    if i >= s.len() || s[i] == ' ' {
        i
    } else {
        first_space(s, i + 1)
    }
}

/// `"NAME value"`: the name before the first space and the value after it,
/// each trimmed; without a space, the whole text names an empty value.
pub open spec fn define_of(s: Seq<char>) -> (Seq<char>, Seq<char>) {
    let p = first_space(s, 0);
    if p < s.len() {
        (trimmed(s.subrange(0, p)), trimmed(s.subrange(p + 1, s.len() as int)))
    } else {
        (trimmed(s), Seq::empty())
    }
}

/// The options that `params[i..]` gives, read left to right: an option
/// word followed by a value takes both, anything else is skipped.
pub open spec fn options_from(params: Seq<Seq<char>>, i: int) -> (Seq<Seq<char>>, Seq<Seq<char>>, Seq<(Seq<char>, Seq<char>)>)
    decreases params.len() - i,
{
    if i < 0 || i >= params.len() {
        (Seq::empty(), Seq::empty(), Seq::empty())
    } else if i + 1 < params.len() && params[i] == "--with"@ {
        let r = options_from(params, i + 2);
        (seq![params[i + 1]] + r.0, r.1, r.2)
    } else if i + 1 < params.len() && params[i] == "--without"@ {
        let r = options_from(params, i + 2);
        (r.0, seq![params[i + 1]] + r.1, r.2)
    } else if i + 1 < params.len() && (params[i] == "--define"@ || params[i] == "-D"@) {
        let r = options_from(params, i + 2);
        (r.0, r.1, seq![define_of(params[i + 1])] + r.2)
    } else {
        options_from(params, i + 1)
    }
}

/// The value of the last definition of `name`.
pub open spec fn define_lookup(d: Seq<(Seq<char>, Seq<char>)>, name: Seq<char>) -> Option<Seq<char>>
    decreases d.len(),
{
    if d.len() == 0 {
        None
    } else if d.last().0 == name {
        Some(d.last().1)
    } else {
        define_lookup(d.drop_last(), name)
    }
}

/// `word` followed by ` rest` where there is a rest.
pub open spec fn with_rest(head: Seq<char>, word: Seq<char>, rest: Seq<char>) -> Seq<char> {
    if rest.len() == 0 {
        head + word
    } else {
        head + word + seq![' '] + rest
    }
}

/// One line of the spec file after the parameters are applied.
pub open spec fn rewrite_line(
    l: Seq<char>,
    opts: (Seq<Seq<char>>, Seq<Seq<char>>, Seq<(Seq<char>, Seq<char>)>),
) -> Seq<char> {
    match directive_parts(l, "%bcond_with"@, false) {
        Some((f, t)) => if opts.0.contains(f) {
            with_rest("%bcond_without "@, f, t)
        } else {
            l
        },
        None => match directive_parts(l, "%bcond_without"@, false) {
            Some((f, t)) => if opts.1.contains(f) {
                with_rest("%bcond_with "@, f, t)
            } else {
                l
            },
            None => match directive_parts(l, "%global"@, true) {
                Some((n, _)) => match define_lookup(opts.2, n) {
                    Some(v) => "%global "@ + n + seq![' '] + v,
                    None => l,
                },
                None => l,
            },
        },
    }
}

} // verus!

verus! {

pub open spec fn strings_view(v: Seq<String>) -> Seq<Seq<char>> {
    v.map_values(|s: String| s@)
}

pub open spec fn pairs_view(v: Seq<(String, String)>) -> Seq<(Seq<char>, Seq<char>)> {
    v.map_values(|p: (String, String)| (p.0@, p.1@))
}

impl ParamOptions {
    pub open spec fn view_triple(&self) -> (Seq<Seq<char>>, Seq<Seq<char>>, Seq<(Seq<char>, Seq<char>)>) {
        (strings_view(self.with_features@), strings_view(self.without_features@), pairs_view(self.defines@))
    }
}

fn skip_blanks_at(l: &str, n: usize, i: usize) -> (r: usize)
    requires
        n == l@.len(),
        i <= n,
    ensures
        r == skip_blanks(l@, i as int),
        r <= n,
{
    let mut j = i;
    while j < n && (l.get_char(j) == ' ' || l.get_char(j) == '\t')
        invariant
            n == l@.len(),
            i <= j <= n,
            skip_blanks(l@, i as int) == skip_blanks(l@, j as int),
        decreases n - j,
    {
        j = j + 1;
    }
    j
}

fn skip_word_at(l: &str, n: usize, i: usize) -> (r: usize)
    requires
        n == l@.len(),
        i <= n,
    ensures
        r == skip_word(l@, i as int),
        r <= n,
{
    let mut j = i;
    while j < n && !(l.get_char(j) == ' ' || l.get_char(j) == '\t')
        invariant
            n == l@.len(),
            i <= j <= n,
            skip_word(l@, i as int) == skip_word(l@, j as int),
        decreases n - j,
    {
        j = j + 1;
    }
    j
}

fn match_directive(l: &str, d: &str, blank_after_word: bool) -> (r: Option<(String, String)>)
    ensures
        match r {
            Some(p) => directive_parts(l@, d@, blank_after_word) == Some((p.0@, p.1@)),
            None => directive_parts(l@, d@, blank_after_word) is None,
        },
{
    let n = l.unicode_len();
    let m = d.unicode_len();
    if !starts_with(l, d) || n <= m {
        return None;
    }
    let c0 = l.get_char(m);
    if !(c0 == ' ' || c0 == '\t') {
        return None;
    }
    let a = skip_blanks_at(l, n, m);
    let b = skip_word_at(l, n, a);
    let c = skip_blanks_at(l, n, b);
    if a >= n || (blank_after_word && c == b) {
        return None;
    }
    proof {
        assert(skip_word(l@, a as int) >= a as int) by {
            lemma_skip_word_ge(l@, a as int);
        }
        lemma_skip_blanks_ge(l@, b as int);
    }
    Some((l.substring_char(a, b).to_owned(), l.substring_char(c, n).to_owned()))
}

proof fn lemma_skip_word_ge(l: Seq<char>, i: int)
    ensures
        skip_word(l, i) >= i,
    decreases l.len() - i,
{
    if !(i >= l.len() || is_blank(l[i])) {
        lemma_skip_word_ge(l, i + 1);
    }
}

proof fn lemma_skip_blanks_ge(l: Seq<char>, i: int)
    ensures
        skip_blanks(l, i) >= i,
    decreases l.len() - i,
{
    if !(i >= l.len() || !is_blank(l[i])) {
        lemma_skip_blanks_ge(l, i + 1);
    }
}

fn define_parts(s: &str) -> (r: (String, String))
    ensures
        (r.0@, r.1@) == define_of(s@),
{
    let n = s.unicode_len();
    let mut p: usize = 0;
    while p < n && s.get_char(p) != ' '
        invariant
            n == s@.len(),
            p <= n,
            first_space(s@, 0) == first_space(s@, p as int),
        decreases n - p,
    {
        p = p + 1;
    }
    if p < n {
        let name = trim(s.substring_char(0, p));
        let value = trim(s.substring_char(p + 1, n));
        (name, value)
    } else {
        (trim(s), String::new())
    }
}

proof fn lemma_options_unfold(params: Seq<Seq<char>>, i: int)
    requires
        0 <= i < params.len(),
    ensures
        options_from(params, i) == (if i + 1 < params.len() && params[i] == "--with"@ {
            let r = options_from(params, i + 2);
            (seq![params[i + 1]] + r.0, r.1, r.2)
        } else if i + 1 < params.len() && params[i] == "--without"@ {
            let r = options_from(params, i + 2);
            (r.0, seq![params[i + 1]] + r.1, r.2)
        } else if i + 1 < params.len() && (params[i] == "--define"@ || params[i] == "-D"@) {
            let r = options_from(params, i + 2);
            (r.0, r.1, seq![define_of(params[i + 1])] + r.2)
        } else {
            options_from(params, i + 1)
        }),
{
}

/// The options that the parameters give.
pub fn parse_param_options(params: &Vec<String>) -> (r: ParamOptions)
    ensures
        r.view_triple() == options_from(strings_view(params@), 0),
{
    let ghost ps = strings_view(params@);
    let mut opts = ParamOptions { with_features: Vec::new(), without_features: Vec::new(), defines: Vec::new() };
    let mut i: usize = 0;
    proof {
        let t = opts.view_triple();
        assert(t.0 =~= Seq::<Seq<char>>::empty());
        assert(t.1 =~= Seq::<Seq<char>>::empty());
        assert(t.2 =~= Seq::<(Seq<char>, Seq<char>)>::empty());
        let r = options_from(ps, 0);
        assert(t.0 + r.0 =~= r.0);
        assert(t.1 + r.1 =~= r.1);
        assert(t.2 + r.2 =~= r.2);
    }
    while i < params.len()
        invariant
            ps == strings_view(params@),
            i <= params@.len() + 1,
            ({
                let t = opts.view_triple();
                let r = options_from(ps, i as int);
                let all = options_from(ps, 0);
                &&& t.0 + r.0 == all.0
                &&& t.1 + r.1 == all.1
                &&& t.2 + r.2 == all.2
            }),
        decreases params@.len() + 1 - i,
    {
        let ghost t0 = opts.view_triple();
        proof {
            lemma_options_unfold(ps, i as int);
            assert(ps[i as int] == params@[i as int]@);
        }
        let p = params[i].as_str();
        let has_value = i + 1 < params.len();
        if has_value && same_text(p, "--with") {
            proof {
                assert(ps[i as int + 1] == params@[i as int + 1]@);
            }
            opts.with_features.push(params[i + 1].clone());
            proof {
                let t = opts.view_triple();
                let r = options_from(ps, i as int + 2);
                assert(t.0 =~= t0.0.push(ps[i as int + 1]));
                assert(t.0 + r.0 =~= t0.0 + (seq![ps[i as int + 1]] + r.0));
            }
            i = i + 2;
        } else if has_value && same_text(p, "--without") {
            proof {
                assert(ps[i as int + 1] == params@[i as int + 1]@);
            }
            opts.without_features.push(params[i + 1].clone());
            proof {
                let t = opts.view_triple();
                let r = options_from(ps, i as int + 2);
                assert(t.1 =~= t0.1.push(ps[i as int + 1]));
                assert(t.1 + r.1 =~= t0.1 + (seq![ps[i as int + 1]] + r.1));
            }
            i = i + 2;
        } else if has_value && (same_text(p, "--define") || same_text(p, "-D")) {
            proof {
                assert(ps[i as int + 1] == params@[i as int + 1]@);
            }
            let d = define_parts(params[i + 1].as_str());
            opts.defines.push(d);
            proof {
                let t = opts.view_triple();
                let r = options_from(ps, i as int + 2);
                assert(t.2 =~= t0.2.push(define_of(ps[i as int + 1])));
                assert(t.2 + r.2 =~= t0.2 + (seq![define_of(ps[i as int + 1])] + r.2));
            }
            i = i + 2;
        } else {
            i = i + 1;
        }
    }
    proof {
        let t = opts.view_triple();
        let r = options_from(ps, i as int);
        assert(t.0 + r.0 =~= t.0);
        assert(t.1 + r.1 =~= t.1);
        assert(t.2 + r.2 =~= t.2);
    }
    opts
}

fn contains_text(v: &Vec<String>, x: &str) -> (r: bool)
    ensures
        r == strings_view(v@).contains(x@),
{
    let mut i: usize = 0;
    while i < v.len()
        invariant
            i <= v@.len(),
            forall|j: int| 0 <= j < i ==> v@[j]@ != x@,
        decreases v@.len() - i,
    {
        if same_text(v[i].as_str(), x) {
            proof {
                assert(strings_view(v@)[i as int] == x@);
            }
            return true;
        }
        i = i + 1;
    }
    proof {
        if strings_view(v@).contains(x@) {
            let j = choose|j: int| 0 <= j < v@.len() && strings_view(v@)[j] == x@;
            assert(v@[j]@ == x@);
        }
    }
    false
}

fn find_define<'a>(d: &'a Vec<(String, String)>, name: &str) -> (r: Option<&'a String>)
    ensures
        match r {
            Some(v) => define_lookup(pairs_view(d@), name@) == Some(v@),
            None => define_lookup(pairs_view(d@), name@) is None,
        },
{
    let mut i: usize = d.len();
    proof {
        assert(pairs_view(d@).subrange(0, i as int) =~= pairs_view(d@));
    }
    while i > 0
        invariant
            i <= d@.len(),
            define_lookup(pairs_view(d@), name@) == define_lookup(pairs_view(d@).subrange(0, i as int), name@),
        decreases i,
    {
        let ghost pre = pairs_view(d@).subrange(0, i as int);
        i = i - 1;
        proof {
            assert(pre.drop_last() =~= pairs_view(d@).subrange(0, i as int));
            assert(pre.last() == (d@[i as int].0@, d@[i as int].1@));
        }
        if same_text(d[i].0.as_str(), name) {
            return Some(&d[i].1);
        }
    }
    proof {
        assert(pairs_view(d@).subrange(0, 0) =~= Seq::<(Seq<char>, Seq<char>)>::empty());
    }
    None
}

fn build_with_rest(head: &str, word: &str, rest: &str) -> (r: String)
    ensures
        r@ == with_rest(head@, word@, rest@),
{
    let mut out = head.to_owned();
    out.append(word);
    if rest.unicode_len() > 0 {
        proof {
            reveal_strlit(" ");
        }
        out.append(" ");
        out.append(rest);
    }
    out
}

/// One spec-file line with the parameter options applied.
pub fn rewrite_spec_line(line: &str, opts: &ParamOptions) -> (r: String)
    ensures
        r@ == rewrite_line(line@, opts.view_triple()),
{
    match match_directive(line, "%bcond_with", false) {
        Some((f, t)) => {
            if contains_text(&opts.with_features, f.as_str()) {
                build_with_rest("%bcond_without ", f.as_str(), t.as_str())
            } else {
                line.to_owned()
            }
        },
        None => match match_directive(line, "%bcond_without", false) {
            Some((f, t)) => {
                if contains_text(&opts.without_features, f.as_str()) {
                    build_with_rest("%bcond_with ", f.as_str(), t.as_str())
                } else {
                    line.to_owned()
                }
            },
            None => match match_directive(line, "%global", true) {
                Some((n, _)) => match find_define(&opts.defines, n.as_str()) {
                    Some(v) => {
                        let mut out = "%global ".to_owned();
                        out.append(n.as_str());
                        proof {
                            reveal_strlit(" ");
                        }
                        out.append(" ");
                        out.append(v.as_str());
                        out
                    },
                    None => line.to_owned(),
                },
                None => line.to_owned(),
            },
        },
    }
}

/// The spec file with the parameters baked in: each line rewritten as
/// [`rewrite_line`] says, joined by `\n`.
pub fn modify_spec_for_params(spec_content: &str, params: &Vec<String>) -> (r: String)
    ensures
        r@ == joined(
            lines_of(spec_content@).map_values(
                |l: Seq<char>| rewrite_line(l, options_from(strings_view(params@), 0)),
            ),
            "\n"@,
        ),
{
    let opts = parse_param_options(params);
    let lines = split_lines(spec_content);
    let ghost ls = lines_of(spec_content@);
    let ghost o = options_from(strings_view(params@), 0);
    let mut modified: Vec<String> = Vec::new();
    let mut i: usize = 0;
    while i < lines.len()
        invariant
            ls == lines@.map_values(|l: String| l@),
            o == opts.view_triple(),
            i <= lines@.len(),
            modified@.len() == i,
            forall|j: int| 0 <= j < i ==> (#[trigger] modified@[j])@ == rewrite_line(ls[j], o),
        decreases lines@.len() - i,
    {
        let line = rewrite_spec_line(lines[i].as_str(), &opts);
        modified.push(line);
        i = i + 1;
    }
    proof {
        assert(modified@.map_values(|l: String| l@) =~= ls.map_values(|l: Seq<char>| rewrite_line(l, o)));
    }
    join(&modified, "\n")
}

} // verus!
