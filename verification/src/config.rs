//! The configuration: appearance and behaviour settings with their
//! defaults, and the colours taken from the desktop's terminal (kitty) or
//! GTK theme files when they exist.
//!
//! Reading files belongs to the program; the library parses what was read.
use vstd::prelude::*;
use crate::text::{
    after_first_word, first_word, lemma_word_len_bound, lines_of,
    newline_pos, second_word, skip_white, trim_end_at, trim_start, trimmed, without_cr,
    word_end, word_len, chars_of,
};
use vstd::string::*;

verus! {

/// A colour setting: a name and a value.
pub type ColorPair = (Seq<char>, Seq<char>);

/// The entry of a line of a kitty theme (`key value ...`): the first two
/// words of the trimmed line, when the line is not a comment and the value
/// starts with `#`.
pub open spec fn key_value_entry(line: Seq<char>) -> Option<ColorPair> {
    let t = trimmed(line);
    if t.len() == 0 || t[0] == '#' {
        None
    } else {
        match (first_word(t), second_word(t)) {
            (Some(k), Some(v)) => if v.len() > 0 && v[0] == '#' {
                Some((k, v))
            } else {
                None
            },
            _ => None,
        }
    }
}

/// `v` without its trailing semicolons.
pub open spec fn trim_semicolons(v: Seq<char>) -> Seq<char>
    decreases v.len(),
{
    if v.len() > 0 && v.last() == ';' {
        trim_semicolons(v.drop_last())
    } else {
        v
    }
}

/// The prefix of a GTK colour definition.
pub open spec fn define_color_prefix() -> Seq<char> {
    "@define-color "@
}

/// The entry of a line of a GTK stylesheet (`@define-color name value;`):
/// the two words after the prefix, the value without its trailing
/// semicolons, when it starts with `#`.
pub open spec fn define_color_entry(line: Seq<char>) -> Option<ColorPair> {
    let t = trimmed(line);
    let p = define_color_prefix();
    if t.len() >= p.len() && t.take(p.len() as int) == p {
        let rest = t.skip(p.len() as int);
        match (first_word(rest), second_word(rest)) {
            (Some(n), Some(v)) => {
                let v2 = trim_semicolons(v);
                if v2.len() > 0 && v2[0] == '#' {
                    Some((n, v2))
                } else {
                    None
                }
            },
            _ => None,
        }
    } else {
        None
    }
}

/// The two formats of colour files.
pub enum ColorFormat {
    /// kitty's `key value` lines.
    KeyValue,
    /// GTK's `@define-color name value;` lines.
    DefineColor,
}

pub open spec fn line_entry(line: Seq<char>, format: ColorFormat) -> Option<ColorPair> {
    match format {
        ColorFormat::KeyValue => key_value_entry(line),
        ColorFormat::DefineColor => define_color_entry(line),
    }
}

/// The entries of the lines, in order.
pub open spec fn entries(lines: Seq<Seq<char>>, format: ColorFormat) -> Seq<ColorPair>
    decreases lines.len(),
{
    if lines.len() == 0 {
        seq![]
    } else {
        (match line_entry(lines[0], format) {
            Some(e) => seq![e],
            None => seq![],
        }) + entries(lines.drop_first(), format)
    }
}

/// The colour settings of a file's text.
pub open spec fn color_pairs(content: Seq<char>, format: ColorFormat) -> Seq<ColorPair> {
    entries(lines_of(content), format)
}

pub open spec fn pairs_view(v: Seq<(String, String)>) -> Seq<ColorPair> {
    v.map_values(|p: (String, String)| (p.0@, p.1@))
}

/// The text of `content` between two character positions.
fn text_between(content: &str, a: usize, b: usize) -> (r: String)
    requires
        a <= b <= content@.len(),
    ensures
        r@ == content@.subrange(a as int, b as int),
{
    String::from_str(content.substring_char(a, b))
}

/// The first two words of `cs[a..b]`.
fn two_words(cs: &Vec<char>, a: usize, b: usize) -> (r: Option<((usize, usize), (usize, usize))>)
    requires
        a <= b <= cs@.len(),
    ensures
        ({
            let s = cs@.subrange(a as int, b as int);
            match r {
                Some(((k0, k1), (v0, v1))) => {
                    &&& a <= k0 <= k1 <= v0 <= v1 <= b
                    &&& first_word(s) == Some(cs@.subrange(k0 as int, k1 as int))
                    &&& second_word(s) == Some(cs@.subrange(v0 as int, v1 as int))
                },
                None => first_word(s) is None || second_word(s) is None,
            }
        }),
{
    let ghost s = cs@.subrange(a as int, b as int);
    let k0 = skip_white(cs, a, b);
    if k0 == b {
        return None;
    }
    let k1 = word_end(cs, k0, b);
    proof {
        let t = trim_start(s);
        assert(t == cs@.subrange(k0 as int, b as int));
        lemma_word_len_bound(t);
        assert(t.take(word_len(t) as int) =~= cs@.subrange(k0 as int, k1 as int));
        assert(after_first_word(s) =~= cs@.subrange(k1 as int, b as int));
    }
    let v0 = skip_white(cs, k1, b);
    if v0 == b {
        return None;
    }
    let v1 = word_end(cs, v0, b);
    proof {
        let t = trim_start(cs@.subrange(k1 as int, b as int));
        assert(t == cs@.subrange(v0 as int, b as int));
        assert(t.take(word_len(t) as int) =~= cs@.subrange(v0 as int, v1 as int));
    }
    Some(((k0, k1), (v0, v1)))
}

/// The end of `cs[a..b]` without its trailing semicolons.
fn trim_semicolons_at(cs: &Vec<char>, a: usize, b: usize) -> (r: usize)
    requires
        a <= b <= cs@.len(),
    ensures
        a <= r <= b,
        cs@.subrange(a as int, r as int) == trim_semicolons(cs@.subrange(a as int, b as int)),
{
    let mut j = b;
    while j > a && cs[j - 1] == ';'
        invariant
            a <= j <= b <= cs@.len(),
            trim_semicolons(cs@.subrange(a as int, b as int)) == trim_semicolons(cs@.subrange(a as int, j as int)),
        decreases j - a,
    {
        assert(cs@.subrange(a as int, j as int).drop_last() =~= cs@.subrange(a as int, j - 1));
        assert(cs@.subrange(a as int, j as int).last() == cs@[j - 1]);
        j = j - 1;
    }
    proof {
        if j > a {
            assert(cs@.subrange(a as int, j as int).last() == cs@[j - 1]);
        }
    }
    j
}

/// Whether `cs[a..b]` starts with `@define-color `.
fn has_define_color_prefix(cs: &Vec<char>, a: usize, b: usize) -> (r: bool)
    requires
        a <= b <= cs@.len(),
    ensures
        r == (b - a >= define_color_prefix().len() && cs@.subrange(a as int, b as int).take(
            define_color_prefix().len() as int,
        ) == define_color_prefix()),
{
    let p = chars_of("@define-color ");
    proof {
        reveal_strlit("@define-color ");
    }
    if b - a < p.len() {
        return false;
    }
    let mut i: usize = 0;
    while i < p.len()
        invariant
            p@ == define_color_prefix(),
            a + p@.len() <= b <= cs@.len(),
            i <= p@.len(),
            forall|q: int| 0 <= q < i ==> cs@[a + q] == p@[q],
        decreases p@.len() - i,
    {
        if cs[a + i] != p[i] {
            assert(cs@.subrange(a as int, b as int).take(p@.len() as int)[i as int] == cs@[a + i]);
            return false;
        }
        i = i + 1;
    }
    assert(cs@.subrange(a as int, b as int).take(p@.len() as int) =~= p@);
    true
}

/// The entry of the line `cs[a..b]` of `content` (whose characters are `cs`).
fn parse_line(content: &str, cs: &Vec<char>, a: usize, b: usize, format: &ColorFormat) -> (r: Option<
    (String, String),
>)
    requires
        cs@ == content@,
        a <= b <= cs@.len(),
    ensures
        match r {
            Some((k, v)) => line_entry(cs@.subrange(a as int, b as int), *format) == Some((k@, v@)),
            None => line_entry(cs@.subrange(a as int, b as int), *format) is None,
        },
{
    let ghost line = cs@.subrange(a as int, b as int);
    let t0 = skip_white(cs, a, b);
    let t1 = trim_end_at(cs, t0, b);
    proof {
        assert(cs@.subrange(t0 as int, b as int) == trim_start(line));
        assert(trimmed(line) == cs@.subrange(t0 as int, t1 as int));
    }
    match format {
        ColorFormat::KeyValue => {
            if t0 == t1 || cs[t0] == '#' {
                proof {
                    if t0 < t1 {
                        assert(cs@.subrange(t0 as int, t1 as int)[0] == cs@[t0 as int]);
                    }
                }
                return None;
            }
            proof {
                assert(cs@.subrange(t0 as int, t1 as int)[0] == cs@[t0 as int]);
            }
            match two_words(cs, t0, t1) {
                None => None,
                Some(((k0, k1), (v0, v1))) => {
                    if v1 > v0 && cs[v0] == '#' {
                        assert(cs@.subrange(v0 as int, v1 as int)[0] == cs@[v0 as int]);
                        Some((text_between(content, k0, k1), text_between(content, v0, v1)))
                    } else {
                        proof {
                            if v1 > v0 {
                                assert(cs@.subrange(v0 as int, v1 as int)[0] == cs@[v0 as int]);
                            }
                        }
                        None
                    }
                },
            }
        },
        ColorFormat::DefineColor => {
            if !has_define_color_prefix(cs, t0, t1) {
                return None;
            }
            proof {
                reveal_strlit("@define-color ");
                assert(cs@.subrange(t0 as int, t1 as int).skip(14) =~= cs@.subrange(t0 + 14, t1 as int));
            }
            match two_words(cs, t0 + 14, t1) {
                None => None,
                Some(((n0, n1), (v0, v1))) => {
                    let w1 = trim_semicolons_at(cs, v0, v1);
                    if w1 > v0 && cs[v0] == '#' {
                        assert(cs@.subrange(v0 as int, w1 as int)[0] == cs@[v0 as int]);
                        Some((text_between(content, n0, n1), text_between(content, v0, w1)))
                    } else {
                        proof {
                            if w1 > v0 {
                                assert(cs@.subrange(v0 as int, w1 as int)[0] == cs@[v0 as int]);
                            }
                        }
                        None
                    }
                },
            }
        },
    }
}

/// The colour settings of a file's text, line by line; a name given twice
/// appears twice (the later one counts, see `color_lookup`).
fn parse_colors(content: &str, format: &ColorFormat) -> (r: Vec<(String, String)>)
    ensures
        pairs_view(r@) == color_pairs(content@, *format),
{
    let cs = chars_of(content);
    let n = cs.len();
    let mut out: Vec<(String, String)> = Vec::new();
    let mut start: usize = 0;
    proof {
        assert(cs@.skip(0) =~= cs@);
    }
    while start < n
        invariant
            cs@ == content@,
            n == cs@.len(),
            start <= n,
            pairs_view(out@) + entries(lines_of(cs@.skip(start as int)), *format) == color_pairs(
                content@,
                *format,
            ),
        decreases n - start,
    {
        let ghost rest = cs@.skip(start as int);
        let mut i = start;
        while i < n && cs[i] != '\n'
            invariant
                cs@ == content@,
                n == cs@.len(),
                start <= i <= n,
                rest == cs@.skip(start as int),
                newline_pos(rest) == (i - start) + newline_pos(cs@.skip(i as int)),
            decreases n - i,
        {
            assert(cs@.skip(i as int).drop_first() =~= cs@.skip(i + 1));
            assert(cs@.skip(i as int)[0] == cs@[i as int]);
            i = i + 1;
        }
        proof {
            if i < n {
                assert(cs@.skip(i as int)[0] == cs@[i as int]);
            }
            assert(newline_pos(rest) == i - start);
        }
        let line_end = if i > start && i < n && cs[i - 1] == '\r' { i - 1 } else { i };
        proof {
            let k = i - start;
            assert(rest.take(k as int) =~= cs@.subrange(start as int, i as int));
            if i < n {
                if i > start && cs@[i - 1] == '\r' {
                    assert(cs@.subrange(start as int, i as int).last() == cs@[i - 1]);
                    assert(without_cr(rest.take(k as int)) =~= cs@.subrange(start as int, line_end as int));
                } else {
                    assert(without_cr(rest.take(k as int)) =~= cs@.subrange(start as int, line_end as int));
                }
                assert(rest.skip(k + 1) =~= cs@.skip(i + 1));
                assert(lines_of(rest) == seq![cs@.subrange(start as int, line_end as int)] + lines_of(cs@.skip(i + 1)));
            } else {
                assert(rest =~= cs@.subrange(start as int, n as int));
                assert(lines_of(rest) == seq![cs@.subrange(start as int, line_end as int)]);
            }
        }
        let ghost lines = lines_of(rest);
        let ghost before = pairs_view(out@);
        match parse_line(content, &cs, start, line_end, format) {
            Some(e) => {
                out.push(e);
                assert(pairs_view(out@) =~= before.push((e.0@, e.1@)));
            },
            None => {},
        }
        proof {
            assert(lines.drop_first() =~= if i < n { lines_of(cs@.skip(i + 1)) } else { seq![] });
            if i < n {
            } else {
                assert(cs@.skip(n as int) =~= Seq::<char>::empty());
            }
        }
        start = if i < n { i + 1 } else { n };
        proof {
            assert(pairs_view(out@) + entries(lines_of(cs@.skip(start as int)), *format) =~= before + entries(lines, *format));
        }
    }
    proof {
        assert(cs@.skip(n as int) =~= Seq::<char>::empty());
        assert(pairs_view(out@) =~= pairs_view(out@) + entries(lines_of(cs@.skip(n as int)), *format));
    }
    out
}

/// No name is set twice in `pairs`.
pub open spec fn keys_distinct(pairs: Seq<ColorPair>) -> bool {
    forall|i: int, j: int| 0 <= i < j < pairs.len() ==> (#[trigger] pairs[i]).0 != (#[trigger] pairs[j]).0
}

/// The settings as a map from name to value: each name once, where it was
/// first set, with the value it was last set to.
pub open spec fn merged(pairs: Seq<ColorPair>) -> Seq<ColorPair>
    decreases pairs.len(),
{
    if pairs.len() == 0 {
        seq![]
    } else {
        let m = merged(pairs.drop_last());
        let p = pairs.last();
        if exists|i: int| 0 <= i < m.len() && (#[trigger] m[i]).0 == p.0 {
            m.update(choose|i: int| 0 <= i < m.len() && (#[trigger] m[i]).0 == p.0, p)
        } else {
            m.push(p)
        }
    }
}

/// In settings without a name given twice, a name's value is that of its
/// one setting.
proof fn lemma_lookup_distinct(m: Seq<ColorPair>, k: Seq<char>)
    requires
        keys_distinct(m),
    ensures
        forall|i: int| 0 <= i < m.len() && (#[trigger] m[i]).0 == k ==> color_lookup(m, k) == Some(m[i].1),
        (forall|i: int| 0 <= i < m.len() ==> (#[trigger] m[i]).0 != k) ==> color_lookup(m, k) is None,
    decreases m.len(),
{
    if m.len() > 0 {
        let d = m.drop_last();
        assert forall|i: int, j: int| 0 <= i < j < d.len() implies (#[trigger] d[i]).0 != (#[trigger] d[j]).0 by {
            assert(d[i] == m[i] && d[j] == m[j]);
        }
        lemma_lookup_distinct(d, k);
        assert forall|i: int| 0 <= i < m.len() && (#[trigger] m[i]).0 == k implies color_lookup(m, k) == Some(
            m[i].1,
        ) by {
            if i < m.len() - 1 {
                assert(m[i] == d[i]);
                assert(m.last() == m[m.len() - 1]);
            }
        }
        if forall|i: int| 0 <= i < m.len() ==> (#[trigger] m[i]).0 != k {
            assert(m.last() == m[m.len() - 1]);
            assert forall|i: int| 0 <= i < d.len() implies (#[trigger] d[i]).0 != k by {
                assert(d[i] == m[i]);
            }
        }
    }
}

/// The merged settings give each name once, and for every name the value
/// that the last of its settings gives.
pub proof fn lemma_merged(pairs: Seq<ColorPair>)
    ensures
        keys_distinct(merged(pairs)),
        forall|k: Seq<char>| #[trigger] color_lookup(merged(pairs), k) == color_lookup(pairs, k),
    decreases pairs.len(),
{
    if pairs.len() > 0 {
        let d = pairs.drop_last();
        let m = merged(d);
        let p = pairs.last();
        lemma_merged(d);
        let r = merged(pairs);
        if exists|i: int| 0 <= i < m.len() && (#[trigger] m[i]).0 == p.0 {
            let c = choose|i: int| 0 <= i < m.len() && (#[trigger] m[i]).0 == p.0;
            assert(r == m.update(c, p));
            assert forall|i: int, j: int| 0 <= i < j < r.len() implies (#[trigger] r[i]).0 != (#[trigger] r[j]).0 by {
                if i != c && j != c {
                    assert(r[i] == m[i] && r[j] == m[j]);
                } else if i == c {
                    assert(r[j] == m[j]);
                } else {
                    assert(r[i] == m[i]);
                }
            }
            assert forall|k: Seq<char>| #[trigger] color_lookup(r, k) == color_lookup(pairs, k) by {
                lemma_lookup_distinct(m, k);
                lemma_lookup_distinct(r, k);
                assert(r[c] == p);
                if k != p.0 {
                    assert(color_lookup(m, k) == color_lookup(d, k));
                    if exists|i: int| 0 <= i < m.len() && (#[trigger] m[i]).0 == k {
                        let w = choose|i: int| 0 <= i < m.len() && (#[trigger] m[i]).0 == k;
                        assert(r[w] == m[w]);
                    } else {
                        assert forall|i: int| 0 <= i < r.len() implies (#[trigger] r[i]).0 != k by {
                            if i != c {
                                assert(r[i] == m[i]);
                            }
                        }
                    }
                }
            }
        } else {
            assert(r == m.push(p));
            assert forall|i: int, j: int| 0 <= i < j < r.len() implies (#[trigger] r[i]).0 != (#[trigger] r[j]).0 by {
                if j < m.len() {
                    assert(r[i] == m[i] && r[j] == m[j]);
                } else {
                    assert(r[i] == m[i]);
                }
            }
            assert forall|k: Seq<char>| #[trigger] color_lookup(r, k) == color_lookup(pairs, k) by {
                lemma_lookup_distinct(m, k);
                lemma_lookup_distinct(r, k);
                assert(r[m.len() as int] == p);
                if k != p.0 {
                    assert(color_lookup(m, k) == color_lookup(d, k));
                    if exists|i: int| 0 <= i < m.len() && (#[trigger] m[i]).0 == k {
                        let w = choose|i: int| 0 <= i < m.len() && (#[trigger] m[i]).0 == k;
                        assert(r[w] == m[w]);
                    } else {
                        assert forall|i: int| 0 <= i < r.len() implies (#[trigger] r[i]).0 != k by {
                            if i < m.len() {
                                assert(r[i] == m[i]);
                            }
                        }
                    }
                }
            }
        }
    }
}

/// The settings of `all` gathered by name, as `merged` says.
fn merge_pairs(all: &Vec<(String, String)>) -> (r: Vec<(String, String)>)
    ensures
        pairs_view(r@) == merged(pairs_view(all@)),
{
    let ghost av = pairs_view(all@);
    let mut out: Vec<(String, String)> = Vec::new();
    let mut i: usize = 0;
    proof {
        assert(av.take(0) =~= Seq::<ColorPair>::empty());
    }
    while i < all.len()
        invariant
            av == pairs_view(all@),
            i <= all@.len(),
            pairs_view(out@) == merged(av.take(i as int)),
        decreases all@.len() - i,
    {
        let ghost m = pairs_view(out@);
        let ghost p = av[i as int];
        proof {
            assert(av.take(i + 1).drop_last() =~= av.take(i as int));
            assert(av.take(i + 1).last() == p);
            assert(p == (all@[i as int].0@, all@[i as int].1@));
        }
        let mut j: usize = 0;
        let mut found = false;
        while j < out.len()
            invariant
                m == pairs_view(out@),
                p == (all@[i as int].0@, all@[i as int].1@),
                i < all@.len(),
                j <= out@.len(),
                found ==> j < out@.len() && m[j as int].0 == p.0,
                !found ==> forall|q: int| 0 <= q < j ==> (#[trigger] m[q]).0 != p.0,
            ensures
                found ==> j < out@.len() && m[j as int].0 == p.0,
                !found ==> forall|q: int| 0 <= q < m.len() ==> (#[trigger] m[q]).0 != p.0,
            decreases out@.len() - j,
        {
            if out[j].0 == all[i].0 {
                found = true;
                break;
            }
            j = j + 1;
        }
        let entry = (all[i].0.clone(), all[i].1.clone());
        proof {
            lemma_merged(av.take(i as int));
        }
        if found {
            proof {
                assert(exists|q: int| 0 <= q < m.len() && (#[trigger] m[q]).0 == p.0) by {
                    assert(m[j as int].0 == p.0);
                }
                let c = choose|q: int| 0 <= q < m.len() && (#[trigger] m[q]).0 == p.0;
                if c != j {
                    if c < j {
                        assert(m[c].0 != m[j as int].0);
                    } else {
                        assert(m[j as int].0 != m[c].0);
                    }
                }
                assert(c == j);
                assert(merged(av.take(i + 1)) == m.update(j as int, p));
            }
            out.set(j, entry);
            proof {
                assert(pairs_view(out@) =~= m.update(j as int, p));
            }
        } else {
            proof {
                assert(!exists|q: int| 0 <= q < m.len() && (#[trigger] m[q]).0 == p.0);
                assert(merged(av.take(i + 1)) == m.push(p));
            }
            out.push(entry);
            proof {
                assert(pairs_view(out@) =~= m.push(p));
            }
        }
        i = i + 1;
    }
    proof {
        assert(av.take(i as int) =~= av);
    }
    out
}

/// The colour settings of a kitty theme (`key value` lines; comment lines
/// start with `#`; only values that start with `#` are kept), one per name:
/// a name set twice keeps its first place and takes its last value.
pub fn parse_key_value_colors(content: &str) -> (r: Vec<(String, String)>)
    ensures
        pairs_view(r@) == merged(color_pairs(content@, ColorFormat::KeyValue)),
        keys_distinct(pairs_view(r@)),
        forall|k: Seq<char>|
            #[trigger] color_lookup(pairs_view(r@), k) == color_lookup(color_pairs(content@, ColorFormat::KeyValue), k),
{
    proof {
        lemma_merged(color_pairs(content@, ColorFormat::KeyValue));
    }
    merge_pairs(&parse_colors(content, &ColorFormat::KeyValue))
}

/// The colour definitions of a GTK stylesheet (`@define-color name value;`
/// lines; only values that start with `#` are kept), one per name: a name
/// defined twice keeps its first place and takes its last value.
pub fn parse_define_color_map(content: &str) -> (r: Vec<(String, String)>)
    ensures
        pairs_view(r@) == merged(color_pairs(content@, ColorFormat::DefineColor)),
        keys_distinct(pairs_view(r@)),
        forall|k: Seq<char>|
            #[trigger] color_lookup(pairs_view(r@), k) == color_lookup(
                color_pairs(content@, ColorFormat::DefineColor),
                k,
            ),
{
    proof {
        lemma_merged(color_pairs(content@, ColorFormat::DefineColor));
    }
    merge_pairs(&parse_colors(content, &ColorFormat::DefineColor))
}

/// The value of the last setting named `key` (a later setting replaces an
/// earlier one), if any.
pub open spec fn color_lookup(pairs: Seq<ColorPair>, key: Seq<char>) -> Option<Seq<char>>
    decreases pairs.len(),
{
    if pairs.len() == 0 {
        None
    } else if pairs.last().0 == key {
        Some(pairs.last().1)
    } else {
        color_lookup(pairs.drop_last(), key)
    }
}

/// The value of the first of `keys` that is set.
pub open spec fn first_set(pairs: Seq<ColorPair>, keys: Seq<Seq<char>>) -> Option<Seq<char>>
    decreases keys.len(),
{
    if keys.len() == 0 {
        None
    } else {
        match color_lookup(pairs, keys[0]) {
            Some(v) => Some(v),
            None => first_set(pairs, keys.drop_first()),
        }
    }
}

/// The value of the last setting named `key`.
fn lookup(pairs: &Vec<(String, String)>, key: &str) -> (r: Option<String>)
    ensures
        match r {
            Some(v) => color_lookup(pairs_view(pairs@), key@) == Some(v@),
            None => color_lookup(pairs_view(pairs@), key@) is None,
        },
{
    let ghost pv = pairs_view(pairs@);
    let k = String::from_str(key);
    let mut i = pairs.len();
    proof {
        assert(pv.take(i as int) =~= pv);
    }
    while i > 0
        invariant
            pv == pairs_view(pairs@),
            k@ == key@,
            i <= pairs@.len(),
            color_lookup(pv, key@) == color_lookup(pv.take(i as int), key@),
        decreases i,
    {
        proof {
            assert(pv.take(i as int).last() == pv[i - 1]);
            assert(pv.take(i as int).drop_last() =~= pv.take(i - 1));
        }
        if pairs[i - 1].0 == k {
            return Some(pairs[i - 1].1.clone());
        }
        i = i - 1;
    }
    None
}

/// Colours taken from the desktop's theme; each may be missing.
pub struct DerivedThemeColors {
    pub sidebar_bg: Option<String>,
    pub sidebar_fg: Option<String>,
    pub editor_bg: Option<String>,
    pub highlight: Option<String>,
}

pub open spec fn opt_view(o: Option<String>) -> Option<Seq<char>> {
    match o {
        Some(s) => Some(s@),
        None => None,
    }
}

/// The four colours as text.
pub open spec fn theme_view(d: DerivedThemeColors) -> (
    Option<Seq<char>>,
    Option<Seq<char>>,
    Option<Seq<char>>,
    Option<Seq<char>>,
) {
    (opt_view(d.sidebar_bg), opt_view(d.sidebar_fg), opt_view(d.editor_bg), opt_view(d.highlight))
}

/// The colours a kitty theme gives: the sidebar background from the
/// inactive tab background, the tab bar background or colour 18; the
/// sidebar foreground from the foreground or the active tab foreground;
/// the editor background from the background; the highlight from the
/// selection background or the active border colour.
pub open spec fn kitty_colors(pairs: Seq<ColorPair>) -> (
    Option<Seq<char>>,
    Option<Seq<char>>,
    Option<Seq<char>>,
    Option<Seq<char>>,
) {
    (
        first_set(pairs, seq!["inactive_tab_background"@, "tab_bar_background"@, "color18"@]),
        first_set(pairs, seq!["foreground"@, "active_tab_foreground"@]),
        first_set(pairs, seq!["background"@]),
        first_set(pairs, seq!["selection_background"@, "active_border_color"@]),
    )
}

/// The colours a GTK stylesheet gives: the sidebar background from
/// `sidebar_bg_color`; the sidebar foreground from `sidebar_fg_color` or
/// `window_fg_color`; the editor background from `view_bg_color` or
/// `window_bg_color`; the highlight from `accent_bg_color` or `accent_color`.
pub open spec fn gtk_colors(pairs: Seq<ColorPair>) -> (
    Option<Seq<char>>,
    Option<Seq<char>>,
    Option<Seq<char>>,
    Option<Seq<char>>,
) {
    (
        first_set(pairs, seq!["sidebar_bg_color"@]),
        first_set(pairs, seq!["sidebar_fg_color"@, "window_fg_color"@]),
        first_set(pairs, seq!["view_bg_color"@, "window_bg_color"@]),
        first_set(pairs, seq!["accent_bg_color"@, "accent_color"@]),
    )
}

/// Settings that give every name the same value give the same first set
/// value of any keys.
proof fn lemma_first_set_same(a: Seq<ColorPair>, b: Seq<ColorPair>, keys: Seq<Seq<char>>)
    requires
        forall|k: Seq<char>| #[trigger] color_lookup(a, k) == color_lookup(b, k),
    ensures
        first_set(a, keys) == first_set(b, keys),
    decreases keys.len(),
{
    if keys.len() > 0 {
        assert(color_lookup(a, keys[0]) == color_lookup(b, keys[0]));
        lemma_first_set_same(a, b, keys.drop_first());
    }
}

/// The first of two keys that is set.
fn lookup_either(pairs: &Vec<(String, String)>, a: &str, b: &str) -> (r: Option<String>)
    ensures
        opt_view(r) == first_set(pairs_view(pairs@), seq![a@, b@]),
{
    proof {
        reveal_with_fuel(first_set, 3);
        assert(seq![a@, b@].drop_first() =~= seq![b@]);
        assert(seq![b@].drop_first() =~= Seq::<Seq<char>>::empty());
    }
    match lookup(pairs, a) {
        Some(v) => Some(v),
        None => lookup(pairs, b),
    }
}

/// The value of one key, as `first_set` of a single key.
fn lookup_one(pairs: &Vec<(String, String)>, a: &str) -> (r: Option<String>)
    ensures
        opt_view(r) == first_set(pairs_view(pairs@), seq![a@]),
{
    proof {
        reveal_with_fuel(first_set, 2);
        assert(seq![a@].drop_first() =~= Seq::<Seq<char>>::empty());
    }
    lookup(pairs, a)
}

/// The colours of a kitty theme file's text.
pub fn load_kitty_theme_colors(content: &str) -> (d: DerivedThemeColors)
    ensures
        theme_view(d) == kitty_colors(color_pairs(content@, ColorFormat::KeyValue)),
{
    let map = parse_key_value_colors(content);
    proof {
        let a = pairs_view(map@);
        let b = color_pairs(content@, ColorFormat::KeyValue);
        lemma_first_set_same(a, b, seq!["inactive_tab_background"@, "tab_bar_background"@, "color18"@]);
        lemma_first_set_same(a, b, seq!["foreground"@, "active_tab_foreground"@]);
        lemma_first_set_same(a, b, seq!["background"@]);
        lemma_first_set_same(a, b, seq!["selection_background"@, "active_border_color"@]);
    }
    let sidebar_bg = match lookup(&map, "inactive_tab_background") {
        Some(v) => Some(v),
        None => lookup_either(&map, "tab_bar_background", "color18"),
    };
    proof {
        let ks = seq!["inactive_tab_background"@, "tab_bar_background"@, "color18"@];
        assert(ks.drop_first() =~= seq!["tab_bar_background"@, "color18"@]);
    }
    DerivedThemeColors {
        sidebar_bg,
        sidebar_fg: lookup_either(&map, "foreground", "active_tab_foreground"),
        editor_bg: lookup_one(&map, "background"),
        highlight: lookup_either(&map, "selection_background", "active_border_color"),
    }
}

/// The colours of a GTK stylesheet's text.
pub fn load_gtk_theme_colors(content: &str) -> (d: DerivedThemeColors)
    ensures
        theme_view(d) == gtk_colors(color_pairs(content@, ColorFormat::DefineColor)),
{
    let map = parse_define_color_map(content);
    proof {
        let a = pairs_view(map@);
        let b = color_pairs(content@, ColorFormat::DefineColor);
        lemma_first_set_same(a, b, seq!["sidebar_bg_color"@]);
        lemma_first_set_same(a, b, seq!["sidebar_fg_color"@, "window_fg_color"@]);
        lemma_first_set_same(a, b, seq!["view_bg_color"@, "window_bg_color"@]);
        lemma_first_set_same(a, b, seq!["accent_bg_color"@, "accent_color"@]);
    }
    DerivedThemeColors {
        sidebar_bg: lookup_one(&map, "sidebar_bg_color"),
        sidebar_fg: lookup_either(&map, "sidebar_fg_color", "window_fg_color"),
        editor_bg: lookup_either(&map, "view_bg_color", "window_bg_color"),
        highlight: lookup_either(&map, "accent_bg_color", "accent_color"),
    }
}

/// The desktop's colours: those of the kitty theme when its file could be
/// read, else those of the GTK stylesheet when its file could be read,
/// else none.  The arguments are the files' texts.
pub fn load_system_theme_colors(kitty: Option<&str>, gtk: Option<&str>) -> (d: DerivedThemeColors)
    ensures
        theme_view(d) == match kitty {
            Some(k) => kitty_colors(color_pairs(k@, ColorFormat::KeyValue)),
            None => match gtk {
                Some(g) => gtk_colors(color_pairs(g@, ColorFormat::DefineColor)),
                None => (None, None, None, None),
            },
        },
{
    match kitty {
        Some(k) => load_kitty_theme_colors(k),
        None => match gtk {
            Some(g) => load_gtk_theme_colors(g),
            None => DerivedThemeColors { sidebar_bg: None, sidebar_fg: None, editor_bg: None, highlight: None },
        },
    }
}

/// The colours of a kitty theme follow the keys in order of preference:
/// the sidebar background is the inactive tab background when the theme
/// sets it, else the tab bar background, else colour 18; the sidebar
/// foreground is the foreground when set, else the active tab foreground;
/// the editor background is the background; the highlight is the selection
/// background when set, else the active border colour.  Each is the value
/// last set for its key.
pub proof fn lemma_kitty_color_priority(content: Seq<char>, d: DerivedThemeColors)
    requires
        theme_view(d) == kitty_colors(color_pairs(content, ColorFormat::KeyValue)),
    ensures
        ({
            let p = color_pairs(content, ColorFormat::KeyValue);
            &&& opt_view(d.sidebar_bg) == match color_lookup(p, "inactive_tab_background"@) {
                Some(v) => Some(v),
                None => match color_lookup(p, "tab_bar_background"@) {
                    Some(v) => Some(v),
                    None => color_lookup(p, "color18"@),
                },
            }
            &&& opt_view(d.sidebar_fg) == match color_lookup(p, "foreground"@) {
                Some(v) => Some(v),
                None => color_lookup(p, "active_tab_foreground"@),
            }
            &&& opt_view(d.editor_bg) == color_lookup(p, "background"@)
            &&& opt_view(d.highlight) == match color_lookup(p, "selection_background"@) {
                Some(v) => Some(v),
                None => color_lookup(p, "active_border_color"@),
            }
        }),
{
    reveal_with_fuel(first_set, 4);
    let a = seq!["inactive_tab_background"@, "tab_bar_background"@, "color18"@];
    assert(a.drop_first() =~= seq!["tab_bar_background"@, "color18"@]);
    assert(a.drop_first().drop_first() =~= seq!["color18"@]);
    assert(a.drop_first().drop_first().drop_first() =~= Seq::<Seq<char>>::empty());
    let b = seq!["foreground"@, "active_tab_foreground"@];
    assert(b.drop_first() =~= seq!["active_tab_foreground"@]);
    assert(b.drop_first().drop_first() =~= Seq::<Seq<char>>::empty());
    let c = seq!["background"@];
    assert(c.drop_first() =~= Seq::<Seq<char>>::empty());
    let h = seq!["selection_background"@, "active_border_color"@];
    assert(h.drop_first() =~= seq!["active_border_color"@]);
    assert(h.drop_first().drop_first() =~= Seq::<Seq<char>>::empty());
}

/// The colours of a GTK stylesheet follow the names in order of
/// preference: the sidebar background is `sidebar_bg_color`; the sidebar
/// foreground is `sidebar_fg_color` when defined, else `window_fg_color`;
/// the editor background is `view_bg_color` when defined, else
/// `window_bg_color`; the highlight is `accent_bg_color` when defined, else
/// `accent_color`.  Each is the value last defined for its name.
pub proof fn lemma_gtk_color_priority(content: Seq<char>, d: DerivedThemeColors)
    requires
        theme_view(d) == gtk_colors(color_pairs(content, ColorFormat::DefineColor)),
    ensures
        ({
            let p = color_pairs(content, ColorFormat::DefineColor);
            &&& opt_view(d.sidebar_bg) == color_lookup(p, "sidebar_bg_color"@)
            &&& opt_view(d.sidebar_fg) == match color_lookup(p, "sidebar_fg_color"@) {
                Some(v) => Some(v),
                None => color_lookup(p, "window_fg_color"@),
            }
            &&& opt_view(d.editor_bg) == match color_lookup(p, "view_bg_color"@) {
                Some(v) => Some(v),
                None => color_lookup(p, "window_bg_color"@),
            }
            &&& opt_view(d.highlight) == match color_lookup(p, "accent_bg_color"@) {
                Some(v) => Some(v),
                None => color_lookup(p, "accent_color"@),
            }
        }),
{
    reveal_with_fuel(first_set, 3);
    let a = seq!["sidebar_bg_color"@];
    assert(a.drop_first() =~= Seq::<Seq<char>>::empty());
    let b = seq!["sidebar_fg_color"@, "window_fg_color"@];
    assert(b.drop_first() =~= seq!["window_fg_color"@]);
    assert(b.drop_first().drop_first() =~= Seq::<Seq<char>>::empty());
    let c = seq!["view_bg_color"@, "window_bg_color"@];
    assert(c.drop_first() =~= seq!["window_bg_color"@]);
    assert(c.drop_first().drop_first() =~= Seq::<Seq<char>>::empty());
    let h = seq!["accent_bg_color"@, "accent_color"@];
    assert(h.drop_first() =~= seq!["accent_color"@]);
    assert(h.drop_first().drop_first() =~= Seq::<Seq<char>>::empty());
}

/// The value a setting list gives a name is the one of its last setting:
/// there is such a setting, and no later one names it.
pub proof fn lemma_color_lookup_last(pairs: Seq<ColorPair>, key: Seq<char>)
    ensures
        color_lookup(pairs, key) matches Some(v) ==> exists|i: int|
            0 <= i < pairs.len() && #[trigger] pairs[i] == (key, v) && forall|j: int|
                i < j < pairs.len() ==> (#[trigger] pairs[j]).0 != key,
        color_lookup(pairs, key) is None ==> forall|i: int| 0 <= i < pairs.len() ==> (#[trigger] pairs[i]).0 != key,
    decreases pairs.len(),
{
    if pairs.len() > 0 {
        let d = pairs.drop_last();
        lemma_color_lookup_last(d, key);
        if pairs.last().0 == key {
            let i = pairs.len() - 1;
            assert(pairs[i] == (key, pairs.last().1));
        } else {
            if color_lookup(d, key) is Some {
                let v = color_lookup(d, key)->0;
                let i = choose|i: int|
                    0 <= i < d.len() && #[trigger] d[i] == (key, v) && forall|j: int| i < j < d.len() ==> (#[trigger] d[j]).0 != key;
                assert(pairs[i] == d[i]);
                assert forall|j: int| i < j < pairs.len() implies (#[trigger] pairs[j]).0 != key by {
                    if j < d.len() {
                        assert(pairs[j] == d[j]);
                    }
                }
            } else {
                assert forall|i: int| 0 <= i < pairs.len() implies (#[trigger] pairs[i]).0 != key by {
                    if i < d.len() {
                        assert(pairs[i] == d[i]);
                    }
                }
            }
        }
    }
}

/// The whole configuration.
pub struct Config {
    pub appearance: AppearanceConfig,
    pub behavior: BehaviorConfig,
}

/// Theme and colours.
pub struct AppearanceConfig {
    pub theme: String,
    /// Syntax highlighting theme for the editor: `r3bl`, `ayu-light` or
    /// `ayu-mirage`.
    pub syntax_theme: String,
    pub colors: ColorConfig,
}

/// The colours of the panes, as `#rrggbb` texts.
pub struct ColorConfig {
    pub sidebar_bg: String,
    pub sidebar_fg: String,
    pub editor_bg: String,
    pub highlight: String,
}

/// How the tree behaves.
pub struct BehaviorConfig {
    pub show_hidden: bool,
    pub follow_symlinks: bool,
    pub sidebar_width: u8,
}

/// A desktop colour, or the given fallback when the desktop has none.
pub open spec fn color_or(c: Option<String>, fallback: Seq<char>) -> Seq<char> {
    match c {
        Some(v) => v@,
        None => fallback,
    }
}

fn or_fallback(c: &Option<String>, fallback: &str) -> (r: String)
    ensures
        r@ == color_or(*c, fallback@),
{
    match c {
        Some(v) => v.clone(),
        None => String::from_str(fallback),
    }
}

pub fn default_theme() -> (r: String)
    ensures
        r@ == "dark"@,
{
    String::from_str("dark")
}

/// The default syntax theme, one of the supported `r3bl`, `ayu-light` and
/// `ayu-mirage`.
pub fn default_syntax_theme() -> (r: String)
    ensures
        r@ == "r3bl"@,
{
    String::from_str("r3bl")
}

/// The sidebar background: the desktop's, or `#1e1e2e`.
pub fn default_sidebar_bg(system: &DerivedThemeColors) -> (r: String)
    ensures
        r@ == color_or(system.sidebar_bg, "#1e1e2e"@),
{
    or_fallback(&system.sidebar_bg, "#1e1e2e")
}

/// The sidebar foreground: the desktop's, or `#cdd6f4`.
pub fn default_sidebar_fg(system: &DerivedThemeColors) -> (r: String)
    ensures
        r@ == color_or(system.sidebar_fg, "#cdd6f4"@),
{
    or_fallback(&system.sidebar_fg, "#cdd6f4")
}

/// The editor background: the desktop's, or `#1e1e2e`.
pub fn default_editor_bg(system: &DerivedThemeColors) -> (r: String)
    ensures
        r@ == color_or(system.editor_bg, "#1e1e2e"@),
{
    or_fallback(&system.editor_bg, "#1e1e2e")
}

/// The highlight: the desktop's, or `#45475a`.
pub fn default_highlight(system: &DerivedThemeColors) -> (r: String)
    ensures
        r@ == color_or(system.highlight, "#45475a"@),
{
    or_fallback(&system.highlight, "#45475a")
}

pub fn default_sidebar_width() -> (r: u8)
    ensures
        r == 25,
{
    25
}

impl ColorConfig {
    /// The default colours, from the desktop's where it has them.
    pub fn from_system(system: &DerivedThemeColors) -> (c: ColorConfig)
        ensures
            c.sidebar_bg@ == color_or(system.sidebar_bg, "#1e1e2e"@),
            c.sidebar_fg@ == color_or(system.sidebar_fg, "#cdd6f4"@),
            c.editor_bg@ == color_or(system.editor_bg, "#1e1e2e"@),
            c.highlight@ == color_or(system.highlight, "#45475a"@),
    {
        ColorConfig {
            sidebar_bg: default_sidebar_bg(system),
            sidebar_fg: default_sidebar_fg(system),
            editor_bg: default_editor_bg(system),
            highlight: default_highlight(system),
        }
    }
}

impl AppearanceConfig {
    /// The default appearance: the dark theme, the `r3bl` syntax theme and
    /// the default colours.
    pub fn from_system(system: &DerivedThemeColors) -> (a: AppearanceConfig)
        ensures
            a.theme@ == "dark"@,
            a.syntax_theme@ == "r3bl"@,
            a.colors.sidebar_bg@ == color_or(system.sidebar_bg, "#1e1e2e"@),
            a.colors.sidebar_fg@ == color_or(system.sidebar_fg, "#cdd6f4"@),
            a.colors.editor_bg@ == color_or(system.editor_bg, "#1e1e2e"@),
            a.colors.highlight@ == color_or(system.highlight, "#45475a"@),
    {
        AppearanceConfig {
            theme: default_theme(),
            syntax_theme: default_syntax_theme(),
            colors: ColorConfig::from_system(system),
        }
    }
}

impl Default for BehaviorConfig {
    /// Hidden entries and symbolic links not shown, a sidebar 25 wide.
    fn default() -> (b: BehaviorConfig)
        ensures
            !b.show_hidden,
            !b.follow_symlinks,
            b.sidebar_width == 25,
    {
        BehaviorConfig { show_hidden: false, follow_symlinks: false, sidebar_width: default_sidebar_width() }
    }
}

impl Config {
    /// The default configuration, with the desktop's colours where it has them.
    pub fn from_system(system: &DerivedThemeColors) -> (c: Config)
        ensures
            c.appearance.theme@ == "dark"@,
            c.appearance.syntax_theme@ == "r3bl"@,
            c.appearance.colors.sidebar_bg@ == color_or(system.sidebar_bg, "#1e1e2e"@),
            c.appearance.colors.sidebar_fg@ == color_or(system.sidebar_fg, "#cdd6f4"@),
            c.appearance.colors.editor_bg@ == color_or(system.editor_bg, "#1e1e2e"@),
            c.appearance.colors.highlight@ == color_or(system.highlight, "#45475a"@),
            !c.behavior.show_hidden,
            !c.behavior.follow_symlinks,
            c.behavior.sidebar_width == 25,
    {
        Config { appearance: AppearanceConfig::from_system(system), behavior: BehaviorConfig::default() }
    }
}

proof fn lemma_newline_pos_concat(a: Seq<char>, b: Seq<char>)
    requires
        newline_pos(a) < a.len(),
    ensures
        newline_pos(a + b) == newline_pos(a),
    decreases a.len(),
{
    if a[0] != '\n' {
        lemma_newline_pos_concat(a.drop_first(), b);
        assert((a + b).drop_first() =~= a.drop_first() + b);
    }
}

proof fn lemma_newline_pos_in(a: Seq<char>)
    requires
        a.len() > 0,
        a.last() == '\n',
    ensures
        newline_pos(a) < a.len(),
    decreases a.len(),
{
    if a[0] != '\n' {
        assert(a.drop_first().len() > 0) by {
            if a.len() == 1 {
                assert(a[0] == a.last());
            }
        }
        assert(a.drop_first().last() == a.last());
        lemma_newline_pos_in(a.drop_first());
    }
}

proof fn lemma_lines_concat(a: Seq<char>, b: Seq<char>)
    requires
        a.len() > 0,
        a.last() == '\n',
    ensures
        lines_of(a + b) == lines_of(a) + lines_of(b),
    decreases a.len(),
{
    lemma_newline_pos_in(a);
    lemma_newline_pos_concat(a, b);
    let k: int = newline_pos(a) as int;
    assert((a + b).take(k) =~= a.take(k));
    assert((a + b).skip(k + 1) =~= a.skip(k + 1) + b);
    if k + 1 < a.len() {
        assert(a.skip(k + 1).last() == a.last());
        lemma_lines_concat(a.skip(k + 1), b);
    } else {
        assert(a.skip(k + 1) =~= Seq::<char>::empty());
        assert(a.skip(k + 1) + b =~= b);
        assert(lines_of(a.skip(k + 1)) =~= Seq::<Seq<char>>::empty());
    }
    assert(lines_of(a) =~= seq![without_cr(a.take(k))] + lines_of(a.skip(k + 1)));
}

proof fn lemma_entries_concat(x: Seq<Seq<char>>, y: Seq<Seq<char>>, format: ColorFormat)
    ensures
        entries(x + y, format) == entries(x, format) + entries(y, format),
    decreases x.len(),
{
    if x.len() > 0 {
        lemma_entries_concat(x.drop_first(), y, format);
        assert((x + y).drop_first() =~= x.drop_first() + y);
        assert((x + y)[0] == x[0]);
    } else {
        assert(x + y =~= y);
    }
}

/// Each line is read on its own: the settings of two texts joined at a line
/// break are those of the first followed by those of the second.
pub proof fn lemma_color_pairs_concat(a: Seq<char>, b: Seq<char>, format: ColorFormat)
    requires
        a.len() > 0,
        a.last() == '\n',
    ensures
        color_pairs(a + b, format) == color_pairs(a, format) + color_pairs(b, format),
{
    lemma_lines_concat(a, b);
    lemma_entries_concat(lines_of(a), lines_of(b), format);
}

} // verus!
