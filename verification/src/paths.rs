//! Path string manipulation for the report pipeline.
//!
//! Paths here are plain character strings in which both `/` and `\` act as
//! separators, so that exports written on either style of system are
//! handled alike. A cleaned path keeps the separator style it arrived
//! with: backslashes when the path contains any, slashes otherwise.

use vstd::prelude::*;

verus! {

/// A path separator character.
pub open spec fn is_sep(c: char) -> bool {
    c == '/' || c == '\\'
}

pub open spec fn has_backslash(s: Seq<char>) -> bool {
    exists|i: int| 0 <= i < s.len() && s[i] == '\\'
}

/// The separator style a cleaned or joined path uses.
pub open spec fn path_sep(s: Seq<char>) -> char {
    if has_backslash(s) { '\\' } else { '/' }
}

pub open spec fn is_absolute(s: Seq<char>) -> bool {
    s.len() > 0 && is_sep(s[0])
}

/// State of the left-to-right split of a path into components.
pub struct SplitState {
    /// Completed components.
    pub comps: Seq<Seq<char>>,
    /// The run of non-separator characters currently open.
    pub cur: Seq<char>,
}

pub open spec fn split_step(st: SplitState, c: char) -> SplitState {
    if is_sep(c) {
        if st.cur.len() > 0 {
            SplitState { comps: st.comps.push(st.cur), cur: Seq::empty() }
        } else {
            st
        }
    } else {
        SplitState { comps: st.comps, cur: st.cur.push(c) }
    }
}

pub open spec fn split_prefix(s: Seq<char>, n: int) -> SplitState
    decreases n,
{
    if n <= 0 {
        SplitState { comps: Seq::empty(), cur: Seq::empty() }
    } else {
        split_step(split_prefix(s, n - 1), s[n - 1])
    }
}

/// The non-empty components of a path, in order.
pub open spec fn components_of(s: Seq<char>) -> Seq<Seq<char>> {
    let st = split_prefix(s, s.len() as int);
    if st.cur.len() > 0 {
        st.comps.push(st.cur)
    } else {
        st.comps
    }
}

/// One step of path cleaning: `.` components vanish, `..` swallows the
/// previous kept component where one can be swallowed, and `..` at the
/// head of an absolute path vanishes.
pub open spec fn clean_step(kept: Seq<Seq<char>>, comp: Seq<char>, absolute: bool) -> Seq<
    Seq<char>,
> {
    if comp == seq!['.'] {
        kept
    } else if comp == seq!['.', '.'] {
        if kept.len() > 0 && kept.last() != seq!['.', '.'] {
            kept.drop_last()
        } else if absolute {
            kept
        } else {
            kept.push(comp)
        }
    } else {
        kept.push(comp)
    }
}

pub open spec fn cleaned_prefix(comps: Seq<Seq<char>>, n: int, absolute: bool) -> Seq<Seq<char>>
    decreases n,
{
    if n <= 0 {
        Seq::empty()
    } else {
        clean_step(cleaned_prefix(comps, n - 1, absolute), comps[n - 1], absolute)
    }
}

/// The components a cleaned path keeps, in order.
pub open spec fn cleaned_components(comps: Seq<Seq<char>>, absolute: bool) -> Seq<Seq<char>> {
    cleaned_prefix(comps, comps.len() as int, absolute)
}

pub open spec fn join_prefix(comps: Seq<Seq<char>>, n: int, sep: char) -> Seq<char>
    decreases n,
{
    if n <= 0 {
        Seq::empty()
    } else if n == 1 {
        comps[0]
    } else {
        join_prefix(comps, n - 1, sep).push(sep) + comps[n - 1]
    }
}

/// The components joined by the separator.
pub open spec fn joined(comps: Seq<Seq<char>>, sep: char) -> Seq<char> {
    join_prefix(comps, comps.len() as int, sep)
}

/// The cleaned form of a path: components split on either separator,
/// `.` and `..` resolved, rejoined by the path's own separator style. An
/// emptied relative path cleans to `.`; an emptied absolute path cleans to
/// the bare separator.
pub open spec fn normalize_spec(s: Seq<char>) -> Seq<char> {
    let comps = cleaned_components(components_of(s), is_absolute(s));
    let sep = path_sep(s);
    if is_absolute(s) {
        seq![sep] + joined(comps, sep)
    } else if comps.len() == 0 {
        seq!['.']
    } else {
        joined(comps, sep)
    }
}

/// The contents of a vector of index ranges into `s`.
pub open spec fn range_contents(rs: Seq<(usize, usize)>, s: Seq<char>) -> Seq<Seq<char>> {
    rs.map_values(|p: (usize, usize)| s.subrange(p.0 as int, p.1 as int))
}

/// Every range lies within the string.
pub open spec fn ranges_ok(rs: Seq<(usize, usize)>, len: nat) -> bool {
    forall|t: int| 0 <= t < rs.len() ==> (#[trigger] rs[t]).0 <= rs[t].1 <= len
}

/// Cleans a path: separators of either style delimit components, `.` and
/// `..` components are resolved, and the result is rejoined with the
/// path's own separator style.
pub fn normalize_path(path: &str) -> (r: String)
    ensures
        r@ == normalize_spec(path@),
{
    let ghost s = path@;
    let n = path.unicode_len();
    let mut has_bs = false;
    let mut i: usize = 0;
    while i < n
        invariant
            i <= n,
            s == path@,
            n == s.len(),
            has_bs == exists|j: int| 0 <= j < i && s[j] == '\\',
        decreases n - i,
    {
        if path.get_char(i) == '\\' {
            has_bs = true;
            proof {
                assert(s[i as int] == '\\');
            }
        }
        i = i + 1;
    }
    proof {
        assert(has_bs == has_backslash(s));
    }
    let abs = if n > 0 {
        let c0 = path.get_char(0);
        c0 == '/' || c0 == '\\'
    } else {
        false
    };
    proof {
        assert(abs == is_absolute(s));
    }
    let mut comps: Vec<(usize, usize)> = Vec::new();
    let mut cur_start: usize = 0;
    let mut k: usize = 0;
    while k < n
        invariant
            cur_start <= k <= n,
            s == path@,
            n == s.len(),
            ranges_ok(comps@, s.len()),
            split_prefix(s, k as int).comps == range_contents(comps@, s),
            split_prefix(s, k as int).cur == s.subrange(cur_start as int, k as int),
        decreases n - k,
    {
        let ghost st = split_prefix(s, k as int);
        let c = path.get_char(k);
        if c == '/' || c == '\\' {
            if k > cur_start {
                comps.push((cur_start, k));
                proof {
                    assert(range_contents(comps@, s) =~= range_contents(
                        comps@.drop_last(),
                        s,
                    ).push(s.subrange(cur_start as int, k as int)));
                }
            }
            cur_start = k + 1;
        }
        k = k + 1;
        proof {
            if !is_sep(s[k - 1]) {
                assert(s.subrange(cur_start as int, k as int) =~= s.subrange(
                    cur_start as int,
                    k as int - 1,
                ).push(s[k as int - 1]));
            } else {
                assert(s.subrange(cur_start as int, k as int) =~= Seq::<char>::empty());
            }
        }
    }
    if n > cur_start {
        comps.push((cur_start, n));
        proof {
            assert(range_contents(comps@, s) =~= range_contents(comps@.drop_last(), s).push(
                s.subrange(cur_start as int, n as int),
            ));
        }
    }
    let ghost allc = components_of(s);
    proof {
        assert(range_contents(comps@, s) == allc);
    }
    let m = comps.len();
    let mut kept: Vec<(usize, usize)> = Vec::new();
    let mut t: usize = 0;
    while t < m
        invariant
            t <= m,
            s == path@,
            n == s.len(),
            m == comps.len(),
            abs == is_absolute(s),
            ranges_ok(comps@, s.len()),
            ranges_ok(kept@, s.len()),
            range_contents(comps@, s) == allc,
            cleaned_prefix(allc, t as int, abs) == range_contents(kept@, s),
        decreases m - t,
    {
        let (a, b) = comps[t];
        proof {
            assert(allc[t as int] == s.subrange(a as int, b as int));
        }
        let is_dot = b - a == 1 && path.get_char(a) == '.';
        let is_dotdot = b - a == 2 && path.get_char(a) == '.' && path.get_char(a + 1) == '.';
        proof {
            lemma_range_is_dot(s, a as int, b as int, is_dot, is_dotdot);
        }
        if is_dot {
            // vanishes
        } else if is_dotdot {
            let kl = kept.len();
            let mut handled = false;
            if kl > 0 {
                let (la, lb) = kept[kl - 1];
                let last_dd = lb - la == 2 && path.get_char(la) == '.' && path.get_char(la + 1)
                    == '.';
                proof {
                    let last_dot = lb - la == 1 && s[la as int] == '.';
                    lemma_range_is_dot(s, la as int, lb as int, last_dot, last_dd);
                    assert(range_contents(kept@, s).last() == s.subrange(la as int, lb as int));
                }
                if !last_dd {
                    let _ = kept.pop();
                    handled = true;
                    proof {
                        assert(range_contents(kept@, s) =~= cleaned_prefix(
                            allc,
                            t as int + 1,
                            abs,
                        ));
                    }
                }
            }
            if !handled {
                if abs {
                    proof {
                        assert(range_contents(kept@, s) =~= cleaned_prefix(
                            allc,
                            t as int + 1,
                            abs,
                        ));
                    }
                } else {
                    kept.push((a, b));
                    proof {
                        assert(range_contents(kept@, s) =~= range_contents(
                            kept@.drop_last(),
                            s,
                        ).push(s.subrange(a as int, b as int)));
                    }
                }
            }
        } else {
            kept.push((a, b));
            proof {
                assert(range_contents(kept@, s) =~= range_contents(kept@.drop_last(), s).push(
                    s.subrange(a as int, b as int),
                ));
            }
        }
        t = t + 1;
    }
    let ghost cc = cleaned_components(allc, abs);
    proof {
        assert(range_contents(kept@, s) == cc);
    }
    let sep_s: &'static str = if has_bs {
        "\\"
    } else {
        "/"
    };
    proof {
        reveal_strlit("\\");
        reveal_strlit("/");
        assert(sep_s@ =~= seq![path_sep(s)]);
    }
    let mut out = String::new();
    if abs {
        out.append(sep_s);
    }
    let kl = kept.len();
    let mut q: usize = 0;
    while q < kl
        invariant
            q <= kl,
            s == path@,
            n == s.len(),
            kl == kept.len(),
            abs == is_absolute(s),
            ranges_ok(kept@, s.len()),
            range_contents(kept@, s) == cc,
            sep_s@ == seq![path_sep(s)],
            out@ == (if abs {
                seq![path_sep(s)]
            } else {
                Seq::<char>::empty()
            }) + join_prefix(cc, q as int, path_sep(s)),
        decreases kl - q,
    {
        if q > 0 {
            out.append(sep_s);
        }
        let (a, b) = kept[q];
        out.append(path.substring_char(a, b));
        proof {
            assert(cc[q as int] == s.subrange(a as int, b as int));
            if q == 0 {
                assert(out@ =~= (if abs {
                    seq![path_sep(s)]
                } else {
                    Seq::<char>::empty()
                }) + join_prefix(cc, 1, path_sep(s)));
            } else {
                assert(join_prefix(cc, q as int + 1, path_sep(s)) == join_prefix(
                    cc,
                    q as int,
                    path_sep(s),
                ).push(path_sep(s)) + cc[q as int]);
                assert(out@ =~= (if abs {
                    seq![path_sep(s)]
                } else {
                    Seq::<char>::empty()
                }) + join_prefix(cc, q as int + 1, path_sep(s)));
            }
        }
        q = q + 1;
    }
    if !abs && kl == 0 {
        proof {
            reveal_strlit(".");
        }
        out.append(".");
        proof {
            assert(out@ =~= normalize_spec(s));
        }
        return out;
    }
    proof {
        assert(out@ =~= normalize_spec(s));
    }
    out
}

/// `s` without its trailing separators.
pub open spec fn strip_trailing_seps(s: Seq<char>) -> Seq<char>
    decreases s.len(),
{
    if s.len() > 0 && is_sep(s.last()) {
        strip_trailing_seps(s.drop_last())
    } else {
        s
    }
}

/// Where the file name of a separator-stripped path begins: the position
/// just after its last separator.
pub open spec fn base_split(t: Seq<char>) -> int
    decreases t.len(),
{
    if t.len() == 0 {
        0
    } else if is_sep(t.last()) {
        t.len() as int
    } else {
        base_split(t.drop_last())
    }
}

/// The file name of a path: its last component, ignoring trailing
/// separators. A path with no component, or whose last component is `.`
/// or `..`, has none.
pub open spec fn file_name_model(s: Seq<char>) -> Option<Seq<char>> {
    let t = strip_trailing_seps(s);
    let name = t.skip(base_split(t));
    if name.len() == 0 || name == seq!['.'] || name == seq!['.', '.'] {
        None
    } else {
        Some(name)
    }
}

/// Index of the last period of a name, `-1` when it has none.
pub open spec fn last_dot(name: Seq<char>) -> int
    decreases name.len(),
{
    if name.len() == 0 {
        -1
    } else if name.last() == '.' {
        name.len() - 1
    } else {
        last_dot(name.drop_last())
    }
}

/// The stem of a file name: everything before its last period, except
/// that a period at the very front (a hidden-file name) starts the stem
/// rather than ending it.
pub open spec fn stem_of(name: Seq<char>) -> Seq<char> {
    let d = last_dot(name);
    if d <= 0 {
        name
    } else {
        name.take(d)
    }
}

/// The path with its file name's extension replaced by `suffix`: the
/// directory part is kept, the stem keeps its place, and a period and the
/// suffix follow. A path without a file name yields nothing.
pub open spec fn add_suffix_model(s: Seq<char>, suffix: Seq<char>) -> Option<Seq<char>> {
    match file_name_model(s) {
        Option::None => Option::None,
        Option::Some(name) => {
            let t = strip_trailing_seps(s);
            let b = base_split(t);
            Option::Some(t.take(b) + stem_of(name) + seq!['.'] + suffix)
        },
    }
}

/// The file name of `src` placed under the directory `tgt`, joined by the
/// target's own separator style when one must be inserted.
pub open spec fn replace_path_model(src: Seq<char>, tgt: Seq<char>) -> Option<Seq<char>> {
    match file_name_model(src) {
        Option::None => Option::None,
        Option::Some(name) => Option::Some(
            if tgt.len() == 0 {
                name
            } else if is_sep(tgt.last()) {
                tgt + name
            } else {
                tgt + seq![path_sep(tgt)] + name
            },
        ),
    }
}

fn is_sep_char(c: char) -> (r: bool)
    ensures
        r == is_sep(c),
{
    c == '/' || c == '\\'
}

/// The bare separator in the style of `s`.
fn sep_str_of(s: &str) -> (r: &'static str)
    ensures
        r@ == seq![path_sep(s@)],
{
    let n = s.unicode_len();
    let mut has_bs = false;
    let mut i: usize = 0;
    while i < n
        invariant
            i <= n,
            n == s@.len(),
            has_bs == exists|j: int| 0 <= j < i && s@[j] == '\\',
        decreases n - i,
    {
        if s.get_char(i) == '\\' {
            has_bs = true;
            proof {
                assert(s@[i as int] == '\\');
            }
        }
        i = i + 1;
    }
    proof {
        assert(has_bs == has_backslash(s@));
        reveal_strlit("\\");
        reveal_strlit("/");
        assert("\\"@ =~= seq!['\\']);
        assert("/"@ =~= seq!['/']);
    }
    if has_bs {
        "\\"
    } else {
        "/"
    }
}

/// Splits a path just before its file name: returns `(b, j)` such that the
/// path stripped of trailing separators ends at `j` and its file name
/// begins at `b`.
fn split_file_name(s: &str) -> (r: (usize, usize))
    ensures
        r.0 <= r.1 <= s@.len(),
        s@.take(r.1 as int) == strip_trailing_seps(s@),
        r.0 as int == base_split(strip_trailing_seps(s@)),
{
    let n = s.unicode_len();
    let mut j: usize = n;
    proof {
        assert(s@.take(n as int) =~= s@);
    }
    while j > 0 && is_sep_char(s.get_char(j - 1))
        invariant
            j <= n,
            n == s@.len(),
            strip_trailing_seps(s@) == strip_trailing_seps(s@.take(j as int)),
        decreases j,
    {
        proof {
            assert(s@.take(j as int).drop_last() =~= s@.take(j as int - 1));
        }
        j = j - 1;
    }
    proof {
        if j > 0 {
            assert(strip_trailing_seps(s@.take(j as int)) == s@.take(j as int));
        } else {
            assert(s@.take(0) =~= Seq::<char>::empty());
        }
        assert(strip_trailing_seps(s@) == s@.take(j as int));
    }
    let mut b: usize = j;
    while b > 0 && !is_sep_char(s.get_char(b - 1))
        invariant
            b <= j <= n,
            n == s@.len(),
            strip_trailing_seps(s@) == s@.take(j as int),
            base_split(s@.take(j as int)) == base_split(s@.take(b as int)),
        decreases b,
    {
        proof {
            assert(s@.take(b as int).drop_last() =~= s@.take(b as int - 1));
        }
        b = b - 1;
    }
    proof {
        if b > 0 {
            assert(base_split(s@.take(b as int)) == b as int);
        } else {
            assert(s@.take(0) =~= Seq::<char>::empty());
        }
    }
    (b, j)
}

/// Replaces the extension of the path's file name with `suffix`, keeping
/// the directory part: `dir/stem.suffix`. A path without a file name
/// yields `None`.
pub fn add_suffix(file_path: &str, suffix: &str) -> (r: Option<String>)
    ensures
        r is Some <==> add_suffix_model(file_path@, suffix@) is Some,
        r is Some ==> r->Some_0@ == add_suffix_model(file_path@, suffix@)->Some_0,
{
    let ghost s = file_path@;
    let (b, j) = split_file_name(file_path);
    let ghost t = strip_trailing_seps(s);
    let ghost name = t.skip(base_split(t));
    proof {
        assert(name =~= s.subrange(b as int, j as int));
    }
    if j == b {
        return Option::None;
    }
    let name_dot = j - b == 1 && file_path.get_char(b) == '.';
    let name_dd = j - b == 2 && file_path.get_char(b) == '.' && file_path.get_char(b + 1) == '.';
    proof {
        lemma_range_is_dot(s, b as int, j as int, name_dot, name_dd);
    }
    if name_dot || name_dd {
        return Option::None;
    }
    let mut k: usize = j;
    while k > b && file_path.get_char(k - 1) != '.'
        invariant
            b <= k <= j <= s.len(),
            s == file_path@,
            last_dot(s.subrange(b as int, j as int)) == last_dot(s.subrange(b as int, k as int)),
        decreases k,
    {
        proof {
            assert(s.subrange(b as int, k as int).drop_last() =~= s.subrange(
                b as int,
                k as int - 1,
            ));
        }
        k = k - 1;
    }
    proof {
        if k > b {
            assert(s.subrange(b as int, k as int).last() == '.');
            assert(last_dot(s.subrange(b as int, k as int)) == k as int - 1 - b);
        } else {
            assert(s.subrange(b as int, k as int) =~= Seq::<char>::empty());
        }
    }
    let stem_end: usize = if k == b {
        j
    } else if k - 1 == b {
        j
    } else {
        k - 1
    };
    proof {
        assert(s.subrange(b as int, stem_end as int) =~= stem_of(name));
        assert(s.take(b as int) =~= s.subrange(0, b as int));
    }
    let mut out = String::from_str(file_path.substring_char(0, b));
    out.append(file_path.substring_char(b, stem_end));
    proof {
        reveal_strlit(".");
        assert("."@ =~= seq!['.']);
    }
    out.append(".");
    out.append(suffix);
    proof {
        assert(out@ =~= add_suffix_model(file_path@, suffix@)->Some_0);
    }
    Option::Some(out)
}

/// Moves the file name of `source_path` under the directory
/// `target_path`. A source without a file name yields `None`.
pub fn replace_path(source_path: &str, target_path: &str) -> (r: Option<String>)
    ensures
        r is Some <==> replace_path_model(source_path@, target_path@) is Some,
        r is Some ==> r->Some_0@ == replace_path_model(source_path@, target_path@)->Some_0,
{
    let ghost s = source_path@;
    let (b, j) = split_file_name(source_path);
    let ghost t = strip_trailing_seps(s);
    let ghost name = t.skip(base_split(t));
    proof {
        assert(name =~= s.subrange(b as int, j as int));
    }
    if j == b {
        return Option::None;
    }
    let name_dot = j - b == 1 && source_path.get_char(b) == '.';
    let name_dd = j - b == 2 && source_path.get_char(b) == '.' && source_path.get_char(b + 1)
        == '.';
    proof {
        lemma_range_is_dot(s, b as int, j as int, name_dot, name_dd);
    }
    if name_dot || name_dd {
        return Option::None;
    }
    let name_str = source_path.substring_char(b, j);
    let tn = target_path.unicode_len();
    if tn == 0 {
        let r = String::from_str(name_str);
        proof {
            assert(r@ =~= replace_path_model(source_path@, target_path@)->Some_0);
        }
        return Option::Some(r);
    }
    let mut out = String::from_str(target_path);
    let lastc = target_path.get_char(tn - 1);
    if !(lastc == '/' || lastc == '\\') {
        out.append(sep_str_of(target_path));
    }
    out.append(name_str);
    proof {
        assert(out@ =~= replace_path_model(source_path@, target_path@)->Some_0);
    }
    Option::Some(out)
}

/// Whether a range of `s` reads `.` or `..`, stated over the subrange.
proof fn lemma_range_is_dot(s: Seq<char>, a: int, b: int, is_dot: bool, is_dotdot: bool)
    requires
        0 <= a <= b <= s.len(),
        is_dot == (b - a == 1 && s[a] == '.'),
        is_dotdot == (b - a == 2 && s[a] == '.' && s[a + 1] == '.'),
    ensures
        is_dot == (s.subrange(a, b) == seq!['.']),
        is_dotdot == (s.subrange(a, b) == seq!['.', '.']),
{
    let sub = s.subrange(a, b);
    if is_dot {
        assert(sub =~= seq!['.']);
    } else {
        if sub == seq!['.'] {
            assert(sub.len() == 1);
            assert(sub[0] == '.');
        }
    }
    if is_dotdot {
        assert(sub =~= seq!['.', '.']);
    } else {
        if sub == seq!['.', '.'] {
            assert(sub.len() == 2);
            assert(sub[0] == '.');
            assert(sub[1] == '.');
        }
    }
}

} // verus!
