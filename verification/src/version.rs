//! Semantic versions: grammar, parsing and precedence order.
//!
//! A version is `major.minor.patch`, optionally followed by `-` and a
//! dot-separated pre-release part, optionally followed by `+` and a
//! dot-separated build part. Numeric components carry no leading zeroes.
//! Versions are totally ordered by the standard precedence rules: the three
//! numeric components compare first, a pre-release version precedes the plain
//! version, and pre-release identifiers compare pairwise (numeric ones
//! numerically and before alphanumeric ones, alphanumeric ones lexically),
//! with a shorter identifier list preceding its extensions. Build parts do
//! not take part in the order.

use vstd::prelude::*;
use vstd::string::StrSliceExecFns;

verus! {

/// The components of a semantic version. Numeric components are kept as
/// their digit strings, which represent every number exactly; the
/// no-leading-zero rule makes the representation canonical.
#[derive(Clone, Debug, Eq, Hash, PartialEq)]
pub struct SemanticVersion {
    pub major: String,
    pub minor: String,
    pub patch: String,
    pub pre: Vec<String>,
    pub build: Vec<String>,
}

/// The mathematical value of a [`SemanticVersion`].
pub struct VersionView {
    pub major: Seq<char>,
    pub minor: Seq<char>,
    pub patch: Seq<char>,
    pub pre: Seq<Seq<char>>,
    pub build: Seq<Seq<char>>,
}

impl View for SemanticVersion {
    type V = VersionView;

    open spec fn view(&self) -> VersionView {
        VersionView {
            major: self.major@,
            minor: self.minor@,
            patch: self.patch@,
            pre: self.pre.deep_view(),
            build: self.build.deep_view(),
        }
    }
}

pub open spec fn is_digit(c: char) -> bool {
    48 <= c as u32 && c as u32 <= 57
}

pub open spec fn is_letter(c: char) -> bool {
    (65 <= c as u32 && c as u32 <= 90) || (97 <= c as u32 && c as u32 <= 122)
}

/// Characters allowed in pre-release and build identifiers.
pub open spec fn is_ident_char(c: char) -> bool {
    is_digit(c) || is_letter(c) || c == '-'
}

pub open spec fn all_digits(s: Seq<char>) -> bool {
    forall|i: int| 0 <= i < s.len() ==> is_digit(#[trigger] s[i])
}

/// A numeric component of the version core: digits, nonempty, and no
/// leading zero.
pub open spec fn is_numeric_part(s: Seq<char>) -> bool {
    &&& s.len() > 0
    &&& all_digits(s)
    &&& (s[0] == '0' ==> s.len() == 1)
}

/// A pre-release identifier: nonempty identifier characters; an all-digit
/// identifier carries no leading zero.
pub open spec fn is_pre_ident(s: Seq<char>) -> bool {
    &&& s.len() > 0
    &&& (forall|i: int| 0 <= i < s.len() ==> is_ident_char(#[trigger] s[i]))
    &&& (all_digits(s) && s[0] == '0' ==> s.len() == 1)
}

/// A build identifier: nonempty identifier characters.
pub open spec fn is_build_ident(s: Seq<char>) -> bool {
    &&& s.len() > 0
    &&& (forall|i: int| 0 <= i < s.len() ==> is_ident_char(#[trigger] s[i]))
}

/// One identifier rule for both sections: pre-release identifiers
/// (`pre_mode`) also exclude leading zeroes on all-digit identifiers.
pub open spec fn ident_ok(p: Seq<char>, pre_mode: bool) -> bool {
    if pre_mode {
        is_pre_ident(p)
    } else {
        is_build_ident(p)
    }
}

/// Every piece of a section is an identifier of its kind.
pub open spec fn all_idents_ok(ps: Seq<Seq<char>>, pre_mode: bool) -> bool {
    forall|i: int| 0 <= i < ps.len() ==> ident_ok(#[trigger] ps[i], pre_mode)
}

/// Splits a character sequence at every occurrence of `c`. The result has
/// one piece more than there are separators; pieces may be empty.
pub open spec fn split_on(s: Seq<char>, c: char) -> Seq<Seq<char>>
    decreases s.len(),
{
    if s.len() == 0 {
        seq![Seq::<char>::empty()]
    } else {
        let rest = split_on(s.drop_first(), c);
        if s[0] == c {
            seq![Seq::<char>::empty()] + rest
        } else {
            seq![seq![s[0]] + rest[0]] + rest.drop_first()
        }
    }
}

/// Joins pieces with the separator `c`; the inverse of [`split_on`].
pub open spec fn join_with(parts: Seq<Seq<char>>, c: char) -> Seq<char>
    decreases parts.len(),
{
    if parts.len() == 0 {
        Seq::<char>::empty()
    } else if parts.len() == 1 {
        parts[0]
    } else {
        parts[0] + seq![c] + join_with(parts.drop_first(), c)
    }
}

/// What parsing a version string yields: the grammar above, read off the
/// string, or nothing when the string does not follow it.
pub open spec fn spec_parse_version(s: Seq<char>) -> Option<VersionView> {
    let pparts = split_on(s, '+');
    let mparts = split_on(pparts[0], '-');
    let core = split_on(mparts[0], '.');
    let pre: Seq<Seq<char>> = if mparts.len() == 1 {
        Seq::<Seq<char>>::empty()
    } else {
        split_on(join_with(mparts.drop_first(), '-'), '.')
    };
    let build: Seq<Seq<char>> = if pparts.len() == 1 {
        Seq::<Seq<char>>::empty()
    } else {
        split_on(pparts[1], '.')
    };
    if pparts.len() <= 2 && core.len() == 3 && is_numeric_part(core[0]) && is_numeric_part(core[1])
        && is_numeric_part(core[2]) && all_idents_ok(pre, true) && all_idents_ok(build, false) {
        Some(
            VersionView {
                major: core[0],
                minor: core[1],
                patch: core[2],
                pre: pre,
                build: build,
            },
        )
    } else {
        None
    }
}

/// A split always yields at least one piece.
pub proof fn lemma_split_on_len(s: Seq<char>, c: char)
    ensures
        split_on(s, c).len() >= 1,
    decreases s.len(),
{
    if s.len() > 0 {
        lemma_split_on_len(s.drop_first(), c);
    }
}

/// When no separator occurs before `k`, the split of `s` is the split of
/// the tail from `k` on, with the first piece extended to the front: taking
/// `k` to the first separator (or to the end) describes the first piece.
pub proof fn lemma_split_on_step(s: Seq<char>, c: char, k: int)
    requires
        0 <= k <= s.len(),
        forall|j: int| 0 <= j < k ==> s[j] != c,
    ensures
        k == s.len() && (forall|j: int| 0 <= j < s.len() ==> s[j] != c) ==> split_on(s, c) =~~= seq![s],
        k < s.len() && s[k] == c ==> split_on(s, c) =~~= seq![s.take(k)] + split_on(
            s.skip(k + 1),
            c,
        ),
    decreases k,
{
    lemma_split_on_len(s, c);
    if k == 0 {
        if s.len() > 0 && s[0] == c {
            assert(s.take(0) =~= Seq::<char>::empty());
            assert(s.skip(1) =~= s.drop_first());
        } else if s.len() == 0 {
        }
    } else {
        let t = s.drop_first();
        lemma_split_on_step(t, c, k - 1);
        lemma_split_on_len(t, c);
        if k == s.len() && (forall|j: int| 0 <= j < s.len() ==> s[j] != c) {
            assert(forall|j: int| 0 <= j < t.len() ==> t[j] != c);
            assert(split_on(t, c) =~~= seq![t]);
            assert(split_on(s, c) =~~= seq![seq![s[0]] + t]);
            assert(seq![s[0]] + t =~= s);
        } else if k < s.len() && s[k] == c {
            assert(t[k - 1] == c);
            assert(split_on(t, c) =~~= seq![t.take(k - 1)] + split_on(t.skip(k), c));
            assert(seq![s[0]] + t.take(k - 1) =~= s.take(k));
            assert(t.skip(k) =~= s.skip(k + 1));
            assert(split_on(s, c) =~~= seq![seq![s[0]] + t.take(k - 1)] + split_on(t.skip(k), c));
        }
    }
}

/// Joining the pieces of a split restores the sequence.
pub proof fn lemma_join_split(s: Seq<char>, c: char)
    ensures
        join_with(split_on(s, c), c) =~= s,
    decreases s.len(),
{
    lemma_split_on_len(s, c);
    if s.len() == 0 {
    } else {
        let t = s.drop_first();
        lemma_join_split(t, c);
        lemma_split_on_len(t, c);
        let rest = split_on(t, c);
        if s[0] == c {
            assert(join_with(seq![Seq::<char>::empty()] + rest, c) =~= seq![c] + join_with(
                rest,
                c,
            )) by {
                let whole = seq![Seq::<char>::empty()] + rest;
                assert(whole.drop_first() =~~= rest);
                assert(whole[0] =~= Seq::<char>::empty());
            }
            assert(seq![c] + t =~= s);
        } else {
            let whole = seq![seq![s[0]] + rest[0]] + rest.drop_first();
            if rest.len() == 1 {
                assert(whole.len() == 1);
                assert(join_with(whole, c) =~= seq![s[0]] + rest[0]);
                assert(join_with(rest, c) == rest[0]);
                assert(seq![s[0]] + rest[0] =~= s);
            } else {
                assert(whole.len() >= 2);
                assert(join_with(whole, c) =~= whole[0] + seq![c] + join_with(
                    whole.drop_first(),
                    c,
                ));
                assert(whole.drop_first() =~~= rest.drop_first());
                assert(join_with(rest, c) =~= rest[0] + seq![c] + join_with(rest.drop_first(), c));
                assert(whole[0] + seq![c] + join_with(rest.drop_first(), c) =~= seq![s[0]] + (
                rest[0] + seq![c] + join_with(rest.drop_first(), c)));
                assert(seq![s[0]] + join_with(rest, c) =~= join_with(whole, c));
                assert(seq![s[0]] + t =~= s);
            }
        }
    }
}

/// The first occurrence of `c` in `s` within `[from, to)`, or `to` when
/// there is none.
fn find_char_from(s: &str, c: char, from: usize, to: usize) -> (r: usize)
    requires
        from <= to <= s@.len(),
    ensures
        from <= r <= to,
        r < to ==> s@[r as int] == c,
        forall|j: int| from <= j < r ==> s@[j] != c,
{
    let mut i: usize = from;
    while i < to
        invariant
            from <= i <= to <= s@.len(),
            forall|j: int| from <= j < i ==> s@[j] != c,
        decreases to - i,
    {
        if s.get_char(i) == c {
            return i;
        }
        i += 1;
    }
    i
}

/// Checks a piece of the version core: digits only, nonempty, no leading
/// zero.
fn check_numeric_part(s: &str) -> (r: bool)
    ensures
        r == is_numeric_part(s@),
{
    let n = s.unicode_len();
    if n == 0 {
        return false;
    }
    if n > 1 && s.get_char(0) == '0' {
        return false;
    }
    let mut i: usize = 0;
    while i < n
        invariant
            n == s@.len(),
            0 <= i <= n,
            forall|j: int| 0 <= j < i ==> is_digit(#[trigger] s@[j]),
        decreases n - i,
    {
        let c = s.get_char(i);
        if !(48 <= c as u32 && c as u32 <= 57) {
            return false;
        }
        i += 1;
    }
    true
}

/// Checks one pre-release or build identifier; `pre_mode` adds the
/// no-leading-zero rule for all-digit identifiers.
fn check_ident(s: &str, pre_mode: bool) -> (r: bool)
    ensures
        pre_mode ==> r == is_pre_ident(s@),
        !pre_mode ==> r == is_build_ident(s@),
{
    let n = s.unicode_len();
    if n == 0 {
        return false;
    }
    let mut i: usize = 0;
    let mut digits_only = true;
    while i < n
        invariant
            n == s@.len(),
            0 <= i <= n,
            forall|j: int| 0 <= j < i ==> is_ident_char(#[trigger] s@[j]),
            digits_only == (forall|j: int| 0 <= j < i ==> is_digit(#[trigger] s@[j])),
        decreases n - i,
    {
        let c = s.get_char(i);
        let u = c as u32;
        let dig = 48 <= u && u <= 57;
        let ok = dig || (65 <= u && u <= 90) || (97 <= u && u <= 122) || c == '-';
        if !ok {
            return false;
        }
        if !dig {
            digits_only = false;
        }
        i += 1;
    }
    if pre_mode && digits_only && s.get_char(0) == '0' && n > 1 {
        assert(all_digits(s@));
        return false;
    }
    true
}

/// Splits `s[from..to]` at every dot and checks each piece as a
/// pre-release (`pre_mode`) or build identifier; yields the pieces, or
/// nothing when one of them is not an identifier.
fn collect_idents(s: &str, from: usize, to: usize, pre_mode: bool) -> (r: Option<Vec<String>>)
    requires
        from <= to <= s@.len(),
    ensures
        ({
            let pieces = split_on(s@.subrange(from as int, to as int), '.');
            match r {
                Some(v) => v.deep_view() == pieces && all_idents_ok(pieces, pre_mode),
                None => !all_idents_ok(pieces, pre_mode),
            }
        }),
{
    let ghost whole = s@.subrange(from as int, to as int);
    let ghost pieces = split_on(whole, '.');
    let mut out: Vec<String> = Vec::new();
    let mut cur: usize = from;
    loop
        invariant_except_break
            from <= cur <= to <= s@.len(),
            whole == s@.subrange(from as int, to as int),
            pieces == split_on(whole, '.'),
            pieces =~~= out.deep_view() + split_on(s@.subrange(cur as int, to as int), '.'),
            forall|i: int|
                0 <= i < out.deep_view().len() ==> ident_ok(
                    #[trigger] out.deep_view()[i],
                    pre_mode,
                ),
        ensures
            out.deep_view() == pieces,
            forall|i: int| 0 <= i < pieces.len() ==> ident_ok(#[trigger] pieces[i], pre_mode),
        decreases to - cur,
    {
        let ghost rem = s@.subrange(cur as int, to as int);
        let ghost done = out.deep_view();
        let j = find_char_from(s, '.', cur, to);
        proof {
            assert(forall|j2: int| 0 <= j2 < j - cur ==> rem[j2] != '.');
            if j == to {
                assert(forall|j2: int| 0 <= j2 < rem.len() ==> rem[j2] != '.');
            }
            lemma_split_on_step(rem, '.', j - cur);
            lemma_split_on_len(rem, '.');
        }
        let piece = s.substring_char(cur, j);
        proof {
            if j < to {
                assert(rem.take(j - cur) =~= piece@);
                assert(rem.skip(j - cur + 1) =~= s@.subrange(j + 1, to as int));
                assert(split_on(rem, '.') =~~= seq![piece@] + split_on(
                    s@.subrange(j + 1, to as int),
                    '.',
                ));
            } else {
                assert(rem =~= piece@);
                assert(split_on(rem, '.') =~~= seq![piece@]);
            }
            assert(pieces[done.len() as int] == piece@);
        }
        if !check_ident(piece, pre_mode) {
            proof {
                assert(!ident_ok(pieces[done.len() as int], pre_mode));
            }
            return None;
        }
        let owned = piece.to_owned();
        out.push(owned);
        proof {
            assert(out.deep_view() =~~= done + seq![piece@]);
        }
        if j == to {
            proof {
                assert(out.deep_view() =~~= pieces);
            }
            break;
        }
        cur = j + 1;
    }
    Some(out)
}

/// Parses a version string; yields its components exactly when the
/// grammar accepts the string.
#[verifier::rlimit(100)]
pub fn parse_version(s: &str) -> (r: Option<SemanticVersion>)
    ensures
        match r {
            Some(v) => spec_parse_version(s@) == Some(v@),
            None => spec_parse_version(s@) is None,
        },
{
    let n = s.unicode_len();
    let ghost pparts = split_on(s@, '+');
    let plus = find_char_from(s, '+', 0, n);
    if plus < n {
        let plus2 = find_char_from(s, '+', plus + 1, n);
        if plus2 < n {
            proof {
                lemma_split_on_step(s@, '+', plus as int);
                let tail = s@.skip(plus as int + 1);
                assert(forall|j: int| 0 <= j < plus2 - plus - 1 ==> tail[j] != '+');
                assert(tail[plus2 - plus - 1] == '+');
                lemma_split_on_contains(tail, '+', plus2 - plus - 1);
                assert(pparts.len() >= 3);
            }
            return None;
        }
    }
    let ghost main_seq = s@.subrange(0, plus as int);
    proof {
        if plus == n {
            lemma_split_on_step(s@, '+', n as int);
            assert(pparts =~~= seq![s@]);
            assert(main_seq =~= s@);
        } else {
            lemma_split_on_step(s@, '+', plus as int);
            let tail = s@.skip(plus as int + 1);
            lemma_split_on_step(tail, '+', tail.len() as int);
            assert(split_on(tail, '+') =~~= seq![tail]);
            assert(s@.take(plus as int) =~= main_seq);
            assert(pparts =~~= seq![main_seq, tail]);
        }
        assert(pparts[0] == main_seq);
        assert(forall|j: int| 0 <= j < plus ==> main_seq[j] == s@[j]);
    }
    let ghost mparts = split_on(main_seq, '-');
    let dash = find_char_from(s, '-', 0, plus);
    let ghost pre_seq = s@.subrange(dash as int + 1, plus as int);
    proof {
        if dash == plus {
            lemma_split_on_step(main_seq, '-', plus as int);
            assert(mparts =~~= seq![main_seq]);
        } else {
            lemma_split_on_step(main_seq, '-', dash as int);
            assert(main_seq[dash as int] == '-');
            assert(main_seq.skip(dash as int + 1) =~= pre_seq);
            assert(main_seq.take(dash as int) =~= s@.subrange(0, dash as int));
            assert(mparts =~~= seq![s@.subrange(0, dash as int)] + split_on(pre_seq, '-'));
            lemma_split_on_len(pre_seq, '-');
            assert(mparts.len() >= 2);
            assert(mparts.drop_first() =~~= split_on(pre_seq, '-'));
            lemma_join_split(pre_seq, '-');
            assert(join_with(mparts.drop_first(), '-') == pre_seq);
        }
    }
    let core_end = if dash < plus {
        dash
    } else {
        plus
    };
    let ghost core_seq = s@.subrange(0, core_end as int);
    let ghost core = split_on(core_seq, '.');
    proof {
        assert(mparts[0] == core_seq);
        assert(forall|j: int| 0 <= j < core_end ==> core_seq[j] == s@[j]);
    }
    let d1 = find_char_from(s, '.', 0, core_end);
    if d1 == core_end {
        proof {
            lemma_split_on_step(core_seq, '.', core_end as int);
            assert(core =~~= seq![core_seq]);
        }
        return None;
    }
    let ghost rest1 = s@.subrange(d1 as int + 1, core_end as int);
    proof {
        lemma_split_on_step(core_seq, '.', d1 as int);
        assert(core_seq[d1 as int] == '.');
        assert(core_seq.take(d1 as int) =~= s@.subrange(0, d1 as int));
        assert(core_seq.skip(d1 as int + 1) =~= rest1);
        assert(core =~~= seq![s@.subrange(0, d1 as int)] + split_on(rest1, '.'));
        assert(forall|j: int| 0 <= j < rest1.len() ==> rest1[j] == s@[d1 + 1 + j]);
    }
    let d2 = find_char_from(s, '.', d1 + 1, core_end);
    if d2 == core_end {
        proof {
            lemma_split_on_step(rest1, '.', rest1.len() as int);
            assert(core =~~= seq![s@.subrange(0, d1 as int), rest1]);
        }
        return None;
    }
    let ghost rest2 = s@.subrange(d2 as int + 1, core_end as int);
    proof {
        lemma_split_on_step(rest1, '.', d2 - d1 - 1);
        assert(rest1[d2 - d1 - 1] == '.');
        assert(rest1.take(d2 - d1 - 1) =~= s@.subrange(d1 as int + 1, d2 as int));
        assert(rest1.skip(d2 - d1) =~= rest2);
        assert(split_on(rest1, '.') =~~= seq![s@.subrange(d1 as int + 1, d2 as int)] + split_on(
            rest2,
            '.',
        ));
        assert(forall|j: int| 0 <= j < rest2.len() ==> rest2[j] == s@[d2 + 1 + j]);
    }
    let d3 = find_char_from(s, '.', d2 + 1, core_end);
    if d3 < core_end {
        proof {
            assert(rest2[d3 - d2 - 1] == '.');
            lemma_split_on_contains(rest2, '.', d3 - d2 - 1);
            assert(core.len() >= 4);
        }
        return None;
    }
    proof {
        lemma_split_on_step(rest2, '.', rest2.len() as int);
        assert(split_on(rest2, '.') =~~= seq![rest2]);
        assert(core =~~= seq![
            s@.subrange(0, d1 as int),
            s@.subrange(d1 as int + 1, d2 as int),
            rest2,
        ]);
    }
    let major_s = s.substring_char(0, d1);
    if !check_numeric_part(major_s) {
        proof {
            assert(core[0] == major_s@);
        }
        return None;
    }
    let minor_s = s.substring_char(d1 + 1, d2);
    if !check_numeric_part(minor_s) {
        proof {
            assert(core[1] == minor_s@);
        }
        return None;
    }
    let patch_s = s.substring_char(d2 + 1, core_end);
    if !check_numeric_part(patch_s) {
        proof {
            assert(core[2] == patch_s@);
        }
        return None;
    }
    let mut pre: Vec<String> = Vec::new();
    if dash < plus {
        match collect_idents(s, dash + 1, plus, true) {
            Some(v) => {
                pre = v;
            },
            None => {
                proof {
                    let sub = s@.subrange((dash + 1) as int, plus as int);
                    assert(sub == pre_seq);
                    let pieces = split_on(sub, '.');
                    assert(split_on(s@, '+')[0] == main_seq);
                    assert(split_on(split_on(s@, '+')[0], '-') == mparts);
                    let pspec = split_on(
                        join_with(split_on(split_on(s@, '+')[0], '-').drop_first(), '-'),
                        '.',
                    );
                    assert(pspec == pieces);
                    assert(!all_idents_ok(pspec, true));
                    assert(spec_parse_version(s@) is None);
                }
                return None;
            },
        }
    }
    let mut build: Vec<String> = Vec::new();
    if plus < n {
        match collect_idents(s, plus + 1, n, false) {
            Some(v) => {
                build = v;
            },
            None => {
                proof {
                    let sub = s@.subrange((plus + 1) as int, n as int);
                    assert(pparts[1] =~= sub);
                    let pieces = split_on(sub, '.');
                    let bspec = split_on(split_on(s@, '+')[1], '.');
                    assert(bspec == pieces);
                    assert(!all_idents_ok(bspec, false));
                    assert(spec_parse_version(s@) is None);
                }
                return None;
            },
        }
    }
    let v = SemanticVersion {
        major: major_s.to_owned(),
        minor: minor_s.to_owned(),
        patch: patch_s.to_owned(),
        pre: pre,
        build: build,
    };
    proof {
        if plus < n {
            assert(pparts[1] =~= s@.subrange(plus as int + 1, n as int));
        }
        let sv = spec_parse_version(s@);
        assert(v@.major == core[0]);
        assert(v@.minor == core[1]);
        assert(v@.patch == core[2]);
        if dash == plus {
            assert(v@.pre =~~= Seq::<Seq<char>>::empty());
        }
        if plus == n {
            assert(v@.build =~~= Seq::<Seq<char>>::empty());
        }
        assert(sv is Some);
        assert(sv.unwrap() == v@);
    }
    Some(v)
}

/// The code points of a character sequence; the version order reads
/// nothing else of a string.
pub open spec fn codes(s: Seq<char>) -> Seq<int> {
    s.map_values(|c: char| c as int)
}

/// The code points of each identifier of a list.
pub open spec fn ident_codes(ps: Seq<Seq<char>>) -> Seq<Seq<int>> {
    ps.map_values(|p: Seq<char>| codes(p))
}

/// Lexical order on code-point sequences; a strict prefix precedes its
/// extensions.
pub open spec fn lex_lt(a: Seq<int>, b: Seq<int>) -> bool
    decreases a.len(),
{
    if b.len() == 0 {
        false
    } else if a.len() == 0 {
        true
    } else if a[0] < b[0] {
        true
    } else if a[0] == b[0] {
        lex_lt(a.drop_first(), b.drop_first())
    } else {
        false
    }
}

/// Numeric order on digit strings without leading zeroes: a shorter string
/// is a smaller number; equal lengths compare digit by digit.
pub open spec fn num_lt(a: Seq<int>, b: Seq<int>) -> bool {
    a.len() < b.len() || (a.len() == b.len() && lex_lt(a, b))
}

pub open spec fn all_digit_codes(a: Seq<int>) -> bool {
    forall|i: int| 0 <= i < a.len() ==> 48 <= #[trigger] a[i] <= 57
}

/// Precedence order on single pre-release identifiers: numeric identifiers
/// compare numerically and precede alphanumeric ones; alphanumeric
/// identifiers compare lexically.
pub open spec fn ident_lt(a: Seq<int>, b: Seq<int>) -> bool {
    if all_digit_codes(a) && all_digit_codes(b) {
        num_lt(a, b)
    } else if all_digit_codes(a) {
        true
    } else if all_digit_codes(b) {
        false
    } else {
        lex_lt(a, b)
    }
}

/// Precedence order on pre-release identifier lists: identifiers compare
/// pairwise; a strict prefix precedes its extensions.
pub open spec fn pre_lt(a: Seq<Seq<int>>, b: Seq<Seq<int>>) -> bool
    decreases a.len(),
{
    if b.len() == 0 {
        false
    } else if a.len() == 0 {
        true
    } else if ident_lt(a[0], b[0]) {
        true
    } else if a[0] == b[0] {
        pre_lt(a.drop_first(), b.drop_first())
    } else {
        false
    }
}

/// Semantic-version precedence: the three numeric components compare
/// first; a version with a pre-release part precedes the plain version;
/// pre-release parts compare by [`pre_lt`]. Build parts are ignored.
pub open spec fn version_lt(a: VersionView, b: VersionView) -> bool {
    let (am, an, ap, aq) = (codes(a.major), codes(a.minor), codes(a.patch), ident_codes(a.pre));
    let (bm, bn, bp, bq) = (codes(b.major), codes(b.minor), codes(b.patch), ident_codes(b.pre));
    if num_lt(am, bm) {
        true
    } else if am != bm {
        false
    } else if num_lt(an, bn) {
        true
    } else if an != bn {
        false
    } else if num_lt(ap, bp) {
        true
    } else if ap != bp {
        false
    } else if aq.len() > 0 && bq.len() == 0 {
        true
    } else if aq.len() > 0 && bq.len() > 0 {
        pre_lt(aq, bq)
    } else {
        false
    }
}

/// The order used for sorting: not strictly above.
pub open spec fn version_le(a: VersionView, b: VersionView) -> bool {
    !version_lt(b, a)
}

/// Equal in precedence: the same code points everywhere but in the build
/// part.
pub open spec fn prec_eq(a: VersionView, b: VersionView) -> bool {
    codes(a.major) == codes(b.major) && codes(a.minor) == codes(b.minor) && codes(a.patch)
        == codes(b.patch) && ident_codes(a.pre) == ident_codes(b.pre)
}

pub proof fn lemma_lex_lt_irrefl(a: Seq<int>)
    ensures
        !lex_lt(a, a),
    decreases a.len(),
{
    if a.len() > 0 {
        lemma_lex_lt_irrefl(a.drop_first());
    }
}

pub proof fn lemma_lex_lt_trans(a: Seq<int>, b: Seq<int>, c: Seq<int>)
    requires
        lex_lt(a, b),
        lex_lt(b, c),
    ensures
        lex_lt(a, c),
    decreases a.len(),
{
    if a.len() > 0 {
        if !(a[0] < b[0]) {
            if !(b[0] < c[0]) {
                lemma_lex_lt_trans(a.drop_first(), b.drop_first(), c.drop_first());
            }
        }
    }
}

pub proof fn lemma_lex_lt_connected(a: Seq<int>, b: Seq<int>)
    requires
        !lex_lt(a, b),
        !lex_lt(b, a),
    ensures
        a =~= b,
    decreases a.len(),
{
    if a.len() == 0 {
        assert(b.len() == 0);
    } else {
        assert(b.len() > 0);
        assert(a[0] == b[0]);
        lemma_lex_lt_connected(a.drop_first(), b.drop_first());
        assert(a =~= seq![a[0]] + a.drop_first());
        assert(b =~= seq![b[0]] + b.drop_first());
    }
}

pub proof fn lemma_ident_lt_trans(a: Seq<int>, b: Seq<int>, c: Seq<int>)
    requires
        ident_lt(a, b),
        ident_lt(b, c),
    ensures
        ident_lt(a, c),
{
    if all_digit_codes(a) && all_digit_codes(b) && all_digit_codes(c) {
        if a.len() == b.len() && b.len() == c.len() {
            lemma_lex_lt_trans(a, b, c);
        }
    } else if !all_digit_codes(a) && !all_digit_codes(b) && !all_digit_codes(c) {
        lemma_lex_lt_trans(a, b, c);
    }
}

pub proof fn lemma_ident_lt_connected(a: Seq<int>, b: Seq<int>)
    requires
        !ident_lt(a, b),
        !ident_lt(b, a),
    ensures
        a =~= b,
{
    if all_digit_codes(a) && all_digit_codes(b) {
        lemma_lex_lt_connected(a, b);
    } else if !all_digit_codes(a) && !all_digit_codes(b) {
        lemma_lex_lt_connected(a, b);
    }
}

pub proof fn lemma_ident_lt_irrefl(a: Seq<int>)
    ensures
        !ident_lt(a, a),
{
    lemma_lex_lt_irrefl(a);
}

pub proof fn lemma_pre_lt_irrefl(a: Seq<Seq<int>>)
    ensures
        !pre_lt(a, a),
    decreases a.len(),
{
    if a.len() > 0 {
        lemma_ident_lt_irrefl(a[0]);
        lemma_pre_lt_irrefl(a.drop_first());
    }
}

pub proof fn lemma_pre_lt_trans(a: Seq<Seq<int>>, b: Seq<Seq<int>>, c: Seq<Seq<int>>)
    requires
        pre_lt(a, b),
        pre_lt(b, c),
    ensures
        pre_lt(a, c),
    decreases a.len(),
{
    if a.len() > 0 {
        if ident_lt(a[0], b[0]) {
            if ident_lt(b[0], c[0]) {
                lemma_ident_lt_trans(a[0], b[0], c[0]);
            }
        } else {
            if !ident_lt(b[0], c[0]) {
                lemma_pre_lt_trans(a.drop_first(), b.drop_first(), c.drop_first());
            }
        }
    }
}

pub proof fn lemma_pre_lt_connected(a: Seq<Seq<int>>, b: Seq<Seq<int>>)
    requires
        !pre_lt(a, b),
        !pre_lt(b, a),
    ensures
        a =~= b,
    decreases a.len(),
{
    if a.len() == 0 {
        assert(b.len() == 0);
    } else {
        assert(b.len() > 0);
        lemma_ident_lt_connected(a[0], b[0]);
        lemma_pre_lt_connected(a.drop_first(), b.drop_first());
        assert(a =~= seq![a[0]] + a.drop_first());
        assert(b =~= seq![b[0]] + b.drop_first());
    }
}

pub proof fn lemma_version_lt_irrefl(a: VersionView)
    ensures
        !version_lt(a, a),
{
    lemma_lex_lt_irrefl(codes(a.major));
    lemma_lex_lt_irrefl(codes(a.minor));
    lemma_lex_lt_irrefl(codes(a.patch));
    lemma_pre_lt_irrefl(ident_codes(a.pre));
}

pub proof fn lemma_version_lt_trans(a: VersionView, b: VersionView, c: VersionView)
    requires
        version_lt(a, b),
        version_lt(b, c),
    ensures
        version_lt(a, c),
{
    let (am, an, ap, aq) = (codes(a.major), codes(a.minor), codes(a.patch), ident_codes(a.pre));
    let (bm, bn, bp, bq) = (codes(b.major), codes(b.minor), codes(b.patch), ident_codes(b.pre));
    let (cm, cn, cp, cq) = (codes(c.major), codes(c.minor), codes(c.patch), ident_codes(c.pre));
    lemma_lex_lt_irrefl(am);
    lemma_lex_lt_irrefl(an);
    lemma_lex_lt_irrefl(ap);
    lemma_lex_lt_irrefl(bm);
    lemma_lex_lt_irrefl(bn);
    lemma_lex_lt_irrefl(bp);
    lemma_lex_lt_irrefl(cm);
    lemma_lex_lt_irrefl(cn);
    lemma_lex_lt_irrefl(cp);
    if am == bm && bm == cm {
        if an == bn && bn == cn {
            if ap == bp && bp == cp {
                if bq.len() > 0 && cq.len() == 0 {
                } else if aq.len() > 0 && bq.len() > 0 && cq.len() > 0 {
                    lemma_pre_lt_trans(aq, bq, cq);
                }
            } else if ap != bp && bp != cp {
                if ap.len() == bp.len() && bp.len() == cp.len() {
                    lemma_lex_lt_trans(ap, bp, cp);
                }
            }
        } else if an != bn && bn != cn {
            if an.len() == bn.len() && bn.len() == cn.len() {
                lemma_lex_lt_trans(an, bn, cn);
            }
        }
    } else if am != bm && bm != cm {
        if am.len() == bm.len() && bm.len() == cm.len() {
            lemma_lex_lt_trans(am, bm, cm);
        }
    }
}

/// Versions that neither precedes the other are equal in precedence.
pub proof fn lemma_version_lt_connected(a: VersionView, b: VersionView)
    requires
        !version_lt(a, b),
        !version_lt(b, a),
    ensures
        prec_eq(a, b),
{
    lemma_num_connected(codes(a.major), codes(b.major));
    if codes(a.major) == codes(b.major) {
        lemma_num_connected(codes(a.minor), codes(b.minor));
        if codes(a.minor) == codes(b.minor) {
            lemma_num_connected(codes(a.patch), codes(b.patch));
            if codes(a.patch) == codes(b.patch) {
                if ident_codes(a.pre).len() > 0 && ident_codes(b.pre).len() > 0 {
                    lemma_pre_lt_connected(ident_codes(a.pre), ident_codes(b.pre));
                } else {
                    assert(ident_codes(a.pre) =~= ident_codes(b.pre));
                }
            }
        }
    }
}

/// Digit strings that neither [`num_lt`] orders are equal.
pub proof fn lemma_num_connected(a: Seq<int>, b: Seq<int>)
    ensures
        !num_lt(a, b) && !num_lt(b, a) ==> a == b,
{
    if !num_lt(a, b) && !num_lt(b, a) {
        lemma_lex_lt_connected(a, b);
    }
}

/// `version_le` is total: two versions always compare one way or the
/// other.
pub proof fn lemma_version_le_total(a: VersionView, b: VersionView)
    ensures
        version_le(a, b) || version_le(b, a),
{
    if version_lt(b, a) && version_lt(a, b) {
        lemma_version_lt_trans(a, b, a);
        lemma_version_lt_irrefl(a);
    }
}

/// `version_le` is transitive.
pub proof fn lemma_version_le_trans(a: VersionView, b: VersionView, c: VersionView)
    requires
        version_le(a, b),
        version_le(b, c),
    ensures
        version_le(a, c),
{
    if version_lt(c, a) {
        if version_lt(a, b) {
            lemma_version_lt_trans(c, a, b);
        } else {
            lemma_version_lt_connected(a, b);
            if !version_lt(c, b) {
                lemma_version_lt_connected(b, c);
                assert(version_lt(c, a) == version_lt(b, a)) by {
                    lemma_version_lt_congruence(c, b, a);
                }
            } else {
                assert(version_lt(c, b) == version_lt(c, a)) by {
                    lemma_version_lt_congruence_right(c, b, a);
                }
            }
        }
    }
}

/// The order reads only the code points that [`prec_eq`] compares: equal
/// versions compare alike on the left.
pub proof fn lemma_version_lt_congruence(a: VersionView, b: VersionView, c: VersionView)
    requires
        prec_eq(a, b),
    ensures
        version_lt(a, c) == version_lt(b, c),
{
}

/// Equal versions compare alike on the right.
pub proof fn lemma_version_lt_congruence_right(a: VersionView, b: VersionView, c: VersionView)
    requires
        prec_eq(b, c),
    ensures
        version_lt(a, b) == version_lt(a, c),
{
}

/// Compares two strings lexically by code point.
fn lex_lt_exec(a: &str, b: &str) -> (r: bool)
    ensures
        r == lex_lt(codes(a@), codes(b@)),
{
    let ghost ca = codes(a@);
    let ghost cb = codes(b@);
    let an = a.unicode_len();
    let bn = b.unicode_len();
    let mut i: usize = 0;
    proof {
        assert(ca.skip(0) =~= ca);
        assert(cb.skip(0) =~= cb);
    }
    loop
        invariant
            0 <= i <= an,
            0 <= i <= bn,
            an == a@.len(),
            bn == b@.len(),
            ca == codes(a@),
            cb == codes(b@),
            lex_lt(ca, cb) == lex_lt(ca.skip(i as int), cb.skip(i as int)),
        decreases an - i,
    {
        if i == bn {
            proof {
                assert(cb.skip(i as int).len() == 0);
            }
            return false;
        }
        if i == an {
            proof {
                assert(ca.skip(i as int).len() == 0);
                assert(cb.skip(i as int).len() > 0);
            }
            return true;
        }
        let x = a.get_char(i) as u32;
        let y = b.get_char(i) as u32;
        proof {
            assert(ca.skip(i as int)[0] == a@[i as int] as int);
            assert(cb.skip(i as int)[0] == b@[i as int] as int);
        }
        if x < y {
            return true;
        }
        if x > y {
            return false;
        }
        proof {
            assert(ca.skip(i as int).drop_first() =~= ca.skip(i as int + 1));
            assert(cb.skip(i as int).drop_first() =~= cb.skip(i as int + 1));
        }
        i += 1;
    }
}

/// Checks that every character is a decimal digit.
fn all_digit_codes_exec(s: &str) -> (r: bool)
    ensures
        r == all_digit_codes(codes(s@)),
{
    let n = s.unicode_len();
    let mut i: usize = 0;
    while i < n
        invariant
            0 <= i <= n,
            n == s@.len(),
            forall|j: int| 0 <= j < i ==> 48 <= #[trigger] codes(s@)[j] <= 57,
        decreases n - i,
    {
        let c = s.get_char(i) as u32;
        proof {
            assert(codes(s@)[i as int] == s@[i as int] as int);
        }
        if !(48 <= c && c <= 57) {
            return false;
        }
        i += 1;
    }
    true
}

/// Compares two digit strings numerically.
fn num_lt_exec(a: &str, b: &str) -> (r: bool)
    ensures
        r == num_lt(codes(a@), codes(b@)),
{
    let an = a.unicode_len();
    let bn = b.unicode_len();
    if an < bn {
        true
    } else if an > bn {
        false
    } else {
        lex_lt_exec(a, b)
    }
}

/// Compares two strings for code-point equality.
fn code_eq(a: &str, b: &str) -> (r: bool)
    ensures
        r == (codes(a@) == codes(b@)),
{
    let an = a.unicode_len();
    let bn = b.unicode_len();
    if an != bn {
        proof {
            assert(codes(a@).len() != codes(b@).len());
        }
        return false;
    }
    let mut i: usize = 0;
    while i < an
        invariant
            0 <= i <= an,
            an == a@.len(),
            an == b@.len(),
            forall|j: int| 0 <= j < i ==> #[trigger] codes(a@)[j] == codes(b@)[j],
        decreases an - i,
    {
        proof {
            assert(codes(a@)[i as int] == a@[i as int] as int);
            assert(codes(b@)[i as int] == b@[i as int] as int);
        }
        if a.get_char(i) as u32 != b.get_char(i) as u32 {
            return false;
        }
        i += 1;
    }
    proof {
        assert(codes(a@) =~= codes(b@));
    }
    true
}

/// Compares two pre-release identifiers by precedence.
fn ident_lt_exec(a: &str, b: &str) -> (r: bool)
    ensures
        r == ident_lt(codes(a@), codes(b@)),
{
    let da = all_digit_codes_exec(a);
    let db = all_digit_codes_exec(b);
    if da && db {
        num_lt_exec(a, b)
    } else if da {
        true
    } else if db {
        false
    } else {
        lex_lt_exec(a, b)
    }
}

/// Compares two pre-release identifier lists by precedence.
fn pre_lt_exec(a: &Vec<String>, b: &Vec<String>) -> (r: bool)
    ensures
        r == pre_lt(ident_codes(a.deep_view()), ident_codes(b.deep_view())),
{
    let ghost pa = ident_codes(a.deep_view());
    let ghost pb = ident_codes(b.deep_view());
    let an = a.len();
    let bn = b.len();
    let mut i: usize = 0;
    proof {
        assert(pa.skip(0) =~= pa);
        assert(pb.skip(0) =~= pb);
    }
    loop
        invariant
            0 <= i <= an,
            0 <= i <= bn,
            an == a.len(),
            bn == b.len(),
            pa == ident_codes(a.deep_view()),
            pb == ident_codes(b.deep_view()),
            pa.len() == an,
            pb.len() == bn,
            pre_lt(pa, pb) == pre_lt(pa.skip(i as int), pb.skip(i as int)),
        decreases an - i,
    {
        if i == bn {
            proof {
                assert(pb.skip(i as int).len() == 0);
            }
            return false;
        }
        if i == an {
            proof {
                assert(pa.skip(i as int).len() == 0);
                assert(pb.skip(i as int).len() > 0);
            }
            return true;
        }
        proof {
            assert(pa.skip(i as int)[0] == codes(a.deep_view()[i as int]));
            assert(a.deep_view()[i as int] == a[i as int]@);
            assert(pb.skip(i as int)[0] == codes(b.deep_view()[i as int]));
            assert(b.deep_view()[i as int] == b[i as int]@);
        }
        if ident_lt_exec(a[i].as_str(), b[i].as_str()) {
            return true;
        }
        if !code_eq(a[i].as_str(), b[i].as_str()) {
            return false;
        }
        proof {
            assert(pa.skip(i as int).drop_first() =~= pa.skip(i as int + 1));
            assert(pb.skip(i as int).drop_first() =~= pb.skip(i as int + 1));
        }
        i += 1;
    }
}

/// Compares two parsed versions by precedence.
pub fn version_lt_exec(a: &SemanticVersion, b: &SemanticVersion) -> (r: bool)
    ensures
        r == version_lt(a@, b@),
{
    if num_lt_exec(a.major.as_str(), b.major.as_str()) {
        return true;
    }
    if !code_eq(a.major.as_str(), b.major.as_str()) {
        return false;
    }
    if num_lt_exec(a.minor.as_str(), b.minor.as_str()) {
        return true;
    }
    if !code_eq(a.minor.as_str(), b.minor.as_str()) {
        return false;
    }
    if num_lt_exec(a.patch.as_str(), b.patch.as_str()) {
        return true;
    }
    if !code_eq(a.patch.as_str(), b.patch.as_str()) {
        return false;
    }
    proof {
        assert(ident_codes(a@.pre).len() == a.pre.len());
        assert(ident_codes(b@.pre).len() == b.pre.len());
    }
    if a.pre.len() > 0 && b.pre.len() == 0 {
        return true;
    }
    if a.pre.len() > 0 && b.pre.len() > 0 {
        return pre_lt_exec(&a.pre, &b.pre);
    }
    false
}

/// `version_lt_exec` on `version_le`'s side: not strictly above.
pub fn version_le_exec(a: &SemanticVersion, b: &SemanticVersion) -> (r: bool)
    ensures
        r == version_le(a@, b@),
{
    !version_lt_exec(b, a)
}

/// A sequence that contains the separator splits into at least two pieces.
pub proof fn lemma_split_on_contains(s: Seq<char>, c: char, k: int)
    requires
        0 <= k < s.len(),
        s[k] == c,
    ensures
        split_on(s, c).len() >= 2,
    decreases s.len(),
{
    if s[0] == c {
        lemma_split_on_len(s.drop_first(), c);
    } else {
        lemma_split_on_contains(s.drop_first(), c, k - 1);
    }
}

} // verus!
