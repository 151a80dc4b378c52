//! Discovering the release order: tag names are parsed as semantic
//! versions, tags that do not parse are dropped, and the rest is sorted
//! ascending by precedence, with the `HEAD` sentinel always last.

use crate::text::str_eq;
use crate::version::SemanticVersion;
use crate::version::VersionView;
use crate::version::lemma_split_on_step;
use crate::version::lemma_version_le_trans;
use crate::version::lemma_version_lt_irrefl;
use crate::version::lemma_version_lt_trans;
use crate::version::parse_version;
use crate::version::spec_parse_version;
use crate::version::split_on;
use crate::version::version_le;
use crate::version::version_lt;
use crate::version::version_lt_exec;
use vstd::multiset::Multiset;
use vstd::prelude::*;
use vstd::string::StrSliceExecFns;
use vstd::string::StringExecFns;

verus! {

/// A tag name with every leading `v` removed.
pub open spec fn strip_v(s: Seq<char>) -> Seq<char>
    decreases s.len(),
{
    if s.len() > 0 && s[0] == 'v' {
        strip_v(s.drop_first())
    } else {
        s
    }
}

/// The version a tag name carries: its name, stripped of the `v` prefix,
/// read as a semantic version.
pub open spec fn tag_version(s: Seq<char>) -> Option<VersionView> {
    spec_parse_version(strip_v(s))
}

/// Whether a tag name carries a version.
pub open spec fn tag_parses(s: Seq<char>) -> bool {
    tag_version(s) is Some
}

/// When the first `k` characters are `v` and the next one is not, the
/// strip ends exactly at `k`.
proof fn lemma_strip_v_at(s: Seq<char>, k: int)
    requires
        0 <= k <= s.len(),
        forall|j: int| 0 <= j < k ==> s[j] == 'v',
        k < s.len() ==> s[k] != 'v',
    ensures
        strip_v(s) =~= s.skip(k),
    decreases k,
{
    if k == 0 {
        assert(s.skip(0) =~= s);
    } else {
        let t = s.drop_first();
        lemma_strip_v_at(t, k - 1);
        assert(t.skip(k - 1) =~= s.skip(k));
    }
}

/// Strips every leading `v` from a tag name.
pub fn strip_v_prefix(s: &str) -> (r: &str)
    ensures
        r@ == strip_v(s@),
{
    let n = s.unicode_len();
    let mut i: usize = 0;
    while i < n
        invariant
            0 <= i <= n,
            n == s@.len(),
            forall|j: int| 0 <= j < i ==> s@[j] == 'v',
        decreases n - i,
    {
        if s.get_char(i) != 'v' {
            proof {
                lemma_strip_v_at(s@, i as int);
            }
            return s.substring_char(i, n);
        }
        i += 1;
    }
    proof {
        lemma_strip_v_at(s@, n as int);
    }
    s.substring_char(n, n)
}

/// Parses a tag name: the name with its `v` prefix stripped, read as a
/// semantic version.
pub fn parse_tag(s: &str) -> (r: Option<SemanticVersion>)
    ensures
        match r {
            Some(v) => tag_version(s@) == Some(v@),
            None => tag_version(s@) is None,
        },
{
    let stripped = strip_v_prefix(s);
    parse_version(stripped)
}

/// The `HEAD` sentinel never carries a version.
pub proof fn lemma_head_not_version()
    ensures
        !tag_parses("HEAD"@),
{
    reveal_strlit("HEAD");
    let s = "HEAD"@;
    assert(s.len() == 4);
    assert(strip_v(s) == s);
    assert(forall|j: int| 0 <= j < 4 ==> s[j] != '+');
    lemma_split_on_step(s, '+', 4);
    assert(split_on(s, '+') =~~= seq![s]);
    assert(forall|j: int| 0 <= j < 4 ==> s[j] != '-');
    lemma_split_on_step(s, '-', 4);
    assert(split_on(s, '-') =~~= seq![s]);
    assert(forall|j: int| 0 <= j < 4 ==> s[j] != '.');
    lemma_split_on_step(s, '.', 4);
    assert(split_on(s, '.') =~~= seq![s]);
    assert(split_on(s, '+')[0] == s);
    assert(split_on(split_on(s, '+')[0], '-')[0] == s);
    assert(split_on(split_on(split_on(s, '+')[0], '-')[0], '.').len() == 1);
    assert(spec_parse_version(s) is None);
}

/// A strictly smaller version is not above: the order is asymmetric.
pub proof fn lemma_version_lt_asym(a: VersionView, b: VersionView)
    requires
        version_lt(a, b),
    ensures
        version_le(a, b),
{
    if version_lt(b, a) {
        lemma_version_lt_trans(a, b, a);
        lemma_version_lt_irrefl(a);
    }
}

/// The names of a tag/version list.
pub open spec fn names_of(ps: Seq<(String, SemanticVersion)>) -> Seq<Seq<char>> {
    ps.map_values(|p: (String, SemanticVersion)| p.0@)
}

/// The tags of a set that parse as versions, in input order.
pub open spec fn parseable_tags(ts: Seq<Seq<char>>) -> Seq<Seq<char>> {
    ts.filter(|t: Seq<char>| tag_parses(t))
}

/// The resolved order without its trailing `HEAD` sentinel: the whole
/// order when the input holds no `HEAD` entry.
pub open spec fn order_body(ts: Seq<Seq<char>>, out: Seq<Seq<char>>) -> Seq<Seq<char>> {
    if ts.contains("HEAD"@) {
        out.drop_last()
    } else {
        out
    }
}

/// Every entry of the working list carries the version its name parses
/// to, and the versions ascend.
pub open spec fn sorted_tagged(ps: Seq<(String, SemanticVersion)>) -> bool {
    &&& forall|k: int|
        0 <= k < ps.len() ==> tag_version((#[trigger] ps[k]).0@) == Some(ps[k].1@)
    &&& forall|i: int, j: int|
        0 <= i <= j < ps.len() ==> version_le((#[trigger] ps[i]).1@, (#[trigger] ps[j]).1@)
}

/// Resolves the release order of a set of tag names: tags that parse as
/// versions, sorted ascending by precedence, then the `HEAD` sentinel when
/// the set holds it. Tags that parse as no version are absent from the
/// result; ties between equal versions may come out in either order.
pub fn resolve_tag_order(tags: &Vec<String>) -> (r: Vec<String>)
    ensures
        tags.deep_view().contains("HEAD"@) ==> r.deep_view().len() > 0 && r.deep_view().last()
            == "HEAD"@,
        order_body(tags.deep_view(), r.deep_view()).to_multiset() == parseable_tags(
            tags.deep_view(),
        ).to_multiset(),
        forall|i: int, j: int|
            0 <= i <= j < order_body(tags.deep_view(), r.deep_view()).len() ==> version_le(
                tag_version(#[trigger] order_body(tags.deep_view(), r.deep_view())[i]).unwrap(),
                tag_version(#[trigger] order_body(tags.deep_view(), r.deep_view())[j]).unwrap(),
            ),
        forall|i: int|
            0 <= i < order_body(tags.deep_view(), r.deep_view()).len() ==> tag_parses(
                #[trigger] order_body(tags.deep_view(), r.deep_view())[i],
            ),
{
    let ghost ts = tags.deep_view();
    let mut sorted: Vec<(String, SemanticVersion)> = Vec::new();
    let mut has_head = false;
    let mut idx: usize = 0;
    proof {
        assert(parseable_tags(ts.take(0)) =~= Seq::<Seq<char>>::empty()) by {
            reveal(Seq::filter);
        }
        assert(names_of(sorted@) =~= Seq::<Seq<char>>::empty());
    }
    while idx < tags.len()
        invariant
            0 <= idx <= tags.len(),
            ts == tags.deep_view(),
            ts.len() == tags.len(),
            sorted_tagged(sorted@),
            names_of(sorted@).to_multiset() == parseable_tags(ts.take(idx as int)).to_multiset(),
            has_head == ts.take(idx as int).contains("HEAD"@),
        decreases tags.len() - idx,
    {
        let ghost prev = ts.take(idx as int);
        let ghost cur = ts[idx as int];
        let tag = &tags[idx];
        proof {
            assert(tag@ == cur);
            assert(ts.take(idx as int + 1) =~= prev.push(cur));
            assert(prev.push(cur).drop_last() =~= prev);
        }
        match parse_tag(tag.as_str()) {
            Some(v) => {
                proof {
                    assert(parseable_tags(prev.push(cur)) =~= parseable_tags(prev).push(cur)) by {
                        reveal(Seq::filter);
                    }
                    lemma_head_not_version();
                    assert(cur != "HEAD"@);
                    if prev.push(cur).contains("HEAD"@) {
                        let w = choose|w: int|
                            0 <= w < prev.push(cur).len() && prev.push(cur)[w] == "HEAD"@;
                        assert(w < prev.len());
                        assert(prev[w] == "HEAD"@);
                    }
                    if prev.contains("HEAD"@) {
                        let w = choose|w: int| 0 <= w < prev.len() && prev[w] == "HEAD"@;
                        assert(prev.push(cur)[w] == "HEAD"@);
                    }
                }
                let ghost old_sorted = sorted@;
                let mut j = sorted.len();
                while j > 0 && version_lt_exec(&v, &sorted[j - 1].1)
                    invariant
                        0 <= j <= sorted.len(),
                        sorted@ == old_sorted,
                        sorted_tagged(sorted@),
                        forall|k: int|
                            j <= k < sorted@.len() ==> version_lt(v@, (#[trigger] sorted@[k]).1@),
                    decreases j,
                {
                    j -= 1;
                }
                let entry = (tag.clone(), v);
                let ghost ge = entry;
                sorted.insert(j, entry);
                proof {
                    let ns = sorted@;
                    assert(ns == old_sorted.insert(j as int, ge));
                    assert(ge.0@ == cur);
                    assert forall|i: int, k: int|
                        0 <= i <= k < ns.len() implies version_le(
                        (#[trigger] ns[i]).1@,
                        (#[trigger] ns[k]).1@,
                    ) by {
                        if i == k {
                            lemma_version_lt_irrefl(ns[i].1@);
                        } else if k == j {
                            if i < j {
                                assert(ns[i] == old_sorted[i]);
                                assert(version_le(old_sorted[j - 1].1@, v@));
                                if i < j - 1 {
                                    lemma_version_le_trans(
                                        old_sorted[i].1@,
                                        old_sorted[j - 1].1@,
                                        v@,
                                    );
                                }
                            }
                        } else if i == j {
                            assert(ns[k] == old_sorted[k - 1]);
                            lemma_version_lt_asym(v@, old_sorted[k - 1].1@);
                        } else if i < j && k > j {
                            assert(ns[i] == old_sorted[i]);
                            assert(ns[k] == old_sorted[k - 1]);
                            assert(version_le(old_sorted[j - 1].1@, v@));
                            lemma_version_lt_asym(v@, old_sorted[k - 1].1@);
                            lemma_version_le_trans(old_sorted[i].1@, old_sorted[j - 1].1@, v@);
                            lemma_version_le_trans(old_sorted[i].1@, v@, old_sorted[k - 1].1@);
                        } else if k < j {
                            assert(ns[i] == old_sorted[i]);
                            assert(ns[k] == old_sorted[k]);
                        } else {
                            assert(ns[i] == old_sorted[i - 1]);
                            assert(ns[k] == old_sorted[k - 1]);
                        }
                    }
                    broadcast use vstd::seq_lib::group_to_multiset_ensures;

                    let names_old = names_of(old_sorted);
                    let left = names_old.take(j as int);
                    let right = names_old.skip(j as int);
                    assert(names_of(ns) =~= left.push(cur) + right);
                    vstd::seq_lib::lemma_multiset_commutative(left.push(cur), right);
                    vstd::seq_lib::lemma_multiset_commutative(left, right);
                    assert(left + right =~= names_old);
                    assert(left.push(cur).to_multiset() =~= left.to_multiset().insert(cur));
                    assert(names_of(ns).to_multiset() =~= names_old.to_multiset().insert(cur));
                    assert(parseable_tags(prev).push(cur).to_multiset() =~= parseable_tags(
                        prev,
                    ).to_multiset().insert(cur));
                }
            },
            None => {
                proof {
                    assert(parseable_tags(prev.push(cur)) =~= parseable_tags(prev)) by {
                        reveal(Seq::filter);
                    }
                }
                if str_eq(tag.as_str(), "HEAD") {
                    has_head = true;
                    proof {
                        assert(prev.push(cur).last() == cur);
                        assert(prev.push(cur).contains("HEAD"@));
                    }
                } else {
                    proof {
                        if prev.push(cur).contains("HEAD"@) {
                            let w = choose|w: int|
                                0 <= w < prev.push(cur).len() && prev.push(cur)[w] == "HEAD"@;
                            assert(w < prev.len());
                            assert(prev[w] == "HEAD"@);
                        }
                        if prev.contains("HEAD"@) {
                            let w = choose|w: int| 0 <= w < prev.len() && prev[w] == "HEAD"@;
                            assert(prev.push(cur)[w] == "HEAD"@);
                        }
                    }
                }
            },
        }
        idx += 1;
    }
    let mut out: Vec<String> = Vec::new();
    let mut k: usize = 0;
    while k < sorted.len()
        invariant
            0 <= k <= sorted.len(),
            sorted_tagged(sorted@),
            out.deep_view() =~= names_of(sorted@).take(k as int),
        decreases sorted.len() - k,
    {
        let ghost before = out.deep_view();
        out.push(sorted[k].0.clone());
        proof {
            assert(out.deep_view() =~= before.push(sorted@[k as int].0@));
            assert(names_of(sorted@).take(k as int + 1) =~= names_of(sorted@).take(
                k as int,
            ).push(names_of(sorted@)[k as int]));
        }
        k += 1;
    }
    proof {
        assert(out.deep_view() =~= names_of(sorted@));
    }
    if has_head {
        let ghost before = out.deep_view();
        let head = String::from_str("HEAD");
        out.push(head);
        proof {
            assert(out.deep_view() =~= before.push("HEAD"@));
            assert(out.deep_view().drop_last() =~= before);
            lemma_head_not_version();
        }
    }
    proof {
        assert(ts.take(ts.len() as int) =~= ts);
        let ob = order_body(ts, out.deep_view());
        assert(ts.contains("HEAD"@) == has_head);
        assert(ob =~= names_of(sorted@));
        assert(ob.to_multiset() == parseable_tags(ts).to_multiset());
        assert forall|i: int, j: int| 0 <= i <= j < ob.len() implies version_le(
            tag_version(#[trigger] ob[i]).unwrap(),
            tag_version(#[trigger] ob[j]).unwrap(),
        ) by {
            assert(ob[i] == sorted@[i].0@);
            assert(ob[j] == sorted@[j].0@);
            assert(tag_version(ob[i]) == Some(sorted@[i].1@));
            assert(tag_version(ob[j]) == Some(sorted@[j].1@));
        }
        assert forall|i: int| 0 <= i < ob.len() implies tag_parses(#[trigger] ob[i]) by {
            assert(ob[i] == sorted@[i].0@);
        }
    }
    out
}

/// The adjacent pairs of a sequence: each element beside its successor.
pub open spec fn spec_pairwise(ts: Seq<Seq<char>>) -> Seq<(Seq<char>, Seq<char>)> {
    if ts.len() == 0 {
        Seq::<(Seq<char>, Seq<char>)>::empty()
    } else {
        Seq::new((ts.len() - 1) as nat, |i: int| (ts[i], ts[i + 1]))
    }
}

/// Zips a tag list with itself shifted by one: each tag beside its
/// successor.
pub fn pairwise(tags: &Vec<String>) -> (r: Vec<(String, String)>)
    ensures
        r.deep_view() == spec_pairwise(tags.deep_view()),
{
    let ghost ts = tags.deep_view();
    let mut r: Vec<(String, String)> = Vec::new();
    if tags.len() == 0 {
        proof {
            assert(r.deep_view() =~= spec_pairwise(ts));
        }
        return r;
    }
    let mut i: usize = 0;
    while i < tags.len() - 1
        invariant
            tags.len() > 0,
            0 <= i <= tags.len() - 1,
            ts == tags.deep_view(),
            ts.len() == tags.len(),
            r.deep_view() =~= spec_pairwise(ts).take(i as int),
        decreases tags.len() - 1 - i,
    {
        let ghost before = r.deep_view();
        r.push((tags[i].clone(), tags[i + 1].clone()));
        proof {
            assert(r.deep_view() =~= before.push((ts[i as int], ts[i as int + 1])));
            assert(spec_pairwise(ts).take(i as int + 1) =~= spec_pairwise(ts).take(
                i as int,
            ).push(spec_pairwise(ts)[i as int]));
        }
        i += 1;
    }
    proof {
        assert(spec_pairwise(ts).take(ts.len() - 1) =~= spec_pairwise(ts));
    }
    r
}

/// The comparison ranges of an ordered tag sequence: its adjacent pairs,
/// and one final pair from the newest tag to the `HEAD` sentinel. With no
/// tag at all there is no range; with one tag the single range runs from
/// it to `HEAD`.
pub open spec fn spec_pair_ranges(ts: Seq<Seq<char>>) -> Seq<(Seq<char>, Seq<char>)> {
    let base = if ts.len() > 0 && ts.last() == "HEAD"@ {
        ts.drop_last()
    } else {
        ts
    };
    if base.len() == 0 {
        Seq::<(Seq<char>, Seq<char>)>::empty()
    } else {
        spec_pairwise(base).push((base.last(), "HEAD"@))
    }
}

/// Builds the comparison ranges for an ordered tag sequence, oldest
/// first: `(t0,t1), ..., (t(n-2), t(n-1)), (t(n-1), HEAD)`.
pub fn pair_ranges(ordered: &Vec<String>) -> (r: Vec<(String, String)>)
    ensures
        r.deep_view() == spec_pair_ranges(ordered.deep_view()),
{
    let ghost ts = ordered.deep_view();
    let n = ordered.len();
    let has_head = n > 0 && str_eq(ordered[n - 1].as_str(), "HEAD");
    let base_len = if has_head {
        n - 1
    } else {
        n
    };
    let ghost base = if ts.len() > 0 && ts.last() == "HEAD"@ {
        ts.drop_last()
    } else {
        ts
    };
    proof {
        assert(base.len() == base_len);
        assert(forall|i: int| 0 <= i < base_len ==> base[i] == ts[i]);
    }
    let mut r: Vec<(String, String)> = Vec::new();
    if base_len == 0 {
        proof {
            assert(r.deep_view() =~= spec_pair_ranges(ts));
        }
        return r;
    }
    let mut i: usize = 0;
    while i < base_len - 1
        invariant
            base_len >= 1,
            0 <= i <= base_len - 1,
            ts == ordered.deep_view(),
            ts.len() == ordered.len(),
            base_len <= ordered.len(),
            base.len() == base_len,
            forall|k: int| 0 <= k < base_len ==> base[k] == ts[k],
            r.deep_view() =~= spec_pairwise(base).take(i as int),
        decreases base_len - 1 - i,
    {
        let ghost before = r.deep_view();
        r.push((ordered[i].clone(), ordered[i + 1].clone()));
        proof {
            assert(r.deep_view() =~= before.push((base[i as int], base[i as int + 1])));
            assert(spec_pairwise(base).take(i as int + 1) =~= spec_pairwise(base).take(
                i as int,
            ).push(spec_pairwise(base)[i as int]));
        }
        i += 1;
    }
    let ghost before = r.deep_view();
    r.push((ordered[base_len - 1].clone(), String::from_str("HEAD")));
    proof {
        assert(spec_pairwise(base).take(base.len() - 1) =~= spec_pairwise(base));
        assert(r.deep_view() =~= before.push((base.last(), "HEAD"@)));
        assert(r.deep_view() =~= spec_pair_ranges(ts));
    }
    r
}

/// Law: the resolved order is strict where it can be. Tags whose versions
/// are pairwise distinct in precedence stand in strictly ascending
/// order; two tags naming the same version (say `1.2.3` and `v1.2.3`)
/// cannot be ordered strictly and are excluded here. That `HEAD` stands
/// last and that unparseable tags are absent is stated by
/// [`resolve_tag_order`] itself.
pub proof fn lemma_resolved_order_strict(body: Seq<Seq<char>>)
    requires
        forall|i: int| 0 <= i < body.len() ==> tag_parses(#[trigger] body[i]),
        forall|i: int, j: int|
            0 <= i <= j < body.len() ==> version_le(
                tag_version(#[trigger] body[i]).unwrap(),
                tag_version(#[trigger] body[j]).unwrap(),
            ),
        forall|i: int, j: int|
            0 <= i < j < body.len() ==> !crate::version::prec_eq(
                tag_version(#[trigger] body[i]).unwrap(),
                tag_version(#[trigger] body[j]).unwrap(),
            ),
    ensures
        forall|i: int, j: int|
            0 <= i < j < body.len() ==> version_lt(
                tag_version(#[trigger] body[i]).unwrap(),
                tag_version(#[trigger] body[j]).unwrap(),
            ),
{
    assert forall|i: int, j: int| 0 <= i < j < body.len() implies version_lt(
        tag_version(#[trigger] body[i]).unwrap(),
        tag_version(#[trigger] body[j]).unwrap(),
    ) by {
        let vi = tag_version(body[i]).unwrap();
        let vj = tag_version(body[j]).unwrap();
        if !version_lt(vi, vj) {
            crate::version::lemma_version_lt_connected(vi, vj);
        }
    }
}

/// Law: pairing is a function of the tag order alone. Deriving the
/// ranges twice from the same order yields the same pairs: the adjacent
/// pairs of the order, and the fixed trailing pair that runs from the
/// newest tag to `HEAD`.
pub proof fn lemma_pairing_deterministic(a: Seq<Seq<char>>, b: Seq<Seq<char>>)
    requires
        a == b,
    ensures
        spec_pair_ranges(a) == spec_pair_ranges(b),
        spec_pair_ranges(a).len() > 0 ==> spec_pair_ranges(a).last().1 == "HEAD"@,
{
    let base = if a.len() > 0 && a.last() == "HEAD"@ {
        a.drop_last()
    } else {
        a
    };
    if base.len() > 0 {
        assert(spec_pair_ranges(a).last() == (base.last(), "HEAD"@));
    }
}

} // verus!
