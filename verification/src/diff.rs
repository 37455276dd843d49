//! Grouping of store paths into packages, and the difference of two closures.
use vstd::prelude::*;

use crate::text::{
    chars_of, compare_text, insert_sorted, lemma_text_le_antisymmetric, lemma_text_lt_transitive,
    is_ascii_digit, lemma_text_order_total, text_lt, text_order, texts, TextOrder,
};

verus! {

broadcast use vstd::string::group_string_axioms;

// ---------------------------------------------------------------------------
// Store path names
// ---------------------------------------------------------------------------
/// `/nix/store/`
pub open spec fn store_dir() -> Seq<char> {
    seq!['/', 'n', 'i', 'x', '/', 's', 't', 'o', 'r', 'e', '/']
}

/// `.drv`
pub open spec fn drv_suffix() -> Seq<char> {
    seq!['.', 'd', 'r', 'v']
}

/// A character of a store hash: a lower-case ASCII letter or a digit.
pub open spec fn is_hash_char(c: char) -> bool {
    ('a' <= c && c <= 'z') || is_ascii_digit(c)
}

/// Scanning `p` from index `i`, having seen `seen` slashes: the index of the
/// fourth slash of `p`, or the length of `p` when it has fewer.
pub open spec fn fourth_slash_from(p: Seq<char>, i: int, seen: nat) -> int
    decreases p.len() - i,
{
    if i < 0 || i >= p.len() {
        p.len() as int
    } else if p[i] == '/' {
        if seen == 3 {
            i
        } else {
            fourth_slash_from(p, i + 1, seen + 1)
        }
    } else {
        fourth_slash_from(p, i + 1, seen)
    }
}

/// The store entry a path lies in: the path cut before its fourth `/`
/// (`/nix/store/<hash>-<name>/bin/x` gives `/nix/store/<hash>-<name>`).
/// A path with at most three slashes is its own entry.
pub open spec fn store_base(p: Seq<char>) -> Seq<char> {
    p.take(fourth_slash_from(p, 0, 0))
}

/// The end of the run of hash characters of `b` that starts at `i`.
pub open spec fn hash_run_end(b: Seq<char>, i: int) -> int
    decreases b.len() - i,
{
    if 0 <= i < b.len() && is_hash_char(b[i]) {
        hash_run_end(b, i + 1)
    } else {
        i
    }
}

/// For a store entry `/nix/store/<hash>-<rest>`, with a non-empty hash of
/// hash characters and a non-empty rest without line breaks, the rest.
pub open spec fn store_name_part(b: Seq<char>) -> Option<Seq<char>> {
    let n = store_dir().len() as int;
    if b.len() >= n && b.take(n) == store_dir() {
        let e = hash_run_end(b, n);
        if n < e && e + 1 < b.len() && b[e] == '-' && !b.skip(e + 1).contains('\n') {
            Some(b.skip(e + 1))
        } else {
            None
        }
    } else {
        None
    }
}

/// Whether the name part `r` can end at `k`: what follows is `-` and a digit
/// (a version), exactly `.drv`, or nothing.
pub open spec fn splits_at(r: Seq<char>, k: int) -> bool {
    ||| (k + 1 < r.len() && r[k] == '-' && is_ascii_digit(r[k + 1]))
    ||| r.skip(k) == drv_suffix()
    ||| k == r.len()
}

/// The first `k' >= k` at which the name part `r` can end.
pub open spec fn first_split(r: Seq<char>, k: int) -> int
    decreases r.len() - k,
{
    if k >= r.len() {
        r.len() as int
    } else if splits_at(r, k) {
        k
    } else {
        first_split(r, k + 1)
    }
}

/// The version held by what follows the package name: after `-`, up to a
/// final `.drv`.
pub open spec fn version_after_name(t: Seq<char>) -> Option<Seq<char>> {
    if t.len() >= 2 && t[0] == '-' && is_ascii_digit(t[1]) {
        if t.len() >= 6 && t.skip(t.len() - 4) == drv_suffix() {
            Some(t.subrange(1, t.len() - 4))
        } else {
            Some(t.skip(1))
        }
    } else {
        None
    }
}

/// The package name and version of a store path, as the pattern
/// `^/nix/store/[a-z0-9]+-(.+?)(-([0-9].*?))?(\.drv)?$` reads its store entry:
/// the name is the shortest non-empty prefix of the part after the hash that
/// is followed by `-<digit>`, by exactly `.drv`, or by nothing. A store entry
/// outside that shape is its own name, without a version.
pub open spec fn spec_pname_version(p: Seq<char>) -> (Seq<char>, Option<Seq<char>>) {
    let b = store_base(p);
    match store_name_part(b) {
        Some(r) => {
            let k = first_split(r, 1);
            (r.take(k), version_after_name(r.skip(k)))
        },
        None => (b, None),
    }
}

fn is_digit_char(c: char) -> (r: bool)
    ensures
        r == is_ascii_digit(c),
{
    '0' <= c && c <= '9'
}

fn is_hash_char_exec(c: char) -> (r: bool)
    ensures
        r == is_hash_char(c),
{
    ('a' <= c && c <= 'z') || is_digit_char(c)
}

/// The length of the store entry of a path given by its characters.
fn store_base_len(cs: &Vec<char>) -> (n: usize)
    ensures
        n as int == fourth_slash_from(cs@, 0, 0),
        n <= cs.len(),
{
    let mut i: usize = 0;
    let mut seen: usize = 0;
    while i < cs.len()
        invariant
            i <= cs.len(),
            seen <= 3,
            fourth_slash_from(cs@, 0, 0) == fourth_slash_from(cs@, i as int, seen as nat),
        decreases cs.len() - i,
    {
        if cs[i] == '/' {
            if seen == 3 {
                return i;
            }
            seen = seen + 1;
        }
        i = i + 1;
    }
    i
}

/// Whether `cs[from..to]` is exactly `.drv`.
fn is_drv_at(cs: &Vec<char>, from: usize, to: usize) -> (r: bool)
    requires
        from <= to <= cs.len(),
    ensures
        r == (cs@.subrange(from as int, to as int) == drv_suffix()),
{
    if to - from == 4 && cs[from] == '.' && cs[from + 1] == 'd' && cs[from + 2] == 'r'
        && cs[from + 3] == 'v' {
        assert(cs@.subrange(from as int, to as int) =~= drv_suffix());
        true
    } else {
        assert(drv_suffix().len() == 4);
        assert(drv_suffix()[0] == '.' && drv_suffix()[1] == 'd' && drv_suffix()[2] == 'r');
        assert(drv_suffix()[3] == 'v');
        if to - from == 4 {
            assert(cs@.subrange(from as int, to as int)[0] == cs@[from as int]);
            assert(cs@.subrange(from as int, to as int)[1] == cs@[from + 1]);
            assert(cs@.subrange(from as int, to as int)[2] == cs@[from + 2]);
            assert(cs@.subrange(from as int, to as int)[3] == cs@[from + 3]);
        }
        false
    }
}

/// Whether `cs[0..11]` is `/nix/store/`.
fn has_store_dir(cs: &Vec<char>, len: usize) -> (r: bool)
    requires
        len <= cs.len(),
    ensures
        r == (len >= 11 && cs@.take(len as int).take(11) == store_dir()),
{
    if len >= 11 && cs[0] == '/' && cs[1] == 'n' && cs[2] == 'i' && cs[3] == 'x' && cs[4] == '/'
        && cs[5] == 's' && cs[6] == 't' && cs[7] == 'o' && cs[8] == 'r' && cs[9] == 'e'
        && cs[10] == '/' {
        assert(cs@.take(len as int).take(11) =~= store_dir());
        true
    } else {
        if len >= 11 {
            let ghost t = cs@.take(len as int).take(11);
            assert(t[0] == cs@[0] && t[1] == cs@[1] && t[2] == cs@[2] && t[3] == cs@[3]);
            assert(t[4] == cs@[4] && t[5] == cs@[5] && t[6] == cs@[6] && t[7] == cs@[7]);
            assert(t[8] == cs@[8] && t[9] == cs@[9] && t[10] == cs@[10]);
            assert(store_dir()[0] == '/' && store_dir()[1] == 'n' && store_dir()[2] == 'i');
            assert(store_dir()[3] == 'x' && store_dir()[4] == '/' && store_dir()[5] == 's');
            assert(store_dir()[6] == 't' && store_dir()[7] == 'o' && store_dir()[8] == 'r');
            assert(store_dir()[9] == 'e' && store_dir()[10] == '/');
        }
        false
    }
}

/// Splits a store path into its package name and version, per
/// [`spec_pname_version`].
#[verifier::loop_isolation(false)]
pub fn parse_pname_version(path: &str) -> (res: (String, Option<String>))
    ensures
        res.0@ == spec_pname_version(path@).0,
        res.1.deep_view() == spec_pname_version(path@).1,
{
    let cs = chars_of(path);
    let n = store_base_len(&cs);
    let ghost b = cs@.take(n as int);
    let base = path.substring_char(0, n);
    assert(base@ =~= b);
    if !has_store_dir(&cs, n) {
        return (base.to_owned(), None);
    }
    let mut e: usize = 11;
    while e < n && is_hash_char_exec(cs[e])
        invariant
            11 <= e <= n,
            n <= cs.len(),
            b == cs@.take(n as int),
            hash_run_end(b, 11) == hash_run_end(b, e as int),
        decreases n - e,
    {
        e = e + 1;
    }
    assert(hash_run_end(b, e as int) == e as int);
    if !(11 < e && e < n && e + 1 < n && cs[e] == '-') {
        return (base.to_owned(), None);
    }
    let start = e + 1;
    let mut j = start;
    while j < n
        invariant
            start <= j <= n,
            n <= cs.len(),
            forall|q: int| start <= q < j ==> cs@[q] != '\n',
        decreases n - j,
    {
        if cs[j] == '\n' {
            assert(b.skip(start as int)[j - start] == '\n');
            return (base.to_owned(), None);
        }
        j = j + 1;
    }
    let ghost r = b.skip(start as int);
    assert(!r.contains('\n'));
    assert(store_name_part(b) == Some(r));
    let rl = n - start;
    let mut k: usize = 1;
    while k < rl && !((k + 1 < rl && cs[start + k] == '-' && is_digit_char(cs[start + k + 1]))
        || is_drv_at(&cs, start + k, n))
        invariant
            1 <= k <= rl,
            rl == n - start,
            start + rl <= cs.len(),
            n <= cs.len(),
            r == cs@.subrange(start as int, n as int),
            first_split(r, 1) == first_split(r, k as int),
        decreases rl - k,
    {
        assert(r.skip(k as int) =~= cs@.subrange(start + k, n as int));
        k = k + 1;
    }
    assert(r.skip(k as int) =~= cs@.subrange(start + k, n as int));
    assert(first_split(r, k as int) == k);
    let pname = path.substring_char(start, start + k);
    assert(pname@ =~= r.take(k as int));
    let a = start + k;
    let ghost t = r.skip(k as int);
    assert(t =~= cs@.subrange(a as int, n as int));
    let tl = n - a;
    let version = if tl >= 2 && cs[a] == '-' && is_digit_char(cs[a + 1]) {
        assert(t[0] == cs@[a as int] && t[1] == cs@[a + 1]);
        if tl >= 6 && is_drv_at(&cs, n - 4, n) {
            assert(t.skip(t.len() - 4) =~= cs@.subrange(n - 4, n as int));
            let v = path.substring_char(a + 1, n - 4);
            assert(v@ =~= t.subrange(1, t.len() - 4));
            Some(v.to_owned())
        } else {
            if tl >= 6 {
                assert(t.skip(t.len() - 4) =~= cs@.subrange(n - 4, n as int));
            }
            let v = path.substring_char(a + 1, n);
            assert(v@ =~= t.skip(1));
            Some(v.to_owned())
        }
    } else {
        if tl >= 2 {
            assert(t[0] == cs@[a as int] && t[1] == cs@[a + 1]);
        }
        None
    };
    (pname.to_owned(), version)
}

// ---------------------------------------------------------------------------
// Packages of a closure
// ---------------------------------------------------------------------------
/// A store path of a closure, with the size of its NAR serialisation.
pub struct ClosurePathRef<'a> {
    pub path: &'a str,
    pub nar_size: i64,
}

impl<'a> View for ClosurePathRef<'a> {
    type V = (Seq<char>, i64);

    open spec fn view(&self) -> (Seq<char>, i64) {
        (self.path@, self.nar_size)
    }
}

/// A closure as a sequence of (store path, NAR size).
pub open spec fn closure_model(paths: Seq<ClosurePathRef<'_>>) -> Seq<(Seq<char>, i64)> {
    paths.map_values(|p: ClosurePathRef<'_>| p@)
}

/// `<none>`: the version recorded for a path without one.
pub open spec fn none_label() -> Seq<char> {
    seq!['<', 'n', 'o', 'n', 'e', '>']
}

/// The package name of a store path.
pub open spec fn pname_of(p: Seq<char>) -> Seq<char> {
    spec_pname_version(p).0
}

/// The version of a store path, `<none>` where it has none.
pub open spec fn version_label(p: Seq<char>) -> Seq<char> {
    match spec_pname_version(p).1 {
        Some(v) => v,
        None => none_label(),
    }
}

/// Whether some path of the closure belongs to the package `name`.
pub open spec fn in_closure(m: Seq<(Seq<char>, i64)>, name: Seq<char>) -> bool {
    exists|i: int| 0 <= i < m.len() && #[trigger] pname_of(m[i].0) == name
}

/// The versions of the paths of package `name`, in closure order.
pub open spec fn versions_in(m: Seq<(Seq<char>, i64)>, name: Seq<char>) -> Seq<Seq<char>>
    decreases m.len(),
{
    if m.len() == 0 {
        Seq::empty()
    } else {
        let prev = versions_in(m.drop_last(), name);
        if pname_of(m.last().0) == name {
            prev.push(version_label(m.last().0))
        } else {
            prev
        }
    }
}

/// The total NAR size of the paths of package `name`.
pub open spec fn size_in(m: Seq<(Seq<char>, i64)>, name: Seq<char>) -> int
    decreases m.len(),
{
    if m.len() == 0 {
        0
    } else {
        let prev = size_in(m.drop_last(), name);
        if pname_of(m.last().0) == name {
            prev + m.last().1
        } else {
            prev
        }
    }
}

/// The versions of package `name`, sorted; empty when the closure does not
/// hold the package.
pub open spec fn sorted_versions(m: Seq<(Seq<char>, i64)>, name: Seq<char>) -> Seq<Seq<char>> {
    versions_in(m, name).sort_by(text_order())
}

/// Every running total of a package's NAR size, in closure order, fits in
/// an `i64`.
pub open spec fn sizes_fit(m: Seq<(Seq<char>, i64)>) -> bool {
    forall|name: Seq<char>, k: int|
        0 <= k <= m.len() ==> i64::MIN <= #[trigger] size_in(m.take(k), name) <= i64::MAX
}

/// The paths of a closure that belong to one package.
pub struct PackageGroup {
    pub name: String,
    /// Sorted.
    pub versions: Vec<String>,
    pub nar_size: i64,
}

/// `g` lists the packages of closure `m`: sorted by name without repeats,
/// each with the sorted versions and the total size of its paths.
pub open spec fn describes_groups(g: Seq<PackageGroup>, m: Seq<(Seq<char>, i64)>) -> bool {
    &&& forall|i: int, j: int| 0 <= i < j < g.len() ==> text_lt(#[trigger] g[i].name@, #[trigger] g[j].name@)
    &&& forall|i: int| 0 <= i < g.len() ==> in_closure(m, #[trigger] g[i].name@)
    &&& forall|i: int| 0 <= i < g.len() ==> texts(#[trigger] g[i].versions@) == sorted_versions(m, g[i].name@)
    &&& forall|i: int| 0 <= i < g.len() ==> #[trigger] g[i].nar_size == size_in(m, g[i].name@)
    &&& forall|name: Seq<char>| in_closure(m, name) ==> exists|i: int| 0 <= i < g.len() && #[trigger] g[i].name@ == name
}

/// Where `name` stands among the names of `g`, sorted without repeats: its
/// index if present, else the index at which it would be inserted.
fn locate_group(g: &Vec<PackageGroup>, name: &str) -> (r: (bool, usize))
    requires
        forall|i: int, j: int| 0 <= i < j < g.len() ==> text_lt(#[trigger] g@[i].name@, #[trigger] g@[j].name@),
    ensures
        r.1 <= g.len(),
        r.0 ==> r.1 < g.len() && g@[r.1 as int].name@ == name@,
        !r.0 ==> forall|i: int| 0 <= i < r.1 ==> text_lt(#[trigger] g@[i].name@, name@),
        !r.0 ==> forall|i: int| r.1 <= i < g.len() ==> text_lt(name@, #[trigger] g@[i].name@),
{
    let mut lo: usize = 0;
    let mut hi: usize = g.len();
    while lo < hi
        invariant
            lo <= hi <= g.len(),
            forall|i: int, j: int| 0 <= i < j < g.len() ==> text_lt(#[trigger] g@[i].name@, #[trigger] g@[j].name@),
            forall|i: int| 0 <= i < lo ==> text_lt(#[trigger] g@[i].name@, name@),
            forall|i: int| hi <= i < g.len() ==> text_lt(name@, #[trigger] g@[i].name@),
        decreases hi - lo,
    {
        let mid = lo + (hi - lo) / 2;
        let c = compare_text(g[mid].name.as_str(), name);
        if c == TextOrder::Equal {
            return (true, mid);
        } else if c == TextOrder::Less {
            assert forall|i: int| 0 <= i < mid + 1 implies text_lt(#[trigger] g@[i].name@, name@) by {
                if i < mid {
                    lemma_text_lt_transitive(g@[i].name@, g@[mid as int].name@, name@);
                }
            }
            lo = mid + 1;
        } else {
            assert forall|i: int| mid <= i < g.len() implies text_lt(name@, #[trigger] g@[i].name@) by {
                if i > mid {
                    lemma_text_lt_transitive(name@, g@[mid as int].name@, g@[i].name@);
                }
            }
            hi = mid;
        }
    }
    (false, lo)
}

fn none_version() -> (s: String)
    ensures
        s@ == none_label(),
{
    let s = "<none>";
    proof {
        reveal_strlit("<none>");
    }
    assert(s@ =~= none_label());
    s.to_owned()
}

/// `g` lists the packages of `m` as [`describes_groups`] does, with each
/// group's versions sorted and holding the right versions in some order.
pub open spec fn building_groups(g: Seq<PackageGroup>, m: Seq<(Seq<char>, i64)>) -> bool {
    &&& forall|i: int, j: int| 0 <= i < j < g.len() ==> text_lt(#[trigger] g[i].name@, #[trigger] g[j].name@)
    &&& forall|i: int| 0 <= i < g.len() ==> in_closure(m, #[trigger] g[i].name@)
    &&& forall|i: int| 0 <= i < g.len() ==> vstd::relations::sorted_by(texts(#[trigger] g[i].versions@), text_order())
    &&& forall|i: int| 0 <= i < g.len() ==> texts(#[trigger] g[i].versions@).to_multiset() == versions_in(m, g[i].name@).to_multiset()
    &&& forall|i: int| 0 <= i < g.len() ==> #[trigger] g[i].nar_size == size_in(m, g[i].name@)
    &&& forall|name: Seq<char>| in_closure(m, name) ==> exists|i: int| 0 <= i < g.len() && #[trigger] g[i].name@ == name
}

/// How the per-package views of a closure grow by one path.
proof fn lemma_closure_step(m: Seq<(Seq<char>, i64)>, idx: int, name: Seq<char>)
    requires
        0 <= idx < m.len(),
    ensures
        versions_in(m.take(idx + 1), name) == if pname_of(m[idx].0) == name {
            versions_in(m.take(idx), name).push(version_label(m[idx].0))
        } else {
            versions_in(m.take(idx), name)
        },
        size_in(m.take(idx + 1), name) == if pname_of(m[idx].0) == name {
            size_in(m.take(idx), name) + m[idx].1
        } else {
            size_in(m.take(idx), name)
        },
        in_closure(m.take(idx + 1), name) == (in_closure(m.take(idx), name) || pname_of(m[idx].0)
            == name),
{
    let t = m.take(idx);
    let t1 = m.take(idx + 1);
    assert(t1.drop_last() =~= t);
    if in_closure(t1, name) {
        let i = choose|i: int| 0 <= i < t1.len() && #[trigger] pname_of(t1[i].0) == name;
        if i < idx {
            assert(pname_of(t[i].0) == name);
        }
    }
    if in_closure(t, name) {
        let i = choose|i: int| 0 <= i < t.len() && #[trigger] pname_of(t[i].0) == name;
        assert(pname_of(t1[i].0) == name);
    }
    if pname_of(m[idx].0) == name {
        assert(pname_of(t1[idx].0) == name);
    }
}

/// A package that the closure does not hold has no versions and no size.
proof fn lemma_absent_package(m: Seq<(Seq<char>, i64)>, name: Seq<char>)
    requires
        !in_closure(m, name),
    ensures
        versions_in(m, name) == Seq::<Seq<char>>::empty(),
        size_in(m, name) == 0,
    decreases m.len(),
{
    if m.len() > 0 {
        assert(!in_closure(m.drop_last(), name)) by {
            if in_closure(m.drop_last(), name) {
                let i = choose|i: int|
                    0 <= i < m.drop_last().len() && #[trigger] pname_of(m.drop_last()[i].0) == name;
                assert(pname_of(m[i].0) == name);
            }
        }
        lemma_absent_package(m.drop_last(), name);
        assert(pname_of(m[m.len() - 1].0) != name);
    }
}

/// Groups the paths of a closure into packages, by package name: each
/// package with the sorted versions and the total NAR size of its paths.
pub fn group_packages(paths: &[ClosurePathRef<'_>]) -> (groups: Vec<PackageGroup>)
    requires
        sizes_fit(closure_model(paths@)),
    ensures
        describes_groups(groups@, closure_model(paths@)),
{
    broadcast use vstd::seq_lib::group_to_multiset_ensures;
    broadcast use vstd::multiset::group_multiset_axioms;

    let ghost m = closure_model(paths@);
    let mut groups: Vec<PackageGroup> = Vec::new();
    let mut idx: usize = 0;
    assert(m.take(0) =~= Seq::<(Seq<char>, i64)>::empty());
    while idx < paths.len()
        invariant
            idx <= paths.len(),
            m == closure_model(paths@),
            m.len() == paths.len(),
            sizes_fit(m),
            building_groups(groups@, m.take(idx as int)),
        decreases paths.len() - idx,
    {
        let ghost t = m.take(idx as int);
        let ghost t1 = m.take(idx + 1);
        let ghost old_groups = groups@;
        let (pname, version) = parse_pname_version(paths[idx].path);
        let label = match version {
            Some(v) => v,
            None => none_version(),
        };
        let ghost label_v = label@;
        let ghost entry = m[idx as int];
        assert(entry == paths@[idx as int]@);
        assert(pname@ == pname_of(entry.0));
        assert(label_v == version_label(entry.0));
        let (found, pos) = locate_group(&groups, pname.as_str());
        assert(size_in(t1, pname@) == size_in(t, pname@) + entry.1) by {
            lemma_closure_step(m, idx as int, pname@);
        }
        assert(i64::MIN <= size_in(t1, pname@) <= i64::MAX);
        if found {
            assert(size_in(t, pname@) == groups@[pos as int].nar_size);
            let total = groups[pos].nar_size + paths[idx].nar_size;
            let ghost old_vs = groups@[pos as int].versions@;
            insert_sorted(&mut groups[pos].versions, label);
            groups[pos].nar_size = total;
            assert(texts(groups@[pos as int].versions@).to_multiset() == versions_in(t1, pname@).to_multiset()) by {
                assert(texts(old_groups[pos as int].versions@).to_multiset() == versions_in(t, pname@).to_multiset());
                assert(texts(groups@[pos as int].versions@).to_multiset() == texts(old_vs).to_multiset().insert(label_v));
                lemma_closure_step(m, idx as int, pname@);
                vstd::seq_lib::to_multiset_build(versions_in(t, pname@), label_v);
            }
            assert(groups@.len() == old_groups.len());
            assert forall|i: int| 0 <= i < groups@.len() && i != pos implies #[trigger] groups@[i]
                == old_groups[i] by {}
        } else {
            assert(!in_closure(t, pname@)) by {
                if in_closure(t, pname@) {
                    let i = choose|i: int| 0 <= i < groups@.len() && #[trigger] groups@[i].name@ == pname@;
                    if i < pos {
                        assert(text_lt(groups@[i].name@, pname@));
                    } else {
                        assert(text_lt(pname@, groups@[i].name@));
                    }
                }
            }
            proof {
                lemma_absent_package(t, pname@);
            }
            let mut vs: Vec<String> = Vec::new();
            assert(texts(vs@) =~= Seq::<Seq<char>>::empty());
            insert_sorted(&mut vs, label);
            assert(texts(vs@).to_multiset() == versions_in(t1, pname@).to_multiset()) by {
                lemma_closure_step(m, idx as int, pname@);
                assert(versions_in(t1, pname@) =~= Seq::<Seq<char>>::empty().push(label_v));
                vstd::seq_lib::to_multiset_build(Seq::<Seq<char>>::empty(), label_v);
            }
            groups.insert(
                pos,
                PackageGroup { name: pname, versions: vs, nar_size: paths[idx].nar_size },
            );
        }
        assert(building_groups(groups@, t1)) by {
            assert forall|i: int| 0 <= i < groups@.len() implies in_closure(t1, #[trigger] groups@[i].name@)
                && texts(groups@[i].versions@).to_multiset() == versions_in(t1, groups@[i].name@).to_multiset()
                && groups@[i].nar_size == size_in(t1, groups@[i].name@) by {
                lemma_closure_step(m, idx as int, groups@[i].name@);
                if i == pos {
                    assert(groups@[i].name@ == pname@);
                } else {
                    if found {
                        assert(groups@[i] == old_groups[i]);
                        assert(text_lt(groups@[i].name@, pname@) || text_lt(pname@, groups@[i].name@));
                    } else if i < pos {
                        assert(groups@[i] == old_groups[i]);
                    } else {
                        assert(groups@[i] == old_groups[i - 1]);
                    }
                }
            }
            assert forall|name: Seq<char>| in_closure(t1, name) implies exists|i: int|
                0 <= i < groups@.len() && #[trigger] groups@[i].name@ == name by {
                lemma_closure_step(m, idx as int, name);
                if name == pname@ {
                    assert(groups@[pos as int].name@ == name);
                } else {
                    let i = choose|i: int| 0 <= i < old_groups.len() && #[trigger] old_groups[i].name@ == name;
                    if found || i < pos {
                        assert(groups@[i].name@ == name);
                    } else {
                        assert(groups@[i + 1].name@ == name);
                    }
                }
            }
            assert forall|i: int, j: int| 0 <= i < j < groups@.len() implies text_lt(
                #[trigger] groups@[i].name@,
                #[trigger] groups@[j].name@,
            ) by {
                if !found {
                    if j < pos {
                        assert(text_lt(old_groups[i].name@, old_groups[j].name@));
                    } else if j == pos {
                        assert(text_lt(old_groups[i].name@, pname@));
                    } else if i == pos {
                        assert(text_lt(pname@, old_groups[j - 1].name@));
                    } else if i < pos {
                        assert(text_lt(old_groups[i].name@, old_groups[j - 1].name@));
                    } else {
                        assert(text_lt(old_groups[i - 1].name@, old_groups[j - 1].name@));
                    }
                } else {
                    assert(groups@[i].name@ == old_groups[i].name@);
                    assert(groups@[j].name@ == old_groups[j].name@);
                }
            }
        }
        idx = idx + 1;
    }
    assert(m.take(paths.len() as int) =~= m);
    proof {
        lemma_text_order_total();
        assert forall|i: int| 0 <= i < groups@.len() implies texts(#[trigger] groups@[i].versions@)
            == sorted_versions(m, groups@[i].name@) by {
            let vs = versions_in(m, groups@[i].name@);
            vs.lemma_sort_by_ensures(text_order());
            vstd::seq_lib::lemma_sorted_unique(
                texts(groups@[i].versions@),
                vs.sort_by(text_order()),
                text_order(),
            );
        }
    }
    groups
}

// ---------------------------------------------------------------------------
// The difference of two closures
// ---------------------------------------------------------------------------
/// The change of one package between two closures.
pub struct DiffPackage {
    pub size_delta: i64,
    pub versions_before: Vec<String>,
    pub versions_after: Vec<String>,
}

/// The changed packages of a closure, sorted by name.
pub struct DiffRoot {
    pub packages: Vec<(String, DiffPackage)>,
    pub schema: String,
}

/// Whether package `name` differs between closures `new` and `old`, in its
/// versions or in its size. A package that only one closure holds differs.
pub open spec fn package_changed(
    new: Seq<(Seq<char>, i64)>,
    old: Seq<(Seq<char>, i64)>,
    name: Seq<char>,
) -> bool {
    sorted_versions(new, name) != sorted_versions(old, name) || size_in(new, name) != size_in(
        old,
        name,
    )
}

/// `p` is the change of package `name` from `old` to `new`: the size
/// difference, the versions before and the versions after.
pub open spec fn describes_change(
    new: Seq<(Seq<char>, i64)>,
    old: Seq<(Seq<char>, i64)>,
    name: Seq<char>,
    p: DiffPackage,
) -> bool {
    &&& p.size_delta == size_in(new, name) - size_in(old, name)
    &&& texts(p.versions_before@) == sorted_versions(old, name)
    &&& texts(p.versions_after@) == sorted_versions(new, name)
}

/// `d` lists exactly the changed packages from `old` to `new`, sorted by name,
/// each with its change.
pub open spec fn describes_diff(
    d: Seq<(String, DiffPackage)>,
    new: Seq<(Seq<char>, i64)>,
    old: Seq<(Seq<char>, i64)>,
) -> bool {
    &&& forall|i: int, j: int| 0 <= i < j < d.len() ==> text_lt(#[trigger] d[i].0@, #[trigger] d[j].0@)
    &&& forall|i: int| 0 <= i < d.len() ==> package_changed(new, old, #[trigger] d[i].0@)
    &&& forall|i: int| 0 <= i < d.len() ==> describes_change(new, old, #[trigger] d[i].0@, d[i].1)
    &&& forall|name: Seq<char>| package_changed(new, old, name) ==> exists|i: int| 0 <= i < d.len() && #[trigger] d[i].0@ == name
}

/// Every package's size difference fits in an `i64`.
pub open spec fn deltas_fit(new: Seq<(Seq<char>, i64)>, old: Seq<(Seq<char>, i64)>) -> bool {
    forall|name: Seq<char>| i64::MIN <= #[trigger] size_in(new, name) - size_in(old, name) <= i64::MAX
}

/// A package that a closure holds has at least one version.
proof fn lemma_present_versions(m: Seq<(Seq<char>, i64)>, name: Seq<char>)
    requires
        in_closure(m, name),
    ensures
        versions_in(m, name).len() > 0,
    decreases m.len(),
{
    if pname_of(m.last().0) != name {
        assert(in_closure(m.drop_last(), name)) by {
            let i = choose|i: int| 0 <= i < m.len() && #[trigger] pname_of(m[i].0) == name;
            assert(i != m.len() - 1);
            assert(pname_of(m.drop_last()[i].0) == name);
        }
        lemma_present_versions(m.drop_last(), name);
    }
}

/// A package that a closure holds has at least one sorted version.
proof fn lemma_present_package(m: Seq<(Seq<char>, i64)>, name: Seq<char>)
    requires
        in_closure(m, name),
    ensures
        sorted_versions(m, name).len() > 0,
{
    broadcast use vstd::seq_lib::group_to_multiset_ensures;

    lemma_text_order_total();
    lemma_present_versions(m, name);
    let vs = versions_in(m, name);
    vs.lemma_sort_by_ensures(text_order());
    assert(vs.to_multiset().len() > 0);
}

/// A package that a closure does not hold has no sorted versions.
proof fn lemma_absent_sorted(m: Seq<(Seq<char>, i64)>, name: Seq<char>)
    requires
        !in_closure(m, name),
    ensures
        sorted_versions(m, name) == Seq::<Seq<char>>::empty(),
        size_in(m, name) == 0,
{
    broadcast use vstd::seq_lib::group_to_multiset_ensures;

    lemma_text_order_total();
    lemma_absent_package(m, name);
    versions_in(m, name).lemma_sort_by_ensures(text_order());
    assert(sorted_versions(m, name).to_multiset().len() == 0);
}

/// A copy of a vector of strings.
fn copy_texts(v: &Vec<String>) -> (r: Vec<String>)
    ensures
        r@ == v@,
{
    let mut r: Vec<String> = Vec::new();
    for i in 0..v.len()
        invariant
            r@ == v@.take(i as int),
    {
        r.push(v[i].clone());
        assert(r@ =~= v@.take(i + 1));
    }
    assert(v@.take(v.len() as int) =~= v@);
    r
}

/// Whether two vectors of strings hold the same texts.
fn same_texts(a: &Vec<String>, b: &Vec<String>) -> (r: bool)
    ensures
        r == (texts(a@) == texts(b@)),
{
    if a.len() != b.len() {
        assert(texts(a@).len() != texts(b@).len());
        return false;
    }
    for i in 0..a.len()
        invariant
            a.len() == b.len(),
            forall|k: int| 0 <= k < i ==> a@[k]@ == b@[k]@,
    {
        if a[i] != b[i] {
            assert(texts(a@)[i as int] != texts(b@)[i as int]);
            return false;
        }
    }
    assert(texts(a@) =~= texts(b@));
    true
}

/// `p` is `before`, or `before` with one entry more.
pub open spec fn extends(p: Seq<(String, DiffPackage)>, before: Seq<(String, DiffPackage)>) -> bool {
    &&& before.len() <= p.len() <= before.len() + 1
    &&& forall|a: int| 0 <= a < before.len() ==> #[trigger] p[a] == before[a]
}

/// Every entry of `p` is named below every group of `g` from index `from`.
pub open spec fn entries_below(p: Seq<(String, DiffPackage)>, g: Seq<PackageGroup>, from: int) -> bool {
    forall|a: int, k: int|
        0 <= a < p.len() && from <= k < g.len() ==> text_lt(#[trigger] p[a].0@, #[trigger] g[k].name@)
}

/// The groups of `a` before index `upto` are named below the groups of `b`
/// from index `from`.
pub open spec fn groups_below(a: Seq<PackageGroup>, upto: int, b: Seq<PackageGroup>, from: int) -> bool {
    forall|k: int, l: int|
        0 <= k < upto && from <= l < b.len() ==> text_lt(#[trigger] a[k].name@, #[trigger] b[l].name@)
}

/// Every changed package among the groups of `g` before index `upto` has an
/// entry in `p`.
pub open spec fn covered(
    p: Seq<(String, DiffPackage)>,
    g: Seq<PackageGroup>,
    upto: int,
    new: Seq<(Seq<char>, i64)>,
    old: Seq<(Seq<char>, i64)>,
) -> bool {
    forall|k: int|
        0 <= k < upto && package_changed(new, old, #[trigger] g[k].name@) ==> exists|a: int|
            0 <= a < p.len() && #[trigger] p[a].0@ == g[k].name@
}

/// The group names of `g` are strictly increasing.
pub open spec fn names_increase(g: Seq<PackageGroup>) -> bool {
    forall|i: int, j: int| 0 <= i < j < g.len() ==> text_lt(#[trigger] g[i].name@, #[trigger] g[j].name@)
}

/// An entry named below the next remaining group keeps the entries below the
/// remaining groups.
proof fn lemma_entries_below(
    p: Seq<(String, DiffPackage)>,
    before: Seq<(String, DiffPackage)>,
    g: Seq<PackageGroup>,
    from_old: int,
    from: int,
    x: Seq<char>,
)
    requires
        extends(p, before),
        p.len() == before.len() + 1 ==> p[before.len() as int].0@ == x,
        entries_below(before, g, from_old),
        0 <= from_old <= from <= g.len(),
        names_increase(g),
        from < g.len() ==> text_lt(x, g[from].name@),
    ensures
        entries_below(p, g, from),
{
    assert forall|a: int, k: int| 0 <= a < p.len() && from <= k < g.len() implies text_lt(
        #[trigger] p[a].0@,
        #[trigger] g[k].name@,
    ) by {
        if a == before.len() {
            if k > from {
                lemma_text_lt_transitive(x, g[from].name@, g[k].name@);
            }
        } else {
            assert(p[a] == before[a]);
        }
    }
}

/// Passing one more group of `a` that is named below the next remaining group
/// of `b` keeps the passed groups below the remaining ones.
proof fn lemma_groups_below(
    a: Seq<PackageGroup>,
    upto_old: int,
    upto: int,
    b: Seq<PackageGroup>,
    from_old: int,
    from: int,
)
    requires
        groups_below(a, upto_old, b, from_old),
        0 <= upto_old <= upto <= upto_old + 1,
        upto <= a.len(),
        0 <= from_old <= from <= b.len(),
        names_increase(b),
        upto == upto_old + 1 && from < b.len() ==> text_lt(a[upto_old].name@, b[from].name@),
    ensures
        groups_below(a, upto, b, from),
{
    assert forall|k: int, l: int| 0 <= k < upto && from <= l < b.len() implies text_lt(
        #[trigger] a[k].name@,
        #[trigger] b[l].name@,
    ) by {
        if k == upto_old && l > from {
            lemma_text_lt_transitive(a[k].name@, b[from].name@, b[l].name@);
        }
    }
}

/// Passing one more group keeps every changed passed package covered, where
/// that group, if changed, got the new entry.
proof fn lemma_covered(
    p: Seq<(String, DiffPackage)>,
    before: Seq<(String, DiffPackage)>,
    g: Seq<PackageGroup>,
    upto_old: int,
    upto: int,
    new: Seq<(Seq<char>, i64)>,
    old: Seq<(Seq<char>, i64)>,
)
    requires
        extends(p, before),
        covered(before, g, upto_old, new, old),
        0 <= upto_old <= upto <= upto_old + 1,
        upto <= g.len(),
        upto == upto_old + 1 && package_changed(new, old, g[upto_old].name@) ==> p.len()
            == before.len() + 1 && p[before.len() as int].0@ == g[upto_old].name@,
    ensures
        covered(p, g, upto, new, old),
{
    assert forall|k: int|
        0 <= k < upto && package_changed(new, old, #[trigger] g[k].name@) implies exists|a: int|
        0 <= a < p.len() && #[trigger] p[a].0@ == g[k].name@ by {
        if k == upto_old {
            assert(p[before.len() as int].0@ == g[k].name@);
        } else {
            let a = choose|a: int| 0 <= a < before.len() && #[trigger] before[a].0@ == g[k].name@;
            assert(p[a] == before[a]);
        }
    }
}

/// The packages that differ between two closures, sorted by name: for each,
/// the size difference and the sorted versions before and after.
pub fn build_diff_root(new_paths: &[ClosurePathRef<'_>], old_paths: &[ClosurePathRef<'_>]) -> (r:
    DiffRoot)
    requires
        sizes_fit(closure_model(new_paths@)),
        sizes_fit(closure_model(old_paths@)),
        deltas_fit(closure_model(new_paths@), closure_model(old_paths@)),
    ensures
        describes_diff(r.packages@, closure_model(new_paths@), closure_model(old_paths@)),
        r.schema@ == Seq::<char>::empty(),
{
    let ghost nm = closure_model(new_paths@);
    let ghost om = closure_model(old_paths@);
    let ng = group_packages(new_paths);
    let og = group_packages(old_paths);
    let mut packages: Vec<(String, DiffPackage)> = Vec::new();
    let mut i: usize = 0;
    let mut j: usize = 0;
    while i < ng.len() || j < og.len()
        invariant
            i <= ng.len(),
            j <= og.len(),
            describes_groups(ng@, nm),
            describes_groups(og@, om),
            names_increase(ng@),
            names_increase(og@),
            deltas_fit(nm, om),
            forall|a: int, b: int|
                0 <= a < b < packages@.len() ==> text_lt(
                    #[trigger] packages@[a].0@,
                    #[trigger] packages@[b].0@,
                ),
            forall|a: int|
                0 <= a < packages@.len() ==> package_changed(nm, om, #[trigger] packages@[a].0@)
                    && describes_change(nm, om, packages@[a].0@, packages@[a].1),
            entries_below(packages@, ng@, i as int),
            entries_below(packages@, og@, j as int),
            groups_below(og@, j as int, ng@, i as int),
            groups_below(ng@, i as int, og@, j as int),
            covered(packages@, ng@, i as int, nm, om),
            covered(packages@, og@, j as int, nm, om),
        decreases ng.len() - i + og.len() - j,
    {
        let step: TextOrder = if i < ng.len() && j < og.len() {
            compare_text(ng[i].name.as_str(), og[j].name.as_str())
        } else if i < ng.len() {
            TextOrder::Less
        } else {
            TextOrder::Greater
        };
        let ghost before = packages@;
        if step == TextOrder::Equal {
            let ghost x = ng@[i as int].name@;
            assert(sorted_versions(nm, x) == texts(ng@[i as int].versions@));
            assert(sorted_versions(om, x) == texts(og@[j as int].versions@));
            assert(size_in(nm, x) == ng@[i as int].nar_size);
            assert(size_in(om, x) == og@[j as int].nar_size);
            let same = same_texts(&ng[i].versions, &og[j].versions) && ng[i].nar_size
                == og[j].nar_size;
            if !same {
                assert(i64::MIN <= size_in(nm, x) - size_in(om, x) <= i64::MAX);
                let p = DiffPackage {
                    size_delta: ng[i].nar_size - og[j].nar_size,
                    versions_before: copy_texts(&og[j].versions),
                    versions_after: copy_texts(&ng[i].versions),
                };
                packages.push((ng[i].name.clone(), p));
            }
            proof {
                if i + 1 < ng@.len() {
                    assert(text_lt(ng@[i as int].name@, ng@[i + 1].name@));
                }
                if j + 1 < og@.len() {
                    assert(text_lt(og@[j as int].name@, og@[j + 1].name@));
                }
                lemma_groups_below(og@, j as int, j + 1, ng@, i as int, i + 1);
                lemma_groups_below(ng@, i as int, i + 1, og@, j as int, j + 1);
                lemma_entries_below(packages@, before, ng@, i as int, i + 1, x);
                lemma_entries_below(packages@, before, og@, j as int, j + 1, x);
                lemma_covered(packages@, before, ng@, i as int, i + 1, nm, om);
                lemma_covered(packages@, before, og@, j as int, j + 1, nm, om);
            }
            i = i + 1;
            j = j + 1;
        } else if step == TextOrder::Less {
            let ghost x = ng@[i as int].name@;
            assert(!in_closure(om, x)) by {
                if in_closure(om, x) {
                    let k = choose|k: int| 0 <= k < og@.len() && #[trigger] og@[k].name@ == x;
                    if k < j {
                        assert(text_lt(og@[k].name@, ng@[i as int].name@));
                    } else if k > j {
                        assert(text_lt(og@[j as int].name@, og@[k].name@));
                        lemma_text_lt_transitive(x, og@[j as int].name@, og@[k].name@);
                    }
                }
            }
            proof {
                lemma_absent_sorted(om, x);
                lemma_present_package(nm, x);
            }
            assert(sorted_versions(nm, x) == texts(ng@[i as int].versions@));
            assert(size_in(nm, x) == ng@[i as int].nar_size);
            let p = DiffPackage {
                size_delta: ng[i].nar_size,
                versions_before: Vec::new(),
                versions_after: copy_texts(&ng[i].versions),
            };
            assert(texts(p.versions_before@) =~= Seq::<Seq<char>>::empty());
            packages.push((ng[i].name.clone(), p));
            proof {
                if i + 1 < ng@.len() {
                    assert(text_lt(ng@[i as int].name@, ng@[i + 1].name@));
                }
                lemma_groups_below(ng@, i as int, i + 1, og@, j as int, j as int);
                lemma_groups_below(og@, j as int, j as int, ng@, i as int, i + 1);
                lemma_entries_below(packages@, before, ng@, i as int, i + 1, x);
                lemma_entries_below(packages@, before, og@, j as int, j as int, x);
                lemma_covered(packages@, before, ng@, i as int, i + 1, nm, om);
                lemma_covered(packages@, before, og@, j as int, j as int, nm, om);
            }
            i = i + 1;
        } else {
            let ghost x = og@[j as int].name@;
            assert(!in_closure(nm, x)) by {
                if in_closure(nm, x) {
                    let k = choose|k: int| 0 <= k < ng@.len() && #[trigger] ng@[k].name@ == x;
                    if k < i {
                        assert(text_lt(ng@[k].name@, og@[j as int].name@));
                    } else if k > i {
                        assert(text_lt(ng@[i as int].name@, ng@[k].name@));
                        lemma_text_lt_transitive(x, ng@[i as int].name@, ng@[k].name@);
                    }
                }
            }
            proof {
                lemma_absent_sorted(nm, x);
                lemma_present_package(om, x);
            }
            assert(sorted_versions(om, x) == texts(og@[j as int].versions@));
            assert(size_in(om, x) == og@[j as int].nar_size);
            assert(i64::MIN <= size_in(nm, x) - size_in(om, x) <= i64::MAX);
            let p = DiffPackage {
                size_delta: 0 - og[j].nar_size,
                versions_before: copy_texts(&og[j].versions),
                versions_after: Vec::new(),
            };
            assert(texts(p.versions_after@) =~= Seq::<Seq<char>>::empty());
            packages.push((og[j].name.clone(), p));
            proof {
                if j + 1 < og@.len() {
                    assert(text_lt(og@[j as int].name@, og@[j + 1].name@));
                }
                lemma_groups_below(og@, j as int, j + 1, ng@, i as int, i as int);
                lemma_groups_below(ng@, i as int, i as int, og@, j as int, j + 1);
                lemma_entries_below(packages@, before, og@, j as int, j + 1, x);
                lemma_entries_below(packages@, before, ng@, i as int, i as int, x);
                lemma_covered(packages@, before, og@, j as int, j + 1, nm, om);
                lemma_covered(packages@, before, ng@, i as int, i as int, nm, om);
            }
            j = j + 1;
        }
    }
    assert forall|name: Seq<char>| package_changed(nm, om, name) implies exists|a: int|
        0 <= a < packages@.len() && #[trigger] packages@[a].0@ == name by {
        if in_closure(nm, name) {
            let k = choose|k: int| 0 <= k < ng@.len() && #[trigger] ng@[k].name@ == name;
            assert(package_changed(nm, om, ng@[k].name@));
        } else if in_closure(om, name) {
            let k = choose|k: int| 0 <= k < og@.len() && #[trigger] og@[k].name@ == name;
            assert(package_changed(nm, om, og@[k].name@));
        } else {
            lemma_absent_sorted(nm, name);
            lemma_absent_sorted(om, name);
        }
    }
    DiffRoot { packages, schema: String::new() }
}

/// `g` holds each package of `m` once, sorted by name, with its total size.
pub open spec fn describes_totals(g: Seq<PackageGroup>, m: Seq<(Seq<char>, i64)>) -> bool {
    &&& forall|i: int, j: int| 0 <= i < j < g.len() ==> text_lt(#[trigger] g[i].name@, #[trigger] g[j].name@)
    &&& forall|i: int| 0 <= i < g.len() ==> in_closure(m, #[trigger] g[i].name@)
    &&& forall|i: int| 0 <= i < g.len() ==> #[trigger] g[i].nar_size == size_in(m, g[i].name@)
    &&& forall|name: Seq<char>| in_closure(m, name) ==> exists|i: int| 0 <= i < g.len() && #[trigger] g[i].name@ == name
}

/// Every running package total over the first `n` paths fits in an `i64`.
pub open spec fn prefix_sizes_fit(m: Seq<(Seq<char>, i64)>, n: int) -> bool {
    forall|name: Seq<char>, k: int|
        0 <= k <= n ==> i64::MIN <= #[trigger] size_in(m.take(k), name) <= i64::MAX
}

/// A name that `locate_group` did not find is not a package of the closure.
proof fn lemma_not_located(g: Seq<PackageGroup>, m: Seq<(Seq<char>, i64)>, name: Seq<char>, pos: int)
    requires
        describes_totals(g, m),
        0 <= pos <= g.len(),
        forall|i: int| 0 <= i < pos ==> text_lt(#[trigger] g[i].name@, name),
        forall|i: int| pos <= i < g.len() ==> text_lt(name, #[trigger] g[i].name@),
    ensures
        !in_closure(m, name),
        size_in(m, name) == 0,
{
    if in_closure(m, name) {
        let i = choose|i: int| 0 <= i < g.len() && #[trigger] g[i].name@ == name;
        if i < pos {
            assert(text_lt(g[i].name@, name));
        } else {
            assert(text_lt(name, g[i].name@));
        }
    }
    lemma_absent_package(m, name);
}

/// The total size of each package of a closure, where every running total
/// fits in an `i64`.
fn running_totals(paths: &[ClosurePathRef<'_>]) -> (r: Option<Vec<PackageGroup>>)
    ensures
        r is Some <==> sizes_fit(closure_model(paths@)),
        r matches Some(g) ==> describes_totals(g@, closure_model(paths@)),
{
    let ghost m = closure_model(paths@);
    let mut groups: Vec<PackageGroup> = Vec::new();
    let mut idx: usize = 0;
    assert(m.take(0) =~= Seq::<(Seq<char>, i64)>::empty());
    assert forall|name: Seq<char>| in_closure(m.take(0), name) implies false by {}
    while idx < paths.len()
        invariant
            idx <= paths.len(),
            m == closure_model(paths@),
            m.len() == paths.len(),
            describes_totals(groups@, m.take(idx as int)),
            prefix_sizes_fit(m, idx as int),
        decreases paths.len() - idx,
    {
        let ghost t = m.take(idx as int);
        let ghost t1 = m.take(idx + 1);
        let ghost old_groups = groups@;
        let (pname, _version) = parse_pname_version(paths[idx].path);
        let ghost entry = m[idx as int];
        assert(entry == paths@[idx as int]@);
        let (found, pos) = locate_group(&groups, pname.as_str());
        let cur: i64 = if found {
            groups[pos].nar_size
        } else {
            proof {
                lemma_not_located(groups@, t, pname@, pos as int);
            }
            0
        };
        assert(cur == size_in(t, pname@));
        let next: i128 = cur as i128 + paths[idx].nar_size as i128;
        proof {
            lemma_closure_step(m, idx as int, pname@);
        }
        assert(next == size_in(t1, pname@));
        if next < i64::MIN as i128 || next > i64::MAX as i128 {
            assert(!(i64::MIN <= size_in(m.take(idx + 1), pname@) <= i64::MAX));
            return None;
        }
        let total: i64 = next as i64;
        if found {
            groups[pos].nar_size = total;
            assert forall|i: int| 0 <= i < groups@.len() && i != pos implies #[trigger] groups@[i]
                == old_groups[i] by {}
        } else {
            groups.insert(pos, PackageGroup { name: pname, versions: Vec::new(), nar_size: total });
        }
        assert(prefix_sizes_fit(m, idx + 1)) by {
            assert forall|name: Seq<char>, k: int| 0 <= k <= idx + 1 implies i64::MIN <= #[trigger] size_in(
                m.take(k),
                name,
            ) <= i64::MAX by {
                if k == idx + 1 {
                    lemma_closure_step(m, idx as int, name);
                    assert(m.take(idx as int) == t);
                }
            }
        }
        assert(describes_totals(groups@, t1)) by {
            assert forall|i: int| 0 <= i < groups@.len() implies in_closure(t1, #[trigger] groups@[i].name@)
                && groups@[i].nar_size == size_in(t1, groups@[i].name@) by {
                lemma_closure_step(m, idx as int, groups@[i].name@);
                if i != pos {
                    if found {
                        assert(groups@[i] == old_groups[i]);
                        assert(text_lt(groups@[i].name@, pname@) || text_lt(pname@, groups@[i].name@));
                    } else if i < pos {
                        assert(groups@[i] == old_groups[i]);
                    } else {
                        assert(groups@[i] == old_groups[i - 1]);
                    }
                }
            }
            assert forall|name: Seq<char>| in_closure(t1, name) implies exists|i: int|
                0 <= i < groups@.len() && #[trigger] groups@[i].name@ == name by {
                lemma_closure_step(m, idx as int, name);
                if name == pname@ {
                    assert(groups@[pos as int].name@ == name);
                } else {
                    let i = choose|i: int| 0 <= i < old_groups.len() && #[trigger] old_groups[i].name@ == name;
                    if found || i < pos {
                        assert(groups@[i].name@ == name);
                    } else {
                        assert(groups@[i + 1].name@ == name);
                    }
                }
            }
            assert forall|i: int, j: int| 0 <= i < j < groups@.len() implies text_lt(
                #[trigger] groups@[i].name@,
                #[trigger] groups@[j].name@,
            ) by {
                if !found {
                    if j < pos {
                        assert(text_lt(old_groups[i].name@, old_groups[j].name@));
                    } else if j == pos {
                        assert(text_lt(old_groups[i].name@, pname@));
                    } else if i == pos {
                        assert(text_lt(pname@, old_groups[j - 1].name@));
                    } else if i < pos {
                        assert(text_lt(old_groups[i].name@, old_groups[j - 1].name@));
                    } else {
                        assert(text_lt(old_groups[i - 1].name@, old_groups[j - 1].name@));
                    }
                } else {
                    assert(groups@[i].name@ == old_groups[i].name@);
                    assert(groups@[j].name@ == old_groups[j].name@);
                }
            }
        }
        idx = idx + 1;
    }
    assert(m.take(paths.len() as int) =~= m);
    Some(groups)
}

/// Whether every package's size difference fits in an `i64`, given the
/// package totals of both closures.
fn deltas_within(
    tn: &Vec<PackageGroup>,
    to: &Vec<PackageGroup>,
    Ghost(nm): Ghost<Seq<(Seq<char>, i64)>>,
    Ghost(om): Ghost<Seq<(Seq<char>, i64)>>,
) -> (r: bool)
    requires
        describes_totals(tn@, nm),
        describes_totals(to@, om),
    ensures
        r == deltas_fit(nm, om),
{
    let mut i: usize = 0;
    while i < tn.len()
        invariant
            i <= tn.len(),
            describes_totals(tn@, nm),
            describes_totals(to@, om),
            forall|k: int| 0 <= k < i ==> i64::MIN <= size_in(nm, #[trigger] tn@[k].name@) - size_in(om, tn@[k].name@) <= i64::MAX,
        decreases tn.len() - i,
    {
        let ghost n = tn@[i as int].name@;
        let (found, pos) = locate_group(to, tn[i].name.as_str());
        let other: i64 = if found {
            to[pos].nar_size
        } else {
            proof {
                lemma_not_located(to@, om, n, pos as int);
            }
            0
        };
        let d: i128 = tn[i].nar_size as i128 - other as i128;
        assert(d == size_in(nm, n) - size_in(om, n));
        if d < i64::MIN as i128 || d > i64::MAX as i128 {
            assert(!(i64::MIN <= size_in(nm, n) - size_in(om, n) <= i64::MAX));
            return false;
        }
        i = i + 1;
    }
    let mut j: usize = 0;
    while j < to.len()
        invariant
            j <= to.len(),
            describes_totals(tn@, nm),
            describes_totals(to@, om),
            forall|k: int| 0 <= k < tn@.len() ==> i64::MIN <= size_in(nm, #[trigger] tn@[k].name@) - size_in(om, tn@[k].name@) <= i64::MAX,
            forall|k: int| 0 <= k < j ==> i64::MIN <= size_in(nm, #[trigger] to@[k].name@) - size_in(om, to@[k].name@) <= i64::MAX,
        decreases to.len() - j,
    {
        let ghost n = to@[j as int].name@;
        let (found, pos) = locate_group(tn, to[j].name.as_str());
        if !found {
            proof {
                lemma_not_located(tn@, nm, n, pos as int);
            }
            let d: i128 = 0 - to[j].nar_size as i128;
            assert(d == size_in(nm, n) - size_in(om, n));
            if d > i64::MAX as i128 {
                assert(!(i64::MIN <= size_in(nm, n) - size_in(om, n) <= i64::MAX));
                return false;
            }
        } else {
            assert(tn@[pos as int].name@ == n);
        }
        j = j + 1;
    }
    assert forall|name: Seq<char>| i64::MIN <= #[trigger] size_in(nm, name) - size_in(om, name) <= i64::MAX by {
        if in_closure(nm, name) {
            let k = choose|k: int| 0 <= k < tn@.len() && #[trigger] tn@[k].name@ == name;
        } else if in_closure(om, name) {
            let k = choose|k: int| 0 <= k < to@.len() && #[trigger] to@[k].name@ == name;
        } else {
            lemma_absent_package(nm, name);
            lemma_absent_package(om, name);
        }
    }
    true
}

/// Whether two closures meet the `requires` of [`build_diff_root`]: every
/// running package total of each closure, and every package's size
/// difference, fits in an `i64`.
pub fn diff_sizes_fit(new_paths: &[ClosurePathRef<'_>], old_paths: &[ClosurePathRef<'_>]) -> (r: bool)
    ensures
        r == (sizes_fit(closure_model(new_paths@)) && sizes_fit(closure_model(old_paths@))
            && deltas_fit(closure_model(new_paths@), closure_model(old_paths@))),
{
    let tn = match running_totals(new_paths) {
        Some(t) => t,
        None => return false,
    };
    let to = match running_totals(old_paths) {
        Some(t) => t,
        None => return false,
    };
    deltas_within(&tn, &to, Ghost(closure_model(new_paths@)), Ghost(closure_model(old_paths@)))
}

// ---------------------------------------------------------------------------
// Laws of the difference
// ---------------------------------------------------------------------------
/// A closure compared with itself has no changed package.
pub proof fn law_diff_with_itself_is_empty(d: Seq<(String, DiffPackage)>, m: Seq<(Seq<char>, i64)>)
    requires
        describes_diff(d, m, m),
    ensures
        d.len() == 0,
{
    if d.len() > 0 {
        assert(package_changed(m, m, d[0].0@));
    }
}

/// The names of the packages of a difference, in order.
pub open spec fn diff_names(d: Seq<(String, DiffPackage)>) -> Seq<Seq<char>> {
    d.map_values(|e: (String, DiffPackage)| e.0@)
}

/// Two strictly sorted sequences of names with the same elements are equal.
proof fn lemma_sorted_names_unique(x: Seq<Seq<char>>, y: Seq<Seq<char>>)
    requires
        forall|i: int, j: int| 0 <= i < j < x.len() ==> text_lt(#[trigger] x[i], #[trigger] x[j]),
        forall|i: int, j: int| 0 <= i < j < y.len() ==> text_lt(#[trigger] y[i], #[trigger] y[j]),
        forall|n: Seq<char>| x.contains(n) <==> y.contains(n),
    ensures
        x == y,
    decreases x.len(),
{
    if x.len() == 0 {
        if y.len() > 0 {
            assert(y.contains(y[0]));
        }
        assert(x =~= y);
    } else if y.len() == 0 {
        assert(x.contains(x[0]));
    } else {
        assert(x.contains(x[0]));
        assert(y.contains(y[0]));
        let k = choose|k: int| 0 <= k < y.len() && y[k] == x[0];
        let l = choose|l: int| 0 <= l < x.len() && x[l] == y[0];
        if x[0] != y[0] {
            assert(k > 0 && l > 0);
            assert(text_lt(y[0], y[k]));
            assert(text_lt(x[0], x[l]));
            lemma_text_le_antisymmetric(x[0], y[0]);
        }
        let x1 = x.drop_first();
        let y1 = y.drop_first();
        assert forall|n: Seq<char>| x1.contains(n) implies y1.contains(n) by {
            let i = choose|i: int| 0 <= i < x1.len() && x1[i] == n;
            assert(x.contains(n) && x[i + 1] == n);
            assert(text_lt(x[0], x[i + 1]));
            let j = choose|j: int| 0 <= j < y.len() && y[j] == n;
            if j == 0 {
                assert(false);
            }
            assert(y1[j - 1] == n);
        }
        assert forall|n: Seq<char>| y1.contains(n) implies x1.contains(n) by {
            let i = choose|i: int| 0 <= i < y1.len() && y1[i] == n;
            assert(y.contains(n) && y[i + 1] == n);
            assert(text_lt(y[0], y[i + 1]));
            let j = choose|j: int| 0 <= j < x.len() && x[j] == n;
            if j == 0 {
                assert(false);
            }
            assert(x1[j - 1] == n);
        }
        lemma_sorted_names_unique(x1, y1);
        assert(x =~= seq![x[0]] + x1);
        assert(y =~= seq![y[0]] + y1);
    }
}

/// Comparing the closures the other way round lists the same packages, with
/// the size differences negated and the versions before and after swapped.
pub proof fn law_reversed_diff(
    d1: Seq<(String, DiffPackage)>,
    d2: Seq<(String, DiffPackage)>,
    a: Seq<(Seq<char>, i64)>,
    b: Seq<(Seq<char>, i64)>,
)
    requires
        describes_diff(d1, a, b),
        describes_diff(d2, b, a),
    ensures
        d1.len() == d2.len(),
        forall|i: int|
            0 <= i < d1.len() ==> {
                &&& #[trigger] d1[i].0@ == d2[i].0@
                &&& d1[i].1.size_delta == -d2[i].1.size_delta
                &&& texts(d1[i].1.versions_before@) == texts(d2[i].1.versions_after@)
                &&& texts(d1[i].1.versions_after@) == texts(d2[i].1.versions_before@)
            },
{
    let x = diff_names(d1);
    let y = diff_names(d2);
    assert forall|n: Seq<char>| x.contains(n) implies y.contains(n) by {
        let i = choose|i: int| 0 <= i < x.len() && x[i] == n;
        assert(x[i] == d1[i].0@);
        assert(package_changed(a, b, d1[i].0@));
        assert(package_changed(b, a, n));
        let j = choose|j: int| 0 <= j < d2.len() && #[trigger] d2[j].0@ == n;
        assert(y[j] == n);
    }
    assert forall|n: Seq<char>| y.contains(n) implies x.contains(n) by {
        let i = choose|i: int| 0 <= i < y.len() && y[i] == n;
        assert(y[i] == d2[i].0@);
        assert(package_changed(b, a, d2[i].0@));
        assert(package_changed(a, b, n));
        let j = choose|j: int| 0 <= j < d1.len() && #[trigger] d1[j].0@ == n;
        assert(x[j] == n);
    }
    assert forall|i: int, j: int| 0 <= i < j < x.len() implies text_lt(#[trigger] x[i], #[trigger] x[j]) by {
        assert(text_lt(d1[i].0@, d1[j].0@));
    }
    assert forall|i: int, j: int| 0 <= i < j < y.len() implies text_lt(#[trigger] y[i], #[trigger] y[j]) by {
        assert(text_lt(d2[i].0@, d2[j].0@));
    }
    lemma_sorted_names_unique(x, y);
    assert forall|i: int| 0 <= i < d1.len() implies {
        &&& #[trigger] d1[i].0@ == d2[i].0@
        &&& d1[i].1.size_delta == -d2[i].1.size_delta
        &&& texts(d1[i].1.versions_before@) == texts(d2[i].1.versions_after@)
        &&& texts(d1[i].1.versions_after@) == texts(d2[i].1.versions_before@)
    } by {
        assert(x[i] == y[i]);
        assert(describes_change(a, b, d1[i].0@, d1[i].1));
        assert(describes_change(b, a, d2[i].0@, d2[i].1));
    }
}

// ---------------------------------------------------------------------------
// Sizes add up
// ---------------------------------------------------------------------------
/// The total NAR size of a closure.
pub open spec fn total_size(m: Seq<(Seq<char>, i64)>) -> int
    decreases m.len(),
{
    if m.len() == 0 {
        0
    } else {
        total_size(m.drop_last()) + m.last().1
    }
}

/// The sum of the size differences of a diff.
pub open spec fn delta_sum(d: Seq<(String, DiffPackage)>) -> int
    decreases d.len(),
{
    if d.len() == 0 {
        0
    } else {
        delta_sum(d.drop_last()) + d.last().1.size_delta
    }
}

/// The sum of `f` over a sequence of names.
pub open spec fn sum_over(names: Seq<Seq<char>>, f: spec_fn(Seq<char>) -> int) -> int
    decreases names.len(),
{
    if names.len() == 0 {
        0
    } else {
        sum_over(names.drop_last(), f) + f(names.last())
    }
}

/// The package names of a closure, each once, in order of first appearance.
pub open spec fn package_names(m: Seq<(Seq<char>, i64)>) -> Seq<Seq<char>>
    decreases m.len(),
{
    if m.len() == 0 {
        Seq::empty()
    } else {
        let prev = package_names(m.drop_last());
        let p = pname_of(m.last().0);
        if prev.contains(p) {
            prev
        } else {
            prev.push(p)
        }
    }
}

proof fn lemma_package_names(m: Seq<(Seq<char>, i64)>)
    ensures
        package_names(m).no_duplicates(),
        forall|n: Seq<char>| package_names(m).contains(n) <==> in_closure(m, n),
    decreases m.len(),
{
    if m.len() > 0 {
        let m1 = m.drop_last();
        lemma_package_names(m1);
        let prev = package_names(m1);
        let p = pname_of(m.last().0);
        assert forall|n: Seq<char>| package_names(m).contains(n) <==> in_closure(m, n) by {
            if in_closure(m, n) {
                let i = choose|i: int| 0 <= i < m.len() && #[trigger] pname_of(m[i].0) == n;
                if i < m.len() - 1 {
                    assert(pname_of(m1[i].0) == n);
                    assert(in_closure(m1, n));
                    assert(prev.contains(n));
                    if !prev.contains(p) {
                        let k = choose|k: int| 0 <= k < prev.len() && prev[k] == n;
                        assert(package_names(m)[k] == n);
                    }
                } else {
                    if !prev.contains(p) {
                        assert(package_names(m)[prev.len() as int] == n);
                    }
                }
            }
            if package_names(m).contains(n) {
                if prev.contains(n) {
                    assert(in_closure(m1, n));
                    let i = choose|i: int| 0 <= i < m1.len() && #[trigger] pname_of(m1[i].0) == n;
                    assert(pname_of(m[i].0) == n);
                } else {
                    let k = choose|k: int| 0 <= k < package_names(m).len() && package_names(m)[k] == n;
                    if k < prev.len() {
                        assert(prev[k] == n);
                    }
                    assert(n == p);
                    assert(pname_of(m[m.len() - 1].0) == n);
                }
            }
        }
    }
}

proof fn lemma_sum_over_zero(names: Seq<Seq<char>>, f: spec_fn(Seq<char>) -> int)
    requires
        forall|k: int| 0 <= k < names.len() ==> f(#[trigger] names[k]) == 0,
    ensures
        sum_over(names, f) == 0,
    decreases names.len(),
{
    if names.len() > 0 {
        lemma_sum_over_zero(names.drop_last(), f);
    }
}

proof fn lemma_sum_over_ext(names: Seq<Seq<char>>, f: spec_fn(Seq<char>) -> int, g: spec_fn(Seq<char>) -> int)
    requires
        forall|k: int| 0 <= k < names.len() ==> f(#[trigger] names[k]) == g(names[k]),
    ensures
        sum_over(names, f) == sum_over(names, g),
    decreases names.len(),
{
    if names.len() > 0 {
        lemma_sum_over_ext(names.drop_last(), f, g);
    }
}

proof fn lemma_sum_over_sub(names: Seq<Seq<char>>, f: spec_fn(Seq<char>) -> int, g: spec_fn(Seq<char>) -> int)
    ensures
        sum_over(names, |n: Seq<char>| f(n) - g(n)) == sum_over(names, f) - sum_over(names, g),
    decreases names.len(),
{
    if names.len() > 0 {
        lemma_sum_over_sub(names.drop_last(), f, g);
    }
}

/// Adding `v` at one name `p` adds `v` to the sum over names that hold `p` once.
proof fn lemma_sum_over_bump(
    names: Seq<Seq<char>>,
    f: spec_fn(Seq<char>) -> int,
    g: spec_fn(Seq<char>) -> int,
    p: Seq<char>,
    v: int,
)
    requires
        names.no_duplicates(),
        forall|n: Seq<char>| #[trigger] g(n) == f(n) + if n == p { v } else { 0 },
    ensures
        sum_over(names, g) == sum_over(names, f) + if names.contains(p) { v } else { 0 },
    decreases names.len(),
{
    if names.len() > 0 {
        let n1 = names.drop_last();
        assert(n1.no_duplicates());
        lemma_sum_over_bump(n1, f, g, p, v);
        if names.last() == p {
            assert(!n1.contains(p)) by {
                if n1.contains(p) {
                    let k = choose|k: int| 0 <= k < n1.len() && n1[k] == p;
                    assert(names[k] == names[names.len() - 1]);
                }
            }
            assert(names.contains(p)) by {
                assert(names[names.len() - 1] == p);
            }
        } else {
            assert(n1.contains(p) == names.contains(p)) by {
                if names.contains(p) {
                    let k = choose|k: int| 0 <= k < names.len() && names[k] == p;
                    assert(k != names.len() - 1);
                    assert(n1[k] == p);
                }
                if n1.contains(p) {
                    let k = choose|k: int| 0 <= k < n1.len() && n1[k] == p;
                    assert(names[k] == p);
                }
            }
        }
    }
}

/// Summing the per-package sizes over names that hold every package of the
/// closure once gives the closure's total size.
proof fn lemma_sum_package_sizes(names: Seq<Seq<char>>, m: Seq<(Seq<char>, i64)>)
    requires
        names.no_duplicates(),
        forall|n: Seq<char>| in_closure(m, n) ==> names.contains(n),
    ensures
        sum_over(names, |n: Seq<char>| size_in(m, n)) == total_size(m),
    decreases m.len(),
{
    if m.len() == 0 {
        lemma_sum_over_zero(names, |n: Seq<char>| size_in(m, n));
    } else {
        let m1 = m.drop_last();
        assert forall|n: Seq<char>| in_closure(m1, n) implies names.contains(n) by {
            let i = choose|i: int| 0 <= i < m1.len() && #[trigger] pname_of(m1[i].0) == n;
            assert(pname_of(m[i].0) == n);
        }
        lemma_sum_package_sizes(names, m1);
        let p = pname_of(m.last().0);
        assert(in_closure(m, p)) by {
            assert(pname_of(m[m.len() - 1].0) == p);
        }
        lemma_sum_over_bump(
            names,
            |n: Seq<char>| size_in(m1, n),
            |n: Seq<char>| size_in(m, n),
            p,
            m.last().1 as int,
        );
    }
}

/// The names of `sub`, each held once by `names`, where `f` vanishes on the
/// names of `names` outside `sub`, give the same sum.
proof fn lemma_sum_over_support(
    names: Seq<Seq<char>>,
    sub: Seq<Seq<char>>,
    f: spec_fn(Seq<char>) -> int,
)
    requires
        names.no_duplicates(),
        sub.no_duplicates(),
        forall|n: Seq<char>| sub.contains(n) ==> names.contains(n),
        forall|n: Seq<char>| names.contains(n) && !sub.contains(n) ==> f(n) == 0,
    ensures
        sum_over(names, f) == sum_over(sub, f),
    decreases names.len(),
{
    if names.len() == 0 {
        if sub.len() > 0 {
            assert(sub.contains(sub[0]));
        }
    } else {
        let u = names.last();
        let n1 = names.drop_last();
        assert(n1.no_duplicates());
        assert(!n1.contains(u)) by {
            if n1.contains(u) {
                let k = choose|k: int| 0 <= k < n1.len() && n1[k] == u;
                assert(names[k] == names[names.len() - 1]);
            }
        }
        assert forall|n: Seq<char>| n1.contains(n) implies names.contains(n) by {
            let k = choose|k: int| 0 <= k < n1.len() && n1[k] == n;
            assert(names[k] == n);
        }
        if sub.contains(u) {
            let j = choose|j: int| 0 <= j < sub.len() && sub[j] == u;
            let s1 = sub.remove(j);
            lemma_sum_over_remove(sub, f, j);
            assert(s1.no_duplicates()) by {
                assert forall|a: int, b: int| 0 <= a < s1.len() && 0 <= b < s1.len() && a != b implies s1[a] != s1[b] by {
                    let a0 = if a < j { a } else { a + 1 };
                    let b0 = if b < j { b } else { b + 1 };
                    assert(s1[a] == sub[a0] && s1[b] == sub[b0]);
                }
            }
            assert forall|n: Seq<char>| s1.contains(n) implies n1.contains(n) by {
                let k = choose|k: int| 0 <= k < s1.len() && s1[k] == n;
                let k0 = if k < j { k } else { k + 1 };
                assert(sub[k0] == n);
                assert(sub.contains(n));
                assert(n != u);
                let i = choose|i: int| 0 <= i < names.len() && names[i] == n;
                assert(i != names.len() - 1);
                assert(n1[i] == n);
            }
            assert forall|n: Seq<char>| n1.contains(n) && !s1.contains(n) implies f(n) == 0 by {
                assert(names.contains(n));
                if sub.contains(n) {
                    let k = choose|k: int| 0 <= k < sub.len() && sub[k] == n;
                    if k == j {
                        assert(n == u);
                    } else {
                        let k1 = if k < j { k } else { k - 1 };
                        assert(s1[k1] == n);
                    }
                }
            }
            lemma_sum_over_support(n1, s1, f);
        } else {
            assert(names.contains(u)) by {
                assert(names[names.len() - 1] == u);
            }
            assert forall|n: Seq<char>| sub.contains(n) implies n1.contains(n) by {
                let i = choose|i: int| 0 <= i < names.len() && names[i] == n;
                assert(i != names.len() - 1);
                assert(n1[i] == n);
            }
            lemma_sum_over_support(n1, sub, f);
        }
    }
}

proof fn lemma_sum_over_remove(names: Seq<Seq<char>>, f: spec_fn(Seq<char>) -> int, j: int)
    requires
        0 <= j < names.len(),
    ensures
        sum_over(names, f) == sum_over(names.remove(j), f) + f(names[j]),
    decreases names.len(),
{
    if j < names.len() - 1 {
        let n1 = names.drop_last();
        lemma_sum_over_remove(n1, f, j);
        assert(names.remove(j).drop_last() =~= n1.remove(j));
        assert(names.remove(j).last() == names.last());
    } else {
        assert(names.remove(j) =~= names.drop_last());
    }
}

proof fn lemma_delta_sum_over_names(d: Seq<(String, DiffPackage)>, f: spec_fn(Seq<char>) -> int)
    requires
        forall|i: int| 0 <= i < d.len() ==> f(#[trigger] d[i].0@) == d[i].1.size_delta,
    ensures
        delta_sum(d) == sum_over(diff_names(d), f),
    decreases d.len(),
{
    if d.len() > 0 {
        let d1 = d.drop_last();
        lemma_delta_sum_over_names(d1, f);
        assert(diff_names(d).drop_last() =~= diff_names(d1));
        assert(diff_names(d).last() == d.last().0@);
    }
}

/// The size differences of the changed packages add up to the difference of
/// the closures' total sizes.
pub proof fn law_deltas_add_up(
    d: Seq<(String, DiffPackage)>,
    new: Seq<(Seq<char>, i64)>,
    old: Seq<(Seq<char>, i64)>,
)
    requires
        describes_diff(d, new, old),
    ensures
        delta_sum(d) == total_size(new) - total_size(old),
{
    let f = |n: Seq<char>| size_in(new, n) - size_in(old, n);
    let both = new + old;
    lemma_package_names(both);
    let u = package_names(both);
    assert forall|n: Seq<char>| in_closure(new, n) implies u.contains(n) by {
        let i = choose|i: int| 0 <= i < new.len() && #[trigger] pname_of(new[i].0) == n;
        assert(pname_of(both[i].0) == n);
        assert(in_closure(both, n));
    }
    assert forall|n: Seq<char>| in_closure(old, n) implies u.contains(n) by {
        let i = choose|i: int| 0 <= i < old.len() && #[trigger] pname_of(old[i].0) == n;
        assert(pname_of(both[new.len() + i].0) == n);
        assert(in_closure(both, n));
    }
    lemma_sum_package_sizes(u, new);
    lemma_sum_package_sizes(u, old);
    lemma_sum_over_sub(u, |n: Seq<char>| size_in(new, n), |n: Seq<char>| size_in(old, n));
    lemma_sum_over_ext(
        u,
        f,
        |n: Seq<char>| (|n: Seq<char>| size_in(new, n))(n) - (|n: Seq<char>| size_in(old, n))(n),
    );
    let dn = diff_names(d);
    assert(dn.no_duplicates()) by {
        assert forall|a: int, b: int| 0 <= a < dn.len() && 0 <= b < dn.len() && a != b implies dn[a] != dn[b] by {
            if a < b {
                assert(text_lt(d[a].0@, d[b].0@));
            } else {
                assert(text_lt(d[b].0@, d[a].0@));
            }
        }
    }
    assert forall|n: Seq<char>| dn.contains(n) implies u.contains(n) by {
        let i = choose|i: int| 0 <= i < dn.len() && dn[i] == n;
        assert(dn[i] == d[i].0@);
        assert(package_changed(new, old, d[i].0@));
        if !in_closure(new, n) && !in_closure(old, n) {
            lemma_absent_sorted(new, n);
            lemma_absent_sorted(old, n);
        }
    }
    assert forall|n: Seq<char>| u.contains(n) && !dn.contains(n) implies f(n) == 0 by {
        if size_in(new, n) != size_in(old, n) {
            assert(package_changed(new, old, n));
            let i = choose|i: int| 0 <= i < d.len() && #[trigger] d[i].0@ == n;
            assert(dn[i] == n);
        }
    }
    lemma_sum_over_support(u, dn, f);
    assert forall|i: int| 0 <= i < d.len() implies f(#[trigger] d[i].0@) == d[i].1.size_delta by {
        assert(describes_change(new, old, d[i].0@, d[i].1));
    }
    lemma_delta_sum_over_names(d, f);
}

/// The sum of the sizes of a list of package groups.
pub open spec fn group_size_sum(g: Seq<PackageGroup>) -> int
    decreases g.len(),
{
    if g.len() == 0 {
        0
    } else {
        group_size_sum(g.drop_last()) + g.last().nar_size
    }
}

/// The names of a list of package groups, in order.
pub open spec fn group_names(g: Seq<PackageGroup>) -> Seq<Seq<char>> {
    g.map_values(|x: PackageGroup| x.name@)
}

/// The sizes of the packages of a closure add up to its total size.
pub proof fn law_group_sizes_add_up(g: Seq<PackageGroup>, m: Seq<(Seq<char>, i64)>)
    requires
        describes_groups(g, m),
    ensures
        group_size_sum(g) == total_size(m),
{
    let names = group_names(g);
    assert(names.no_duplicates()) by {
        assert forall|a: int, b: int| 0 <= a < names.len() && 0 <= b < names.len() && a != b implies names[a] != names[b] by {
            if a < b {
                assert(text_lt(g[a].name@, g[b].name@));
            } else {
                assert(text_lt(g[b].name@, g[a].name@));
            }
        }
    }
    assert forall|n: Seq<char>| in_closure(m, n) implies names.contains(n) by {
        let i = choose|i: int| 0 <= i < g.len() && #[trigger] g[i].name@ == n;
        assert(names[i] == n);
    }
    lemma_sum_package_sizes(names, m);
    lemma_group_size_sum_over_names(g, m);
}

proof fn lemma_group_size_sum_over_names(g: Seq<PackageGroup>, m: Seq<(Seq<char>, i64)>)
    requires
        forall|i: int| 0 <= i < g.len() ==> #[trigger] g[i].nar_size == size_in(m, g[i].name@),
    ensures
        group_size_sum(g) == sum_over(group_names(g), |n: Seq<char>| size_in(m, n)),
    decreases g.len(),
{
    if g.len() > 0 {
        let g1 = g.drop_last();
        assert forall|i: int| 0 <= i < g1.len() implies #[trigger] g1[i].nar_size == size_in(m, g1[i].name@) by {
            assert(g1[i] == g[i]);
        }
        lemma_group_size_sum_over_names(g1, m);
        assert(group_names(g).drop_last() =~= group_names(g1));
        assert(g[g.len() - 1].nar_size == size_in(m, g[g.len() - 1].name@));
    }
}

/// Cutting a path before its fourth slash leaves nothing more to cut.
proof fn lemma_fourth_slash_of_prefix(p: Seq<char>, i: int, seen: nat)
    requires
        0 <= i <= p.len(),
    ensures
        i <= fourth_slash_from(p, i, seen) <= p.len(),
        fourth_slash_from(p.take(fourth_slash_from(p, i, seen)), i, seen) == fourth_slash_from(
            p,
            i,
            seen,
        ),
    decreases p.len() - i,
{
    let k = fourth_slash_from(p, i, seen);
    if i >= p.len() {
        assert(p.take(k) =~= p);
    } else if p[i] == '/' && seen == 3 {
    } else {
        let seen1: nat = if p[i] == '/' { seen + 1 } else { seen };
        lemma_fourth_slash_of_prefix(p, i + 1, seen1);
        assert(k == fourth_slash_from(p, i + 1, seen1));
        assert(p.take(k)[i] == p[i]);
        assert(fourth_slash_from(p.take(k), i, seen) == fourth_slash_from(p.take(k), i + 1, seen1));
    }
}

/// A path inside a store entry has the package name and version of the
/// entry itself.
pub proof fn law_path_has_entry_name(p: Seq<char>)
    ensures
        spec_pname_version(p) == spec_pname_version(store_base(p)),
{
    lemma_fourth_slash_of_prefix(p, 0, 0);
    let k = fourth_slash_from(p, 0, 0);
    assert(store_base(p) == p.take(k));
    assert(p.take(k).take(k) =~= p.take(k));
}

// ---------------------------------------------------------------------------
// The order of the paths does not matter
// ---------------------------------------------------------------------------
/// The versions that path `x` adds to package `name`.
pub open spec fn version_contribution(x: (Seq<char>, i64), name: Seq<char>) -> vstd::multiset::Multiset<Seq<char>> {
    if pname_of(x.0) == name {
        vstd::multiset::Multiset::singleton(version_label(x.0))
    } else {
        vstd::multiset::Multiset::empty()
    }
}

/// Taking one path out of a closure takes its share out of each package.
proof fn lemma_closure_remove(m: Seq<(Seq<char>, i64)>, j: int, name: Seq<char>)
    requires
        0 <= j < m.len(),
    ensures
        versions_in(m, name).to_multiset() == versions_in(m.remove(j), name).to_multiset().add(
            version_contribution(m[j], name),
        ),
        size_in(m, name) == size_in(m.remove(j), name) + if pname_of(m[j].0) == name {
            m[j].1 as int
        } else {
            0
        },
        in_closure(m, name) == (in_closure(m.remove(j), name) || pname_of(m[j].0) == name),
    decreases m.len(),
{
    broadcast use vstd::seq_lib::group_to_multiset_ensures;
    broadcast use vstd::multiset::group_multiset_axioms;

    let r = m.remove(j);
    if j == m.len() - 1 {
        assert(r =~= m.drop_last());
        lemma_closure_step_last(m, name);
    } else {
        let m1 = m.drop_last();
        lemma_closure_remove(m1, j, name);
        assert(r.drop_last() =~= m1.remove(j));
        assert(r.last() == m.last());
        lemma_closure_step_last(m, name);
        lemma_closure_step_last(r, name);
        assert(versions_in(m, name).to_multiset() =~= versions_in(r, name).to_multiset().add(
            version_contribution(m[j], name),
        ));
    }
}

/// How the per-package views of a closure end with its last path.
proof fn lemma_closure_step_last(m: Seq<(Seq<char>, i64)>, name: Seq<char>)
    requires
        m.len() > 0,
    ensures
        versions_in(m, name).to_multiset() == versions_in(m.drop_last(), name).to_multiset().add(
            version_contribution(m.last(), name),
        ),
        in_closure(m, name) == (in_closure(m.drop_last(), name) || pname_of(m.last().0) == name),
{
    broadcast use vstd::seq_lib::group_to_multiset_ensures;
    broadcast use vstd::multiset::group_multiset_axioms;

    let k = m.len() - 1;
    lemma_closure_step(m, k, name);
    assert(m.take(k) =~= m.drop_last());
    assert(m.take(k + 1) =~= m);
    assert(versions_in(m, name).to_multiset() =~= versions_in(m.drop_last(), name).to_multiset().add(
        version_contribution(m.last(), name),
    ));
}

/// Two closures holding the same paths in any order hold the same packages,
/// with the same versions and sizes.
proof fn lemma_reordered_closure(m1: Seq<(Seq<char>, i64)>, m2: Seq<(Seq<char>, i64)>, name: Seq<char>)
    requires
        m1.to_multiset() == m2.to_multiset(),
    ensures
        versions_in(m1, name).to_multiset() == versions_in(m2, name).to_multiset(),
        size_in(m1, name) == size_in(m2, name),
        in_closure(m1, name) == in_closure(m2, name),
    decreases m1.len(),
{
    broadcast use vstd::seq_lib::group_to_multiset_ensures;
    broadcast use vstd::multiset::group_multiset_axioms;

    if m1.len() == 0 {
        assert(m2.to_multiset().len() == 0);
        assert(m2.len() == 0);
        assert(m1 =~= m2);
    } else {
        let x = m1.last();
        let a = m1.drop_last();
        assert(m1 =~= a.push(x));
        assert(m1.to_multiset() == a.to_multiset().insert(x));
        assert(m2.to_multiset().count(x) > 0);
        assert(m2.contains(x));
        let j = choose|j: int| 0 <= j < m2.len() && m2[j] == x;
        let b = m2.remove(j);
        assert(b.to_multiset() == m2.to_multiset().remove(x));
        assert(a.to_multiset() =~= b.to_multiset());
        lemma_reordered_closure(a, b, name);
        lemma_closure_step_last(m1, name);
        lemma_closure_remove(m2, j, name);
        lemma_closure_step(m1, m1.len() - 1, name);
        assert(m1.take(m1.len() - 1) =~= a);
        assert(m1.take(m1.len() as int) =~= m1);
    }
}

/// Sorted versions agree where the versions agree as multisets.
proof fn lemma_same_sorted_versions(
    m1: Seq<(Seq<char>, i64)>,
    m2: Seq<(Seq<char>, i64)>,
    name: Seq<char>,
)
    requires
        versions_in(m1, name).to_multiset() == versions_in(m2, name).to_multiset(),
    ensures
        sorted_versions(m1, name) == sorted_versions(m2, name),
{
    lemma_text_order_total();
    versions_in(m1, name).lemma_sort_by_ensures(text_order());
    versions_in(m2, name).lemma_sort_by_ensures(text_order());
    vstd::seq_lib::lemma_sorted_unique(
        sorted_versions(m1, name),
        sorted_versions(m2, name),
        text_order(),
    );
}

/// Grouping does not depend on the order of the paths: two closures that hold
/// the same paths, in any order, give the same packages.
pub proof fn law_grouping_ignores_order(
    g1: Seq<PackageGroup>,
    g2: Seq<PackageGroup>,
    m1: Seq<(Seq<char>, i64)>,
    m2: Seq<(Seq<char>, i64)>,
)
    requires
        describes_groups(g1, m1),
        describes_groups(g2, m2),
        m1.to_multiset() == m2.to_multiset(),
    ensures
        g1.len() == g2.len(),
        forall|i: int|
            0 <= i < g1.len() ==> {
                &&& #[trigger] g1[i].name@ == g2[i].name@
                &&& texts(g1[i].versions@) == texts(g2[i].versions@)
                &&& g1[i].nar_size == g2[i].nar_size
            },
{
    let x = group_names(g1);
    let y = group_names(g2);
    assert forall|n: Seq<char>| x.contains(n) implies y.contains(n) by {
        let i = choose|i: int| 0 <= i < x.len() && x[i] == n;
        assert(x[i] == g1[i].name@);
        assert(in_closure(m1, g1[i].name@));
        lemma_reordered_closure(m1, m2, n);
        let j = choose|j: int| 0 <= j < g2.len() && #[trigger] g2[j].name@ == n;
        assert(y[j] == n);
    }
    assert forall|n: Seq<char>| y.contains(n) implies x.contains(n) by {
        let i = choose|i: int| 0 <= i < y.len() && y[i] == n;
        assert(y[i] == g2[i].name@);
        assert(in_closure(m2, g2[i].name@));
        lemma_reordered_closure(m1, m2, n);
        let j = choose|j: int| 0 <= j < g1.len() && #[trigger] g1[j].name@ == n;
        assert(x[j] == n);
    }
    assert forall|i: int, j: int| 0 <= i < j < x.len() implies text_lt(#[trigger] x[i], #[trigger] x[j]) by {
        assert(text_lt(g1[i].name@, g1[j].name@));
    }
    assert forall|i: int, j: int| 0 <= i < j < y.len() implies text_lt(#[trigger] y[i], #[trigger] y[j]) by {
        assert(text_lt(g2[i].name@, g2[j].name@));
    }
    lemma_sorted_names_unique(x, y);
    assert forall|i: int| 0 <= i < g1.len() implies {
        &&& #[trigger] g1[i].name@ == g2[i].name@
        &&& texts(g1[i].versions@) == texts(g2[i].versions@)
        &&& g1[i].nar_size == g2[i].nar_size
    } by {
        assert(x[i] == y[i]);
        let n = g1[i].name@;
        lemma_reordered_closure(m1, m2, n);
        lemma_same_sorted_versions(m1, m2, n);
        assert(texts(g1[i].versions@) == sorted_versions(m1, n));
        assert(texts(g2[i].versions@) == sorted_versions(m2, g2[i].name@));
        assert(g1[i].nar_size == size_in(m1, n));
        assert(g2[i].nar_size == size_in(m2, g2[i].name@));
    }
}

/// Comparing two orderings of the same paths finds no changed package.
pub proof fn law_reordered_closures_have_no_changes(
    d: Seq<(String, DiffPackage)>,
    m1: Seq<(Seq<char>, i64)>,
    m2: Seq<(Seq<char>, i64)>,
)
    requires
        describes_diff(d, m1, m2),
        m1.to_multiset() == m2.to_multiset(),
    ensures
        d.len() == 0,
{
    if d.len() > 0 {
        let n = d[0].0@;
        assert(package_changed(m1, m2, n));
        lemma_reordered_closure(m1, m2, n);
        lemma_same_sorted_versions(m1, m2, n);
    }
}

// ---------------------------------------------------------------------------
// Store paths of the usual shape
// ---------------------------------------------------------------------------
/// `/nix/store/<h>-<n>-<v>`
pub open spec fn store_path_of(h: Seq<char>, n: Seq<char>, v: Seq<char>) -> Seq<char> {
    seq!['/', 'n', 'i', 'x', '/', 's', 't', 'o', 'r', 'e', '/'] + h + seq!['-'] + n + seq!['-'] + v
}

proof fn lemma_no_slash_after(p: Seq<char>, i: int)
    requires
        0 <= i <= p.len(),
        forall|k: int| i <= k < p.len() ==> p[k] != '/',
    ensures
        fourth_slash_from(p, i, 3) == p.len(),
    decreases p.len() - i,
{
    if i < p.len() {
        lemma_no_slash_after(p, i + 1);
    }
}

proof fn lemma_hash_run(b: Seq<char>, i: int, e: int)
    requires
        0 <= i <= e < b.len(),
        forall|k: int| i <= k < e ==> ('a' <= #[trigger] b[k] && b[k] <= 'z') || ('0' <= b[k] && b[k] <= '9'),
        b[e] == '-',
    ensures
        hash_run_end(b, i) == e,
    decreases e - i,
{
    if i < e {
        lemma_hash_run(b, i + 1, e);
    }
}

proof fn lemma_split_at_name_end(r: Seq<char>, k: int, nl: int)
    requires
        1 <= k <= nl,
        nl + 1 < r.len(),
        r[nl] == '-',
        '0' <= r[nl + 1] && r[nl + 1] <= '9',
        forall|j: int| k <= j < nl ==> !splits_at(r, j),
    ensures
        first_split(r, k) == nl,
    decreases nl - k,
{
    if k < nl {
        lemma_split_at_name_end(r, k + 1, nl);
    }
}

/// A store path `/nix/store/<hash>-<name>-<version>`, with a hash of lower-case
/// ASCII letters and digits, a name without `-` followed by a digit, and a
/// version that starts with a digit and does not end in `.drv`, has package
/// name `<name>` and version `<version>`.
pub proof fn law_store_path_name_and_version(h: Seq<char>, n: Seq<char>, v: Seq<char>)
    requires
        h.len() > 0,
        forall|i: int| 0 <= i < h.len() ==> ('a' <= #[trigger] h[i] && h[i] <= 'z') || ('0' <= h[i] && h[i] <= '9'),
        n.len() > 0,
        forall|i: int| 0 <= i < n.len() ==> #[trigger] n[i] != '/' && n[i] != '\n',
        forall|i: int| 1 <= i < n.len() - 1 ==> !(#[trigger] n[i] == '-' && '0' <= n[i + 1] && n[i + 1] <= '9'),
        v.len() > 0,
        '0' <= v[0] && v[0] <= '9',
        forall|i: int| 0 <= i < v.len() ==> #[trigger] v[i] != '/' && v[i] != '\n',
        !(v.len() >= 4 && v.skip(v.len() - 4) == seq!['.', 'd', 'r', 'v']),
    ensures
        spec_pname_version(store_path_of(h, n, v)) == (n, Some(v)),
{
    let p = store_path_of(h, n, v);
    let dir = seq!['/', 'n', 'i', 'x', '/', 's', 't', 'o', 'r', 'e', '/'];
    assert(dir =~= store_dir());
    let e: int = 11 + h.len() as int;
    let r = n + seq!['-'] + v;
    assert(p =~= dir + h + seq!['-'] + r);
    // The path is its own store entry.
    assert forall|k: int| 11 <= k < p.len() implies p[k] != '/' by {
        if k < e {
            assert(p[k] == h[k - 11]);
        } else if e < k < e + 1 + n.len() {
            assert(p[k] == n[k - e - 1]);
        } else if k > e + 1 + n.len() {
            assert(p[k] == v[k - e - 2 - n.len()]);
        }
    }
    lemma_no_slash_after(p, 11);
    assert(fourth_slash_from(p, 0, 0) == fourth_slash_from(p, 11, 3)) by {
        assert(p[0] == '/' && p[1] == 'n' && p[2] == 'i' && p[3] == 'x' && p[4] == '/');
        assert(p[5] == 's' && p[6] == 't' && p[7] == 'o' && p[8] == 'r' && p[9] == 'e' && p[10] == '/');
        assert(fourth_slash_from(p, 10, 2) == fourth_slash_from(p, 11, 3));
        assert(fourth_slash_from(p, 9, 2) == fourth_slash_from(p, 10, 2));
        assert(fourth_slash_from(p, 8, 2) == fourth_slash_from(p, 9, 2));
        assert(fourth_slash_from(p, 7, 2) == fourth_slash_from(p, 8, 2));
        assert(fourth_slash_from(p, 6, 2) == fourth_slash_from(p, 7, 2));
        assert(fourth_slash_from(p, 5, 2) == fourth_slash_from(p, 6, 2));
        assert(fourth_slash_from(p, 4, 1) == fourth_slash_from(p, 5, 2));
        assert(fourth_slash_from(p, 3, 1) == fourth_slash_from(p, 4, 1));
        assert(fourth_slash_from(p, 2, 1) == fourth_slash_from(p, 3, 1));
        assert(fourth_slash_from(p, 1, 1) == fourth_slash_from(p, 2, 1));
        assert(fourth_slash_from(p, 0, 0) == fourth_slash_from(p, 1, 1));
    }
    assert(store_base(p) =~= p);
    // The hash, then the rest.
    assert(p.take(11) =~= store_dir());
    assert forall|k: int| 11 <= k < e implies ('a' <= #[trigger] p[k] && p[k] <= 'z') || ('0' <= p[k] && p[k] <= '9') by {
        assert(p[k] == h[k - 11]);
    }
    lemma_hash_run(p, 11, e);
    assert(p.skip(e + 1) =~= r);
    assert(!r.contains('\n')) by {
        if r.contains('\n') {
            let k = choose|k: int| 0 <= k < r.len() && r[k] == '\n';
            if k < n.len() {
                assert(r[k] == n[k]);
            } else if k > n.len() {
                assert(r[k] == v[k - n.len() - 1]);
            }
        }
    }
    assert(store_name_part(p) == Some(r));
    // The name ends at the first `-<digit>`.
    let nl = n.len() as int;
    assert(r[nl] == '-' && r[nl + 1] == v[0]);
    assert forall|j: int| 1 <= j < nl implies !splits_at(r, j) by {
        assert(r[j] == n[j]);
        if j + 1 < nl {
            assert(r[j + 1] == n[j + 1]);
        } else {
            assert(r[j + 1] == '-');
        }
        if r.skip(j) == drv_suffix() {
            assert(r.skip(j).len() == 4);
            assert(r.skip(j)[nl - j] == '-');
            assert(drv_suffix()[nl - j] != '-');
        }
    }
    lemma_split_at_name_end(r, 1, nl);
    assert(r.take(nl) =~= n);
    let t = r.skip(nl);
    assert(t =~= seq!['-'] + v);
    assert(t[1] == v[0]);
    if t.len() >= 6 {
        assert(t.skip(t.len() - 4) =~= v.skip(v.len() - 4));
        assert(drv_suffix() =~= seq!['.', 'd', 'r', 'v']);
    }
    assert(t.skip(1) =~= v);
}

/// `/nix/store/<h>-<r>`, with a hash of lower-case ASCII letters and digits
/// and a rest without `/` or line breaks, is its own store entry, whose part
/// after the hash is `<r>`.
proof fn lemma_store_entry(h: Seq<char>, r: Seq<char>)
    requires
        h.len() > 0,
        forall|i: int| 0 <= i < h.len() ==> ('a' <= #[trigger] h[i] && h[i] <= 'z') || ('0' <= h[i] && h[i] <= '9'),
        r.len() > 0,
        forall|i: int| 0 <= i < r.len() ==> #[trigger] r[i] != '/' && r[i] != '\n',
    ensures
        ({
            let p = seq!['/', 'n', 'i', 'x', '/', 's', 't', 'o', 'r', 'e', '/'] + h + seq!['-'] + r;
            store_base(p) == p && store_name_part(p) == Some(r)
        }),
{
    let dir = seq!['/', 'n', 'i', 'x', '/', 's', 't', 'o', 'r', 'e', '/'];
    let p = dir + h + seq!['-'] + r;
    assert(dir =~= store_dir());
    let e: int = 11 + h.len() as int;
    assert forall|k: int| 11 <= k < p.len() implies p[k] != '/' by {
        if k < e {
            assert(p[k] == h[k - 11]);
        } else if k > e {
            assert(p[k] == r[k - e - 1]);
        }
    }
    lemma_no_slash_after(p, 11);
    assert(fourth_slash_from(p, 0, 0) == fourth_slash_from(p, 11, 3)) by {
        assert(p[0] == '/' && p[1] == 'n' && p[2] == 'i' && p[3] == 'x' && p[4] == '/');
        assert(p[5] == 's' && p[6] == 't' && p[7] == 'o' && p[8] == 'r' && p[9] == 'e' && p[10] == '/');
        assert(fourth_slash_from(p, 10, 2) == fourth_slash_from(p, 11, 3));
        assert(fourth_slash_from(p, 9, 2) == fourth_slash_from(p, 10, 2));
        assert(fourth_slash_from(p, 8, 2) == fourth_slash_from(p, 9, 2));
        assert(fourth_slash_from(p, 7, 2) == fourth_slash_from(p, 8, 2));
        assert(fourth_slash_from(p, 6, 2) == fourth_slash_from(p, 7, 2));
        assert(fourth_slash_from(p, 5, 2) == fourth_slash_from(p, 6, 2));
        assert(fourth_slash_from(p, 4, 1) == fourth_slash_from(p, 5, 2));
        assert(fourth_slash_from(p, 3, 1) == fourth_slash_from(p, 4, 1));
        assert(fourth_slash_from(p, 2, 1) == fourth_slash_from(p, 3, 1));
        assert(fourth_slash_from(p, 1, 1) == fourth_slash_from(p, 2, 1));
        assert(fourth_slash_from(p, 0, 0) == fourth_slash_from(p, 1, 1));
    }
    assert(store_base(p) =~= p);
    assert(p.take(11) =~= store_dir());
    assert forall|k: int| 11 <= k < e implies ('a' <= #[trigger] p[k] && p[k] <= 'z') || ('0' <= p[k] && p[k] <= '9') by {
        assert(p[k] == h[k - 11]);
    }
    lemma_hash_run(p, 11, e);
    assert(p.skip(e + 1) =~= r);
    assert(!r.contains('\n')) by {
        if r.contains('\n') {
            let k = choose|k: int| 0 <= k < r.len() && r[k] == '\n';
        }
    }
}

/// A store path `/nix/store/<hash>-<name>-<version>.drv` (a derivation) has
/// package name `<name>` and version `<version>`, under the conditions of
/// [`law_store_path_name_and_version`] save that the version may itself end
/// in `.drv`.
pub proof fn law_derivation_name_and_version(h: Seq<char>, n: Seq<char>, v: Seq<char>)
    requires
        h.len() > 0,
        forall|i: int| 0 <= i < h.len() ==> ('a' <= #[trigger] h[i] && h[i] <= 'z') || ('0' <= h[i] && h[i] <= '9'),
        n.len() > 0,
        forall|i: int| 0 <= i < n.len() ==> #[trigger] n[i] != '/' && n[i] != '\n',
        forall|i: int| 1 <= i < n.len() - 1 ==> !(#[trigger] n[i] == '-' && '0' <= n[i + 1] && n[i + 1] <= '9'),
        v.len() > 0,
        '0' <= v[0] && v[0] <= '9',
        forall|i: int| 0 <= i < v.len() ==> #[trigger] v[i] != '/' && v[i] != '\n',
    ensures
        spec_pname_version(store_path_of(h, n, v + seq!['.', 'd', 'r', 'v'])) == (n, Some(v)),
{
    let drv = seq!['.', 'd', 'r', 'v'];
    let r = n + seq!['-'] + v + drv;
    assert(store_path_of(h, n, v + drv) =~= seq!['/', 'n', 'i', 'x', '/', 's', 't', 'o', 'r', 'e', '/'] + h + seq!['-'] + r);
    assert forall|i: int| 0 <= i < r.len() implies #[trigger] r[i] != '/' && r[i] != '\n' by {
        if i < n.len() {
            assert(r[i] == n[i]);
        } else if n.len() < i < n.len() + 1 + v.len() {
            assert(r[i] == v[i - n.len() - 1]);
        }
    }
    lemma_store_entry(h, r);
    let nl = n.len() as int;
    assert(r[nl] == '-' && r[nl + 1] == v[0]);
    assert forall|j: int| 1 <= j < nl implies !splits_at(r, j) by {
        assert(r[j] == n[j]);
        if j + 1 < nl {
            assert(r[j + 1] == n[j + 1]);
        } else {
            assert(r[j + 1] == '-');
        }
        if r.skip(j) == drv_suffix() {
            assert(r.skip(j).len() == 4);
        }
    }
    lemma_split_at_name_end(r, 1, nl);
    assert(r.take(nl) =~= n);
    let t = r.skip(nl);
    assert(t =~= seq!['-'] + v + drv);
    assert(t[1] == v[0]);
    assert(t.skip(t.len() - 4) =~= drv);
    assert(drv_suffix() =~= drv);
    assert(t.subrange(1, t.len() - 4) =~= v);
}

/// Whether a name, after its first character, holds no `-` followed by a
/// digit, and does not end in `.drv` after its first character.
pub open spec fn plain_name(n: Seq<char>) -> bool {
    &&& forall|i: int| 1 <= i < n.len() - 1 ==> !(#[trigger] n[i] == '-' && '0' <= n[i + 1] && n[i + 1] <= '9')
    &&& !(n.len() >= 5 && n.skip(n.len() - 4) == seq!['.', 'd', 'r', 'v'])
}

/// A store path `/nix/store/<hash>-<name>` whose name holds no version has
/// that name and no version; so does the derivation `<name>.drv`.
pub proof fn law_unversioned_store_path(h: Seq<char>, n: Seq<char>)
    requires
        h.len() > 0,
        forall|i: int| 0 <= i < h.len() ==> ('a' <= #[trigger] h[i] && h[i] <= 'z') || ('0' <= h[i] && h[i] <= '9'),
        n.len() > 0,
        forall|i: int| 0 <= i < n.len() ==> #[trigger] n[i] != '/' && n[i] != '\n',
        plain_name(n),
    ensures
        spec_pname_version(seq!['/', 'n', 'i', 'x', '/', 's', 't', 'o', 'r', 'e', '/'] + h + seq!['-'] + n)
            == (n, Option::<Seq<char>>::None),
        spec_pname_version(seq!['/', 'n', 'i', 'x', '/', 's', 't', 'o', 'r', 'e', '/'] + h + seq!['-'] + n
            + seq!['.', 'd', 'r', 'v']) == (n, Option::<Seq<char>>::None),
{
    let drv = seq!['.', 'd', 'r', 'v'];
    assert(drv_suffix() =~= drv);
    let nl = n.len() as int;
    // Without `.drv`.
    lemma_store_entry(h, n);
    assert forall|j: int| 1 <= j < nl implies !splits_at(n, j) by {
        if n.skip(j) == drv_suffix() {
            assert(n.skip(nl - 4) =~= n.skip(j));
        }
    }
    lemma_split_at_end(n, 1);
    assert(n.take(nl) =~= n);
    assert(n.skip(nl).len() == 0);
    // With `.drv`.
    let r = n + drv;
    assert forall|i: int| 0 <= i < r.len() implies #[trigger] r[i] != '/' && r[i] != '\n' by {
        if i < nl {
            assert(r[i] == n[i]);
        }
    }
    lemma_store_entry(h, r);
    assert(seq!['/', 'n', 'i', 'x', '/', 's', 't', 'o', 'r', 'e', '/'] + h + seq!['-'] + n + drv
        =~= seq!['/', 'n', 'i', 'x', '/', 's', 't', 'o', 'r', 'e', '/'] + h + seq!['-'] + r);
    assert forall|j: int| 1 <= j < nl implies !splits_at(r, j) by {
        assert(r[j] == n[j]);
        if j + 1 < nl {
            assert(r[j + 1] == n[j + 1]);
        } else {
            assert(r[j + 1] == '.');
        }
        if r.skip(j) == drv_suffix() {
            assert(r.skip(j).len() == 4);
        }
    }
    assert(r.skip(nl) =~= drv_suffix());
    lemma_first_split_at(r, 1, nl);
    assert(r.take(nl) =~= n);
    assert(r.skip(nl)[0] == '.');
}

proof fn lemma_split_at_end(r: Seq<char>, k: int)
    requires
        1 <= k <= r.len(),
        forall|j: int| k <= j < r.len() ==> !splits_at(r, j),
    ensures
        first_split(r, k) == r.len(),
    decreases r.len() - k,
{
    if k < r.len() {
        lemma_split_at_end(r, k + 1);
    }
}

proof fn lemma_first_split_at(r: Seq<char>, k: int, e: int)
    requires
        1 <= k <= e < r.len(),
        splits_at(r, e),
        forall|j: int| k <= j < e ==> !splits_at(r, j),
    ensures
        first_split(r, k) == e,
    decreases e - k,
{
    if k < e {
        lemma_first_split_at(r, k + 1, e);
    }
}

/// A path whose store entry is not of the form `/nix/store/<hash>-<rest>`
/// (for one, any path outside `/nix/store/`) is its own package, without a
/// version, which is shown as `<none>`.
pub proof fn law_path_outside_store(p: Seq<char>)
    requires
        !(p.len() >= 11 && p.take(11) == seq!['/', 'n', 'i', 'x', '/', 's', 't', 'o', 'r', 'e', '/']),
    ensures
        spec_pname_version(p) == (store_base(p), Option::<Seq<char>>::None),
        version_label(p) == seq!['<', 'n', 'o', 'n', 'e', '>'],
{
    lemma_fourth_slash_of_prefix(p, 0, 0);
    let b = store_base(p);
    assert(seq!['/', 'n', 'i', 'x', '/', 's', 't', 'o', 'r', 'e', '/'] =~= store_dir());
    if b.len() >= 11 {
        assert(b.take(11) =~= p.take(11));
    }
    assert(none_label() =~= seq!['<', 'n', 'o', 'n', 'e', '>']);
}

/// A store entry is the path cut before its fourth `/`: a prefix of the path
/// holding at most three slashes, followed, unless it is the whole path, by a
/// `/` after exactly three.
pub proof fn law_store_base(p: Seq<char>)
    ensures
        ({
            let b = store_base(p);
            let slash = |c: char| c == '/';
            &&& b.len() <= p.len()
            &&& b == p.take(b.len() as int)
            &&& b.len() < p.len() ==> p[b.len() as int] == '/' && b.filter(slash).len() == 3
            &&& b.len() == p.len() ==> p.filter(slash).len() <= 3
        }),
{
    lemma_store_base_scan(p, 0, 0);
    assert(p.take(0) =~= Seq::<char>::empty());
    reveal(Seq::filter);
    lemma_fourth_slash_of_prefix(p, 0, 0);
    let k = fourth_slash_from(p, 0, 0);
    assert(p.take(k).take(k) =~= p.take(k));
    assert(p.take(p.len() as int) =~= p);
}

proof fn lemma_store_base_scan(p: Seq<char>, i: int, seen: nat)
    requires
        0 <= i <= p.len(),
        seen <= 3,
        p.take(i).filter(|c: char| c == '/').len() == seen,
    ensures
        ({
            let k = fourth_slash_from(p, i, seen);
            let slash = |c: char| c == '/';
            &&& k < p.len() ==> p[k] == '/' && p.take(k).filter(slash).len() == 3
            &&& k >= p.len() ==> p.filter(slash).len() <= 3
        }),
    decreases p.len() - i,
{
    reveal(Seq::filter);
    let slash = |c: char| c == '/';
    if i >= p.len() {
        assert(p.take(i) =~= p);
    } else if p[i] == '/' && seen == 3 {
    } else {
        let seen1: nat = if p[i] == '/' { seen + 1 } else { seen };
        assert(p.take(i + 1).drop_last() =~= p.take(i));
        assert(p.take(i + 1).last() == p[i]);
        assert(p.take(i + 1).filter(slash).len() == seen1);
        lemma_store_base_scan(p, i + 1, seen1);
    }
}

} // verus!
