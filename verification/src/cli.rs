//! The decisions of the command-line tool: labels and sizes for display, and
//! what a new deployment records.
use vstd::prelude::*;

use crate::nix::{
    first_index_from, last_index_before, spec_ssh_target, ssh_scheme, SshTarget, StorePathInfo,
    Target,
};
use crate::text::{
    compare_text, decimal_string, decimal_text, lemma_decimal_text_reads_back, owned,
    spec_parse_u16, TextOrder,
};

verus! {

broadcast use vstd::string::group_string_axioms;

// ---------------------------------------------------------------------------
// Labels and sizes
// ---------------------------------------------------------------------------
/// `local system`
pub open spec fn local_label() -> Seq<char> {
    seq!['l', 'o', 'c', 'a', 'l', ' ', 's', 'y', 's', 't', 'e', 'm']
}

/// How a target is shown: `local system`, `ssh://<host>` or
/// `ssh://<host>:<port>`.
pub open spec fn spec_target_label(target: Target) -> Seq<char> {
    match target {
        Target::Local => local_label(),
        Target::Ssh(t) => match t.port {
            Some(p) => ssh_scheme() + t.host@ + seq![':'] + decimal_text(p as nat),
            None => ssh_scheme() + t.host@,
        },
    }
}

/// How a target is shown in messages.
pub fn target_label(target: &Target) -> (label: String)
    ensures
        label@ == spec_target_label(*target),
{
    match target {
        Target::Local => {
            let s = "local system";
            proof {
                reveal_strlit("local system");
            }
            assert(s@ =~= local_label());
            owned(s)
        },
        Target::Ssh(t) => {
            let scheme = "ssh://";
            proof {
                reveal_strlit("ssh://");
            }
            assert(scheme@ =~= ssh_scheme());
            let mut label = owned(scheme);
            label.append(t.host.as_str());
            match t.port {
                Some(p) => {
                    let colon = ":";
                    proof {
                        reveal_strlit(":");
                    }
                    assert(colon@ =~= seq![':']);
                    label.append(colon);
                    let digits = decimal_string(p);
                    label.append(digits.as_str());
                },
                None => {},
            }
            label
        },
    }
}

/// What `humansize::format_size(bytes, BINARY)` writes for `bytes`.
pub uninterp spec fn binary_size_text(bytes: u64) -> Seq<char>;

/// Calls `humansize::format_size` with the `BINARY` options (kilo = 1024,
/// units `B`, `KiB`, `MiB`, ...). The result is named by
/// [`binary_size_text`]; below 1024 it is the number followed by ` B`, as
/// the crate's formatter writes whole values without decimals. The text for
/// larger sizes, which rounds a float to two places, is not stated.
#[verifier::external_body]
fn humansize_binary(bytes: u64) -> (s: String)
    ensures
        s@ == binary_size_text(bytes),
        bytes < 1024 ==> s@ == decimal_text(bytes as nat) + seq![' ', 'B'],
{
    humansize::format_size(bytes, humansize::BINARY)
}

/// The magnitude of a size.
pub open spec fn magnitude(bytes: i64) -> u64 {
    if bytes < 0 {
        (0 - bytes) as u64
    } else {
        bytes as u64
    }
}

/// A size shown with its sign: `-` before the text of the magnitude where
/// the size is negative.
pub fn signed_size_text(bytes: i64, magnitude_text: String) -> (s: String)
    ensures
        s@ == if bytes < 0 {
            seq!['-'] + magnitude_text@
        } else {
            magnitude_text@
        },
{
    if bytes < 0 {
        let minus = "-";
        proof {
            reveal_strlit("-");
        }
        assert(minus@ =~= seq!['-']);
        let mut s = owned(minus);
        s.append(magnitude_text.as_str());
        s
    } else {
        magnitude_text
    }
}

/// A size in bytes shown in binary units, with a `-` where it is negative.
pub fn format_size(bytes: i64) -> (s: String)
    ensures
        s@ == if bytes < 0 {
            seq!['-'] + binary_size_text(magnitude(bytes))
        } else {
            binary_size_text(magnitude(bytes))
        },
        -1024 < bytes < 1024 ==> s@ == (if bytes < 0 {
            seq!['-']
        } else {
            Seq::<char>::empty()
        }) + decimal_text((if bytes < 0 {
            -bytes
        } else {
            bytes as int
        }) as nat) + seq![' ', 'B'],
{
    let m: u64 = if bytes < 0 {
        ((-(bytes + 1)) as u64) + 1
    } else {
        bytes as u64
    };
    assert(m == magnitude(bytes));
    let text = humansize_binary(m);
    let r = signed_size_text(bytes, text);
    proof {
        law_magnitude_is_size(bytes);
        if -1024 < bytes < 1024 {
            if bytes < 0 {
                assert(r@ =~= seq!['-'] + (decimal_text(m as nat) + seq![' ', 'B']));
            } else {
                assert(r@ =~= Seq::<char>::empty() + decimal_text(m as nat) + seq![' ', 'B']);
            }
        }
    }
    r
}

/// The magnitude of a size is its absolute value.
pub proof fn law_magnitude_is_size(bytes: i64)
    ensures
        magnitude(bytes) as int == if bytes < 0 {
            -bytes
        } else {
            bytes as int
        },
{
}

// ---------------------------------------------------------------------------
// Recording a deployment
// ---------------------------------------------------------------------------
/// Why a deployment is not recorded.
pub enum RecordError {
    /// The closure of the system does not list its own top-level path.
    ToplevelNotInClosure { toplevel: String },
    /// The machine's latest deployment already has this top-level path.
    AlreadyRecorded { machine: String },
}

/// The first index at or after `i` of a path of the closure equal to `p`, or
/// the length of the closure.
pub open spec fn first_path_index(c: Seq<StorePathInfo>, p: Seq<char>, i: int) -> int
    decreases c.len() - i,
{
    if i < 0 || i >= c.len() {
        c.len() as int
    } else if c[i].path@ == p {
        i
    } else {
        first_path_index(c, p, i + 1)
    }
}

/// The closure size of the system: that reported for the first path of the
/// closure equal to the top-level path.
pub fn toplevel_size(closure: &[StorePathInfo], toplevel: &str) -> (r: Result<i64, RecordError>)
    ensures
        first_path_index(closure@, toplevel@, 0) == closure@.len() ==> (r matches Err(
            RecordError::ToplevelNotInClosure { toplevel: t },
        ) && t@ == toplevel@),
        first_path_index(closure@, toplevel@, 0) < closure@.len() ==> r == Ok::<i64, RecordError>(
            closure@[first_path_index(closure@, toplevel@, 0)].closure_size,
        ),
        forall|i: int|
            0 <= i < closure@.len() && #[trigger] closure@[i].path@ == toplevel@ && (forall|j: int|
                0 <= j < i ==> closure@[j].path@ != toplevel@) ==> r == Ok::<i64, RecordError>(
                closure@[i].closure_size,
            ),
        (exists|i: int| 0 <= i < closure@.len() && #[trigger] closure@[i].path@ == toplevel@) ==> r is Ok,
        closure@.len() > 0 && closure@[0].path@ == toplevel@ ==> r == Ok::<i64, RecordError>(
            closure@[0].closure_size,
        ),
{
    proof {
        law_toplevel_found_at_first_match(closure@, toplevel@);
    }
    let mut i: usize = 0;
    while i < closure.len()
        invariant
            i <= closure.len(),
            first_path_index(closure@, toplevel@, 0) == first_path_index(closure@, toplevel@, i as int),
        decreases closure.len() - i,
    {
        if compare_text(closure[i].path.as_str(), toplevel) == TextOrder::Equal {
            proof {
                law_toplevel_found_at_first_match(closure@, toplevel@);
            }
            return Ok(closure[i].closure_size);
        }
        i = i + 1;
    }
    assert(first_path_index(closure@, toplevel@, 0) == closure@.len());
    assert forall|k: int|
        0 <= k < closure@.len() && #[trigger] closure@[k].path@ == toplevel@ implies exists|j: int|
            0 <= j < k && closure@[j].path@ == toplevel@ by {
        if forall|j: int| 0 <= j < k ==> closure@[j].path@ != toplevel@ {
            lemma_first_path_index_from(closure@, toplevel@, 0, k);
        }
    }
    Err(RecordError::ToplevelNotInClosure { toplevel: owned(toplevel) })
}

/// A new deployment of `machine` with top-level path `toplevel` is refused
/// where the machine's latest recorded deployment has the same top-level path.
pub fn check_not_repeated(machine: &str, toplevel: &str, last_toplevel: Option<&str>) -> (r: Result<
    (),
    RecordError,
>)
    ensures
        (last_toplevel matches Some(l) && l@ == toplevel@) ==> (r matches Err(
            RecordError::AlreadyRecorded { machine: m },
        ) && m@ == machine@),
        !(last_toplevel matches Some(l) && l@ == toplevel@) ==> r is Ok,
{
    match last_toplevel {
        Some(l) => {
            if compare_text(l, toplevel) == TextOrder::Equal {
                return Err(RecordError::AlreadyRecorded { machine: owned(machine) });
            }
            Ok(())
        },
        None => Ok(()),
    }
}

/// The last index before `i` of a path of the closure equal to `p`.
pub open spec fn last_path_index(c: Seq<StorePathInfo>, p: Seq<char>, i: int) -> Option<int>
    decreases i,
{
    if i <= 0 || i > c.len() {
        None
    } else if c[i - 1].path@ == p {
        Some(i - 1)
    } else {
        last_path_index(c, p, i - 1)
    }
}

/// The database id of path `p`, where `ids[k]` is that of the `k`-th path of
/// the closure; a path listed twice takes the id given last.
pub open spec fn id_of(c: Seq<StorePathInfo>, ids: Seq<i64>, p: Seq<char>) -> Option<i64> {
    match last_path_index(c, p, c.len() as int) {
        Some(k) => Some(ids[k]),
        None => None,
    }
}

/// The (referrer, referenced) pairs for the references `refs` of one path,
/// in order, leaving out references outside the closure.
pub open spec fn pairs_of_refs(
    c: Seq<StorePathInfo>,
    ids: Seq<i64>,
    referrer: i64,
    refs: Seq<String>,
) -> Seq<(i64, i64)>
    decreases refs.len(),
{
    if refs.len() == 0 {
        Seq::empty()
    } else {
        let prev = pairs_of_refs(c, ids, referrer, refs.drop_last());
        match id_of(c, ids, refs.last()@) {
            Some(t) => prev.push((referrer, t)),
            None => prev,
        }
    }
}

/// The reference pairs of the first `n` paths of the closure, in order.
pub open spec fn reference_pairs_upto(c: Seq<StorePathInfo>, ids: Seq<i64>, n: int) -> Seq<
    (i64, i64),
>
    decreases n,
{
    if n <= 0 || n > c.len() {
        Seq::empty()
    } else {
        reference_pairs_upto(c, ids, n - 1) + pairs_of_refs(
            c,
            ids,
            id_of(c, ids, c[n - 1].path@).unwrap(),
            c[n - 1].references@,
        )
    }
}

/// Looks up the database id of a path of the closure.
fn lookup_id(closure: &[StorePathInfo], ids: &[i64], path: &String) -> (r: Option<i64>)
    requires
        ids@.len() == closure@.len(),
    ensures
        r == id_of(closure@, ids@, path@),
{
    let mut i: usize = closure.len();
    while i > 0
        invariant
            i <= closure.len(),
            ids@.len() == closure@.len(),
            last_path_index(closure@, path@, closure@.len() as int) == last_path_index(
                closure@,
                path@,
                i as int,
            ),
        decreases i,
    {
        if closure[i - 1].path == *path {
            return Some(ids[i - 1]);
        }
        i = i - 1;
    }
    None
}

/// The references between the paths of a closure, as pairs of database ids
/// (referrer, referenced), where `ids[k]` is the id of the `k`-th path.
/// References to paths outside the closure are left out.
pub fn reference_pairs(closure: &[StorePathInfo], ids: &[i64]) -> (pairs: Vec<(i64, i64)>)
    requires
        ids@.len() == closure@.len(),
    ensures
        pairs@ == reference_pairs_upto(closure@, ids@, closure@.len() as int),
{
    let mut pairs: Vec<(i64, i64)> = Vec::new();
    for n in 0..closure.len()
        invariant
            ids@.len() == closure@.len(),
            pairs@ == reference_pairs_upto(closure@, ids@, n as int),
    {
        let sp = &closure[n];
        proof {
            lemma_path_has_id(closure@, ids@, n as int);
        }
        let referrer = match lookup_id(closure, ids, &sp.path) {
            Some(id) => id,
            None => 0,
        };
        let ghost base = pairs@;
        for k in 0..sp.references.len()
            invariant
                ids@.len() == closure@.len(),
                pairs@ == base + pairs_of_refs(closure@, ids@, referrer, sp.references@.take(k as int)),
        {
            assert(sp.references@.take(k + 1).drop_last() =~= sp.references@.take(k as int));
            match lookup_id(closure, ids, &sp.references[k]) {
                Some(t) => {
                    pairs.push((referrer, t));
                },
                None => {},
            }
            assert(pairs@ =~= base + pairs_of_refs(closure@, ids@, referrer, sp.references@.take(k + 1)));
        }
        assert(sp.references@.take(sp.references@.len() as int) =~= sp.references@);
    }
    pairs
}

/// Every path of the closure has an id.
proof fn lemma_path_has_id(c: Seq<StorePathInfo>, ids: Seq<i64>, n: int)
    requires
        0 <= n < c.len(),
    ensures
        id_of(c, ids, c[n].path@) is Some,
{
    lemma_last_path_index_found(c, c[n].path@, c.len() as int, n);
}

proof fn lemma_last_path_index_found(c: Seq<StorePathInfo>, p: Seq<char>, i: int, n: int)
    requires
        0 <= n < i <= c.len(),
        c[n].path@ == p,
    ensures
        last_path_index(c, p, i) is Some,
    decreases i,
{
    if c[i - 1].path@ != p {
        lemma_last_path_index_found(c, p, i - 1, n);
    }
}

// ---------------------------------------------------------------------------
// Labels read back
// ---------------------------------------------------------------------------
proof fn lemma_no_slash_to_end(s: Seq<char>, i: int)
    requires
        0 <= i <= s.len(),
        forall|k: int| i <= k < s.len() ==> s[k] != '/',
    ensures
        first_index_from(s, '/', i) == s.len(),
    decreases s.len() - i,
{
    if i < s.len() {
        lemma_no_slash_to_end(s, i + 1);
    }
}

proof fn lemma_last_colon(s: Seq<char>, j: int, i: int)
    requires
        0 <= j < i <= s.len(),
        s[j] == ':',
        forall|k: int| j < k < i ==> s[k] != ':',
    ensures
        last_index_before(s, ':', i) == Some(j),
    decreases i,
{
    if i - 1 != j {
        lemma_last_colon(s, j, i - 1);
    }
}

/// Parsing the label of an SSH target gives the target back, where the host
/// holds no `/` and, when no port is given, does not end in `:` and a valid
/// port number.
pub proof fn law_ssh_label_parses_back(t: SshTarget)
    requires
        !t.host@.contains('/'),
        t.port is None ==> match last_index_before(t.host@, ':', t.host@.len() as int) {
            Some(j) => spec_parse_u16(t.host@.skip(j + 1)) is None,
            None => true,
        },
    ensures
        spec_ssh_target(spec_target_label(Target::Ssh(t))) == (t.host@, t.port),
{
    let h = t.host@;
    let label = spec_target_label(Target::Ssh(t));
    let tail: Seq<char> = match t.port {
        Some(p) => seq![':'] + decimal_text(p as nat),
        None => Seq::empty(),
    };
    assert(label =~= ssh_scheme() + (h + tail));
    assert(label.take(6) =~= ssh_scheme());
    let rest = label.skip(6);
    assert(rest =~= h + tail);
    match t.port {
        Some(p) => {
            let d = decimal_text(p as nat);
            lemma_decimal_text_reads_back(p as nat);
            assert forall|k: int| 0 <= k < rest.len() implies rest[k] != '/' by {
                if k < h.len() {
                    assert(rest[k] == h[k]);
                } else if k > h.len() {
                    assert(rest[k] == d[k - h.len() - 1]);
                }
            }
            lemma_no_slash_to_end(rest, 0);
            assert(rest.take(rest.len() as int) =~= rest);
            assert forall|k: int| h.len() < k < rest.len() implies rest[k] != ':' by {
                assert(rest[k] == d[k - h.len() - 1]);
            }
            lemma_last_colon(rest, h.len() as int, rest.len() as int);
            assert(rest.skip(h.len() as int + 1) =~= d);
            assert(rest.take(h.len() as int) =~= h);
            assert(spec_parse_u16(d) == Some(p));
        },
        None => {
            assert forall|k: int| 0 <= k < rest.len() implies rest[k] != '/' by {
                assert(rest[k] == h[k]);
            }
            lemma_no_slash_to_end(rest, 0);
            assert(rest.take(rest.len() as int) =~= rest);
            assert(rest =~= h);
        },
    }
}

/// The top-level size is found exactly where some path of the closure equals
/// the top-level path, and then it is the closure size reported for the first
/// such path, wherever that path stands.
pub proof fn law_toplevel_found_at_first_match(c: Seq<StorePathInfo>, top: Seq<char>)
    ensures
        forall|i: int|
            0 <= i < c.len() && #[trigger] c[i].path@ == top && (forall|j: int|
                0 <= j < i ==> c[j].path@ != top) ==> first_path_index(c, top, 0) == i,
        (forall|i: int| 0 <= i < c.len() ==> c[i].path@ != top) ==> first_path_index(c, top, 0)
            == c.len(),
        (exists|i: int| 0 <= i < c.len() && #[trigger] c[i].path@ == top) ==> first_path_index(
            c,
            top,
            0,
        ) < c.len(),
{
    if exists|i: int| 0 <= i < c.len() && #[trigger] c[i].path@ == top {
        let i = choose|i: int| 0 <= i < c.len() && #[trigger] c[i].path@ == top;
        lemma_first_path_index_at_most(c, top, 0, i);
    }
    assert forall|i: int|
        0 <= i < c.len() && #[trigger] c[i].path@ == top && (forall|j: int|
            0 <= j < i ==> c[j].path@ != top) implies first_path_index(c, top, 0) == i by {
        lemma_first_path_index_from(c, top, 0, i);
    }
    if forall|i: int| 0 <= i < c.len() ==> c[i].path@ != top {
        lemma_first_path_index_from(c, top, 0, c.len() as int);
    }
}

proof fn lemma_first_path_index_at_most(c: Seq<StorePathInfo>, top: Seq<char>, k: int, i: int)
    requires
        0 <= k <= i < c.len(),
        c[i].path@ == top,
    ensures
        first_path_index(c, top, k) <= i,
    decreases i - k,
{
    if k < i {
        lemma_first_path_index_at_most(c, top, k + 1, i);
    }
}

proof fn lemma_first_path_index_from(c: Seq<StorePathInfo>, top: Seq<char>, k: int, i: int)
    requires
        0 <= k <= i <= c.len(),
        forall|j: int| k <= j < i ==> c[j].path@ != top,
        i < c.len() ==> c[i].path@ == top,
    ensures
        first_path_index(c, top, k) == i,
    decreases i - k,
{
    if k < i {
        lemma_first_path_index_from(c, top, k + 1, i);
    }
}

/// The local target is shown as `local system`.
pub proof fn law_local_label()
    ensures
        spec_target_label(Target::Local) == seq!['l', 'o', 'c', 'a', 'l', ' ', 's', 'y', 's', 't', 'e', 'm'],
{
}

/// A path's id is the one given for its last listing in the closure, and a
/// path outside the closure has none.
pub proof fn law_id_of(c: Seq<StorePathInfo>, ids: Seq<i64>, p: Seq<char>)
    ensures
        forall|j: int|
            0 <= j < c.len() && #[trigger] c[j].path@ == p && (forall|l: int|
                j < l < c.len() ==> c[l].path@ != p) ==> id_of(c, ids, p) == Some(ids[j]),
        (forall|j: int| 0 <= j < c.len() ==> c[j].path@ != p) ==> id_of(c, ids, p) is None,
{
    assert forall|j: int|
        0 <= j < c.len() && #[trigger] c[j].path@ == p && (forall|l: int|
            j < l < c.len() ==> c[l].path@ != p) implies id_of(c, ids, p) == Some(ids[j]) by {
        lemma_last_path_index_at(c, p, c.len() as int, j);
    }
    if forall|j: int| 0 <= j < c.len() ==> c[j].path@ != p {
        lemma_last_path_index_none(c, p, c.len() as int);
    }
}

proof fn lemma_last_path_index_at(c: Seq<StorePathInfo>, p: Seq<char>, i: int, j: int)
    requires
        0 <= j < i <= c.len(),
        c[j].path@ == p,
        forall|l: int| j < l < i ==> c[l].path@ != p,
    ensures
        last_path_index(c, p, i) == Some(j),
    decreases i,
{
    if i - 1 != j {
        lemma_last_path_index_at(c, p, i - 1, j);
    }
}

proof fn lemma_last_path_index_none(c: Seq<StorePathInfo>, p: Seq<char>, i: int)
    requires
        0 <= i <= c.len(),
        forall|l: int| 0 <= l < i ==> c[l].path@ != p,
    ensures
        last_path_index(c, p, i) is None,
    decreases i,
{
    if i > 0 {
        lemma_last_path_index_none(c, p, i - 1);
    }
}

proof fn lemma_pairs_of_refs(c: Seq<StorePathInfo>, ids: Seq<i64>, referrer: i64, refs: Seq<String>, x: i64, y: i64)
    ensures
        pairs_of_refs(c, ids, referrer, refs).contains((x, y)) <==> (x == referrer && exists|k: int|
            0 <= k < refs.len() && id_of(c, ids, #[trigger] refs[k]@) == Some(y)),
    decreases refs.len(),
{
    broadcast use vstd::seq_lib::group_seq_properties;

    if refs.len() > 0 {
        let r1 = refs.drop_last();
        lemma_pairs_of_refs(c, ids, referrer, r1, x, y);
        if exists|k: int| 0 <= k < r1.len() && id_of(c, ids, #[trigger] r1[k]@) == Some(y) {
            let k = choose|k: int| 0 <= k < r1.len() && id_of(c, ids, #[trigger] r1[k]@) == Some(y);
            assert(refs[k] == r1[k]);
        }
        if exists|k: int| 0 <= k < refs.len() && id_of(c, ids, #[trigger] refs[k]@) == Some(y) {
            let k = choose|k: int| 0 <= k < refs.len() && id_of(c, ids, #[trigger] refs[k]@) == Some(y);
            if k < r1.len() {
                assert(r1[k] == refs[k]);
            }
        }
    } else {
        assert(pairs_of_refs(c, ids, referrer, refs) =~= Seq::<(i64, i64)>::empty());
    }
}

proof fn lemma_reference_pairs_upto(c: Seq<StorePathInfo>, ids: Seq<i64>, n: int, x: i64, y: i64)
    requires
        0 <= n <= c.len(),
    ensures
        reference_pairs_upto(c, ids, n).contains((x, y)) <==> exists|i: int, k: int|
            0 <= i < n && 0 <= k < c[i].references@.len() && id_of(c, ids, c[i].path@) == Some(x)
                && id_of(c, ids, #[trigger] c[i].references@[k]@) == Some(y),
    decreases n,
{
    broadcast use vstd::seq_lib::group_seq_properties;

    if n > 0 {
        lemma_reference_pairs_upto(c, ids, n - 1, x, y);
        lemma_path_has_id(c, ids, n - 1);
        let referrer = id_of(c, ids, c[n - 1].path@).unwrap();
        lemma_pairs_of_refs(c, ids, referrer, c[n - 1].references@, x, y);
        let prev = reference_pairs_upto(c, ids, n - 1);
        let last = pairs_of_refs(c, ids, referrer, c[n - 1].references@);
        assert(reference_pairs_upto(c, ids, n) == prev + last);
        if exists|i: int, k: int|
            0 <= i < n && 0 <= k < c[i].references@.len() && id_of(c, ids, c[i].path@) == Some(x)
                && id_of(c, ids, #[trigger] c[i].references@[k]@) == Some(y) {
            let (i, k) = choose|i: int, k: int|
                0 <= i < n && 0 <= k < c[i].references@.len() && id_of(c, ids, c[i].path@) == Some(x)
                    && id_of(c, ids, #[trigger] c[i].references@[k]@) == Some(y);
            if i == n - 1 {
                assert(last.contains((x, y)));
            } else {
                assert(prev.contains((x, y)));
            }
        }
    } else {
        assert(reference_pairs_upto(c, ids, n) =~= Seq::<(i64, i64)>::empty());
    }
}

/// The reference pairs are exactly the pairs (id of a path, id of one of its
/// references) over the paths of the closure and their references that lie
/// in the closure.
pub proof fn law_reference_pairs(c: Seq<StorePathInfo>, ids: Seq<i64>, x: i64, y: i64)
    ensures
        reference_pairs_upto(c, ids, c.len() as int).contains((x, y)) <==> exists|i: int, k: int|
            0 <= i < c.len() && 0 <= k < c[i].references@.len() && id_of(c, ids, c[i].path@) == Some(x)
                && id_of(c, ids, #[trigger] c[i].references@[k]@) == Some(y),
{
    lemma_reference_pairs_upto(c, ids, c.len() as int, x, y);
}

/// An SSH target is shown as `ssh://`, the host, and `:<port>` where a port
/// is given.
pub proof fn law_ssh_label_shape(t: SshTarget)
    ensures
        ({
            let l = spec_target_label(Target::Ssh(t));
            let sch = seq!['s', 's', 'h', ':', '/', '/'];
            &&& l.take(6) == sch
            &&& l.subrange(6, 6 + t.host@.len() as int) == t.host@
            &&& t.port is None ==> l.len() == 6 + t.host@.len()
            &&& t.port matches Some(p) ==> l.skip(6 + t.host@.len() as int) == seq![':'] + decimal_text(p as nat)
        }),
{
    let l = spec_target_label(Target::Ssh(t));
    let sch = seq!['s', 's', 'h', ':', '/', '/'];
    assert(ssh_scheme() =~= sch);
    assert(l.take(6) =~= sch);
    assert(l.subrange(6, 6 + t.host@.len() as int) =~= t.host@);
    match t.port {
        Some(p) => {
            assert(l.skip(6 + t.host@.len() as int) =~= seq![':'] + decimal_text(p as nat));
        },
        None => {},
    }
}

} // verus!
