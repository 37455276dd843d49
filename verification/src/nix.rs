//! Targets of the `nix` and `hostname` commands, and the reading of their
//! output.
use vstd::prelude::*;

use crate::text::{chars_of, decimal_string, decimal_text, owned, parse_u16, spec_parse_u16, texts, trim_text, trimmed};

verus! {

broadcast use vstd::string::group_string_axioms;

/// Where commands run: here, or on a host reached over SSH.
pub enum Target {
    Local,
    Ssh(SshTarget),
}

/// A host reached over SSH, with an optional port.
pub struct SshTarget {
    pub host: String,
    pub port: Option<u16>,
}

/// `ssh://`
pub open spec fn ssh_scheme() -> Seq<char> {
    seq!['s', 's', 'h', ':', '/', '/']
}

/// The first index at or after `i` where `s` holds `c`, or the length of `s`.
pub open spec fn first_index_from(s: Seq<char>, c: char, i: int) -> int
    decreases s.len() - i,
{
    if i < 0 || i >= s.len() {
        s.len() as int
    } else if s[i] == c {
        i
    } else {
        first_index_from(s, c, i + 1)
    }
}

/// The last index before `i` where `s` holds `c`.
pub open spec fn last_index_before(s: Seq<char>, c: char, i: int) -> Option<int>
    decreases i,
{
    if i <= 0 || i > s.len() {
        None
    } else if s[i - 1] == c {
        Some(i - 1)
    } else {
        last_index_before(s, c, i - 1)
    }
}

/// The host and port that a target string names. Without the `ssh://`
/// scheme the whole string is the host. With it, the part up to the first
/// `/` names the host, and a port where its last `:` is followed by a valid
/// port number.
pub open spec fn spec_ssh_target(raw: Seq<char>) -> (Seq<char>, Option<u16>) {
    if raw.len() >= 6 && raw.take(6) == ssh_scheme() {
        let rest = raw.skip(6);
        let auth = rest.take(first_index_from(rest, '/', 0));
        match last_index_before(auth, ':', auth.len() as int) {
            Some(j) => match spec_parse_u16(auth.skip(j + 1)) {
                Some(p) => (auth.take(j), Some(p)),
                None => (auth, None),
            },
            None => (auth, None),
        }
    } else {
        (raw, None)
    }
}

fn has_ssh_scheme(cs: &Vec<char>) -> (r: bool)
    ensures
        r == (cs@.len() >= 6 && cs@.take(6) == ssh_scheme()),
{
    if cs.len() >= 6 && cs[0] == 's' && cs[1] == 's' && cs[2] == 'h' && cs[3] == ':' && cs[4] == '/'
        && cs[5] == '/' {
        assert(cs@.take(6) =~= ssh_scheme());
        true
    } else {
        if cs.len() >= 6 {
            let ghost t = cs@.take(6);
            assert(t[0] == cs@[0] && t[1] == cs@[1] && t[2] == cs@[2]);
            assert(t[3] == cs@[3] && t[4] == cs@[4] && t[5] == cs@[5]);
            assert(ssh_scheme()[0] == 's' && ssh_scheme()[1] == 's' && ssh_scheme()[2] == 'h');
            assert(ssh_scheme()[3] == ':' && ssh_scheme()[4] == '/' && ssh_scheme()[5] == '/');
        }
        false
    }
}

/// Parses a target string of the form `host`, `user@host`, or
/// `ssh://[user@]host[:port][/...]`.
#[verifier::loop_isolation(false)]
pub fn parse_ssh_target(raw: &str) -> (t: SshTarget)
    ensures
        (t.host@, t.port) == spec_ssh_target(raw@),
        !(raw@.len() >= 6 && raw@.take(6) == seq!['s', 's', 'h', ':', '/', '/']) ==> t.host@ == raw@
            && t.port is None,
{
    proof {
        if !(raw@.len() >= 6 && raw@.take(6) == seq!['s', 's', 'h', ':', '/', '/']) {
            law_plain_target_is_whole_host(raw@);
        }
    }
    let cs = chars_of(raw);
    if !has_ssh_scheme(&cs) {
        return SshTarget { host: owned(raw), port: None };
    }
    let ghost rest = cs@.skip(6);
    let n = cs.len();
    let mut k: usize = 6;
    while k < n && cs[k] != '/'
        invariant
            6 <= k <= n,
            first_index_from(rest, '/', 0) == first_index_from(rest, '/', k - 6),
        decreases n - k,
    {
        k = k + 1;
    }
    assert(first_index_from(rest, '/', k - 6) == k - 6);
    let ghost auth = rest.take(k - 6);
    assert(auth =~= cs@.subrange(6, k as int));
    let mut j: usize = k;
    while j > 6 && cs[j - 1] != ':'
        invariant
            6 <= j <= k,
            last_index_before(auth, ':', auth.len() as int) == last_index_before(auth, ':', j - 6),
        decreases j,
    {
        j = j - 1;
    }
    if j == 6 {
        return SshTarget { host: owned(raw.substring_char(6, k)), port: None };
    }
    assert(last_index_before(auth, ':', j - 6) == Some(j - 7));
    let port_text = raw.substring_char(j, k);
    assert(port_text@ =~= auth.skip(j - 6));
    match parse_u16(port_text) {
        Some(p) => {
            let host = raw.substring_char(6, j - 1);
            assert(host@ =~= auth.take(j - 7));
            SshTarget { host: owned(host), port: Some(p) }
        },
        None => SshTarget { host: owned(raw.substring_char(6, k)), port: None },
    }
}

/// `ssh`
pub open spec fn ssh_program() -> Seq<char> {
    seq!['s', 's', 'h']
}

/// `-p`
pub open spec fn port_flag() -> Seq<char> {
    seq!['-', 'p']
}

/// The words of the command line that runs `argv` on `target`: `argv` itself
/// here, else `ssh [-p <port>] <host>` followed by `argv`.
pub open spec fn spec_command_argv(target: Target, argv: Seq<Seq<char>>) -> Seq<Seq<char>> {
    match target {
        Target::Local => argv,
        Target::Ssh(t) => {
            let port_words = match t.port {
                Some(p) => seq![port_flag(), decimal_text(p as nat)],
                None => Seq::empty(),
            };
            seq![ssh_program()] + port_words + seq![t.host@] + argv
        },
    }
}

/// The views of a sequence of string slices.
pub open spec fn slice_texts(v: Seq<&str>) -> Seq<Seq<char>> {
    v.map_values(|x: &str| x@)
}

fn literal_ssh() -> (s: String)
    ensures
        s@ == ssh_program(),
{
    let s = "ssh";
    proof {
        reveal_strlit("ssh");
    }
    assert(s@ =~= ssh_program());
    owned(s)
}

fn literal_port_flag() -> (s: String)
    ensures
        s@ == port_flag(),
{
    let s = "-p";
    proof {
        reveal_strlit("-p");
    }
    assert(s@ =~= port_flag());
    owned(s)
}

/// The command line that runs the program and arguments `argv` on `target`.
/// Running here needs a program to run.
pub fn command_argv(target: &Target, argv: &[&str]) -> (words: Vec<String>)
    requires
        target is Ssh || argv@.len() > 0,
    ensures
        texts(words@) == spec_command_argv(*target, slice_texts(argv@)),
        *target is Local ==> texts(words@) == slice_texts(argv@),
        *target is Ssh ==> words@.len() >= argv@.len() && texts(words@).skip(
            words@.len() - argv@.len(),
        ) == slice_texts(argv@),
{
    let mut words: Vec<String> = Vec::new();
    match target {
        Target::Local => {},
        Target::Ssh(t) => {
            words.push(literal_ssh());
            match t.port {
                Some(p) => {
                    words.push(literal_port_flag());
                    words.push(decimal_string(p));
                },
                None => {},
            }
            words.push(owned(t.host.as_str()));
        },
    }
    let ghost head = texts(words@);
    proof {
        match target {
            Target::Local => {
                assert(head =~= Seq::<Seq<char>>::empty());
            },
            Target::Ssh(t) => {
                match t.port {
                    Some(p) => {
                        assert(head =~= seq![ssh_program()] + seq![port_flag(), decimal_text(p as nat)] + seq![t.host@]);
                    },
                    None => {
                        assert(head =~= seq![ssh_program()] + Seq::<Seq<char>>::empty() + seq![t.host@]);
                    },
                }
            },
        }
    }
    for i in 0..argv.len()
        invariant
            texts(words@) == head + slice_texts(argv@).take(i as int),
    {
        let a: &str = argv[i];
        assert(a@ == slice_texts(argv@)[i as int]);
        let ghost before = words@;
        words.push(owned(a));
        assert(texts(words@) =~= texts(before).push(a@));
        assert(texts(words@) =~= head + slice_texts(argv@).take(i + 1));
    }
    assert(slice_texts(argv@).take(argv@.len() as int) =~= slice_texts(argv@));
    proof {
        match target {
            Target::Local => {
                assert(texts(words@) =~= slice_texts(argv@));
            },
            Target::Ssh(t) => {},
        }
        law_command_line_keeps_argv(*target, slice_texts(argv@));
    }
    words
}

/// Why the output of a command could not be used.
pub enum NixError {
    /// `nix path-info <link>` printed nothing.
    EmptyToplevel { link: String },
    /// `hostname` printed nothing.
    EmptyHostname,
}

/// The store path of a system link, from the output of `nix path-info <link>`:
/// the output without surrounding white space, which must not be empty.
pub fn resolve_toplevel(link: &str, output: &str) -> (r: Result<String, NixError>)
    ensures
        trimmed(output@).len() == 0 ==> (r matches Err(NixError::EmptyToplevel { link: l }) && l@
            == link@),
        trimmed(output@).len() > 0 ==> (r matches Ok(p) && p@ == trimmed(output@)),
{
    let path = trim_text(output);
    if path.is_empty() {
        return Err(NixError::EmptyToplevel { link: owned(link) });
    }
    Ok(owned(path))
}

/// The short host name of a system, from the output of `hostname -s`: the
/// output without surrounding white space, which must not be empty.
pub fn fetch_hostname(output: &str) -> (r: Result<String, NixError>)
    ensures
        trimmed(output@).len() == 0 ==> r matches Err(NixError::EmptyHostname),
        trimmed(output@).len() > 0 ==> (r matches Ok(h) && h@ == trimmed(output@)),
{
    let h = trim_text(output);
    if h.is_empty() {
        return Err(NixError::EmptyHostname);
    }
    Ok(owned(h))
}

/// What `nix path-info --json` reports of a store path.
#[derive(Debug)]
pub struct StorePathInfo {
    pub path: String,
    pub closure_size: i64,
    pub nar_size: i64,
    pub nar_hash: String,
    pub valid: bool,
    pub deriver: Option<String>,
    pub references: Vec<String>,
}

/// The value of `valid` where the report leaves it out: the object schema
/// lists valid paths only.
pub fn default_true() -> (r: bool)
    ensures
        r,
{
    true
}

/// The two shapes of `nix path-info --json` output: before Nix 2.19 (and in
/// Lix) an array of reports that carry their path; from 2.19 an object from
/// store path to report, with `null` for an invalid path.
pub enum PathInfoJson {
    Legacy(Vec<StorePathInfo>),
    Modern(Vec<(String, Option<StorePathInfo>)>),
}

/// The reports of the object schema, in order, each with its path set to its
/// key; invalid paths are left out.
pub open spec fn modern_closure(entries: Seq<(String, Option<StorePathInfo>)>) -> Seq<StorePathInfo>
    decreases entries.len(),
{
    if entries.len() == 0 {
        Seq::empty()
    } else {
        let prev = modern_closure(entries.drop_last());
        match entries.last().1 {
            Some(info) => prev.push(StorePathInfo { path: entries.last().0, ..info }),
            None => prev,
        }
    }
}

/// The store paths of a closure, from the parsed `nix path-info --json`
/// output of either shape.
pub fn fetch_closure(parsed: PathInfoJson) -> (closure: Vec<StorePathInfo>)
    ensures
        parsed matches PathInfoJson::Legacy(v) ==> closure@ == v@,
        parsed matches PathInfoJson::Modern(m) ==> closure@ == modern_closure(m@),
        parsed matches PathInfoJson::Modern(m) ==> ({
            let kept = m@.filter(|e: (String, Option<StorePathInfo>)| entry_has_report(e));
            &&& closure@.len() == kept.len()
            &&& forall|k: int|
                0 <= k < closure@.len() ==> {
                    let info = kept[k].1->Some_0;
                    &&& #[trigger] closure@[k].path == kept[k].0
                    &&& closure@[k].closure_size == info.closure_size
                    &&& closure@[k].nar_size == info.nar_size
                    &&& closure@[k].nar_hash == info.nar_hash
                    &&& closure@[k].valid == info.valid
                    &&& closure@[k].deriver == info.deriver
                    &&& closure@[k].references == info.references
                }
        }),
{
    match parsed {
        PathInfoJson::Legacy(v) => v,
        PathInfoJson::Modern(m) => {
            let ghost entries = m@;
            let mut out: Vec<StorePathInfo> = Vec::new();
            for e in it: m.into_iter()
                invariant
                    it.seq() == entries,
                    out@ == modern_closure(entries.take(it.index() as int)),
            {
                let ghost idx = it.index() as int;
                assert(entries.take(idx + 1).drop_last() =~= entries.take(idx));
                let (path, info) = e;
                match info {
                    Some(mut info) => {
                        info.path = path;
                        out.push(info);
                    },
                    None => {},
                }
            }
            assert(entries.take(entries.len() as int) =~= entries);
            proof {
                law_modern_reports_keep_their_fields(entries);
            }
            out
        },
    }
}

// ---------------------------------------------------------------------------
// Laws of targets, command lines and reports
// ---------------------------------------------------------------------------
/// A target string without the `ssh://` scheme is a host name, taken whole,
/// without a port.
pub proof fn law_plain_target_is_whole_host(raw: Seq<char>)
    requires
        !(raw.len() >= 6 && raw.take(6) == seq!['s', 's', 'h', ':', '/', '/']),
    ensures
        spec_ssh_target(raw) == (raw, Option::<u16>::None),
{
    assert(ssh_scheme() =~= seq!['s', 's', 'h', ':', '/', '/']);
}

proof fn lemma_first_index(s: Seq<char>, c: char, i: int, j: int)
    requires
        0 <= i <= j <= s.len(),
        forall|k: int| i <= k < j ==> s[k] != c,
        j < s.len() ==> s[j] == c,
    ensures
        first_index_from(s, c, i) == j,
    decreases j - i,
{
    if i < j {
        lemma_first_index(s, c, i + 1, j);
    }
}

/// After `ssh://`, what follows the first `/` does not matter: the target is
/// read from the part before it.
pub proof fn law_ssh_target_ignores_path(a: Seq<char>, rest: Seq<char>)
    requires
        forall|i: int| 0 <= i < a.len() ==> #[trigger] a[i] != '/',
    ensures
        spec_ssh_target(seq!['s', 's', 'h', ':', '/', '/'] + a + seq!['/'] + rest) == spec_ssh_target(
            seq!['s', 's', 'h', ':', '/', '/'] + a,
        ),
{
    let sch = seq!['s', 's', 'h', ':', '/', '/'];
    let x = sch + a + seq!['/'] + rest;
    let y = sch + a;
    assert(x.take(6) =~= sch);
    assert(y.take(6) =~= sch);
    assert(sch =~= ssh_scheme());
    let xr = x.skip(6);
    let yr = y.skip(6);
    assert(xr =~= a + seq!['/'] + rest);
    assert(yr =~= a);
    lemma_first_index(xr, '/', 0, a.len() as int);
    lemma_first_index(yr, '/', 0, a.len() as int);
    assert(xr.take(a.len() as int) =~= a);
    assert(yr.take(a.len() as int) =~= a);
}

/// Run here, a command line is the program and arguments as given.
/// Over SSH, it starts with `ssh`, then `-p <port>` where a port is given,
/// then the host, and ends with every word of `argv` in order.
pub proof fn law_command_line_keeps_argv(target: Target, argv: Seq<Seq<char>>)
    ensures
        target is Local ==> spec_command_argv(target, argv) == argv,
        target matches Target::Ssh(t) ==> {
            let w = spec_command_argv(target, argv);
            let lead: int = if t.port is Some { 4 } else { 2 };
            &&& w.len() == lead + argv.len()
            &&& w[0] == seq!['s', 's', 'h']
            &&& w[lead - 1] == t.host@
            &&& w.skip(lead) == argv
            &&& (t.port matches Some(p) ==> w[1] == seq!['-', 'p'] && w[2] == decimal_text(p as nat))
        },
{
    match target {
        Target::Local => {},
        Target::Ssh(t) => {
            let w = spec_command_argv(target, argv);
            let lead: int = if t.port is Some { 4 } else { 2 };
            assert(ssh_program() =~= seq!['s', 's', 'h']);
            assert(port_flag() =~= seq!['-', 'p']);
            assert(w.skip(lead) =~= argv);
        },
    }
}

/// Whether an entry of the object schema holds a report.
pub open spec fn entry_has_report(e: (String, Option<StorePathInfo>)) -> bool {
    e.1 is Some
}

/// The closure read from the object schema has one report for each entry that
/// holds one, in order, equal to that report in every field but the path,
/// which is the entry's key.
pub proof fn law_modern_reports_keep_their_fields(entries: Seq<(String, Option<StorePathInfo>)>)
    ensures
        ({
            let out = modern_closure(entries);
            let kept = entries.filter(|e: (String, Option<StorePathInfo>)| entry_has_report(e));
            &&& out.len() == kept.len()
            &&& forall|k: int|
                0 <= k < out.len() ==> {
                    let info = kept[k].1->Some_0;
                    &&& #[trigger] out[k].path == kept[k].0
                    &&& out[k].closure_size == info.closure_size
                    &&& out[k].nar_size == info.nar_size
                    &&& out[k].nar_hash == info.nar_hash
                    &&& out[k].valid == info.valid
                    &&& out[k].deriver == info.deriver
                    &&& out[k].references == info.references
                }
        }),
    decreases entries.len(),
{
    reveal(Seq::filter);
    let pred = |e: (String, Option<StorePathInfo>)| entry_has_report(e);
    if entries.len() > 0 {
        law_modern_reports_keep_their_fields(entries.drop_last());
        let prev = modern_closure(entries.drop_last());
        let kept0 = entries.drop_last().filter(pred);
        let out = modern_closure(entries);
        let kept = entries.filter(pred);
        if entries.last().1 is Some {
            assert(kept == kept0.push(entries.last()));
            assert forall|k: int| 0 <= k < out.len() implies {
                let info = kept[k].1->Some_0;
                &&& #[trigger] out[k].path == kept[k].0
                &&& out[k].closure_size == info.closure_size
                &&& out[k].nar_size == info.nar_size
                &&& out[k].nar_hash == info.nar_hash
                &&& out[k].valid == info.valid
                &&& out[k].deriver == info.deriver
                &&& out[k].references == info.references
            } by {
                if k < prev.len() {
                    assert(out[k] == prev[k]);
                    assert(kept[k] == kept0[k]);
                }
            }
        } else {
            assert(kept == kept0);
        }
    }
}

} // verus!
