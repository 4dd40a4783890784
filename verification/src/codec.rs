//! Text codec for the configuration document, and the loader built on it.
//!
//! The wire format is a line-based subset of a TOML-style notation.  A
//! document is one `plot_servers = ["...", ...]` line followed, for each
//! storage entry, by a blank line, a `[[disk_farms]]` header line, a
//! `directory = "..."` line and, when the entry has a capacity budget, an
//! `allocated_plotting_space = "..."` line:
//!
//! ```text
//! plot_servers = ["localhost:12345"]
//!
//! [[disk_farms]]
//! directory = "/tmp/plot"
//! allocated_plotting_space = "1500G"
//! ```
//!
//! Quoted strings carry no escapes: a string containing a double quote,
//! newline or carriage return cannot be represented, and `serialize` refuses
//! such a configuration.

use crate::config::{
    contains_dup, farm_views, has_dup, string_views, Config, ConfigError, ConfigView,
    DiskFarmInner, FarmView,
};
use vstd::prelude::*;

verus! {

/// Characters that may stand inside a quoted string of the document.
pub open spec fn is_plain_char(c: char) -> bool {
    c != '"' && c != '\n' && c != '\r'
}

/// Every character of `s` may stand inside a quoted string.
pub open spec fn plain_str(s: Seq<char>) -> bool {
    forall|i: int| 0 <= i < s.len() ==> is_plain_char(s[i])
}

/// Every string of the configuration is representable in the document.
pub open spec fn wf_config(c: ConfigView) -> bool {
    &&& forall|i: int| 0 <= i < c.plot_servers.len() ==> plain_str(#[trigger] c.plot_servers[i])
    &&& forall|i: int|
        0 <= i < c.disk_farms.len() ==> plain_str(#[trigger] c.disk_farms[i].directory)
    &&& forall|i: int|
        0 <= i < c.disk_farms.len() ==> match #[trigger] c.disk_farms[i].allocated_plotting_space {
            Some(a) => plain_str(a),
            None => true,
        }
}

pub open spec fn lit_servers_open() -> Seq<char> {
    "plot_servers = ["@
}

pub open spec fn lit_close() -> Seq<char> {
    "]"@
}

pub open spec fn lit_comma() -> Seq<char> {
    ", "@
}

pub open spec fn lit_nl() -> Seq<char> {
    "\n"@
}

pub open spec fn lit_farm_header() -> Seq<char> {
    "\n[[disk_farms]]\ndirectory = "@
}

pub open spec fn lit_alloc_prefix() -> Seq<char> {
    "allocated_plotting_space = "@
}

/// `s` surrounded by double quotes.
pub open spec fn quote(s: Seq<char>) -> Seq<char> {
    seq!['"'] + s + seq!['"']
}

/// The comma-separated quoted items of the server list (no brackets).
pub open spec fn servers_items_text(ss: Seq<Seq<char>>) -> Seq<char>
    decreases ss.len(),
{
    if ss.len() == 0 {
        Seq::empty()
    } else if ss.len() == 1 {
        quote(ss[0])
    } else {
        quote(ss[0]) + lit_comma() + servers_items_text(ss.drop_first())
    }
}

/// The text of one storage entry: blank line, header line, directory line and
/// the optional capacity line.
pub open spec fn farm_text(f: FarmView) -> Seq<char> {
    lit_farm_header() + quote(f.directory) + lit_nl() + match f.allocated_plotting_space {
        None => Seq::<char>::empty(),
        Some(a) => lit_alloc_prefix() + quote(a) + lit_nl(),
    }
}

/// The text of all storage entries, in order.
pub open spec fn farms_text(fs: Seq<FarmView>) -> Seq<char>
    decreases fs.len(),
{
    if fs.len() == 0 {
        Seq::empty()
    } else {
        farm_text(fs[0]) + farms_text(fs.drop_first())
    }
}

/// The canonical document text of a configuration.
pub open spec fn serialize_spec(c: ConfigView) -> Seq<char> {
    lit_servers_open() + servers_items_text(c.plot_servers) + lit_close() + lit_nl() + farms_text(
        c.disk_farms,
    )
}

/// Whether `p` is a prefix of `s`.
pub open spec fn starts_with(s: Seq<char>, p: Seq<char>) -> bool {
    p.len() <= s.len() && s.subrange(0, p.len() as int) == p
}

/// Consume the literal `lit` from the front of `s`.
pub open spec fn expect_lit(s: Seq<char>, lit: Seq<char>) -> Option<Seq<char>> {
    if starts_with(s, lit) {
        Some(s.skip(lit.len() as int))
    } else {
        None
    }
}

/// Index of the first character at or after `i` that may not stand inside a
/// quoted string (or `s.len()` if all of them may).
pub open spec fn plain_end(s: Seq<char>, i: int) -> int
    decreases s.len() - i,
{
    if i < s.len() && is_plain_char(s[i]) {
        plain_end(s, i + 1)
    } else {
        i
    }
}

/// Consume a quoted string from the front of `s`: an opening quote, plain
/// characters, and the next quote, which must close it on the same line.
pub open spec fn parse_qstring(s: Seq<char>) -> Option<(Seq<char>, Seq<char>)> {
    if s.len() >= 1 && s[0] == '"' {
        let e = plain_end(s, 1);
        if e < s.len() && s[e] == '"' {
            Some((s.subrange(1, e), s.skip(e + 1)))
        } else {
            None
        }
    } else {
        None
    }
}

/// Consume one or more comma-separated quoted items and the closing bracket.
pub open spec fn parse_server_items(s: Seq<char>) -> Option<(Seq<Seq<char>>, Seq<char>)>
    decreases s.len(),
{
    match parse_qstring(s) {
        None => None,
        Some((v, r1)) => if r1.len() >= 1 && r1[0] == ']' {
            Some((seq![v], r1.drop_first()))
        } else if r1.len() >= 2 && r1[0] == ',' && r1[1] == ' ' {
            if r1.skip(2).len() < s.len() {
                match parse_server_items(r1.skip(2)) {
                    None => None,
                    Some((vs, r2)) => Some((seq![v] + vs, r2)),
                }
            } else {
                None
            }
        } else {
            None
        },
    }
}

/// Consume the server list after its opening bracket: either an immediately
/// closing bracket or the comma-separated items.
pub open spec fn parse_servers(s: Seq<char>) -> Option<(Seq<Seq<char>>, Seq<char>)> {
    if s.len() >= 1 && s[0] == ']' {
        Some((Seq::empty(), s.drop_first()))
    } else {
        parse_server_items(s)
    }
}

/// Consume one storage entry: blank line, header line, directory line, and
/// the capacity line exactly when one follows.
pub open spec fn parse_farm_block(s: Seq<char>) -> Option<(FarmView, Seq<char>)> {
    match expect_lit(s, lit_farm_header()) {
        None => None,
        Some(r1) => match parse_qstring(r1) {
            None => None,
            Some((dir, r2)) => match expect_lit(r2, lit_nl()) {
                None => None,
                Some(r3) => if starts_with(r3, lit_alloc_prefix()) {
                    match parse_qstring(r3.skip(lit_alloc_prefix().len() as int)) {
                        None => None,
                        Some((a, r4)) => match expect_lit(r4, lit_nl()) {
                            None => None,
                            Some(r5) => Some(
                                (
                                    FarmView {
                                        directory: dir,
                                        allocated_plotting_space: Some(a),
                                    },
                                    r5,
                                ),
                            ),
                        },
                    }
                } else {
                    Some((FarmView { directory: dir, allocated_plotting_space: None }, r3))
                },
            },
        },
    }
}

/// Consume storage entries until the end of the document.
pub open spec fn parse_farms(s: Seq<char>) -> Option<Seq<FarmView>>
    decreases s.len(),
{
    if s.len() == 0 {
        Some(Seq::empty())
    } else {
        match parse_farm_block(s) {
            None => None,
            Some((f, r)) => if r.len() < s.len() {
                match parse_farms(r) {
                    None => None,
                    Some(fs) => Some(seq![f] + fs),
                }
            } else {
                None
            },
        }
    }
}

/// The configuration denoted by a document, or `None` if the text does not
/// match the grammar.
pub open spec fn parse_doc(s: Seq<char>) -> Option<ConfigView> {
    match expect_lit(s, lit_servers_open()) {
        None => None,
        Some(r1) => match parse_servers(r1) {
            None => None,
            Some((servers, r2)) => match expect_lit(r2, lit_nl()) {
                None => None,
                Some(r3) => match parse_farms(r3) {
                    None => None,
                    Some(farms) => Some(ConfigView { disk_farms: farms, plot_servers: servers }),
                },
            },
        },
    }
}

/// True when every character of `s` may stand inside a quoted string.
fn is_plain(s: &String) -> (b: bool)
    ensures
        b == plain_str(s@),
{
    let n = s.as_str().unicode_len();
    let mut i: usize = 0;
    while i < n
        invariant
            n == s@.len(),
            i <= n,
            forall|j: int| 0 <= j < i ==> is_plain_char(s@[j]),
        decreases n - i,
    {
        let c = s.as_str().get_char(i);
        if c == '"' || c == '\n' || c == '\r' {
            return false;
        }
        i = i + 1;
    }
    true
}

/// True when every string of the configuration is representable.
fn config_is_plain(c: &Config) -> (b: bool)
    ensures
        b == wf_config(c@),
{
    let mut i: usize = 0;
    while i < c.plot_servers.len()
        invariant
            i <= c.plot_servers.len(),
            forall|j: int| 0 <= j < i ==> plain_str(#[trigger] c@.plot_servers[j]),
        decreases c.plot_servers.len() - i,
    {
        if !is_plain(&c.plot_servers[i]) {
            assert(!plain_str(c@.plot_servers[i as int]));
            return false;
        }
        i = i + 1;
    }
    let mut i: usize = 0;
    while i < c.disk_farms.len()
        invariant
            i <= c.disk_farms.len(),
            forall|j: int| 0 <= j < c@.plot_servers.len() ==> plain_str(#[trigger] c@.plot_servers[j]),
            forall|j: int| 0 <= j < i ==> plain_str(#[trigger] c@.disk_farms[j].directory),
            forall|j: int|
                0 <= j < i ==> match #[trigger] c@.disk_farms[j].allocated_plotting_space {
                    Some(a) => plain_str(a),
                    None => true,
                },
        decreases c.disk_farms.len() - i,
    {
        let farm = &c.disk_farms[i];
        assert(c@.disk_farms[i as int] == farm@);
        if !is_plain(&farm.directory) {
            assert(!plain_str(c@.disk_farms[i as int].directory));
            return false;
        }
        match &farm.allocated_plotting_space {
            None => {},
            Some(a) => {
                if !is_plain(a) {
                    assert(c@.disk_farms[i as int].allocated_plotting_space == Some(a@));
                    assert(!(match c@.disk_farms[i as int].allocated_plotting_space {
                        Some(x) => plain_str(x),
                        None => true,
                    }));
                    return false;
                }
            },
        }
        i = i + 1;
    }
    true
}

/// Append `s` surrounded by double quotes.
fn append_quoted(out: &mut String, s: &String)
    ensures
        final(out)@ == old(out)@ + quote(s@),
{
    out.append("\"");
    out.append(s.as_str());
    out.append("\"");
    proof {
        reveal_strlit("\"");
        assert(out@ =~= old(out)@ + quote(s@));
    }
}

/// Append the comma-separated quoted server items starting at `i`.
fn append_server_items(out: &mut String, servers: &Vec<String>, i: usize)
    requires
        i < servers.len(),
    ensures
        final(out)@ == old(out)@ + servers_items_text(string_views(servers@).skip(i as int)),
    decreases servers.len() - i,
{
    let ghost sv = string_views(servers@);
    append_quoted(out, &servers[i]);
    proof {
        assert(sv.skip(i as int)[0] == sv[i as int]);
        assert(sv[i as int] == servers@[i as int]@);
    }
    if i + 1 < servers.len() {
        out.append(", ");
        append_server_items(out, servers, i + 1);
        proof {
            assert(sv.skip(i as int).drop_first() =~= sv.skip(i as int + 1));
            assert(out@ =~= old(out)@ + servers_items_text(sv.skip(i as int)));
        }
    } else {
        proof {
            assert(sv.skip(i as int).len() == 1);
            assert(out@ =~= old(out)@ + servers_items_text(sv.skip(i as int)));
        }
    }
}

/// Append the text of one storage entry.
fn append_farm(out: &mut String, farm: &DiskFarmInner)
    ensures
        final(out)@ == old(out)@ + farm_text(farm@),
{
    out.append("\n[[disk_farms]]\ndirectory = ");
    append_quoted(out, &farm.directory);
    out.append("\n");
    match &farm.allocated_plotting_space {
        None => {
            proof {
                assert(out@ =~= old(out)@ + farm_text(farm@));
            }
        },
        Some(a) => {
            out.append("allocated_plotting_space = ");
            append_quoted(out, a);
            out.append("\n");
            proof {
                assert(out@ =~= old(out)@ + farm_text(farm@));
            }
        },
    }
}

/// Append the text of the storage entries starting at `i`.
fn append_farms(out: &mut String, farms: &Vec<DiskFarmInner>, i: usize)
    requires
        i <= farms.len(),
    ensures
        final(out)@ == old(out)@ + farms_text(farm_views(farms@).skip(i as int)),
    decreases farms.len() - i,
{
    let ghost fs = farm_views(farms@);
    if i == farms.len() {
        proof {
            assert(fs.skip(i as int) =~= Seq::<FarmView>::empty());
            assert(out@ =~= old(out)@ + farms_text(fs.skip(i as int)));
        }
        return ;
    }
    append_farm(out, &farms[i]);
    append_farms(out, farms, i + 1);
    proof {
        assert(fs.skip(i as int)[0] == fs[i as int] && fs[i as int] == farms@[i as int]@);
        assert(fs.skip(i as int).drop_first() =~= fs.skip(i as int + 1));
        assert(out@ =~= old(out)@ + farms_text(fs.skip(i as int)));
    }
}

/// Serialize a configuration to its canonical document text, or `None` when
/// some string of it contains a double quote, newline or carriage return and
/// so cannot be represented.
pub fn serialize(c: &Config) -> (r: Option<String>)
    ensures
        match r {
            Some(s) => wf_config(c@) && s@ == serialize_spec(c@),
            None => !wf_config(c@),
        },
{
    if !config_is_plain(c) {
        return None;
    }
    let mut out = String::new();
    out.append("plot_servers = [");
    if c.plot_servers.len() > 0 {
        append_server_items(&mut out, &c.plot_servers, 0);
        proof {
            assert(string_views(c.plot_servers@).skip(0) =~= c@.plot_servers);
        }
    } else {
        proof {
            assert(servers_items_text(c@.plot_servers) =~= Seq::<char>::empty());
        }
    }
    out.append("]");
    out.append("\n");
    append_farms(&mut out, &c.disk_farms, 0);
    proof {
        assert(farm_views(c.disk_farms@).skip(0) =~= c@.disk_farms);
        assert(out@ =~= serialize_spec(c@));
    }
    Some(out)
}

proof fn lemma_plain_end_char(s: Seq<char>, i: int, e: int)
    requires
        0 <= i <= e <= s.len(),
        forall|j: int| i <= j < e ==> is_plain_char(s[j]),
        e == s.len() || !is_plain_char(s[e]),
    ensures
        plain_end(s, i) == e,
    decreases e - i,
{
    if i < e {
        lemma_plain_end_char(s, i + 1, e);
    }
}

/// Whether the text starting at `i` begins with `pat`.
fn starts_with_at(s: &str, i: usize, pat: &str, n: usize) -> (b: bool)
    requires
        n == s@.len(),
        i <= n,
    ensures
        b == starts_with(s@.skip(i as int), pat@),
{
    let ghost t = s@.skip(i as int);
    let m = pat.unicode_len();
    if n - i < m {
        return false;
    }
    let mut k: usize = 0;
    while k < m
        invariant
            m == pat@.len(),
            n == s@.len(),
            t == s@.skip(i as int),
            i + m <= n,
            k <= m,
            forall|j: int| 0 <= j < k ==> s@[i + j] == pat@[j],
        decreases m - k,
    {
        if s.get_char(i + k) != pat.get_char(k) {
            proof {
                assert(t[k as int] == s@[i + k]);
                assert(!starts_with(t, pat@)) by {
                    if starts_with(t, pat@) {
                        assert(t.subrange(0, m as int)[k as int] == t[k as int]);
                    }
                }
            }
            return false;
        }
        k = k + 1;
    }
    proof {
        assert(t.subrange(0, m as int) =~= pat@);
    }
    true
}

/// Index of the first character at or after `from` that may not stand inside
/// a quoted string.
fn scan_plain(s: &str, from: usize, n: usize) -> (e: usize)
    requires
        n == s@.len(),
        from <= n,
    ensures
        from <= e <= n,
        forall|j: int| from <= j < e ==> is_plain_char(s@[j]),
        e == n || !is_plain_char(s@[e as int]),
{
    let mut e: usize = from;
    loop
        invariant
            n == s@.len(),
            from <= e <= n,
            forall|j: int| from <= j < e ==> is_plain_char(s@[j]),
        ensures
            from <= e <= n,
            forall|j: int| from <= j < e ==> is_plain_char(s@[j]),
            e == n || !is_plain_char(s@[e as int]),
        decreases n - e,
    {
        if e >= n {
            break;
        }
        let c = s.get_char(e);
        if c == '"' || c == '\n' || c == '\r' {
            break;
        }
        e = e + 1;
    }
    e
}

/// Parse the quoted string that starts at `i`, as `parse_qstring` gives it on
/// the text from `i` on; on success the returned index stands after the
/// closing quote.
fn parse_qstring_at(s: &str, i: usize, n: usize) -> (r: Option<(String, usize)>)
    requires
        n == s@.len(),
        i <= n,
    ensures
        match r {
            Some((v, j)) => i < j <= n && parse_qstring(s@.skip(i as int)) == Some(
                (v@, s@.skip(j as int)),
            ),
            None => parse_qstring(s@.skip(i as int)) is None,
        },
{
    let ghost t = s@.skip(i as int);
    if i >= n {
        return None;
    }
    assert(t[0] == s@[i as int]);
    let c0 = s.get_char(i);
    if c0 != '"' {
        return None;
    }
    let e = scan_plain(s, i + 1, n);
    proof {
        assert(forall|j: int| 1 <= j < e - i ==> t[j] == s@[i + j]);
        if e < n {
            assert(t[e - i] == s@[e as int]);
        }
        lemma_plain_end_char(t, 1, e - i);
    }
    if e >= n {
        return None;
    }
    let ce = s.get_char(e);
    if ce != '"' {
        return None;
    }
    let v = s.substring_char(i + 1, e).to_owned();
    proof {
        assert(v@ =~= t.subrange(1, e - i));
        assert(s@.skip(e as int + 1) =~= t.skip(e - i + 1));
    }
    Some((v, e + 1))
}

/// Parse the comma-separated quoted items and closing bracket starting at
/// `i`, as `parse_server_items` gives them.
fn parse_server_items_at(s: &str, i: usize, n: usize) -> (r: Option<(Vec<String>, usize)>)
    requires
        n == s@.len(),
        i <= n,
    ensures
        match r {
            Some((vs, j)) => i < j <= n && parse_server_items(s@.skip(i as int)) == Some(
                (string_views(vs@), s@.skip(j as int)),
            ),
            None => parse_server_items(s@.skip(i as int)) is None,
        },
    decreases n - i,
{
    let ghost t = s@.skip(i as int);
    let (v, j1) = match parse_qstring_at(s, i, n) {
        None => {
            return None;
        },
        Some(p) => p,
    };
    let ghost r1 = s@.skip(j1 as int);
    if j1 < n && s.get_char(j1) == ']' {
        assert(r1[0] == s@[j1 as int]);
        let mut vs: Vec<String> = Vec::new();
        vs.push(v);
        proof {
            assert(r1.drop_first() =~= s@.skip(j1 as int + 1));
            assert(string_views(vs@) =~= seq![v@]);
        }
        return Some((vs, j1 + 1));
    }
    if n - j1 >= 2 {
        let c0 = s.get_char(j1);
        let c1 = s.get_char(j1 + 1);
        assert(r1[0] == s@[j1 as int] && r1[1] == s@[j1 as int + 1]);
        if c0 == ',' && c1 == ' ' {
            proof {
                assert(r1.skip(2) =~= s@.skip(j1 as int + 2));
            }
            let (mut rest, j2) = match parse_server_items_at(s, j1 + 2, n) {
                None => {
                    return None;
                },
                Some(p) => p,
            };
            let mut vs: Vec<String> = Vec::new();
            vs.push(v);
            let ghost rest0 = rest@;
            vs.append(&mut rest);
            proof {
                assert(string_views(vs@) =~= seq![v@] + string_views(rest0));
            }
            return Some((vs, j2));
        }
        return None;
    }
    proof {
        assert(j1 <= n);
        if j1 < n {
            assert(r1[0] == s@[j1 as int]);
        }
    }
    None
}

/// Parse the storage entry whose text starts at `i`, as `parse_farm_block`
/// gives it.
fn parse_farm_block_at(s: &str, i: usize, n: usize) -> (r: Option<(DiskFarmInner, usize)>)
    requires
        n == s@.len(),
        i <= n,
    ensures
        match r {
            Some((f, j)) => i < j <= n && parse_farm_block(s@.skip(i as int)) == Some(
                (f@, s@.skip(j as int)),
            ),
            None => parse_farm_block(s@.skip(i as int)) is None,
        },
{
    let ghost t = s@.skip(i as int);
    let header = "\n[[disk_farms]]\ndirectory = ";
    if !starts_with_at(s, i, header, n) {
        return None;
    }
    let j1 = i + header.unicode_len();
    proof {
        assert(t.skip(lit_farm_header().len() as int) =~= s@.skip(j1 as int));
    }
    let (dir, j2) = match parse_qstring_at(s, j1, n) {
        None => {
            return None;
        },
        Some(p) => p,
    };
    if !starts_with_at(s, j2, "\n", n) {
        return None;
    }
    let j3 = j2 + "\n".unicode_len();
    let ghost r3 = s@.skip(j3 as int);
    proof {
        assert(s@.skip(j2 as int).skip(lit_nl().len() as int) =~= r3);
    }
    let alloc_prefix = "allocated_plotting_space = ";
    if starts_with_at(s, j3, alloc_prefix, n) {
        let j4 = j3 + alloc_prefix.unicode_len();
        proof {
            assert(r3.skip(lit_alloc_prefix().len() as int) =~= s@.skip(j4 as int));
        }
        let (a, j5) = match parse_qstring_at(s, j4, n) {
            None => {
                return None;
            },
            Some(p) => p,
        };
        if !starts_with_at(s, j5, "\n", n) {
            return None;
        }
        let j6 = j5 + "\n".unicode_len();
        proof {
            assert(s@.skip(j5 as int).skip(lit_nl().len() as int) =~= s@.skip(j6 as int));
        }
        let f = DiskFarmInner { directory: dir, allocated_plotting_space: Some(a) };
        proof {
            assert(parse_farm_block(t) == Some((f@, s@.skip(j6 as int))));
        }
        return Some((f, j6));
    }
    let f = DiskFarmInner { directory: dir, allocated_plotting_space: None };
    proof {
        assert(parse_farm_block(t) == Some((f@, r3)));
    }
    Some((f, j3))
}

/// Parse storage entries from `i` to the end of the document, as
/// `parse_farms` gives them.
fn parse_farms_at(s: &str, i: usize, n: usize) -> (r: Option<Vec<DiskFarmInner>>)
    requires
        n == s@.len(),
        i <= n,
    ensures
        match r {
            Some(vs) => parse_farms(s@.skip(i as int)) == Some(farm_views(vs@)),
            None => parse_farms(s@.skip(i as int)) is None,
        },
    decreases n - i,
{
    let ghost t = s@.skip(i as int);
    if i == n {
        let vs: Vec<DiskFarmInner> = Vec::new();
        proof {
            assert(t.len() == 0);
            assert(farm_views(vs@) =~= Seq::<FarmView>::empty());
        }
        return Some(vs);
    }
    let (f, j) = match parse_farm_block_at(s, i, n) {
        None => {
            return None;
        },
        Some(p) => p,
    };
    let (mut rest) = match parse_farms_at(s, j, n) {
        None => {
            return None;
        },
        Some(p) => p,
    };
    let mut vs: Vec<DiskFarmInner> = Vec::new();
    vs.push(f);
    let ghost rest0 = rest@;
    vs.append(&mut rest);
    proof {
        assert(farm_views(vs@) =~= seq![f@] + farm_views(rest0));
    }
    Some(vs)
}

/// Deserialize a document into a configuration, with no validation beyond
/// the grammar itself.
pub fn deserialize(s: &str) -> (r: Result<Config, ConfigError>)
    ensures
        match r {
            Ok(c) => parse_doc(s@) == Some(c@),
            Err(e) => parse_doc(s@) is None && e == ConfigError::Syntax,
        },
{
    let n = s.unicode_len();
    proof {
        assert(s@.skip(0) =~= s@);
    }
    let open_lit = "plot_servers = [";
    if !starts_with_at(s, 0, open_lit, n) {
        return Err(ConfigError::Syntax);
    }
    let i1 = open_lit.unicode_len();
    let ghost t1 = s@.skip(i1 as int);
    proof {
        assert(s@.skip(0).skip(lit_servers_open().len() as int) =~= t1);
    }
    let (servers, j2): (Vec<String>, usize) = if i1 < n && s.get_char(i1) == ']' {
        assert(t1[0] == s@[i1 as int]);
        let vs: Vec<String> = Vec::new();
        proof {
            assert(t1.drop_first() =~= s@.skip(i1 as int + 1));
            assert(string_views(vs@) =~= Seq::<Seq<char>>::empty());
        }
        (vs, i1 + 1)
    } else {
        proof {
            if i1 < n {
                assert(t1[0] == s@[i1 as int]);
            }
        }
        match parse_server_items_at(s, i1, n) {
            None => {
                return Err(ConfigError::Syntax);
            },
            Some(p) => p,
        }
    };
    if !starts_with_at(s, j2, "\n", n) {
        return Err(ConfigError::Syntax);
    }
    let j3 = j2 + "\n".unicode_len();
    proof {
        assert(s@.skip(j2 as int).skip(lit_nl().len() as int) =~= s@.skip(j3 as int));
    }
    let farms = match parse_farms_at(s, j3, n) {
        None => {
            return Err(ConfigError::Syntax);
        },
        Some(p) => p,
    };
    let c = Config { disk_farms: farms, plot_servers: servers };
    proof {
        assert(parse_doc(s@) == Some(c@));
    }
    Ok(c)
}

/// Directories of a sequence of raw entries, in order.
pub open spec fn farm_dirs(fs: Seq<FarmView>) -> Seq<Seq<char>> {
    fs.map_values(|f: FarmView| f.directory)
}

/// What `load_config` returns on a given document: the configuration when
/// the text matches the grammar and both uniqueness checks pass, and
/// otherwise which error.  Server addresses are checked before storage
/// directories, so when both have duplicates the server error is reported.
pub open spec fn load_result(s: Seq<char>) -> Result<ConfigView, ConfigError> {
    match parse_doc(s) {
        None => Err(ConfigError::Syntax),
        Some(cv) => if contains_dup(cv.plot_servers) {
            Err(ConfigError::DuplicateServer)
        } else if contains_dup(farm_dirs(cv.disk_farms)) {
            Err(ConfigError::DuplicateStorageDirectory)
        } else {
            Ok(cv)
        },
    }
}

/// Load a configuration document: deserialize it, then require the server
/// addresses to be pairwise distinct and then the storage directories, in
/// that order; on success the configuration is returned unchanged, its
/// capacity strings still unresolved.
pub fn load_config(contents: &str) -> (r: Result<Config, ConfigError>)
    ensures
        match r {
            Ok(c) => load_result(contents@) == Ok::<_, ConfigError>(c@),
            Err(e) => load_result(contents@) == Err::<ConfigView, _>(e),
        },
{
    let config = match deserialize(contents) {
        Ok(c) => c,
        Err(e) => {
            return Err(e);
        },
    };
    if has_dup(&config.plot_servers) {
        return Err(ConfigError::DuplicateServer);
    }
    let mut dirs: Vec<String> = Vec::new();
    let mut i: usize = 0;
    while i < config.disk_farms.len()
        invariant
            i <= config.disk_farms.len(),
            dirs@.len() == i,
            forall|j: int| 0 <= j < i ==> dirs@[j]@ == config@.disk_farms[j].directory,
        decreases config.disk_farms.len() - i,
    {
        dirs.push(config.disk_farms[i].directory.clone());
        proof {
            assert(config@.disk_farms[i as int] == config.disk_farms@[i as int]@);
        }
        i = i + 1;
    }
    proof {
        assert(string_views(dirs@) =~= farm_dirs(config@.disk_farms));
    }
    if has_dup(&dirs) {
        return Err(ConfigError::DuplicateStorageDirectory);
    }
    Ok(config)
}

proof fn lits_facts()
    ensures
        lit_close().len() == 1 && lit_close()[0] == ']',
        lit_comma().len() == 2 && lit_comma()[0] == ',' && lit_comma()[1] == ' ',
        lit_nl().len() == 1 && lit_nl()[0] == '\n',
        lit_farm_header().len() == 28 && lit_farm_header()[0] == '\n',
        lit_alloc_prefix().len() == 27 && lit_alloc_prefix()[0] == 'a',
        lit_servers_open().len() == 16,
{
    reveal_strlit("]");
    reveal_strlit(", ");
    reveal_strlit("\n");
    reveal_strlit("\n[[disk_farms]]\ndirectory = ");
    reveal_strlit("allocated_plotting_space = ");
    reveal_strlit("plot_servers = [");
}

/// A quoted plain string followed by anything parses back to that string.
proof fn lemma_parse_quote(x: Seq<char>, t: Seq<char>)
    requires
        plain_str(x),
    ensures
        parse_qstring(quote(x) + t) == Some((x, t)),
{
    let s = quote(x) + t;
    assert(s[0] == '"');
    assert(forall|j: int| 1 <= j < 1 + x.len() as int ==> s[j] == x[j - 1]);
    assert(s[1 + x.len() as int] == '"');
    lemma_plain_end_char(s, 1, 1 + x.len() as int);
    assert(s.subrange(1, 1 + x.len() as int) =~= x);
    assert(s.skip(x.len() as int + 2) =~= t);
}

/// The serialized server items followed by the closing bracket parse back to
/// the same list.
proof fn lemma_items_round(ss: Seq<Seq<char>>, t: Seq<char>)
    requires
        ss.len() >= 1,
        forall|i: int| 0 <= i < ss.len() ==> plain_str(#[trigger] ss[i]),
    ensures
        parse_server_items(servers_items_text(ss) + lit_close() + t) == Some((ss, t)),
    decreases ss.len(),
{
    lits_facts();
    let s = servers_items_text(ss) + lit_close() + t;
    if ss.len() == 1 {
        let r1 = lit_close() + t;
        assert(s =~= quote(ss[0]) + r1);
        lemma_parse_quote(ss[0], r1);
        assert(r1[0] == ']');
        assert(r1.drop_first() =~= t);
        assert(seq![ss[0]] =~= ss);
    } else {
        let tail = ss.drop_first();
        let r1 = lit_comma() + (servers_items_text(tail) + lit_close() + t);
        assert(s =~= quote(ss[0]) + r1);
        lemma_parse_quote(ss[0], r1);
        assert(r1[0] == ',');
        assert(r1[1] == ' ');
        assert(r1.skip(2) =~= servers_items_text(tail) + lit_close() + t);
        assert(forall|i: int| 0 <= i < tail.len() ==> plain_str(#[trigger] tail[i])) by {
            assert(forall|i: int| 0 <= i < tail.len() ==> #[trigger] tail[i] == ss[i + 1]);
        }
        lemma_items_round(tail, t);
        assert(r1.skip(2).len() < s.len());
        assert(seq![ss[0]] + tail =~= ss);
    }
}

/// The text of one storage entry followed by the next block (or nothing)
/// parses back to that entry.
proof fn lemma_block_round(f: FarmView, t: Seq<char>)
    requires
        plain_str(f.directory),
        match f.allocated_plotting_space {
            Some(a) => plain_str(a),
            None => true,
        },
        t.len() == 0 || t[0] == '\n',
    ensures
        parse_farm_block(farm_text(f) + t) == Some((f, t)),
        (farm_text(f) + t).len() > t.len(),
{
    lits_facts();
    let s = farm_text(f) + t;
    match f.allocated_plotting_space {
        None => {
            let r1 = quote(f.directory) + (lit_nl() + t);
            assert(s =~= lit_farm_header() + r1);
            assert(s.subrange(0, 28) =~= lit_farm_header());
            assert(s.skip(28) =~= r1);
            lemma_parse_quote(f.directory, lit_nl() + t);
            let r2 = lit_nl() + t;
            assert(r2.subrange(0, 1) =~= lit_nl());
            assert(r2.skip(1) =~= t);
            assert(!starts_with(t, lit_alloc_prefix())) by {
                if starts_with(t, lit_alloc_prefix()) {
                    assert(t.subrange(0, 27)[0] == t[0]);
                }
            }
        },
        Some(a) => {
            let r3 = lit_alloc_prefix() + (quote(a) + (lit_nl() + t));
            let r1 = quote(f.directory) + (lit_nl() + r3);
            assert(s =~= lit_farm_header() + r1);
            assert(s.subrange(0, 28) =~= lit_farm_header());
            assert(s.skip(28) =~= r1);
            lemma_parse_quote(f.directory, lit_nl() + r3);
            let r2 = lit_nl() + r3;
            assert(r2.subrange(0, 1) =~= lit_nl());
            assert(r2.skip(1) =~= r3);
            assert(starts_with(r3, lit_alloc_prefix())) by {
                assert(r3.subrange(0, 27) =~= lit_alloc_prefix());
            }
            assert(r3.skip(27) =~= quote(a) + (lit_nl() + t));
            lemma_parse_quote(a, lit_nl() + t);
            let r4 = lit_nl() + t;
            assert(r4.subrange(0, 1) =~= lit_nl());
            assert(r4.skip(1) =~= t);
        },
    }
}

/// The text of a sequence of storage entries parses back to that sequence.
proof fn lemma_farms_round(fs: Seq<FarmView>)
    requires
        forall|i: int| 0 <= i < fs.len() ==> plain_str(#[trigger] fs[i].directory),
        forall|i: int|
            0 <= i < fs.len() ==> match #[trigger] fs[i].allocated_plotting_space {
                Some(a) => plain_str(a),
                None => true,
            },
    ensures
        parse_farms(farms_text(fs)) == Some(fs),
        farms_text(fs).len() == 0 || farms_text(fs)[0] == '\n',
    decreases fs.len(),
{
    lits_facts();
    if fs.len() == 0 {
        assert(farms_text(fs) =~= Seq::<char>::empty());
        assert(parse_farms(farms_text(fs)) == Some(Seq::<FarmView>::empty()));
        assert(Seq::<FarmView>::empty() =~= fs);
    } else {
        let tail = fs.drop_first();
        assert(forall|i: int| 0 <= i < tail.len() ==> #[trigger] tail[i] == fs[i + 1]);
        lemma_farms_round(tail);
        let tail_text = farms_text(tail);
        lemma_block_round(fs[0], tail_text);
        let s = farms_text(fs);
        assert(s == farm_text(fs[0]) + tail_text);
        assert(s[0] == lit_farm_header()[0]);
        assert(s.len() > tail_text.len());
        assert(seq![fs[0]] + tail =~= fs);
    }
}

/// Round trip of the codec: any configuration whose strings are
/// representable in the document, serialized and parsed back, is reproduced
/// exactly, its capacity strings verbatim.
pub proof fn lemma_round_trip(c: ConfigView)
    requires
        wf_config(c),
    ensures
        parse_doc(serialize_spec(c)) == Some(c),
{
    lits_facts();
    let s = serialize_spec(c);
    let farms_part = farms_text(c.disk_farms);
    let r2 = lit_nl() + farms_part;
    let after_open = servers_items_text(c.plot_servers) + lit_close() + r2;
    assert(s =~= lit_servers_open() + after_open);
    assert(s.subrange(0, 16) =~= lit_servers_open());
    assert(s.skip(16) =~= after_open);
    if c.plot_servers.len() == 0 {
        assert(after_open =~= lit_close() + r2);
        assert(after_open[0] == ']');
        assert(after_open.drop_first() =~= r2);
        assert(parse_servers(after_open) == Some((Seq::<Seq<char>>::empty(), after_open.drop_first())));
        assert(Seq::<Seq<char>>::empty() =~= c.plot_servers);
    } else {
        assert(servers_items_text(c.plot_servers)[0] == '"') by {
            let ss = c.plot_servers;
            if ss.len() == 1 {
                assert(servers_items_text(ss) == quote(ss[0]));
            } else {
                assert(servers_items_text(ss) == quote(ss[0]) + lit_comma() + servers_items_text(
                    ss.drop_first(),
                ));
            }
        }
        assert(after_open[0] == '"');
        assert(after_open =~= servers_items_text(c.plot_servers) + lit_close() + r2);
        lemma_items_round(c.plot_servers, r2);
    }
    assert(r2.subrange(0, 1) =~= lit_nl());
    assert(r2.skip(1) =~= farms_part);
    lemma_farms_round(c.disk_farms);
    assert(ConfigView { disk_farms: c.disk_farms, plot_servers: c.plot_servers } =~= c);
}

/// Round trip through the loader: a representable configuration without
/// duplicate server addresses or directories, serialized and loaded back, is
/// reproduced exactly.
pub proof fn lemma_serialize_load_round_trip(c: ConfigView)
    requires
        wf_config(c),
        !contains_dup(c.plot_servers),
        !contains_dup(farm_dirs(c.disk_farms)),
    ensures
        load_result(serialize_spec(c)) == Ok::<_, ConfigError>(c),
{
    lemma_round_trip(c);
}

/// Invariants of a successfully loaded configuration: it is exactly what the
/// document denotes, no two server addresses are equal, and no two storage
/// entries share a directory.
pub proof fn lemma_loaded_config_unique(s: Seq<char>, c: ConfigView)
    requires
        load_result(s) == Ok::<_, ConfigError>(c),
    ensures
        parse_doc(s) == Some(c),
        !contains_dup(c.plot_servers),
        !contains_dup(farm_dirs(c.disk_farms)),
{
}

} // verus!
