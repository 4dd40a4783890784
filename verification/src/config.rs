//! Configuration data model: raw storage entries as they stand in the
//! document, resolved entries with exact byte counts, and the uniqueness
//! check used by the loader.

use crate::capacity::{parse, parse_result, ParseError};
use vstd::prelude::*;

verus! {

/// Error from loading a configuration document.
#[derive(Debug, Clone, Copy, PartialEq, Eq, Structural)]
pub enum ConfigError {
    /// The document does not match the expected structure.
    Syntax,
    /// Two server addresses are equal.
    DuplicateServer,
    /// Two storage entries share a directory.
    DuplicateStorageDirectory,
}

/// A storage entry as it stands in the serialized document: the directory
/// and the capacity budget in its original string form.  The capacity string
/// is the source of truth; it is resolved to a byte count only on demand.
#[derive(Debug, Clone)]
pub struct DiskFarmInner {
    /// Path of the directory where data is stored.
    pub directory: String,
    /// How much space the farm may use, as a capacity string; absent means
    /// the farm may use all available space.
    pub allocated_plotting_space: Option<String>,
}

/// Mathematical view of a raw storage entry.
#[verifier::ext_equal]
pub ghost struct FarmView {
    pub directory: Seq<char>,
    pub allocated_plotting_space: Option<Seq<char>>,
}

impl View for DiskFarmInner {
    type V = FarmView;

    open spec fn view(&self) -> FarmView {
        FarmView {
            directory: self.directory@,
            allocated_plotting_space: match self.allocated_plotting_space {
                Some(s) => Some(s@),
                None => None,
            },
        }
    }
}

/// A storage entry after resolution: the capacity budget as an exact byte
/// count, `None` exactly when the raw entry had no capacity string.
#[derive(Debug, Clone, PartialEq, Eq)]
pub struct DiskFarm {
    /// Path of the directory where data is stored.
    pub directory: String,
    /// How much space in bytes the farm may use; absent means unbounded.
    pub allocated_plotting_space: Option<u64>,
}

/// Mathematical view of a resolved storage entry.
#[verifier::ext_equal]
pub ghost struct ResolvedFarmView {
    pub directory: Seq<char>,
    pub allocated_plotting_space: Option<u64>,
}

impl View for DiskFarm {
    type V = ResolvedFarmView;

    open spec fn view(&self) -> ResolvedFarmView {
        ResolvedFarmView {
            directory: self.directory@,
            allocated_plotting_space: self.allocated_plotting_space,
        }
    }
}

/// Views of a sequence of raw entries.
pub open spec fn farm_views(fs: Seq<DiskFarmInner>) -> Seq<FarmView> {
    fs.map_values(|f: DiskFarmInner| f@)
}

/// Views of a sequence of resolved entries.
pub open spec fn resolved_views(fs: Seq<DiskFarm>) -> Seq<ResolvedFarmView> {
    fs.map_values(|f: DiskFarm| f@)
}

/// Views of a sequence of strings.
pub open spec fn string_views(ss: Seq<String>) -> Seq<Seq<char>> {
    ss.map_values(|s: String| s@)
}

/// A validated configuration: an ordered sequence of raw storage entries and
/// an ordered sequence of server addresses.
#[derive(Debug)]
pub struct Config {
    /// Storage entries, in document order.
    pub disk_farms: Vec<DiskFarmInner>,
    /// Server addresses (`host:port` tokens compared only for equality), in
    /// document order.
    pub plot_servers: Vec<String>,
}

/// Mathematical view of a configuration.
#[verifier::ext_equal]
pub ghost struct ConfigView {
    pub disk_farms: Seq<FarmView>,
    pub plot_servers: Seq<Seq<char>>,
}

impl View for Config {
    type V = ConfigView;

    open spec fn view(&self) -> ConfigView {
        ConfigView {
            disk_farms: farm_views(self.disk_farms@),
            plot_servers: string_views(self.plot_servers@),
        }
    }
}

/// Two equal elements stand at different positions of `s`.
pub open spec fn contains_dup<T>(s: Seq<T>) -> bool {
    exists|i: int, j: int| 0 <= i < j < s.len() && s[i] == s[j]
}

/// Whether any two strings of `items` are equal.
pub fn has_dup(items: &Vec<String>) -> (b: bool)
    ensures
        b == contains_dup(string_views(items@)),
{
    let ghost dv = string_views(items@);
    let n = items.len();
    let mut i: usize = 0;
    while i < n
        invariant
            n == items.len(),
            dv == string_views(items@),
            i <= n,
            forall|a: int, b: int| 0 <= a < b < n && a < i ==> dv[a] != dv[b],
        decreases n - i,
    {
        let mut j: usize = i + 1;
        while j < n
            invariant
                n == items.len(),
                dv == string_views(items@),
                i < j <= n || (i + 1 == j && j > n),
                i < n,
                forall|b: int| i < b < j ==> dv[i as int] != dv[b],
            decreases n - j,
        {
            if items[i].eq(&items[j]) {
                proof {
                    assert(dv[i as int] == items@[i as int]@);
                    assert(dv[j as int] == items@[j as int]@);
                    assert(0 <= i < j < dv.len() && dv[i as int] == dv[j as int]);
                }
                return true;
            }
            j = j + 1;
        }
        i = i + 1;
    }
    proof {
        assert(forall|a: int, b: int| 0 <= a < b < dv.len() ==> dv[a] != dv[b]);
    }
    false
}

/// Result of resolving one raw entry: the directory is kept, an absent
/// capacity string resolves to an absent byte count, and a present one to
/// exactly the byte count the capacity parser gives it.
pub open spec fn resolve_entry(f: FarmView) -> Result<ResolvedFarmView, ParseError> {
    match f.allocated_plotting_space {
        None => Ok(ResolvedFarmView { directory: f.directory, allocated_plotting_space: None }),
        Some(s) => match parse_result(s) {
            Ok(n) => Ok(
                ResolvedFarmView { directory: f.directory, allocated_plotting_space: Some(n) },
            ),
            Err(e) => Err(e),
        },
    }
}

/// Result of resolving a sequence of raw entries in order, aborting with the
/// first capacity string that does not parse.
pub open spec fn resolve_farms(fs: Seq<FarmView>) -> Result<Seq<ResolvedFarmView>, ParseError>
    decreases fs.len(),
{
    if fs.len() == 0 {
        Ok(Seq::empty())
    } else {
        match resolve_entry(fs[0]) {
            Err(e) => Err(e),
            Ok(head) => match resolve_farms(fs.drop_first()) {
                Err(e) => Err(e),
                Ok(rest) => Ok(seq![head] + rest),
            },
        }
    }
}

/// Resolution is pointwise: when it succeeds it keeps every entry's
/// directory and position, resolving an absent capacity string to an absent
/// byte count and a present one to exactly the parsed count.
pub proof fn lemma_resolve_pointwise(fs: Seq<FarmView>, v: Seq<ResolvedFarmView>)
    requires
        resolve_farms(fs) == Ok::<_, ParseError>(v),
    ensures
        v.len() == fs.len(),
        forall|i: int| 0 <= i < fs.len() ==> Ok::<_, ParseError>(#[trigger] v[i]) == resolve_entry(
            fs[i],
        ),
    decreases fs.len(),
{
    if fs.len() == 0 {
        assert(v =~= Seq::<ResolvedFarmView>::empty());
    } else {
        let head = resolve_entry(fs[0])->Ok_0;
        let rest = resolve_farms(fs.drop_first())->Ok_0;
        assert(v == seq![head] + rest);
        lemma_resolve_pointwise(fs.drop_first(), rest);
        assert(forall|i: int| 1 <= i < fs.len() ==> fs.drop_first()[i - 1] == fs[i]);
        assert(forall|i: int| 1 <= i < v.len() ==> v[i] == rest[i - 1]);
        assert(v[0] == head);
    }
}

fn resolve_from(farms: &Vec<DiskFarmInner>, i: usize) -> (r: Result<Vec<DiskFarm>, ParseError>)
    requires
        i <= farms.len(),
    ensures
        match r {
            Ok(v) => resolve_farms(farm_views(farms@).skip(i as int)) == Ok::<_, ParseError>(
                resolved_views(v@),
            ),
            Err(e) => resolve_farms(farm_views(farms@).skip(i as int)) == Err::<
                Seq<ResolvedFarmView>,
                _,
            >(e),
        },
    decreases farms.len() - i,
{
    let ghost fs = farm_views(farms@);
    if i == farms.len() {
        let v: Vec<DiskFarm> = Vec::new();
        proof {
            assert(fs.skip(i as int) =~= Seq::<FarmView>::empty());
            assert(resolved_views(v@) =~= Seq::<ResolvedFarmView>::empty());
        }
        return Ok(v);
    }
    proof {
        assert(fs.skip(i as int)[0] == fs[i as int]);
        assert(fs[i as int] == farms@[i as int]@);
        assert(fs.skip(i as int).drop_first() =~= fs.skip(i as int + 1));
    }
    let farm = &farms[i];
    let a: Option<u64> = match &farm.allocated_plotting_space {
        None => None,
        Some(s) => match parse(s.as_str()) {
            Ok(n) => Some(n),
            Err(e) => {
                return Err(e);
            },
        },
    };
    let mut rest = match resolve_from(farms, i + 1) {
        Ok(v) => v,
        Err(e) => {
            return Err(e);
        },
    };
    let head = DiskFarm {
        directory: farm.directory.clone(),
        allocated_plotting_space: a,
    };
    let mut v: Vec<DiskFarm> = Vec::new();
    v.push(head);
    let ghost rest_view = rest@;
    v.append(&mut rest);
    proof {
        assert(resolved_views(v@) =~= seq![
            ResolvedFarmView {
                directory: fs[i as int].directory,
                allocated_plotting_space: a,
            },
        ] + resolved_views(rest_view));
    }
    Ok(v)
}

impl Config {
    /// Resolve every storage entry's capacity string through the capacity
    /// parser, in order, aborting with the first entry's error when one does
    /// not parse; no partial result is returned.
    pub fn get_disk_farms(&self) -> (r: Result<Vec<DiskFarm>, ParseError>)
        ensures
            match r {
                Ok(v) => resolve_farms(self@.disk_farms) == Ok::<_, ParseError>(
                    resolved_views(v@),
                ),
                Err(e) => resolve_farms(self@.disk_farms) == Err::<Seq<ResolvedFarmView>, _>(e),
            },
    {
        proof {
            assert(farm_views(self.disk_farms@).skip(0) =~= self@.disk_farms);
        }
        resolve_from(&self.disk_farms, 0)
    }
}

} // verus!
