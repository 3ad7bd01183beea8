//! Kernel-driver cleanup: seeding from the rule set, transitive dependency
//! closure, and the resulting deletion plan.
//!
//! A driver is kept when a keep-rule matches its path relative to the kernel
//! directory and no delete-rule does, and further when any kept driver
//! depends on it, directly or through a chain of dependencies present in the
//! inventory. Everything else is a deletion candidate.

use vstd::prelude::*;
use vstd::string::StrSliceExecFns;
use vstd::string::StringExecFns;

use crate::config::any_matches;
use crate::config::any_rule_matches;
use crate::config::all_patterns_valid;
use crate::config::delete_patterns_spec;
use crate::config::keep_patterns_spec;
use crate::config::read_config;
use crate::config::RuleSet;
use crate::error::JanitorError;
use crate::strings::find_char;
use crate::strings::lemma_find_char;
use crate::strings::rfind_char;
use crate::strings::rfind_char_exec;
use crate::strings::str_eq;
use crate::strings::trim;
use crate::strings::trim_spec;
use crate::strings::vec_contains_str;

verus! {

// ---------------------------------------------------------------------------
// The driver record and its model.
// ---------------------------------------------------------------------------
/// One kernel module of the inventory: its name (the filename stem before the
/// first dot), its full path, and the names of the modules it depends on.
pub struct Driver {
    pub name: String,
    pub path: String,
    pub deps: Vec<String>,
}

/// The mathematical shape of a driver.
pub struct DriverModel {
    pub name: Seq<char>,
    pub path: Seq<char>,
    pub deps: Seq<Seq<char>>,
}

impl View for Driver {
    type V = DriverModel;

    open spec fn view(&self) -> DriverModel {
        DriverModel { name: self.name@, path: self.path@, deps: self.deps.deep_view() }
    }
}

/// The filename part of a path: everything after the last slash.
pub open spec fn base_name_of(path: Seq<char>) -> Seq<char> {
    match rfind_char(path, '/') {
        Some(i) => path.skip(i + 1),
        None => path,
    }
}

/// The stem of a filename: everything before the first dot.
pub open spec fn stem_of(base: Seq<char>) -> Seq<char> {
    match find_char(base, '.') {
        Some(i) => base.take(i),
        None => base,
    }
}

/// A driver's name as derived from its path.
pub open spec fn driver_name_spec(path: Seq<char>) -> Seq<char> {
    stem_of(base_name_of(path))
}

/// The pieces of `s` between commas.
pub open spec fn split_commas_spec(s: Seq<char>) -> Seq<Seq<char>>
    decreases s.len(),
{
    if s.len() == 0 {
        seq![]
    } else {
        match find_char(s, ',') {
            None => seq![s],
            Some(i) => if 0 <= i < s.len() {
                seq![s.take(i)] + split_commas_spec(s.skip(i + 1))
            } else {
                seq![]
            },
        }
    }
}

/// The non-empty members of a sequence of strings, in order.
pub open spec fn nonempty_of(s: Seq<Seq<char>>) -> Seq<Seq<char>>
    decreases s.len(),
{
    if s.len() == 0 {
        seq![]
    } else if s.last().len() > 0 {
        nonempty_of(s.drop_last()).push(s.last())
    } else {
        nonempty_of(s.drop_last())
    }
}

/// The dependency names carried by a metadata text: comma-separated, blanks
/// around the whole text ignored, empty pieces dropped.
pub open spec fn deps_spec(s: Seq<char>) -> Seq<Seq<char>> {
    nonempty_of(split_commas_spec(trim_spec(s)))
}

/// Extracts a driver's name from its path: the filename stem up to the first
/// dot, so `a/b/snd.ko.xz` names the driver `snd`.
pub fn driver_name_of(path: &str) -> (r: String)
    ensures
        r@ == driver_name_spec(path@),
{
    let len = path.unicode_len();
    proof {
        crate::strings::lemma_rfind_char(path@, '/');
    }
    let start: usize = match rfind_char_exec(path, '/') {
        Some(i) => i + 1,
        None => 0,
    };
    proof {
        match rfind_char(path@, '/') {
            Some(i) => {
                assert(path@.skip(i + 1) =~= path@.subrange(start as int, len as int));
            },
            None => {
                assert(path@ =~= path@.subrange(0, len as int));
            },
        }
    }
    let base = path.substring_char(start, len);
    let ghost bv = base_name_of(path@);
    proof {
        assert(base@ == bv);
    }
    let blen = base.unicode_len();
    let end: usize = match crate::strings::find_char_from(base, 0, '.') {
        Some(j) => j,
        None => blen,
    };
    proof {
        lemma_find_char(bv, '.');
        match find_char(bv, '.') {
            Some(j) => {
                assert(bv[j] == '.');
                assert(bv[end as int] == '.');
                assert(bv.take(j) =~= bv.subrange(0, end as int));
            },
            None => {
                assert(end == blen);
                assert(bv =~= bv.subrange(0, end as int));
            },
        }
    }
    base.substring_char(0, end).to_owned()
}

/// Splits a metadata text on commas.
fn split_commas(s: &str) -> (r: Vec<String>)
    ensures
        r.deep_view() == split_commas_spec(s@),
{
    let len = s.unicode_len();
    let mut r: Vec<String> = Vec::new();
    let mut p: usize = 0;
    proof {
        assert(s@.skip(0) =~= s@);
        assert(r.deep_view() =~= Seq::<Seq<char>>::empty());
        assert(r.deep_view() + split_commas_spec(s@.skip(0)) =~= split_commas_spec(s@));
    }
    while p < len
        invariant
            len == s@.len(),
            p <= len,
            split_commas_spec(s@) == r.deep_view() + split_commas_spec(s@.skip(p as int)),
        decreases len - p,
    {
        let ghost pre = r.deep_view();
        let ghost suffix = s@.skip(p as int);
        match crate::strings::find_char_from(s, p, ',') {
            Some(q) => {
                proof {
                    lemma_find_char(suffix, ',');
                    assert(forall|j: int| 0 <= j < suffix.len() ==> suffix[j] == s@[p + j]);
                    assert(suffix[q - p] == ',');
                    match find_char(suffix, ',') {
                        Some(k) => {
                            if k < q - p {
                                assert(s@[p + k] == ',');
                            }
                            if k > q - p {
                                assert(suffix[q - p] != ',');
                            }
                            assert(k == q - p);
                        },
                        None => {
                            assert(suffix[q - p] != ',');
                        },
                    }
                }
                let piece = s.substring_char(p, q);
                proof {
                    assert(suffix.take(q - p) =~= s@.subrange(p as int, q as int));
                    assert(suffix.skip(q - p + 1) =~= s@.skip(q + 1));
                }
                r.push(piece.to_owned());
                proof {
                    assert(r.deep_view() =~= pre.push(s@.subrange(p as int, q as int)));
                    assert(pre + split_commas_spec(suffix) =~= r.deep_view() + split_commas_spec(
                        s@.skip(q + 1),
                    ));
                }
                p = q + 1;
            },
            None => {
                proof {
                    lemma_find_char(suffix, ',');
                    assert(forall|j: int| 0 <= j < suffix.len() ==> suffix[j] == s@[p + j]);
                    match find_char(suffix, ',') {
                        Some(k) => {
                            assert(s@[p + k] == ',');
                        },
                        None => {},
                    }
                }
                let piece = s.substring_char(p, len);
                proof {
                    assert(suffix =~= s@.subrange(p as int, len as int));
                }
                r.push(piece.to_owned());
                proof {
                    assert(r.deep_view() =~= pre.push(suffix));
                    assert(pre + split_commas_spec(suffix) =~= r.deep_view() + split_commas_spec(
                        s@.skip(len as int),
                    ));
                }
                p = len;
            },
        }
    }
    proof {
        assert(s@.skip(p as int) =~= Seq::<char>::empty());
        assert(r.deep_view() + split_commas_spec(s@.skip(p as int)) =~= r.deep_view());
    }
    r
}

/// Parses the dependency names of a module's metadata text.
pub fn parse_deps(deps_text: &str) -> (r: Vec<String>)
    ensures
        r.deep_view() == deps_spec(deps_text@),
{
    let trimmed = trim(deps_text);
    let pieces = split_commas(trimmed.as_str());
    let ghost pv = pieces.deep_view();
    let mut r: Vec<String> = Vec::new();
    let mut i: usize = 0;
    proof {
        assert(r.deep_view() =~= nonempty_of(pv.take(0)));
    }
    while i < pieces.len()
        invariant
            pv == pieces.deep_view(),
            i <= pieces@.len(),
            r.deep_view() == nonempty_of(pv.take(i as int)),
        decreases pieces@.len() - i,
    {
        let ghost pre = r.deep_view();
        proof {
            assert(pv.take(i + 1).drop_last() =~= pv.take(i as int));
            assert(pv.take(i + 1).last() == pv[i as int]);
        }
        if pieces[i].as_str().unicode_len() > 0 {
            r.push(pieces[i].clone());
            proof {
                assert(r.deep_view() =~= pre.push(pv[i as int]));
            }
        }
        i += 1;
    }
    proof {
        assert(pv.take(pieces@.len() as int) =~= pv);
    }
    r
}

impl Driver {
    /// Builds the inventory record of the module at `path` whose dependency
    /// metadata reads `deps_text`.
    pub fn new(path: &str, deps_text: &str) -> (d: Driver)
        ensures
            d@.path == path@,
            d@.name == driver_name_spec(path@),
            d@.deps == deps_spec(deps_text@),
    {
        Driver { name: driver_name_of(path), path: path.to_owned(), deps: parse_deps(deps_text) }
    }
}

// ---------------------------------------------------------------------------
// The inventory as a name-keyed map.
// ---------------------------------------------------------------------------
/// No two drivers of the inventory share a name.
pub open spec fn unique_names(s: Seq<Driver>) -> bool {
    forall|i: int, j: int|
        0 <= i < s.len() && 0 <= j < s.len() && i != j ==> s[i]@.name != s[j]@.name
}

/// The inventory as a map from driver name to driver.
pub open spec fn inv_map(s: Seq<Driver>) -> Map<Seq<char>, DriverModel>
    decreases s.len(),
{
    if s.len() == 0 {
        Map::empty()
    } else {
        inv_map(s.drop_last()).insert(s.last()@.name, s.last()@)
    }
}

/// A name is in the inventory map exactly when some driver carries it.
pub proof fn lemma_inv_map_dom(s: Seq<Driver>, n: Seq<char>)
    ensures
        inv_map(s).dom().contains(n) <==> exists|i: int| 0 <= i < s.len() && s[i]@.name == n,
    decreases s.len(),
{
    if s.len() > 0 {
        lemma_inv_map_dom(s.drop_last(), n);
        if s.last()@.name == n {
            assert(s[s.len() - 1]@.name == n);
        } else if inv_map(s).dom().contains(n) {
            let i = choose|i: int| 0 <= i < s.len() - 1 && s.drop_last()[i]@.name == n;
            assert(s[i]@.name == n);
        } else {
            if exists|i: int| 0 <= i < s.len() && s[i]@.name == n {
                let i = choose|i: int| 0 <= i < s.len() && s[i]@.name == n;
                assert(i < s.len() - 1);
                assert(s.drop_last()[i]@.name == n);
            }
        }
    }
}

/// In an inventory of unique names, each driver is what the map holds under
/// its name.
pub proof fn lemma_inv_map_index(s: Seq<Driver>, i: int)
    requires
        unique_names(s),
        0 <= i < s.len(),
    ensures
        inv_map(s).dom().contains(s[i]@.name),
        inv_map(s)[s[i]@.name] == s[i]@,
    decreases s.len(),
{
    if i == s.len() - 1 {
    } else {
        assert(s.drop_last()[i] == s[i]);
        lemma_inv_map_index(s.drop_last(), i);
        assert(s.last()@.name != s[i]@.name);
    }
}

/// The map of a unique-name inventory is finite, with one entry per driver.
pub proof fn lemma_inv_map_card(s: Seq<Driver>)
    requires
        unique_names(s),
    ensures
        inv_map(s).dom().finite(),
        inv_map(s).dom().len() == s.len(),
    decreases s.len(),
{
    if s.len() > 0 {
        lemma_inv_map_card(s.drop_last());
        lemma_inv_map_dom(s.drop_last(), s.last()@.name);
        if inv_map(s.drop_last()).dom().contains(s.last()@.name) {
            let i = choose|i: int|
                0 <= i < s.len() - 1 && s.drop_last()[i]@.name == s.last()@.name;
            assert(s[i]@.name == s[s.len() - 1]@.name);
        }
        assert(inv_map(s).dom() =~= inv_map(s.drop_last()).dom().insert(s.last()@.name));
    }
}

// ---------------------------------------------------------------------------
// Dependency reachability.
// ---------------------------------------------------------------------------
/// `a` declares a dependency on `b`, and both are in the inventory.
pub open spec fn dep_edge(m: Map<Seq<char>, DriverModel>, a: Seq<char>, b: Seq<char>) -> bool {
    m.dom().contains(a) && m.dom().contains(b) && m[a].deps.contains(b)
}

/// A non-empty walk through the inventory along dependency edges.
pub open spec fn is_dep_chain(m: Map<Seq<char>, DriverModel>, c: Seq<Seq<char>>) -> bool {
    c.len() >= 1 && (forall|i: int| 0 <= i < c.len() ==> m.dom().contains(#[trigger] c[i])) && (
    forall|i: int| 0 <= i < c.len() - 1 ==> dep_edge(m, #[trigger] c[i], c[i + 1]))
}

/// `b` is reachable from the seed set along dependency edges (a seed member
/// itself counts as reached).
pub open spec fn reaches(m: Map<Seq<char>, DriverModel>, seed: Set<Seq<char>>, b: Seq<char>) -> bool {
    exists|c: Seq<Seq<char>>|
        is_dep_chain(m, c) && seed.contains(#[trigger] c[0]) && c.last() == b
}

/// Everything reachable from the seed set.
pub open spec fn reach_set(m: Map<Seq<char>, DriverModel>, seed: Set<Seq<char>>) -> Set<Seq<char>> {
    Set::new(|n: Seq<char>| reaches(m, seed, n))
}

/// A seed member in the inventory is reached, by the one-step chain.
pub proof fn lemma_seed_reaches(m: Map<Seq<char>, DriverModel>, seed: Set<Seq<char>>, n: Seq<char>)
    requires
        seed.contains(n),
        m.dom().contains(n),
    ensures
        reaches(m, seed, n),
{
    let c: Seq<Seq<char>> = seq![n];
    assert(c[0] == n && c.last() == n);
    assert(is_dep_chain(m, c));
}

/// Reachability extends along a dependency edge.
pub proof fn lemma_reaches_step(
    m: Map<Seq<char>, DriverModel>,
    seed: Set<Seq<char>>,
    a: Seq<char>,
    b: Seq<char>,
)
    requires
        reaches(m, seed, a),
        dep_edge(m, a, b),
    ensures
        reaches(m, seed, b),
{
    let c = choose|c: Seq<Seq<char>>|
        is_dep_chain(m, c) && seed.contains(#[trigger] c[0]) && c.last() == a;
    let c2 = c.push(b);
    assert(c2[0] == c[0]);
    assert(c2.last() == b);
    assert forall|i: int| 0 <= i < c2.len() implies m.dom().contains(#[trigger] c2[i]) by {
        if i < c.len() {
            assert(c2[i] == c[i]);
        }
    }
    assert forall|i: int| 0 <= i < c2.len() - 1 implies dep_edge(m, #[trigger] c2[i], c2[i + 1]) by {
        if i < c.len() - 1 {
            assert(c2[i] == c[i] && c2[i + 1] == c[i + 1]);
        } else {
            assert(c2[i] == c.last() && c2[i + 1] == b);
        }
    }
    assert(is_dep_chain(m, c2));
}

/// Reachability composes: what is reached from reached names is reached.
pub proof fn lemma_reaches_trans(
    m: Map<Seq<char>, DriverModel>,
    seed: Set<Seq<char>>,
    mid: Set<Seq<char>>,
    b: Seq<char>,
)
    requires
        forall|x: Seq<char>| #[trigger] mid.contains(x) ==> reaches(m, seed, x),
        reaches(m, mid, b),
    ensures
        reaches(m, seed, b),
{
    let c2 = choose|c: Seq<Seq<char>>|
        is_dep_chain(m, c) && mid.contains(#[trigger] c[0]) && c.last() == b;
    assert(reaches(m, seed, c2[0]));
    let c1 = choose|c: Seq<Seq<char>>|
        is_dep_chain(m, c) && seed.contains(#[trigger] c[0]) && c.last() == c2[0];
    let c = c1 + c2.skip(1);
    assert(c[0] == c1[0]);
    assert forall|i: int| 0 <= i < c.len() implies m.dom().contains(#[trigger] c[i]) by {
        if i < c1.len() {
            assert(c[i] == c1[i]);
        } else {
            assert(c[i] == c2.skip(1)[i - c1.len()]);
            assert(c2.skip(1)[i - c1.len()] == c2[i - c1.len() + 1]);
        }
    }
    assert forall|i: int| 0 <= i < c.len() - 1 implies dep_edge(m, #[trigger] c[i], c[i + 1]) by {
        if i + 1 < c1.len() {
            assert(c[i] == c1[i] && c[i + 1] == c1[i + 1]);
        } else if i + 1 == c1.len() {
            if i + 1 < c.len() {
                assert(c[i] == c1[i]);
                assert(c[i + 1] == c2.skip(1)[0]);
                assert(c2.skip(1)[0] == c2[1]);
                assert(c1[i] == c1.last());
                assert(dep_edge(m, c2[0], c2[1]));
            }
        } else {
            assert(c[i] == c2.skip(1)[i - c1.len()]);
            assert(c[i + 1] == c2.skip(1)[i + 1 - c1.len()]);
            assert(c2.skip(1)[i - c1.len()] == c2[i - c1.len() + 1]);
            assert(c2.skip(1)[i + 1 - c1.len()] == c2[i + 1 - c1.len() + 1]);
            assert(dep_edge(m, c2[i - c1.len() + 1], c2[i - c1.len() + 2]));
        }
    }
    if c2.len() == 1 {
        assert(c =~= c1);
        assert(c.last() == b);
    } else {
        assert(c.last() == c2.skip(1).last());
        assert(c2.skip(1).last() == c2.last());
    }
    assert(is_dep_chain(m, c) && seed.contains(c[0]) && c.last() == b);
}

// ---------------------------------------------------------------------------
// Seeding from the rule set.
// ---------------------------------------------------------------------------
/// `path` lies under `dir`: it continues `dir` across a slash.
pub open spec fn path_under_dir(path: Seq<char>, dir: Seq<char>) -> bool {
    path.len() > dir.len() && path.take(dir.len() as int) == dir && path[dir.len() as int] == '/'
}

/// `path` relative to `dir`.
pub open spec fn rel_path(path: Seq<char>, dir: Seq<char>) -> Seq<char> {
    path.skip(dir.len() as int + 1)
}

/// The rules keep this driver outright: no delete-pattern matches its path
/// relative to the kernel directory, and some keep-pattern does. A driver
/// matched by a delete-pattern, or by no pattern at all, is not seeded.
pub open spec fn seeded(
    d: DriverModel,
    keeps: Seq<Seq<char>>,
    dels: Seq<Seq<char>>,
    kdir: Seq<char>,
) -> bool {
    !any_matches(dels, rel_path(d.path, kdir)) && any_matches(keeps, rel_path(d.path, kdir))
}

/// The names the rules keep outright.
pub open spec fn seed_set(
    m: Map<Seq<char>, DriverModel>,
    keeps: Seq<Seq<char>>,
    dels: Seq<Seq<char>>,
    kdir: Seq<char>,
) -> Set<Seq<char>> {
    Set::new(|n: Seq<char>| m.dom().contains(n) && seeded(m[n], keeps, dels, kdir))
}

/// The seeded names, in inventory order.
pub open spec fn seed_list(
    s: Seq<Driver>,
    keeps: Seq<Seq<char>>,
    dels: Seq<Seq<char>>,
    kdir: Seq<char>,
) -> Seq<Seq<char>>
    decreases s.len(),
{
    if s.len() == 0 {
        seq![]
    } else if seeded(s.last()@, keeps, dels, kdir) {
        seed_list(s.drop_last(), keeps, dels, kdir).push(s.last()@.name)
    } else {
        seed_list(s.drop_last(), keeps, dels, kdir)
    }
}

/// The seeded names carry no duplicate and form exactly the seed set.
pub proof fn lemma_seed_list_props(
    s: Seq<Driver>,
    keeps: Seq<Seq<char>>,
    dels: Seq<Seq<char>>,
    kdir: Seq<char>,
)
    requires
        unique_names(s),
    ensures
        seed_list(s, keeps, dels, kdir).no_duplicates(),
        forall|n: Seq<char>| #[trigger]
            seed_list(s, keeps, dels, kdir).contains(n) <==> seed_set(
                inv_map(s),
                keeps,
                dels,
                kdir,
            ).contains(n),
    decreases s.len(),
{
    if s.len() > 0 {
        let dl = s.drop_last();
        assert forall|i: int, j: int|
            0 <= i < dl.len() && 0 <= j < dl.len() && i != j implies dl[i]@.name
            != dl[j]@.name by {
            assert(dl[i] == s[i] && dl[j] == s[j]);
        }
        lemma_seed_list_props(dl, keeps, dels, kdir);
        let rest = seed_list(dl, keeps, dels, kdir);
        let last = s.last();
        lemma_inv_map_dom(dl, last@.name);
        if inv_map(dl).dom().contains(last@.name) {
            let d = choose|d: int| 0 <= d < dl.len() && dl[d]@.name == last@.name;
            assert(s[d]@.name == s[s.len() - 1]@.name);
            assert(false);
        }
        assert(!rest.contains(last@.name));
        if seeded(last@, keeps, dels, kdir) {
            let cur = rest.push(last@.name);
            assert forall|i: int, j: int|
                0 <= i < cur.len() && 0 <= j < cur.len() && i != j implies cur[i] != cur[j] by {
                if i < rest.len() && j < rest.len() {
                    assert(cur[i] == rest[i] && cur[j] == rest[j]);
                } else if i < rest.len() {
                    assert(rest.contains(rest[i]) && cur[j] == last@.name);
                } else if j < rest.len() {
                    assert(rest.contains(rest[j]) && cur[i] == last@.name);
                }
            }
        }
        // Membership in the map of the whole inventory, per name.
        assert forall|n: Seq<char>| #[trigger]
            seed_list(s, keeps, dels, kdir).contains(n) <==> seed_set(
                inv_map(s),
                keeps,
                dels,
                kdir,
            ).contains(n) by {
            lemma_inv_map_dom(dl, n);
            lemma_inv_map_dom(s, n);
            if n == last@.name {
                if seeded(last@, keeps, dels, kdir) {
                    let cur = seed_list(s, keeps, dels, kdir);
                    assert(cur[cur.len() - 1] == n);
                    assert(cur.contains(n));
                }
            } else {
                assert(inv_map(s)[n] == inv_map(dl)[n] || !inv_map(s).dom().contains(n));
                if seed_list(s, keeps, dels, kdir).contains(n) {
                    let cur = seed_list(s, keeps, dels, kdir);
                    let t = choose|t: int| 0 <= t < cur.len() && cur[t] == n;
                    assert(t < rest.len() && rest[t] == n);
                    assert(rest.contains(n));
                }
                if rest.contains(n) {
                    let t = choose|t: int| 0 <= t < rest.len() && rest[t] == n;
                    let cur = seed_list(s, keeps, dels, kdir);
                    assert(cur[t] == n);
                    assert(cur.contains(n));
                }
            }
        }
    }
}

/// Seeds the keep set: the names of the drivers the rules keep outright.
pub fn seed_keep(drivers: &Vec<Driver>, kernel_dir: &str, rules: &RuleSet) -> (r: Vec<String>)
    requires
        rules.wf(),
        unique_names(drivers@),
        forall|i: int|
            0 <= i < drivers@.len() ==> path_under_dir(
                (#[trigger] drivers@[i])@.path,
                kernel_dir@,
            ),
    ensures
        r.deep_view().no_duplicates(),
        r.deep_view().to_set() == seed_set(
            inv_map(drivers@),
            rules.to_keep.deep_view(),
            rules.to_delete.deep_view(),
            kernel_dir@,
        ),
        forall|t: int|
            0 <= t < r.deep_view().len() ==> inv_map(drivers@).dom().contains(
                #[trigger] r.deep_view()[t],
            ),
{
    let ghost keeps = rules.to_keep.deep_view();
    let ghost dels = rules.to_delete.deep_view();
    let klen = kernel_dir.unicode_len();
    let mut r: Vec<String> = Vec::new();
    let mut i: usize = 0;
    proof {
        assert(r.deep_view() =~= seed_list(drivers@.take(0), keeps, dels, kernel_dir@));
    }
    while i < drivers.len()
        invariant
            rules.wf(),
            unique_names(drivers@),
            forall|t: int|
                0 <= t < drivers@.len() ==> path_under_dir(
                    (#[trigger] drivers@[t])@.path,
                    kernel_dir@,
                ),
            keeps == rules.to_keep.deep_view(),
            dels == rules.to_delete.deep_view(),
            klen == kernel_dir@.len(),
            i <= drivers@.len(),
            r.deep_view() == seed_list(drivers@.take(i as int), keeps, dels, kernel_dir@),
        decreases drivers@.len() - i,
    {
        let ghost pre = r.deep_view();
        let path = &drivers[i].path;
        let plen = path.as_str().unicode_len();
        let rel = path.as_str().substring_char(klen + 1, plen);
        proof {
            assert(rel@ =~= rel_path(drivers@[i as int]@.path, kernel_dir@));
            assert(drivers@.take(i + 1).drop_last() =~= drivers@.take(i as int));
            assert(drivers@.take(i + 1).last() == drivers@[i as int]);
        }
        let deleted = any_rule_matches(&rules.to_delete, rel);
        let kept = if deleted {
            false
        } else {
            any_rule_matches(&rules.to_keep, rel)
        };
        if kept {
            r.push(drivers[i].name.clone());
            proof {
                assert(r.deep_view() =~= pre.push(drivers@[i as int]@.name));
            }
        }
        i += 1;
    }
    proof {
        assert(drivers@.take(drivers@.len() as int) =~= drivers@);
        lemma_seed_list_props(drivers@, keeps, dels, kernel_dir@);
        let m = inv_map(drivers@);
        let rv = r.deep_view();
        assert forall|n: Seq<char>| rv.to_set().contains(n) implies seed_set(
            m,
            keeps,
            dels,
            kernel_dir@,
        ).contains(n) by {
            assert(rv.contains(n));
        }
        assert forall|n: Seq<char>| seed_set(m, keeps, dels, kernel_dir@).contains(n) implies rv
            .to_set().contains(n) by {
            assert(rv.contains(n));
        }
        assert(rv.to_set() =~= seed_set(m, keeps, dels, kernel_dir@));
        assert forall|t: int| 0 <= t < rv.len() implies m.dom().contains(#[trigger] rv[t]) by {
            assert(rv.contains(rv[t]));
            assert(seed_set(m, keeps, dels, kernel_dir@).contains(rv[t]));
        }
    }
    r
}

/// A set that holds its seed and is closed under dependency edges holds
/// everything reachable: the endpoint of every chain from the seed.
pub proof fn lemma_chain_in_closed(
    m: Map<Seq<char>, DriverModel>,
    seed: Set<Seq<char>>,
    ks: Set<Seq<char>>,
    c: Seq<Seq<char>>,
)
    requires
        is_dep_chain(m, c),
        seed.contains(c[0]),
        forall|n: Seq<char>| #[trigger] seed.contains(n) ==> ks.contains(n),
        forall|a: Seq<char>, b: Seq<char>|
            ks.contains(a) && #[trigger] dep_edge(m, a, b) ==> ks.contains(b),
    ensures
        ks.contains(c.last()),
    decreases c.len(),
{
    if c.len() == 1 {
        assert(c.last() == c[0]);
    } else {
        let cd = c.drop_last();
        assert(cd[0] == c[0]);
        assert forall|i: int| 0 <= i < cd.len() implies m.dom().contains(#[trigger] cd[i]) by {
            assert(cd[i] == c[i]);
        }
        assert forall|i: int| 0 <= i < cd.len() - 1 implies dep_edge(m, #[trigger] cd[i], cd[i + 1]) by {
            assert(cd[i] == c[i] && cd[i + 1] == c[i + 1]);
        }
        lemma_chain_in_closed(m, seed, ks, cd);
        assert(cd.last() == c[c.len() - 2]);
        assert(dep_edge(m, c[c.len() - 2], c[c.len() - 1]));
    }
}

// ---------------------------------------------------------------------------
// The worklist closure.
// ---------------------------------------------------------------------------
/// Finds the inventory entry carrying `name`.
fn find_driver(drivers: &Vec<Driver>, name: &str) -> (r: Option<usize>)
    requires
        unique_names(drivers@),
    ensures
        match r {
            Some(i) => i < drivers@.len() && drivers@[i as int]@.name == name@ && inv_map(
                drivers@,
            ).dom().contains(name@) && inv_map(drivers@)[name@] == drivers@[i as int]@,
            None => !inv_map(drivers@).dom().contains(name@),
        },
{
    let mut i: usize = 0;
    while i < drivers.len()
        invariant
            unique_names(drivers@),
            i <= drivers@.len(),
            forall|j: int| 0 <= j < i ==> (#[trigger] drivers@[j])@.name != name@,
        decreases drivers@.len() - i,
    {
        if str_eq(drivers[i].name.as_str(), name) {
            proof {
                lemma_inv_map_index(drivers@, i as int);
            }
            return Some(i);
        }
        i += 1;
    }
    proof {
        lemma_inv_map_dom(drivers@, name@);
        if inv_map(drivers@).dom().contains(name@) {
            let d = choose|d: int| 0 <= d < drivers@.len() && drivers@[d]@.name == name@;
            assert(drivers@[d]@.name != name@);
        }
    }
    None
}

/// The keep set is never larger than the inventory.
proof fn lemma_keep_bounded(drivers: Seq<Driver>, kv: Seq<Seq<char>>)
    requires
        unique_names(drivers),
        kv.no_duplicates(),
        forall|t: int| 0 <= t < kv.len() ==> inv_map(drivers).dom().contains(#[trigger] kv[t]),
    ensures
        kv.len() <= drivers.len(),
{
    kv.unique_seq_to_set();
    lemma_inv_map_card(drivers);
    assert forall|n: Seq<char>| kv.to_set().contains(n) implies inv_map(drivers).dom().contains(
        n,
    ) by {
        let t = choose|t: int| 0 <= t < kv.len() && kv[t] == n;
    }
    vstd::set_lib::lemma_len_subset(kv.to_set(), inv_map(drivers).dom());
}

/// Grows the seed to the full keep set: every driver some seed member
/// depends on, directly or through a chain, joins the set. A worklist holds
/// the names whose dependencies are still to be examined; a name enters the
/// keep set and the worklist at most once, which bounds the loop even on
/// cyclic dependency graphs.
#[verifier::rlimit(60)]
pub fn closure(drivers: &Vec<Driver>, seed: &Vec<String>) -> (keep: Vec<String>)
    requires
        unique_names(drivers@),
        seed.deep_view().no_duplicates(),
        forall|t: int|
            0 <= t < seed.deep_view().len() ==> inv_map(drivers@).dom().contains(
                #[trigger] seed.deep_view()[t],
            ),
    ensures
        keep.deep_view().no_duplicates(),
        keep.deep_view().to_set() == reach_set(inv_map(drivers@), seed.deep_view().to_set()),
{
    let ghost m = inv_map(drivers@);
    let ghost sset = seed.deep_view().to_set();
    let mut keep: Vec<String> = Vec::new();
    let mut work: Vec<String> = Vec::new();
    let mut i: usize = 0;
    while i < seed.len()
        invariant
            i <= seed@.len(),
            keep.deep_view() == seed.deep_view().take(i as int),
            work.deep_view() == seed.deep_view().take(i as int),
        decreases seed@.len() - i,
    {
        let ghost pre = keep.deep_view();
        keep.push(seed[i].clone());
        work.push(seed[i].clone());
        proof {
            assert(keep.deep_view() =~= pre.push(seed.deep_view()[i as int]));
            assert(work.deep_view() =~= pre.push(seed.deep_view()[i as int]));
            assert(seed.deep_view().take(i + 1) =~= pre.push(seed.deep_view()[i as int]));
        }
        i += 1;
    }
    proof {
        assert(seed.deep_view().take(seed@.len() as int) =~= seed.deep_view());
        assert forall|n: Seq<char>| sset.contains(n) implies keep.deep_view().contains(n) by {
            assert(seed.deep_view().contains(n));
        }
        assert forall|t: int|
            0 <= t < work.deep_view().len() implies keep.deep_view().contains(
                #[trigger] work.deep_view()[t],
            ) by {
            assert(keep.deep_view()[t] == work.deep_view()[t]);
        }
        assert forall|t: int|
            0 <= t < keep.deep_view().len() implies reaches(m, sset, #[trigger] keep.deep_view()[t]) by {
            assert(seed.deep_view().contains(keep.deep_view()[t]));
            assert(sset.contains(keep.deep_view()[t]));
            lemma_seed_reaches(m, sset, keep.deep_view()[t]);
        }
        lemma_keep_bounded(drivers@, keep.deep_view());
    }
    while work.len() > 0
        invariant
            unique_names(drivers@),
            m == inv_map(drivers@),
            keep.deep_view().no_duplicates(),
            forall|t: int|
                0 <= t < keep.deep_view().len() ==> m.dom().contains(#[trigger] keep.deep_view()[t]),
            forall|t: int|
                0 <= t < keep.deep_view().len() ==> reaches(
                    m,
                    sset,
                    #[trigger] keep.deep_view()[t],
                ),
            forall|n: Seq<char>| sset.contains(n) ==> keep.deep_view().contains(n),
            forall|t: int|
                0 <= t < work.deep_view().len() ==> keep.deep_view().contains(
                    #[trigger] work.deep_view()[t],
                ),
            forall|a: Seq<char>, b: Seq<char>|
                keep.deep_view().contains(a) && !work.deep_view().contains(a) && #[trigger]
                dep_edge(m, a, b) ==> keep.deep_view().contains(b),
            keep.deep_view().len() <= drivers@.len(),
        decreases drivers@.len() - keep.deep_view().len() + work.deep_view().len(),
    {
        let ghost work_before = work.deep_view();
        let cur = work.pop().unwrap();
        proof {
            assert(cur@ == work_before.last());
            assert(work.deep_view() =~= work_before.drop_last());
            assert(keep.deep_view().contains(cur@));
            // Dropping the popped name from the worklist leaves the closure
            // condition intact for every other kept name.
            assert forall|a: Seq<char>, b: Seq<char>|
                keep.deep_view().contains(a) && !work.deep_view().contains(a) && a != cur@
                    && #[trigger] dep_edge(m, a, b) implies keep.deep_view().contains(b) by {
                if work_before.contains(a) {
                    let t = choose|t: int| 0 <= t < work_before.len() && work_before[t] == a;
                    if t < work_before.len() - 1 {
                        assert(work.deep_view()[t] == a);
                        assert(work.deep_view().contains(a));
                    } else {
                        assert(a == cur@);
                    }
                }
            }
        }
        match find_driver(drivers, cur.as_str()) {
            Some(di) => {
                let ghost k0 = keep.deep_view().len() as int;
                let ghost w0 = work.deep_view().len() as int;
                let deps_len = drivers[di].deps.len();
                let mut j: usize = 0;
                while j < deps_len
                    invariant
                        unique_names(drivers@),
                        m == inv_map(drivers@),
                        di < drivers@.len(),
                        deps_len == drivers@[di as int]@.deps.len(),
                        drivers@[di as int]@.name == cur@,
                        m.dom().contains(cur@) && m[cur@] == drivers@[di as int]@,
                        j <= deps_len,
                        keep.deep_view().no_duplicates(),
                        forall|t: int|
                            0 <= t < keep.deep_view().len() ==> m.dom().contains(
                                #[trigger] keep.deep_view()[t],
                            ),
                        forall|t: int|
                            0 <= t < keep.deep_view().len() ==> reaches(
                                m,
                                sset,
                                #[trigger] keep.deep_view()[t],
                            ),
                        forall|n: Seq<char>| sset.contains(n) ==> keep.deep_view().contains(n),
                        forall|t: int|
                            0 <= t < work.deep_view().len() ==> keep.deep_view().contains(
                                #[trigger] work.deep_view()[t],
                            ),
                        keep.deep_view().contains(cur@),
                        forall|a: Seq<char>, b: Seq<char>|
                            keep.deep_view().contains(a) && !work.deep_view().contains(a) && a
                                != cur@ && #[trigger] dep_edge(m, a, b)
                                ==> keep.deep_view().contains(b),
                        forall|jj: int|
                            0 <= jj < j && m.dom().contains(
                                #[trigger] drivers@[di as int]@.deps[jj],
                            ) ==> keep.deep_view().contains(drivers@[di as int]@.deps[jj]),
                        keep.deep_view().len() <= drivers@.len(),
                        keep.deep_view().len() - k0 == work.deep_view().len() - w0,
                        k0 <= keep.deep_view().len(),
                    decreases deps_len - j,
                {
                    let dn = &drivers[di].deps[j];
                    proof {
                        assert(drivers@[di as int]@.deps[j as int] == drivers@[di as int].deps.deep_view()[j as int]);
                        assert(dn@ == drivers@[di as int]@.deps[j as int]);
                    }
                    match find_driver(drivers, dn.as_str()) {
                        Some(_) => {
                            if !vec_contains_str(&keep, dn.as_str()) {
                                let ghost kv = keep.deep_view();
                                let ghost wv = work.deep_view();
                                keep.push(dn.clone());
                                work.push(dn.clone());
                                proof {
                                    assert(keep.deep_view() =~= kv.push(dn@));
                                    assert(work.deep_view() =~= wv.push(dn@));
                                    let kv2 = keep.deep_view();
                                    // The pushed name is new, so uniqueness is kept.
                                    assert forall|x: int, y: int|
                                        0 <= x < kv2.len() && 0 <= y < kv2.len() && x != y
                                            implies kv2[x] != kv2[y] by {
                                        if x < kv.len() && y < kv.len() {
                                            assert(kv2[x] == kv[x] && kv2[y] == kv[y]);
                                        } else if x < kv.len() {
                                            assert(kv.contains(kv[x]) && kv2[y] == dn@);
                                        } else if y < kv.len() {
                                            assert(kv.contains(kv[y]) && kv2[x] == dn@);
                                        }
                                    }
                                    // The new name is reached: its keeper is, and an edge leads on.
                                    assert(m[cur@].deps.contains(dn@));
                                    assert(dep_edge(m, cur@, dn@));
                                    let t = choose|t: int| 0 <= t < kv.len() && kv[t] == cur@;
                                    assert(reaches(m, sset, cur@));
                                    lemma_reaches_step(m, sset, cur@, dn@);
                                    assert forall|t2: int|
                                        0 <= t2 < kv2.len() implies reaches(
                                        m,
                                        sset,
                                        #[trigger] kv2[t2],
                                    ) by {
                                        if t2 < kv.len() {
                                            assert(kv2[t2] == kv[t2]);
                                        }
                                    }
                                    // Containments carry over to the grown vectors.
                                    assert forall|n: Seq<char>| kv.contains(n) implies kv2.contains(
                                        n,
                                    ) by {
                                        let t2 = choose|t2: int| 0 <= t2 < kv.len() && kv[t2] == n;
                                        assert(kv2[t2] == n);
                                    }
                                    assert(kv2[kv.len() as int] == dn@);
                                    assert(kv2.contains(dn@));
                                    assert forall|n: Seq<char>|
                                        work.deep_view().contains(n) implies kv2.contains(n) by {
                                        let t2 = choose|t2: int|
                                            0 <= t2 < work.deep_view().len()
                                                && work.deep_view()[t2] == n;
                                        if t2 < wv.len() {
                                            assert(wv.contains(n));
                                            assert(kv.contains(n));
                                        } else {
                                            assert(n == dn@);
                                        }
                                    }
                                    assert forall|n: Seq<char>|
                                        wv.contains(n) implies work.deep_view().contains(n) by {
                                        let t2 = choose|t2: int|
                                            0 <= t2 < wv.len() && wv[t2] == n;
                                        assert(work.deep_view()[t2] == n);
                                    }
                                    assert(work.deep_view()[wv.len() as int] == dn@);
                                    assert(work.deep_view().contains(dn@));
                                    lemma_keep_bounded(drivers@, kv2);
                                }
                            }
                        },
                        None => {},
                    }
                    j += 1;
                }
                proof {
                    // Every inventory-present dependency of the popped name is
                    // now kept, so the closure condition holds for it again.
                    assert forall|b: Seq<char>| #[trigger]
                        dep_edge(m, cur@, b) implies keep.deep_view().contains(b) by {
                        assert(m[cur@].deps.contains(b));
                        let jj = choose|jj: int|
                            0 <= jj < m[cur@].deps.len() && m[cur@].deps[jj] == b;
                        assert(m.dom().contains(drivers@[di as int]@.deps[jj]));
                    }
                }
            },
            None => {
                proof {
                    assert(keep.deep_view().contains(cur@));
                    let t = choose|t: int|
                        0 <= t < keep.deep_view().len() && keep.deep_view()[t] == cur@;
                    assert(m.dom().contains(cur@));
                    assert(false);
                }
            },
        }
    }
    proof {
        let kv = keep.deep_view();
        assert forall|n: Seq<char>| kv.to_set().contains(n) implies reach_set(m, sset).contains(
            n,
        ) by {
            let t = choose|t: int| 0 <= t < kv.len() && kv[t] == n;
        }
        assert forall|n: Seq<char>| reach_set(m, sset).contains(n) implies kv.to_set().contains(
            n,
        ) by {
            let c = choose|c: Seq<Seq<char>>|
                is_dep_chain(m, c) && sset.contains(#[trigger] c[0]) && c.last() == n;
            assert forall|x: Seq<char>| #[trigger] sset.contains(x) implies kv.to_set().contains(
                x,
            ) by {
                assert(kv.contains(x));
            }
            assert forall|a: Seq<char>, b: Seq<char>|
                kv.to_set().contains(a) && #[trigger] dep_edge(m, a, b) implies kv.to_set()
                .contains(b) by {
                assert(kv.contains(a));
                assert(!work.deep_view().contains(a));
                assert(kv.contains(b));
            }
            lemma_chain_in_closed(m, sset, kv.to_set(), c);
        }
        assert(kv.to_set() =~= reach_set(m, sset));
    }
    keep
}

// ---------------------------------------------------------------------------
// The deletion plan.
// ---------------------------------------------------------------------------
/// The paths of the inventory drivers whose names the keep set lacks, in
/// inventory order.
pub open spec fn deletions_spec(s: Seq<Driver>, keep: Seq<Seq<char>>) -> Seq<Seq<char>>
    decreases s.len(),
{
    if s.len() == 0 {
        seq![]
    } else if keep.contains(s.last()@.name) {
        deletions_spec(s.drop_last(), keep)
    } else {
        deletions_spec(s.drop_last(), keep).push(s.last()@.path)
    }
}

/// Lists the paths of the drivers not in the keep set.
pub fn driver_deletions(drivers: &Vec<Driver>, keep: &Vec<String>) -> (r: Vec<String>)
    ensures
        r.deep_view() == deletions_spec(drivers@, keep.deep_view()),
{
    let mut r: Vec<String> = Vec::new();
    let mut i: usize = 0;
    proof {
        assert(r.deep_view() =~= deletions_spec(drivers@.take(0), keep.deep_view()));
    }
    while i < drivers.len()
        invariant
            i <= drivers@.len(),
            r.deep_view() == deletions_spec(drivers@.take(i as int), keep.deep_view()),
        decreases drivers@.len() - i,
    {
        let ghost pre = r.deep_view();
        proof {
            assert(drivers@.take(i + 1).drop_last() =~= drivers@.take(i as int));
            assert(drivers@.take(i + 1).last() == drivers@[i as int]);
        }
        if !vec_contains_str(keep, drivers[i].name.as_str()) {
            r.push(drivers[i].path.clone());
            proof {
                assert(r.deep_view() =~= pre.push(drivers@[i as int]@.path));
            }
        }
        i += 1;
    }
    proof {
        assert(drivers@.take(drivers@.len() as int) =~= drivers@);
    }
    r
}

/// What driver cleanup decides: the names to keep and the paths to delete.
pub struct DriverPlan {
    pub keep: Vec<String>,
    pub to_delete: Vec<String>,
}

/// Decides driver cleanup from the rule sources, the current architecture,
/// the driver inventory and the kernel directory: loads the rules, seeds the
/// keep set, closes it over dependencies, and lists every other driver's path
/// for deletion. Fails exactly when some rule pattern does not compile.
pub fn cleanup_drivers(
    sources: &Vec<String>,
    arch: &str,
    drivers: &Vec<Driver>,
    kernel_dir: &str,
) -> (r: Result<DriverPlan, JanitorError>)
    requires
        unique_names(drivers@),
        forall|i: int|
            0 <= i < drivers@.len() ==> path_under_dir(
                (#[trigger] drivers@[i])@.path,
                kernel_dir@,
            ),
    ensures
        r is Ok <==> all_patterns_valid(sources.deep_view(), arch@),
        match r {
            Ok(plan) => plan.keep.deep_view().no_duplicates() && plan.keep.deep_view().to_set()
                == reach_set(
                inv_map(drivers@),
                seed_set(
                    inv_map(drivers@),
                    keep_patterns_spec(sources.deep_view(), arch@),
                    delete_patterns_spec(sources.deep_view(), arch@),
                    kernel_dir@,
                ),
            ) && plan.to_delete.deep_view() == deletions_spec(drivers@, plan.keep.deep_view()),
            Err(e) => e matches JanitorError::Regex(_),
        },
{
    let rules = match read_config(sources, arch) {
        Ok(rules) => rules,
        Err(e) => {
            return Err(e);
        },
    };
    let seed = seed_keep(drivers, kernel_dir, &rules);
    let keep = closure(drivers, &seed);
    let to_delete = driver_deletions(drivers, &keep);
    Ok(DriverPlan { keep, to_delete })
}

// ---------------------------------------------------------------------------
// Laws of the closure.
// ---------------------------------------------------------------------------
/// Delete takes precedence at the seed stage: a driver whose relative path
/// any delete-rule matches is never seeded, also when a keep-rule matches it.
pub proof fn lemma_delete_rule_wins(
    m: Map<Seq<char>, DriverModel>,
    keeps: Seq<Seq<char>>,
    dels: Seq<Seq<char>>,
    kdir: Seq<char>,
    n: Seq<char>,
)
    requires
        m.dom().contains(n),
        any_matches(dels, rel_path(m[n].path, kdir)),
    ensures
        !seed_set(m, keeps, dels, kdir).contains(n),
{
}

/// A kept driver keeps its dependencies: whatever is reachable from a member
/// of the final keep set along inventory-present dependency chains is itself
/// in the final keep set.
pub proof fn lemma_kept_dependencies_kept(
    m: Map<Seq<char>, DriverModel>,
    seed: Set<Seq<char>>,
    a: Seq<char>,
    b: Seq<char>,
)
    requires
        reach_set(m, seed).contains(a),
        reaches(m, set![a], b),
    ensures
        reach_set(m, seed).contains(b),
{
    assert forall|x: Seq<char>| #[trigger] set![a].contains(x) implies reaches(m, seed, x) by {
        assert(x == a);
    }
    lemma_reaches_trans(m, seed, set![a], b);
}

/// Closing the closure's own result adds nothing: the keep set is a fixed
/// point of the transitive expansion.
pub proof fn lemma_closure_idempotent(m: Map<Seq<char>, DriverModel>, seed: Set<Seq<char>>)
    ensures
        reach_set(m, reach_set(m, seed)) == reach_set(m, seed),
{
    assert forall|n: Seq<char>|
        reach_set(m, reach_set(m, seed)).contains(n) implies reach_set(m, seed).contains(n) by {
        assert forall|x: Seq<char>| #[trigger]
            reach_set(m, seed).contains(x) implies reaches(m, seed, x) by {}
        lemma_reaches_trans(m, seed, reach_set(m, seed), n);
    }
    assert forall|n: Seq<char>|
        reach_set(m, seed).contains(n) implies reach_set(m, reach_set(m, seed)).contains(n) by {
        let c = choose|c: Seq<Seq<char>>|
            is_dep_chain(m, c) && seed.contains(#[trigger] c[0]) && c.last() == n;
        assert(m.dom().contains(c[c.len() - 1]));
        lemma_seed_reaches(m, reach_set(m, seed), n);
    }
    assert(reach_set(m, reach_set(m, seed)) =~= reach_set(m, seed));
}

} // verus!
