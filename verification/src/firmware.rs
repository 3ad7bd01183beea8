//! Firmware cleanup: which firmware files the installed kernel modules
//! require, and what may therefore go.
//!
//! The functions here work on a snapshot of the firmware tree: one record per
//! walked path, saying whether it is a regular file, a directory or a
//! symbolic link, and for a link its raw target text and whether the link
//! fully resolves on disk (and to a file of what size). The caller walks the
//! tree and fills the snapshot in; every decision below is then a function of
//! that data.

use vstd::prelude::*;
use vstd::string::StrSliceExecFns;
use vstd::string::StringExecFns;

use crate::error::JanitorError;
use crate::strings::concat2;
use crate::strings::has_char;
use crate::strings::rfind_char;
use crate::strings::rfind_char_exec;
use crate::strings::str_eq;
use crate::strings::str_starts_with;
use crate::strings::vec_contains_str;
use crate::driver::path_under_dir;
use crate::driver::rel_path;

verus! {

// ---------------------------------------------------------------------------
// The snapshot of the firmware tree.
// ---------------------------------------------------------------------------
/// What one walked path is on disk. For a symbolic link, `resolves` says
/// whether following it (through any further links) ends at something that
/// exists; `target_is_file` and `target_size` describe that endpoint when it
/// does.
pub enum FsEntry {
    File { size: u64 },
    Dir,
    Symlink { target: String, resolves: bool, target_is_file: bool, target_size: u64 },
}

/// The mathematical shape of an entry.
pub enum EntryModel {
    File { size: u64 },
    Dir,
    Link { target: Seq<char>, resolves: bool, target_is_file: bool, target_size: u64 },
}

impl View for FsEntry {
    type V = EntryModel;

    open spec fn view(&self) -> EntryModel {
        match self {
            FsEntry::File { size } => EntryModel::File { size: *size },
            FsEntry::Dir => EntryModel::Dir,
            FsEntry::Symlink { target, resolves, target_is_file, target_size } => EntryModel::Link {
                target: target@,
                resolves: *resolves,
                target_is_file: *target_is_file,
                target_size: *target_size,
            },
        }
    }
}

/// One walked path with what it is.
pub struct FsItem {
    pub path: String,
    pub entry: FsEntry,
}

/// A snapshot of a directory tree: one record per walked path.
pub struct FsSnapshot {
    pub items: Vec<FsItem>,
}

/// No two records of the snapshot share a path.
pub open spec fn unique_paths(s: Seq<FsItem>) -> bool {
    forall|i: int, j: int|
        0 <= i < s.len() && 0 <= j < s.len() && i != j ==> s[i].path@ != s[j].path@
}

/// The snapshot as a map from path to entry.
pub open spec fn snap_map(s: Seq<FsItem>) -> Map<Seq<char>, EntryModel>
    decreases s.len(),
{
    if s.len() == 0 {
        Map::empty()
    } else {
        snap_map(s.drop_last()).insert(s.last().path@, s.last().entry@)
    }
}

impl View for FsSnapshot {
    type V = Map<Seq<char>, EntryModel>;

    open spec fn view(&self) -> Map<Seq<char>, EntryModel> {
        snap_map(self.items@)
    }
}

/// A path is in the snapshot map exactly when some record carries it.
pub proof fn lemma_snap_map_dom(s: Seq<FsItem>, p: Seq<char>)
    ensures
        snap_map(s).dom().contains(p) <==> exists|i: int| 0 <= i < s.len() && s[i].path@ == p,
    decreases s.len(),
{
    if s.len() > 0 {
        lemma_snap_map_dom(s.drop_last(), p);
        if s.last().path@ == p {
            assert(s[s.len() - 1].path@ == p);
        } else if snap_map(s).dom().contains(p) {
            let i = choose|i: int| 0 <= i < s.len() - 1 && s.drop_last()[i].path@ == p;
            assert(s[i].path@ == p);
        } else {
            if exists|i: int| 0 <= i < s.len() && s[i].path@ == p {
                let i = choose|i: int| 0 <= i < s.len() && s[i].path@ == p;
                assert(i < s.len() - 1);
                assert(s.drop_last()[i].path@ == p);
            }
        }
    }
}

/// In a snapshot of unique paths, each record is what the map holds under
/// its path.
pub proof fn lemma_snap_map_index(s: Seq<FsItem>, i: int)
    requires
        unique_paths(s),
        0 <= i < s.len(),
    ensures
        snap_map(s).dom().contains(s[i].path@),
        snap_map(s)[s[i].path@] == s[i].entry@,
    decreases s.len(),
{
    if i == s.len() - 1 {
    } else {
        assert(s.drop_last()[i] == s[i]);
        lemma_snap_map_index(s.drop_last(), i);
        assert(s.last().path@ != s[i].path@);
    }
}

impl FsSnapshot {
    /// The snapshot records pairwise distinct paths.
    pub open spec fn wf(&self) -> bool {
        unique_paths(self.items@)
    }

    /// Builds a snapshot from its records.
    pub fn new(items: Vec<FsItem>) -> (r: FsSnapshot)
        ensures
            r.items == items,
    {
        FsSnapshot { items }
    }

    /// Looks a path up in the snapshot.
    pub fn lookup(&self, path: &str) -> (r: Option<&FsEntry>)
        requires
            self.wf(),
        ensures
            match r {
                Some(e) => self@.dom().contains(path@) && e@ == self@[path@],
                None => !self@.dom().contains(path@),
            },
    {
        let mut i: usize = 0;
        while i < self.items.len()
            invariant
                unique_paths(self.items@),
                i <= self.items@.len(),
                forall|j: int| 0 <= j < i ==> (#[trigger] self.items@[j]).path@ != path@,
            decreases self.items@.len() - i,
        {
            if str_eq(self.items[i].path.as_str(), path) {
                proof {
                    lemma_snap_map_index(self.items@, i as int);
                }
                return Some(&self.items[i].entry);
            }
            i += 1;
        }
        proof {
            lemma_snap_map_dom(self.items@, path@);
            if snap_map(self.items@).dom().contains(path@) {
                let j = choose|j: int|
                    0 <= j < self.items@.len() && self.items@[j].path@ == path@;
                assert(self.items@[j].path@ != path@);
            }
        }
        None
    }
}

// ---------------------------------------------------------------------------
// Path arithmetic.
// ---------------------------------------------------------------------------
/// The directory holding `p`: everything before the last slash, the root
/// staying the root, a bare name having the empty parent.
pub open spec fn parent_of(p: Seq<char>) -> Seq<char> {
    match rfind_char(p, '/') {
        None => Seq::empty(),
        Some(i) => if i == 0 {
            seq!['/']
        } else {
            p.take(i)
        },
    }
}

/// `target` resolved against `parent` the way a link target is read: an
/// absolute target stands alone, a relative one is appended across a slash.
pub open spec fn join_path(parent: Seq<char>, target: Seq<char>) -> Seq<char> {
    if target.len() > 0 && target[0] == '/' {
        target
    } else if parent.len() == 0 {
        target
    } else {
        parent + seq!['/'] + target
    }
}

/// `p` lies within `base`: it is `base` itself or continues it across a
/// slash.
pub open spec fn contained_in(p: Seq<char>, base: Seq<char>) -> bool {
    p == base || path_under_dir(p, base)
}

/// The directory part of `p`.
pub fn parent_dir(p: &str) -> (r: String)
    ensures
        r@ == parent_of(p@),
{
    let plen = p.unicode_len();
    proof {
        crate::strings::lemma_rfind_char(p@, '/');
        assert(p@.len() == plen as nat);
    }
    match rfind_char_exec(p, '/') {
        None => {
            proof {
                assert(rfind_char(p@, '/') is None);
                assert(parent_of(p@) =~= Seq::<char>::empty());
            }
            String::new()
        },
        Some(i) => {
            proof {
                crate::strings::lemma_rfind_char(p@, '/');
                match rfind_char(p@, '/') {
                    Some(k) => {
                        assert(0 <= k < p@.len());
                        assert(k as usize == i);
                        assert(k == i as int);
                    },
                    None => {
                        assert(false);
                    },
                }
                assert(rfind_char(p@, '/') == Some(i as int));
            }
            if i == 0 {
                let root = "/".to_owned();
                proof {
                    reveal_strlit("/");
                    assert(root@ =~= seq!['/']);
                }
                root
            } else {
                let r = p.substring_char(0, i);
                proof {
                    assert(r@ =~= p@.take(i as int));
                }
                r.to_owned()
            }
        },
    }
}

/// Joins a link target onto the directory holding the link.
pub fn join_target(parent: &str, target: &str) -> (r: String)
    ensures
        r@ == join_path(parent@, target@),
{
    let tlen = target.unicode_len();
    if tlen > 0 && target.get_char(0) == '/' {
        target.to_owned()
    } else if parent.unicode_len() == 0 {
        target.to_owned()
    } else {
        let r = crate::strings::concat3(parent, "/", target);
        proof {
            reveal_strlit("/");
            assert("/"@ =~= seq!['/']);
        }
        r
    }
}

/// Whether `p` lies within `base`.
pub fn contained(p: &str, base: &str) -> (r: bool)
    ensures
        r == contained_in(p@, base@),
{
    if str_eq(p, base) {
        return true;
    }
    let plen = p.unicode_len();
    let blen = base.unicode_len();
    if plen > blen && str_starts_with(p, base) && p.get_char(blen) == '/' {
        proof {
            assert(p@.take(blen as int) == base@);
        }
        true
    } else {
        false
    }
}

// ---------------------------------------------------------------------------
// What the outside crates are relied on for.
// ---------------------------------------------------------------------------
/// What lexically cleaning a path yields: repeated separators collapsed and
/// `.` / `..` components resolved, without touching the filesystem.
pub uninterp spec fn cleaned_path(p: Seq<char>) -> Seq<char>;

/// Relies on path_clean::clean: the lexical cleanup of a path depends on the
/// path text alone.
#[verifier::external_body]
fn clean_path(p: &str) -> (r: String)
    ensures
        r@ == cleaned_path(p@),
{
    path_clean::clean(p).to_string_lossy().into_owned()
}

/// Whether the glob crate accepts `pat` as a pattern.
pub uninterp spec fn glob_valid(pat: Seq<char>) -> bool;

/// Whether the glob pattern `pat` matches `path`, with the path separator
/// taken literally, as matching against walked directory entries takes it.
pub uninterp spec fn glob_matches(pat: Seq<char>, path: Seq<char>) -> bool;

/// Relies on glob::Pattern::new: whether a pattern parses depends on its
/// text alone.
#[verifier::external_body]
fn glob_pattern_ok(pattern: &str) -> (r: bool)
    ensures
        r == glob_valid(pattern@),
{
    glob::Pattern::new(pattern).is_ok()
}

/// Relies on glob::Pattern::matches_with, under the options the crate's
/// directory-walking expansion applies (a separator never matched by a
/// wildcard): the outcome depends on the pattern and the path alone.
#[verifier::external_body]
fn glob_match(pattern: &str, path: &str) -> (r: bool)
    requires
        glob_valid(pattern@),
    ensures
        r == glob_matches(pattern@, path@),
{
    let options = glob::MatchOptions {
        case_sensitive: true,
        require_literal_separator: true,
        require_literal_leading_dot: false,
    };
    glob::Pattern::new(pattern).unwrap().matches_with(path, options)
}

// ---------------------------------------------------------------------------
// Symbolic-link chains.
// ---------------------------------------------------------------------------
/// The entry exists when reached: a file or directory outright, a link only
/// when it resolves.
pub open spec fn entry_exists(e: EntryModel) -> bool {
    match e {
        EntryModel::File { .. } => true,
        EntryModel::Dir => true,
        EntryModel::Link { resolves, .. } => resolves,
    }
}

/// The path names something that exists when reached through the snapshot.
pub open spec fn path_resolves(m: Map<Seq<char>, EntryModel>, p: Seq<char>) -> bool {
    m.dom().contains(p) && entry_exists(m[p])
}

/// The rest of a symbolic-link chain from `cur`, the retained paths
/// accumulated in `acc`: each hop resolves the link target against the
/// directory holding the link and cleans it lexically; a target outside
/// `base`, a target that does not exist, a revisited path or an exhausted
/// hop budget ends the chain without that target.
pub open spec fn chain_rest(
    m: Map<Seq<char>, EntryModel>,
    base: Seq<char>,
    cur: Seq<char>,
    acc: Seq<Seq<char>>,
    fuel: nat,
) -> Seq<Seq<char>>
    decreases fuel,
{
    if fuel == 0 {
        acc
    } else if !m.dom().contains(cur) {
        acc
    } else {
        match m[cur] {
            EntryModel::Link { target, .. } => {
                let next = cleaned_path(join_path(parent_of(cur), target));
                if !contained_in(next, base) {
                    acc
                } else if !path_resolves(m, next) {
                    acc
                } else if acc.contains(next) {
                    acc
                } else {
                    chain_rest(m, base, next, acc.push(next), (fuel - 1) as nat)
                }
            },
            _ => acc,
        }
    }
}

/// The paths a symbolic-link chain from `start` retains, the starting path
/// always among them, with a ten-hop budget.
pub open spec fn chain_spec(m: Map<Seq<char>, EntryModel>, base: Seq<char>, start: Seq<char>) -> Seq<
    Seq<char>,
> {
    chain_rest(m, base, start, seq![start], 10)
}

/// The same paths as a set.
pub open spec fn chain_set(m: Map<Seq<char>, EntryModel>, base: Seq<char>, start: Seq<char>) -> Set<
    Seq<char>,
> {
    chain_spec(m, base, start).to_set()
}

fn entry_exists_exec(e: &FsEntry) -> (r: bool)
    ensures
        r == entry_exists(e@),
{
    match e {
        FsEntry::File { .. } => true,
        FsEntry::Dir => true,
        FsEntry::Symlink { resolves, .. } => *resolves,
    }
}

/// Follows the symbolic-link chain from `path` within `base_dir`, returning
/// the ordered paths to retain: the starting path, then every hop target up
/// to but not including one that leaves `base_dir`, does not exist, or was
/// already visited in this chain; at most ten hops are followed.
pub fn resolve_symlinks(snap: &FsSnapshot, path: &str, base_dir: &str) -> (r: Vec<String>)
    requires
        snap.wf(),
    ensures
        r.deep_view() == chain_spec(snap@, base_dir@, path@),
{
    let ghost m = snap@;
    let ghost full = chain_spec(m, base_dir@, path@);
    let mut acc: Vec<String> = Vec::new();
    acc.push(path.to_owned());
    let mut cur: String = path.to_owned();
    proof {
        assert(acc.deep_view() =~= seq![path@]);
    }
    let mut hops: usize = 0;
    while hops < 10
        invariant
            snap.wf(),
            m == snap@,
            full == chain_spec(m, base_dir@, path@),
            hops <= 10,
            full == chain_rest(m, base_dir@, cur@, acc.deep_view(), (10 - hops) as nat),
        decreases 10 - hops,
    {
        let entry = snap.lookup(cur.as_str());
        let step = match entry {
            None => None,
            Some(e) => match e {
                FsEntry::Symlink { target, .. } => Some(target.clone()),
                _ => None,
            },
        };
        let target = match step {
            None => {
                return acc;
            },
            Some(t) => t,
        };
        let parent = parent_dir(cur.as_str());
        let joined = join_target(parent.as_str(), target.as_str());
        let next = clean_path(joined.as_str());
        proof {
            assert(next@ == cleaned_path(join_path(parent_of(cur@), target@)));
        }
        if !contained(next.as_str(), base_dir) {
            return acc;
        }
        let next_exists = match snap.lookup(next.as_str()) {
            None => false,
            Some(e) => entry_exists_exec(e),
        };
        if !next_exists {
            return acc;
        }
        if vec_contains_str(&acc, next.as_str()) {
            return acc;
        }
        let ghost pre = acc.deep_view();
        acc.push(next.clone());
        proof {
            assert(acc.deep_view() =~= pre.push(next@));
        }
        cur = next;
        hops += 1;
    }
    acc
}

// ---------------------------------------------------------------------------
// Kernel-module classification.
// ---------------------------------------------------------------------------
/// The suffix `.ko`.
pub open spec fn ko_suffix() -> Seq<char> {
    seq!['.', 'k', 'o']
}

/// The suffix `.ko.xz`.
pub open spec fn ko_xz_suffix() -> Seq<char> {
    seq!['.', 'k', 'o', '.', 'x', 'z']
}

/// The suffix `.ko.zst`.
pub open spec fn ko_zst_suffix() -> Seq<char> {
    seq!['.', 'k', 'o', '.', 'z', 's', 't']
}

/// The suffix `.xz` of a compressed firmware blob.
pub open spec fn xz_suffix() -> Seq<char> {
    seq!['.', 'x', 'z']
}

/// The suffix `.zst` of a compressed firmware blob.
pub open spec fn zst_suffix() -> Seq<char> {
    seq!['.', 'z', 's', 't']
}

/// A path names a kernel module: it ends in `.ko`, plain or compressed.
pub open spec fn is_module_path(p: Seq<char>) -> bool {
    crate::strings::is_suffix_of(ko_suffix(), p) || crate::strings::is_suffix_of(
        ko_xz_suffix(),
        p,
    ) || crate::strings::is_suffix_of(ko_zst_suffix(), p)
}

/// The module paths among `files`, in order.
pub open spec fn module_list(files: Seq<Seq<char>>) -> Seq<Seq<char>>
    decreases files.len(),
{
    if files.len() == 0 {
        seq![]
    } else if is_module_path(files.last()) {
        module_list(files.drop_last()).push(files.last())
    } else {
        module_list(files.drop_last())
    }
}

/// Whether the file at `p` is a kernel module, by its name.
pub fn is_module_file(p: &str) -> (r: bool)
    ensures
        r == is_module_path(p@),
{
    proof {
        reveal_strlit(".ko");
        reveal_strlit(".ko.xz");
        reveal_strlit(".ko.zst");
        assert(".ko"@ =~= ko_suffix());
        assert(".ko.xz"@ =~= ko_xz_suffix());
        assert(".ko.zst"@ =~= ko_zst_suffix());
    }
    crate::strings::str_ends_with(p, ".ko") || crate::strings::str_ends_with(p, ".ko.xz")
        || crate::strings::str_ends_with(p, ".ko.zst")
}

/// Picks the kernel modules out of the regular files of the kernel
/// directory, by filename.
pub fn find_kernel_modules(files: &Vec<String>) -> (r: Vec<String>)
    ensures
        r.deep_view() == module_list(files.deep_view()),
{
    let ghost fv = files.deep_view();
    let mut r: Vec<String> = Vec::new();
    let mut i: usize = 0;
    proof {
        assert(r.deep_view() =~= module_list(fv.take(0)));
    }
    while i < files.len()
        invariant
            fv == files.deep_view(),
            i <= files@.len(),
            r.deep_view() == module_list(fv.take(i as int)),
        decreases files@.len() - i,
    {
        let ghost pre = r.deep_view();
        proof {
            assert(fv.take(i + 1).drop_last() =~= fv.take(i as int));
            assert(fv.take(i + 1).last() == fv[i as int]);
        }
        if is_module_file(files[i].as_str()) {
            r.push(files[i].clone());
            proof {
                assert(r.deep_view() =~= pre.push(fv[i as int]));
            }
        }
        i += 1;
    }
    proof {
        assert(fv.take(files@.len() as int) =~= fv);
    }
    r
}

/// The firmware names a module's metadata text declares, one per line.
pub fn parse_firmware_list(text: &str) -> (r: Vec<String>)
    ensures
        r.deep_view() == crate::strings::split_lines_spec(text@),
{
    crate::strings::split_lines(text)
}

// ---------------------------------------------------------------------------
// Expanding a firmware name to the files it matches.
// ---------------------------------------------------------------------------
/// A snapshot path matches a wildcard firmware name: it lies under the
/// firmware root and the name, as given or with a compression suffix
/// appended, glob-matches its path relative to the root.
pub open spec fn wildcard_matches(name: Seq<char>, fwdir: Seq<char>, p: Seq<char>) -> bool {
    path_under_dir(p, fwdir) && (glob_matches(name, rel_path(p, fwdir)) || glob_matches(
        name + xz_suffix(),
        rel_path(p, fwdir),
    ) || glob_matches(name + zst_suffix(), rel_path(p, fwdir)))
}

/// The files a firmware name requires, against the snapshot: for a literal
/// name, whichever of the named path and its compressed variants exists; for
/// a wildcard name, every snapshot path it matches.
pub open spec fn matched_files(
    m: Map<Seq<char>, EntryModel>,
    fwdir: Seq<char>,
    name: Seq<char>,
) -> Set<Seq<char>> {
    if has_char(name, '*') {
        Set::new(|p: Seq<char>| m.dom().contains(p) && wildcard_matches(name, fwdir, p))
    } else {
        Set::new(
            |p: Seq<char>|
                path_resolves(m, p) && (p == join_path(fwdir, name) || p == join_path(fwdir, name)
                    + xz_suffix() || p == join_path(fwdir, name) + zst_suffix()),
        )
    }
}

/// The snapshot paths a wildcard name matches, in snapshot order.
pub open spec fn wildcard_list(s: Seq<FsItem>, fwdir: Seq<char>, name: Seq<char>) -> Seq<Seq<char>>
    decreases s.len(),
{
    if s.len() == 0 {
        seq![]
    } else if wildcard_matches(name, fwdir, s.last().path@) {
        wildcard_list(s.drop_last(), fwdir, name).push(s.last().path@)
    } else {
        wildcard_list(s.drop_last(), fwdir, name)
    }
}

/// The matched paths carry no duplicate and are exactly the snapshot paths
/// the wildcard matches.
pub proof fn lemma_wildcard_list_props(s: Seq<FsItem>, fwdir: Seq<char>, name: Seq<char>)
    requires
        unique_paths(s),
    ensures
        wildcard_list(s, fwdir, name).no_duplicates(),
        forall|p: Seq<char>| #[trigger]
            wildcard_list(s, fwdir, name).contains(p) <==> (snap_map(s).dom().contains(p)
                && wildcard_matches(name, fwdir, p)),
    decreases s.len(),
{
    if s.len() > 0 {
        let dl = s.drop_last();
        assert forall|i: int, j: int|
            0 <= i < dl.len() && 0 <= j < dl.len() && i != j implies dl[i].path@
            != dl[j].path@ by {
            assert(dl[i] == s[i] && dl[j] == s[j]);
        }
        lemma_wildcard_list_props(dl, fwdir, name);
        let rest = wildcard_list(dl, fwdir, name);
        let last = s.last();
        lemma_snap_map_dom(dl, last.path@);
        if snap_map(dl).dom().contains(last.path@) {
            let d = choose|d: int| 0 <= d < dl.len() && dl[d].path@ == last.path@;
            assert(s[d].path@ == s[s.len() - 1].path@);
            assert(false);
        }
        assert(!rest.contains(last.path@));
        if wildcard_matches(name, fwdir, last.path@) {
            let cur = rest.push(last.path@);
            assert forall|i: int, j: int|
                0 <= i < cur.len() && 0 <= j < cur.len() && i != j implies cur[i] != cur[j] by {
                if i < rest.len() && j < rest.len() {
                    assert(cur[i] == rest[i] && cur[j] == rest[j]);
                } else if i < rest.len() {
                    assert(rest.contains(rest[i]) && cur[j] == last.path@);
                } else if j < rest.len() {
                    assert(rest.contains(rest[j]) && cur[i] == last.path@);
                }
            }
        }
        assert forall|p: Seq<char>| #[trigger]
            wildcard_list(s, fwdir, name).contains(p) <==> (snap_map(s).dom().contains(p)
                && wildcard_matches(name, fwdir, p)) by {
            lemma_snap_map_dom(dl, p);
            lemma_snap_map_dom(s, p);
            if p == last.path@ {
                if wildcard_matches(name, fwdir, p) {
                    let cur = wildcard_list(s, fwdir, name);
                    assert(cur[cur.len() - 1] == p);
                    assert(cur.contains(p));
                }
            } else {
                if wildcard_list(s, fwdir, name).contains(p) {
                    let cur = wildcard_list(s, fwdir, name);
                    let t = choose|t: int| 0 <= t < cur.len() && cur[t] == p;
                    assert(t < rest.len() && rest[t] == p);
                    assert(rest.contains(p));
                }
                if rest.contains(p) {
                    let t = choose|t: int| 0 <= t < rest.len() && rest[t] == p;
                    let cur = wildcard_list(s, fwdir, name);
                    assert(cur[t] == p);
                    assert(cur.contains(p));
                }
            }
        }
    }
}

/// The candidate patterns of a wildcard firmware name all parse.
pub open spec fn name_patterns_valid(name: Seq<char>) -> bool {
    !has_char(name, '*') || (glob_valid(name) && glob_valid(name + xz_suffix()) && glob_valid(
        name + zst_suffix(),
    ))
}

/// Finds the files the firmware name requires. A literal name is tried as
/// given and with each compression suffix, keeping the candidates that
/// exist; a wildcard name is matched against every snapshot path, as given
/// and with each compression suffix. A wildcard whose pattern does not parse
/// is an error naming it.
pub fn find_firmware_files_from_name(snap: &FsSnapshot, fw_name: &str, fw_dir: &str) -> (r: Result<
    Vec<String>,
    JanitorError,
>)
    requires
        snap.wf(),
    ensures
        r is Ok <==> name_patterns_valid(fw_name@),
        match r {
            Ok(v) => v.deep_view().no_duplicates() && v.deep_view().to_set() == matched_files(
                snap@,
                fw_dir@,
                fw_name@,
            ),
            Err(e) => e matches JanitorError::Pattern(_),
        },
{
    let name_xz = concat2(fw_name, ".xz");
    let name_zst = concat2(fw_name, ".zst");
    proof {
        reveal_strlit(".xz");
        reveal_strlit(".zst");
        assert(".xz"@ =~= xz_suffix());
        assert(".zst"@ =~= zst_suffix());
        assert(name_xz@ == fw_name@ + xz_suffix());
        assert(name_zst@ == fw_name@ + zst_suffix());
    }
    if !crate::strings::str_has_char(fw_name, '*') {
        let cand = join_target(fw_dir, fw_name);
        let cand_xz = concat2(cand.as_str(), ".xz");
        let cand_zst = concat2(cand.as_str(), ".zst");
        proof {
            assert(cand_xz@ == join_path(fw_dir@, fw_name@) + xz_suffix());
            assert(cand_zst@ == join_path(fw_dir@, fw_name@) + zst_suffix());
            assert(cand_xz@.len() == cand@.len() + 3);
            assert(cand_zst@.len() == cand@.len() + 4);
        }
        let mut v: Vec<String> = Vec::new();
        let e0 = match snap.lookup(cand.as_str()) {
            None => false,
            Some(e) => entry_exists_exec(e),
        };
        if e0 {
            v.push(cand.clone());
        }
        let ghost v0 = v.deep_view();
        let e1 = match snap.lookup(cand_xz.as_str()) {
            None => false,
            Some(e) => entry_exists_exec(e),
        };
        if e1 {
            v.push(cand_xz.clone());
        }
        let ghost v1 = v.deep_view();
        let e2 = match snap.lookup(cand_zst.as_str()) {
            None => false,
            Some(e) => entry_exists_exec(e),
        };
        if e2 {
            v.push(cand_zst.clone());
        }
        proof {
            let vv = v.deep_view();
            let spec_set = matched_files(snap@, fw_dir@, fw_name@);
            assert forall|p: Seq<char>| vv.contains(p) implies spec_set.contains(p) by {
                let t = choose|t: int| 0 <= t < vv.len() && vv[t] == p;
            }
            assert forall|p: Seq<char>| spec_set.contains(p) implies vv.contains(p) by {
                if p == cand@ {
                    assert(vv[0] == p);
                } else if p == cand_xz@ {
                    if e0 {
                        assert(vv[1] == p);
                    } else {
                        assert(vv[0] == p);
                    }
                } else {
                    assert(p == cand_zst@);
                    assert(vv[vv.len() - 1] == p);
                }
            }
            assert(vv.to_set() =~= spec_set);
            assert(vv.no_duplicates());
        }
        return Ok(v);
    }
    if !glob_pattern_ok(fw_name) {
        return Err(JanitorError::Pattern(fw_name.to_owned()));
    }
    if !glob_pattern_ok(name_xz.as_str()) {
        return Err(JanitorError::Pattern(fw_name.to_owned()));
    }
    if !glob_pattern_ok(name_zst.as_str()) {
        return Err(JanitorError::Pattern(fw_name.to_owned()));
    }
    let dlen = fw_dir.unicode_len();
    let mut v: Vec<String> = Vec::new();
    let mut i: usize = 0;
    proof {
        assert(v.deep_view() =~= wildcard_list(snap.items@.take(0), fw_dir@, fw_name@));
    }
    while i < snap.items.len()
        invariant
            snap.wf(),
            has_char(fw_name@, '*'),
            glob_valid(fw_name@),
            glob_valid(fw_name@ + xz_suffix()),
            glob_valid(fw_name@ + zst_suffix()),
            name_xz@ == fw_name@ + xz_suffix(),
            name_zst@ == fw_name@ + zst_suffix(),
            dlen == fw_dir@.len(),
            i <= snap.items@.len(),
            v.deep_view() == wildcard_list(snap.items@.take(i as int), fw_dir@, fw_name@),
        decreases snap.items@.len() - i,
    {
        let ghost pre = v.deep_view();
        proof {
            assert(snap.items@.take(i + 1).drop_last() =~= snap.items@.take(i as int));
            assert(snap.items@.take(i + 1).last() == snap.items@[i as int]);
        }
        let p = &snap.items[i].path;
        let plen = p.as_str().unicode_len();
        let under = plen > dlen && str_starts_with(p.as_str(), fw_dir) && p.as_str().get_char(dlen)
            == '/';
        if under {
            let rel = p.as_str().substring_char(dlen + 1, plen);
            proof {
                assert(rel@ =~= rel_path(snap.items@[i as int].path@, fw_dir@));
            }
            let hit = glob_match(fw_name, rel) || glob_match(name_xz.as_str(), rel) || glob_match(
                name_zst.as_str(),
                rel,
            );
            if hit {
                v.push(p.clone());
                proof {
                    assert(v.deep_view() =~= pre.push(snap.items@[i as int].path@));
                }
            }
        }
        i += 1;
    }
    proof {
        assert(snap.items@.take(snap.items@.len() as int) =~= snap.items@);
        lemma_wildcard_list_props(snap.items@, fw_dir@, fw_name@);
        let vv = v.deep_view();
        let spec_set = matched_files(snap@, fw_dir@, fw_name@);
        assert forall|p: Seq<char>| vv.to_set().contains(p) implies spec_set.contains(p) by {
            assert(vv.contains(p));
        }
        assert forall|p: Seq<char>| spec_set.contains(p) implies vv.to_set().contains(p) by {
            assert(vv.contains(p));
        }
        assert(vv.to_set() =~= spec_set);
    }
    Ok(v)
}

// ---------------------------------------------------------------------------
// The required set.
// ---------------------------------------------------------------------------
/// One kernel module with the firmware names its metadata declares.
pub struct ModuleFirmware {
    pub path: String,
    pub firmware: Vec<String>,
}

/// Everything a firmware name requires: each matched file's whole symbolic-
/// link chain.
pub open spec fn req_of_name(
    m: Map<Seq<char>, EntryModel>,
    fwdir: Seq<char>,
    name: Seq<char>,
) -> Set<Seq<char>> {
    Set::new(
        |p: Seq<char>|
            exists|f: Seq<char>| #[trigger]
                matched_files(m, fwdir, name).contains(f) && chain_set(m, fwdir, f).contains(p),
    )
}

/// Everything a list of firmware names requires.
pub open spec fn req_of_names(
    m: Map<Seq<char>, EntryModel>,
    fwdir: Seq<char>,
    names: Seq<Seq<char>>,
) -> Set<Seq<char>>
    decreases names.len(),
{
    if names.len() == 0 {
        Set::empty()
    } else {
        req_of_names(m, fwdir, names.drop_last()).union(req_of_name(m, fwdir, names.last()))
    }
}

/// Everything the modules' declared firmware requires.
pub open spec fn required_spec(
    m: Map<Seq<char>, EntryModel>,
    fwdir: Seq<char>,
    mods: Seq<ModuleFirmware>,
) -> Set<Seq<char>>
    decreases mods.len(),
{
    if mods.len() == 0 {
        Set::empty()
    } else {
        required_spec(m, fwdir, mods.drop_last()).union(
            req_of_names(m, fwdir, mods.last().firmware.deep_view()),
        )
    }
}

/// The chains of a list of starting files, as one set.
pub open spec fn chains_over(
    m: Map<Seq<char>, EntryModel>,
    fwdir: Seq<char>,
    files: Seq<Seq<char>>,
) -> Set<Seq<char>>
    decreases files.len(),
{
    if files.len() == 0 {
        Set::empty()
    } else {
        chains_over(m, fwdir, files.drop_last()).union(chain_set(m, fwdir, files.last()))
    }
}

/// The chains over a file list cover exactly the chains over its members.
pub proof fn lemma_chains_over_members(
    m: Map<Seq<char>, EntryModel>,
    fwdir: Seq<char>,
    files: Seq<Seq<char>>,
    p: Seq<char>,
)
    ensures
        chains_over(m, fwdir, files).contains(p) <==> exists|f: Seq<char>|
            #[trigger] files.contains(f) && chain_set(m, fwdir, f).contains(p),
    decreases files.len(),
{
    if files.len() > 0 {
        lemma_chains_over_members(m, fwdir, files.drop_last(), p);
        let dl = files.drop_last();
        if chains_over(m, fwdir, files).contains(p) {
            if chain_set(m, fwdir, files.last()).contains(p) {
                assert(files[files.len() - 1] == files.last());
                assert(files.contains(files.last()));
            } else {
                let f = choose|f: Seq<char>| #[trigger]
                    dl.contains(f) && chain_set(m, fwdir, f).contains(p);
                let t = choose|t: int| 0 <= t < dl.len() && dl[t] == f;
                assert(files[t] == f);
                assert(files.contains(f));
            }
        }
        if exists|f: Seq<char>| #[trigger] files.contains(f) && chain_set(m, fwdir, f).contains(p) {
            let f = choose|f: Seq<char>| #[trigger]
                files.contains(f) && chain_set(m, fwdir, f).contains(p);
            let t = choose|t: int| 0 <= t < files.len() && files[t] == f;
            if t < files.len() - 1 {
                assert(dl[t] == f);
                assert(dl.contains(f));
            } else {
                assert(f == files.last());
            }
        }
    }
}

/// Adds every member of `items` not yet present.
fn add_all(req: &mut Vec<String>, items: &Vec<String>)
    requires
        old(req).deep_view().no_duplicates(),
    ensures
        final(req).deep_view().no_duplicates(),
        final(req).deep_view().to_set() == old(req).deep_view().to_set().union(
            items.deep_view().to_set(),
        ),
{
    let ghost orig = req.deep_view();
    let mut i: usize = 0;
    while i < items.len()
        invariant
            i <= items@.len(),
            req.deep_view().no_duplicates(),
            req.deep_view().to_set() == orig.to_set().union(
                items.deep_view().take(i as int).to_set(),
            ),
        decreases items@.len() - i,
    {
        let ghost pre = req.deep_view();
        let ghost x = items.deep_view()[i as int];
        let ghost tk1 = items.deep_view().take(i + 1);
        proof {
            assert(x == items@[i as int]@);
            assert(tk1.drop_last() =~= items.deep_view().take(i as int));
            assert(tk1.last() == x);
            assert forall|p: Seq<char>| tk1.contains(p) implies (items.deep_view().take(
                i as int,
            ).contains(p) || p == x) by {
                let t = choose|t: int| 0 <= t < tk1.len() && tk1[t] == p;
                if t < i {
                    assert(items.deep_view().take(i as int)[t] == p);
                }
            }
            assert forall|p: Seq<char>|
                items.deep_view().take(i as int).contains(p) implies tk1.contains(p) by {
                let t = choose|t: int|
                    0 <= t < items.deep_view().take(i as int).len() && items.deep_view().take(
                        i as int,
                    )[t] == p;
                assert(tk1[t] == p);
            }
            assert(tk1.contains(x)) by {
                assert(tk1[tk1.len() - 1] == x);
            }
        }
        if !vec_contains_str(req, items[i].as_str()) {
            req.push(items[i].clone());
            proof {
                let cur = req.deep_view();
                assert(cur =~= pre.push(x));
                assert forall|a: int, b: int|
                    0 <= a < cur.len() && 0 <= b < cur.len() && a != b implies cur[a] != cur[b] by {
                    if a < pre.len() && b < pre.len() {
                        assert(cur[a] == pre[a] && cur[b] == pre[b]);
                    } else if a < pre.len() {
                        assert(pre.contains(pre[a]) && cur[b] == x);
                    } else if b < pre.len() {
                        assert(pre.contains(pre[b]) && cur[a] == x);
                    }
                }
                assert forall|p: Seq<char>| cur.contains(p) implies (pre.contains(p) || p == x) by {
                    let t = choose|t: int| 0 <= t < cur.len() && cur[t] == p;
                    if t < pre.len() {
                        assert(pre[t] == p);
                    }
                }
                assert forall|p: Seq<char>| pre.contains(p) implies cur.contains(p) by {
                    let t = choose|t: int| 0 <= t < pre.len() && pre[t] == p;
                    assert(cur[t] == p);
                }
                assert(cur.contains(x)) by {
                    assert(cur[cur.len() - 1] == x);
                }
                assert forall|p: Seq<char>|
                    cur.to_set().contains(p) == orig.to_set().union(tk1.to_set()).contains(
                    p,
                ) by {
                    assert(cur.to_set().contains(p) == cur.contains(p));
                    assert(tk1.to_set().contains(p) == tk1.contains(p));
                    assert(pre.to_set().contains(p) == pre.contains(p));
                    assert(orig.to_set().union(tk1.to_set()).contains(p) == (orig.to_set()
                        .contains(p) || tk1.contains(p)));
                    assert(pre.to_set().contains(p) == orig.to_set().union(
                        items.deep_view().take(i as int).to_set(),
                    ).contains(p));
                }
                assert(cur.to_set() =~= orig.to_set().union(tk1.to_set()));
            }
        } else {
            proof {
                assert(pre.contains(x));
                assert(pre.to_set() =~= orig.to_set().union(tk1.to_set()));
            }
        }
        i += 1;
    }
    proof {
        assert(items.deep_view().take(items@.len() as int) =~= items.deep_view());
    }
}

/// The candidate patterns of every declared firmware name parse.
pub open spec fn names_patterns_valid(names: Seq<Seq<char>>) -> bool {
    forall|i: int| 0 <= i < names.len() ==> name_patterns_valid(#[trigger] names[i])
}

/// The candidate patterns of every module's declared names parse.
pub open spec fn modules_patterns_valid(mods: Seq<ModuleFirmware>) -> bool {
    forall|i: int|
        0 <= i < mods.len() ==> names_patterns_valid((#[trigger] mods[i]).firmware.deep_view())
}

/// Computes the set of required firmware paths: for every module, each
/// declared firmware name is expanded against the snapshot, and each matched
/// file's symbolic-link chain is retained. Fails exactly when some wildcard
/// name does not parse as a glob pattern.
pub fn get_required_firmware(snap: &FsSnapshot, fw_dir: &str, modules: &Vec<ModuleFirmware>) -> (r:
    Result<Vec<String>, JanitorError>)
    requires
        snap.wf(),
    ensures
        r is Ok <==> modules_patterns_valid(modules@),
        match r {
            Ok(v) => v.deep_view().no_duplicates() && v.deep_view().to_set() == required_spec(
                snap@,
                fw_dir@,
                modules@,
            ),
            Err(e) => e matches JanitorError::Pattern(_),
        },
{
    let mut req: Vec<String> = Vec::new();
    let mut i: usize = 0;
    proof {
        assert(req.deep_view().to_set() =~= required_spec(snap@, fw_dir@, modules@.take(0)));
    }
    while i < modules.len()
        invariant
            snap.wf(),
            i <= modules@.len(),
            req.deep_view().no_duplicates(),
            req.deep_view().to_set() == required_spec(snap@, fw_dir@, modules@.take(i as int)),
            forall|t: int|
                0 <= t < i ==> names_patterns_valid(
                    (#[trigger] modules@[t]).firmware.deep_view(),
                ),
        decreases modules@.len() - i,
    {
        let names = &modules[i].firmware;
        let ghost nv = names.deep_view();
        let ghost base = req.deep_view().to_set();
        let mut j: usize = 0;
        proof {
            assert(base.union(req_of_names(snap@, fw_dir@, nv.take(0))) =~= base);
        }
        while j < names.len()
            invariant
                snap.wf(),
                i < modules@.len(),
                nv == modules@[i as int].firmware.deep_view(),
                names == &modules@[i as int].firmware,
                j <= nv.len(),
                req.deep_view().no_duplicates(),
                req.deep_view().to_set() == base.union(
                    req_of_names(snap@, fw_dir@, nv.take(j as int)),
                ),
                forall|t: int| 0 <= t < j ==> name_patterns_valid(#[trigger] nv[t]),
            decreases nv.len() - j,
        {
            proof {
                assert(nv[j as int] == names@[j as int]@);
                assert(nv.take(j + 1).drop_last() =~= nv.take(j as int));
                assert(nv.take(j + 1).last() == nv[j as int]);
            }
            let files = match find_firmware_files_from_name(snap, names[j].as_str(), fw_dir) {
                Ok(files) => files,
                Err(e) => {
                    proof {
                        assert(!name_patterns_valid(nv[j as int]));
                        assert(!names_patterns_valid(modules@[i as int].firmware.deep_view()));
                        assert(!modules_patterns_valid(modules@));
                    }
                    return Err(e);
                },
            };
            let ghost fv = files.deep_view();
            let ghost before = req.deep_view().to_set();
            let mut t: usize = 0;
            proof {
                assert(before.union(chains_over(snap@, fw_dir@, fv.take(0))) =~= before);
            }
            while t < files.len()
                invariant
                    snap.wf(),
                    fv == files.deep_view(),
                    t <= fv.len(),
                    req.deep_view().no_duplicates(),
                    req.deep_view().to_set() == before.union(
                        chains_over(snap@, fw_dir@, fv.take(t as int)),
                    ),
                decreases fv.len() - t,
            {
                let chain = resolve_symlinks(snap, files[t].as_str(), fw_dir);
                proof {
                    assert(fv[t as int] == files@[t as int]@);
                    assert(fv.take(t + 1).drop_last() =~= fv.take(t as int));
                    assert(fv.take(t + 1).last() == fv[t as int]);
                }
                add_all(&mut req, &chain);
                proof {
                    assert(chain.deep_view().to_set() == chain_set(snap@, fw_dir@, fv[t as int]));
                    assert(req.deep_view().to_set() =~= before.union(
                        chains_over(snap@, fw_dir@, fv.take(t + 1)),
                    ));
                }
                t += 1;
            }
            proof {
                assert(fv.take(fv.len() as int) =~= fv);
                // What the chains over the matched list cover is what the
                // name requires.
                assert forall|p: Seq<char>|
                    chains_over(snap@, fw_dir@, fv).contains(p) <==> req_of_name(
                        snap@,
                        fw_dir@,
                        nv[j as int],
                    ).contains(p) by {
                    lemma_chains_over_members(snap@, fw_dir@, fv, p);
                    if req_of_name(snap@, fw_dir@, nv[j as int]).contains(p) {
                        let f = choose|f: Seq<char>| #[trigger]
                            matched_files(snap@, fw_dir@, nv[j as int]).contains(f) && chain_set(
                                snap@,
                                fw_dir@,
                                f,
                            ).contains(p);
                        assert(fv.to_set().contains(f));
                        assert(fv.contains(f));
                    }
                    if exists|f: Seq<char>| #[trigger]
                        fv.contains(f) && chain_set(snap@, fw_dir@, f).contains(p) {
                        let f = choose|f: Seq<char>| #[trigger]
                            fv.contains(f) && chain_set(snap@, fw_dir@, f).contains(p);
                        assert(fv.to_set().contains(f));
                        assert(matched_files(snap@, fw_dir@, nv[j as int]).contains(f));
                    }
                }
                assert(before.union(chains_over(snap@, fw_dir@, fv)) =~= base.union(
                    req_of_names(snap@, fw_dir@, nv.take(j + 1)),
                ));
            }
            j += 1;
        }
        proof {
            assert(nv.take(nv.len() as int) =~= nv);
            assert(modules@.take(i + 1).drop_last() =~= modules@.take(i as int));
            assert(modules@.take(i + 1).last() == modules@[i as int]);
            assert(base.union(req_of_names(snap@, fw_dir@, nv)) =~= required_spec(
                snap@,
                fw_dir@,
                modules@.take(i + 1),
            ));
        }
        i += 1;
    }
    proof {
        assert(modules@.take(modules@.len() as int) =~= modules@);
        assert forall|t: int|
            0 <= t < modules@.len() implies names_patterns_valid(
            (#[trigger] modules@[t]).firmware.deep_view(),
        ) by {}
    }
    Ok(req)
}

// ---------------------------------------------------------------------------
// The deletion passes.
// ---------------------------------------------------------------------------
/// The entry is a regular file when reached: one outright, or a link that
/// resolves to one.
pub open spec fn is_file_entry(e: EntryModel) -> bool {
    match e {
        EntryModel::File { .. } => true,
        EntryModel::Dir => false,
        EntryModel::Link { resolves, target_is_file, .. } => resolves && target_is_file,
    }
}

/// The size the entry weighs when reached as a file.
pub open spec fn file_size_of(e: EntryModel) -> u64 {
    match e {
        EntryModel::File { size } => size,
        EntryModel::Dir => 0,
        EntryModel::Link { target_size, .. } => target_size,
    }
}

fn is_file_entry_exec(e: &FsEntry) -> (r: bool)
    ensures
        r == is_file_entry(e@),
{
    match e {
        FsEntry::File { .. } => true,
        FsEntry::Dir => false,
        FsEntry::Symlink { resolves, target_is_file, .. } => *resolves && *target_is_file,
    }
}

/// The snapshot's files that the required set lacks, in snapshot order.
pub open spec fn unused_list(s: Seq<FsItem>, req: Seq<Seq<char>>) -> Seq<Seq<char>>
    decreases s.len(),
{
    if s.len() == 0 {
        seq![]
    } else if is_file_entry(s.last().entry@) && !req.contains(s.last().path@) {
        unused_list(s.drop_last(), req).push(s.last().path@)
    } else {
        unused_list(s.drop_last(), req)
    }
}

/// The bytes those files weigh.
pub open spec fn unused_total(s: Seq<FsItem>, req: Seq<Seq<char>>) -> int
    decreases s.len(),
{
    if s.len() == 0 {
        0
    } else if is_file_entry(s.last().entry@) && !req.contains(s.last().path@) {
        unused_total(s.drop_last(), req) + file_size_of(s.last().entry@)
    } else {
        unused_total(s.drop_last(), req)
    }
}

/// A byte count capped at what a machine word holds.
pub open spec fn cap_u64(x: int) -> int {
    if x > u64::MAX as int {
        u64::MAX as int
    } else {
        x
    }
}

/// Lists the unused firmware files: every snapshot file whose path the
/// required set lacks, with their total size, saturated at the largest
/// representable count.
pub fn remove_unused_files(snap: &FsSnapshot, required: &Vec<String>) -> (r: (Vec<String>, u64))
    ensures
        r.0.deep_view() == unused_list(snap.items@, required.deep_view()),
        r.1 as int == cap_u64(unused_total(snap.items@, required.deep_view())),
{
    let ghost rv = required.deep_view();
    let mut unused: Vec<String> = Vec::new();
    let mut total: u64 = 0;
    let mut i: usize = 0;
    proof {
        assert(unused.deep_view() =~= unused_list(snap.items@.take(0), rv));
    }
    while i < snap.items.len()
        invariant
            rv == required.deep_view(),
            i <= snap.items@.len(),
            unused.deep_view() == unused_list(snap.items@.take(i as int), rv),
            unused_total(snap.items@.take(i as int), rv) >= 0,
            total as int == cap_u64(unused_total(snap.items@.take(i as int), rv)),
        decreases snap.items@.len() - i,
    {
        let ghost pre = unused.deep_view();
        proof {
            assert(snap.items@.take(i + 1).drop_last() =~= snap.items@.take(i as int));
            assert(snap.items@.take(i + 1).last() == snap.items@[i as int]);
        }
        let item = &snap.items[i];
        if is_file_entry_exec(&item.entry) && !vec_contains_str(required, item.path.as_str()) {
            unused.push(item.path.clone());
            let size = match &item.entry {
                FsEntry::File { size } => *size,
                FsEntry::Dir => 0,
                FsEntry::Symlink { target_size, .. } => *target_size,
            };
            total = if total <= u64::MAX - size {
                total + size
            } else {
                u64::MAX
            };
            proof {
                assert(unused.deep_view() =~= pre.push(snap.items@[i as int].path@));
            }
        }
        i += 1;
    }
    proof {
        assert(snap.items@.take(snap.items@.len() as int) =~= snap.items@);
    }
    (unused, total)
}

/// The snapshot's symbolic links that no longer resolve, in snapshot order.
pub open spec fn dangling_list(s: Seq<FsItem>) -> Seq<Seq<char>>
    decreases s.len(),
{
    if s.len() == 0 {
        seq![]
    } else if s.last().entry@ matches EntryModel::Link { resolves: false, .. } {
        dangling_list(s.drop_last()).push(s.last().path@)
    } else {
        dangling_list(s.drop_last())
    }
}

/// Lists the dangling symbolic links of the snapshot.
pub fn remove_dangling_symlinks(snap: &FsSnapshot) -> (r: Vec<String>)
    ensures
        r.deep_view() == dangling_list(snap.items@),
{
    let mut r: Vec<String> = Vec::new();
    let mut i: usize = 0;
    proof {
        assert(r.deep_view() =~= dangling_list(snap.items@.take(0)));
    }
    while i < snap.items.len()
        invariant
            i <= snap.items@.len(),
            r.deep_view() == dangling_list(snap.items@.take(i as int)),
        decreases snap.items@.len() - i,
    {
        let ghost pre = r.deep_view();
        proof {
            assert(snap.items@.take(i + 1).drop_last() =~= snap.items@.take(i as int));
            assert(snap.items@.take(i + 1).last() == snap.items@[i as int]);
        }
        let item = &snap.items[i];
        let dangling = match &item.entry {
            FsEntry::Symlink { resolves, .. } => !*resolves,
            _ => false,
        };
        if dangling {
            r.push(item.path.clone());
            proof {
                assert(r.deep_view() =~= pre.push(snap.items@[i as int].path@));
            }
        }
        i += 1;
    }
    proof {
        assert(snap.items@.take(snap.items@.len() as int) =~= snap.items@);
    }
    r
}

// ---------------------------------------------------------------------------
// Empty directories.
// ---------------------------------------------------------------------------
/// How many separators the path holds: its depth in the tree.
pub open spec fn slash_count(p: Seq<char>) -> int
    decreases p.len(),
{
    if p.len() == 0 {
        0
    } else if p.last() == '/' {
        slash_count(p.drop_last()) + 1
    } else {
        slash_count(p.drop_last())
    }
}

pub proof fn lemma_slash_count_nonneg(p: Seq<char>)
    ensures
        slash_count(p) >= 0,
    decreases p.len(),
{
    if p.len() > 0 {
        lemma_slash_count_nonneg(p.drop_last());
    }
}

/// Counts the separators of a path.
pub fn count_slashes(p: &str) -> (r: usize)
    ensures
        r as int == slash_count(p@),
{
    let len = p.unicode_len();
    let mut r: usize = 0;
    let mut i: usize = 0;
    proof {
        assert(p@.take(0) =~= Seq::<char>::empty());
    }
    while i < len
        invariant
            len == p@.len(),
            i <= len,
            r <= i,
            r as int == slash_count(p@.take(i as int)),
        decreases len - i,
    {
        proof {
            assert(p@.take(i + 1).drop_last() =~= p@.take(i as int));
            assert(p@.take(i + 1).last() == p@[i as int]);
        }
        if p.get_char(i) == '/' {
            r += 1;
        }
        i += 1;
    }
    proof {
        assert(p@.take(len as int) =~= p@);
    }
    r
}

/// The directory may go once files are gone: it is in the snapshot, is a
/// directory other than the root, and nothing but directories lies under it,
/// so that removing directories deepest-first leaves it empty at its turn.
pub open spec fn removable_dir(
    m: Map<Seq<char>, EntryModel>,
    root: Seq<char>,
    d: Seq<char>,
) -> bool {
    m.dom().contains(d) && m[d] is Dir && d != root && (forall|p: Seq<char>|
        m.dom().contains(p) && path_under_dir(p, d) ==> m[p] is Dir)
}

/// Whether `p` lies strictly under `d`.
pub fn is_path_under(p: &str, d: &str) -> (r: bool)
    ensures
        r == path_under_dir(p@, d@),
{
    let plen = p.unicode_len();
    let dlen = d.unicode_len();
    if plen > dlen && str_starts_with(p, d) && p.get_char(dlen) == '/' {
        true
    } else {
        false
    }
}

/// Whether nothing but directories lies under `d` in the snapshot.
fn no_nondir_under(snap: &FsSnapshot, d: &str) -> (r: bool)
    requires
        snap.wf(),
    ensures
        r == (forall|p: Seq<char>|
            snap@.dom().contains(p) && path_under_dir(p, d@) ==> snap@[p] is Dir),
{
    let mut i: usize = 0;
    while i < snap.items.len()
        invariant
            snap.wf(),
            i <= snap.items@.len(),
            forall|j: int|
                0 <= j < i ==> (path_under_dir((#[trigger] snap.items@[j]).path@, d@)
                    ==> snap.items@[j].entry@ is Dir),
        decreases snap.items@.len() - i,
    {
        let item = &snap.items[i];
        let is_dir = match &item.entry {
            FsEntry::Dir => true,
            _ => false,
        };
        if !is_dir && is_path_under(item.path.as_str(), d) {
            proof {
                lemma_snap_map_index(snap.items@, i as int);
            }
            return false;
        }
        i += 1;
    }
    proof {
        assert forall|p: Seq<char>|
            snap@.dom().contains(p) && path_under_dir(p, d@) implies snap@[p] is Dir by {
            lemma_snap_map_dom(snap.items@, p);
            let j = choose|j: int| 0 <= j < snap.items@.len() && snap.items@[j].path@ == p;
            lemma_snap_map_index(snap.items@, j);
        }
    }
    true
}

/// The removable directories of depth `d`, in snapshot order.
pub open spec fn removable_at(
    s: Seq<FsItem>,
    m: Map<Seq<char>, EntryModel>,
    root: Seq<char>,
    d: int,
) -> Seq<Seq<char>>
    decreases s.len(),
{
    if s.len() == 0 {
        seq![]
    } else if removable_dir(m, root, s.last().path@) && slash_count(s.last().path@) == d {
        removable_at(s.drop_last(), m, root, d).push(s.last().path@)
    } else {
        removable_at(s.drop_last(), m, root, d)
    }
}

/// The removable directories of one depth carry no duplicate and are exactly
/// the snapshot paths that are removable at that depth.
pub proof fn lemma_removable_at_props(
    s: Seq<FsItem>,
    m: Map<Seq<char>, EntryModel>,
    root: Seq<char>,
    d: int,
)
    requires
        unique_paths(s),
    ensures
        removable_at(s, m, root, d).no_duplicates(),
        forall|p: Seq<char>| #[trigger]
            removable_at(s, m, root, d).contains(p) <==> (snap_map(s).dom().contains(p)
                && removable_dir(m, root, p) && slash_count(p) == d),
    decreases s.len(),
{
    if s.len() > 0 {
        let dl = s.drop_last();
        assert forall|i: int, j: int|
            0 <= i < dl.len() && 0 <= j < dl.len() && i != j implies dl[i].path@
            != dl[j].path@ by {
            assert(dl[i] == s[i] && dl[j] == s[j]);
        }
        lemma_removable_at_props(dl, m, root, d);
        let rest = removable_at(dl, m, root, d);
        let last = s.last();
        lemma_snap_map_dom(dl, last.path@);
        if snap_map(dl).dom().contains(last.path@) {
            let t = choose|t: int| 0 <= t < dl.len() && dl[t].path@ == last.path@;
            assert(s[t].path@ == s[s.len() - 1].path@);
            assert(false);
        }
        assert(!rest.contains(last.path@));
        if removable_dir(m, root, last.path@) && slash_count(last.path@) == d {
            let cur = rest.push(last.path@);
            assert forall|i: int, j: int|
                0 <= i < cur.len() && 0 <= j < cur.len() && i != j implies cur[i] != cur[j] by {
                if i < rest.len() && j < rest.len() {
                    assert(cur[i] == rest[i] && cur[j] == rest[j]);
                } else if i < rest.len() {
                    assert(rest.contains(rest[i]) && cur[j] == last.path@);
                } else if j < rest.len() {
                    assert(rest.contains(rest[j]) && cur[i] == last.path@);
                }
            }
        }
        assert forall|p: Seq<char>| #[trigger]
            removable_at(s, m, root, d).contains(p) <==> (snap_map(s).dom().contains(p)
                && removable_dir(m, root, p) && slash_count(p) == d) by {
            lemma_snap_map_dom(dl, p);
            lemma_snap_map_dom(s, p);
            if p == last.path@ {
                if removable_dir(m, root, p) && slash_count(p) == d {
                    let cur = removable_at(s, m, root, d);
                    assert(cur[cur.len() - 1] == p);
                    assert(cur.contains(p));
                }
            } else {
                if removable_at(s, m, root, d).contains(p) {
                    let cur = removable_at(s, m, root, d);
                    let t = choose|t: int| 0 <= t < cur.len() && cur[t] == p;
                    assert(t < rest.len() && rest[t] == p);
                    assert(rest.contains(p));
                }
                if rest.contains(p) {
                    let t = choose|t: int| 0 <= t < rest.len() && rest[t] == p;
                    let cur = removable_at(s, m, root, d);
                    assert(cur[t] == p);
                    assert(cur.contains(p));
                }
            }
        }
    }
}

/// Lists the directories that may be removed once unused files are gone:
/// every snapshot directory, other than the root, with nothing but
/// directories below it, ordered deepest-first so that each is empty when
/// its turn comes.
pub fn remove_empty_directories(snap: &FsSnapshot, root: &str) -> (r: Vec<String>)
    requires
        snap.wf(),
    ensures
        r.deep_view().no_duplicates(),
        forall|p: Seq<char>| #[trigger]
            r.deep_view().contains(p) <==> removable_dir(snap@, root@, p),
        forall|t1: int, t2: int|
            0 <= t1 < t2 < r.deep_view().len() ==> slash_count(#[trigger] r.deep_view()[t1])
                >= slash_count(#[trigger] r.deep_view()[t2]),
{
    let ghost m = snap@;
    // The deepest path of the snapshot bounds every directory's depth.
    let mut maxd: usize = 0;
    let mut i: usize = 0;
    while i < snap.items.len()
        invariant
            i <= snap.items@.len(),
            forall|j: int|
                0 <= j < i ==> slash_count((#[trigger] snap.items@[j]).path@) <= maxd as int,
        decreases snap.items@.len() - i,
    {
        let c = count_slashes(snap.items[i].path.as_str());
        if c > maxd {
            maxd = c;
        }
        i += 1;
    }
    let mut r: Vec<String> = Vec::new();
    let mut dd: usize = maxd;
    proof {
        assert(r.deep_view() =~= Seq::<Seq<char>>::empty());
        assert forall|p: Seq<char>|
            removable_dir(m, root@, p) implies slash_count(p) <= maxd as int by {
            lemma_snap_map_dom(snap.items@, p);
            let j = choose|j: int| 0 <= j < snap.items@.len() && snap.items@[j].path@ == p;
            assert(slash_count(snap.items@[j].path@) <= maxd as int);
        }
    }
    loop
        invariant_except_break
            snap.wf(),
            m == snap@,
            dd <= maxd,
            forall|j: int|
                0 <= j < snap.items@.len() ==> slash_count((#[trigger] snap.items@[j]).path@)
                    <= maxd as int,
            r.deep_view().no_duplicates(),
            forall|t: int|
                0 <= t < r.deep_view().len() ==> slash_count(#[trigger] r.deep_view()[t])
                    > dd as int,
            forall|t1: int, t2: int|
                0 <= t1 < t2 < r.deep_view().len() ==> slash_count(#[trigger] r.deep_view()[t1])
                    >= slash_count(#[trigger] r.deep_view()[t2]),
            forall|p: Seq<char>| #[trigger]
                r.deep_view().contains(p) <==> (removable_dir(m, root@, p) && slash_count(p)
                    > dd as int),
        ensures
            r.deep_view().no_duplicates(),
            forall|p: Seq<char>| #[trigger]
                r.deep_view().contains(p) <==> (removable_dir(m, root@, p) && slash_count(p)
                    >= 0),
            forall|t1: int, t2: int|
                0 <= t1 < t2 < r.deep_view().len() ==> slash_count(#[trigger] r.deep_view()[t1])
                    >= slash_count(#[trigger] r.deep_view()[t2]),
        decreases dd,
    {
        let ghost pre = r.deep_view();
        let mut j: usize = 0;
        proof {
            assert(removable_at(snap.items@.take(0), m, root@, dd as int) =~= Seq::<
                Seq<char>,
            >::empty());
            assert(pre + removable_at(snap.items@.take(0), m, root@, dd as int) =~= pre);
        }
        while j < snap.items.len()
            invariant
                snap.wf(),
                m == snap@,
                j <= snap.items@.len(),
                r.deep_view() == pre + removable_at(snap.items@.take(j as int), m, root@, dd as int),
            decreases snap.items@.len() - j,
        {
            let ghost before = r.deep_view();
            proof {
                assert(snap.items@.take(j + 1).drop_last() =~= snap.items@.take(j as int));
                assert(snap.items@.take(j + 1).last() == snap.items@[j as int]);
            }
            let item = &snap.items[j];
            let is_dir = match &item.entry {
                FsEntry::Dir => true,
                _ => false,
            };
            let c = count_slashes(item.path.as_str());
            proof {
                lemma_snap_map_index(snap.items@, j as int);
            }
            if is_dir && c == dd && !str_eq(item.path.as_str(), root) && no_nondir_under(
                snap,
                item.path.as_str(),
            ) {
                r.push(item.path.clone());
                proof {
                    assert(removable_dir(m, root@, snap.items@[j as int].path@));
                    assert(r.deep_view() =~= before.push(snap.items@[j as int].path@));
                }
            } else {
                proof {
                    assert(!(removable_dir(m, root@, snap.items@[j as int].path@) && slash_count(
                        snap.items@[j as int].path@,
                    ) == dd as int));
                }
            }
            j += 1;
        }
        proof {
            assert(snap.items@.take(snap.items@.len() as int) =~= snap.items@);
            lemma_removable_at_props(snap.items@, m, root@, dd as int);
            let bucket = removable_at(snap.items@, m, root@, dd as int);
            let cur = r.deep_view();
            assert(cur == pre + bucket);
            // No duplicate: earlier entries are strictly deeper than this
            // bucket's depth, and the bucket itself has none.
            assert forall|a: int, b: int|
                0 <= a < cur.len() && 0 <= b < cur.len() && a != b implies cur[a] != cur[b] by {
                if a < pre.len() && b < pre.len() {
                    assert(cur[a] == pre[a] && cur[b] == pre[b]);
                } else if a < pre.len() {
                    assert(cur[b] == bucket[b - pre.len()]);
                    assert(bucket.contains(bucket[b - pre.len()]));
                    assert(slash_count(cur[b]) == dd as int);
                    assert(slash_count(pre[a]) > dd as int);
                } else if b < pre.len() {
                    assert(cur[a] == bucket[a - pre.len()]);
                    assert(bucket.contains(bucket[a - pre.len()]));
                    assert(slash_count(cur[a]) == dd as int);
                    assert(slash_count(pre[b]) > dd as int);
                } else {
                    assert(cur[a] == bucket[a - pre.len()] && cur[b] == bucket[b - pre.len()]);
                }
            }
            // Ordering and depth bounds for the grown list.
            assert forall|t: int|
                0 <= t < cur.len() implies slash_count(#[trigger] cur[t]) >= dd as int by {
                if t < pre.len() {
                    assert(cur[t] == pre[t]);
                } else {
                    assert(cur[t] == bucket[t - pre.len()]);
                    assert(bucket.contains(bucket[t - pre.len()]));
                }
            }
            assert forall|t1: int, t2: int|
                0 <= t1 < t2 < cur.len() implies slash_count(#[trigger] cur[t1]) >= slash_count(
                #[trigger] cur[t2],
            ) by {
                if t1 < pre.len() && t2 < pre.len() {
                    assert(cur[t1] == pre[t1] && cur[t2] == pre[t2]);
                } else if t1 < pre.len() {
                    assert(cur[t2] == bucket[t2 - pre.len()]);
                    assert(bucket.contains(bucket[t2 - pre.len()]));
                    assert(slash_count(cur[t2]) == dd as int);
                    assert(slash_count(cur[t1]) > dd as int);
                } else {
                    assert(cur[t1] == bucket[t1 - pre.len()] && cur[t2] == bucket[t2 - pre.len()]);
                    assert(bucket.contains(bucket[t1 - pre.len()]));
                    assert(bucket.contains(bucket[t2 - pre.len()]));
                }
            }
            // Membership for the grown list.
            assert forall|p: Seq<char>| #[trigger]
                cur.contains(p) <==> (removable_dir(m, root@, p) && slash_count(p)
                    >= dd as int) by {
                if cur.contains(p) {
                    let t = choose|t: int| 0 <= t < cur.len() && cur[t] == p;
                    if t < pre.len() {
                        assert(pre[t] == p);
                        assert(pre.contains(p));
                    } else {
                        assert(bucket[t - pre.len()] == p);
                        assert(bucket.contains(p));
                    }
                }
                if removable_dir(m, root@, p) && slash_count(p) >= dd as int {
                    if slash_count(p) > dd as int {
                        assert(pre.contains(p));
                        let t = choose|t: int| 0 <= t < pre.len() && pre[t] == p;
                        assert(cur[t] == p);
                    } else {
                        lemma_snap_map_dom(snap.items@, p);
                        assert(bucket.contains(p));
                        let t = choose|t: int| 0 <= t < bucket.len() && bucket[t] == p;
                        assert(cur[pre.len() + t] == p);
                    }
                }
            }
        }
        if dd == 0 {
            proof {
                assert forall|p: Seq<char>| #[trigger]
                    r.deep_view().contains(p) <==> (removable_dir(m, root@, p) && slash_count(p)
                        >= 0) by {
                    lemma_slash_count_nonneg(p);
                }
            }
            break;
        }
        proof {
            assert forall|t: int|
                0 <= t < r.deep_view().len() implies slash_count(#[trigger] r.deep_view()[t]) > (
            dd - 1) as int by {
                assert(r.deep_view().contains(r.deep_view()[t]));
            }
        }
        dd -= 1;
    }
    proof {
        assert forall|p: Seq<char>| #[trigger]
            r.deep_view().contains(p) <==> removable_dir(snap@, root@, p) by {
            lemma_slash_count_nonneg(p);
        }
    }
    r
}

// ---------------------------------------------------------------------------
// The firmware plan.
// ---------------------------------------------------------------------------
/// What firmware cleanup decides: the required paths, the unused files, and
/// the bytes the unused files weigh.
pub struct FirmwarePlan {
    pub required: Vec<String>,
    pub unused: Vec<String>,
    pub total_bytes: u64,
}

/// Decides firmware cleanup against a snapshot of the firmware tree: derives
/// the required set from the modules' declared firmware names, including
/// symbolic-link chains, and lists every other file with its byte total.
/// Fails exactly when some wildcard name does not parse as a glob pattern.
/// Removing dangling links and then empty directories afterwards is decided
/// by `remove_dangling_symlinks` and `remove_empty_directories` on a fresh
/// snapshot each.
pub fn cleanup_firmware(snap: &FsSnapshot, fw_dir: &str, modules: &Vec<ModuleFirmware>) -> (r:
    Result<FirmwarePlan, JanitorError>)
    requires
        snap.wf(),
    ensures
        r is Ok <==> modules_patterns_valid(modules@),
        match r {
            Ok(plan) => plan.required.deep_view().no_duplicates()
                && plan.required.deep_view().to_set() == required_spec(snap@, fw_dir@, modules@)
                && plan.unused.deep_view() == unused_list(snap.items@, plan.required.deep_view())
                && plan.total_bytes as int == cap_u64(
                unused_total(snap.items@, plan.required.deep_view()),
            ),
            Err(e) => e matches JanitorError::Pattern(_),
        },
{
    let required = match get_required_firmware(snap, fw_dir, modules) {
        Ok(required) => required,
        Err(e) => {
            return Err(e);
        },
    };
    let (unused, total_bytes) = remove_unused_files(snap, &required);
    Ok(FirmwarePlan { required, unused, total_bytes })
}

} // verus!
