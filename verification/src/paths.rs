//! Where the tool keeps its files, and the user's PATH variable: its
//! entries, and the new value when the tool's directory is added to it or
//! removed from it.
use vstd::prelude::*;
use vstd::string::*;
use crate::text::{contains_seq, first_match_from, lemma_first_match_none, lemma_split_join, lemma_split_pieces_clean, matches_at, join_seq, join_str, lemma_join_push, lemma_join_split, lemma_split_nonempty, split_seq, split_str};

verus! {

/// The separator of PATH entries on Windows.
pub const PATH_SEP: &'static str = ";";

/// Directory, relative to the working directory, of the configuration files.
pub fn get_configs_path() -> (r: &'static str)
    ensures
        r@ == "configs/"@,
{
    "configs/"
}

/// Directory, relative to the working directory, of the bypass binaries.
pub fn get_bin_path() -> (r: &'static str)
    ensures
        r@ == "bin/"@,
{
    "bin/"
}

/// Directory, relative to the working directory, of the host and address lists.
pub fn get_lists_path() -> (r: &'static str)
    ensures
        r@ == "lists/"@,
{
    "lists/"
}

/// `a` followed by `b`.
pub fn concat_str(a: &str, b: &str) -> (r: String)
    ensures
        r@ == a@ + b@,
{
    let mut r = String::from_str(a);
    r.append(b);
    r
}

/// The tool's own directory, with a closing backslash, given the directory
/// that holds the executable.
pub fn absolute_dir(exe_dir: &str) -> (r: String)
    ensures
        r@ == exe_dir@ + "\\"@,
{
    concat_str(exe_dir, "\\")
}

/// The directory of the configuration files under the tool's directory.
pub fn configs_dir(abs: &str) -> (r: String)
    ensures
        r@ == abs@ + "configs\\"@,
{
    concat_str(abs, "configs\\")
}

/// The directory of the bypass binaries under the tool's directory.
pub fn bin_dir(abs: &str) -> (r: String)
    ensures
        r@ == abs@ + "bin\\"@,
{
    concat_str(abs, "bin\\")
}

/// The directory of the host and address lists under the tool's directory.
pub fn lists_dir(abs: &str) -> (r: String)
    ensures
        r@ == abs@ + "lists\\"@,
{
    concat_str(abs, "lists\\")
}

/// The general host list, to which new addresses and domains are appended.
pub fn general_list_file(abs: &str) -> (r: String)
    ensures
        r@ == abs@ + "lists\\list-general.txt"@,
{
    concat_str(abs, "lists\\list-general.txt")
}

/// The file of the configuration `name` in the directory `configs`.
pub fn config_file(configs: &str, name: &str) -> (r: String)
    ensures
        r@ == configs@ + name@,
{
    concat_str(configs, name)
}

/// The bypass executable in the directory `bin`.
pub fn winws_exe(bin: &str) -> (r: String)
    ensures
        r@ == bin@ + "winws.exe"@,
{
    concat_str(bin, "winws.exe")
}

/// The registry key that holds the settings of the service `name`.
pub fn service_registry_key(name: &str) -> (r: String)
    ensures
        r@ == "System\\CurrentControlSet\\Services\\"@ + name@,
{
    concat_str("System\\CurrentControlSet\\Services\\", name)
}

/// The entries of a PATH value.
pub open spec fn path_entries_spec(path: Seq<char>, sep: Seq<char>) -> Seq<Seq<char>> {
    split_seq(path, sep)
}

/// The PATH value with `dir` added at its end, or `None` when `dir` is
/// already one of its entries.
pub open spec fn path_with_dir_spec(path: Seq<char>, dir: Seq<char>, sep: Seq<char>) -> Option<
    Seq<char>,
> {
    if path_entries_spec(path, sep).contains(dir) {
        None
    } else {
        Some(path + sep + dir)
    }
}

/// Holds of the entries that differ from `dir`.
pub open spec fn differs_from(dir: Seq<char>) -> spec_fn(Seq<char>) -> bool {
    |e: Seq<char>| e != dir
}

/// The entries of a PATH value that differ from `dir`.
pub open spec fn entries_without(path: Seq<char>, dir: Seq<char>, sep: Seq<char>) -> Seq<
    Seq<char>,
> {
    path_entries_spec(path, sep).filter(differs_from(dir))
}

/// The PATH value without any entry equal to `dir`, or `None` when no entry is.
pub open spec fn path_without_dir_spec(path: Seq<char>, dir: Seq<char>, sep: Seq<char>) -> Option<
    Seq<char>,
> {
    if path_entries_spec(path, sep).contains(dir) {
        Some(join_seq(entries_without(path, dir, sep), sep))
    } else {
        None
    }
}

/// The entries of the PATH value `path`, split at `sep`.
pub fn path_entries(path: &str, sep: &str) -> (r: Vec<String>)
    requires
        sep@.len() == 1,
    ensures
        r.deep_view() == path_entries_spec(path@, sep@),
{
    split_str(path, sep)
}

/// Whether `entries` holds `dir`.
fn holds_entry(entries: &Vec<String>, dir: &String) -> (r: bool)
    ensures
        r == entries.deep_view().contains(dir@),
{
    let ghost v = entries.deep_view();
    let mut i: usize = 0;
    while i < entries.len()
        invariant
            v == entries.deep_view(),
            i <= entries.len(),
            forall|k: int| 0 <= k < i ==> v[k] != dir@,
        decreases entries.len() - i,
    {
        if entries[i] == *dir {
            assert(v[i as int] == dir@);
            return true;
        }
        i = i + 1;
    }
    false
}

/// Whether `dir` is one of the entries of the PATH value `path`.
pub fn path_contains(path: &str, dir: &str, sep: &str) -> (r: bool)
    requires
        sep@.len() == 1,
    ensures
        r == path_entries_spec(path@, sep@).contains(dir@),
{
    let entries = path_entries(path, sep);
    let d = String::from_str(dir);
    holds_entry(&entries, &d)
}

/// The PATH value after adding `dir`, or `None` when it is already there.
pub fn path_with_dir(path: &str, dir: &str, sep: &str) -> (r: Option<String>)
    requires
        sep@.len() == 1,
    ensures
        r.deep_view() == path_with_dir_spec(path@, dir@, sep@),
{
    let mut entries = path_entries(path, sep);
    let d = String::from_str(dir);
    if holds_entry(&entries, &d) {
        return None;
    }
    let ghost e = entries.deep_view();
    entries.push(d);
    proof {
        assert(entries.deep_view() =~= e.push(dir@));
        lemma_split_nonempty(path@, sep@);
        lemma_join_push(e, sep@, dir@);
        lemma_join_split(path@, sep@);
    }
    Some(join_str(&entries, sep))
}

/// The PATH value after removing every entry equal to `dir`, or `None` when
/// there is none.
pub fn path_without_dir(path: &str, dir: &str, sep: &str) -> (r: Option<String>)
    requires
        sep@.len() == 1,
    ensures
        r.deep_view() == path_without_dir_spec(path@, dir@, sep@),
{
    let entries = path_entries(path, sep);
    let ghost e = entries.deep_view();
    let ghost keep = differs_from(dir@);
    let d = String::from_str(dir);
    let mut kept: Vec<String> = Vec::new();
    let mut removed = false;
    let mut i: usize = 0;
    assert(e.take(0) =~= Seq::<Seq<char>>::empty());
    while i < entries.len()
        invariant
            e == entries.deep_view(),
            keep == differs_from(dir@),
            d@ == dir@,
            i <= entries.len(),
            kept.deep_view() == e.take(i as int).filter(keep),
            removed == e.take(i as int).contains(dir@),
        decreases entries.len() - i,
    {
        assert(e[i as int] == entries@[i as int]@);
        proof {
            e.take(i as int).lemma_filter_push(e[i as int], keep);
            assert(e.take(i + 1) =~= e.take(i as int).push(e[i as int]));
        }
        if entries[i] == d {
            removed = true;
            assert(e.take(i + 1)[i as int] == dir@);
            assert(!keep(e[i as int]));
        } else {
            let ghost before = kept.deep_view();
            kept.push(entries[i].clone());
            assert(keep(e[i as int]));
            assert(kept.deep_view() =~= before.push(e[i as int]));
            assert(e.take(i as int).contains(dir@) ==> e.take(i + 1).contains(dir@)) by {
                if e.take(i as int).contains(dir@) {
                    let k = choose|k: int| 0 <= k < i && #[trigger] e.take(i as int)[k] == dir@;
                    assert(e.take(i + 1)[k] == dir@);
                }
            }
            assert(e.take(i + 1).contains(dir@) ==> e.take(i as int).contains(dir@)) by {
                if e.take(i + 1).contains(dir@) {
                    let k = choose|k: int| 0 <= k < i + 1 && #[trigger] e.take(i + 1)[k] == dir@;
                    assert(e.take(i as int)[k] == dir@);
                }
            }
        }
        i = i + 1;
    }
    assert(e.take(entries.len() as int) =~= e);
    if !removed {
        return None;
    }
    Some(join_str(&kept, sep))
}

/// The session's PATH value after the tool's directory was added: the
/// current value, the separator and the directory.
pub fn session_path_after_add(current: &str, dir: &str, sep: &str) -> (r: String)
    ensures
        r@ == current@ + sep@ + dir@,
{
    let mut r = String::from_str(current);
    r.append(sep);
    r.append(dir);
    r
}


/// Filtering a sequence whose elements all pass keeps it whole.
proof fn lemma_filter_all(s: Seq<Seq<char>>, pred: spec_fn(Seq<char>) -> bool)
    requires
        forall|k: int| 0 <= k < s.len() ==> pred(#[trigger] s[k]),
    ensures
        s.filter(pred) == s,
    decreases s.len(),
{
    reveal(Seq::filter);
    if s.len() > 0 {
        assert forall|k: int| 0 <= k < s.drop_last().len() implies pred(#[trigger] s.drop_last()[k]) by {
            assert(s.drop_last()[k] == s[k]);
        }
        lemma_filter_all(s.drop_last(), pred);
        assert(pred(s.last()));
        assert(s.drop_last().push(s.last()) =~= s);
    }
}

/// The entries of `path` followed by `dir` are the entries of
/// `path + sep + dir`, when `dir` holds no separator.
proof fn lemma_entries_after_add(path: Seq<char>, dir: Seq<char>, sep: Seq<char>)
    requires
        sep.len() == 1,
        !contains_seq(dir, sep),
    ensures
        path_entries_spec(path + sep + dir, sep) == path_entries_spec(path, sep).push(dir),
{
    let e = split_seq(path, sep);
    lemma_split_nonempty(path, sep);
    lemma_split_pieces_clean(path, sep);
    lemma_join_push(e, sep, dir);
    lemma_join_split(path, sep);
    let ep = e.push(dir);
    assert forall|k: int| 0 <= k < ep.len() implies !contains_seq(#[trigger] ep[k], sep) by {
        if k < e.len() {
            assert(ep[k] == e[k]);
        }
    }
    lemma_split_join(ep, sep);
}

/// Adding a directory that is not on the PATH and then removing it gives
/// the PATH back unchanged.
pub proof fn law_add_then_remove(path: Seq<char>, dir: Seq<char>, sep: Seq<char>)
    requires
        sep.len() == 1,
        !contains_seq(dir, sep),
        !path_entries_spec(path, sep).contains(dir),
    ensures
        path_with_dir_spec(path, dir, sep) == Some(path + sep + dir),
        path_without_dir_spec(path + sep + dir, dir, sep) == Some(path),
{
    let e = split_seq(path, sep);
    let added = path + sep + dir;
    lemma_entries_after_add(path, dir, sep);
    let keep = differs_from(dir);
    assert(e.push(dir)[e.len() as int] == dir);
    assert(split_seq(added, sep).contains(dir));
    e.lemma_filter_push(dir, keep);
    assert forall|k: int| 0 <= k < e.len() implies keep(#[trigger] e[k]) by {
        if e[k] == dir {
            assert(e.contains(dir));
        }
    }
    lemma_filter_all(e, keep);
    assert(entries_without(added, dir, sep) == e);
    lemma_join_split(path, sep);
}

/// Once a directory holding no separator has been added, it is an entry of
/// the PATH, and adding it again changes nothing.
pub proof fn law_added_dir_is_entry(path: Seq<char>, dir: Seq<char>, sep: Seq<char>)
    requires
        sep.len() == 1,
        !contains_seq(dir, sep),
    ensures
        path_with_dir_spec(path, dir, sep) matches Some(p2) ==> {
            &&& path_entries_spec(p2, sep) == path_entries_spec(path, sep).push(dir)
            &&& path_entries_spec(p2, sep).contains(dir)
            &&& path_with_dir_spec(p2, dir, sep) is None
        },
{
    if path_with_dir_spec(path, dir, sep) is Some {
        let p2 = path + sep + dir;
        lemma_entries_after_add(path, dir, sep);
        let e = split_seq(path, sep);
        assert(e.push(dir)[e.len() as int] == dir);
    }
}

/// Once a non-empty directory has been removed, no entry of the PATH is
/// equal to it.
pub proof fn law_removed_dir_is_gone(path: Seq<char>, dir: Seq<char>, sep: Seq<char>)
    requires
        sep.len() == 1,
        dir.len() > 0,
    ensures
        path_without_dir_spec(path, dir, sep) matches Some(p2) ==> !path_entries_spec(
            p2,
            sep,
        ).contains(dir),
{
    if path_without_dir_spec(path, dir, sep) is Some {
        let e = split_seq(path, sep);
        let keep = differs_from(dir);
        let kept = e.filter(keep);
        let p2 = join_seq(kept, sep);
        if kept.len() == 0 {
            assert(p2 == Seq::<char>::empty());
            assert(first_match_from(p2, sep, 0) is None);
            assert(split_seq(p2, sep) == seq![p2]);
            assert(split_seq(p2, sep)[0] != dir);
        } else {
            lemma_split_pieces_clean(path, sep);
            assert forall|k: int| 0 <= k < kept.len() implies !contains_seq(
                #[trigger] kept[k],
                sep,
            ) by {
                assert(kept.contains(kept[k]));
                e.lemma_filter_contains_rev(keep, kept[k]);
                let j = choose|j: int| 0 <= j < e.len() && #[trigger] e[j] == kept[k];
                assert(!contains_seq(e[j], sep));
            }
            lemma_split_join(kept, sep);
            assert forall|k: int| 0 <= k < kept.len() implies #[trigger] kept[k] != dir by {
                e.lemma_filter_pred(keep, k);
            }
        }
    }
}


/// When the directory is any entry of the PATH, wherever it stands, adding
/// it writes nothing.
pub proof fn law_present_dir_not_added(path: Seq<char>, dir: Seq<char>, sep: Seq<char>, k: int)
    requires
        0 <= k < split_seq(path, sep).len(),
        split_seq(path, sep)[k] == dir,
    ensures
        path_with_dir_spec(path, dir, sep) is None,
{
    assert(path_entries_spec(path, sep).contains(dir));
}

/// When no entry of the PATH is the directory, adding it appends the
/// separator and the directory to the PATH.
pub proof fn law_absent_dir_appended(path: Seq<char>, dir: Seq<char>, sep: Seq<char>)
    requires
        forall|k: int| 0 <= k < split_seq(path, sep).len() ==> #[trigger] split_seq(path, sep)[k] != dir,
    ensures
        path_with_dir_spec(path, dir, sep) == Some(path + sep + dir),
{
}

/// When the directory is any entry of the PATH, removing it writes a new
/// value, whose entries are the old ones without that directory (for a
/// non-empty directory and a one-character separator).
pub proof fn law_present_dir_removed(path: Seq<char>, dir: Seq<char>, sep: Seq<char>, k: int)
    requires
        0 <= k < split_seq(path, sep).len(),
        split_seq(path, sep)[k] == dir,
        sep.len() == 1,
        dir.len() > 0,
    ensures
        path_without_dir_spec(path, dir, sep) matches Some(p2) && !split_seq(p2, sep).contains(
            dir,
        ),
        path_without_dir_spec(path, dir, sep) matches Some(p2) && (forall|e: Seq<char>|
            #[trigger] split_seq(p2, sep).contains(e) && e.len() > 0 ==> split_seq(path, sep).contains(e)),
{
    assert(path_entries_spec(path, sep).contains(dir));
    law_removed_dir_is_gone(path, dir, sep);
    let e = split_seq(path, sep);
    let kept = e.filter(differs_from(dir));
    let p2 = join_seq(kept, sep);
    assert forall|x: Seq<char>| #[trigger] split_seq(p2, sep).contains(x) && x.len() > 0 implies e.contains(x) by {
        if kept.len() == 0 {
            assert(first_match_from(p2, sep, 0) is None);
            assert(split_seq(p2, sep) == seq![p2]);
        } else {
            lemma_split_pieces_clean(path, sep);
            assert forall|j: int| 0 <= j < kept.len() implies !contains_seq(#[trigger] kept[j], sep) by {
                assert(kept.contains(kept[j]));
                e.lemma_filter_contains_rev(differs_from(dir), kept[j]);
                let m = choose|m: int| 0 <= m < e.len() && #[trigger] e[m] == kept[j];
                assert(!contains_seq(e[m], sep));
            }
            lemma_split_join(kept, sep);
            e.lemma_filter_contains_rev(differs_from(dir), x);
        }
    }
}

/// When no entry of the PATH is the directory, removing it writes nothing.
pub proof fn law_absent_dir_not_removed(path: Seq<char>, dir: Seq<char>, sep: Seq<char>)
    requires
        forall|k: int| 0 <= k < split_seq(path, sep).len() ==> #[trigger] split_seq(path, sep)[k] != dir,
    ensures
        path_without_dir_spec(path, dir, sep) is None,
{
}

} // verus!
