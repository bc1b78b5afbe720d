//! What building the index takes from the settings: the roots to walk, the exclusion rules and
//! whether entry metadata is read.
use crate::config::{strings_view, Config};
use crate::walker::{Excludes, ExcludesView};
use vstd::prelude::*;

verus! {

/// A copy of a list of strings.
fn copy_strings(v: &Vec<String>) -> (r: Vec<String>)
    ensures
        strings_view(r@) == strings_view(v@),
{
    let mut r: Vec<String> = Vec::new();
    let mut i: usize = 0;
    while i < v.len()
        invariant
            i <= v@.len(),
            r@.len() == i,
            forall|j: int| 0 <= j < i ==> r@[j]@ == v@[j]@,
        decreases v.len() - i,
    {
        r.push(v[i].clone());
        i += 1;
    }
    assert(strings_view(r@) =~= strings_view(v@));
    r
}

/// The roots to walk: those the settings name, else the home directory where there is one.
pub open spec fn roots_spec(c: Seq<Seq<char>>, home: Option<Seq<char>>) -> Seq<Seq<char>> {
    if c.len() > 0 {
        c
    } else {
        match home {
            Some(h) => seq![h],
            None => Seq::empty(),
        }
    }
}

/// The roots to walk for `config`; `home` is the user's home directory, where the environment
/// names one.
pub fn discover_roots(config: &Config, home: Option<String>) -> (r: Vec<String>)
    ensures
        strings_view(r@) == roots_spec(
            config@.roots,
            match home {
                Some(h) => Some(h@),
                None => None,
            },
        ),
{
    if config.roots.len() > 0 {
        return copy_strings(&config.roots);
    }
    let mut r: Vec<String> = Vec::new();
    match home {
        Some(h) => {
            r.push(h);
            assert(strings_view(r@) =~= seq![r@[0]@]);
        },
        None => {
            assert(strings_view(r@) =~= Seq::<Seq<char>>::empty());
        },
    }
    r
}

/// The exclusion rules of a walk: hidden entries as the settings say, system paths always, and
/// the settings' patterns, folders and include-only patterns.
pub fn excludes_for(config: &Config) -> (r: Excludes)
    ensures
        r@ == (ExcludesView {
            skip_hidden: config@.exclude_hidden,
            skip_system_paths: true,
            patterns: config@.exclude_patterns,
            folders: config@.exclude_folders,
            paths: Seq::empty(),
            include_only: config@.include_only,
        }),
{
    let r = Excludes {
        skip_hidden: config.exclude_hidden,
        skip_system_paths: true,
        patterns: copy_strings(&config.exclude_patterns),
        folders: copy_strings(&config.exclude_folders),
        paths: Vec::new(),
        include_only: copy_strings(&config.include_only),
    };
    assert(strings_view(r.paths@) =~= Seq::<Seq<char>>::empty());
    r
}

/// Whether a walk reads the size and times of entries: when any of them is indexed.
pub fn fetches_metadata(config: &Config) -> (r: bool)
    ensures
        r == (config@.index.size || config@.index.date_modified || config@.index.date_created
            || config@.index.date_accessed),
{
    config.index_size || config.index_date_modified || config.index_date_created
        || config.index_date_accessed
}

} // verus!
