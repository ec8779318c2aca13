//! Selecting bundles and maps among input files; paths stay relative to an
//! explicit or inferred root.
use vstd::prelude::*;

use crate::input::{javascript_name, under_root, under_root_exec};
use crate::source_path::{common_prefix, component_names, component_parts, join_chars, join_with, shared_prefix, views};
use crate::strings::{chars_of, extend_chars, same_chars, str_eq, string_of};

verus! {

/// The bundles to analyse, relative to `root`, and their explicit maps.
#[derive(Debug, Clone)]
pub struct Selection {
    pub root: String,
    pub files: Vec<String>,
    /// Bundle path (relative to `root`) and map file.
    pub maps: Vec<(String, String)>,
}

/// Why a selection was refused.
#[derive(Debug, Clone, PartialEq, Eq)]
pub enum SelectionError {
    /// An input that is neither JavaScript nor a `.map`.
    Unsupported(String),
    /// No JavaScript input.
    NoScripts,
    /// A script outside the given root.
    OutsideRoot(String),
    /// A map that pairs with no script.
    CannotPair(String),
    /// Two maps for one script.
    MultipleMaps(String),
}

/// A `.map` file name.
pub open spec fn map_name(path: Seq<char>) -> bool {
    path.len() >= 4 && path.subrange(path.len() - 4, path.len() as int) == ".map"@ && !javascript_name(path)
}

/// A path the selection accepts: a script or a map.
pub open spec fn classified(path: Seq<char>) -> bool {
    javascript_name(path) || map_name(path)
}

/// The scripts among the first `n` inputs, in input order.
pub open spec fn scripts_upto(paths: Seq<String>, n: int) -> Seq<Seq<char>>
    decreases n,
{
    if n <= 0 {
        Seq::empty()
    } else if javascript_name(paths[n - 1]@) {
        scripts_upto(paths, n - 1).push(paths[n - 1]@)
    } else {
        scripts_upto(paths, n - 1)
    }
}

/// The maps among the first `n` inputs, in input order.
pub open spec fn maps_upto(paths: Seq<String>, n: int) -> Seq<Seq<char>>
    decreases n,
{
    if n <= 0 {
        Seq::empty()
    } else if map_name(paths[n - 1]@) {
        maps_upto(paths, n - 1).push(paths[n - 1]@)
    } else {
        maps_upto(paths, n - 1)
    }
}

pub open spec fn input_scripts(paths: Seq<String>) -> Seq<Seq<char>> {
    scripts_upto(paths, paths.len() as int)
}

pub open spec fn input_maps(paths: Seq<String>) -> Seq<Seq<char>> {
    maps_upto(paths, paths.len() as int)
}

/// Every input is a script or a map.
pub open spec fn all_classified(paths: Seq<String>) -> bool {
    forall|i: int| 0 <= i < paths.len() ==> classified(#[trigger] paths[i]@)
}

/// Input `i` is the first that is neither a script nor a map.
pub open spec fn first_unsupported(paths: Seq<String>, i: int) -> bool {
    0 <= i < paths.len() && !classified(paths[i]@) && forall|k: int| 0 <= k < i ==> classified(#[trigger] paths[k]@)
}

/// The directory the first `n` scripts share: the first script's directory,
/// cut to the part it has in common with each further script.
pub open spec fn shared_root(scripts: Seq<Seq<char>>, n: int) -> Seq<Seq<char>>
    decreases n,
{
    if n <= 1 {
        if scripts.len() > 0 && component_names(scripts[0]).len() > 0 {
            component_names(scripts[0]).drop_last()
        } else {
            Seq::empty()
        }
    } else {
        let acc = shared_root(scripts, n - 1);
        acc.subrange(0, common_prefix(acc, component_names(scripts[n - 1])))
    }
}

pub open spec fn root_view(root: Option<&str>) -> Option<Seq<char>> {
    match root {
        Some(given) => Some(given@),
        None => None,
    }
}

/// The given root, or the absolute directory all scripts share.
pub open spec fn chosen_root(scripts: Seq<Seq<char>>, root: Option<Seq<char>>) -> Seq<char> {
    match root {
        Some(given) => given,
        None => seq!['/'] + join_with(shared_root(scripts, scripts.len() as int), '/'),
    }
}

/// Script `k` is the first that does not lie below `root`.
pub open spec fn first_outside(scripts: Seq<Seq<char>>, root: Seq<char>, k: int) -> bool {
    0 <= k < scripts.len() && under_root(root, scripts[k]) is None
        && forall|q: int| 0 <= q < k ==> under_root(root, #[trigger] scripts[q]) is Some
}

/// The scripts relative to `root`.
pub open spec fn relative_files(scripts: Seq<Seq<char>>, root: Seq<char>) -> Seq<Seq<char>> {
    Seq::new(scripts.len(), |k: int| under_root(root, scripts[k])->0)
}

/// `map` is the map of `script` by name.
pub open spec fn names_map(script: Seq<char>, map: Seq<char>) -> bool {
    script + ".map"@ == map
}

/// Script `s` is the first whose map `map` is by name.
pub open spec fn first_named(scripts: Seq<Seq<char>>, map: Seq<char>, s: int) -> bool {
    0 <= s < scripts.len() && names_map(scripts[s], map)
        && forall|k: int| 0 <= k < s ==> !names_map(#[trigger] scripts[k], map)
}

/// The script map `m` belongs to: the first named by it, else the only
/// script when it is the only map.
pub open spec fn map_target(scripts: Seq<Seq<char>>, maps: Seq<Seq<char>>, m: int) -> Option<int> {
    if exists|s: int| first_named(scripts, maps[m], s) {
        Some(choose|s: int| first_named(scripts, maps[m], s))
    } else if scripts.len() == 1 && maps.len() == 1 {
        Some(0)
    } else {
        None
    }
}

/// An earlier map already belongs to the file of map `m`.
pub open spec fn map_repeats(scripts: Seq<Seq<char>>, maps: Seq<Seq<char>>, files: Seq<Seq<char>>, m: int) -> bool {
    map_target(scripts, maps, m) matches Some(s) && exists|q: int|
        0 <= q < m && (#[trigger] map_target(scripts, maps, q)) is Some && files[map_target(scripts, maps, q)->0] == files[s]
}

/// Map `m` pairs: it has a script, and no earlier map has that file.
pub open spec fn map_pairs(scripts: Seq<Seq<char>>, maps: Seq<Seq<char>>, files: Seq<Seq<char>>, m: int) -> bool {
    map_target(scripts, maps, m) is Some && !map_repeats(scripts, maps, files, m)
}

/// Map `m` is the first that does not pair.
pub open spec fn first_unpaired(scripts: Seq<Seq<char>>, maps: Seq<Seq<char>>, files: Seq<Seq<char>>, m: int) -> bool {
    0 <= m < maps.len() && !map_pairs(scripts, maps, files, m)
        && forall|q: int| 0 <= q < m ==> #[trigger] map_pairs(scripts, maps, files, q)
}

fn is_map(path: &str) -> (r: bool)
    ensures
        r == map_name(path@),
{
    let chars = chars_of(path);
    let suffix = chars_of(".map");
    proof {
        reveal_strlit(".map");
    }
    if chars.len() < 4 {
        return false;
    }
    crate::maps::matches_at(&chars, &suffix, chars.len() - 4) && !crate::input::is_javascript_path(&chars)
}

/// The root of the selection.
pub open spec fn selected_root(paths: Seq<String>, root: Option<Seq<char>>) -> Seq<char> {
    chosen_root(input_scripts(paths), root)
}

/// The scripts relative to the root of the selection.
pub open spec fn selected_files(paths: Seq<String>, root: Option<Seq<char>>) -> Seq<Seq<char>> {
    relative_files(input_scripts(paths), selected_root(paths, root))
}

/// Every input is a script or a map, there is a script, and every script
/// lies below the root.
pub open spec fn settled(paths: Seq<String>, root: Option<Seq<char>>) -> bool {
    &&& all_classified(paths)
    &&& input_scripts(paths).len() > 0
    &&& forall|k: int|
        0 <= k < input_scripts(paths).len() ==> under_root(selected_root(paths, root), #[trigger] input_scripts(paths)[k]) is Some
}

/// Selects the scripts and maps among canonical input paths, in input order:
/// scripts are made relative to the given root (each must lie below it) or
/// to the directory they share; each map pairs with the script it names
/// (`<script>.map`), or with the only script when it is the only map, and no
/// file gets two maps. The first input, script or map that fails decides
/// the error.
pub fn select(paths: &Vec<String>, root: Option<&str>) -> (r: Result<Selection, SelectionError>)
    ensures
        (exists|i: int| first_unsupported(paths@, i)) ==> (r matches Err(SelectionError::Unsupported(p))
            && exists|i: int| first_unsupported(paths@, i) && paths@[i]@ == p@),
        all_classified(paths@) && input_scripts(paths@).len() == 0 ==> r matches Err(SelectionError::NoScripts),
        all_classified(paths@) && input_scripts(paths@).len() > 0 && (exists|k: int|
            first_outside(input_scripts(paths@), selected_root(paths@, root_view(root)), k)) ==> (r matches Err(
            SelectionError::OutsideRoot(p)) && exists|k: int|
            first_outside(input_scripts(paths@), selected_root(paths@, root_view(root)), k) && input_scripts(paths@)[k] == p@),
        settled(paths@, root_view(root)) && (exists|m: int|
            first_unpaired(input_scripts(paths@), input_maps(paths@), selected_files(paths@, root_view(root)), m)
                && map_target(input_scripts(paths@), input_maps(paths@), m) is None) ==> (r matches Err(
            SelectionError::CannotPair(p)) && exists|m: int|
            first_unpaired(input_scripts(paths@), input_maps(paths@), selected_files(paths@, root_view(root)), m)
                && map_target(input_scripts(paths@), input_maps(paths@), m) is None && input_maps(paths@)[m] == p@),
        settled(paths@, root_view(root)) && (exists|m: int|
            first_unpaired(input_scripts(paths@), input_maps(paths@), selected_files(paths@, root_view(root)), m)
                && map_target(input_scripts(paths@), input_maps(paths@), m) is Some) ==> (r matches Err(
            SelectionError::MultipleMaps(p)) && exists|m: int|
            first_unpaired(input_scripts(paths@), input_maps(paths@), selected_files(paths@, root_view(root)), m)
                && map_target(input_scripts(paths@), input_maps(paths@), m) is Some
                && input_scripts(paths@)[map_target(input_scripts(paths@), input_maps(paths@), m)->0] == p@),
        settled(paths@, root_view(root)) && (forall|m: int|
            0 <= m < input_maps(paths@).len() ==> #[trigger] map_pairs(
                input_scripts(paths@),
                input_maps(paths@),
                selected_files(paths@, root_view(root)),
                m,
            )) ==> (r matches Ok(sel) && sel.root@ == selected_root(paths@, root_view(root))
            && sel.files@.len() == input_scripts(paths@).len()
            && (forall|k: int| 0 <= k < sel.files@.len() ==> #[trigger] sel.files@[k]@ == selected_files(paths@, root_view(root))[k])
            && sel.maps@.len() == input_maps(paths@).len()
            && (forall|m: int| 0 <= m < sel.maps@.len() ==> {
                &&& (#[trigger] sel.maps@[m]).1@ == input_maps(paths@)[m]
                &&& sel.maps@[m].0@ == selected_files(paths@, root_view(root))[map_target(
                    input_scripts(paths@),
                    input_maps(paths@),
                    m,
                )->0]
            })),
{
    let ghost ps = paths@;
    let mut scripts: Vec<String> = Vec::new();
    let mut maps: Vec<String> = Vec::new();
    for i in 0..paths.len()
        invariant
            ps == paths@,
            forall|k: int| 0 <= k < i ==> classified(#[trigger] paths@[k]@),
            scripts@.map_values(|x: String| x@) == scripts_upto(ps, i as int),
            maps@.map_values(|x: String| x@) == maps_upto(ps, i as int),
    {
        let chars = chars_of(paths[i].as_str());
        if crate::input::is_javascript_path(&chars) {
            let ghost before = scripts@;
            scripts.push(paths[i].clone());
            proof {
                assert(scripts@.map_values(|x: String| x@) =~= before.map_values(|x: String| x@).push(ps[i as int]@));
            }
        } else if is_map(paths[i].as_str()) {
            let ghost before = maps@;
            maps.push(paths[i].clone());
            proof {
                assert(maps@.map_values(|x: String| x@) =~= before.map_values(|x: String| x@).push(ps[i as int]@));
            }
        } else {
            proof {
                assert(first_unsupported(ps, i as int));
            }
            return Err(SelectionError::Unsupported(paths[i].clone()));
        }
    }
    let ghost sv = input_scripts(ps);
    let ghost mv = input_maps(ps);
    proof {
        assert(all_classified(ps));
        assert(forall|k: int| 0 <= k < scripts@.len() ==> #[trigger] scripts@[k]@ == sv[k]) by {
            assert forall|k: int| 0 <= k < scripts@.len() implies #[trigger] scripts@[k]@ == sv[k] by {
                assert(scripts@.map_values(|x: String| x@)[k] == scripts@[k]@);
            }
        }
        assert(forall|k: int| 0 <= k < maps@.len() ==> #[trigger] maps@[k]@ == mv[k]) by {
            assert forall|k: int| 0 <= k < maps@.len() implies #[trigger] maps@[k]@ == mv[k] by {
                assert(maps@.map_values(|x: String| x@)[k] == maps@[k]@);
            }
        }
    }
    if scripts.len() == 0 {
        return Err(SelectionError::NoScripts);
    }
    let root_text: String = match root {
        Some(given) => given.to_string(),
        None => {
            let mut shared = component_parts(&chars_of(scripts[0].as_str()));
            if shared.len() > 0 {
                let n = shared.len() - 1;
                let ghost before = shared@;
                shared.truncate(n);
                proof {
                    assert(views(shared@) =~= views(before).drop_last());
                }
            }
            for s in 1..scripts.len()
                invariant
                    scripts@.len() == sv.len(),
                    forall|k: int| 0 <= k < scripts@.len() ==> #[trigger] scripts@[k]@ == sv[k],
                    views(shared@) == shared_root(sv, s as int),
            {
                let other = component_parts(&chars_of(scripts[s].as_str()));
                let keep = shared_prefix(&shared, &other);
                proof {
                    crate::source_path::lemma_common_prefix_bound(views(shared@), views(other@));
                }
                let ghost before = shared@;
                shared.truncate(keep);
                proof {
                    assert(views(shared@) =~= views(before).subrange(0, keep as int));
                }
            }
            let mut text = vec!['/'];
            extend_chars(&mut text, &join_chars(&shared, '/'));
            string_of(&text)
        },
    };
    let ghost rt = selected_root(ps, root_view(root));
    let ghost fv = selected_files(ps, root_view(root));
    assert(root_text@ == rt);
    let root_chars = chars_of(root_text.as_str());
    let mut files: Vec<String> = Vec::new();
    for k in 0..scripts.len()
        invariant
            ps == paths@,
            root_chars@ == rt,
            rt == selected_root(ps, root_view(root)),
            fv == selected_files(ps, root_view(root)),
            sv == input_scripts(ps),
            all_classified(ps),
            scripts@.len() == sv.len(),
            forall|q: int| 0 <= q < scripts@.len() ==> #[trigger] scripts@[q]@ == sv[q],
            files@.len() == k,
            forall|q: int| 0 <= q < k ==> under_root(rt, #[trigger] sv[q]) is Some,
            forall|q: int| 0 <= q < k ==> #[trigger] files@[q]@ == fv[q],
    {
        match under_root_exec(&root_chars, &chars_of(scripts[k].as_str())) {
            None => {
                proof {
                    assert(first_outside(sv, rt, k as int));
                }
                return Err(SelectionError::OutsideRoot(scripts[k].clone()));
            },
            Some(rel) => {
                let f = string_of(&rel);
                files.push(f);
            },
        }
    }
    assert(settled(ps, root_view(root)));
    let mut pairs: Vec<(String, String)> = Vec::new();
    for m in 0..maps.len()
        invariant
            ps == paths@,
            sv == input_scripts(ps),
            mv == input_maps(ps),
            fv == selected_files(ps, root_view(root)),
            settled(ps, root_view(root)),
            scripts@.len() == sv.len(),
            maps@.len() == mv.len(),
            forall|q: int| 0 <= q < scripts@.len() ==> #[trigger] scripts@[q]@ == sv[q],
            forall|q: int| 0 <= q < maps@.len() ==> #[trigger] maps@[q]@ == mv[q],
            files@.len() == sv.len(),
            forall|q: int| 0 <= q < files@.len() ==> #[trigger] files@[q]@ == fv[q],
            pairs@.len() == m,
            forall|q: int| 0 <= q < m ==> #[trigger] map_pairs(sv, mv, fv, q),
            forall|q: int|
                0 <= q < m ==> {
                    &&& (#[trigger] pairs@[q]).1@ == mv[q]
                    &&& pairs@[q].0@ == fv[map_target(sv, mv, q)->0]
                },
    {
        let map_chars = chars_of(maps[m].as_str());
        let mut chosen: Option<usize> = None;
        for s in 0..scripts.len()
            invariant
                scripts@.len() == sv.len(),
                forall|q: int| 0 <= q < scripts@.len() ==> #[trigger] scripts@[q]@ == sv[q],
                map_chars@ == mv[m as int],
                chosen is None ==> forall|k: int| 0 <= k < s ==> !names_map(#[trigger] sv[k], mv[m as int]),
                chosen matches Some(x) ==> first_named(sv, mv[m as int], x as int),
        {
            if chosen.is_none() {
                let mut name = chars_of(scripts[s].as_str());
                extend_chars(&mut name, &chars_of(".map"));
                if same_chars(&name, &map_chars) {
                    chosen = Some(s);
                }
            }
        }
        proof {
            if let Some(x) = chosen {
                let c = choose|c: int| first_named(sv, mv[m as int], c);
                assert(first_named(sv, mv[m as int], c));
                if c < x {
                    assert(!names_map(sv[c], mv[m as int]));
                }
                if x < c {
                    assert(!names_map(sv[x as int], mv[m as int]));
                }
                assert(map_target(sv, mv, m as int) == Some(x as int));
            } else {
                assert(!exists|c: int| first_named(sv, mv[m as int], c));
            }
        }
        if chosen.is_none() && scripts.len() == 1 && maps.len() == 1 {
            chosen = Some(0);
        }
        let s = match chosen {
            None => {
                proof {
                    assert(first_unpaired(sv, mv, fv, m as int));
                }
                return Err(SelectionError::CannotPair(maps[m].clone()));
            },
            Some(s) => s,
        };
        assert(map_target(sv, mv, m as int) == Some(s as int));
        let mut duplicate = false;
        for q in 0..pairs.len()
            invariant
                s < files@.len(),
                pairs@.len() == m,
                duplicate == exists|q2: int| 0 <= q2 < q && (#[trigger] pairs@[q2]).0@ == files@[s as int]@,
        {
            if str_eq(pairs[q].0.as_str(), files[s].as_str()) {
                duplicate = true;
            }
        }
        if duplicate {
            proof {
                let q2 = choose|q2: int| 0 <= q2 < m && (#[trigger] pairs@[q2]).0@ == files@[s as int]@;
                assert(pairs@[q2].0@ == fv[map_target(sv, mv, q2)->0]);
                assert(map_pairs(sv, mv, fv, q2));
                assert(map_repeats(sv, mv, fv, m as int));
                assert(first_unpaired(sv, mv, fv, m as int));
            }
            return Err(SelectionError::MultipleMaps(scripts[s].clone()));
        }
        proof {
            if map_repeats(sv, mv, fv, m as int) {
                let q2 = choose|q2: int|
                    0 <= q2 < m && (#[trigger] map_target(sv, mv, q2)) is Some && fv[map_target(sv, mv, q2)->0] == fv[s as int];
                assert(pairs@[q2].0@ == files@[s as int]@);
            }
            assert(map_pairs(sv, mv, fv, m as int));
        }
        let ghost before = pairs@;
        pairs.push((files[s].clone(), maps[m].clone()));
        proof {
            assert forall|q: int| 0 <= q < m + 1 implies #[trigger] map_pairs(sv, mv, fv, q) by {}
            assert forall|q: int| 0 <= q < m + 1 implies {
                &&& (#[trigger] pairs@[q]).1@ == mv[q]
                &&& pairs@[q].0@ == fv[map_target(sv, mv, q)->0]
            } by {
                if q < m {
                    assert(pairs@[q] == before[q]);
                }
            }
        }
    }
    Ok(Selection { root: root_text, files, maps: pairs })
}

} // verus!
