//! The detector cache: what an installed-app refresh found.
//!
//! Reading and writing the cache file (JSON) belongs to the program around
//! this library.

use vstd::prelude::*;

use crate::detect::{apps_view, installed_apps_from_candidates, installed_apps_spec, ElectronApp};
use crate::text::{chars_of, insert_sorted, sorted_listing, strings_of, strs_view, vviews};

verus! {

/// Detector cache payload saved on disk.
#[derive(Debug, Clone, PartialEq, Eq)]
pub struct CacheData {
    /// Unix timestamp when this cache was built.
    pub built_at_unix: u64,
    /// Raw Electron candidate paths discovered during the scan.
    pub candidates: Vec<String>,
    /// Installed Electron apps inferred from candidate paths.
    pub installed_apps: Vec<ElectronApp>,
    /// NTFS volume journal states used to resume later scans.
    pub volumes: Vec<VolumeState>,
}

/// NTFS volume journal state.
#[derive(Debug, Clone, PartialEq, Eq)]
pub struct VolumeState {
    /// Volume root path.
    pub root: String,
    /// NTFS USN journal identifier.
    pub journal_id: u64,
    /// Next USN value to continue scanning from.
    pub next_usn: i64,
}

/// Every candidate that some volume contributed.
pub open spec fn all_candidates(per_volume: Seq<Seq<Seq<char>>>) -> Set<Seq<char>> {
    Set::new(|p: Seq<char>| exists|v: int| 0 <= v < per_volume.len() && #[trigger] per_volume[v].contains(p))
}

impl CacheData {
    /// The cache a refresh builds: the candidates of all volumes, each once
    /// and in order, and the installed apps grouped from them.
    pub fn from_scan(built_at_unix: u64, per_volume: Vec<Vec<String>>, volumes: Vec<VolumeState>) -> (c: CacheData)
        ensures
            c.built_at_unix == built_at_unix,
            c.volumes == volumes,
            sorted_listing(
                strs_view(c.candidates@),
                all_candidates(per_volume@.map_values(|v: Vec<String>| strs_view(v@))),
            ),
            installed_apps_spec(strs_view(c.candidates@), apps_view(c.installed_apps@)),
    {
        let ghost pv = per_volume@.map_values(|v: Vec<String>| strs_view(v@));
        let mut set: Vec<Vec<char>> = Vec::new();
        let mut v: usize = 0;
        while v < per_volume.len()
            invariant
                0 <= v <= per_volume@.len(),
                pv == per_volume@.map_values(|v: Vec<String>| strs_view(v@)),
                crate::text::strictly_sorted(vviews(set@)),
                forall|p: Seq<char>| #[trigger] vviews(set@).contains(p) <==> exists|w: int| 0 <= w < v && #[trigger] pv[w].contains(p),
            decreases per_volume.len() - v,
        {
            let list = &per_volume[v];
            assert(pv[v as int] == strs_view(list@));
            let ghost before = vviews(set@);
            let mut k: usize = 0;
            while k < list.len()
                invariant
                    0 <= k <= list@.len(),
                    pv[v as int] == strs_view(list@),
                    crate::text::strictly_sorted(vviews(set@)),
                    forall|p: Seq<char>| #[trigger] vviews(set@).contains(p) <==> (before.contains(p)
                        || strs_view(list@).take(k as int).contains(p)),
                decreases list.len() - k,
            {
                let c = chars_of(list[k].as_str());
                let ghost prev = vviews(set@);
                insert_sorted(&mut set, c);
                assert forall|p: Seq<char>| #[trigger] vviews(set@).contains(p) <==> (before.contains(p)
                    || strs_view(list@).take(k + 1).contains(p)) by {
                    let t0 = strs_view(list@).take(k as int);
                    let t1 = strs_view(list@).take(k + 1);
                    assert(t1 =~= t0.push(list@[k as int]@));
                    if t1.contains(p) {
                        let i = choose|i: int| 0 <= i < t1.len() && t1[i] == p;
                        if i < k {
                            assert(t0[i] == p);
                        }
                    }
                    if t0.contains(p) {
                        let i = choose|i: int| 0 <= i < t0.len() && t0[i] == p;
                        assert(t1[i] == p);
                    }
                    if p == list@[k as int]@ {
                        assert(t1[k as int] == p);
                    }
                }
                k += 1;
            }
            assert(strs_view(list@).take(list@.len() as int) == strs_view(list@));
            assert forall|p: Seq<char>| #[trigger] vviews(set@).contains(p) <==> exists|w: int| 0 <= w < v + 1 && #[trigger] pv[w].contains(p) by {
                if exists|w: int| 0 <= w < v && #[trigger] pv[w].contains(p) {
                    let w = choose|w: int| 0 <= w < v && #[trigger] pv[w].contains(p);
                    assert(0 <= w < v + 1);
                }
                if exists|w: int| 0 <= w < v + 1 && #[trigger] pv[w].contains(p) {
                    let w = choose|w: int| 0 <= w < v + 1 && #[trigger] pv[w].contains(p);
                    if w < v {
                        assert(before.contains(p));
                    }
                }
            }
            v += 1;
        }
        let candidates = strings_of(&set);
        let installed_apps = installed_apps_from_candidates(strings_of(&set));
        let c = CacheData { built_at_unix, candidates, installed_apps, volumes };
        assert forall|p: Seq<char>| #[trigger] strs_view(c.candidates@).contains(p) <==> all_candidates(pv).contains(p) by {
            if all_candidates(pv).contains(p) {
                let w = choose|w: int| 0 <= w < pv.len() && #[trigger] pv[w].contains(p);
                assert(vviews(set@).contains(p));
            }
        }
        c
    }
}

} // verus!
