//! The universe of candidate files: every file under the project root that is
//! eligible for liveness classification, after the exclusion policy has removed
//! build output, dependency caches and editor metadata. Those are categorically
//! "not source", never "unused source", no matter what imports them.

use vstd::prelude::*;
use crate::paths::{normalize, normalize_spec};

verus! {

/// Whether `needle` occurs as a contiguous run of characters inside `hay`.
pub open spec fn contains_seq(hay: Seq<char>, needle: Seq<char>) -> bool {
    exists|i: int|
        0 <= i && i + needle.len() <= hay.len() && #[trigger] hay.subrange(
            i,
            i + needle.len() as int,
        ) == needle
}

fn match_at(h: &str, i: usize, needle: &str) -> (r: bool)
    requires
        i + needle@.len() <= h@.len(),
    ensures
        r == (h@.subrange(i as int, i as int + needle@.len() as int) == needle@),
{
    let n = h.unicode_len();
    let m = needle.unicode_len();
    let mut k: usize = 0;
    while k < m
        invariant
            k <= m,
            n == h@.len(),
            m == needle@.len(),
            i + m <= n,
            forall|t: int| 0 <= t < k ==> h@[i + t] == needle@[t],
        decreases m - k,
    {
        if h.get_char(i + k) != needle.get_char(k) {
            proof {
                assert(h@.subrange(i as int, i as int + m as int)[k as int] != needle@[
                    k as int]);
            }
            return false;
        }
        k = k + 1;
    }
    proof {
        assert(h@.subrange(i as int, i as int + m as int) =~= needle@);
    }
    true
}

/// Substring search: whether `needle` occurs anywhere in `hay`.
pub fn contains_str(hay: &String, needle: &str) -> (r: bool)
    ensures
        r == contains_seq(hay@, needle@),
{
    let h = hay.as_str();
    let n = h.unicode_len();
    let m = needle.unicode_len();
    if m == 0 {
        proof {
            assert(hay@.subrange(0, 0 + needle@.len() as int) =~= needle@);
            assert(contains_seq(hay@, needle@));
        }
        return true;
    }
    if m > n {
        proof {
            assert(!contains_seq(hay@, needle@));
        }
        return false;
    }
    let mut i: usize = 0;
    while i <= n - m
        invariant
            1 <= m <= n,
            i <= n - m + 1,
            n == hay@.len(),
            m == needle@.len(),
            h@ == hay@,
            forall|j: int| 0 <= j < i ==> #[trigger] hay@.subrange(j, j + m as int) != needle@,
        decreases n - m - i + 1,
    {
        if match_at(h, i, needle) {
            proof {
                assert(contains_seq(hay@, needle@));
            }
            return true;
        }
        i = i + 1;
    }
    proof {
        assert forall|j: int|
            0 <= j && j + needle@.len() <= hay@.len() implies #[trigger] hay@.subrange(
            j,
            j + needle@.len() as int,
        ) != needle@ by {
            assert(j < i);
        }
    }
    false
}

/// The exclusion policy: paths inside editor metadata, static assets, the
/// dependency cache, the framework cache, or the framework's own output
/// directory are not candidates for the unused report.
pub open spec fn excluded_spec(path: Seq<char>, out_dir: Seq<char>) -> bool {
    ||| contains_seq(path, ".vscode"@)
    ||| contains_seq(path, "public"@)
    ||| contains_seq(path, "node_modules"@)
    ||| contains_seq(path, ".astro"@)
    ||| contains_seq(path, out_dir)
}

/// Applies the exclusion policy to one (normalized) path.
pub fn is_excluded(path: &String, out_dir: &String) -> (r: bool)
    ensures
        r == excluded_spec(path@, out_dir@),
{
    contains_str(path, ".vscode") || contains_str(path, "public") || contains_str(
        path,
        "node_modules",
    ) || contains_str(path, ".astro") || contains_str(path, out_dir.as_str())
}

/// A set of path strings with value identity: what the original tracked as a
/// map keyed by the path's own text. Holds each path at most once.
pub struct PathSet {
    entries: Vec<String>,
}

impl View for PathSet {
    type V = Set<Seq<char>>;

    closed spec fn view(&self) -> Set<Seq<char>> {
        self.entries.deep_view().to_set()
    }
}

impl PathSet {
    /// Internal invariant: each path is held exactly once.
    pub closed spec fn wf(&self) -> bool {
        self.entries.deep_view().no_duplicates()
    }

    /// The empty set of paths.
    pub fn new() -> (r: PathSet)
        ensures
            r@ == Set::<Seq<char>>::empty(),
            r.wf(),
    {
        let r = PathSet { entries: Vec::new() };
        proof {
            assert(r.entries.deep_view() =~= Seq::<Seq<char>>::empty());
            assert(r@ =~= Set::<Seq<char>>::empty());
        }
        r
    }

    fn index_of(&self, path: &String) -> (r: Option<usize>)
        ensures
            match r {
                Some(i) => i < self.entries@.len() && self.entries.deep_view()[i as int]
                    == path@,
                None => !self@.contains(path@),
            },
    {
        let ghost dv = self.entries.deep_view();
        let mut i: usize = 0;
        while i < self.entries.len()
            invariant
                i <= self.entries.len(),
                dv == self.entries.deep_view(),
                dv.len() == self.entries.len(),
                forall|j: int| 0 <= j < i ==> dv[j] != path@,
            decreases self.entries.len() - i,
        {
            if self.entries[i] == *path {
                proof {
                    assert(dv[i as int] == self.entries@[i as int]@);
                }
                return Some(i);
            }
            i = i + 1;
        }
        proof {
            assert(!dv.contains(path@));
        }
        None
    }

    /// Whether the set holds this path.
    pub fn contains(&self, path: &String) -> (r: bool)
        ensures
            r == self@.contains(path@),
    {
        match self.index_of(path) {
            Some(_) => {
                proof {
                    assert(self.entries.deep_view().contains(path@));
                }
                true
            },
            None => false,
        }
    }

    /// Adds a path; adding one already present changes nothing.
    pub fn insert(&mut self, path: String)
        requires
            old(self).wf(),
        ensures
            final(self)@ == old(self)@.insert(path@),
            final(self).wf(),
    {
        let ghost dv = self.entries.deep_view();
        match self.index_of(&path) {
            Some(_) => {
                proof {
                    assert(dv.contains(path@));
                    assert(self@.contains(path@));
                    assert(self@.insert(path@) =~= self@);
                }
            },
            None => {
                let ghost pv = path@;
                self.entries.push(path);
                proof {
                    assert(self.entries.deep_view() =~= dv + seq![pv]);
                    Seq::<Seq<char>>::lemma_to_set_insert_commutes(dv, pv);
                    assert(!dv.contains(pv));
                }
            },
        }
    }

    /// Removes a path; removing one not present changes nothing.
    pub fn remove(&mut self, path: &String)
        requires
            old(self).wf(),
        ensures
            final(self)@ == old(self)@.remove(path@),
            final(self).wf(),
    {
        let ghost dv = self.entries.deep_view();
        match self.index_of(path) {
            Some(i) => {
                self.entries.remove(i);
                proof {
                    let dv2 = self.entries.deep_view();
                    assert(dv2 =~= dv.remove(i as int));
                    dv.remove_ensures(i as int);
                    assert forall|x: Seq<char>| dv2.contains(x) implies dv.contains(x) && x
                        != path@ by {
                        let j = choose|j: int| 0 <= j < dv2.len() && dv2[j] == x;
                        if j < i {
                            assert(dv[j] == x);
                        } else {
                            assert(dv[j + 1] == x);
                        }
                        if x == path@ {
                            let k: int = if j < i {
                                j
                            } else {
                                j + 1
                            };
                            assert(dv[k] == dv[i as int] && k != i);
                        }
                    }
                    assert forall|x: Seq<char>| dv.contains(x) && x != path@ implies
                        dv2.contains(x) by {
                        let k = choose|k: int| 0 <= k < dv.len() && dv[k] == x;
                        if k < i {
                            assert(dv2[k] == x);
                        } else {
                            assert(dv2[k - 1] == x);
                        }
                    }
                    assert(dv2.to_set() =~= dv.to_set().remove(path@));
                    assert forall|p: int, q: int| 0 <= p < q < dv2.len() implies dv2[p] != dv2[
                        q] by {
                        let p1: int = if p < i {
                            p
                        } else {
                            p + 1
                        };
                        let q1: int = if q < i {
                            q
                        } else {
                            q + 1
                        };
                        assert(dv2[p] == dv[p1] && dv2[q] == dv[q1]);
                    }
                }
            },
            None => {
                proof {
                    assert(self@.remove(path@) =~= self@);
                }
            },
        }
    }

    /// Hands the paths out as a plain list, each exactly once.
    pub fn into_vec(self) -> (r: Vec<String>)
        requires
            self.wf(),
        ensures
            r.deep_view().to_set() == self@,
            r.deep_view().no_duplicates(),
    {
        self.entries
    }
}

/// The universe a listing builds: each path normalized, kept only when the
/// exclusion policy allows it.
pub open spec fn universe_spec(paths: Seq<Seq<char>>, out_dir: Seq<char>) -> Set<Seq<char>> {
    paths.map_values(|p: Seq<char>| normalize_spec(p)).filter(
        |x: Seq<char>| !excluded_spec(x, out_dir),
    ).to_set()
}

/// Builds the universe of candidate files from a listing of every file under
/// the project root: normalizes each path and drops the excluded ones.
pub fn build_universe(paths: &Vec<String>, out_dir: &String) -> (u: PathSet)
    ensures
        u@ == universe_spec(paths.deep_view(), out_dir@),
        u.wf(),
{
    broadcast use vstd::seq_lib::group_filter_ensures;

    let ghost all = paths.deep_view();
    let mut u = PathSet::new();
    let mut i: usize = 0;
    proof {
        assert(all.subrange(0, 0) =~= Seq::<Seq<char>>::empty());
        assert(u@ =~= universe_spec(all.subrange(0, 0), out_dir@));
    }
    while i < paths.len()
        invariant
            i <= paths.len(),
            all == paths.deep_view(),
            all.len() == paths.len(),
            u.wf(),
            u@ == universe_spec(all.subrange(0, i as int), out_dir@),
        decreases paths.len() - i,
    {
        let ghost prefix = all.subrange(0, i as int);
        let n = normalize(paths[i].as_str());
        let ghost nv = n@;
        let keep = !is_excluded(&n, out_dir);
        if keep {
            u.insert(n);
        }
        proof {
            let f = |p: Seq<char>| normalize_spec(p);
            let pred = |x: Seq<char>| !excluded_spec(x, out_dir@);
            let mapped = prefix.map_values(f);
            assert(all.subrange(0, i + 1) =~= prefix.push(all[i as int]));
            assert(all.subrange(0, i + 1).map_values(f) =~= mapped.push(nv));
            assert(mapped.push(nv).drop_last() =~= mapped);
            assert(mapped.push(nv).filter(pred) == if pred(nv) {
                mapped.filter(pred).push(nv)
            } else {
                mapped.filter(pred)
            }) by {
                reveal_with_fuel(Seq::<_>::filter, 1);
            }
            if keep {
                Seq::<Seq<char>>::lemma_to_set_insert_commutes(mapped.filter(pred), nv);
                assert(mapped.filter(pred) + seq![nv] =~= mapped.filter(pred).push(nv));
            }
            assert(u@ =~= universe_spec(all.subrange(0, i + 1), out_dir@));
        }
        i = i + 1;
    }
    proof {
        assert(all.subrange(0, all.len() as int) =~= all);
    }
    u
}

} // verus!
