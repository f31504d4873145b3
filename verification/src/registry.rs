//! The visited-state registry: deduplicates states by grid content and,
//! for each distinct grid, retains the shortest move history seen so far.
//!
//! States are bucketed by a hash of their grid in a `HashMap` keyed by
//! `u64`; each bucket holds the states whose grids share that hash, with
//! pairwise distinct grids.  The registry is modelled as a map from grid
//! contents to the stored history.

use vstd::prelude::*;

use std::collections::HashMap;

use crate::direction::Direction;
use crate::puzzle::Puzzle;

verus! {

broadcast use vstd::std_specs::hash::group_hash_axioms, vstd::set::group_set_axioms;

/// The abstract content of a registry: each registered grid mapped to
/// the move history stored for it.
pub type RegistryModel = Map<Seq<u8>, Seq<Direction>>;

/// The FNV-1a hash of the first `n` bytes of a sequence.
pub open spec fn fnv_upto(s: Seq<u8>, n: int) -> u64
    decreases n,
{
    if n <= 0 {
        0xcbf29ce484222325u64
    } else {
        let x = fnv_upto(s, n - 1) ^ (s[n - 1] as u64);
        (((x as int) * 0x100000001b3) % 0x1_0000_0000_0000_0000) as u64
    }
}

/// The FNV-1a hash of a byte sequence, used to bucket grids.
pub open spec fn fnv_of(s: Seq<u8>) -> u64 {
    fnv_upto(s, s.len() as int)
}

/// Computes the FNV-1a hash of a byte vector.
fn fnv_hash(bytes: &Vec<u8>) -> (h: u64)
    ensures
        h == fnv_of(bytes@),
{
    let mut h: u64 = 0xcbf29ce484222325;
    let mut i: usize = 0;
    while i < bytes.len()
        invariant
            i <= bytes.len(),
            h == fnv_upto(bytes@, i as int),
        decreases bytes.len() - i,
    {
        let x: u64 = h ^ (bytes[i] as u64);
        let wide: u128 = (x as u128) * 0x100000001b3u128;
        h = (wide % 0x1_0000_0000_0000_0000u128) as u64;
        i = i + 1;
    }
    h
}

/// Decides whether two byte vectors hold the same bytes.
fn bytes_eq(a: &Vec<u8>, b: &Vec<u8>) -> (r: bool)
    ensures
        r == (a@ == b@),
{
    if a.len() != b.len() {
        return false;
    }
    let mut i: usize = 0;
    while i < a.len()
        invariant
            i <= a.len(),
            a@.len() == b@.len(),
            forall|j: int| 0 <= j < i ==> a@[j] == b@[j],
        decreases a.len() - i,
    {
        if a[i] != b[i] {
            return false;
        }
        i = i + 1;
    }
    proof {
        assert(a@ =~= b@);
    }
    true
}

/// A bucket is consistent with the model under key `k`: every entry
/// hashes to `k`, is registered with exactly its own history, and no two
/// entries share a grid.
pub open spec fn bucket_ok(b: Seq<Puzzle>, m: RegistryModel, k: u64) -> bool {
    &&& forall|i: int|
        0 <= i < b.len() ==> fnv_of((#[trigger] b[i])@.grid) == k && m.contains_key(b[i]@.grid)
            && m[b[i]@.grid] == b[i]@.path
    &&& forall|i: int, j: int| 0 <= i < j < b.len() ==> b[i]@.grid != b[j]@.grid
}

/// The model's size clamped to the machine-representable range.
pub open spec fn clamped_len(m: RegistryModel) -> nat {
    if m.dom().len() > usize::MAX as nat {
        usize::MAX as nat
    } else {
        m.dom().len()
    }
}

/// Whether an upsert of history `p` for grid `g` is admitted: the grid is
/// new, or the candidate history is strictly shorter than the stored one.
pub open spec fn admits(m: RegistryModel, g: Seq<u8>, p: Seq<Direction>) -> bool {
    !m.contains_key(g) || m[g].len() > p.len()
}

/// The model after one upsert: insert when the grid is new, replace when
/// the candidate history is strictly shorter, otherwise discard.
pub open spec fn upsert_model(m: RegistryModel, g: Seq<u8>, p: Seq<Direction>) -> RegistryModel {
    if admits(m, g, p) {
        m.insert(g, p)
    } else {
        m
    }
}

/// The registry model after a sequence of upserts, applied oldest first.
pub open spec fn apply_upserts(
    m0: RegistryModel,
    entries: Seq<(Seq<u8>, Seq<Direction>)>,
) -> RegistryModel
    decreases entries.len(),
{
    if entries.len() == 0 {
        m0
    } else {
        let e = entries.last();
        upsert_model(apply_upserts(m0, entries.drop_last()), e.0, e.1)
    }
}

/// Across any sequence of upserts into an initially empty registry, the
/// registry holds, per distinct grid, the shortest history seen so far:
/// every upserted grid is registered with a history no longer than any
/// history upserted for it, and the registered history is one of those
/// upserted for it.
pub proof fn lemma_upserts_keep_shortest(entries: Seq<(Seq<u8>, Seq<Direction>)>, g: Seq<u8>)
    ensures
        forall|i: int|
            0 <= i < entries.len() && (#[trigger] entries[i]).0 == g ==> apply_upserts(
                Map::empty(),
                entries,
            ).contains_key(g) && apply_upserts(Map::empty(), entries)[g].len()
                <= entries[i].1.len(),
        apply_upserts(Map::empty(), entries).contains_key(g) ==> exists|i: int|
            0 <= i < entries.len() && (#[trigger] entries[i]).0 == g && entries[i].1
                == apply_upserts(Map::empty(), entries)[g],
    decreases entries.len(),
{
    if entries.len() == 0 {
    } else {
        let rest = entries.drop_last();
        let e = entries.last();
        lemma_upserts_keep_shortest(rest, g);
        let mp = apply_upserts(Map::empty(), rest);
        let m = apply_upserts(Map::empty(), entries);
        assert(m == upsert_model(mp, e.0, e.1));
        assert forall|i: int|
            0 <= i < entries.len() && (#[trigger] entries[i]).0 == g implies m.contains_key(g)
            && m[g].len() <= entries[i].1.len() by {
            if i < entries.len() - 1 {
                assert(rest[i] == entries[i]);
                assert(mp.contains_key(g) && mp[g].len() <= entries[i].1.len());
            }
        }
        if m.contains_key(g) {
            if e.0 == g && admits(mp, g, e.1) {
                assert(entries[entries.len() - 1].0 == g && entries[entries.len() - 1].1 == m[g]);
            } else {
                assert(m[g] == mp[g] && mp.contains_key(g));
                let i = choose|i: int|
                    0 <= i < rest.len() && (#[trigger] rest[i]).0 == g && rest[i].1 == mp[g];
                assert(entries[i] == rest[i]);
            }
        }
    }
}

/// The grids registered after a sequence of upserts are exactly the
/// distinct grids that were ever upserted; in particular the registry
/// size never decreases as a run proceeds.
pub proof fn lemma_upserts_dom(entries: Seq<(Seq<u8>, Seq<Direction>)>)
    ensures
        apply_upserts(Map::empty(), entries).dom() =~= Set::new(
            |g: Seq<u8>| exists|i: int| 0 <= i < entries.len() && (#[trigger] entries[i]).0 == g,
        ),
    decreases entries.len(),
{
    let m = apply_upserts(Map::empty(), entries);
    let sfull = Set::new(
        |g: Seq<u8>| exists|i: int| 0 <= i < entries.len() && (#[trigger] entries[i]).0 == g,
    );
    if entries.len() == 0 {
        assert forall|g: Seq<u8>| !(#[trigger] sfull.contains(g)) by {
            if sfull.contains(g) {
                let i = choose|i: int|
                    0 <= i < entries.len() && (#[trigger] entries[i]).0 == g;
                assert(false);
            }
        }
    } else {
        let rest = entries.drop_last();
        let e = entries.last();
        lemma_upserts_dom(rest);
        let mp = apply_upserts(Map::empty(), rest);
        let srest = Set::new(
            |g: Seq<u8>| exists|i: int| 0 <= i < rest.len() && (#[trigger] rest[i]).0 == g,
        );
        assert forall|g: Seq<u8>| #[trigger] m.dom().contains(g) implies sfull.contains(g) by {
            if mp.dom().contains(g) {
                assert(srest.contains(g));
                let i = choose|i: int| 0 <= i < rest.len() && (#[trigger] rest[i]).0 == g;
                assert(entries[i].0 == g);
            } else {
                assert(g == e.0);
                assert(entries[entries.len() - 1].0 == g);
            }
        }
        assert forall|g: Seq<u8>| #[trigger] sfull.contains(g) implies m.dom().contains(g) by {
            let i = choose|i: int| 0 <= i < entries.len() && (#[trigger] entries[i]).0 == g;
            if i < entries.len() - 1 {
                assert(rest[i].0 == g);
                assert(srest.contains(g));
                assert(mp.dom().contains(g));
            } else {
                assert(g == e.0);
                if !admits(mp, g, e.1) {
                    assert(mp.contains_key(g));
                }
            }
        }
    }
}

/// The visited-state registry.
pub struct Registry {
    table: HashMap<u64, Vec<Puzzle>>,
    count: usize,
    model: Ghost<RegistryModel>,
    journal: Ghost<Seq<(Seq<u8>, Seq<Direction>)>>,
}

impl View for Registry {
    type V = RegistryModel;

    closed spec fn view(&self) -> RegistryModel {
        self.model@
    }
}

/// Every bucket entry keeps its registration when an unrelated grid is
/// inserted into the model.
proof fn lemma_bucket_ok_other_key(
    b: Seq<Puzzle>,
    m0: RegistryModel,
    m1: RegistryModel,
    k: u64,
    g: Seq<u8>,
    p: Seq<Direction>,
)
    requires
        bucket_ok(b, m0, k),
        m1 == m0.insert(g, p),
        fnv_of(g) != k,
    ensures
        bucket_ok(b, m1, k),
{
    assert forall|i: int|
        0 <= i < b.len() implies fnv_of((#[trigger] b[i])@.grid) == k && m1.contains_key(
        b[i]@.grid,
    ) && m1[b[i]@.grid] == b[i]@.path by {
        assert(fnv_of(b[i]@.grid) == k);
        assert(b[i]@.grid != g);
    }
}

/// A rebuilt bucket is consistent with the updated model: old entries
/// (other than a replaced one) keep their registration, and the new
/// entry carries the inserted history.
proof fn lemma_bucket_ok_updated(
    b0: Seq<Puzzle>,
    nb: Seq<Puzzle>,
    m0: RegistryModel,
    m1: RegistryModel,
    k: u64,
    c: crate::puzzle::StateModel,
    replace: Option<int>,
)
    requires
        bucket_ok(b0, m0, k),
        m1 == m0.insert(c.grid, c.path),
        fnv_of(c.grid) == k,
        match replace {
            Some(ri) => {
                &&& 0 <= ri < b0.len()
                &&& b0[ri]@.grid == c.grid
                &&& nb.len() == b0.len()
                &&& forall|j: int| 0 <= j < b0.len() && j != ri ==> (#[trigger] nb[j])@ == b0[j]@
                &&& nb[ri]@ == c
            },
            None => {
                &&& (forall|j: int| 0 <= j < b0.len() ==> (#[trigger] b0[j])@.grid != c.grid)
                &&& nb.len() == b0.len() + 1
                &&& forall|j: int| 0 <= j < b0.len() ==> (#[trigger] nb[j])@ == b0[j]@
                &&& nb[b0.len() as int]@ == c
            },
        },
    ensures
        bucket_ok(nb, m1, k),
{
    let ci: int = match replace {
        Some(ri) => ri,
        None => b0.len() as int,
    };
    assert forall|i: int|
        0 <= i < nb.len() implies fnv_of((#[trigger] nb[i])@.grid) == k && m1.contains_key(
        nb[i]@.grid,
    ) && m1[nb[i]@.grid] == nb[i]@.path by {
        if i == ci {
            assert(nb[i]@ == c);
        } else {
            assert(nb[i]@ == b0[i]@);
            assert(fnv_of(b0[i]@.grid) == k);
            assert(b0[i]@.grid != c.grid);
        }
    }
    assert forall|i: int, j: int| 0 <= i < j < nb.len() implies nb[i]@.grid != nb[j]@.grid by {
        if i == ci {
            assert(nb[j]@ == b0[j]@ && nb[j]@.grid != c.grid);
        } else if j == ci {
            assert(nb[i]@ == b0[i]@ && nb[i]@.grid != c.grid);
        } else {
            assert(nb[i]@ == b0[i]@ && nb[j]@ == b0[j]@);
        }
    }
}

/// Scans a bucket for an entry holding the given grid, returning its
/// index and the length of its stored history.
fn probe_bucket(b: &Vec<Puzzle>, grid: &Vec<u8>) -> (r: Option<(usize, usize)>)
    ensures
        match r {
            Some(pr) => (pr.0 as int) < b@.len() && b@[pr.0 as int]@.grid == grid@ && pr.1
                == b@[pr.0 as int]@.path.len(),
            None => forall|j: int| 0 <= j < b@.len() ==> (#[trigger] b@[j])@.grid != grid@,
        },
{
    let mut i: usize = 0;
    while i < b.len()
        invariant
            i <= b@.len(),
            forall|j: int| 0 <= j < i ==> (#[trigger] b@[j])@.grid != grid@,
        decreases b@.len() - i,
    {
        let entry = &b[i];
        if bytes_eq(entry.grid_ref(), grid) {
            let depth = entry.path_depth();
            return Some((i, depth));
        }
        i = i + 1;
    }
    None
}

/// Copies a bucket, either replacing the entry at `replace_at` with the
/// candidate or appending the candidate at the end.
fn rebuild_bucket(b: &Vec<Puzzle>, replace_at: Option<usize>, cand: &Puzzle) -> (nb: Vec<Puzzle>)
    requires
        match replace_at {
            Some(ri) => (ri as int) < b@.len(),
            None => true,
        },
    ensures
        match replace_at {
            Some(ri) => nb@.len() == b@.len() && (forall|j: int|
                0 <= j < b@.len() && j != ri as int ==> (#[trigger] nb@[j])@ == b@[j]@)
                && nb@[ri as int]@ == cand@,
            None => nb@.len() == b@.len() + 1 && (forall|j: int|
                0 <= j < b@.len() ==> (#[trigger] nb@[j])@ == b@[j]@) && nb@[b@.len() as int]@
                == cand@,
        },
{
    let mut nb: Vec<Puzzle> = Vec::new();
    let mut j: usize = 0;
    while j < b.len()
        invariant
            j <= b@.len(),
            nb@.len() == j,
            forall|i: int|
                0 <= i < j && (match replace_at {
                    Some(ri) => i != ri as int,
                    None => true,
                }) ==> (#[trigger] nb@[i])@ == b@[i]@,
            match replace_at {
                Some(ri) => (ri as int) < j ==> nb@[ri as int]@ == cand@,
                None => true,
            },
        decreases b@.len() - j,
    {
        let replace_here = match replace_at {
            Some(ri) => ri == j,
            None => false,
        };
        if replace_here {
            nb.push(cand.duplicate());
        } else {
            nb.push(b[j].duplicate());
        }
        j = j + 1;
    }
    if replace_at.is_none() {
        nb.push(cand.duplicate());
    }
    nb
}

impl Registry {
    /// Internal consistency of the registry: the stored count is the
    /// clamped model size, every bucket is consistent with the model,
    /// and every registered grid is present in the bucket of its hash.
    /// The grid and history of every upsert this registry has seen, in
    /// order.
    pub closed spec fn upserts(&self) -> Seq<(Seq<u8>, Seq<Direction>)> {
        self.journal@
    }

    pub closed spec fn inv(&self) -> bool {
        let m = self.model@;
        let t = self.table@;
        &&& m == apply_upserts(Map::empty(), self.journal@)
        &&& m.dom().finite()
        &&& self.count as nat == clamped_len(m)
        &&& forall|k: u64| t.contains_key(k) ==> bucket_ok((#[trigger] t[k])@, m, k)
        &&& forall|g: Seq<u8>|
            #[trigger] m.contains_key(g) ==> t.contains_key(fnv_of(g)) && exists|i: int|
                0 <= i < t[fnv_of(g)]@.len() && (#[trigger] t[fnv_of(g)]@[i])@.grid == g
    }

    /// Creates an empty registry.
    pub fn new() -> (r: Registry)
        ensures
            r.inv(),
            r@ == RegistryModel::empty(),
            r.upserts() == Seq::<(Seq<u8>, Seq<Direction>)>::empty(),
    {
        let r = Registry {
            table: HashMap::new(),
            count: 0,
            model: Ghost(Map::empty()),
            journal: Ghost(Seq::empty()),
        };
        proof {
            assert(r.model@.dom() =~= Set::<Seq<u8>>::empty());
        }
        r
    }

    /// A consistent registry holds exactly the outcome of the upserts it
    /// has seen, so the shortest-history and distinct-grid laws over
    /// upsert sequences apply to any live registry.
    pub proof fn lemma_tracks_upserts(&self)
        requires
            self.inv(),
        ensures
            self@ == apply_upserts(Map::empty(), self.upserts()),
    {
    }

    /// The number of distinct grids registered so far (clamped to the
    /// machine-representable range).
    pub fn len(&self) -> (n: usize)
        requires
            self.inv(),
        ensures
            n as nat == clamped_len(self@),
            self@.dom().finite(),
    {
        self.count
    }

    /// Runs one state through the registry: admit it when its grid is
    /// new or when its history is strictly shorter than the stored one
    /// (replacing the stored entry), otherwise discard it.  Returns
    /// whether the state was admitted.
    pub fn upsert(&mut self, cand: &Puzzle) -> (admitted: bool)
        requires
            old(self).inv(),
        ensures
            final(self).inv(),
            admitted == admits(old(self)@, cand@.grid, cand@.path),
            final(self)@ == upsert_model(old(self)@, cand@.grid, cand@.path),
            final(self).upserts() == old(self).upserts().push((cand@.grid, cand@.path)),
            forall|g: Seq<u8>|
                old(self)@.contains_key(g) ==> #[trigger] final(self)@.contains_key(g),
    {
        let ghost g = cand@.grid;
        let ghost p = cand@.path;
        let ghost m0 = self.model@;
        let ghost t0 = self.table@;
        let ghost j0 = self.journal@;
        self.journal = Ghost(j0.push((g, p)));
        proof {
            assert(self.journal@.drop_last() =~= j0);
            assert(self.journal@.last() == (g, p));
            assert(apply_upserts(Map::empty(), self.journal@) == upsert_model(m0, g, p));
        }
        let key = fnv_hash(cand.grid_ref());
        let has_bucket = self.table.contains_key(&key);
        let ghost b0: Seq<Puzzle> = if t0.contains_key(key) {
            t0[key]@
        } else {
            Seq::empty()
        };
        let probe: Option<(usize, usize)> = if has_bucket {
            match self.table.get(&key) {
                Some(b) => {
                    let pr = probe_bucket(b, cand.grid_ref());
                    proof {
                        assert(*b == t0[key]);
                    }
                    pr
                },
                None => {
                    proof {
                        assert(false);
                    }
                    None
                },
            }
        } else {
            None
        };
        proof {
            if has_bucket {
                assert(bucket_ok(b0, m0, key));
            }
            match probe {
                Some(pr) => {
                    assert(b0[pr.0 as int]@.grid == g);
                    assert(m0.contains_key(g) && m0[g] == b0[pr.0 as int]@.path);
                },
                None => {
                    if m0.contains_key(g) {
                        assert(t0.contains_key(fnv_of(g)));
                        let i = choose|i: int|
                            0 <= i < t0[fnv_of(g)]@.len() && (#[trigger] t0[fnv_of(
                                g,
                            )]@[i])@.grid == g;
                        assert(b0[i]@.grid == g);
                        assert(false);
                    }
                },
            }
        }
        let cand_depth = cand.path_depth();
        let admitted: bool = match probe {
            Some(pr) => pr.1 > cand_depth,
            None => true,
        };
        if !admitted {
            proof {
                assert(self@ == upsert_model(m0, g, p));
            }
            return false;
        }
        let nb: Vec<Puzzle> = if has_bucket {
            let replace_at: Option<usize> = match probe {
                Some(pr) => Some(pr.0),
                None => None,
            };
            match self.table.get(&key) {
                Some(b) => rebuild_bucket(b, replace_at, cand),
                None => {
                    proof {
                        assert(false);
                    }
                    Vec::new()
                },
            }
        } else {
            let mut v: Vec<Puzzle> = Vec::new();
            v.push(cand.duplicate());
            v
        };
        self.table.insert(key, nb);
        if probe.is_none() && self.count < usize::MAX {
            self.count = self.count + 1;
        }
        self.model = Ghost(m0.insert(g, p));
        proof {
            let m1 = self.model@;
            let t1 = self.table@;
            // Size and count.
            assert(m1.dom() =~= m0.dom().insert(g));
            if probe is Some {
                assert(m0.dom().contains(g));
                assert(m1.dom() =~= m0.dom());
            }
            // Buckets are consistent with the updated model.
            let ghost replace_g: Option<int> = match probe {
                Some(pr) => Some(pr.0 as int),
                None => None,
            };
            lemma_bucket_ok_updated(b0, t1[key]@, m0, m1, key, cand@, replace_g);
            assert forall|k: u64| t1.contains_key(k) implies bucket_ok(
                (#[trigger] t1[k])@,
                m1,
                k,
            ) by {
                if k != key {
                    assert(t0.contains_key(k) && t1[k] == t0[k]);
                    lemma_bucket_ok_other_key(t0[k]@, m0, m1, k, g, p);
                }
            }
            // Every registered grid is reachable through its hash bucket.
            assert forall|g2: Seq<u8>| #[trigger] m1.contains_key(g2) implies t1.contains_key(
                fnv_of(g2),
            ) && exists|i: int|
                0 <= i < t1[fnv_of(g2)]@.len() && (#[trigger] t1[fnv_of(g2)]@[i])@.grid
                    == g2 by {
                let nbs = t1[key]@;
                if g2 == g {
                    let ci: int = match replace_g {
                        Some(ri) => ri,
                        None => b0.len() as int,
                    };
                    assert(0 <= ci < nbs.len() && nbs[ci]@.grid == g2);
                } else {
                    assert(m0.contains_key(g2));
                    let k2 = fnv_of(g2);
                    let i = choose|i: int|
                        0 <= i < t0[k2]@.len() && (#[trigger] t0[k2]@[i])@.grid == g2;
                    if k2 == key {
                        match replace_g {
                            Some(ri) => {
                                assert(b0[ri]@.grid == g);
                                assert(i != ri);
                                assert(nbs[i]@ == b0[i]@);
                            },
                            None => {
                                assert(nbs[i]@ == b0[i]@);
                            },
                        }
                        assert(0 <= i < nbs.len() && nbs[i]@.grid == g2);
                    } else {
                        assert(t1[k2] == t0[k2]);
                        assert(0 <= i < t1[k2]@.len() && t1[k2]@[i]@.grid == g2);
                    }
                }
            }
        }
        true
    }
}

} // verus!
