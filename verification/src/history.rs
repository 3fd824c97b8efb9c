use crate::dirlist::{
    find_position, lemma_fresh_wf, lemma_position, lemma_refreshed_wf, lemma_warmed_cursor,
    spec_fresh, spec_list_wf,
    spec_need_update, spec_refreshed, spec_snapshot_entries, spec_warmed, DirList, DirProbe,
    DirSnapshot, IoError, ListView,
};
use crate::sort::spec_sort;
use crate::entry::spec_entry_views;
use crate::path::{
    ancestors, lemma_ancestors_chain, lemma_ancestors_shrink, lemma_parent_join, spec_ancestors,
    spec_file_name, spec_is_normal, spec_join, spec_views,
};
use crate::sort::SortType;
use vstd::prelude::*;

verus! {

/// No two of `keys` are the same path.
spec fn keys_unique(keys: Seq<String>) -> bool {
    forall|i: int, j: int|
        0 <= i < j < keys.len() ==> (#[trigger] keys[i])@ != (#[trigger] keys[j])@
}

/// Whether `k` is one of `keys`.
spec fn has_key(keys: Seq<String>, k: Seq<char>) -> bool {
    exists|i: int| 0 <= i < keys.len() && (#[trigger] keys[i])@ == k
}

/// A position of `k` in `keys`.
spec fn index_of(keys: Seq<String>, k: Seq<char>) -> int {
    choose|i: int| 0 <= i < keys.len() && (#[trigger] keys[i])@ == k
}

/// The mapping that the two parallel sequences stand for.
spec fn map_of(keys: Seq<String>, lists: Seq<DirList>) -> Map<Seq<char>, ListView> {
    Map::new(|k: Seq<char>| has_key(keys, k), |k: Seq<char>| lists[index_of(keys, k)]@)
}

proof fn lemma_map_at(keys: Seq<String>, lists: Seq<DirList>, i: int)
    requires
        keys_unique(keys),
        keys.len() == lists.len(),
        0 <= i < keys.len(),
    ensures
        map_of(keys, lists).dom().contains(keys[i]@),
        map_of(keys, lists)[keys[i]@] == lists[i]@,
        index_of(keys, keys[i]@) == i,
{
    let k = keys[i]@;
    assert(has_key(keys, k));
    let j = index_of(keys, k);
    assert(0 <= j < keys.len() && keys[j]@ == k);
    if j != i {
        if j < i {
            assert(keys[j]@ != keys[i]@);
        } else {
            assert(keys[i]@ != keys[j]@);
        }
    }
}

proof fn lemma_map_push(keys: Seq<String>, lists: Seq<DirList>, k: String, l: DirList)
    requires
        keys_unique(keys),
        keys.len() == lists.len(),
        !has_key(keys, k@),
    ensures
        keys_unique(keys.push(k)),
        map_of(keys.push(k), lists.push(l)) == map_of(keys, lists).insert(k@, l@),
{
    let keys2 = keys.push(k);
    let lists2 = lists.push(l);
    assert forall|i: int, j: int| 0 <= i < j < keys2.len() implies (#[trigger] keys2[i])@ != (
    #[trigger] keys2[j])@ by {
        if j == keys.len() {
            assert(keys[i]@ != k@);
        } else {
            assert(keys[i]@ != keys[j]@);
        }
    }
    let m2 = map_of(keys2, lists2);
    let m = map_of(keys, lists).insert(k@, l@);
    assert forall|x: Seq<char>| m2.dom().contains(x) <==> m.dom().contains(x) by {
        if has_key(keys2, x) {
            let i = index_of(keys2, x);
            if i < keys.len() {
                assert(keys[i]@ == x);
            }
        }
        if has_key(keys, x) {
            let i = index_of(keys, x);
            assert(keys2[i]@ == x);
        }
        if x == k@ {
            assert(keys2[keys.len() as int]@ == x);
        }
    }
    assert forall|x: Seq<char>| m2.dom().contains(x) implies m2[x] == m[x] by {
        let i = index_of(keys2, x);
        lemma_map_at(keys2, lists2, i);
        if i < keys.len() {
            assert(keys[i]@ == x);
            lemma_map_at(keys, lists, i);
        }
    }
    assert(m2 =~= m);
}

proof fn lemma_map_update(keys: Seq<String>, lists: Seq<DirList>, i: int, l: DirList)
    requires
        keys_unique(keys),
        keys.len() == lists.len(),
        0 <= i < keys.len(),
    ensures
        map_of(keys, lists.update(i, l)) == map_of(keys, lists).insert(keys[i]@, l@),
{
    let lists2 = lists.update(i, l);
    let m2 = map_of(keys, lists2);
    let m = map_of(keys, lists).insert(keys[i]@, l@);
    lemma_map_at(keys, lists, i);
    assert forall|x: Seq<char>| m2.dom().contains(x) implies m2[x] == m[x] by {
        let j = index_of(keys, x);
        lemma_map_at(keys, lists2, j);
        lemma_map_at(keys, lists, j);
    }
    assert(m2 =~= m);
}

proof fn lemma_map_remove(keys: Seq<String>, lists: Seq<DirList>, i: int)
    requires
        keys_unique(keys),
        keys.len() == lists.len(),
        0 <= i < keys.len(),
    ensures
        keys_unique(keys.remove(i)),
        map_of(keys.remove(i), lists.remove(i)) == map_of(keys, lists).remove(keys[i]@),
{
    let keys2 = keys.remove(i);
    let lists2 = lists.remove(i);
    assert forall|a: int, b: int| 0 <= a < b < keys2.len() implies (#[trigger] keys2[a])@ != (
    #[trigger] keys2[b])@ by {
        let a1 = if a < i {
            a
        } else {
            a + 1
        };
        let b1 = if b < i {
            b
        } else {
            b + 1
        };
        assert(keys[a1]@ != keys[b1]@);
    }
    let m2 = map_of(keys2, lists2);
    let m = map_of(keys, lists).remove(keys[i]@);
    assert forall|x: Seq<char>| m2.dom().contains(x) <==> m.dom().contains(x) by {
        if has_key(keys2, x) {
            let j = index_of(keys2, x);
            let j1 = if j < i {
                j
            } else {
                j + 1
            };
            assert(keys[j1]@ == x);
            lemma_map_at(keys, lists, j1);
            lemma_map_at(keys, lists, i);
        }
        if m.dom().contains(x) {
            let j = index_of(keys, x);
            lemma_map_at(keys, lists, j);
            let j2 = if j < i {
                j
            } else {
                j - 1
            };
            assert(keys2[j2]@ == x);
        }
    }
    assert forall|x: Seq<char>| m2.dom().contains(x) implies m2[x] == m[x] by {
        let j = index_of(keys2, x);
        lemma_map_at(keys2, lists2, j);
        let j1 = if j < i {
            j
        } else {
            j + 1
        };
        lemma_map_at(keys, lists, j1);
    }
    assert(m2 =~= m);
}

proof fn lemma_map_update_all(keys: Seq<String>, lists: Seq<DirList>, i: int)
    requires
        keys_unique(keys),
        keys.len() == lists.len(),
        0 <= i < keys.len(),
    ensures
        forall|l: DirList| #[trigger]
            map_of(keys, lists.update(i, l)) == map_of(keys, lists).insert(keys[i]@, l@),
{
    assert forall|l: DirList| #[trigger]
        map_of(keys, lists.update(i, l)) == map_of(keys, lists).insert(keys[i]@, l@) by {
        lemma_map_update(keys, lists, i, l);
    }
}

/// What a fetch of `path` finds, given the cache `m` and what the filesystem
/// shows of `path`: the resident listing, read again where it is stale, or a
/// first listing where none is resident; or the error of the read it needed.
pub open spec fn spec_fetch(
    m: Map<Seq<char>, ListView>,
    path: Seq<char>,
    probe: DirProbe,
    sort: SortType,
) -> Result<ListView, IoError> {
    if m.dom().contains(path) {
        if spec_need_update(m[path], probe.marker) {
            match probe.read {
                Ok(s) => Ok(spec_refreshed(m[path], s, sort)),
                Err(e) => Err(e),
            }
        } else {
            Ok(m[path])
        }
    } else {
        match probe.read {
            Ok(s) => Ok(spec_fresh(path, s, sort)),
            Err(e) => Err(e),
        }
    }
}

/// The listing that is resident for `path` after a fetch that leaves it in
/// the cache: as `spec_fetch` finds it, but a stale resident listing whose
/// read failed stays as it was.
pub open spec fn spec_resident(
    m: Map<Seq<char>, ListView>,
    path: Seq<char>,
    probe: DirProbe,
    sort: SortType,
) -> Option<ListView> {
    match spec_fetch(m, path, probe, sort) {
        Ok(v) => Some(v),
        Err(_) => if m.dom().contains(path) {
            Some(m[path])
        } else {
            None
        },
    }
}

/// The cache `m` warmed along `ancs`, the ancestors of `child` from the
/// nearest on, with what was read of each: a first listing of every ancestor
/// whose read succeeded, its cursor on the entry that leads down to `child`.
/// Ancestors without a read stay as they are.
pub open spec fn spec_populated(
    m: Map<Seq<char>, ListView>,
    child: Seq<char>,
    ancs: Seq<Seq<char>>,
    reads: Seq<Result<DirSnapshot, IoError>>,
    sort: SortType,
) -> Map<Seq<char>, ListView>
    decreases ancs.len(),
{
    if ancs.len() == 0 || reads.len() == 0 {
        m
    } else {
        let warmed = match reads[0] {
            Ok(s) => m.insert(ancs[0], spec_warmed(ancs[0], child, s, sort)),
            Err(_) => m,
        };
        spec_populated(warmed, ancs[0], ancs.drop_first(), reads.drop_first(), sort)
    }
}

/// The errors among the first `n` of `reads`, in order.
pub open spec fn spec_read_errors(reads: Seq<Result<DirSnapshot, IoError>>, n: int) -> Seq<IoError>
    decreases n,
{
    if n <= 0 || n > reads.len() {
        Seq::empty()
    } else {
        match reads[n - 1] {
            Ok(_) => spec_read_errors(reads, n - 1),
            Err(e) => spec_read_errors(reads, n - 1).push(e),
        }
    }
}

/// Whether a cursor can index every entry of every read.
pub open spec fn spec_reads_fit(reads: Seq<Result<DirSnapshot, IoError>>) -> bool {
    forall|i: int| 0 <= i < reads.len() ==> (#[trigger] reads[i] matches Ok(s) ==> s.spec_fits())
}

/// Every listing of `m` with its staleness flag set.
pub open spec fn spec_deprecated(m: Map<Seq<char>, ListView>) -> Map<Seq<char>, ListView> {
    m.map_values(|v: ListView| ListView { update_needed: true, ..v })
}

/// The cache of listings of one tab, keyed by directory path. A path has at
/// most one listing in it.
pub struct DirHistory {
    keys: Vec<String>,
    lists: Vec<DirList>,
}

impl View for DirHistory {
    type V = Map<Seq<char>, ListView>;

    closed spec fn view(&self) -> Map<Seq<char>, ListView> {
        map_of(self.keys@, self.lists@)
    }
}

impl DirHistory {
    #[verifier::type_invariant]
    spec fn inv(self) -> bool {
        &&& self.keys@.len() == self.lists@.len()
        &&& keys_unique(self.keys@)
    }

    /// An empty cache.
    pub fn new() -> (r: Self)
        ensures
            r@ == Map::<Seq<char>, ListView>::empty(),
    {
        let r = DirHistory { keys: Vec::new(), lists: Vec::new() };
        assert(r@ =~= Map::<Seq<char>, ListView>::empty());
        r
    }

    /// The slot that holds `path`, if one does.
    fn find(&self, path: &String) -> (r: Option<usize>)
        ensures
            match r {
                Some(i) => i < self.keys@.len() && self.keys@[i as int]@ == path@,
                None => !has_key(self.keys@, path@),
            },
    {
        let mut i: usize = 0;
        while i < self.keys.len()
            invariant
                i <= self.keys@.len(),
                forall|k: int| 0 <= k < i ==> (#[trigger] self.keys@[k])@ != path@,
            decreases self.keys@.len() - i,
        {
            if self.keys[i] == *path {
                return Some(i);
            }
            i = i + 1;
        }
        None
    }

    /// Whether a listing of `path` is in the cache.
    pub fn contains(&self, path: &str) -> (r: bool)
        ensures
            r == self@.dom().contains(path@),
    {
        let key: String = String::from_str(path);
        self.find(&key).is_some()
    }

    /// The listing of `path` in the cache, if there is one.
    pub fn get(&self, path: &str) -> (r: Option<&DirList>)
        ensures
            match r {
                Some(l) => self@.dom().contains(path@) && self@[path@] == l@,
                None => !self@.dom().contains(path@),
            },
    {
        let key: String = String::from_str(path);
        proof {
            use_type_invariant(self);
        }
        match self.find(&key) {
            Some(i) => {
                proof {
                    lemma_map_at(self.keys@, self.lists@, i as int);
                }
                Some(&self.lists[i])
            },
            None => None,
        }
    }

    /// Hands a listing back to the cache, under the listing's own path. It
    /// takes the place of a listing that the cache holds for that path.
    /// Without a listing nothing happens.
    pub fn put_back(&mut self, dirlist: Option<DirList>)
        ensures
            match dirlist {
                Some(l) => final(self)@ == old(self)@.insert(l.path@, l@),
                None => final(self)@ == old(self)@,
            },
    {
        if let Some(l) = dirlist {
            proof {
                use_type_invariant(&*self);
            }
            let key: String = l.path.clone();
            let found: Option<usize> = self.find(&key);
            let mut taken: DirHistory = DirHistory::new();
            core::mem::swap(self, &mut taken);
            let DirHistory { keys, lists } = taken;
            let mut keys: Vec<String> = keys;
            let mut lists: Vec<DirList> = lists;
            match found {
                Some(i) => {
                    proof {
                        lemma_map_update(keys@, lists@, i as int, l);
                    }
                    lists.set(i, l);
                },
                None => {
                    proof {
                        lemma_map_push(keys@, lists@, key, l);
                    }
                    keys.push(key);
                    lists.push(l);
                },
            }
            *self = DirHistory { keys, lists };
        }
    }

    /// The paths that have a listing in the cache, in no particular order.
    /// None occurs twice: a path has at most one listing in the cache.
    pub fn paths(&self) -> (r: Vec<String>)
        ensures
            spec_views(r@).no_duplicates(),
            forall|k: Seq<char>| spec_views(r@).contains(k) <==> self@.dom().contains(k),
    {
        let mut out: Vec<String> = Vec::new();
        let mut i: usize = 0;
        while i < self.keys.len()
            invariant
                i <= self.keys@.len(),
                out@.len() == i,
                forall|k: int| 0 <= k < i ==> (#[trigger] out@[k])@ == self.keys@[k]@,
            decreases self.keys@.len() - i,
        {
            out.push(self.keys[i].clone());
            i = i + 1;
        }
        proof {
            use_type_invariant(self);
            let keys = self.keys@;
            let paths = spec_views(out@);
            assert(paths =~= spec_views(keys));
            assert forall|i: int, j: int|
                0 <= i < paths.len() && 0 <= j < paths.len() && i != j implies paths[i]
                != paths[j] by {
                if i < j {
                    assert(keys[i]@ != keys[j]@);
                } else {
                    assert(keys[j]@ != keys[i]@);
                }
            }
            assert forall|k: Seq<char>| paths.contains(k) <==> self@.dom().contains(k) by {
                if paths.contains(k) {
                    let i = choose|i: int| 0 <= i < paths.len() && paths[i] == k;
                    assert(keys[i]@ == k);
                }
                if has_key(keys, k) {
                    let i = index_of(keys, k);
                    assert(paths[i] == k);
                }
            }
        }
        out
    }

    /// The number of listings in the cache.
    pub fn len(&self) -> (r: usize)
        ensures
            r == self@.dom().len(),
            self@.dom().finite(),
    {
        proof {
            use_type_invariant(self);
            lemma_map_dom(self.keys@, self.lists@);
        }
        self.keys.len()
    }

    /// Takes the listing of `path` out of the cache, read again where it is
    /// stale, or makes a first listing where the cache holds none. Either way
    /// the cache holds no listing of `path` afterwards: also where the read
    /// that a stale listing needed has failed, and the error is returned.
    pub fn pop_or_create(&mut self, path: &str, probe: DirProbe, sort: &SortType) -> (r: Result<
        DirList,
        IoError,
    >)
        requires
            probe.spec_fits(),
        ensures
            final(self)@ == old(self)@.remove(path@),
            !final(self)@.dom().contains(path@),
            match spec_fetch(old(self)@, path@, probe, *sort) {
                Ok(v) => r matches Ok(l) && l@ == v,
                Err(e) => r == Err::<DirList, IoError>(e),
            },
    {
        let key: String = String::from_str(path);
        proof {
            use_type_invariant(&*self);
        }
        match self.find(&key) {
            Some(i) => {
                let mut taken: DirHistory = DirHistory::new();
                core::mem::swap(self, &mut taken);
                let DirHistory { keys, lists } = taken;
                let mut keys: Vec<String> = keys;
                let mut lists: Vec<DirList> = lists;
                proof {
                    lemma_map_at(keys@, lists@, i as int);
                    lemma_map_remove(keys@, lists@, i as int);
                }
                let _ = keys.remove(i);
                let mut l: DirList = lists.remove(i);
                *self = DirHistory { keys, lists };
                if l.need_update(probe.marker) {
                    match l.update_contents(probe.read, sort) {
                        Ok(_) => Ok(l),
                        Err(e) => Err(e),
                    }
                } else {
                    Ok(l)
                }
            },
            None => {
                assert(self@.remove(path@) =~= self@);
                DirList::new(key, probe.read, sort)
            },
        }
    }

    /// The listing of `path` in the cache, read again where it is stale, or a
    /// first listing put into the cache where it held none. The listing stays
    /// in the cache. A stale listing whose read failed is handed out as it
    /// was; there is no listing only where the cache held none and the read
    /// failed.
    pub fn get_mut_or_create(&mut self, path: &str, probe: DirProbe, sort: &SortType) -> (r:
        Option<&mut DirList>)
        requires
            probe.spec_fits(),
        ensures
            match r {
                Some(l) => spec_resident(old(self)@, path@, probe, *sort) == Some(l@)
                    && final(self)@ == old(self)@.insert(path@, final(l)@),
                None => spec_resident(old(self)@, path@, probe, *sort) is None && final(self)@
                    == old(self)@,
            },
    {
        let key: String = String::from_str(path);
        proof {
            use_type_invariant(&*self);
        }
        let found: Option<usize> = self.find(&key);
        let slot: usize = match found {
            Some(i) => {
                proof {
                    lemma_map_at(self.keys@, self.lists@, i as int);
                    lemma_map_update_all(self.keys@, self.lists@, i as int);
                }
                if self.lists[i].need_update(probe.marker) {
                    let _ = self.lists[i].update_contents(probe.read, sort);
                }
                i
            },
            None => {
                match DirList::new(key.clone(), probe.read, sort) {
                    Ok(l) => {
                        let mut taken: DirHistory = DirHistory::new();
                        core::mem::swap(self, &mut taken);
                        let DirHistory { keys, lists } = taken;
                        let mut keys: Vec<String> = keys;
                        let mut lists: Vec<DirList> = lists;
                        proof {
                            lemma_map_push(keys@, lists@, key, l);
                        }
                        keys.push(key);
                        lists.push(l);
                        *self = DirHistory { keys, lists };
                        self.lists.len() - 1
                    },
                    Err(_) => {
                        return None;
                    },
                }
            },
        };
        proof {
            use_type_invariant(&*self);
            lemma_map_at(self.keys@, self.lists@, slot as int);
            lemma_map_update_all(self.keys@, self.lists@, slot as int);
            assert(self@.insert(path@, self.lists@[slot as int]@) =~= self@);
        }
        let ghost mid = self@;
        let ghost old_map = old(self)@;
        assert(forall|v: ListView| mid.insert(path@, v) =~= old_map.insert(path@, v));
        Some(&mut self.lists[slot])
    }

    /// Warms the cache with a first listing of every ancestor of `path`, the
    /// cursor of each on the entry that leads down to `path`. `reads` holds
    /// what was read of each ancestor, the nearest first. An ancestor whose
    /// read failed is passed over; the errors are returned in order.
    pub fn populate_to_root(
        &mut self,
        path: &str,
        reads: &Vec<Result<DirSnapshot, IoError>>,
        sort: &SortType,
    ) -> (errors: Vec<IoError>)
        requires
            spec_reads_fit(reads@),
        ensures
            final(self)@ == spec_populated(
                old(self)@,
                path@,
                spec_ancestors(path@),
                reads@,
                *sort,
            ),
            errors@ == spec_read_errors(
                reads@,
                if spec_ancestors(path@).len() <= reads@.len() {
                    spec_ancestors(path@).len() as int
                } else {
                    reads@.len() as int
                },
            ),
    {
        let ancs: Vec<String> = ancestors(path);
        let ghost a = spec_ancestors(path@);
        let ghost m0 = self@;
        let mut errors: Vec<IoError> = Vec::new();
        let mut child: String = String::from_str(path);
        let mut i: usize = 0;
        proof {
            assert(a.subrange(0, a.len() as int) =~= a);
            assert(reads@.subrange(0, reads@.len() as int) =~= reads@);
        }
        while i < ancs.len() && i < reads.len()
            invariant
                i <= ancs@.len(),
                i <= reads@.len(),
                spec_views(ancs@) == a,
                spec_reads_fit(reads@),
                spec_populated(m0, path@, a, reads@, *sort) == spec_populated(
                    self@,
                    child@,
                    a.subrange(i as int, a.len() as int),
                    reads@.subrange(i as int, reads@.len() as int),
                    *sort,
                ),
                errors@ == spec_read_errors(reads@, i as int),
            decreases ancs@.len() - i,
        {
            proof {
                assert(a.subrange(i as int, a.len() as int).drop_first() =~= a.subrange(
                    i + 1,
                    a.len() as int,
                ));
                assert(reads@.subrange(i as int, reads@.len() as int).drop_first()
                    =~= reads@.subrange(i + 1, reads@.len() as int));
                assert(a[i as int] == ancs@[i as int]@);
            }
            match &reads[i] {
                Ok(snapshot) => {
                    let mut l: DirList = DirList::fresh(ancs[i].clone(), snapshot, sort);
                    proof {
                        lemma_position(spec_entry_views(l.contents@), child@);
                    }
                    if let Some(p) = find_position(&l.contents, &child) {
                        l.index = p as i32;
                    }
                    self.put_back(Some(l));
                },
                Err(e) => {
                    errors.push(*e);
                },
            }
            child = ancs[i].clone();
            i = i + 1;
        }
        errors
    }

    /// Marks every listing in the cache as stale. Nothing else changes.
    pub fn depecrate_all_entries(&mut self)
        ensures
            final(self)@ == spec_deprecated(old(self)@),
    {
        proof {
            use_type_invariant(&*self);
        }
        let ghost keys0 = self.keys@;
        let ghost lists0 = self.lists@;
        let n: usize = self.lists.len();
        let mut i: usize = 0;
        while i < n
            invariant
                i <= n,
                n == lists0.len(),
                self.keys@ == keys0,
                self.lists@.len() == n,
                keys0.len() == n,
                keys_unique(keys0),
                forall|k: int|
                    0 <= k < i ==> (#[trigger] self.lists@[k])@ == (ListView {
                        update_needed: true,
                        ..lists0[k]@
                    }),
                forall|k: int| i <= k < n ==> #[trigger] self.lists@[k] == lists0[k],
            decreases n - i,
        {
            self.lists[i].update_needed = true;
            i = i + 1;
        }
        proof {
            let m2 = map_of(self.keys@, self.lists@);
            let m = spec_deprecated(map_of(keys0, lists0));
            assert forall|x: Seq<char>| m2.dom().contains(x) implies m2[x] == m[x] by {
                let j = index_of(keys0, x);
                lemma_map_at(keys0, lists0, j);
                lemma_map_at(keys0, self.lists@, j);
            }
            assert(m2 =~= m);
        }
    }
}

/// A listing that is checked out and handed straight back leaves the cache
/// as it was, where the filesystem shows no change: the listing comes out as
/// it went in, and the cache holds it again under the same path.
pub proof fn lemma_round_trip(
    m: Map<Seq<char>, ListView>,
    path: Seq<char>,
    probe: DirProbe,
    sort: SortType,
)
    requires
        m.dom().contains(path),
        m[path].path == path,
        !spec_need_update(m[path], probe.marker),
    ensures
        spec_fetch(m, path, probe, sort) == Ok::<ListView, IoError>(m[path]),
        m.remove(path).insert(m[path].path, m[path]) == m,
{
    assert(m.remove(path).insert(path, m[path]) =~= m);
}

/// A first listing that is made and handed straight to the cache is what a
/// later fetch finds there untouched, where the filesystem shows no change
/// in between.
pub proof fn lemma_round_trip_first(
    m: Map<Seq<char>, ListView>,
    path: Seq<char>,
    probe: DirProbe,
    sort: SortType,
)
    requires
        !m.dom().contains(path),
        probe.read matches Ok(s) && probe.marker == Some(s.modified),
    ensures
        spec_fetch(m, path, probe, sort) matches Ok(v) && v.path == path && spec_fetch(
            m.remove(path).insert(v.path, v),
            path,
            probe,
            sort,
        ) == Ok::<ListView, IoError>(v),
{
}

/// A fetch reads a resident listing again exactly where it is stale: where
/// the marker that the filesystem shows differs from the one it was read
/// with, or the directory is gone, or the listing was flagged. A listing
/// that is read again holds what the read reports, in the order of the
/// policy; one that is not stale comes out untouched.
pub proof fn lemma_staleness(
    m: Map<Seq<char>, ListView>,
    path: Seq<char>,
    probe: DirProbe,
    sort: SortType,
)
    requires
        m.dom().contains(path),
    ensures
        probe.marker != Some(m[path].modified) ==> spec_need_update(m[path], probe.marker),
        !spec_need_update(m[path], probe.marker) ==> spec_fetch(m, path, probe, sort) == Ok::<
            ListView,
            IoError,
        >(m[path]),
        spec_need_update(m[path], probe.marker) ==> match probe.read {
            Ok(s) => spec_fetch(m, path, probe, sort) matches Ok(v) && v.contents == spec_sort(
                spec_snapshot_entries(m[path].path, s.entries@),
                sort,
            ) && v.modified == s.modified && !v.update_needed && v.path == m[path].path,
            Err(e) => spec_fetch(m, path, probe, sort) == Err::<ListView, IoError>(e),
        },
{
}

/// A listing that a fetch has read meets the invariant of listings, and one
/// that it has not read is the resident one.
pub proof fn lemma_fetch_wf(
    m: Map<Seq<char>, ListView>,
    path: Seq<char>,
    probe: DirProbe,
    sort: SortType,
)
    requires
        probe.spec_fits(),
        m.dom().contains(path) ==> spec_list_wf(m[path]),
    ensures
        spec_fetch(m, path, probe, sort) matches Ok(v) ==> spec_list_wf(v),
{
    if let Ok(s) = probe.read {
        lemma_fresh_wf(path, s, sort);
        if m.dom().contains(path) {
            lemma_refreshed_wf(m[path], s, sort);
        }
    }
}

/// Warming leaves a first listing for every ancestor whose read succeeded,
/// its cursor set for the directory one step further down; and it leaves
/// every path alone that is none of the ancestors it had a read for.
pub proof fn lemma_populated_at(
    m: Map<Seq<char>, ListView>,
    child: Seq<char>,
    ancs: Seq<Seq<char>>,
    reads: Seq<Result<DirSnapshot, IoError>>,
    sort: SortType,
    i: int,
)
    requires
        0 <= i < ancs.len(),
        i < reads.len(),
        forall|a: int, b: int| 0 <= a < b < ancs.len() ==> #[trigger] ancs[a] != #[trigger] ancs[b],
    ensures
        ({
            let after = spec_populated(m, child, ancs, reads, sort);
            let below = if i == 0 {
                child
            } else {
                ancs[i - 1]
            };
            match reads[i] {
                Ok(s) => after.dom().contains(ancs[i]) && after[ancs[i]] == spec_warmed(
                    ancs[i],
                    below,
                    s,
                    sort,
                ),
                Err(_) => after.dom().contains(ancs[i]) == m.dom().contains(ancs[i]) && (
                m.dom().contains(ancs[i]) ==> after[ancs[i]] == m[ancs[i]]),
            }
        }),
    decreases ancs.len(),
{
    let warmed = match reads[0] {
        Ok(s) => m.insert(ancs[0], spec_warmed(ancs[0], child, s, sort)),
        Err(_) => m,
    };
    let rest = ancs.drop_first();
    let rest_reads = reads.drop_first();
    assert forall|a: int, b: int| 0 <= a < b < rest.len() implies #[trigger] rest[a]
        != #[trigger] rest[b] by {
        assert(rest[a] == ancs[a + 1] && rest[b] == ancs[b + 1]);
    }
    if i == 0 {
        lemma_populated_keeps(warmed, ancs[0], rest, rest_reads, sort, ancs[0]);
    } else {
        lemma_populated_at(warmed, ancs[0], rest, rest_reads, sort, i - 1);
        assert(rest[i - 1] == ancs[i]);
        assert(rest_reads[i - 1] == reads[i]);
        assert(ancs[0] != ancs[i]);
        if i - 1 > 0 {
            assert(rest[i - 2] == ancs[i - 1]);
        }
    }
}

/// Warming along a path in normal form leaves, for every ancestor whose read
/// succeeded, a listing of that ancestor with its cursor on the entry that
/// leads down to the path, where the read holds an entry of that name.
pub proof fn lemma_populated_cursor(
    m: Map<Seq<char>, ListView>,
    path: Seq<char>,
    reads: Seq<Result<DirSnapshot, IoError>>,
    sort: SortType,
    i: int,
)
    requires
        spec_is_normal(path),
        0 <= i < spec_ancestors(path).len(),
        i < reads.len(),
        reads[i] matches Ok(s) && s.spec_fits() && exists|k: int|
            0 <= k < s.entries@.len() && (#[trigger] s.entries@[k]).file_name@ == spec_file_name(
                if i == 0 {
                    path
                } else {
                    spec_ancestors(path)[i - 1]
                },
            ),
    ensures
        ({
            let dir = spec_ancestors(path)[i];
            let below = if i == 0 {
                path
            } else {
                spec_ancestors(path)[i - 1]
            };
            let after = spec_populated(m, path, spec_ancestors(path), reads, sort);
            &&& after.dom().contains(dir)
            &&& after[dir].path == dir
            &&& 0 <= after[dir].index < after[dir].contents.len()
            &&& after[dir].contents[after[dir].index].path == below
        }),
{
    let ancs = spec_ancestors(path);
    let dir = ancs[i];
    let below = if i == 0 {
        path
    } else {
        ancs[i - 1]
    };
    let s = reads[i]->Ok_0;
    lemma_ancestors_chain(path, i);
    lemma_parent_join(below);
    lemma_ancestors_shrink(path);
    assert forall|a: int, b: int| 0 <= a < b < ancs.len() implies #[trigger] ancs[a]
        != #[trigger] ancs[b] by {
        assert(ancs[b].len() < ancs[a].len());
    }
    lemma_populated_at(m, path, ancs, reads, sort, i);
    let k = choose|k: int|
        0 <= k < s.entries@.len() && (#[trigger] s.entries@[k]).file_name@ == spec_file_name(below);
    assert(spec_join(dir, s.entries@[k].file_name@) == below);
    lemma_warmed_cursor(dir, below, s, sort);
}

/// Warming leaves every path alone that is none of the ancestors.
pub proof fn lemma_populated_keeps(
    m: Map<Seq<char>, ListView>,
    child: Seq<char>,
    ancs: Seq<Seq<char>>,
    reads: Seq<Result<DirSnapshot, IoError>>,
    sort: SortType,
    k: Seq<char>,
)
    requires
        forall|a: int| 0 <= a < ancs.len() ==> #[trigger] ancs[a] != k,
    ensures
        ({
            let after = spec_populated(m, child, ancs, reads, sort);
            after.dom().contains(k) == m.dom().contains(k) && (m.dom().contains(k) ==> after[k]
                == m[k])
        }),
    decreases ancs.len(),
{
    if ancs.len() > 0 && reads.len() > 0 {
        let warmed = match reads[0] {
            Ok(s) => m.insert(ancs[0], spec_warmed(ancs[0], child, s, sort)),
            Err(_) => m,
        };
        let rest = ancs.drop_first();
        assert(ancs[0] != k);
        assert forall|a: int| 0 <= a < rest.len() implies #[trigger] rest[a] != k by {
            assert(rest[a] == ancs[a + 1]);
        }
        lemma_populated_keeps(warmed, ancs[0], rest, reads.drop_first(), sort, k);
    }
}

proof fn lemma_map_dom(keys: Seq<String>, lists: Seq<DirList>)
    requires
        keys_unique(keys),
        keys.len() == lists.len(),
    ensures
        map_of(keys, lists).dom().finite(),
        map_of(keys, lists).dom().len() == keys.len(),
    decreases keys.len(),
{
    if keys.len() == 0 {
        assert(map_of(keys, lists).dom() =~= Set::<Seq<char>>::empty());
    } else {
        let i = keys.len() - 1;
        lemma_map_remove(keys, lists, i);
        lemma_map_at(keys, lists, i);
        assert(keys.remove(i) =~= keys.drop_last());
        assert(lists.remove(i) =~= lists.drop_last());
        lemma_map_dom(keys.drop_last(), lists.drop_last());
        let d = map_of(keys, lists).dom();
        assert(map_of(keys.drop_last(), lists.drop_last()).dom() =~= d.remove(keys[i]@));
        assert(d =~= d.remove(keys[i]@).insert(keys[i]@));
    }
}

} // verus!
