use crate::entry::{spec_entry_views, DirEntry, EntryView, FileKind};
use vstd::prelude::*;
use vstd::utf8::encode_utf8;

verus! {

/// The attribute by which a listing is ordered.
#[derive(Clone, Copy, Debug, PartialEq, Eq, Structural)]
pub enum SortMethod {
    /// By name, byte by byte.
    Natural,
    /// By time of the last modification, the oldest first.
    Mtime,
}

/// How a listing is ordered.
#[derive(Clone, Copy, Debug, PartialEq, Eq, Structural)]
pub struct SortType {
    pub method: SortMethod,
    /// Directories stand before everything else.
    pub directories_first: bool,
    /// The order of `method` is turned round.
    pub reverse: bool,
}

/// Lexicographic order on byte strings: `a` stands at or before `b`.
pub open spec fn spec_bytes_le(a: Seq<u8>, b: Seq<u8>) -> bool
    decreases a.len(),
{
    if a.len() == 0 {
        true
    } else if b.len() == 0 {
        false
    } else if a[0] != b[0] {
        a[0] < b[0]
    } else {
        spec_bytes_le(a.drop_first(), b.drop_first())
    }
}

/// The order of `method` alone.
pub open spec fn spec_key_le(a: EntryView, b: EntryView, method: SortMethod) -> bool {
    match method {
        SortMethod::Natural => spec_bytes_le(encode_utf8(a.file_name), encode_utf8(b.file_name)),
        SortMethod::Mtime => a.modified <= b.modified,
    }
}

/// The ordering policy: `a` may stand before `b` in a listing ordered by `sort`.
pub open spec fn spec_entry_le(a: EntryView, b: EntryView, sort: SortType) -> bool {
    if sort.directories_first && (a.kind == FileKind::Dir) != (b.kind == FileKind::Dir) {
        a.kind == FileKind::Dir
    } else if sort.reverse {
        spec_key_le(b, a, sort.method)
    } else {
        spec_key_le(a, b, sort.method)
    }
}

/// `t` with `x` put before the first entry that `x` may stand before.
pub open spec fn spec_insert(x: EntryView, t: Seq<EntryView>, sort: SortType) -> Seq<EntryView>
    decreases t.len(),
{
    if t.len() == 0 {
        seq![x]
    } else if spec_entry_le(x, t[0], sort) {
        seq![x] + t
    } else {
        seq![t[0]] + spec_insert(x, t.drop_first(), sort)
    }
}

/// `s` in the order of `sort`; entries that the policy does not tell apart
/// keep the order they had in `s`.
pub open spec fn spec_sort(s: Seq<EntryView>, sort: SortType) -> Seq<EntryView>
    decreases s.len(),
{
    if s.len() == 0 {
        s
    } else {
        spec_insert(s[0], spec_sort(s.drop_first(), sort), sort)
    }
}

/// Every entry of `s` may stand before every later one.
pub open spec fn spec_is_sorted(s: Seq<EntryView>, sort: SortType) -> bool {
    forall|i: int, j: int| 0 <= i < j < s.len() ==> spec_entry_le(#[trigger] s[i], #[trigger] s[j], sort)
}

/// Of two byte strings one stands at or before the other.
pub proof fn lemma_bytes_le_total(a: Seq<u8>, b: Seq<u8>)
    ensures
        spec_bytes_le(a, b) || spec_bytes_le(b, a),
    decreases a.len(),
{
    if a.len() > 0 && b.len() > 0 && a[0] == b[0] {
        lemma_bytes_le_total(a.drop_first(), b.drop_first());
    }
}

/// The order on byte strings is transitive.
pub proof fn lemma_bytes_le_trans(a: Seq<u8>, b: Seq<u8>, c: Seq<u8>)
    requires
        spec_bytes_le(a, b),
        spec_bytes_le(b, c),
    ensures
        spec_bytes_le(a, c),
    decreases a.len(),
{
    if a.len() > 0 && b.len() > 0 && c.len() > 0 && a[0] == b[0] && b[0] == c[0] {
        lemma_bytes_le_trans(a.drop_first(), b.drop_first(), c.drop_first());
    }
}

/// The ordering policy compares any two entries.
pub proof fn lemma_entry_le_total(a: EntryView, b: EntryView, sort: SortType)
    ensures
        spec_entry_le(a, b, sort) || spec_entry_le(b, a, sort),
{
    lemma_bytes_le_total(encode_utf8(a.file_name), encode_utf8(b.file_name));
}

/// The ordering policy is transitive.
pub proof fn lemma_entry_le_trans(a: EntryView, b: EntryView, c: EntryView, sort: SortType)
    requires
        spec_entry_le(a, b, sort),
        spec_entry_le(b, c, sort),
    ensures
        spec_entry_le(a, c, sort),
{
    let (na, nb, nc) = (
        encode_utf8(a.file_name),
        encode_utf8(b.file_name),
        encode_utf8(c.file_name),
    );
    if spec_bytes_le(na, nb) && spec_bytes_le(nb, nc) {
        lemma_bytes_le_trans(na, nb, nc);
    }
    if spec_bytes_le(nc, nb) && spec_bytes_le(nb, na) {
        lemma_bytes_le_trans(nc, nb, na);
    }
}

/// Where `spec_insert` puts the new entry.
pub proof fn lemma_insert_at(x: EntryView, t: Seq<EntryView>, sort: SortType, pos: int)
    requires
        0 <= pos <= t.len(),
        forall|k: int| 0 <= k < pos ==> !spec_entry_le(x, #[trigger] t[k], sort),
        pos < t.len() ==> spec_entry_le(x, t[pos], sort),
    ensures
        spec_insert(x, t, sort) == t.insert(pos, x),
    decreases pos,
{
    if pos == 0 {
        if t.len() == 0 {
            assert(t.insert(0, x) =~= seq![x]);
        } else {
            assert(t.insert(0, x) =~= seq![x] + t);
        }
    } else {
        let r = t.drop_first();
        assert forall|k: int| 0 <= k < pos - 1 implies !spec_entry_le(x, #[trigger] r[k], sort) by {
            assert(r[k] == t[k + 1]);
        }
        lemma_insert_at(x, r, sort, pos - 1);
        assert(seq![t[0]] + r.insert(pos - 1, x) =~= t.insert(pos, x));
    }
}

/// The position at which `spec_insert` puts the new entry.
pub open spec fn spec_insert_pos(x: EntryView, t: Seq<EntryView>, sort: SortType) -> int
    decreases t.len(),
{
    if t.len() == 0 || spec_entry_le(x, t[0], sort) {
        0
    } else {
        1 + spec_insert_pos(x, t.drop_first(), sort)
    }
}

/// `spec_insert` puts the new entry at `spec_insert_pos` and moves nothing else.
pub proof fn lemma_insert_pos(x: EntryView, t: Seq<EntryView>, sort: SortType)
    ensures
        0 <= spec_insert_pos(x, t, sort) <= t.len(),
        forall|k: int|
            0 <= k < spec_insert_pos(x, t, sort) ==> !spec_entry_le(x, #[trigger] t[k], sort),
        spec_insert_pos(x, t, sort) < t.len() ==> spec_entry_le(
            x,
            t[spec_insert_pos(x, t, sort)],
            sort,
        ),
        spec_insert(x, t, sort) == t.insert(spec_insert_pos(x, t, sort), x),
    decreases t.len(),
{
    if !(t.len() == 0 || spec_entry_le(x, t[0], sort)) {
        let r = t.drop_first();
        lemma_insert_pos(x, r, sort);
        let p = spec_insert_pos(x, r, sort);
        assert forall|k: int| 0 <= k < p + 1 implies !spec_entry_le(x, #[trigger] t[k], sort) by {
            if k > 0 {
                assert(t[k] == r[k - 1]);
            }
        }
        if p + 1 < t.len() {
            assert(t[p + 1] == r[p]);
        }
    }
    lemma_insert_at(x, t, sort, spec_insert_pos(x, t, sort));
}

proof fn lemma_multiset_of_insert(t: Seq<EntryView>, pos: int, x: EntryView)
    requires
        0 <= pos <= t.len(),
    ensures
        t.insert(pos, x).to_multiset() == t.to_multiset().insert(x),
{
    broadcast use vstd::seq_lib::group_to_multiset_ensures;

    let r = t.insert(pos, x);
    assert(r.remove(pos) =~= t);
    assert(r[pos] == x);
    assert(r.contains(x));
    assert(r.to_multiset().count(x) > 0);
    assert(r.to_multiset() =~= r.to_multiset().remove(x).insert(x));
}

/// Putting an entry into an ordered listing leaves it ordered.
pub proof fn lemma_insert_sorted(x: EntryView, t: Seq<EntryView>, sort: SortType)
    requires
        spec_is_sorted(t, sort),
    ensures
        spec_is_sorted(spec_insert(x, t, sort), sort),
{
    lemma_insert_pos(x, t, sort);
    let p = spec_insert_pos(x, t, sort);
    let r = spec_insert(x, t, sort);
    assert forall|i: int, j: int| 0 <= i < j < r.len() implies spec_entry_le(
        #[trigger] r[i],
        #[trigger] r[j],
        sort,
    ) by {
        if i == p {
            assert(r[j] == t[j - 1]);
            if j - 1 > p {
                lemma_entry_le_trans(x, t[p], t[j - 1], sort);
            }
        } else if j == p {
            assert(r[i] == t[i]);
            lemma_entry_le_total(x, t[i], sort);
        } else {
            let a = if i < p {
                i
            } else {
                i - 1
            };
            let b = if j < p {
                j
            } else {
                j - 1
            };
            assert(r[i] == t[a] && r[j] == t[b]);
        }
    }
}

/// What `spec_sort` returns is ordered by the policy.
pub proof fn lemma_sort_is_sorted(s: Seq<EntryView>, sort: SortType)
    ensures
        spec_is_sorted(spec_sort(s, sort), sort),
    decreases s.len(),
{
    if s.len() > 0 {
        lemma_sort_is_sorted(s.drop_first(), sort);
        lemma_insert_sorted(s[0], spec_sort(s.drop_first(), sort), sort);
    }
}

/// `spec_sort` only rearranges: it returns the entries it was given, each as
/// often as it was given.
pub proof fn lemma_sort_permutes(s: Seq<EntryView>, sort: SortType)
    ensures
        spec_sort(s, sort).to_multiset() == s.to_multiset(),
        spec_sort(s, sort).len() == s.len(),
        forall|e: EntryView| spec_sort(s, sort).contains(e) <==> s.contains(e),
    decreases s.len(),
{
    broadcast use vstd::seq_lib::group_to_multiset_ensures;

    if s.len() > 0 {
        let r = s.drop_first();
        let t = spec_sort(r, sort);
        lemma_sort_permutes(r, sort);
        lemma_insert_pos(s[0], t, sort);
        lemma_multiset_of_insert(t, spec_insert_pos(s[0], t, sort), s[0]);
        lemma_multiset_of_insert(r, 0, s[0]);
        assert(r.insert(0, s[0]) =~= s);
    }
    let m = spec_sort(s, sort);
    assert(m.len() == m.to_multiset().len());
    assert(s.len() == s.to_multiset().len());
    assert forall|e: EntryView| m.contains(e) <==> s.contains(e) by {
        assert(m.contains(e) <==> m.to_multiset().count(e) > 0);
        assert(s.contains(e) <==> s.to_multiset().count(e) > 0);
    }
}

/// Tests the order on byte strings.
pub fn bytes_le(a: &[u8], b: &[u8]) -> (r: bool)
    ensures
        r == spec_bytes_le(a@, b@),
{
    let mut i: usize = 0;
    assert(a@.subrange(0, a@.len() as int) =~= a@);
    assert(b@.subrange(0, b@.len() as int) =~= b@);
    loop
        invariant
            i <= a@.len(),
            i <= b@.len(),
            spec_bytes_le(a@, b@) == spec_bytes_le(
                a@.subrange(i as int, a@.len() as int),
                b@.subrange(i as int, b@.len() as int),
            ),
        decreases a@.len() - i,
    {
        if i >= a.len() {
            return true;
        }
        if i >= b.len() {
            return false;
        }
        if a[i] != b[i] {
            return a[i] < b[i];
        }
        assert(a@.subrange(i as int, a@.len() as int).drop_first() =~= a@.subrange(
            i + 1,
            a@.len() as int,
        ));
        assert(b@.subrange(i as int, b@.len() as int).drop_first() =~= b@.subrange(
            i + 1,
            b@.len() as int,
        ));
        i = i + 1;
    }
}

/// Tests the ordering policy.
pub fn entry_le(a: &DirEntry, b: &DirEntry, sort: &SortType) -> (r: bool)
    ensures
        r == spec_entry_le(a@, b@, *sort),
{
    if sort.directories_first && a.is_dir() != b.is_dir() {
        return a.is_dir();
    }
    let (x, y) = if sort.reverse {
        (b, a)
    } else {
        (a, b)
    };
    match sort.method {
        SortMethod::Natural => bytes_le(x.file_name.as_str().as_bytes(), y.file_name.as_str().as_bytes()),
        SortMethod::Mtime => x.modified <= y.modified,
    }
}

/// Orders `entries` by `sort`: the same entries, each before all that the
/// policy puts behind it, and those that it does not tell apart in the order
/// they came in.
pub fn sort_entries(entries: Vec<DirEntry>, sort: &SortType) -> (r: Vec<DirEntry>)
    ensures
        spec_entry_views(r@) == spec_sort(spec_entry_views(entries@), *sort),
        spec_is_sorted(spec_entry_views(r@), *sort),
        spec_entry_views(r@).to_multiset() == spec_entry_views(entries@).to_multiset(),
        r@.len() == entries@.len(),
{
    let ghost s = spec_entry_views(entries@);
    proof {
        lemma_sort_is_sorted(s, *sort);
        lemma_sort_permutes(s, *sort);
    }
    let mut rest: Vec<DirEntry> = entries;
    let mut out: Vec<DirEntry> = Vec::new();
    assert(s.subrange(s.len() as int, s.len() as int) =~= Seq::<EntryView>::empty());
    assert(spec_entry_views(out@) =~= Seq::<EntryView>::empty());
    assert(s.subrange(0, s.len() as int) =~= s);
    while rest.len() > 0
        invariant
            rest@.len() <= s.len(),
            spec_entry_views(rest@) == s.subrange(0, rest@.len() as int),
            spec_entry_views(out@) == spec_sort(
                s.subrange(rest@.len() as int, s.len() as int),
                *sort,
            ),
        decreases rest@.len(),
    {
        let ghost i = rest@.len() as int;
        let ghost before = rest@;
        let x: DirEntry = rest.pop().unwrap();
        assert(x@ == spec_entry_views(before)[i - 1]);
        let n: usize = out.len();
        let mut pos: usize = 0;
        while pos < n && !entry_le(&x, &out[pos], sort)
            invariant
                pos <= n,
                n == out@.len(),
                forall|k: int|
                    0 <= k < pos ==> !spec_entry_le(x@, #[trigger] spec_entry_views(out@)[k], *sort),
            decreases n - pos,
        {
            pos = pos + 1;
        }
        proof {
            lemma_insert_at(x@, spec_entry_views(out@), *sort, pos as int);
            assert(s.subrange(i - 1, s.len() as int).drop_first() =~= s.subrange(i, s.len() as int));
            assert(spec_entry_views(rest@) =~= s.subrange(0, i - 1));
            assert(spec_entry_views(out@.insert(pos as int, x)) =~= spec_entry_views(out@).insert(
                pos as int,
                x@,
            ));
        }
        out.insert(pos, x);
    }
    assert(s.subrange(0, s.len() as int) =~= s);
    out
}

} // verus!
