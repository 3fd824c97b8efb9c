use vstd::prelude::*;

verus! {

/// Whether `p` is written in the normal form that the cache keys by: it starts
/// at the root, holds no empty component and ends in no separator, but for the
/// root itself.
pub open spec fn spec_is_normal(p: Seq<char>) -> bool {
    &&& p.len() > 0
    &&& p[0] == '/'
    &&& p.len() > 1 ==> p.last() != '/'
    &&& forall|j: int| 0 < j < p.len() ==> !(#[trigger] p[j] == '/' && p[j - 1] == '/')
}

/// Position of the last `c` in `p`, or -1 where `p` holds none.
pub open spec fn spec_last_of(p: Seq<char>, c: char) -> int
    decreases p.len(),
{
    if p.len() == 0 {
        -1
    } else if p.last() == c {
        p.len() - 1
    } else {
        spec_last_of(p.drop_last(), c)
    }
}

/// Position of the last separator in `p`, or -1 where `p` holds none.
pub open spec fn spec_last_sep(p: Seq<char>) -> int {
    spec_last_of(p, '/')
}

/// The last component of `p`: the text behind the last separator.
pub open spec fn spec_file_name(p: Seq<char>) -> Seq<char> {
    p.subrange(spec_last_sep(p) + 1, p.len() as int)
}

/// The extension of the file that `p` names: the text behind the last dot of
/// its last component. There is none where that component holds no dot,
/// begins with its only dot, or is the step to the parent directory.
pub open spec fn spec_extension(p: Seq<char>) -> Option<Seq<char>> {
    let name = spec_file_name(p);
    let dot = spec_last_of(name, '.');
    if dot <= 0 || name == seq!['.', '.'] {
        None
    } else {
        Some(name.subrange(dot + 1, name.len() as int))
    }
}

/// The directory that holds `p`: the text before the last separator, the root
/// for an entry of the root, nothing for the root itself and for a text
/// without separator.
pub open spec fn spec_parent(p: Seq<char>) -> Option<Seq<char>> {
    let i = spec_last_sep(p);
    if i < 0 {
        None
    } else if i == 0 {
        if p.len() == 1 {
            None
        } else {
            Some(p.subrange(0, 1))
        }
    } else {
        Some(p.subrange(0, i))
    }
}

/// The strict ancestors of `p`, the nearest first, the root last.
pub open spec fn spec_ancestors(p: Seq<char>) -> Seq<Seq<char>>
    decreases p.len(),
{
    match spec_parent(p) {
        None => Seq::empty(),
        Some(q) => if q.len() < p.len() {
            seq![q] + spec_ancestors(q)
        } else {
            Seq::empty()
        },
    }
}

/// What is left of `p` below the directory `base`: nothing where the two are
/// equal, the text behind `base` and one separator where `p` lies below
/// `base`, and no answer otherwise.
pub open spec fn spec_strip_prefix(base: Seq<char>, p: Seq<char>) -> Option<Seq<char>> {
    if p == base {
        Some(Seq::empty())
    } else if base.len() < p.len() && p.subrange(0, base.len() as int) == base {
        if base.len() > 0 && base.last() == '/' {
            Some(p.subrange(base.len() as int, p.len() as int))
        } else if p[base.len() as int] == '/' && base.len() + 1 < p.len() {
            Some(p.subrange(base.len() as int + 1, p.len() as int))
        } else {
            None
        }
    } else {
        None
    }
}

/// `base` extended by the relative text `rest`, one separator between them
/// where `base` does not end in one.
pub open spec fn spec_join(base: Seq<char>, rest: Seq<char>) -> Seq<char> {
    if rest.len() == 0 {
        base
    } else if base.len() > 0 && base.last() == '/' {
        base + rest
    } else {
        base + seq!['/'] + rest
    }
}

/// The last `c` lies inside the text and is one; nothing behind it is.
pub proof fn lemma_last_of(p: Seq<char>, c: char)
    ensures
        -1 <= spec_last_of(p, c) < p.len(),
        spec_last_of(p, c) >= 0 ==> p[spec_last_of(p, c)] == c,
        forall|j: int| spec_last_of(p, c) < j < p.len() ==> p[j] != c,
    decreases p.len(),
{
    if p.len() > 0 && p.last() != c {
        let q = p.drop_last();
        lemma_last_of(q, c);
        assert forall|j: int| spec_last_of(p, c) < j < p.len() implies p[j] != c by {
            if j < q.len() {
                assert(q[j] == p[j]);
            }
        }
        if spec_last_of(q, c) >= 0 {
            assert(q[spec_last_of(q, c)] == p[spec_last_of(q, c)]);
        }
    }
}

/// The last separator lies inside the text and is one; nothing behind it is.
pub proof fn lemma_last_sep(p: Seq<char>)
    ensures
        -1 <= spec_last_sep(p) < p.len(),
        spec_last_sep(p) >= 0 ==> p[spec_last_sep(p)] == '/',
        forall|j: int| spec_last_sep(p) < j < p.len() ==> p[j] != '/',
{
    lemma_last_of(p, '/');
}

/// A parent is strictly shorter than its child.
pub proof fn lemma_parent_shorter(p: Seq<char>)
    ensures
        spec_parent(p) matches Some(q) ==> q.len() < p.len(),
{
    lemma_last_sep(p);
}

/// Every ancestor is shorter than the path, and a farther one shorter than a
/// nearer one: no directory occurs twice among them.
pub proof fn lemma_ancestors_shrink(p: Seq<char>)
    ensures
        forall|i: int|
            0 <= i < spec_ancestors(p).len() ==> (#[trigger] spec_ancestors(p)[i]).len() < p.len(),
        forall|i: int, j: int|
            0 <= i < j < spec_ancestors(p).len() ==> (#[trigger] spec_ancestors(p)[j]).len() < (
            #[trigger] spec_ancestors(p)[i]).len(),
    decreases p.len(),
{
    lemma_parent_shorter(p);
    if let Some(q) = spec_parent(p) {
        lemma_ancestors_shrink(q);
        let a = spec_ancestors(p);
        let b = spec_ancestors(q);
        assert(a =~= seq![q] + b);
        assert forall|i: int| 0 <= i < a.len() implies (#[trigger] a[i]).len() < p.len() by {
            if i > 0 {
                assert(a[i] == b[i - 1]);
            }
        }
        assert forall|i: int, j: int| 0 <= i < j < a.len() implies (#[trigger] a[j]).len() < (
        #[trigger] a[i]).len() by {
            assert(a[j] == b[j - 1]);
            if i > 0 {
                assert(a[i] == b[i - 1]);
            }
        }
    }
}

/// Along the ancestors of a path in normal form each directory is the parent
/// of the one before it, and all are in normal form.
pub proof fn lemma_ancestors_chain(p: Seq<char>, i: int)
    requires
        spec_is_normal(p),
        0 <= i < spec_ancestors(p).len(),
    ensures
        ({
            let below = if i == 0 {
                p
            } else {
                spec_ancestors(p)[i - 1]
            };
            &&& spec_is_normal(below)
            &&& spec_is_normal(spec_ancestors(p)[i])
            &&& spec_parent(below) == Some(spec_ancestors(p)[i])
        }),
    decreases p.len(),
{
    lemma_parent_shorter(p);
    lemma_strip_parent(p);
    let q = spec_parent(p).unwrap();
    assert(spec_ancestors(p) =~= seq![q] + spec_ancestors(q));
    if i > 0 {
        lemma_ancestors_chain(q, i - 1);
        assert(spec_ancestors(p)[i] == spec_ancestors(q)[i - 1]);
        if i > 1 {
            assert(spec_ancestors(p)[i - 1] == spec_ancestors(q)[i - 2]);
        }
    }
}

/// A path in normal form is its parent joined with its last component.
pub proof fn lemma_parent_join(p: Seq<char>)
    requires
        spec_is_normal(p),
    ensures
        spec_parent(p) matches Some(q) ==> spec_join(q, spec_file_name(p)) == p,
{
    lemma_strip_parent(p);
    if let Some(q) = spec_parent(p) {
        lemma_strip_then_join(q, p);
    }
}

/// Joining what `spec_strip_prefix` left onto the base gives the path back.
pub proof fn lemma_strip_then_join(base: Seq<char>, p: Seq<char>)
    ensures
        spec_strip_prefix(base, p) matches Some(rest) ==> spec_join(base, rest) == p,
{
    if let Some(rest) = spec_strip_prefix(base, p) {
        if p != base {
            let n = base.len() as int;
            if base.len() > 0 && base.last() == '/' {
                assert(p.subrange(0, n) + p.subrange(n, p.len() as int) =~= p);
            } else {
                assert(p.subrange(0, n) + seq!['/'] + p.subrange(n + 1, p.len() as int) =~= p);
            }
        }
    }
}

/// A path in normal form lies directly below its parent, which is in normal
/// form too: what is left of the path below the parent is its last component.
pub proof fn lemma_strip_parent(p: Seq<char>)
    requires
        spec_is_normal(p),
    ensures
        spec_parent(p) matches Some(q) ==> spec_is_normal(q) && spec_strip_prefix(q, p) == Some(
            p.subrange(spec_last_sep(p) + 1, p.len() as int),
        ),
        spec_parent(p) is None <==> p.len() == 1,
{
    lemma_last_sep(p);
    if let Some(q) = spec_parent(p) {
        let i = spec_last_sep(p);
        assert(p.subrange(0, q.len() as int) =~= q);
        assert(q != p);
        if i > 0 {
            assert(q.last() == p[i - 1]);
            assert(p[i] == '/');
            assert forall|j: int| 0 < j < q.len() implies !(#[trigger] q[j] == '/' && q[j - 1]
                == '/') by {
                assert(q[j] == p[j] && q[j - 1] == p[j - 1]);
            }
        }
    }
}

/// The views of the paths in `v`, in order.
pub open spec fn spec_views(v: Seq<String>) -> Seq<Seq<char>> {
    Seq::new(v.len(), |i: int| v[i]@)
}

/// Tests whether `path` is in normal form.
pub fn is_normal(path: &str) -> (r: bool)
    ensures
        r == spec_is_normal(path@),
{
    let n: usize = path.unicode_len();
    if n == 0 || path.get_char(0) != '/' {
        return false;
    }
    if n > 1 && path.get_char(n - 1) == '/' {
        return false;
    }
    let mut j: usize = 1;
    while j < n
        invariant
            1 <= j <= n,
            n == path@.len(),
            forall|k: int| 0 < k < j ==> !(#[trigger] path@[k] == '/' && path@[k - 1] == '/'),
        decreases n - j,
    {
        if path.get_char(j) == '/' && path.get_char(j - 1) == '/' {
            return false;
        }
        j = j + 1;
    }
    true
}

/// Finds the last `c` in `text`.
pub fn last_of(text: &str, c: char) -> (r: Option<usize>)
    ensures
        match r {
            Some(i) => spec_last_of(text@, c) == i,
            None => spec_last_of(text@, c) == -1,
        },
{
    let n: usize = text.unicode_len();
    let mut i: usize = n;
    assert(text@.subrange(0, n as int) =~= text@);
    while i > 0
        invariant
            i <= n,
            n == text@.len(),
            spec_last_of(text@, c) == spec_last_of(text@.subrange(0, i as int), c),
        decreases i,
    {
        if text.get_char(i - 1) == c {
            return Some(i - 1);
        }
        assert(text@.subrange(0, i as int).drop_last() =~= text@.subrange(0, i - 1));
        i = i - 1;
    }
    None
}

/// Finds the last separator of `path`.
pub fn last_sep(path: &str) -> (r: Option<usize>)
    ensures
        match r {
            Some(i) => spec_last_sep(path@) == i,
            None => spec_last_sep(path@) == -1,
        },
{
    last_of(path, '/')
}

/// The last component of `path`.
pub fn file_name(path: &str) -> (r: String)
    ensures
        r@ == spec_file_name(path@),
{
    proof {
        lemma_last_sep(path@);
    }
    let n: usize = path.unicode_len();
    match last_sep(path) {
        Some(i) => String::from_str(path.substring_char(i + 1, n)),
        None => {
            assert(path@.subrange(0, n as int) =~= path@);
            String::from_str(path)
        },
    }
}

/// The extension of the file that `path` names, if it has one.
pub fn extension(path: &str) -> (r: Option<String>)
    ensures
        match r {
            Some(e) => spec_extension(path@) == Some(e@),
            None => spec_extension(path@) is None,
        },
{
    let name: String = file_name(path);
    let n: usize = name.as_str().unicode_len();
    proof {
        lemma_last_of(name@, '.');
    }
    match last_of(name.as_str(), '.') {
        None => None,
        Some(dot) => {
            if dot == 0 {
                return None;
            }
            if n == 2 && name.as_str().get_char(0) == '.' {
                assert(name@ =~= seq!['.', '.']);
                return None;
            }
            assert(name@ != seq!['.', '.']) by {
                if name@ == seq!['.', '.'] {
                    assert(name@.len() == 2);
                    assert(name@[0] == '.');
                }
            }
            Some(String::from_str(name.as_str().substring_char(dot + 1, n)))
        },
    }
}

/// The directory that holds `path`, if it has one.
pub fn parent(path: &str) -> (r: Option<String>)
    ensures
        match r {
            Some(q) => spec_parent(path@) == Some(q@),
            None => spec_parent(path@) is None,
        },
{
    match last_sep(path) {
        None => None,
        Some(i) => {
            proof {
                lemma_last_sep(path@);
            }
            if i == 0 {
                if path.unicode_len() == 1 {
                    None
                } else {
                    Some(String::from_str(path.substring_char(0, 1)))
                }
            } else {
                Some(String::from_str(path.substring_char(0, i)))
            }
        },
    }
}

/// The strict ancestors of `path`, the nearest first.
pub fn ancestors(path: &str) -> (r: Vec<String>)
    ensures
        spec_views(r@) == spec_ancestors(path@),
{
    let mut out: Vec<String> = Vec::new();
    let mut cur: Option<String> = parent(path);
    proof {
        lemma_parent_shorter(path@);
        assert(spec_views(out@) =~= Seq::<Seq<char>>::empty());
    }
    loop
        invariant
            spec_ancestors(path@) == spec_views(out@) + (match cur {
                Some(q) => seq![q@] + spec_ancestors(q@),
                None => Seq::<Seq<char>>::empty(),
            }),
        ensures
            spec_ancestors(path@) == spec_views(out@),
        decreases
            (match cur {
                Some(q) => q@.len() + 1,
                None => 0,
            }),
    {
        match cur {
            None => {
                break ;
            },
            Some(q) => {
                let next: Option<String> = parent(q.as_str());
                proof {
                    lemma_parent_shorter(q@);
                    assert(spec_views(out@.push(q)) =~= spec_views(out@) + seq![q@]);
                }
                out.push(q);
                cur = next;
            },
        }
    }
    out
}

/// What is left of `path` below the directory `base`, if it lies there.
pub fn strip_prefix(base: &str, path: &str) -> (r: Option<String>)
    ensures
        match r {
            Some(rest) => spec_strip_prefix(base@, path@) == Some(rest@),
            None => spec_strip_prefix(base@, path@) is None,
        },
{
    let nb: usize = base.unicode_len();
    let np: usize = path.unicode_len();
    if np < nb {
        return None;
    }
    let mut i: usize = 0;
    while i < nb
        invariant
            i <= nb <= np,
            nb == base@.len(),
            np == path@.len(),
            forall|k: int| 0 <= k < i ==> base@[k] == path@[k],
        decreases nb - i,
    {
        if base.get_char(i) != path.get_char(i) {
            assert(path@.subrange(0, nb as int)[i as int] != base@[i as int]);
            return None;
        }
        i = i + 1;
    }
    assert(path@.subrange(0, nb as int) =~= base@);
    if np == nb {
        assert(path@.subrange(0, nb as int) =~= path@);
        return Some(String::new());
    }
    if nb > 0 && base.get_char(nb - 1) == '/' {
        Some(String::from_str(path.substring_char(nb, np)))
    } else if path.get_char(nb) == '/' && nb + 1 < np {
        Some(String::from_str(path.substring_char(nb + 1, np)))
    } else {
        None
    }
}

/// `base` extended by the relative text `rest`.
pub fn join(base: &str, rest: &str) -> (r: String)
    ensures
        r@ == spec_join(base@, rest@),
{
    let nb: usize = base.unicode_len();
    let mut out: String = String::from_str(base);
    if rest.unicode_len() == 0 {
        return out;
    }
    if !(nb > 0 && base.get_char(nb - 1) == '/') {
        proof {
            reveal_strlit("/");
            assert("/"@ =~= seq!['/']);
        }
        out.append("/");
    }
    out.append(rest);
    out
}

} // verus!
