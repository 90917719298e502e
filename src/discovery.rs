//! Leaf cgroups: the directories of a tree that hold no other directory.
//!
//! A directory is known by its path; a path below another continues it after
//! a `/` separator.
use vstd::prelude::*;

use crate::text::chars_of;

verus! {

/// Whether `a` is `p` or a directory above it.
pub open spec fn anc_or_self(a: Seq<char>, p: Seq<char>) -> bool {
    a == p || (a.len() < p.len() && p.subrange(0, a.len() as int) == a && (p[a.len() as int]
        == '/' || (a.len() > 0 && a.last() == '/')))
}

/// Whether `a` is a directory strictly above `p`.
pub open spec fn proper_anc(a: Seq<char>, p: Seq<char>) -> bool {
    anc_or_self(a, p) && a != p
}

/// Whether every directory of `d` comes after all the directories below it,
/// as a contents-first walk yields them.
pub open spec fn contents_first(d: Seq<Seq<char>>) -> bool {
    forall|i: int, j: int| 0 <= i < j < d.len() ==> !proper_anc(#[trigger] d[i], #[trigger] d[j])
}

/// The directories of `s` with no other directory of `s` below them.
pub open spec fn leaves_of(s: Set<Seq<char>>) -> Set<Seq<char>> {
    s.filter(|p: Seq<char>| forall|q: Seq<char>| s.contains(q) ==> !proper_anc(p, q))
}

/// Paths as character sequences.
pub open spec fn paths_view(v: Seq<String>) -> Seq<Seq<char>> {
    v.map_values(|s: String| s@)
}

proof fn lemma_anc_trans(a: Seq<char>, b: Seq<char>, c: Seq<char>)
    requires
        anc_or_self(a, b),
        anc_or_self(b, c),
    ensures
        anc_or_self(a, c),
{
    if a != b && b != c {
        assert(c.subrange(0, a.len() as int) =~= b.subrange(0, a.len() as int));
        assert(c[a.len() as int] == b[a.len() as int]);
    }
}

/// Whether the path `a` is `p` or a directory above it.
fn is_anc_or_self(a: &Vec<char>, p: &Vec<char>) -> (r: bool)
    ensures
        r == anc_or_self(a@, p@),
{
    let n = a.len();
    if n > p.len() {
        return false;
    }
    let mut k: usize = 0;
    while k < n
        invariant
            n == a@.len() <= p@.len(),
            k <= n,
            forall|j: int| 0 <= j < k ==> a@[j] == p@[j],
        decreases n - k,
    {
        if a[k] != p[k] {
            assert(p@.subrange(0, n as int)[k as int] != a@[k as int]);
            assert(a@ != p@);
            return false;
        }
        k = k + 1;
    }
    assert(p@.subrange(0, n as int) =~= a@);
    if n == p.len() {
        assert(a@ =~= p@);
        return true;
    }
    p[n] == '/' || (n > 0 && a[n - 1] == '/')
}

/// Whether `dirs` lists every directory after all the directories below it.
pub fn is_contents_first(dirs: &Vec<String>) -> (r: bool)
    ensures
        r == contents_first(paths_view(dirs@)),
{
    let ghost d = paths_view(dirs@);
    let n = dirs.len();
    let mut cs: Vec<Vec<char>> = Vec::new();
    let mut i: usize = 0;
    while i < n
        invariant
            i <= n == dirs@.len(),
            d == paths_view(dirs@),
            cs@.len() == i,
            forall|k: int| 0 <= k < i ==> (#[trigger] cs@[k])@ == d[k],
        decreases n - i,
    {
        cs.push(chars_of(dirs[i].as_str()));
        i = i + 1;
    }
    let mut j: usize = 0;
    while j < n
        invariant
            j <= n == dirs@.len() == cs@.len() == d.len(),
            d == paths_view(dirs@),
            forall|k: int| 0 <= k < n ==> (#[trigger] cs@[k])@ == d[k],
            forall|a: int, b: int| 0 <= a < b < j ==> !proper_anc(#[trigger] d[a], #[trigger] d[b]),
        decreases n - j,
    {
        let mut a: usize = 0;
        while a < j
            invariant
                a <= j < n == cs@.len() == d.len() == dirs@.len(),
                d == paths_view(dirs@),
                forall|k: int| 0 <= k < n ==> (#[trigger] cs@[k])@ == d[k],
                forall|x: int| 0 <= x < a ==> !proper_anc(#[trigger] d[x], d[j as int]),
            decreases j - a,
        {
            if is_anc_or_self(&cs[a], &cs[j]) && !(dirs[a] == dirs[j]) {
                assert(proper_anc(d[a as int], d[j as int]));
                return false;
            }
            assert(!proper_anc(d[a as int], d[j as int]));
            a = a + 1;
        }
        j = j + 1;
    }
    true
}

/// The leaves among `dirs`, the directories of a tree in contents-first
/// order: each directory that no other directory of `dirs` lies below. A
/// directory is kept unless it is, or lies above, a leaf already found.
#[verifier::rlimit(60)]
pub fn get_dir_leaves(dirs: &Vec<String>) -> (r: Vec<String>)
    requires
        contents_first(paths_view(dirs@)),
    ensures
        paths_view(r@).to_set() == leaves_of(paths_view(dirs@).to_set()),
        paths_view(r@).no_duplicates(),
{
    let ghost d = paths_view(dirs@);
    let n = dirs.len();
    let mut cs: Vec<Vec<char>> = Vec::new();
    let mut i: usize = 0;
    while i < n
        invariant
            i <= n == dirs@.len(),
            d == paths_view(dirs@),
            cs@.len() == i,
            forall|k: int| 0 <= k < i ==> (#[trigger] cs@[k])@ == d[k],
        decreases n - i,
    {
        cs.push(chars_of(dirs[i].as_str()));
        i = i + 1;
    }
    let mut leaves: Vec<String> = Vec::new();
    let mut idx: Vec<usize> = Vec::new();
    let ghost mut cover: Seq<int> = Seq::empty();
    let mut i: usize = 0;
    while i < n
        invariant
            i <= n == dirs@.len() == cs@.len() == d.len(),
            d == paths_view(dirs@),
            contents_first(d),
            forall|k: int| 0 <= k < n ==> (#[trigger] cs@[k])@ == d[k],
            idx@.len() == leaves@.len(),
            forall|k: int|
                0 <= k < idx@.len() ==> #[trigger] idx@[k] < i && leaves@[k]@ == d[idx@[k] as int],
            forall|k: int, q: int|
                0 <= k < idx@.len() && 0 <= q < n ==> !proper_anc(
                    #[trigger] d[idx@[k] as int],
                    #[trigger] d[q],
                ),
            cover.len() == i,
            forall|j: int|
                0 <= j < i ==> 0 <= #[trigger] cover[j] < idx@.len() && anc_or_self(
                    d[j],
                    d[idx@[cover[j]] as int],
                ),
            paths_view(leaves@).no_duplicates(),
        decreases n - i,
    {
        let mut marked = false;
        let ghost mut witness: int = 0;
        let mut k: usize = 0;
        while k < idx.len()
            invariant
                i < n == cs@.len() == d.len(),
                forall|q: int| 0 <= q < n ==> (#[trigger] cs@[q])@ == d[q],
                forall|q: int| 0 <= q < idx@.len() ==> #[trigger] idx@[q] < i,
                k <= idx@.len(),
                marked ==> 0 <= witness < idx@.len() && anc_or_self(
                    d[i as int],
                    d[idx@[witness] as int],
                ),
                !marked ==> forall|q: int|
                    0 <= q < k ==> !anc_or_self(d[i as int], d[#[trigger] idx@[q] as int]),
            decreases idx@.len() - k,
        {
            if is_anc_or_self(&cs[i], &cs[idx[k]]) {
                marked = true;
                proof {
                    witness = k as int;
                }
            }
            k = k + 1;
        }
        if !marked {
            proof {
                assert forall|q: int| 0 <= q < n implies !proper_anc(
                    #[trigger] d[i as int],
                    d[q],
                ) by {
                    if q < i {
                        if proper_anc(d[i as int], d[q]) {
                            lemma_anc_trans(d[i as int], d[q], d[idx@[cover[q]] as int]);
                        }
                    } else if q > i {
                        assert(!proper_anc(d[i as int], d[q]));
                    }
                }
                assert forall|k2: int| 0 <= k2 < leaves@.len() implies paths_view(leaves@)[k2]
                    != d[i as int] by {
                    assert(!anc_or_self(d[i as int], d[idx@[k2] as int]));
                }
            }
            let ghost old_leaves = leaves@;
            let ghost old_idx = idx@;
            leaves.push(dirs[i].clone());
            idx.push(i);
            proof {
                assert(paths_view(leaves@) =~= paths_view(old_leaves).push(d[i as int]));
                cover = cover.push(old_idx.len() as int);
            }
        } else {
            proof {
                cover = cover.push(witness);
            }
        }
        i = i + 1;
    }
    proof {
        let rs = paths_view(leaves@).to_set();
        let ds = d.to_set();
        assert forall|p: Seq<char>| rs.contains(p) implies leaves_of(ds).contains(p) by {
            let k = choose|k: int| 0 <= k < leaves@.len() && paths_view(leaves@)[k] == p;
            assert(ds.contains(d[idx@[k] as int]));
            assert forall|q: Seq<char>| ds.contains(q) implies !proper_anc(p, q) by {
                let qi = choose|qi: int| 0 <= qi < d.len() && d[qi] == q;
                assert(!proper_anc(d[idx@[k] as int], d[qi]));
            }
        }
        assert forall|p: Seq<char>| leaves_of(ds).contains(p) implies rs.contains(p) by {
            let j = choose|j: int| 0 <= j < d.len() && d[j] == p;
            let k = cover[j];
            assert(ds.contains(d[idx@[k] as int]));
            assert(!proper_anc(p, d[idx@[k] as int]));
            assert(paths_view(leaves@)[k] == p);
        }
        assert(rs =~= leaves_of(ds));
    }
    leaves
}

/// The leaves that a walk finds do not depend on the order in which it
/// lists the directories: two listings of the same directories have the
/// same leaves.
pub proof fn lemma_leaves_independent_of_order(a: Seq<Seq<char>>, b: Seq<Seq<char>>)
    requires
        a.to_set() == b.to_set(),
    ensures
        leaves_of(a.to_set()) == leaves_of(b.to_set()),
{
}

} // verus!
