//! Deduplicating path lists and the folder map.

use vstd::prelude::*;

verus! {

/// `acc` followed by each item of `items` that is not already present, in order.
pub open spec fn absorb(acc: Seq<Seq<char>>, items: Seq<Seq<char>>) -> Seq<Seq<char>>
    decreases items.len(),
{
    if items.len() == 0 {
        acc
    } else {
        let r = absorb(acc, items.drop_last());
        if r.contains(items.last()) {
            r
        } else {
            r.push(items.last())
        }
    }
}

pub proof fn lemma_absorb_props(acc: Seq<Seq<char>>, items: Seq<Seq<char>>)
    ensures
        forall|x: Seq<char>| #[trigger]
            absorb(acc, items).contains(x) <==> acc.contains(x) || items.contains(x),
        acc.no_duplicates() ==> absorb(acc, items).no_duplicates(),
        absorb(acc, items).len() >= acc.len(),
        absorb(acc, items).subrange(0, acc.len() as int) == acc,
    decreases items.len(),
{
    if items.len() > 0 {
        let init = items.drop_last();
        lemma_absorb_props(acc, init);
        let r = absorb(acc, init);
        assert forall|x: Seq<char>| items.contains(x) <==> init.contains(x) || x == items.last() by {
            if items.contains(x) {
                let j = choose|j: int| 0 <= j < items.len() && items[j] == x;
                if j < items.len() - 1 {
                    assert(init[j] == x);
                }
            }
            if init.contains(x) {
                let j = choose|j: int| 0 <= j < init.len() && init[j] == x;
                assert(items[j] == x);
            }
            if x == items.last() {
                assert(items[items.len() - 1] == x);
            }
        }
        if !r.contains(items.last()) {
            let r2 = r.push(items.last());
            assert forall|x: Seq<char>| r2.contains(x) <==> r.contains(x) || x == items.last() by {
                if r2.contains(x) {
                    let j = choose|j: int| 0 <= j < r2.len() && r2[j] == x;
                    if j < r.len() {
                        assert(r[j] == x);
                    }
                }
                if r.contains(x) {
                    let j = choose|j: int| 0 <= j < r.len() && r[j] == x;
                    assert(r2[j] == x);
                }
                if x == items.last() {
                    assert(r2[r.len() as int] == x);
                }
            }
            assert(r2.subrange(0, acc.len() as int) =~= r.subrange(0, acc.len() as int));
        }
    }
}

/// Absorbing two lists in turn is absorbing their concatenation.
pub proof fn lemma_absorb_concat(acc: Seq<Seq<char>>, a: Seq<Seq<char>>, b: Seq<Seq<char>>)
    ensures
        absorb(absorb(acc, a), b) == absorb(acc, a + b),
    decreases b.len(),
{
    if b.len() == 0 {
        assert(a + b =~= a);
    } else {
        lemma_absorb_concat(acc, a, b.drop_last());
        assert((a + b).drop_last() =~= a + b.drop_last());
        assert((a + b).last() == b.last());
    }
}

/// Whether `v` holds a string with the same characters as `p`.
pub fn contains_path(v: &Vec<String>, p: &String) -> (r: bool)
    ensures
        r == v.deep_view().contains(p@),
{
    let mut i: usize = 0;
    while i < v.len()
        invariant
            i <= v.len(),
            forall|j: int| 0 <= j < i ==> v.deep_view()[j] != p@,
        decreases v.len() - i,
    {
        if v[i] == *p {
            assert(v.deep_view()[i as int] == p@);
            return true;
        }
        i = i + 1;
    }
    false
}

/// Appends to `acc` each item of `items` that it does not hold yet.
pub fn absorb_into(acc: &mut Vec<String>, items: &Vec<String>)
    ensures
        final(acc).deep_view() == absorb(old(acc).deep_view(), items.deep_view()),
{
    let ghost start = acc.deep_view();
    let mut i: usize = 0;
    while i < items.len()
        invariant
            i <= items.len(),
            acc.deep_view() == absorb(start, items.deep_view().subrange(0, i as int)),
        decreases items.len() - i,
    {
        let ghost pre = items.deep_view().subrange(0, i as int + 1);
        assert(pre.drop_last() =~= items.deep_view().subrange(0, i as int));
        assert(pre.last() == items[i as int]@);
        if !contains_path(acc, &items[i]) {
            let ghost before = acc.deep_view();
            acc.push(items[i].clone());
            assert(acc.deep_view() =~= before.push(items[i as int]@));
        }
        i = i + 1;
    }
    assert(items.deep_view().subrange(0, items.len() as int) =~= items.deep_view());
}

/// One folder of the folder map and whether its images are shown.
pub struct FolderEntry {
    pub path: String,
    pub enabled: bool,
}

/// The folder map as pairs of path and flag.
pub open spec fn folder_view(v: Seq<FolderEntry>) -> Seq<(Seq<char>, bool)> {
    v.map_values(|f: FolderEntry| (f.path@, f.enabled))
}

/// No two entries of the folder map share a path.
pub open spec fn keys_unique(f: Seq<(Seq<char>, bool)>) -> bool {
    forall|i: int, j: int| 0 <= i < f.len() && 0 <= j < f.len() && i != j ==> f[i].0 != f[j].0
}

/// Position of the last entry with path `p`, or -1.
pub open spec fn find_key(f: Seq<(Seq<char>, bool)>, p: Seq<char>) -> int
    decreases f.len(),
{
    if f.len() == 0 {
        -1
    } else if f.last().0 == p {
        f.len() - 1
    } else {
        find_key(f.drop_last(), p)
    }
}

/// Whether the folder map enables path `p`.
pub open spec fn is_enabled(f: Seq<(Seq<char>, bool)>, p: Seq<char>) -> bool {
    find_key(f, p) >= 0 && f[find_key(f, p)].1
}

/// The folder map with `p` set to `e`: updated in place if present, else appended.
pub open spec fn with_folder(f: Seq<(Seq<char>, bool)>, p: Seq<char>, e: bool) -> Seq<
    (Seq<char>, bool),
> {
    let k = find_key(f, p);
    if k >= 0 {
        f.update(k, (p, e))
    } else {
        f.push((p, e))
    }
}

/// A list of pairs read into a map entry by entry, a later duplicate
/// overriding an earlier one.
pub open spec fn normalized(f: Seq<(Seq<char>, bool)>) -> Seq<(Seq<char>, bool)>
    decreases f.len(),
{
    if f.len() == 0 {
        Seq::empty()
    } else {
        with_folder(normalized(f.drop_last()), f.last().0, f.last().1)
    }
}

pub proof fn lemma_find_key(f: Seq<(Seq<char>, bool)>, p: Seq<char>)
    ensures
        -1 <= find_key(f, p) < f.len(),
        find_key(f, p) >= 0 ==> f[find_key(f, p)].0 == p,
        find_key(f, p) < 0 ==> forall|j: int| 0 <= j < f.len() ==> f[j].0 != p,
    decreases f.len(),
{
    if f.len() > 0 && f.last().0 != p {
        lemma_find_key(f.drop_last(), p);
        let k = find_key(f.drop_last(), p);
        if k >= 0 {
            assert(f[k] == f.drop_last()[k]);
        } else {
            assert forall|j: int| 0 <= j < f.len() implies f[j].0 != p by {
                if j < f.len() - 1 {
                    assert(f[j] == f.drop_last()[j]);
                }
            }
        }
    }
}

pub proof fn lemma_with_folder_unique(f: Seq<(Seq<char>, bool)>, p: Seq<char>, e: bool)
    requires
        keys_unique(f),
    ensures
        keys_unique(with_folder(f, p, e)),
        find_key(f, p) < 0 ==> with_folder(f, p, e) == f.push((p, e)),
{
    lemma_find_key(f, p);
}

/// Reading a list whose paths are distinct gives back the same list.
pub proof fn lemma_normalized_unique(f: Seq<(Seq<char>, bool)>)
    requires
        keys_unique(f),
    ensures
        normalized(f) == f,
    decreases f.len(),
{
    if f.len() > 0 {
        let init = f.drop_last();
        assert(keys_unique(init)) by {
            assert forall|i: int, j: int|
                0 <= i < init.len() && 0 <= j < init.len() && i != j implies init[i].0
                != init[j].0 by {
                assert(init[i] == f[i] && init[j] == f[j]);
            }
        }
        lemma_normalized_unique(init);
        lemma_find_key(init, f.last().0);
        if find_key(init, f.last().0) >= 0 {
            let k = find_key(init, f.last().0);
            assert(f[k] == init[k]);
            assert(f[f.len() - 1] == f.last());
        }
        assert(init.push(f.last()) =~= f);
    }
}

pub proof fn lemma_normalized_unique_keys(f: Seq<(Seq<char>, bool)>)
    ensures
        keys_unique(normalized(f)),
    decreases f.len(),
{
    if f.len() > 0 {
        lemma_normalized_unique_keys(f.drop_last());
        lemma_with_folder_unique(normalized(f.drop_last()), f.last().0, f.last().1);
    }
}

/// Position of the entry for `p` in the folder map, searched from the back.
pub fn folder_position(v: &Vec<FolderEntry>, p: &String) -> (r: Option<usize>)
    ensures
        match r {
            Some(k) => k as int == find_key(folder_view(v@), p@),
            None => find_key(folder_view(v@), p@) == -1,
        },
{
    let ghost fv = folder_view(v@);
    assert(fv.subrange(0, v.len() as int) =~= fv);
    let mut i: usize = v.len();
    while i > 0
        invariant
            i <= v.len(),
            fv == folder_view(v@),
            find_key(fv, p@) == find_key(fv.subrange(0, i as int), p@),
        decreases i,
    {
        let ghost sub = fv.subrange(0, i as int);
        assert(sub.last() == fv[i - 1]);
        assert(sub.drop_last() =~= fv.subrange(0, i - 1));
        if v[i - 1].path == *p {
            return Some(i - 1);
        }
        i = i - 1;
    }
    None
}

/// Sets folder `path` to `enabled`, adding it if the map lacks it.
pub fn set_folder(v: &mut Vec<FolderEntry>, path: String, enabled: bool)
    ensures
        folder_view(final(v)@) == with_folder(folder_view(old(v)@), path@, enabled),
{
    let ghost fv = folder_view(v@);
    match folder_position(v, &path) {
        Some(k) => {
            proof {
                lemma_find_key(fv, path@);
            }
            v.set(k, FolderEntry { path, enabled });
            assert(folder_view(v@) =~= fv.update(k as int, (path@, enabled)));
        },
        None => {
            let ghost pv = path@;
            v.push(FolderEntry { path, enabled });
            assert(folder_view(v@) =~= fv.push((pv, enabled)));
        },
    }
}

} // verus!
