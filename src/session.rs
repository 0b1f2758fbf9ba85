//! The viewing session: the aggregate image list, the browsing position,
//! the tracked process, the focus timer and its alarm.

use vstd::prelude::*;
use rand::seq::SliceRandom;
use crate::paths::{
    absorb, absorb_into, folder_position, folder_view, is_enabled, keys_unique, lemma_absorb_concat,
    lemma_absorb_props, lemma_with_folder_unique, set_folder, with_folder, FolderEntry,
};

verus! {

/// The image files found in one folder.
pub struct FolderScan {
    pub folder: String,
    pub images: Vec<String>,
}

/// The images of the scans whose folder the map enables, scan after scan.
pub open spec fn enabled_images(f: Seq<(Seq<char>, bool)>, scans: Seq<FolderScan>) -> Seq<
    Seq<char>,
>
    decreases scans.len(),
{
    if scans.len() == 0 {
        Seq::empty()
    } else {
        let rest = enabled_images(f, scans.drop_last());
        if is_enabled(f, scans.last().folder@) {
            rest + scans.last().images.deep_view()
        } else {
            rest
        }
    }
}

/// The aggregate list that the enabled folders give, before shuffling.
pub open spec fn aggregate(f: Seq<(Seq<char>, bool)>, scans: Seq<FolderScan>) -> Seq<Seq<char>> {
    absorb(Seq::empty(), enabled_images(f, scans))
}

/// Where the browsing position goes once the entry under it is removed
/// and `n` entries remain.
pub open spec fn after_removal(i: int, n: int) -> int {
    if i < n {
        i
    } else {
        0
    }
}

/// Relies on rand's `SliceRandom::shuffle` with the thread-local generator:
/// it only swaps elements, so the result is a reordering of the input.
#[verifier::external_body]
fn shuffle_paths(v: &mut Vec<String>)
    ensures
        final(v).deep_view().to_multiset() == old(v).deep_view().to_multiset(),
        final(v)@.len() == old(v)@.len(),
{
    v.shuffle(&mut rand::thread_rng());
}

/// A reordering of a list without duplicates has none either.
proof fn lemma_reorder_no_dup(a: Seq<Seq<char>>, b: Seq<Seq<char>>)
    requires
        a.no_duplicates(),
        a.to_multiset() == b.to_multiset(),
    ensures
        b.no_duplicates(),
        forall|x: Seq<char>| #[trigger] b.contains(x) <==> a.contains(x),
{
    a.lemma_multiset_has_no_duplicates();
    b.lemma_multiset_has_no_duplicates_conv();
    a.to_multiset_ensures();
    b.to_multiset_ensures();
    assert forall|x: Seq<char>| #[trigger] b.contains(x) <==> a.contains(x) by {
        assert(b.to_multiset().count(x) == a.to_multiset().count(x));
        assert(a.contains(x) <==> a.to_multiset().count(x) > 0);
        assert(b.contains(x) <==> b.to_multiset().count(x) > 0);
    }
}

pub struct Session {
    /// The aggregate list, in display order.
    pub image_paths: Vec<String>,
    /// Position of the shown entry in `image_paths`.
    pub current_index: usize,
    /// Folder map: each folder and whether it contributes images.
    pub folders: Vec<FolderEntry>,
    /// Lower-cased executable name of the tracked process.
    pub target_exe_name: Option<String>,
    /// Whether the tracked process held the focus at the last observation.
    pub target_is_active: bool,
    /// Focused time accumulated since the last advance, in milliseconds.
    pub elapsed_ms: u64,
    /// Whether the window stays above others.
    pub is_pinned: bool,
    /// Threshold chosen in the alarm settings, in seconds.
    pub alarm_seconds: Option<u64>,
    /// Threshold of the armed alarm, in seconds.
    pub alarm_threshold: Option<u64>,
    /// Whether the armed alarm went off.
    pub alarm_fired: bool,
    /// Sound file played when the alarm goes off.
    pub alarm_sound_path: Option<String>,
}

impl Session {
    pub open spec fn paths(&self) -> Seq<Seq<char>> {
        self.image_paths.deep_view()
    }

    pub open spec fn folder_map(&self) -> Seq<(Seq<char>, bool)> {
        folder_view(self.folders@)
    }

    /// Folder paths are distinct, the list holds no duplicate, and the
    /// position is inside a non-empty list (zero for an empty one).
    pub open spec fn wf(&self) -> bool {
        &&& keys_unique(self.folder_map())
        &&& self.paths().no_duplicates()
        &&& if self.image_paths.len() > 0 {
            self.current_index < self.image_paths.len()
        } else {
            self.current_index == 0
        }
    }

    /// Fields other than the list and the position are those of `o`.
    pub open spec fn same_settings(&self, o: &Session) -> bool {
        &&& self.folders == o.folders
        &&& self.target_exe_name == o.target_exe_name
        &&& self.target_is_active == o.target_is_active
        &&& self.elapsed_ms == o.elapsed_ms
        &&& self.is_pinned == o.is_pinned
        &&& self.alarm_seconds == o.alarm_seconds
        &&& self.alarm_threshold == o.alarm_threshold
        &&& self.alarm_fired == o.alarm_fired
        &&& self.alarm_sound_path == o.alarm_sound_path
    }

    /// Whether the folder map enables `folder`.
    pub fn folder_enabled(&self, folder: &String) -> (r: bool)
        ensures
            r == is_enabled(self.folder_map(), folder@),
    {
        proof {
            crate::paths::lemma_find_key(self.folder_map(), folder@);
        }
        match folder_position(&self.folders, folder) {
            Some(k) => self.folders[k].enabled,
            None => false,
        }
    }

    /// Builds the list anew from the scans of the enabled folders: their
    /// images without duplicates, shuffled; the position goes back to the start.
    pub fn rebuild_image_list(&mut self, scans: &Vec<FolderScan>)
        requires
            old(self).wf(),
        ensures
            final(self).wf(),
            final(self).paths().to_multiset() == aggregate(
                old(self).folder_map(),
                scans@,
            ).to_multiset(),
            final(self).current_index == 0,
            final(self).same_settings(old(self)),
    {
        let ghost f = self.folder_map();
        let mut collected: Vec<String> = Vec::new();
        let mut i: usize = 0;
        while i < scans.len()
            invariant
                i <= scans.len(),
                f == self.folder_map(),
                collected.deep_view() == aggregate(f, scans@.subrange(0, i as int)),
            decreases scans.len() - i,
        {
            let ghost pre = scans@.subrange(0, i as int + 1);
            assert(pre.drop_last() =~= scans@.subrange(0, i as int));
            assert(pre.last() == scans[i as int]);
            if self.folder_enabled(&scans[i].folder) {
                proof {
                    lemma_absorb_concat(
                        Seq::empty(),
                        enabled_images(f, pre.drop_last()),
                        scans[i as int].images.deep_view(),
                    );
                }
                absorb_into(&mut collected, &scans[i].images);
            }
            i = i + 1;
        }
        assert(scans@.subrange(0, scans.len() as int) =~= scans@);
        proof {
            lemma_absorb_props(Seq::empty(), enabled_images(f, scans@));
        }
        let ghost unshuffled = collected.deep_view();
        shuffle_paths(&mut collected);
        proof {
            lemma_reorder_no_dup(unshuffled, collected.deep_view());
        }
        self.image_paths = collected;
        self.current_index = 0;
    }

    /// Moves to the next image, wrapping after the last, and restarts the
    /// focus timer and the alarm. Does nothing on an empty list.
    pub fn next_image(&mut self)
        requires
            old(self).wf(),
        ensures
            final(self).wf(),
            old(self).image_paths.len() == 0 ==> *final(self) == *old(self),
            old(self).image_paths.len() > 0 ==> {
                &&& final(self).current_index == (old(self).current_index + 1) % (old(
                    self,
                ).image_paths.len() as int)
                &&& final(self).image_paths == old(self).image_paths
                &&& final(self).elapsed_ms == 0
                &&& !final(self).alarm_fired
                &&& final(self).folders == old(self).folders
                &&& final(self).target_exe_name == old(self).target_exe_name
                &&& final(self).target_is_active == old(self).target_is_active
                &&& final(self).is_pinned == old(self).is_pinned
                &&& final(self).alarm_seconds == old(self).alarm_seconds
                &&& final(self).alarm_threshold == old(self).alarm_threshold
                &&& final(self).alarm_sound_path == old(self).alarm_sound_path
            },
    {
        if self.image_paths.len() > 0 {
            self.current_index = (self.current_index + 1) % self.image_paths.len();
            self.elapsed_ms = 0;
            self.alarm_fired = false;
        }
    }

    /// The path of the entry at the position, if the list is not empty.
    pub fn current_path(&self) -> (r: Option<&String>)
        requires
            self.wf(),
        ensures
            self.image_paths.len() == 0 ==> r is None,
            self.image_paths.len() > 0 ==> r == Some(&self.image_paths[self.current_index as int]),
    {
        if self.image_paths.len() > 0 {
            Some(&self.image_paths[self.current_index])
        } else {
            None
        }
    }

    /// Drops the entry at the position, which failed to decode; the position
    /// stays, now on the following entry, or wraps to the start.
    pub fn drop_current(&mut self)
        requires
            old(self).wf(),
            old(self).image_paths.len() > 0,
        ensures
            final(self).wf(),
            final(self).image_paths@ == old(self).image_paths@.remove(
                old(self).current_index as int,
            ),
            final(self).current_index as int == after_removal(
                old(self).current_index as int,
                old(self).image_paths.len() - 1,
            ),
            final(self).same_settings(old(self)),
    {
        let ghost before = self.paths();
        self.image_paths.remove(self.current_index);
        assert(self.paths() =~= before.remove(old(self).current_index as int));
        if self.current_index >= self.image_paths.len() {
            self.current_index = 0;
        }
    }

    /// Adds `folder` as enabled (or enables it again), and appends its images,
    /// shuffled, that the list does not hold yet.
    pub fn add_folder(&mut self, folder: String, images: Vec<String>)
        requires
            old(self).wf(),
        ensures
            final(self).wf(),
            final(self).folder_map() == with_folder(old(self).folder_map(), folder@, true),
            final(self).paths().subrange(0, old(self).image_paths.len() as int) == old(
                self,
            ).paths(),
            forall|x: Seq<char>| #[trigger]
                final(self).paths().contains(x) <==> old(self).paths().contains(x)
                    || images.deep_view().contains(x),
            old(self).image_paths.len() > 0 ==> final(self).current_index == old(
                self,
            ).current_index,
            final(self).target_exe_name == old(self).target_exe_name,
            final(self).elapsed_ms == old(self).elapsed_ms,
            final(self).is_pinned == old(self).is_pinned,
            final(self).alarm_threshold == old(self).alarm_threshold,
            final(self).alarm_fired == old(self).alarm_fired,
    {
        proof {
            lemma_with_folder_unique(self.folder_map(), folder@, true);
        }
        set_folder(&mut self.folders, folder, true);
        let was_empty = self.image_paths.len() == 0;
        let mut fresh = images;
        let ghost given = fresh.deep_view();
        shuffle_paths(&mut fresh);
        proof {
            given.to_multiset_ensures();
            fresh.deep_view().to_multiset_ensures();
            assert forall|x: Seq<char>| #[trigger]
                fresh.deep_view().contains(x) <==> given.contains(x) by {
                assert(fresh.deep_view().to_multiset().count(x) == given.to_multiset().count(x));
            }
            lemma_absorb_props(self.paths(), fresh.deep_view());
        }
        absorb_into(&mut self.image_paths, &fresh);
        if was_empty {
            self.current_index = 0;
        }
    }

    /// Sets the flag of the folder map entry at `index`.
    pub fn set_folder_enabled(&mut self, index: usize, enabled: bool)
        requires
            old(self).wf(),
            index < old(self).folders.len(),
        ensures
            final(self).wf(),
            final(self).folder_map() == old(self).folder_map().update(
                index as int,
                (old(self).folder_map()[index as int].0, enabled),
            ),
            *final(self) == (Session { folders: final(self).folders, ..*old(self) }),
    {
        let ghost fv = self.folder_map();
        let path = self.folders[index].path.clone();
        self.folders.set(index, FolderEntry { path, enabled });
        assert(self.folder_map() =~= fv.update(index as int, (fv[index as int].0, enabled)));
    }
}

/// An image is in the enabled images exactly when the scan of an enabled
/// folder lists it.
proof fn lemma_enabled_images_exact(f: Seq<(Seq<char>, bool)>, scans: Seq<FolderScan>, x: Seq<char>)
    ensures
        enabled_images(f, scans).contains(x) <==> exists|i: int|
            0 <= i < scans.len() && is_enabled(f, scans[i].folder@)
                && #[trigger] scans[i].images.deep_view().contains(x),
    decreases scans.len(),
{
    if scans.len() > 0 {
        let init = scans.drop_last();
        lemma_enabled_images_exact(f, init, x);
        let rest = enabled_images(f, init);
        let last = scans.last().images.deep_view();
        if is_enabled(f, scans.last().folder@) {
            assert((rest + last).contains(x) <==> rest.contains(x) || last.contains(x)) by {
                if (rest + last).contains(x) {
                    let j = choose|j: int| 0 <= j < (rest + last).len() && (rest + last)[j] == x;
                    if j >= rest.len() {
                        assert(last[j - rest.len()] == x);
                    }
                }
                if rest.contains(x) {
                    let j = choose|j: int| 0 <= j < rest.len() && rest[j] == x;
                    assert((rest + last)[j] == x);
                }
                if last.contains(x) {
                    let j = choose|j: int| 0 <= j < last.len() && last[j] == x;
                    assert((rest + last)[rest.len() + j] == x);
                }
            }
        }
        if exists|i: int|
            0 <= i < scans.len() && is_enabled(f, scans[i].folder@)
                && #[trigger] scans[i].images.deep_view().contains(x) {
            let i = choose|i: int|
                0 <= i < scans.len() && is_enabled(f, scans[i].folder@)
                    && #[trigger] scans[i].images.deep_view().contains(x);
            if i < scans.len() - 1 {
                assert(init[i] == scans[i]);
            }
        }
        if exists|i: int|
            0 <= i < init.len() && is_enabled(f, init[i].folder@)
                && #[trigger] init[i].images.deep_view().contains(x) {
            let i = choose|i: int|
                0 <= i < init.len() && is_enabled(f, init[i].folder@)
                    && #[trigger] init[i].images.deep_view().contains(x);
            assert(init[i] == scans[i]);
        }
    }
}

/// The list that a rebuild shuffles holds no duplicate, and holds exactly
/// the images that the scans of enabled folders list: a disabled folder
/// contributes nothing.
pub proof fn lemma_aggregate_exact(f: Seq<(Seq<char>, bool)>, scans: Seq<FolderScan>, x: Seq<char>)
    ensures
        aggregate(f, scans).no_duplicates(),
        aggregate(f, scans).contains(x) <==> exists|i: int|
            0 <= i < scans.len() && is_enabled(f, scans[i].folder@)
                && #[trigger] scans[i].images.deep_view().contains(x),
{
    lemma_absorb_props(Seq::empty(), enabled_images(f, scans));
    lemma_enabled_images_exact(f, scans, x);
}

/// The list and position that removing undecodable entries at the position
/// settles on: entries are dropped one by one, as `drop_current` does, until
/// the entry at the position decodes or nothing is left.
pub open spec fn settle(paths: Seq<Seq<char>>, i: int, decodes: spec_fn(Seq<char>) -> bool) -> (
    Seq<Seq<char>>,
    int,
)
    decreases paths.len(),
{
    if paths.len() == 0 || !(0 <= i < paths.len()) || decodes(paths[i]) {
        (paths, i)
    } else {
        let rest = paths.remove(i);
        settle(rest, after_removal(i, rest.len() as int), decodes)
    }
}

/// Settling never stops on an entry that fails to decode: either the list is
/// used up, or the position is inside it on an entry that decodes; and no
/// entry that decodes is dropped.
pub proof fn lemma_settle_lands_on_decodable(
    paths: Seq<Seq<char>>,
    i: int,
    decodes: spec_fn(Seq<char>) -> bool,
)
    requires
        paths.len() > 0 ==> 0 <= i < paths.len(),
    ensures
        settle(paths, i, decodes).0.len() == 0 || {
            let (p, j) = settle(paths, i, decodes);
            0 <= j < p.len() && decodes(p[j])
        },
        forall|x: Seq<char>|
            paths.contains(x) && decodes(x) ==> #[trigger] settle(paths, i, decodes).0.contains(x),
    decreases paths.len(),
{
    if paths.len() == 0 || decodes(paths[i]) {
    } else {
        let rest = paths.remove(i);
        lemma_settle_lands_on_decodable(rest, after_removal(i, rest.len() as int), decodes);
        assert forall|x: Seq<char>| paths.contains(x) && decodes(x) implies rest.contains(x) by {
            let k = choose|k: int| 0 <= k < paths.len() && paths[k] == x;
            if k < i {
                assert(rest[k] == x);
            } else {
                assert(k != i);
                assert(rest[k - 1] == x);
            }
        }
    }
}

/// The position after `k` advances from `i` in a list of `n` entries.
pub open spec fn advanced(i: int, n: int, k: nat) -> int
    decreases k,
{
    if k == 0 {
        i
    } else {
        (advanced(i, n, (k - 1) as nat) + 1) % n
    }
}

/// Advancing from any position of a non-empty list visits every entry
/// exactly once in `n` steps, and is back at the start after them.
pub proof fn lemma_advance_cycles(i: int, n: int)
    requires
        0 <= i < n,
    ensures
        advanced(i, n, n as nat) == i,
        forall|k: nat| k < n ==> #[trigger] advanced(i, n, k) == (i + k) % n,
        forall|k1: nat, k2: nat|
            k1 < n && k2 < n && k1 != k2 ==> #[trigger] advanced(i, n, k1) != #[trigger] advanced(
                i,
                n,
                k2,
            ),
        forall|j: int|
            0 <= j < n ==> #[trigger] advanced(i, n, ((j - i + n) % n) as nat) == j && (j - i + n)
                % n < n,
{
    assert forall|k: nat| k <= n implies #[trigger] advanced(i, n, k) == (i + k) % n by {
        lemma_advanced_mod(i, n, k);
    }
    assert(advanced(i, n, n as nat) == i) by {
        lemma_advanced_mod(i, n, n as nat);
        assert((i + n) % n == i) by (nonlinear_arith)
            requires
                0 <= i < n,
        ;
    }
    assert forall|k1: nat, k2: nat|
        k1 < n && k2 < n && k1 != k2 implies #[trigger] advanced(i, n, k1) != #[trigger] advanced(
        i,
        n,
        k2,
    ) by {
        lemma_advanced_mod(i, n, k1);
        lemma_advanced_mod(i, n, k2);
        lemma_mod_distinct(i, n, k1 as int, k2 as int);
    }
    assert forall|j: int| 0 <= j < n implies #[trigger] advanced(i, n, ((j - i + n) % n) as nat)
        == j && (j - i + n) % n < n by {
        let k = (j - i + n) % n;
        assert(0 <= k < n) by (nonlinear_arith)
            requires
                k == (j - i + n) % n,
                0 <= j < n,
                0 <= i < n,
        ;
        lemma_advanced_mod(i, n, k as nat);
        assert((i + k) % n == j) by (nonlinear_arith)
            requires
                k == (j - i + n) % n,
                0 <= j < n,
                0 <= i < n,
        ;
    }
}

proof fn lemma_advanced_mod(i: int, n: int, k: nat)
    requires
        0 <= i < n,
    ensures
        advanced(i, n, k) == (i + k) % n,
    decreases k,
{
    if k == 0 {
        assert(i % n == i) by (nonlinear_arith)
            requires
                0 <= i < n,
        ;
    } else {
        lemma_advanced_mod(i, n, (k - 1) as nat);
        assert(((i + (k - 1)) % n + 1) % n == (i + k) % n) by (nonlinear_arith)
            requires
                n > 0,
                k >= 1,
                i >= 0,
        ;
    }
}

proof fn lemma_mod_distinct(i: int, n: int, k1: int, k2: int)
    requires
        0 <= i < n,
        0 <= k1 < n,
        0 <= k2 < n,
        k1 != k2,
    ensures
        (i + k1) % n != (i + k2) % n,
{
    assert((i + k1) % n != (i + k2) % n) by (nonlinear_arith)
        requires
            0 <= i < n,
            0 <= k1 < n,
            0 <= k2 < n,
            k1 != k2,
    ;
}

} // verus!
