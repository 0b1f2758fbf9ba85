//! The persisted settings and how a session is saved into them and loaded
//! from them.

use vstd::prelude::*;
use crate::paths::{
    folder_view, lemma_normalized_unique, lemma_normalized_unique_keys, normalized, set_folder,
    FolderEntry,
};
use crate::session::{aggregate, FolderScan, Session};

verus! {

/// The settings kept between runs.
pub struct Config {
    pub folder_map: Vec<FolderEntry>,
    pub target_exe_name: Option<String>,
    pub current_index: usize,
    pub is_pinned: bool,
    pub alarm_seconds: Option<u64>,
    pub alarm_sound_path: Option<String>,
}

/// The settings as mathematical values.
pub struct ConfigView {
    pub folder_map: Seq<(Seq<char>, bool)>,
    pub target_exe_name: Option<Seq<char>>,
    pub current_index: usize,
    pub is_pinned: bool,
    pub alarm_seconds: Option<u64>,
    pub alarm_sound_path: Option<Seq<char>>,
}

pub open spec fn opt_view(o: Option<String>) -> Option<Seq<char>> {
    match o {
        Some(s) => Some(s@),
        None => None,
    }
}

impl View for Config {
    type V = ConfigView;

    open spec fn view(&self) -> ConfigView {
        ConfigView {
            folder_map: folder_view(self.folder_map@),
            target_exe_name: opt_view(self.target_exe_name),
            current_index: self.current_index,
            is_pinned: self.is_pinned,
            alarm_seconds: self.alarm_seconds,
            alarm_sound_path: opt_view(self.alarm_sound_path),
        }
    }
}

/// What a session loaded from `c`, with `scans` as the folders' contents,
/// saves: the folder map read entry by entry, and the position kept only
/// where it falls inside the rebuilt list.
pub open spec fn reloaded(c: ConfigView, scans: Seq<FolderScan>) -> ConfigView {
    let f = normalized(c.folder_map);
    ConfigView {
        folder_map: f,
        current_index: if (c.current_index as int) < aggregate(f, scans).len() {
            c.current_index
        } else {
            0
        },
        ..c
    }
}

/// Loading saved settings and saving them again changes nothing: a second
/// load and save gives what the first one gave.
pub proof fn lemma_config_round_trip(c: ConfigView, scans: Seq<FolderScan>)
    ensures
        reloaded(reloaded(c, scans), scans) == reloaded(c, scans),
{
    lemma_normalized_unique_keys(c.folder_map);
    lemma_normalized_unique(normalized(c.folder_map));
}

fn clone_text(o: &Option<String>) -> (r: Option<String>)
    ensures
        opt_view(r) == opt_view(*o),
{
    match o {
        Some(s) => Some(s.clone()),
        None => None,
    }
}

impl Session {
    pub open spec fn config_view(&self) -> ConfigView {
        ConfigView {
            folder_map: self.folder_map(),
            target_exe_name: opt_view(self.target_exe_name),
            current_index: self.current_index,
            is_pinned: self.is_pinned,
            alarm_seconds: self.alarm_seconds,
            alarm_sound_path: opt_view(self.alarm_sound_path),
        }
    }

    /// The settings to persist.
    pub fn to_config(&self) -> (r: Config)
        ensures
            r@ == self.config_view(),
    {
        let mut folders: Vec<FolderEntry> = Vec::new();
        let mut i: usize = 0;
        while i < self.folders.len()
            invariant
                i <= self.folders.len(),
                folder_view(folders@) == self.folder_map().subrange(0, i as int),
            decreases self.folders.len() - i,
        {
            let ghost before = folder_view(folders@);
            let f = &self.folders[i];
            folders.push(FolderEntry { path: f.path.clone(), enabled: f.enabled });
            assert(folder_view(folders@) =~= before.push(self.folder_map()[i as int]));
            assert(self.folder_map().subrange(0, i as int + 1) =~= self.folder_map().subrange(
                0,
                i as int,
            ).push(self.folder_map()[i as int]));
            i = i + 1;
        }
        assert(self.folder_map().subrange(0, self.folders.len() as int) =~= self.folder_map());
        Config {
            folder_map: folders,
            target_exe_name: clone_text(&self.target_exe_name),
            current_index: self.current_index,
            is_pinned: self.is_pinned,
            alarm_seconds: self.alarm_seconds,
            alarm_sound_path: clone_text(&self.alarm_sound_path),
        }
    }

    /// A session started from saved settings: the folder map read entry by
    /// entry, the list rebuilt from the scans of the enabled folders, the
    /// saved position kept where it falls inside that list, the saved
    /// threshold armed, and the timer at zero.
    pub fn from_config(c: &Config, scans: &Vec<FolderScan>) -> (r: Session)
        ensures
            r.wf(),
            r.config_view() == reloaded(c@, scans@),
            r.paths().to_multiset() == aggregate(normalized(c@.folder_map), scans@).to_multiset(),
            r.alarm_threshold == c.alarm_seconds,
            !r.alarm_fired,
            !r.target_is_active,
            r.elapsed_ms == 0,
    {
        let mut folders: Vec<FolderEntry> = Vec::new();
        let mut i: usize = 0;
        while i < c.folder_map.len()
            invariant
                i <= c.folder_map.len(),
                folder_view(folders@) == normalized(c@.folder_map.subrange(0, i as int)),
            decreases c.folder_map.len() - i,
        {
            let ghost pre = c@.folder_map.subrange(0, i as int + 1);
            assert(pre.drop_last() =~= c@.folder_map.subrange(0, i as int));
            let f = &c.folder_map[i];
            set_folder(&mut folders, f.path.clone(), f.enabled);
            i = i + 1;
        }
        assert(c@.folder_map.subrange(0, c.folder_map.len() as int) =~= c@.folder_map);
        proof {
            lemma_normalized_unique_keys(c@.folder_map);
        }
        let mut s = Session {
            image_paths: Vec::new(),
            current_index: 0,
            folders,
            target_exe_name: clone_text(&c.target_exe_name),
            target_is_active: false,
            elapsed_ms: 0,
            is_pinned: c.is_pinned,
            alarm_seconds: c.alarm_seconds,
            alarm_threshold: c.alarm_seconds,
            alarm_fired: false,
            alarm_sound_path: clone_text(&c.alarm_sound_path),
        };
        assert(s.paths() =~= Seq::<Seq<char>>::empty());
        s.rebuild_image_list(scans);
        proof {
            s.paths().to_multiset_ensures();
            aggregate(normalized(c@.folder_map), scans@).to_multiset_ensures();
        }
        if c.current_index < s.image_paths.len() {
            s.current_index = c.current_index;
        }
        s
    }
}

} // verus!
