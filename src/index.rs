use vstd::prelude::*;

use crate::classify::{extension_of, is_video_path, path_extension, video_extension_list};
use crate::config::VideoPlayerConfig;
use crate::key::{lemma_server_key_injective, make_server_key, server_key};

verus! {

/// The entry made for the file numbered `n` at `path`: its server key and the path.
pub open spec fn entry_for(n: nat, path: Seq<char>) -> (Seq<char>, Seq<char>) {
    (server_key(n, extension_of(path).unwrap()), path)
}

/// `entries` after visiting `files` in order: each video file among them gets
/// the next number, counted from the entries already there; others are skipped.
pub open spec fn extend(
    entries: Seq<(Seq<char>, Seq<char>)>,
    files: Seq<Seq<char>>,
) -> Seq<(Seq<char>, Seq<char>)>
    decreases files.len(),
{
    if files.len() == 0 {
        entries
    } else {
        let prev = extend(entries, files.drop_last());
        if is_video_path(files.last()) {
            prev.push(entry_for(prev.len(), files.last()))
        } else {
            prev
        }
    }
}

/// The entries of an index built from `files`, visited in that order.
pub open spec fn indexed(files: Seq<Seq<char>>) -> Seq<(Seq<char>, Seq<char>)> {
    extend(Seq::empty(), files)
}

/// Every entry is a path with an extension, under the key of its own position.
pub open spec fn numbered(entries: Seq<(Seq<char>, Seq<char>)>) -> bool {
    forall|i: int|
        0 <= i < entries.len() ==> extension_of(#[trigger] entries[i].1) is Some && entries[i]
            == entry_for(i as nat, entries[i].1)
}

/// The paths of `files`, as character sequences.
pub open spec fn paths_view(files: Seq<String>) -> Seq<Seq<char>> {
    files.map_values(|f: String| f@)
}

/// The entries of `v`, as pairs of character sequences.
pub open spec fn entries_view(v: Seq<(String, String)>) -> Seq<(Seq<char>, Seq<char>)> {
    v.map_values(|e: (String, String)| (e.0@, e.1@))
}

/// The path of the last entry whose key is `key`, or `None` when no entry has it.
pub open spec fn find_key(entries: Seq<(Seq<char>, Seq<char>)>, key: Seq<char>) -> Option<Seq<char>>
    decreases entries.len(),
{
    if entries.len() == 0 {
        None
    } else if entries.last().0 == key {
        Some(entries.last().1)
    } else {
        find_key(entries.drop_last(), key)
    }
}

/// The abstract state of an index.
pub struct IndexView {
    /// (server key, source path), in the order the files were found.
    pub entries: Seq<(Seq<char>, Seq<char>)>,
    /// The number the next video file will get.
    pub next_index: nat,
    /// The directory the index is built from.
    pub root: Option<Seq<char>>,
}

impl IndexView {
    /// The path stored under `key`, if any.
    pub open spec fn lookup(self, key: Seq<char>) -> Option<Seq<char>> {
        find_key(self.entries, key)
    }

    /// The state after clearing: no entries, numbering from zero, same root.
    pub open spec fn reset(self) -> IndexView {
        IndexView { entries: Seq::empty(), next_index: 0, root: self.root }
    }

    /// The state after visiting `files` in order.
    pub open spec fn loaded(self, files: Seq<Seq<char>>) -> IndexView {
        IndexView {
            entries: extend(self.entries, files),
            next_index: extend(self.entries, files).len(),
            root: self.root,
        }
    }
}

/// The video index: server keys of the video files found under a root
/// directory, mapped to the files' paths.
pub struct VideoPlayerState {
    videos: Vec<(String, String)>,
    video_extensions: Vec<String>,
    next_index: usize,
    root: Option<String>,
}

impl View for VideoPlayerState {
    type V = IndexView;

    closed spec fn view(&self) -> IndexView {
        IndexView {
            entries: entries_view(self.videos@),
            next_index: self.next_index as nat,
            root: match self.root {
                Some(r) => Some(r@),
                None => None,
            },
        }
    }
}

/// Keys of a numbered index are unique.
pub proof fn lemma_numbered_keys_unique(entries: Seq<(Seq<char>, Seq<char>)>, i: int, j: int)
    requires
        numbered(entries),
        0 <= i < entries.len(),
        0 <= j < entries.len(),
        entries[i].0 == entries[j].0,
    ensures
        i == j,
{
    assert(entries[i] == entry_for(i as nat, entries[i].1));
    assert(entries[j] == entry_for(j as nat, entries[j].1));
    lemma_server_key_injective(
        i as nat,
        extension_of(entries[i].1).unwrap(),
        j as nat,
        extension_of(entries[j].1).unwrap(),
    );
}

/// A key that no entry has finds nothing.
pub proof fn lemma_find_key_absent(entries: Seq<(Seq<char>, Seq<char>)>, key: Seq<char>)
    requires
        forall|i: int| 0 <= i < entries.len() ==> #[trigger] entries[i].0 != key,
    ensures
        find_key(entries, key) is None,
    decreases entries.len(),
{
    if entries.len() > 0 {
        assert(entries.last().0 == entries[entries.len() - 1].0);
        assert forall|i: int| 0 <= i < entries.drop_last().len() implies #[trigger] entries.drop_last()[i].0
            != key by {
            assert(entries.drop_last()[i] == entries[i]);
        }
        lemma_find_key_absent(entries.drop_last(), key);
    }
}

proof fn lemma_find_key_unique(entries: Seq<(Seq<char>, Seq<char>)>, n: int)
    requires
        0 <= n < entries.len(),
        forall|i: int, j: int|
            0 <= i < entries.len() && 0 <= j < entries.len() && #[trigger] entries[i].0
                == #[trigger] entries[j].0 ==> i == j,
    ensures
        find_key(entries, entries[n].0) == Some(entries[n].1),
    decreases entries.len(),
{
    let last = entries.len() - 1;
    assert(entries.last() == entries[last]);
    if entries[last].0 != entries[n].0 {
        let init = entries.drop_last();
        assert(init[n] == entries[n]);
        assert forall|i: int, j: int|
            0 <= i < init.len() && 0 <= j < init.len() && #[trigger] init[i].0 == #[trigger] init[j].0
                implies i == j by {
            assert(init[i] == entries[i] && init[j] == entries[j]);
        }
        lemma_find_key_unique(init, n);
    }
}

/// In a numbered index, each entry's key finds that entry's path.
pub proof fn lemma_lookup_numbered(v: IndexView, n: int)
    requires
        numbered(v.entries),
        0 <= n < v.entries.len(),
    ensures
        v.lookup(v.entries[n].0) == Some(v.entries[n].1),
{
    assert forall|i: int, j: int|
        0 <= i < v.entries.len() && 0 <= j < v.entries.len() && #[trigger] v.entries[i].0
            == #[trigger] v.entries[j].0 implies i == j by {
        lemma_numbered_keys_unique(v.entries, i, j);
    }
    lemma_find_key_unique(v.entries, n);
}

impl VideoPlayerState {
    /// The state's internal consistency: the fixed extension list, a counter
    /// equal to the number of entries, and entries numbered by position.
    pub closed spec fn wf(&self) -> bool {
        &&& self.video_extensions@.map_values(|s: String| s@) == video_extension_list()
        &&& self.next_index == self.videos.len()
        &&& numbered(self@.entries)
    }

    /// An empty index with no root.
    pub fn new() -> (s: Self)
        ensures
            s.wf(),
            s@ == (IndexView { entries: Seq::empty(), next_index: 0, root: None }),
    {
        let mut exts: Vec<String> = Vec::new();
        exts.push(String::from_str("mp4"));
        exts.push(String::from_str("avi"));
        exts.push(String::from_str("flv"));
        exts.push(String::from_str("heic"));
        exts.push(String::from_str("mkv"));
        exts.push(String::from_str("mov"));
        exts.push(String::from_str("mpg"));
        exts.push(String::from_str("mpeg"));
        exts.push(String::from_str("m4v"));
        exts.push(String::from_str("webm"));
        exts.push(String::from_str("wmv"));
        exts.push(String::from_str("3gp"));
        assert(exts@.map_values(|s: String| s@) =~= video_extension_list());
        let s = VideoPlayerState { videos: Vec::new(), video_extensions: exts, next_index: 0, root: None };
        assert(s@.entries =~= Seq::<(Seq<char>, Seq<char>)>::empty());
        s
    }

    /// Whether `path` names a video file: its extension is one of the listed ones.
    pub fn is_video_file(&self, path: &str) -> (r: bool)
        requires
            self.wf(),
        ensures
            r == is_video_path(path@),
    {
        match path_extension(path) {
            None => false,
            Some(e) => {
                let ghost list = video_extension_list();
                let mut i: usize = 0;
                while i < self.video_extensions.len()
                    invariant
                        self.wf(),
                        list == video_extension_list(),
                        extension_of(path@) == Some(e@),
                        i <= self.video_extensions.len(),
                        forall|j: int| 0 <= j < i ==> list[j] != e@,
                    decreases self.video_extensions.len() - i,
                {
                    assert(list[i as int] == self.video_extensions@[i as int]@);
                    if self.video_extensions[i] == e {
                        return true;
                    }
                    i = i + 1;
                }
                assert(!list.contains(e@));
                false
            },
        }
    }

    /// Adds the file at `path` under the next number and its own extension.
    pub fn load_video(&mut self, path: String)
        requires
            old(self).wf(),
            extension_of(path@) is Some,
            old(self)@.next_index < usize::MAX,
        ensures
            final(self).wf(),
            final(self)@ == (IndexView {
                entries: old(self)@.entries.push(entry_for(old(self)@.next_index, path@)),
                next_index: old(self)@.next_index + 1,
                root: old(self)@.root,
            }),
    {
        let ext = match path_extension(path.as_str()) {
            Some(e) => e,
            None => {
                return;
            },
        };
        let key = make_server_key(self.next_index, ext.as_str());
        self.videos.push((key, path));
        self.next_index = self.next_index + 1;
        proof {
            assert(self@.entries =~= old(self)@.entries.push(
                entry_for(old(self)@.next_index, path@),
            ));
            let es = self@.entries;
            assert forall|i: int| 0 <= i < es.len() implies extension_of(#[trigger] es[i].1) is Some
                && es[i] == entry_for(i as nat, es[i].1) by {
                if i < es.len() - 1 {
                    assert(es[i] == old(self)@.entries[i]);
                }
            }
        }
    }

    /// Visits `files` in order, adding each video file among them under the
    /// next number.
    pub fn load_videos(&mut self, files: &Vec<String>)
        requires
            old(self).wf(),
            old(self)@.next_index + files.len() <= usize::MAX,
        ensures
            final(self).wf(),
            final(self)@ == old(self)@.loaded(paths_view(files@)),
    {
        let ghost fs = paths_view(files@);
        let mut i: usize = 0;
        proof {
            assert(fs.subrange(0, 0) =~= Seq::<Seq<char>>::empty());
        }
        while i < files.len()
            invariant
                self.wf(),
                fs == paths_view(files@),
                i <= files.len(),
                self@ == old(self)@.loaded(fs.subrange(0, i as int)),
                self.next_index <= old(self).next_index + i,
                old(self).next_index + files.len() <= usize::MAX,
            decreases files.len() - i,
        {
            let ghost before = fs.subrange(0, i as int);
            proof {
                assert(fs.subrange(0, i + 1).drop_last() =~= before);
                assert(fs.subrange(0, i + 1).last() == files@[i as int]@);
            }
            if self.is_video_file(files[i].as_str()) {
                self.load_video(files[i].clone());
            }
            i = i + 1;
        }
        proof {
            assert(fs.subrange(0, files.len() as int) =~= fs);
        }
    }

    /// An index of the video files among `files`, listed in the order a walk
    /// of `config.assets_root` visited them.
    pub fn build(config: &VideoPlayerConfig, files: &Vec<String>) -> (s: Self)
        ensures
            s.wf(),
            s@ == (IndexView {
                entries: indexed(paths_view(files@)),
                next_index: indexed(paths_view(files@)).len(),
                root: Some(config.assets_root@),
            }),
    {
        let mut s = Self::new();
        s.root = Some(config.assets_root.clone());
        s.load_videos(files);
        s
    }

    /// Rebuilds the index from scratch over `files`, the result of a new walk
    /// of the root: old entries are dropped and numbering restarts at zero.
    pub fn reload(&mut self, files: &Vec<String>)
        requires
            old(self).wf(),
        ensures
            final(self).wf(),
            final(self)@ == old(self)@.reset().loaded(paths_view(files@)),
    {
        self.next_index = 0;
        self.videos = Vec::new();
        assert(self@.entries =~= Seq::<(Seq<char>, Seq<char>)>::empty());
        self.load_videos(files);
    }

    /// The path stored under the server key `key`, or `None` when no entry has it.
    pub fn lookup(&self, key: &str) -> (r: Option<String>)
        requires
            self.wf(),
        ensures
            match r {
                Some(p) => self@.lookup(key@) == Some(p@),
                None => self@.lookup(key@) is None,
            },
    {
        let k = String::from_str(key);
        let ghost es = self@.entries;
        let mut i: usize = self.videos.len();
        proof {
            assert(es.subrange(0, i as int) =~= es);
        }
        while i > 0
            invariant
                es == self@.entries,
                k@ == key@,
                i <= self.videos.len(),
                find_key(es, key@) == find_key(es.subrange(0, i as int), key@),
            decreases i,
        {
            let ghost sub = es.subrange(0, i as int);
            assert(sub.last() == (self.videos@[i - 1].0@, self.videos@[i - 1].1@));
            if self.videos[i - 1].0 == k {
                return Some(self.videos[i - 1].1.clone());
            }
            assert(sub.drop_last() =~= es.subrange(0, i - 1));
            i = i - 1;
        }
        None
    }

    /// Every (server key, path) entry, in the order the files were found.
    pub fn list_all(&self) -> (r: Vec<(String, String)>)
        ensures
            entries_view(r@) == self@.entries,
    {
        let mut r: Vec<(String, String)> = Vec::new();
        let mut i: usize = 0;
        while i < self.videos.len()
            invariant
                i <= self.videos.len(),
                r@.len() == i,
                entries_view(r@) == entries_view(self.videos@).subrange(0, i as int),
            decreases self.videos.len() - i,
        {
            let ghost prev = r@;
            let k = self.videos[i].0.clone();
            let p = self.videos[i].1.clone();
            r.push((k, p));
            proof {
                let (ev, sv) = (entries_view(r@), entries_view(self.videos@));
                assert forall|j: int| 0 <= j <= i implies ev[j] == sv[j] by {
                    if j < i {
                        assert(r@[j] == prev[j]);
                        assert(entries_view(prev)[j] == sv[j]);
                    }
                }
            }
            i = i + 1;
            assert(entries_view(r@) =~= entries_view(self.videos@).subrange(0, i as int));
        }
        assert(entries_view(self.videos@).subrange(0, i as int) =~= entries_view(self.videos@));
        r
    }

    /// The number the next video file will get.
    pub fn next_index(&self) -> (r: usize)
        ensures
            r == self@.next_index,
    {
        self.next_index
    }

    /// The directory the index was built from.
    pub fn root(&self) -> (r: Option<String>)
        ensures
            match r {
                Some(p) => self@.root == Some(p@),
                None => self@.root is None,
            },
    {
        match &self.root {
            Some(p) => Some(p.clone()),
            None => None,
        }
    }
}

} // verus!
