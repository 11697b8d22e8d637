use vstd::prelude::*;

use crate::classify::{extension_of, is_video_path};
use crate::index::{entry_for, indexed, numbered, IndexView};
use crate::key::server_key;

verus! {

/// The predicate "is a video path", as a value that `Seq::filter` takes.
pub open spec fn video_pred() -> spec_fn(Seq<char>) -> bool {
    |p: Seq<char>| is_video_path(p)
}

/// What an index built from `files` holds, proved together by induction.
proof fn lemma_indexed_facts(files: Seq<Seq<char>>)
    ensures
        ({
            let m = indexed(files);
            let v = files.filter(video_pred());
            &&& m.len() == v.len()
            &&& forall|i: int| 0 <= i < m.len() ==> #[trigger] m[i] == entry_for(i as nat, v[i])
            &&& numbered(m)
            &&& forall|i: int| 0 <= i < m.len() ==> files.contains(#[trigger] m[i].1)
            &&& forall|j: int|
                0 <= j < files.len() && is_video_path(#[trigger] files[j]) ==> exists|i: int|
                    0 <= i < m.len() && #[trigger] m[i].1 == files[j]
            &&& files.no_duplicates() ==> forall|i: int, k: int|
                0 <= i < m.len() && 0 <= k < m.len() && #[trigger] m[i].1 == #[trigger] m[k].1
                    ==> i == k
        }),
    decreases files.len(),
{
    reveal(Seq::filter);
    let m = indexed(files);
    let v = files.filter(video_pred());
    if files.len() == 0 {
        assert(m.len() == 0);
        assert(v.len() == 0);
    } else {
        let init = files.drop_last();
        let last = files.last();
        lemma_indexed_facts(init);
        let prev = indexed(init);
        let pv = init.filter(video_pred());
        assert(m == (if is_video_path(last) {
            prev.push(entry_for(prev.len(), last))
        } else {
            prev
        }));
        assert(v == (if is_video_path(last) {
            pv.push(last)
        } else {
            pv
        }));
        assert forall|i: int| 0 <= i < m.len() implies files.contains(#[trigger] m[i].1) by {
            if i < prev.len() {
                assert(m[i] == prev[i]);
                let j = choose|j: int| 0 <= j < init.len() && init[j] == prev[i].1;
                assert(files[j] == init[j]);
            } else {
                assert(m[i].1 == files[files.len() - 1]);
            }
        }
        assert forall|j: int| 0 <= j < files.len() && is_video_path(#[trigger] files[j]) implies exists|i: int|
            0 <= i < m.len() && #[trigger] m[i].1 == files[j] by {
            if j < init.len() {
                assert(init[j] == files[j]);
                let i = choose|i: int| 0 <= i < prev.len() && #[trigger] prev[i].1 == init[j];
                assert(m[i] == prev[i]);
            } else {
                assert(m[prev.len() as int].1 == files[j]);
            }
        }
        assert forall|i: int| 0 <= i < m.len() implies #[trigger] m[i] == entry_for(i as nat, v[i]) by {
            if i < prev.len() {
                assert(m[i] == prev[i]);
                assert(v[i] == pv[i]);
            }
        }
        assert forall|i: int| 0 <= i < m.len() implies extension_of(#[trigger] m[i].1) is Some && m[i]
            == entry_for(i as nat, m[i].1) by {
            if i < prev.len() {
                assert(m[i] == prev[i]);
            }
        }
        if files.no_duplicates() {
            assert(init.no_duplicates()) by {
                assert forall|a: int, b: int| 0 <= a < init.len() && 0 <= b < init.len() && a != b implies init[a] != init[b] by {
                    assert(init[a] == files[a] && init[b] == files[b]);
                }
            }
            assert forall|i: int, k: int|
                0 <= i < m.len() && 0 <= k < m.len() && #[trigger] m[i].1 == #[trigger] m[k].1 implies i == k by {
                if i < prev.len() && k < prev.len() {
                    assert(m[i] == prev[i] && m[k] == prev[k]);
                } else if i < prev.len() || k < prev.len() {
                    let o = if i < prev.len() { i } else { k };
                    assert(m[o] == prev[o]);
                    assert(init.contains(prev[o].1));
                    let j = choose|j: int| 0 <= j < init.len() && init[j] == prev[o].1;
                    assert(files[j] == init[j]);
                    assert(m[prev.len() as int].1 == last);
                    assert(files[files.len() - 1] == last);
                }
            }
        }
    }
}

/// A build numbers the video files among `files` 0, 1, ..., k-1 in the order
/// they were visited, where k is how many there are; other files get nothing.
pub proof fn law_build_numbers_videos_in_order(files: Seq<Seq<char>>)
    ensures
        indexed(files).len() == files.filter(video_pred()).len(),
        forall|i: int|
            0 <= i < indexed(files).len() ==> #[trigger] indexed(files)[i] == (
                server_key(i as nat, extension_of(files.filter(video_pred())[i]).unwrap()),
                files.filter(video_pred())[i],
            ),
{
    lemma_indexed_facts(files);
}

/// After a build over distinct paths, each video file has exactly one key,
/// and every key names a file that was visited.
pub proof fn law_build_keys_each_video_once(files: Seq<Seq<char>>)
    requires
        files.no_duplicates(),
    ensures
        forall|f: Seq<char>|
            #[trigger] files.contains(f) && is_video_path(f) ==> exists|i: int|
                0 <= i < indexed(files).len() && #[trigger] indexed(files)[i].1 == f,
        forall|i: int, k: int|
            0 <= i < indexed(files).len() && 0 <= k < indexed(files).len()
                && #[trigger] indexed(files)[i].1 == #[trigger] indexed(files)[k].1 ==> i == k,
        forall|i: int| 0 <= i < indexed(files).len() ==> files.contains(#[trigger] indexed(files)[i].1),
{
    lemma_indexed_facts(files);
    assert forall|f: Seq<char>| #[trigger] files.contains(f) && is_video_path(f) implies exists|i: int|
        0 <= i < indexed(files).len() && #[trigger] indexed(files)[i].1 == f by {
        let j = choose|j: int| 0 <= j < files.len() && files[j] == f;
        assert(is_video_path(files[j]));
    }
}

/// Reloading forgets the previous state: the result depends only on the root
/// and on the files the new walk visits. Numbering restarts at zero, every
/// entry names a visited file, and every visited video file has an entry.
pub proof fn law_reload_reflects_files(s: IndexView, files: Seq<Seq<char>>)
    ensures
        s.reset().loaded(files) == (IndexView {
            entries: indexed(files),
            next_index: indexed(files).len(),
            root: s.root,
        }),
        forall|i: int|
            0 <= i < indexed(files).len() ==> files.contains(#[trigger] indexed(files)[i].1),
        forall|f: Seq<char>|
            #[trigger] files.contains(f) && is_video_path(f) ==> exists|i: int|
                0 <= i < indexed(files).len() && #[trigger] indexed(files)[i] == entry_for(
                    i as nat,
                    f,
                ),
{
    lemma_indexed_facts(files);
    assert forall|f: Seq<char>| #[trigger] files.contains(f) && is_video_path(f) implies exists|i: int|
        0 <= i < indexed(files).len() && #[trigger] indexed(files)[i] == entry_for(i as nat, f) by {
        let j = choose|j: int| 0 <= j < files.len() && files[j] == f;
        assert(is_video_path(files[j]));
        let i = choose|i: int| 0 <= i < indexed(files).len() && #[trigger] indexed(files)[i].1 == files[j];
        assert(indexed(files)[i] == entry_for(i as nat, indexed(files)[i].1));
    }
}

/// Reloading twice over the same files gives the same index as reloading once.
pub proof fn law_reload_idempotent(s: IndexView, files: Seq<Seq<char>>)
    ensures
        s.reset().loaded(files).reset().loaded(files) == s.reset().loaded(files),
{
}

/// In a built index, a key that no entry has is not found, and each entry's
/// key finds exactly that entry's path.
pub proof fn law_lookup_after_build(files: Seq<Seq<char>>, root: Option<Seq<char>>, key: Seq<char>)
    ensures
        ({
            let v = IndexView { entries: indexed(files), next_index: indexed(files).len(), root };
            &&& (forall|i: int| 0 <= i < v.entries.len() ==> #[trigger] v.entries[i].0 != key)
                ==> v.lookup(key) is None
            &&& forall|i: int|
                0 <= i < v.entries.len() ==> v.lookup(#[trigger] v.entries[i].0) == Some(
                    v.entries[i].1,
                )
        }),
{
    lemma_indexed_facts(files);
    let v = IndexView { entries: indexed(files), next_index: indexed(files).len(), root };
    if forall|i: int| 0 <= i < v.entries.len() ==> #[trigger] v.entries[i].0 != key {
        crate::index::lemma_find_key_absent(v.entries, key);
    }
    assert forall|i: int| 0 <= i < v.entries.len() implies v.lookup(#[trigger] v.entries[i].0)
        == Some(v.entries[i].1) by {
        crate::index::lemma_lookup_numbered(v, i);
    }
}

} // verus!
