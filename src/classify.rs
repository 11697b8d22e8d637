use vstd::prelude::*;

verus! {

/// Index of the last occurrence of `c` in `s`, or -1 when `c` does not occur.
pub open spec fn last_index(s: Seq<char>, c: char) -> int
    decreases s.len(),
{
    if s.len() == 0 {
        -1
    } else if s.last() == c {
        s.len() - 1
    } else {
        last_index(s.drop_last(), c)
    }
}

/// The final segment of a path: everything after its last `/`.
pub open spec fn file_name(p: Seq<char>) -> Seq<char> {
    p.subrange(last_index(p, '/') + 1, p.len() as int)
}

/// The extension of a path: the text after the last `.` of its final segment.
/// A segment without a `.`, one whose only `.` leads it (a hidden file), and
/// the segment `..` have none.
pub open spec fn extension_of(p: Seq<char>) -> Option<Seq<char>> {
    let name = file_name(p);
    let d = last_index(name, '.');
    if d <= 0 || name == seq!['.', '.'] {
        None
    } else {
        Some(name.subrange(d + 1, name.len() as int))
    }
}

/// The extensions that mark a video file, compared exactly (case matters).
pub open spec fn video_extension_list() -> Seq<Seq<char>> {
    seq![
        "mp4"@, "avi"@, "flv"@, "heic"@, "mkv"@, "mov"@,
        "mpg"@, "mpeg"@, "m4v"@, "webm"@, "wmv"@, "3gp"@,
    ]
}

/// A path names a video when it has an extension and that extension is listed.
pub open spec fn is_video_path(p: Seq<char>) -> bool {
    match extension_of(p) {
        Some(e) => video_extension_list().contains(e),
        None => false,
    }
}

proof fn lemma_last_index_bounds(s: Seq<char>, c: char)
    ensures
        -1 <= last_index(s, c) < s.len(),
        last_index(s, c) >= 0 ==> s[last_index(s, c)] == c,
        forall|k: int| last_index(s, c) < k < s.len() ==> s[k] != c,
    decreases s.len(),
{
    if s.len() > 0 && s.last() != c {
        lemma_last_index_bounds(s.drop_last(), c);
        assert forall|k: int| last_index(s, c) < k < s.len() implies s[k] != c by {
            if k < s.len() - 1 {
                assert(s[k] == s.drop_last()[k]);
            }
        }
    }
}

/// Position of the last `c` in `s`, scanning from the end.
pub fn find_last(s: &str, c: char) -> (r: Option<usize>)
    ensures
        match r {
            Some(i) => i == last_index(s@, c) && i < s@.len(),
            None => last_index(s@, c) == -1,
        },
{
    let n = s.unicode_len();
    let mut i: usize = n;
    proof {
        assert(s@.subrange(0, n as int) =~= s@);
    }
    while i > 0 && s.get_char(i - 1) != c
        invariant
            i <= n == s@.len(),
            last_index(s@, c) == last_index(s@.subrange(0, i as int), c),
        decreases i,
    {
        proof {
            assert(s@.subrange(0, i as int).drop_last() =~= s@.subrange(0, i - 1));
        }
        i = i - 1;
    }
    proof {
        lemma_last_index_bounds(s@, c);
        if i > 0 {
            assert(s@.subrange(0, i as int).last() == c);
        }
    }
    if i == 0 {
        None
    } else {
        Some(i - 1)
    }
}

/// The extension of `path`, as `extension_of` describes it.
pub fn path_extension(path: &str) -> (r: Option<String>)
    ensures
        match r {
            Some(e) => extension_of(path@) == Some(e@),
            None => extension_of(path@) is None,
        },
{
    let n = path.unicode_len();
    let start: usize = match find_last(path, '/') {
        Some(i) => i + 1,
        None => 0,
    };
    proof {
        lemma_last_index_bounds(path@, '/');
    }
    let name = path.substring_char(start, n);
    assert(name@ == file_name(path@));
    let m = name.unicode_len();
    match find_last(name, '.') {
        None => None,
        Some(d) => {
            if d == 0 || (m == 2 && name.get_char(0) == '.' && name.get_char(1) == '.') {
                proof {
                    if d != 0 {
                        assert(name@ =~= seq!['.', '.']);
                    }
                }
                None
            } else {
                proof {
                    lemma_last_index_bounds(name@, '.');
                    if name@ == seq!['.', '.'] {
                        assert(name@[0] == '.' && name@[1] == '.');
                    }
                }
                Some(String::from_str(name.substring_char(d + 1, m)))
            }
        },
    }
}

} // verus!
