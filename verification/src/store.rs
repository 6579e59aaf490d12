//! Versioned file store: a tree of text files addressed by absolute
//! slash-separated paths, each file an immutable list of revisions.
//!
//! The tree is kept flat: every file is stored under its full path
//! relative to the root, with the invariant that paths are unique
//! and well formed.

use vstd::prelude::*;
use vstd::string::StringSliceAdditionalSpecFns;

verus! {

/// A byte allowed in a path: an ASCII letter or digit, `/`, `.`,
/// `_`, `-`.
pub open spec fn path_byte_ok(b: u8) -> bool {
    (48 <= b <= 57) || (65 <= b <= 90) || (97 <= b <= 122) || b == 47 || b == 46 || b == 95 || b
        == 45
}

/// An acceptable absolute path: it begins with `/`, holds no empty
/// segment, and uses only the allowed bytes.
pub open spec fn path_valid(s: Seq<u8>) -> bool {
    &&& s.len() >= 1
    &&& s[0] == 47
    &&& forall|k: int| 0 <= k < s.len() ==> path_byte_ok(#[trigger] s[k])
    &&& forall|k: int| 0 <= k < s.len() - 1 ==> !(s[k] == 47 && #[trigger] s[k + 1] == 47)
}

/// A well-formed path relative to the root: nonempty, allowed bytes,
/// neither starting nor ending with `/`, no empty segment.
pub open spec fn rel_path_ok(s: Seq<u8>) -> bool {
    &&& s.len() >= 1
    &&& s[0] != 47
    &&& s.last() != 47
    &&& forall|k: int| 0 <= k < s.len() ==> path_byte_ok(#[trigger] s[k])
    &&& forall|k: int| 0 <= k < s.len() - 1 ==> !(s[k] == 47 && #[trigger] s[k + 1] == 47)
}

/// Check an absolute path against the path rules.
pub fn valid_path_bytes(path: &[u8]) -> (r: bool)
    ensures
        r == path_valid(path@),
{
    if path.len() == 0 || path[0] != 47 {
        return false;
    }
    let mut i: usize = 0;
    while i < path.len()
        invariant
            0 <= i <= path@.len(),
            path@.len() >= 1 && path@[0] == 47,
            forall|k: int| 0 <= k < i ==> path_byte_ok(#[trigger] path@[k]),
            forall|k: int| 0 <= k < i - 1 ==> !(path@[k] == 47 && #[trigger] path@[k + 1] == 47),
        decreases path@.len() - i,
    {
        let b = path[i];
        let ok = (b >= 48 && b <= 57) || (b >= 65 && b <= 90) || (b >= 97 && b <= 122) || b == 47
            || b == 46 || b == 95 || b == 45;
        if !ok {
            return false;
        }
        if i > 0 && b == 47 && path[i - 1] == 47 {
            proof {
                assert(path@[i - 1] == 47 && path@[i - 1 + 1] == 47);
            }
            return false;
        }
        i = i + 1;
    }
    true
}

/// Check an absolute path against the path rules.
pub fn is_valid_path(path: &str) -> (r: bool)
    ensures
        r == path_valid(path.spec_bytes()),
{
    valid_path_bytes(path.as_bytes())
}

/// One stored file: its path relative to the root, and its
/// revisions, oldest first.
pub struct File {
    pub path: Vec<u8>,
    pub revisions: Vec<Vec<u8>>,
}

/// Mathematical image of a stored file.
#[verifier::ext_equal]
pub struct FileView {
    pub path: Seq<u8>,
    pub revisions: Seq<Seq<u8>>,
}

impl View for File {
    type V = FileView;

    open spec fn view(&self) -> FileView {
        FileView { path: self.path@, revisions: self.revisions.deep_view() }
    }
}

pub open spec fn fviews(fs: Seq<File>) -> Seq<FileView> {
    fs.map_values(|f: File| f@)
}

/// The index of `path` among the stored files, or -1.
pub open spec fn fidx(fs: Seq<FileView>, path: Seq<u8>) -> int
    decreases fs.len(),
{
    if fs.len() == 0 {
        -1
    } else if fs[0].path == path {
        0
    } else {
        let r = fidx(fs.drop_first(), path);
        if r < 0 {
            -1
        } else {
            r + 1
        }
    }
}

pub proof fn lemma_fidx_from(fs: Seq<FileView>, path: Seq<u8>, i: int)
    requires
        0 <= i <= fs.len(),
        forall|k: int| 0 <= k < i ==> (#[trigger] fs[k]).path != path,
        i == fs.len() || fs[i].path == path,
    ensures
        fidx(fs, path) == if i == fs.len() {
            -1int
        } else {
            i
        },
    decreases fs.len(),
{
    if fs.len() > 0 && i > 0 {
        assert(fs[0].path != path);
        assert forall|k: int| 0 <= k < i - 1 implies (#[trigger] fs.drop_first()[k]).path
            != path by {
            assert(fs.drop_first()[k] == fs[k + 1]);
        }
        if i < fs.len() {
            assert(fs.drop_first()[i - 1] == fs[i]);
        }
        lemma_fidx_from(fs.drop_first(), path, i - 1);
    }
}

/// Where `fidx` lands, the path matches.
pub proof fn lemma_fidx_is_match(fs: Seq<FileView>, path: Seq<u8>)
    ensures
        fidx(fs, path) >= 0 ==> fidx(fs, path) < fs.len() && fs[fidx(fs, path)].path == path,
    decreases fs.len(),
{
    if fs.len() > 0 && fs[0].path != path {
        lemma_fidx_is_match(fs.drop_first(), path);
        if fidx(fs, path) >= 0 {
            assert(fs.drop_first()[fidx(fs.drop_first(), path)] == fs[fidx(fs, path)]);
        }
    }
}

/// Stored paths are unique and well formed, and every file holds at
/// least one revision.
pub open spec fn dir_wf(fs: Seq<FileView>) -> bool {
    &&& forall|i: int, j: int|
        0 <= i < j < fs.len() ==> (#[trigger] fs[i]).path != (#[trigger] fs[j]).path
    &&& forall|i: int| 0 <= i < fs.len() ==> rel_path_ok((#[trigger] fs[i]).path)
    &&& forall|i: int| 0 <= i < fs.len() ==> (#[trigger] fs[i]).revisions.len() >= 1
}

/// The file tree, kept as a flat list of files.
pub struct Dir {
    pub name: Vec<u8>,
    pub files: Vec<File>,
}

impl Dir {
    pub fn new(name: &str) -> (r: Dir)
        ensures
            r.name@ == name.spec_bytes(),
            fviews(r.files@) == Seq::<FileView>::empty(),
            dir_wf(fviews(r.files@)),
    {
        let mut n: Vec<u8> = Vec::new();
        n.extend_from_slice(name.as_bytes());
        proof {
            assert(n@ =~= name.spec_bytes());
        }
        let r = Dir { name: n, files: Vec::new() };
        proof {
            assert(fviews(r.files@) =~= Seq::<FileView>::empty());
        }
        r
    }

    /// The index of `path` among the stored files.
    fn find_file(&self, path: &[u8]) -> (r: Option<usize>)
        ensures
            match r {
                Some(i) => i < self.files@.len() && fidx(fviews(self.files@), path@) == i as int,
                None => fidx(fviews(self.files@), path@) == -1,
            },
    {
        let ghost fv = fviews(self.files@);
        let mut i: usize = 0;
        while i < self.files.len()
            invariant
                0 <= i <= self.files@.len(),
                fv == fviews(self.files@),
                fv.len() == self.files@.len(),
                forall|k: int| 0 <= k < i ==> (#[trigger] fv[k]).path != path@,
            decreases self.files@.len() - i,
        {
            if crate::util::bytes_eq(self.files[i].path.as_slice(), path) {
                proof {
                    assert(fv[i as int].path == path@);
                    lemma_fidx_from(fv, path@, i as int);
                }
                return Some(i);
            }
            proof {
                assert(fv[i as int].path != path@);
            }
            i = i + 1;
        }
        proof {
            lemma_fidx_from(fv, path@, fv.len() as int);
        }
        None
    }

    /// Store one revision of a file.  A brand-new file starts at
    /// revision 1; a body equal to the file's latest revision stores
    /// nothing and answers with the standing revision number; any
    /// other body becomes the next revision.  The answer is the
    /// revision number under which the body can be read back.
    pub fn put_file(&mut self, path: &[u8], data: Vec<u8>) -> (rev: usize)
        requires
            dir_wf(fviews(old(self).files@)),
            rel_path_ok(path@),
        ensures
            dir_wf(fviews(final (self).files@)),
            final (self).name@ == old(self).name@,
            ({
                let fv = fviews(old(self).files@);
                let i = fidx(fv, path@);
                if i < 0 {
                    fviews(final (self).files@) =~= fv.push(
                        FileView { path: path@, revisions: seq![data@] },
                    ) && rev == 1
                } else if fv[i].revisions.last() == data@ {
                    final (self).files@ == old(self).files@ && rev == fv[i].revisions.len()
                } else {
                    fviews(final (self).files@) =~= fv.update(
                        i,
                        FileView { path: path@, revisions: fv[i].revisions.push(data@) },
                    ) && rev == fv[i].revisions.len() + 1
                }
            }),
    {
        let ghost fv = fviews(old(self).files@);
        match self.find_file(path) {
            Some(i) => {
                proof {
                    lemma_fidx_is_match(fv, path@);
                    assert(fv[i as int] == self.files@[i as int]@);
                }
                let nrev = self.files[i].revisions.len();
                let last = &self.files[i].revisions[nrev - 1];
                proof {
                    assert(last@ == fv[i as int].revisions.last());
                }
                if crate::util::bytes_eq(last.as_slice(), data.as_slice()) {
                    return nrev;
                }
                self.files[i].revisions.push(data);
                proof {
                    assert(self.files@[i as int]@.revisions =~~= fv[i as int].revisions.push(
                        data@,
                    ));
                    assert(fviews(self.files@) =~~= fv.update(
                        i as int,
                        FileView { path: path@, revisions: fv[i as int].revisions.push(data@) },
                    ));
                }
                let r = self.files[i].revisions.len();
                r
            },
            None => {
                let mut p: Vec<u8> = Vec::new();
                p.extend_from_slice(path);
                proof {
                    assert(p@ =~= path@);
                }
                let mut revs: Vec<Vec<u8>> = Vec::new();
                revs.push(data);
                let f = File { path: p, revisions: revs };
                proof {
                    assert(f@.revisions =~~= seq![f.revisions@[0]@]);
                }
                self.files.push(f);
                proof {
                    assert(fviews(self.files@) =~~= fv.push(
                        FileView { path: path@, revisions: seq![data@] },
                    ));
                    assert forall|a: int, b: int|
                        0 <= a < b < fviews(self.files@).len() implies (#[trigger] fviews(
                        self.files@,
                    )[a]).path != (#[trigger] fviews(self.files@)[b]).path by {
                        if b == fv.len() as int {
                            if fviews(self.files@)[a].path == path@ {
                                lemma_fidx_at_least(fv, path@, a);
                            }
                        }
                    }
                }
                1
            },
        }
    }

    /// The file stored under `path`, if any.
    pub fn get_file(&self, path: &[u8]) -> (r: Option<&File>)
        ensures
            match r {
                Some(f) => fidx(fviews(self.files@), path@) >= 0 && f@ == fviews(self.files@)[fidx(
                    fviews(self.files@),
                    path@,
                )],
                None => fidx(fviews(self.files@), path@) == -1,
            },
    {
        match self.find_file(path) {
            Some(i) => Some(&self.files[i]),
            None => None,
        }
    }
}

/// A path match anywhere means `fidx` finds one no later.
pub proof fn lemma_fidx_at_least(fs: Seq<FileView>, path: Seq<u8>, k: int)
    requires
        0 <= k < fs.len(),
        fs[k].path == path,
    ensures
        0 <= fidx(fs, path) <= k,
    decreases fs.len(),
{
    if fs[0].path != path {
        assert(fs.drop_first()[k - 1] == fs[k]);
        lemma_fidx_at_least(fs.drop_first(), path, k - 1);
    }
}


/// No `/` stands in `s`.
pub open spec fn no_slash(s: Seq<u8>) -> bool {
    forall|k: int| 0 <= k < s.len() ==> s[k] != 47
}

/// `p` opens `s`.
pub open spec fn starts_with(s: Seq<u8>, p: Seq<u8>) -> bool {
    p.len() <= s.len() && s.take(p.len() as int) == p
}

/// What a child's path begins with inside `dir`: the directory and a
/// slash, or nothing at the root.
pub open spec fn dir_prefix(dir: Seq<u8>) -> Seq<u8> {
    if dir.len() == 0 {
        Seq::empty()
    } else {
        dir + seq![47u8]
    }
}

/// `name` is a file stored directly in `dir`.
pub open spec fn is_file_child(fs: Seq<FileView>, dir: Seq<u8>, name: Seq<u8>) -> bool {
    name.len() > 0 && no_slash(name) && fidx(fs, dir_prefix(dir) + name) >= 0
}

/// The revision count of the file `name` in `dir`.
pub open spec fn child_rev_count(fs: Seq<FileView>, dir: Seq<u8>, name: Seq<u8>) -> nat {
    fs[fidx(fs, dir_prefix(dir) + name)].revisions.len()
}

/// Some file lies under the subdirectory `name` of `dir`, among the
/// first `n` stored files.
pub open spec fn dir_child_upto(fs: Seq<FileView>, dir: Seq<u8>, name: Seq<u8>, n: int) -> bool {
    name.len() > 0 && no_slash(name) && exists|j: int|
        0 <= j < n && starts_with(#[trigger] fs[j].path, dir_prefix(dir) + name + seq![47u8])
}

/// `name` is a subdirectory of `dir`.
pub open spec fn is_dir_child(fs: Seq<FileView>, dir: Seq<u8>, name: Seq<u8>) -> bool {
    dir_child_upto(fs, dir, name, fs.len() as int)
}

/// A file stored directly in `dir`, among the first `n` files.
pub open spec fn file_child_upto(fs: Seq<FileView>, dir: Seq<u8>, name: Seq<u8>, n: int) -> bool {
    name.len() > 0 && no_slash(name) && exists|j: int|
        0 <= j < n && (#[trigger] fs[j].path) == dir_prefix(dir) + name
}

/// The listing line of a file: its name, then ` r` and the revision
/// count.
pub open spec fn file_label(name: Seq<u8>, n: nat) -> Seq<u8> {
    name + seq![32u8, 114u8] + crate::util::dec_digits(n)
}

/// The listing line of a subdirectory: its name, then `/ DIR`.
pub open spec fn dir_label(name: Seq<u8>) -> Seq<u8> {
    name + seq![47u8, 32u8, 68u8, 73u8, 82u8]
}

/// A line the listing of `dir` owes: each direct file under its
/// revision count, each subdirectory unless a file of the same name
/// shadows it.
pub open spec fn is_entry(fs: Seq<FileView>, dir: Seq<u8>, e: Seq<u8>) -> bool {
    ||| exists|name: Seq<u8>|
        #[trigger] is_file_child(fs, dir, name) && e == file_label(
            name,
            child_rev_count(fs, dir, name),
        )
    ||| exists|name: Seq<u8>|
        #[trigger] is_dir_child(fs, dir, name) && !is_file_child(fs, dir, name) && e == dir_label(
            name,
        )
}

/// `is_file_child` holds exactly when a stored file carries the path.
pub proof fn lemma_file_child_iff(fs: Seq<FileView>, dir: Seq<u8>, name: Seq<u8>)
    requires
        name.len() > 0,
        no_slash(name),
    ensures
        is_file_child(fs, dir, name) <==> file_child_upto(fs, dir, name, fs.len() as int),
{
    lemma_fidx_is_match(fs, dir_prefix(dir) + name);
    if file_child_upto(fs, dir, name, fs.len() as int) {
        let j = choose|j: int| 0 <= j < fs.len() && (#[trigger] fs[j].path) == dir_prefix(dir)
            + name;
        lemma_fidx_at_least(fs, dir_prefix(dir) + name, j);
    }
}

/// Whether `dv` holds `e`.
fn contains_bytes(entries: &Vec<Vec<u8>>, e: &[u8]) -> (r: bool)
    ensures
        r == entries.deep_view().contains(e@),
{
    let ghost dv = entries.deep_view();
    let mut i: usize = 0;
    while i < entries.len()
        invariant
            0 <= i <= entries@.len(),
            dv == entries.deep_view(),
            dv.len() == entries@.len(),
            forall|k: int| 0 <= k < i ==> dv[k] != e@,
        decreases entries@.len() - i,
    {
        if crate::util::bytes_eq(entries[i].as_slice(), e) {
            proof {
                assert(dv[i as int] =~= entries@[i as int]@);
                assert(dv[i as int] == e@);
            }
            return true;
        }
        proof {
            assert(dv[i as int] =~= entries@[i as int]@);
        }
        i = i + 1;
    }
    proof {
        if dv.contains(e@) {
            let k = choose|k: int| 0 <= k < dv.len() && dv[k] == e@;
            assert(false);
        }
    }
    false
}

/// Membership is unchanged by inserting, except for the new element.
proof fn lemma_insert_contains(s: Seq<Seq<u8>>, k: int, x: Seq<u8>, e: Seq<u8>)
    requires
        0 <= k <= s.len(),
    ensures
        s.insert(k, x).contains(e) <==> (s.contains(e) || e == x),
{
    let t = s.insert(k, x);
    assert(t[k] == x);
    if s.contains(e) {
        let i = choose|i: int| 0 <= i < s.len() && s[i] == e;
        if i < k {
            assert(t[i] == e);
        } else {
            assert(t[i + 1] == e);
        }
    }
    if t.contains(e) && e != x {
        let i = choose|i: int| 0 <= i < t.len() && t[i] == e;
        if i < k {
            assert(s[i] == e);
        } else {
            assert(i != k);
            assert(s[i - 1] == e);
        }
    }
}

/// Sort listing lines ascending.  The lines, none repeated, are kept
/// as a set.
fn sort_entries(entries: Vec<Vec<u8>>) -> (r: Vec<Vec<u8>>)
    requires
        forall|a: int, b: int|
            0 <= a < b < entries.deep_view().len() ==> entries.deep_view()[a]
                != entries.deep_view()[b],
    ensures
        forall|k: int|
            0 <= k < r.deep_view().len() - 1 ==> crate::util::lex_le(
                #[trigger] r.deep_view()[k],
                r.deep_view()[k + 1],
            ),
        forall|e: Seq<u8>| r.deep_view().contains(e) <==> entries.deep_view().contains(e),
        forall|a: int, b: int|
            0 <= a < b < r.deep_view().len() ==> r.deep_view()[a] != r.deep_view()[b],
{
    let ghost inp = entries.deep_view();
    let mut out: Vec<Vec<u8>> = Vec::new();
    let mut i: usize = 0;
    proof {
        assert(out.deep_view() =~~= Seq::<Seq<u8>>::empty());
    }
    while i < entries.len()
        invariant
            0 <= i <= entries@.len(),
            inp == entries.deep_view(),
            inp.len() == entries@.len(),
            forall|a: int, b: int| 0 <= a < b < inp.len() ==> inp[a] != inp[b],
            forall|k: int|
                0 <= k < out.deep_view().len() - 1 ==> crate::util::lex_le(
                    #[trigger] out.deep_view()[k],
                    out.deep_view()[k + 1],
                ),
            forall|e: Seq<u8>| out.deep_view().contains(e) <==> inp.take(i as int).contains(e),
            forall|a: int, b: int|
                0 <= a < b < out.deep_view().len() ==> out.deep_view()[a] != out.deep_view()[b],
        decreases entries@.len() - i,
    {
        let x = entries[i].clone();
        proof {
            assert(x@ =~= entries@[i as int]@);
            assert(x@ == inp[i as int]);
        }
        let ghost prev = out.deep_view();
        let mut j: usize = 0;
        let mut found = false;
        while !found && j < out.len()
            invariant
                0 <= j <= out@.len(),
                prev == out.deep_view(),
                prev.len() == out@.len(),
                found ==> j < prev.len() && crate::util::lex_le(x@, prev[j as int]),
                forall|k: int| 0 <= k < j ==> !crate::util::lex_le(x@, #[trigger] prev[k]),
            decreases out@.len() - j, (if found { 0int } else { 1int }),
        {
            proof {
                assert(out.deep_view()[j as int] =~= out@[j as int]@);
            }
            if crate::util::bytes_le(x.as_slice(), out[j].as_slice()) {
                found = true;
            } else {
                j = j + 1;
            }
        }
        proof {
            if j < prev.len() {
                assert(found);
            }
        }
        proof {
            // x was not yet present, so inserting keeps the lines distinct
            assert(!inp.take(i as int).contains(x@)) by {
                if inp.take(i as int).contains(x@) {
                    let k = choose|k: int|
                        0 <= k < i && inp.take(i as int)[k] == x@;
                    assert(inp[k] == inp[i as int]);
                    assert(false);
                }
            }
            assert(!prev.contains(x@));
        }
        out.insert(j, x);
        proof {
            assert(out.deep_view() =~~= prev.insert(j as int, x@));
            let nv = out.deep_view();
            assert forall|e: Seq<u8>|
                nv.contains(e) <==> inp.take(i + 1).contains(e) by {
                lemma_insert_contains(prev, j as int, x@, e);
                assert(inp.take(i + 1).drop_last() =~= inp.take(i as int));
                if inp.take(i as int).contains(e) {
                    let k = choose|k: int| 0 <= k < i && inp.take(i as int)[k] == e;
                    assert(inp.take(i + 1)[k] == e);
                }
                if e == x@ {
                    assert(inp.take(i + 1)[i as int] == x@);
                }
                if inp.take(i + 1).contains(e) {
                    let k = choose|k: int| 0 <= k < i + 1 && #[trigger] inp.take(i + 1)[k] == e;
                    if k < i {
                        assert(inp.take(i as int)[k] == e);
                    }
                }
            }
            assert forall|a: int, b: int|
                0 <= a < b < nv.len() implies nv[a] != nv[b] by {
                if a < j && b < j {
                    assert(nv[a] == prev[a] && nv[b] == prev[b]);
                } else if a < j && b == j {
                    assert(nv[a] == prev[a] && nv[b] == x@);
                    assert(prev.contains(prev[a]));
                } else if a == j {
                    assert(nv[a] == x@ && nv[b] == prev[b - 1]);
                    assert(prev.contains(prev[b - 1]));
                } else if a > j {
                    assert(nv[a] == prev[a - 1] && nv[b] == prev[b - 1]);
                } else {
                    assert(a < j && b > j);
                    assert(nv[a] == prev[a] && nv[b] == prev[b - 1]);
                    assert(prev.contains(prev[a]) && prev.contains(prev[b - 1]));
                    if prev[a] == prev[b - 1] {
                        assert(false);
                    }
                }
            }
            assert forall|k: int|
                0 <= k < nv.len() - 1 implies crate::util::lex_le(
                #[trigger] nv[k],
                nv[k + 1],
            ) by {
                if k + 1 < j {
                    assert(nv[k] == prev[k] && nv[k + 1] == prev[k + 1]);
                } else if k + 1 == j {
                    assert(nv[k] == prev[k] && nv[k + 1] == x@);
                    crate::util::lemma_lex_total(x@, prev[k]);
                } else if k == j {
                    assert(nv[k] == x@ && nv[k + 1] == prev[k]);
                } else {
                    assert(nv[k] == prev[k - 1] && nv[k + 1] == prev[k]);
                }
            }
        }
        i = i + 1;
    }
    proof {
        assert(inp.take(inp.len() as int) =~= inp);
    }
    out
}


impl Dir {
    /// The listing of directory `path` (relative to the root; empty
    /// for the root): one line per direct file, carrying its revision
    /// count, and one per subdirectory unless a file of the same name
    /// shadows it; sorted ascending, no line repeated.
    pub fn get_list(&self, path: &[u8]) -> (r: Vec<Vec<u8>>)
        requires
            dir_wf(fviews(self.files@)),
        ensures
            ({
                let dv = r.deep_view();
                let fv = fviews(self.files@);
                &&& forall|k: int|
                    0 <= k < dv.len() - 1 ==> crate::util::lex_le(#[trigger] dv[k], dv[k + 1])
                &&& forall|k: int| 0 <= k < dv.len() ==> is_entry(fv, path@, #[trigger] dv[k])
                &&& forall|e: Seq<u8>| #[trigger] is_entry(fv, path@, e) ==> dv.contains(e)
                &&& forall|a: int, b: int| 0 <= a < b < dv.len() ==> dv[a] != dv[b]
            }),
    {
        let ghost fv = fviews(self.files@);
        let ghost dirp = dir_prefix(path@);
        let mut prefix: Vec<u8> = Vec::new();
        if path.len() > 0 {
            prefix.extend_from_slice(path);
            prefix.push(47);
        }
        proof {
            assert(prefix@ =~= dirp);
        }
        let plen = prefix.len();
        let mut entries: Vec<Vec<u8>> = Vec::new();
        let mut i: usize = 0;
        proof {
            assert(entries.deep_view() =~~= Seq::<Seq<u8>>::empty());
        }
        while i < self.files.len()
            invariant
                0 <= i <= self.files@.len(),
                fv == fviews(self.files@),
                fv.len() == self.files@.len(),
                dir_wf(fv),
                prefix@ == dirp,
                dirp == dir_prefix(path@),
                plen == prefix@.len(),
                forall|k: int|
                    0 <= k < entries.deep_view().len() ==> is_entry(
                        fv,
                        path@,
                        #[trigger] entries.deep_view()[k],
                    ),
                forall|a: int, b: int|
                    0 <= a < b < entries.deep_view().len() ==> entries.deep_view()[a]
                        != entries.deep_view()[b],
                forall|name: Seq<u8>|
                    #[trigger] file_child_upto(fv, path@, name, i as int)
                        ==> entries.deep_view().contains(
                        file_label(name, child_rev_count(fv, path@, name)),
                    ),
            decreases self.files@.len() - i,
        {
            proof {
                assert(fv[i as int] == self.files@[i as int]@);
            }
            let fp_len = self.files[i].path.len();
            let mut matches = fp_len > plen;
            if matches {
                let head = &self.files[i].path[0..plen];
                matches = crate::util::bytes_eq(head, prefix.as_slice());
            }
            if matches {
                proof {
                    assert(starts_with(fv[i as int].path, dirp));
                }
                let mut p: usize = plen;
                let mut has_slash = false;
                while p < fp_len && !has_slash
                    invariant
                        plen <= p <= fp_len,
                        fv[i as int] == self.files@[i as int]@,
                        i < self.files@.len(),
                        fp_len == fv[i as int].path.len(),
                        has_slash ==> p < fp_len && fv[i as int].path[p as int] == 47,
                        forall|k: int| plen <= k < p ==> fv[i as int].path[k] != 47,
                    decreases fp_len - p, (if has_slash { 0int } else { 1int }),
                {
                    if self.files[i].path[p] == 47 {
                        has_slash = true;
                    } else {
                        p = p + 1;
                    }
                }
                let ghost rest = fv[i as int].path.skip(plen as int);
                if !has_slash {
                    // a file directly in the directory
                    let name = &self.files[i].path[plen..fp_len];
                    let mut label: Vec<u8> = Vec::new();
                    label.extend_from_slice(name);
                    label.push(32);
                    label.push(114);
                    let mut digs = crate::util::format_dec(self.files[i].revisions.len() as u64);
                    label.append(&mut digs);
                    proof {
                        assert(name@ =~= rest);
                        assert(fv[i as int].path =~= dirp + rest);
                        assert(rest.len() > 0 && no_slash(rest));
                        assert(fv[i as int].revisions.len() == self.files@[i as int].revisions@.len());
                        assert(label@ =~= file_label(rest, fv[i as int].revisions.len() as nat));
                        lemma_fidx_at_least(fv, dirp + rest, i as int);
                        lemma_fidx_is_match(fv, dirp + rest);
                        assert(fidx(fv, dirp + rest) == i as int);
                        assert(is_file_child(fv, path@, rest));
                        assert(child_rev_count(fv, path@, rest) == fv[i as int].revisions.len());
                        assert(is_entry(fv, path@, label@));
                    }
                    if !contains_bytes(&entries, label.as_slice()) {
                        let ghost prev = entries.deep_view();
                        entries.push(label);
                        proof {
                            assert(entries.deep_view() =~~= prev.push(label@));
                            assert(entries.deep_view()[prev.len() as int] == label@);
                            assert(entries.deep_view().contains(label@));
                            assert forall|e: Seq<u8>| prev.contains(e) implies entries.deep_view().contains(e) by {
                                let k = choose|k: int| 0 <= k < prev.len() && prev[k] == e;
                                assert(entries.deep_view()[k] == e);
                            }
                        }
                    }
                    proof {
                        assert(entries.deep_view().contains(label@));
                        assert(entries.deep_view().contains(
                            file_label(rest, child_rev_count(fv, path@, rest)),
                        ));
                        assert forall|name2: Seq<u8>|
                            #[trigger] file_child_upto(fv, path@, name2, i + 1) implies entries.deep_view().contains(
                            file_label(name2, child_rev_count(fv, path@, name2)),
                        ) by {
                            if !file_child_upto(fv, path@, name2, i as int) {
                                assert(fv[i as int].path == dirp + name2);
                                assert(name2 =~= rest);
                            }
                        }
                    }
                } else {
                    // a file deeper down: no new direct file name
                    proof {
                        assert forall|name2: Seq<u8>|
                            #[trigger] file_child_upto(fv, path@, name2, i + 1) implies file_child_upto(
                            fv,
                            path@,
                            name2,
                            i as int,
                        ) by {
                            if fv[i as int].path == dirp + name2 {
                                assert(fv[i as int].path[p as int] == 47);
                                assert((dirp + name2)[p as int] == name2[p - plen]);
                            }
                        }
                    }
                }
            } else {
                proof {
                    assert forall|name2: Seq<u8>|
                        #[trigger] file_child_upto(fv, path@, name2, i + 1) implies file_child_upto(
                        fv,
                        path@,
                        name2,
                        i as int,
                    ) by {
                        if fv[i as int].path == dirp + name2 && name2.len() > 0 {
                            assert(fv[i as int].path.len() > plen);
                            assert(fv[i as int].path.take(plen as int) =~= dirp);
                        }
                    }
                }
            }
            i = i + 1;
        }
        // second pass: subdirectories
        let mut i2: usize = 0;
        while i2 < self.files.len()
            invariant
                0 <= i2 <= self.files@.len(),
                fv == fviews(self.files@),
                fv.len() == self.files@.len(),
                dir_wf(fv),
                prefix@ == dirp,
                dirp == dir_prefix(path@),
                plen == prefix@.len(),
                forall|k: int|
                    0 <= k < entries.deep_view().len() ==> is_entry(
                        fv,
                        path@,
                        #[trigger] entries.deep_view()[k],
                    ),
                forall|a: int, b: int|
                    0 <= a < b < entries.deep_view().len() ==> entries.deep_view()[a]
                        != entries.deep_view()[b],
                forall|name: Seq<u8>|
                    #[trigger] file_child_upto(fv, path@, name, fv.len() as int)
                        ==> entries.deep_view().contains(
                        file_label(name, child_rev_count(fv, path@, name)),
                    ),
                forall|name: Seq<u8>|
                    #[trigger] dir_child_upto(fv, path@, name, i2 as int) && !is_file_child(
                        fv,
                        path@,
                        name,
                    ) ==> entries.deep_view().contains(dir_label(name)),
            decreases self.files@.len() - i2,
        {
            proof {
                assert(fv[i2 as int] == self.files@[i2 as int]@);
            }
            let fp_len = self.files[i2].path.len();
            let mut matches = fp_len > plen;
            if matches {
                let head = &self.files[i2].path[0..plen];
                matches = crate::util::bytes_eq(head, prefix.as_slice());
            }
            if matches {
                let mut p: usize = plen;
                let mut has_slash = false;
                while p < fp_len && !has_slash
                    invariant
                        plen <= p <= fp_len,
                        fv[i2 as int] == self.files@[i2 as int]@,
                        i2 < self.files@.len(),
                        fp_len == fv[i2 as int].path.len(),
                        has_slash ==> p < fp_len && fv[i2 as int].path[p as int] == 47,
                        forall|k: int| plen <= k < p ==> fv[i2 as int].path[k] != 47,
                    decreases fp_len - p, (if has_slash { 0int } else { 1int }),
                {
                    if self.files[i2].path[p] == 47 {
                        has_slash = true;
                    } else {
                        p = p + 1;
                    }
                }
                if has_slash {
                    proof {
                        // the name cannot be empty: paths hold no empty segment
                        assert(rel_path_ok(fv[i2 as int].path));
                        if p == plen {
                            if plen == 0 {
                                assert(fv[i2 as int].path[0] != 47);
                            } else {
                                assert(fv[i2 as int].path.take(plen as int) =~= dirp);
                                assert(fv[i2 as int].path[plen - 1] == dirp[plen - 1]);
                                assert(dirp[plen - 1] == 47);
                            }
                            assert(false);
                        }
                    }
                    let ghost name_g = fv[i2 as int].path.subrange(plen as int, p as int);
                    let name = &self.files[i2].path[plen..p];
                    let mut full: Vec<u8> = Vec::new();
                    full.extend_from_slice(prefix.as_slice());
                    full.extend_from_slice(name);
                    proof {
                        assert(name@ =~= name_g);
                        assert(full@ =~= dirp + name_g);
                        assert(name_g.len() > 0 && no_slash(name_g));
                        assert(starts_with(fv[i2 as int].path, dirp + name_g + seq![47u8])) by {
                            assert((dirp + name_g + seq![47u8]).len() == p + 1 <= fv[
                                i2 as int
                            ].path.len());
                            assert(fv[i2 as int].path.take(p + 1) =~= dirp + name_g
                                + seq![47u8]);
                        }
                        assert(dir_child_upto(fv, path@, name_g, fv.len() as int));
                    }
                    let shadowed = self.find_file(full.as_slice());
                    if shadowed.is_none() {
                        let mut label: Vec<u8> = Vec::new();
                        label.extend_from_slice(name);
                        label.push(47);
                        label.push(32);
                        label.push(68);
                        label.push(73);
                        label.push(82);
                        proof {
                            assert(label@ =~= dir_label(name_g));
                            assert(fidx(fv, dirp + name_g) == -1);
                            assert(!is_file_child(fv, path@, name_g));
                            assert(is_dir_child(fv, path@, name_g) && !is_file_child(
                                fv,
                                path@,
                                name_g,
                            ) && label@ == dir_label(name_g));
                            assert(is_entry(fv, path@, label@));
                        }
                        if !contains_bytes(&entries, label.as_slice()) {
                            let ghost prev = entries.deep_view();
                            entries.push(label);
                            proof {
                                assert(entries.deep_view() =~~= prev.push(label@));
                                assert(entries.deep_view()[prev.len() as int] == label@);
                                assert(entries.deep_view().contains(label@));
                                assert forall|e: Seq<u8>| prev.contains(e) implies entries.deep_view().contains(e) by {
                                    let k = choose|k: int| 0 <= k < prev.len() && prev[k] == e;
                                    assert(entries.deep_view()[k] == e);
                                }
                            }
                        }
                        proof {
                            assert(entries.deep_view().contains(dir_label(name_g)));
                        }
                    }
                    proof {
                        assert forall|name2: Seq<u8>|
                            #[trigger] dir_child_upto(fv, path@, name2, i2 + 1) && !is_file_child(
                            fv,
                            path@,
                            name2,
                        ) implies entries.deep_view().contains(dir_label(name2)) by {
                            if !dir_child_upto(fv, path@, name2, i2 as int) {
                                assert(starts_with(
                                    fv[i2 as int].path,
                                    dirp + name2 + seq![47u8],
                                ));
                                // the witnessed name is exactly the segment before the
                                // first slash
                                let pre = dirp + name2 + seq![47u8];
                                assert(fv[i2 as int].path.take(pre.len() as int) == pre);
                                assert forall|k: int|
                                    0 <= k < pre.len() implies fv[i2 as int].path[k] == pre[k] by {
                                    assert(fv[i2 as int].path.take(pre.len() as int)[k] == fv[
                                        i2 as int
                                    ].path[k]);
                                }
                                if name2.len() < p - plen {
                                    assert(pre[plen + name2.len()] == 47);
                                    assert(fv[i2 as int].path[plen + name2.len()] == 47);
                                    assert(false);
                                }
                                if name2.len() > p - plen {
                                    assert(pre[p as int] == name2[p - plen]);
                                    assert(name2[p - plen] == fv[i2 as int].path[p as int]);
                                    assert(false);
                                }
                                assert forall|k: int|
                                    0 <= k < name2.len() implies name2[k] == name_g[k] by {
                                    assert(pre[plen + k] == name2[k]);
                                    assert(fv[i2 as int].path[plen + k] == pre[plen + k]);
                                }
                                assert(name2 =~= name_g);
                            }
                        }
                    }
                } else {
                    proof {
                        assert forall|name2: Seq<u8>|
                            #[trigger] dir_child_upto(fv, path@, name2, i2 + 1) && !is_file_child(
                            fv,
                            path@,
                            name2,
                        ) implies entries.deep_view().contains(dir_label(name2)) by {
                            if !dir_child_upto(fv, path@, name2, i2 as int) {
                                let pre = dirp + name2 + seq![47u8];
                                assert(starts_with(fv[i2 as int].path, pre));
                                assert(pre[plen + name2.len()] == 47);
                                assert(fv[i2 as int].path.take(pre.len() as int)[plen
                                    + name2.len()] == fv[i2 as int].path[plen + name2.len()]);
                                assert(fv[i2 as int].path[plen + name2.len()] == 47);
                                assert(false);
                            }
                        }
                    }
                }
            } else {
                proof {
                    assert forall|name2: Seq<u8>|
                        #[trigger] dir_child_upto(fv, path@, name2, i2 + 1) && !is_file_child(
                        fv,
                        path@,
                        name2,
                    ) implies entries.deep_view().contains(dir_label(name2)) by {
                        if !dir_child_upto(fv, path@, name2, i2 as int) {
                            let pre = dirp + name2 + seq![47u8];
                            assert(starts_with(fv[i2 as int].path, pre));
                            assert(fv[i2 as int].path.len() > plen);
                            assert(fv[i2 as int].path.take(plen as int) =~= dirp) by {
                                assert forall|k: int|
                                    0 <= k < plen implies fv[i2 as int].path.take(plen as int)[k]
                                    == dirp[k] by {
                                    assert(fv[i2 as int].path.take(pre.len() as int)[k] == fv[
                                        i2 as int
                                    ].path[k]);
                                    assert(pre[k] == dirp[k]);
                                }
                            }
                        }
                    }
                }
            }
            i2 = i2 + 1;
        }
        let r = sort_entries(entries);
        proof {
            let dv = r.deep_view();
            let ev = entries.deep_view();
            assert forall|k: int| 0 <= k < dv.len() implies is_entry(
                fv,
                path@,
                #[trigger] dv[k],
            ) by {
                assert(dv.contains(dv[k]));
                assert(ev.contains(dv[k]));
                let j = choose|j: int| 0 <= j < ev.len() && ev[j] == dv[k];
            }
            assert forall|e: Seq<u8>| #[trigger] is_entry(fv, path@, e) implies dv.contains(e) by {
                if exists|name: Seq<u8>|
                    #[trigger] is_file_child(fv, path@, name) && e == file_label(
                        name,
                        child_rev_count(fv, path@, name),
                    ) {
                    let name = choose|name: Seq<u8>|
                        #[trigger] is_file_child(fv, path@, name) && e == file_label(
                            name,
                            child_rev_count(fv, path@, name),
                        );
                    lemma_file_child_iff(fv, path@, name);
                    assert(file_child_upto(fv, path@, name, fv.len() as int));
                    assert(ev.contains(e));
                } else {
                    let name = choose|name: Seq<u8>|
                        #[trigger] is_dir_child(fv, path@, name) && !is_file_child(
                            fv,
                            path@,
                            name,
                        ) && e == dir_label(name);
                    assert(dir_child_upto(fv, path@, name, fv.len() as int));
                    assert(ev.contains(e));
                }
            }
        }
        r
    }
}


/// The store after one PUT, and the revision number it answers.
pub open spec fn put_result(fs: Seq<FileView>, path: Seq<u8>, data: Seq<u8>) -> (
    Seq<FileView>,
    int,
) {
    let i = fidx(fs, path);
    if i < 0 {
        (fs.push(FileView { path, revisions: seq![data] }), 1)
    } else if fs[i].revisions.last() == data {
        (fs, fs[i].revisions.len() as int)
    } else {
        (fs.update(i, FileView { path, revisions: fs[i].revisions.push(data) }), fs[
            i
        ].revisions.len() as int + 1)
    }
}

/// No index matches when `fidx` finds nothing.
pub proof fn lemma_fidx_none(fs: Seq<FileView>, path: Seq<u8>)
    ensures
        fidx(fs, path) == -1 ==> forall|k: int| 0 <= k < fs.len() ==> (#[trigger] fs[k]).path
            != path,
{
    if fidx(fs, path) == -1 {
        assert forall|k: int| 0 <= k < fs.len() implies (#[trigger] fs[k]).path != path by {
            if fs[k].path == path {
                lemma_fidx_at_least(fs, path, k);
            }
        }
    }
}

/// Nothing before `fidx` matches.
pub proof fn lemma_fidx_first(fs: Seq<FileView>, path: Seq<u8>)
    ensures
        fidx(fs, path) >= 0 ==> forall|k: int| 0 <= k < fidx(fs, path) ==> (#[trigger] fs[k]).path
            != path,
    decreases fs.len(),
{
    lemma_fidx_is_match(fs, path);
    if fs.len() > 0 && fs[0].path != path && fidx(fs, path) >= 0 {
        lemma_fidx_first(fs.drop_first(), path);
        lemma_fidx_is_match(fs.drop_first(), path);
        assert forall|k: int| 0 <= k < fidx(fs, path) implies (#[trigger] fs[k]).path != path by {
            if k > 0 {
                assert(fs.drop_first()[k - 1] == fs[k]);
            }
        }
    }
}

/// Reading back the revision a PUT answers yields the body of the
/// latest content-changing PUT: the body just stored, or, when the
/// body repeated the standing content, that standing content.
pub proof fn lemma_get_after_put(fs: Seq<FileView>, path: Seq<u8>, data: Seq<u8>)
    requires
        dir_wf(fs),
    ensures
        ({
            let fs2 = put_result(fs, path, data).0;
            let rev = put_result(fs, path, data).1;
            let j = fidx(fs2, path);
            &&& 0 <= j < fs2.len()
            &&& fs2[j].revisions.len() == rev
            &&& fs2[j].revisions[rev - 1] == data
        }),
{
    let i = fidx(fs, path);
    lemma_fidx_is_match(fs, path);
    lemma_fidx_none(fs, path);
    lemma_fidx_first(fs, path);
    if i < 0 {
        let fs2 = fs.push(FileView { path, revisions: seq![data] });
        assert(fs2[fs.len() as int].path == path);
        assert forall|k: int| 0 <= k < fs.len() implies (#[trigger] fs2[k]).path != path by {
            assert(fs2[k] == fs[k]);
        }
        lemma_fidx_from(fs2, path, fs.len() as int);
    } else if fs[i].revisions.last() == data {
        assert(fs[i].revisions[fs[i].revisions.len() - 1] == data);
    } else {
        let fs2 = fs.update(i, FileView { path, revisions: fs[i].revisions.push(data) });
        assert forall|k: int| 0 <= k < i implies (#[trigger] fs2[k]).path != path by {
            assert(fs2[k] == fs[k]);
        }
        assert(fs2[i].path == path);
        lemma_fidx_from(fs2, path, i);
    }
}


/// What the store says to one request line: a message to send, a
/// body of `length` bytes to read for `path` before answering, or a
/// message to send before closing the connection.
pub enum Reply {
    Done(Vec<u8>),
    Read { path: Vec<u8>, length: usize },
    Abort(Vec<u8>),
}

/// Mathematical image of a reply.
#[verifier::ext_equal]
pub enum ReplyView {
    Done(Seq<u8>),
    Read { path: Seq<u8>, length: int },
    Abort(Seq<u8>),
}

impl View for Reply {
    type V = ReplyView;

    open spec fn view(&self) -> ReplyView {
        match self {
            Reply::Done(m) => ReplyView::Done(m@),
            Reply::Read { path, length } => ReplyView::Read {
                path: path@,
                length: *length as int,
            },
            Reply::Abort(m) => ReplyView::Abort(m@),
        }
    }
}

/// An uppercased ASCII byte.
pub open spec fn upper_b(b: u8) -> u8 {
    if 97 <= b <= 122 {
        (b - 32) as u8
    } else {
        b
    }
}

/// A body the store accepts: printable ASCII plus tab, newline and
/// carriage return.
pub open spec fn text_ok(d: Seq<u8>) -> bool {
    forall|k: int|
        0 <= k < d.len() ==> (0x20 <= #[trigger] d[k] <= 0x7f) || d[k] == 9 || d[k] == 10 || d[k]
            == 13
}

/// The position of the first space at or after `i`, or -1.
pub open spec fn first_sp(s: Seq<u8>, i: int) -> int
    decreases s.len() - i,
{
    if i < 0 || i >= s.len() {
        -1
    } else if s[i] == 32 {
        i
    } else {
        first_sp(s, i + 1)
    }
}

/// The request's verb: everything before the first space.
pub open spec fn req_verb(s: Seq<u8>) -> Seq<u8> {
    if first_sp(s, 0) < 0 {
        s
    } else {
        s.take(first_sp(s, 0))
    }
}

/// The request's argument text: everything after the first space.
pub open spec fn req_args(s: Seq<u8>) -> Seq<u8> {
    if first_sp(s, 0) < 0 {
        Seq::empty()
    } else {
        s.skip(first_sp(s, 0) + 1)
    }
}

/// The digits of a revision argument, an `r` prefix stripped.
pub open spec fn rev_arg_digits(raw: Seq<u8>) -> Seq<u8> {
    if raw.len() > 0 && raw[0] == 114 {
        raw.drop_first()
    } else {
        raw
    }
}

/// Whether a revision argument names a stored revision.
pub open spec fn rev_arg_ok(raw: Seq<u8>, nrevs: int) -> bool {
    let num = rev_arg_digits(raw);
    num.len() > 0 && crate::util::all_digits(num) && crate::util::dec_value(num) <= usize::MAX
        && 1 <= crate::util::dec_value(num) <= nrevs
}

pub open spec fn rev_arg_value(raw: Seq<u8>) -> int {
    crate::util::dec_value(rev_arg_digits(raw))
}

/// The reply to `GET` with `args`.
pub open spec fn get_reply(fs: Seq<FileView>, args: Seq<u8>) -> Seq<u8> {
    let parts = crate::util::split_on(args, 32);
    if parts.len() > 2 {
        seq![69u8, 82u8, 82u8, 32u8, 117u8, 115u8, 97u8, 103u8, 101u8, 58u8, 32u8, 71u8, 69u8, 84u8, 32u8, 102u8, 105u8, 108u8, 101u8, 32u8, 91u8, 114u8, 101u8, 118u8, 105u8, 115u8, 105u8, 111u8, 110u8, 93u8, 10u8, 82u8, 69u8, 65u8, 68u8, 89u8]
    } else {
        let path = parts[0];
        if !path_valid(path) {
            seq![69u8, 82u8, 82u8, 32u8, 105u8, 108u8, 108u8, 101u8, 103u8, 97u8, 108u8, 32u8, 102u8, 105u8, 108u8, 101u8, 32u8, 110u8, 97u8, 109u8, 101u8, 10u8, 82u8, 69u8, 65u8, 68u8, 89u8]
        } else {
            let i = fidx(fs, path.skip(1));
            if i < 0 {
                seq![69u8, 82u8, 82u8, 32u8, 110u8, 111u8, 32u8, 115u8, 117u8, 99u8, 104u8, 32u8, 102u8, 105u8, 108u8, 101u8, 10u8, 82u8, 69u8, 65u8, 68u8, 89u8]
            } else {
                let f = fs[i];
                if parts.len() == 2 && !rev_arg_ok(parts[1], f.revisions.len() as int) {
                    seq![69u8, 82u8, 82u8, 32u8, 110u8, 111u8, 32u8, 115u8, 117u8, 99u8, 104u8, 32u8, 114u8, 101u8, 118u8, 105u8, 115u8, 105u8, 111u8, 110u8, 10u8, 82u8, 69u8, 65u8, 68u8, 89u8]
                } else {
                    let rv = if parts.len() == 2 {
                        rev_arg_value(parts[1])
                    } else {
                        f.revisions.len() as int
                    };
                    let data = f.revisions[rv - 1];
                    seq![79u8, 75u8, 32u8] + crate::util::dec_digits(data.len()) + seq![10u8] + data + seq![82u8, 69u8, 65u8, 68u8, 89u8]
                }
            }
        }
    }
}

/// The reply to `PUT` with `args`.
pub open spec fn put_reply(args: Seq<u8>) -> ReplyView {
    let parts = crate::util::split_on(args, 32);
    if parts.len() != 2 {
        ReplyView::Done(seq![69u8, 82u8, 82u8, 32u8, 117u8, 115u8, 97u8, 103u8, 101u8, 58u8, 32u8, 80u8, 85u8, 84u8, 32u8, 102u8, 105u8, 108u8, 101u8, 32u8, 108u8, 101u8, 110u8, 103u8, 116u8, 104u8, 32u8, 110u8, 101u8, 119u8, 108u8, 105u8, 110u8, 101u8, 32u8, 100u8, 97u8, 116u8, 97u8, 10u8, 82u8, 69u8, 65u8, 68u8, 89u8])
    } else {
        let path = parts[0];
        if !path_valid(path) || path.last() == 47 {
            ReplyView::Done(seq![69u8, 82u8, 82u8, 32u8, 105u8, 108u8, 108u8, 101u8, 103u8, 97u8, 108u8, 32u8, 102u8, 105u8, 108u8, 101u8, 32u8, 110u8, 97u8, 109u8, 101u8, 10u8, 82u8, 69u8, 65u8, 68u8, 89u8])
        } else {
            let num = parts[1];
            let length = if num.len() > 0 && crate::util::all_digits(num)
                && crate::util::dec_value(num) <= usize::MAX {
                crate::util::dec_value(num)
            } else {
                0
            };
            ReplyView::Read { path, length }
        }
    }
}

/// The reply once a `PUT` body has arrived.
pub open spec fn put_data_reply(fs: Seq<FileView>, path: Seq<u8>, data: Seq<u8>) -> Seq<u8> {
    if !text_ok(data) {
        seq![69u8, 82u8, 82u8, 32u8, 116u8, 101u8, 120u8, 116u8, 32u8, 102u8, 105u8, 108u8, 101u8, 115u8, 32u8, 111u8, 110u8, 108u8, 121u8, 10u8, 82u8, 69u8, 65u8, 68u8, 89u8]
    } else {
        seq![79u8, 75u8, 32u8, 114u8] + crate::util::dec_digits(put_result(fs, path.skip(1), data).1 as nat) + seq![10u8]
            + seq![82u8, 69u8, 65u8, 68u8, 89u8]
    }
}

/// The listing lines, each closed by a newline.
pub open spec fn lines_block(ls: Seq<Seq<u8>>) -> Seq<u8>
    decreases ls.len(),
{
    if ls.len() == 0 {
        Seq::empty()
    } else {
        lines_block(ls.drop_last()) + ls.last() + seq![10u8]
    }
}

/// The reply around a listing.
pub open spec fn list_wire(ls: Seq<Seq<u8>>) -> Seq<u8> {
    seq![79u8, 75u8, 32u8] + crate::util::dec_digits(ls.len()) + seq![10u8] + lines_block(ls) + seq![82u8, 69u8, 65u8, 68u8, 89u8]
}

/// The directory a `LIST` argument names: the leading slash gone,
/// one trailing slash tolerated.
pub open spec fn list_dir_of(args: Seq<u8>) -> Seq<u8> {
    let end = if args.len() > 1 && args.last() == 47 {
        args.len() - 1
    } else {
        args.len() as int
    };
    args.subrange(1, end)
}

/// The lines the listing of `dir` owes, exactly once each, sorted.
pub open spec fn listing_of(fs: Seq<FileView>, dir: Seq<u8>, ls: Seq<Seq<u8>>) -> bool {
    &&& forall|k: int| 0 <= k < ls.len() - 1 ==> crate::util::lex_le(#[trigger] ls[k], ls[k + 1])
    &&& forall|k: int| 0 <= k < ls.len() ==> is_entry(fs, dir, #[trigger] ls[k])
    &&& forall|e: Seq<u8>| #[trigger] is_entry(fs, dir, e) ==> ls.contains(e)
    &&& forall|a: int, b: int| 0 <= a < b < ls.len() ==> ls[a] != ls[b]
}

/// A path that passed the absolute-path rules and does not end in a
/// slash is, after its leading slash, a well-formed relative path.
pub proof fn lemma_rel_of_abs(p: Seq<u8>)
    requires
        path_valid(p),
        p.last() != 47,
    ensures
        rel_path_ok(p.skip(1)),
{
    let r = p.skip(1);
    assert(p.len() >= 2);
    assert(r[0] == p[1]);
    assert(!(p[0] == 47 && p[0int + 1] == 47));
    assert(r.last() == p.last());
    assert forall|k: int| 0 <= k < r.len() implies path_byte_ok(#[trigger] r[k]) by {
        assert(r[k] == p[k + 1]);
    }
    assert forall|k: int| 0 <= k < r.len() - 1 implies !(r[k] == 47 && #[trigger] r[k + 1]
        == 47) by {
        assert(r[k] == p[k + 1] && r[k + 1] == p[k + 2]);
        assert(!(p[k + 1] == 47 && p[k + 1 + 1] == 47));
    }
}

/// The tree behind the textual protocol.
pub struct ServerState {
    pub root: Dir,
}

impl ServerState {
    pub fn new() -> (r: ServerState)
        ensures
            fviews(r.root.files@) == Seq::<FileView>::empty(),
            dir_wf(fviews(r.root.files@)),
    {
        ServerState { root: Dir::new("") }
    }

    /// Store a `PUT` body and answer with the revision it can be
    /// read back under, or refuse a body that is not text.
    pub fn put_file_data(&mut self, path: &[u8], data: Vec<u8>) -> (r: Vec<u8>)
        requires
            dir_wf(fviews(old(self).root.files@)),
            path_valid(path@),
            path@.last() != 47,
        ensures
            dir_wf(fviews(final (self).root.files@)),
            r@ == put_data_reply(fviews(old(self).root.files@), path@, data@),
            fviews(final (self).root.files@) =~~= if text_ok(data@) {
                put_result(fviews(old(self).root.files@), path@.skip(1), data@).0
            } else {
                fviews(old(self).root.files@)
            },
    {
        let ghost fs = fviews(old(self).root.files@);
        let mut k: usize = 0;
        while k < data.len()
            invariant
                0 <= k <= data@.len(),
                *self == *old(self),
                dir_wf(fviews(old(self).root.files@)),
                forall|j: int|
                    0 <= j < k ==> (0x20 <= #[trigger] data@[j] <= 0x7f) || data@[j] == 9
                        || data@[j] == 10 || data@[j] == 13,
            decreases data@.len() - k,
        {
            let b = data[k];
            if !((b >= 0x20 && b <= 0x7f) || b == 9 || b == 10 || b == 13) {
                let out: Vec<u8> = vec![69u8, 82u8, 82u8, 32u8, 116u8, 101u8, 120u8, 116u8, 32u8, 102u8, 105u8, 108u8, 101u8, 115u8, 32u8, 111u8, 110u8, 108u8, 121u8, 10u8, 82u8, 69u8, 65u8, 68u8, 89u8];
                proof {
                    assert(!text_ok(data@));
                    assert(out@ =~= put_data_reply(fs, path@, data@));
                }
                return out;
            }
            k = k + 1;
        }
        proof {
            lemma_rel_of_abs(path@);
        }
        let ghost dv = data@;
        let rel = &path[1..path.len()];
        proof {
            assert(rel@ == path@.skip(1));
        }
        let rev = self.root.put_file(rel, data);
        proof {
            assert(rev == put_result(fs, path@.skip(1), dv).1);
            assert(fviews(self.root.files@) =~~= put_result(fs, path@.skip(1), dv).0);
        }
        let mut out: Vec<u8> = vec![79u8, 75u8, 32u8, 114u8];
        let mut digits = crate::util::format_dec(rev as u64);
        out.append(&mut digits);
        out.push(10);
        let mut closing: Vec<u8> = vec![82u8, 69u8, 65u8, 68u8, 89u8];
        out.append(&mut closing);
        proof {
            assert(out@ =~= put_data_reply(fs, path@, dv));
        }
        out
    }

    /// Answer one request line.  The verb is read without regard to
    /// case; `GET`, `PUT` and `LIST` follow the path, revision and
    /// listing rules; an unknown verb closes the connection.
    pub fn get_response(&mut self, request: &[u8]) -> (r: Reply)
        requires
            dir_wf(fviews(old(self).root.files@)),
        ensures
            dir_wf(fviews(final (self).root.files@)),
            *final (self) == *old(self),
            ({
                let fs = fviews(old(self).root.files@);
                let verb = req_verb(request@).map_values(|b: u8| upper_b(b));
                let args = req_args(request@);
                if verb == seq![72u8, 69u8, 76u8, 80u8] {
                    r@ == ReplyView::Done(seq![79u8, 75u8, 32u8, 117u8, 115u8, 97u8, 103u8, 101u8, 58u8, 32u8, 72u8, 69u8, 76u8, 80u8, 124u8, 71u8, 69u8, 84u8, 124u8, 80u8, 85u8, 84u8, 124u8, 76u8, 73u8, 83u8, 84u8, 10u8, 82u8, 69u8, 65u8, 68u8, 89u8])
                } else if verb == seq![71u8, 69u8, 84u8] {
                    r@ == ReplyView::Done(get_reply(fs, args))
                } else if verb == seq![80u8, 85u8, 84u8] {
                    r@ == put_reply(args)
                } else if verb == seq![76u8, 73u8, 83u8, 84u8] {
                    if args.len() == 0 || first_sp(args, 0) >= 0 {
                        r@ == ReplyView::Done(seq![69u8, 82u8, 82u8, 32u8, 117u8, 115u8, 97u8, 103u8, 101u8, 58u8, 32u8, 76u8, 73u8, 83u8, 84u8, 32u8, 100u8, 105u8, 114u8, 10u8, 82u8, 69u8, 65u8, 68u8, 89u8])
                    } else if !path_valid(args) {
                        r@ == ReplyView::Done(seq![69u8, 82u8, 82u8, 32u8, 105u8, 108u8, 108u8, 101u8, 103u8, 97u8, 108u8, 32u8, 100u8, 105u8, 114u8, 32u8, 110u8, 97u8, 109u8, 101u8, 10u8, 82u8, 69u8, 65u8, 68u8, 89u8])
                    } else {
                        exists|ls: Seq<Seq<u8>>|
                            #[trigger] listing_of(fs, list_dir_of(args), ls) && r@
                                == ReplyView::Done(list_wire(ls))
                    }
                } else {
                    r@ == ReplyView::Abort(seq![69u8, 82u8, 82u8, 32u8, 105u8, 108u8, 108u8, 101u8, 103u8, 97u8, 108u8, 32u8, 109u8, 101u8, 116u8, 104u8, 111u8, 100u8, 58u8, 32u8] + request@)
                }
            }),
    {
        let ghost fs = fviews(old(self).root.files@);
        let mut p: usize = 0;
        let mut spfound = false;
        while !spfound && p < request.len()
            invariant
                0 <= p <= request@.len(),
                *self == *old(self),
                spfound ==> p < request@.len() && request@[p as int] == 32,
                first_sp(request@, 0) == first_sp(request@, p as int),
            decreases request@.len() - p, (if spfound {
                0int
            } else {
                1int
            }),
        {
            if request[p] == 32 {
                spfound = true;
            } else {
                p = p + 1;
            }
        }
        let mut verb: Vec<u8> = Vec::new();
        let mut k: usize = 0;
        while k < p
            invariant
                0 <= k <= p <= request@.len(),
                *self == *old(self),
                verb@ =~= request@.take(p as int).map_values(|b: u8| upper_b(b)).take(k as int),
            decreases p - k,
        {
            let b = request[k];
            let u = if b >= 97 && b <= 122 {
                b - 32
            } else {
                b
            };
            verb.push(u);
            proof {
                assert(request@.take(p as int).map_values(|b: u8| upper_b(b))[k as int] == upper_b(
                    request@[k as int],
                ));
                assert(verb@ =~= request@.take(p as int).map_values(|b: u8| upper_b(b)).take(
                    k + 1,
                ));
            }
            k = k + 1;
        }
        let rlen = request.len();
        let args: &[u8] = if spfound {
            proof {
                assert(p < rlen);
            }
            &request[p + 1..rlen]
        } else {
            &request[rlen..rlen]
        };
        proof {
            if spfound {
                assert(req_verb(request@) == request@.take(p as int));
                assert(args@ == req_args(request@));
            } else {
                assert(request@.take(p as int) =~= request@);
                assert(args@ =~= req_args(request@));
            }
            assert(verb@ =~= req_verb(request@).map_values(|b: u8| upper_b(b)));
        }
        let vhelp: Vec<u8> = vec![72u8, 69u8, 76u8, 80u8];
        let vget: Vec<u8> = vec![71u8, 69u8, 84u8];
        let vput: Vec<u8> = vec![80u8, 85u8, 84u8];
        let vlist: Vec<u8> = vec![76u8, 73u8, 83u8, 84u8];
        proof {
            assert(vhelp@ =~= seq![72u8, 69u8, 76u8, 80u8]);
            assert(vget@ =~= seq![71u8, 69u8, 84u8]);
            assert(vput@ =~= seq![80u8, 85u8, 84u8]);
            assert(vlist@ =~= seq![76u8, 73u8, 83u8, 84u8]);
        }
        if crate::util::bytes_eq(verb.as_slice(), vhelp.as_slice()) {
            let out: Vec<u8> = vec![79u8, 75u8, 32u8, 117u8, 115u8, 97u8, 103u8, 101u8, 58u8, 32u8, 72u8, 69u8, 76u8, 80u8, 124u8, 71u8, 69u8, 84u8, 124u8, 80u8, 85u8, 84u8, 124u8, 76u8, 73u8, 83u8, 84u8, 10u8, 82u8, 69u8, 65u8, 68u8, 89u8];
            proof {
                assert(out@ =~= seq![79u8, 75u8, 32u8, 117u8, 115u8, 97u8, 103u8, 101u8, 58u8, 32u8, 72u8, 69u8, 76u8, 80u8, 124u8, 71u8, 69u8, 84u8, 124u8, 80u8, 85u8, 84u8, 124u8, 76u8, 73u8, 83u8, 84u8, 10u8, 82u8, 69u8, 65u8, 68u8, 89u8]);
            }
            return Reply::Done(out);
        }
        if crate::util::bytes_eq(verb.as_slice(), vget.as_slice()) {
            let out = self.get_file_reply(args);
            return Reply::Done(out);
        }
        if crate::util::bytes_eq(verb.as_slice(), vput.as_slice()) {
            return Self::put_args_reply(args);
        }
        if crate::util::bytes_eq(verb.as_slice(), vlist.as_slice()) {
            return Reply::Done(self.list_files(args));
        }
        let mut out: Vec<u8> = vec![69u8, 82u8, 82u8, 32u8, 105u8, 108u8, 108u8, 101u8, 103u8, 97u8, 108u8, 32u8, 109u8, 101u8, 116u8, 104u8, 111u8, 100u8, 58u8, 32u8];
        out.extend_from_slice(request);
        proof {
            assert(out@ =~= seq![69u8, 82u8, 82u8, 32u8, 105u8, 108u8, 108u8, 101u8, 103u8, 97u8, 108u8, 32u8, 109u8, 101u8, 116u8, 104u8, 111u8, 100u8, 58u8, 32u8] + request@);
        }
        Reply::Abort(out)
    }

    /// The `GET` handler: the named revision of the named file, or
    /// the latest.
    fn get_file_reply(&self, args: &[u8]) -> (r: Vec<u8>)
        requires
            dir_wf(fviews(self.root.files@)),
        ensures
            r@ == get_reply(fviews(self.root.files@), args@),
    {
        let ghost fs = fviews(self.root.files@);
        let parts = crate::util::split_bytes(args, 32);
        proof {
            crate::util::lemma_split_on_len(args@, 32);
            assert(parts.deep_view().len() == parts@.len());
            assert(parts.deep_view()[0] =~= parts@[0]@);
        }
        if parts.len() > 2 {
            let out: Vec<u8> = vec![69u8, 82u8, 82u8, 32u8, 117u8, 115u8, 97u8, 103u8, 101u8, 58u8, 32u8, 71u8, 69u8, 84u8, 32u8, 102u8, 105u8, 108u8, 101u8, 32u8, 91u8, 114u8, 101u8, 118u8, 105u8, 115u8, 105u8, 111u8, 110u8, 93u8, 10u8, 82u8, 69u8, 65u8, 68u8, 89u8];
            proof {
                assert(out@ =~= get_reply(fs, args@));
            }
            return out;
        }
        if !valid_path_bytes(parts[0].as_slice()) {
            let out: Vec<u8> = vec![69u8, 82u8, 82u8, 32u8, 105u8, 108u8, 108u8, 101u8, 103u8, 97u8, 108u8, 32u8, 102u8, 105u8, 108u8, 101u8, 32u8, 110u8, 97u8, 109u8, 101u8, 10u8, 82u8, 69u8, 65u8, 68u8, 89u8];
            proof {
                assert(out@ =~= get_reply(fs, args@));
            }
            return out;
        }
        let path = &parts[0];
        let rel = &path[1..path.len()];
        proof {
            assert(rel@ == parts.deep_view()[0].skip(1));
        }
        let f = match self.root.get_file(rel) {
            Some(f) => f,
            None => {
                let out: Vec<u8> = vec![69u8, 82u8, 82u8, 32u8, 110u8, 111u8, 32u8, 115u8, 117u8, 99u8, 104u8, 32u8, 102u8, 105u8, 108u8, 101u8, 10u8, 82u8, 69u8, 65u8, 68u8, 89u8];
                proof {
                    assert(out@ =~= get_reply(fs, args@));
                }
                return out;
            },
        };
        let nrevs = f.revisions.len();
        proof {
            lemma_fidx_is_match(fs, parts.deep_view()[0].skip(1));
            assert(f@ == fs[fidx(fs, parts.deep_view()[0].skip(1))]);
            assert(f@.revisions.len() >= 1);
            assert(nrevs == f@.revisions.len());
        }
        let rv: usize;
        if parts.len() == 2 {
            proof {
                assert(parts.deep_view()[1] =~= parts@[1]@);
            }
            let raw = &parts[1];
            let num: &[u8] = if raw.len() > 0 && raw[0] == 114 {
                &raw[1..raw.len()]
            } else {
                &raw[0..raw.len()]
            };
            proof {
                assert(num@ =~= rev_arg_digits(parts.deep_view()[1]));
            }
            match crate::util::parse_dec_bounded(num, usize::MAX as u64) {
                Some(v) => {
                    if v >= 1 && v <= nrevs as u64 {
                        rv = v as usize;
                        proof {
                            assert(rev_arg_ok(parts.deep_view()[1], nrevs as int));
                        }
                    } else {
                        let out: Vec<u8> = vec![69u8, 82u8, 82u8, 32u8, 110u8, 111u8, 32u8, 115u8, 117u8, 99u8, 104u8, 32u8, 114u8, 101u8, 118u8, 105u8, 115u8, 105u8, 111u8, 110u8, 10u8, 82u8, 69u8, 65u8, 68u8, 89u8];
                        proof {
                            assert(!rev_arg_ok(parts.deep_view()[1], nrevs as int));
                            assert(out@ =~= get_reply(fs, args@));
                        }
                        return out;
                    }
                },
                None => {
                    let out: Vec<u8> = vec![69u8, 82u8, 82u8, 32u8, 110u8, 111u8, 32u8, 115u8, 117u8, 99u8, 104u8, 32u8, 114u8, 101u8, 118u8, 105u8, 115u8, 105u8, 111u8, 110u8, 10u8, 82u8, 69u8, 65u8, 68u8, 89u8];
                    proof {
                        assert(!rev_arg_ok(parts.deep_view()[1], nrevs as int));
                        assert(out@ =~= get_reply(fs, args@));
                    }
                    return out;
                },
            }
        } else {
            rv = nrevs;
            proof {
                assert(parts.deep_view().len() == 1);
            }
        }
        let data = &f.revisions[rv - 1];
        let mut out: Vec<u8> = vec![79u8, 75u8, 32u8];
        let mut digits = crate::util::format_dec(data.len() as u64);
        out.append(&mut digits);
        out.push(10);
        out.extend_from_slice(data.as_slice());
        let mut closing: Vec<u8> = vec![82u8, 69u8, 65u8, 68u8, 89u8];
        out.append(&mut closing);
        proof {
            assert(f@ == fs[fidx(fs, parts.deep_view()[0].skip(1))]);
            assert(data@ == f@.revisions[rv - 1]);
            assert(out@ =~= get_reply(fs, args@));
        }
        out
    }

    /// The `PUT` handler: validate the path and read the announced
    /// length; a malformed length reads as zero.
    fn put_args_reply(args: &[u8]) -> (r: Reply)
        ensures
            r@ == put_reply(args@),
    {
        let parts = crate::util::split_bytes(args, 32);
        proof {
            crate::util::lemma_split_on_len(args@, 32);
            assert(parts.deep_view().len() == parts@.len());
            assert(parts.deep_view()[0] =~= parts@[0]@);
        }
        if parts.len() != 2 {
            let out: Vec<u8> = vec![69u8, 82u8, 82u8, 32u8, 117u8, 115u8, 97u8, 103u8, 101u8, 58u8, 32u8, 80u8, 85u8, 84u8, 32u8, 102u8, 105u8, 108u8, 101u8, 32u8, 108u8, 101u8, 110u8, 103u8, 116u8, 104u8, 32u8, 110u8, 101u8, 119u8, 108u8, 105u8, 110u8, 101u8, 32u8, 100u8, 97u8, 116u8, 97u8, 10u8, 82u8, 69u8, 65u8, 68u8, 89u8];
            proof {
                assert(out@ =~= seq![69u8, 82u8, 82u8, 32u8, 117u8, 115u8, 97u8, 103u8, 101u8, 58u8, 32u8, 80u8, 85u8, 84u8, 32u8, 102u8, 105u8, 108u8, 101u8, 32u8, 108u8, 101u8, 110u8, 103u8, 116u8, 104u8, 32u8, 110u8, 101u8, 119u8, 108u8, 105u8, 110u8, 101u8, 32u8, 100u8, 97u8, 116u8, 97u8, 10u8, 82u8, 69u8, 65u8, 68u8, 89u8]);
            }
            return Reply::Done(out);
        }
        proof {
            assert(parts.deep_view()[1] =~= parts@[1]@);
        }
        let path_ok = valid_path_bytes(parts[0].as_slice());
        let ends_slash = parts[0].len() >= 1 && parts[0][parts[0].len() - 1] == 47;
        if !path_ok || ends_slash {
            let out: Vec<u8> = vec![69u8, 82u8, 82u8, 32u8, 105u8, 108u8, 108u8, 101u8, 103u8, 97u8, 108u8, 32u8, 102u8, 105u8, 108u8, 101u8, 32u8, 110u8, 97u8, 109u8, 101u8, 10u8, 82u8, 69u8, 65u8, 68u8, 89u8];
            proof {
                assert(out@ =~= seq![69u8, 82u8, 82u8, 32u8, 105u8, 108u8, 108u8, 101u8, 103u8, 97u8, 108u8, 32u8, 102u8, 105u8, 108u8, 101u8, 32u8, 110u8, 97u8, 109u8, 101u8, 10u8, 82u8, 69u8, 65u8, 68u8, 89u8]);
            }
            return Reply::Done(out);
        }
        let length = match crate::util::parse_dec_bounded(parts[1].as_slice(), usize::MAX as u64) {
            Some(v) => v as usize,
            None => 0,
        };
        let mut path: Vec<u8> = Vec::new();
        path.extend_from_slice(parts[0].as_slice());
        proof {
            assert(path@ =~= parts.deep_view()[0]);
        }
        Reply::Read { path, length }
    }

    /// The `LIST` handler.
    #[verifier::rlimit(60)]
    #[verifier::spinoff_prover]
    fn list_files(&self, args: &[u8]) -> (r: Vec<u8>)
        requires
            dir_wf(fviews(self.root.files@)),
        ensures
            ({
                let fs = fviews(self.root.files@);
                if args@.len() == 0 || first_sp(args@, 0) >= 0 {
                    r@ == seq![69u8, 82u8, 82u8, 32u8, 117u8, 115u8, 97u8, 103u8, 101u8, 58u8, 32u8, 76u8, 73u8, 83u8, 84u8, 32u8, 100u8, 105u8, 114u8, 10u8, 82u8, 69u8, 65u8, 68u8, 89u8]
                } else if !path_valid(args@) {
                    r@ == seq![69u8, 82u8, 82u8, 32u8, 105u8, 108u8, 108u8, 101u8, 103u8, 97u8, 108u8, 32u8, 100u8, 105u8, 114u8, 32u8, 110u8, 97u8, 109u8, 101u8, 10u8, 82u8, 69u8, 65u8, 68u8, 89u8]
                } else {
                    exists|ls: Seq<Seq<u8>>|
                        #[trigger] listing_of(fs, list_dir_of(args@), ls) && r@ == list_wire(ls)
                }
            }),
    {
        let ghost fs = fviews(self.root.files@);
        if args.len() == 0 {
            let out: Vec<u8> = vec![69u8, 82u8, 82u8, 32u8, 117u8, 115u8, 97u8, 103u8, 101u8, 58u8, 32u8, 76u8, 73u8, 83u8, 84u8, 32u8, 100u8, 105u8, 114u8, 10u8, 82u8, 69u8, 65u8, 68u8, 89u8];
            proof {
                assert(out@ =~= seq![69u8, 82u8, 82u8, 32u8, 117u8, 115u8, 97u8, 103u8, 101u8, 58u8, 32u8, 76u8, 73u8, 83u8, 84u8, 32u8, 100u8, 105u8, 114u8, 10u8, 82u8, 69u8, 65u8, 68u8, 89u8]);
            }
            return out;
        }
        let mut sp: usize = 0;
        let mut has_sp = false;
        while !has_sp && sp < args.len()
            invariant
                0 <= sp <= args@.len(),
                has_sp ==> sp < args@.len() && args@[sp as int] == 32,
                first_sp(args@, 0) == first_sp(args@, sp as int),
            decreases args@.len() - sp, (if has_sp {
                0int
            } else {
                1int
            }),
        {
            if args[sp] == 32 {
                has_sp = true;
            } else {
                sp = sp + 1;
            }
        }
        if has_sp {
            let out: Vec<u8> = vec![69u8, 82u8, 82u8, 32u8, 117u8, 115u8, 97u8, 103u8, 101u8, 58u8, 32u8, 76u8, 73u8, 83u8, 84u8, 32u8, 100u8, 105u8, 114u8, 10u8, 82u8, 69u8, 65u8, 68u8, 89u8];
            proof {
                assert(out@ =~= seq![69u8, 82u8, 82u8, 32u8, 117u8, 115u8, 97u8, 103u8, 101u8, 58u8, 32u8, 76u8, 73u8, 83u8, 84u8, 32u8, 100u8, 105u8, 114u8, 10u8, 82u8, 69u8, 65u8, 68u8, 89u8]);
            }
            return out;
        }
        if !valid_path_bytes(args) {
            let out: Vec<u8> = vec![69u8, 82u8, 82u8, 32u8, 105u8, 108u8, 108u8, 101u8, 103u8, 97u8, 108u8, 32u8, 100u8, 105u8, 114u8, 32u8, 110u8, 97u8, 109u8, 101u8, 10u8, 82u8, 69u8, 65u8, 68u8, 89u8];
            proof {
                assert(out@ =~= seq![69u8, 82u8, 82u8, 32u8, 105u8, 108u8, 108u8, 101u8, 103u8, 97u8, 108u8, 32u8, 100u8, 105u8, 114u8, 32u8, 110u8, 97u8, 109u8, 101u8, 10u8, 82u8, 69u8, 65u8, 68u8, 89u8]);
            }
            return out;
        }
        let end = if args.len() > 1 && args[args.len() - 1] == 47 {
            args.len() - 1
        } else {
            args.len()
        };
        let dir = &args[1..end];
        proof {
            assert(dir@ == list_dir_of(args@));
        }
        let listing = self.root.get_list(dir);
        let ghost ls = listing.deep_view();
        proof {
            assert(listing_of(fs, list_dir_of(args@), ls));
        }
        let mut out: Vec<u8> = vec![79u8, 75u8, 32u8];
        let mut digits = crate::util::format_dec(listing.len() as u64);
        out.append(&mut digits);
        out.push(10);
        let ghost head = out@;
        let mut i: usize = 0;
        proof {
            assert(lines_block(ls.take(0)) =~= Seq::<u8>::empty());
            assert(out@ =~= head + lines_block(ls.take(0)));
        }
        while i < listing.len()
            invariant
                0 <= i <= listing@.len(),
                ls == listing.deep_view(),
                ls.len() == listing@.len(),
                out@ =~= head + lines_block(ls.take(i as int)),
            decreases listing@.len() - i,
        {
            proof {
                assert(ls[i as int] =~= listing@[i as int]@);
                assert(ls.take(i + 1).drop_last() =~= ls.take(i as int));
                assert(ls.take(i + 1).last() == ls[i as int]);
            }
            out.extend_from_slice(listing[i].as_slice());
            out.push(10);
            proof {
                assert(out@ =~= head + lines_block(ls.take(i + 1)));
            }
            i = i + 1;
        }
        proof {
            assert(ls.take(ls.len() as int) =~= ls);
        }
        let mut closing: Vec<u8> = vec![82u8, 69u8, 65u8, 68u8, 89u8];
        out.append(&mut closing);
        proof {
            assert(out@ =~= list_wire(ls));
        }
        out
    }
}

} // verus!
