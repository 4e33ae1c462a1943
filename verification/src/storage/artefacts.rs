//! What a sweep writes to disk: where, how much of it, and what it hashes to.

use crate::sha256::{is_lower_hex, sha256_hex_of, Sha256Stream};
use crate::text::{
    chars_of, concat2, concat3, decimal, decimal_text, key_order, law_key_order_sorts,
    law_sorting_forgets_the_order, law_sorting_keeps_texts, sorted_indices, sorted_texts, strings, texts,
};
use crate::words::{join, joined, lemma_decimal_reads_back, lemma_joined_parts};
use vstd::prelude::*;
use vstd::utf8::encode_utf8;

verus! {

/// The file a sweep writes, inside the family's own report directory.
pub const DOCUMENT_NAME: &'static str = "storage-results.json";

/// A name inside a directory: one separator between the two, unless the
/// directory ends with one or is empty.
pub open spec fn inside(dir: Seq<char>, name: Seq<char>) -> Seq<char> {
    if dir.len() == 0 || dir.last() == '/' {
        dir + name
    } else {
        dir + "/"@ + name
    }
}

/// A name inside a directory.
pub fn path_inside(dir: &str, name: &str) -> (out: String)
    ensures
        out@ == inside(dir@, name@),
{
    let chars: Vec<char> = chars_of(dir);
    if chars.len() == 0 || chars[chars.len() - 1] == '/' {
        concat2(dir, name)
    } else {
        concat3(dir, "/", name)
    }
}

/// Where a sweep writes its document: the family's directory under the report
/// root, never a flat path beside it.
pub fn default_output_path(report_root: &str) -> (out: String)
    ensures
        out@ == inside(inside(report_root@, "storage"@), DOCUMENT_NAME@),
{
    path_inside(path_inside(report_root, "storage").as_str(), DOCUMENT_NAME)
}

/// The document's path: the file that the environment names outright, else the
/// family's place under the report root that it names, else under the default
/// one. An empty name names nothing.
pub fn output_path(
    named_file: Option<&str>,
    named_root: Option<&str>,
    default_root: &str,
) -> (out: String)
    ensures
        out@ == (match named_file {
            Some(path) if path@.len() > 0 => path@,
            _ => inside(
                inside(
                    match named_root {
                        Some(root) if root@.len() > 0 => root@,
                        _ => default_root@,
                    },
                    "storage"@,
                ),
                DOCUMENT_NAME@,
            ),
        }),
{
    if let Some(path) = named_file {
        if chars_of(path).len() > 0 {
            return path.to_owned();
        }
    }
    if let Some(root) = named_root {
        if chars_of(root).len() > 0 {
            return default_output_path(root);
        }
    }
    default_output_path(default_root)
}

/// The name of the `n`-th scratch directory of a process.
pub open spec fn scratch_name(pid: u32, n: u64) -> Seq<char> {
    "libviprs-storage-"@ + decimal(pid as nat) + "-"@ + decimal(n as nat)
}

/// A directory that one process makes and the same process removes.
#[derive(Debug)]
pub struct Scratch {
    path: String,
}

impl Scratch {
    /// Where the directory is.
    pub closed spec fn path_of(self) -> Seq<char> {
        self.path@
    }

    /// The `n`-th scratch directory of a process.
    pub fn new(base: &str, pid: u32, n: u64) -> (s: Scratch)
        ensures
            s.path_of() == inside(base@, scratch_name(pid, n)),
    {
        let mut name: String = concat3("libviprs-storage-", decimal_text(pid as u128).as_str(), "-");
        name.append(decimal_text(n as u128).as_str());
        Scratch { path: path_inside(base, name.as_str()) }
    }

    pub fn path(&self) -> (out: &str)
        ensures
            out@ == self.path_of(),
    {
        self.path.as_str()
    }
}

/// A process never uses a scratch directory twice: two repetitions that report
/// one path did not regenerate anything.
pub proof fn law_scratch_is_never_reused(base: Seq<char>, pid: u32, m: u64, n: u64)
    requires
        m != n,
    ensures
        inside(base, scratch_name(pid, m)) != inside(base, scratch_name(pid, n)),
{
    let a = inside(base, scratch_name(pid, m));
    let b = inside(base, scratch_name(pid, n));
    let front = inside(base, "libviprs-storage-"@ + decimal(pid as nat) + "-"@);
    lemma_decimal_reads_back(m as nat);
    lemma_decimal_reads_back(n as nat);
    assert(a =~= front + decimal(m as nat));
    assert(b =~= front + decimal(n as nat));
    if a == b {
        assert(a.skip(front.len() as int) =~= decimal(m as nat));
        assert(b.skip(front.len() as int) =~= decimal(n as nat));
    }
}

/// What opens readers for scenarios that have nothing to read: it refuses.
#[derive(Debug, Clone, Copy)]
pub struct NoReaders;

impl NoReaders {
    /// Why there is no reader.
    pub fn fresh(&self) -> (got: Result<(), String>)
        ensures
            got is Err,
            got->Err_0@ == "this scenario has no artefact to read"@,
    {
        Err("this scenario has no artefact to read".to_owned())
    }
}

/// One entry of a tree, as the filesystem describes it.
#[derive(Debug, Clone, Copy)]
pub struct Entry {
    pub is_dir: bool,
    pub len: u64,
    /// The bytes that the filesystem allocated for it.
    pub allocated: u64,
}

/// The bytes of the first `n` entries that are files.
pub open spec fn file_bytes(found: Seq<Entry>, n: int) -> nat
    decreases n,
{
    if n <= 0 {
        0
    } else {
        file_bytes(found, n - 1) + (if found[n - 1].is_dir {
            0
        } else {
            found[n - 1].len as nat
        })
    }
}

/// How many of the first `n` entries are directories.
pub open spec fn dirs_in(found: Seq<Entry>, n: int) -> nat
    decreases n,
{
    if n <= 0 {
        0
    } else {
        dirs_in(found, n - 1) + (if found[n - 1].is_dir {
            1nat
        } else {
            0
        })
    }
}

/// The bytes that the filesystem allocated for the first `n` entries.
pub open spec fn allocated_in(found: Seq<Entry>, n: int) -> nat
    decreases n,
{
    if n <= 0 {
        0
    } else {
        allocated_in(found, n - 1) + found[n - 1].allocated as nat
    }
}

/// More entries come to no less.
proof fn lemma_occupancy_grows(found: Seq<Entry>, m: int, n: int)
    requires
        m <= n,
    ensures
        file_bytes(found, m) <= file_bytes(found, n),
        allocated_in(found, m) <= allocated_in(found, n),
    decreases n - m,
{
    if m < n {
        lemma_occupancy_grows(found, m, n - 1);
    }
}

/// There are no more directories than entries.
proof fn lemma_dirs_bounded(found: Seq<Entry>, n: int)
    requires
        0 <= n,
    ensures
        dirs_in(found, n) <= n,
    decreases n,
{
    if n > 0 {
        lemma_dirs_bounded(found, n - 1);
    }
}

/// What an artefact takes on disk: the bytes of its files, its entries and its
/// directories, itself among them, and the bytes allocated. `None` where it is
/// not there.
pub fn occupancy(root: Option<Entry>, found: &Vec<Entry>) -> (out: Option<(u64, u64, u64, u64)>)
    requires
        file_bytes(found@, found@.len() as int) <= u64::MAX,
        root matches Some(r) ==> r.allocated + allocated_in(found@, found@.len() as int)
            <= u64::MAX,
        found@.len() < u64::MAX,
    ensures
        out == (match root {
            None => None,
            Some(r) => Some(
                if r.is_dir {
                    (
                        file_bytes(found@, found@.len() as int) as u64,
                        (1 + found@.len()) as u64,
                        (1 + dirs_in(found@, found@.len() as int)) as u64,
                        (r.allocated + allocated_in(found@, found@.len() as int)) as u64,
                    )
                } else {
                    (r.len, 1u64, 0u64, r.allocated)
                },
            ),
        }),
{
    let root: Entry = match root {
        Some(r) => r,
        None => {
            return None;
        },
    };
    if !root.is_dir {
        return Some((root.len, 1, 0, root.allocated));
    }
    let mut bytes: u64 = 0;
    let mut directories: u64 = 1;
    let mut allocated: u64 = root.allocated;
    let mut i: usize = 0;
    while i < found.len()
        invariant
            i <= found@.len(),
            found@.len() < u64::MAX,
            file_bytes(found@, found@.len() as int) <= u64::MAX,
            root.allocated + allocated_in(found@, found@.len() as int) <= u64::MAX,
            bytes == file_bytes(found@, i as int),
            directories == 1 + dirs_in(found@, i as int),
            allocated == root.allocated + allocated_in(found@, i as int),
        decreases found@.len() - i,
    {
        proof {
            lemma_occupancy_grows(found@, i + 1, found@.len() as int);
            lemma_dirs_bounded(found@, i + 1);
        }
        allocated = allocated + found[i].allocated;
        if found[i].is_dir {
            directories = directories + 1;
        } else {
            bytes = bytes + found[i].len;
        }
        i = i + 1;
    }
    Some((bytes, found.len() as u64 + 1, directories, allocated))
}

/// What `libviprs::checksum::hash_tile` gives for some bytes under SHA-256.
pub uninterp spec fn tile_hash(bytes: Seq<u8>) -> Seq<char>;

/// `libviprs::checksum::hash_tile` with `ChecksumAlgo::Sha256`: a function of
/// the bytes alone, 32 bytes written as 64 hexadecimal digits of lower case.
#[verifier::external_body]
fn hash_tile(bytes: &[u8]) -> (out: String)
    ensures
        out@ == tile_hash(bytes@),
        out@.len() == 64,
        forall|i: int| 0 <= i < 64 ==> is_lower_hex(#[trigger] out@[i]),
{
    libviprs::checksum::hash_tile(bytes, libviprs::checksum::ChecksumAlgo::Sha256)
}

/// A file of a tree: its path inside the tree, and the hash of its bytes.
#[derive(Debug)]
pub struct HashedFile {
    pub path: String,
    pub hash: String,
}

/// The digest of an archive, from its bytes as they were read: one SHA-256 over
/// all of them.
pub fn archive_digest(read: Sha256Stream) -> (out: String)
    requires
        read.wf(),
    ensures
        out@ == sha256_hex_of(read@),
        out@.len() == 64,
        forall|i: int| 0 <= i < 64 ==> is_lower_hex(#[trigger] out@[i]),
{
    read.finish()
}

/// Whether a file was found at a path and holds these bytes.
pub open spec fn is_file_of(f: HashedFile, path: Seq<char>, bytes: Seq<u8>) -> bool {
    f.path@ == path && f.hash@ == sha256_hex_of(bytes)
}

impl HashedFile {
    /// A file of a tree, from its bytes as they were read.
    pub fn new(path: String, read: Sha256Stream) -> (file: HashedFile)
        requires
            read.wf(),
        ensures
            is_file_of(file, path@, read@),
            file.hash@.len() == 64,
            forall|i: int| 0 <= i < 64 ==> is_lower_hex(#[trigger] file.hash@[i]),
    {
        HashedFile { path, hash: read.finish() }
    }
}

/// The line of a file.
pub open spec fn file_line(f: HashedFile) -> Seq<char> {
    f.path@ + "  "@ + f.hash@
}

/// The lines of some files, in the order they were found.
pub open spec fn file_lines(files: Seq<HashedFile>) -> Seq<Seq<char>> {
    Seq::new(files.len(), |i: int| file_line(files[i]))
}

/// The text that a tree is hashed by.
pub open spec fn listing(files: Seq<HashedFile>) -> Seq<char> {
    joined(sorted_texts(file_lines(files)), "\n"@)
}

/// The digest of a tree: the hash of its listing, in which the order the
/// filesystem handed the files out is gone.
pub fn tree_digest(files: &Vec<HashedFile>) -> (out: String)
    ensures
        out@ == tile_hash(encode_utf8(listing(files@))),
{
    let ghost lines = file_lines(files@);
    let mut keys: Vec<Vec<char>> = Vec::new();
    let mut i: usize = 0;
    while i < files.len()
        invariant
            i <= files@.len(),
            lines == file_lines(files@),
            texts(keys@) == lines.take(i as int),
            keys@.len() == i,
        decreases files@.len() - i,
    {
        let line: String = concat3(files[i].path.as_str(), "  ", files[i].hash.as_str());
        let ghost before = keys@;
        keys.push(chars_of(line.as_str()));
        assert(lines[i as int] == line@);
        assert(texts(keys@) =~= texts(before).push(line@));
        assert(lines.take(i + 1) =~= lines.take(i as int).push(lines[i as int]));
        i = i + 1;
    }
    assert(lines.take(i as int) =~= lines);
    let order: Vec<usize> = sorted_indices(&keys);
    proof {
        law_key_order_sorts(lines);
    }
    let mut sorted: Vec<String> = Vec::new();
    let mut k: usize = 0;
    while k < order.len()
        invariant
            k <= order@.len(),
            order@.len() == keys@.len(),
            keys@.len() == lines.len(),
            texts(keys@) == lines,
            crate::text::as_ints(order@) == key_order(lines),
            sorted_texts(lines).len() == lines.len(),
            forall|j: int| 0 <= j < order@.len() ==> (#[trigger] order@[j]) < keys@.len(),
            strings(sorted@) == sorted_texts(lines).take(k as int),
        decreases order@.len() - k,
    {
        let ghost before = sorted@;
        let at: usize = order[k];
        assert(crate::text::as_ints(order@)[k as int] == at);
        assert(texts(keys@)[at as int] == keys@[at as int]@);
        let line: String = crate::text::text_of(keys[at].as_slice());
        sorted.push(line);
        assert(strings(sorted@) =~= strings(before).push(line@));
        assert(sorted_texts(lines).take(k + 1) =~= sorted_texts(lines).take(k as int).push(
            sorted_texts(lines)[k as int],
        ));
        k = k + 1;
    }
    assert(sorted_texts(lines).take(k as int) =~= sorted_texts(lines));
    let text: String = join(&sorted, "\n");
    hash_tile(text.as_str().as_bytes())
}

/// The order in which the filesystem hands the files of a tree out does not
/// show in its digest.
pub proof fn law_listing_order_does_not_show(a: Seq<HashedFile>, b: Seq<HashedFile>)
    requires
        file_lines(a).to_multiset() == file_lines(b).to_multiset(),
    ensures
        listing(a) == listing(b),
        tile_hash(encode_utf8(listing(a))) == tile_hash(encode_utf8(listing(b))),
{
    law_sorting_forgets_the_order(file_lines(a), file_lines(b));
}

/// A file of a tree: its path inside the tree, and its bytes.
pub struct TreeFile {
    pub path: Seq<char>,
    pub bytes: Seq<u8>,
}

/// Whether some files are those of a tree, in the order they were found.
pub open spec fn are_files_of(files: Seq<HashedFile>, tree: Seq<TreeFile>) -> bool {
    &&& files.len() == tree.len()
    &&& forall|i: int|
        0 <= i < tree.len() ==> is_file_of(#[trigger] files[i], tree[i].path, tree[i].bytes)
}

/// The line of a file with these bytes.
pub open spec fn tree_line(f: TreeFile) -> Seq<char> {
    f.path + "  "@ + sha256_hex_of(f.bytes)
}

/// The lines of a tree.
pub open spec fn tree_lines(tree: Seq<TreeFile>) -> Seq<Seq<char>> {
    Seq::new(tree.len(), |i: int| tree_line(tree[i]))
}

/// The digest of a tree, from its paths and its bytes.
pub open spec fn digest_of_tree(tree: Seq<TreeFile>) -> Seq<char> {
    tile_hash(encode_utf8(joined(sorted_texts(tree_lines(tree)), "\n"@)))
}

/// The lines of two trees of the same files are the same lines.
proof fn lemma_same_lines(a: Seq<TreeFile>, b: Seq<TreeFile>)
    requires
        a.to_multiset() == b.to_multiset(),
    ensures
        tree_lines(a).to_multiset() == tree_lines(b).to_multiset(),
    decreases a.len(),
{
    a.to_multiset_ensures();
    b.to_multiset_ensures();
    if a.len() == 0 {
        assert(tree_lines(a) =~= tree_lines(b));
    } else {
        let last = a.last();
        let front = a.drop_last();
        assert(front.push(last) =~= a);
        front.to_multiset_ensures();
        assert(a[a.len() - 1] == last);
        assert(a.contains(last));
        assert(b.to_multiset().count(last) > 0);
        let j = choose|j: int| 0 <= j < b.len() && b[j] == last;
        let rest = b.remove(j);
        assert(rest.to_multiset() =~= front.to_multiset()) by {
            assert(front =~= a.remove(a.len() - 1));
        }
        lemma_same_lines(front, rest);
        let (la, lb) = (tree_lines(a), tree_lines(b));
        la.to_multiset_ensures();
        lb.to_multiset_ensures();
        assert(la.remove(a.len() - 1) =~= tree_lines(front));
        assert(lb.remove(j) =~= tree_lines(rest));
        assert(la.contains(la[a.len() - 1]) && lb.contains(lb[j]));
        let line = tree_line(last);
        assert(la.to_multiset() =~= la.to_multiset().remove(line).insert(line));
        assert(lb.to_multiset() =~= lb.to_multiset().remove(line).insert(line));
    }
}

/// The digest of a tree is a function of its paths and its bytes, and of nothing
/// else: the same files give the same digest, in whatever order they were found.
pub proof fn law_tree_digest_is_of_paths_and_bytes(
    a: Seq<HashedFile>,
    b: Seq<HashedFile>,
    tree: Seq<TreeFile>,
    other: Seq<TreeFile>,
)
    requires
        are_files_of(a, tree),
        are_files_of(b, other),
        tree.to_multiset() == other.to_multiset(),
    ensures
        tile_hash(encode_utf8(listing(a))) == digest_of_tree(tree),
        tile_hash(encode_utf8(listing(a))) == tile_hash(encode_utf8(listing(b))),
{
    lemma_same_lines(tree, other);
    assert(file_lines(a) =~= tree_lines(tree)) by {
        assert forall|i: int| 0 <= i < a.len() implies #[trigger] file_lines(a)[i]
            == tree_lines(tree)[i] by {
            assert(is_file_of(a[i], tree[i].path, tree[i].bytes));
        }
    }
    assert(file_lines(b) =~= tree_lines(other)) by {
        assert forall|i: int| 0 <= i < b.len() implies #[trigger] file_lines(b)[i]
            == tree_lines(other)[i] by {
            assert(is_file_of(b[i], other[i].path, other[i].bytes));
        }
    }
    law_sorting_forgets_the_order(file_lines(a), file_lines(b));
}

/// Whether the files stand at paths of their own, without a line break in them,
/// and each has a hash of full length.
pub open spec fn is_plain_tree(files: Seq<HashedFile>) -> bool {
    &&& forall|i: int, j: int|
        0 <= i < j < files.len() ==> (#[trigger] files[i]).path@ != (#[trigger] files[j]).path@
    &&& forall|i: int, k: int|
        0 <= i < files.len() && 0 <= k < files[i].path@.len() ==> #[trigger] files[i].path@[k]
            != '\n'
    &&& forall|i: int|
        0 <= i < files.len() ==> (#[trigger] files[i]).hash@.len() == 64 && (forall|k: int|
            0 <= k < 64 ==> is_lower_hex(#[trigger] files[i].hash@[k]))
}

/// A line gives its path and its hash back.
proof fn lemma_line_parts(a: HashedFile, b: HashedFile)
    requires
        a.hash@.len() == 64,
        b.hash@.len() == 64,
        file_line(a) == file_line(b),
    ensures
        a.path@ == b.path@,
        a.hash@ == b.hash@,
{
    reveal_strlit("  ");
    let (x, y) = (file_line(a), file_line(b));
    let n = a.path@.len() as int;
    assert("  "@.len() == 2);
    assert(x.len() == n + 2 + 64);
    assert(y.len() == b.path@.len() + 2 + 64);
    assert(a.path@ =~= x.take(n));
    assert(b.path@ =~= y.take(n));
    assert(a.hash@ =~= x.skip(n + 2));
    assert(b.hash@ =~= y.skip(n + 2));
}

/// No line of a plain tree holds a line break, in whatever order they stand.
proof fn lemma_lines_are_plain(files: Seq<HashedFile>)
    requires
        is_plain_tree(files),
    ensures
        sorted_texts(file_lines(files)).len() == files.len(),
        forall|i: int, k: int|
            0 <= i < files.len() && 0 <= k < sorted_texts(file_lines(files))[i].len()
                ==> #[trigger] sorted_texts(file_lines(files))[i][k] != '\n',
{
    reveal_strlit("  ");
    let lines = file_lines(files);
    let sorted = sorted_texts(lines);
    law_key_order_sorts(lines);
    assert forall|i: int, k: int|
        0 <= i < files.len() && 0 <= k < sorted[i].len() implies #[trigger] sorted[i][k]
        != '\n' by {
        let at = key_order(lines)[i];
        assert(key_order(lines).contains(at));
        let f = files[at];
        assert(sorted[i] == file_line(f));
        let n = f.path@.len() as int;
        if k < n {
            assert(sorted[i][k] == files[at].path@[k]);
        } else if k >= n + 2 {
            assert(sorted[i][k] == files[at].hash@[k - n - 2]);
            assert(is_lower_hex(files[at].hash@[k - n - 2]));
        }
    }
}

/// A tree of which one file holds other bytes, or stands elsewhere, is listed
/// otherwise, so that its digest moves wherever SHA-256 tells the two listings
/// apart.
pub proof fn law_changed_file_moves_the_listing(
    a: Seq<HashedFile>,
    b: Seq<HashedFile>,
    i: int,
)
    requires
        is_plain_tree(a),
        is_plain_tree(b),
        a.len() == b.len(),
        0 <= i < a.len(),
        forall|j: int|
            0 <= j < b.len() ==> a[i].path@ != (#[trigger] b[j]).path@ || a[i].hash@ != b[j].hash@,
    ensures
        listing(a) != listing(b),
{
    if listing(a) == listing(b) {
        reveal_strlit("\n");
        assert("\n"@ =~= seq!['\n']);
        let (la, lb) = (file_lines(a), file_lines(b));
        lemma_lines_are_plain(a);
        lemma_lines_are_plain(b);
        lemma_joined_parts(sorted_texts(la), '\n');
        lemma_joined_parts(sorted_texts(lb), '\n');
        law_sorting_keeps_texts(la);
        law_sorting_keeps_texts(lb);
        la.to_multiset_ensures();
        lb.to_multiset_ensures();
        assert(la[i] == file_line(a[i]));
        assert(la.contains(la[i]));
        assert(lb.to_multiset().count(la[i]) > 0);
        let j = choose|j: int| 0 <= j < lb.len() && lb[j] == la[i];
        assert(lb[j] == file_line(b[j]));
        lemma_line_parts(a[i], b[j]);
    }
}

} // verus!
