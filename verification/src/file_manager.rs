//! Block-addressed storage of whole files, in fixed-size blocks.
//!
//! The [`FileManager`] is the durable state of the store as the library
//! models it: a mapping from file names to their sequences of fixed-size
//! blocks, with write-through semantics — a completed `write` call leaves
//! the bytes in the store. Every component persists data through this one
//! mechanism. The unverified shell mirrors this state onto the operating
//! system's files.

use vstd::prelude::*;

use crate::block_id::BlockId;
use crate::page::Page;

verus! {

/// Errors from block-level file access.
#[derive(Debug, PartialEq, Eq, Structural)]
pub enum FileError {
    /// The requested block lies beyond the end of the file (or the file
    /// does not exist): a read from a malformed or absent region.
    BlockOutOfRange,
}

/// One file of the store: a name and its blocks.
struct FileEntry {
    path: String,
    blocks: Vec<Vec<u8>>,
}

/// A zero-filled block of `bs` bytes.
pub open spec fn zero_block(bs: nat) -> Seq<u8> {
    Seq::new(bs, |i: int| 0u8)
}

/// The blocks of file `p` in store `m`; an absent file reads as empty.
pub open spec fn spec_file(m: Map<Seq<char>, Seq<Seq<u8>>>, p: Seq<char>) -> Seq<Seq<u8>> {
    if m.contains_key(p) {
        m[p]
    } else {
        Seq::empty()
    }
}

/// The blocks of a file after writing `page` at block `n`: block `n` is
/// replaced when it exists, and the file otherwise grows with zero blocks
/// up to `n` followed by `page`.
pub open spec fn spec_file_after_write(blocks: Seq<Seq<u8>>, n: int, page: Seq<u8>, bs: nat) -> Seq<
    Seq<u8>,
> {
    if n < blocks.len() {
        blocks.update(n, page)
    } else {
        blocks + Seq::new((n - blocks.len()) as nat, |i: int| zero_block(bs)) + seq![page]
    }
}

spec fn map_of(files: Seq<FileEntry>) -> Map<Seq<char>, Seq<Seq<u8>>>
    decreases files.len(),
{
    if files.len() == 0 {
        Map::empty()
    } else {
        map_of(files.drop_last()).insert(files.last().path@, files.last().blocks.deep_view())
    }
}

/// Manages block-addressed file storage.
///
/// All I/O operations work with fixed-size blocks; `append_block` is the
/// only block-growth primitive, so block numbers are dense and contiguous
/// starting at 0 per file.
pub struct FileManager {
    block_size: usize,
    files: Vec<FileEntry>,
}

impl View for FileManager {
    type V = Map<Seq<char>, Seq<Seq<u8>>>;

    closed spec fn view(&self) -> Map<Seq<char>, Seq<Seq<u8>>> {
        map_of(self.files@)
    }
}

impl FileManager {
    /// The configured block size.
    pub closed spec fn spec_block_size(&self) -> usize {
        self.block_size
    }

    /// Well-formed store: every block of every file has exactly the
    /// configured block size, and file names are unique.
    pub closed spec fn wf(&self) -> bool {
        &&& forall|i: int, j: int|
            0 <= i < self.files@.len() && 0 <= j < self.files@[i].blocks@.len()
                ==> (#[trigger] self.files@[i].blocks@[j])@.len() == self.block_size
        &&& forall|i: int, j: int|
            0 <= i < j < self.files@.len() ==> (#[trigger] self.files@[i].path)@ != (
            #[trigger] self.files@[j].path)@
    }

    /// Creates a new, empty store with the given block size.
    pub fn new(block_size: usize) -> (fm: Self)
        ensures
            fm.wf(),
            fm.spec_block_size() == block_size,
            fm@ == Map::<Seq<char>, Seq<Seq<u8>>>::empty(),
    {
        Self { block_size, files: Vec::new() }
    }

    /// Returns the configured block size.
    pub fn block_size(&self) -> (n: usize)
        ensures
            n == self.spec_block_size(),
    {
        self.block_size
    }

    /// Returns the number of blocks in the file named `path`; 0 when the
    /// file is absent.
    pub fn size(&self, path: &String) -> (n: u64)
        requires
            self.wf(),
        ensures
            n == spec_file(self@, path@).len(),
    {
        match self.find_file(path) {
            Some(i) => self.files[i].blocks.len() as u64,
            None => 0,
        }
    }

    /// Reads block `block` of the store into `page`.
    ///
    /// Succeeds, filling `page` with exactly the block's bytes, when the
    /// block exists; fails with `BlockOutOfRange`, leaving `page`
    /// unchanged, when the file is absent or shorter.
    pub fn read(&self, block: &BlockId, page: &mut Page) -> (r: Result<(), FileError>)
        requires
            self.wf(),
        ensures
            match r {
                Ok(_) => block@.block_no < spec_file(self@, block@.path).len() && final (page)@
                    == spec_file(self@, block@.path)[block@.block_no as int] && final (page)@.len()
                    == self.spec_block_size(),
                Err(e) => e == FileError::BlockOutOfRange && block@.block_no >= spec_file(
                    self@,
                    block@.path,
                ).len() && final (page)@ == old(page)@,
            },
    {
        match self.find_file(block.path()) {
            Some(i) => {
                let blocks = &self.files[i].blocks;
                if block.block_no() < blocks.len() as u64 {
                    let bi = block.block_no() as usize;
                    let bytes = vstd::slice::slice_to_vec(blocks[bi].as_slice());
                    proof {
                        assert(self.files@[i as int].blocks.deep_view()[bi as int] =~= bytes@);
                    }
                    *page = Page::with_bytes(bytes);
                    Ok(())
                } else {
                    Err(FileError::BlockOutOfRange)
                }
            },
            None => Err(FileError::BlockOutOfRange),
        }
    }

    /// Writes `page` as block `block` of the store; the single mechanism by
    /// which any component persists data.
    ///
    /// Always succeeds: a write past the current end of the file grows the
    /// file with zero-filled blocks up to the written one.
    pub fn write(&mut self, block: &BlockId, page: &Page) -> (r: Result<(), FileError>)
        requires
            old(self).wf(),
            page@.len() == old(self).spec_block_size(),
            block@.block_no < usize::MAX,
        ensures
            r is Ok,
            final (self).wf(),
            final (self).spec_block_size() == old(self).spec_block_size(),
            final (self)@ == old(self)@.insert(
                block@.path,
                spec_file_after_write(
                    spec_file(old(self)@, block@.path),
                    block@.block_no as int,
                    page@,
                    old(self).spec_block_size() as nat,
                ),
            ),
    {
        let bs = self.block_size;
        let n = block.block_no() as usize;
        let page_bytes = vstd::slice::slice_to_vec(page.content());
        proof {
            assert(page_bytes.deep_view() =~= page@);
        }
        match self.find_file(block.path()) {
            Some(i) => {
                let ghost old_files = self.files@;
                let ghost old_blocks = self.files@[i as int].blocks.deep_view();
                let mut entry = self.files.remove(i);
                let orig_len = entry.blocks.len();
                if n < orig_len {
                    entry.blocks[n] = page_bytes;
                    proof {
                        assert(entry.blocks.deep_view() =~= spec_file_after_write(
                            old_blocks,
                            n as int,
                            page@,
                            bs as nat,
                        ));
                    }
                } else {
                    while entry.blocks.len() < n
                        invariant
                            orig_len <= entry.blocks@.len() <= n,
                            n < usize::MAX,
                            entry.path == old_files[i as int].path,
                            forall|j: int|
                                0 <= j < orig_len ==> entry.blocks@[j] == old_files[
                                i as int
                                ].blocks@[j],
                            forall|j: int|
                                orig_len <= j < entry.blocks@.len() ==> (
                                #[trigger] entry.blocks@[j])@ == zero_block(bs as nat),
                            forall|j: int|
                                0 <= j < entry.blocks@.len() ==> (#[trigger] entry.blocks@[j])@.len()
                                    == bs,
                        decreases n - entry.blocks@.len(),
                    {
                        let zb = vec![0u8; bs];
                        proof {
                            assert(zb@ =~= zero_block(bs as nat));
                        }
                        entry.blocks.push(zb);
                    }
                    entry.blocks.push(page_bytes);
                    proof {
                        assert(entry.blocks.deep_view() =~~= spec_file_after_write(
                            old_blocks,
                            n as int,
                            page@,
                            bs as nat,
                        ));
                    }
                }
                let ghost new_entry = entry;
                self.files.insert(i, entry);
                proof {
                    assert(self.files@ =~= old_files.update(i as int, new_entry));
                    lemma_map_of_update(old_files, i as int, new_entry);
                }
                Ok(())
            },
            None => {
                let ghost old_files = self.files@;
                let mut blocks: Vec<Vec<u8>> = Vec::new();
                while blocks.len() < n
                    invariant
                        blocks@.len() <= n,
                        n < usize::MAX,
                        forall|j: int|
                            0 <= j < blocks@.len() ==> (#[trigger] blocks@[j])@ == zero_block(
                                bs as nat,
                            ),
                    decreases n - blocks@.len(),
                {
                    let zb = vec![0u8; bs];
                    proof {
                        assert(zb@ =~= zero_block(bs as nat));
                    }
                    blocks.push(zb);
                }
                blocks.push(page_bytes);
                let entry = FileEntry { path: block.path().clone(), blocks };
                let ghost new_entry = entry;
                self.files.push(entry);
                proof {
                    assert(self.files@.drop_last() =~= old_files);
                    assert forall|j: int| 0 <= j < old_files.len() implies (
                    #[trigger] old_files[j].path)@ != block@.path by {
                        if old_files[j].path@ == block@.path {
                            lemma_map_of_get(old_files, j);
                        }
                    }
                    assert(new_entry.blocks.deep_view() =~~= spec_file_after_write(
                        spec_file(old(self)@, block@.path),
                        n as int,
                        page@,
                        bs as nat,
                    ));
                }
                Ok(())
            },
        }
    }

    /// Appends a new zero-filled block to the end of the file named `path`
    /// (creating the file when absent) and returns its identifier. This is
    /// the only block-growth primitive.
    pub fn append_block(&mut self, path: &String) -> (b: BlockId)
        requires
            old(self).wf(),
            spec_file(old(self)@, path@).len() < usize::MAX,
        ensures
            final (self).wf(),
            final (self).spec_block_size() == old(self).spec_block_size(),
            b@.path == path@,
            b@.block_no == spec_file(old(self)@, path@).len(),
            final (self)@ == old(self)@.insert(
                path@,
                spec_file(old(self)@, path@).push(
                    zero_block(old(self).spec_block_size() as nat),
                ),
            ),
    {
        let n = self.size(path);
        let b = BlockId::new(path.clone(), n);
        let page = Page::with_size(self.block_size);
        proof {
            assert(page@ =~= zero_block(self.spec_block_size() as nat));
        }
        let r = self.write(&b, &page);
        proof {
            assert(spec_file_after_write(
                spec_file(old(self)@, path@),
                n as int,
                page@,
                old(self).spec_block_size() as nat,
            ) =~= spec_file(old(self)@, path@).push(
                zero_block(old(self).spec_block_size() as nat),
            ));
        }
        b
    }

    /// Finds the index of the file named `path`.
    fn find_file(&self, path: &String) -> (r: Option<usize>)
        requires
            self.wf(),
        ensures
            match r {
                Some(i) => i < self.files@.len() && self.files@[i as int].path@ == path@
                    && self@.contains_key(path@) && self@[path@] == self.files@[
                    i as int
                ].blocks.deep_view(),
                None => !self@.contains_key(path@),
            },
    {
        let n = self.files.len();
        let mut i: usize = 0;
        while i < n
            invariant
                0 <= i <= n,
                n == self.files@.len(),
                self.wf(),
                forall|j: int| 0 <= j < i ==> (#[trigger] self.files@[j].path)@ != path@,
            decreases n - i,
        {
            if self.files[i].path == *path {
                proof {
                    lemma_map_of_get(self.files@, i as int);
                }
                return Some(i);
            }
            i = i + 1;
        }
        proof {
            lemma_map_of_absent(self.files@, path@);
        }
        None
    }
}

/// In a store with unique names, `map_of` maps the name of entry `i` to
/// that entry's blocks.
proof fn lemma_map_of_get(files: Seq<FileEntry>, i: int)
    requires
        0 <= i < files.len(),
        forall|a: int, b: int|
            0 <= a < b < files.len() ==> (#[trigger] files[a].path)@ != (#[trigger] files[b].path)@,
    ensures
        map_of(files).contains_key(files[i].path@),
        map_of(files)[files[i].path@] == files[i].blocks.deep_view(),
    decreases files.len(),
{
    if i == files.len() - 1 {
    } else {
        assert(files.drop_last()[i] == files[i]);
        lemma_map_of_get(files.drop_last(), i);
        assert(files[i].path@ != files.last().path@);
    }
}

/// Every stored file's block count fits the machine: the blocks are held
/// in a vector.
pub proof fn lemma_file_len_bound(fm: &FileManager, p: Seq<char>)
    requires
        fm.wf(),
    ensures
        spec_file(fm@, p).len() <= usize::MAX,
{
    broadcast use vstd::std_specs::vec::axiom_spec_len;

    if fm@.contains_key(p) {
        lemma_map_of_covers(fm.files@, p);
        let i = choose|i: int|
            0 <= i < fm.files@.len() && fm.files@[i].path@ == p && map_of(fm.files@)[p]
                == fm.files@[i].blocks.deep_view();
        assert(fm.files@[i].blocks.deep_view().len() == fm.files@[i].blocks@.len());
        assert(vstd::std_specs::vec::spec_vec_len(&fm.files@[i].blocks) == fm.files@[
        i].blocks@.len());
    }
}

/// A name in the map is carried by some entry, whose blocks it maps to.
proof fn lemma_map_of_covers(files: Seq<FileEntry>, p: Seq<char>)
    requires
        map_of(files).contains_key(p),
    ensures
        exists|i: int|
            0 <= i < files.len() && files[i].path@ == p && map_of(files)[p] == files[
                i
            ].blocks.deep_view(),
    decreases files.len(),
{
    if files.len() > 0 {
        if files.last().path@ == p {
            assert(files[files.len() - 1].path@ == p && map_of(files)[p] == files[files.len()
                - 1].blocks.deep_view());
        } else {
            lemma_map_of_covers(files.drop_last(), p);
            let i = choose|i: int|
                0 <= i < files.drop_last().len() && files.drop_last()[i].path@ == p && map_of(
                    files.drop_last(),
                )[p] == files.drop_last()[i].blocks.deep_view();
            assert(files[i].path@ == p && map_of(files)[p] == files[i].blocks.deep_view());
        }
    }
}

/// Replacing entry `i` by an entry with the same name updates exactly that
/// name's blocks in the map.
proof fn lemma_map_of_update(files: Seq<FileEntry>, i: int, e: FileEntry)
    requires
        0 <= i < files.len(),
        forall|a: int, b: int|
            0 <= a < b < files.len() ==> (#[trigger] files[a].path)@ != (#[trigger] files[b].path)@,
        e.path@ == files[i].path@,
    ensures
        map_of(files.update(i, e)) == map_of(files).insert(files[i].path@, e.blocks.deep_view()),
    decreases files.len(),
{
    let fu = files.update(i, e);
    if i == files.len() - 1 {
        assert(fu.drop_last() =~= files.drop_last());
        assert(fu.last() == e);
        assert(map_of(fu) =~= map_of(files).insert(files[i].path@, e.blocks.deep_view()));
    } else {
        assert(fu.drop_last() =~= files.drop_last().update(i, e));
        assert(fu.last() == files.last());
        assert(forall|a: int|
            0 <= a < files.len() - 1 ==> #[trigger] files.drop_last()[a] == files[a]);
        lemma_map_of_update(files.drop_last(), i, e);
        assert(files[i].path@ != files.last().path@);
        assert(map_of(fu) =~= map_of(files).insert(files[i].path@, e.blocks.deep_view()));
    }
}

/// A name carried by no entry is not in the map.
proof fn lemma_map_of_absent(files: Seq<FileEntry>, p: Seq<char>)
    requires
        forall|j: int| 0 <= j < files.len() ==> (#[trigger] files[j].path)@ != p,
    ensures
        !map_of(files).contains_key(p),
    decreases files.len(),
{
    if files.len() > 0 {
        assert(forall|j: int|
            0 <= j < files.len() - 1 ==> (#[trigger] files.drop_last()[j].path)@ != p);
        lemma_map_of_absent(files.drop_last(), p);
    }
}

} // verus!
