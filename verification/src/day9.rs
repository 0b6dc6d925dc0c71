//! A disk of blocks: files laid out one after another with free space
//! between them, and two ways to move them toward the front.

use vstd::prelude::*;
use std::collections::HashMap;
use crate::text::bytes_of;
use crate::text::is_digit;
use crate::text::text_bytes;

verus! {

broadcast use vstd::std_specs::hash::group_hash_axioms;

/// One digit of a disk map: so many blocks of a file, or so many free blocks.
#[derive(Debug, PartialEq, Eq, Clone, Copy, Structural)]
pub enum DiskMapEntry {
    File(usize),
    Free(usize),
}

pub struct DiskMap {
    pub entries: Vec<DiskMapEntry>,
}

/// A block: free, or the block `.1` of the file `.0`.
#[derive(Debug, PartialEq, Eq, Clone, Copy, Structural)]
pub enum Block {
    File(usize, usize),
    Free,
}

#[derive(Debug)]
pub struct File {
    pub id: usize,
    pub blocks: Vec<Block>,
}

#[derive(Debug)]
pub struct Disk {
    pub blocks: Vec<Block>,
    pub files: Vec<File>,
    pub file_ptrs: HashMap<usize, usize>,
}

/// The entries that the digits `digits` write: files at the even places,
/// free space at the odd ones.
pub open spec fn entries_of_digits(digits: Seq<u8>) -> Seq<DiskMapEntry> {
    Seq::new(
        digits.len(),
        |i: int|
            if i % 2 == 0 {
                DiskMapEntry::File((digits[i] - 48) as usize)
            } else {
                DiskMapEntry::Free((digits[i] - 48) as usize)
            },
    )
}

/// The disk map written in `bytes`, whose last byte ends the line and is
/// not read; `None` where there is no byte or one before the last is no
/// digit.
pub open spec fn disk_map_of(bytes: Seq<u8>) -> Option<Seq<DiskMapEntry>> {
    if bytes.len() > 0 && (forall|i: int| 0 <= i < bytes.len() - 1 ==> is_digit(#[trigger] bytes[i])) {
        Some(entries_of_digits(bytes.drop_last()))
    } else {
        None
    }
}

impl DiskMap {
    pub fn from(input: &String) -> (map: Option<DiskMap>)
        ensures
            match map {
                Some(read) => disk_map_of(bytes_of(input@)) == Some(read.entries@),
                None => disk_map_of(bytes_of(input@)).is_none(),
            },
    {
        let bytes = text_bytes(input);
        if bytes.len() == 0 {
            return None;
        }
        let mut entries: Vec<DiskMapEntry> = Vec::new();
        let mut i: usize = 0;
        while i < bytes.len() - 1
            invariant
                i <= bytes.len() - 1,
                bytes.len() > 0,
                bytes@ == bytes_of(input@),
                forall|j: int| 0 <= j < i ==> is_digit(#[trigger] bytes[j]),
                entries@ == entries_of_digits(bytes@.take(i as int)),
            decreases bytes.len() - i,
        {
            let b = bytes[i];
            if b < 48 || b > 57 {
                assert(!is_digit(bytes@[i as int]));
                return None;
            }
            let num = (b - 48) as usize;
            if i % 2 == 0 {
                entries.push(DiskMapEntry::File(num));
            } else {
                entries.push(DiskMapEntry::Free(num));
            }
            assert(entries@ =~= entries_of_digits(bytes@.take(i + 1)));
            i += 1;
        }
        assert(bytes@.take(i as int) =~= bytes@.drop_last());
        Some(DiskMap { entries })
    }
}

/// The blocks of the file `id` when it has `count` of them.
pub open spec fn file_blocks(id: usize, count: nat) -> Seq<Block> {
    Seq::new(count, |k: int| Block::File(id, k as usize))
}

pub open spec fn free_blocks(count: nat) -> Seq<Block> {
    Seq::new(count, |k: int| Block::Free)
}

/// How many of `entries` are files.
pub open spec fn count_files(entries: Seq<DiskMapEntry>) -> nat
    decreases entries.len(),
{
    if entries.len() == 0 {
        0
    } else {
        count_files(entries.drop_last()) + (match entries.last() {
            DiskMapEntry::File(_) => 1nat,
            DiskMapEntry::Free(_) => 0nat,
        })
    }
}

/// The blocks that `entries` lay out: each file's blocks under the file's
/// number, which counts the files before it.
pub open spec fn layout(entries: Seq<DiskMapEntry>) -> Seq<Block>
    decreases entries.len(),
{
    if entries.len() == 0 {
        Seq::empty()
    } else {
        layout(entries.drop_last()) + (match entries.last() {
            DiskMapEntry::File(count) => file_blocks(
                count_files(entries.drop_last()) as usize,
                count as nat,
            ),
            DiskMapEntry::Free(count) => free_blocks(count as nat),
        })
    }
}

proof fn lemma_count_files_bound(entries: Seq<DiskMapEntry>)
    ensures
        count_files(entries) <= entries.len(),
    decreases entries.len(),
{
    if entries.len() > 0 {
        lemma_count_files_bound(entries.drop_last());
    }
}

/// The sum, over the blocks of files, of a block's position times its
/// file's number.
pub open spec fn checksum_of(blocks: Seq<Block>) -> nat
    decreases blocks.len(),
{
    if blocks.len() == 0 {
        0
    } else {
        checksum_of(blocks.drop_last()) + (match blocks.last() {
            Block::File(id, _) => ((blocks.len() - 1) * id) as nat,
            Block::Free => 0nat,
        })
    }
}

proof fn lemma_checksum_grows(blocks: Seq<Block>, n: int)
    requires
        0 <= n <= blocks.len(),
    ensures
        checksum_of(blocks.take(n)) <= checksum_of(blocks),
    decreases blocks.len() - n,
{
    if n < blocks.len() {
        assert(blocks.take(n + 1).drop_last() =~= blocks.take(n));
        lemma_checksum_grows(blocks, n + 1);
    } else {
        assert(blocks.take(n) =~= blocks);
    }
}

/// `blocks` after the `count` blocks from `a` on have changed places, one
/// after another, with those from `b` on.
pub open spec fn swapped(blocks: Seq<Block>, a: int, b: int, count: nat) -> Seq<Block>
    decreases count,
{
    if count == 0 {
        blocks
    } else {
        let before = swapped(blocks, a, b, (count - 1) as nat);
        let i = a + count - 1;
        let j = b + count - 1;
        before.update(i, before[j]).update(j, before[i])
    }
}

/// Two stretches of blocks that do not meet change places as wholes, and
/// nothing else moves.
pub proof fn lemma_swapped_apart(blocks: Seq<Block>, a: int, b: int, count: nat)
    requires
        0 <= a,
        a + count <= b,
        b + count <= blocks.len(),
    ensures
        swapped(blocks, a, b, count).len() == blocks.len(),
        swapped(blocks, a, b, count).to_multiset() == blocks.to_multiset(),
        forall|i: int|
            a <= i < a + count ==> #[trigger] swapped(blocks, a, b, count)[i] == blocks[i - a + b],
        forall|i: int|
            b <= i < b + count ==> #[trigger] swapped(blocks, a, b, count)[i] == blocks[i - b + a],
        forall|i: int|
            0 <= i < blocks.len() && !(a <= i < a + count) && !(b <= i < b + count)
                ==> #[trigger] swapped(blocks, a, b, count)[i] == blocks[i],
    decreases count,
{
    if count > 0 {
        lemma_swapped_apart(blocks, a, b, (count - 1) as nat);
        let before = swapped(blocks, a, b, (count - 1) as nat);
        lemma_swap_keeps_multiset(before, a + count - 1, b + count - 1);
    }
}

/// Two blocks that change places leave the same blocks on the disk.
pub proof fn lemma_swap_keeps_multiset(blocks: Seq<Block>, i: int, j: int)
    requires
        0 <= i < blocks.len(),
        0 <= j < blocks.len(),
    ensures
        blocks.update(i, blocks[j]).update(j, blocks[i]).to_multiset() == blocks.to_multiset(),
{
    let first = blocks.update(i, blocks[j]);
    vstd::seq_lib::to_multiset_update(blocks, i, blocks[j]);
    vstd::seq_lib::to_multiset_update(first, j, blocks[i]);
    broadcast use vstd::seq_lib::group_to_multiset_ensures;

    assert(blocks.to_multiset().count(blocks[i]) > 0);
    assert(blocks.to_multiset().count(blocks[j]) > 0);
    assert(first.update(j, blocks[i]).to_multiset() =~= blocks.to_multiset());
}

/// The blocks from `start` on, `count` of them, are all free and lie before
/// `end`.
pub open spec fn room_at(blocks: Seq<Block>, start: int, count: int, end: int) -> bool {
    &&& 0 <= start
    &&& start + count <= end
    &&& forall|k: int| start <= k < start + count ==> blocks[k] == Block::Free
}

/// `start` is where the first stretch of `count` free blocks before `end`
/// begins.
pub open spec fn is_first_room(blocks: Seq<Block>, start: int, count: int, end: int) -> bool {
    &&& count > 0
    &&& room_at(blocks, start, count, end)
    &&& forall|s: int| 0 <= s < start ==> !room_at(blocks, s, count, end)
}

/// Where the first stretch of `count` free blocks before `end` begins, if
/// there is one.
pub open spec fn first_room(blocks: Seq<Block>, count: int, end: int) -> Option<int> {
    if exists|start: int| is_first_room(blocks, start, count, end) {
        Some(choose|start: int| is_first_room(blocks, start, count, end))
    } else {
        None
    }
}

/// There is one first stretch at most.
pub proof fn lemma_first_room_unique(blocks: Seq<Block>, a: int, b: int, count: int, end: int)
    requires
        is_first_room(blocks, a, count, end),
        is_first_room(blocks, b, count, end),
    ensures
        a == b,
{
}

/// The blocks of a disk and where its files begin.
pub struct Placement {
    pub blocks: Seq<Block>,
    pub ptrs: Map<usize, usize>,
}

/// The placement once the file `id`, of `size` blocks, has moved into the
/// first stretch of free blocks before it that has room, if there is one.
pub open spec fn file_moved(at: Placement, id: usize, size: int) -> Placement {
    match first_room(at.blocks, size, at.ptrs[id] as int) {
        Some(room) => Placement {
            blocks: swapped(at.blocks, room, at.ptrs[id] as int, size as nat),
            ptrs: at.ptrs.insert(id, room as usize),
        },
        None => at,
    }
}

/// The placement once the first `count` files have moved, the last of them
/// first.
pub open spec fn files_moved(at: Placement, sizes: Seq<int>, count: nat) -> Placement
    decreases count,
{
    if count == 0 || count > sizes.len() {
        at
    } else {
        files_moved(
            file_moved(at, (count - 1) as usize, sizes[count - 1]),
            sizes,
            (count - 1) as nat,
        )
    }
}

impl Disk {
    /// The block at `i` is free.
    pub open spec fn free_at(&self, i: int) -> bool {
        self.blocks[i] == Block::Free
    }

    /// The block at `i` is the one that the file `id` has there, counted
    /// from the file's pointer.
    pub open spec fn holds(&self, id: usize, i: int) -> bool {
        self.blocks[i] == Block::File(id, (i - self.file_ptrs@[id]) as usize)
    }

    /// The file `id` has its own number, a pointer, and room on the disk
    /// from that pointer on.
    pub open spec fn has_room(&self, id: usize) -> bool {
        &&& self.files[id as int].id == id
        &&& self.file_ptrs@.contains_key(id)
        &&& self.file_ptrs@[id] + self.files[id as int].blocks.len() <= self.blocks.len()
    }

    /// Every file has its own number, a pointer, and its blocks on the disk
    /// from that pointer on; no pointer belongs to anything else.
    pub open spec fn wf(&self) -> bool {
        &&& forall|id: usize| #[trigger] self.file_ptrs@.contains_key(id) ==> id < self.files.len()
        &&& forall|id: usize| id < self.files.len() ==> #[trigger] self.has_room(id)
        &&& forall|id: usize, i: int|
            id < self.files.len() && self.file_ptrs@[id] <= i < self.file_ptrs@[id]
                + self.files[id as int].blocks.len() ==> #[trigger] self.holds(id, i)
    }

    pub fn new() -> (disk: Disk)
        ensures
            disk.blocks@.len() == 0,
            disk.files@.len() == 0,
            disk.file_ptrs@ == Map::<usize, usize>::empty(),
            disk.wf(),
    {
        Disk { blocks: Vec::new(), files: Vec::new(), file_ptrs: HashMap::new() }
    }

    /// Puts the blocks of `file` at the end of the disk and notes where
    /// they begin, unless a pointer for its number is there already.
    pub fn append_file(&mut self, file: File)
        ensures
            final(self).blocks@ == old(self).blocks@ + file.blocks@,
            final(self).files@ == old(self).files@.push(file),
            final(self).file_ptrs@ == (if old(self).file_ptrs@.contains_key(file.id) {
                old(self).file_ptrs@
            } else {
                old(self).file_ptrs@.insert(file.id, old(self).blocks.len())
            }),
    {
        if !self.file_ptrs.contains_key(&file.id) {
            self.file_ptrs.insert(file.id, self.blocks.len());
        }
        let mut i: usize = 0;
        while i < file.blocks.len()
            invariant
                i <= file.blocks.len(),
                self.blocks@ == old(self).blocks@ + file.blocks@.take(i as int),
                self.files == old(self).files,
                self.file_ptrs@ == (if old(self).file_ptrs@.contains_key(file.id) {
                    old(self).file_ptrs@
                } else {
                    old(self).file_ptrs@.insert(file.id, old(self).blocks.len())
                }),
            decreases file.blocks.len() - i,
        {
            self.blocks.push(file.blocks[i]);
            assert(self.blocks@ =~= old(self).blocks@ + file.blocks@.take(i + 1));
            i += 1;
        }
        assert(file.blocks@.take(i as int) =~= file.blocks@);
        self.files.push(file);
    }

    pub fn append_free(&mut self, num_blocks: usize)
        ensures
            final(self).blocks@ == old(self).blocks@ + free_blocks(num_blocks as nat),
            final(self).files == old(self).files,
            final(self).file_ptrs == old(self).file_ptrs,
    {
        let mut i: usize = 0;
        while i < num_blocks
            invariant
                i <= num_blocks,
                self.blocks@ == old(self).blocks@ + free_blocks(i as nat),
                self.files == old(self).files,
                self.file_ptrs == old(self).file_ptrs,
            decreases num_blocks - i,
        {
            self.blocks.push(Block::Free);
            assert(self.blocks@ =~= old(self).blocks@ + free_blocks((i + 1) as nat));
            i += 1;
        }
    }

    /// Lays the files and the free space of `disk_map` out on a new disk.
    pub fn from(disk_map: &DiskMap) -> (disk: Disk)
        ensures
            disk.blocks@ == layout(disk_map.entries@),
            disk.files.len() == count_files(disk_map.entries@),
            disk.wf(),
    {
        let mut disk = Self::new();
        let mut file_id_counter: usize = 0;
        let mut e: usize = 0;
        assert(disk_map.entries@.take(0) =~= Seq::<DiskMapEntry>::empty());
        assert(disk.blocks@ =~= layout(disk_map.entries@.take(0)));
        while e < disk_map.entries.len()
            invariant
                e <= disk_map.entries.len(),
                disk.blocks@ == layout(disk_map.entries@.take(e as int)),
                file_id_counter == count_files(disk_map.entries@.take(e as int)),
                disk.files.len() == file_id_counter,
                disk.wf(),
            decreases disk_map.entries.len() - e,
        {
            proof {
                assert(disk_map.entries@.take(e + 1).drop_last() =~= disk_map.entries@.take(
                    e as int,
                ));
                lemma_count_files_bound(disk_map.entries@.take(e as int));
            }
            match disk_map.entries[e] {
                DiskMapEntry::File(num_blocks) => {
                    let mut f = File { id: file_id_counter, blocks: Vec::new() };
                    let mut i: usize = 0;
                    while i < num_blocks
                        invariant
                            i <= num_blocks,
                            f.id == file_id_counter,
                            f.blocks@ == file_blocks(file_id_counter, i as nat),
                        decreases num_blocks - i,
                    {
                        f.blocks.push(Block::File(f.id, i));
                        assert(f.blocks@ =~= file_blocks(file_id_counter, (i + 1) as nat));
                        i += 1;
                    }
                    let ghost before = disk;
                    disk.append_file(f);
                    proof {
                        assert forall|id: usize| id < disk.files.len() implies #[trigger] disk.has_room(
                            id,
                        ) by {
                            if id < before.files.len() {
                                assert(before.has_room(id));
                                assert(disk.files[id as int] == before.files[id as int]);
                            }
                        }
                        assert forall|id: usize, i: int|
                            id < disk.files.len() && disk.file_ptrs@[id] <= i < disk.file_ptrs@[id]
                                + disk.files[id as int].blocks.len() implies #[trigger] disk.holds(
                            id,
                            i,
                        ) by {
                            if id < before.files.len() {
                                assert(before.has_room(id));
                                assert(disk.files[id as int] == before.files[id as int]);
                                assert(before.holds(id, i));
                            }
                        }
                    }
                    file_id_counter += 1;
                },
                DiskMapEntry::Free(num_blocks) => {
                    let ghost before = disk;
                    disk.append_free(num_blocks);
                    proof {
                        assert forall|id: usize| id < disk.files.len() implies #[trigger] disk.has_room(
                            id,
                        ) by {
                            assert(before.has_room(id));
                        }
                        assert forall|id: usize, i: int|
                            id < disk.files.len() && disk.file_ptrs@[id] <= i < disk.file_ptrs@[id]
                                + disk.files[id as int].blocks.len() implies #[trigger] disk.holds(
                            id,
                            i,
                        ) by {
                            assert(before.has_room(id));
                            assert(before.holds(id, i));
                        }
                    }
                },
            }
            e += 1;
        }
        assert(disk_map.entries@.take(e as int) =~= disk_map.entries@);
        disk
    }

    /// The first free block at or after `starting_block`.
    pub fn find_first_free(&self, starting_block: usize) -> (found: Option<usize>)
        requires
            starting_block < self.blocks.len(),
        ensures
            match found {
                Some(i) => {
                    &&& starting_block <= i < self.blocks.len()
                    &&& self.free_at(i as int)
                    &&& forall|j: int| starting_block <= j < i ==> !self.free_at(j)
                },
                None => forall|j: int| starting_block <= j < self.blocks.len() ==> !self.free_at(j),
            },
    {
        let mut i: usize = starting_block;
        while i < self.blocks.len()
            invariant
                starting_block <= i <= self.blocks.len(),
                forall|j: int| starting_block <= j < i ==> !self.free_at(j),
            decreases self.blocks.len() - i,
        {
            match self.blocks[i] {
                Block::Free => return Some(i),
                _ => {},
            }
            i += 1;
        }
        None
    }

    /// Where the first stretch of `num_blocks` free blocks before
    /// `ending_at` begins. There is none of no blocks.
    pub fn find_first_contiguous_free(&self, num_blocks: usize, ending_at: usize) -> (found:
        Option<usize>)
        requires
            ending_at <= self.blocks.len(),
        ensures
            match found {
                Some(start) => is_first_room(
                    self.blocks@,
                    start as int,
                    num_blocks as int,
                    ending_at as int,
                ),
                None => forall|s: int|
                    !is_first_room(self.blocks@, s, num_blocks as int, ending_at as int),
            },
    {
        let ghost blocks = self.blocks@;
        let ghost n = num_blocks as int;
        let ghost end = ending_at as int;
        let mut free_count: usize = 0;
        let mut range_start: usize = 0;
        let mut i: usize = 0;
        while i < ending_at
            invariant
                i <= ending_at <= self.blocks.len(),
                blocks == self.blocks@,
                n == num_blocks,
                end == ending_at,
                range_start + free_count == i,
                forall|k: int| range_start <= k < i ==> blocks[k] == Block::Free,
                range_start > 0 ==> blocks[range_start - 1] != Block::Free,
                num_blocks > 0 ==> free_count < num_blocks,
                num_blocks > 0 ==> forall|s: int| 0 <= s < range_start ==> !room_at(blocks, s, n, end),
            decreases ending_at - i,
        {
            match self.blocks[i] {
                Block::Free => {
                    free_count += 1;
                    if free_count == num_blocks {
                        return Some(range_start);
                    }
                },
                _ => {
                    proof {
                        if num_blocks > 0 {
                            assert forall|s: int| 0 <= s < i + 1 implies !room_at(
                                blocks,
                                s,
                                n,
                                end,
                            ) by {
                                if s >= range_start && room_at(blocks, s, n, end) {
                                    assert(blocks[i as int] == Block::Free);
                                }
                            }
                        }
                    }
                    range_start = i + 1;
                    free_count = 0;
                },
            }
            i += 1;
        }
        proof {
            assert forall|s: int| !is_first_room(blocks, s, n, end) by {
                if num_blocks > 0 && s >= range_start && room_at(blocks, s, n, end) {
                }
            }
        }
        None
    }

    /// The last block of a file before `end_block`.
    pub fn find_last_data(&self, end_block: usize) -> (found: Option<usize>)
        requires
            0 < end_block <= self.blocks.len(),
        ensures
            match found {
                Some(i) => {
                    &&& i < end_block
                    &&& !self.free_at(i as int)
                    &&& forall|j: int| i < j < end_block ==> self.free_at(j)
                },
                None => forall|j: int| 0 <= j < end_block ==> self.free_at(j),
            },
    {
        let mut i: usize = end_block;
        while i > 0
            invariant
                i <= end_block <= self.blocks.len(),
                forall|j: int| i <= j < end_block ==> self.free_at(j),
            decreases i,
        {
            i -= 1;
            match self.blocks[i] {
                Block::File(_, _) => return Some(i),
                _ => {},
            }
        }
        None
    }

    pub fn checksum(&self) -> (sum: usize)
        requires
            checksum_of(self.blocks@) <= usize::MAX,
        ensures
            sum == checksum_of(self.blocks@),
    {
        let mut result: usize = 0;
        let mut idx: usize = 0;
        assert(self.blocks@.take(0) =~= Seq::<Block>::empty());
        while idx < self.blocks.len()
            invariant
                idx <= self.blocks.len(),
                checksum_of(self.blocks@) <= usize::MAX,
                result == checksum_of(self.blocks@.take(idx as int)),
            decreases self.blocks.len() - idx,
        {
            proof {
                assert(self.blocks@.take(idx + 1).drop_last() =~= self.blocks@.take(idx as int));
                lemma_checksum_grows(self.blocks@, idx + 1);
            }
            match self.blocks[idx] {
                Block::File(file_id, _block_id) => {
                    assert(checksum_of(self.blocks@.take(idx + 1)) == result + idx * file_id);
                    assert(idx * file_id <= usize::MAX) by (nonlinear_arith)
                        requires
                            result + idx * file_id <= usize::MAX,
                            result >= 0,
                    ;
                    result += idx * file_id;
                },
                Block::Free => {},
            }
            idx += 1;
        }
        assert(self.blocks@.take(idx as int) =~= self.blocks@);
        result
    }

    pub fn swap_blocks(&mut self, idx_a: usize, idx_b: usize)
        requires
            idx_a < old(self).blocks.len(),
            idx_b < old(self).blocks.len(),
        ensures
            final(self).blocks@ == old(self).blocks@.update(
                idx_a as int,
                old(self).blocks[idx_b as int],
            ).update(idx_b as int, old(self).blocks[idx_a as int]),
            final(self).files == old(self).files,
            final(self).file_ptrs == old(self).file_ptrs,
    {
        let a = self.blocks[idx_a];
        let b = self.blocks[idx_b];
        self.blocks.set(idx_a, b);
        self.blocks.set(idx_b, a);
    }

    /// Lets the blocks of the file `file_id` change places with the blocks
    /// from `new_idx` on, and points the file there.
    pub fn mv_file(&mut self, file_id: usize, new_idx: usize)
        requires
            file_id < old(self).files.len(),
            old(self).file_ptrs@.contains_key(file_id),
            new_idx + old(self).files[file_id as int].blocks.len() <= old(self).blocks.len(),
            old(self).file_ptrs@[file_id] + old(self).files[file_id as int].blocks.len() <= old(self).blocks.len(),
        ensures
            final(self).blocks@ == swapped(
                old(self).blocks@,
                new_idx as int,
                old(self).file_ptrs@[file_id] as int,
                old(self).files[file_id as int].blocks.len() as nat,
            ),
            final(self).files == old(self).files,
            final(self).file_ptrs@ == old(self).file_ptrs@.insert(file_id, new_idx),
    {
        let current_file_idx: usize = match self.file_ptrs.get(&file_id) {
            Some(ptr) => *ptr,
            None => 0,
        };
        let num_blocks = self.files[file_id].blocks.len();
        let mut offset: usize = 0;
        while offset < num_blocks
            invariant
                offset <= num_blocks,
                new_idx + num_blocks <= self.blocks.len(),
                current_file_idx + num_blocks <= self.blocks.len(),
                self.blocks.len() == old(self).blocks.len(),
                self.blocks@ == swapped(
                    old(self).blocks@,
                    new_idx as int,
                    current_file_idx as int,
                    offset as nat,
                ),
                self.files == old(self).files,
                self.file_ptrs == old(self).file_ptrs,
            decreases num_blocks - offset,
        {
            self.swap_blocks(new_idx + offset, current_file_idx + offset);
            offset += 1;
        }
        self.file_ptrs.insert(file_id, new_idx);
    }
}


/// The blocks of files moved, the last first, into the free blocks, the
/// first first: a block of a file at the front stays, a free block at the
/// end stays, and where a free block is at the front and a block of a file
/// at the end, the two change places.
pub open spec fn compact(blocks: Seq<Block>) -> Seq<Block>
    decreases blocks.len(),
{
    if blocks.len() == 0 {
        blocks
    } else if blocks.first() != Block::Free {
        seq![blocks.first()] + compact(blocks.drop_first())
    } else if blocks.last() == Block::Free {
        compact(blocks.drop_last()) + seq![Block::Free]
    } else {
        seq![blocks.last()] + compact(blocks.subrange(1, blocks.len() - 1)) + seq![Block::Free]
    }
}

/// A free block at the end stays where it is.
pub proof fn lemma_compact_free_end(blocks: Seq<Block>)
    ensures
        compact(blocks.push(Block::Free)) == compact(blocks) + seq![Block::Free],
    decreases blocks.len(),
{
    let longer = blocks.push(Block::Free);
    assert(longer.drop_last() =~= blocks);
    if blocks.len() > 0 && blocks.first() != Block::Free {
        lemma_compact_free_end(blocks.drop_first());
        assert(longer.drop_first() =~= blocks.drop_first().push(Block::Free));
        assert(compact(longer) =~= compact(blocks) + seq![Block::Free]);
    }
}

/// Blocks of files at the front stay where they are.
pub proof fn lemma_compact_files_front(blocks: Seq<Block>, count: int)
    requires
        0 <= count <= blocks.len(),
        forall|i: int| 0 <= i < count ==> blocks[i] != Block::Free,
    ensures
        compact(blocks) == blocks.take(count) + compact(blocks.skip(count)),
    decreases count,
{
    if count == 0 {
        assert(blocks.skip(0) =~= blocks);
        assert(blocks.take(0) + compact(blocks) =~= compact(blocks));
    } else {
        let rest = blocks.drop_first();
        assert forall|i: int| 0 <= i < count - 1 implies rest[i] != Block::Free by {
            assert(rest[i] == blocks[i + 1]);
        }
        lemma_compact_files_front(rest, count - 1);
        assert(rest.skip(count - 1) =~= blocks.skip(count));
        assert(seq![blocks.first()] + rest.take(count - 1) =~= blocks.take(count));
        assert(compact(blocks) =~= blocks.take(count) + compact(blocks.skip(count)));
    }
}

/// Free blocks at the end stay where they are.
pub proof fn lemma_compact_free_back(blocks: Seq<Block>, count: int)
    requires
        0 <= count <= blocks.len(),
        forall|i: int| blocks.len() - count <= i < blocks.len() ==> blocks[i] == Block::Free,
    ensures
        compact(blocks) == compact(blocks.take(blocks.len() - count)) + blocks.skip(
            blocks.len() - count,
        ),
    decreases count,
{
    let n = blocks.len() as int;
    if count == 0 {
        assert(blocks.take(n) =~= blocks);
        assert(compact(blocks) + blocks.skip(n) =~= compact(blocks));
    } else {
        let shorter = blocks.drop_last();
        assert(blocks =~= shorter.push(Block::Free));
        lemma_compact_free_end(shorter);
        lemma_compact_free_back(shorter, count - 1);
        assert(shorter.take(n - 1 - (count - 1)) =~= blocks.take(n - count));
        assert(shorter.skip(n - 1 - (count - 1)) + seq![Block::Free] =~= blocks.skip(n - count));
        assert(compact(blocks) =~= compact(blocks.take(n - count)) + blocks.skip(n - count));
    }
}

/// One exchange of the first free block with the last block of a file
/// brings the disk nearer to its compact form: what lies before the new
/// first free block and behind the new last block of a file is in place.
pub proof fn lemma_compact_step(
    target: Seq<Block>,
    b: Seq<Block>,
    f: int,
    d: int,
    b2: Seq<Block>,
    f2: int,
    d2: int,
)
    requires
        0 <= f < d < b.len(),
        b[f] == Block::Free,
        b[d] != Block::Free,
        target == b.take(f) + compact(b.subrange(f, d + 1)) + b.skip(d + 1),
        b2 == b.update(f, b[d]).update(d, b[f]),
        f < f2 <= d,
        f <= d2 < d,
        forall|i: int| f < i < f2 ==> b2[i] != Block::Free,
        forall|i: int| d2 < i < d ==> b2[i] == Block::Free,
    ensures
        f2 <= d2 + 1,
        target == b2.take(f2) + compact(b2.subrange(f2, d2 + 1)) + b2.skip(d2 + 1),
{
    if f2 > d2 + 1 {
        assert(b2[d2 + 1] != Block::Free);
        assert(b2[d2 + 1] == Block::Free);
    }
    let m = b.subrange(f, d + 1);
    let x = b2.subrange(f + 1, d);
    assert(m.subrange(1, m.len() - 1) =~= x);
    assert(compact(m) == seq![b[d]] + compact(x) + seq![Block::Free]);
    let k1 = f2 - (f + 1);
    assert forall|i: int| 0 <= i < k1 implies x[i] != Block::Free by {
        assert(x[i] == b2[f + 1 + i]);
    }
    lemma_compact_files_front(x, k1);
    let y = x.skip(k1);
    let k2 = d - 1 - d2;
    assert forall|i: int| y.len() - k2 <= i < y.len() implies y[i] == Block::Free by {
        assert(y[i] == b2[f2 + i]);
    }
    lemma_compact_free_back(y, k2);
    assert(y.take(y.len() - k2) =~= b2.subrange(f2, d2 + 1));
    assert(y.skip(y.len() - k2) =~= b2.subrange(d2 + 1, d));
    assert(x.take(k1) =~= b2.subrange(f + 1, f2));
    assert(b2.take(f2) =~= b.take(f) + seq![b[d]] + b2.subrange(f + 1, f2));
    assert(b2.skip(d2 + 1) =~= b2.subrange(d2 + 1, d) + seq![Block::Free] + b.skip(d + 1));
    assert(target =~= b2.take(f2) + compact(b2.subrange(f2, d2 + 1)) + b2.skip(d2 + 1));
}

impl Disk {
    /// Moves blocks of files, the last first, into the free blocks, the
    /// first first, until no free block comes before a block of a file.
    pub fn compress(&mut self)
        ensures
            final(self).blocks@ == compact(old(self).blocks@),
            final(self).blocks@.len() == old(self).blocks@.len(),
            final(self).blocks@.to_multiset() == old(self).blocks@.to_multiset(),
            forall|i: int, j: int|
                0 <= i < j < final(self).blocks.len() && final(self).free_at(i) ==> final(self).free_at(j),
            final(self).files == old(self).files,
            final(self).file_ptrs == old(self).file_ptrs,
    {
        let ghost target = compact(self.blocks@);
        if self.blocks.len() == 0 {
            return;
        }
        let first_free = self.find_first_free(0);
        let last_data = self.find_last_data(self.blocks.len());
        match (first_free, last_data) {
            (Some(free), Some(data)) => {
                let mut free_ptr = free;
                let mut data_ptr = data;
                proof {
                    let n = self.blocks@.len() as int;
                    let whole = self.blocks@;
                    assert forall|i: int| 0 <= i < free implies whole[i] != Block::Free by {
                        assert(!self.free_at(i));
                    }
                    lemma_compact_files_front(whole, free as int);
                    let rest = whole.skip(free as int);
                    if free <= data {
                        assert forall|i: int|
                            rest.len() - (n - 1 - data) <= i < rest.len() implies rest[i]
                            == Block::Free by {
                            assert(self.free_at(free + i));
                        }
                        lemma_compact_free_back(rest, n - 1 - data);
                        assert(rest.take(rest.len() - (n - 1 - data)) =~= whole.subrange(
                            free as int,
                            data + 1,
                        ));
                        assert(rest.skip(rest.len() - (n - 1 - data)) =~= whole.skip(data + 1));
                    } else {
                        assert forall|i: int| 0 <= i < rest.len() implies rest[i]
                            == Block::Free by {
                            assert(self.free_at(free + i));
                        }
                        lemma_compact_free_back(rest, rest.len() as int);
                        assert(rest.take(0) =~= Seq::<Block>::empty());
                        assert(rest.skip(0) =~= rest);
                        assert(target =~= whole);
                    }
                }
                while free_ptr < data_ptr
                    invariant
                        self.blocks.len() == old(self).blocks.len(),
                        self.blocks@.to_multiset() == old(self).blocks@.to_multiset(),
                        self.files == old(self).files,
                        self.file_ptrs == old(self).file_ptrs,
                        target == compact(old(self).blocks@),
                        free_ptr < self.blocks.len(),
                        data_ptr < self.blocks.len(),
                        self.free_at(free_ptr as int),
                        !self.free_at(data_ptr as int),
                        forall|j: int| 0 <= j < free_ptr ==> !self.free_at(j),
                        forall|j: int| data_ptr < j < self.blocks.len() ==> self.free_at(j),
                        free_ptr < data_ptr ==> target == self.blocks@.take(free_ptr as int)
                            + compact(self.blocks@.subrange(free_ptr as int, data_ptr + 1))
                            + self.blocks@.skip(data_ptr + 1),
                        free_ptr >= data_ptr ==> target == self.blocks@,
                    decreases data_ptr,
                {
                    proof {
                        lemma_swap_keeps_multiset(self.blocks@, free_ptr as int, data_ptr as int);
                    }
                    let ghost before = *self;
                    self.swap_blocks(free_ptr, data_ptr);
                    proof {
                        assert forall|j: int| 0 <= j <= free_ptr implies !self.free_at(j) by {
                            if j < free_ptr {
                                assert(!before.free_at(j));
                            }
                        }
                        assert forall|j: int| data_ptr <= j < self.blocks.len() implies self.free_at(
                            j,
                        ) by {
                            if j > data_ptr {
                                assert(before.free_at(j));
                            }
                        }
                    }
                    let next_free = self.find_first_free(free_ptr + 1);
                    let next_data = self.find_last_data(data_ptr);
                    match (next_free, next_data) {
                        (Some(next_free), Some(next_data)) => {
                            proof {
                                assert forall|i: int| free_ptr < i < next_free implies self.blocks@[i]
                                    != Block::Free by {
                                    assert(!self.free_at(i));
                                }
                                assert forall|i: int| next_data < i < data_ptr implies self.blocks@[i]
                                    == Block::Free by {
                                    assert(self.free_at(i));
                                }
                                assert(self.free_at(data_ptr as int));
                                assert(!self.free_at(free_ptr as int));
                                lemma_compact_step(
                                    target,
                                    before.blocks@,
                                    free_ptr as int,
                                    data_ptr as int,
                                    self.blocks@,
                                    next_free as int,
                                    next_data as int,
                                );
                                if next_free > next_data {
                                    assert(self.blocks@.subrange(
                                        next_free as int,
                                        next_data + 1,
                                    ) =~= Seq::<Block>::empty());
                                    assert(self.blocks@.take(next_free as int) + self.blocks@.skip(
                                        next_free as int,
                                    ) =~= self.blocks@);
                                }
                            }
                            free_ptr = next_free;
                            data_ptr = next_data;
                        },
                        _ => {
                            assert(self.free_at(data_ptr as int));
                            assert(!self.free_at(free_ptr as int));
                            return;
                        },
                    }
                }
            },
            (None, _) => {
                proof {
                    let whole = self.blocks@;
                    assert forall|i: int| 0 <= i < whole.len() implies whole[i] != Block::Free by {
                        assert(!self.free_at(i));
                    }
                    lemma_compact_files_front(whole, whole.len() as int);
                    assert(whole.take(whole.len() as int) =~= whole);
                    assert(whole.skip(whole.len() as int) =~= Seq::<Block>::empty());
                    assert(target =~= whole);
                }
            },
            (_, None) => {
                proof {
                    let whole = self.blocks@;
                    assert forall|i: int| 0 <= i < whole.len() implies whole[i] == Block::Free by {
                        assert(self.free_at(i));
                    }
                    lemma_compact_free_back(whole, whole.len() as int);
                    assert(whole.take(0) =~= Seq::<Block>::empty());
                    assert(whole.skip(0) =~= whole);
                    assert(target =~= whole);
                }
            },
        }
    }

    /// Moves each file, the last first, as a whole into the first stretch of
    /// free blocks before it that has room for it, if there is one.
    pub fn compress_no_frag(&mut self)
        requires
            old(self).wf(),
        ensures
            (Placement { blocks: final(self).blocks@, ptrs: final(self).file_ptrs@ })
                == files_moved(
                Placement { blocks: old(self).blocks@, ptrs: old(self).file_ptrs@ },
                old(self).sizes(),
                old(self).files.len() as nat,
            ),
            final(self).wf(),
            final(self).blocks@.len() == old(self).blocks@.len(),
            final(self).blocks@.to_multiset() == old(self).blocks@.to_multiset(),
            final(self).files == old(self).files,
            forall|id: usize|
                id < old(self).files.len() ==> #[trigger] final(self).file_ptrs@[id] <= old(self).file_ptrs@[id],
    {
        let ghost sizes = self.sizes();
        let mut i: usize = self.files.len();
        while i > 0
            invariant
                i <= self.files.len(),
                sizes == self.sizes(),
                sizes == old(self).sizes(),
                files_moved(
                    Placement { blocks: self.blocks@, ptrs: self.file_ptrs@ },
                    sizes,
                    i as nat,
                ) == files_moved(
                    Placement { blocks: old(self).blocks@, ptrs: old(self).file_ptrs@ },
                    sizes,
                    old(self).files.len() as nat,
                ),
                self.wf(),
                self.blocks@.len() == old(self).blocks@.len(),
                self.blocks@.to_multiset() == old(self).blocks@.to_multiset(),
                self.files == old(self).files,
                forall|id: usize|
                    id < old(self).files.len() ==> #[trigger] self.file_ptrs@[id] <= old(self).file_ptrs@[id],
            decreases i,
        {
            i -= 1;
            assert(self.has_room(i));
            let size = self.files[i].blocks.len();
            let file_id = self.files[i].id;
            let at: usize = match self.file_ptrs.get(&file_id) {
                Some(ptr) => *ptr,
                None => 0,
            };
            let free_at = self.find_first_contiguous_free(size, at);
            proof {
                let blocks = self.blocks@;
                match free_at {
                    Some(room) => {
                        let chosen = choose|start: int|
                            is_first_room(blocks, start, size as int, at as int);
                        lemma_first_room_unique(blocks, room as int, chosen, size as int, at as int);
                    },
                    None => {},
                }
                assert(sizes[i as int] == size);
            }
            match free_at {
                Some(free_at) => {
                    let ghost before = *self;
                    proof {
                        lemma_swapped_apart(
                            self.blocks@,
                            free_at as int,
                            at as int,
                            size as nat,
                        );
                    }
                    self.mv_file(file_id, free_at);
                    proof {
                        assert forall|id: usize| id < self.files.len() implies #[trigger] self.has_room(
                            id,
                        ) by {
                            assert(before.has_room(id));
                        }
                        assert forall|id: usize, p: int|
                            id < self.files.len() && self.file_ptrs@[id] <= p < self.file_ptrs@[id]
                                + self.files[id as int].blocks.len() implies #[trigger] self.holds(
                            id,
                            p,
                        ) by {
                            assert(before.has_room(id));
                            if id == file_id {
                                assert(before.holds(id, p - free_at + at));
                            } else {
                                assert(before.holds(id, p));
                                if free_at <= p < free_at + size {
                                    assert(before.free_at(p));
                                }
                                if at <= p < at + size {
                                    assert(before.holds(file_id, p));
                                }
                            }
                        }
                    }
                },
                None => {},
            }
        }
    }
}

/// The checksum of the disk described in `input` once its blocks were
/// moved one by one; `None` where the text is no disk map or the checksum is
/// no machine integer.
pub fn _solution1(input: &String) -> (answer: Option<usize>)
    ensures
        match disk_map_of(bytes_of(input@)) {
            None => answer.is_none(),
            Some(entries) => match answer {
                Some(sum) => sum == checksum_of(compact(layout(entries))),
                None => checksum_of(compact(layout(entries))) > usize::MAX,
            },
        },
{
    match DiskMap::from(input) {
        None => None,
        Some(disk_map) => {
            let mut disk = Disk::from(&disk_map);
            disk.compress();
            disk.checked_checksum()
        },
    }
}

/// The checksum of the disk described in `input` once its files were moved
/// as wholes; `None` where the text is no disk map or the checksum is no
/// machine integer.
pub fn _solution2(input: &String) -> (answer: Option<usize>)
    ensures
        disk_map_of(bytes_of(input@)).is_none() ==> answer.is_none(),
        disk_map_of(bytes_of(input@)).is_some() ==> exists|placed: Disk|
            {
                &&& #[trigger] placed.wf()
                &&& placed.blocks@ == layout(disk_map_of(bytes_of(input@)).unwrap())
                &&& match answer {
                    Some(sum) => sum == checksum_of(
                        files_moved(
                            Placement { blocks: placed.blocks@, ptrs: placed.file_ptrs@ },
                            placed.sizes(),
                            placed.files.len() as nat,
                        ).blocks,
                    ),
                    None => checksum_of(
                        files_moved(
                            Placement { blocks: placed.blocks@, ptrs: placed.file_ptrs@ },
                            placed.sizes(),
                            placed.files.len() as nat,
                        ).blocks,
                    ) > usize::MAX,
                }
            },
{
    match DiskMap::from(input) {
        None => None,
        Some(disk_map) => {
            let mut disk = Disk::from(&disk_map);
            let ghost placed = disk;
            disk.compress_no_frag();
            let answer = disk.checked_checksum();
            proof {
                assert(placed.wf());
            }
            answer
        },
    }
}

impl Disk {
    /// How many blocks each file has.
    pub open spec fn sizes(&self) -> Seq<int> {
        Seq::new(self.files.len() as nat, |i: int| self.files[i].blocks.len() as int)
    }

    /// The checksum, where it is a machine integer.
    pub fn checked_checksum(&self) -> (sum: Option<usize>)
        ensures
            match sum {
                Some(v) => v == checksum_of(self.blocks@),
                None => checksum_of(self.blocks@) > usize::MAX,
            },
    {
        let mut result: usize = 0;
        let mut idx: usize = 0;
        assert(self.blocks@.take(0) =~= Seq::<Block>::empty());
        while idx < self.blocks.len()
            invariant
                idx <= self.blocks.len(),
                result == checksum_of(self.blocks@.take(idx as int)),
            decreases self.blocks.len() - idx,
        {
            proof {
                assert(self.blocks@.take(idx + 1).drop_last() =~= self.blocks@.take(idx as int));
                lemma_checksum_grows(self.blocks@, idx + 1);
            }
            match self.blocks[idx] {
                Block::File(file_id, _block_id) => {
                    match idx.checked_mul(file_id) {
                        None => return None,
                        Some(product) => match result.checked_add(product) {
                            None => return None,
                            Some(sum) => {
                                result = sum;
                            },
                        },
                    }
                },
                Block::Free => {},
            }
            idx += 1;
        }
        assert(self.blocks@.take(idx as int) =~= self.blocks@);
        Some(result)
    }
}

} // verus!
