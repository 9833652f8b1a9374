//! Day 9: a disk map of files and free space. Part one moves file blocks
//! from the end of the disk into the free space at its beginning, one
//! block at a time; part two moves whole files. The answer is the checksum
//! of the disk afterwards.

use crate::solution::{Answer, Part, Solution, SolvedValue};
use crate::text::chars_of;
use std::collections::VecDeque;
use vstd::prelude::*;

verus! {

/// A digit's value, or `None` for another character.
pub open spec fn digit_of(c: char) -> Option<usize> {
    if 0x30 <= c as u32 <= 0x39 {
        Some((c as u32 - 0x30) as usize)
    } else {
        None
    }
}

/// The sizes that a disk map holds: the digits at even places are the
/// sizes of the files, those at odd places the sizes of the free space
/// after each file.
pub struct DiskMap {
    pub size: usize,
    pub used: Seq<usize>,
    pub available: Seq<usize>,
}

/// The disk map of the characters from `i` on, added to `acc`; `None`
/// where a character is no digit or the size of the disk does not fit the
/// machine word.
pub open spec fn disk_map_from(input: Seq<char>, i: int, acc: DiskMap) -> Option<DiskMap>
    decreases input.len() - i,
{
    if i < 0 || i >= input.len() {
        Some(acc)
    } else {
        match digit_of(input[i]) {
            Some(d) => match acc.size.checked_add(d) {
                Some(size) => disk_map_from(
                    input,
                    i + 1,
                    if i % 2 == 0 {
                        DiskMap { size, used: acc.used.push(d), ..acc }
                    } else {
                        DiskMap { size, available: acc.available.push(d), ..acc }
                    },
                ),
                None => None,
            },
            None => None,
        }
    }
}

/// The disk map that a puzzle text holds.
pub open spec fn parse_disk_map(input: Seq<char>) -> Option<DiskMap> {
    disk_map_from(input, 0, DiskMap { size: 0, used: Seq::empty(), available: Seq::empty() })
}

/// Reads a disk map: the size of the disk, the sizes of the files, and the
/// sizes of the free space between them.
pub fn parse_input(input: &Vec<char>) -> (r: Option<(usize, Vec<usize>, Vec<usize>)>)
    ensures
        match r {
            Some((size, used, available)) => parse_disk_map(input@) == Some(
                DiskMap { size, used: used@, available: available@ },
            ),
            None => parse_disk_map(input@) is None,
        },
{
    let mut used: Vec<usize> = Vec::new();
    let mut available: Vec<usize> = Vec::new();
    let mut size: usize = 0;
    let mut i: usize = 0;
    while i < input.len()
        invariant
            i <= input.len(),
            parse_disk_map(input@) == disk_map_from(
                input@,
                i as int,
                DiskMap { size, used: used@, available: available@ },
            ),
        decreases input.len() - i,
    {
        let n = input[i] as u32;
        if n < 0x30 || n > 0x39 {
            return None;
        }
        let d = (n - 0x30) as usize;
        size = match size.checked_add(d) {
            Some(size) => size,
            None => {
                return None;
            },
        };
        if i % 2 == 0 {
            used.push(d);
        } else {
            available.push(d);
        }
        i += 1;
    }
    Some((size, used, available))
}

/// The sum of the positions of a run of blocks, times the number of their
/// file: `id * (size * (size - 1) / 2 + pos * size)` for a run of `size`
/// blocks from position `pos`. `None` where a step of the sum does not fit
/// the machine word.
pub open spec fn run_sum(id: usize, size: usize, pos: usize) -> Option<usize> {
    let less = if size > 1 {
        (size - 1) as usize
    } else {
        0
    };
    match (pos.checked_mul(size), size.checked_mul(less)) {
        (Some(base), Some(twice)) => match (twice / 2).checked_add(base) {
            Some(span) => id.checked_mul(span),
            None => None,
        },
        _ => None,
    }
}

fn sum_run(id: usize, size: usize, pos: usize) -> (r: Option<usize>)
    ensures
        r == run_sum(id, size, pos),
{
    let less = if size > 1 {
        size - 1
    } else {
        0
    };
    match (pos.checked_mul(size), size.checked_mul(less)) {
        (Some(base), Some(twice)) => match (twice / 2).checked_add(base) {
            Some(span) => id.checked_mul(span),
            None => None,
        },
        _ => None,
    }
}

/// The checksum of the runs from `i` on, the first of them at position
/// `pos`, added to `acc`.
pub open spec fn layout_sum(layout: Seq<(usize, usize)>, i: int, pos: usize, acc: usize) -> Option<
    usize,
>
    decreases layout.len() - i,
{
    if i < 0 || i >= layout.len() {
        Some(acc)
    } else {
        match (run_sum(layout[i].0, layout[i].1, pos), pos.checked_add(layout[i].1)) {
            (Some(sum), Some(next)) => match acc.checked_add(sum) {
                Some(more) => layout_sum(layout, i + 1, next, more),
                None => None,
            },
            _ => None,
        }
    }
}

/// The files that are left and the layout, after the free space `avail`
/// was filled with blocks from the last files.
pub open spec fn fill(queue: Seq<(usize, usize)>, avail: usize, layout: Seq<(usize, usize)>) -> (
    Seq<(usize, usize)>,
    Seq<(usize, usize)>,
)
    decreases queue.len(),
{
    if queue.len() == 0 || avail == 0 {
        (queue, layout)
    } else {
        let (id, size) = queue.last();
        if size <= avail {
            fill(queue.drop_last(), (avail - size) as usize, layout.push((id, size)))
        } else {
            (queue.drop_last().push((id, (size - avail) as usize)), layout.push((id, avail)))
        }
    }
}

/// Filling leaves no more files than there were.
pub proof fn lemma_fill(queue: Seq<(usize, usize)>, avail: usize, layout: Seq<(usize, usize)>)
    ensures
        fill(queue, avail, layout).0.len() <= queue.len(),
    decreases queue.len(),
{
    if queue.len() > 0 && avail > 0 && queue.last().1 <= avail {
        lemma_fill(queue.drop_last(), (avail - queue.last().1) as usize, layout.push(queue.last()));
    }
}

/// The layout of the disk after compaction: in turn the first file that is
/// left, then blocks of the last files until the free space after it is
/// full. A run is the number of a file and a count of blocks.
pub open spec fn compacted(
    queue: Seq<(usize, usize)>,
    available: Seq<usize>,
    k: int,
    layout: Seq<(usize, usize)>,
) -> Seq<(usize, usize)>
    decreases queue.len(),
{
    if queue.len() == 0 {
        layout
    } else {
        let first = layout.push(queue[0]);
        let rest = queue.subrange(1, queue.len() as int);
        if 0 <= k < available.len() {
            let (left, filled) = fill(rest, available[k], first);
            if left.len() > rest.len() {
                filled
            } else {
                compacted(left, available, k + 1, filled)
            }
        } else {
            compacted(rest, available, k, first)
        }
    }
}

/// The files with their numbers: the place of each in the list.
pub open spec fn numbered(used: Seq<usize>) -> Seq<(usize, usize)> {
    Seq::new(used.len(), |i: int| (i as usize, used[i]))
}

/// The checksum of the disk after its blocks were moved one by one.
pub open spec fn chunked_sum(used: Seq<usize>, available: Seq<usize>) -> Option<usize> {
    layout_sum(compacted(numbered(used), available, 0, Seq::empty()), 0, 0, 0)
}

fn checksum(layout: &Vec<(usize, usize)>) -> (r: Option<usize>)
    ensures
        r == layout_sum(layout@, 0, 0, 0),
{
    let mut result: usize = 0;
    let mut pos: usize = 0;
    let mut i: usize = 0;
    while i < layout.len()
        invariant
            i <= layout.len(),
            layout_sum(layout@, 0, 0, 0) == layout_sum(layout@, i as int, pos, result),
        decreases layout.len() - i,
    {
        let (id, size) = layout[i];
        match (sum_run(id, size, pos), pos.checked_add(size)) {
            (Some(sum), Some(next)) => match result.checked_add(sum) {
                Some(more) => {
                    result = more;
                    pos = next;
                },
                None => {
                    return None;
                },
            },
            _ => {
                return None;
            },
        }
        i += 1;
    }
    Some(result)
}

/// The checksum of the disk after its blocks were moved one by one from
/// the end into the free space.
#[verifier::loop_isolation(false)]
pub fn marge_chunked(used: &Vec<usize>, available: &Vec<usize>) -> (r: Option<usize>)
    ensures
        r == chunked_sum(used@, available@),
{
    let mut used_blocks: VecDeque<(usize, usize)> = VecDeque::new();
    let mut i: usize = 0;
    while i < used.len()
        invariant
            i <= used.len(),
            used_blocks@.len() == i,
            forall|k: int| 0 <= k < i ==> used_blocks@[k] == (k as usize, used@[k]),
        decreases used.len() - i,
    {
        used_blocks.push_back((i, used[i]));
        i += 1;
    }
    assert(used_blocks@ =~= numbered(used@));
    let mut layout: Vec<(usize, usize)> = Vec::new();
    let mut k: usize = 0;
    let ghost goal = compacted(numbered(used@), available@, 0, Seq::empty());
    while used_blocks.len() > 0
        invariant
            k <= available.len(),
            goal == compacted(used_blocks@, available@, k as int, layout@),
        decreases used_blocks@.len(),
    {
        let ghost before = used_blocks@;
        let first = used_blocks.pop_front().unwrap();
        layout.push(first);
        if k < available.len() {
            let mut avail = available[k];
            let ghost rest = used_blocks@;
            let ghost start = layout@;
            proof {
                lemma_fill(rest, avail, start);
            }
            while used_blocks.len() > 0 && avail > 0
                invariant
                    fill(rest, available@[k as int], start) == fill(used_blocks@, avail, layout@),
                    used_blocks@.len() <= rest.len(),
                decreases used_blocks@.len() + (if avail > 0 { 1int } else { 0int }),
            {
                let ghost queue = used_blocks@;
                let (id, size) = used_blocks.pop_back().unwrap();
                assert(used_blocks@ =~= queue.drop_last());
                if size <= avail {
                    avail -= size;
                    layout.push((id, size));
                } else {
                    layout.push((id, avail));
                    used_blocks.push_back((id, size - avail));
                    avail = 0;
                }
            }
            k += 1;
        }
    }
    checksum(&layout)
}

/// A stretch of the disk: blocks of the file with a number, or free space.
#[derive(Debug, Clone, Copy, PartialEq, Eq, Structural)]
pub enum Block {
    Used(usize, usize),
    Free(usize),
}

impl Block {
    /// The number of blocks of the stretch.
    pub fn size(&self) -> (r: usize)
        ensures
            r == self.spec_size(),
    {
        match self {
            Self::Free(size) => *size,
            Self::Used(_, size) => *size,
        }
    }

    pub open spec fn spec_size(&self) -> usize {
        match self {
            Self::Free(size) => *size,
            Self::Used(_, size) => *size,
        }
    }

    /// The number of free blocks of the stretch.
    pub fn free_size(&self) -> (r: usize)
        ensures
            r == self.spec_free_size(),
    {
        match self {
            Self::Free(size) => *size,
            Self::Used(..) => 0,
        }
    }

    pub open spec fn spec_free_size(&self) -> usize {
        match self {
            Self::Free(size) => *size,
            Self::Used(..) => 0,
        }
    }

    /// The number of the file, if the stretch belongs to one.
    pub fn id(&self) -> (r: Option<usize>)
        ensures
            r == self.spec_id(),
    {
        match self {
            Self::Free(_) => None,
            Self::Used(id, _) => Some(*id),
        }
    }

    pub open spec fn spec_id(&self) -> Option<usize> {
        match self {
            Self::Free(_) => None,
            Self::Used(id, _) => Some(*id),
        }
    }
}

/// The disk as it is at first: each file from `i` on, with the free space
/// after it where the map names one, added to `acc`.
pub open spec fn interleaved(used: Seq<usize>, available: Seq<usize>, i: int, acc: Seq<Block>) -> Seq<
    Block,
>
    decreases used.len() - i,
{
    if i < 0 || i >= used.len() {
        acc
    } else {
        let with_file = acc.push(Block::Used(i as usize, used[i]));
        interleaved(
            used,
            available,
            i + 1,
            if i < available.len() {
                with_file.push(Block::Free(available[i]))
            } else {
                with_file
            },
        )
    }
}

/// The first index at or after `from` of the file with number `id`, or the
/// number of stretches.
pub open spec fn file_at(blocks: Seq<Block>, id: usize, from: int) -> int
    decreases blocks.len() - from,
{
    if from < 0 || from >= blocks.len() {
        blocks.len() as int
    } else if blocks[from].spec_id() == Some(id) {
        from
    } else {
        file_at(blocks, id, from + 1)
    }
}

/// The first index from `from` and before `until` of a stretch with at
/// least `size` free blocks, or `until`.
pub open spec fn first_fit(blocks: Seq<Block>, size: usize, from: int, until: int) -> int
    decreases until - from,
{
    if from < 0 || from >= until || from >= blocks.len() {
        until
    } else if blocks[from].spec_free_size() >= size {
        from
    } else {
        first_fit(blocks, size, from + 1, until)
    }
}

/// The disk after the file with number `id` was moved into the first
/// stretch before it that has room for it. Into a larger stretch the file
/// is put before what is left free of it, and the place that the file had
/// is taken by the last stretch of the disk, which is a new free stretch of
/// the file's size. With a stretch of its own size the file changes places.
pub open spec fn moved(blocks: Seq<Block>, id: usize) -> Seq<Block> {
    let at = file_at(blocks, id, 0);
    if !(0 <= at < blocks.len()) {
        blocks
    } else {
        let size = blocks[at].spec_size();
        let j = first_fit(blocks, size, 0, at);
        if !(0 <= j < at) {
            blocks
        } else {
            let free = blocks[j].spec_free_size();
            if free > size {
                let shrunk = blocks.update(j, Block::Free((free - size) as usize)).push(
                    Block::Free(size),
                );
                shrunk.update(at, shrunk.last()).drop_last().insert(j, blocks[at])
            } else if free == size {
                blocks.update(j, blocks[at]).update(at, blocks[j])
            } else {
                blocks
            }
        }
    }
}

/// The disk after the files with the numbers below `count` were moved, the
/// highest number first.
pub open spec fn merged(blocks: Seq<Block>, count: int) -> Seq<Block>
    decreases count,
{
    if count <= 0 {
        blocks
    } else {
        merged(moved(blocks, (count - 1) as usize), count - 1)
    }
}

/// The checksum of the stretches from `i` on, the first of them at
/// position `pos`, added to `acc`.
pub open spec fn blocks_sum(blocks: Seq<Block>, i: int, pos: usize, acc: usize) -> Option<usize>
    decreases blocks.len() - i,
{
    if i < 0 || i >= blocks.len() {
        Some(acc)
    } else {
        match blocks[i] {
            Block::Free(size) => match pos.checked_add(size) {
                Some(next) => blocks_sum(blocks, i + 1, next, acc),
                None => None,
            },
            Block::Used(id, size) => match (run_sum(id, size, pos), pos.checked_add(size)) {
                (Some(sum), Some(next)) => match acc.checked_add(sum) {
                    Some(more) => blocks_sum(blocks, i + 1, next, more),
                    None => None,
                },
                _ => None,
            },
        }
    }
}

/// The checksum of the disk after its files were moved as a whole.
pub open spec fn merged_sum(used: Seq<usize>, available: Seq<usize>) -> Option<usize> {
    blocks_sum(
        merged(interleaved(used, available, 0, Seq::empty()), used.len() as int),
        0,
        0,
        0,
    )
}

fn find_file(blocks: &Vec<Block>, id: usize) -> (r: usize)
    ensures
        r == file_at(blocks@, id, 0),
        r <= blocks.len(),
{
    let mut i: usize = 0;
    while i < blocks.len()
        invariant
            i <= blocks.len(),
            file_at(blocks@, id, 0) == file_at(blocks@, id, i as int),
        decreases blocks.len() - i,
    {
        if let Some(found) = blocks[i].id() {
            if found == id {
                return i;
            }
        }
        i += 1;
    }
    i
}

fn find_fit(blocks: &Vec<Block>, size: usize, until: usize) -> (r: usize)
    requires
        until <= blocks.len(),
    ensures
        r == first_fit(blocks@, size, 0, until as int),
        r <= until,
{
    let mut i: usize = 0;
    while i < until
        invariant
            i <= until <= blocks.len(),
            first_fit(blocks@, size, 0, until as int) == first_fit(
                blocks@,
                size,
                i as int,
                until as int,
            ),
        decreases until - i,
    {
        if blocks[i].free_size() >= size {
            return i;
        }
        i += 1;
    }
    i
}

fn move_file(blocks: &mut Vec<Block>, id: usize)
    ensures
        final(blocks)@ == moved(old(blocks)@, id),
{
    let at = find_file(blocks, id);
    if at >= blocks.len() {
        return ;
    }
    let size = blocks[at].size();
    let j = find_fit(blocks, size, at);
    if j >= at {
        return ;
    }
    let free = blocks[j].free_size();
    if free > size {
        blocks.set(j, Block::Free(free - size));
        blocks.push(Block::Free(size));
        let file = blocks.swap_remove(at);
        blocks.insert(j, file);
    } else if free == size {
        let file = blocks[at];
        let room = blocks[j];
        blocks.set(j, file);
        blocks.set(at, room);
    }
}

/// The checksum of the disk after its files were moved as a whole, each
/// once, from the last file to the first.
#[verifier::loop_isolation(false)]
pub fn merge_blocks(used: &Vec<usize>, available: &Vec<usize>) -> (r: Option<usize>)
    ensures
        r == merged_sum(used@, available@),
{
    let mut block_list: Vec<Block> = Vec::new();
    let mut i: usize = 0;
    while i < used.len()
        invariant
            i <= used.len(),
            interleaved(used@, available@, 0, Seq::empty()) == interleaved(
                used@,
                available@,
                i as int,
                block_list@,
            ),
        decreases used.len() - i,
    {
        block_list.push(Block::Used(i, used[i]));
        if i < available.len() {
            block_list.push(Block::Free(available[i]));
        }
        i += 1;
    }
    let ghost first = block_list@;
    let mut i: usize = used.len();
    while i > 0
        invariant
            i <= used.len(),
            merged(first, used.len() as int) == merged(block_list@, i as int),
        decreases i,
    {
        i -= 1;
        move_file(&mut block_list, i);
    }
    let mut result: usize = 0;
    let mut pos: usize = 0;
    let mut i: usize = 0;
    while i < block_list.len()
        invariant
            i <= block_list.len(),
            blocks_sum(block_list@, 0, 0, 0) == blocks_sum(block_list@, i as int, pos, result),
        decreases block_list.len() - i,
    {
        match block_list[i] {
            Block::Free(size) => match pos.checked_add(size) {
                Some(next) => {
                    pos = next;
                },
                None => {
                    return None;
                },
            },
            Block::Used(id, size) => match (sum_run(id, size, pos), pos.checked_add(size)) {
                (Some(sum), Some(next)) => match result.checked_add(sum) {
                    Some(more) => {
                        result = more;
                        pos = next;
                    },
                    None => {
                        return None;
                    },
                },
                _ => {
                    return None;
                },
            },
        }
        i += 1;
    }
    Some(result)
}

/// The answer of a part.
pub open spec fn solve(input: Seq<char>, part: Part) -> Option<Answer> {
    match parse_disk_map(input) {
        Some(map) => match (match part {
            Part::One => chunked_sum(map.used, map.available),
            Part::Two => merged_sum(map.used, map.available),
        }) {
            Some(n) => Some(Answer::Number(n)),
            None => None,
        },
        None => None,
    }
}

pub struct Day;

impl Solution for Day {
    open spec fn answer(&self, input: Seq<char>, part: Part) -> Option<Answer> {
        solve(input, part)
    }

    fn part1(&self, input: &str) -> (r: Option<SolvedValue>) {
        let chars = chars_of(input);
        match parse_input(&chars) {
            Some((_, used, available)) => match marge_chunked(&used, &available) {
                Some(n) => Some(SolvedValue::Number(n)),
                None => None,
            },
            None => None,
        }
    }

    fn part2(&self, input: &str) -> (r: Option<SolvedValue>) {
        let chars = chars_of(input);
        match parse_input(&chars) {
            Some((_, used, available)) => match merge_blocks(&used, &available) {
                Some(n) => Some(SolvedValue::Number(n)),
                None => None,
            },
            None => None,
        }
    }
}

} // verus!
