use advent::day9::{Block, Disk, DiskMap, DiskMapEntry, File, _solution1, _solution2};
use std::collections::HashMap;

const CASE1: &str = "2333133121414131402\n";

fn disk_of(text: &str) -> Disk {
    Disk::from(&DiskMap::from(&String::from(text)).unwrap())
}

fn render(disk: &Disk) -> String {
    disk.blocks
        .iter()
        .map(|b| match b {
            Block::File(id, _) => format!("{}", id),
            Block::Free => String::from("."),
        })
        .collect()
}

#[test]
fn example_day9_disk_map() {
    let disk_map = DiskMap::from(&String::from("12345\n")).unwrap();
    assert_eq!(
        disk_map.entries,
        vec![
            DiskMapEntry::File(1),
            DiskMapEntry::Free(2),
            DiskMapEntry::File(3),
            DiskMapEntry::Free(4),
            DiskMapEntry::File(5),
        ]
    );
}

#[test]
fn example_day9_disk() {
    let disk_map = DiskMap::from(&String::from("12345\n")).unwrap();
    let disk = Disk::from(&disk_map);
    let files = vec![
        File { id: 0, blocks: vec![Block::File(0, 0)] },
        File { id: 1, blocks: vec![Block::File(1, 0), Block::File(1, 1), Block::File(1, 2)] },
        File {
            id: 2,
            blocks: vec![
                Block::File(2, 0),
                Block::File(2, 1),
                Block::File(2, 2),
                Block::File(2, 3),
                Block::File(2, 4),
            ],
        },
    ];
    assert_eq!(disk.files.len(), files.len());
    for (have, want) in disk.files.iter().zip(files.iter()) {
        assert_eq!(have.id, want.id);
        assert_eq!(have.blocks, want.blocks);
    }
    assert_eq!(
        disk.blocks,
        vec![
            Block::File(0, 0),
            Block::Free,
            Block::Free,
            Block::File(1, 0),
            Block::File(1, 1),
            Block::File(1, 2),
            Block::Free,
            Block::Free,
            Block::Free,
            Block::Free,
            Block::File(2, 0),
            Block::File(2, 1),
            Block::File(2, 2),
            Block::File(2, 3),
            Block::File(2, 4),
        ]
    );
    assert_eq!(disk.file_ptrs, HashMap::from([(0, 0), (1, 3), (2, 10)]));
}

#[test]
fn example_day9_1_compress() {
    let mut disk = disk_of(CASE1);
    assert_eq!(render(&disk), "00...111...2...333.44.5555.6666.777.888899");
    disk.compress();
    assert_eq!(render(&disk), "0099811188827773336446555566..............");
    assert_eq!(disk.checksum(), 1928);
}

#[test]
fn example_day9_1() {
    assert_eq!(_solution1(&String::from(CASE1)), Some(1928));
}

#[test]
fn day9_whole_files_move_into_the_first_room() {
    let mut disk = disk_of(CASE1);
    disk.compress_no_frag();
    assert_eq!(render(&disk), "00992111777.44.333....5555.6666.....8888..");
    assert_eq!(disk.checked_checksum(), Some(2858));
    assert_eq!(_solution2(&String::from(CASE1)), Some(2858));
    assert_eq!(disk.file_ptrs[&9], 2);
    assert_eq!(disk.file_ptrs[&8], 36);
    assert_eq!(disk.file_ptrs[&0], 0);
}

#[test]
fn day9_small_disk_compresses() {
    let mut disk = disk_of("12345\n");
    disk.compress();
    assert_eq!(render(&disk), "022111222......");
    assert_eq!(disk.checksum(), 60);
}

#[test]
fn day9_finding_blocks() {
    let disk = disk_of("12345\n");
    assert_eq!(disk.find_first_free(0), Some(1));
    assert_eq!(disk.find_first_free(1), Some(1));
    assert_eq!(disk.find_first_free(3), Some(6));
    assert_eq!(disk.find_first_free(10), None);
    assert_eq!(disk.find_last_data(15), Some(14));
    assert_eq!(disk.find_last_data(10), Some(5));
    assert_eq!(disk.find_last_data(3), Some(0));
    assert_eq!(disk_of("012\n").find_last_data(1), None);
    assert_eq!(disk.find_first_contiguous_free(2, 15), Some(1));
    assert_eq!(disk.find_first_contiguous_free(3, 15), Some(6));
    assert_eq!(disk.find_first_contiguous_free(4, 15), Some(6));
    assert_eq!(disk.find_first_contiguous_free(4, 9), None);
    assert_eq!(disk.find_first_contiguous_free(5, 15), None);
    assert_eq!(disk.find_first_contiguous_free(0, 15), None);
    assert_eq!(disk.find_first_contiguous_free(1, 1), None);
}

#[test]
fn day9_moving_blocks() {
    let mut disk = disk_of("12345\n");
    disk.swap_blocks(0, 1);
    assert_eq!(render(&disk), ".0.111....22222");
    disk.swap_blocks(1, 1);
    assert_eq!(render(&disk), ".0.111....22222");
    disk.mv_file(1, 6);
    assert_eq!(render(&disk), ".0....111.22222");
    assert_eq!(disk.file_ptrs[&1], 6);
    disk.append_free(2);
    disk.append_file(File { id: 3, blocks: vec![Block::File(3, 0)] });
    disk.append_file(File { id: 3, blocks: vec![Block::File(3, 1)] });
    assert_eq!(render(&disk), ".0....111.22222..33");
    assert_eq!(disk.file_ptrs[&3], 17);
    assert_eq!(disk.files.len(), 5);
}

#[test]
fn day9_disk_map_needs_digits() {
    assert!(DiskMap::from(&String::from("")).is_none());
    assert!(DiskMap::from(&String::from("12a4\n")).is_none());
    assert_eq!(DiskMap::from(&String::from("\n")).unwrap().entries, vec![]);
    assert_eq!(DiskMap::from(&String::from("7")).unwrap().entries, vec![]);
    assert_eq!(DiskMap::from(&String::from("90x")).unwrap().entries, vec![DiskMapEntry::File(9), DiskMapEntry::Free(0)]);
    assert_eq!(_solution1(&String::from("1x1\n")), None);
    assert_eq!(_solution2(&String::from("")), None);
    assert_eq!(Disk::new().checksum(), 0);
}
