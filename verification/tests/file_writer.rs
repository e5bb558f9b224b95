use stormdrain::file_writer::plan_segments;
use stormdrain::metainfo::FileInfo;
use stormdrain::resume::plan_read;

fn make_file_info(path: &str, length: u64, offset: u64) -> FileInfo {
    FileInfo {
        path: vec![path.to_string()],
        length,
        offset,
    }
}

/// Files in memory that are written and read by segments.
struct Disk {
    infos: Vec<FileInfo>,
    files: Vec<Vec<u8>>,
}

impl Disk {
    fn new(infos: Vec<FileInfo>) -> Disk {
        let files = infos.iter().map(|f| vec![0u8; f.length as usize]).collect();
        Disk { infos, files }
    }

    fn write_piece(&mut self, flat_offset: u64, data: &[u8]) {
        for s in plan_segments(&self.infos, flat_offset, data.len()) {
            let at = s.seek as usize;
            let (start, end) = (s.start as usize, s.end as usize);
            self.files[s.file][at..at + end - start].copy_from_slice(&data[start..end]);
        }
    }

    fn read_data(&self, flat_offset: u64, len: usize) -> Vec<u8> {
        let mut out = Vec::new();
        for s in plan_segments(&self.infos, flat_offset, len) {
            let at = s.seek as usize;
            out.extend_from_slice(&self.files[s.file][at..at + (s.end - s.start) as usize]);
        }
        out
    }
}

#[test]
fn write_and_read_single_file() {
    let mut fw = Disk::new(vec![make_file_info("data.bin", 1024, 0)]);
    let data = vec![0xABu8; 1024];
    fw.write_piece(0, &data);
    let read_back = fw.read_data(0, 1024);
    assert_eq!(read_back, data);
}

#[test]
fn write_partial_and_read_subset() {
    let mut fw = Disk::new(vec![make_file_info("data.bin", 512, 0)]);
    let mut data = vec![0u8; 512];
    data[100] = 0xFF;
    data[101] = 0xEE;
    fw.write_piece(0, &data);
    let slice = fw.read_data(100, 2);
    assert_eq!(slice, vec![0xFF, 0xEE]);
}

#[test]
fn write_spanning_two_files() {
    // Two files of 512 bytes each, contiguous in the virtual stream.
    let mut fw = Disk::new(vec![
        make_file_info("part0.bin", 512, 0),
        make_file_info("part1.bin", 512, 512),
    ]);

    // Write 512 bytes that span the boundary (bytes 256..768).
    let data = vec![0xCCu8; 512];
    fw.write_piece(256, &data);

    // Read back the last 256 bytes of part0 and first 256 bytes of part1.
    let read_back = fw.read_data(256, 512);
    assert_eq!(read_back, data);
    assert_eq!(fw.files[0][255], 0);
    assert_eq!(fw.files[0][256], 0xCC);
    assert_eq!(fw.files[1][255], 0xCC);
    assert_eq!(fw.files[1][256], 0);
}

#[test]
fn empty_files_are_skipped() {
    let mut fw = Disk::new(vec![
        make_file_info("a", 3, 0),
        make_file_info("empty", 0, 3),
        make_file_info("b", 3, 3),
    ]);
    fw.write_piece(1, &[1, 2, 3, 4]);
    assert_eq!(fw.files[0], vec![0, 1, 2]);
    assert_eq!(fw.files[2], vec![3, 4, 0]);
}

#[test]
fn what_lies_past_the_files_is_left_out() {
    let infos = vec![make_file_info("a", 4, 0)];
    let parts = plan_segments(&infos, 2, 10);
    assert_eq!(parts.len(), 1);
    assert_eq!((parts[0].seek, parts[0].start, parts[0].end), (2, 0, 2));
    assert!(plan_segments(&infos, 4, 10).is_empty());
}

#[test]
fn a_piece_is_read_where_it_was_written() {
    let infos = vec![
        make_file_info("a", 5, 0),
        make_file_info("b", 0, 5),
        make_file_info("c", 7, 5),
        make_file_info("d", 100, 12),
    ];
    for offset in 0..20u64 {
        for len in 1..20u64 {
            assert_eq!(
                plan_read(&infos, offset, len),
                plan_segments(&infos, offset, len as usize)
            );
        }
    }
}
