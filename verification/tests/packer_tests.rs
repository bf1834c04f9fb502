use chunkpack::files::pack_files;
use chunkpack::files::FileEntry;
use chunkpack::packer::pack;
use chunkpack::packer::ChunkPacker;
use chunkpack::packer::PackError;

fn toks(words: &[&str]) -> Vec<String> {
    words.iter().map(|w| w.to_string()).collect()
}

#[test]
fn test_process_files() {
    let files = vec![
        FileEntry {
            path: "test_files/file1.txt".to_string(),
            lines: toks(&["Hello, world!", "This is a test."]),
        },
        FileEntry {
            path: "test_files/file2.txt".to_string(),
            lines: toks(&["Another test file.", "With multiple lines."]),
        },
    ];
    let token_limit = 100;
    let expected_output = vec![vec![
        "=====<test_files/file1.txt>=====\nHello,",
        "world!\nThis",
        "is",
        "a",
        "test.\n",
        "=====<test_files/file2.txt>=====\nAnother",
        "test",
        "file.\nWith",
        "multiple",
        "lines.\n",
    ]];
    assert_eq!(pack_files(&files, token_limit).unwrap(), expected_output);
}

#[test]
fn test_pack_zero_limit_rejected() {
    let frames = vec![toks(&["a", "b"])];
    assert_eq!(pack(&frames, 0), Err(PackError::InvalidTokenLimit));
    let files = vec![FileEntry { path: "f".to_string(), lines: toks(&["x"]) }];
    assert_eq!(pack_files(&files, 0), Err(PackError::InvalidTokenLimit));
    assert!(ChunkPacker::new(0).is_err());
    assert!(ChunkPacker::new(1).is_ok());
}

#[test]
fn test_pack_oversized_frame_splits() {
    let frames = vec![toks(&["t1", "t2", "t3", "t4", "t5", "t6", "t7"])];
    let chunks = pack(&frames, 3).unwrap();
    // ceil(7 / 3) chunks: all of size 3 but the last.
    assert_eq!(
        chunks,
        vec![toks(&["t1", "t2", "t3"]), toks(&["t4", "t5", "t6"]), toks(&["t7"])]
    );
}

#[test]
fn test_pack_lossless_and_bounded() {
    let frames = vec![
        toks(&["a", "b", "c"]),
        toks(&["d"]),
        toks(&["e", "f", "g", "h", "i"]),
    ];
    let limit = 4;
    let chunks = pack(&frames, limit).unwrap();
    let flat_in: Vec<String> = frames.iter().flatten().cloned().collect();
    let flat_out: Vec<String> = chunks.iter().flatten().cloned().collect();
    assert_eq!(flat_out, flat_in);
    for chunk in &chunks {
        assert!(1 <= chunk.len() && chunk.len() <= limit);
    }
}

#[test]
fn test_pack_deterministic() {
    let frames = vec![toks(&["a", "b", "c", "d", "e"]), toks(&["f", "g"])];
    let first = pack(&frames, 3).unwrap();
    let second = pack(&frames, 3).unwrap();
    assert_eq!(first, second);
}

#[test]
fn test_pack_exact_fill_flushes_lazily() {
    // The first frame fills the chunk exactly; the flush happens only when
    // the next frame's tokens would overflow it.
    let frames = vec![toks(&["a", "b", "c"]), toks(&["d", "e"])];
    let chunks = pack(&frames, 3).unwrap();
    assert_eq!(chunks, vec![toks(&["a", "b", "c"]), toks(&["d", "e"])]);
}

#[test]
fn test_pack_small_frames_share_a_chunk() {
    let frames = vec![toks(&["a"]), toks(&["b"]), toks(&["c"])];
    let chunks = pack(&frames, 10).unwrap();
    assert_eq!(chunks, vec![toks(&["a", "b", "c"])]);
}

#[test]
fn test_pack_empty_frame_is_noop() {
    let frames = vec![toks(&["a"]), toks(&[]), toks(&["b"])];
    let chunks = pack(&frames, 10).unwrap();
    assert_eq!(chunks, vec![toks(&["a", "b"])]);
}

#[test]
fn test_pack_no_frames_no_chunks() {
    let frames: Vec<Vec<String>> = Vec::new();
    let chunks = pack(&frames, 5).unwrap();
    assert!(chunks.is_empty());
}

#[test]
fn test_packer_reset_starts_fresh() {
    let mut packer = ChunkPacker::new(2).unwrap();
    let mut out: Vec<Vec<String>> = Vec::new();
    packer.push_frame(&toks(&["a"]), &mut out);
    packer.reset();
    let mut out2: Vec<Vec<String>> = Vec::new();
    packer.push_frame(&toks(&["b"]), &mut out2);
    packer.finish(&mut out2);
    assert_eq!(out2, vec![toks(&["b"])]);
}

#[test]
fn test_packer_finish_emits_open_chunk_once() {
    let mut packer = ChunkPacker::new(4).unwrap();
    let mut out: Vec<Vec<String>> = Vec::new();
    packer.push_frame(&toks(&["a", "b"]), &mut out);
    assert!(out.is_empty());
    packer.finish(&mut out);
    assert_eq!(out, vec![toks(&["a", "b"])]);
    packer.finish(&mut out);
    assert_eq!(out, vec![toks(&["a", "b"])]);
}

#[test]
fn test_end_to_end_two_files_one_chunk() {
    let files = vec![
        FileEntry {
            path: "file1.txt".to_string(),
            lines: toks(&["Hello, world!", "This is a test."]),
        },
        FileEntry {
            path: "file2.txt".to_string(),
            lines: toks(&["Another test file.", "With multiple lines."]),
        },
    ];
    let chunks = pack_files(&files, 100).unwrap();
    assert_eq!(chunks.len(), 1);
    assert_eq!(
        chunks[0],
        toks(&[
            "=====<file1.txt>=====\nHello,",
            "world!\nThis",
            "is",
            "a",
            "test.\n",
            "=====<file2.txt>=====\nAnother",
            "test",
            "file.\nWith",
            "multiple",
            "lines.\n",
        ])
    );
}
