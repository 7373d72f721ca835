use shuffle_lines::offset::{collect_offsets, dump_offsets, load_offsets};
use shuffle_lines::error::ShuffleError;
use shuffle_lines::shuffle::{build_offsets, shuffle_files, shuffle_lines, IndexBuilder};

fn split_lines(bytes: &[u8]) -> Vec<Vec<u8>> {
    let mut lines: Vec<Vec<u8>> = Vec::new();
    let mut line: Vec<u8> = Vec::new();
    for byte in bytes {
        line.push(*byte);
        if *byte == b'\n' {
            lines.push(line);
            line = Vec::new();
        }
    }
    if !line.is_empty() {
        lines.push(line);
    }
    lines
}

fn sorted_lines(files: &[Vec<u8>]) -> Vec<Vec<u8>> {
    let mut lines: Vec<Vec<u8>> = Vec::new();
    for file in files {
        lines.extend(split_lines(file));
    }
    lines.sort();
    lines
}

fn numbered_source(name: &str, lines: usize) -> Vec<u8> {
    let mut source: Vec<u8> = Vec::new();
    for number in 0..lines {
        source.extend_from_slice(format!("{} {}\n", name, number).as_bytes());
    }
    source
}

#[test]
fn index_files_hold_the_line_starts_in_some_order() {
    let sources = vec![b"a\nb\nc\n".to_vec(), b"".to_vec(), b"xy\nz".to_vec()];
    let index_files = build_offsets(&sources, 5);
    assert_eq!(index_files.len(), 3);
    for (source, index_file) in sources.iter().zip(index_files.iter()) {
        let mut loaded = load_offsets(index_file).unwrap();
        let mut expected = collect_offsets(source);
        loaded.sort();
        expected.sort();
        assert_eq!(loaded, expected);
    }
    assert_eq!(index_files[1], vec![0u8; 8]);
}

#[test]
fn index_files_are_shuffled() {
    let sources = vec![numbered_source("line", 200)];
    let index_files = build_offsets(&sources, 11);
    let loaded = load_offsets(&index_files[0]).unwrap();
    assert_eq!(loaded.len(), 201);
    assert_ne!(loaded, collect_offsets(&sources[0]));
}

#[test]
fn index_files_depend_on_the_seed_only() {
    let sources = vec![numbered_source("p", 50), numbered_source("q", 60)];
    assert_eq!(build_offsets(&sources, 3), build_offsets(&sources, 3));
    assert_ne!(build_offsets(&sources, 3), build_offsets(&sources, 4));
}

#[test]
fn three_lines_into_one_target() {
    let sources = vec![b"a\nb\nc\n".to_vec()];
    assert_eq!(collect_offsets(&sources[0]), vec![2u64, 4, 6, 0]);
    for seed in 0u64..20 {
        let index_files = build_offsets(&sources, seed);
        let outputs = shuffle_files(&sources, &index_files, 1, 1, seed).unwrap();
        assert_eq!(outputs.len(), 1);
        assert_eq!(outputs[0].len(), 6);
        assert_eq!(
            sorted_lines(&outputs),
            vec![b"a\n".to_vec(), b"b\n".to_vec(), b"c\n".to_vec()]
        );
    }
}

#[test]
fn two_sources_into_two_targets() {
    let sources = vec![b"a1\na2\n".to_vec(), b"b1\nb2\nb3\n".to_vec()];
    let mut both_used = false;
    for seed in 0u64..20 {
        let index_files = build_offsets(&sources, seed);
        let outputs = shuffle_files(&sources, &index_files, 2, 2, seed).unwrap();
        assert_eq!(outputs.len(), 2);
        let first = split_lines(&outputs[0]).len();
        let second = split_lines(&outputs[1]).len();
        assert_eq!(first + second, 5);
        assert_eq!(sorted_lines(&outputs), sorted_lines(&sources));
        both_used = both_used || (first >= 1 && second >= 1);
    }
    assert!(both_used);
}

#[test]
fn lines_are_kept_for_every_window_and_target_count() {
    let sources = vec![
        numbered_source("alpha", 7),
        numbered_source("beta", 1),
        b"".to_vec(),
        numbered_source("gamma", 12),
        b"\n\n\n".to_vec(),
    ];
    let expected = sorted_lines(&sources);
    let total: usize = sources.iter().map(|source| source.len()).sum();
    for size in 1usize..=5 {
        for targets in 1usize..=4 {
            let seed = (size * 10 + targets) as u64;
            let index_files = build_offsets(&sources, seed);
            let outputs = shuffle_files(&sources, &index_files, targets, size, seed + 1).unwrap();
            assert_eq!(outputs.len(), targets);
            assert_eq!(sorted_lines(&outputs), expected);
            let written: usize = outputs.iter().map(|output| output.len()).sum();
            assert_eq!(written, total);
        }
    }
}

#[test]
fn unterminated_last_line_is_kept() {
    let sources = vec![b"one\ntwo".to_vec()];
    let index_files = build_offsets(&sources, 8);
    let outputs = shuffle_files(&sources, &index_files, 1, 1, 8).unwrap();
    let output = outputs[0].clone();
    assert!(output == b"one\ntwo".to_vec() || output == b"twoone\n".to_vec());
}

#[test]
fn different_seeds_give_different_orders_of_the_same_lines() {
    let sources = vec![numbered_source("line", 60)];
    let first_index = build_offsets(&sources, 1);
    let second_index = build_offsets(&sources, 2);
    let first = shuffle_files(&sources, &first_index, 1, 1, 1).unwrap();
    let second = shuffle_files(&sources, &second_index, 1, 1, 2).unwrap();
    assert_ne!(first, second);
    assert_ne!(first[0], sources[0]);
    assert_eq!(sorted_lines(&first), sorted_lines(&sources));
    assert_eq!(sorted_lines(&second), sorted_lines(&sources));
}

#[test]
fn same_seed_gives_the_same_outputs() {
    let sources = vec![numbered_source("p", 30), numbered_source("q", 30)];
    let index_files = build_offsets(&sources, 21);
    let first = shuffle_files(&sources, &index_files, 3, 2, 22).unwrap();
    let second = shuffle_files(&sources, &index_files, 3, 2, 22).unwrap();
    assert_eq!(first, second);
}

#[test]
fn one_source_follows_its_index_from_the_end() {
    let sources = vec![b"a\nb\nc\n".to_vec()];
    let index_files = vec![dump_offsets(&vec![4u64, 0, 6, 2])];
    let outputs = shuffle_files(&sources, &index_files, 1, 1, 77).unwrap();
    assert_eq!(outputs, vec![b"b\na\nc\n".to_vec()]);
}

#[test]
fn window_of_one_takes_the_sources_in_order() {
    let sources = vec![b"a\n".to_vec(), b"b\n".to_vec(), b"c\n".to_vec()];
    let index_files =
        vec![dump_offsets(&vec![0u64]), dump_offsets(&vec![0u64]), dump_offsets(&vec![0u64])];
    let outputs = shuffle_files(&sources, &index_files, 1, 1, 5).unwrap();
    assert_eq!(outputs, vec![b"a\nb\nc\n".to_vec()]);
}

#[test]
fn index_file_of_odd_length_is_a_format_error() {
    let sources = vec![b"a\n".to_vec()];
    let index_files = vec![vec![0u8; 9]];
    assert_eq!(
        shuffle_files(&sources, &index_files, 1, 1, 0),
        Err(ShuffleError::Format { length: 9 })
    );
}

#[test]
fn format_error_comes_when_the_file_is_loaded() {
    let sources = vec![b"a\n".to_vec(), b"b\n".to_vec()];
    let index_files = vec![dump_offsets(&vec![0u64]), vec![1u8, 2, 3]];
    assert_eq!(
        shuffle_files(&sources, &index_files, 2, 1, 0),
        Err(ShuffleError::Format { length: 3 })
    );
    assert_eq!(
        shuffle_files(&sources, &index_files, 2, 2, 0),
        Err(ShuffleError::Format { length: 3 })
    );
}

#[test]
fn empty_index_file_is_an_invariant_violation() {
    let sources = vec![b"a\n".to_vec(), b"b\n".to_vec()];
    let index_files = vec![dump_offsets(&vec![0u64]), Vec::new()];
    assert_eq!(
        shuffle_files(&sources, &index_files, 1, 1, 0),
        Err(ShuffleError::InvariantViolation { source: 1 })
    );
    assert_eq!(
        shuffle_files(&sources, &index_files, 1, 2, 0),
        Err(ShuffleError::InvariantViolation { source: 1 })
    );
}

#[test]
fn stale_offsets_copy_nothing() {
    let sources = vec![b"a\n".to_vec()];
    let index_files = vec![dump_offsets(&vec![0u64, 100, 2])];
    let outputs = shuffle_files(&sources, &index_files, 1, 1, 0).unwrap();
    assert_eq!(outputs, vec![b"a\n".to_vec()]);
}

#[test]
fn builder_keeps_the_offsets_and_changes_their_order() {
    let offsets: Vec<u64> = (0u64..300).map(|number| number * 7).collect();
    let mut builder = IndexBuilder::new(42);
    let index_file = builder.index_file(offsets.clone());
    assert_eq!(index_file.len(), 8 * 300);
    let mut loaded = load_offsets(&index_file).unwrap();
    assert_ne!(loaded, offsets);
    loaded.sort();
    assert_eq!(loaded, offsets);
}

#[test]
fn builder_of_nothing_gives_an_empty_file() {
    let mut builder = IndexBuilder::new(1);
    assert!(builder.index_file(Vec::new()).is_empty());
    assert_eq!(builder.index_file(vec![9u64]), vec![9u8, 0, 0, 0, 0, 0, 0, 0]);
}

#[test]
fn whole_run_keeps_every_line() {
    let sources = vec![numbered_source("first", 25), numbered_source("second", 40), b"\n".to_vec()];
    let expected = sorted_lines(&sources);
    assert_eq!(expected.len(), 66);
    for size in 1usize..=3 {
        for targets in 1usize..=3 {
            let outputs = shuffle_lines(&sources, targets, size, 1000 + size as u64);
            assert_eq!(outputs.len(), targets);
            assert_eq!(sorted_lines(&outputs), expected);
        }
    }
}

#[test]
fn whole_run_keeps_every_byte_of_an_unterminated_source() {
    let sources = vec![numbered_source("first", 5), b"tail without newline".to_vec()];
    let mut expected: Vec<u8> = sources.concat();
    expected.sort();
    for seed in 0u64..10 {
        let outputs = shuffle_lines(&sources, 2, 2, seed);
        let mut written: Vec<u8> = outputs.concat();
        assert_eq!(written.len(), 5 * 8 + 20);
        written.sort();
        assert_eq!(written, expected);
    }
}

#[test]
fn whole_run_of_one_line() {
    let sources = vec![b"only\n".to_vec()];
    assert_eq!(shuffle_lines(&sources, 1, 1, 0), vec![b"only\n".to_vec()]);
}
