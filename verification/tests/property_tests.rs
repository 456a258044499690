use wu_diff::DiffElement;
use wu_diff::DiffResult;
use wu_diff::diff;

fn element<T>(d: &DiffResult<T>) -> &DiffElement<T> {
    match d {
        DiffResult::Removed(e) => e,
        DiffResult::Common(e) => e,
        DiffResult::Added(e) => e,
    }
}

fn old_index_trail<T>(script: &[DiffResult<T>]) -> Vec<usize> {
    script.iter().filter_map(|d| element(d).old_index).collect()
}

fn new_index_trail<T>(script: &[DiffResult<T>]) -> Vec<usize> {
    script.iter().filter_map(|d| element(d).new_index).collect()
}

/// Keep on `Common`, delete on `Removed`, insert the data on `Added`.
fn replay<T: Clone>(script: &[DiffResult<T>], old: &[T]) -> Vec<T> {
    let mut out = Vec::new();
    for d in script {
        match d {
            DiffResult::Common(e) => out.push(old[e.old_index.unwrap()].clone()),
            DiffResult::Added(e) => out.push(e.data.clone()),
            DiffResult::Removed(_) => {}
        }
    }
    out
}

fn check_script_shape(old: &[u32], new: &[u32]) {
    let script = diff(old, new);
    let expected_old: Vec<usize> = (0..old.len()).collect();
    let expected_new: Vec<usize> = (0..new.len()).collect();
    assert_eq!(old_index_trail(&script), expected_old);
    assert_eq!(new_index_trail(&script), expected_new);
    assert_eq!(replay(&script, old), new.to_vec());
    for d in &script {
        match d {
            DiffResult::Common(e) => {
                assert_eq!(e.data, old[e.old_index.unwrap()]);
                assert_eq!(old[e.old_index.unwrap()], new[e.new_index.unwrap()]);
            }
            DiffResult::Removed(e) => {
                assert_eq!(e.data, old[e.old_index.unwrap()]);
                assert!(e.new_index.is_none());
            }
            DiffResult::Added(e) => {
                assert_eq!(e.data, new[e.new_index.unwrap()]);
                assert!(e.old_index.is_none());
            }
        }
    }
}

#[test]
fn index_trails_and_replay_hold_on_sampled_inputs() {
    // a small fixed linear-congruential generator drives the sampling
    let mut state: u64 = 20251011;
    let mut next = move || {
        state = state.wrapping_mul(6364136223846793005).wrapping_add(1442695040888963407);
        (state >> 33) as u32
    };
    for _ in 0..300 {
        let old_len = (next() % 9) as usize;
        let new_len = (next() % 9) as usize;
        let alphabet = 1 + next() % 4;
        let old: Vec<u32> = (0..old_len).map(|_| next() % alphabet).collect();
        let new: Vec<u32> = (0..new_len).map(|_| next() % alphabet).collect();
        check_script_shape(&old, &new);
    }
}

#[test]
fn identity_diff_is_all_common() {
    let s = vec!["alpha", "beta", "gamma", "delta"];
    let script = diff(&s, &s);
    assert_eq!(script.len(), s.len());
    for (i, d) in script.iter().enumerate() {
        match d {
            DiffResult::Common(e) => {
                assert_eq!(e.old_index, Some(i));
                assert_eq!(e.new_index, Some(i));
                assert_eq!(e.data, s[i]);
            }
            _ => panic!("identity diff must be all common"),
        }
    }
}

#[test]
fn equal_inputs_give_equal_outputs() {
    let old = vec![3u8, 1, 4, 1, 5, 9, 2, 6];
    let new = vec![3u8, 1, 5, 9, 2, 7];
    let first = diff(&old, &new);
    let second = diff(&old, &new);
    assert_eq!(first, second);
}

#[test]
fn disjoint_longer_old_is_removals_then_insertions() {
    let result = diff(&vec!["x", "y", "z"], &vec!["1", "2"]);
    let expected = vec![
        DiffResult::Removed(DiffElement {
            old_index: Some(0),
            new_index: None,
            data: "x",
        }),
        DiffResult::Removed(DiffElement {
            old_index: Some(1),
            new_index: None,
            data: "y",
        }),
        DiffResult::Removed(DiffElement {
            old_index: Some(2),
            new_index: None,
            data: "z",
        }),
        DiffResult::Added(DiffElement {
            old_index: None,
            new_index: Some(0),
            data: "1",
        }),
        DiffResult::Added(DiffElement {
            old_index: None,
            new_index: Some(1),
            data: "2",
        }),
    ];
    assert_eq!(result, expected);
}

#[test]
fn disjoint_shorter_old_is_insertions_then_removals() {
    let result = diff(&vec!["1", "2"], &vec!["x", "y", "z"]);
    let expected = vec![
        DiffResult::Added(DiffElement {
            old_index: None,
            new_index: Some(0),
            data: "x",
        }),
        DiffResult::Added(DiffElement {
            old_index: None,
            new_index: Some(1),
            data: "y",
        }),
        DiffResult::Added(DiffElement {
            old_index: None,
            new_index: Some(2),
            data: "z",
        }),
        DiffResult::Removed(DiffElement {
            old_index: Some(0),
            new_index: None,
            data: "1",
        }),
        DiffResult::Removed(DiffElement {
            old_index: Some(1),
            new_index: None,
            data: "2",
        }),
    ];
    assert_eq!(result, expected);
}

#[test]
fn edit_distance_on_strength_to_string_is_four() {
    let script = diff(
        &vec!["s", "t", "r", "e", "n", "g", "t", "h"],
        &vec!["s", "t", "r", "i", "n", "g"],
    );
    let removed = script
        .iter()
        .filter(|d| matches!(d, DiffResult::Removed(_)))
        .count();
    let added = script
        .iter()
        .filter(|d| matches!(d, DiffResult::Added(_)))
        .count();
    let common = script
        .iter()
        .filter(|d| matches!(d, DiffResult::Common(_)))
        .count();
    // the longest common subsequence of "strength" and "string" as token
    // rows is s t r n g, so five kept rows and 3 + 1 edits
    assert_eq!(common, 5);
    assert_eq!(removed, 3);
    assert_eq!(added, 1);
}

#[test]
fn interleaved_numbers_align_on_common_runs() {
    let result = diff(&vec![1, 2, 3, 4, 5, 6, 7, 8], &vec![3, 4, 9, 5, 6, 10]);
    let expected = vec![
        DiffResult::Removed(DiffElement {
            old_index: Some(0),
            new_index: None,
            data: 1,
        }),
        DiffResult::Removed(DiffElement {
            old_index: Some(1),
            new_index: None,
            data: 2,
        }),
        DiffResult::Common(DiffElement {
            old_index: Some(2),
            new_index: Some(0),
            data: 3,
        }),
        DiffResult::Common(DiffElement {
            old_index: Some(3),
            new_index: Some(1),
            data: 4,
        }),
        DiffResult::Added(DiffElement {
            old_index: None,
            new_index: Some(2),
            data: 9,
        }),
        DiffResult::Common(DiffElement {
            old_index: Some(4),
            new_index: Some(3),
            data: 5,
        }),
        DiffResult::Common(DiffElement {
            old_index: Some(5),
            new_index: Some(4),
            data: 6,
        }),
        DiffResult::Removed(DiffElement {
            old_index: Some(6),
            new_index: None,
            data: 7,
        }),
        DiffResult::Removed(DiffElement {
            old_index: Some(7),
            new_index: None,
            data: 8,
        }),
        DiffResult::Added(DiffElement {
            old_index: None,
            new_index: Some(5),
            data: 10,
        }),
    ];
    assert_eq!(result, expected);
}

#[test]
fn reversal_keeps_one_element() {
    let result = diff(&vec!["a", "b", "c"], &vec!["c", "b", "a"]);
    let expected = vec![
        DiffResult::Removed(DiffElement {
            old_index: Some(0),
            new_index: None,
            data: "a",
        }),
        DiffResult::Removed(DiffElement {
            old_index: Some(1),
            new_index: None,
            data: "b",
        }),
        DiffResult::Common(DiffElement {
            old_index: Some(2),
            new_index: Some(0),
            data: "c",
        }),
        DiffResult::Added(DiffElement {
            old_index: None,
            new_index: Some(1),
            data: "b",
        }),
        DiffResult::Added(DiffElement {
            old_index: None,
            new_index: Some(2),
            data: "a",
        }),
    ];
    assert_eq!(result, expected);
}

#[test]
fn owned_strings_round_trip_through_replay() {
    let old: Vec<String> = vec!["one", "two", "three", "four"]
        .into_iter()
        .map(str::to_owned)
        .collect();
    let new: Vec<String> = vec!["one", "three", "five"]
        .into_iter()
        .map(str::to_owned)
        .collect();
    let script = diff(&old, &new);
    assert_eq!(replay(&script, &old), new);
}

#[test]
fn skewed_lengths_keep_every_index() {
    let old = vec![7u32];
    let new: Vec<u32> = (0..40).collect();
    let script = diff(&old, &new);
    let expected_new: Vec<usize> = (0..new.len()).collect();
    assert_eq!(new_index_trail(&script), expected_new);
    assert_eq!(old_index_trail(&script), vec![0]);
    assert_eq!(replay(&script, &old), new);
}

#[test]
fn all_equal_duplicates_are_common() {
    let old = vec![5u8, 5, 5, 5];
    let new = vec![5u8, 5];
    let script = diff(&old, &new);
    assert_eq!(replay(&script, &old), new);
    let common = script
        .iter()
        .filter(|d| matches!(d, DiffResult::Common(_)))
        .count();
    assert_eq!(common, 2);
}
