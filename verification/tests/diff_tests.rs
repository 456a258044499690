use wu_diff::DiffElement;
use wu_diff::DiffResult;
use wu_diff::diff;

#[test]
fn should_return_one_changed() {
    let result = diff(&vec!["a"], &vec!["b"]);
    let expected = vec![
        DiffResult::Removed(DiffElement {
            old_index: Some(0),
            new_index: None,
            data: "a",
        }),
        DiffResult::Added(DiffElement {
            old_index: None,
            new_index: Some(0),
            data: "b",
        }),
    ];

    assert_eq!(result, expected);
}

#[test]
fn should_return_empty() {
    let a: Vec<String> = vec![];
    let b: Vec<String> = vec![];
    let result = diff(&a, &b);
    let expected = vec![];
    assert_eq!(result, expected);
}

#[test]
fn should_return_one_common() {
    let result = diff(&vec!["a"], &vec!["a"]);
    let expected = vec![DiffResult::Common(DiffElement {
        old_index: Some(0),
        new_index: Some(0),
        data: "a",
    })];
    assert_eq!(result, expected);
}

#[test]
fn should_return_one_removed() {
    let result = diff(&vec!["a"], &vec![]);
    let expected = vec![DiffResult::Removed(DiffElement {
        old_index: Some(0),
        new_index: None,
        data: "a",
    })];
    assert_eq!(result, expected);
}

#[test]
fn should_return_one_added() {
    let result = diff(&vec![], &vec!["a"]);
    let expected = vec![DiffResult::Added(DiffElement {
        old_index: None,
        new_index: Some(0),
        data: "a",
    })];
    assert_eq!(result, expected);
}

#[test]
fn should_return_two_changed() {
    let result = diff(&vec!["a", "a"], &vec!["b", "b"]);
    let expected = vec![
        DiffResult::Removed(DiffElement {
            old_index: Some(0),
            new_index: None,
            data: "a",
        }),
        DiffResult::Removed(DiffElement {
            old_index: Some(1),
            new_index: None,
            data: "a",
        }),
        DiffResult::Added(DiffElement {
            old_index: None,
            new_index: Some(0),
            data: "b",
        }),
        DiffResult::Added(DiffElement {
            old_index: None,
            new_index: Some(1),
            data: "b",
        }),
    ];

    assert_eq!(result, expected);
}

#[test]
fn should_create_diff_result_with_added() {
    let result = diff(&vec!["abc", "c"], &vec!["abc", "bcd", "c"]);
    let expected = vec![
        DiffResult::Common(DiffElement {
            old_index: Some(0),
            new_index: Some(0),
            data: "abc",
        }),
        DiffResult::Added(DiffElement {
            old_index: None,
            new_index: Some(1),
            data: "bcd",
        }),
        DiffResult::Common(DiffElement {
            old_index: Some(1),
            new_index: Some(2),
            data: "c",
        }),
    ];

    assert_eq!(result, expected);
}

#[test]
fn should_create_diff_result_with_added_swapped() {
    let result = diff(&vec!["abc", "bcd", "c"], &vec!["abc", "c"]);
    let expected = vec![
        DiffResult::Common(DiffElement {
            old_index: Some(0),
            new_index: Some(0),
            data: "abc",
        }),
        DiffResult::Removed(DiffElement {
            old_index: Some(1),
            new_index: None,
            data: "bcd",
        }),
        DiffResult::Common(DiffElement {
            old_index: Some(2),
            new_index: Some(1),
            data: "c",
        }),
    ];

    assert_eq!(result, expected);
}

#[test]
fn should_create_diff_result_with_removed() {
    let result = diff(&vec!["abc", "bcd", "c"], &vec!["abc", "c"]);
    let expected = vec![
        DiffResult::Common(DiffElement {
            old_index: Some(0),
            new_index: Some(0),
            data: "abc",
        }),
        DiffResult::Removed(DiffElement {
            old_index: Some(1),
            new_index: None,
            data: "bcd",
        }),
        DiffResult::Common(DiffElement {
            old_index: Some(2),
            new_index: Some(1),
            data: "c",
        }),
    ];
    assert_eq!(result, expected);
}

#[test]
fn should_create_diff_result_without_new() {
    let result = diff(&vec!["abc", "bcd", "c"], &vec![]);
    let expected = vec![
        DiffResult::Removed(DiffElement {
            old_index: Some(0),
            new_index: None,
            data: "abc",
        }),
        DiffResult::Removed(DiffElement {
            old_index: Some(1),
            new_index: None,
            data: "bcd",
        }),
        DiffResult::Removed(DiffElement {
            old_index: Some(2),
            new_index: None,
            data: "c",
        }),
    ];
    assert_eq!(result, expected);
}

#[test]
fn should_create_diff_result_without_old() {
    let result = diff(&vec![], &vec!["abc", "bcd", "c"]);
    let expected = vec![
        DiffResult::Added(DiffElement {
            old_index: None,
            new_index: Some(0),
            data: "abc",
        }),
        DiffResult::Added(DiffElement {
            old_index: None,
            new_index: Some(1),
            data: "bcd",
        }),
        DiffResult::Added(DiffElement {
            old_index: None,
            new_index: Some(2),
            data: "c",
        }),
    ];
    assert_eq!(result, expected);
}

#[test]
fn should_create_empty_result_with_empty_input() {
    let result = diff(&vec![0u8; 0], &vec![0u8; 0]);
    let expected = vec![];
    assert_eq!(result, expected);
}

#[test]
fn should_create_one_removed_diff_result() {
    let result = diff(
        &vec!["abc", "bcd", "c", "aaa", "bbb", "ccc"],
        &vec!["abc", "c", "aaa", "bbb", "ccc"],
    );
    let expected = vec![
        DiffResult::Common(DiffElement {
            old_index: Some(0),
            new_index: Some(0),
            data: "abc",
        }),
        DiffResult::Removed(DiffElement {
            old_index: Some(1),
            new_index: None,
            data: "bcd",
        }),
        DiffResult::Common(DiffElement {
            old_index: Some(2),
            new_index: Some(1),
            data: "c",
        }),
        DiffResult::Common(DiffElement {
            old_index: Some(3),
            new_index: Some(2),
            data: "aaa",
        }),
        DiffResult::Common(DiffElement {
            old_index: Some(4),
            new_index: Some(3),
            data: "bbb",
        }),
        DiffResult::Common(DiffElement {
            old_index: Some(5),
            new_index: Some(4),
            data: "ccc",
        }),
    ];
    assert_eq!(result, expected);
}

#[test]
fn should_create_string_and_strength_diff_result() {
    let result = diff(
        &vec!["s", "t", "r", "e", "n", "g", "t", "h"],
        &vec!["s", "t", "r", "i", "n", "g"],
    );
    let expected = vec![
        DiffResult::Common(DiffElement {
            old_index: Some(0),
            new_index: Some(0),
            data: "s",
        }),
        DiffResult::Common(DiffElement {
            old_index: Some(1),
            new_index: Some(1),
            data: "t",
        }),
        DiffResult::Common(DiffElement {
            old_index: Some(2),
            new_index: Some(2),
            data: "r",
        }),
        DiffResult::Removed(DiffElement {
            old_index: Some(3),
            new_index: None,
            data: "e",
        }),
        DiffResult::Added(DiffElement {
            old_index: None,
            new_index: Some(3),
            data: "i",
        }),
        DiffResult::Common(DiffElement {
            old_index: Some(4),
            new_index: Some(4),
            data: "n",
        }),
        DiffResult::Common(DiffElement {
            old_index: Some(5),
            new_index: Some(5),
            data: "g",
        }),
        DiffResult::Removed(DiffElement {
            old_index: Some(6),
            new_index: None,
            data: "t",
        }),
        DiffResult::Removed(DiffElement {
            old_index: Some(7),
            new_index: None,
            data: "h",
        }),
    ];
    assert_eq!(result, expected);
}
