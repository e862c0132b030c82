use zero_trim::{derive_renamings, try_derive_renamings, NoFileName, Renaming};

fn paths(texts: &[&str]) -> Vec<String> {
    texts.iter().map(|text| text.to_string()).collect()
}

#[test]
fn test_derive_renamings() {
    let current_file_names = vec![
        String::from("input/0001.1.jpg"),
        String::from("input/0052.8.jpg"),
    ];
    let renamings = derive_renamings(&current_file_names, "output");
    let expected_renamings = vec![
        Renaming {
            current_name: current_file_names[0].clone(),
            new_name: "output/1.1.jpg".into(),
        },
        Renaming {
            current_name: current_file_names[1].clone(),
            new_name: "output/52.8.jpg".into(),
        },
    ];
    assert_eq!(renamings, expected_renamings);
}

#[test]
fn derive_renamings_of_nothing_is_empty() {
    let renamings = derive_renamings(&[], "output");
    assert_eq!(renamings, Vec::<Renaming>::new());
}

#[test]
fn derive_one_keeps_the_source_and_uses_only_the_file_name() {
    let renaming = Renaming::derive("some/deep/dir/007.txt", "out");
    assert_eq!(renaming.current_name, "some/deep/dir/007.txt");
    assert_eq!(renaming.new_name, "out/7.txt");
}

#[test]
fn derive_one_leaves_a_name_without_leading_zero() {
    let renaming = Renaming::derive("input/photo-001.jpg", "output");
    assert_eq!(renaming.current_name, "input/photo-001.jpg");
    assert_eq!(renaming.new_name, "output/photo-001.jpg");
}

#[test]
fn derive_one_trims_only_the_file_name() {
    let renaming = Renaming::derive("00input/0100.jpg", "00output");
    assert_eq!(renaming.current_name, "00input/0100.jpg");
    assert_eq!(renaming.new_name, "00output/100.jpg");
}

#[test]
fn derive_one_of_a_name_of_zeros_targets_the_directory() {
    let renaming = Renaming::derive("input/000", "output");
    assert_eq!(renaming.current_name, "input/000");
    assert_eq!(renaming.new_name, "output/");
}

#[test]
fn derive_one_of_a_bare_file_name() {
    let renaming = Renaming::derive("0042", "output");
    assert_eq!(renaming.current_name, "0042");
    assert_eq!(renaming.new_name, "output/42");
}

#[test]
fn derive_one_of_a_subdirectory_entry() {
    let renaming = Renaming::derive("input/00sub/", "output");
    assert_eq!(renaming.current_name, "input/00sub/");
    assert_eq!(renaming.new_name, "output/sub");
}

#[test]
fn two_names_may_collide() {
    let renamings = derive_renamings(&paths(&["input/001.jpg", "input/01.jpg"]), "output");
    assert_eq!(renamings.len(), 2);
    assert_eq!(renamings[0].new_name, "output/1.jpg");
    assert_eq!(renamings[1].new_name, "output/1.jpg");
}

#[test]
fn renamings_come_in_the_order_of_the_paths() {
    let listed = paths(&["input/b", "input/0a", "input/00c"]);
    let renamings = derive_renamings(&listed, "output");
    let sources: Vec<&str> = renamings.iter().map(|r| r.current_name.as_str()).collect();
    let targets: Vec<&str> = renamings.iter().map(|r| r.new_name.as_str()).collect();
    assert_eq!(sources, vec!["input/b", "input/0a", "input/00c"]);
    assert_eq!(targets, vec!["output/b", "output/a", "output/c"]);
}

#[test]
fn try_derive_agrees_with_derive_where_every_path_has_a_name() {
    let listed = paths(&["input/0001.1.jpg", "input/0052.8.jpg"]);
    let planned = try_derive_renamings(&listed, "output");
    assert_eq!(planned, Ok(derive_renamings(&listed, "output")));
}

#[test]
fn try_derive_of_nothing_is_an_empty_plan() {
    assert_eq!(try_derive_renamings(&[], "output"), Ok(Vec::new()));
}

#[test]
fn try_derive_tells_the_first_path_without_a_file_name() {
    let listed = paths(&["input/01", "/", "input/02", ".."]);
    assert_eq!(try_derive_renamings(&listed, "output"), Err(NoFileName { index: 1 }));
}

#[test]
fn try_derive_refuses_a_path_that_ends_in_the_parent() {
    let listed = paths(&["input/.."]);
    assert_eq!(try_derive_renamings(&listed, "output"), Err(NoFileName { index: 0 }));
}

#[test]
fn try_derive_refuses_the_empty_path() {
    let listed = paths(&["input/01", "input/02", ""]);
    assert_eq!(try_derive_renamings(&listed, "output"), Err(NoFileName { index: 2 }));
}
