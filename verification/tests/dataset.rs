use multi_skill::data_processing::{
    contest_ids, contest_ids_from_json, file_format, get_dataset_by_name, DatasetSource, FileFormat,
};

#[test]
fn the_extension_decides_on_the_format() {
    assert_eq!(file_format(Some("json")), Ok(FileFormat::Json));
    assert_eq!(file_format(Some("csv")), Ok(FileFormat::Csv));
    let refusal = Err("Invalid or missing filename extension".to_string());
    assert_eq!(file_format(Some("txt")), refusal);
    assert_eq!(file_format(Some("JSON")), refusal);
    assert_eq!(file_format(Some("")), refusal);
    assert_eq!(file_format(None), refusal);
}

#[test]
fn the_codeforces_dataset_comes_from_the_api() {
    match get_dataset_by_name("codeforces").unwrap() {
        DatasetSource::Codeforces { contest_id_file, rate_limit_millis, cache_dir } => {
            assert_eq!(contest_id_file, "../data/codeforces/contest_ids.json");
            assert_eq!(rate_limit_millis, 500);
            assert_eq!(cache_dir, "../cache/codeforces");
        }
        other => panic!("{:?}", other),
    }
}

#[test]
fn other_datasets_come_from_disk() {
    for name in ["topcoder", "", "Codeforces", "codeforces2"] {
        match get_dataset_by_name(name).unwrap() {
            DatasetSource::Disk { dir } => assert_eq!(dir, format!("../cache/{}", name)),
            other => panic!("{:?}", other),
        }
    }
}

#[test]
fn contest_ids_are_read_from_json() {
    assert_eq!(contest_ids_from_json("[1, 2,\n 1301 ]"), Ok(vec![1, 2, 1301]));
    assert_eq!(contest_ids_from_json("[]"), Ok(vec![]));
    let refusal = Err("Failed to parse JSON contest IDs as a Vec<usize>".to_string());
    for bad in ["", "[1, -2]", "[1.5]", "{\"a\": 1}", "[1, 2", "[\"1\"]", "[1] x", "[18446744073709551616]"] {
        assert_eq!(contest_ids_from_json(bad), refusal);
    }
}

#[test]
fn contest_ids_come_from_a_list_of_numbers() {
    assert_eq!(contest_ids(Some(vec![4, 0, 4])), Ok(vec![4, 0, 4]));
    assert_eq!(
        contest_ids(None),
        Err("Failed to parse JSON contest IDs as a Vec<usize>".to_string())
    );
}
