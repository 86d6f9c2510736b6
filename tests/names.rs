use fastar::cache::derive_names;
use fastar::{get_relative_name_without_suffix, normalize_path_separators, FastarError};

#[test]
fn name_is_relative_path_without_suffix() {
    assert_eq!(
        get_relative_name_without_suffix("root/sub/chr1.fna.gz", "root", ".fna.gz"),
        Ok("sub/chr1".to_string())
    );
}

#[test]
fn name_does_not_depend_on_separator() {
    assert_eq!(
        get_relative_name_without_suffix("root\\sub\\chr1.fna.gz", "root", ".fna.gz"),
        Ok("sub/chr1".to_string())
    );
    assert_eq!(
        get_relative_name_without_suffix("root/a\\b//./c.track.gz", "root", ".track.gz"),
        Ok("a/b/c".to_string())
    );
}

#[test]
fn name_of_file_directly_under_root() {
    assert_eq!(
        get_relative_name_without_suffix("/data/root/chr1.fna.gz", "/data/root/", ".fna.gz"),
        Ok("chr1".to_string())
    );
}

#[test]
fn names_that_cannot_be_derived() {
    assert_eq!(
        get_relative_name_without_suffix("other/chr1.fna.gz", "root", ".fna.gz"),
        Err(FastarError::InvalidPath)
    );
    assert_eq!(
        get_relative_name_without_suffix("root/chr1.fa", "root", ".fna.gz"),
        Err(FastarError::InvalidPath)
    );
    assert_eq!(
        get_relative_name_without_suffix("root/sub/..", "root", ""),
        Err(FastarError::InvalidPath)
    );
}

#[test]
fn separators_are_normalized() {
    assert_eq!(normalize_path_separators("a\\b/./c//d"), Ok("a/b/c/d".to_string()));
    assert_eq!(normalize_path_separators("/x/../y"), Ok("x/y".to_string()));
    assert_eq!(normalize_path_separators(""), Ok(String::new()));
}

#[test]
fn names_of_all_found_files() {
    let paths = vec!["r/a.fna.gz".to_string(), "r/s/b.fna.gz".to_string()];
    assert_eq!(derive_names(&paths, "r", ".fna.gz"), Ok(vec!["a".to_string(), "s/b".to_string()]));
    let bad = vec!["r/a.fna.gz".to_string(), "q/b.fna.gz".to_string()];
    assert_eq!(derive_names(&bad, "r", ".fna.gz"), Err(FastarError::InvalidPath));
}
