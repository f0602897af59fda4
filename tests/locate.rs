use refinery_macros::{locate, matches_extension, parse_stem, DiscoveryError, MigrationFile, MigrationType};

fn listing(names: &[&str]) -> Option<Vec<String>> {
    Some(names.iter().map(|n| n.to_string()).collect())
}

fn names_of(files: &[MigrationFile]) -> Vec<String> {
    files.iter().map(|f| f.name.clone()).collect()
}

#[test]
fn orders_by_numeric_version() {
    let files = locate(listing(&["V2__b.sql", "V10__c.sql", "V1__a.sql"]), MigrationType::Sql).unwrap();
    assert_eq!(names_of(&files), vec!["V1__a", "V2__b", "V10__c"]);
    assert_eq!(files.iter().map(|f| f.version).collect::<Vec<_>>(), vec![1, 2, 10]);
    assert_eq!(files[2].file_name, "V10__c.sql");
    assert_eq!(files[2].description, "c");
}

#[test]
fn valid_listing_keeps_every_file() {
    let files = locate(
        listing(&["V3__add_city.sql", "V1__initial.sql", "V2__add_cars_table.sql"]),
        MigrationType::Sql,
    )
    .unwrap();
    assert_eq!(files.len(), 3);
    assert!(files.windows(2).all(|w| w[0].version < w[1].version));
    assert_eq!(files[1].description, "add_cars_table");
}

#[test]
fn invalid_name_fails_whole_discovery() {
    let r = locate(listing(&["V1__a.sql", "V2-b.sql", "V3__c.sql"]), MigrationType::Sql);
    match r {
        Err(DiscoveryError::InvalidName(n)) => assert_eq!(n, "V2-b.sql"),
        other => panic!("unexpected {:?}", other),
    }
}

#[test]
fn first_invalid_name_is_reported() {
    let r = locate(listing(&["V1__a.sql", "x.sql", "V__b.sql"]), MigrationType::Sql);
    match r {
        Err(DiscoveryError::InvalidName(n)) => assert_eq!(n, "x.sql"),
        other => panic!("unexpected {:?}", other),
    }
}

#[test]
fn shared_version_fails() {
    let r = locate(listing(&["V1__a.sql", "V1__b.sql"]), MigrationType::Sql);
    assert!(matches!(r, Err(DiscoveryError::DuplicateVersion(1))));
}

#[test]
fn leading_zeros_give_the_same_version() {
    let r = locate(listing(&["V01__a.sql", "V1__b.sql"]), MigrationType::Sql);
    assert!(matches!(r, Err(DiscoveryError::DuplicateVersion(1))));
}

#[test]
fn invalid_name_wins_over_duplicate() {
    let r = locate(listing(&["V1__a.sql", "V1__b.sql", "bad.sql"]), MigrationType::Sql);
    assert!(matches!(r, Err(DiscoveryError::InvalidName(_))));
}

#[test]
fn other_extensions_are_ignored() {
    let files = locate(
        listing(&["README.md", "V1__a.sql", "notes.txt", "V2__b.rs", "V3__c.sql.bak"]),
        MigrationType::Sql,
    )
    .unwrap();
    assert_eq!(names_of(&files), vec!["V1__a"]);
    let mods = locate(listing(&["mod.txt", "V2__b.rs", "V1__a.sql"]), MigrationType::Mod).unwrap();
    assert_eq!(names_of(&mods), vec!["V2__b"]);
}

#[test]
fn missing_root_is_invalid_root() {
    assert!(matches!(locate(None, MigrationType::Sql), Err(DiscoveryError::InvalidRoot)));
    assert!(matches!(locate(None, MigrationType::Mod), Err(DiscoveryError::InvalidRoot)));
}

#[test]
fn empty_directory_gives_no_files() {
    assert_eq!(locate(listing(&[]), MigrationType::Sql).unwrap().len(), 0);
}

#[test]
fn version_too_large_is_invalid() {
    let r = locate(listing(&["V18446744073709551616__a.sql"]), MigrationType::Sql);
    assert!(matches!(r, Err(DiscoveryError::InvalidName(_))));
    let files = locate(listing(&["V18446744073709551615__a.sql"]), MigrationType::Sql).unwrap();
    assert_eq!(files[0].version, u64::MAX);
}

#[test]
fn parse_stem_cases() {
    assert_eq!(parse_stem("V1__first"), Some((1, "first".to_string())));
    assert_eq!(parse_stem("V42__add_Cars_2"), Some((42, "add_Cars_2".to_string())));
    assert_eq!(parse_stem("V1___x"), Some((1, "_x".to_string())));
    assert_eq!(parse_stem("V1__"), None);
    assert_eq!(parse_stem("V__a"), None);
    assert_eq!(parse_stem("v1__a"), None);
    assert_eq!(parse_stem("V1_a"), None);
    assert_eq!(parse_stem("V1__a-b"), None);
    assert_eq!(parse_stem("V1__a.b"), None);
    assert_eq!(parse_stem(""), None);
}

#[test]
fn extension_cases() {
    let sql = MigrationType::Sql.extension();
    assert!(matches_extension("V1__a.sql", &sql));
    assert!(!matches_extension(".sql", &sql));
    assert!(matches_extension("..sql", &sql));
    assert!(!matches_extension("V1__a.SQL", &sql));
    assert!(!matches_extension("V1__asql", &sql));
    assert!(!matches_extension("V1__a.rs", &sql));
    assert!(matches_extension("V1__a.rs", &MigrationType::Mod.extension()));
}
