use trek::scaffold::{select_frameworks, ScaffoldPart, Scaffolding, DEFAULT_STYLUA_TOML};

#[test]
fn frameworks_are_matched_without_case() {
    let names = vec![
        "esx".to_string(),
        "QBCORE".to_string(),
        "unknown".to_string(),
        "none".to_string(),
        "Qbox".to_string(),
    ];
    assert_eq!(select_frameworks(&names), vec!["ESX", "QBCore", "None", "Qbox"]);
    assert_eq!(select_frameworks(&vec![]), Vec::<&str>::new());
}

#[test]
fn scaffolding_flags_follow_frameworks() {
    let frameworks = ["ESX", "QBCore"];
    let s = Scaffolding::new("test_resource", "A test resource description", &frameworks);
    assert_eq!(s.resource_name, "test_resource");
    assert_eq!(s.fxmanifest.description, "A test resource description");
    assert!(s.src.shared.is_esx && s.src.shared.is_qbcore && !s.src.shared.is_qbox);
    assert!(s.config.client_config.is_esx && !s.config.server_config.is_qbox);
    assert_eq!(s.config.share_config.resource_name, "test_resource");
    assert_eq!(s.src.client.resource_name, "test_resource");

    let none = ["None"];
    let s = Scaffolding::new("r", "d", &none);
    assert!(!s.config.share_config.is_esx && !s.config.share_config.is_qbcore);
    assert!(!s.config.share_config.is_qbox);
}

#[test]
fn generated_files_are_laid_out_in_order() {
    let frameworks: [&str; 0] = [];
    let s = Scaffolding::new("res", "d", &frameworks);
    let files = s.generate_all();
    let paths: Vec<&str> = files.iter().map(|f| f.path.as_str()).collect();
    assert_eq!(
        paths,
        vec![
            "res/fxmanifest.lua",
            "res/src/client/client.lua",
            "res/src/server/server.lua",
            "res/src/shared/utils.lua",
            "res/config/share.lua",
            "res/config/client.lua",
            "res/config/server.lua",
            "res/.pack",
            "res/stylua.toml",
        ]
    );
    assert_eq!(files[0].part, ScaffoldPart::Fxmanifest);
    assert_eq!(files[8].part, ScaffoldPart::StyluaToml);
    assert!(DEFAULT_STYLUA_TOML.starts_with("column_width = 120\n"));
}
