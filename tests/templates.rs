use odoo_ls_core::template::{fill_template, has_template};

fn vars() -> Vec<(String, String)> {
    vec![
        ("userHome".to_string(), "/home/u".to_string()),
        ("workspaceFolder:main".to_string(), "/ws/main".to_string()),
    ]
}

#[test]
fn detects_variables() {
    assert!(has_template("${userHome}/addons"));
    assert!(has_template("x${a}"));
    assert!(!has_template("${}"));
    assert!(!has_template("$ {a}"));
    assert!(!has_template("${abc"));
    assert!(!has_template("/plain/path"));
}

#[test]
fn fills_known_variables() {
    assert_eq!(fill_template("${userHome}/addons", &vars()), Ok("/home/u/addons".to_string()));
    assert_eq!(
        fill_template("${workspaceFolder:main}/a/${userHome}", &vars()),
        Ok("/ws/main/a//home/u".to_string())
    );
    assert_eq!(fill_template("no vars", &vars()), Ok("no vars".to_string()));
    assert_eq!(fill_template("${}x", &vars()), Ok("${}x".to_string()));
}

#[test]
fn unknown_variable_is_an_error() {
    assert_eq!(fill_template("${foo}/x", &vars()), Err("Invalid key (foo) in pattern".to_string()));
    assert_eq!(fill_template("${a}${b}", &vars()), Err("Invalid key (b) in pattern".to_string()));
}
