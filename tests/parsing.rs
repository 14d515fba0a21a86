use cliquesum::config::{Config, ConfigError};
use cliquesum::triple::{is_type_pred, split_fields, triple_terms, Triple, TYPE_STRING};

fn args(v: &[&str]) -> Vec<String> {
    v.iter().map(|s| s.to_string()).collect()
}

#[test]
fn config_help_and_bare_program() {
    assert!(matches!(Config::new(&args(&["prog"]), true, true, true), Err(ConfigError::Help)));
    assert!(matches!(Config::new(&args(&["prog", "--help"]), true, true, true), Err(ConfigError::Help)));
    assert!(matches!(Config::new(&args(&["prog", "-h", "x", "y"]), true, true, true), Err(ConfigError::Help)));
}

#[test]
fn config_errors_in_order() {
    assert!(matches!(Config::new(&args(&["prog", "d"]), true, true, true), Err(ConfigError::NotEnoughArguments)));
    assert!(matches!(Config::new(&args(&["prog", "d", "u", "m"]), false, true, true), Err(ConfigError::DatasetMissing)));
    assert!(matches!(Config::new(&args(&["prog", "d", "u", "m"]), true, false, true), Err(ConfigError::UpdateMissing)));
    assert!(matches!(Config::new(&args(&["prog", "d", "u"]), true, true, true), Err(ConfigError::NotEnoughArguments)));
    assert!(matches!(Config::new(&args(&["prog", "d", "u", "m", "--fast"]), true, true, true), Err(ConfigError::FastModeMetaExists)));
    assert!(matches!(Config::new(&args(&["prog", "d", "u", "m"]), true, true, false), Err(ConfigError::SlowModeMetaMissing)));
}

#[test]
fn config_accepts_both_modes() {
    let c = Config::new(&args(&["prog", "d", "u", "m"]), true, true, true).unwrap();
    assert_eq!(c.dataset_path, "d");
    assert_eq!(c.update_path, "u");
    assert_eq!(c.meta_folder_path, "m");
    assert!(!c.use_fast);
    let f = Config::new(&args(&["prog", "d", "u", "m", "-f"]), true, true, false).unwrap();
    assert!(f.use_fast);
    let g = Config::new(&args(&["prog", "d", "u", "m", "--other"]), true, true, true).unwrap();
    assert!(!g.use_fast);
}

#[test]
fn split_fields_at_single_spaces() {
    assert_eq!(split_fields("<a> <b> <c> ."), vec!["<a>", "<b>", "<c>", "."]);
    assert_eq!(split_fields(""), vec![""]);
    assert_eq!(split_fields("a  b"), vec!["a", "", "b"]);
    assert_eq!(split_fields("é ü"), vec!["é", "ü"]);
}

#[test]
fn triple_terms_needs_three_fields() {
    assert_eq!(
        triple_terms("<s> <p> <o> ."),
        Some(("<s>".to_string(), "<p>".to_string(), "<o>".to_string()))
    );
    assert_eq!(triple_terms("<s> <p>"), None);
}

#[test]
fn type_predicate_is_recognised() {
    assert!(is_type_pred(&TYPE_STRING.to_string()));
    assert!(is_type_pred(&"<http://www.w3.org/1999/02/22-rdf-syntax-ns#type>".to_string()));
    assert!(!is_type_pred(&"<http://example.org/p>".to_string()));
    let t = Triple { sub: 1, pred: 2, obj: 3, is_type: true };
    assert!(t.is_type && t.sub == 1 && t.pred == 2 && t.obj == 3);
}
