use stm_analysis::passes::default_name;
use stm_analysis::pretty::{PpMode, PpSourceMode, UserIdentifiedItem};

#[test]
fn default_name_is_last_path_segment() {
    assert_eq!(default_name("rustc_mir::transform::SimplifyCfg"), "SimplifyCfg");
    assert_eq!(default_name("Plain"), "Plain");
    assert_eq!(default_name("a::"), "");
    assert_eq!(default_name(""), "");
}

#[test]
fn analysis_needed_only_for_mir() {
    assert!(PpMode::PpmMir.needs_analysis());
    assert!(PpMode::PpmMirCFG.needs_analysis());
    assert!(!PpMode::PpmHir(PpSourceMode::PpmNormal).needs_analysis());
    assert!(!PpMode::PpmSource(PpSourceMode::PpmExpanded).needs_analysis());
}

#[test]
fn ast_map_needed_unless_plain_source() {
    let item = Some(UserIdentifiedItem::ItemViaNode(3));
    assert!(!PpMode::PpmSource(PpSourceMode::PpmNormal).needs_ast_map(&None));
    assert!(PpMode::PpmSource(PpSourceMode::PpmNormal).needs_ast_map(&item));
    assert!(!PpMode::PpmSource(PpSourceMode::PpmIdentified).needs_ast_map(&None));
    assert!(PpMode::PpmSource(PpSourceMode::PpmExpanded).needs_ast_map(&None));
    assert!(PpMode::PpmHirTree(PpSourceMode::PpmNormal).needs_ast_map(&None));
    assert!(PpMode::PpmMir.needs_ast_map(&None));
}

use stm_analysis::pretty::{parse_pretty, PrettyError};

fn path_of(item: &Option<UserIdentifiedItem>) -> Vec<String> {
    match item {
        Some(UserIdentifiedItem::ItemViaPath(parts)) => parts.clone(),
        _ => panic!("not a path"),
    }
}

#[test]
fn plain_modes_parse_without_extension() {
    let (mode, item) = parse_pretty("normal", false).unwrap();
    assert_eq!(mode, PpMode::PpmSource(PpSourceMode::PpmNormal));
    assert!(item.is_none());
    let (mode, _) = parse_pretty("expanded,identified", false).unwrap();
    assert_eq!(mode, PpMode::PpmSource(PpSourceMode::PpmExpandedIdentified));
    let (mode, _) = parse_pretty("expanded,hygiene", false).unwrap();
    assert_eq!(mode, PpMode::PpmSource(PpSourceMode::PpmExpandedHygiene));
}

#[test]
fn extended_modes_need_extension() {
    for name in ["mir", "mir-cfg", "hir", "hir,typed", "hir-tree", "everybody_loops"] {
        match parse_pretty(name, false) {
            Err(PrettyError::UnknownMode { name: n, extended }) => {
                assert_eq!(n, name);
                assert!(!extended);
            },
            Ok(_) => panic!("{} accepted without extension", name),
        }
    }
    assert_eq!(parse_pretty("mir", true).unwrap().0, PpMode::PpmMir);
    assert_eq!(parse_pretty("mir-cfg", true).unwrap().0, PpMode::PpmMirCFG);
    assert_eq!(parse_pretty("hir,typed", true).unwrap().0, PpMode::PpmHir(PpSourceMode::PpmTyped));
    assert_eq!(parse_pretty("hir-tree", true).unwrap().0, PpMode::PpmHirTree(PpSourceMode::PpmNormal));
    assert_eq!(parse_pretty("everybody_loops", true).unwrap().0, PpMode::PpmSource(PpSourceMode::PpmEveryBodyLoops));
}

#[test]
fn unknown_mode_is_refused() {
    match parse_pretty("typed", true) {
        Err(PrettyError::UnknownMode { name, extended }) => {
            assert_eq!(name, "typed");
            assert!(extended);
        },
        Ok(_) => panic!("unknown mode accepted"),
    }
    assert!(parse_pretty("", true).is_err());
}

#[test]
fn item_after_equals_sign() {
    let (mode, item) = parse_pretty("hir=foo::bar::baz", true).unwrap();
    assert_eq!(mode, PpMode::PpmHir(PpSourceMode::PpmNormal));
    assert_eq!(path_of(&item), vec!["foo", "bar", "baz"]);
    let (_, item) = parse_pretty("normal=42", false).unwrap();
    assert!(matches!(item, Some(UserIdentifiedItem::ItemViaNode(42))));
    let (_, item) = parse_pretty("normal=+7", false).unwrap();
    assert!(matches!(item, Some(UserIdentifiedItem::ItemViaNode(7))));
    let (_, item) = parse_pretty("normal=a=b", false).unwrap();
    assert_eq!(path_of(&item), vec!["a=b"]);
}

#[test]
fn item_ids_and_paths() {
    assert!(matches!(UserIdentifiedItem::parse("4294967295"), UserIdentifiedItem::ItemViaNode(4294967295)));
    assert_eq!(path_of(&Some(UserIdentifiedItem::parse("4294967296"))), vec!["4294967296"]);
    assert_eq!(path_of(&Some(UserIdentifiedItem::parse("12x"))), vec!["12x"]);
    assert_eq!(path_of(&Some(UserIdentifiedItem::parse("+"))), vec!["+"]);
    assert_eq!(path_of(&Some(UserIdentifiedItem::parse(""))), vec![""]);
    assert_eq!(path_of(&Some(UserIdentifiedItem::parse("::a:::b"))), vec!["", "a", ":b"]);
    assert_eq!(path_of(&Some(UserIdentifiedItem::parse("a::"))), vec!["a", ""]);
}
