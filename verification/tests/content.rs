use grammar_macros::content::ContentLocation;
use std::path::Path;

#[test]
fn content_location_holds_a_path_or_a_string() {
    let path = Path::new("grammar.rules");
    match ContentLocation::File(path) {
        ContentLocation::File(p) => assert_eq!(p, Path::new("grammar.rules")),
        ContentLocation::String(_) => panic!("expected a file"),
    }
    match ContentLocation::String("a -> b;") {
        ContentLocation::String(s) => assert_eq!(s, "a -> b;"),
        ContentLocation::File(_) => panic!("expected a string"),
    }
}
