use koto::mtime::Measure;
use koto::tapirlisp::dump::{dump, dump_unit};
use koto::ugen::ugcore::Parameter;

fn val(s: &str) -> Box<Parameter> {
    Box::new(Parameter::Value(s.to_string()))
}

#[test]
fn dump_value_is_its_numeral() {
    assert_eq!(dump_unit(&Parameter::Value("0.25".to_string())), "0.25");
}

#[test]
fn dump_table_and_pattern() {
    let t = Parameter::Table(vec!["-1".to_string(), "0".to_string(), "1".to_string()]);
    assert_eq!(dump_unit(&t), "(table -1 0 1)");
    let p = Parameter::Pattern(vec!["(c4 4)".to_string(), "loop".to_string()]);
    assert_eq!(dump_unit(&p), "(pat (c4 4) loop)");
    assert_eq!(dump_unit(&Parameter::Table(vec![])), "(table )");
}

#[test]
fn dump_unit_with_parameters() {
    let sine = Parameter::UG(
        "sine".to_string(),
        vec!["init_ph".to_string(), "freq".to_string()],
        vec![val("0"), val("440")],
    );
    let out = Parameter::UG(
        "out".to_string(),
        vec!["vol".to_string()],
        vec![val("0.25"), Box::new(sine)],
    );
    assert_eq!(dump_unit(&out), "(out 0.25 (sine 0 440))");
}

#[test]
fn dump_skips_separator_after_empty_text() {
    let u = Parameter::UG("+".to_string(), vec![], vec![val(""), val("1")]);
    assert_eq!(dump_unit(&u), "(+ 1)");
    let w = Parameter::UG("+".to_string(), vec![], vec![]);
    assert_eq!(dump_unit(&w), "(+ )");
}

#[test]
fn dump_of_a_configuration() {
    let shared = vec![Parameter::UG("sine".to_string(), vec!["freq".to_string()], vec![val("1")])];
    let graph = Parameter::UG(
        "out".to_string(),
        vec!["amp".to_string(), "src".to_string()],
        vec![val("0.25"), val("shared-0")],
    );
    let text = dump(&"120".to_string(), &Measure { beat: 4, note: 4 }, &shared, &graph);
    assert_eq!(
        text,
        ";; environment\n(bpm 120)\n(measure 4 4)\n\n;; shared units\n(def shared-0 (sine 1))\n\n;; unit graph\n(out 0.25 shared-0)\n"
    );
    let bare = dump(&"90.5".to_string(), &Measure { beat: 3, note: 8 }, &vec![], &Parameter::Value("0".to_string()));
    assert_eq!(bare, ";; environment\n(bpm 90.5)\n(measure 3 8)\n\n;; shared units\n\n;; unit graph\n0\n");
}
