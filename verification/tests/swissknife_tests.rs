use genicam_rs::genapi::GenApiError;
use genicam_rs::nodemap::NodeMap;
use genicam_rs::xml_model::{SkOutput, SwissKnifeDecl};
use genicam_rs::xml_nodes::NodeDecl;
use genicam_rs::xml_parse::{parse, XmlModel};

const SWISSKNIFE_FIXTURE: &str = r#"
    <RegisterDescription SchemaMajorVersion="1" SchemaMinorVersion="0" SchemaSubMinorVersion="0">
        <Integer Name="GainRaw">
            <Address>0x3000</Address>
            <Length>4</Length>
            <AccessMode>RW</AccessMode>
            <Min>0</Min>
            <Max>1000</Max>
        </Integer>
        <Float Name="Offset">
            <Address>0x3008</Address>
            <Length>4</Length>
            <AccessMode>RW</AccessMode>
            <Min>-100.0</Min>
            <Max>100.0</Max>
        </Float>
        <Integer Name="B">
            <Address>0x3010</Address>
            <Length>4</Length>
            <AccessMode>RW</AccessMode>
            <Min>-1000</Min>
            <Max>1000</Max>
        </Integer>
        <SwissKnife Name="ComputedGain">
            <Expression>(GainRaw * 0.5) + Offset</Expression>
            <pVariable Name="GainRaw">GainRaw</pVariable>
            <pVariable Name="Offset">Offset</pVariable>
            <Output>Float</Output>
        </SwissKnife>
        <SwissKnife Name="DivideInt">
            <Expression>GainRaw / 3</Expression>
            <pVariable Name="GainRaw">GainRaw</pVariable>
            <Output>Integer</Output>
        </SwissKnife>
        <SwissKnife Name="Unary">
            <Expression>-GainRaw + 10</Expression>
            <pVariable Name="GainRaw">GainRaw</pVariable>
            <Output>Integer</Output>
        </SwissKnife>
        <SwissKnife Name="DivideByZero">
            <Expression>GainRaw / B</Expression>
            <pVariable Name="GainRaw">GainRaw</pVariable>
            <pVariable Name="B">B</pVariable>
            <Output>Float</Output>
        </SwissKnife>
    </RegisterDescription>
"#;

#[test]
fn swissknife_unknown_variable_error() {
    const XML: &str = r#"
        <RegisterDescription SchemaMajorVersion="1" SchemaMinorVersion="0" SchemaSubMinorVersion="0">
            <Integer Name="A">
                <Address>0x2000</Address>
                <Length>4</Length>
                <AccessMode>RW</AccessMode>
                <Min>0</Min>
                <Max>100</Max>
            </Integer>
            <SwissKnife Name="Bad">
                <Expression>A + Missing</Expression>
                <pVariable Name="A">A</pVariable>
            </SwissKnife>
        </RegisterDescription>
    "#;

    let model = parse(XML).expect("parse invalid swissknife");
    let err = NodeMap::try_from_xml(model).expect_err("unknown variable");
    match err {
        GenApiError::UnknownVariable { name, var } => {
            assert_eq!(name, "Bad");
            assert_eq!(var, "Missing");
        }
        other => panic!("unexpected error: {other:?}"),
    }
}

fn sk_model(expr: &str, vars: &[(&str, &str)]) -> XmlModel {
    XmlModel {
        version: "1.0.0".to_string(),
        nodes: vec![NodeDecl::SwissKnife(SwissKnifeDecl {
            name: "Sk".to_string(),
            expr: expr.to_string(),
            variables: vars.iter().map(|(a, b)| (a.to_string(), b.to_string())).collect(),
            output: SkOutput::Float,
        })],
    }
}

fn sk_result(expr: &str, vars: &[(&str, &str)]) -> Result<NodeMap, GenApiError> {
    NodeMap::try_from_xml(sk_model(expr, vars))
}

#[test]
fn swissknife_fixture_formulas_are_accepted() {
    let model = parse(SWISSKNIFE_FIXTURE).expect("parse swissknife fixture");
    let map = NodeMap::try_from_xml(model).expect("valid formulas");
    assert!(map.node("ComputedGain").is_some());
    assert!(map.node("DivideByZero").is_some());
}

#[test]
fn swissknife_variable_is_checked_against_its_name_not_its_provider() {
    match sk_result("Gain + Raw", &[("Gain", "Raw")]) {
        Err(GenApiError::UnknownVariable { name, var }) => {
            assert_eq!(name, "Sk");
            assert_eq!(var, "Raw");
        }
        other => panic!("unexpected result: {:?}", other.err()),
    }
}

#[test]
fn swissknife_grammar_accepts_functions_constants_and_operators() {
    let vars = [("A", "A"), ("B", "B")];
    for expr in [
        "SIN(A) + PI * E",
        "A > 1 ? A : 0",
        "(A << 2) | (B & 0xFF) ^ ~A",
        "A ** 2 ** B",
        "ROUND(A / B, 2)",
        "A <> B && !(A = B) || A >= B",
        "  A%3  ",
    ] {
        assert!(sk_result(expr, &vars).is_ok(), "{expr} should parse");
    }
}

#[test]
fn swissknife_bad_formulas_give_expr_parse() {
    for expr in ["A + * B", "", "(A", "A B", "FOO(A)", "A ? B", "A $ B", "SIN()", "1.5e"] {
        match sk_result(expr, &[("A", "A"), ("B", "B")]) {
            Err(GenApiError::ExprParse { name, msg }) => {
                assert_eq!(name, "Sk");
                assert_eq!(msg, format!("invalid expression '{expr}'"));
            }
            other => panic!("{expr}: unexpected result: {:?}", other.err()),
        }
    }
}

#[test]
fn swissknife_first_bad_declaration_decides() {
    let mut model = sk_model("A + Missing", &[("A", "A")]);
    let mut second = sk_model("((", &[]);
    model.nodes.append(&mut second.nodes);
    match NodeMap::try_from_xml(model) {
        Err(GenApiError::UnknownVariable { var, .. }) => assert_eq!(var, "Missing"),
        other => panic!("unexpected result: {:?}", other.err()),
    }
}
