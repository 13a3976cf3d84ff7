use genicam_rs::xml_events::parse_into_minimal_nodes;
use genicam_rs::xml_model::{Addressing, ByteOrder, EnumValueSrc, SkOutput, XmlError};
use genicam_rs::xml_nodes::{NodeDecl, ScaleNum};
use genicam_rs::xml_parse::parse;

const FIXTURE: &str = r#"
    <RegisterDescription SchemaMajorVersion="1" SchemaMinorVersion="2" SchemaSubMinorVersion="3">
        <Category Name="Root">
            <pFeature>Gain</pFeature>
            <pFeature>GainSelector</pFeature>
        </Category>
        <Integer Name="Width">
            <Address>0x0000_0100</Address>
            <Length>4</Length>
            <AccessMode>RW</AccessMode>
            <Min>16</Min>
            <Max>4096</Max>
            <Inc>2</Inc>
        </Integer>
        <Float Name="ExposureTime">
            <Address>0x0000_0200</Address>
            <Length>4</Length>
            <AccessMode>RW</AccessMode>
            <Min>10.0</Min>
            <Max>200000.0</Max>
            <Scale>1/1000</Scale>
            <Offset>0.0</Offset>
        </Float>
        <Enumeration Name="GainSelector">
            <Address>0x0000_0300</Address>
            <Length>2</Length>
            <AccessMode>RW</AccessMode>
            <EnumEntry Name="AnalogAll" Value="0" />
            <EnumEntry Name="DigitalAll" Value="1" />
        </Enumeration>
        <Integer Name="Gain">
            <Address>0x0000_0304</Address>
            <Length>2</Length>
            <AccessMode>RW</AccessMode>
            <Min>0</Min>
            <Max>48</Max>
            <pSelected>GainSelector</pSelected>
            <Selected>AnalogAll</Selected>
        </Integer>
        <Boolean Name="GammaEnable">
            <Address>0x0000_0400</Address>
            <Length>1</Length>
            <AccessMode>RW</AccessMode>
        </Boolean>
        <Command Name="AcquisitionStart">
            <Address>0x0000_0500</Address>
            <Length>4</Length>
        </Command>
    </RegisterDescription>
"#;

fn text_number(s: &Option<String>) -> Option<f64> {
    s.as_deref().map(|t| t.trim().parse::<f64>().expect("number"))
}

fn invalid_message<T: std::fmt::Debug>(r: Result<T, XmlError>) -> String {
    match r {
        Err(XmlError::Invalid(m)) => m,
        other => panic!("expected an invalid-document error, got {other:?}"),
    }
}

fn one_node(body: &str) -> Result<NodeDecl, XmlError> {
    let xml = format!("<RegisterDescription>{body}</RegisterDescription>");
    let mut model = parse(&xml)?;
    assert_eq!(model.nodes.len(), 1);
    Ok(model.nodes.remove(0))
}

#[test]
fn parse_minimal_summary() {
    let info = parse_into_minimal_nodes(FIXTURE).expect("parse xml");
    assert_eq!(info.schema_version.as_deref(), Some("1.2.3"));
    assert_eq!(info.top_level_features.len(), 7);
    assert_eq!(info.top_level_features[0], "Root");
}

#[test]
fn parse_fixture_model() {
    let model = parse(FIXTURE).expect("parse fixture");
    assert_eq!(model.version, "1.2.3");
    assert_eq!(model.nodes.len(), 7);
    match &model.nodes[0] {
        NodeDecl::Category { name, children } => {
            assert_eq!(name, "Root");
            assert_eq!(children, &vec!["Gain".to_string(), "GainSelector".to_string()]);
        }
        other => panic!("unexpected node: {other:?}"),
    }
    match &model.nodes[1] {
        NodeDecl::Integer { name, min, max, inc, .. } => {
            assert_eq!(name, "Width");
            assert_eq!(*min, 16);
            assert_eq!(*max, 4096);
            assert_eq!(*inc, Some(2));
        }
        other => panic!("unexpected node: {other:?}"),
    }
    match &model.nodes[2] {
        NodeDecl::Float { name, scale, offset, .. } => {
            assert_eq!(name, "ExposureTime");
            assert_eq!(*scale, Some((ScaleNum::Int(1), 1000)));
            assert_eq!(text_number(offset), Some(0.0));
        }
        other => panic!("unexpected node: {other:?}"),
    }
    match &model.nodes[3] {
        NodeDecl::Enum { name, entries, .. } => {
            assert_eq!(name, "GainSelector");
            assert_eq!(entries.len(), 2);
            assert!(matches!(entries[0].value, EnumValueSrc::Literal(0)));
            assert!(matches!(entries[1].value, EnumValueSrc::Literal(1)));
        }
        other => panic!("unexpected node: {other:?}"),
    }
    match &model.nodes[4] {
        NodeDecl::Integer { name, selected_if, .. } => {
            assert_eq!(name, "Gain");
            assert_eq!(selected_if.len(), 1);
            assert_eq!(selected_if[0].0, "GainSelector");
            assert_eq!(selected_if[0].1, vec!["AnalogAll".to_string()]);
        }
        other => panic!("unexpected node: {other:?}"),
    }
}

#[test]
fn parse_swissknife_node() {
    const XML: &str = r#"
        <RegisterDescription SchemaMajorVersion="1" SchemaMinorVersion="0" SchemaSubMinorVersion="0">
            <Integer Name="GainRaw">
                <Address>0x3000</Address>
                <Length>4</Length>
                <AccessMode>RW</AccessMode>
                <Min>0</Min>
                <Max>1000</Max>
            </Integer>
            <Float Name="Offset">
                <Address>0x3008</Address>
                <Length>4</Length>
                <AccessMode>RW</AccessMode>
                <Min>-100.0</Min>
                <Max>100.0</Max>
            </Float>
            <SwissKnife Name="ComputedGain">
                <Expression>(GainRaw * 0.5) + Offset</Expression>
                <pVariable Name="GainRaw">GainRaw</pVariable>
                <pVariable Name="Offset">Offset</pVariable>
                <Output>Float</Output>
            </SwissKnife>
        </RegisterDescription>
    "#;

    let model = parse(XML).expect("parse swissknife xml");
    assert_eq!(model.nodes.len(), 3);
    let swiss = model
        .nodes
        .iter()
        .find_map(|decl| match decl {
            NodeDecl::SwissKnife(node) => Some(node),
            _ => None,
        })
        .expect("swissknife present");
    assert_eq!(swiss.name, "ComputedGain");
    assert_eq!(swiss.expr, "(GainRaw * 0.5) + Offset");
    assert_eq!(swiss.output, SkOutput::Float);
    assert_eq!(swiss.variables.len(), 2);
    assert_eq!(swiss.variables[0], ("GainRaw".to_string(), "GainRaw".to_string()));
    assert_eq!(swiss.variables[1], ("Offset".to_string(), "Offset".to_string()));
}

#[test]
fn parse_enum_entry_with_pvalue() {
    const XML: &str = r#"
        <RegisterDescription SchemaMajorVersion="1" SchemaMinorVersion="0" SchemaSubMinorVersion="0">
            <Enumeration Name="Mode">
                <Address>0x0000_4000</Address>
                <Length>4</Length>
                <AccessMode>RW</AccessMode>
                <EnumEntry Name="Fixed10">
                    <Value>10</Value>
                </EnumEntry>
                <EnumEntry Name="DynFromReg">
                    <pValue>RegModeVal</pValue>
                </EnumEntry>
            </Enumeration>
            <Integer Name="RegModeVal">
                <Address>0x0000_4100</Address>
                <Length>4</Length>
                <AccessMode>RW</AccessMode>
                <Min>0</Min>
                <Max>65535</Max>
            </Integer>
        </RegisterDescription>
    "#;

    let model = parse(XML).expect("parse enum pvalue");
    assert_eq!(model.nodes.len(), 2);
    match &model.nodes[0] {
        NodeDecl::Enum { entries, .. } => {
            assert_eq!(entries.len(), 2);
            assert!(matches!(entries[0].value, EnumValueSrc::Literal(10)));
            match &entries[1].value {
                EnumValueSrc::FromNode(node) => assert_eq!(node, "RegModeVal"),
                other => panic!("unexpected entry value: {other:?}"),
            }
        }
        other => panic!("unexpected node: {other:?}"),
    }
}

#[test]
fn parse_indirect_addressing() {
    const XML: &str = r#"
        <RegisterDescription SchemaMajorVersion="1" SchemaMinorVersion="0" SchemaSubMinorVersion="0">
            <Integer Name="RegAddr">
                <Address>0x2000</Address>
                <Length>4</Length>
                <AccessMode>RW</AccessMode>
                <Min>0</Min>
                <Max>65535</Max>
            </Integer>
            <Integer Name="Gain" Address="0xFFFF">
                <pAddress>RegAddr</pAddress>
                <Length>4</Length>
                <AccessMode>RW</AccessMode>
                <Min>0</Min>
                <Max>255</Max>
            </Integer>
        </RegisterDescription>
    "#;

    let model = parse(XML).expect("parse indirect xml");
    assert_eq!(model.nodes.len(), 2);
    match &model.nodes[0] {
        NodeDecl::Integer { name, addressing, .. } => {
            assert_eq!(name, "RegAddr");
            assert!(
                matches!(addressing, Addressing::Fixed { address, len } if *address == 0x2000 && *len == 4)
            );
        }
        other => panic!("unexpected node: {other:?}"),
    }
    match &model.nodes[1] {
        NodeDecl::Integer { name, addressing, .. } => {
            assert_eq!(name, "Gain");
            match addressing {
                Addressing::Indirect { p_address_node, len } => {
                    assert_eq!(p_address_node, "RegAddr");
                    assert_eq!(*len, 4);
                }
                other => panic!("expected indirect addressing, got {other:?}"),
            }
        }
        other => panic!("unexpected node: {other:?}"),
    }
}

#[test]
fn parse_integer_bitfield_big_endian() {
    const XML: &str = r#"
        <RegisterDescription SchemaMajorVersion="1" SchemaMinorVersion="0" SchemaSubMinorVersion="0">
            <Integer Name="Packed">
                <Address>0x1000</Address>
                <Length>4</Length>
                <AccessMode>RW</AccessMode>
                <Min>0</Min>
                <Max>65535</Max>
                <Lsb>8</Lsb>
                <Msb>15</Msb>
                <Endianness>BigEndian</Endianness>
            </Integer>
        </RegisterDescription>
    "#;

    let model = parse(XML).expect("parse big-endian bitfield");
    assert_eq!(model.nodes.len(), 1);
    match &model.nodes[0] {
        NodeDecl::Integer { len, bitfield, .. } => {
            assert_eq!(*len, 4);
            let field = bitfield.expect("bitfield present");
            assert_eq!(field.byte_order, ByteOrder::Big);
            assert_eq!(field.bit_length, 8);
            assert_eq!(field.bit_offset, 16);
        }
        other => panic!("unexpected node: {other:?}"),
    }
}

#[test]
fn parse_boolean_bitfield_default_length() {
    const XML: &str = r#"
        <RegisterDescription SchemaMajorVersion="1" SchemaMinorVersion="0" SchemaSubMinorVersion="0">
            <Boolean Name="Flag">
                <Address>0x2000</Address>
                <Length>1</Length>
                <AccessMode>RW</AccessMode>
                <Bit>3</Bit>
            </Boolean>
        </RegisterDescription>
    "#;

    let model = parse(XML).expect("parse boolean bitfield");
    assert_eq!(model.nodes.len(), 1);
    match &model.nodes[0] {
        NodeDecl::Boolean { len, bitfield, .. } => {
            assert_eq!(*len, 1);
            assert_eq!(bitfield.byte_order, ByteOrder::Little);
            assert_eq!(bitfield.bit_length, 1);
            assert_eq!(bitfield.bit_offset, 3);
        }
        other => panic!("unexpected node: {other:?}"),
    }
}

#[test]
fn parse_integer_bitfield_mask() {
    const XML: &str = r#"
        <RegisterDescription SchemaMajorVersion="1" SchemaMinorVersion="0" SchemaSubMinorVersion="0">
            <Integer Name="Masked">
                <Address>0x3000</Address>
                <Length>4</Length>
                <AccessMode>RW</AccessMode>
                <Min>0</Min>
                <Max>65535</Max>
                <Mask>0x0000FF00</Mask>
            </Integer>
        </RegisterDescription>
    "#;

    let model = parse(XML).expect("parse mask bitfield");
    assert_eq!(model.nodes.len(), 1);
    match &model.nodes[0] {
        NodeDecl::Integer { bitfield, .. } => {
            let field = bitfield.expect("bitfield present");
            assert_eq!(field.byte_order, ByteOrder::Little);
            assert_eq!(field.bit_length, 8);
            assert_eq!(field.bit_offset, 8);
        }
        other => panic!("unexpected node: {other:?}"),
    }
}

#[test]
fn parse_without_register_description_keeps_default_version() {
    let model = parse("<Other/>").expect("parse");
    assert_eq!(model.version, "0.0.0");
    assert_eq!(model.nodes.len(), 0);
}

#[test]
fn parse_selector_addressing_and_bit_length() {
    let node = one_node(
        r#"<Integer Name="Gain">
             <pSelected>Sel</pSelected>
             <Selected Address="0x10" Length="2">A</Selected>
             <Selected Value="B" Address="0x20" Length="2"/>
             <Length>4</Length>
             <Min>0</Min><Max>9</Max>
             <Bit>2</Bit><Length>3</Length>
           </Integer>"#,
    )
    .expect("node");
    match node {
        NodeDecl::Integer { addressing, bitfield, selectors, selected_if, len, .. } => {
            assert_eq!(selectors, vec!["Sel".to_string()]);
            assert_eq!(selected_if, vec![("Sel".to_string(), vec!["A".to_string(), "B".to_string()])]);
            match addressing {
                Addressing::BySelector { selector, map } => {
                    assert_eq!(selector, "Sel");
                    assert_eq!(
                        map,
                        vec![("A".to_string(), (0x10, 2)), ("B".to_string(), (0x20, 2))]
                    );
                }
                other => panic!("unexpected addressing {other:?}"),
            }
            assert_eq!(len, 2);
            let f = bitfield.expect("bitfield");
            assert_eq!((f.bit_offset, f.bit_length), (2, 3));
        }
        other => panic!("unexpected node {other:?}"),
    }
}

#[test]
fn parse_float_scales_and_text_bounds() {
    let node = one_node(
        r#"<Float Name="F" Address="0x8"><Min> 1.5 </Min><Max>2.5</Max>
             <Scale>0.25</Scale><ScaleDenominator>10</ScaleDenominator></Float>"#,
    )
    .expect("node");
    match node {
        NodeDecl::Float { min, max, scale, addressing, offset, .. } => {
            assert_eq!(min.trim().parse::<f64>().unwrap(), 1.5);
            assert_eq!(max, "2.5");
            assert_eq!(scale, Some((ScaleNum::Decimal("0.25".to_string()), 10)));
            assert_eq!(offset, None);
            assert_eq!(addressing, Addressing::Fixed { address: 8, len: 8 });
        }
        other => panic!("unexpected node {other:?}"),
    }
    let node = one_node(r#"<Float Name="G" Address="1"><Min>0</Min><Max>1</Max><ScaleNumerator>3</ScaleNumerator></Float>"#)
        .expect("node");
    match node {
        NodeDecl::Float { scale, .. } => assert_eq!(scale, Some((ScaleNum::Int(3), 1))),
        other => panic!("unexpected node {other:?}"),
    }
    let node = one_node(
        r#"<Float Name="H" Address="1"><Min>0</Min><Max>1</Max><Scale>3/4</Scale><ScaleDenominator>0</ScaleDenominator></Float>"#,
    )
    .expect("node");
    match node {
        NodeDecl::Float { scale, .. } => assert_eq!(scale, None),
        other => panic!("unexpected node {other:?}"),
    }
}

#[test]
fn parse_commands_and_categories() {
    let xml = r#"<RegisterDescription>
        <Command Name="Go" Address="0x40"/>
        <Command Name="Stop" Address="0x44" Length="2"/>
        <Category Name="Empty"/>
        <Category Name="C"><pFeature Name="X"/><pFeature>  Y  </pFeature><pFeature>   </pFeature></Category>
        <Command Name="Reset"><Address>0x48</Address></Command>
    </RegisterDescription>"#;
    let model = parse(xml).expect("parse");
    assert_eq!(model.version, "0.0.0");
    assert_eq!(model.nodes.len(), 5);
    assert!(matches!(&model.nodes[0], NodeDecl::Command { name, address: 0x40, len: 1 } if name == "Go"));
    assert!(matches!(&model.nodes[1], NodeDecl::Command { address: 0x44, len: 2, .. }));
    assert!(matches!(&model.nodes[2], NodeDecl::Category { children, .. } if children.is_empty()));
    match &model.nodes[3] {
        NodeDecl::Category { children, .. } => assert_eq!(children, &vec!["X".to_string(), "Y".to_string()]),
        other => panic!("unexpected node {other:?}"),
    }
    assert!(matches!(&model.nodes[4], NodeDecl::Command { address: 0x48, len: 1, .. }));
}

#[test]
fn parse_errors_name_the_node() {
    assert_eq!(
        invalid_message(one_node(r#"<Integer Name="W" Address="1"><Max>3</Max></Integer>"#)),
        "Integer node W is missing <Min>"
    );
    assert_eq!(
        invalid_message(one_node(r#"<Integer Name="W"><Min>0</Min><Max>3</Max></Integer>"#)),
        "node W is missing <Address>"
    );
    assert_eq!(
        invalid_message(one_node(r#"<Enumeration Name="E" Address="1"></Enumeration>"#)),
        "Enumeration node E declares no <EnumEntry> elements"
    );
    assert_eq!(
        invalid_message(one_node(r#"<Boolean Name="B" Address="1" Length="4"></Boolean>"#)),
        "Boolean node B requires explicit bitfield metadata"
    );
    assert_eq!(
        invalid_message(one_node(r#"<Command Name="C"><Length>1</Length></Command>"#)),
        "Command node C is missing <Address>"
    );
    assert_eq!(
        invalid_message(one_node(r#"<Command Name="C" Address="1" Length="0x100000000"/>"#)),
        "command length out of range"
    );
    assert_eq!(
        invalid_message(one_node(r#"<SwissKnife Name="S"><pVariable Name="A">A</pVariable></SwissKnife>"#)),
        "SwissKnife node S is missing <Expression>"
    );
    assert_eq!(
        invalid_message(one_node(r#"<SwissKnife Name="S"><Expression>A</Expression></SwissKnife>"#)),
        "SwissKnife node S must declare at least one <pVariable>"
    );
    assert_eq!(
        invalid_message(one_node(r#"<SwissKnife Name="S"><Expression>  </Expression></SwissKnife>"#)),
        "SwissKnife node S has empty <Expression>"
    );
    assert_eq!(
        invalid_message(one_node(r#"<Integer Name="W" Length="0x100000000"></Integer>"#)),
        "length out of range for node W"
    );
    assert_eq!(
        invalid_message(one_node(r#"<Integer Name="W"><Lsb>0x100000000</Lsb></Integer>"#)),
        "<Lsb> out of range for node W"
    );
    assert_eq!(
        invalid_message(one_node(r#"<Integer Name="W"><AccessMode>rx</AccessMode></Integer>"#)),
        "unknown access mode: RX"
    );
    assert_eq!(invalid_message(one_node(r#"<Integer><Min>0</Min></Integer>"#)), "missing attribute Name");
    assert_eq!(
        invalid_message(parse(r#"<RegisterDescription><Integer Name="W"><Min>0</Min>"#)),
        "unterminated Integer node W"
    );
}

#[test]
fn parse_swissknife_empty_elements() {
    let node = one_node(
        r#"<SwissKnife Name="S"><Expression Value=" A+1 "/><pVariable Name="A" Value="Reg"/><Output Value="integer"/></SwissKnife>"#,
    )
    .expect("node");
    match node {
        NodeDecl::SwissKnife(sk) => {
            assert_eq!(sk.expr, "A+1");
            assert_eq!(sk.variables, vec![("A".to_string(), "Reg".to_string())]);
            assert_eq!(sk.output, SkOutput::Integer);
        }
        other => panic!("unexpected node {other:?}"),
    }
    assert_eq!(
        invalid_message(one_node(r#"<SwissKnife Name="S"><pVariable Name="A"/></SwissKnife>"#)),
        "SwissKnife node S missing variable target"
    );
}

const STRUCT_XML: &str = r#"<StructReg Comment="Flags">
    <Address>0x5000</Address>
    <Length>4</Length>
    <AccessMode>RO</AccessMode>
    <Endianness>BigEndian</Endianness>
    <StructEntry Name="Low"><LSB>4</LSB><MSB>0</MSB></StructEntry>
    <StructEntry Name="Flag"><Bit>9</Bit><ToolTip>one bit</ToolTip></StructEntry>
</StructReg>"#;

fn struct_reg_of(xml: &str) -> Result<Vec<NodeDecl>, XmlError> {
    let mut reader = genicam_rs::xml_events::reader_for(xml);
    let head = loop {
        match genicam_rs::xml_events::next_event(&mut reader).expect("event") {
            genicam_rs::xml_events::XmlEvent::Start(h) => break h,
            genicam_rs::xml_events::XmlEvent::Eof => panic!("no element"),
            _ => {}
        }
    };
    let mut budget = xml.len() + 1;
    genicam_rs::xml_struct::parse_struct_reg(&mut reader, &head, &mut budget)
}

#[test]
fn struct_reg_entries_become_integers() {
    let nodes = struct_reg_of(STRUCT_XML).expect("struct reg");
    assert_eq!(nodes.len(), 2);
    match &nodes[0] {
        NodeDecl::Integer { name, addressing, len, access, min, max, bitfield, .. } => {
            assert_eq!(name, "Low");
            assert_eq!(*addressing, Addressing::Fixed { address: 0x5000, len: 4 });
            assert_eq!(*len, 4);
            assert_eq!(format!("{access:?}"), "RO");
            assert_eq!(*min, i64::MIN);
            assert_eq!(*max, i64::MAX);
            let bf = bitfield.expect("bitfield");
            assert_eq!((bf.bit_offset, bf.bit_length, bf.byte_order), (0, 5, ByteOrder::Big));
        }
        other => panic!("unexpected {other:?}"),
    }
    match &nodes[1] {
        NodeDecl::Integer { name, bitfield, .. } => {
            assert_eq!(name, "Flag");
            let bf = bitfield.expect("bitfield");
            assert_eq!((bf.bit_offset, bf.bit_length), (9, 1));
        }
        other => panic!("unexpected {other:?}"),
    }
}

#[test]
fn struct_entry_without_bits_is_refused() {
    let xml = r#"<StructReg><Address>16</Address><StructEntry Name="X"><LSB>1</LSB></StructEntry></StructReg>"#;
    match struct_reg_of(xml) {
        Err(XmlError::Invalid(m)) => assert_eq!(m, "StructEntry X needs LSB+MSB or Bit"),
        other => panic!("unexpected {other:?}"),
    }
    let open = r#"<StructReg><StructEntry Name="Y"><Bit>1</Bit>"#;
    assert!(struct_reg_of(open).is_err());
}
