use rust_s57::catalog::{
    parse_directory, parse_leader, Catalog, DirectoryEntry, Leader, ReaderState,
};
use rust_s57::cursor::ByteCursor;
use rust_s57::data_parser::{Data, ParseData, ParseType};
use rust_s57::schema::{
    parse_array_descriptors, parse_field_controls, parse_format_controls, DataStructureCode,
    DataTypeCode, FieldControls, TruncEscSeq,
};

const UNIT_SEPARATOR: u8 = 0x1f;

fn get_test_leader() -> Leader {
    Leader {
        rl: 241,
        il: '3',
        li: 'L',
        cei: 'E',
        vn: '1',
        ai: ' ',
        fcl: ['0', '9'],
        ba: 58,
        csi: [' ', '!', ' '],
        flf: 3,
        fpf: 4,
        rsv: '0',
        ftf: 4,
    }
}

fn get_test_directory() -> Vec<DirectoryEntry> {
    vec![
        DirectoryEntry {
            id: "0000".to_string(),
            length: 19,
            offset: 0,
        },
        DirectoryEntry {
            id: "0001".to_string(),
            length: 44,
            offset: 19,
        },
        DirectoryEntry {
            id: "CATD".to_string(),
            length: 120,
            offset: 63,
        },
    ]
}

fn get_test_field_controls() -> FieldControls {
    FieldControls {
        dsc: DataStructureCode::LS,
        dtc: DataTypeCode::MDT,
        aux: "00".to_string(),
        prt: ";&".to_string(),
        tes: TruncEscSeq::LE1,
    }
}

fn get_test_format_controls() -> Vec<ParseData> {
    vec![
        ParseData::Fixed(ParseType::String, 2),
        ParseData::Fixed(ParseType::Integer, 10),
        ParseData::Fixed(ParseType::Integer, 10),
        ParseData::Variable(ParseType::Float),
        ParseData::Variable(ParseType::Float),
    ]
}

#[test]
fn test_parse_leader() {
    let length = 241;
    let leader = "3LE1 0900058 ! 3404".as_bytes();
    let expected = get_test_leader();
    let actual = parse_leader(leader, length).unwrap();
    assert_eq!(actual, expected);
}

#[test]
fn test_parse_directory() {
    let leader = get_test_leader();
    let directory = "0000019000000010440019CATD1200063".as_bytes();
    let expected = get_test_directory();
    let actual = parse_directory(directory, &leader).unwrap();
    assert_eq!(actual, expected);
}

#[test]
fn test_parse_field_controls() {
    let field_controls = "1600;&-A ".as_bytes();
    let expected = get_test_field_controls();
    let actual = parse_field_controls(field_controls).unwrap();
    assert_eq!(actual, expected);
}

#[test]
fn test_parse_array_descriptor() {
    let array_descriptor =
        "RCNM!RCID!FILE!LFIL!VOLM!IMPL!SLAT!WLON!NLAT!ELON!CRCS!COMT".as_bytes();
    let expected = vec![
        "RCNM", "RCID", "FILE", "LFIL", "VOLM", "IMPL", "SLAT", "WLON", "NLAT", "ELON", "CRCS",
        "COMT",
    ];
    let actual = parse_array_descriptors(array_descriptor).unwrap();
    assert_eq!(actual, expected);
}

#[test]
fn test_parse_format_controls_with_empty() {
    let array_descriptor = &[0u8; 0];
    assert!(parse_format_controls(array_descriptor).is_err())
}

#[test]
fn test_parse_format_controls() {
    let format_controls = "(A(2),2I(10),2R)".as_bytes();
    let expected = get_test_format_controls();
    let actual = parse_format_controls(format_controls).unwrap();
    assert_eq!(actual, expected);
}

#[test]
fn parsedata() {
    assert_eq!(
        ParseData::from_str("A(3)").unwrap(),
        (1, ParseData::Fixed(ParseType::String, 3))
    );
    assert_eq!(
        ParseData::from_str("I(10)").unwrap(),
        (1, ParseData::Fixed(ParseType::Integer, 10))
    );
    assert_eq!(
        ParseData::from_str("R(5)").unwrap(),
        (1, ParseData::Fixed(ParseType::Float, 5))
    );
    assert_eq!(
        ParseData::from_str("5R").unwrap(),
        (5, ParseData::Variable(ParseType::Float))
    );
    assert_eq!(
        ParseData::from_str("10I").unwrap(),
        (10, ParseData::Variable(ParseType::Integer))
    );
    assert_eq!(
        ParseData::from_str("1A").unwrap(),
        (1, ParseData::Variable(ParseType::String))
    );
    assert_eq!(
        ParseData::from_str("2A(3)").unwrap(),
        (2, ParseData::Fixed(ParseType::String, 3))
    );
    assert_eq!(
        ParseData::from_str("10I(10)").unwrap(),
        (10, ParseData::Fixed(ParseType::Integer, 10))
    );
    assert_eq!(
        ParseData::from_str("1R(5)").unwrap(),
        (1, ParseData::Fixed(ParseType::Float, 5))
    );
}

fn as_number(data: Data) -> f64 {
    match data {
        Data::Float(Some(literal)) => literal.parse().unwrap(),
        other => panic!("no real number: {:?}", other),
    }
}

#[test]
fn read_data() {
    assert_eq!(
        ParseData::Fixed(ParseType::Integer, 5)
            .parse(&mut ByteCursor::new("00001".as_bytes()))
            .unwrap(),
        Data::Integer(Some(1))
    );
    assert_eq!(
        ParseData::Fixed(ParseType::String, 5)
            .parse(&mut ByteCursor::new("Hejsa".as_bytes()))
            .unwrap(),
        Data::String(String::from("Hejsa"))
    );
    let fixed = ParseData::Fixed(ParseType::Float, 5)
        .parse(&mut ByteCursor::new("0.005".as_bytes()))
        .unwrap();
    assert_eq!(fixed, Data::Float(Some(String::from("0.005"))));
    assert_eq!(as_number(fixed), 0.005);
    assert_eq!(
        ParseData::Variable(ParseType::Integer)
            .parse(&mut ByteCursor::new(&[
                '0' as u8,
                '0' as u8,
                '0' as u8,
                '0' as u8,
                '1' as u8,
                UNIT_SEPARATOR,
            ]))
            .unwrap(),
        Data::Integer(Some(1))
    );
    assert_eq!(
        ParseData::Variable(ParseType::String)
            .parse(&mut ByteCursor::new(&[
                'H' as u8,
                'e' as u8,
                'j' as u8,
                's' as u8,
                'a' as u8,
                UNIT_SEPARATOR,
            ]))
            .unwrap(),
        Data::String(String::from("Hejsa"))
    );
    let variable = ParseData::Variable(ParseType::Float)
        .parse(&mut ByteCursor::new(&[
            '0' as u8,
            '.' as u8,
            '0' as u8,
            '0' as u8,
            '5' as u8,
            UNIT_SEPARATOR,
        ]))
        .unwrap();
    assert_eq!(variable, Data::Float(Some(String::from("0.005"))));
    assert_eq!(as_number(variable), 0.005);
}

/// The bytes of a record: the leader with its record length and base address
/// filled in, the directory in widths 4, 3 and 4, and the fields, each with
/// its terminator.
fn record_bytes(leader: &str, fields: &[(&str, Vec<u8>)]) -> Vec<u8> {
    let mut directory = String::new();
    let mut area: Vec<u8> = Vec::new();
    for (tag, body) in fields {
        directory.push_str(&format!("{}{:03}{:04}", tag, body.len() + 1, area.len()));
        area.extend_from_slice(body);
        area.push(0x1e);
    }
    let base = 24 + directory.len() + 1;
    let length = base + area.len();
    let mut bytes = format!("{:05}{}{:05}{}", length, &leader[..7], base, &leader[7..]).into_bytes();
    bytes.extend_from_slice(directory.as_bytes());
    bytes.push(0x1e);
    bytes.extend_from_slice(&area);
    bytes
}

fn descriptive_record() -> Vec<u8> {
    record_bytes(
        "3LE1 09 ! 3404",
        &[
            ("0000", b"0000;&   \x1f0001CATD".to_vec()),
            (
                "0001",
                b"0100;&   ISO 8211 Record Identifier\x1f\x1f(I(5))".to_vec(),
            ),
            (
                "CATD",
                b"1600;&-A Catalog Directory Field\x1fRCNM!RCID!FILE!LFIL!VOLM!IMPL!SLAT!WLON!NLAT!ELON!CRCS!COMT\x1f(A(2),I(10),3A,A(3),4R,2A)".to_vec(),
            ),
        ],
    )
}

fn data_record(id: &str, file: &str, south: &str) -> Vec<u8> {
    let mut catd = format!("CD{:010}{}\x1f\x1fV01X01\x1fASC", 1, file).into_bytes();
    catd.extend_from_slice(format!("{}\x1f\x1f\x1f\x1f\x1fno comment\x1f", south).as_bytes());
    record_bytes(
        " D        3404",
        &[("0001", id.as_bytes().to_vec()), ("CATD", catd)],
    )
}

fn catalog_file() -> Vec<u8> {
    let mut bytes = descriptive_record();
    bytes.extend_from_slice(&data_record("00001", "CATALOG.031", ""));
    bytes.extend_from_slice(&data_record("00002", "GB5X01NE.000", "-32.5"));
    bytes
}

#[test]
fn test_parse_catalog() {
    let bytes = catalog_file();
    let mut catalog = Catalog::new(ByteCursor::new(&bytes)).unwrap();
    assert_eq!(catalog.state(), ReaderState::SchemaBuilt);
    assert_eq!(catalog.ddr().dirs.len(), 3);
    assert_eq!(
        catalog.ddr().data_descriptive_fields.len(),
        catalog.ddr().dirs.len() - 1
    );
    let mut last_record = None;
    let mut count = 0;
    while let Some(record) = catalog.next_record() {
        match record {
            Ok(r) => {
                last_record = Some(r);
                count += 1;
            }
            Err(err) => {
                println!("Last successful parse was:");
                println!("{:?}", last_record);
                panic!("{:?}", err);
            }
        }
    }
    assert_eq!(count, 2);
    assert_eq!(catalog.state(), ReaderState::Exhausted);
    let last = last_record.unwrap();
    assert_eq!(last.fields.len(), 2);
    assert_eq!(last.fields[0].tag, "0001");
    assert_eq!(
        last.fields[0].subfields,
        vec![("DRID".to_string(), Data::Integer(Some(2)))]
    );
    assert_eq!(last.fields[1].tag, "CATD");
    let catd = &last.fields[1].subfields;
    assert_eq!(catd.len(), 12);
    assert_eq!(catd[0], ("RCNM".to_string(), Data::String("CD".to_string())));
    assert_eq!(catd[1], ("RCID".to_string(), Data::Integer(Some(1))));
    assert_eq!(
        catd[2],
        ("FILE".to_string(), Data::String("GB5X01NE.000".to_string()))
    );
    assert_eq!(catd[3], ("LFIL".to_string(), Data::String(String::new())));
    assert_eq!(catd[5], ("IMPL".to_string(), Data::String("ASC".to_string())));
    assert_eq!(
        catd[6],
        ("SLAT".to_string(), Data::Float(Some("-32.5".to_string())))
    );
    assert_eq!(catd[7], ("WLON".to_string(), Data::Float(None)));
    assert_eq!(
        catd[11],
        ("COMT".to_string(), Data::String("no comment".to_string()))
    );
}
