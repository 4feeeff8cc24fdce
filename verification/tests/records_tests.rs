use route_tracker::coord::Position;
use route_tracker::map_id::TileKey;
use route_tracker::records::{build_graph, scan_line, scan_table, Decoded};

fn chars(text: &str) -> Vec<char> {
    text.chars().collect()
}

fn text(field: &Vec<char>) -> String {
    field.iter().collect()
}

fn decode(fields: &Vec<Vec<char>>) -> Option<Position> {
    let x = text(&fields[0]).parse::<f32>().ok()?;
    let y = text(&fields[1]).parse::<f32>().ok()?;
    let z = text(&fields[2]).parse::<f32>().ok()?;
    Some(Position { x: x.to_bits(), y: y.to_bits(), z: z.to_bits() })
}

const HEADER: &str = "ID,a,b,c,d,srcAreaNo,srcGridXNo,srcGridZNo,e,srcPosX,srcPosY,srcPosZ,\
dstAreaNo,dstGridXNo,dstGridZNo,f,dstPosX,dstPosY,dstPosZ";
const ROW: &str = "17,0,0,0,0,10,0,0,0,-514.0,28,200.5,10,1,0,0,0,0.25,-3";

#[test]
fn a_complete_row_gives_a_record() {
    let record = scan_line(&chars(ROW)).unwrap();
    assert_eq!(record.source, TileKey { area: 10, grid_x: 0, grid_z: 0 });
    assert_eq!(record.destination, TileKey { area: 10, grid_x: 1, grid_z: 0 });
    let source: Vec<String> = record.source_point.iter().map(text).collect();
    let destination: Vec<String> = record.destination_point.iter().map(text).collect();
    assert_eq!(source, vec!["-514.0", "28", "200.5"]);
    assert_eq!(destination, vec!["0", "0.25", "-3"]);
}

#[test]
fn fields_are_trimmed_and_may_carry_a_plus_sign() {
    let row = "x,,,,, 10 ,\t+007,0\u{a0},, 1.5 ,2,3 ,\u{3000}60,40 , 35,,  7, 8 ,9\r";
    let record = scan_line(&chars(row)).unwrap();
    assert_eq!(record.source, TileKey { area: 10, grid_x: 7, grid_z: 0 });
    assert_eq!(record.destination, TileKey { area: 60, grid_x: 40, grid_z: 35 });
    assert_eq!(text(&record.source_point[0]), "1.5");
    assert_eq!(text(&record.source_point[2]), "3");
    assert_eq!(text(&record.destination_point[0]), "7");
    assert_eq!(text(&record.destination_point[2]), "9");
}

#[test]
fn short_rows_and_bad_tile_fields_give_no_record() {
    // Eighteen fields: one fewer than a record needs.
    assert!(scan_line(&chars("17,0,0,0,0,10,0,0,0,-514.0,28,200.5,10,1,0,0,0,0.25")).is_none());
    assert!(scan_line(&chars("")).is_none());
    assert!(scan_line(&chars("   ")).is_none());
    let with = |field: usize, value: &str| {
        let mut fields: Vec<&str> = ROW.split(',').collect();
        fields[field] = value;
        scan_line(&chars(&fields.join(",")))
    };
    assert!(with(5, "256").is_none());
    assert!(with(5, "255").is_some());
    assert!(with(5, "0000000000000000255").is_some());
    assert!(with(6, "-1").is_none());
    assert!(with(6, "-0").is_none());
    assert!(with(7, "").is_none());
    assert!(with(7, "+").is_none());
    assert!(with(12, "1.0").is_none());
    assert!(with(13, "1 2").is_none());
    assert!(with(14, "abc").is_none());
    assert!(with(14, "\u{663}").is_none());
    // Coordinate fields are not looked at here.
    assert!(with(9, "not a number").is_some());
}

#[test]
fn tile_fields_agree_with_the_standard_parser() {
    let candidates = [
        "0", "7", "42", "255", "256", "300", "+5", "++5", "-5", "05", "5 ", " 5", "5a", "",
        "+", "99999999999999999999", "1_0", "0x10", "２",
    ];
    for candidate in candidates.iter() {
        let mut fields: Vec<&str> = ROW.split(',').collect();
        fields[5] = candidate;
        let got = scan_line(&chars(&fields.join(","))).map(|r| r.source.area);
        let expected = candidate.trim().parse::<u8>().ok();
        assert_eq!(got, expected, "field {:?}", candidate);
    }
}

#[test]
fn a_table_skips_its_header_and_its_bad_rows() {
    let lines: Vec<Vec<char>> = vec![
        chars(HEADER),
        chars(ROW),
        chars(""),
        chars("17,0,0,0,0,999,0,0,0,1,2,3,10,1,0,0,4,5,6"),
        chars("18,0,0,0,0,10,1,0,0,1,2,3,60,40,35,0,4,5,6"),
    ];
    let records = scan_table(&lines);
    assert_eq!(records.len(), 2);
    assert_eq!(records[0].destination, TileKey { area: 10, grid_x: 1, grid_z: 0 });
    assert_eq!(records[1].destination, TileKey { area: 60, grid_x: 40, grid_z: 35 });
    assert!(scan_table(&Vec::new()).is_empty());
    // A first line that would be a record is still the header.
    assert!(scan_table(&vec![chars(ROW)]).is_empty());
}

#[test]
fn the_graph_takes_the_records_whose_points_decode() {
    let lines: Vec<Vec<char>> = vec![
        chars(HEADER),
        chars(ROW),
        chars("18,0,0,0,0,10,1,0,0,1,oops,3,60,40,35,0,4,5,6"),
        chars("19,0,0,0,0,10,0,0,0,1,2,3,60,40,35,0,4,5,6"),
    ];
    let records = scan_table(&lines);
    assert_eq!(records.len(), 3);
    let points: Vec<Option<Decoded>> = records
        .iter()
        .map(|r| {
            let source = decode(&r.source_point)?;
            let destination = decode(&r.destination_point)?;
            Some(Decoded { source, destination })
        })
        .collect();
    assert!(points[1].is_none());
    let graph = build_graph(&records, &points);
    assert_eq!(graph.map_count(), 1);
    assert_eq!(graph.anchor_count(), 2);
    let list = graph.get(TileKey { area: 10, grid_x: 0, grid_z: 0 }).unwrap();
    assert_eq!(f32::from_bits(list[0].src_pos.x), -514.0);
    assert_eq!(f32::from_bits(list[0].dst_pos.y), 0.25);
    assert_eq!(list[1].dst_area_no, 60);
    assert_eq!(f32::from_bits(list[1].dst_pos.z), 6.0);
}

#[test]
fn trimming_agrees_with_the_standard_notion_of_white_space() {
    let mut fields: Vec<String> = ROW.split(',').map(|f| f.to_string()).collect();
    let mut code: u32 = 0;
    while code <= 0x3100 {
        if let Some(c) = char::from_u32(code) {
            if c != ',' {
                let padded = format!("{}10{}", c, c);
                fields[5] = padded.clone();
                let got = scan_line(&chars(&fields.join(","))).map(|r| r.source.area);
                let expected = padded.trim().parse::<u8>().ok();
                assert_eq!(got, expected, "character {:#x}", code);
            }
        }
        code += 1;
    }
    for code in [0x180Eu32, 0x200B, 0x2060, 0xFEFF, 0x1_F600] {
        let c = char::from_u32(code).unwrap();
        fields[5] = format!("{}10", c);
        assert!(scan_line(&chars(&fields.join(","))).is_none());
    }
}
