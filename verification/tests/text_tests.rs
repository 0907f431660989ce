use traveler::settings::{key_values, last_value};
use traveler::strategies::lin_kernighan::LinKernighan;
use traveler::text::{
    chars_of, colon_field_bounds, float_text_at, parse_i64, parse_usize, split_lines, trim_range,
    words,
};
use traveler::tsplib::{parse_tsplib, stable_order, TsplibError};

fn chars(s: &str) -> Vec<char> {
    s.chars().collect()
}

fn text(v: &[char]) -> String {
    v.iter().collect()
}

const SAMPLES: &[&str] = &[
    "", "0", "7", "-7", "+7", "-", "+", "12a", " 1", "1 ", "9223372036854775807",
    "9223372036854775808", "-9223372036854775808", "-9223372036854775809", "00042",
    "18446744073709551615", "18446744073709551616", "+0", "-0", "1.5", "1e3", "1E3", ".5", "5.",
    ".", "e5", "1e", "1e+", "1e-7", "-2.5E+10", "inf", "-inf", "+Infinity", "NaN", "nan",
    "infinit", "1.2.3", "1..2", "--1", "0x10", "١", "12e3.4", "+.e1", "3.14159",
];

#[test]
fn parse_i64_agrees_with_std() {
    for s in SAMPLES {
        let v = chars(s);
        assert_eq!(parse_i64(&v, 0, v.len()), s.parse::<i64>().ok(), "input {:?}", s);
    }
}

#[test]
fn parse_usize_agrees_with_std() {
    for s in SAMPLES {
        let v = chars(s);
        assert_eq!(parse_usize(&v, 0, v.len()), s.parse::<usize>().ok(), "input {:?}", s);
    }
}

#[test]
fn float_text_agrees_with_std() {
    for s in SAMPLES {
        let v = chars(s);
        assert_eq!(float_text_at(&v, 0, v.len()), s.parse::<f32>().is_ok(), "input {:?}", s);
    }
}

#[test]
fn trim_agrees_with_std() {
    for s in ["  a b  ", "\t\r\n", "", "x", "\u{3000}y\u{a0}", " \u{85}z "] {
        let v = chars(s);
        let (a, b) = trim_range(&v, 0, v.len());
        assert_eq!(text(&v[a..b]), s.trim());
    }
}

#[test]
fn words_agree_with_split_whitespace() {
    for s in ["1 2.5  3", "  a\tb ", "", "   ", "one"] {
        let v = chars(s);
        let ws: Vec<String> = words(&v, 0, v.len()).iter().map(|w| text(w)).collect();
        let expected: Vec<String> = s.split_whitespace().map(|w| w.to_string()).collect();
        assert_eq!(ws, expected);
    }
}

#[test]
fn lines_split_at_line_feeds() {
    let v = chars("a\nbc\n\nd");
    let lines: Vec<String> = split_lines(&v).iter().map(|l| text(l)).collect();
    assert_eq!(lines, vec!["a", "bc", "", "d"]);
    let t = chars("x\n");
    let ls: Vec<String> = split_lines(&t).iter().map(|l| text(l)).collect();
    assert_eq!(ls, vec!["x", ""]);
}

#[test]
fn colon_field_is_second_piece() {
    let v = chars("NAME : berlin52 : x");
    let (a, b) = colon_field_bounds(&v, 0, v.len()).unwrap();
    assert_eq!(text(&v[a..b]), " berlin52 ");
    let w = chars("NAME");
    assert!(colon_field_bounds(&w, 0, w.len()).is_none());
}

#[test]
fn chars_of_collects_characters() {
    assert_eq!(chars_of("héllo"), chars("héllo"));
}

#[test]
fn lkh_tour_text_is_read_up_to_minus_one() {
    let content = "NAME : x.tour\nTYPE : TOUR\nDIMENSION : 4\nTOUR_SECTION\n1\n3\n2\n4\n-1\nEOF\n";
    assert_eq!(LinKernighan::solution_from_text(content, 4), vec![0, 2, 1, 3]);
}

#[test]
fn lkh_tour_with_wrong_count_falls_back_to_identity() {
    let content = "TOUR_SECTION\n2\n1\n-1\n3\n";
    assert_eq!(LinKernighan::solution_from_text(content, 3), vec![0, 1, 2]);
    assert_eq!(LinKernighan::solution_from_text(content, 2), vec![1, 0]);
}

#[test]
fn lkh_tour_skips_comments_zero_and_garbage() {
    let content = "# comment\r\n  5  \r\n0\nabc\n 1\n-3\n";
    assert_eq!(LinKernighan::solution_from_text(content, 2), vec![4, 0]);
}

#[test]
fn test_parse_berlin52() {
    let content = r#"NAME: berlin52
TYPE: TSP
DIMENSION: 3
EDGE_WEIGHT_TYPE: EUC_2D
NODE_COORD_SECTION
1 565.0 575.0
2 25.0 185.0
3 345.0 750.0
EOF
"#;

    let instance = parse_tsplib(content).unwrap();
    assert_eq!(text(&instance.name), "berlin52");
    assert_eq!(instance.dimension, 3);
    assert_eq!(instance.coords.len(), 3);
}

#[test]
fn tsplib_sorts_by_index_and_keeps_tokens() {
    let content = "NAME : t\nDIMENSION : 3\nOPTIMAL : 12.5\nNODE_COORD_SECTION\n3 1 2\n1 3e1 -4\n2 inf 0.5\nEOF\n";
    let t = parse_tsplib(content).unwrap();
    let coords: Vec<(String, String)> = t.coords.iter().map(|(x, y)| (text(x), text(y))).collect();
    assert_eq!(
        coords,
        vec![
            ("3e1".to_string(), "-4".to_string()),
            ("inf".to_string(), "0.5".to_string()),
            ("1".to_string(), "2".to_string()),
        ]
    );
    assert_eq!(text(t.optimal.as_ref().unwrap()), "12.5");
}

#[test]
fn tsplib_refusals() {
    assert_eq!(parse_tsplib("NAME: a\n").err(), Some(TsplibError::MissingDimension));
    assert_eq!(
        parse_tsplib("DIMENSION: 2\nNODE_COORD_SECTION\n1 0 0\n2 x 1\nEOF\n").err(),
        Some(TsplibError::CountMismatch { found: 1, expected: 2 })
    );
}

#[test]
fn stable_order_sorts_by_key_then_position() {
    assert_eq!(stable_order(&vec![3, 1, 2, 1]), vec![1, 3, 2, 0]);
    assert_eq!(stable_order(&vec![]), Vec::<usize>::new());
}

#[test]
fn key_values_read_parameter_files() {
    let content = "# params\nalpha: 0.4\n beta : 0.2 \nalpha:0.5\nnoise\n";
    let pairs = key_values(content);
    let shown: Vec<(String, String)> = pairs.iter().map(|(k, v)| (text(k), text(v))).collect();
    assert_eq!(
        shown,
        vec![
            ("alpha".to_string(), "0.4".to_string()),
            ("beta".to_string(), "0.2".to_string()),
            ("alpha".to_string(), "0.5".to_string()),
        ]
    );
    assert_eq!(text(&last_value(&pairs, &['a', 'l', 'p', 'h', 'a']).unwrap()), "0.5");
    assert!(last_value(&pairs, &['g', 'a', 'm', 'm', 'a']).is_none());
}
