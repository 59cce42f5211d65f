use std::collections::HashMap;
use wikidle::database::correlation::{row_bytes, Correlation, Pruned, ONE_BITS};
use wikidle::database::error::ErrorKind;
use wikidle::database::read::{load_dict, Dict};

const EPSILON: f64 = 1e-12;

fn word_dict(words: &[&str]) -> Dict {
    let lines: Vec<String> = words.iter().map(|w| w.to_string()).collect();
    load_dict(&lines)
}

fn scenario() -> HashMap<u32, Vec<(u32, u16)>> {
    HashMap::from([
        (0, vec![(0, 1), (1, 1), (9, 2)]),
        (1, vec![(0, 1), (1, 1), (9, 2)]),
        (2, vec![(9, 1)]),
        (3, vec![(5, 1)]),
    ])
}

/// Writes the matrix the way the offline pipeline does: row by row, each
/// correlation as a big-endian double.
fn matrix_bytes(p: &Pruned) -> Vec<u8> {
    let m = &p.moments;
    let mut bytes = Vec::new();
    for i in 0..m.len() {
        let row = m.row(i);
        for j in 0..i {
            let r = row[j] as f64 / ((m.spread(i) as f64) * (m.spread(j) as f64)).sqrt();
            bytes.extend_from_slice(&r.to_be_bytes());
        }
    }
    bytes
}

fn build(dat: HashMap<u32, Vec<(u32, u16)>>, len: usize, dict: &Dict) -> Correlation {
    let p = Correlation::new(dat, len, dict).unwrap();
    let bytes = matrix_bytes(&p);
    Correlation::deserialize("results/_test/corr.dat".to_string(), p.dict, bytes)
}

fn value(bits: Option<u64>) -> f64 {
    bits.map(f64::from_bits).unwrap_or(0.)
}

#[test]
fn test_corr() {
    let dict = word_dict(&["A", "A's", "AMD", "AMD's"]);
    let c = build(scenario(), 10, &dict);

    assert!((value(c.corr("A", "A's")) - 1.).abs() < EPSILON);
    assert!((value(c.corr("AMD", "A")) - 0.804030252207).abs() < EPSILON);
    assert!((value(c.corr("AMD's", "AMD")) - -0.111111111111).abs() < EPSILON);
}

#[test]
fn main_corr() {
    let dict = word_dict(&["A", "A's", "AMD", "AMD's"]);
    let c = build(scenario(), 10, &dict);

    let acorn: Vec<f64> = c.corrall("a").unwrap().into_iter().map(f64::from_bits).collect();

    let check = |c: &Correlation, a: &str, b: &str, exp: f64| {
        let co = value(c.corr(a, b));
        assert!((co - exp).abs() < EPSILON, "{}/{}: {} ({})", a, b, co, exp);
    };

    check(&c, "A", "A's", 1.);
    check(&c, "AMD", "A", 0.804030252207);
    check(&c, "AMD's", "AMD", -0.111111111111);

    let i = c.index("A's").unwrap() as usize;
    check(&c, "A", "A's", acorn[i]);
    let i = c.index("AMD").unwrap() as usize;
    check(&c, "A", "AMD", acorn[i]);
    let i = c.index("Amd's").unwrap() as usize;
    check(&c, "A", "AMD's", acorn[i]);
    let i = c.index("A").unwrap() as usize;
    check(&c, "A", "A", acorn[i]);
}

#[test]
fn exact_moments_of_scenario() {
    let dict = word_dict(&["A", "A's", "AMD", "AMD's"]);
    let p = Correlation::new(scenario(), 10, &dict).unwrap();
    let id = |w: &str| *p.dict.get(w).unwrap() as usize;
    let m = &p.moments;
    // n * sum(x^2) - sum(x)^2 with x = (1, 1, 2) over ten articles.
    assert_eq!(m.spread(id("a")), 44);
    assert_eq!(m.spread(id("amd")), 9);
    assert_eq!(m.comoment(id("amd"), id("a")), 16);
    assert_eq!(m.comoment(id("a"), id("amd")), 16);
    assert_eq!(m.comoment(id("amd's"), id("amd")), -1);
    assert_eq!(m.comoment(id("a"), id("a's")), 44);
}

#[test]
fn matrix_agreement_and_self_correlation() {
    let dict = word_dict(&["A", "A's", "AMD", "AMD's"]);
    let c = build(scenario(), 10, &dict);
    let words = ["a", "a's", "amd", "amd's"];
    for a in words {
        assert_eq!(c.corr(a, a), Some(ONE_BITS));
        let col = c.corrall(a).unwrap();
        assert_eq!(col[c.index(a).unwrap() as usize], ONE_BITS);
        for b in words {
            if a != b {
                let ab = c.corr(a, b).unwrap();
                assert_eq!(Some(ab), c.corr(b, a));
                assert_eq!(ab, col[c.index(b).unwrap() as usize]);
                assert_eq!(ab, c.corrall(b).unwrap()[c.index(a).unwrap() as usize]);
            }
        }
    }
}

#[test]
fn matrix_byte_layout() {
    let dict = word_dict(&["A", "A's", "AMD", "AMD's"]);
    let p = Correlation::new(scenario(), 10, &dict).unwrap();
    let bytes = matrix_bytes(&p);
    assert_eq!(bytes.len(), 48);
    let c = Correlation::deserialize("corr.dat".to_string(), p.dict, bytes.clone());
    let words = ["a", "a's", "amd", "amd's"];
    for a in words {
        for b in words {
            let (i, j) = (c.index(a).unwrap() as u64, c.index(b).unwrap() as u64);
            if i > j {
                let at = Correlation::find(i, j).unwrap();
                assert_eq!(at, i * (i - 1) / 2 + j);
                let cell = &bytes[(at * 8) as usize..(at * 8 + 8) as usize];
                assert_eq!(c.corr(a, b).unwrap().to_be_bytes(), cell);
            }
        }
    }
    assert_eq!(Correlation::find(3, 3), None);
    assert_eq!(Correlation::find(2, 3), Some(5));
}

#[test]
fn unknown_words_and_short_matrix() {
    let dict = word_dict(&["A", "A's", "AMD", "AMD's"]);
    let c = build(scenario(), 10, &dict);
    assert_eq!(c.corr("zebra", "a"), None);
    assert_eq!(c.corr("zebra", "zebra"), Some(ONE_BITS));
    assert_eq!(c.corrall("zebra"), None);
    assert_eq!(c.index("AMD's"), c.index("amd's"));

    let p = Correlation::new(scenario(), 10, &dict).unwrap();
    let short = Correlation::deserialize("corr.dat".to_string(), p.dict, vec![0; 8]);
    let far = ["a", "a's", "amd", "amd's"]
        .iter()
        .find(|w| short.index(w).unwrap() == 3)
        .unwrap();
    assert_eq!(short.corrall(far), None);
}

#[test]
fn pruning_drops_absent_words() {
    let dict = word_dict(&["A", "A's", "AMD", "AMD's", "zebra"]);
    let p = Correlation::new(scenario(), 10, &dict).unwrap();
    assert_eq!(p.moments.len(), 4);
    assert_eq!(p.dict.len(), 4);
    assert!(p.dict.get("zebra").is_none());
    let mut ids: Vec<u32> = p.dict.values().copied().collect();
    ids.sort();
    assert_eq!(ids, vec![0, 1, 2, 3]);
}

#[test]
fn malformed_lists_are_refused() {
    let dict = word_dict(&["A", "B"]);
    let unsorted = HashMap::from([(0, vec![(3, 1), (1, 1)]), (1, vec![(0, 1)])]);
    let e = Correlation::new(unsorted, 10, &dict).err().unwrap();
    assert_eq!(*e, ErrorKind::Serialization);
    let beyond = HashMap::from([(0, vec![(10, 1)])]);
    assert!(Correlation::new(beyond, 10, &dict).is_err());
    assert!(Correlation::new(HashMap::new(), 10, &dict).is_ok());
}

#[test]
fn row_bytes_are_big_endian_cells() {
    let cells: Vec<u64> = vec![1.0f64.to_bits(), (-0.5f64).to_bits(), 0x0102030405060708];
    let bytes = row_bytes(&cells);
    assert_eq!(bytes.len(), 24);
    assert_eq!(&bytes[0..8], &1.0f64.to_be_bytes());
    assert_eq!(&bytes[8..16], &(-0.5f64).to_be_bytes());
    assert_eq!(&bytes[16..24], &[1, 2, 3, 4, 5, 6, 7, 8]);
    assert!(row_bytes(&vec![]).is_empty());
}
