use std::collections::HashMap;
use wikidle::database::correlation::{Correlation, ONE_BITS};
use wikidle::database::read::load_dict;
use wikidle::ranking::ranks_of;
use wikidle::{CState, ROOT_DAY};

fn engine(answers: &[&str]) -> CState {
    let lines: Vec<String> = ["A", "A's", "AMD", "AMD's"].iter().map(|w| w.to_string()).collect();
    let dict = load_dict(&lines);
    let dat = HashMap::from([
        (0, vec![(0, 1), (1, 1), (9, 2)]),
        (1, vec![(0, 1), (1, 1), (9, 2)]),
        (2, vec![(9, 1)]),
        (3, vec![(5, 1)]),
    ]);
    let p = Correlation::new(dat, 10, &dict).unwrap();
    let m = &p.moments;
    let mut bytes = Vec::new();
    for i in 0..m.len() {
        let row = m.row(i);
        for j in 0..i {
            let r = row[j] as f64 / ((m.spread(i) as f64) * (m.spread(j) as f64)).sqrt();
            bytes.extend_from_slice(&r.to_be_bytes());
        }
    }
    let corr = Correlation::deserialize("corr.dat".to_string(), p.dict, bytes);
    CState::new(answers.iter().map(|w| w.to_string()).collect(), corr, 1000)
}

#[test]
fn daily_rotation() {
    let s = engine(&["a", "a's", "amd", "amd's"]);
    let first = s.word(ROOT_DAY).clone();
    assert_eq!(s.answer(ROOT_DAY), &first);
    let list: Vec<String> = (0..4).map(|k| s.word(ROOT_DAY + k).clone()).collect();
    let mut sorted = list.clone();
    sorted.sort();
    assert_eq!(sorted, vec!["a", "a's", "amd", "amd's"]);
    for k in -9i64..9 {
        assert_eq!(s.word(ROOT_DAY + k), &list[k.rem_euclid(4) as usize]);
    }
    assert_eq!(s.word(ROOT_DAY - 1), &list[3]);
}

#[test]
fn rotation_is_fixed_by_the_seed() {
    let a = engine(&["w0", "w1", "w2", "w3", "w4", "w5", "w6", "w7"]);
    let b = engine(&["w0", "w1", "w2", "w3", "w4", "w5", "w6", "w7"]);
    for k in 0..8 {
        assert_eq!(a.word(ROOT_DAY + k), b.word(ROOT_DAY + k));
    }
}

#[test]
fn rank_consistency() {
    let mut s = engine(&["a"]);
    for w in ["a", "a's", "amd", "amd's"] {
        let corrs: Vec<f64> = s.corrs(w).unwrap().into_iter().map(f64::from_bits).collect();
        let ranks = s.ranks(w).unwrap();
        let mut order: Vec<usize> = (0..corrs.len()).collect();
        order.sort_by(|a, b| corrs[*b].partial_cmp(&corrs[*a]).unwrap());
        for (pos, idx) in order.iter().enumerate() {
            // ties may fall either way; the correlation at each rank agrees
            let at_rank = ranks.iter().position(|r| *r == pos).unwrap();
            assert_eq!(corrs[at_rank], corrs[*idx]);
        }
        let mut seen = ranks.clone();
        seen.sort();
        assert_eq!(seen, (0..corrs.len()).collect::<Vec<usize>>());
    }
}

#[test]
fn ranks_of_orders_descending() {
    let col: Vec<u64> = [0.5f64, 1.0, -0.25, 0.75].iter().map(|x| x.to_bits()).collect();
    assert_eq!(ranks_of(&col), vec![2, 0, 3, 1]);
    let col: Vec<u64> = [-1.0f64, -0.5, -2.0].iter().map(|x| x.to_bits()).collect();
    assert_eq!(ranks_of(&col), vec![1, 0, 2]);
    assert_eq!(ranks_of(&vec![]), Vec::<usize>::new());
}

#[test]
fn guess_parts() {
    let mut s = engine(&["amd"]);
    let ans = s.answer(ROOT_DAY).clone();
    assert_eq!(ans, "amd");
    let corr = f64::from_bits(s.corr(&ans, "A").unwrap());
    assert!((corr - 0.804030252207).abs() < 1e-12);
    assert_eq!(s.rank(&ans, "amd"), Some(0));
    let mut tied = vec![s.rank(&ans, "a").unwrap(), s.rank(&ans, "a's").unwrap()];
    tied.sort();
    assert_eq!(tied, vec![1, 2]);
    assert_eq!(s.rank(&ans, "amd's"), Some(3));
    assert_eq!(s.corr(&ans, &ans), Some(ONE_BITS));
    assert_eq!(s.corr(&ans, "zebra"), None);
    assert_eq!(s.rank("zebra", "a"), None);
}

#[test]
fn words_and_reverse_lookup() {
    let mut s = engine(&["a"]);
    let mut words = s.words();
    words.sort();
    assert_eq!(words, vec!["a", "a's", "amd", "amd's"]);
    for id in 0..4u32 {
        let w = s.of_index(id).unwrap().clone();
        assert_eq!(s.corrs(&w).unwrap()[id as usize], ONE_BITS);
    }
    assert_eq!(s.of_index(4), None);
    s.cache("a");
    assert_eq!(s.corrs("zebra"), None);
}

#[test]
fn ties_rank_by_index() {
    let col: Vec<u64> = [0.5f64, 1.0, 0.5, 1.0].iter().map(|x| x.to_bits()).collect();
    assert_eq!(ranks_of(&col), vec![2, 0, 3, 1]);
}

#[test]
fn guess_against_the_answer() {
    let mut s = engine(&["amd"]);
    let g = s.guess("A", ROOT_DAY).unwrap();
    assert!((f64::from_bits(g.corr) - 0.804030252207).abs() < 1e-12);
    assert!(!g.correct);
    let g = s.guess("amd", ROOT_DAY + 5).unwrap();
    assert!(g.correct);
    assert_eq!(g.rank, 0);
    assert_eq!(g.corr, ONE_BITS);
    assert!(s.guess("zebra", ROOT_DAY).is_none());
}

#[test]
fn corr_matrix_and_raw() {
    let mut s = engine(&["a"]);
    let a = vec!["amd".to_string(), "a".to_string()];
    let b = vec!["a".to_string(), "amd's".to_string()];
    let m = s.corr_matrix(&a, &b).unwrap();
    assert!((f64::from_bits(m[0][0]) - 0.804030252207).abs() < 1e-12);
    assert_eq!(m[1][0], ONE_BITS);
    assert_eq!(m[0][1], s.corr("amd", "amd's").unwrap());
    assert!(s.corr_matrix(&a, &vec!["zebra".to_string()]).is_none());

    let raw = s.raw("amd").unwrap();
    let names: Vec<&str> = raw.iter().map(|(w, _)| w.as_str()).collect();
    assert_eq!(names[0], "amd");
    assert_eq!(names.len(), 4);
    assert_eq!(names[3], "amd's");
    let values: Vec<f64> = raw.iter().map(|(_, v)| f64::from_bits(*v)).collect();
    assert!(values.windows(2).all(|w| w[0] >= w[1]));
    assert!(s.raw("zebra").is_none());
}
