use std::collections::{BTreeSet, HashMap};

use dcharmap::args::Args;
use dcharmap::find_char_map::{phrase_in_input_order, FcmData, WordTree};

fn strs(v: &[&str]) -> Vec<String> {
    v.iter().map(|s| s.to_string()).collect()
}

/// Every phrase found, in input order.
fn solve(words: &[&str], dict: &[&str]) -> BTreeSet<Vec<String>> {
    let fcm = FcmData::new(strs(words), strs(dict));
    let mut res = BTreeSet::new();
    for t in fcm.find_char_map() {
        for p in t.walk() {
            res.insert(phrase_in_input_order(&p, fcm.word_map()));
        }
    }
    res
}

/// A substitution, one-to-one over all the letters, turns `words` into `phrase`.
fn consistent(words: &[&str], phrase: &[String]) -> bool {
    let mut fwd: HashMap<char, char> = HashMap::new();
    let mut back: HashMap<char, char> = HashMap::new();
    for (w, p) in words.iter().zip(phrase) {
        let wc: Vec<char> = w.chars().collect();
        let pc: Vec<char> = p.chars().collect();
        if wc.len() != pc.len() {
            return false;
        }
        for (a, b) in wc.into_iter().zip(pc) {
            if *fwd.entry(a).or_insert(b) != b || *back.entry(b).or_insert(a) != a {
                return false;
            }
        }
    }
    true
}

/// Every phrase of dictionary lines that a one-to-one substitution makes
/// out of `words`, by trying every combination.
fn brute_force(words: &[&str], dict: &[&str]) -> BTreeSet<Vec<String>> {
    let lines: Vec<String> = dict.iter().map(|l| l.trim().to_string()).collect();
    let mut res = BTreeSet::new();
    let n = words.len();
    if n == 0 {
        return res;
    }
    let mut idx = vec![0usize; n];
    loop {
        let phrase: Vec<String> = idx.iter().map(|&i| lines[i].clone()).collect();
        if consistent(words, &phrase) {
            res.insert(phrase);
        }
        let mut k = 0;
        loop {
            if k == n {
                return res;
            }
            idx[k] += 1;
            if idx[k] < lines.len() {
                break;
            }
            idx[k] = 0;
            k += 1;
        }
    }
}

fn set(v: &[&[&str]]) -> BTreeSet<Vec<String>> {
    v.iter().map(|p| strs(p)).collect()
}

#[test]
fn dad_mom_scenario() {
    let got = solve(&["dad", "mom"], &["dad", "mom", "sis", "pop"]);
    let expected = set(&[
        &["dad", "mom"],
        &["dad", "sis"],
        &["dad", "pop"],
        &["mom", "dad"],
        &["mom", "sis"],
        &["sis", "dad"],
        &["sis", "mom"],
        &["sis", "pop"],
        &["pop", "dad"],
        &["pop", "sis"],
    ]);
    assert_eq!(got, expected);
    assert!(got.contains(&strs(&["dad", "mom"])));
}

#[test]
fn same_replacement_never_serves_two_letters() {
    // "mom" and "pop" share 'o': putting them for "dad" and "mom" would send
    // 'a' and 'o' both to 'o'.
    let got = solve(&["dad", "mom"], &["mom", "pop"]);
    assert!(got.is_empty());
}

#[test]
fn no_solution_when_a_word_has_no_bucket() {
    let got = solve(&["abc", "dad"], &["xyz", "uvw", "abc"]);
    assert!(got.is_empty());
    let fcm = FcmData::new(strs(&["abc", "dad"]), strs(&["xyz"]));
    assert!(fcm.find_char_map().is_empty());
}

#[test]
fn no_solution_when_pattern_unmatched() {
    let got = solve(&["hello", "ab"], &["xy", "world", "abcde"]);
    assert!(got.is_empty());
}

#[test]
fn shared_letters_are_replaced_alike() {
    let got = solve(&["ab", "bc"], &["xy", "yz", "zx", "yx", "xx", "qy"]);
    let expected = set(&[&["xy", "yz"], &["yz", "zx"], &["zx", "xy"], &["qy", "yz"], &["qy", "yx"]]);
    assert_eq!(got, expected);
}

#[test]
fn matches_brute_force_on_small_inputs() {
    let cases: Vec<(Vec<&str>, Vec<&str>)> = vec![
        (vec!["ab", "bc"], vec!["xy", "yz", "zx", "yx", "xx", "qy"]),
        (vec!["abc", "cab", "b"], vec!["the", "eth", "het", "h", "e", "a", "tea"]),
        (vec!["aa", "ab", "ba", "a"], vec!["oo", "oz", "zo", "o", "z", "zz"]),
        (vec!["abca", "d"], vec!["stas", "that", "x", "t", "abba"]),
        (vec!["no", "on", "onion"], vec!["to", "ot", "otiot", "is", "si", "sisis"]),
    ];
    for (words, dict) in cases {
        assert_eq!(solve(&words, &dict), brute_force(&words, &dict), "{:?}", words);
    }
}

#[test]
fn every_phrase_is_one_to_one() {
    let words = ["abc", "cab", "b"];
    let got = solve(&words, &["the", "eth", "het", "h", "e", "a", "tea", "hte"]);
    assert!(!got.is_empty());
    for p in &got {
        assert!(consistent(&words, p));
    }
}

#[test]
fn input_order_is_kept_with_repeats() {
    let words = ["mom", "ab", "mom", "ba"];
    let fcm = FcmData::new(strs(&words), strs(&["xy", "yx", "pop", "zz"]));
    let map = fcm.word_map().clone();
    assert_eq!(map.len(), 4);
    assert_eq!(map[0], map[2]);
    assert_ne!(map[1], map[3]);
    let got = solve(&words, &["xy", "yx", "pop", "zz"]);
    let expected = set(&[&["pop", "xy", "pop", "yx"], &["pop", "yx", "pop", "xy"]]);
    assert_eq!(got, expected);
}

#[test]
fn any_input_permutation_gives_the_same_phrases() {
    let dict = ["the", "eth", "het", "h", "e", "a", "tea", "hte"];
    let base = solve(&["abc", "cab", "b"], &dict);
    let perm = solve(&["b", "abc", "cab"], &dict);
    let moved: BTreeSet<Vec<String>> = base
        .iter()
        .map(|p| vec![p[2].clone(), p[0].clone(), p[1].clone()])
        .collect();
    assert_eq!(perm, moved);
}

#[test]
fn dictionary_lines_are_trimmed() {
    let got = solve(&["dad"], &["  pop \t", "sis\n", "x y x"]);
    assert_eq!(got, set(&[&["pop"], &["sis"]]));
}

#[test]
fn identity_is_a_solution() {
    let got = solve(&["hello", "world"], &["hello", "world", "yellow"]);
    assert!(got.contains(&strs(&["hello", "world"])));
}

#[test]
fn no_words_no_trees() {
    let fcm = FcmData::new(vec![], strs(&["a", "b"]));
    assert!(fcm.find_char_map().is_empty());
    assert!(fcm.word_map().is_empty());
}

#[test]
fn duplicate_dictionary_lines_give_duplicate_paths() {
    let fcm = FcmData::new(strs(&["ab"]), strs(&["xy", "xy"]));
    let trees = fcm.find_char_map();
    assert_eq!(trees.len(), 2);
    for t in &trees {
        assert_eq!(t.word, "xy");
        assert!(t.next.is_empty());
        assert_eq!(t.walk(), vec![strs(&["xy"])]);
    }
}

#[test]
fn tree_walk_lists_every_path() {
    let fcm = FcmData::new(strs(&["ab", "c"]), strs(&["xy", "yx", "z", "x"]));
    let mut all = Vec::new();
    for t in fcm.find_char_map() {
        assert!(!t.next.is_empty());
        all.extend(t.walk());
    }
    assert_eq!(all.len(), 2);
}

#[test]
fn phrase_put_back_in_input_order() {
    let r = phrase_in_input_order(&strs(&["a", "b", "c"]), &vec![2, 0, 2, 1]);
    assert_eq!(r, strs(&["c", "a", "c", "b"]));
}

#[test]
fn exit_only_when_nothing_else_asked() {
    let mut a = Args::default();
    assert!(!a.exit());
    a.exit = true;
    assert!(a.exit());
    a.words.push("abc".to_string());
    assert!(!a.exit());
    let b = Args { dict: Some("d".to_string()), exit: true, ..Args::default() };
    assert!(!b.exit());
}

#[test]
fn solving_order_most_shared_first() {
    // "abc" and "cd" share 'c'; "abc" is longer, so it goes first; then
    // "cd" with one free letter before "xyz" with three.
    let fcm = FcmData::new(strs(&["abc", "xyz", "cd"]), strs(&["pqr"]));
    assert_eq!(fcm.word_map().clone(), vec![0, 2, 1]);
}

#[test]
fn solving_order_tie_takes_the_last() {
    let fcm = FcmData::new(strs(&["ab", "cd"]), vec![]);
    assert_eq!(fcm.word_map().clone(), vec![1, 0]);
}

#[test]
fn walk_is_depth_first_one_per_leaf() {
    let leaf = |w: &str| WordTree { word: w.to_string(), next: vec![] };
    let t = WordTree {
        word: "x".to_string(),
        next: vec![WordTree { word: "y".to_string(), next: vec![leaf("a"), leaf("b")] }, leaf("z")],
    };
    let expected = vec![strs(&["x", "y", "a"]), strs(&["x", "y", "b"]), strs(&["x", "z"])];
    assert_eq!(t.walk(), expected);
    assert_eq!(t.walk(), expected);
}

#[test]
fn distinct_lines_give_one_path_each() {
    let fcm = FcmData::new(strs(&["dad"]), strs(&["abc", "  pop  ", "po"]));
    let mut all = Vec::new();
    for t in fcm.find_char_map() {
        all.extend(t.walk());
    }
    assert_eq!(all, vec![strs(&["pop"])]);
}
