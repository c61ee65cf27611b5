use dcharmap::pattern::{chars_of, relative_pattern, relative_representation};

fn pat(s: &str) -> Vec<usize> {
    let mut map = Vec::new();
    relative_representation(&chars_of(s), &mut map)
}

#[test]
fn pattern_of_abba_and_xyyx() {
    assert_eq!(pat("abba"), vec![0, 1, 1, 0]);
    assert_eq!(pat("xyyx"), vec![0, 1, 1, 0]);
}

#[test]
fn pattern_of_abab_and_xyxy() {
    assert_eq!(pat("abab"), vec![0, 1, 0, 1]);
    assert_eq!(pat("xyxy"), vec![0, 1, 0, 1]);
    assert_ne!(pat("abab"), pat("abba"));
}

#[test]
fn pattern_of_empty_word() {
    assert_eq!(pat(""), Vec::<usize>::new());
}

#[test]
fn pattern_with_seeded_table() {
    let mut map = vec!['q', 'a'];
    let r = relative_representation(&chars_of("abqc"), &mut map);
    assert_eq!(r, vec![1, 2, 0, 3]);
    assert_eq!(map, vec!['q', 'a', 'b', 'c']);
}

#[test]
fn cut_table_undoes_labels() {
    let mut map = Vec::new();
    relative_representation(&chars_of("ab"), &mut map);
    let len = map.len();
    relative_representation(&chars_of("cd"), &mut map);
    map.truncate(len);
    let r = relative_representation(&chars_of("db"), &mut map);
    assert_eq!(r, vec![2, 1]);
}

#[test]
fn canonical_pattern_is_unchanged() {
    for w in ["hello", "abcabc", "aaaa", "", "mississippi"] {
        let p = pat(w);
        assert_eq!(relative_pattern(&p), p);
    }
}

#[test]
fn pattern_of_labels_with_offset() {
    assert_eq!(relative_pattern(&vec![5, 3, 5, 7]), vec![0, 1, 0, 2]);
}

#[test]
fn chars_of_unicode() {
    assert_eq!(chars_of("aé€"), vec!['a', 'é', '€']);
}
