use letter_quintets::dedup::ResultSet;
use letter_quintets::driver::{assemble, run_search};
use letter_quintets::index::{build_index, check_word};
use letter_quintets::mask::{char_to_index, word_bitmask};
use letter_quintets::search::{fifth_classes, find_pairs, quads_for_index, DisjointPair};

fn strings(words: &[&str]) -> Vec<String> {
    words.iter().map(|w| w.to_string()).collect()
}

#[test]
fn char_index_lowercase() {
    assert_eq!(char_to_index('a'), Some(0));
    assert_eq!(char_to_index('z'), Some(25));
    assert_eq!(char_to_index('m'), Some(12));
}

#[test]
fn char_index_uppercase_folds() {
    assert_eq!(char_to_index('A'), Some(0));
    assert_eq!(char_to_index('Z'), Some(25));
}

#[test]
fn char_index_rejects_non_letters() {
    assert_eq!(char_to_index('3'), None);
    assert_eq!(char_to_index(' '), None);
    assert_eq!(char_to_index('!'), None);
    assert_eq!(char_to_index('é'), None);
}

#[test]
fn mask_sets_exactly_the_letter_bits() {
    assert_eq!(word_bitmask("abcde"), Some(0b11111));
    assert_eq!(word_bitmask("edcba"), Some(0b11111));
    assert_eq!(word_bitmask("zzzzz"), Some(1 << 25));
    assert_eq!(word_bitmask("jazzy"), Some((1 << 9) | 1 | (1 << 25) | (1 << 24)));
}

#[test]
fn mask_popcount_is_distinct_letter_count() {
    let m = word_bitmask("aabbc").unwrap();
    assert_eq!(m, 0b111);
    assert_eq!(m.count_ones(), 3);
    assert_eq!(word_bitmask("abcde").unwrap().count_ones(), 5);
}

#[test]
fn mask_folds_uppercase() {
    assert_eq!(word_bitmask("AbCdE"), word_bitmask("abcde"));
}

#[test]
fn mask_rejects_non_letters() {
    assert_eq!(word_bitmask("abcd3"), None);
    assert_eq!(word_bitmask("ab cd"), None);
    assert_eq!(word_bitmask("héllo"), None);
}

#[test]
fn check_word_length_five_only() {
    assert_eq!(check_word("abcd", false), None);
    assert_eq!(check_word("abcdef", false), None);
    assert_eq!(check_word("abcde", false), Some(0b11111));
}

#[test]
fn check_word_duplicate_letters_policy() {
    assert_eq!(check_word("aabcd", false), None);
    assert_eq!(check_word("aabcd", true), Some(0b1111));
}

#[test]
fn rejection_fixture_excludes_repeated_letter_word() {
    let classes = build_index(&strings(&["aabcd"]), false);
    assert_eq!(classes.len(), 0);
}

#[test]
fn repeated_letter_word_kept_when_allowed() {
    let classes = build_index(&strings(&["aabcd"]), true);
    assert_eq!(classes.len(), 1);
    assert_eq!(classes[0].mask, 0b1111);
}

#[test]
fn anagram_grouping_shares_one_class() {
    let classes = build_index(&strings(&["stare", "rates", "abcde"]), false);
    assert_eq!(classes.len(), 2);
    let stare_mask = word_bitmask("stare").unwrap();
    let group = classes.iter().find(|c| c.mask == stare_mask).unwrap();
    assert_eq!(group.words, strings(&["stare", "rates"]));
}

#[test]
fn index_is_sorted_by_mask_and_unique() {
    let classes = build_index(&strings(&["zincy", "abcde", "vwxyz", "edcba"]), false);
    assert_eq!(classes.len(), 3);
    for w in classes.windows(2) {
        assert!(w[0].mask < w[1].mask);
    }
}

#[test]
fn empty_input_yields_nothing() {
    let classes = build_index(&Vec::new(), false);
    assert_eq!(classes.len(), 0);
    let pairs = find_pairs(&classes);
    assert_eq!(pairs.len(), 0);
    let rs = run_search(&Vec::new(), false);
    assert_eq!(rs.count(), 0);
    assert_eq!(rs.combos.len(), 0);
}

#[test]
fn pairs_are_sorted_by_union_and_deduplicated() {
    let classes = build_index(&strings(&["abcde", "fghij", "klmno"]), false);
    let pairs = find_pairs(&classes);
    // Three disjoint masks give three distinct unions, kept once each even
    // though the cross product sees every ordered pair twice.
    assert_eq!(pairs.len(), 3);
    for w in pairs.windows(2) {
        assert!((w[0].m1 | w[0].m2) < (w[1].m1 | w[1].m2));
    }
    for p in &pairs {
        assert_eq!(p.m1 & p.m2, 0);
    }
}

#[test]
fn overlapping_words_give_no_pairs() {
    let classes = build_index(&strings(&["abcde", "aghij"]), false);
    let pairs = find_pairs(&classes);
    assert_eq!(pairs.len(), 0);
}

#[test]
fn quads_compose_disjoint_pairs_from_own_index() {
    let pairs = vec![
        DisjointPair { m1: 1, m2: 2 },
        DisjointPair { m1: 4, m2: 8 },
        DisjointPair { m1: 1, m2: 8 },
    ];
    let quads = quads_for_index(&pairs, 0);
    // Only the second pair is disjoint from the first; a pair is never
    // disjoint from itself.
    assert_eq!(quads.len(), 1);
    assert_eq!(
        (quads[0].m1, quads[0].m2, quads[0].m3, quads[0].m4),
        (1, 2, 4, 8)
    );
}

#[test]
fn fifths_are_the_disjoint_classes() {
    let classes = build_index(&strings(&["abcde", "fghij", "afklm"]), false);
    let quad_mask = word_bitmask("abcde").unwrap();
    let fifths = fifth_classes(&classes, quad_mask);
    assert_eq!(fifths.len(), 1);
    assert_eq!(classes[fifths[0]].mask, word_bitmask("fghij").unwrap());
}

#[test]
fn completeness_on_disjoint_five_word_set() {
    let words = ["fjord", "gucks", "nymph", "vibex", "waltz"];
    let rs = run_search(&strings(&words), false);
    assert_eq!(rs.count(), 1);
    let combo = &rs.combos[0];
    assert_eq!(combo.entries.len(), 5);
    let mut union: u32 = 0;
    for e in &combo.entries {
        assert_eq!(e.mask & union, 0);
        union |= e.mask;
        assert_eq!(e.words.len(), 1);
    }
    assert_eq!(union.count_ones(), 25);
    let mut found: Vec<String> = combo
        .entries
        .iter()
        .map(|e| e.words[0].clone())
        .collect();
    found.sort();
    let mut expected = strings(&words);
    expected.sort();
    assert_eq!(found, expected);
}

#[test]
fn words_sharing_letters_yield_no_combination() {
    // "south" and "north" share o, t and h, so no five-word cover exists here.
    let rs = run_search(&strings(&["south", "north", "realm", "bitch", "junky"]), false);
    assert_eq!(rs.count(), 0);
}

#[test]
fn results_attach_full_anagram_groups() {
    let words = ["fjord", "gucks", "nymph", "vibex", "waltz", "shout"];
    // "shout" shares letters with every solution word except none disjointly
    // relevant; it must not disturb the unique result.
    let rs = run_search(&strings(&words), false);
    assert_eq!(rs.count(), 1);

    let words2 = ["fjord", "gucks", "nymph", "vibex", "waltz", "drofj"];
    // An anagram of "fjord" joins its class and must appear in the result.
    let rs2 = run_search(&strings(&words2), false);
    assert_eq!(rs2.count(), 1);
    let fjord_mask = word_bitmask("fjord").unwrap();
    let entry = rs2.combos[0]
        .entries
        .iter()
        .find(|e| e.mask == fjord_mask)
        .unwrap();
    assert_eq!(entry.words, strings(&["fjord", "drofj"]));
}

#[test]
fn reinserting_a_seen_tuple_changes_nothing() {
    let classes = build_index(
        &strings(&["fjord", "gucks", "nymph", "vibex", "waltz"]),
        false,
    );
    let first = assemble(&classes, 0, 1, 2, 3, 4).unwrap();
    let second = assemble(&classes, 0, 1, 2, 3, 4).unwrap();
    let mut rs = ResultSet::new();
    assert!(rs.insert(first));
    assert_eq!(rs.count(), 1);
    assert!(!rs.insert(second));
    assert_eq!(rs.count(), 1);
}

#[test]
fn permuted_entries_canonicalize_identically() {
    let classes = build_index(
        &strings(&["fjord", "gucks", "nymph", "vibex", "waltz"]),
        false,
    );
    let a = assemble(&classes, 0, 1, 2, 3, 4).unwrap();
    let b = assemble(&classes, 4, 2, 0, 3, 1).unwrap();
    let keys_a: Vec<u32> = a.entries.iter().map(|e| e.mask).collect();
    let keys_b: Vec<u32> = b.entries.iter().map(|e| e.mask).collect();
    assert_eq!(keys_a, keys_b);
    for w in a.entries.windows(2) {
        assert!(w[0].mask < w[1].mask);
    }
    let mut rs = ResultSet::new();
    assert!(rs.insert(a));
    assert!(!rs.insert(b));
    assert_eq!(rs.count(), 1);
}

#[test]
fn duplicate_letters_allowed_mode_finds_smaller_covers() {
    let words = ["aabcd", "efghi", "jklmn", "opqrs", "tuvwx"];
    let rs = run_search(&strings(&words), true);
    assert_eq!(rs.count(), 1);
    let union = rs.combos[0]
        .entries
        .iter()
        .fold(0u32, |u, e| u | e.mask);
    // "aabcd" only brings four distinct letters, so the cover has 24, not 25.
    assert_eq!(union.count_ones(), 24);
    let rs_strict = run_search(&strings(&words), false);
    assert_eq!(rs_strict.count(), 0);
}

#[test]
fn identical_lines_both_join_their_class() {
    let classes = build_index(&strings(&["abcde", "abcde"]), false);
    assert_eq!(classes.len(), 1);
    assert_eq!(classes[0].words, strings(&["abcde", "abcde"]));
}

#[test]
fn assemble_refuses_overlapping_masks() {
    let classes = build_index(&strings(&["abcde", "aghij", "klmno"]), false);
    // Classes 0 and 1 share the letter a.
    let i_abcde = classes
        .iter()
        .position(|c| c.mask == word_bitmask("abcde").unwrap())
        .unwrap();
    let i_aghij = classes
        .iter()
        .position(|c| c.mask == word_bitmask("aghij").unwrap())
        .unwrap();
    let i_klmno = classes
        .iter()
        .position(|c| c.mask == word_bitmask("klmno").unwrap())
        .unwrap();
    assert!(assemble(&classes, i_abcde, i_aghij, i_klmno, i_abcde, i_aghij).is_none());
}
