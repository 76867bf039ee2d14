use stream_replace::{Replace, ReplaceIter, Replacement};

#[test]
fn test_replace_simple() {
    let v: Vec<u32> = vec![1, 2, 3].replace(&[2], &[10]);
    assert_eq!(v, vec![1, 10, 3]);
}

#[test]
fn test_replace_longer() {
    let v: Vec<u32> = vec![3, 4, 5, 6, 7, 8, 9].replace(&[4, 5], &[100]);
    assert_eq!(v, vec![3, 100, 6, 7, 8, 9]);
}

#[test]
fn test_replace_multi_matches() {
    let v: Vec<u32> = vec![3, 4, 5, 6, 4, 5, 9].replace(&[4, 5], &[100, 200, 300]);
    assert_eq!(v, vec![3, 100, 200, 300, 6, 100, 200, 300, 9]);
}

#[test]
fn test_nearly_match() {
    let v: Vec<u32> = vec![3, 4, 5, 6].replace(&[4, 5, 1], &[100, 200]);
    assert_eq!(v, vec![3, 4, 5, 6]);
}

#[test]
fn test_replace_overlapping() {
    let v: Vec<u32> = vec![3, 4, 5, 4, 5, 4, 9].replace(&[4, 5, 4, 5], &[100]);
    assert_eq!(v, vec![3, 100, 4, 9]);
}

#[test]
fn test_replace_all_single() {
    let reps = vec![Replacement::new(b"ab", b"AB")];
    let v: Vec<u8> = b"abcacab".to_vec().replace_all(reps);
    assert_eq!(v.as_slice(), b"ABcacAB");
}

#[test]
fn test_many_replacements() {
    let reps = vec![Replacement::new(b"abc", b"_ABC_"), Replacement::new(b"de", b"_DE_")];
    let v: Vec<u8> = b"ababcdef".to_vec().replace_all(reps);
    assert_eq!(v.as_slice(), b"ab_ABC__DE_f");
}

#[test]
fn test_overlapping_patterns_in_declared_order() {
    // the second pattern never wins: the first always completes earlier
    let reps = vec![Replacement::new(b"ab", b"_AB_"), Replacement::new(b"abc", b"_ABC_")];
    let v: Vec<u8> = b"abcabc".to_vec().replace_all(reps);
    assert_eq!(v.as_slice(), b"_AB_c_AB_c");
}

#[test]
fn absent_pattern_leaves_input_unchanged() {
    let v: Vec<u32> = vec![5, 6, 7, 5, 6].replace(&[6, 5, 7], &[1]);
    assert_eq!(v, vec![5, 6, 7, 5, 6]);
}

#[test]
fn identity_replacement_round_trips() {
    let v: Vec<u8> = b"abababa".to_vec().replace(b"aba", b"aba");
    assert_eq!(v.as_slice(), b"abababa");
}

#[test]
fn tokens_before_a_later_match_are_kept() {
    // the longer pattern's open candidate at `a` is dropped when the
    // shorter one completes, but the `a` itself still comes out
    let reps = vec![Replacement::new(b"abcd", b"X"), Replacement::new(b"bc", b"Y")];
    let v: Vec<u8> = b"abce".to_vec().replace_all(reps);
    assert_eq!(v.as_slice(), b"aYe");
}

#[test]
fn same_end_goes_to_first_declared() {
    let reps = vec![Replacement::new(b"bc", b"1"), Replacement::new(b"abc", b"2")];
    let v: Vec<u8> = b"abc".to_vec().replace_all(reps);
    assert_eq!(v.as_slice(), b"a1");
    let reps = vec![Replacement::new(b"abc", b"2"), Replacement::new(b"bc", b"1")];
    let v: Vec<u8> = b"abc".to_vec().replace_all(reps);
    assert_eq!(v.as_slice(), b"2");
}

#[test]
fn open_candidate_at_end_is_emitted() {
    let v: Vec<u32> = vec![1, 2, 3, 4].replace(&[3, 4, 5], &[0]);
    assert_eq!(v, vec![1, 2, 3, 4]);
}

#[test]
fn empty_input_gives_empty_output() {
    let v: Vec<u32> = Vec::new().replace(&[1], &[2]);
    assert_eq!(v, Vec::<u32>::new());
}

#[test]
fn empty_replacement_deletes() {
    let v: Vec<u32> = vec![1, 2, 1, 2, 3].replace(&[1, 2], &[]);
    assert_eq!(v, vec![3]);
}

#[test]
fn no_patterns_copies_input() {
    let v: Vec<u8> = b"xyz".to_vec().replace_all(Vec::new());
    assert_eq!(v.as_slice(), b"xyz");
}

#[test]
fn whole_input_is_one_match() {
    let v: Vec<u32> = vec![7, 7, 7].replace(&[7, 7, 7], &[1, 2]);
    assert_eq!(v, vec![1, 2]);
}

#[test]
fn self_overlapping_run_matches_without_overlap() {
    let v: Vec<u8> = b"aaaaa".to_vec().replace(b"aa", b"b");
    assert_eq!(v.as_slice(), b"bba");
}

#[test]
fn push_hands_out_tokens_as_soon_as_decided() {
    let mut r = Replace::new(vec![Replacement::new(&[2u32][..], &[10u32, 11][..])]);
    assert_eq!(r.next(), None);
    r.push(1);
    assert_eq!(r.next(), Some(1));
    assert_eq!(r.next(), None);
    r.push(2);
    assert_eq!(r.next(), Some(10));
    assert_eq!(r.next(), Some(11));
    assert_eq!(r.next(), None);
    r.push(3);
    assert_eq!(r.next(), Some(3));
    r.finish();
    assert!(r.is_ended());
    assert_eq!(r.consumed(), 3);
    assert_eq!(r.next(), None);
}

#[test]
fn open_candidate_holds_tokens_back_until_broken() {
    let mut r = Replace::new(vec![Replacement::new(&[4u32, 5][..], &[9u32][..])]);
    r.push(4);
    assert_eq!(r.next(), None);
    r.push(6);
    assert_eq!(r.next(), Some(4));
    assert_eq!(r.next(), Some(6));
    assert_eq!(r.next(), None);
}

#[test]
fn finish_releases_pending_tokens() {
    let mut r = Replace::new(vec![Replacement::new(&[3u32, 4, 5][..], &[0u32][..])]);
    r.push(1);
    r.push(3);
    r.push(4);
    assert_eq!(r.next(), Some(1));
    assert_eq!(r.next(), None);
    r.finish();
    assert_eq!(r.next(), Some(3));
    assert_eq!(r.next(), Some(4));
    assert_eq!(r.next(), None);
}

#[test]
fn replacement_keeps_its_search_sequence() {
    let r = Replacement::new(&[1u32, 2][..], &[3u32][..]);
    assert_eq!(r.search_for(), &[1, 2]);
}

#[test]
fn shadowed_pattern_can_be_dropped() {
    let with = vec![Replacement::new(b"ab", b"1"), Replacement::new(b"abc", b"2"), Replacement::new(b"c", b"3")];
    let without = vec![Replacement::new(b"ab", b"1"), Replacement::new(b"c", b"3")];
    let a: Vec<u8> = b"xabcabcc".to_vec().replace_all(with);
    let b: Vec<u8> = b"xabcabcc".to_vec().replace_all(without);
    assert_eq!(a, b);
    assert_eq!(a.as_slice(), b"x13133");
}
