use outlines_core::automaton::FSMInfo;
use outlines_core::encoding::{get_char_transition_key, get_token_transition_keys, get_vocabulary_transition_keys};
use outlines_core::index::create_fsm_index_end_to_end;
use outlines_core::scan::{state_scan_tokens, walk_fsm};
use std::collections::HashSet;

fn two_state_fsm() -> FSMInfo {
    let finals: HashSet<u32> = [1u32].into_iter().collect();
    FSMInfo::new(0, finals, vec![((0, 5), 1)], 99, vec![("a".to_string(), 5)])
}

fn vocab(entries: &[(&str, &[u32])]) -> Vec<(String, Vec<u32>)> {
    entries.iter().map(|(t, ids)| (t.to_string(), ids.to_vec())).collect()
}

fn sorted(mut index: Vec<(u32, Vec<(u32, u32)>)>) -> Vec<(u32, Vec<(u32, u32)>)> {
    for entry in index.iter_mut() {
        entry.1.sort();
        entry.1.dedup();
    }
    index.sort();
    index
}

// abc chain: 0 -a-> 1 -b-> 2 -c-> 3, and 3 -a-> 1
fn chain_fsm() -> FSMInfo {
    let finals: HashSet<u32> = [3u32].into_iter().collect();
    FSMInfo::new(
        0,
        finals,
        vec![((0, 1), 1), ((1, 2), 2), ((2, 3), 3), ((3, 1), 1)],
        0,
        vec![("a".to_string(), 1), ("b".to_string(), 2), ("c".to_string(), 3), ("<eos>".to_string(), 7)],
    )
}

#[test]
fn two_state_index_scenario() {
    let fsm = two_state_fsm();
    let v = vocab(&[("a", &[10]), ("b", &[11])]);
    let keys = get_vocabulary_transition_keys(&fsm, &v, &vec![]);
    assert_eq!(keys, vec![vec![5], vec![99]]);
    let index = create_fsm_index_end_to_end(&fsm, &v, &vec![]);
    assert_eq!(sorted(index), vec![(0, vec![(10, 1)])]);
}

#[test]
fn char_key_known_and_unknown() {
    let fsm = chain_fsm();
    assert_eq!(get_char_transition_key(&fsm, 'b'), 2);
    assert_eq!(get_char_transition_key(&fsm, 'z'), 0);
}

#[test]
fn token_keys_per_character() {
    let fsm = chain_fsm();
    assert_eq!(get_token_transition_keys(&fsm, "abzc"), vec![1, 2, 0, 3]);
    assert_eq!(get_token_transition_keys(&fsm, ""), Vec::<u32>::new());
}

#[test]
fn frozen_token_is_one_key() {
    let fsm = chain_fsm();
    let v = vocab(&[("<eos>", &[1]), ("<unk>", &[2]), ("ab", &[3])]);
    let frozen = vec!["<eos>".to_string(), "<unk>".to_string()];
    let keys = get_vocabulary_transition_keys(&fsm, &v, &frozen);
    assert_eq!(keys, vec![vec![7], vec![0], vec![1, 2]]);
    let unfrozen = get_vocabulary_transition_keys(&fsm, &v, &vec![]);
    assert_eq!(unfrozen[0].len(), 5);
}

#[test]
fn walk_full_and_partial() {
    let fsm = chain_fsm();
    assert_eq!(walk_fsm(&fsm, &vec![1, 2, 3, 1], 0, true), vec![1, 2, 3, 1]);
    assert_eq!(walk_fsm(&fsm, &vec![1, 2, 2], 0, false), vec![1, 2]);
    assert_eq!(walk_fsm(&fsm, &vec![1, 2, 2], 0, true), Vec::<u32>::new());
    assert_eq!(walk_fsm(&fsm, &vec![2], 0, false), Vec::<u32>::new());
    assert_eq!(walk_fsm(&fsm, &vec![], 2, true), Vec::<u32>::new());
}

#[test]
fn scan_skips_partial_tokens() {
    let fsm = chain_fsm();
    let v = vocab(&[("ab", &[1, 2]), ("abb", &[3]), ("c", &[4]), ("", &[5])]);
    let keys = get_vocabulary_transition_keys(&fsm, &v, &vec![]);
    let mut pairs = state_scan_tokens(&fsm, &v, &keys, 0);
    pairs.sort();
    pairs.dedup();
    assert_eq!(pairs, vec![(1, 2), (2, 2), (5, 0)]);
}

#[test]
fn chain_index_round_trip() {
    let fsm = chain_fsm();
    let v = vocab(&[("a", &[1]), ("bc", &[2]), ("cab", &[3]), ("b", &[4])]);
    let keys = get_vocabulary_transition_keys(&fsm, &v, &vec![]);
    let index = sorted(create_fsm_index_end_to_end(&fsm, &v, &vec![]));
    assert_eq!(
        index,
        vec![(0, vec![(1, 1)]), (1, vec![(2, 3), (4, 2)]), (2, vec![(3, 2)]), (3, vec![(1, 1)])]
    );
    for (state, pairs) in &index {
        for (token, end) in pairs {
            let i = v.iter().position(|e| e.1.contains(token)).unwrap();
            let walked = walk_fsm(&fsm, &keys[i], *state, true);
            assert_eq!(walked.last(), Some(end));
        }
    }
}

#[test]
fn index_is_deterministic() {
    let fsm = chain_fsm();
    let v = vocab(&[("a", &[1]), ("bc", &[2]), ("cab", &[3]), ("b", &[4]), ("abca", &[5])]);
    let first = sorted(create_fsm_index_end_to_end(&fsm, &v, &vec![]));
    let second = sorted(create_fsm_index_end_to_end(&fsm, &v, &vec![]));
    assert_eq!(first, second);
    let mut reversed = v.clone();
    reversed.reverse();
    assert_eq!(first, sorted(create_fsm_index_end_to_end(&fsm, &reversed, &vec![])));
}

#[test]
fn unreachable_states_are_not_indexed() {
    let finals: HashSet<u32> = HashSet::new();
    let fsm = FSMInfo::new(0, finals, vec![((0, 1), 1), ((5, 1), 6)], 0, vec![("a".to_string(), 1)]);
    let v = vocab(&[("a", &[1])]);
    let index = sorted(create_fsm_index_end_to_end(&fsm, &v, &vec![]));
    assert_eq!(index, vec![(0, vec![(1, 1)])]);
}

#[test]
fn frozen_token_indexed_as_one_edge() {
    let finals: HashSet<u32> = HashSet::new();
    let fsm = FSMInfo::new(0, finals, vec![((0, 9), 4)], 0, vec![("<s>".to_string(), 9)]);
    let v = vocab(&[("<s>", &[100])]);
    let frozen = vec!["<s>".to_string()];
    assert_eq!(sorted(create_fsm_index_end_to_end(&fsm, &v, &frozen)), vec![(0, vec![(100, 4)])]);
    assert_eq!(create_fsm_index_end_to_end(&fsm, &v, &vec![]).len(), 0);
}

#[test]
fn later_transition_replaces_earlier() {
    let fsm = FSMInfo::new(0, HashSet::new(), vec![((0, 1), 1), ((0, 1), 2)], 0, vec![]);
    assert_eq!(fsm.next_state(0, 1), Some(2));
    assert_eq!(fsm.next_state(0, 2), None);
    assert_eq!(fsm.initial(), 0);
}
