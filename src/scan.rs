//! Walking the automaton over key sequences, and scanning a vocabulary from
//! one state.

use crate::automaton::{lemma_walk_len, walk_end, walk_states, vocab_view, FSMInfo};
use vstd::prelude::*;

verus! {

/// What a walk returns: every state visited, or nothing when `full_match`
/// asks for the whole sequence and it was not consumed.
pub open spec fn walk_result(trans: Map<(u32, u32), u32>, keys: Seq<u32>, start: u32, full_match: bool) -> Seq<u32> {
    let w = walk_states(trans, keys, start);
    if full_match && w.len() < keys.len() {
        seq![]
    } else {
        w
    }
}

/// The `(token id, end state)` pairs of every entry whose keys are all
/// consumed from `start`. Entries without a key sequence are ignored.
pub open spec fn scan_set(
    trans: Map<(u32, u32), u32>,
    vocab: Seq<(Seq<char>, Seq<u32>)>,
    keys: Seq<Seq<u32>>,
    start: u32,
) -> Set<(u32, u32)> {
    Set::new(
        |p: (u32, u32)|
            exists|i: int|
                0 <= i < vocab.len() && i < keys.len() && vocab[i].1.contains(p.0) && walk_end(
                    trans,
                    keys[i],
                    start,
                ) == Some(p.1),
    )
}

/// Consumes `token_transition_keys` from `start_state`, one transition per
/// key, stopping at the first key without a transition.
pub fn walk_fsm(fsm: &FSMInfo, token_transition_keys: &Vec<u32>, start_state: u32, full_match: bool) -> (r: Vec<u32>)
    ensures
        r@ == walk_result(fsm.transitions(), token_transition_keys@, start_state, full_match),
{
    let ghost trans = fsm.transitions();
    let ghost keys = token_transition_keys@;
    let mut states: Vec<u32> = Vec::new();
    let mut state = start_state;
    let mut i: usize = 0;
    while i < token_transition_keys.len()
        invariant
            trans == fsm.transitions(),
            keys == token_transition_keys@,
            i <= keys.len(),
            states@ == walk_states(trans, keys.take(i as int), start_state),
            states@.len() == i,
            state == (if i == 0 { start_state } else { states@.last() }),
        decreases keys.len() - i,
    {
        proof {
            assert(keys.take(i + 1).drop_last() == keys.take(i as int));
        }
        match fsm.next_state(state, token_transition_keys[i]) {
            Some(next) => {
                states.push(next);
                state = next;
                i += 1;
            },
            None => {
                proof {
                    lemma_walk_stuck_public(trans, keys, start_state, i as int + 1);
                    assert(keys.take(keys.len() as int) == keys);
                }
                if full_match {
                    return Vec::new();
                }
                return states;
            },
        }
    }
    proof {
        assert(keys.take(keys.len() as int) == keys);
    }
    states
}

proof fn lemma_walk_stuck_public(trans: Map<(u32, u32), u32>, keys: Seq<u32>, start: u32, i: int)
    requires
        1 <= i <= keys.len(),
        walk_states(trans, keys.take(i), start).len() < i,
    ensures
        walk_states(trans, keys, start) == walk_states(trans, keys.take(i), start),
        walk_states(trans, keys, start).len() < keys.len(),
{
    crate::automaton::lemma_walk_stuck(trans, keys, start, i, keys.len() as int);
    assert(keys.take(keys.len() as int) == keys);
}

proof fn lemma_push_keeps<A>(s: Seq<A>, x: A, y: A)
    requires
        s.contains(y),
    ensures
        s.push(x).contains(y),
{
    let k = choose|k: int| 0 <= k < s.len() && s[k] == y;
    assert(s.push(x)[k] == y);
}

/// Every `(token id, end state)` pair obtained by consuming a whole vocabulary
/// entry from `start_state`. Entries are paired with key sequences by
/// position; an entry beyond the shorter of the two lists is ignored.
pub fn state_scan_tokens(
    fsm: &FSMInfo,
    vocabulary: &Vec<(String, Vec<u32>)>,
    vocabulary_transition_keys: &Vec<Vec<u32>>,
    start_state: u32,
) -> (r: Vec<(u32, u32)>)
    ensures
        r@.to_set() == scan_set(
            fsm.transitions(),
            vocab_view(vocabulary@),
            vocabulary_transition_keys@.map_values(|k: Vec<u32>| k@),
            start_state,
        ),
{
    let ghost trans = fsm.transitions();
    let ghost vocab = vocab_view(vocabulary@);
    let ghost keys = vocabulary_transition_keys@.map_values(|k: Vec<u32>| k@);
    let ghost target = scan_set(trans, vocab, keys, start_state);
    let mut out: Vec<(u32, u32)> = Vec::new();
    let mut i: usize = 0;
    while i < vocabulary.len() && i < vocabulary_transition_keys.len()
        invariant
            trans == fsm.transitions(),
            vocab == vocab_view(vocabulary@),
            keys == vocabulary_transition_keys@.map_values(|k: Vec<u32>| k@),
            target == scan_set(trans, vocab, keys, start_state),
            i <= vocabulary.len(),
            i <= vocabulary_transition_keys.len(),
            forall|p: (u32, u32)| out@.contains(p) ==> target.contains(p),
            forall|j: int, t: u32|
                0 <= j < i && #[trigger] vocab[j].1.contains(t) && walk_end(trans, keys[j], start_state) is Some
                    ==> out@.contains((t, walk_end(trans, keys[j], start_state)->Some_0)),
        decreases vocabulary.len() - i,
    {
        let entry_keys = &vocabulary_transition_keys[i];
        let states = walk_fsm(fsm, entry_keys, start_state, true);
        proof {
            lemma_walk_len(trans, keys[i as int], start_state);
        }
        if states.len() == entry_keys.len() {
            let end = if states.len() == 0 {
                start_state
            } else {
                states[states.len() - 1]
            };
            assert(walk_end(trans, keys[i as int], start_state) == Some(end));
            let ids = &vocabulary[i].1;
            let mut j: usize = 0;
            while j < ids.len()
                invariant
                    trans == fsm.transitions(),
                    vocab == vocab_view(vocabulary@),
                    keys == vocabulary_transition_keys@.map_values(|k: Vec<u32>| k@),
                    target == scan_set(trans, vocab, keys, start_state),
                    i < vocabulary.len(),
                    i < vocabulary_transition_keys.len(),
                    ids@ == vocab[i as int].1,
                    walk_end(trans, keys[i as int], start_state) == Some(end),
                    j <= ids.len(),
                    forall|p: (u32, u32)| out@.contains(p) ==> target.contains(p),
                    forall|jj: int, t: u32|
                        0 <= jj < i && #[trigger] vocab[jj].1.contains(t) && walk_end(trans, keys[jj], start_state) is Some
                            ==> out@.contains((t, walk_end(trans, keys[jj], start_state)->Some_0)),
                    forall|k: int| 0 <= k < j ==> out@.contains((ids@[k], end)),
                decreases ids.len() - j,
            {
                let ghost old_out = out@;
                out.push((ids[j], end));
                proof {
                    assert(vocab[i as int].1.contains(ids@[j as int]));
                    assert(target.contains((ids@[j as int], end)));
                    assert forall|p: (u32, u32)| out@.contains(p) implies target.contains(p) by {
                        if p != (ids@[j as int], end) {
                            assert(old_out.contains(p));
                        }
                    }
                    assert forall|jj: int, t: u32|
                        0 <= jj < i && #[trigger] vocab[jj].1.contains(t) && walk_end(trans, keys[jj], start_state) is Some
                            implies out@.contains((t, walk_end(trans, keys[jj], start_state)->Some_0)) by {
                        lemma_push_keeps(old_out, (ids@[j as int], end), (t, walk_end(trans, keys[jj], start_state)->Some_0));
                    }
                    assert forall|k: int| 0 <= k < j + 1 implies out@.contains((ids@[k], end)) by {
                        if k < j {
                            lemma_push_keeps(old_out, (ids@[j as int], end), (ids@[k], end));
                        } else {
                            assert(out@[old_out.len() as int] == (ids@[k], end));
                        }
                    }
                }
                j += 1;
            }
            proof {
                assert forall|jj: int, t: u32|
                    0 <= jj < i + 1 && #[trigger] vocab[jj].1.contains(t) && walk_end(trans, keys[jj], start_state) is Some
                        implies out@.contains((t, walk_end(trans, keys[jj], start_state)->Some_0)) by {
                    if jj == i {
                        let k = choose|k: int| 0 <= k < ids@.len() && ids@[k] == t;
                    }
                }
            }
        } else {
            proof {
                assert(walk_end(trans, keys[i as int], start_state) is None);
            }
        }
        i += 1;
    }
    proof {
        assert forall|p: (u32, u32)| target.contains(p) implies out@.contains(p) by {
            let jj = choose|jj: int|
                0 <= jj < vocab.len() && jj < keys.len() && vocab[jj].1.contains(p.0) && walk_end(
                    trans,
                    keys[jj],
                    start_state,
                ) == Some(p.1);
            assert(vocab[jj].1.contains(p.0));
        }
        assert(out@.to_set() =~= target);
    }
    out
}

} // verus!
